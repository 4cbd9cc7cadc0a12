//! The screen framework's widget model: the sprite sheets a widget picks
//! from, the widgets themselves, and where a button's label sits.

use vstd::prelude::*;
use crate::arith::tdiv;
use crate::text::{chars_of, string_from_chars};

verus! {

/// Which screen is open.
#[derive(Clone, Copy, PartialEq, Eq, Debug, Hash, Structural)]
pub enum ScreenKind {
    Inventory,
    Death,
    Stats,
    Pause,
    ServerLinks,
    Disconnected,
    Options,
    SignEdit,
}

/// A widget's identity within its screen.
pub type WidgetId = u32;

/// The three states of the shared button sheet.
#[derive(Clone, Copy, PartialEq, Eq, Debug, Structural)]
pub enum ButtonSprite {
    Enabled,
    Disabled,
    Highlighted,
}

/// `Button.DEFAULT_HEIGHT` / `DEFAULT_WIDTH`, and the font's line height.
pub const BUTTON_HEIGHT: i32 = 20;
pub const BUTTON_WIDTH: i32 = 200;
pub const LINE_HEIGHT: i32 = 9;

/// The sheets a sprite-drawn widget can pick from.
#[derive(Clone, Copy, PartialEq, Eq, Debug, Structural)]
pub enum Sprite {
    Tab,
    TabHighlighted,
    TabSelected,
    TabSelectedHighlighted,
    StatHeader,
    Slot,
    StatColumn(u8),
    SortUp,
    SortDown,
}

/// `WidgetSprites(enabled, disabled, enabledFocused, disabledFocused)`.
#[derive(Clone, Copy, PartialEq, Eq, Debug, Structural)]
pub struct WidgetSprites {
    pub enabled: Sprite,
    pub disabled: Sprite,
    pub enabled_focused: Sprite,
    pub disabled_focused: Sprite,
}

impl WidgetSprites {
    /// The two-argument constructor: the same sheet enabled and disabled,
    /// and the focused sheet in both focused slots.
    pub fn two(sprite: Sprite, focused: Sprite) -> (r: Self)
        ensures
            r == (WidgetSprites { enabled: sprite, disabled: sprite, enabled_focused: focused, disabled_focused: focused }),
    {
        WidgetSprites { enabled: sprite, disabled: sprite, enabled_focused: focused, disabled_focused: focused }
    }

    /// The four-argument constructor, in declared order.
    pub fn four(enabled: Sprite, disabled: Sprite, enabled_focused: Sprite, disabled_focused: Sprite) -> (r: Self)
        ensures
            r == (WidgetSprites { enabled, disabled, enabled_focused, disabled_focused }),
    {
        WidgetSprites { enabled, disabled, enabled_focused, disabled_focused }
    }

    /// `WidgetSprites.get(enabled, focused)`.
    pub open spec fn get_spec(self, enabled: bool, focused: bool) -> Sprite {
        if enabled {
            if focused { self.enabled_focused } else { self.enabled }
        } else {
            if focused { self.disabled_focused } else { self.disabled }
        }
    }

    pub fn get(&self, enabled: bool, focused: bool) -> (r: Sprite)
        ensures
            r == self.get_spec(enabled, focused),
    {
        match (enabled, focused) {
            (true, true) => self.enabled_focused,
            (true, false) => self.enabled,
            (false, true) => self.disabled_focused,
            (false, false) => self.disabled,
        }
    }
}

/// What kind of widget a [`Widget`] is.
#[derive(Clone, Debug, PartialEq)]
pub enum WidgetKind {
    Button,
    Label { centered: bool },
    MultiLabel { lines: Vec<String>, centered: bool },
    Reserved,
    Sprites { sprites: WidgetSprites, first: bool, overlay: Option<Sprite>, label: bool },
}

/// One widget of a screen, in GUI pixels.
#[derive(Clone, Debug, PartialEq)]
pub struct Widget {
    pub id: WidgetId,
    pub x: i32,
    pub y: i32,
    pub width: i32,
    pub height: i32,
    pub active: bool,
    pub visible: bool,
    pub message: String,
    pub kind: WidgetKind,
}

/// Lines joined with single spaces.
pub open spec fn join_lines(lines: Seq<Seq<char>>) -> Seq<char>
    decreases lines.len(),
{
    if lines.len() == 0 {
        Seq::empty()
    } else if lines.len() == 1 {
        lines[0]
    } else {
        join_lines(lines.drop_last()) + seq![' '] + lines.last()
    }
}

fn join_with_spaces(lines: &Vec<String>) -> (r: String)
    ensures
        r@ == join_lines(lines@.map_values(|s: String| s@)),
{
    let ghost v = lines@.map_values(|s: String| s@);
    let mut out: Vec<char> = Vec::new();
    let n = lines.len();
    let mut i: usize = 0;
    while i < n
        invariant
            n == lines@.len(),
            v == lines@.map_values(|s: String| s@),
            i <= n,
            out@ == join_lines(v.take(i as int)),
        decreases n - i,
    {
        let ghost before = out@;
        if i > 0 {
            out.push(' ');
        }
        let cs = chars_of(lines[i].as_str());
        let m = cs.len();
        let mut k: usize = 0;
        let ghost mid = out@;
        while k < m
            invariant
                m == cs@.len(),
                k <= m,
                out@ == mid + cs@.take(k as int),
            decreases m - k,
        {
            out.push(cs[k]);
            proof {
                assert(cs@.take(k + 1) =~= cs@.take(k as int).push(cs@[k as int]));
            }
            k = k + 1;
        }
        proof {
            assert(cs@.take(m as int) =~= cs@);
            assert(v.take(i + 1).drop_last() =~= v.take(i as int));
            assert(v.take(i + 1).last() == cs@);
            if i == 0 {
                assert(out@ =~= join_lines(v.take(1)));
            } else {
                assert(out@ =~= join_lines(v.take(i + 1)));
            }
        }
        i = i + 1;
    }
    proof {
        assert(v.take(n as int) =~= v);
    }
    string_from_chars(&out)
}

impl Widget {
    /// A standard button: active and visible.
    pub fn button(id: WidgetId, x: i32, y: i32, width: i32, height: i32, message: &str) -> (r: Self)
        ensures
            r.id == id && r.x == x && r.y == y && r.width == width && r.height == height,
            r.active && r.visible,
            r.message@ == message@,
            r.kind == WidgetKind::Button,
    {
        Widget { id, x, y, width, height, active: true, visible: true, message: message.to_owned(), kind: WidgetKind::Button }
    }

    /// A `StringWidget`: one line tall, and inactive by construction.
    pub fn label(id: WidgetId, x: i32, y: i32, width: i32, message: &str) -> (r: Self)
        ensures
            r.id == id && r.x == x && r.y == y && r.width == width && r.height == LINE_HEIGHT,
            !r.active && r.visible,
            r.message@ == message@,
            r.kind == (WidgetKind::Label { centered: false }),
    {
        Widget {
            id,
            x,
            y,
            width,
            height: LINE_HEIGHT,
            active: false,
            visible: true,
            message: message.to_owned(),
            kind: WidgetKind::Label { centered: false },
        }
    }

    /// A `MultiLineTextWidget`: one line height per line, inactive, its
    /// message the lines joined with spaces.
    pub fn multi_label(id: WidgetId, x: i32, y: i32, width: i32, lines: Vec<String>, centered: bool) -> (r: Self)
        requires
            LINE_HEIGHT * lines@.len() <= i32::MAX,
        ensures
            r.id == id && r.x == x && r.y == y && r.width == width,
            r.height == LINE_HEIGHT * lines@.len(),
            !r.active && r.visible,
            r.message@ == join_lines(lines@.map_values(|s: String| s@)),
            r.kind == (WidgetKind::MultiLabel { lines, centered }),
    {
        let message = join_with_spaces(&lines);
        let height = LINE_HEIGHT * lines.len() as i32;
        Widget { id, x, y, width, height, active: false, visible: true, message, kind: WidgetKind::MultiLabel { lines, centered } }
    }

    /// A slot in the layout that draws nothing and takes no input.
    pub fn reserved(id: WidgetId, x: i32, y: i32, width: i32, height: i32) -> (r: Self)
        ensures
            r.id == id && r.x == x && r.y == y && r.width == width && r.height == height,
            !r.active && r.visible,
            r.message@.len() == 0,
            r.kind == WidgetKind::Reserved,
    {
        Widget { id, x, y, width, height, active: false, visible: true, message: String::new(), kind: WidgetKind::Reserved }
    }

    /// The same widget with another kind.
    pub fn with_kind(self, kind: WidgetKind) -> (r: Self)
        ensures
            r == (Widget { kind, ..self }),
    {
        let mut w = self;
        w.kind = kind;
        w
    }

    pub fn right(&self) -> (r: i32)
        requires
            self.x + self.width <= i32::MAX,
            self.x + self.width >= i32::MIN,
        ensures
            r == self.x + self.width,
    {
        self.x + self.width
    }

    pub fn bottom(&self) -> (r: i32)
        requires
            self.y + self.height <= i32::MAX,
            self.y + self.height >= i32::MIN,
        ensures
            r == self.y + self.height,
    {
        self.y + self.height
    }

    /// Visible and active: what clicks and keys reach.
    pub fn is_active(&self) -> (r: bool)
        ensures
            r == (self.visible && self.active),
    {
        self.visible && self.active
    }

    /// The button sheet: an inactive button is disabled whatever the cursor
    /// does (`disabledFocused == disabled`); an active one highlights when
    /// hovered or focused.
    pub open spec fn sprite_spec(self, hovered: bool, focused: bool) -> ButtonSprite {
        if !self.active {
            ButtonSprite::Disabled
        } else if hovered || focused {
            ButtonSprite::Highlighted
        } else {
            ButtonSprite::Enabled
        }
    }

    pub fn sprite(&self, hovered: bool, focused: bool) -> (r: ButtonSprite)
        ensures
            r == self.sprite_spec(hovered, focused),
    {
        match (self.active, hovered || focused) {
            (true, true) => ButtonSprite::Highlighted,
            (true, false) => ButtonSprite::Enabled,
            (false, _) => ButtonSprite::Disabled,
        }
    }

    /// Where a label of `line_width` pixels is drawn inside this widget:
    /// centred between the 2-px text margins, clamped so its left edge stays
    /// inside them, and one pixel below the true vertical centre.
    pub open spec fn label_anchor_spec(self, line_width: int) -> (int, int) {
        let left = self.x + 2;
        let right = self.x + self.width - 2;
        let text_top = tdiv(self.y + self.y + self.height - 9, 2) + 1;
        let center_x = tdiv(left + right, 2);
        let lo = left + tdiv(line_width, 2);
        let hi = right - tdiv(line_width, 2);
        let min = if lo <= hi { lo } else { hi };
        let max = if hi >= lo { hi } else { lo };
        (if center_x < min { min } else if center_x > max { max } else { center_x }, text_top)
    }

    pub fn label_anchor(&self, line_width: i32) -> (r: (i32, i32))
        requires
            i32::MIN / 4 <= self.x <= i32::MAX / 4,
            i32::MIN / 4 <= self.y <= i32::MAX / 4,
            i32::MIN / 4 <= self.width <= i32::MAX / 4,
            i32::MIN / 4 <= self.height <= i32::MAX / 4,
        ensures
            r.0 == self.label_anchor_spec(line_width as int).0,
            r.1 == self.label_anchor_spec(line_width as int).1,
    {
        let left = self.x + 2;
        let right = self.right() - 2;
        let top = self.y;
        let bottom = self.bottom();
        let text_top = (top + bottom - 9) / 2 + 1;
        let center_x = (left + right) / 2;
        let half = line_width / 2;
        let lo = left as i64 + half as i64;
        let hi = right as i64 - half as i64;
        let min = if lo <= hi { lo } else { hi };
        let max = if hi >= lo { hi } else { lo };
        let c = center_x as i64;
        let x = if c < min { min } else if c > max { max } else { c };
        (x as i32, text_top)
    }
}

/// What a mouse press did.
#[derive(Clone, Copy, PartialEq, Eq, Debug, Structural)]
pub enum MouseResult {
    Pressed(WidgetId),
    Consumed,
    Ignored,
}

/// What a key press did.
#[derive(Clone, Copy, PartialEq, Eq, Debug, Structural)]
pub enum KeyResult {
    Pressed(WidgetId),
    Close,
    Handled,
    Ignored,
}

/// GLFW codes the framework binds.
pub const KEY_ESCAPE: i32 = 256;
pub const KEY_ENTER: i32 = 257;
pub const KEY_TAB: i32 = 258;
pub const KEY_SPACE: i32 = 32;
pub const KEY_KP_ENTER: i32 = 335;

/// `InputWithModifiers.isSelection` — Enter, Space or keypad Enter.
pub fn is_selection(key: i32) -> (r: bool)
    ensures
        r == (key == KEY_ENTER || key == KEY_SPACE || key == KEY_KP_ENTER),
{
    key == KEY_ENTER || key == KEY_SPACE || key == KEY_KP_ENTER
}

/// Whether the menu background is the in-world one.
#[derive(Clone, Copy, PartialEq, Eq, Debug)]
pub struct MenuBackground {
    pub in_world: bool,
}

/// The gradient a screen paints behind its widgets, as the two `ARGB`
/// ints `fillGradient` is given: `top` at the top edge, `bottom` at the
/// bottom.
#[derive(Clone, Copy, PartialEq, Eq, Debug, Structural)]
pub struct Backdrop {
    pub top: u32,
    pub bottom: u32,
}

impl Backdrop {
    pub fn argb(top: u32, bottom: u32) -> (r: Self)
        ensures
            r == (Backdrop { top, bottom }),
    {
        Backdrop { top, bottom }
    }

    /// The in-world menu dim, `0xC0101010` to `0xD0101010`.
    pub fn transparent() -> (r: Self)
        ensures
            r == (Backdrop { top: 0xC010_1010u32, bottom: 0xD010_1010u32 }),
    {
        Backdrop { top: 0xC010_1010, bottom: 0xD010_1010 }
    }
}

/// Widget `i` can take the focus: it is active, and it is not `skip`.
pub open spec fn can_focus(ws: Seq<Widget>, i: int, skip: Option<usize>) -> bool {
    ws[i].visible && ws[i].active && skip != Some(i as usize)
}

/// The first widget from `i` on that can take the focus.
pub open spec fn first_from(ws: Seq<Widget>, i: int, skip: Option<usize>) -> Option<int>
    decreases ws.len() - i,
{
    if i < 0 || i >= ws.len() {
        None
    } else if can_focus(ws, i, skip) {
        Some(i)
    } else {
        first_from(ws, i + 1, skip)
    }
}

/// The last widget before `k` that can take the focus.
pub open spec fn last_before(ws: Seq<Widget>, k: int, skip: Option<usize>) -> Option<int>
    decreases k,
{
    if k <= 0 {
        None
    } else if can_focus(ws, k - 1, skip) {
        Some(k - 1)
    } else {
        last_before(ws, k - 1, skip)
    }
}

/// The walk a Tab takes: forward from `start` on, or backward from just
/// before `start` (held to the list).
pub open spec fn scan_spec(ws: Seq<Widget>, start: int, forward: bool, skip: Option<usize>) -> Option<int> {
    if forward {
        first_from(ws, start, skip)
    } else {
        last_before(ws, if start < ws.len() { start } else { ws.len() as int }, skip)
    }
}

/// Where Tab (forward) or Shift-Tab moves the focus: the next widget that
/// can take it after the focused one (or from the end, backward, when none
/// is focused), skipping the focused one; past the end the focus is cleared
/// and the walk starts over from the other end. With no widgets nothing
/// changes.
pub open spec fn cycled_focus(ws: Seq<Widget>, focus: Option<usize>, forward: bool) -> Option<usize> {
    let n = ws.len() as int;
    if n == 0 {
        focus
    } else {
        let start = match focus {
            Some(i) => if forward { i + 1 } else { i as int },
            None => if forward { 0 } else { n },
        };
        match scan_spec(ws, start, forward, focus) {
            Some(i) => Some(i as usize),
            None => match scan_spec(ws, if forward { 0 } else { n }, forward, None) {
                Some(i) => Some(i as usize),
                None => None,
            },
        }
    }
}

/// The index of the first widget in `ws` with `id`, if any.
pub open spec fn first_with_id(ws: Seq<Widget>, id: WidgetId) -> Option<int> {
    if exists|i: int| 0 <= i < ws.len() && ws[i].id == id {
        Some(choose|i: int| 0 <= i < ws.len() && ws[i].id == id && forall|j: int| 0 <= j < i ==> ws[j].id != id)
    } else {
        None
    }
}

/// One open screen: its widgets, what it paints behind them, whether Esc
/// closes it, and its own tick clock and focus.
#[derive(Clone, Debug)]
pub struct Screen {
    pub kind: ScreenKind,
    pub widgets: Vec<Widget>,
    pub backdrop: Option<Backdrop>,
    pub menu_background: Option<MenuBackground>,
    pub close_on_esc: bool,
    pub pause: bool,
    pub width: i32,
    pub height: i32,
    pub ticks: u32,
    /// The index of the focused widget, if any.
    pub focused: Option<usize>,
}

impl Screen {
    /// An empty screen of `kind` laid out for `width` by `height`: Esc
    /// closes it, it pauses, nothing is focused.
    pub fn new(kind: ScreenKind, width: i32, height: i32) -> (r: Self)
        ensures
            r.kind == kind,
            r.widgets@.len() == 0,
            r.backdrop is None,
            r.menu_background is None,
            r.close_on_esc,
            r.pause,
            r.width == width,
            r.height == height,
            r.ticks == 0,
            r.focused is None,
    {
        Screen {
            kind,
            widgets: Vec::new(),
            backdrop: None,
            menu_background: None,
            close_on_esc: true,
            pause: true,
            width,
            height,
            ticks: 0,
            focused: None,
        }
    }

    pub fn with_widgets(self, widgets: Vec<Widget>) -> (r: Self)
        ensures
            r == (Screen { widgets, ..self }),
    {
        Screen { widgets, ..self }
    }

    pub fn with_backdrop(self, backdrop: Backdrop) -> (r: Self)
        ensures
            r == (Screen { backdrop: Some(backdrop), ..self }),
    {
        Screen { backdrop: Some(backdrop), ..self }
    }

    /// The tiled menu texture instead of the in-world dim.
    pub fn with_menu_background(self, in_world: bool) -> (r: Self)
        ensures
            r == (Screen { menu_background: Some(MenuBackground { in_world }), ..self }),
    {
        Screen { menu_background: Some(MenuBackground { in_world }), ..self }
    }

    pub fn with_close_on_esc(self, close_on_esc: bool) -> (r: Self)
        ensures
            r == (Screen { close_on_esc, ..self }),
    {
        Screen { close_on_esc, ..self }
    }

    pub fn with_pause(self, pause: bool) -> (r: Self)
        ensures
            r == (Screen { pause, ..self }),
    {
        Screen { pause, ..self }
    }

    /// One client tick: the clock counts up, stopping at its maximum.
    pub fn tick(&mut self)
        ensures
            final(self).ticks == if old(self).ticks < u32::MAX { (old(self).ticks + 1) as u32 } else { u32::MAX },
            final(self).widgets == old(self).widgets,
            final(self).focused == old(self).focused,
    {
        if self.ticks < u32::MAX {
            self.ticks = self.ticks + 1;
        }
    }

    /// The index of the first widget with `id`.
    pub fn widget_index(&self, id: WidgetId) -> (r: Option<usize>)
        ensures
            match r {
                Some(i) => i < self.widgets@.len() && self.widgets@[i as int].id == id
                    && forall|j: int| 0 <= j < i ==> self.widgets@[j].id != id,
                None => forall|j: int| 0 <= j < self.widgets@.len() ==> self.widgets@[j].id != id,
            },
    {
        let n = self.widgets.len();
        let mut i: usize = 0;
        while i < n
            invariant
                n == self.widgets@.len(),
                i <= n,
                forall|j: int| 0 <= j < i ==> self.widgets@[j].id != id,
            decreases n - i,
        {
            if self.widgets[i].id == id {
                return Some(i);
            }
            i = i + 1;
        }
        None
    }

    /// The first widget with `id`.
    pub fn widget(&self, id: WidgetId) -> (r: Option<&Widget>)
        ensures
            match r {
                Some(w) => exists|i: int| 0 <= i < self.widgets@.len() && self.widgets@[i] == *w && w.id == id
                    && forall|j: int| 0 <= j < i ==> self.widgets@[j].id != id,
                None => forall|j: int| 0 <= j < self.widgets@.len() ==> self.widgets@[j].id != id,
            },
    {
        match self.widget_index(id) {
            Some(i) => Some(&self.widgets[i]),
            None => None,
        }
    }

    /// The widget with `id`, to change in place: the first such widget,
    /// whose change lands in the list and nowhere else.
    pub fn widget_mut(&mut self, id: WidgetId) -> (r: Option<&mut Widget>)
        ensures
            match first_with_id(old(self).widgets@, id) {
                None => r is None && *final(self) == *old(self),
                Some(i) => r is Some && *(r->0) == old(self).widgets@[i]
                    && final(self).widgets@ == old(self).widgets@.update(i, *final(r->0))
                    && *final(self) == (Screen { widgets: final(self).widgets, ..*old(self) }),
            },
    {
        match self.widget_index(id) {
            Some(i) => {
                Some(&mut self.widgets[i])
            },
            None => None,
        }
    }

    /// The focused widget's id, if any.
    pub fn focused(&self) -> (r: Option<WidgetId>)
        ensures
            r == match self.focused {
                Some(i) => if i < self.widgets@.len() { Some(self.widgets@[i as int].id) } else { None },
                None => None,
            },
    {
        match self.focused {
            Some(i) => if i < self.widgets.len() { Some(self.widgets[i].id) } else { None },
            None => None,
        }
    }

    /// A left click on widget `child` (the first active one under the
    /// cursor, or none): presses it and focuses it; another button is eaten
    /// without pressing; a click on nothing is ignored.
    pub fn press_child(&mut self, child: Option<usize>, button: u8) -> (r: MouseResult)
        requires
            child matches Some(i) ==> i < old(self).widgets@.len(),
        ensures
            final(self).widgets == old(self).widgets,
            match child {
                None => r == MouseResult::Ignored && final(self).focused == old(self).focused,
                Some(i) => if button == 0 {
                    r == MouseResult::Pressed(old(self).widgets@[i as int].id) && final(self).focused == Some(i)
                } else {
                    r == MouseResult::Consumed && final(self).focused == old(self).focused
                },
            },
    {
        match child {
            None => MouseResult::Ignored,
            Some(i) => {
                if button == 0 {
                    self.focused = Some(i);
                    MouseResult::Pressed(self.widgets[i].id)
                } else {
                    MouseResult::Consumed
                }
            },
        }
    }

    /// A key press: Esc closes when the screen allows it; Enter, Space or
    /// keypad Enter press the focused widget when it is active; Tab moves
    /// the focus (backward with Shift); anything else is ignored.
    pub fn key_pressed(&mut self, key: i32, shift: bool) -> (r: KeyResult)
        ensures
            final(self).widgets == old(self).widgets,
            ({
                let ws = old(self).widgets@;
                let f = old(self).focused;
                if key == KEY_ESCAPE && old(self).close_on_esc {
                    r == KeyResult::Close && final(self).focused == f
                } else if f is Some && f->0 < ws.len() && ws[f->0 as int].visible && ws[f->0 as int].active
                    && (key == KEY_ENTER || key == KEY_SPACE || key == KEY_KP_ENTER) {
                    r == KeyResult::Pressed(ws[f->0 as int].id) && final(self).focused == f
                } else if key == KEY_TAB {
                    r == KeyResult::Handled && final(self).focused == cycled_focus(ws, f, !shift)
                } else {
                    r == KeyResult::Ignored && final(self).focused == f
                }
            }),
    {
        if key == KEY_ESCAPE && self.close_on_esc {
            return KeyResult::Close;
        }
        match self.focused {
            Some(i) => {
                if i < self.widgets.len() && self.widgets[i].is_active() && is_selection(key) {
                    return KeyResult::Pressed(self.widgets[i].id);
                }
            },
            None => {},
        }
        if key == KEY_TAB {
            self.cycle_focus(!shift);
            return KeyResult::Handled;
        }
        KeyResult::Ignored
    }

    /// Move the focus as Tab does.
    fn cycle_focus(&mut self, forward: bool)
        ensures
            final(self).widgets == old(self).widgets,
            final(self).focused == cycled_focus(old(self).widgets@, old(self).focused, forward),
    {
        let n = self.widgets.len();
        if n == 0 {
            return;
        }
        let focus = self.focused;
        let start: usize = match focus {
            Some(i) => if forward {
                if i < n { i + 1 } else { n }
            } else {
                i
            },
            None => if forward { 0 } else { n },
        };
        proof {
            if let Some(i) = focus {
                if forward && i >= n {
                    lemma_first_from_past_end(self.widgets@, i + 1, focus);
                    lemma_first_from_past_end(self.widgets@, n as int, focus);
                }
            }
        }
        match self.scan(start, forward, focus) {
            Some(next) => {
                self.focused = Some(next);
                return;
            },
            None => {},
        }
        self.focused = None;
        let restart = if forward { 0 } else { n };
        match self.scan(restart, forward, None) {
            Some(next) => {
                self.focused = Some(next);
            },
            None => {},
        }
    }

    /// The walk: forward from `start`, or backward from just before it.
    fn scan(&self, start: usize, forward: bool, skip: Option<usize>) -> (r: Option<usize>)
        ensures
            match scan_spec(self.widgets@, start as int, forward, skip) {
                Some(i) => r == Some(i as usize),
                None => r is None,
            },
    {
        let n = self.widgets.len();
        if forward {
            let mut i = start;
            while i < n
                invariant
                    n == self.widgets@.len(),
                    forward,
                    start <= i,
                    first_from(self.widgets@, start as int, skip) == first_from(self.widgets@, i as int, skip),
                decreases n - i,
            {
                let other = match skip {
                    Some(x) => x != i,
                    None => true,
                };
                if self.widgets[i].is_active() && other {
                    proof {
                        assert(can_focus(self.widgets@, i as int, skip));
                        assert(first_from(self.widgets@, i as int, skip) == Some(i as int));
                    }
                    return Some(i);
                }
                i = i + 1;
            }
            None
        } else {
            let mut k = if start < n { start } else { n };
            while k > 0
                invariant
                    n == self.widgets@.len(),
                    !forward,
                    k <= n,
                    last_before(self.widgets@, if start < n { start as int } else { n as int }, skip)
                        == last_before(self.widgets@, k as int, skip),
                decreases k,
            {
                let other = match skip {
                    Some(x) => x != k - 1,
                    None => true,
                };
                if self.widgets[k - 1].is_active() && other {
                    return Some(k - 1);
                }
                k = k - 1;
            }
            None
        }
    }

    /// Nothing focused.
    pub fn clear_focus(&mut self)
        ensures
            final(self).focused is None,
            final(self).widgets == old(self).widgets,
    {
        self.focused = None;
    }

    /// Focus the first widget with `id`, or nothing when there is none.
    pub fn focus(&mut self, id: WidgetId)
        ensures
            final(self).widgets == old(self).widgets,
            match final(self).focused {
                Some(i) => i < old(self).widgets@.len() && old(self).widgets@[i as int].id == id
                    && forall|j: int| 0 <= j < i ==> old(self).widgets@[j].id != id,
                None => forall|j: int| 0 <= j < old(self).widgets@.len() ==> old(self).widgets@[j].id != id,
            },
    {
        self.focused = self.widget_index(id);
    }
}

/// The forward walk only stops at a widget that can take the focus.
proof fn lemma_first_from_ok(ws: Seq<Widget>, i: int, skip: Option<usize>)
    ensures
        first_from(ws, i, skip) matches Some(j) ==> i <= j < ws.len() && can_focus(ws, j, skip),
    decreases ws.len() - i,
{
    if 0 <= i < ws.len() && !can_focus(ws, i, skip) {
        lemma_first_from_ok(ws, i + 1, skip);
    }
}

/// The backward walk only stops at a widget that can take the focus.
proof fn lemma_last_before_ok(ws: Seq<Widget>, k: int, skip: Option<usize>)
    requires
        k <= ws.len(),
    ensures
        last_before(ws, k, skip) matches Some(j) ==> 0 <= j < k && can_focus(ws, j, skip),
    decreases k,
{
    if k > 0 && !can_focus(ws, k - 1, skip) {
        lemma_last_before_ok(ws, k - 1, skip);
    }
}

/// Tab and Shift-Tab only ever focus a widget of the screen that is
/// visible and active.
pub proof fn lemma_tab_focuses_only_active(ws: Seq<Widget>, focus: Option<usize>, forward: bool)
    requires
        0 < ws.len() <= usize::MAX,
    ensures
        cycled_focus(ws, focus, forward) matches Some(i) ==> i < ws.len() && ws[i as int].visible && ws[i as int].active,
{
    let n = ws.len() as int;
    let start = match focus {
        Some(i) => if forward { i + 1 } else { i as int },
        None => if forward { 0 } else { n },
    };
    let restart = if forward { 0 } else { n };
    lemma_first_from_ok(ws, start, focus);
    lemma_first_from_ok(ws, restart, None);
    lemma_last_before_ok(ws, if start < n { start } else { n }, focus);
    lemma_last_before_ok(ws, restart, None);
}

/// Past the end the forward walk finds nothing.
proof fn lemma_first_from_past_end(ws: Seq<Widget>, i: int, skip: Option<usize>)
    requires
        i >= ws.len(),
    ensures
        first_from(ws, i, skip) is None,
{
}

/// The one screen slot: at most one screen is open, and opening another
/// replaces it.
#[derive(Debug)]
pub struct Screens {
    current: Option<Screen>,
}

impl Default for Screens {
    /// No screen open.
    fn default() -> (r: Self)
        ensures
            r.current_spec() is None,
    {
        Screens { current: None }
    }
}

impl Screens {
    pub closed spec fn current_spec(&self) -> Option<Screen> {
        self.current
    }

    pub fn open(&mut self, screen: Screen)
        ensures
            final(self).current_spec() == Some(screen),
    {
        self.current = Some(screen);
    }

    pub fn close(&mut self)
        ensures
            final(self).current_spec() is None,
    {
        self.current = None;
    }

    /// The open screen's kind.
    pub fn kind(&self) -> (r: Option<ScreenKind>)
        ensures
            r == match self.current_spec() {
                Some(s) => Some(s.kind),
                None => None,
            },
    {
        match &self.current {
            Some(s) => Some(s.kind),
            None => None,
        }
    }

    /// Whether the open screen is of `kind`.
    pub fn is(&self, kind: ScreenKind) -> (r: bool)
        ensures
            r == (self.current_spec() matches Some(s) && s.kind == kind),
    {
        match &self.current {
            Some(s) => s.kind == kind,
            None => false,
        }
    }

    pub fn is_open(&self) -> (r: bool)
        ensures
            r == self.current_spec() is Some,
    {
        self.current.is_some()
    }

    pub fn current(&self) -> (r: Option<&Screen>)
        ensures
            r == match self.current_spec() {
                Some(s) => Some(&s),
                None => None,
            },
    {
        self.current.as_ref()
    }

    /// The open screen, to change in place.
    pub fn current_mut(&mut self) -> (r: Option<&mut Screen>)
        ensures
            match old(self).current_spec() {
                None => r is None && final(self).current_spec() is None,
                Some(s) => r is Some && *(r->0) == s && final(self).current_spec() == Some(*final(r->0)),
            },
    {
        match &mut self.current {
            Some(s) => Some(s),
            None => None,
        }
    }
}

} // verus!
