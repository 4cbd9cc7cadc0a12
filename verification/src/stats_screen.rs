//! The statistics screen: its three tabs, the items tab's six columns and
//! their sort cycle, and the header / footer / tab-bar geometry.
//!
//! The header is the tab bar's 24 pixels; only the footer keeps the layout's
//! 33. The columns run mined, broken, crafted, used, picked up, dropped —
//! not the stat-type registry's order.

use vstd::prelude::*;
use crate::arith::{tdiv, round_toward, round_toward_spec};
use crate::registry::{id_spec, name_spec, pairs_ok, Registry, StatRegistries};
use crate::stats::{after_first_colon, custom_stat_key, custom_stat_key_spec, grouped, grouped_spec, StatKey, StatsCounter};
use crate::text::{chars_of, decimal, push_decimal_u64, str_eq, string_from_chars};
use crate::lang::{fill, or_key_spec, Language};
use crate::sorting::{identity, lemma_sorted_prefix_done, lemma_sorted_prefix_start, lemma_sorted_prefix_step, sorted_prefix, stable_rearrangement};
use crate::scroll_list::ScrollList;
use crate::screen::{Backdrop, Screen, ScreenKind, Sprite, Widget, WidgetKind, WidgetSprites, WidgetId, BUTTON_HEIGHT, BUTTON_WIDTH};

verus! {

/// The footer's Done button.
pub const DONE: WidgetId = 0;
/// The three tab buttons, in tab order.
pub const TAB_GENERAL: WidgetId = 1;
pub const TAB_ITEMS: WidgetId = 2;
pub const TAB_MOBS: WidgetId = 3;
/// The six sort buttons are `SORT_FIRST + column`.
pub const SORT_FIRST: WidgetId = 8;

/// The tab bar's height, which the header takes over.
pub const HEADER_HEIGHT: i32 = 24;
/// The layout's default header-and-footer height, kept by the footer.
pub const FOOTER_HEIGHT: i32 = 33;
/// The tab bar's widest band.
pub const TAB_BAR_MAX_WIDTH: i32 = 400;
/// The tab bar's margin, taken off both sides.
pub const TAB_BAR_MARGIN: i32 = 14;
/// Every statistics list's row width.
pub const LIST_ROW_WIDTH: i32 = 280;
/// The general list's row height.
pub const GENERAL_ROW_HEIGHT: i32 = 14;
/// The items list's row height.
pub const ITEM_ROW_HEIGHT: i32 = 22;
/// The mobs list's row height: four lines of nine.
pub const MOB_ROW_HEIGHT: i32 = 9 * 4;
/// An item slot's size, and the sort buttons'.
pub const SLOT_SIZE: i32 = 18;

/// The right edge of column `col`; every number is drawn right-aligned to it.
pub open spec fn column_x_spec(col: int) -> int {
    75 + 40 * col
}

pub fn column_x(col: usize) -> (r: i32)
    requires
        col <= 53687089,
    ensures
        r == column_x_spec(col as int),
{
    75 + 40 * (col as i32)
}

/// The items tab's columns: the block column, then the five item columns.
pub const COLUMN_COUNT: usize = 6;

/// The six columns' stat types, by registry name.
pub const COLUMNS: [&'static str; 6] = [
    "minecraft:mined",
    "minecraft:broken",
    "minecraft:crafted",
    "minecraft:used",
    "minecraft:picked_up",
    "minecraft:dropped",
];

/// The registry name of the stat type behind column `col`.
pub open spec fn column_name_spec(col: int) -> Seq<char> {
    if col == 0 {
        "minecraft:mined"@
    } else if col == 1 {
        "minecraft:broken"@
    } else if col == 2 {
        "minecraft:crafted"@
    } else if col == 3 {
        "minecraft:used"@
    } else if col == 4 {
        "minecraft:picked_up"@
    } else {
        "minecraft:dropped"@
    }
}

/// `COLUMNS[col]` — the stat type each column shows.
pub fn column_name(col: usize) -> (r: &'static str)
    requires
        col < COLUMN_COUNT,
    ensures
        r@ == column_name_spec(col as int),
{
    if col == 0 {
        "minecraft:mined"
    } else if col == 1 {
        "minecraft:broken"
    } else if col == 2 {
        "minecraft:crafted"
    } else if col == 3 {
        "minecraft:used"
    } else if col == 4 {
        "minecraft:picked_up"
    } else {
        "minecraft:dropped"
    }
}

/// Which tab is up.
#[derive(Clone, Copy, PartialEq, Eq, Debug, Structural)]
pub enum StatsTab {
    General,
    Items,
    Mobs,
}

impl Default for StatsTab {
    /// The general tab.
    fn default() -> (r: Self)
        ensures
            r == StatsTab::General,
    {
        StatsTab::General
    }
}

impl StatsTab {
    /// The three tabs, in tab-bar order.
    pub const ALL: [StatsTab; 3] = [StatsTab::General, StatsTab::Items, StatsTab::Mobs];

    pub open spec fn index_spec(self) -> int {
        match self {
            StatsTab::General => 0,
            StatsTab::Items => 1,
            StatsTab::Mobs => 2,
        }
    }

    pub fn index(self) -> (r: usize)
        ensures
            r == self.index_spec(),
    {
        match self {
            StatsTab::General => 0,
            StatsTab::Items => 1,
            StatsTab::Mobs => 2,
        }
    }

    /// The tab button's widget id.
    pub fn widget_id(self) -> (r: WidgetId)
        ensures
            r == TAB_GENERAL + self.index_spec(),
    {
        TAB_GENERAL + self.index() as WidgetId
    }

    /// The tab whose button has id `id`, if any.
    pub fn from_widget(id: WidgetId) -> (r: Option<Self>)
        ensures
            r matches Some(t) ==> TAB_GENERAL + t.index_spec() == id,
            r is None <==> !(TAB_GENERAL <= id < TAB_GENERAL + 3),
    {
        if id == TAB_GENERAL {
            Some(StatsTab::General)
        } else if id == TAB_ITEMS {
            Some(StatsTab::Items)
        } else if id == TAB_MOBS {
            Some(StatsTab::Mobs)
        } else {
            None
        }
    }
}

/// The strings the screen shows, resolved by the caller.
#[derive(Clone, Debug, PartialEq)]
pub struct StatsLabels {
    pub title: String,
    /// The three tab captions.
    pub tabs: [String; 3],
    /// Shown while no statistics have arrived.
    pub pending: String,
    pub done: String,
    /// What an absent statistic prints, a lone `-` in English.
    pub none: String,
    /// The six column tooltips.
    pub columns: [String; 6],
}

pub const KEY_TITLE: &'static str = "gui.stats";
pub const KEY_GENERAL: &'static str = "stat.generalButton";
pub const KEY_ITEMS: &'static str = "stat.itemsButton";
pub const KEY_MOBS: &'static str = "stat.mobsButton";
pub const KEY_PENDING: &'static str = "multiplayer.downloadingStats";
pub const KEY_NONE_FOUND: &'static str = "gui.stats.none_found";
/// What an absent statistic prints.
pub const KEY_NONE: &'static str = "stats.none";
pub const KEY_DONE: &'static str = "gui.done";

/// The translation key of column `col`'s stat type.
pub open spec fn column_key_spec(col: int) -> Seq<char> {
    "stat_type.minecraft."@ + after_first_colon(column_name_spec(col))
}

impl StatsLabels {
    /// Every label looked up in `lang`, each falling back to its key.
    pub fn resolve(lang: &Language) -> (r: Self)
        ensures
            r.title@ == or_key_spec(lang.pairs(), KEY_TITLE@),
            r.tabs[0]@ == or_key_spec(lang.pairs(), KEY_GENERAL@),
            r.tabs[1]@ == or_key_spec(lang.pairs(), KEY_ITEMS@),
            r.tabs[2]@ == or_key_spec(lang.pairs(), KEY_MOBS@),
            r.pending@ == or_key_spec(lang.pairs(), KEY_PENDING@),
            r.done@ == or_key_spec(lang.pairs(), KEY_DONE@),
            r.none@ == or_key_spec(lang.pairs(), KEY_NONE@),
            forall|c: int| 0 <= c < 6 ==> #[trigger] r.columns[c]@ == or_key_spec(lang.pairs(), column_key_spec(c)),
    {
        let k0 = crate::stats::stat_type_key(column_name(0));
        let k1 = crate::stats::stat_type_key(column_name(1));
        let k2 = crate::stats::stat_type_key(column_name(2));
        let k3 = crate::stats::stat_type_key(column_name(3));
        let k4 = crate::stats::stat_type_key(column_name(4));
        let k5 = crate::stats::stat_type_key(column_name(5));
        let columns = [
            lang.or_key(k0.as_str()),
            lang.or_key(k1.as_str()),
            lang.or_key(k2.as_str()),
            lang.or_key(k3.as_str()),
            lang.or_key(k4.as_str()),
            lang.or_key(k5.as_str()),
        ];
        let tabs = [lang.or_key(KEY_GENERAL), lang.or_key(KEY_ITEMS), lang.or_key(KEY_MOBS)];
        let r = StatsLabels {
            title: lang.or_key(KEY_TITLE),
            tabs,
            pending: lang.or_key(KEY_PENDING),
            done: lang.or_key(KEY_DONE),
            none: lang.or_key(KEY_NONE),
            columns,
        };
        assert forall|c: int| 0 <= c < 6 implies #[trigger] r.columns[c]@ == or_key_spec(lang.pairs(), column_key_spec(c)) by {
            if c == 0 {} else if c == 1 {} else if c == 2 {} else if c == 3 {} else if c == 4 {} else {}
        }
        r
    }
}

/// One row of the general list.
#[derive(Clone, Debug, PartialEq)]
pub struct GeneralRow {
    pub label: String,
    pub value: String,
}

/// One row of the mobs list.
#[derive(Clone, Debug, PartialEq)]
pub struct MobRow {
    pub name: String,
    pub kills: String,
    pub has_kills: bool,
    pub killed_by: String,
    pub was_killed_by: bool,
}

/// One row of the items list, keyed by registry name.
#[derive(Clone, Debug, PartialEq)]
pub struct ItemRow {
    pub name: String,
    /// The name without its namespace.
    pub short_name: String,
    pub item_id: Option<i32>,
    pub block_id: Option<i32>,
    /// Per column: the raw count, or `None` where the statistic does not
    /// exist for this row.
    pub counts: [Option<i32>; 6],
    /// The formatted cells.
    pub cells: [Option<String>; 6],
    /// The tie-break: the item's id, or a block-only row's place after them.
    pub order: i32,
}

/// The tab bar's `(x, tab width)`: the band is the window's width, at most
/// 400, less both margins; the tab width and the bar's x are each rounded
/// **up** to an even number.
pub open spec fn tab_bar_layout_spec(gui_w: int, tabs: int) -> (int, int) {
    let band = (if gui_w < TAB_BAR_MAX_WIDTH { gui_w } else { TAB_BAR_MAX_WIDTH as int }) - 2 * TAB_BAR_MARGIN;
    (round_toward_spec(tdiv(gui_w - band, 2), 2), round_toward_spec(tdiv(band, tabs), 2))
}

pub fn tab_bar_layout(gui_w: i32, tabs: i32) -> (r: (i32, i32))
    requires
        tabs > 0,
        gui_w >= i32::MIN + 28,
    ensures
        (r.0 as int, r.1 as int) == tab_bar_layout_spec(gui_w as int, tabs as int),
{
    let tabs_width = (if gui_w < TAB_BAR_MAX_WIDTH { gui_w } else { TAB_BAR_MAX_WIDTH }) - 2 * TAB_BAR_MARGIN;
    let per = tabs_width / tabs;
    let tab_width = round_toward(per, 2);
    let x = round_toward((gui_w - tabs_width) / 2, 2);
    (x, tab_width)
}

/// The Done button's top-left: centred in the footer by a truncating
/// half-lerp, so a 33-high footer round a 20-high button puts it 6 down.
pub open spec fn done_bounds_spec(gui_w: int, gui_h: int) -> (int, int) {
    (tdiv(gui_w - BUTTON_WIDTH, 2), gui_h - FOOTER_HEIGHT + tdiv(FOOTER_HEIGHT - BUTTON_HEIGHT, 2))
}

/// The float lerp is exact while the spare width fits a float's mantissa,
/// which `requires` keeps it to.
pub fn done_bounds(gui_w: i32, gui_h: i32) -> (r: (i32, i32))
    requires
        -16777216 <= gui_w - BUTTON_WIDTH <= 16777216,
        gui_h >= i32::MIN + FOOTER_HEIGHT,
    ensures
        (r.0 as int, r.1 as int) == done_bounds_spec(gui_w as int, gui_h as int),
{
    ((gui_w - BUTTON_WIDTH) / 2, gui_h - FOOTER_HEIGHT + (FOOTER_HEIGHT - BUTTON_HEIGHT) / 2)
}

/// The band the lists live in, `(y, height)`: below the header, above the
/// footer.
pub fn content_band(gui_h: i32) -> (r: (i32, i32))
    requires
        gui_h >= i32::MIN + HEADER_HEIGHT + FOOTER_HEIGHT,
    ensures
        r.0 == HEADER_HEIGHT,
        r.1 == gui_h - HEADER_HEIGHT - FOOTER_HEIGHT,
{
    (HEADER_HEIGHT, gui_h - HEADER_HEIGHT - FOOTER_HEIGHT)
}

/// The value a row sorts by in column `col`: the block column reads `-1`
/// for a row with no block at all, so it sorts below a genuine zero; an
/// absent count reads 0; no column sorts everything equal.
pub open spec fn sort_key_spec(r: ItemRow, col: Option<usize>) -> int {
    match col {
        Some(c) => if c == 0 && r.block_id is None {
            -1
        } else {
            match r.counts[c as int] {
                Some(v) => v as int,
                None => 0,
            }
        },
        None => 0,
    }
}

/// Whether `a` strictly precedes `b` under the item comparator: by the
/// column's value, ties broken by `order`, both reversed when `order` is
/// negative. A zero order compares everything equal.
pub open spec fn sorts_before(a: ItemRow, b: ItemRow, col: Option<usize>, order: int) -> bool {
    let (ka, kb) = (sort_key_spec(a, col), sort_key_spec(b, col));
    if order > 0 {
        ka < kb || (ka == kb && a.order < b.order)
    } else if order < 0 {
        ka > kb || (ka == kb && a.order > b.order)
    } else {
        false
    }
}

/// No row is preceded, under the comparator, by one that comes after it.
pub open spec fn sorted_by(s: Seq<ItemRow>, col: Option<usize>, order: int) -> bool {
    forall|i: int, j: int| 0 <= i < j < s.len() ==> !sorts_before(#[trigger] s[j], #[trigger] s[i], col, order)
}

/// A column the rows can be sorted by: one of the six, or none.
pub open spec fn valid_column(col: Option<usize>) -> bool {
    match col {
        Some(c) => c < COLUMN_COUNT,
        None => true,
    }
}

/// The row's sort value in column `col`.
pub fn sort_key(r: &ItemRow, col: Option<usize>) -> (k: i32)
    requires
        valid_column(col),
    ensures
        k == sort_key_spec(*r, col),
{
    match col {
        Some(c) => {
            if c == 0 && r.block_id.is_none() {
                -1
            } else {
                match r.counts[c] {
                    Some(v) => v,
                    None => 0,
                }
            }
        },
        None => 0,
    }
}

/// `a` strictly before `b` — the comparator's `Less`.
fn precedes(a: &ItemRow, b: &ItemRow, col: Option<usize>, order: i32) -> (r: bool)
    requires
        valid_column(col),
    ensures
        r == sorts_before(*a, *b, col, order as int),
{
    let ka = sort_key(a, col);
    let kb = sort_key(b, col);
    if order > 0 {
        ka < kb || (ka == kb && a.order < b.order)
    } else if order < 0 {
        ka > kb || (ka == kb && a.order > b.order)
    } else {
        false
    }
}

/// The comparator is a strict weak order: irreflexive, transitive, and
/// incomparability is transitive too.
proof fn lemma_sorts_before_order(a: ItemRow, b: ItemRow, c: ItemRow, col: Option<usize>, order: int)
    ensures
        !sorts_before(a, a, col, order),
        sorts_before(a, b, col, order) ==> !sorts_before(b, a, col, order),
        sorts_before(a, b, col, order) && sorts_before(b, c, col, order) ==> sorts_before(a, c, col, order),
        !sorts_before(a, b, col, order) && !sorts_before(b, c, col, order) ==> !sorts_before(a, c, col, order),
{
}

/// Two rows neither of which precedes the other under the item comparator.
pub open spec fn row_ties(col: Option<usize>, order: int) -> spec_fn(ItemRow, ItemRow) -> bool {
    |a: ItemRow, b: ItemRow| !sorts_before(a, b, col, order) && !sorts_before(b, a, col, order)
}

/// Stable insertion sort of the rows under the item comparator.
pub fn sort_rows(items: &mut Vec<ItemRow>, col: Option<usize>, order: i32)
    requires
        valid_column(col),
    ensures
        final(items)@.to_multiset() == old(items)@.to_multiset(),
        final(items)@.len() == old(items)@.len(),
        sorted_by(final(items)@, col, order as int),
        stable_rearrangement(final(items)@, old(items)@, row_ties(col, order as int)),
        order == 0 ==> final(items)@ == old(items)@,
{
    let ghost inp = items@;
    proof {
        lemma_sorted_prefix_start(inp, row_ties(col, order as int));
    }
    if order == 0 {
        proof {
            lemma_sorted_prefix_done(inp, inp, identity(inp.len()), row_ties(col, order as int));
        }
        return;
    }
    let n = items.len();
    let mut i: usize = 1;
    if n == 0 {
        proof {
            lemma_sorted_prefix_done(inp, inp, identity(inp.len()), row_ties(col, order as int));
        }
        return;
    }
    let ghost mut perm = identity(inp.len());
    while i < n
        invariant
            valid_column(col),
            1 <= i <= n,
            n == items@.len(),
            inp == old(items)@,
            items@.to_multiset() == old(items)@.to_multiset(),
            sorted_by(items@.take(i as int), col, order as int),
            sorted_prefix(items@, inp, perm, i as int, row_ties(col, order as int)),
        decreases n - i,
    {
        let ghost before = items@;
        let mut j: usize = i;
        while j > 0 && precedes(&items[i], &items[j - 1], col, order)
            invariant
                valid_column(col),
                0 <= j <= i < n,
                n == items@.len(),
                items@ == before,
                forall|k: int| j <= k < i ==> sorts_before(items@[i as int], #[trigger] items@[k], col, order as int),
            decreases j,
        {
            j = j - 1;
        }
        let x = items.remove(i);
        items.insert(j, x);
        proof {
            let s = items@;
            let p = before.take(i as int);
            assert forall|k: int| j <= k < i implies !(row_ties(col, order as int))(before[i as int], #[trigger] before[k]) by {
                assert(sorts_before(before[i as int], before[k], col, order as int));
            }
            lemma_sorted_prefix_step(before, inp, perm, i as int, j as int, row_ties(col, order as int));
            perm = perm.remove(i as int).insert(j as int, i as int);
            assert(x == before[i as int]);
            assert(s == before.remove(i as int).insert(j as int, x));
            vstd::seq_lib::to_multiset_remove(before, i as int);
            vstd::seq_lib::to_multiset_insert(before.remove(i as int), j as int, x);
            vstd::seq_lib::to_multiset_contains(before, x);
            assert(before.contains(x));
            assert(before.to_multiset().remove(x).insert(x) =~= before.to_multiset());
            assert(s.take(i + 1) =~= p.insert(j as int, x));
            // x precedes neither the row before it nor anything earlier.
            assert forall|a: int, b: int| 0 <= a < b < i + 1 implies !sorts_before(
                #[trigger] s.take(i + 1)[b],
                #[trigger] s.take(i + 1)[a],
                col,
                order as int,
            ) by {
                let t = s.take(i + 1);
                if b < j {
                    assert(t[a] == p[a] && t[b] == p[b]);
                } else if b == j {
                    assert(t[b] == x);
                    assert(t[a] == p[a]);
                    if a < j - 1 {
                        assert(!sorts_before(p[j - 1], p[a], col, order as int));
                        assert(!sorts_before(x, p[j - 1], col, order as int));
                        lemma_sorts_before_order(x, p[j - 1], p[a], col, order as int);
                    }
                } else if a == j {
                    assert(t[a] == x);
                    assert(t[b] == p[b - 1]);
                    assert(sorts_before(x, p[b - 1], col, order as int));
                    lemma_sorts_before_order(x, p[b - 1], x, col, order as int);
                } else if a < j {
                    assert(t[a] == p[a] && t[b] == p[b - 1]);
                } else {
                    assert(t[a] == p[a - 1] && t[b] == p[b - 1]);
                }
            }
        }
        i = i + 1;
    }
    proof {
        assert(items@.take(n as int) =~= items@);
        lemma_sorted_prefix_done(items@, inp, perm, row_ties(col, order as int));
    }
}

/// The items list's sort state, and the lists the screen holds.
#[derive(Clone, Debug)]
pub struct StatsModel {
    pub tab: StatsTab,
    /// True until the first statistics packet has arrived.
    pub loading: bool,
    pub general: Vec<GeneralRow>,
    pub items: Vec<ItemRow>,
    pub mobs: Vec<MobRow>,
    /// One list's geometry per tab, in tab order.
    pub lists: [ScrollList; 3],
    /// The column the items are sorted by, and the direction: -1
    /// descending, 1 ascending, 0 unsorted.
    pub sort_column: Option<usize>,
    pub sort_order: i32,
    /// The counter's update count this model was built from.
    pub built_from: u64,
}

/// A list of no size, at the top, with no rows.
pub open spec fn is_blank_list(l: ScrollList) -> bool {
    l.y == 0 && l.width == 0 && l.height == 0 && l.row_width == 0 && l.scroll_rate == 0 && l.rows@.len() == 0
}

fn blank_list() -> (r: ScrollList)
    ensures
        is_blank_list(r),
{
    ScrollList { y: 0, width: 0, height: 0, row_width: 0, scroll_rate: 0, rows: Vec::new() }
}

/// `n` rows of height `h`.
fn rows_of_height(n: usize, h: i32) -> (r: Vec<i32>)
    ensures
        r@ == Seq::new(n as nat, |k: int| h),
{
    let mut v: Vec<i32> = Vec::new();
    let mut i: usize = 0;
    while i < n
        invariant
            i <= n,
            v@ == Seq::new(i as nat, |k: int| h),
        decreases n - i,
    {
        v.push(h);
        i = i + 1;
        proof {
            assert(v@ =~= Seq::new(i as nat, |k: int| h));
        }
    }
    v
}

/// `l` spans the screen's width `gui_w` in the content band below the
/// header, its rows 280 pixels wide: `n` rows of height `h`, scrolling
/// half a row a notch.
pub open spec fn is_tab_list(l: ScrollList, gui_w: i32, gui_h: i32, h: i32, n: nat) -> bool {
    &&& l.y == HEADER_HEIGHT
    &&& l.width == gui_w
    &&& l.height == gui_h - HEADER_HEIGHT - FOOTER_HEIGHT
    &&& l.row_width == LIST_ROW_WIDTH
    &&& l.scroll_rate == h / 2
    &&& l.rows@ == Seq::new(n, |k: int| h)
}

impl Default for StatsModel {
    /// The general tab, no rows, no sort.
    fn default() -> (r: Self)
        ensures
            r.tab == StatsTab::General,
            !r.loading,
            r.general@.len() == 0,
            r.items@.len() == 0,
            r.mobs@.len() == 0,
            r.sort_column is None,
            r.sort_order == 0,
            r.built_from == 0,
            forall|k: int| 0 <= k < 3 ==> is_blank_list(#[trigger] r.lists[k]),
    {
        StatsModel {
            tab: StatsTab::General,
            loading: false,
            general: Vec::new(),
            items: Vec::new(),
            mobs: Vec::new(),
            lists: [blank_list(), blank_list(), blank_list()],
            sort_column: None,
            sort_order: 0,
            built_from: 0,
        }
    }
}

/// The sort state after a click on `column`: a different column sorts
/// descending, the same column again ascending, a third time not at all.
pub open spec fn next_sort(current: Option<usize>, order: int, column: usize) -> (Option<usize>, int) {
    if current != Some(column) {
        (Some(column), -1)
    } else if order == -1 {
        (Some(column), 1)
    } else {
        (None, 0)
    }
}

/// Clicking a column not sorted by sorts it descending, a second click
/// ascending, and a third clears the sort.
pub proof fn lemma_three_clicks_clear(current: Option<usize>, order: int, column: usize)
    requires
        current != Some(column),
    ensures
        next_sort(current, order, column) == (Some(column), -1int),
        next_sort(Some(column), -1, column) == (Some(column), 1int),
        next_sort(Some(column), 1, column) == (None::<usize>, 0int),
{
}

impl StatsModel {
    /// The list of whichever tab is up.
    pub fn list(&self) -> (r: &ScrollList)
        ensures
            *r == self.lists[self.tab.index_spec()],
    {
        match self.tab {
            StatsTab::General => &self.lists[0],
            StatsTab::Items => &self.lists[1],
            StatsTab::Mobs => &self.lists[2],
        }
    }

    /// The list of whichever tab is up, to change in place; the change
    /// lands in that tab's list and nowhere else.
    pub fn list_mut(&mut self) -> (r: &mut ScrollList)
        ensures
            *r == old(self).lists[old(self).tab.index_spec()],
            final(self).lists@ == old(self).lists@.update(old(self).tab.index_spec(), *final(r)),
            *final(self) == (StatsModel { lists: final(self).lists, ..*old(self) }),
    {
        match self.tab {
            StatsTab::General => &mut self.lists[0],
            StatsTab::Items => &mut self.lists[1],
            StatsTab::Mobs => &mut self.lists[2],
        }
    }

    /// The screen paints no two-stop backdrop: it is not an in-game
    /// container screen, so it takes the menu background's tiled sheets
    /// instead, which the renderer draws.
    pub fn backdrop(&self) -> (r: Option<Backdrop>)
        ensures
            r is None,
    {
        None
    }

    /// How many rows the current tab has; the items tab's header row counts
    /// when there is at least one item.
    pub fn row_count(&self) -> (r: usize)
        requires
            self.items@.len() < usize::MAX,
        ensures
            r == match self.tab {
                StatsTab::General => self.general@.len(),
                StatsTab::Items => if self.items@.len() == 0 { 0 } else { self.items@.len() + 1 },
                StatsTab::Mobs => self.mobs@.len(),
            },
    {
        match self.tab {
            StatsTab::General => self.general.len(),
            StatsTab::Items => {
                if self.items.len() == 0 {
                    0
                } else {
                    self.items.len() + 1
                }
            },
            StatsTab::Mobs => self.mobs.len(),
        }
    }

    /// Whether a tab can be picked: none while loading, the general tab
    /// always, the other two when they have rows.
    pub open spec fn tab_active_spec(&self, tab: StatsTab) -> bool {
        !self.loading && match tab {
            StatsTab::General => true,
            StatsTab::Items => self.items@.len() > 0,
            StatsTab::Mobs => self.mobs@.len() > 0,
        }
    }

    pub fn tab_active(&self, tab: StatsTab) -> (r: bool)
        ensures
            r == self.tab_active_spec(tab),
    {
        if self.loading {
            return false;
        }
        match tab {
            StatsTab::General => true,
            StatsTab::Items => self.items.len() > 0,
            StatsTab::Mobs => self.mobs.len() > 0,
        }
    }

    /// A click on a column's sort button: the three-state cycle, then the
    /// rows re-sorted. Clearing the sort leaves the rows as they are.
    pub fn sort_by_column(&mut self, column: usize)
        requires
            column < COLUMN_COUNT,
        ensures
            (final(self).sort_column, final(self).sort_order as int) == next_sort(
                old(self).sort_column,
                old(self).sort_order as int,
                column,
            ),
            final(self).items@.to_multiset() == old(self).items@.to_multiset(),
            final(self).items@.len() == old(self).items@.len(),
            sorted_by(final(self).items@, final(self).sort_column, final(self).sort_order as int),
            stable_rearrangement(final(self).items@, old(self).items@, row_ties(final(self).sort_column, final(self).sort_order as int)),
            final(self).sort_order == 0 ==> final(self).items@ == old(self).items@,
            final(self).tab == old(self).tab,
            final(self).loading == old(self).loading,
            final(self).general@ == old(self).general@,
            final(self).mobs@ == old(self).mobs@,
            final(self).built_from == old(self).built_from,
            final(self).lists == old(self).lists,
    {
        if self.sort_column != Some(column) {
            self.sort_column = Some(column);
            self.sort_order = -1;
        } else if self.sort_order == -1 {
            self.sort_order = 1;
        } else {
            self.sort_column = None;
            self.sort_order = 0;
        }
        self.sort_items();
    }

    /// The items re-sorted by the current column and direction.
    pub fn sort_items(&mut self)
        requires
            valid_column(old(self).sort_column),
        ensures
            final(self).items@.to_multiset() == old(self).items@.to_multiset(),
            final(self).items@.len() == old(self).items@.len(),
            sorted_by(final(self).items@, old(self).sort_column, old(self).sort_order as int),
            stable_rearrangement(final(self).items@, old(self).items@, row_ties(old(self).sort_column, old(self).sort_order as int)),
            old(self).sort_order == 0 ==> final(self).items@ == old(self).items@,
            final(self).sort_column == old(self).sort_column,
            final(self).sort_order == old(self).sort_order,
            final(self).tab == old(self).tab,
            final(self).loading == old(self).loading,
            final(self).general@ == old(self).general@,
            final(self).mobs@ == old(self).mobs@,
            final(self).built_from == old(self).built_from,
            final(self).lists == old(self).lists,
    {
        let col = self.sort_column;
        let order = self.sort_order;
        sort_rows(&mut self.items, col, order);
    }
}

/// The tab with index `i`.
pub open spec fn tab_at(i: int) -> StatsTab {
    if i == 0 {
        StatsTab::General
    } else if i == 1 {
        StatsTab::Items
    } else {
        StatsTab::Mobs
    }
}

/// A tab button's sheets: selected, plain, and their highlighted forms.
pub open spec fn tab_sprites() -> WidgetSprites {
    WidgetSprites {
        enabled: Sprite::TabSelected,
        disabled: Sprite::Tab,
        enabled_focused: Sprite::TabSelectedHighlighted,
        disabled_focused: Sprite::TabHighlighted,
    }
}

/// Tab button `i` of the bar at `x` with tabs `tw` wide: captioned,
/// drawn selected when it is the current tab, and pickable when the tab is.
pub open spec fn tab_button_ok(w: Widget, i: int, x: int, tw: int, label: Seq<char>, selected: bool, active: bool) -> bool {
    &&& w.id == TAB_GENERAL + i
    &&& w.x == x + tw * i && w.y == 0 && w.width == tw && w.height == HEADER_HEIGHT
    &&& w.message@ == label
    &&& w.kind == (WidgetKind::Sprites { sprites: tab_sprites(), first: selected, overlay: None, label: true })
    &&& w.active == active && w.visible
}

/// Sort button `col`, in the items header at `(hx, hy)`: left of its
/// column's right edge by a slot, a pixel down, shown only when `visible`.
pub open spec fn sort_button_ok(w: Widget, col: int, hx: int, hy: int, label: Seq<char>, visible: bool) -> bool {
    &&& w.id == SORT_FIRST + col
    &&& w.x == hx + column_x_spec(col) - SLOT_SIZE && w.y == hy + 1 && w.width == SLOT_SIZE && w.height == SLOT_SIZE
    &&& w.message@ == label
    &&& w.kind == (WidgetKind::Sprites {
        sprites: WidgetSprites { enabled: Sprite::StatHeader, disabled: Sprite::StatHeader, enabled_focused: Sprite::Slot, disabled_focused: Sprite::Slot },
        first: true,
        overlay: Some(Sprite::StatColumn(col as u8)),
        label: false,
    })
    &&& w.active && w.visible == visible
}

impl StatsModel {
    /// The tab button for `tab`.
    fn tab_button(&self, tab: StatsTab, x: i32, tw: i32, label: &String) -> (r: Widget)
        requires
            i32::MIN <= tw * tab.index_spec() <= i32::MAX,
            x + tw * tab.index_spec() <= i32::MAX,
            x + tw * tab.index_spec() >= i32::MIN,
        ensures
            tab_button_ok(r, tab.index_spec(), x as int, tw as int, label@, self.tab == tab, self.tab_active_spec(tab)),
    {
        let i = tab.index() as i32;
        let b = Widget::button(tab.widget_id(), x + tw * i, 0, tw, HEADER_HEIGHT, label.as_str());
        let selected = self.tab == tab;
        let mut w = b.with_kind(WidgetKind::Sprites {
            sprites: WidgetSprites::four(Sprite::TabSelected, Sprite::Tab, Sprite::TabSelectedHighlighted, Sprite::TabHighlighted),
            first: selected,
            overlay: None,
            label: true,
        });
        w.active = self.tab_active(tab);
        w
    }

    /// The screen's widgets: the three tab buttons, the items header's six
    /// sort buttons (placed from `header`, the header row's content origin,
    /// and shown only on a non-empty items tab), and Done in the footer.
    /// Esc closes it and it pauses.
    pub fn build_screen(&self, labels: &StatsLabels, gui_w: i32, gui_h: i32, header: (i32, i32)) -> (r: Screen)
        requires
            -16777216 <= gui_w - BUTTON_WIDTH <= 16777216,
            gui_h >= i32::MIN + FOOTER_HEIGHT,
            header.0 - SLOT_SIZE >= i32::MIN,
            header.0 + column_x_spec(5) <= i32::MAX,
            header.1 < i32::MAX,
        ensures
            r.kind == ScreenKind::Stats,
            r.width == gui_w && r.height == gui_h,
            r.close_on_esc && r.pause,
            r.backdrop is None && r.menu_background is None,
            r.focused is None,
            r.widgets@.len() == 10,
            forall|i: int| 0 <= i < 3 ==> tab_button_ok(
                #[trigger] r.widgets@[i],
                i,
                tab_bar_layout_spec(gui_w as int, 3).0,
                tab_bar_layout_spec(gui_w as int, 3).1,
                labels.tabs[i]@,
                self.tab == tab_at(i),
                self.tab_active_spec(tab_at(i)),
            ),
            forall|c: int| 0 <= c < 6 ==> sort_button_ok(
                #[trigger] r.widgets@[3 + c],
                c,
                header.0 as int,
                header.1 as int,
                labels.columns[c]@,
                self.tab == StatsTab::Items && self.items@.len() > 0,
            ),
            r.widgets@[9].id == DONE,
            (r.widgets@[9].x as int, r.widgets@[9].y as int) == done_bounds_spec(gui_w as int, gui_h as int),
            r.widgets@[9].width == BUTTON_WIDTH && r.widgets@[9].height == BUTTON_HEIGHT,
            r.widgets@[9].message@ == labels.done@,
            r.widgets@[9].kind == WidgetKind::Button,
            r.widgets@[9].active && r.widgets@[9].visible,
    {
        let (tab_x, tab_w) = tab_bar_layout(gui_w, 3);
        proof {
            lemma_tab_bar_bounds(gui_w as int);
        }
        let mut widgets: Vec<Widget> = Vec::new();
        widgets.push(self.tab_button(StatsTab::General, tab_x, tab_w, &labels.tabs[0]));
        widgets.push(self.tab_button(StatsTab::Items, tab_x, tab_w, &labels.tabs[1]));
        widgets.push(self.tab_button(StatsTab::Mobs, tab_x, tab_w, &labels.tabs[2]));
        let visible = self.tab == StatsTab::Items && self.items.len() > 0;
        let (cx, cy) = header;
        let mut col: usize = 0;
        while col < COLUMN_COUNT
            invariant
                col <= COLUMN_COUNT,
                widgets@.len() == 3 + col,
                header == (cx, cy),
                cx - SLOT_SIZE >= i32::MIN,
                cx + column_x_spec(5) <= i32::MAX,
                cy < i32::MAX,
                forall|i: int| 0 <= i < 3 ==> tab_button_ok(
                    #[trigger] widgets@[i],
                    i,
                    tab_bar_layout_spec(gui_w as int, 3).0,
                    tab_bar_layout_spec(gui_w as int, 3).1,
                    labels.tabs[i]@,
                    self.tab == tab_at(i),
                    self.tab_active_spec(tab_at(i)),
                ),
                forall|c: int| 0 <= c < col ==> sort_button_ok(
                    #[trigger] widgets@[3 + c],
                    c,
                    cx as int,
                    cy as int,
                    labels.columns[c]@,
                    visible,
                ),
            decreases COLUMN_COUNT - col,
        {
            let b = Widget::button(SORT_FIRST + col as WidgetId, cx + column_x(col) - SLOT_SIZE, cy + 1, SLOT_SIZE, SLOT_SIZE, labels.columns[col].as_str());
            let mut w = b.with_kind(WidgetKind::Sprites {
                sprites: WidgetSprites::two(Sprite::StatHeader, Sprite::Slot),
                first: true,
                overlay: Some(Sprite::StatColumn(col as u8)),
                label: false,
            });
            w.visible = visible;
            widgets.push(w);
            col = col + 1;
        }
        let (dx, dy) = done_bounds(gui_w, gui_h);
        widgets.push(Widget::button(DONE, dx, dy, BUTTON_WIDTH, BUTTON_HEIGHT, labels.done.as_str()));
        Screen::new(ScreenKind::Stats, gui_w, gui_h).with_widgets(widgets).with_close_on_esc(true).with_pause(true)
    }
}

/// The tab bar fits an `i32` for any window width whose band does.
proof fn lemma_tab_bar_bounds(gui_w: int)
    requires
        i32::MIN + 28 <= gui_w <= i32::MAX,
    ensures
        ({
            let (x, tw) = tab_bar_layout_spec(gui_w, 3);
            &&& i32::MIN <= tw * 2 <= i32::MAX
            &&& i32::MIN <= x + tw * 2 <= i32::MAX
            &&& i32::MIN <= x + tw <= i32::MAX
            &&& i32::MIN <= x <= i32::MAX
        }),
{
    let band = (if gui_w < TAB_BAR_MAX_WIDTH { gui_w } else { TAB_BAR_MAX_WIDTH as int }) - 2 * TAB_BAR_MARGIN;
    let t = tdiv(band, 3);
    let h = tdiv(gui_w - band, 2);
    crate::arith::lemma_tdiv_bounds(band, 3);
    crate::arith::lemma_tdiv_bounds(gui_w - band, 2);
    crate::arith::lemma_round_toward_range(t, 2);
    crate::arith::lemma_round_toward_range(h, 2);
    assert(-0x2AAA_AAAB <= t <= 124) by (nonlinear_arith)
        requires
            band >= 0 ==> 0 <= band - t * 3 < 3,
            band < 0 ==> -3 < band - t * 3 <= 0,
            i32::MIN <= band <= 372,
    ;
    assert(0 <= h <= 0x4000_0000) by (nonlinear_arith)
        requires
            0 <= (gui_w - band) - h * 2 < 2,
            28 <= gui_w - band <= 0x8000_0000,
    ;
}

/// The non-zero statistics of type `t`, as `(value id, value)`, in the
/// counter's order.
pub open spec fn of_type_spec(e: Seq<(StatKey, i32)>, t: i32) -> Seq<(i32, i32)> {
    e.filter(|x: (StatKey, i32)| x.0.type_id == t && x.1 != 0).map_values(|x: (StatKey, i32)| (x.0.value_id, x.1))
}

/// Some id among `pairs` is registered in `reg` under `n`.
pub open spec fn named_in(pairs: Seq<(i32, i32)>, reg: Seq<(i32, Seq<char>)>, n: Seq<char>) -> bool {
    exists|k: int| 0 <= k < pairs.len() && #[trigger] name_spec(reg, pairs[k].0) == Some(n)
}

/// The stat type of column `c`, looked up by its name.
pub open spec fn column_type(types: Seq<(i32, Seq<char>)>, c: int) -> Option<i32> {
    id_spec(types, column_name_spec(c))
}

/// Column `c`'s statistics name `n`: the block column through the block
/// registry, the others through the item registry.
pub open spec fn column_names(
    e: Seq<(StatKey, i32)>,
    types: Seq<(i32, Seq<char>)>,
    blocks: Seq<(i32, Seq<char>)>,
    items: Seq<(i32, Seq<char>)>,
    c: int,
    n: Seq<char>,
) -> bool {
    match column_type(types, c) {
        Some(t) => named_in(of_type_spec(e, t), if c == 0 { blocks } else { items }, n),
        None => false,
    }
}

/// A name gets a row: some column's non-zero statistics name it, and it is
/// not air.
pub open spec fn has_row(
    e: Seq<(StatKey, i32)>,
    types: Seq<(i32, Seq<char>)>,
    blocks: Seq<(i32, Seq<char>)>,
    items: Seq<(i32, Seq<char>)>,
    n: Seq<char>,
) -> bool {
    &&& n != "minecraft:air"@
    &&& exists|c: int| 0 <= c < 6 && #[trigger] column_names(e, types, blocks, items, c, n)
}

/// What the counter holds for `(t, id)` when both exist.
pub open spec fn count_spec(m: Map<StatKey, i32>, t: Option<i32>, id: Option<i32>) -> Option<i32> {
    match (t, id) {
        (Some(t), Some(v)) => {
            let k = StatKey { type_id: t, value_id: v };
            Some(if m.dom().contains(k) { m[k] } else { 0 })
        },
        _ => None,
    }
}

/// Row `r` is the row of name `n`: both registries' ids for it, each
/// column's count (through the block id for the block column, the item id
/// for the rest) and its grouped text, and the order — the item id, or for
/// a block-only row the item count plus the block id.
pub open spec fn row_ok(
    r: ItemRow,
    m: Map<StatKey, i32>,
    types: Seq<(i32, Seq<char>)>,
    blocks: Seq<(i32, Seq<char>)>,
    items: Seq<(i32, Seq<char>)>,
    n: Seq<char>,
) -> bool {
    let item_id = id_spec(items, n);
    let block_id = id_spec(blocks, n);
    &&& r.name@ == n
    &&& r.short_name@ == after_first_colon(n)
    &&& r.item_id == item_id
    &&& r.block_id == block_id
    &&& forall|c: int| 0 <= c < 6 ==> #[trigger] r.counts[c] == count_spec(m, column_type(types, c), if c == 0 { block_id } else { item_id })
    &&& forall|c: int| 0 <= c < 6 ==> match #[trigger] r.cells[c] {
        Some(t) => r.counts[c] matches Some(v) && t@ == grouped_spec(v as int),
        None => r.counts[c] is None,
    }
    &&& r.order == match item_id {
        Some(i) => i as int,
        None => items.len() + match block_id {
            Some(b) => b as int,
            None => 0,
        },
    }
}

/// Character order, then length: `String`'s order.
pub open spec fn name_lt(a: Seq<char>, b: Seq<char>) -> bool
    decreases a.len(),
{
    if a.len() == 0 {
        b.len() > 0
    } else if b.len() == 0 {
        false
    } else if a[0] != b[0] {
        (a[0] as u32) < (b[0] as u32)
    } else {
        name_lt(a.skip(1), b.skip(1))
    }
}

/// The name order is strict and total on distinct names.
pub proof fn lemma_name_lt_order(a: Seq<char>, b: Seq<char>, c: Seq<char>)
    ensures
        !name_lt(a, a),
        name_lt(a, b) ==> !name_lt(b, a),
        a != b ==> name_lt(a, b) || name_lt(b, a),
        name_lt(a, b) && name_lt(b, c) ==> name_lt(a, c),
    decreases a.len(),
{
    if a.len() > 0 && b.len() > 0 && c.len() > 0 {
        lemma_name_lt_order(a.skip(1), b.skip(1), c.skip(1));
    } else if a.len() > 0 && b.len() > 0 {
        lemma_name_lt_order(a.skip(1), b.skip(1), b.skip(1));
    } else if a.len() > 0 {
        lemma_name_lt_order(a.skip(1), a.skip(1), a.skip(1));
    }
    if a.len() > 0 && b.len() > 0 && a[0] == b[0] && a.skip(1) == b.skip(1) {
        assert(a =~= seq![a[0]] + a.skip(1));
        assert(b =~= seq![b[0]] + b.skip(1));
    }
    if a.len() == 0 && b.len() == 0 {
        assert(a =~= b);
    }
    if a.len() > 0 && b.len() > 0 && a[0] != b[0] {
        let (x, y) = (a[0], b[0]);
        vstd::utf8::char_u32_cast(x, x as u32);
        vstd::utf8::char_u32_cast(y, y as u32);
        assert((x as u32) != (y as u32));
    }
}

/// The rows' order: by `order`, ties by name.
pub open spec fn row_before(a: ItemRow, b: ItemRow) -> bool {
    a.order < b.order || (a.order == b.order && name_lt(a.name@, b.name@))
}

/// `a < b` by character, then length.
fn name_less(a: &str, b: &str) -> (r: bool)
    ensures
        r == name_lt(a@, b@),
{
    let x = chars_of(a);
    let y = chars_of(b);
    let n = x.len();
    let m = y.len();
    let mut i: usize = 0;
    proof {
        assert(x@.skip(0) =~= x@);
        assert(y@.skip(0) =~= y@);
    }
    loop
        invariant
            n == x@.len(),
            m == y@.len(),
            x@ == a@,
            y@ == b@,
            i <= n,
            i <= m,
            name_lt(a@, b@) == name_lt(x@.skip(i as int), y@.skip(i as int)),
        decreases n - i,
    {
        let sx = Ghost(x@.skip(i as int));
        let sy = Ghost(y@.skip(i as int));
        if i == n {
            return i < m;
        }
        if i == m {
            return false;
        }
        proof {
            assert(sx@[0] == x@[i as int] && sy@[0] == y@[i as int]);
            assert(sx@.skip(1) =~= x@.skip(i + 1));
            assert(sy@.skip(1) =~= y@.skip(i + 1));
        }
        if x[i] != y[i] {
            return (x[i] as u32) < (y[i] as u32);
        }
        i = i + 1;
    }
}

/// `a` goes before `b`.
fn row_less(a: &ItemRow, b: &ItemRow) -> (r: bool)
    ensures
        r == row_before(*a, *b),
{
    a.order < b.order || (a.order == b.order && name_less(a.name.as_str(), b.name.as_str()))
}

/// The text after the first colon, or the whole name.
fn short_name_of(name: &str) -> (r: String)
    ensures
        r@ == after_first_colon(name@),
{
    let cs = chars_of(name);
    let n = cs.len();
    let mut c: usize = 0;
    while c < n && cs[c] != ':'
        invariant
            n == cs@.len(),
            cs@ == name@,
            c <= n,
            forall|j: int| 0 <= j < c ==> cs@[j] != ':',
        decreases n - c,
    {
        c = c + 1;
    }
    if c == n {
        return name.to_owned();
    }
    proof {
        let k = choose|i: int| 0 <= i < name@.len() && name@[i] == ':' && forall|j: int| 0 <= j < i ==> name@[j] != ':';
        assert(0 <= c < name@.len() && name@[c as int] == ':' && forall|j: int| 0 <= j < c ==> name@[j] != ':');
        if k < c { assert(name@[k] != ':'); }
        if c < k { assert(name@[c as int] != ':'); }
    }
    let mut out: Vec<char> = Vec::new();
    let mut i = c + 1;
    while i < n
        invariant
            c < n,
            c + 1 <= i <= n,
            n == cs@.len(),
            out@ == cs@.subrange(c + 1, i as int),
        decreases n - i,
    {
        out.push(cs[i]);
        proof {
            assert(out@ =~= cs@.subrange(c + 1, i + 1));
        }
        i = i + 1;
    }
    proof {
        assert(out@ =~= name@.skip(c + 1));
    }
    string_from_chars(&out)
}

/// The counter's value for `(t, id)` when both exist.
fn count_of(counter: &StatsCounter, t: Option<i32>, id: Option<i32>) -> (r: Option<i32>)
    requires
        counter.wf(),
    ensures
        r == count_spec(counter.map(), t, id),
{
    match (t, id) {
        (Some(t), Some(v)) => Some(counter.value(StatKey::new(t, v))),
        _ => None,
    }
}

/// A count's cell text.
fn cell_of(count: Option<i32>) -> (r: Option<String>)
    ensures
        match r {
            Some(t) => count matches Some(v) && t@ == grouped_spec(v as int),
            None => count is None,
        },
{
    match count {
        Some(v) => Some(grouped(v)),
        None => None,
    }
}

/// The row of `name`.
fn item_row(
    counter: &StatsCounter,
    types: &[Option<i32>; 6],
    stat_types: &Registry,
    blocks: &Registry,
    items: &Registry,
    name: &str,
) -> (r: ItemRow)
    requires
        counter.wf(),
        blocks.wf(),
        items.wf(),
        forall|c: int| 0 <= c < 6 ==> #[trigger] types[c] == column_type(stat_types.pairs(), c),
        items.pairs().len() <= i32::MAX,
        id_spec(items.pairs(), name@) is None && id_spec(blocks.pairs(), name@) is Some ==> items.pairs().len()
            + id_spec(blocks.pairs(), name@)->0 <= i32::MAX,
    ensures
        row_ok(r, counter.map(), stat_types.pairs(), blocks.pairs(), items.pairs(), name@),
{
    let item_id = items.id_of(name);
    let block_id = blocks.id_of(name);
    let c0 = count_of(counter, types[0], block_id);
    let c1 = count_of(counter, types[1], item_id);
    let c2 = count_of(counter, types[2], item_id);
    let c3 = count_of(counter, types[3], item_id);
    let c4 = count_of(counter, types[4], item_id);
    let c5 = count_of(counter, types[5], item_id);
    let counts: [Option<i32>; 6] = [c0, c1, c2, c3, c4, c5];
    let cells: [Option<String>; 6] = [cell_of(c0), cell_of(c1), cell_of(c2), cell_of(c3), cell_of(c4), cell_of(c5)];
    let order = match item_id {
        Some(i) => i,
        None => {
            let len = items.len() as i32;
            match block_id {
                Some(b) => len + b,
                None => len,
            }
        },
    };
    let r = ItemRow { name: name.to_owned(), short_name: short_name_of(name), item_id, block_id, counts, cells, order };
    proof {
        assert forall|c: int| 0 <= c < 6 implies #[trigger] r.counts[c] == count_spec(counter.map(), column_type(stat_types.pairs(), c), if c == 0 { block_id } else { item_id }) by {
            assert(types[c] == column_type(stat_types.pairs(), c));
        }
    }
    r
}

/// `n` is among the names.
pub open spec fn listed(v: Seq<String>, n: Seq<char>) -> bool {
    exists|i: int| 0 <= i < v.len() && (#[trigger] v[i])@ == n
}

/// No name twice.
pub open spec fn names_distinct(v: Seq<String>) -> bool {
    forall|i: int, j: int| 0 <= i < j < v.len() ==> (#[trigger] v[i])@ != (#[trigger] v[j])@
}

/// Whether `name` is already listed.
fn is_listed(names: &Vec<String>, name: &str) -> (r: bool)
    ensures
        r == listed(names@, name@),
{
    let n = names.len();
    let mut i: usize = 0;
    while i < n
        invariant
            n == names@.len(),
            i <= n,
            forall|k: int| 0 <= k < i ==> names@[k]@ != name@,
        decreases n - i,
    {
        if str_eq(names[i].as_str(), name) {
            return true;
        }
        i = i + 1;
    }
    false
}

/// Add every name `reg` gives an id of `pairs`, air aside, that is not
/// listed yet.
fn add_names(names: &mut Vec<String>, pairs: &Vec<(i32, i32)>, reg: &Registry)
    requires
        reg.wf(),
        names_distinct(old(names)@),
    ensures
        names_distinct(final(names)@),
        forall|n: Seq<char>| #[trigger] listed(final(names)@, n) <==> listed(old(names)@, n) || (n != "minecraft:air"@
            && named_in(pairs@, reg.pairs(), n)),
{
    let m = pairs.len();
    let mut k: usize = 0;
    while k < m
        invariant
            m == pairs@.len(),
            k <= m,
            reg.wf(),
            names_distinct(names@),
            forall|n: Seq<char>| #[trigger] listed(names@, n) <==> listed(old(names)@, n) || (n != "minecraft:air"@
                && named_in(pairs@.take(k as int), reg.pairs(), n)),
        decreases m - k,
    {
        let ghost before = names@;
        let (v, _) = pairs[k];
        proof {
            assert(pairs@.take(k + 1).drop_last() =~= pairs@.take(k as int));
            assert(pairs@.take(k + 1)[k as int] == pairs@[k as int]);
        }
        match reg.name(v) {
            Some(name) => {
                if !str_eq(name, "minecraft:air") && !is_listed(names, name) {
                    names.push(name.to_owned());
                    proof {
                        assert(names@.last()@ == name@);
                        assert forall|n: Seq<char>| #[trigger] listed(names@, n) <==> listed(before, n) || n == name@ by {
                            if listed(names@, n) {
                                let i = choose|i: int| 0 <= i < names@.len() && (#[trigger] names@[i])@ == n;
                                if i < before.len() {
                                    assert(before[i] == names@[i]);
                                }
                            }
                            if listed(before, n) {
                                let i = choose|i: int| 0 <= i < before.len() && (#[trigger] before[i])@ == n;
                                assert(names@[i] == before[i]);
                            }
                            if n == name@ {
                                assert(names@[before.len() as int]@ == n);
                            }
                        }
                    }
                }
                proof {
                    assert forall|n: Seq<char>| #[trigger] listed(names@, n) <==> listed(old(names)@, n) || (n != "minecraft:air"@
                        && named_in(pairs@.take(k + 1), reg.pairs(), n)) by {
                        if named_in(pairs@.take(k + 1), reg.pairs(), n) && !named_in(pairs@.take(k as int), reg.pairs(), n) {
                            let j = choose|j: int| 0 <= j < pairs@.take(k + 1).len() && #[trigger] name_spec(reg.pairs(), pairs@.take(k + 1)[j].0) == Some(n);
                            if j < k {
                                assert(pairs@.take(k as int)[j] == pairs@.take(k + 1)[j]);
                            }
                            assert(n == name@);
                        }
                        if named_in(pairs@.take(k as int), reg.pairs(), n) {
                            let j = choose|j: int| 0 <= j < pairs@.take(k as int).len() && #[trigger] name_spec(reg.pairs(), pairs@.take(k as int)[j].0) == Some(n);
                            assert(pairs@.take(k + 1)[j] == pairs@.take(k as int)[j]);
                        }
                        if n == name@ {
                            assert(name_spec(reg.pairs(), pairs@.take(k + 1)[k as int].0) == Some(n));
                        }
                    }
                }
            },
            None => {
                proof {
                    assert forall|n: Seq<char>| #[trigger] listed(names@, n) <==> listed(old(names)@, n) || (n != "minecraft:air"@
                        && named_in(pairs@.take(k + 1), reg.pairs(), n)) by {
                        if named_in(pairs@.take(k + 1), reg.pairs(), n) {
                            let j = choose|j: int| 0 <= j < pairs@.take(k + 1).len() && #[trigger] name_spec(reg.pairs(), pairs@.take(k + 1)[j].0) == Some(n);
                            assert(j != k);
                            assert(pairs@.take(k as int)[j] == pairs@.take(k + 1)[j]);
                        }
                        if named_in(pairs@.take(k as int), reg.pairs(), n) {
                            let j = choose|j: int| 0 <= j < pairs@.take(k as int).len() && #[trigger] name_spec(reg.pairs(), pairs@.take(k as int)[j].0) == Some(n);
                            assert(pairs@.take(k + 1)[j] == pairs@.take(k as int)[j]);
                        }
                    }
                }
            },
        }
        k = k + 1;
    }
    proof {
        assert(pairs@.take(m as int) =~= pairs@);
    }
}

/// Where the element at `k` came from when the one at `i` moved to `j`.
pub open spec fn moved_from(i: int, j: int, k: int) -> int {
    if k < j || k > i {
        k
    } else if k == j {
        i
    } else {
        k - 1
    }
}

/// Where the element at `k` went when the one at `i` moved to `j`.
pub open spec fn moved_to(i: int, j: int, k: int) -> int {
    if k < j || k > i {
        k
    } else if k == i {
        j
    } else {
        k + 1
    }
}

/// Moving one element keeps every element, each at a known place.
proof fn lemma_move<T>(before: Seq<T>, s: Seq<T>, i: int, j: int)
    requires
        0 <= j <= i < before.len(),
        s == before.remove(i).insert(j, before[i]),
    ensures
        s.len() == before.len(),
        forall|k: int| 0 <= k < s.len() ==> 0 <= #[trigger] moved_from(i, j, k) < before.len() && s[k] == before[moved_from(i, j, k)],
        forall|k: int| 0 <= k < before.len() ==> 0 <= #[trigger] moved_to(i, j, k) < s.len() && s[moved_to(i, j, k)] == before[k],
        forall|a: int, b: int| 0 <= a < s.len() && 0 <= b < s.len() && a != b ==> #[trigger] moved_from(i, j, a) != #[trigger] moved_from(i, j, b),
{
}

/// The row order is strict and, between rows of distinct names, total.
proof fn lemma_row_before(a: ItemRow, b: ItemRow, c: ItemRow)
    ensures
        !row_before(a, a),
        row_before(a, b) ==> !row_before(b, a),
        a.name@ != b.name@ ==> row_before(a, b) || row_before(b, a),
        row_before(a, b) && row_before(b, c) ==> row_before(a, c),
{
    lemma_name_lt_order(a.name@, b.name@, c.name@);
}

/// Adding one more column's names to the list.
proof fn lemma_column_step(
    before: Seq<String>,
    after: Seq<String>,
    e: Seq<(StatKey, i32)>,
    tp: Seq<(i32, Seq<char>)>,
    bp: Seq<(i32, Seq<char>)>,
    ip: Seq<(i32, Seq<char>)>,
    c: int,
)
    requires
        0 <= c,
        forall|n: Seq<char>| #[trigger] listed(before, n) <==> n != "minecraft:air"@
            && exists|k: int| 0 <= k < c && #[trigger] column_names(e, tp, bp, ip, k, n),
        forall|n: Seq<char>| #[trigger] listed(after, n) <==> listed(before, n) || (n != "minecraft:air"@
            && column_names(e, tp, bp, ip, c, n)),
    ensures
        forall|n: Seq<char>| #[trigger] listed(after, n) <==> n != "minecraft:air"@
            && exists|k: int| 0 <= k < c + 1 && #[trigger] column_names(e, tp, bp, ip, k, n),
{
    assert forall|n: Seq<char>| #[trigger] listed(after, n) <==> n != "minecraft:air"@
        && exists|k: int| 0 <= k < c + 1 && #[trigger] column_names(e, tp, bp, ip, k, n) by {
        if exists|k: int| 0 <= k < c + 1 && #[trigger] column_names(e, tp, bp, ip, k, n) {
            let k = choose|k: int| 0 <= k < c + 1 && #[trigger] column_names(e, tp, bp, ip, k, n);
            if k < c {
                assert(exists|k2: int| 0 <= k2 < c && #[trigger] column_names(e, tp, bp, ip, k2, n));
            }
        }
        if listed(before, n) {
            let k = choose|k: int| 0 <= k < c && #[trigger] column_names(e, tp, bp, ip, k, n);
            assert(0 <= k < c + 1);
        }
        if column_names(e, tp, bp, ip, c, n) {
            assert(0 <= c < c + 1);
        }
    }
}

/// What the rows of a list are: each the row of its name, each name one
/// that gets a row, every such name present, no name twice.
pub open spec fn rows_of(
    r: Seq<ItemRow>,
    m: Map<StatKey, i32>,
    e: Seq<(StatKey, i32)>,
    types: Seq<(i32, Seq<char>)>,
    blocks: Seq<(i32, Seq<char>)>,
    items: Seq<(i32, Seq<char>)>,
) -> bool {
    &&& forall|k: int| 0 <= k < r.len() ==> row_ok(#[trigger] r[k], m, types, blocks, items, r[k].name@)
        && has_row(e, types, blocks, items, r[k].name@)
    &&& forall|n: Seq<char>| #[trigger] has_row(e, types, blocks, items, n) ==> exists|k: int| 0 <= k < r.len() && (#[trigger] r[k]).name@ == n
    &&& forall|a: int, b: int| 0 <= a < r.len() && 0 <= b < r.len() && a != b ==> (#[trigger] r[a]).name@ != (#[trigger] r[b]).name@
}

/// The items list's rows: one per registry name that some column's
/// non-zero statistics reach (through the block registry for the block
/// column, the item registry for the rest), air aside; each with both ids,
/// the six counts and their grouped text; ordered by `order`, ties by name.
pub fn build_items(counter: &StatsCounter, reg: &StatRegistries, items: &Registry) -> (r: Vec<ItemRow>)
    requires
        counter.wf(),
        reg.wf(),
        items.wf(),
        items.pairs().len() <= i32::MAX,
        forall|n: Seq<char>| #[trigger] has_row(counter.entries(), reg.stat_type.pairs(), reg.block.pairs(), items.pairs(), n)
            && id_spec(items.pairs(), n) is None && id_spec(reg.block.pairs(), n) is Some
            ==> items.pairs().len() + id_spec(reg.block.pairs(), n)->0 <= i32::MAX,
    ensures
        rows_of(r@, counter.map(), counter.entries(), reg.stat_type.pairs(), reg.block.pairs(), items.pairs()),
        forall|a: int, b: int| 0 <= a < b < r@.len() ==> row_before(#[trigger] r@[a], #[trigger] r@[b]),
{
    let stat_types = &reg.stat_type;
    let blocks = &reg.block;
    let ghost e = counter.entries();
    let ghost m = counter.map();
    let ghost tp = stat_types.pairs();
    let ghost bp = blocks.pairs();
    let ghost ip = items.pairs();
    let t0 = stat_types.id_of(column_name(0));
    let t1 = stat_types.id_of(column_name(1));
    let t2 = stat_types.id_of(column_name(2));
    let t3 = stat_types.id_of(column_name(3));
    let t4 = stat_types.id_of(column_name(4));
    let t5 = stat_types.id_of(column_name(5));
    let types: [Option<i32>; 6] = [t0, t1, t2, t3, t4, t5];
    let mut names: Vec<String> = Vec::new();
    let mut c: usize = 0;
    while c < 6
        invariant
            c <= 6,
            counter.wf(),
            blocks.wf(),
            items.wf(),
            e == counter.entries(),
            tp == stat_types.pairs(),
            bp == blocks.pairs(),
            ip == items.pairs(),
            forall|k: int| 0 <= k < 6 ==> #[trigger] types[k] == column_type(tp, k),
            names_distinct(names@),
            forall|n: Seq<char>| #[trigger] listed(names@, n) <==> n != "minecraft:air"@
                && exists|k: int| 0 <= k < c && #[trigger] column_names(e, tp, bp, ip, k, n),
        decreases 6 - c,
    {
        let ghost before = names@;
        match types[c] {
            Some(t) => {
                let pairs = counter.of_type(t);
                if c == 0 {
                    add_names(&mut names, &pairs, blocks);
                } else {
                    add_names(&mut names, &pairs, items);
                }
                proof {
                    assert(types[c as int] == column_type(tp, c as int));
                    assert forall|n: Seq<char>| #[trigger] listed(names@, n) <==> listed(before, n) || (n != "minecraft:air"@
                        && column_names(e, tp, bp, ip, c as int, n)) by {
                        assert(pairs@ == of_type_spec(e, t));
                    }
                }
            },
            None => {
                proof {
                    assert(types[c as int] == column_type(tp, c as int));
                    assert forall|n: Seq<char>| #[trigger] listed(names@, n) <==> listed(before, n) || (n != "minecraft:air"@
                        && column_names(e, tp, bp, ip, c as int, n)) by {
                    }
                }
            },
        }
        proof {
            lemma_column_step(before, names@, e, tp, bp, ip, c as int);
        }
        c = c + 1;
    }
    let mut rows: Vec<ItemRow> = Vec::new();
    let nn = names.len();
    let mut i: usize = 0;
    while i < nn
        invariant
            nn == names@.len(),
            i <= nn,
            counter.wf(),
            blocks.wf(),
            items.wf(),
            e == counter.entries(),
            m == counter.map(),
            tp == stat_types.pairs(),
            bp == blocks.pairs(),
            ip == items.pairs(),
            ip.len() <= i32::MAX,
            forall|n: Seq<char>| #[trigger] has_row(e, tp, bp, ip, n) && id_spec(ip, n) is None && id_spec(bp, n) is Some
                ==> ip.len() + id_spec(bp, n)->0 <= i32::MAX,
            forall|k: int| 0 <= k < 6 ==> #[trigger] types[k] == column_type(tp, k),
            forall|n: Seq<char>| #[trigger] listed(names@, n) <==> has_row(e, tp, bp, ip, n),
            rows@.len() == i,
            forall|k: int| 0 <= k < i ==> (#[trigger] rows@[k]).name@ == names@[k]@,
            forall|k: int| 0 <= k < i ==> row_ok(#[trigger] rows@[k], m, tp, bp, ip, rows@[k].name@),
        decreases nn - i,
    {
        proof {
            assert(listed(names@, names@[i as int]@));
        }
        let row = item_row(counter, &types, stat_types, blocks, items, names[i].as_str());
        rows.push(row);
        i = i + 1;
    }
    proof {
        assert forall|k: int| 0 <= k < rows@.len() implies row_ok(#[trigger] rows@[k], m, tp, bp, ip, rows@[k].name@)
            && has_row(e, tp, bp, ip, rows@[k].name@) by {
            assert(listed(names@, names@[k]@));
        }
        assert forall|n: Seq<char>| #[trigger] has_row(e, tp, bp, ip, n) implies exists|k: int| 0 <= k < rows@.len() && (#[trigger] rows@[k]).name@ == n by {
            assert(listed(names@, n));
            let k = choose|k: int| 0 <= k < names@.len() && (#[trigger] names@[k])@ == n;
            assert(rows@[k].name@ == n);
        }
        assert forall|a: int, b: int| 0 <= a < rows@.len() && 0 <= b < rows@.len() && a != b implies (#[trigger] rows@[a]).name@ != (#[trigger] rows@[b]).name@ by {
            if a < b { assert(names@[a]@ != names@[b]@); } else { assert(names@[b]@ != names@[a]@); }
        }
    }
    sort_item_rows(&mut rows, Ghost(m), Ghost(e), Ghost(tp), Ghost(bp), Ghost(ip));
    rows
}

/// Insertion sort by [`row_before`], keeping what the rows are.
fn sort_item_rows(
    rows: &mut Vec<ItemRow>,
    Ghost(m): Ghost<Map<StatKey, i32>>,
    Ghost(e): Ghost<Seq<(StatKey, i32)>>,
    Ghost(tp): Ghost<Seq<(i32, Seq<char>)>>,
    Ghost(bp): Ghost<Seq<(i32, Seq<char>)>>,
    Ghost(ip): Ghost<Seq<(i32, Seq<char>)>>,
)
    requires
        rows_of(old(rows)@, m, e, tp, bp, ip),
    ensures
        rows_of(final(rows)@, m, e, tp, bp, ip),
        forall|a: int, b: int| 0 <= a < b < final(rows)@.len() ==> row_before(#[trigger] final(rows)@[a], #[trigger] final(rows)@[b]),
{
    let n = rows.len();
    if n == 0 {
        return;
    }
    let mut i: usize = 1;
    while i < n
        invariant
            1 <= i <= n,
            n == rows@.len(),
            rows_of(rows@, m, e, tp, bp, ip),
            forall|a: int, b: int| 0 <= a < b < i ==> row_before(#[trigger] rows@[a], #[trigger] rows@[b]),
        decreases n - i,
    {
        let ghost before = rows@;
        let mut j: usize = 0;
        while j < i && !row_less(&rows[i], &rows[j])
            invariant
                0 <= j <= i < n,
                n == rows@.len(),
                rows@ == before,
                forall|k: int| 0 <= k < j ==> !row_before(rows@[i as int], #[trigger] rows@[k]),
            decreases i - j,
        {
            j = j + 1;
        }
        let x = rows.remove(i);
        rows.insert(j, x);
        proof {
            let s = rows@;
            assert(x == before[i as int]);
            assert(s == before.remove(i as int).insert(j as int, x));
            lemma_move(before, s, i as int, j as int);
            lemma_sorted_after_move(before, s, i as int, j as int, m, e, tp, bp, ip);
        }
        i = i + 1;
    }
}

/// Moving row `i` to `j`, the first place it goes before, keeps the list
/// what it was and extends the sorted prefix by one.
proof fn lemma_sorted_after_move(
    before: Seq<ItemRow>,
    s: Seq<ItemRow>,
    i: int,
    j: int,
    m: Map<StatKey, i32>,
    e: Seq<(StatKey, i32)>,
    tp: Seq<(i32, Seq<char>)>,
    bp: Seq<(i32, Seq<char>)>,
    ip: Seq<(i32, Seq<char>)>,
)
    requires
        0 <= j <= i < before.len(),
        s == before.remove(i).insert(j, before[i]),
        rows_of(before, m, e, tp, bp, ip),
        forall|a: int, b: int| 0 <= a < b < i ==> row_before(#[trigger] before[a], #[trigger] before[b]),
        forall|k: int| 0 <= k < j ==> !row_before(before[i], #[trigger] before[k]),
        j < i ==> row_before(before[i], before[j]),
    ensures
        rows_of(s, m, e, tp, bp, ip),
        forall|a: int, b: int| 0 <= a < b < i + 1 ==> row_before(#[trigger] s[a], #[trigger] s[b]),
{
    lemma_move(before, s, i, j);
    let x = before[i];
    assert forall|k: int| 0 <= k < s.len() implies row_ok(#[trigger] s[k], m, tp, bp, ip, s[k].name@)
        && has_row(e, tp, bp, ip, s[k].name@) by {
        assert(s[k] == before[moved_from(i, j, k)]);
    }
    assert forall|nm: Seq<char>| #[trigger] has_row(e, tp, bp, ip, nm) implies exists|k: int| 0 <= k < s.len() && (#[trigger] s[k]).name@ == nm by {
        let k2 = choose|k: int| 0 <= k < before.len() && (#[trigger] before[k]).name@ == nm;
        assert(s[moved_to(i, j, k2)] == before[k2]);
    }
    assert forall|a: int, b: int| 0 <= a < s.len() && 0 <= b < s.len() && a != b implies (#[trigger] s[a]).name@ != (#[trigger] s[b]).name@ by {
        assert(s[a] == before[moved_from(i, j, a)]);
        assert(s[b] == before[moved_from(i, j, b)]);
        assert(moved_from(i, j, a) != moved_from(i, j, b));
    }
    assert forall|a: int, b: int| 0 <= a < b < i + 1 implies row_before(#[trigger] s[a], #[trigger] s[b]) by {
        let fa = moved_from(i, j, a);
        let fb = moved_from(i, j, b);
        assert(s[a] == before[fa] && s[b] == before[fb]);
        if b < j || a > j {
            assert(fa < fb && fb < i);
        } else if b == j {
            assert(fb == i && fa == a && a < j);
            assert(!row_before(x, before[a]));
            assert(before[a].name@ != x.name@);
            lemma_row_before(before[a], x, x);
        } else if a == j {
            assert(fa == i && fb == b - 1 && j <= b - 1 < i);
            if b - 1 > j {
                assert(row_before(before[j], before[b - 1]));
                lemma_row_before(x, before[j], before[b - 1]);
            }
        } else {
            assert(a < j && j < b);
            assert(fa == a && fb == b - 1);
            assert(fa < fb && fb < i);
        }
    }
}

/// An `i32` as `Integer.toString` prints it.
pub open spec fn int_text(v: int) -> Seq<char> {
    (if v < 0 { seq!['-'] } else { Seq::empty() }) + decimal((if v < 0 { -v } else { v }) as nat)
}

fn int_string(v: i32) -> (r: String)
    ensures
        r@ == int_text(v as int),
{
    let mag: u64 = if v < 0 { (-(v as i64)) as u64 } else { v as u64 };
    let mut out: Vec<char> = Vec::new();
    if v < 0 {
        out.push('-');
    }
    push_decimal_u64(&mut out, mag);
    proof {
        assert(out@ =~= int_text(v as int));
    }
    string_from_chars(&out)
}

/// An entity's translation key: `entity.` and its registry name with each
/// `:` made a `.`.
pub open spec fn entity_key(name: Seq<char>) -> Seq<char> {
    "entity."@ + name.map_values(|c: char| if c == ':' { '.' } else { c })
}

fn entity_key_of(name: &str) -> (r: String)
    ensures
        r@ == entity_key(name@),
{
    let cs = chars_of(name);
    let mut out = chars_of("entity.");
    let ghost prefix = out@;
    let n = cs.len();
    let mut i: usize = 0;
    while i < n
        invariant
            n == cs@.len(),
            cs@ == name@,
            i <= n,
            out@ == prefix + cs@.take(i as int).map_values(|c: char| if c == ':' { '.' } else { c }),
        decreases n - i,
    {
        let c = cs[i];
        out.push(if c == ':' { '.' } else { c });
        proof {
            assert(cs@.take(i + 1) =~= cs@.take(i as int).push(c));
            assert(out@ =~= prefix + cs@.take(i + 1).map_values(|c: char| if c == ':' { '.' } else { c }));
        }
        i = i + 1;
    }
    proof {
        reveal_strlit("entity.");
        assert(cs@.take(n as int) =~= cs@);
    }
    string_from_chars(&out)
}

/// The counter's value for a key, 0 when absent.
pub open spec fn value_of(m: Map<StatKey, i32>, t: i32, id: i32) -> int {
    let k = StatKey { type_id: t, value_id: id };
    if m.dom().contains(k) { m[k] as int } else { 0 }
}

/// The row of entity `id`, named `name`: the mob's translated name, and
/// the two sentences — the kill count before the name, the name before the
/// death count, each taking its `.none` template at zero.
pub open spec fn mob_row_ok(r: MobRow, m: Map<StatKey, i32>, killed: i32, killed_by: i32, lang: Seq<(Seq<char>, Seq<char>)>, id: i32, name: Seq<char>) -> bool {
    let kills = value_of(m, killed, id);
    let died = value_of(m, killed_by, id);
    let mob = or_key_spec(lang, entity_key(name));
    &&& r.name@ == mob
    &&& r.has_kills == (kills != 0)
    &&& r.was_killed_by == (died != 0)
    &&& r.kills@ == if kills == 0 {
        fill(or_key_spec(lang, "stat_type.minecraft.killed.none"@), seq![mob], 0)
    } else {
        fill(or_key_spec(lang, "stat_type.minecraft.killed"@), seq![int_text(kills), mob], 0)
    }
    &&& r.killed_by@ == if died == 0 {
        fill(or_key_spec(lang, "stat_type.minecraft.killed_by.none"@), seq![mob], 0)
    } else {
        fill(or_key_spec(lang, "stat_type.minecraft.killed_by"@), seq![mob, int_text(died)], 0)
    }
}

/// An entity gets a row: it is registered and it killed or was killed.
pub open spec fn mob_listed(m: Map<StatKey, i32>, killed: i32, killed_by: i32, types: Seq<(i32, Seq<char>)>, id: i32) -> bool {
    &&& name_spec(types, id) is Some
    &&& (value_of(m, killed, id) != 0 || value_of(m, killed_by, id) != 0)
}

/// `r` is the rows of the entities `s`, in order: `s` ascending, each a
/// listed entity with its row, and every listed entity in `s`.
pub open spec fn mob_rows(
    r: Seq<MobRow>,
    s: Seq<i32>,
    m: Map<StatKey, i32>,
    killed: i32,
    killed_by: i32,
    types: Seq<(i32, Seq<char>)>,
    lang: Seq<(Seq<char>, Seq<char>)>,
) -> bool {
    &&& s.len() == r.len()
    &&& forall|a: int, b: int| 0 <= a < b < s.len() ==> s[a] < s[b]
    &&& forall|k: int| 0 <= k < s.len() ==> mob_listed(m, killed, killed_by, types, #[trigger] s[k])
        && mob_row_ok(r[k], m, killed, killed_by, lang, s[k], name_spec(types, s[k])->0)
    &&& forall|id: i32| #[trigger] mob_listed(m, killed, killed_by, types, id) ==> s.contains(id)
}

/// What every mob row says, read off the row itself: a mob that never
/// killed the player, or was never killed, gets the `.none` sentence with
/// its name alone, never a count of 0; otherwise the sentence carries the
/// count. Every row has at least one of the two.
pub proof fn lemma_mob_row_sentences(
    r: Seq<MobRow>,
    s: Seq<i32>,
    m: Map<StatKey, i32>,
    killed: i32,
    killed_by: i32,
    types: Seq<(i32, Seq<char>)>,
    lang: Seq<(Seq<char>, Seq<char>)>,
)
    requires
        mob_rows(r, s, m, killed, killed_by, types, lang),
    ensures
        forall|k: int| 0 <= k < r.len() ==> {
            let row = #[trigger] r[k];
            &&& row.has_kills || row.was_killed_by
            &&& !row.was_killed_by ==> row.killed_by@ == fill(or_key_spec(lang, "stat_type.minecraft.killed_by.none"@), seq![row.name@], 0)
            &&& row.was_killed_by ==> row.killed_by@ == fill(
                or_key_spec(lang, "stat_type.minecraft.killed_by"@),
                seq![row.name@, int_text(value_of(m, killed_by, s[k]))],
                0,
            ) && value_of(m, killed_by, s[k]) != 0
            &&& !row.has_kills ==> row.kills@ == fill(or_key_spec(lang, "stat_type.minecraft.killed.none"@), seq![row.name@], 0)
            &&& row.has_kills ==> row.kills@ == fill(
                or_key_spec(lang, "stat_type.minecraft.killed"@),
                seq![int_text(value_of(m, killed, s[k])), row.name@],
                0,
            ) && value_of(m, killed, s[k]) != 0
        },
{
    assert forall|k: int| 0 <= k < r.len() implies {
        let row = #[trigger] r[k];
        &&& row.has_kills || row.was_killed_by
        &&& !row.was_killed_by ==> row.killed_by@ == fill(or_key_spec(lang, "stat_type.minecraft.killed_by.none"@), seq![row.name@], 0)
        &&& row.was_killed_by ==> row.killed_by@ == fill(
            or_key_spec(lang, "stat_type.minecraft.killed_by"@),
            seq![row.name@, int_text(value_of(m, killed_by, s[k]))],
            0,
        ) && value_of(m, killed_by, s[k]) != 0
        &&& !row.has_kills ==> row.kills@ == fill(or_key_spec(lang, "stat_type.minecraft.killed.none"@), seq![row.name@], 0)
        &&& row.has_kills ==> row.kills@ == fill(
            or_key_spec(lang, "stat_type.minecraft.killed"@),
            seq![int_text(value_of(m, killed, s[k])), row.name@],
            0,
        ) && value_of(m, killed, s[k]) != 0
    } by {
        assert(mob_listed(m, killed, killed_by, types, s[k]));
        assert(mob_row_ok(r[k], m, killed, killed_by, lang, s[k], name_spec(types, s[k])->0));
    }
}

/// Sort ids ascending.
fn sort_ids(v: &mut Vec<i32>)
    requires
        forall|a: int, b: int| 0 <= a < b < old(v)@.len() ==> old(v)@[a] != old(v)@[b],
    ensures
        final(v)@.len() == old(v)@.len(),
        forall|a: int, b: int| 0 <= a < b < final(v)@.len() ==> final(v)@[a] < final(v)@[b],
        forall|x: i32| final(v)@.contains(x) <==> old(v)@.contains(x),
{
    let n = v.len();
    if n == 0 {
        return;
    }
    let mut i: usize = 1;
    while i < n
        invariant
            1 <= i <= n,
            n == v@.len(),
            forall|a: int, b: int| 0 <= a < b < v@.len() ==> v@[a] != v@[b],
            forall|a: int, b: int| 0 <= a < b < i ==> v@[a] < v@[b],
            forall|x: i32| v@.contains(x) <==> old(v)@.contains(x),
        decreases n - i,
    {
        let ghost before = v@;
        let mut j: usize = 0;
        while j < i && v[j] < v[i]
            invariant
                0 <= j <= i < n,
                n == v@.len(),
                v@ == before,
                forall|k: int| 0 <= k < j ==> v@[k] < v@[i as int],
            decreases i - j,
        {
            j = j + 1;
        }
        let x = v.remove(i);
        v.insert(j, x);
        proof {
            let s = v@;
            assert(s == before.remove(i as int).insert(j as int, x));
            lemma_move(before, s, i as int, j as int);
            assert forall|y: i32| s.contains(y) <==> before.contains(y) by {
                if s.contains(y) {
                    let k = choose|k: int| 0 <= k < s.len() && s[k] == y;
                    assert(before[moved_from(i as int, j as int, k)] == y);
                }
                if before.contains(y) {
                    let k = choose|k: int| 0 <= k < before.len() && before[k] == y;
                    assert(s[moved_to(i as int, j as int, k)] == y);
                }
            }
            assert forall|a: int, b: int| 0 <= a < b < s.len() implies s[a] != s[b] by {
                assert(s[a] == before[moved_from(i as int, j as int, a)]);
                assert(s[b] == before[moved_from(i as int, j as int, b)]);
            }
            assert forall|a: int, b: int| 0 <= a < b < i + 1 implies s[a] < s[b] by {
                let fa = moved_from(i as int, j as int, a);
                let fb = moved_from(i as int, j as int, b);
                assert(s[a] == before[fa] && s[b] == before[fb]);
                if b == j as int {
                    assert(before[a] < x);
                } else if a == j as int {
                    assert(j < i ==> x <= before[j as int]);
                    if j < i {
                        assert(before[j as int] != x);
                        if b - 1 > j as int {
                            assert(before[j as int] < before[b - 1]);
                        }
                    }
                }
            }
        }
        i = i + 1;
    }
}

/// The mobs list: nothing when either statistic type is missing;
/// otherwise one row per registered entity that killed or was killed, in
/// ascending id order.
pub fn build_mobs(counter: &StatsCounter, reg: &StatRegistries, types: &Registry, lang: &Language) -> (r: Vec<MobRow>)
    requires
        counter.wf(),
        reg.wf(),
        types.wf(),
    ensures
        ({
            let killed = id_spec(reg.stat_type.pairs(), "minecraft:killed"@);
            let killed_by = id_spec(reg.stat_type.pairs(), "minecraft:killed_by"@);
            if killed is None || killed_by is None {
                r@.len() == 0
            } else {
                exists|s: Seq<i32>| #[trigger] mob_rows(r@, s, counter.map(), killed->0, killed_by->0, types.pairs(), lang.pairs())
            }
        }),
{
    let killed = reg.stat_type.id_of("minecraft:killed");
    let killed_by = reg.stat_type.id_of("minecraft:killed_by");
    let (kt, kbt) = match (killed, killed_by) {
        (Some(a), Some(b)) => (a, b),
        _ => {
            return Vec::new();
        },
    };
    let ghost m = counter.map();
    let ghost tp = types.pairs();
    let ghost lp = lang.pairs();
    let mut ids = types.ids();
    proof {
        assert forall|a: int, b: int| 0 <= a < b < ids@.len() implies ids@[a] != ids@[b] by {
            assert(ids@[a] == tp[a].0 && ids@[b] == tp[b].0);
        }
    }
    let ghost all = ids@;
    sort_ids(&mut ids);
    let mut rows: Vec<MobRow> = Vec::new();
    let ghost mut s: Seq<i32> = Seq::empty();
    let n = ids.len();
    let mut i: usize = 0;
    while i < n
        invariant
            n == ids@.len(),
            i <= n,
            counter.wf(),
            types.wf(),
            m == counter.map(),
            tp == types.pairs(),
            lp == lang.pairs(),
            all == tp.map_values(|p: (i32, Seq<char>)| p.0),
            forall|x: i32| ids@.contains(x) <==> all.contains(x),
            forall|a: int, b: int| 0 <= a < b < ids@.len() ==> ids@[a] < ids@[b],
            s.len() == rows@.len(),
            forall|a: int, b: int| 0 <= a < b < s.len() ==> s[a] < s[b],
            forall|k: int| 0 <= k < s.len() ==> exists|q: int| 0 <= q < i && ids@[q] == #[trigger] s[k],
            forall|k: int| 0 <= k < s.len() ==> mob_listed(m, kt, kbt, tp, #[trigger] s[k])
                && mob_row_ok(rows@[k], m, kt, kbt, lp, s[k], name_spec(tp, s[k])->0),
            forall|q: int| 0 <= q < i && mob_listed(m, kt, kbt, tp, #[trigger] ids@[q]) ==> s.contains(ids@[q]),
        decreases n - i,
    {
        let id = ids[i];
        proof {
            assert(ids@.contains(id));
            assert(all.contains(id));
            let q = choose|q: int| 0 <= q < all.len() && all[q] == id;
            assert(tp[q].0 == id);
            crate::registry::lemma_lookups_at(tp, q);
        }
        let kills = counter.value(StatKey::new(kt, id));
        let died = counter.value(StatKey::new(kbt, id));
        if kills != 0 || died != 0 {
            match types.name(id) {
                Some(name) => {
                    let key = entity_key_of(name);
                    let mob = lang.or_key(key.as_str());
                    let kills_text = if kills == 0 {
                        let args: [&str; 1] = [mob.as_str()];
                        proof {
                            assert(args@.map_values(|a: &str| a@) =~= seq![mob@]);
                        }
                        lang.translate("stat_type.minecraft.killed.none", &args)
                    } else {
                        let k = int_string(kills);
                        let args: [&str; 2] = [k.as_str(), mob.as_str()];
                        proof {
                            assert(args@.map_values(|a: &str| a@) =~= seq![k@, mob@]);
                        }
                        lang.translate("stat_type.minecraft.killed", &args)
                    };
                    let died_text = if died == 0 {
                        let args: [&str; 1] = [mob.as_str()];
                        proof {
                            assert(args@.map_values(|a: &str| a@) =~= seq![mob@]);
                        }
                        lang.translate("stat_type.minecraft.killed_by.none", &args)
                    } else {
                        let d = int_string(died);
                        let args: [&str; 2] = [mob.as_str(), d.as_str()];
                        proof {
                            assert(args@.map_values(|a: &str| a@) =~= seq![mob@, d@]);
                        }
                        lang.translate("stat_type.minecraft.killed_by", &args)
                    };
                    let row = MobRow { name: mob, kills: kills_text, has_kills: kills != 0, killed_by: died_text, was_killed_by: died != 0 };
                    proof {
                        assert(name@ == name_spec(tp, id)->0);
                        assert(kills as int == value_of(m, kt, id));
                        assert(died as int == value_of(m, kbt, id));
                        assert(mob_row_ok(row, m, kt, kbt, lp, id, name_spec(tp, id)->0));
                    }
                    rows.push(row);
                    proof {
                        let s0 = s;
                        s = s.push(id);
                        assert forall|k: int| 0 <= k < s.len() implies exists|q: int| 0 <= q < i + 1 && ids@[q] == #[trigger] s[k] by {
                            if k < s0.len() {
                                assert(s[k] == s0[k]);
                            } else {
                                assert(ids@[i as int] == s[k]);
                            }
                        }
                        assert forall|a: int, b: int| 0 <= a < b < s.len() implies s[a] < s[b] by {
                            if b == s.len() - 1 {
                                let q = choose|q: int| 0 <= q < i && ids@[q] == s[a];
                                assert(ids@[q] < ids@[i as int]);
                            }
                        }
                        assert forall|k: int| 0 <= k < s.len() implies mob_listed(m, kt, kbt, tp, #[trigger] s[k])
                            && mob_row_ok(rows@[k], m, kt, kbt, lp, s[k], name_spec(tp, s[k])->0) by {
                            if k < s0.len() {
                                assert(s[k] == s0[k]);
                            }
                        }
                        assert forall|q: int| 0 <= q < i + 1 && mob_listed(m, kt, kbt, tp, #[trigger] ids@[q]) implies s.contains(ids@[q]) by {
                            if q < i {
                                assert(s0.contains(ids@[q]));
                                let k = choose|k: int| 0 <= k < s0.len() && s0[k] == ids@[q];
                                assert(s[k] == ids@[q]);
                            } else {
                                assert(s[s.len() - 1] == ids@[q]);
                            }
                        }
                    }
                },
                None => {},
            }
        }
        i = i + 1;
    }
    proof {
        assert forall|id: i32| #[trigger] mob_listed(m, kt, kbt, tp, id) implies s.contains(id) by {
            let j = choose|j: int| 0 <= j < tp.len() && tp[j].0 == id;
            assert(all[j] == id);
            assert(all.contains(id));
            assert(ids@.contains(id));
            let q = choose|q: int| 0 <= q < ids@.len() && ids@[q] == id;
        }
        assert(mob_rows(rows@, s, m, kt, kbt, tp, lp));
    }
    rows
}

/// A value formatter answers every statistic and value, the same text for
/// the same name and value.
pub open spec fn format_ok<F: Fn(&str, i32) -> String>(f: F) -> bool {
    &&& forall|s: &str, v: i32| #[trigger] call_requires(f, (s, v))
    &&& forall|s1: &str, s2: &str, v: i32, r1: String, r2: String|
        s1@ == s2@ && #[trigger] call_ensures(f, (s1, v), r1) && #[trigger] call_ensures(f, (s2, v), r2) ==> r1@ == r2@
}

/// The formatter answered `t` for statistic `name` at value `v`.
pub open spec fn formats<F: Fn(&str, i32) -> String>(f: F, name: Seq<char>, v: i32, t: Seq<char>) -> bool {
    exists|s: &str, r: String| s@ == name && r@ == t && #[trigger] call_ensures(f, (s, v), r)
}

/// The text the formatter gives statistic `name` at value `v`.
pub open spec fn formatted<F: Fn(&str, i32) -> String>(f: F, name: Seq<char>, v: i32) -> Seq<char> {
    choose|t: Seq<char>| formats(f, name, v, t)
}

/// A general row as values.
pub open spec fn general_views(r: Seq<GeneralRow>) -> Seq<(Seq<char>, Seq<char>)> {
    r.map_values(|g: GeneralRow| (g.label@, g.value@))
}

/// The general rows before sorting: one per custom statistic, in registry
/// order, labelled with its translated key and valued through the
/// formatter.
pub open spec fn general_rows_spec<F: Fn(&str, i32) -> String>(
    customs: Seq<(i32, Seq<char>)>,
    m: Map<StatKey, i32>,
    custom: i32,
    lang: Seq<(Seq<char>, Seq<char>)>,
    f: F,
) -> Seq<(Seq<char>, Seq<char>)> {
    Seq::new(customs.len(), |j: int| (
        or_key_spec(lang, custom_stat_key_spec(customs[j].1)),
        formatted(f, customs[j].1, value_of(m, custom, customs[j].0) as i32),
    ))
}

/// The general list: every custom statistic, labelled through the
/// language and valued through `format` (which takes the statistic's name
/// and value), sorted by label, rows with equal labels in registry order;
/// nothing when the custom type is missing.
pub fn build_general<F: Fn(&str, i32) -> String>(counter: &StatsCounter, reg: &StatRegistries, lang: &Language, format: &F) -> (r: Vec<GeneralRow>)
    requires
        counter.wf(),
        reg.wf(),
        format_ok(*format),
    ensures
        match id_spec(reg.stat_type.pairs(), "minecraft:custom"@) {
            None => r@.len() == 0,
            Some(custom) => {
                &&& general_views(r@).to_multiset() == general_rows_spec(reg.custom_stat.pairs(), counter.map(), custom, lang.pairs(), *format).to_multiset()
                &&& forall|a: int, b: int| 0 <= a < b < r@.len() ==> !name_lt((#[trigger] r@[b]).label@, (#[trigger] r@[a]).label@)
                &&& stable_rearrangement(general_views(r@), general_rows_spec(reg.custom_stat.pairs(), counter.map(), custom, lang.pairs(), *format), label_ties())
            },
        },
{
    let custom = match reg.stat_type.id_of("minecraft:custom") {
        Some(c) => c,
        None => {
            return Vec::new();
        },
    };
    let ghost want = general_rows_spec(reg.custom_stat.pairs(), counter.map(), custom, lang.pairs(), *format);
    let ids = reg.custom_stat.ids();
    let n = ids.len();
    let mut rows: Vec<GeneralRow> = Vec::new();
    let mut i: usize = 0;
    while i < n
        invariant
            n == ids@.len(),
            i <= n,
            counter.wf(),
            reg.wf(),
            format_ok(*format),
            ids@ == reg.custom_stat.pairs().map_values(|p: (i32, Seq<char>)| p.0),
            want == general_rows_spec(reg.custom_stat.pairs(), counter.map(), custom, lang.pairs(), *format),
            general_views(rows@) == want.take(i as int),
        decreases n - i,
    {
        let id = ids[i];
        proof {
            crate::registry::lemma_lookups_at(reg.custom_stat.pairs(), i as int);
        }
        match reg.custom_stat.name(id) {
            Some(name) => {
                let key = custom_stat_key(name);
                let label = lang.or_key(key.as_str());
                let v = counter.value(StatKey::new(custom, id));
                let value = format(name, v);
                proof {
                    assert(formats(*format, name@, v, value@));
                    let t = formatted(*format, name@, v);
                    let (s2, r2) = choose|s2: &str, r2: String| s2@ == name@ && r2@ == t && #[trigger] call_ensures(*format, (s2, v), r2);
                    assert(r2@ == value@);
                    assert(name@ == reg.custom_stat.pairs()[i as int].1);
                }
                let ghost before = rows@;
                rows.push(GeneralRow { label, value });
                proof {
                    assert(want.take(i + 1) =~= want.take(i as int).push(want[i as int]));
                    assert(general_views(rows@) =~= general_views(before).push(want[i as int]));
                }
            },
            None => {
                proof {
                    assert(false);
                }
            },
        }
        i = i + 1;
    }
    proof {
        assert(want.len() == n);
        assert(want.take(n as int) =~= want);
    }
    sort_general(&mut rows);
    rows
}

/// Two general rows with the same label.
pub open spec fn label_ties() -> spec_fn((Seq<char>, Seq<char>), (Seq<char>, Seq<char>)) -> bool {
    |a: (Seq<char>, Seq<char>), b: (Seq<char>, Seq<char>)| a.0 == b.0
}

/// Stable insertion sort by label.
fn sort_general(rows: &mut Vec<GeneralRow>)
    ensures
        general_views(final(rows)@).to_multiset() == general_views(old(rows)@).to_multiset(),
        forall|a: int, b: int| 0 <= a < b < final(rows)@.len() ==> !name_lt((#[trigger] final(rows)@[b]).label@, (#[trigger] final(rows)@[a]).label@),
        stable_rearrangement(general_views(final(rows)@), general_views(old(rows)@), label_ties()),
{
    let n = rows.len();
    let ghost inp = general_views(rows@);
    proof {
        lemma_sorted_prefix_start(inp, label_ties());
    }
    if n == 0 {
        proof {
            lemma_sorted_prefix_done(inp, inp, identity(inp.len()), label_ties());
        }
        return;
    }
    let ghost mut perm = identity(inp.len());
    let mut i: usize = 1;
    while i < n
        invariant
            1 <= i <= n,
            n == rows@.len(),
            inp == general_views(old(rows)@),
            general_views(rows@).to_multiset() == general_views(old(rows)@).to_multiset(),
            forall|a: int, b: int| 0 <= a < b < i ==> !name_lt((#[trigger] rows@[b]).label@, (#[trigger] rows@[a]).label@),
            sorted_prefix(general_views(rows@), inp, perm, i as int, label_ties()),
        decreases n - i,
    {
        let ghost before = rows@;
        let mut j: usize = i;
        while j > 0 && name_less(rows[i].label.as_str(), rows[j - 1].label.as_str())
            invariant
                0 <= j <= i < n,
                n == rows@.len(),
                rows@ == before,
                forall|k: int| j <= k < i ==> name_lt(rows@[i as int].label@, (#[trigger] rows@[k]).label@),
            decreases j,
        {
            j = j - 1;
        }
        let x = rows.remove(i);
        rows.insert(j, x);
        proof {
            let s = rows@;
            let bv = general_views(before);
            let xv = (x.label@, x.value@);
            assert forall|k: int| j <= k < i implies !(label_ties())(bv[i as int], #[trigger] bv[k]) by {
                assert(name_lt(before[i as int].label@, before[k].label@));
                lemma_name_lt_order(before[k].label@, before[k].label@, before[k].label@);
            }
            lemma_sorted_prefix_step(bv, inp, perm, i as int, j as int, label_ties());
            perm = perm.remove(i as int).insert(j as int, i as int);
            assert(s == before.remove(i as int).insert(j as int, x));
            assert(general_views(s) =~= bv.remove(i as int).insert(j as int, xv));
            assert(bv[i as int] == xv);
            vstd::seq_lib::to_multiset_remove(bv, i as int);
            vstd::seq_lib::to_multiset_insert(bv.remove(i as int), j as int, xv);
            vstd::seq_lib::to_multiset_contains(bv, xv);
            assert(bv.contains(xv));
            assert(bv.to_multiset().remove(xv).insert(xv) =~= bv.to_multiset());
            lemma_move(before, s, i as int, j as int);
            assert forall|a: int, b: int| 0 <= a < b < i + 1 implies !name_lt((#[trigger] s[b]).label@, (#[trigger] s[a]).label@) by {
                let fa = moved_from(i as int, j as int, a);
                let fb = moved_from(i as int, j as int, b);
                assert(s[a] == before[fa] && s[b] == before[fb]);
                if b == j as int {
                    assert(fb == i && fa == a);
                    if j > 0 && a < j - 1 {
                        assert(!name_lt(before[i as int].label@, before[j - 1].label@));
                        assert(!name_lt(before[j - 1].label@, before[a].label@));
                        lemma_name_lt_order(x.label@, before[j - 1].label@, before[a].label@);
                        lemma_name_lt_order(before[a].label@, before[j - 1].label@, x.label@);
                        lemma_name_lt_order(x.label@, before[a].label@, before[j - 1].label@);
                    } else if j > 0 {
                        assert(!name_lt(before[i as int].label@, before[j - 1].label@));
                    }
                } else if a == j as int {
                    assert(fa == i && fb == b - 1);
                    assert(name_lt(x.label@, before[b - 1].label@));
                    lemma_name_lt_order(x.label@, before[b - 1].label@, x.label@);
                }
            }
        }
        i = i + 1;
    }
    proof {
        lemma_sorted_prefix_done(general_views(rows@), inp, perm, label_ties());
    }
}

/// Reordering the rows keeps what they are.
proof fn lemma_rows_of_permuted(
    a: Seq<ItemRow>,
    b: Seq<ItemRow>,
    m: Map<StatKey, i32>,
    e: Seq<(StatKey, i32)>,
    tp: Seq<(i32, Seq<char>)>,
    bp: Seq<(i32, Seq<char>)>,
    ip: Seq<(i32, Seq<char>)>,
)
    requires
        rows_of(a, m, e, tp, bp, ip),
        b.to_multiset() == a.to_multiset(),
    ensures
        rows_of(b, m, e, tp, bp, ip),
{
    broadcast use vstd::seq_lib::group_to_multiset_ensures;
    assert forall|k: int| 0 <= k < b.len() implies row_ok(#[trigger] b[k], m, tp, bp, ip, b[k].name@)
        && has_row(e, tp, bp, ip, b[k].name@) by {
        assert(b.to_multiset().count(b[k]) > 0);
        assert(a.contains(b[k]));
    }
    assert forall|n: Seq<char>| #[trigger] has_row(e, tp, bp, ip, n) implies exists|k: int| 0 <= k < b.len() && (#[trigger] b[k]).name@ == n by {
        let k = choose|k: int| 0 <= k < a.len() && (#[trigger] a[k]).name@ == n;
        assert(a.to_multiset().count(a[k]) > 0);
        assert(b.contains(a[k]));
    }
    assert(a.no_duplicates()) by {
        assert forall|x: int, y: int| 0 <= x < a.len() && 0 <= y < a.len() && x != y implies a[x] != a[y] by {
            assert(a[x].name@ != a[y].name@);
        }
    }
    a.lemma_multiset_has_no_duplicates();
    b.lemma_multiset_has_no_duplicates_conv();
    assert forall|x: int, y: int| 0 <= x < b.len() && 0 <= y < b.len() && x != y implies (#[trigger] b[x]).name@ != (#[trigger] b[y]).name@ by {
        if b[x].name@ == b[y].name@ {
            assert(b.to_multiset().count(b[x]) > 0);
            assert(b.to_multiset().count(b[y]) > 0);
            assert(a.contains(b[x]));
            assert(a.contains(b[y]));
            let i = choose|i: int| 0 <= i < a.len() && a[i] == b[x];
            let j = choose|j: int| 0 <= j < a.len() && a[j] == b[y];
            assert(b[x] != b[y]);
            assert(i != j);
            assert(a[i].name@ != a[j].name@);
        }
    }
}

impl StatsModel {
    /// The model for a counter: loading (no rows) until the first packet
    /// has arrived, otherwise the three lists built from the registries,
    /// the items sorted by `sort`.
    pub fn build<F: Fn(&str, i32) -> String>(
        counter: &StatsCounter,
        reg: &StatRegistries,
        items: &Registry,
        types: &Registry,
        lang: &Language,
        tab: StatsTab,
        sort: (Option<usize>, i32),
        gui_w: i32,
        gui_h: i32,
        format: &F,
    ) -> (r: Self)
        requires
            gui_h >= i32::MIN + HEADER_HEIGHT + FOOTER_HEIGHT,
            counter.wf(),
            reg.wf(),
            items.wf(),
            types.wf(),
            format_ok(*format),
            valid_column(sort.0),
            items.pairs().len() <= i32::MAX,
            forall|n: Seq<char>| #[trigger] has_row(counter.entries(), reg.stat_type.pairs(), reg.block.pairs(), items.pairs(), n)
                && id_spec(items.pairs(), n) is None && id_spec(reg.block.pairs(), n) is Some
                ==> items.pairs().len() + id_spec(reg.block.pairs(), n)->0 <= i32::MAX,
        ensures
            r.tab == tab,
            r.loading == (counter.update_count() == 0),
            r.sort_column == sort.0,
            r.sort_order == sort.1,
            r.built_from == counter.update_count(),
            is_tab_list(r.lists[0], gui_w, gui_h, GENERAL_ROW_HEIGHT, r.general@.len()),
            is_tab_list(r.lists[1], gui_w, gui_h, ITEM_ROW_HEIGHT, if r.items@.len() == 0 { 0 } else { r.items@.len() + 1 }),
            is_tab_list(r.lists[2], gui_w, gui_h, MOB_ROW_HEIGHT, r.mobs@.len()),
            r.loading ==> r.general@.len() == 0 && r.items@.len() == 0 && r.mobs@.len() == 0,
            !r.loading ==> rows_of(r.items@, counter.map(), counter.entries(), reg.stat_type.pairs(), reg.block.pairs(), items.pairs()),
            !r.loading ==> sorted_by(r.items@, sort.0, sort.1 as int),
            !r.loading && sort.1 == 0 ==> forall|a: int, b: int| 0 <= a < b < r.items@.len() ==> row_before(#[trigger] r.items@[a], #[trigger] r.items@[b]),
            !r.loading ==> match id_spec(reg.stat_type.pairs(), "minecraft:custom"@) {
                None => r.general@.len() == 0,
                Some(custom) => {
                    &&& general_views(r.general@).to_multiset() == general_rows_spec(reg.custom_stat.pairs(), counter.map(), custom, lang.pairs(), *format).to_multiset()
                    &&& forall|a: int, b: int| 0 <= a < b < r.general@.len() ==> !name_lt((#[trigger] r.general@[b]).label@, (#[trigger] r.general@[a]).label@)
                    &&& stable_rearrangement(general_views(r.general@), general_rows_spec(reg.custom_stat.pairs(), counter.map(), custom, lang.pairs(), *format), label_ties())
                },
            },
            !r.loading ==> ({
                let killed = id_spec(reg.stat_type.pairs(), "minecraft:killed"@);
                let killed_by = id_spec(reg.stat_type.pairs(), "minecraft:killed_by"@);
                if killed is None || killed_by is None {
                    r.mobs@.len() == 0
                } else {
                    exists|s: Seq<i32>| #[trigger] mob_rows(r.mobs@, s, counter.map(), killed->0, killed_by->0, types.pairs(), lang.pairs())
                }
            }),
    {
        let updates = counter.updates_seen();
        let loading = updates == 0;
        let general = if loading { Vec::new() } else { build_general(counter, reg, lang, format) };
        let mobs = if loading { Vec::new() } else { build_mobs(counter, reg, types, lang) };
        let item_rows = if loading { Vec::new() } else { build_items(counter, reg, items) };
        let ghost unsorted = item_rows@;
        let (y, h) = content_band(gui_h);
        let mut general_list = ScrollList::new(gui_w, h, y, GENERAL_ROW_HEIGHT, LIST_ROW_WIDTH);
        general_list.rows = rows_of_height(general.len(), GENERAL_ROW_HEIGHT);
        let mut item_list = ScrollList::new(gui_w, h, y, ITEM_ROW_HEIGHT, LIST_ROW_WIDTH);
        if item_rows.len() > 0 {
            // The header entry is a real row of the list's own height, there
            // only when there is at least one item row.
            let mut rows = rows_of_height(item_rows.len(), ITEM_ROW_HEIGHT);
            rows.push(ITEM_ROW_HEIGHT);
            proof {
                assert(rows@ =~= Seq::new((item_rows@.len() + 1) as nat, |k: int| ITEM_ROW_HEIGHT));
            }
            item_list.rows = rows;
        }
        let mut mob_list = ScrollList::new(gui_w, h, y, MOB_ROW_HEIGHT, LIST_ROW_WIDTH);
        mob_list.rows = rows_of_height(mobs.len(), MOB_ROW_HEIGHT);
        proof {
            assert(item_rows@.len() == 0 ==> item_list.rows@ =~= Seq::new(0, |k: int| ITEM_ROW_HEIGHT));
        }
        let mut model = StatsModel {
            tab,
            loading,
            general,
            items: item_rows,
            mobs,
            lists: [general_list, item_list, mob_list],
            sort_column: sort.0,
            sort_order: sort.1,
            built_from: updates,
        };
        model.sort_items();
        proof {
            if !loading {
                lemma_rows_of_permuted(unsorted, model.items@, counter.map(), counter.entries(), reg.stat_type.pairs(), reg.block.pairs(), items.pairs());
            }
        }
        model
    }
}

} // verus!
