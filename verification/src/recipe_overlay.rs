//! `OverlayRecipeComponent` — the "which of these?" popup a right-click
//! opens over a recipe cell that holds more than one recipe: its grid, the
//! order it lists recipes in, and what a click inside it does.
//!
//! It opens on a right-click and accepts only left-clicks, so a second
//! right-click closes it; a click that hits nothing is still consumed.

use vstd::prelude::*;
use crate::ghost_slots::{place_recipe, place_recipe_spec, as_ints};

verus! {

/// `BUTTON_SIZE` as a pitch — the buttons tile at 25.
pub const BUTTON_PITCH: i32 = 25;

/// The button widget is 24, one less than its pitch, so the overlay's
/// buttons have a 1-px gutter.
pub const BUTTON_SIZE: i32 = 24;

/// `MAX_ROW` / `MAX_ROW_LARGE` — 4 buttons per row, or 5 once there are more
/// than 16.
pub const MAX_ROW: usize = 4;
pub const MAX_ROW_LARGE: usize = 5;

/// The first button's offset inside the panel, and the panel's total
/// margin: the padding is 4 left / 5 right and 5 top / 4 bottom.
pub const PAD_X: i32 = 4;
pub const PAD_Y: i32 = 5;
pub const PANEL_MARGIN: i32 = 8;

/// The ingredient grid's pitch inside a button:
/// `createGridPos(x, y) = Pos(3 + x * 7, 3 + y * 7)`.
pub const INGREDIENT_PITCH: i32 = 7;
pub const INGREDIENT_ORIGIN: i32 = 3;

/// The panel's nine-slice: a 32x32 sheet with a 4-px border.
pub const PANEL_SHEET: i32 = 32;
pub const PANEL_BORDER: i32 = 4;

/// `total <= 16 ? 4 : 5` — the threshold is on the total, not on the rows.
pub open spec fn max_row_spec(total: int) -> int {
    if total <= 16 { MAX_ROW as int } else { MAX_ROW_LARGE as int }
}

pub fn max_row(total: usize) -> (r: usize)
    ensures
        r == max_row_spec(total as int),
{
    if total <= 16 { MAX_ROW } else { MAX_ROW_LARGE }
}

/// `(int)Math.ceil((float)total / maxRow)`.
pub open spec fn rows_spec(total: int) -> int {
    crate::arith::ceil_div(total, max_row_spec(total))
}

pub fn rows(total: usize) -> (r: usize)
    ensures
        r == rows_spec(total as int),
{
    let m = max_row(total);
    crate::arith::usize_div_ceil(total, m)
}

/// How many columns the panel is wide — `Math.min(total, maxRow)`.
pub open spec fn cols_spec(total: int) -> int {
    if total <= max_row_spec(total) { total } else { max_row_spec(total) }
}

pub fn cols(total: usize) -> (r: usize)
    ensures
        r == cols_spec(total as int),
{
    let m = max_row(total);
    if total <= m { total } else { m }
}

/// The recipe counts for which the panel's size fits in `i32`.
pub open spec fn panel_fits(total: int) -> bool {
    rows_spec(total) * BUTTON_PITCH + PANEL_MARGIN <= i32::MAX
}

/// The panel's size in GUI pixels: `cols * 25 + 8` by `rows * 25 + 8`.
pub fn panel_size(total: usize) -> (r: (i32, i32))
    requires
        panel_fits(total as int),
    ensures
        r.0 == cols_spec(total as int) * BUTTON_PITCH + PANEL_MARGIN,
        r.1 == rows_spec(total as int) * BUTTON_PITCH + PANEL_MARGIN,
{
    let c = cols(total);
    let r = rows(total);
    (c as i32 * BUTTON_PITCH + PANEL_MARGIN, r as i32 * BUTTON_PITCH + PANEL_MARGIN)
}

/// Button `i`'s top-left, relative to the panel's own origin.
pub open spec fn button_pos_spec(i: int, total: int) -> (int, int) {
    let m = max_row_spec(total);
    (PAD_X + BUTTON_PITCH * (i % m), PAD_Y + BUTTON_PITCH * (i / m))
}

/// The button indices whose positions fit in `i32`.
pub open spec fn button_fits(i: int) -> bool {
    PAD_Y + BUTTON_PITCH * (i / 4) + BUTTON_SIZE <= i32::MAX
}

pub fn button_pos(i: usize, total: usize) -> (r: (i32, i32))
    requires
        button_fits(i as int),
    ensures
        r.0 == button_pos_spec(i as int, total as int).0,
        r.1 == button_pos_spec(i as int, total as int).1,
{
    let m = max_row(total);
    proof {
        assert(i / m <= i / 4) by (nonlinear_arith)
            requires
                m >= 4,
        {
            vstd::arithmetic::div_mod::lemma_div_is_ordered_by_denominator(i as int, 4, m as int);
        }
    }
    (PAD_X + BUTTON_PITCH * (i % m) as i32, PAD_Y + BUTTON_PITCH * (i / m) as i32)
}

/// Button `i`'s top-left in the same space the panel's origin is in.
pub fn button_origin(panel: (i32, i32), i: usize, total: usize) -> (r: (i32, i32))
    requires
        button_fits(i as int),
        i32::MIN <= panel.0 + button_pos_spec(i as int, total as int).0 <= i32::MAX,
        i32::MIN <= panel.1 + button_pos_spec(i as int, total as int).1 <= i32::MAX,
    ensures
        r.0 == panel.0 + button_pos_spec(i as int, total as int).0,
        r.1 == panel.1 + button_pos_spec(i as int, total as int).1,
{
    let (dx, dy) = button_pos(i, total);
    (panel.0 + dx, panel.1 + dy)
}

/// The overlay's order: every craftable recipe first, then — unless
/// filtering — every uncraftable one, each half in the collection's order.
pub open spec fn promote_spec<T>(recipes: Seq<(T, bool)>, filtering: bool) -> Seq<(T, bool)> {
    with_flag(recipes, true) + if filtering {
        Seq::empty()
    } else {
        with_flag(recipes, false)
    }
}

/// The entries whose flag is `flag`, in order.
pub open spec fn with_flag<T>(recipes: Seq<(T, bool)>, flag: bool) -> Seq<(T, bool)> {
    recipes.filter(|p: (T, bool)| p.1 == flag)
}

/// Appends clones of the entries of `recipes` whose flag is `flag`.
fn push_with_flag<T: Clone>(out: &mut Vec<(T, bool)>, recipes: &[(T, bool)], flag: bool)
    ensures
        final(out)@.len() == old(out)@.len() + with_flag(recipes@, flag).len(),
        forall|i: int| 0 <= i < old(out)@.len() ==> final(out)@[i] == old(out)@[i],
        forall|i: int|
            0 <= i < with_flag(recipes@, flag).len() ==> {
                &&& (#[trigger] final(out)@[old(out)@.len() + i]).1 == with_flag(recipes@, flag)[i].1
                &&& cloned::<T>(with_flag(recipes@, flag)[i].0, final(out)@[old(out)@.len() + i].0)
            },
{
    let ghost start = out@;
    let n = recipes.len();
    let mut k: usize = 0;
    while k < n
        invariant
            n == recipes@.len(),
            k <= n,
            out@.len() == start.len() + with_flag(recipes@.take(k as int), flag).len(),
            forall|i: int| 0 <= i < start.len() ==> out@[i] == start[i],
            forall|i: int|
                0 <= i < with_flag(recipes@.take(k as int), flag).len() ==> {
                    &&& (#[trigger] out@[start.len() + i]).1 == with_flag(recipes@.take(k as int), flag)[i].1
                    &&& cloned::<T>(with_flag(recipes@.take(k as int), flag)[i].0, out@[start.len() + i].0)
                },
        decreases n - k,
    {
        proof {
            reveal_with_fuel(Seq::filter, 1);
            assert(recipes@.take(k + 1).drop_last() =~= recipes@.take(k as int));
        }
        if recipes[k].1 == flag {
            let t = recipes[k].0.clone();
            out.push((t, flag));
            proof {
                assert(with_flag(recipes@.take(k + 1), flag) == with_flag(recipes@.take(k as int), flag).push(recipes@[k as int]));
            }
        } else {
            proof {
                assert(with_flag(recipes@.take(k + 1), flag) == with_flag(recipes@.take(k as int), flag));
            }
        }
        k = k + 1;
    }
    proof {
        assert(recipes@.take(n as int) =~= recipes@);
    }
}

/// The order the buttons are built in: every craftable recipe first, then
/// every uncraftable one, and the uncraftable half is empty while filtering.
/// Within each half the collection's order survives.
pub fn promote<T: Clone>(recipes: &[(T, bool)], filtering: bool) -> (r: Vec<(T, bool)>)
    ensures
        r@.len() == promote_spec(recipes@, filtering).len(),
        forall|i: int|
            0 <= i < r@.len() ==> {
                &&& (#[trigger] r@[i]).1 == promote_spec(recipes@, filtering)[i].1
                &&& cloned::<T>(promote_spec(recipes@, filtering)[i].0, r@[i].0)
            },
{
    let ghost yes = with_flag(recipes@, true);
    let ghost no = with_flag(recipes@, false);
    let mut out: Vec<(T, bool)> = Vec::new();
    push_with_flag(&mut out, recipes, true);
    let ghost first = out@;
    if !filtering {
        push_with_flag(&mut out, recipes, false);
        proof {
            let want = promote_spec(recipes@, filtering);
            assert(want == yes + no);
            assert forall|i: int| 0 <= i < out@.len() implies {
                &&& (#[trigger] out@[i]).1 == want[i].1
                &&& cloned::<T>(want[i].0, out@[i].0)
            } by {
                assert(first.len() == yes.len());
                if i < yes.len() {
                    assert(out@[i] == first[i]);
                    assert(first[0 + i] == first[i]);
                    assert(want[i] == yes[i]);
                } else {
                    assert(want[i] == no[i - yes.len()]);
                    assert(out@[yes.len() + (i - yes.len())] == out@[i]);
                }
            }
        }
    } else {
        proof {
            let want = promote_spec(recipes@, filtering);
            assert(want =~= yes);
            assert forall|i: int| 0 <= i < out@.len() implies {
                &&& (#[trigger] out@[i]).1 == want[i].1
                &&& cloned::<T>(want[i].0, out@[i].0)
            } by {
                assert(out@[0 + i] == out@[i]);
            }
        }
    }
    out
}

/// One button of an open overlay, resolved.
#[derive(Debug, Clone, PartialEq, Eq)]
pub struct Button {
    /// The `RecipeDisplayId` this button places.
    pub recipe: i32,
    pub craftable: bool,
    /// Its ingredient grid — a position and the items that position cycles
    /// through.
    pub slots: Vec<(Pos, Vec<i32>)>,
}

/// An open overlay — a snapshot resolved when it opened, not a view.
#[derive(Debug, PartialEq, Eq)]
pub struct Open {
    /// The panel's top-left in book pixels.
    pub origin: (i32, i32),
    /// Which family of button art — the menu's kind, not the recipes'.
    pub furnace: bool,
    /// In [`promote`]'s order: craftable first.
    pub buttons: Vec<Button>,
}

impl Open {
    pub fn total(&self) -> (r: usize)
        ensures
            r == self.buttons@.len(),
    {
        self.buttons.len()
    }

    /// The craftable flags, in button order.
    pub fn craftable_flags(&self) -> (r: Vec<bool>)
        ensures
            r@ == self.buttons@.map_values(|b: Button| b.craftable),
    {
        let mut out: Vec<bool> = Vec::new();
        let n = self.buttons.len();
        let mut i: usize = 0;
        while i < n
            invariant
                n == self.buttons@.len(),
                i <= n,
                out@ == self.buttons@.take(i as int).map_values(|b: Button| b.craftable),
            decreases n - i,
        {
            out.push(self.buttons[i].craftable);
            proof {
                assert(self.buttons@.take(i + 1).map_values(|b: Button| b.craftable)
                    =~= self.buttons@.take(i as int).map_values(|b: Button| b.craftable).push(self.buttons@[i as int].craftable));
            }
            i = i + 1;
        }
        proof {
            assert(self.buttons@.take(n as int) =~= self.buttons@);
        }
        out
    }

    /// Which button the cursor is over, in book pixels.
    pub fn hovered(&self, bx: i32, by: i32) -> (r: Option<usize>)
        requires
            i32::MIN <= bx - self.origin.0 <= i32::MAX,
            i32::MIN <= by - self.origin.1 <= i32::MAX,
            overlay_fits(self.buttons@.len() as int),
        ensures
            r == hit_spec(bx - self.origin.0, by - self.origin.1, self.buttons@.len() as int),
    {
        hit(bx - self.origin.0, by - self.origin.1, self.total())
    }

    /// Resolve a click in book pixels.
    pub fn click_at(&self, bx: i32, by: i32, right: bool) -> (r: Click)
        requires
            i32::MIN <= bx - self.origin.0 <= i32::MAX,
            i32::MIN <= by - self.origin.1 <= i32::MAX,
            overlay_fits(self.buttons@.len() as int),
        ensures
            r == click_spec(bx - self.origin.0, by - self.origin.1, self.buttons@.len() as int, right),
    {
        click(bx - self.origin.0, by - self.origin.1, self.total(), right)
    }
}

/// One ingredient's place inside a button, and which of the recipe's
/// ingredients it shows.
#[derive(Debug, Clone, Copy, PartialEq, Eq, Structural)]
pub struct Pos {
    /// Offset from the button's `(getX() + 2, getY() + 2)` grid origin.
    pub x: i32,
    pub y: i32,
    /// Index into the display's own ingredient list.
    pub ingredient: usize,
}

/// The display shapes the two button classes recognise.
#[derive(Debug, Clone, Copy, PartialEq, Eq, Structural)]
pub enum Shape {
    Shaped { w: usize, h: usize, ingredients: usize },
    Shapeless { ingredients: usize },
    Furnace,
    /// A stonecutter or smithing display: nothing is placed.
    Other,
}

/// The position of grid cell `(x, y)` showing ingredient `ingredient`.
pub open spec fn grid_pos(x: int, y: int, ingredient: int) -> Pos {
    Pos {
        x: (INGREDIENT_ORIGIN + x * INGREDIENT_PITCH) as i32,
        y: (INGREDIENT_ORIGIN + y * INGREDIENT_PITCH) as i32,
        ingredient: ingredient as usize,
    }
}

/// Where each ingredient sits inside a 24x24 button. The button class is
/// chosen by the menu: a furnace menu places a furnace display's one
/// ingredient in the centre and nothing else; a crafting menu places a shaped
/// display through the centring placement and a shapeless one in reading
/// order from the corner.
pub open spec fn grid_positions_spec(furnace_menu: bool, shape: Shape) -> Seq<Pos> {
    if furnace_menu {
        match shape {
            Shape::Furnace => seq![grid_pos(1, 1, 0)],
            _ => Seq::empty(),
        }
    } else {
        match shape {
            Shape::Shaped { w, h, ingredients } => {
                let cells = place_recipe_spec(3, 3, w as int, h as int, ingredients as int);
                Seq::new(cells.len(), |n: int| grid_pos(cells[n] % 3, cells[n] / 3, n))
            },
            Shape::Shapeless { ingredients } => Seq::new(ingredients as nat, |i: int| grid_pos(i % 3, i / 3, i)),
            _ => Seq::empty(),
        }
    }
}

/// The shapes whose ingredient positions fit in `i32`.
pub open spec fn shape_fits(shape: Shape) -> bool {
    match shape {
        Shape::Shapeless { ingredients } => INGREDIENT_ORIGIN + (ingredients / 3) * INGREDIENT_PITCH <= i32::MAX,
        _ => true,
    }
}

pub fn grid_positions(furnace_menu: bool, shape: Shape) -> (r: Vec<Pos>)
    requires
        shape_fits(shape),
    ensures
        r@ == grid_positions_spec(furnace_menu, shape),
{
    let mut out: Vec<Pos> = Vec::new();
    if furnace_menu {
        match shape {
            Shape::Furnace => {
                out.push(Pos { x: INGREDIENT_ORIGIN + INGREDIENT_PITCH, y: INGREDIENT_ORIGIN + INGREDIENT_PITCH, ingredient: 0 });
                proof {
                    assert(out@ =~= grid_positions_spec(furnace_menu, shape));
                }
            },
            _ => {
                proof {
                    assert(out@ =~= grid_positions_spec(furnace_menu, shape));
                }
            },
        }
        return out;
    }
    match shape {
        Shape::Shaped { w, h, ingredients } => {
            let cells = place_recipe(3, 3, w, h, ingredients);
            let ghost want = grid_positions_spec(furnace_menu, shape);
            let n = cells.len();
            let mut k: usize = 0;
            while k < n
                invariant
                    n == cells@.len(),
                    k <= n,
                    !furnace_menu,
                    shape == (Shape::Shaped { w, h, ingredients }),
                    as_ints(cells@) == place_recipe_spec(3, 3, w as int, h as int, ingredients as int),
                    forall|j: int| 0 <= j < n ==> (#[trigger] cells@[j]) < 9,
                    want == grid_positions_spec(furnace_menu, shape),
                    want.len() == n,
                    out@ == want.take(k as int),
                decreases n - k,
            {
                let c = cells[k];
                let p = Pos {
                    x: INGREDIENT_ORIGIN + (c % 3) as i32 * INGREDIENT_PITCH,
                    y: INGREDIENT_ORIGIN + (c / 3) as i32 * INGREDIENT_PITCH,
                    ingredient: k,
                };
                proof {
                    assert(as_ints(cells@)[k as int] == c as int);
                    assert(want[k as int] == grid_pos(c as int % 3, c as int / 3, k as int));
                    assert(p == grid_pos(c as int % 3, c as int / 3, k as int));
                }
                out.push(p);
                proof {
                    assert(want.take(k + 1) =~= want.take(k as int).push(want[k as int]));
                }
                k = k + 1;
            }
            proof {
                assert(want.take(n as int) =~= want);
            }
            out
        },
        Shape::Shapeless { ingredients } => {
            let ghost want = grid_positions_spec(furnace_menu, shape);
            let mut i: usize = 0;
            while i < ingredients
                invariant
                    i <= ingredients,
                    !furnace_menu,
                    shape == (Shape::Shapeless { ingredients }),
                    INGREDIENT_ORIGIN + (ingredients / 3) * INGREDIENT_PITCH <= i32::MAX,
                    want == grid_positions_spec(furnace_menu, shape),
                    want.len() == ingredients,
                    out@ == want.take(i as int),
                decreases ingredients - i,
            {
                proof {
                    assert(i / 3 <= ingredients / 3) by (nonlinear_arith)
                        requires
                            i < ingredients,
                    ;
                }
                let p = Pos {
                    x: INGREDIENT_ORIGIN + (i % 3) as i32 * INGREDIENT_PITCH,
                    y: INGREDIENT_ORIGIN + (i / 3) as i32 * INGREDIENT_PITCH,
                    ingredient: i,
                };
                proof {
                    assert(want[i as int] == grid_pos(i as int % 3, i as int / 3, i as int));
                    assert(p == grid_pos(i as int % 3, i as int / 3, i as int));
                }
                out.push(p);
                proof {
                    assert(want.take(i + 1) =~= want.take(i as int).push(want[i as int]));
                }
                i = i + 1;
            }
            proof {
                assert(want.take(ingredients as int) =~= want);
            }
            out
        },
        _ => {
            proof {
                assert(out@ =~= grid_positions_spec(furnace_menu, shape));
            }
            out
        },
    }
}

/// Which of an ingredient's items shows this frame:
/// `ingredients.get(currentIndex % ingredients.size())`, a one-level cycle
/// taken with a floor modulus; nothing for an empty ingredient.
pub fn select_ingredient(count: usize, cycle: i32) -> (r: Option<usize>)
    requires
        count <= i32::MAX,
    ensures
        count == 0 ==> r is None,
        count > 0 ==> r == Some((cycle as int % count as int) as usize),
{
    if count == 0 {
        return None;
    }
    let c = count as i32;
    let m = cycle % c;
    let v = if m < 0 { m + c } else { m };
    proof {
        lemma_rem_euclid(cycle as int, c as int, m as int, v as int);
    }
    Some(v as usize)
}

proof fn lemma_rem_euclid(a: int, b: int, m: int, v: int)
    requires
        b > 0,
        a >= 0 ==> m == a % b,
        a < 0 ==> m == -((-a) % b),
        v == if m < 0 { m + b } else { m },
    ensures
        v == a % b,
{
    if a < 0 {
        vstd::arithmetic::div_mod::lemma_fundamental_div_mod(-a, b);
        let q = (-a) / b;
        let r = (-a) % b;
        if r == 0 {
            assert(a == (-q) * b + 0) by (nonlinear_arith)
                requires
                    -a == b * q + r,
                    r == 0,
            ;
            vstd::arithmetic::div_mod::lemma_fundamental_div_mod_converse(a, b, -q, 0);
        } else {
            assert(a == (-q - 1) * b + (b - r)) by (nonlinear_arith)
                requires
                    -a == b * q + r,
            ;
            vstd::arithmetic::div_mod::lemma_fundamental_div_mod_converse(a, b, -q - 1, b - r);
        }
    }
}

/// Every one of `total` buttons has a position within `i32`: the bound the
/// search's own `i32` arithmetic has, the last button being the lowest.
pub open spec fn overlay_fits(total: int) -> bool {
    total == 0 || button_fits(total - 1)
}

/// A button before one that fits fits too.
pub proof fn lemma_button_fits_below(i: int, j: int)
    requires
        0 <= i <= j,
        button_fits(j),
    ensures
        button_fits(i),
{
    vstd::arithmetic::div_mod::lemma_div_is_ordered(i, j, 4);
}

/// The first of the first `n` buttons whose 24x24 widget contains the point.
pub open spec fn first_button_hit(px: int, py: int, n: int, total: int) -> Option<int>
    decreases n,
{
    if n <= 0 {
        None
    } else {
        match first_button_hit(px, py, n - 1, total) {
            Some(i) => Some(i),
            None => {
                let (bx, by) = button_pos_spec(n - 1, total);
                if px >= bx && py >= by && px < bx + BUTTON_SIZE && py < by + BUTTON_SIZE {
                    Some(n - 1)
                } else {
                    None
                }
            },
        }
    }
}

/// Which button a click at panel-relative `(px, py)` lands on; the 25th
/// column and row of each cell fall between two buttons and hit nothing.
pub open spec fn hit_spec(px: int, py: int, total: int) -> Option<usize> {
    match first_button_hit(px, py, total, total) {
        Some(i) => Some(i as usize),
        None => None,
    }
}

proof fn lemma_first_button_stays(px: int, py: int, m: int, n: int, total: int)
    requires
        0 < m <= n,
        first_button_hit(px, py, m, total) is Some,
    ensures
        first_button_hit(px, py, n, total) == first_button_hit(px, py, m, total),
    decreases n - m,
{
    if m < n {
        lemma_first_button_stays(px, py, m, n - 1, total);
    }
}

pub fn hit(px: i32, py: i32, total: usize) -> (r: Option<usize>)
    requires
        overlay_fits(total as int),
    ensures
        r == hit_spec(px as int, py as int, total as int),
{
    let mut i: usize = 0;
    while i < total
        invariant
            i <= total,
            overlay_fits(total as int),
            first_button_hit(px as int, py as int, i as int, total as int) is None,
        decreases total - i,
    {
        proof {
            lemma_button_fits_below(i as int, total - 1);
        }
        let (bx, by) = button_pos(i, total);
        if px >= bx && py >= by && px < bx + BUTTON_SIZE && py < by + BUTTON_SIZE {
            proof {
                assert(first_button_hit(px as int, py as int, i + 1, total as int) == Some(i as int));
                lemma_first_button_stays(px as int, py as int, i + 1, total as int, total as int);
            }
            return Some(i);
        }
        i = i + 1;
    }
    None
}

/// What a click does while the overlay is open.
#[derive(Debug, Clone, Copy, PartialEq, Eq, Structural)]
pub enum Click {
    /// Left click on button `i` — place that recipe.
    Select(usize),
    /// Anything else: the overlay shuts, and the click is still consumed.
    Close,
}

/// A right-click closes the overlay; a left-click selects the button it
/// lands on, or closes it when it lands on none.
pub open spec fn click_spec(px: int, py: int, total: int, right: bool) -> Click {
    if right {
        Click::Close
    } else {
        match hit_spec(px, py, total) {
            Some(i) => Click::Select(i),
            None => Click::Close,
        }
    }
}

pub fn click(px: i32, py: i32, total: usize, right: bool) -> (r: Click)
    requires
        overlay_fits(total as int),
    ensures
        r == click_spec(px as int, py as int, total as int, right),
{
    if right {
        return Click::Close;
    }
    match hit(px, py, total) {
        Some(i) => Click::Select(i),
        None => Click::Close,
    }
}

} // verus!
