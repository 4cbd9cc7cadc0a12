//! `PlaceRecipeHelper.placeRecipe` — where a recipe of a given shape lands in
//! a crafting grid, as grid-cell indices in placement order.

use vstd::prelude::*;

verus! {

/// The columns of a row that take an ingredient: `[lo, hi)`. A recipe
/// narrower than half the grid is centred at `floor((gw - rw) / 2)`;
/// otherwise it starts at column 0.
pub open spec fn row_span(gw: int, rw: int) -> (int, int) {
    if 2 * rw < gw {
        ((gw - rw) / 2, (gw - rw) / 2 + rw)
    } else {
        (0, if rw <= gw { rw } else { gw })
    }
}

/// The cells of row `y` that take an ingredient, left to right.
pub open spec fn row_cells(gw: int, rw: int, y: int) -> Seq<int> {
    let (lo, hi) = row_span(gw, rw);
    Seq::new((hi - lo) as nat, |k: int| y * gw + lo + k)
}

/// The row the outer loop fills when it arrives at `y`: a recipe shorter than
/// half the grid skips a row whenever `floor((gh - rh) / 2)` is still below
/// it.
pub open spec fn row_after_skip(gh: int, rh: int, y: int) -> int {
    if 2 * rh < gh && (gh - rh) / 2 > y { y + 1 } else { y }
}

/// Every cell the placement would fill from outer row `y` on, with no limit
/// on the number of ingredients.
pub open spec fn cells_from(gw: int, gh: int, rw: int, rh: int, y: int) -> Seq<int>
    decreases gh - y,
{
    if y >= gh || y < 0 {
        Seq::empty()
    } else {
        let y2 = row_after_skip(gh, rh, y);
        row_cells(gw, rw, y2) + if y2 + 1 <= gh { cells_from(gw, gh, rw, rh, y2 + 1) } else { Seq::empty() }
    }
}

/// A list of grid indices as integers.
pub open spec fn as_ints(v: Seq<usize>) -> Seq<int> {
    v.map_values(|c: usize| c as int)
}

/// The first `count` cells of the placement.
pub open spec fn place_recipe_spec(gw: int, gh: int, rw: int, rh: int, count: int) -> Seq<int> {
    let all = cells_from(gw, gh, rw, rh, 0);
    if count <= all.len() { all.take(count) } else { all }
}

proof fn lemma_cells_bounded(gw: int, gh: int, rw: int, rh: int, y: int)
    requires
        gw >= 0,
        gh >= 0,
        rw >= 0,
        rh >= 0,
        0 <= y,
    ensures
        forall|j: int| 0 <= j < cells_from(gw, gh, rw, rh, y).len()
            ==> y * gw <= #[trigger] cells_from(gw, gh, rw, rh, y)[j] < gw * gh,
    decreases gh - y,
{
    if y < gh {
        let y2 = row_after_skip(gh, rh, y);
        assert(y2 < gh) by {
            if 2 * rh < gh && (gh - rh) / 2 > y {
                assert((gh - rh) / 2 <= gh / 2);
            }
        }
        lemma_cells_bounded(gw, gh, rw, rh, y2 + 1);
        let rc = row_cells(gw, rw, y2);
        assert forall|j: int| 0 <= j < rc.len() implies y * gw <= #[trigger] rc[j] < gw * gh by {
            assert(y * gw <= y2 * gw) by (nonlinear_arith)
                requires
                    y <= y2,
                    gw >= 0,
            ;
            assert(y2 * gw + gw <= gw * gh) by (nonlinear_arith)
                requires
                    y2 < gh,
                    gw >= 0,
            ;
        }
        assert forall|j: int| 0 <= j < cells_from(gw, gh, rw, rh, y2 + 1).len() implies y * gw
            <= #[trigger] cells_from(gw, gh, rw, rh, y2 + 1)[j] by {
            assert(y * gw <= (y2 + 1) * gw) by (nonlinear_arith)
                requires
                    y <= y2 + 1,
                    gw >= 0,
            ;
        }
    }
}

/// `PlaceRecipeHelper.placeRecipe(gridWidth, gridHeight, recipeWidth,
/// recipeHeight, …)` for `count` ingredients: the grid index each one is
/// placed at, in order. `gridIndex == gridYPos * gridWidth + gridXPos` at
/// every placement.
pub fn place_recipe(grid_w: usize, grid_h: usize, recipe_w: usize, recipe_h: usize, count: usize) -> (r: Vec<usize>)
    requires
        grid_w <= 4096,
        grid_h <= 4096,
    ensures
        as_ints(r@) == place_recipe_spec(grid_w as int, grid_h as int, recipe_w as int, recipe_h as int, count as int),
        forall|j: int| 0 <= j < r@.len() ==> (#[trigger] r@[j]) < grid_w * grid_h,
{
    let ghost gw = grid_w as int;
    let ghost gh = grid_h as int;
    let ghost rw = recipe_w as int;
    let ghost rh = recipe_h as int;
    let ghost all = cells_from(gw, gh, rw, rh, 0);
    proof {
        lemma_cells_bounded(gw, gh, rw, rh, 0);
    }
    let center_x = recipe_w < grid_w && 2 * recipe_w < grid_w;
    let lo: usize = if center_x { (grid_w - recipe_w) / 2 } else { 0 };
    let hi: usize = if center_x { lo + recipe_w } else if recipe_w <= grid_w { recipe_w } else { grid_w };
    let center_y = recipe_h < grid_h && 2 * recipe_h < grid_h;
    let start_y: usize = if center_y { (grid_h - recipe_h) / 2 } else { 0 };
    proof {
        assert((lo as int, hi as int) == row_span(gw, rw));
    }
    let mut out: Vec<usize> = Vec::new();
    let mut y: usize = 0;
    while y < grid_h
        invariant
            gw == grid_w,
            gh == grid_h,
            rw == recipe_w,
            rh == recipe_h,
            grid_w <= 4096,
            grid_h <= 4096,
            all == cells_from(gw, gh, rw, rh, 0),
            (lo as int, hi as int) == row_span(gw, rw),
            lo <= hi <= grid_w,
            center_y == (2 * rh < gh),
            center_y ==> start_y == (gh - rh) / 2,
            y <= grid_h,
            out@.len() <= count,
            as_ints(out@) + cells_from(gw, gh, rw, rh, y as int) == all,
            forall|j: int| 0 <= j < all.len() ==> (#[trigger] all[j]) < gw * gh,
        decreases grid_h - y,
    {
        let row = if center_y && start_y > y { y + 1 } else { y };
        proof {
            assert(row as int == row_after_skip(gh, rh, y as int));
            assert(row < grid_h) by {
                if center_y && start_y > y {
                    assert((gh - rh) / 2 <= gh / 2);
                }
            }
            assert(cells_from(gw, gh, rw, rh, y as int) == row_cells(gw, rw, row as int) + cells_from(gw, gh, rw, rh, row + 1));
        }
        let ghost rc = row_cells(gw, rw, row as int);
        let ghost before = as_ints(out@);
        let mut x: usize = lo;
        while x < hi
            invariant
                gw == grid_w,
                gh == grid_h,
                rw == recipe_w,
                rh == recipe_h,
                grid_w <= 4096,
                grid_h <= 4096,
                lo <= x <= hi <= grid_w,
                row < grid_h,
                rc == row_cells(gw, rw, row as int),
                rc.len() == hi - lo,
                (lo as int, hi as int) == row_span(gw, rw),
                out@.len() <= count,
                as_ints(out@) == before + rc.take(x - lo),
                all == cells_from(gw, gh, rw, rh, 0),
                before + rc + cells_from(gw, gh, rw, rh, row + 1) == all,
                forall|j: int| 0 <= j < all.len() ==> (#[trigger] all[j]) < gw * gh,
            decreases hi - x,
        {
            if out.len() >= count {
                proof {
                    let m = as_ints(out@);
                    assert(m + (rc.skip(x - lo) + cells_from(gw, gh, rw, rh, row + 1))
                        =~= before + rc + cells_from(gw, gh, rw, rh, row + 1));
                    assert(m.len() == count);
                    assert(count <= all.len());
                    assert(all.take(count as int) =~= m);
                    assert forall|j: int| 0 <= j < out@.len() implies (#[trigger] out@[j]) < grid_w * grid_h by {
                        assert(m[j] == all[j]);
                    }
                }
                return out;
            }
            proof {
                assert(row * grid_w + x < grid_w * grid_h && grid_w * grid_h <= 4096 * 4096) by (nonlinear_arith)
                    requires
                        row < grid_h,
                        x < grid_w,
                        grid_w <= 4096,
                        grid_h <= 4096,
                ;
            }
            let ghost old_m = as_ints(out@);
            out.push(row * grid_w + x);
            proof {
                assert(as_ints(out@) =~= old_m.push((row * grid_w + x) as int));
                assert(rc[x - lo] == row * grid_w + x);
                assert(rc.take(x + 1 - lo) =~= rc.take(x - lo).push(rc[x - lo]));
                assert(as_ints(out@) =~= before + rc.take(x + 1 - lo));
            }
            x = x + 1;
        }
        proof {
            assert(rc.take(hi - lo) =~= rc);
        }
        y = row + 1;
    }
    proof {
        assert(cells_from(gw, gh, rw, rh, y as int) =~= Seq::<int>::empty());
        let m = as_ints(out@);
        assert(m =~= all);
        assert forall|j: int| 0 <= j < out@.len() implies (#[trigger] out@[j]) < grid_w * grid_h by {
            assert(m[j] == all[j]);
        }
    }
    out
}

} // verus!
