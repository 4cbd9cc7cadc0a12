//! A scrolling list's integer geometry: its rows' heights and where each
//! row, the rows' span and the scrollbar sit. The scroll amount itself is
//! fractional and is kept by whoever drives the list; the functions here
//! take it already cut to whole pixels.
//!
//! A list always starts at `x == 0` and spans the screen; the rows are
//! centred inside it. It scrolls `default_entry_height / 2` pixels a notch,
//! rounded toward zero, and its scrollbar stands beside the rows, one
//! scrollbar width and two pixels to their right, not at the list's edge.

use vstd::prelude::*;
use crate::arith::tdiv;

verus! {

/// The scrollbar's width.
pub const SCROLLBAR_WIDTH: i32 = 6;
/// The shortest the scrollbar's handle gets.
pub const SCROLLBAR_MIN_HEIGHT: i32 = 32;
/// The padding between a row's edge and its content.
pub const CONTENT_PADDING: i32 = 2;

/// The sum of the heights `s`.
pub open spec fn sum_heights(s: Seq<i32>) -> int
    decreases s.len(),
{
    if s.len() == 0 {
        0
    } else {
        sum_heights(s.drop_last()) + s.last()
    }
}

/// Every running sum of the heights stays within `i32`.
pub open spec fn sums_fit(s: Seq<i32>) -> bool {
    forall|k: int| 0 <= k <= s.len() ==> i32::MIN <= #[trigger] sum_heights(s.take(k)) <= i32::MAX
}

/// A list's geometry: where it starts, its size, its rows' width and
/// heights, and how far a notch scrolls it.
#[derive(Clone, Debug, PartialEq)]
pub struct ScrollList {
    pub y: i32,
    pub width: i32,
    pub height: i32,
    pub row_width: i32,
    pub scroll_rate: i32,
    pub rows: Vec<i32>,
}

impl ScrollList {
    /// A list with no rows, scrolling half a default row a notch.
    pub fn new(width: i32, height: i32, y: i32, default_entry_height: i32, row_width: i32) -> (r: Self)
        ensures
            r.y == y,
            r.width == width,
            r.height == height,
            r.row_width == row_width,
            r.scroll_rate == tdiv(default_entry_height as int, 2),
            r.rows@.len() == 0,
    {
        let rate = default_entry_height / 2;
        proof {
            crate::arith::lemma_tdiv_bounds(default_entry_height as int, 2);
        }
        ScrollList { y, width, height, row_width, scroll_rate: rate, rows: Vec::new() }
    }

    /// The height of the rows `0..k`.
    fn height_above(&self, k: usize) -> (r: i32)
        requires
            sums_fit(self.rows@),
            k <= self.rows@.len(),
        ensures
            r == sum_heights(self.rows@.take(k as int)),
    {
        let mut total: i32 = 0;
        let mut i: usize = 0;
        proof {
            assert(self.rows@.take(0) =~= Seq::<i32>::empty());
        }
        while i < k
            invariant
                i <= k <= self.rows@.len(),
                sums_fit(self.rows@),
                total == sum_heights(self.rows@.take(i as int)),
            decreases k - i,
        {
            proof {
                assert(self.rows@.take(i + 1).drop_last() =~= self.rows@.take(i as int));
                assert(self.rows@.take(i + 1).last() == self.rows@[i as int]);
                assert(i32::MIN <= sum_heights(self.rows@.take(i + 1)) <= i32::MAX);
            }
            total = total + self.rows[i];
            i = i + 1;
        }
        total
    }

    /// The rows' heights plus 4: 2 above the first row and 2 below the
    /// last.
    pub fn content_height(&self) -> (r: i32)
        requires
            sums_fit(self.rows@),
            sum_heights(self.rows@) + 4 <= i32::MAX,
        ensures
            r == sum_heights(self.rows@) + 4,
    {
        let n = self.rows.len();
        proof {
            assert(self.rows@.take(n as int) =~= self.rows@);
        }
        self.height_above(n) + 4
    }

    /// How far the list can scroll: what the content overhangs the box,
    /// never below 0.
    pub fn max_scroll(&self) -> (r: i32)
        requires
            sums_fit(self.rows@),
            sum_heights(self.rows@) + 4 <= i32::MAX,
            sum_heights(self.rows@) + 4 - self.height >= i32::MIN,
            sum_heights(self.rows@) + 4 - self.height <= i32::MAX,
        ensures
            r == if sum_heights(self.rows@) + 4 - self.height > 0 { sum_heights(self.rows@) + 4 - self.height } else { 0 },
    {
        let d = self.content_height() - self.height;
        if d > 0 { d } else { 0 }
    }

    /// Whether there is anything to scroll: strictly, so a list that exactly
    /// fills its box has no scrollbar.
    pub fn scrollable(&self) -> (r: bool)
        requires
            sums_fit(self.rows@),
            sum_heights(self.rows@) + 4 <= i32::MAX,
            sum_heights(self.rows@) + 4 - self.height >= i32::MIN,
            sum_heights(self.rows@) + 4 - self.height <= i32::MAX,
        ensures
            r == (sum_heights(self.rows@) + 4 - self.height > 0),
    {
        self.max_scroll() > 0
    }

    /// Where the first row starts when nothing is scrolled.
    pub fn first_entry_y(&self) -> (r: i32)
        requires
            self.y + 2 <= i32::MAX,
        ensures
            r == self.y + 2,
    {
        self.y + 2
    }

    /// Row `row`'s top on screen, with the list scrolled `scroll` whole
    /// pixels: the first row's start, less the scroll, plus the rows above.
    pub fn row_top(&self, row: usize, scroll: i32) -> (r: i32)
        requires
            sums_fit(self.rows@),
            i32::MIN <= self.y + 2 - scroll <= i32::MAX,
            self.y + 2 <= i32::MAX,
            i32::MIN <= self.y + 2 - scroll + sum_heights(self.rows@.take(if row < self.rows@.len() { row as int } else { self.rows@.len() as int })) <= i32::MAX,
        ensures
            r == self.y + 2 - scroll + sum_heights(self.rows@.take(if row < self.rows@.len() { row as int } else { self.rows@.len() as int })),
    {
        let k = if row < self.rows.len() { row } else { self.rows.len() };
        let above = self.height_above(k);
        self.first_entry_y() - scroll + above
    }

    /// Row `row`'s height, or 0 past the last row.
    pub fn row_height(&self, row: usize) -> (r: i32)
        ensures
            r == if row < self.rows@.len() { self.rows@[row as int] } else { 0 },
    {
        if row < self.rows.len() { self.rows[row] } else { 0 }
    }

    /// Row `row`'s bottom on screen.
    pub fn row_bottom(&self, row: usize, scroll: i32) -> (r: i32)
        requires
            sums_fit(self.rows@),
            i32::MIN <= self.y + 2 - scroll <= i32::MAX,
            self.y + 2 <= i32::MAX,
            i32::MIN <= self.y + 2 - scroll + sum_heights(self.rows@.take(if row < self.rows@.len() { row as int } else { self.rows@.len() as int })) <= i32::MAX,
            i32::MIN <= self.y + 2 - scroll + sum_heights(self.rows@.take(if row < self.rows@.len() { row as int } else { self.rows@.len() as int }))
                + (if row < self.rows@.len() { self.rows@[row as int] as int } else { 0 }) <= i32::MAX,
        ensures
            r == self.y + 2 - scroll + sum_heights(self.rows@.take(if row < self.rows@.len() { row as int } else { self.rows@.len() as int }))
                + (if row < self.rows@.len() { self.rows@[row as int] as int } else { 0 }),
    {
        self.row_top(row, scroll) + self.row_height(row)
    }

    /// The rows' left edge: centred in the list, each half rounded toward
    /// zero.
    pub fn row_left(&self) -> (r: i32)
        ensures
            r == tdiv(self.width as int, 2) - tdiv(self.row_width as int, 2),
    {
        proof {
            crate::arith::lemma_tdiv_bounds(self.width as int, 2);
            crate::arith::lemma_tdiv_bounds(self.row_width as int, 2);
        }
        self.width / 2 - self.row_width / 2
    }

    /// The rows' right edge.
    pub fn row_right(&self) -> (r: i32)
        requires
            i32::MIN <= tdiv(self.width as int, 2) - tdiv(self.row_width as int, 2) + self.row_width <= i32::MAX,
        ensures
            r == tdiv(self.width as int, 2) - tdiv(self.row_width as int, 2) + self.row_width,
    {
        self.row_left() + self.row_width
    }

    /// The list's bottom edge.
    pub fn bottom(&self) -> (r: i32)
        requires
            i32::MIN <= self.y + self.height <= i32::MAX,
        ensures
            r == self.y + self.height,
    {
        self.y + self.height
    }

    /// The scrollbar's left edge: beside the rows, a scrollbar width and 2
    /// pixels past their right edge.
    pub fn scroll_bar_x(&self) -> (r: i32)
        requires
            i32::MIN <= tdiv(self.width as int, 2) - tdiv(self.row_width as int, 2) + self.row_width + SCROLLBAR_WIDTH + 2 <= i32::MAX,
            i32::MIN <= tdiv(self.width as int, 2) - tdiv(self.row_width as int, 2) + self.row_width,
        ensures
            r == tdiv(self.width as int, 2) - tdiv(self.row_width as int, 2) + self.row_width + SCROLLBAR_WIDTH + 2,
    {
        self.row_right() + SCROLLBAR_WIDTH + 2
    }
}

} // verus!
