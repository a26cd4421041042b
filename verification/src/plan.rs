//! The geometry of a maze drawn on a grid.
//!
//! A grid `w` cells wide holds `(w - 1) / 2` rooms across. Room `(i, j)`
//! occupies the cell `(2i + 1, 2j + 1)`; the cell between two neighbouring
//! rooms is the wall slot that separates them. Cells with two even
//! coordinates are pillars, and together with the outer ring (and, on a grid
//! with an even side, the spare last row or column) they are never opened.

use crate::count::{count_true, lemma_count_set};
use vstd::arithmetic::div_mod::lemma_fundamental_div_mod_converse;
use vstd::prelude::*;

verus! {

/// The number of rooms that fit along a side of `side` cells.
pub open spec fn rooms_along(side: int) -> int {
    (side - 1) / 2
}

/// The position of the cell `(x, y)` in a grid stored row by row.
#[verifier::opaque]
pub open spec fn cell_at(w: int, x: int, y: int) -> int {
    y * w + x
}

/// `(x, y)` is a coordinate of the grid.
pub open spec fn in_grid(w: int, h: int, x: int, y: int) -> bool {
    0 <= x < w && 0 <= y < h
}

/// `(i, j)` is a room of the grid.
pub open spec fn is_room(w: int, h: int, i: int, j: int) -> bool {
    0 <= i < rooms_along(w) && 0 <= j < rooms_along(h)
}

/// `(x, y)` is the cell of a room: both coordinates odd, inside the ring.
pub open spec fn is_room_cell(w: int, h: int, x: int, y: int) -> bool {
    &&& 1 <= x <= 2 * rooms_along(w) - 1
    &&& 1 <= y <= 2 * rooms_along(h) - 1
    &&& x % 2 == 1
    &&& y % 2 == 1
}

/// `(x, y)` is a wall slot: the cell between two neighbouring rooms.
pub open spec fn is_wall_slot(w: int, h: int, x: int, y: int) -> bool {
    &&& 1 <= x <= 2 * rooms_along(w) - 1
    &&& 1 <= y <= 2 * rooms_along(h) - 1
    &&& (x + y) % 2 == 1
}

/// `(x, y)` lies on the outer ring of the grid.
pub open spec fn on_border(w: int, h: int, x: int, y: int) -> bool {
    in_grid(w, h, x, y) && (x == 0 || y == 0 || x == w - 1 || y == h - 1)
}

/// Whether the cell `(x, y)` is open in a layout stored row by row.
pub open spec fn open_at(open: Seq<bool>, w: int, x: int, y: int) -> bool {
    open[cell_at(w, x, y)]
}

/// Whether room `(i, j)` is open.
pub open spec fn room_open(open: Seq<bool>, w: int, i: int, j: int) -> bool {
    open_at(open, w, 2 * i + 1, 2 * j + 1)
}

/// The layout `open` with the cell `(x, y)` opened as well.
pub open spec fn with_open(open: Seq<bool>, w: int, x: int, y: int) -> Seq<bool> {
    open.update(cell_at(w, x, y), true)
}

/// For each cell, row by row, whether it is a wall slot and open.
pub open spec fn open_slots(open: Seq<bool>, w: int, h: int) -> Seq<bool> {
    Seq::new(open.len(), |c: int| open[c] && is_wall_slot(w, h, c % w, c / w))
}

/// The number of open wall slots: of pairs of neighbouring rooms with a
/// way through between them.
pub open spec fn walls_open(open: Seq<bool>, w: int, h: int) -> nat {
    count_true(open_slots(open, w, h))
}

/// `more` keeps every open cell of `open`.
pub open spec fn extends(open: Seq<bool>, more: Seq<bool>) -> bool {
    &&& open.len() == more.len()
    &&& forall|i: int| 0 <= i < open.len() && open[i] ==> #[trigger] more[i]
}

/// Two coordinates are side by side: they differ by one step along one axis.
pub open spec fn beside(a: (int, int), b: (int, int)) -> bool {
    ||| a.0 == b.0 && (a.1 == b.1 + 1 || b.1 == a.1 + 1)
    ||| a.1 == b.1 && (a.0 == b.0 + 1 || b.0 == a.0 + 1)
}

/// A coordinate of the grid has a position below the number of cells.
pub proof fn lemma_cell_in_range(w: int, h: int, x: int, y: int)
    requires
        in_grid(w, h, x, y),
    ensures
        0 <= cell_at(w, x, y) < w * h,
        cell_at(w, x, y) == y * w + x,
        0 <= y * w,
{
    reveal(cell_at);
    assert(y * w + x < w * h) by (nonlinear_arith)
        requires
            0 <= x < w,
            0 <= y < h,
    ;
    assert(0 <= y * w) by (nonlinear_arith)
        requires
            0 <= y,
            0 <= w,
    ;
}

/// Different coordinates have different positions.
pub proof fn lemma_cell_distinct(w: int, x1: int, y1: int, x2: int, y2: int)
    requires
        0 <= x1 < w,
        0 <= x2 < w,
        x1 != x2 || y1 != y2,
    ensures
        cell_at(w, x1, y1) != cell_at(w, x2, y2),
{
    reveal(cell_at);
    if y1 < y2 {
        assert(y1 * w + w <= y2 * w) by (nonlinear_arith)
            requires
                y1 + 1 <= y2,
                0 <= w,
        ;
    } else if y2 < y1 {
        assert(y2 * w + w <= y1 * w) by (nonlinear_arith)
            requires
                y2 + 1 <= y1,
                0 <= w,
        ;
    }
}

/// The column and the row of a cell are the remainder and the quotient of
/// its position by the width.
pub proof fn lemma_cell_coords(w: int, h: int, x: int, y: int)
    requires
        in_grid(w, h, x, y),
    ensures
        cell_at(w, x, y) % w == x,
        cell_at(w, x, y) / w == y,
{
    lemma_cell_in_range(w, h, x, y);
    lemma_fundamental_div_mod_converse(cell_at(w, x, y), w, y, x);
}

/// Opening a closed wall slot makes one more open wall slot.
pub proof fn lemma_slot_opened(open: Seq<bool>, w: int, h: int, x: int, y: int)
    requires
        in_grid(w, h, x, y),
        open.len() == w * h,
        is_wall_slot(w, h, x, y),
        !open_at(open, w, x, y),
    ensures
        walls_open(with_open(open, w, x, y), w, h) == walls_open(open, w, h) + 1,
{
    lemma_cell_in_range(w, h, x, y);
    lemma_cell_coords(w, h, x, y);
    let c = cell_at(w, x, y);
    assert(open_slots(with_open(open, w, x, y), w, h) =~= open_slots(open, w, h).update(c, true));
    lemma_count_set(open_slots(open, w, h), c);
}

/// Opening a cell that is no wall slot leaves the open wall slots as they
/// are.
pub proof fn lemma_no_slot_opened(open: Seq<bool>, w: int, h: int, x: int, y: int)
    requires
        in_grid(w, h, x, y),
        open.len() == w * h,
        !is_wall_slot(w, h, x, y),
    ensures
        walls_open(with_open(open, w, x, y), w, h) == walls_open(open, w, h),
{
    lemma_cell_in_range(w, h, x, y);
    lemma_cell_coords(w, h, x, y);
    assert(open_slots(with_open(open, w, x, y), w, h) =~= open_slots(open, w, h));
}

/// Opening one cell changes that cell and no other.
pub proof fn lemma_with_open(open: Seq<bool>, w: int, h: int, x0: int, y0: int)
    requires
        in_grid(w, h, x0, y0),
        open.len() == w * h,
    ensures
        with_open(open, w, x0, y0).len() == w * h,
        extends(open, with_open(open, w, x0, y0)),
        open_at(with_open(open, w, x0, y0), w, x0, y0),
        forall|x: int, y: int|
            in_grid(w, h, x, y) && !(x == x0 && y == y0) ==> #[trigger] open_at(
                with_open(open, w, x0, y0),
                w,
                x,
                y,
            ) == open_at(open, w, x, y),
{
    lemma_cell_in_range(w, h, x0, y0);
    assert forall|x: int, y: int| in_grid(w, h, x, y) && !(x == x0 && y == y0) implies #[trigger]
        open_at(with_open(open, w, x0, y0), w, x, y) == open_at(open, w, x, y) by {
        lemma_cell_distinct(w, x, y, x0, y0);
        lemma_cell_in_range(w, h, x, y);
    }
}

/// The position of `(x, y)` in a grid `w` cells wide.
pub fn cell_index(w: usize, h: usize, x: usize, y: usize) -> (c: usize)
    requires
        x < w,
        y < h,
        w * h <= usize::MAX,
    ensures
        c == cell_at(w as int, x as int, y as int),
        c < w * h,
{
    proof {
        lemma_cell_in_range(w as int, h as int, x as int, y as int);
    }
    y * w + x
}

} // verus!
