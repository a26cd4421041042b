//! Counting the wall slots of a grid: how many there are, and how many of
//! them a layout leaves closed.

use crate::breach::{shut_in_row, shut_slot, shut_slots};
use crate::carve::{fit, lemma_fit};
use crate::count::count_true;
use crate::plan::{
    cell_at, is_wall_slot, lemma_cell_coords, lemma_cell_in_range, open_slots, rooms_along,
    walls_open,
};
use vstd::prelude::*;

verus! {

/// For each cell, row by row, whether it is a wall slot.
pub open spec fn slot_mask(w: int, h: int) -> Seq<bool> {
    Seq::new((w * h) as nat, |c: int| is_wall_slot(w, h, c % w, c / w))
}

/// For each cell, row by row, whether it is a wall slot and closed.
pub open spec fn shut_mask(open: Seq<bool>, w: int, h: int) -> Seq<bool> {
    Seq::new(open.len(), |c: int| !open[c] && is_wall_slot(w, h, c % w, c / w))
}

/// The number of wall slots of row `y` in the columns before `x_end`. In
/// the row of a room they stand on the even columns, between the rooms; in
/// a row between rooms they stand on the odd columns, under the rooms.
pub open spec fn slots_before(w: int, h: int, y: int, x_end: int) -> int {
    let across = rooms_along(w);
    if 1 <= y <= 2 * rooms_along(h) - 1 {
        if y % 2 == 1 {
            if x_end <= 0 {
                0
            } else if x_end <= 2 * across - 1 {
                (x_end - 1) / 2
            } else {
                across - 1
            }
        } else {
            if x_end <= 0 {
                0
            } else if x_end <= 2 * across {
                x_end / 2
            } else {
                across
            }
        }
    } else {
        0
    }
}

/// The number of wall slots in the rows before `y_end`.
pub open spec fn slots_above(w: int, h: int, y_end: int) -> int {
    let across = rooms_along(w);
    let k = if y_end <= 2 * rooms_along(h) {
        y_end
    } else {
        2 * rooms_along(h)
    };
    if k <= 0 {
        0
    } else {
        (k / 2) * (across - 1) + ((k - 1) / 2) * across
    }
}

/// The number of wall slots of the grid: one between each two neighbouring
/// rooms.
pub open spec fn all_walls(w: int, h: int) -> int {
    rooms_along(h) * (rooms_along(w) - 1) + (rooms_along(h) - 1) * rooms_along(w)
}

/// The count of a sequence made of two is the sum of their counts.
pub proof fn lemma_count_concat(a: Seq<bool>, b: Seq<bool>)
    ensures
        count_true(a + b) == count_true(a) + count_true(b),
    decreases b.len(),
{
    if b.len() == 0 {
        assert(a + b =~= a);
    } else {
        lemma_count_concat(a, b.drop_last());
        assert((a + b).drop_last() =~= a + b.drop_last());
    }
}

/// Where each set entry of `c` is set in exactly one of `a` and `b`, and
/// no other is set in either, the count of `c` is the sum of their counts.
pub proof fn lemma_count_split(a: Seq<bool>, b: Seq<bool>, c: Seq<bool>)
    requires
        a.len() == c.len(),
        b.len() == c.len(),
        forall|i: int| 0 <= i < c.len() ==> c[i] == (a[i] || b[i]),
        forall|i: int| 0 <= i < c.len() ==> !(a[i] && b[i]),
    ensures
        count_true(c) == count_true(a) + count_true(b),
    decreases c.len(),
{
    if c.len() > 0 {
        lemma_count_split(a.drop_last(), b.drop_last(), c.drop_last());
    }
}

/// The stretch of a row from its first cell to the cell before column
/// `x_end` ends, unless it is empty, with the cell `(x_end - 1, y)`.
pub proof fn lemma_stretch(s: Seq<bool>, w: int, h: int, y: int, x_end: int)
    requires
        s.len() == w * h,
        0 <= y < h,
        0 < x_end <= w,
    ensures
        0 <= y * w,
        y * w + x_end <= w * h,
        cell_at(w, x_end - 1, y) == y * w + x_end - 1,
        s.subrange(y * w, y * w + x_end).drop_last() == s.subrange(y * w, y * w + x_end - 1),
        s.subrange(y * w, y * w + x_end).last() == s[cell_at(w, x_end - 1, y)],
{
    lemma_cell_in_range(w, h, x_end - 1, y);
    assert(s.subrange(y * w, y * w + x_end).drop_last() =~= s.subrange(
        y * w,
        y * w + x_end - 1,
    ));
}

/// The rows before `y_end` are the rows before `y_end - 1` and row
/// `y_end - 1`.
pub proof fn lemma_rows(s: Seq<bool>, w: int, h: int, y_end: int)
    requires
        s.len() == w * h,
        0 <= w,
        0 < y_end <= h,
    ensures
        0 <= (y_end - 1) * w,
        (y_end - 1) * w + w == y_end * w,
        y_end * w <= w * h,
        s.subrange(0, y_end * w) == s.subrange(0, (y_end - 1) * w) + s.subrange(
            (y_end - 1) * w,
            (y_end - 1) * w + w,
        ),
{
    assert(0 <= (y_end - 1) * w && (y_end - 1) * w + w == y_end * w && y_end * w <= w * h)
        by (nonlinear_arith)
        requires
            0 <= w,
            0 < y_end <= h,
    ;
    assert(s.subrange(0, y_end * w) =~= s.subrange(0, (y_end - 1) * w) + s.subrange(
        (y_end - 1) * w,
        (y_end - 1) * w + w,
    ));
}

/// As many closed wall slots are listed for a row as the row holds.
pub proof fn lemma_shut_row_len(open: Seq<bool>, w: int, h: int, y: int, x_end: int)
    requires
        fit(w, h),
        open.len() == w * h,
        0 <= y < h,
        0 <= x_end <= w,
    ensures
        shut_in_row(open, w, h, y, x_end).len() == count_true(
            shut_mask(open, w, h).subrange(y * w, y * w + x_end),
        ),
    decreases x_end,
{
    let m = shut_mask(open, w, h);
    if x_end > 0 {
        lemma_shut_row_len(open, w, h, y, x_end - 1);
        lemma_stretch(m, w, h, y, x_end);
        lemma_cell_in_range(w, h, x_end - 1, y);
        lemma_cell_coords(w, h, x_end - 1, y);
        assert(m[cell_at(w, x_end - 1, y)] == shut_slot(open, w, h, x_end - 1, y));
    } else {
        lemma_cell_in_range(w, h, 0, y);
        assert(m.subrange(y * w, y * w + x_end) =~= Seq::<bool>::empty());
    }
}

/// As many closed wall slots are listed as the layout holds.
pub proof fn lemma_shut_len(open: Seq<bool>, w: int, h: int, y_end: int)
    requires
        fit(w, h),
        open.len() == w * h,
        0 <= y_end <= h,
    ensures
        0 <= y_end * w <= w * h,
        shut_slots(open, w, h, y_end).len() == count_true(
            shut_mask(open, w, h).subrange(0, y_end * w),
        ),
    decreases y_end,
{
    let m = shut_mask(open, w, h);
    if y_end > 0 {
        lemma_shut_len(open, w, h, y_end - 1);
        lemma_shut_row_len(open, w, h, y_end - 1, w);
        lemma_rows(m, w, h, y_end);
        lemma_count_concat(
            m.subrange(0, (y_end - 1) * w),
            m.subrange((y_end - 1) * w, (y_end - 1) * w + w),
        );
    } else {
        assert(y_end * w == 0) by (nonlinear_arith)
            requires
                y_end == 0,
        ;
        assert(0 <= w * h) by (nonlinear_arith)
            requires
                0 <= w,
                0 <= h,
        ;
        assert(m.subrange(0, y_end * w) =~= Seq::<bool>::empty());
    }
}

/// The wall slots at the start of a row are as many as `slots_before`
/// says.
pub proof fn lemma_slot_row(w: int, h: int, y: int, x_end: int)
    requires
        fit(w, h),
        0 <= y < h,
        0 <= x_end <= w,
    ensures
        count_true(slot_mask(w, h).subrange(y * w, y * w + x_end)) == slots_before(w, h, y, x_end),
    decreases x_end,
{
    lemma_fit(w, h);
    let m = slot_mask(w, h);
    if x_end > 0 {
        lemma_slot_row(w, h, y, x_end - 1);
        lemma_stretch(m, w, h, y, x_end);
        lemma_cell_in_range(w, h, x_end - 1, y);
        lemma_cell_coords(w, h, x_end - 1, y);
        assert(m[cell_at(w, x_end - 1, y)] == is_wall_slot(w, h, x_end - 1, y));
    } else {
        lemma_cell_in_range(w, h, 0, y);
        assert(m.subrange(y * w, y * w + x_end) =~= Seq::<bool>::empty());
    }
}

/// The wall slots in the first rows are as many as `slots_above` says.
pub proof fn lemma_slot_rows(w: int, h: int, y_end: int)
    requires
        fit(w, h),
        0 <= y_end <= h,
    ensures
        0 <= y_end * w <= w * h,
        count_true(slot_mask(w, h).subrange(0, y_end * w)) == slots_above(w, h, y_end),
    decreases y_end,
{
    lemma_fit(w, h);
    let m = slot_mask(w, h);
    let across = rooms_along(w);
    if y_end > 0 {
        let y = y_end - 1;
        lemma_slot_rows(w, h, y);
        lemma_slot_row(w, h, y, w);
        lemma_rows(m, w, h, y_end);
        lemma_count_concat(m.subrange(0, y * w), m.subrange(y * w, y * w + w));
        let a = y / 2;
        let b = (y - 1) / 2;
        if y == 0 {
            assert(0 * (across - 1) == 0 && 0 * across == 0) by (nonlinear_arith);
            assert(slots_above(w, h, 1) == 0);
        } else if y <= 2 * rooms_along(h) - 1 {
            if y % 2 == 1 {
                assert((a + 1) * (across - 1) == a * (across - 1) + (across - 1))
                    by (nonlinear_arith);
                assert(y_end / 2 == a + 1 && (y_end - 1) / 2 == b);
                assert(slots_before(w, h, y, w) == across - 1);
            } else {
                assert((b + 1) * across == b * across + across) by (nonlinear_arith);
                assert(y_end / 2 == a && (y_end - 1) / 2 == b + 1);
                assert(slots_before(w, h, y, w) == across);
            }
        } else {
            assert(slots_before(w, h, y, w) == 0);
        }
        assert(slots_above(w, h, y_end) == slots_above(w, h, y) + slots_before(w, h, y, w));
    } else {
        assert(y_end * w == 0) by (nonlinear_arith)
            requires
                y_end == 0,
        ;
        assert(0 <= w * h) by (nonlinear_arith)
            requires
                0 <= w,
                0 <= h,
        ;
        assert(m.subrange(0, y_end * w) =~= Seq::<bool>::empty());
    }
}

/// A grid has a wall slot between each two neighbouring rooms, and no
/// other.
pub proof fn lemma_all_walls(w: int, h: int)
    requires
        fit(w, h),
    ensures
        count_true(slot_mask(w, h)) == all_walls(w, h),
{
    lemma_fit(w, h);
    lemma_slot_rows(w, h, h);
    let m = slot_mask(w, h);
    assert(h * w == w * h) by (nonlinear_arith);
    assert(m.subrange(0, h * w) =~= m);
}

/// The closed wall slots listed for a layout are the wall slots of the
/// grid that the layout has not opened.
pub proof fn lemma_shut_count(open: Seq<bool>, w: int, h: int)
    requires
        fit(w, h),
        open.len() == w * h,
    ensures
        shut_slots(open, w, h, h).len() + walls_open(open, w, h) == all_walls(w, h),
{
    lemma_fit(w, h);
    lemma_shut_len(open, w, h, h);
    lemma_all_walls(w, h);
    let m = shut_mask(open, w, h);
    assert(h * w == w * h) by (nonlinear_arith);
    assert(m.subrange(0, h * w) =~= m);
    lemma_count_split(open_slots(open, w, h), m, slot_mask(w, h));
}

} // verus!
