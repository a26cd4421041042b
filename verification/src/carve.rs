//! Carving a perfect maze: a randomised depth-first walk over the rooms.
//!
//! The walk starts in room `(0, 0)`. At each step it looks at the room on top
//! of its trail: if some neighbouring room is still closed it draws one of
//! them, opens the wall slot in between and that room, and moves there;
//! otherwise it steps back. It ends when the trail is empty.

use crate::count::{
    count_true, lemma_count_all, lemma_count_bound, lemma_count_none, lemma_count_set,
};
use crate::dice::{pick, rng_state, roll, rolled};
use crate::grid::filled;
use crate::plan::{
    beside, cell_at, cell_index, extends, in_grid, is_room, is_room_cell, is_wall_slot,
    lemma_cell_distinct, lemma_cell_in_range, lemma_no_slot_opened, lemma_slot_opened,
    lemma_with_open, open_at, open_slots, room_open, rooms_along, walls_open, with_open,
};
use crate::walk::{
    joined, lemma_joined_grows, lemma_joined_self, lemma_joined_step, rooted, stands,
};
use vstd::arithmetic::div_mod::{
    lemma_div_pos_is_pos, lemma_fundamental_div_mod, lemma_fundamental_div_mod_converse,
    lemma_mod_pos_bound, lemma_multiply_divide_lt,
};
use rand::rngs::StdRng;
use vstd::prelude::*;

verus! {

/// The state of the walk.
pub struct Carving {
    /// Which cells are open, row by row.
    pub open: Seq<bool>,
    /// The rooms from the start of the walk to where it stands.
    pub trail: Seq<(usize, usize)>,
    /// The state of the random source.
    pub dice: Seq<u32>,
}

/// `(i, j)` is a room that the walk has not reached yet.
pub open spec fn fresh(open: Seq<bool>, w: int, h: int, i: int, j: int) -> bool {
    is_room(w, h, i, j) && !room_open(open, w, i, j)
}

/// The room `(i, j)`, if the walk may still enter it.
pub open spec fn way(open: Seq<bool>, w: int, h: int, i: int, j: int) -> Seq<(usize, usize)> {
    if fresh(open, w, h, i, j) {
        seq![(i as usize, j as usize)]
    } else {
        Seq::empty()
    }
}

/// The rooms that the walk may enter from room `(i, j)`: those above, to the
/// right, below and to the left of it that are still closed, in that order.
pub open spec fn ways_on(open: Seq<bool>, w: int, h: int, i: int, j: int) -> Seq<(usize, usize)> {
    way(open, w, h, i, j - 1) + way(open, w, h, i + 1, j) + way(open, w, h, i, j + 1) + way(
        open,
        w,
        h,
        i - 1,
        j,
    )
}

/// The layout after the walk has gone from room `(ai, aj)` to the
/// neighbouring room `(ti, tj)`: the wall slot between them and the room
/// entered are open.
pub open spec fn dug(open: Seq<bool>, w: int, ai: int, aj: int, ti: int, tj: int) -> Seq<bool> {
    with_open(with_open(open, w, ai + ti + 1, aj + tj + 1), w, 2 * ti + 1, 2 * tj + 1)
}

/// One step of the walk.
pub open spec fn carve_step(w: int, h: int, st: Carving) -> Carving {
    if st.trail.len() == 0 {
        st
    } else {
        let at = st.trail.last();
        let ways = ways_on(st.open, w, h, at.0 as int, at.1 as int);
        if ways.len() == 0 {
            Carving { open: st.open, trail: st.trail.drop_last(), dice: st.dice }
        } else {
            let to = ways[pick(st.dice, ways.len() as int)];
            Carving {
                open: dug(st.open, w, at.0 as int, at.1 as int, to.0 as int, to.1 as int),
                trail: st.trail.push(to),
                dice: rolled(st.dice, ways.len() as int),
            }
        }
    }
}

/// The walk before its first step: only room `(0, 0)` is open.
pub open spec fn carve_start(w: int, h: int, dice: Seq<u32>) -> Carving {
    Carving {
        open: with_open(Seq::new((w * h) as nat, |c: int| false), w, 1, 1),
        trail: seq![(0usize, 0usize)],
        dice,
    }
}

/// The walk after `n` steps.
pub open spec fn carve_after(w: int, h: int, dice: Seq<u32>, n: nat) -> Carving
    decreases n,
{
    if n == 0 {
        carve_start(w, h, dice)
    } else {
        carve_step(w, h, carve_after(w, h, dice, (n - 1) as nat))
    }
}

/// The finished walk. A walk on `w * h` cells ends within `w * h` steps.
pub open spec fn carved(w: int, h: int, dice: Seq<u32>) -> Carving {
    carve_after(w, h, dice, (w * h) as nat)
}

/// Rooms `(ai, aj)` and `(bi, bj)` share a wall.
pub open spec fn next_door(ai: int, aj: int, bi: int, bj: int) -> bool {
    beside((ai, aj), (bi, bj))
}

/// Room `(i, j)` is on the trail.
pub open spec fn on_trail(trail: Seq<(usize, usize)>, i: int, j: int) -> bool {
    exists|k: int| 0 <= k < trail.len() && (#[trigger] trail[k]).0 == i && trail[k].1 == j
}

/// No room beside `(i, j)` is still closed.
pub open spec fn settled(open: Seq<bool>, w: int, h: int, i: int, j: int) -> bool {
    &&& !fresh(open, w, h, i, j - 1)
    &&& !fresh(open, w, h, i + 1, j)
    &&& !fresh(open, w, h, i, j + 1)
    &&& !fresh(open, w, h, i - 1, j)
}

/// Only room cells and wall slots are open: the outer ring, the pillars and
/// any spare row or column are closed.
pub open spec fn tidy(open: Seq<bool>, w: int, h: int) -> bool {
    forall|x: int, y: int|
        in_grid(w, h, x, y) && #[trigger] open_at(open, w, x, y) ==> is_room_cell(w, h, x, y)
            || is_wall_slot(w, h, x, y)
}

/// An open wall slot has an open room on either side.
pub open spec fn bridged(open: Seq<bool>, w: int, h: int) -> bool {
    forall|x: int, y: int|
        is_wall_slot(w, h, x, y) && #[trigger] open_at(open, w, x, y) ==> {
            &&& x % 2 == 0 ==> open_at(open, w, x - 1, y) && open_at(open, w, x + 1, y)
            &&& y % 2 == 0 ==> open_at(open, w, x, y - 1) && open_at(open, w, x, y + 1)
        }
}

/// Every entry of the trail is a room, and it is open.
pub open spec fn trail_open(open: Seq<bool>, w: int, h: int, trail: Seq<(usize, usize)>) -> bool {
    forall|k: int|
        0 <= k < trail.len() ==> is_room(w, h, (#[trigger] trail[k]).0 as int, trail[k].1 as int)
            && room_open(open, w, trail[k].0 as int, trail[k].1 as int)
}

/// An open room that the walk has left for good has no closed neighbour.
pub open spec fn closed_off(open: Seq<bool>, w: int, h: int, trail: Seq<(usize, usize)>) -> bool {
    forall|i: int, j: int|
        is_room(w, h, i, j) && room_open(open, w, i, j) && !on_trail(trail, i, j)
            ==> #[trigger] settled(open, w, h, i, j)
}

/// For each room, in row order, whether it is open.
pub open spec fn seen(open: Seq<bool>, w: int, h: int) -> Seq<bool> {
    Seq::new(
        (rooms_along(w) * rooms_along(h)) as nat,
        |r: int| room_open(open, w, r % rooms_along(w), r / rooms_along(w)),
    )
}

/// The grid is one on which a walk can run: it holds at least one room, and
/// its sides and its number of cells fit in `usize`.
pub open spec fn fit(w: int, h: int) -> bool {
    3 <= w && 3 <= h && w * h <= usize::MAX
}

/// What holds of the walk after every step.
pub open spec fn carve_inv(w: int, h: int, st: Carving) -> bool {
    &&& fit(w, h)
    &&& st.open.len() == w * h
    &&& room_open(st.open, w, 0, 0)
    &&& trail_open(st.open, w, h, st.trail)
    &&& tidy(st.open, w, h)
    &&& bridged(st.open, w, h)
    &&& rooted(st.open, w, h, (1, 1))
    &&& closed_off(st.open, w, h, st.trail)
    &&& count_true(st.open) + 1 == 2 * count_true(seen(st.open, w, h))
    &&& walls_open(st.open, w, h) + 1 == count_true(seen(st.open, w, h))
}

/// The steps that the walk can still take, at most: one for each closed
/// cell and one for each room on the trail.
pub open spec fn steps_left(st: Carving) -> int {
    st.open.len() - count_true(st.open) + st.trail.len()
}

/// A grid that fits has sides within `usize`, and at least one room.
pub proof fn lemma_fit(w: int, h: int)
    requires
        fit(w, h),
    ensures
        w <= usize::MAX,
        h <= usize::MAX,
        rooms_along(w) >= 1,
        rooms_along(h) >= 1,
        2 * rooms_along(w) + 1 <= w,
        2 * rooms_along(h) + 1 <= h,
        0 <= rooms_along(w) * rooms_along(h),
        2 * (rooms_along(w) * rooms_along(h)) <= w * h,
{
    assert(w <= w * h && h <= w * h) by (nonlinear_arith)
        requires
            3 <= w,
            3 <= h,
    ;
    let a = rooms_along(w);
    let b = rooms_along(h);
    assert(0 <= a * b && 2 * (a * b) <= w * h) by (nonlinear_arith)
        requires
            1 <= a,
            1 <= b,
            2 * a + 1 <= w,
            2 * b + 1 <= h,
    ;
}

/// What `ways_on` lists: closed rooms next door, at most four, and none
/// exactly when the room is settled.
pub proof fn lemma_ways(open: Seq<bool>, w: int, h: int, i: int, j: int)
    requires
        fit(w, h),
        is_room(w, h, i, j),
    ensures
        ways_on(open, w, h, i, j).len() <= 4,
        ways_on(open, w, h, i, j).len() == 0 <==> settled(open, w, h, i, j),
        forall|k: int|
            0 <= k < ways_on(open, w, h, i, j).len() ==> {
                let to = #[trigger] ways_on(open, w, h, i, j)[k];
                fresh(open, w, h, to.0 as int, to.1 as int) && next_door(
                    i,
                    j,
                    to.0 as int,
                    to.1 as int,
                )
            },
{
    lemma_fit(w, h);
}

/// What a step forward opens: the wall slot in between and the room entered,
/// and nothing else.
pub proof fn lemma_dug(open: Seq<bool>, w: int, h: int, ai: int, aj: int, ti: int, tj: int)
    requires
        fit(w, h),
        open.len() == w * h,
        is_room(w, h, ai, aj),
        is_room(w, h, ti, tj),
        next_door(ai, aj, ti, tj),
    ensures
        dug(open, w, ai, aj, ti, tj).len() == w * h,
        extends(open, dug(open, w, ai, aj, ti, tj)),
        is_wall_slot(w, h, ai + ti + 1, aj + tj + 1),
        in_grid(w, h, ai + ti + 1, aj + tj + 1),
        in_grid(w, h, 2 * ti + 1, 2 * tj + 1),
        in_grid(w, h, 2 * ai + 1, 2 * aj + 1),
        forall|x: int, y: int|
            in_grid(w, h, x, y) ==> #[trigger] open_at(dug(open, w, ai, aj, ti, tj), w, x, y) == (
            open_at(open, w, x, y) || (x == ai + ti + 1 && y == aj + tj + 1) || (x == 2 * ti + 1
                && y == 2 * tj + 1)),
{
    lemma_fit(w, h);
    let mx = ai + ti + 1;
    let my = aj + tj + 1;
    let mid = with_open(open, w, mx, my);
    lemma_with_open(open, w, h, mx, my);
    lemma_with_open(mid, w, h, 2 * ti + 1, 2 * tj + 1);
    let o = dug(open, w, ai, aj, ti, tj);
    assert forall|x: int, y: int| in_grid(w, h, x, y) implies #[trigger] open_at(o, w, x, y) == (
    open_at(open, w, x, y) || (x == mx && y == my) || (x == 2 * ti + 1 && y == 2 * tj + 1)) by {
        if x == 2 * ti + 1 && y == 2 * tj + 1 {
        } else {
            assert(open_at(o, w, x, y) == open_at(mid, w, x, y));
            if x == mx && y == my {
            } else {
                assert(open_at(mid, w, x, y) == open_at(open, w, x, y));
            }
        }
    }
}

/// The walk is in room `(ai, aj)` and may enter room `(ti, tj)`.
pub open spec fn may_enter(
    open: Seq<bool>,
    w: int,
    h: int,
    ai: int,
    aj: int,
    ti: int,
    tj: int,
) -> bool {
    &&& fit(w, h)
    &&& open.len() == w * h
    &&& is_room(w, h, ai, aj)
    &&& room_open(open, w, ai, aj)
    &&& fresh(open, w, h, ti, tj)
    &&& next_door(ai, aj, ti, tj)
}

/// A step forward opens a wall slot and a room cell only.
pub proof fn lemma_dug_tidy(open: Seq<bool>, w: int, h: int, ai: int, aj: int, ti: int, tj: int)
    requires
        may_enter(open, w, h, ai, aj, ti, tj),
        tidy(open, w, h),
    ensures
        tidy(dug(open, w, ai, aj, ti, tj), w, h),
{
    lemma_fit(w, h);
    lemma_dug(open, w, h, ai, aj, ti, tj);
    let o = dug(open, w, ai, aj, ti, tj);
    assert forall|x: int, y: int| in_grid(w, h, x, y) && #[trigger] open_at(o, w, x, y) implies (
    is_room_cell(w, h, x, y) || is_wall_slot(w, h, x, y)) by {
        if open_at(open, w, x, y) {
        }
    }
}

/// The wall slot that a step forward opens lies between two open rooms.
pub proof fn lemma_dug_bridged(open: Seq<bool>, w: int, h: int, ai: int, aj: int, ti: int, tj: int)
    requires
        may_enter(open, w, h, ai, aj, ti, tj),
        bridged(open, w, h),
    ensures
        bridged(dug(open, w, ai, aj, ti, tj), w, h),
        !open_at(open, w, ai + ti + 1, aj + tj + 1),
{
    lemma_fit(w, h);
    lemma_dug(open, w, h, ai, aj, ti, tj);
    let o = dug(open, w, ai, aj, ti, tj);
    let mx = ai + ti + 1;
    let my = aj + tj + 1;
    assert(open_at(o, w, 2 * ai + 1, 2 * aj + 1));
    assert(open_at(o, w, 2 * ti + 1, 2 * tj + 1));
    if open_at(open, w, mx, my) {
        assert(open_at(open, w, 2 * ti + 1, 2 * tj + 1));
    }
    assert forall|x: int, y: int| is_wall_slot(w, h, x, y) && #[trigger] open_at(o, w, x, y) implies {
        &&& x % 2 == 0 ==> open_at(o, w, x - 1, y) && open_at(o, w, x + 1, y)
        &&& y % 2 == 0 ==> open_at(o, w, x, y - 1) && open_at(o, w, x, y + 1)
    } by {
        if x == mx && y == my {
        } else {
            assert(open_at(open, w, x, y));
            if x % 2 == 0 {
                assert(open_at(open, w, x - 1, y) && open_at(open, w, x + 1, y));
                assert(open_at(o, w, x - 1, y) && open_at(o, w, x + 1, y));
            }
            if y % 2 == 0 {
                assert(open_at(open, w, x, y - 1) && open_at(open, w, x, y + 1));
                assert(open_at(o, w, x, y - 1) && open_at(o, w, x, y + 1));
            }
        }
    }
}

/// After a step forward the trail, with the room entered, is still open.
pub proof fn lemma_dug_trail(
    open: Seq<bool>,
    w: int,
    h: int,
    trail: Seq<(usize, usize)>,
    ai: int,
    aj: int,
    to: (usize, usize),
)
    requires
        may_enter(open, w, h, ai, aj, to.0 as int, to.1 as int),
        trail_open(open, w, h, trail),
    ensures
        trail_open(dug(open, w, ai, aj, to.0 as int, to.1 as int), w, h, trail.push(to)),
{
    lemma_fit(w, h);
    lemma_dug(open, w, h, ai, aj, to.0 as int, to.1 as int);
    let o = dug(open, w, ai, aj, to.0 as int, to.1 as int);
    let t = trail.push(to);
    assert forall|k: int| 0 <= k < t.len() implies is_room(
        w,
        h,
        (#[trigger] t[k]).0 as int,
        t[k].1 as int,
    ) && room_open(o, w, t[k].0 as int, t[k].1 as int) by {
        if k < trail.len() {
            assert(t[k] == trail[k]);
            assert(room_open(open, w, trail[k].0 as int, trail[k].1 as int));
            assert(open_at(o, w, 2 * (trail[k].0 as int) + 1, 2 * (trail[k].1 as int) + 1));
        } else {
            assert(open_at(o, w, 2 * (to.0 as int) + 1, 2 * (to.1 as int) + 1));
        }
    }
}

/// After a step forward every open cell can still be reached from the
/// first room.
pub proof fn lemma_dug_rooted(open: Seq<bool>, w: int, h: int, ai: int, aj: int, ti: int, tj: int)
    requires
        may_enter(open, w, h, ai, aj, ti, tj),
        rooted(open, w, h, (1, 1)),
    ensures
        rooted(dug(open, w, ai, aj, ti, tj), w, h, (1, 1)),
{
    lemma_fit(w, h);
    lemma_dug(open, w, h, ai, aj, ti, tj);
    let o = dug(open, w, ai, aj, ti, tj);
    let root = (1int, 1int);
    let a = (2 * ai + 1, 2 * aj + 1);
    let m = (ai + ti + 1, aj + tj + 1);
    let t = (2 * ti + 1, 2 * tj + 1);
    assert(stands(open, w, h, a));
    assert(joined(open, w, h, root, a));
    lemma_joined_grows(open, o, w, h, root, a);
    assert(open_at(o, w, m.0, m.1));
    assert(stands(o, w, h, m));
    lemma_joined_step(o, w, h, root, a, m);
    assert(open_at(o, w, t.0, t.1));
    assert(stands(o, w, h, t));
    lemma_joined_step(o, w, h, root, m, t);
    assert forall|c: (int, int)| #[trigger] stands(o, w, h, c) implies joined(o, w, h, root, c) by {
        if c == m || c == t {
        } else {
            assert(open_at(o, w, c.0, c.1));
            assert(open_at(open, w, c.0, c.1));
            assert(stands(open, w, h, c));
            lemma_joined_grows(open, o, w, h, root, c);
        }
    }
}

/// After a step forward the rooms that the walk has left are still
/// settled: the room entered is on the trail.
pub proof fn lemma_dug_closed_off(
    open: Seq<bool>,
    w: int,
    h: int,
    trail: Seq<(usize, usize)>,
    ai: int,
    aj: int,
    to: (usize, usize),
)
    requires
        may_enter(open, w, h, ai, aj, to.0 as int, to.1 as int),
        closed_off(open, w, h, trail),
    ensures
        closed_off(dug(open, w, ai, aj, to.0 as int, to.1 as int), w, h, trail.push(to)),
{
    lemma_fit(w, h);
    let ti = to.0 as int;
    let tj = to.1 as int;
    lemma_dug(open, w, h, ai, aj, ti, tj);
    let o = dug(open, w, ai, aj, ti, tj);
    let t = trail.push(to);
    assert(t[trail.len() as int] == to);
    assert(on_trail(t, ti, tj));
    assert forall|i: int, j: int|
        is_room(w, h, i, j) && room_open(o, w, i, j) && !on_trail(t, i, j) implies #[trigger] settled(
        o,
        w,
        h,
        i,
        j,
    ) by {
        assert(!(i == ti && j == tj));
        assert(open_at(o, w, 2 * i + 1, 2 * j + 1));
        assert(room_open(open, w, i, j));
        if on_trail(trail, i, j) {
            let k = choose|k: int|
                0 <= k < trail.len() && (#[trigger] trail[k]).0 == i && trail[k].1 == j;
            assert(t[k] == trail[k]);
            assert(on_trail(t, i, j));
        }
        assert(settled(open, w, h, i, j));
        lemma_settled_stays(open, o, w, h, i, j);
    }
}

/// A settled room stays settled when more cells are opened.
pub proof fn lemma_settled_stays(open: Seq<bool>, more: Seq<bool>, w: int, h: int, i: int, j: int)
    requires
        fit(w, h),
        open.len() == w * h,
        extends(open, more),
        is_room(w, h, i, j),
        settled(open, w, h, i, j),
    ensures
        settled(more, w, h, i, j),
{
    lemma_fit(w, h);
    lemma_room_stays(open, more, w, h, i, j - 1);
    lemma_room_stays(open, more, w, h, i + 1, j);
    lemma_room_stays(open, more, w, h, i, j + 1);
    lemma_room_stays(open, more, w, h, i - 1, j);
}

/// An open room stays open when more cells are opened.
pub proof fn lemma_room_stays(open: Seq<bool>, more: Seq<bool>, w: int, h: int, i: int, j: int)
    requires
        fit(w, h),
        open.len() == w * h,
        extends(open, more),
    ensures
        is_room(w, h, i, j) && room_open(open, w, i, j) ==> room_open(more, w, i, j),
{
    lemma_fit(w, h);
    if is_room(w, h, i, j) && room_open(open, w, i, j) {
        lemma_cell_in_range(w, h, 2 * i + 1, 2 * j + 1);
        assert(more[cell_at(w, 2 * i + 1, 2 * j + 1)]);
    }
}

/// When the walk steps back from a settled room, the rooms that it has left
/// are all settled.
pub proof fn lemma_back_closed_off(open: Seq<bool>, w: int, h: int, trail: Seq<(usize, usize)>)
    requires
        trail.len() > 0,
        closed_off(open, w, h, trail),
        settled(open, w, h, trail.last().0 as int, trail.last().1 as int),
    ensures
        closed_off(open, w, h, trail.drop_last()),
{
    let t = trail.drop_last();
    let top = trail.last();
    assert forall|i: int, j: int|
        is_room(w, h, i, j) && room_open(open, w, i, j) && !on_trail(t, i, j) implies #[trigger] settled(
        open,
        w,
        h,
        i,
        j,
    ) by {
        if i == top.0 && j == top.1 {
        } else {
            if on_trail(trail, i, j) {
                let k = choose|k: int|
                    0 <= k < trail.len() && (#[trigger] trail[k]).0 == i && trail[k].1 == j;
                assert(k < trail.len() - 1);
                assert(t[k] == trail[k]);
                assert(on_trail(t, i, j));
            }
        }
    }
}

/// Room `(i, j)` is entry `j * rooms_along(w) + i` of `seen`, and no other
/// room is.
pub proof fn lemma_room_number(w: int, h: int, r: int)
    requires
        fit(w, h),
        0 <= r < rooms_along(w) * rooms_along(h),
    ensures
        is_room(w, h, r % rooms_along(w), r / rooms_along(w)),
        r == (r / rooms_along(w)) * rooms_along(w) + r % rooms_along(w),
{
    lemma_fit(w, h);
    let lw = rooms_along(w);
    let lh = rooms_along(h);
    lemma_fundamental_div_mod(r, lw);
    lemma_mod_pos_bound(r, lw);
    lemma_div_pos_is_pos(r, lw);
    lemma_multiply_divide_lt(r, lw, lh);
    assert(lw * (r / lw) == (r / lw) * lw) by (nonlinear_arith);
}

/// A step forward sets one more entry of `seen`: that of the room entered.
pub proof fn lemma_dug_seen(open: Seq<bool>, w: int, h: int, ai: int, aj: int, ti: int, tj: int)
    requires
        may_enter(open, w, h, ai, aj, ti, tj),
    ensures
        0 <= tj * rooms_along(w) + ti < rooms_along(w) * rooms_along(h),
        !seen(open, w, h)[tj * rooms_along(w) + ti],
        seen(dug(open, w, ai, aj, ti, tj), w, h) == seen(open, w, h).update(
            tj * rooms_along(w) + ti,
            true,
        ),
{
    lemma_fit(w, h);
    lemma_dug(open, w, h, ai, aj, ti, tj);
    let lw = rooms_along(w);
    let lh = rooms_along(h);
    let o = dug(open, w, ai, aj, ti, tj);
    let r0 = tj * lw + ti;
    assert(0 <= r0 < lw * lh) by (nonlinear_arith)
        requires
            0 <= ti < lw,
            0 <= tj < lh,
            r0 == tj * lw + ti,
    ;
    lemma_fundamental_div_mod_converse(r0, lw, tj, ti);
    let a = seen(o, w, h);
    let b = seen(open, w, h).update(r0, true);
    assert forall|r: int| 0 <= r < lw * lh implies a[r] == b[r] by {
        let i = r % lw;
        let j = r / lw;
        lemma_room_number(w, h, r);
        assert(in_grid(w, h, 2 * i + 1, 2 * j + 1));
        assert(a[r] == open_at(o, w, 2 * i + 1, 2 * j + 1));
        if r != r0 {
            assert(!(i == ti && j == tj));
            assert(b[r] == open_at(open, w, 2 * i + 1, 2 * j + 1));
        }
    }
    assert(a =~= b);
}

/// A step forward opens two cells that were closed: a wall slot and a
/// room.
pub proof fn lemma_dug_counts(open: Seq<bool>, w: int, h: int, ai: int, aj: int, ti: int, tj: int)
    requires
        may_enter(open, w, h, ai, aj, ti, tj),
        bridged(open, w, h),
    ensures
        count_true(dug(open, w, ai, aj, ti, tj)) == count_true(open) + 2,
        count_true(seen(dug(open, w, ai, aj, ti, tj), w, h)) == count_true(seen(open, w, h)) + 1,
        walls_open(dug(open, w, ai, aj, ti, tj), w, h) == walls_open(open, w, h) + 1,
{
    lemma_fit(w, h);
    lemma_dug(open, w, h, ai, aj, ti, tj);
    lemma_dug_bridged(open, w, h, ai, aj, ti, tj);
    let mx = ai + ti + 1;
    let my = aj + tj + 1;
    let mid = with_open(open, w, mx, my);
    lemma_cell_in_range(w, h, mx, my);
    lemma_cell_in_range(w, h, 2 * ti + 1, 2 * tj + 1);
    lemma_cell_distinct(w, mx, my, 2 * ti + 1, 2 * tj + 1);
    lemma_count_set(open, cell_at(w, mx, my));
    lemma_count_set(mid, cell_at(w, 2 * ti + 1, 2 * tj + 1));
    lemma_dug_seen(open, w, h, ai, aj, ti, tj);
    lemma_count_set(seen(open, w, h), tj * rooms_along(w) + ti);
    lemma_with_open(open, w, h, mx, my);
    lemma_slot_opened(open, w, h, mx, my);
    lemma_no_slot_opened(mid, w, h, 2 * ti + 1, 2 * tj + 1);
}

/// Every room is open.
pub open spec fn all_rooms_open(open: Seq<bool>, w: int, h: int) -> bool {
    forall|i: int, j: int| is_room(w, h, i, j) ==> #[trigger] room_open(open, w, i, j)
}

/// Before the first step the walk is in order, and has at most `w * h`
/// steps to go.
pub proof fn lemma_start(w: int, h: int, dice: Seq<u32>)
    requires
        fit(w, h),
    ensures
        carve_inv(w, h, carve_start(w, h, dice)),
        steps_left(carve_start(w, h, dice)) == w * h,
{
    lemma_fit(w, h);
    let lw = rooms_along(w);
    let lh = rooms_along(h);
    let blank = Seq::new((w * h) as nat, |c: int| false);
    let o = with_open(blank, w, 1, 1);
    let st = carve_start(w, h, dice);
    lemma_with_open(blank, w, h, 1, 1);
    assert forall|x: int, y: int| in_grid(w, h, x, y) && !(x == 1 && y == 1) implies !#[trigger] open_at(
        o,
        w,
        x,
        y,
    ) by {
        lemma_cell_in_range(w, h, x, y);
    }
    assert(room_open(o, w, 0, 0));
    assert(trail_open(o, w, h, st.trail));
    assert(tidy(o, w, h));
    assert(bridged(o, w, h));
    assert forall|c: (int, int)| #[trigger] stands(o, w, h, c) implies joined(
        o,
        w,
        h,
        (1, 1),
        c,
    ) by {
        assert(open_at(o, w, c.0, c.1));
        assert(c == (1int, 1int));
        lemma_joined_self(o, w, h, (1, 1));
    }
    assert forall|i: int, j: int|
        is_room(w, h, i, j) && room_open(o, w, i, j) && !on_trail(
            st.trail,
            i,
            j,
        ) implies #[trigger] settled(o, w, h, i, j) by {
        assert(open_at(o, w, 2 * i + 1, 2 * j + 1));
        assert(i == 0 && j == 0);
        assert(st.trail[0] == (0usize, 0usize));
        assert(on_trail(st.trail, 0, 0));
    }
    lemma_cell_in_range(w, h, 1, 1);
    lemma_count_none(blank);
    lemma_count_set(blank, cell_at(w, 1, 1));
    let none = Seq::new((lw * lh) as nat, |r: int| false);
    assert(0 < lw * lh) by (nonlinear_arith)
        requires
            1 <= lw,
            1 <= lh,
    ;
    assert forall|r: int| 0 <= r < lw * lh implies seen(o, w, h)[r] == none.update(0, true)[r] by {
        lemma_room_number(w, h, r);
        let i = r % lw;
        let j = r / lw;
        assert(in_grid(w, h, 2 * i + 1, 2 * j + 1));
        assert(seen(o, w, h)[r] == open_at(o, w, 2 * i + 1, 2 * j + 1));
        if r != 0 {
            assert(!(i == 0 && j == 0)) by (nonlinear_arith)
                requires
                    r == j * lw + i,
                    r != 0,
            ;
        } else {
            lemma_fundamental_div_mod_converse(0, lw, 0, 0);
        }
    }
    assert(seen(o, w, h) =~= none.update(0, true));
    lemma_count_none(none);
    lemma_count_set(none, 0);
    lemma_count_none(open_slots(blank, w, h));
    lemma_no_slot_opened(blank, w, h, 1, 1);
}

/// A step keeps the walk in order, and leaves one step fewer to go.
pub proof fn lemma_step_keeps(w: int, h: int, st: Carving)
    requires
        carve_inv(w, h, st),
        st.trail.len() > 0,
    ensures
        carve_inv(w, h, carve_step(w, h, st)),
        steps_left(carve_step(w, h, st)) + 1 == steps_left(st),
{
    lemma_fit(w, h);
    let at = st.trail.last();
    let ai = at.0 as int;
    let aj = at.1 as int;
    assert(st.trail[st.trail.len() - 1] == at);
    assert(is_room(w, h, ai, aj) && room_open(st.open, w, ai, aj));
    lemma_ways(st.open, w, h, ai, aj);
    let ways = ways_on(st.open, w, h, ai, aj);
    let next = carve_step(w, h, st);
    if ways.len() == 0 {
        lemma_back_closed_off(st.open, w, h, st.trail);
        let t = st.trail.drop_last();
        assert forall|k: int| 0 <= k < t.len() implies is_room(
            w,
            h,
            (#[trigger] t[k]).0 as int,
            t[k].1 as int,
        ) && room_open(st.open, w, t[k].0 as int, t[k].1 as int) by {
            assert(t[k] == st.trail[k]);
        }
    } else {
        let k = pick(st.dice, ways.len() as int);
        let to = ways[k];
        let ti = to.0 as int;
        let tj = to.1 as int;
        assert(may_enter(st.open, w, h, ai, aj, ti, tj));
        lemma_dug(st.open, w, h, ai, aj, ti, tj);
        lemma_dug_tidy(st.open, w, h, ai, aj, ti, tj);
        lemma_dug_bridged(st.open, w, h, ai, aj, ti, tj);
        lemma_dug_trail(st.open, w, h, st.trail, ai, aj, to);
        lemma_dug_rooted(st.open, w, h, ai, aj, ti, tj);
        lemma_dug_closed_off(st.open, w, h, st.trail, ai, aj, to);
        lemma_dug_counts(st.open, w, h, ai, aj, ti, tj);
        assert(open_at(next.open, w, 1, 1));
    }
}

/// After any number of steps the walk is in order; while it has not ended,
/// the steps taken and the steps left add up to `w * h`.
pub proof fn lemma_walk(w: int, h: int, dice: Seq<u32>, n: nat)
    requires
        fit(w, h),
    ensures
        carve_inv(w, h, carve_after(w, h, dice, n)),
        carve_after(w, h, dice, n).trail.len() == 0 || steps_left(carve_after(w, h, dice, n)) + n
            == w * h,
    decreases n,
{
    if n == 0 {
        lemma_start(w, h, dice);
    } else {
        let before = carve_after(w, h, dice, (n - 1) as nat);
        lemma_walk(w, h, dice, (n - 1) as nat);
        if before.trail.len() > 0 {
            lemma_step_keeps(w, h, before);
        }
    }
}

/// Once the trail is empty, further steps change nothing.
pub proof fn lemma_walk_stays(w: int, h: int, dice: Seq<u32>, n: nat, m: nat)
    requires
        n <= m,
        carve_after(w, h, dice, n).trail.len() == 0,
    ensures
        carve_after(w, h, dice, m) == carve_after(w, h, dice, n),
    decreases m,
{
    if m > n {
        lemma_walk_stays(w, h, dice, n, (m - 1) as nat);
    }
}

/// Where room `(0, 0)` is open and every open room is settled, every room
/// is open.
pub proof fn lemma_reaches_room(open: Seq<bool>, w: int, h: int, i: int, j: int)
    requires
        fit(w, h),
        room_open(open, w, 0, 0),
        closed_off(open, w, h, Seq::empty()),
        is_room(w, h, i, j),
    ensures
        room_open(open, w, i, j),
    decreases i + j,
{
    let none = Seq::<(usize, usize)>::empty();
    if i > 0 {
        lemma_reaches_room(open, w, h, i - 1, j);
        assert(!on_trail(none, i - 1, j));
        assert(settled(open, w, h, i - 1, j));
    } else if j > 0 {
        lemma_reaches_room(open, w, h, i, j - 1);
        assert(!on_trail(none, i, j - 1));
        assert(settled(open, w, h, i, j - 1));
    }
}

/// What the finished walk leaves: a layout in which every room is open,
/// only rooms and wall slots are open, every open cell can be reached from
/// the first room, and one wall slot fewer than there are rooms is open.
pub proof fn lemma_carved(w: int, h: int, dice: Seq<u32>)
    requires
        fit(w, h),
    ensures
        carve_inv(w, h, carved(w, h, dice)),
        carved(w, h, dice).trail.len() == 0,
        all_rooms_open(carved(w, h, dice).open, w, h),
        count_true(carved(w, h, dice).open) == 2 * (rooms_along(w) * rooms_along(h)) - 1,
        walls_open(carved(w, h, dice).open, w, h) == rooms_along(w) * rooms_along(h) - 1,
{
    lemma_fit(w, h);
    let st = carved(w, h, dice);
    lemma_walk(w, h, dice, (w * h) as nat);
    lemma_count_bound(st.open);
    assert(st.trail.len() == 0);
    assert(st.trail =~= Seq::empty());
    assert forall|i: int, j: int| is_room(w, h, i, j) implies #[trigger] room_open(
        st.open,
        w,
        i,
        j,
    ) by {
        lemma_reaches_room(st.open, w, h, i, j);
    }
    let lw = rooms_along(w);
    let s = seen(st.open, w, h);
    assert forall|r: int| 0 <= r < s.len() implies s[r] by {
        lemma_room_number(w, h, r);
        assert(room_open(st.open, w, r % lw, r / lw));
    }
    lemma_count_all(s);
}

/// Whether room `(i, j)` is open.
pub fn room_is_open(open: &Vec<bool>, w: usize, h: usize, i: usize, j: usize) -> (b: bool)
    requires
        fit(w as int, h as int),
        open@.len() == w * h,
        is_room(w as int, h as int, i as int, j as int),
    ensures
        b == room_open(open@, w as int, i as int, j as int),
{
    proof {
        lemma_fit(w as int, h as int);
    }
    let c = cell_index(w, h, 2 * i + 1, 2 * j + 1);
    open[c]
}

/// The rooms that the walk may enter from room `(i, j)`.
pub fn ways_around(open: &Vec<bool>, w: usize, h: usize, i: usize, j: usize) -> (ways: Vec<
    (usize, usize),
>)
    requires
        fit(w as int, h as int),
        open@.len() == w * h,
        is_room(w as int, h as int, i as int, j as int),
    ensures
        ways@ == ways_on(open@, w as int, h as int, i as int, j as int),
{
    proof {
        lemma_fit(w as int, h as int);
    }
    let across: usize = (w - 1) / 2;
    let down: usize = (h - 1) / 2;
    let ghost a = way(open@, w as int, h as int, i as int, j - 1);
    let ghost b = way(open@, w as int, h as int, i + 1, j as int);
    let ghost c = way(open@, w as int, h as int, i as int, j + 1);
    let ghost d = way(open@, w as int, h as int, i - 1, j as int);
    let mut ways: Vec<(usize, usize)> = Vec::new();
    if j > 0 && !room_is_open(open, w, h, i, j - 1) {
        ways.push((i, j - 1));
    }
    assert(ways@ =~= a);
    if i + 1 < across && !room_is_open(open, w, h, i + 1, j) {
        ways.push((i + 1, j));
    }
    assert(ways@ =~= a + b);
    if j + 1 < down && !room_is_open(open, w, h, i, j + 1) {
        ways.push((i, j + 1));
    }
    assert(ways@ =~= a + b + c);
    if i > 0 && !room_is_open(open, w, h, i - 1, j) {
        ways.push((i - 1, j));
    }
    assert(ways@ =~= a + b + c + d);
    ways
}

/// Moves the walk from the room on top of the trail into the neighbouring
/// room `to`: the wall slot between the two and the room entered are
/// opened, and the room entered goes on top of the trail.
pub fn enter_room(
    open: &mut Vec<bool>,
    trail: &mut Vec<(usize, usize)>,
    w: usize,
    h: usize,
    to: (usize, usize),
)
    requires
        fit(w as int, h as int),
        old(open)@.len() == w * h,
        old(trail)@.len() > 0,
        is_room(w as int, h as int, old(trail)@.last().0 as int, old(trail)@.last().1 as int),
        is_room(w as int, h as int, to.0 as int, to.1 as int),
        next_door(
            old(trail)@.last().0 as int,
            old(trail)@.last().1 as int,
            to.0 as int,
            to.1 as int,
        ),
    ensures
        final(open)@ == dug(
            old(open)@,
            w as int,
            old(trail)@.last().0 as int,
            old(trail)@.last().1 as int,
            to.0 as int,
            to.1 as int,
        ),
        final(trail)@ == old(trail)@.push(to),
{
    let at = trail[trail.len() - 1];
    proof {
        lemma_dug(open@, w as int, h as int, at.0 as int, at.1 as int, to.0 as int, to.1 as int);
    }
    let slot = cell_index(w, h, at.0 + to.0 + 1, at.1 + to.1 + 1);
    open.set(slot, true);
    let room = cell_index(w, h, 2 * to.0 + 1, 2 * to.1 + 1);
    open.set(room, true);
    trail.push(to);
}

/// Carves a perfect maze on a grid of `w` by `h` cells, all closed at
/// first, and returns which cells are open, row by row.
pub fn carve_rooms(w: usize, h: usize, rng: &mut StdRng) -> (open: Vec<bool>)
    requires
        fit(w as int, h as int),
    ensures
        open@ == carved(w as int, h as int, rng_state(*old(rng))).open,
        rng_state(*final(rng)) == carved(w as int, h as int, rng_state(*old(rng))).dice,
{
    let ghost dice = rng_state(*rng);
    let ghost wi = w as int;
    let ghost hi = h as int;
    proof {
        lemma_fit(wi, hi);
        lemma_walk(wi, hi, dice, 0);
    }
    let mut open: Vec<bool> = filled(w * h, false);
    let first = cell_index(w, h, 1, 1);
    open.set(first, true);
    let mut trail: Vec<(usize, usize)> = Vec::new();
    trail.push((0, 0));
    let ghost mut n: nat = 0;
    assert(trail@ =~= seq![(0usize, 0usize)]);
    while trail.len() > 0
        invariant
            wi == w,
            hi == h,
            fit(wi, hi),
            n <= wi * hi,
            (Carving { open: open@, trail: trail@, dice: rng_state(*rng) }) == carve_after(
                wi,
                hi,
                dice,
                n,
            ),
            carve_inv(wi, hi, carve_after(wi, hi, dice, n)),
            trail@.len() == 0 || steps_left(carve_after(wi, hi, dice, n)) + n == wi * hi,
        decreases wi * hi - n,
    {
        let ghost st = carve_after(wi, hi, dice, n);
        let at = trail[trail.len() - 1];
        proof {
            lemma_fit(wi, hi);
            lemma_count_bound(st.open);
            assert(st.trail[st.trail.len() - 1] == at);
            lemma_ways(st.open, wi, hi, at.0 as int, at.1 as int);
        }
        let ways = ways_around(&open, w, h, at.0, at.1);
        if ways.len() == 0 {
            trail.pop();
        } else {
            let k = roll(rng, ways.len());
            let to = ways[k];
            enter_room(&mut open, &mut trail, w, h, to);
        }
        proof {
            lemma_walk(wi, hi, dice, n + 1);
            n = n + 1;
        }
    }
    proof {
        lemma_walk_stays(wi, hi, dice, n, (wi * hi) as nat);
    }
    open
}

} // verus!
