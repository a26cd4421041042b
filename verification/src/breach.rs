//! Opening further walls of a carved maze.
//!
//! The closed wall slots are listed row by row. Each opening draws one of
//! the slots not opened so far, every one of them with the same chance, so
//! no slot is drawn twice; when the list is used up the pass ends.

use crate::carve::{all_rooms_open, fit, lemma_fit, tidy};
use crate::count::{count_true, lemma_count_set};
use crate::dice::{pick, rng_state, roll, rolled};
use crate::plan::{
    cell_at, cell_index, extends, in_grid, is_room, is_room_cell, is_wall_slot,
    lemma_cell_in_range, lemma_slot_opened, lemma_with_open, open_at, room_open, rooms_along,
    walls_open, with_open,
};
use crate::walk::{joined, lemma_joined_grows, lemma_joined_step, rooted, stands};
use rand::rngs::StdRng;
use vstd::prelude::*;

verus! {

/// The state of the pass.
pub struct Breach {
    /// Which cells are open, row by row.
    pub open: Seq<bool>,
    /// The wall slots that were closed at first: those opened so far in
    /// front, in the order of their opening, the others behind them.
    pub slots: Seq<(usize, usize)>,
    /// The state of the random source.
    pub dice: Seq<u32>,
}

/// `(x, y)` is a wall slot, and it is closed.
pub open spec fn shut_slot(open: Seq<bool>, w: int, h: int, x: int, y: int) -> bool {
    is_wall_slot(w, h, x, y) && !open_at(open, w, x, y)
}

/// The cell `(x, y)` if it is a closed wall slot.
pub open spec fn slot_if_shut(open: Seq<bool>, w: int, h: int, x: int, y: int) -> Seq<
    (usize, usize),
> {
    if shut_slot(open, w, h, x, y) {
        seq![(x as usize, y as usize)]
    } else {
        Seq::empty()
    }
}

/// The closed wall slots of row `y` in the columns before `x_end`, from
/// left to right.
pub open spec fn shut_in_row(open: Seq<bool>, w: int, h: int, y: int, x_end: int) -> Seq<
    (usize, usize),
>
    decreases x_end,
{
    if x_end <= 0 {
        Seq::empty()
    } else {
        shut_in_row(open, w, h, y, x_end - 1) + slot_if_shut(open, w, h, x_end - 1, y)
    }
}

/// The closed wall slots of the rows before `y_end`, from the top down.
pub open spec fn shut_slots(open: Seq<bool>, w: int, h: int, y_end: int) -> Seq<(usize, usize)>
    decreases y_end,
{
    if y_end <= 0 {
        Seq::empty()
    } else {
        shut_slots(open, w, h, y_end - 1) + shut_in_row(open, w, h, y_end - 1, w)
    }
}

/// Opening number `t`, counted from zero: one of the slots from position
/// `t` on is drawn, changes places with the slot at position `t`, and is
/// opened.
pub open spec fn breach_step(w: int, st: Breach, t: int) -> Breach {
    let k = t + pick(st.dice, st.slots.len() - t);
    let chosen = st.slots[k];
    Breach {
        open: with_open(st.open, w, chosen.0 as int, chosen.1 as int),
        slots: st.slots.update(k, st.slots[t]).update(t, chosen),
        dice: rolled(st.dice, st.slots.len() - t),
    }
}

/// The pass after `t` openings.
pub open spec fn breach_after(w: int, start: Breach, t: nat) -> Breach
    decreases t,
{
    if t == 0 {
        start
    } else {
        breach_step(w, breach_after(w, start, (t - 1) as nat), t - 1)
    }
}

/// The pass before its first opening.
pub open spec fn breach_start(open: Seq<bool>, w: int, h: int, dice: Seq<u32>) -> Breach {
    Breach { open, slots: shut_slots(open, w, h, h), dice }
}

/// The number of openings made when `walls` are asked for: as many, or
/// all the closed wall slots if they are fewer.
pub open spec fn openings(open: Seq<bool>, w: int, h: int, walls: nat) -> nat {
    if walls <= shut_slots(open, w, h, h).len() {
        walls
    } else {
        shut_slots(open, w, h, h).len()
    }
}

/// The finished pass.
pub open spec fn breached(open: Seq<bool>, w: int, h: int, dice: Seq<u32>, walls: nat) -> Breach {
    breach_after(w, breach_start(open, w, h, dice), openings(open, w, h, walls))
}

/// Every entry of `slots` is a wall slot.
pub open spec fn all_slots(w: int, h: int, slots: Seq<(usize, usize)>) -> bool {
    forall|k: int|
        0 <= k < slots.len() ==> is_wall_slot(
            w,
            h,
            (#[trigger] slots[k]).0 as int,
            slots[k].1 as int,
        )
}

/// The entries of `slots` from position `t` on are closed.
pub open spec fn shut_from(open: Seq<bool>, w: int, slots: Seq<(usize, usize)>, t: int) -> bool {
    forall|k: int|
        t <= k < slots.len() ==> !open_at(open, w, (#[trigger] slots[k]).0 as int, slots[k].1 as int)
}

/// The entries of `slots` before position `t` are open.
pub open spec fn open_before(open: Seq<bool>, w: int, slots: Seq<(usize, usize)>, t: int) -> bool {
    forall|k: int|
        0 <= k < t && k < slots.len() ==> open_at(
            open,
            w,
            (#[trigger] slots[k]).0 as int,
            slots[k].1 as int,
        )
}

/// The cell `(x, y)` is an entry of `slots`.
pub open spec fn listed(slots: Seq<(usize, usize)>, x: int, y: int) -> bool {
    exists|k: int| 0 <= k < slots.len() && (#[trigger] slots[k]).0 == x && slots[k].1 == y
}

/// Every closed wall slot of `base` is an entry of `slots`.
pub open spec fn lists_all(base: Seq<bool>, w: int, h: int, slots: Seq<(usize, usize)>) -> bool {
    forall|x: int, y: int| #[trigger] shut_slot(base, w, h, x, y) ==> listed(slots, x, y)
}

/// What holds of the pass after `t` openings on the layout `base`.
pub open spec fn breach_inv(w: int, h: int, base: Seq<bool>, st: Breach, t: int) -> bool {
    &&& fit(w, h)
    &&& base.len() == w * h
    &&& st.open.len() == w * h
    &&& 0 <= t <= st.slots.len()
    &&& all_slots(w, h, st.slots)
    &&& st.slots.no_duplicates()
    &&& shut_from(st.open, w, st.slots, t)
    &&& open_before(st.open, w, st.slots, t)
    &&& lists_all(base, w, h, st.slots)
    &&& extends(base, st.open)
    &&& count_true(st.open) == count_true(base) + t
    &&& walls_open(st.open, w, h) == walls_open(base, w, h) + t
    &&& tidy(st.open, w, h)
    &&& all_rooms_open(st.open, w, h)
    &&& rooted(st.open, w, h, (1, 1))
}

/// The slots listed in a row are closed wall slots of that row, in
/// ascending order.
pub proof fn lemma_shut_in_row(open: Seq<bool>, w: int, h: int, y: int, x_end: int)
    requires
        fit(w, h),
        0 <= y < h,
        0 <= x_end <= w,
    ensures
        forall|k: int|
            0 <= k < shut_in_row(open, w, h, y, x_end).len() ==> {
                let e = #[trigger] shut_in_row(open, w, h, y, x_end)[k];
                e.1 == y && e.0 < x_end && shut_slot(open, w, h, e.0 as int, e.1 as int)
            },
        forall|a: int, b: int|
            0 <= a < b < shut_in_row(open, w, h, y, x_end).len() ==> (#[trigger] shut_in_row(
                open,
                w,
                h,
                y,
                x_end,
            )[a]).0 < (#[trigger] shut_in_row(open, w, h, y, x_end)[b]).0,
    decreases x_end,
{
    lemma_fit(w, h);
    if x_end > 0 {
        lemma_shut_in_row(open, w, h, y, x_end - 1);
        let before = shut_in_row(open, w, h, y, x_end - 1);
        let s = shut_in_row(open, w, h, y, x_end);
        assert forall|k: int| 0 <= k < s.len() implies {
            let e = #[trigger] s[k];
            e.1 == y && e.0 < x_end && shut_slot(open, w, h, e.0 as int, e.1 as int)
        } by {
            if k < before.len() {
                assert(s[k] == before[k]);
            }
        }
        assert forall|a: int, b: int| 0 <= a < b < s.len() implies (#[trigger] s[a]).0 < (
        #[trigger] s[b]).0 by {
            assert(s[a] == before[a]);
            if b < before.len() {
                assert(s[b] == before[b]);
            }
        }
    }
}

/// The slots listed are closed wall slots, and none is listed twice.
pub proof fn lemma_shut_slots(open: Seq<bool>, w: int, h: int, y_end: int)
    requires
        fit(w, h),
        0 <= y_end <= h,
    ensures
        forall|k: int|
            0 <= k < shut_slots(open, w, h, y_end).len() ==> {
                let e = #[trigger] shut_slots(open, w, h, y_end)[k];
                e.1 < y_end && shut_slot(open, w, h, e.0 as int, e.1 as int)
            },
        shut_slots(open, w, h, y_end).no_duplicates(),
    decreases y_end,
{
    lemma_fit(w, h);
    if y_end > 0 {
        lemma_shut_slots(open, w, h, y_end - 1);
        lemma_shut_in_row(open, w, h, y_end - 1, w);
        let before = shut_slots(open, w, h, y_end - 1);
        let row = shut_in_row(open, w, h, y_end - 1, w);
        let s = shut_slots(open, w, h, y_end);
        assert forall|k: int| 0 <= k < s.len() implies {
            let e = #[trigger] s[k];
            e.1 < y_end && shut_slot(open, w, h, e.0 as int, e.1 as int)
        } by {
            if k < before.len() {
                assert(s[k] == before[k]);
            } else {
                assert(s[k] == row[k - before.len()]);
            }
        }
        assert forall|a: int, b: int| 0 <= a < s.len() && 0 <= b < s.len() && a != b implies s[a]
            != s[b] by {
            if a < before.len() {
                assert(s[a] == before[a]);
            } else {
                assert(s[a] == row[a - before.len()]);
            }
            if b < before.len() {
                assert(s[b] == before[b]);
            } else {
                assert(s[b] == row[b - before.len()]);
            }
        }
    }
}

/// A closed wall slot of a row is listed for that row.
pub proof fn lemma_row_lists(open: Seq<bool>, w: int, h: int, y: int, x_end: int, x: int)
    requires
        fit(w, h),
        0 <= x < x_end <= w,
        shut_slot(open, w, h, x, y),
    ensures
        listed(shut_in_row(open, w, h, y, x_end), x, y),
    decreases x_end,
{
    lemma_fit(w, h);
    let before = shut_in_row(open, w, h, y, x_end - 1);
    let s = shut_in_row(open, w, h, y, x_end);
    if x == x_end - 1 {
        let k = before.len() as int;
        assert(s[k] == (x as usize, y as usize));
    } else {
        lemma_row_lists(open, w, h, y, x_end - 1, x);
        let k = choose|k: int|
            0 <= k < before.len() && (#[trigger] before[k]).0 == x && before[k].1 == y;
        assert(s[k] == before[k]);
    }
}

/// Every closed wall slot is listed.
pub proof fn lemma_lists(open: Seq<bool>, w: int, h: int, y_end: int, x: int, y: int)
    requires
        fit(w, h),
        0 <= y < y_end <= h,
        shut_slot(open, w, h, x, y),
    ensures
        listed(shut_slots(open, w, h, y_end), x, y),
    decreases y_end,
{
    lemma_fit(w, h);
    let before = shut_slots(open, w, h, y_end - 1);
    let row = shut_in_row(open, w, h, y_end - 1, w);
    let s = shut_slots(open, w, h, y_end);
    if y == y_end - 1 {
        lemma_row_lists(open, w, h, y, w, x);
        let k = choose|k: int| 0 <= k < row.len() && (#[trigger] row[k]).0 == x && row[k].1 == y;
        assert(s[before.len() + k] == row[k]);
    } else {
        lemma_lists(open, w, h, y_end - 1, x, y);
        let k = choose|k: int|
            0 <= k < before.len() && (#[trigger] before[k]).0 == x && before[k].1 == y;
        assert(s[k] == before[k]);
    }
}

/// On a carved layout the pass starts in order.
pub proof fn lemma_breach_start(open: Seq<bool>, w: int, h: int, dice: Seq<u32>)
    requires
        fit(w, h),
        open.len() == w * h,
        tidy(open, w, h),
        all_rooms_open(open, w, h),
        rooted(open, w, h, (1, 1)),
    ensures
        breach_inv(w, h, open, breach_start(open, w, h, dice), 0),
{
    lemma_fit(w, h);
    lemma_shut_slots(open, w, h, h);
    assert forall|x: int, y: int| #[trigger] shut_slot(open, w, h, x, y) implies listed(
        shut_slots(open, w, h, h),
        x,
        y,
    ) by {
        lemma_lists(open, w, h, h, x, y);
    }
}

/// An opening keeps the pass in order.
pub proof fn lemma_breach_step(w: int, h: int, base: Seq<bool>, st: Breach, t: int)
    requires
        breach_inv(w, h, base, st, t),
        t < st.slots.len(),
    ensures
        breach_inv(w, h, base, breach_step(w, st, t), t + 1),
        breach_step(w, st, t).slots.len() == st.slots.len(),
        extends(st.open, breach_step(w, st, t).open),
{
    lemma_fit(w, h);
    let n = st.slots.len() as int;
    let k = t + pick(st.dice, n - t);
    let chosen = st.slots[k];
    let x = chosen.0 as int;
    let y = chosen.1 as int;
    let next = breach_step(w, st, t);
    let o = next.open;
    let root = (1int, 1int);
    assert(is_wall_slot(w, h, x, y));
    assert(in_grid(w, h, x, y));
    lemma_with_open(st.open, w, h, x, y);
    lemma_cell_in_range(w, h, x, y);
    assert(!open_at(st.open, w, x, y));
    lemma_count_set(st.open, cell_at(w, x, y));
    lemma_slot_opened(st.open, w, h, x, y);
    assert forall|a: int| 0 <= a < n implies is_wall_slot(
        w,
        h,
        (#[trigger] next.slots[a]).0 as int,
        next.slots[a].1 as int,
    ) by {
        if a == t {
        } else if a == k {
            assert(next.slots[a] == st.slots[t]);
        } else {
            assert(next.slots[a] == st.slots[a]);
        }
    }
    assert forall|a: int, b: int| 0 <= a < n && 0 <= b < n && a != b implies next.slots[a]
        != next.slots[b] by {
        let pa = if a == t {
            k
        } else if a == k {
            t
        } else {
            a
        };
        let pb = if b == t {
            k
        } else if b == k {
            t
        } else {
            b
        };
        assert(next.slots[a] == st.slots[pa]);
        assert(next.slots[b] == st.slots[pb]);
    }
    assert forall|a: int| t + 1 <= a < n implies !open_at(
        o,
        w,
        (#[trigger] next.slots[a]).0 as int,
        next.slots[a].1 as int,
    ) by {
        let pa = if a == k {
            t
        } else {
            a
        };
        assert(next.slots[a] == st.slots[pa]);
        assert(st.slots[pa] != st.slots[k]);
        assert(is_wall_slot(w, h, st.slots[pa].0 as int, st.slots[pa].1 as int));
        assert(!open_at(st.open, w, st.slots[pa].0 as int, st.slots[pa].1 as int));
    }
    assert forall|a: int| 0 <= a < t + 1 && a < n implies open_at(
        o,
        w,
        (#[trigger] next.slots[a]).0 as int,
        next.slots[a].1 as int,
    ) by {
        if a < t {
            assert(next.slots[a] == st.slots[a]);
            assert(is_wall_slot(w, h, st.slots[a].0 as int, st.slots[a].1 as int));
            assert(open_at(st.open, w, st.slots[a].0 as int, st.slots[a].1 as int));
            lemma_cell_in_range(w, h, st.slots[a].0 as int, st.slots[a].1 as int);
            assert(o[cell_at(w, st.slots[a].0 as int, st.slots[a].1 as int)]);
        }
    }
    assert forall|sx: int, sy: int| #[trigger] shut_slot(base, w, h, sx, sy) implies listed(
        next.slots,
        sx,
        sy,
    ) by {
        assert(listed(st.slots, sx, sy));
        let a = choose|a: int|
            0 <= a < st.slots.len() && (#[trigger] st.slots[a]).0 == sx && st.slots[a].1 == sy;
        let pa = if a == t {
            k
        } else if a == k {
            t
        } else {
            a
        };
        assert(next.slots[pa] == st.slots[a]);
    }
    assert(extends(base, o));
    assert forall|cx: int, cy: int| in_grid(w, h, cx, cy) && #[trigger] open_at(
        o,
        w,
        cx,
        cy,
    ) implies is_room_cell(w, h, cx, cy) || is_wall_slot(w, h, cx, cy) by {
        if !(cx == x && cy == y) {
            assert(open_at(st.open, w, cx, cy));
        }
    }
    assert forall|i: int, j: int| is_room(w, h, i, j) implies #[trigger] room_open(
        o,
        w,
        i,
        j,
    ) by {
        assert(room_open(st.open, w, i, j));
        assert(open_at(o, w, 2 * i + 1, 2 * j + 1));
    }
    // The slot lies between two rooms; both are open, and a walk to either
    // goes on into the slot.
    let beside_it = if x % 2 == 0 {
        (x - 1, y)
    } else {
        (x, y - 1)
    };
    let i = (beside_it.0 - 1) / 2;
    let j = (beside_it.1 - 1) / 2;
    assert(is_room(w, h, i, j));
    assert(room_open(st.open, w, i, j));
    assert(stands(st.open, w, h, beside_it));
    assert(joined(st.open, w, h, root, beside_it));
    lemma_joined_grows(st.open, o, w, h, root, beside_it);
    assert(stands(o, w, h, (x, y)));
    lemma_joined_step(o, w, h, root, beside_it, (x, y));
    assert forall|c: (int, int)| #[trigger] stands(o, w, h, c) implies joined(o, w, h, root, c) by {
        if c == (x, y) {
        } else {
            assert(open_at(o, w, c.0, c.1));
            assert(open_at(st.open, w, c.0, c.1));
            assert(stands(st.open, w, h, c));
            lemma_joined_grows(st.open, o, w, h, root, c);
        }
    }
}

/// After any number of openings, up to the number of slots, the pass is in
/// order.
pub proof fn lemma_breach_walk(w: int, h: int, base: Seq<bool>, start: Breach, t: nat)
    requires
        breach_inv(w, h, base, start, 0),
        t <= start.slots.len(),
    ensures
        breach_inv(w, h, base, breach_after(w, start, t), t as int),
        breach_after(w, start, t).slots.len() == start.slots.len(),
    decreases t,
{
    if t > 0 {
        lemma_breach_walk(w, h, base, start, (t - 1) as nat);
        lemma_breach_step(w, h, base, breach_after(w, start, (t - 1) as nat), t - 1);
    }
}

/// Further openings keep what earlier ones have opened.
pub proof fn lemma_breach_grows(w: int, h: int, base: Seq<bool>, start: Breach, a: nat, b: nat)
    requires
        breach_inv(w, h, base, start, 0),
        a <= b <= start.slots.len(),
    ensures
        extends(breach_after(w, start, a).open, breach_after(w, start, b).open),
    decreases b,
{
    if a < b {
        lemma_breach_grows(w, h, base, start, a, (b - 1) as nat);
        lemma_breach_walk(w, h, base, start, (b - 1) as nat);
        lemma_breach_step(w, h, base, breach_after(w, start, (b - 1) as nat), b - 1);
    }
}

/// Lists the closed wall slots of a layout, row by row.
pub fn list_shut_slots(open: &Vec<bool>, w: usize, h: usize) -> (slots: Vec<(usize, usize)>)
    requires
        fit(w as int, h as int),
        open@.len() == w * h,
    ensures
        slots@ == shut_slots(open@, w as int, h as int, h as int),
{
    proof {
        lemma_fit(w as int, h as int);
    }
    let x_last: usize = 2 * ((w - 1) / 2) - 1;
    let y_last: usize = 2 * ((h - 1) / 2) - 1;
    let mut slots: Vec<(usize, usize)> = Vec::new();
    let mut y: usize = 0;
    while y < h
        invariant
            fit(w as int, h as int),
            open@.len() == w * h,
            y <= h,
            x_last == 2 * rooms_along(w as int) - 1,
            y_last == 2 * rooms_along(h as int) - 1,
            slots@ == shut_slots(open@, w as int, h as int, y as int),
        decreases h - y,
    {
        let ghost above = slots@;
        let mut x: usize = 0;
        while x < w
            invariant
                fit(w as int, h as int),
                open@.len() == w * h,
                y < h,
                x <= w,
                x_last == 2 * rooms_along(w as int) - 1,
                y_last == 2 * rooms_along(h as int) - 1,
                above == shut_slots(open@, w as int, h as int, y as int),
                slots@ == above + shut_in_row(open@, w as int, h as int, y as int, x as int),
            decreases w - x,
        {
            let ghost row = shut_in_row(open@, w as int, h as int, y as int, x as int);
            let ghost found = slot_if_shut(open@, w as int, h as int, x as int, y as int);
            if 1 <= x && x <= x_last && 1 <= y && y <= y_last && (x % 2 == 1) != (y % 2 == 1) {
                let c = cell_index(w, h, x, y);
                if !open[c] {
                    slots.push((x, y));
                }
            }
            assert(slots@ =~= above + (row + found));
            x += 1;
        }
        y += 1;
    }
    slots
}

/// Opening number `t`, for the number drawn: the slot at position `k`
/// changes places with the slot at position `t`, and is opened.
pub fn open_slot(
    open: &mut Vec<bool>,
    slots: &mut Vec<(usize, usize)>,
    w: usize,
    h: usize,
    t: usize,
    k: usize,
)
    requires
        old(open)@.len() == w * h,
        t <= k < old(slots)@.len(),
        in_grid(w as int, h as int, old(slots)@[k as int].0 as int, old(slots)@[k as int].1 as int),
    ensures
        final(open)@ == with_open(
            old(open)@,
            w as int,
            old(slots)@[k as int].0 as int,
            old(slots)@[k as int].1 as int,
        ),
        final(slots)@ == old(slots)@.update(k as int, old(slots)@[t as int]).update(
            t as int,
            old(slots)@[k as int],
        ),
{
    let cells = open.len();
    let chosen = slots[k];
    let moved = slots[t];
    slots.set(k, moved);
    slots.set(t, chosen);
    assert(w * h == cells);
    let c = cell_index(w, h, chosen.0, chosen.1);
    open.set(c, true);
}

/// Opens `walls` further walls of a carved layout, or all that are closed
/// if they are fewer, and returns the layout.
pub fn open_more(open: Vec<bool>, w: usize, h: usize, walls: usize, rng: &mut StdRng) -> (more: Vec<
    bool,
>)
    requires
        fit(w as int, h as int),
        open@.len() == w * h,
        tidy(open@, w as int, h as int),
        all_rooms_open(open@, w as int, h as int),
        rooted(open@, w as int, h as int, (1, 1)),
    ensures
        more@ == breached(open@, w as int, h as int, rng_state(*old(rng)), walls as nat).open,
        rng_state(*final(rng)) == breached(
            open@,
            w as int,
            h as int,
            rng_state(*old(rng)),
            walls as nat,
        ).dice,
{
    let ghost wi = w as int;
    let ghost hi = h as int;
    let ghost base = open@;
    let ghost start = breach_start(base, wi, hi, rng_state(*rng));
    let mut open = open;
    let mut slots = list_shut_slots(&open, w, h);
    let n = slots.len();
    let goal: usize = if walls <= n {
        walls
    } else {
        n
    };
    proof {
        lemma_breach_start(base, wi, hi, start.dice);
    }
    let mut t: usize = 0;
    while t < goal
        invariant
            wi == w,
            hi == h,
            t <= goal <= n,
            n == start.slots.len(),
            breach_inv(wi, hi, base, start, 0),
            (Breach { open: open@, slots: slots@, dice: rng_state(*rng) }) == breach_after(
                wi,
                start,
                t as nat,
            ),
        decreases goal - t,
    {
        proof {
            lemma_breach_walk(wi, hi, base, start, t as nat);
            lemma_fit(wi, hi);
        }
        let k = t + roll(rng, n - t);
        open_slot(&mut open, &mut slots, w, h, t, k);
        t += 1;
    }
    open
}

} // verus!
