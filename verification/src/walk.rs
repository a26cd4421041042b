//! Walks through the open cells of a layout, and what they connect.

use crate::plan::{beside, cell_at, extends, in_grid, lemma_cell_in_range, open_at};
use vstd::prelude::*;

verus! {

/// `c` is a cell of the grid, and it is open.
pub open spec fn stands(open: Seq<bool>, w: int, h: int, c: (int, int)) -> bool {
    in_grid(w, h, c.0, c.1) && open_at(open, w, c.0, c.1)
}

/// Entry `k` of `p` and the entry after it are side by side.
pub open spec fn steps_on(p: Seq<(int, int)>, k: int) -> bool {
    beside(p[k], p[k + 1])
}

/// `p` is a walk: a sequence of open cells, each beside the one before it.
pub open spec fn is_walk(open: Seq<bool>, w: int, h: int, p: Seq<(int, int)>) -> bool {
    &&& p.len() > 0
    &&& forall|k: int| 0 <= k < p.len() ==> stands(open, w, h, #[trigger] p[k])
    &&& forall|k: int| 0 <= k < p.len() - 1 ==> #[trigger] steps_on(p, k)
}

/// Some walk leads from `a` to `b`.
pub open spec fn joined(open: Seq<bool>, w: int, h: int, a: (int, int), b: (int, int)) -> bool {
    exists|p: Seq<(int, int)>| #[trigger] is_walk(open, w, h, p) && p[0] == a && p.last() == b
}

/// Every open cell can be reached from `root`.
pub open spec fn rooted(open: Seq<bool>, w: int, h: int, root: (int, int)) -> bool {
    forall|c: (int, int)| #[trigger] stands(open, w, h, c) ==> joined(open, w, h, root, c)
}

/// The open cells form a single component: a walk leads from each of them
/// to every other.
pub open spec fn connected(open: Seq<bool>, w: int, h: int) -> bool {
    forall|a: (int, int), b: (int, int)|
        #![trigger joined(open, w, h, a, b)]
        stands(open, w, h, a) && stands(open, w, h, b) ==> joined(open, w, h, a, b)
}

/// An open cell is joined to itself.
pub proof fn lemma_joined_self(open: Seq<bool>, w: int, h: int, a: (int, int))
    requires
        stands(open, w, h, a),
    ensures
        joined(open, w, h, a, a),
{
    let p = seq![a];
    assert(is_walk(open, w, h, p));
}

/// A walk can be taken one step further, to an open cell beside its end.
pub proof fn lemma_joined_step(
    open: Seq<bool>,
    w: int,
    h: int,
    a: (int, int),
    b: (int, int),
    c: (int, int),
)
    requires
        joined(open, w, h, a, b),
        stands(open, w, h, c),
        beside(b, c),
    ensures
        joined(open, w, h, a, c),
{
    let p = choose|p: Seq<(int, int)>| #[trigger]
        is_walk(open, w, h, p) && p[0] == a && p.last() == b;
    let q = p.push(c);
    assert forall|k: int| 0 <= k < q.len() implies stands(open, w, h, #[trigger] q[k]) by {
        if k < p.len() {
            assert(q[k] == p[k]);
        }
    }
    assert forall|k: int| 0 <= k < q.len() - 1 implies #[trigger] steps_on(q, k) by {
        if k < p.len() - 1 {
            assert(steps_on(p, k));
        }
    }
    assert(is_walk(open, w, h, q));
}

/// A walk stays a walk when more cells are opened.
pub proof fn lemma_joined_grows(
    open: Seq<bool>,
    more: Seq<bool>,
    w: int,
    h: int,
    a: (int, int),
    b: (int, int),
)
    requires
        joined(open, w, h, a, b),
        extends(open, more),
        w >= 0,
        h >= 0,
        open.len() == w * h,
    ensures
        joined(more, w, h, a, b),
{
    let p = choose|p: Seq<(int, int)>| #[trigger]
        is_walk(open, w, h, p) && p[0] == a && p.last() == b;
    assert forall|k: int| 0 <= k < p.len() implies stands(more, w, h, #[trigger] p[k]) by {
        assert(stands(open, w, h, p[k]));
        lemma_cell_in_range(w, h, p[k].0, p[k].1);
        assert(more[cell_at(w, p[k].0, p[k].1)]);
    }
    assert(is_walk(more, w, h, p));
}

/// A walk can be gone backwards.
pub proof fn lemma_joined_back(open: Seq<bool>, w: int, h: int, a: (int, int), b: (int, int))
    requires
        joined(open, w, h, a, b),
    ensures
        joined(open, w, h, b, a),
{
    let p = choose|p: Seq<(int, int)>| #[trigger]
        is_walk(open, w, h, p) && p[0] == a && p.last() == b;
    let n = p.len() as int;
    let q = Seq::new(p.len(), |k: int| p[n - 1 - k]);
    assert forall|k: int| 0 <= k < q.len() implies stands(open, w, h, #[trigger] q[k]) by {
        assert(stands(open, w, h, p[n - 1 - k]));
    }
    assert forall|k: int| 0 <= k < q.len() - 1 implies #[trigger] steps_on(q, k) by {
        assert(steps_on(p, n - 2 - k));
    }
    assert(is_walk(open, w, h, q));
}

/// Two walks that meet make one.
pub proof fn lemma_joined_through(
    open: Seq<bool>,
    w: int,
    h: int,
    a: (int, int),
    b: (int, int),
    c: (int, int),
)
    requires
        joined(open, w, h, a, b),
        joined(open, w, h, b, c),
    ensures
        joined(open, w, h, a, c),
{
    let p = choose|p: Seq<(int, int)>| #[trigger]
        is_walk(open, w, h, p) && p[0] == a && p.last() == b;
    let q = choose|q: Seq<(int, int)>| #[trigger]
        is_walk(open, w, h, q) && q[0] == b && q.last() == c;
    let n = p.len() as int;
    let r = p + q.drop_first();
    assert forall|k: int| 0 <= k < r.len() implies stands(open, w, h, #[trigger] r[k]) by {
        if k < n {
            assert(r[k] == p[k]);
        } else {
            assert(r[k] == q[k - n + 1]);
        }
    }
    assert forall|k: int| 0 <= k < r.len() - 1 implies #[trigger] steps_on(r, k) by {
        if k < n - 1 {
            assert(steps_on(p, k));
        } else if k == n - 1 {
            assert(steps_on(q, 0));
            assert(r[k] == q[0]);
            assert(r[k + 1] == q[1]);
        } else {
            assert(steps_on(q, k - n + 1));
            assert(r[k] == q[k - n + 1]);
            assert(r[k + 1] == q[k - n + 2]);
        }
    }
    assert(is_walk(open, w, h, r));
    if q.len() == 1 {
        assert(r =~= p);
    } else {
        assert(r.last() == q.last());
    }
}

/// Where every open cell can be reached from one root, each can be reached
/// from every other.
pub proof fn lemma_rooted_connected(open: Seq<bool>, w: int, h: int, root: (int, int))
    requires
        rooted(open, w, h, root),
    ensures
        connected(open, w, h),
{
    assert forall|a: (int, int), b: (int, int)|
        stands(open, w, h, a) && stands(open, w, h, b) implies #[trigger] joined(
        open,
        w,
        h,
        a,
        b,
    ) by {
        lemma_joined_back(open, w, h, root, a);
        lemma_joined_through(open, w, h, a, root, b);
    }
}

} // verus!
