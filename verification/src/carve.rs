//! How a maze is carved, told of the cells alone: what the carving keeps
//! true from step to step, and what that makes of the finished maze, a tree
//! that reaches every room.
//!
//! The cells with two odd coordinates are rooms, those with one are the
//! passages between two rooms, and those with none are pillars. The carving
//! keeps a stack of cells to try, each with the cell it was reached from.

use crate::grid::{further, manhattan};
use crate::grid_walks::tree_links;
use vstd::prelude::*;

verus! {

/// An entry of the carving stack: the coordinates of a cell, then those of
/// the cell from which it was reached.
pub type Pending = (usize, usize, usize, usize);

/// The cell of an entry.
pub open spec fn cell_of(e: Pending) -> (usize, usize) {
    (e.0, e.1)
}

/// The cell from which the cell of an entry was reached.
pub open spec fn parent_of(e: Pending) -> (usize, usize) {
    (e.2, e.3)
}

/// The cell one step past the cell of an entry, as seen from its parent.
pub open spec fn beyond(e: Pending) -> (usize, usize) {
    (further(e.0, e.2), further(e.1, e.3))
}

/// Where all starts.
pub open spec fn root() -> (usize, usize) {
    (1usize, 1usize)
}

/// Whether both coordinates of the cell are odd.
pub open spec fn is_room(c: (usize, usize)) -> bool {
    c.0 % 2 == 1 && c.1 % 2 == 1
}

/// Whether both coordinates of the cell are even.
pub open spec fn is_pillar(c: (usize, usize)) -> bool {
    c.0 % 2 == 0 && c.1 % 2 == 0
}

/// Whether one coordinate of the cell is odd and one even.
pub open spec fn is_passage(c: (usize, usize)) -> bool {
    !is_room(c) && !is_pillar(c)
}

/// Whether `c` is a cell of a grid of `w` by `h` cells and not on its border.
pub open spec fn inside(w: usize, h: usize, c: (usize, usize)) -> bool {
    0 < c.0 < w - 1 && 0 < c.1 < h - 1
}

/// The two rooms that a passage joins.
pub open spec fn ends(c: (usize, usize)) -> ((usize, usize), (usize, usize)) {
    if c.0 % 2 == 0 {
        (((c.0 - 1) as usize, c.1), ((c.0 + 1) as usize, c.1))
    } else {
        ((c.0, (c.1 - 1) as usize), (c.0, (c.1 + 1) as usize))
    }
}

/// The end of a passage that is not `r`.
pub open spec fn other_end(c: (usize, usize), r: (usize, usize)) -> (usize, usize) {
    if ends(c).0 == r {
        ends(c).1
    } else {
        ends(c).0
    }
}

/// Whether the carving opens the cell of the entry: the cell is inside the
/// grid, no pillar and not open, and neither is the cell one step further
/// open.
pub open spec fn viable(
    open: spec_fn((usize, usize)) -> bool,
    w: usize,
    h: usize,
    e: Pending,
) -> bool {
    inside(w, h, cell_of(e)) && !is_pillar(cell_of(e)) && !open(cell_of(e)) && !open(beyond(e))
}

/// What the carving knows beside the maze: from which cell each open cell
/// was reached, and the passage, if any, that has been opened towards a room
/// that is not open yet, with that room and the place of its entry on the
/// stack.
pub struct Carving {
    pub parent: Map<(usize, usize), (usize, usize)>,
    pub fresh: Option<((usize, usize), (usize, usize), int)>,
}

/// The grid has odd width and height, and only cells inside it that are no
/// pillars are open.
pub open spec fn grid_ok(open: spec_fn((usize, usize)) -> bool, w: usize, h: usize) -> bool {
    &&& w % 2 == 1
    &&& h % 2 == 1
    &&& forall|c: (usize, usize)| #[trigger] open(c) ==> inside(w, h, c) && !is_pillar(c)
    &&& forall|c: (usize, usize)| #[trigger] open(c) ==> open(root())
}

/// The cell of the entry lies next to its parent, which is open; or it is
/// the first entry.
pub open spec fn entry_ok(open: spec_fn((usize, usize)) -> bool, e: Pending) -> bool {
    e == (1usize, 1usize, 1usize, 1usize) || (open(parent_of(e)) && manhattan(
        parent_of(e),
        cell_of(e),
    ) == 1)
}

/// Every open passage joins two open rooms, but for the fresh one.
pub open spec fn passages_ok(
    open: spec_fn((usize, usize)) -> bool,
    fresh: Option<((usize, usize), (usize, usize), int)>,
) -> bool {
    forall|c: (usize, usize)|
        #[trigger] open(c) && is_passage(c) ==> (open(ends(c).0) && open(ends(c).1)) || (
        fresh is Some && fresh.unwrap().0 == c)
}

/// The fresh passage is open and inside the grid; the room that it leads to
/// is not open, the room that it comes from is; and the entry of the room
/// that it leads to is on the stack, below nothing but entries that were
/// reached from the passage.
pub open spec fn fresh_ok(
    open: spec_fn((usize, usize)) -> bool,
    w: usize,
    h: usize,
    stack: Seq<Pending>,
    fresh: Option<((usize, usize), (usize, usize), int)>,
) -> bool {
    fresh matches Some((c, r, k)) ==> {
        &&& open(c)
        &&& is_passage(c)
        &&& (r == ends(c).0 || r == ends(c).1)
        &&& !open(r)
        &&& open(other_end(c, r))
        &&& 0 <= k < stack.len()
        &&& stack[k] == (r.0, r.1, c.0, c.1)
        &&& forall|i: int| k <= i < stack.len() ==> parent_of(#[trigger] stack[i]) == c
    }
}

/// The passage `c` out of the room `r` is taken care of: it is open, or the
/// room past it is, or its entry is on the stack.
pub open spec fn settled(
    open: spec_fn((usize, usize)) -> bool,
    stack: Seq<Pending>,
    r: (usize, usize),
    c: (usize, usize),
) -> bool {
    open(c) || open(beyond((c.0, c.1, r.0, r.1))) || stack.contains((c.0, c.1, r.0, r.1))
}

/// Every passage inside the grid out of an open room is taken care of.
pub open spec fn rooms_ok(
    open: spec_fn((usize, usize)) -> bool,
    w: usize,
    h: usize,
    stack: Seq<Pending>,
) -> bool {
    forall|r: (usize, usize), c: (usize, usize)|
        open(r) && is_room(r) && manhattan(r, c) == 1 && inside(w, h, c) ==> #[trigger] settled(
            open,
            stack,
            r,
            c,
        )
}

/// What the carving keeps true from step to step.
#[verifier::opaque]
pub open spec fn carving_ok(
    open: spec_fn((usize, usize)) -> bool,
    w: usize,
    h: usize,
    stack: Seq<Pending>,
    g: Carving,
) -> bool {
    &&& grid_ok(open, w, h)
    &&& forall|i: int| 0 <= i < stack.len() ==> entry_ok(open, #[trigger] stack[i])
    &&& tree_links(open, g.parent, root())
    &&& passages_ok(open, g.fresh)
    &&& fresh_ok(open, w, h, stack, g.fresh)
    &&& rooms_ok(open, w, h, stack)
}

/// The entries for the cells `cells`, all reached from `from`.
pub open spec fn entries(cells: Seq<(usize, usize)>, from: (usize, usize)) -> Seq<Pending> {
    Seq::new(cells.len(), |i: int| (cells[i].0, cells[i].1, from.0, from.1))
}

/// What lies around a room: passages, each with the room for one end, and
/// with the cell past it, as seen from the room, for the other.
pub proof fn around_a_room(w: usize, h: usize, r: (usize, usize), c: (usize, usize))
    requires
        is_room(r),
        manhattan(r, c) == 1,
        inside(w, h, c),
        w % 2 == 1,
        h % 2 == 1,
    ensures
        is_passage(c),
        ends(c).0 == r || ends(c).1 == r,
        beyond((c.0, c.1, r.0, r.1)) == other_end(c, r),
        is_room(other_end(c, r)),
        inside(w, h, other_end(c, r)),
        inside(w, h, r),
        manhattan(c, other_end(c, r)) == 1,
        other_end(c, r) != r,
{
}

/// The ends of a passage inside the grid are rooms inside the grid, one step
/// from the passage each.
pub proof fn ends_of_a_passage(w: usize, h: usize, p: (usize, usize))
    requires
        is_passage(p),
        inside(w, h, p),
        w % 2 == 1,
        h % 2 == 1,
    ensures
        is_room(ends(p).0),
        is_room(ends(p).1),
        inside(w, h, ends(p).0),
        inside(w, h, ends(p).1),
        manhattan(p, ends(p).0) == 1,
        manhattan(p, ends(p).1) == 1,
        ends(p).0 != ends(p).1,
        other_end(p, ends(p).0) == ends(p).1,
        other_end(p, ends(p).1) == ends(p).0,
        beyond((ends(p).0.0, ends(p).0.1, p.0, p.1)) != p,
        beyond((ends(p).1.0, ends(p).1.1, p.0, p.1)) != p,
        manhattan(ends(p).0, beyond((ends(p).0.0, ends(p).0.1, p.0, p.1))) == 1,
        manhattan(ends(p).1, beyond((ends(p).1.0, ends(p).1.1, p.0, p.1))) == 1,
{
}

/// What lies around a passage: its two ends, and two pillars.
pub proof fn around_a_passage(p: (usize, usize), x: (usize, usize))
    requires
        is_passage(p),
        manhattan(p, x) == 1,
    ensures
        x == ends(p).0 || x == ends(p).1 || is_pillar(x),
{
}

/// Dropping the entry on top of the stack, where the carving does not open
/// its cell, keeps what the carving keeps true.
#[verifier::rlimit(100)]
pub proof fn dropping_keeps(
    open: spec_fn((usize, usize)) -> bool,
    w: usize,
    h: usize,
    stack: Seq<Pending>,
    g: Carving,
)
    requires
        carving_ok(open, w, h, stack, g),
        stack.len() > 0,
        !viable(open, w, h, stack.last()),
    ensures
        carving_ok(open, w, h, stack.drop_last(), g),
{
    reveal(carving_ok);
    let e = stack.last();
    let rest = stack.drop_last();
    assert forall|i: int| 0 <= i < rest.len() implies entry_ok(open, #[trigger] rest[i]) by {
        assert(rest[i] == stack[i]);
    }
    if let Some((c, r, k)) = g.fresh {
        if k == stack.len() - 1 {
            ends_of_a_passage(w, h, c);
            let c2 = beyond(e);
            if open(c2) {
                around_a_room(w, h, r, c2);
                assert(open(c2) && is_passage(c2));
                assert(open(ends(c2).0) && open(ends(c2).1));
            }
            assert(viable(open, w, h, e));
        }
        assert(rest[k] == stack[k]);
        assert forall|i: int| k <= i < rest.len() implies parent_of(#[trigger] rest[i]) == c by {
            assert(rest[i] == stack[i]);
        }
    }
    assert forall|r: (usize, usize), c: (usize, usize)|
        open(r) && is_room(r) && manhattan(r, c) == 1 && inside(
            w,
            h,
            c,
        ) implies #[trigger] settled(open, rest, r, c) by {
        assert(settled(open, stack, r, c));
        let ent = (c.0, c.1, r.0, r.1);
        if !open(c) && !open(beyond(ent)) {
            let i = choose|i: int| 0 <= i < stack.len() && stack[i] == ent;
            if i == stack.len() - 1 {
                around_a_room(w, h, r, c);
                assert(viable(open, w, h, e));
            }
            assert(rest[i] == ent);
        }
    }
}

/// The entries that are left and the new ones are in order once a cell is
/// open.
proof fn entries_stay(
    open0: spec_fn((usize, usize)) -> bool,
    open1: spec_fn((usize, usize)) -> bool,
    stack: Seq<Pending>,
    nexts: Seq<(usize, usize)>,
)
    requires
        stack.len() > 0,
        forall|i: int| 0 <= i < stack.len() ==> entry_ok(open0, #[trigger] stack[i]),
        forall|c: (usize, usize)| #[trigger] open1(c) == (open0(c) || c == cell_of(stack.last())),
        forall|i: int|
            0 <= i < nexts.len() ==> manhattan(cell_of(stack.last()), #[trigger] nexts[i]) == 1,
    ensures
        forall|i: int|
            0 <= i < (stack.drop_last() + entries(nexts, cell_of(stack.last()))).len()
                ==> entry_ok(
                open1,
                #[trigger] (stack.drop_last() + entries(nexts, cell_of(stack.last())))[i],
            ),
{
    let x = cell_of(stack.last());
    let base = stack.drop_last();
    let top = entries(nexts, x);
    let s1 = base + top;
    assert(open1(x));
    assert forall|i: int| 0 <= i < s1.len() implies entry_ok(open1, #[trigger] s1[i]) by {
        if i < base.len() {
            assert(s1[i] == stack[i]);
            assert(entry_ok(open0, stack[i]));
            assert(open0(parent_of(stack[i])) ==> open1(parent_of(stack[i])));
        } else {
            assert(s1[i] == top[i - base.len()]);
            assert(manhattan(x, nexts[i - base.len()]) == 1);
        }
    }
}

/// Opening the first cell keeps what the carving keeps true.
#[verifier::rlimit(100)]
proof fn opening_the_root_keeps(
    open0: spec_fn((usize, usize)) -> bool,
    open1: spec_fn((usize, usize)) -> bool,
    w: usize,
    h: usize,
    stack: Seq<Pending>,
    nexts: Seq<(usize, usize)>,
    g: Carving,
) -> (g1: Carving)
    requires
        carving_ok(open0, w, h, stack, g),
        stack.len() > 0,
        viable(open0, w, h, stack.last()),
        forall|c: (usize, usize)| #[trigger] open1(c) == (open0(c) || c == cell_of(stack.last())),
        forall|i: int|
            0 <= i < nexts.len() ==> manhattan(cell_of(stack.last()), #[trigger] nexts[i]) == 1,
        forall|c: (usize, usize)|
            manhattan(cell_of(stack.last()), c) == 1 && inside(w, h, c) && !is_pillar(c)
                ==> #[trigger] nexts.contains(c),
        !open0(parent_of(stack.last())),
    ensures
        carving_ok(
            open1,
            w,
            h,
            stack.drop_last() + entries(nexts, cell_of(stack.last())),
            g1,
        ),
{
    reveal(carving_ok);
    let e = stack.last();
    let x = cell_of(e);
    let p = parent_of(e);
    let base = stack.drop_last();
    let top = entries(nexts, x);
    let s1 = base + top;
    assert(open1(x));
    assert(entry_ok(open0, stack[stack.len() - 1]));
    entries_stay(open0, open1, stack, nexts);
    // the first entry: nothing is open yet
    assert(e == (1usize, 1usize, 1usize, 1usize));
    assert forall|c: (usize, usize)| !#[trigger] open0(c) by {
        if open0(c) {
            assert(open0(root()));
        }
    }
    let g1 = Carving { parent: g.parent, fresh: None };
    assert forall|c: (usize, usize)| #[trigger] open1(c) implies c == x by {}
    assert(grid_ok(open1, w, h));
    assert(tree_links(open1, g1.parent, root()));
    assert(passages_ok(open1, g1.fresh));
    assert forall|r: (usize, usize), c: (usize, usize)|
        open1(r) && is_room(r) && manhattan(r, c) == 1 && inside(
            w,
            h,
            c,
        ) implies #[trigger] settled(open1, s1, r, c) by {
        around_a_room(w, h, r, c);
        assert(nexts.contains(c));
        let j = choose|j: int| 0 <= j < nexts.len() && nexts[j] == c;
        assert(s1[base.len() + j] == top[j]);
        assert(top[j] == (c.0, c.1, r.0, r.1));
    }
    g1
}

/// Opening a passage out of a room keeps what the carving keeps true.
#[verifier::rlimit(100)]
proof fn opening_a_passage_keeps(
    open0: spec_fn((usize, usize)) -> bool,
    open1: spec_fn((usize, usize)) -> bool,
    w: usize,
    h: usize,
    stack: Seq<Pending>,
    nexts: Seq<(usize, usize)>,
    g: Carving,
) -> (g1: Carving)
    requires
        carving_ok(open0, w, h, stack, g),
        stack.len() > 0,
        viable(open0, w, h, stack.last()),
        forall|c: (usize, usize)| #[trigger] open1(c) == (open0(c) || c == cell_of(stack.last())),
        forall|i: int|
            0 <= i < nexts.len() ==> manhattan(cell_of(stack.last()), #[trigger] nexts[i]) == 1,
        forall|c: (usize, usize)|
            manhattan(cell_of(stack.last()), c) == 1 && inside(w, h, c) && !is_pillar(c)
                ==> #[trigger] nexts.contains(c),
        open0(parent_of(stack.last())),
        is_room(parent_of(stack.last())),
    ensures
        carving_ok(
            open1,
            w,
            h,
            stack.drop_last() + entries(nexts, cell_of(stack.last())),
            g1,
        ),
{
    reveal(carving_ok);
    let e = stack.last();
    let x = cell_of(e);
    let p = parent_of(e);
    let base = stack.drop_last();
    let top = entries(nexts, x);
    let s1 = base + top;
    assert(open1(x));
    assert(entry_ok(open0, stack[stack.len() - 1]));
    entries_stay(open0, open1, stack, nexts);
    assert(manhattan(p, x) == 1);
    around_a_room(w, h, p, x);
    let far = other_end(x, p);
    ends_of_a_passage(w, h, x);
    if let Some((c, r, k)) = g.fresh {
        assert(parent_of(stack[stack.len() - 1]) == c);
    }
    assert(g.fresh is None);
    assert(nexts.contains(far));
    let j = choose|j: int| 0 <= j < nexts.len() && nexts[j] == far;
    let k1 = base.len() + j;
    let g1 = Carving { parent: g.parent.insert(x, p), fresh: Some((x, far, k1)) };
    assert(open0(root()));
    assert forall|c: (usize, usize)| #[trigger] open1(c) implies inside(w, h, c) && !is_pillar(
        c,
    ) by {
        if c != x {
            assert(open0(c));
        }
    }
    assert forall|c: (usize, usize)| #[trigger] open1(c) implies open1(root()) by {}
    assert forall|a: (usize, usize), b: (usize, usize)|
        #![trigger open1(a), open1(b)]
        open1(a) && open1(b) && manhattan(a, b) == 1 implies (a != root()
        && g1.parent.dom().contains(a) && g1.parent[a] == b) || (b != root()
        && g1.parent.dom().contains(b) && g1.parent[b] == a) by {
        if a != x && b != x {
            assert(open0(a) && open0(b));
        } else if a == x {
            assert(open0(b));
            around_a_passage(x, b);
        } else {
            assert(open0(a));
            around_a_passage(x, a);
        }
    }
    assert forall|c: (usize, usize)| #[trigger] open1(c) && is_passage(c) implies (open1(
        ends(c).0,
    ) && open1(ends(c).1)) || (g1.fresh is Some && g1.fresh.unwrap().0 == c) by {
        if c != x {
            assert(open0(c));
            assert(open0(ends(c).0) && open0(ends(c).1));
        }
    }
    assert(s1[k1] == top[j]);
    assert forall|i: int| k1 <= i < s1.len() implies parent_of(#[trigger] s1[i]) == x by {
        assert(s1[i] == top[i - base.len()]);
    }
    assert(fresh_ok(open1, w, h, s1, g1.fresh));
    assert forall|r: (usize, usize), c: (usize, usize)|
        open1(r) && is_room(r) && manhattan(r, c) == 1 && inside(
            w,
            h,
            c,
        ) implies #[trigger] settled(open1, s1, r, c) by {
        assert(open0(r));
        assert(settled(open0, stack, r, c));
        let ent = (c.0, c.1, r.0, r.1);
        if open0(c) {
            assert(open1(c));
        } else if open0(beyond(ent)) {
            assert(open1(beyond(ent)));
        } else {
            let i = choose|i: int| 0 <= i < stack.len() && stack[i] == ent;
            if i < stack.len() - 1 {
                assert(s1[i] == ent);
            }
        }
    }
    g1
}

/// Opening the room at the end of a passage keeps what the carving keeps
/// true.
#[verifier::rlimit(100)]
proof fn opening_a_room_keeps(
    open0: spec_fn((usize, usize)) -> bool,
    open1: spec_fn((usize, usize)) -> bool,
    w: usize,
    h: usize,
    stack: Seq<Pending>,
    nexts: Seq<(usize, usize)>,
    g: Carving,
) -> (g1: Carving)
    requires
        carving_ok(open0, w, h, stack, g),
        stack.len() > 0,
        viable(open0, w, h, stack.last()),
        forall|c: (usize, usize)| #[trigger] open1(c) == (open0(c) || c == cell_of(stack.last())),
        forall|i: int|
            0 <= i < nexts.len() ==> manhattan(cell_of(stack.last()), #[trigger] nexts[i]) == 1,
        forall|c: (usize, usize)|
            manhattan(cell_of(stack.last()), c) == 1 && inside(w, h, c) && !is_pillar(c)
                ==> #[trigger] nexts.contains(c),
        open0(parent_of(stack.last())),
        !is_room(parent_of(stack.last())),
    ensures
        carving_ok(
            open1,
            w,
            h,
            stack.drop_last() + entries(nexts, cell_of(stack.last())),
            g1,
        ),
{
    reveal(carving_ok);
    let e = stack.last();
    let x = cell_of(e);
    let p = parent_of(e);
    let base = stack.drop_last();
    let top = entries(nexts, x);
    let s1 = base + top;
    assert(open1(x));
    assert(entry_ok(open0, stack[stack.len() - 1]));
    entries_stay(open0, open1, stack, nexts);
    assert(manhattan(p, x) == 1);
    assert(inside(w, h, p) && !is_pillar(p));
    assert(is_passage(p));
    ends_of_a_passage(w, h, p);
    around_a_passage(p, x);
    assert(x == ends(p).0 || x == ends(p).1);
    assert(open0(p) && is_passage(p));
    assert(g.fresh is Some && g.fresh.unwrap().0 == p);
    let rf = g.fresh.unwrap().1;
    assert(x == rf);
    assert(open0(root()));
    assert(x != root());
    let g1 = Carving { parent: g.parent.insert(x, p), fresh: None };
    assert forall|c: (usize, usize)| #[trigger] open1(c) implies inside(w, h, c) && !is_pillar(
        c,
    ) by {
        if c != x {
            assert(open0(c));
        }
    }
    assert forall|c: (usize, usize)| #[trigger] open1(c) implies open1(root()) by {}
    assert forall|a: (usize, usize), b: (usize, usize)|
        #![trigger open1(a), open1(b)]
        open1(a) && open1(b) && manhattan(a, b) == 1 implies (a != root()
        && g1.parent.dom().contains(a) && g1.parent[a] == b) || (b != root()
        && g1.parent.dom().contains(b) && g1.parent[b] == a) by {
        if a != x && b != x {
            assert(open0(a) && open0(b));
        } else {
            let o = if a == x {
                b
            } else {
                a
            };
            assert(open0(o));
            assert(inside(w, h, o));
            around_a_room(w, h, x, o);
            if o != p {
                assert(open0(o) && is_passage(o));
                assert(open0(ends(o).0) && open0(ends(o).1));
            }
        }
    }
    assert forall|c: (usize, usize)| #[trigger] open1(c) && is_passage(c) implies (open1(
        ends(c).0,
    ) && open1(ends(c).1)) || (g1.fresh is Some && g1.fresh.unwrap().0 == c) by {
        assert(open0(c));
        if c != p {
            assert(open0(ends(c).0) && open0(ends(c).1));
        } else {
            assert(open0(other_end(p, rf)));
        }
    }
    assert forall|r: (usize, usize), c: (usize, usize)|
        open1(r) && is_room(r) && manhattan(r, c) == 1 && inside(
            w,
            h,
            c,
        ) implies #[trigger] settled(open1, s1, r, c) by {
        let ent = (c.0, c.1, r.0, r.1);
        if r == x {
            around_a_room(w, h, r, c);
            assert(nexts.contains(c));
            let j = choose|j: int| 0 <= j < nexts.len() && nexts[j] == c;
            assert(s1[base.len() + j] == top[j]);
            assert(top[j] == ent);
        } else {
            assert(open0(r));
            assert(settled(open0, stack, r, c));
            if open0(c) {
                assert(open1(c));
            } else if open0(beyond(ent)) {
                assert(open1(beyond(ent)));
            } else {
                let i = choose|i: int| 0 <= i < stack.len() && stack[i] == ent;
                assert(i < stack.len() - 1);
                assert(s1[i] == ent);
            }
        }
    }
    g1
}

/// Opening the cell of the entry on top of the stack, where the carving does
/// so, and putting the cells around it on the stack in any order, keeps what
/// the carving keeps true. The result is what the carving knows afterwards.
pub proof fn opening_keeps(
    open0: spec_fn((usize, usize)) -> bool,
    open1: spec_fn((usize, usize)) -> bool,
    w: usize,
    h: usize,
    stack: Seq<Pending>,
    nexts: Seq<(usize, usize)>,
    g: Carving,
) -> (g1: Carving)
    requires
        carving_ok(open0, w, h, stack, g),
        stack.len() > 0,
        viable(open0, w, h, stack.last()),
        forall|c: (usize, usize)| #[trigger] open1(c) == (open0(c) || c == cell_of(stack.last())),
        forall|i: int|
            0 <= i < nexts.len() ==> manhattan(cell_of(stack.last()), #[trigger] nexts[i]) == 1,
        forall|c: (usize, usize)|
            manhattan(cell_of(stack.last()), c) == 1 && inside(w, h, c) && !is_pillar(c)
                ==> #[trigger] nexts.contains(c),
    ensures
        carving_ok(
            open1,
            w,
            h,
            stack.drop_last() + entries(nexts, cell_of(stack.last())),
            g1,
        ),
{
    let p = parent_of(stack.last());
    if !open0(p) {
        opening_the_root_keeps(open0, open1, w, h, stack, nexts, g)
    } else if is_room(p) {
        opening_a_passage_keeps(open0, open1, w, h, stack, nexts, g)
    } else {
        opening_a_room_keeps(open0, open1, w, h, stack, nexts, g)
    }
}

/// Once the stack is empty, every room inside the grid is open: stated of
/// the room `i` rooms to the right of the first and `j` rooms below it.
#[verifier::rlimit(100)]
pub proof fn every_room_is_open(
    open: spec_fn((usize, usize)) -> bool,
    w: usize,
    h: usize,
    g: Carving,
    i: nat,
    j: nat,
)
    requires
        carving_ok(open, w, h, Seq::<Pending>::empty(), g),
        open(root()),
        1 + 2 * i < w - 1,
        1 + 2 * j < h - 1,
    ensures
        open(((1 + 2 * i) as usize, (1 + 2 * j) as usize)),
    decreases i + j,
{
    reveal(carving_ok);
    let none = Seq::<Pending>::empty();
    let to = ((1 + 2 * i) as usize, (1 + 2 * j) as usize);
    if i > 0 || j > 0 {
        let from = if i > 0 {
            ((2 * i - 1) as usize, (1 + 2 * j) as usize)
        } else {
            ((1 + 2 * i) as usize, (2 * j - 1) as usize)
        };
        let c = if i > 0 {
            ((2 * i) as usize, (1 + 2 * j) as usize)
        } else {
            ((1 + 2 * i) as usize, (2 * j) as usize)
        };
        if i > 0 {
            every_room_is_open(open, w, h, g, (i - 1) as nat, j);
        } else {
            every_room_is_open(open, w, h, g, i, (j - 1) as nat);
        }
        assert(open(from));
        around_a_room(w, h, from, c);
        assert(settled(open, none, from, c));
        assert(other_end(c, from) == to);
        if open(c) {
            assert(open(c) && is_passage(c));
        }
    }
}

} // verus!
