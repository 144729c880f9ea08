//! What holds of walks in a maze on a grid, whichever of the two kinds of
//! maze it is: what a walk costs, how long a path is that A* finds, and that
//! in a maze whose open cells hang together like a tree only one path leads
//! from the root to a cell.

use crate::a_star::{estimate_through, no_dearer_than};
use crate::graph::{
    is_simple, is_walk, leads_to_goal, walk_cost, walk_end, walk_node, walk_total, Graph,
};
use crate::grid::{cell_gap, manhattan, Plain};
use vstd::prelude::*;

verus! {

/// Whether `g` is a maze on a grid: every move leads to a cell one step away,
/// and the distance is `cell_gap`.
pub open spec fn steps_by_one<G: Graph<Node = (usize, usize)>>(g: &G) -> bool {
    &&& forall|n: (usize, usize), k: int|
        0 <= k < g.moves(n).len() ==> manhattan(n, (#[trigger] g.moves(n)[k]).1) == 1
    &&& forall|a: (usize, usize), b: (usize, usize)| #[trigger] g.gap(a, b) == cell_gap(a, b)
}

/// In a maze on a grid, a walk costs 1000 for each step, and it cannot end
/// further from where it is than it has steps left.
pub proof fn walk_in_steps<G: Graph<Node = (usize, usize)>>(
    g: &G,
    from: (usize, usize),
    w: Seq<(G::Edge, (usize, usize))>,
    i: int,
)
    requires
        steps_by_one(g),
        is_walk(g, from, w),
        0 <= i <= w.len(),
    ensures
        walk_cost(g, from, w, i) == 1000 * i,
        manhattan(walk_node(from, w, i), walk_end(from, w)) <= w.len() - i,
    decreases w.len() - i,
{
    walk_costs_by_step(g, from, w, i);
    if i < w.len() {
        walk_in_steps(g, from, w, i + 1);
        let a = walk_node(from, w, i);
        let b = walk_node(from, w, i + 1);
        assert(g.moves(a).contains(w[i]));
        let k = choose|k: int| 0 <= k < g.moves(a).len() && g.moves(a)[k] == w[i];
        assert(manhattan(a, g.moves(a)[k].1) == 1);
    }
}

/// In a maze on a grid, the first `i` steps of a walk cost 1000 each.
pub proof fn walk_costs_by_step<G: Graph<Node = (usize, usize)>>(
    g: &G,
    from: (usize, usize),
    w: Seq<(G::Edge, (usize, usize))>,
    i: int,
)
    requires
        steps_by_one(g),
        is_walk(g, from, w),
        0 <= i <= w.len(),
    ensures
        walk_cost(g, from, w, i) == 1000 * i,
    decreases i,
{
    if i > 0 {
        walk_costs_by_step(g, from, w, i - 1);
        let a = walk_node(from, w, i - 1);
        assert(g.moves(a).contains(w[i - 1]));
        let k = choose|k: int| 0 <= k < g.moves(a).len() && g.moves(a)[k] == w[i - 1];
        assert(manhattan(a, g.moves(a)[k].1) == 1);
        assert(g.gap(a, w[i - 1].1) == cell_gap(a, w[i - 1].1));
    }
}

/// Whether the sum of the coordinates of a cell is odd.
pub open spec fn odd_sum(c: (usize, usize)) -> bool {
    (c.0 + c.1) % 2 == 1
}

/// Whether a number is odd.
pub open spec fn is_odd(i: int) -> bool {
    i % 2 == 1
}

/// Of two cells one step apart, one has an odd sum of coordinates.
pub proof fn step_alternates(a: (usize, usize), b: (usize, usize))
    requires
        manhattan(a, b) == 1,
    ensures
        odd_sum(a) != odd_sum(b),
{
    let sa = a.0 + a.1;
    let sb = b.0 + b.1;
    assert(sb == sa + 1 || sb == sa - 1);
}

/// In a maze on a grid, every step of a walk turns an even sum of the
/// coordinates into an odd one and back.
pub proof fn walk_alternates<G: Graph<Node = (usize, usize)>>(
    g: &G,
    from: (usize, usize),
    w: Seq<(G::Edge, (usize, usize))>,
    i: int,
)
    requires
        steps_by_one(g),
        is_walk(g, from, w),
        0 <= i <= w.len(),
    ensures
        odd_sum(walk_node(from, w, i)) == (odd_sum(from) != is_odd(i)),
    decreases i,
{
    if i > 0 {
        walk_alternates(g, from, w, i - 1);
        let a = walk_node(from, w, i - 1);
        let b = walk_node(from, w, i);
        assert(g.moves(a).contains(w[i - 1]));
        let k = choose|k: int| 0 <= k < g.moves(a).len() && g.moves(a)[k] == w[i - 1];
        assert(manhattan(a, g.moves(a)[k].1) == 1);
        step_alternates(a, b);
        assert(is_odd(i) != is_odd(i - 1));
    }
}

/// In a maze on a grid, two walks from one cell to another are both of even
/// or both of odd length.
pub proof fn walks_alike<G: Graph<Node = (usize, usize)>>(
    g: &G,
    from: (usize, usize),
    v: Seq<(G::Edge, (usize, usize))>,
    w: Seq<(G::Edge, (usize, usize))>,
)
    requires
        steps_by_one(g),
        is_walk(g, from, v),
        is_walk(g, from, w),
        walk_end(from, v) == walk_end(from, w),
    ensures
        v.len() % 2 == w.len() % 2,
{
    walk_alternates(g, from, v, v.len() as int);
    walk_alternates(g, from, w, w.len() as int);
    assert(is_odd(v.len() as int) == is_odd(w.len() as int));
}

/// The sum behind `no_dearer_means_no_longer`: `p` steps at 1000 each that
/// cost no more than `i` steps and 1001 for each of `d` units, where `d` is
/// less than 2000 and no more than is left of `k` after `i`, are `k` steps at
/// most if `p` and `k` are both even or both odd.
pub proof fn fewer_units_than_two_steps(p: int, k: int, i: int, d: int)
    requires
        0 <= i <= k,
        0 <= d <= k - i,
        d < 2000,
        1000 * p <= 1000 * i + 1001 * d,
        p % 2 == k % 2,
    ensures
        p <= k,
{
}

/// In a maze on a grid, a path that is no dearer than the dearest estimate
/// along a walk to the goal has no more steps than the walk, where the walk
/// has fewer than 2000 steps, or never is as far as 2000 from the goal and
/// costs little enough for every estimate to fit a `usize`.
///
/// The distance counts 1001 for each unit from the second on, one more than
/// a step costs. Over less than 2000 units that never adds up to the two
/// steps by which a longer walk between the same cells is longer, so the
/// path that A* finds is a shortest one. Over more it can: there A* may keep
/// to a straight passage that ends in a detour of its own.
#[verifier::rlimit(100)]
pub proof fn no_dearer_means_no_longer<G: Graph<Node = (usize, usize)>>(
    g: &G,
    path: Seq<(G::Edge, (usize, usize))>,
    w: Seq<(G::Edge, (usize, usize))>,
)
    requires
        steps_by_one(g),
        leads_to_goal(g, path),
        leads_to_goal(g, w),
        no_dearer_than(g, walk_total(g, g.start_view(), path), w),
        w.len() < 2000 || (1000 * w.len() + 2002000 <= usize::MAX && forall|i: int|
            0 <= i <= w.len() ==> manhattan(
                #[trigger] walk_node(g.start_view(), w, i),
                g.goal_view(),
            ) < 2000),
    ensures
        path.len() <= w.len(),
{
    let start = g.start_view();
    let goal = g.goal_view();
    walk_costs_by_step(g, start, path, path.len() as int);
    walks_alike(g, start, path, w);
    let i = choose|i: int|
        0 <= i <= w.len() && (walk_total(g, start, path) <= #[trigger] estimate_through(g, w, i)
            || usize::MAX <= estimate_through(g, w, i));
    walk_in_steps(g, start, w, i);
    let at = walk_node(start, w, i);
    let d = manhattan(at, goal) as int;
    let cost = walk_cost(g, start, w, i) as int;
    let est = estimate_through(g, w, i) as int;
    let total = walk_total(g, start, path) as int;
    assert(d < 2000);
    assert(g.gap(at, goal) == cell_gap(at, goal));
    assert(cell_gap(at, goal) <= 1001 * d);
    assert(est == cost + g.gap(at, goal));
    assert(est <= 1000 * i + 1001 * d);
    assert(est < usize::MAX);
    assert(total <= est);
    assert(total == 1000 * path.len());
    fewer_units_than_two_steps(path.len() as int, w.len() as int, i, d);
}

/// Whether the cells that `open` holds of hang together like a tree with the
/// root `root`: of two such cells next to each other, one is the parent of
/// the other, and the root has no parent.
pub open spec fn tree_links(
    open: spec_fn((usize, usize)) -> bool,
    parent: Map<(usize, usize), (usize, usize)>,
    root: (usize, usize),
) -> bool {
    forall|a: (usize, usize), b: (usize, usize)|
        #![trigger open(a), open(b)]
        open(a) && open(b) && manhattan(a, b) == 1 ==> (a != root && parent.dom().contains(a)
            && parent[a] == b) || (b != root && parent.dom().contains(b) && parent[b] == a)
}

/// Whether every move of `g` leads from a cell that `open` holds of to
/// another.
pub open spec fn moves_stay<G: Graph<Node = (usize, usize)>>(
    g: &G,
    open: spec_fn((usize, usize)) -> bool,
) -> bool {
    forall|n: (usize, usize), k: int|
        open(n) && 0 <= k < g.moves(n).len() ==> open((#[trigger] g.moves(n)[k]).1)
}

/// A walk that starts in a cell that `open` holds of stays in such cells, and
/// each of its steps leads to a cell one step away.
pub proof fn walk_stays<G: Graph<Node = (usize, usize)>>(
    g: &G,
    open: spec_fn((usize, usize)) -> bool,
    from: (usize, usize),
    w: Seq<(G::Edge, (usize, usize))>,
    i: int,
)
    requires
        steps_by_one(g),
        moves_stay(g, open),
        open(from),
        is_walk(g, from, w),
        0 <= i <= w.len(),
    ensures
        open(walk_node(from, w, i)),
        i > 0 ==> manhattan(walk_node(from, w, i - 1), walk_node(from, w, i)) == 1,
    decreases i,
{
    if i > 0 {
        walk_stays(g, open, from, w, i - 1);
        let a = walk_node(from, w, i - 1);
        assert(g.moves(a).contains(w[i - 1]));
        let k = choose|k: int| 0 <= k < g.moves(a).len() && g.moves(a)[k] == w[i - 1];
        assert(open(g.moves(a)[k].1));
        assert(manhattan(a, g.moves(a)[k].1) == 1);
    }
}

/// In a tree, every step of a walk from the root that passes no cell twice
/// leads from a parent to its child.
pub proof fn simple_walks_descend<G: Graph<Node = (usize, usize)>>(
    g: &G,
    open: spec_fn((usize, usize)) -> bool,
    parent: Map<(usize, usize), (usize, usize)>,
    root: (usize, usize),
    w: Seq<(G::Edge, (usize, usize))>,
    i: int,
)
    requires
        steps_by_one(g),
        moves_stay(g, open),
        open(root),
        tree_links(open, parent, root),
        is_walk(g, root, w),
        is_simple(root, w),
        0 < i <= w.len(),
    ensures
        walk_node(root, w, i) != root,
        parent.dom().contains(walk_node(root, w, i)),
        parent[walk_node(root, w, i)] == walk_node(root, w, i - 1),
    decreases i,
{
    let a = walk_node(root, w, i - 1);
    let b = walk_node(root, w, i);
    walk_stays(g, open, root, w, i);
    walk_stays(g, open, root, w, i - 1);
    assert(open(a) && open(b));
    assert(walk_node(root, w, 0) != walk_node(root, w, i));
    if i > 1 {
        simple_walks_descend(g, open, parent, root, w, i - 1);
        assert(walk_node(root, w, i - 2) != walk_node(root, w, i));
    }
}

/// In a tree, two walks from the root to one cell that pass no cell twice
/// pass the same cells.
pub proof fn simple_walks_agree<G: Graph<Node = (usize, usize)>>(
    g: &G,
    open: spec_fn((usize, usize)) -> bool,
    parent: Map<(usize, usize), (usize, usize)>,
    root: (usize, usize),
    v: Seq<(G::Edge, (usize, usize))>,
    w: Seq<(G::Edge, (usize, usize))>,
    j: int,
)
    requires
        steps_by_one(g),
        moves_stay(g, open),
        open(root),
        tree_links(open, parent, root),
        is_walk(g, root, v),
        is_simple(root, v),
        is_walk(g, root, w),
        is_simple(root, w),
        walk_end(root, v) == walk_end(root, w),
        0 <= j <= v.len(),
        j <= w.len(),
    ensures
        walk_node(root, v, v.len() - j) == walk_node(root, w, w.len() - j),
    decreases j,
{
    if j > 0 {
        simple_walks_agree(g, open, parent, root, v, w, j - 1);
        simple_walks_descend(g, open, parent, root, v, v.len() - j + 1);
        simple_walks_descend(g, open, parent, root, w, w.len() - j + 1);
    }
}

/// In a tree there is one walk from the root to a cell that passes no cell
/// twice.
#[verifier::rlimit(100)]
pub proof fn one_simple_walk<G: Graph<Node = (usize, usize), Edge = Plain>>(
    g: &G,
    open: spec_fn((usize, usize)) -> bool,
    parent: Map<(usize, usize), (usize, usize)>,
    root: (usize, usize),
    v: Seq<(Plain, (usize, usize))>,
    w: Seq<(Plain, (usize, usize))>,
)
    requires
        steps_by_one(g),
        moves_stay(g, open),
        open(root),
        tree_links(open, parent, root),
        is_walk(g, root, v),
        is_simple(root, v),
        is_walk(g, root, w),
        is_simple(root, w),
        walk_end(root, v) == walk_end(root, w),
    ensures
        v == w,
{
    if v.len() < w.len() {
        simple_walks_agree(g, open, parent, root, v, w, v.len() as int);
        assert(walk_node(root, w, 0) != walk_node(root, w, w.len() - v.len()));
    } else if w.len() < v.len() {
        simple_walks_agree(g, open, parent, root, v, w, w.len() as int);
        assert(walk_node(root, v, 0) != walk_node(root, v, v.len() - w.len()));
    } else {
        assert forall|i: int| 0 <= i < v.len() implies v[i] == w[i] by {
            simple_walks_agree(g, open, parent, root, v, w, v.len() - i - 1);
            assert(walk_node(root, v, i + 1) == v[i].1);
            assert(walk_node(root, w, i + 1) == w[i].1);
            assert(v[i] == (Plain, v[i].1));
            assert(w[i] == (Plain, w[i].1));
        }
        assert(v =~= w);
    }
}

} // verus!
