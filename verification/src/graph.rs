//! The interface between a puzzle model and the search engines, and the
//! vocabulary in which the engines' results are stated: walks, their cost,
//! and reachability.

use vstd::prelude::*;

verus! {

/// What the engines need from a node value: to compare two of them, to copy
/// one and to take its digest, all by the node's view.
pub trait SearchNode: View + Sized {
    /// The digest of a node: a number that the search table files the node
    /// under. Nodes with one view have one digest; the fewer nodes share a
    /// digest, the faster the table finds a node.
    spec fn digest_of(v: Self::V) -> u64;

    /// Computes `digest_of`.
    fn digest(&self) -> (h: u64)
        ensures
            h == Self::digest_of(self@),
    ;

    /// Whether two nodes are the same state.
    fn same(&self, other: &Self) -> (r: bool)
        ensures
            r == (self@ == other@),
    ;

    /// A copy of the node.
    fn duplicate(&self) -> (r: Self)
        ensures
            r@ == self@,
    ;
}

/// A search space: a start, a goal, the moves out of each node, and a
/// distance that serves both as the cost of a move and as the estimate of
/// what is left to the goal.
pub trait Graph {
    /// A state of the puzzle.
    type Node: SearchNode;

    /// The label of a move.
    type Edge: Copy;

    /// The invariant of the model; every operation relies on it.
    spec fn well_formed(&self) -> bool;

    /// Where the search begins.
    spec fn start_view(&self) -> <Self::Node as View>::V;

    /// Where the search is to end.
    spec fn goal_view(&self) -> <Self::Node as View>::V;

    /// The legal moves out of `n`, in the order in which `neighbors` lists them.
    spec fn moves(&self, n: <Self::Node as View>::V) -> Seq<(Self::Edge, <Self::Node as View>::V)>;

    /// The distance between two nodes.
    spec fn gap(&self, a: <Self::Node as View>::V, b: <Self::Node as View>::V) -> nat;

    /// Where the search begins.
    fn start(&self) -> (n: Self::Node)
        requires
            self.well_formed(),
        ensures
            n@ == self.start_view(),
    ;

    /// Where the search is to end.
    fn goal(&self) -> (n: Self::Node)
        requires
            self.well_formed(),
        ensures
            n@ == self.goal_view(),
    ;

    /// Every state that one legal move leads to from `n`, with the move's label.
    fn neighbors(&self, n: &Self::Node) -> (out: Vec<(Self::Edge, Self::Node)>)
        requires
            self.well_formed(),
        ensures
            out@.len() == self.moves(n@).len(),
            forall|i: int|
                0 <= i < out@.len() ==> (#[trigger] out@[i]).0 == self.moves(n@)[i].0
                    && out@[i].1@ == self.moves(n@)[i].1,
    ;

    /// The distance between two nodes: what a move from one to the other
    /// costs, and an estimate of what it costs to get from one to the other.
    fn distance(&self, a: &Self::Node, b: &Self::Node) -> (d: usize)
        requires
            self.well_formed(),
        ensures
            d == self.gap(a@, b@),
    ;
}

/// The node in which step `i` of a walk from `from` begins.
pub open spec fn walk_node<E, N>(from: N, steps: Seq<(E, N)>, i: int) -> N {
    if i <= 0 {
        from
    } else {
        steps[i - 1].1
    }
}

/// Whether `steps` is a walk out of `from`: each step is a legal move out of
/// the node that the step before it reached.
pub open spec fn is_walk<G: Graph>(
    g: &G,
    from: <G::Node as View>::V,
    steps: Seq<(G::Edge, <G::Node as View>::V)>,
) -> bool {
    forall|i: int|
        0 <= i < steps.len() ==> g.moves(walk_node(from, steps, i)).contains(#[trigger] steps[i])
}

/// The node in which a walk ends.
pub open spec fn walk_end<E, N>(from: N, steps: Seq<(E, N)>) -> N {
    walk_node(from, steps, steps.len() as int)
}

/// The sum of the distances over the first `n` steps of a walk.
pub open spec fn walk_cost<G: Graph>(
    g: &G,
    from: <G::Node as View>::V,
    steps: Seq<(G::Edge, <G::Node as View>::V)>,
    n: int,
) -> nat
    decreases n,
{
    if n <= 0 {
        0
    } else {
        walk_cost(g, from, steps, n - 1) + g.gap(walk_node(from, steps, n - 1), steps[n - 1].1)
    }
}

/// The sum of the distances over all the steps of a walk.
pub open spec fn walk_total<G: Graph>(
    g: &G,
    from: <G::Node as View>::V,
    steps: Seq<(G::Edge, <G::Node as View>::V)>,
) -> nat {
    walk_cost(g, from, steps, steps.len() as int)
}

/// Whether some walk leads from `from` to `to`.
pub open spec fn reachable<G: Graph>(
    g: &G,
    from: <G::Node as View>::V,
    to: <G::Node as View>::V,
) -> bool {
    exists|steps: Seq<(G::Edge, <G::Node as View>::V)>|
        is_walk(g, from, steps) && walk_end(from, steps) == to
}

/// The views of the steps of a path.
pub open spec fn steps_view<E, N: View>(path: Seq<(E, N)>) -> Seq<(E, N::V)> {
    Seq::new(path.len(), |i: int| (path[i].0, path[i].1@))
}

/// The steps of a walk in `G` as a value: the label of each move and the
/// view of the node that it leads to.
pub type Steps<G> = Seq<(<G as Graph>::Edge, <<G as Graph>::Node as View>::V)>;

/// One more step at the end of a walk gives a walk, and the cost of the
/// steps before it stays.
pub proof fn walk_extend<G: Graph>(
    g: &G,
    from: <G::Node as View>::V,
    steps: Steps<G>,
    step: (G::Edge, <G::Node as View>::V),
)
    requires
        is_walk(g, from, steps),
        g.moves(walk_end(from, steps)).contains(step),
    ensures
        is_walk(g, from, steps.push(step)),
        walk_end(from, steps.push(step)) == step.1,
        walk_total(g, from, steps.push(step)) == walk_total(g, from, steps) + g.gap(
            walk_end(from, steps),
            step.1,
        ),
{
    let s2 = steps.push(step);
    assert forall|i: int| 0 <= i < s2.len() implies g.moves(walk_node(from, s2, i)).contains(
        #[trigger] s2[i],
    ) by {
        if i < steps.len() {
            assert(s2[i] == steps[i]);
            assert(walk_node(from, s2, i) == walk_node(from, steps, i));
        }
    }
    walk_cost_prefix(g, from, steps, s2, steps.len() as int);
}

/// The cost of the first `n` steps depends on those steps alone.
pub proof fn walk_cost_prefix<G: Graph>(
    g: &G,
    from: <G::Node as View>::V,
    a: Steps<G>,
    b: Steps<G>,
    n: int,
)
    requires
        n <= a.len(),
        n <= b.len(),
        forall|i: int| 0 <= i < n ==> a[i] == b[i],
    ensures
        walk_cost(g, from, a, n) == walk_cost(g, from, b, n),
    decreases n,
{
    if n > 0 {
        walk_cost_prefix(g, from, a, b, n - 1);
        assert(walk_node(from, a, n - 1) == walk_node(from, b, n - 1));
    }
}

/// A node that one move leads to from a reachable node is reachable.
pub proof fn reachable_step<G: Graph>(
    g: &G,
    from: <G::Node as View>::V,
    mid: <G::Node as View>::V,
    step: (G::Edge, <G::Node as View>::V),
)
    requires
        reachable(g, from, mid),
        g.moves(mid).contains(step),
    ensures
        reachable(g, from, step.1),
{
    let steps = choose|steps: Steps<G>| is_walk(g, from, steps) && walk_end(from, steps) == mid;
    walk_extend(g, from, steps, step);
    assert(is_walk(g, from, steps.push(step)) && walk_end(from, steps.push(step)) == step.1);
}

/// Every node is reachable from itself.
pub proof fn reachable_self<G: Graph>(g: &G, from: <G::Node as View>::V)
    ensures
        reachable(g, from, from),
{
    let steps = Seq::<(G::Edge, <G::Node as View>::V)>::empty();
    assert(is_walk(g, from, steps) && walk_end(from, steps) == from);
}

/// The steps of a path with one more step at its end, viewed.
pub proof fn steps_view_push<E, N: View>(path: Seq<(E, N)>, e: E, n: N)
    ensures
        steps_view(path.push((e, n))) == steps_view(path).push((e, n@)),
{
    assert(steps_view(path.push((e, n))) =~= steps_view(path).push((e, n@)));
}

/// Whether `w` is a walk from the start to the goal.
pub open spec fn leads_to_goal<G: Graph>(g: &G, w: Steps<G>) -> bool {
    is_walk(g, g.start_view(), w) && walk_end(g.start_view(), w) == g.goal_view()
}

/// What is left of a walk after its first `i` steps is a walk out of the
/// node that those steps reach.
pub proof fn walk_suffix<G: Graph>(g: &G, from: <G::Node as View>::V, w: Steps<G>, i: int)
    requires
        is_walk(g, from, w),
        0 <= i <= w.len(),
    ensures
        is_walk(g, walk_node(from, w, i), w.skip(i)),
        walk_end(walk_node(from, w, i), w.skip(i)) == walk_end(from, w),
        forall|m: int|
            0 <= m <= w.len() - i ==> #[trigger] walk_node(walk_node(from, w, i), w.skip(i), m)
                == walk_node(from, w, i + m),
{
    let mid = walk_node(from, w, i);
    let r = w.skip(i);
    assert forall|m: int| 0 <= m <= w.len() - i implies #[trigger] walk_node(mid, r, m)
        == walk_node(from, w, i + m) by {
        if m > 0 {
            assert(r[m - 1] == w[i + m - 1]);
        }
    }
    assert forall|m: int| 0 <= m < r.len() implies g.moves(walk_node(mid, r, m)).contains(
        #[trigger] r[m],
    ) by {
        assert(walk_node(mid, r, m) == walk_node(from, w, i + m));
        assert(r[m] == w[i + m]);
    }
    assert(walk_node(mid, r, r.len() as int) == walk_node(from, w, i + r.len()));
}

/// No node occurs twice on a walk out of `from`.
pub open spec fn is_simple<E, N>(from: N, w: Seq<(E, N)>) -> bool {
    forall|i: int, j: int|
        0 <= i < j <= w.len() ==> #[trigger] walk_node(from, w, i) != #[trigger] walk_node(
            from,
            w,
            j,
        )
}

} // verus!
