//! Depth-first search that backtracks over simple paths: a node is on the
//! path or it is not, and a node that the search backs out of may be entered
//! again another way.

use crate::graph::{
    is_simple, is_walk, leads_to_goal, reachable, steps_view, steps_view_push, walk_end,
    walk_extend, walk_node, walk_suffix, Graph, SearchNode, Steps,
};
use crate::search::{Outcome, Report};
use vstd::prelude::*;

verus! {

/// Whether a walk out of `from` stays clear of the nodes in `avoid`, from
/// its first node to its last.
pub open spec fn avoids<E, N>(from: N, w: Seq<(E, N)>, avoid: Seq<N>) -> bool {
    forall|i: int| 0 <= i <= w.len() ==> !avoid.contains(#[trigger] walk_node(from, w, i))
}

/// No walk leads from `n` to the goal that stays clear of `avoid`.
pub open spec fn blocked<G: Graph>(
    g: &G,
    avoid: Seq<<G::Node as View>::V>,
    n: <G::Node as View>::V,
) -> bool {
    forall|w: Steps<G>|
        is_walk(g, n, w) && walk_end(n, w) == g.goal_view() ==> !#[trigger] avoids(n, w, avoid)
}

/// A node other than the goal, all of whose moves lead to nodes that are
/// blocked once the node itself is to be avoided, is blocked: stated of one
/// walk, by induction on its length.
#[verifier::rlimit(100)]
proof fn no_walk_through_dead_ends<G: Graph>(
    g: &G,
    avoid: Seq<<G::Node as View>::V>,
    n: <G::Node as View>::V,
    w: Steps<G>,
)
    requires
        n != g.goal_view(),
        forall|k: int|
            0 <= k < g.moves(n).len() ==> blocked(g, avoid.push(n), (#[trigger] g.moves(n)[k]).1),
        is_walk(g, n, w),
        walk_end(n, w) == g.goal_view(),
    ensures
        !avoids(n, w, avoid),
    decreases w.len(),
{
    if avoids(n, w, avoid) {
        assert(w.len() > 0);
        let step = w[0];
        assert(g.moves(walk_node(n, w, 0)).contains(step));
        let k = choose|k: int| 0 <= k < g.moves(n).len() && g.moves(n)[k] == step;
        let c = step.1;
        let rest = w.skip(1);
        walk_suffix(g, n, w, 1);
        assert(walk_node(n, w, 1) == c);
        assert(blocked(g, avoid.push(n), c));
        assert(!avoids(c, rest, avoid.push(n)));
        let i = choose|i: int|
            0 <= i <= rest.len() && avoid.push(n).contains(#[trigger] walk_node(c, rest, i));
        assert(walk_node(c, rest, i) == walk_node(n, w, 1 + i));
        let hit = walk_node(n, w, 1 + i);
        let x = choose|x: int| 0 <= x < avoid.push(n).len() && avoid.push(n)[x] == hit;
        if x < avoid.len() {
            assert(avoid[x] == hit);
            assert(avoid.contains(walk_node(n, w, 1 + i)));
        } else {
            assert(hit == n);
            walk_suffix(g, n, w, 1 + i);
            let tail = w.skip(1 + i);
            assert forall|m: int| 0 <= m <= tail.len() implies !avoid.contains(
                #[trigger] walk_node(n, tail, m),
            ) by {
                assert(walk_node(n, tail, m) == walk_node(n, w, 1 + i + m));
            }
            no_walk_through_dead_ends(g, avoid, n, tail);
        }
    }
}

/// A frame of the depth-first search: a node on the current path, the moves
/// out of it, and how many of them have been taken up.
pub struct Frame<N, E> {
    pub node: N,
    pub moves: Vec<(E, N)>,
    pub next: usize,
}

/// The frames of a search as a value, from the start to the node that the
/// search is in.
pub type Frames<G> = Seq<Frame<<G as Graph>::Node, <G as Graph>::Edge>>;

/// The nodes of the first `m` frames: the current path.
pub open spec fn trail<G: Graph>(frames: Frames<G>, m: int) -> Seq<<G::Node as View>::V> {
    Seq::new(m as nat, |i: int| frames[i].node@)
}

/// The number of moves of frame `j` that have been explored to the end: all
/// that were taken up, but for the one that the next frame is exploring.
pub open spec fn explored<G: Graph>(frames: Frames<G>, j: int) -> int {
    if j == frames.len() - 1 {
        frames[j].next as int
    } else {
        frames[j].next - 1
    }
}

/// Move `k` of frame `j` leads to a node from which the goal cannot be
/// reached clear of the path up to frame `j`.
pub open spec fn dead<G: Graph>(g: &G, frames: Frames<G>, j: int, k: int) -> bool {
    blocked(g, trail::<G>(frames, j + 1), g.moves(frames[j].node@)[k].1)
}

/// What holds of frame `j` by itself.
pub open spec fn frame_ok<G: Graph>(g: &G, frames: Frames<G>, j: int) -> bool {
    &&& frames[j].node@ != g.goal_view()
    &&& frames[j].next <= frames[j].moves@.len()
    &&& frames[j].moves@.len() == g.moves(frames[j].node@).len()
    &&& forall|i: int|
        0 <= i < frames[j].moves@.len() ==> (#[trigger] frames[j].moves@[i]).0 == g.moves(
            frames[j].node@,
        )[i].0 && frames[j].moves@[i].1@ == g.moves(frames[j].node@)[i].1
    &&& (j == 0 ==> frames[j].node@ == g.start_view())
    &&& (j > 0 ==> frames[j - 1].next >= 1 && frames[j].node@ == g.moves(frames[j - 1].node@)[frames[j
        - 1].next - 1].1)
    &&& forall|k: int| 0 <= k < explored::<G>(frames, j) ==> #[trigger] dead(g, frames, j, k)
}

/// The invariant of the depth-first search: the frames are a path from the
/// start on which no node occurs twice, and every move explored to the end
/// was a dead end.
pub open spec fn frames_ok<G: Graph>(g: &G, frames: Frames<G>) -> bool {
    &&& forall|j: int| 0 <= j < frames.len() ==> #[trigger] frame_ok(g, frames, j)
    &&& forall|i: int, j: int|
        0 <= i < j < frames.len() ==> (#[trigger] frames[i]).node@ != (#[trigger] frames[j]).node@
}

/// The moves still to take up, over all frames, and one for each frame.
pub open spec fn pending<N, E>(frames: Seq<Frame<N, E>>) -> nat
    decreases frames.len(),
{
    if frames.len() == 0 {
        0
    } else {
        pending(frames.drop_last()) + (frames.last().moves@.len() - frames.last().next) as nat + 1
    }
}

/// Whether `n` is on the current path.
fn on_path<G: Graph>(frames: &Vec<Frame<G::Node, G::Edge>>, n: &G::Node) -> (r: bool)
    ensures
        r == trail::<G>(frames@, frames@.len() as int).contains(n@),
{
    let ghost tr = trail::<G>(frames@, frames@.len() as int);
    let mut i: usize = 0;
    while i < frames.len()
        invariant
            i <= frames@.len(),
            tr == trail::<G>(frames@, frames@.len() as int),
            forall|j: int| 0 <= j < i ==> tr[j] != n@,
        decreases frames@.len() - i,
    {
        if frames[i].node.same(n) {
            assert(tr[i as int] == n@);
            return true;
        }
        i += 1;
    }
    false
}

/// The node that the first `i` moves of a route lead to from the start. A
/// route is a list of moves, each given by its place among the moves out of
/// the node that the moves before it lead to.
pub open spec fn route_node<G: Graph>(g: &G, route: Seq<int>, i: int) -> <G::Node as View>::V
    decreases i,
{
    if i <= 0 {
        g.start_view()
    } else {
        g.moves(route_node(g, route, i - 1))[route[i - 1]].1
    }
}

/// Whether every move of the route is a move out of the node that the moves
/// before it lead to, and the route passes no node twice.
pub open spec fn is_route<G: Graph>(g: &G, route: Seq<int>) -> bool {
    &&& forall|i: int|
        0 <= i < route.len() ==> 0 <= #[trigger] route[i] < g.moves(route_node(g, route, i)).len()
    &&& forall|i: int, j: int|
        0 <= i < j <= route.len() ==> #[trigger] route_node(g, route, i) != #[trigger] route_node(
            g,
            route,
            j,
        )
}

/// More than `n` different routes lead out of the start.
pub open spec fn more_routes_than<G: Graph>(g: &G, n: nat) -> bool {
    exists|s: Seq<Seq<int>>|
        s.len() > n && s.no_duplicates() && forall|i: int|
            0 <= i < s.len() ==> is_route(g, #[trigger] s[i])
}

/// Whether the search enters the route `p` before it takes move `nxt` at the
/// end of the route `cur`: `p` is the beginning of `cur` or all of it, or
/// where the two first differ `p` takes the earlier move.
pub open spec fn comes_before(p: Seq<int>, cur: Seq<int>, nxt: int) -> bool {
    ||| p.len() <= cur.len() && p =~= cur.take(p.len() as int)
    ||| exists|i: int|
        0 <= i < p.len() && i <= cur.len() && p.take(i) =~= cur.take(i) && #[trigger] p[i] < (
        if i < cur.len() {
            cur[i]
        } else {
            nxt
        })
}

/// What the search knows of the routes that it has entered: `log` holds
/// them, each once, and each comes before the move that the search is about
/// to take at the end of `cur`, the route to the last frame.
#[verifier::opaque]
pub open spec fn routes_ok<G: Graph>(
    g: &G,
    frames: Frames<G>,
    log: Seq<Seq<int>>,
    cur: Seq<int>,
) -> bool {
    &&& frames.len() >= 1
    &&& cur.len() == frames.len() - 1
    &&& forall|j: int| 0 <= j < cur.len() ==> #[trigger] cur[j] == frames[j].next - 1
    &&& forall|j: int| 0 <= j <= cur.len() ==> #[trigger] route_node(g, cur, j) == frames[j].node@
    &&& log.no_duplicates()
    &&& forall|i: int|
        0 <= i < log.len() ==> is_route(g, #[trigger] log[i]) && comes_before(
            log[i],
            cur,
            frames.last().next as int,
        )
}

/// The nodes along the first `i` moves of a route depend on those moves
/// alone.
pub proof fn route_node_prefix<G: Graph>(g: &G, a: Seq<int>, b: Seq<int>, i: int)
    requires
        0 <= i <= a.len(),
        i <= b.len(),
        forall|m: int| 0 <= m < i ==> a[m] == b[m],
    ensures
        route_node(g, a, i) == route_node(g, b, i),
    decreases i,
{
    if i > 0 {
        route_node_prefix(g, a, b, i - 1);
    }
}

/// At the outset the search has entered the route without a move.
pub proof fn routes_begin<G: Graph>(g: &G, frames: Frames<G>)
    requires
        frames.len() == 1,
        frames[0].node@ == g.start_view(),
    ensures
        routes_ok(g, frames, seq![Seq::<int>::empty()], Seq::<int>::empty()),
{
    reveal(routes_ok);
    let none = Seq::<int>::empty();
    let log = seq![none];
    assert(none =~= none.take(0));
    assert(comes_before(none, none, frames.last().next as int));
}

/// The route of the move that the search is about to take is a route that
/// it has not entered.
pub proof fn next_route_is_new<G: Graph>(
    g: &G,
    frames: Frames<G>,
    log: Seq<Seq<int>>,
    cur: Seq<int>,
)
    requires
        frames_ok(g, frames),
        routes_ok(g, frames, log, cur),
        frames.last().next < frames.last().moves@.len(),
        !trail::<G>(frames, frames.len() as int).contains(
            g.moves(frames.last().node@)[frames.last().next as int].1,
        ),
    ensures
        is_route(g, cur.push(frames.last().next as int)),
        !log.contains(cur.push(frames.last().next as int)),
        forall|j: int|
            0 <= j <= cur.len() ==> #[trigger] route_node(
                g,
                cur.push(frames.last().next as int),
                j,
            ) == frames[j].node@,
        route_node(g, cur.push(frames.last().next as int), (cur.len() + 1) as int) == g.moves(
            frames.last().node@,
        )[frames.last().next as int].1,
{
    reveal(routes_ok);
    let k = frames.last().next as int;
    let q = cur.push(k);
    let child = g.moves(frames.last().node@)[k].1;
    assert forall|j: int| 0 <= j <= cur.len() implies #[trigger] route_node(g, q, j)
        == frames[j].node@ by {
        route_node_prefix(g, q, cur, j);
        assert(route_node(g, cur, j) == frames[j].node@);
    }
    assert(route_node(g, q, cur.len() as int) == frames.last().node@);
    assert(route_node(g, q, (cur.len() + 1) as int) == child);
    assert forall|i: int| 0 <= i < q.len() implies 0 <= #[trigger] q[i] < g.moves(
        route_node(g, q, i),
    ).len() by {
        assert(frame_ok(g, frames, i));
        assert(route_node(g, q, i) == frames[i].node@);
        if i < cur.len() {
            assert(frame_ok(g, frames, i + 1));
            assert(cur[i] == frames[i].next - 1);
        }
    }
    assert forall|i: int, j: int| 0 <= i < j <= q.len() implies #[trigger] route_node(g, q, i)
        != #[trigger] route_node(g, q, j) by {
        assert(route_node(g, q, i) == frames[i].node@);
        if j <= cur.len() {
            assert(route_node(g, q, j) == frames[j].node@);
            assert(frames[i].node@ != frames[j].node@);
        } else {
            assert(trail::<G>(frames, frames.len() as int)[i] == frames[i].node@);
        }
    }
    if log.contains(q) {
        let i = choose|i: int| 0 <= i < log.len() && log[i] == q;
        assert(comes_before(log[i], cur, k));
        if q.len() <= cur.len() {
        } else {
            let m = choose|m: int|
                0 <= m < q.len() && m <= cur.len() && q.take(m) =~= cur.take(m) && #[trigger] q[m]
                    < (if m < cur.len() {
                    cur[m]
                } else {
                    k
                });
            assert(q[m] == (if m < cur.len() {
                cur[m]
            } else {
                k
            }));
        }
    }
}

/// Passing over a move keeps what the search knows of its routes.
pub proof fn routes_pass<G: Graph>(
    g: &G,
    f0: Frames<G>,
    f1: Frames<G>,
    log: Seq<Seq<int>>,
    cur: Seq<int>,
)
    requires
        routes_ok(g, f0, log, cur),
        f1.len() == f0.len(),
        forall|j: int| 0 <= j < f0.len() ==> (#[trigger] f1[j]).node@ == f0[j].node@,
        forall|j: int| 0 <= j < f0.len() - 1 ==> (#[trigger] f1[j]).next == f0[j].next,
        f1.last().next == f0.last().next + 1,
    ensures
        routes_ok(g, f1, log, cur),
{
    reveal(routes_ok);
    assert forall|j: int| 0 <= j < cur.len() implies #[trigger] cur[j] == f1[j].next - 1 by {
        assert(f1[j].next == f0[j].next);
    }
    assert forall|j: int| 0 <= j <= cur.len() implies #[trigger] route_node(g, cur, j)
        == f1[j].node@ by {
        assert(f1[j].node@ == f0[j].node@);
    }
    assert forall|i: int| 0 <= i < log.len() implies is_route(g, #[trigger] log[i])
        && comes_before(log[i], cur, f1.last().next as int) by {
        let p = log[i];
        assert(comes_before(p, cur, f0.last().next as int));
        if !(p.len() <= cur.len() && p =~= cur.take(p.len() as int)) {
            let m = choose|m: int|
                0 <= m < p.len() && m <= cur.len() && p.take(m) =~= cur.take(m) && #[trigger] p[m]
                    < (if m < cur.len() {
                    cur[m]
                } else {
                    f0.last().next as int
                });
            assert(p[m] < (if m < cur.len() {
                cur[m]
            } else {
                f1.last().next as int
            }));
        }
    }
}

/// Entering a node keeps what the search knows of its routes, with the
/// route to the node for one more.
pub proof fn routes_enter<G: Graph>(
    g: &G,
    f0: Frames<G>,
    f1: Frames<G>,
    log: Seq<Seq<int>>,
    cur: Seq<int>,
)
    requires
        frames_ok(g, f0),
        routes_ok(g, f0, log, cur),
        f0.last().next < f0.last().moves@.len(),
        !trail::<G>(f0, f0.len() as int).contains(
            g.moves(f0.last().node@)[f0.last().next as int].1,
        ),
        f1.len() == f0.len() + 1,
        forall|j: int| 0 <= j < f0.len() ==> (#[trigger] f1[j]).node@ == f0[j].node@,
        forall|j: int| 0 <= j < f0.len() - 1 ==> (#[trigger] f1[j]).next == f0[j].next,
        f1[f0.len() - 1].next == f0.last().next + 1,
        f1.last().node@ == g.moves(f0.last().node@)[f0.last().next as int].1,
        f1.last().next == 0,
    ensures
        routes_ok(
            g,
            f1,
            log.push(cur.push(f0.last().next as int)),
            cur.push(f0.last().next as int),
        ),
{
    next_route_is_new(g, f0, log, cur);
    reveal(routes_ok);
    let k = f0.last().next as int;
    let q = cur.push(k);
    let log1 = log.push(q);
    assert forall|j: int| 0 <= j < q.len() implies #[trigger] q[j] == f1[j].next - 1 by {
        if j < cur.len() {
            assert(cur[j] == f0[j].next - 1);
            assert(f1[j].next == f0[j].next);
        }
    }
    assert forall|j: int| 0 <= j <= q.len() implies #[trigger] route_node(g, q, j)
        == f1[j].node@ by {
        if j <= cur.len() {
            assert(f1[j].node@ == f0[j].node@);
        }
    }
    assert forall|a: int, b: int| 0 <= a < b < log1.len() implies log1[a] != log1[b] by {
        if b == log.len() {
            assert(log.contains(log[a]));
        }
    }
    assert forall|i: int| 0 <= i < log1.len() implies is_route(g, #[trigger] log1[i])
        && comes_before(log1[i], q, f1.last().next as int) by {
        let p = log1[i];
        if i == log.len() {
            assert(p =~= q.take(p.len() as int));
        } else {
            assert(p == log[i]);
            assert(comes_before(p, cur, k));
            if p.len() <= cur.len() && p =~= cur.take(p.len() as int) {
                assert(p =~= q.take(p.len() as int));
            } else {
                let m = choose|m: int|
                    0 <= m < p.len() && m <= cur.len() && p.take(m) =~= cur.take(m)
                        && #[trigger] p[m] < (if m < cur.len() {
                        cur[m]
                    } else {
                        k
                    });
                assert(p.take(m) =~= q.take(m));
                assert(p[m] < (if m < q.len() {
                    q[m]
                } else {
                    0
                }));
            }
        }
    }
}

/// Backing out of a node keeps what the search knows of its routes.
pub proof fn routes_leave<G: Graph>(
    g: &G,
    f0: Frames<G>,
    log: Seq<Seq<int>>,
    cur: Seq<int>,
)
    requires
        frames_ok(g, f0),
        routes_ok(g, f0, log, cur),
        f0.len() >= 2,
    ensures
        routes_ok(g, f0.drop_last(), log, cur.drop_last()),
{
    reveal(routes_ok);
    let f1 = f0.drop_last();
    let c1 = cur.drop_last();
    let last = cur.last();
    assert(frame_ok(g, f0, f0.len() - 1));
    assert(cur[cur.len() - 1] == f0[cur.len() - 1].next - 1);
    assert(f1.last().next == last + 1);
    assert forall|j: int| 0 <= j < c1.len() implies #[trigger] c1[j] == f1[j].next - 1 by {
        assert(cur[j] == f0[j].next - 1);
    }
    assert forall|j: int| 0 <= j <= c1.len() implies #[trigger] route_node(g, c1, j)
        == f1[j].node@ by {
        route_node_prefix(g, c1, cur, j);
        assert(route_node(g, cur, j) == f0[j].node@);
    }
    assert forall|i: int| 0 <= i < log.len() implies is_route(g, #[trigger] log[i])
        && comes_before(log[i], c1, f1.last().next as int) by {
        let p = log[i];
        assert(comes_before(p, cur, f0.last().next as int));
        let at = c1.len() as int;
        if p.len() <= cur.len() && p =~= cur.take(p.len() as int) {
            if p.len() <= c1.len() {
                assert(p =~= c1.take(p.len() as int));
            } else {
                assert(p.take(at) =~= c1.take(at));
                assert(p[at] == last);
            }
        } else {
            let m = choose|m: int|
                0 <= m < p.len() && m <= cur.len() && p.take(m) =~= cur.take(m) && #[trigger] p[m]
                    < (if m < cur.len() {
                    cur[m]
                } else {
                    f0.last().next as int
                });
            if m < at {
                assert(p.take(m) =~= c1.take(m));
                assert(p[m] < c1[m]);
            } else if m == at {
                assert(p.take(m) =~= c1.take(m));
                assert(p[m] < last + 1);
            } else {
                assert(p.take(at) =~= c1.take(at)) by {
                    assert(p.take(m).take(at) =~= p.take(at));
                    assert(cur.take(m).take(at) =~= cur.take(at));
                }
                assert(p[at] == p.take(m)[at]);
                assert(p[at] == last);
            }
        }
    }
}

/// With the route that the search is about to enter, it knows of more
/// routes than it has entered.
pub proof fn one_more_route<G: Graph>(g: &G, frames: Frames<G>, log: Seq<Seq<int>>, cur: Seq<int>)
    requires
        frames_ok(g, frames),
        routes_ok(g, frames, log, cur),
        frames.last().next < frames.last().moves@.len(),
        !trail::<G>(frames, frames.len() as int).contains(
            g.moves(frames.last().node@)[frames.last().next as int].1,
        ),
    ensures
        more_routes_than(g, log.len()),
{
    next_route_is_new(g, frames, log, cur);
    reveal(routes_ok);
    let q = cur.push(frames.last().next as int);
    let all = log.push(q);
    assert forall|a: int, b: int| 0 <= a < b < all.len() implies all[a] != all[b] by {
        if b == log.len() {
            assert(log.contains(log[a]));
        }
    }
    assert forall|i: int| 0 <= i < all.len() implies is_route(g, #[trigger] all[i]) by {
        if i < log.len() {
            assert(all[i] == log[i]);
        }
    }
    assert(all.len() > log.len() && all.no_duplicates());
}

/// What the depth-first search that enters at most `max_visits` states
/// returns.
///
/// A path that it finds leads from the start to the goal and passes no node
/// twice. It reports that there is no path only where the goal cannot be
/// reached, and gives up only when it has entered `max_visits` states and
/// there is one more to enter: where more than `max_visits` routes lead out
/// of the start.
pub open spec fn dfs_result<G: Graph>(
    g: &G,
    max_visits: usize,
    r: Report<G::Edge, G::Node>,
) -> bool {
    &&& r.visited <= max_visits
    &&& match r.outcome {
        Outcome::Found(path) => leads_to_goal(g, steps_view(path@)) && is_simple(
            g.start_view(),
            steps_view(path@),
        ),
        Outcome::NoPath => !reachable(g, g.start_view(), g.goal_view()),
        Outcome::Exhausted => r.visited == max_visits && more_routes_than(g, max_visits as nat),
    }
}

/// One move less to take up in the last frame is less to do.
proof fn pending_step<N, E>(a: Seq<Frame<N, E>>, b: Seq<Frame<N, E>>)
    requires
        a.len() == b.len(),
        a.len() > 0,
        a.drop_last() =~= b.drop_last(),
        a.last().moves@.len() == b.last().moves@.len(),
        a.last().next < a.last().moves@.len(),
        b.last().next == a.last().next + 1,
    ensures
        pending(b) < pending(a),
{
}

/// The path that the frames stand for, with move `k` of the last frame at
/// its end.
#[verifier::rlimit(100)]
fn trace<G: Graph>(g: &G, frames: &Vec<Frame<G::Node, G::Edge>>, k: usize) -> (path: Vec<
    (G::Edge, G::Node),
>)
    requires
        frames_ok(g, frames@),
        frames@.len() >= 1,
        k < frames@[frames@.len() - 1].moves@.len(),
        !trail::<G>(frames@, frames@.len() as int).contains(
            frames@[frames@.len() - 1].moves@[k as int].1@,
        ),
    ensures
        is_walk(g, g.start_view(), steps_view(path@)),
        walk_end(g.start_view(), steps_view(path@)) == frames@[frames@.len()
            - 1].moves@[k as int].1@,
        is_simple(g.start_view(), steps_view(path@)),
{
    let ghost start = g.start_view();
    let ghost tr = trail::<G>(frames@, frames@.len() as int);
    let mut path: Vec<(G::Edge, G::Node)> = Vec::new();
    let depth: usize = frames.len();
    let mut j: usize = 1;
    proof {
        assert(steps_view(path@) =~= Seq::<(G::Edge, <G::Node as View>::V)>::empty());
        assert(frame_ok(g, frames@, 0));
    }
    while j < depth
        invariant
            frames_ok(g, frames@),
            depth == frames@.len(),
            1 <= j <= depth,
            path@.len() == j - 1,
            is_walk(g, start, steps_view(path@)),
            start == g.start_view(),
            forall|m: int|
                0 <= m < j ==> #[trigger] walk_node(start, steps_view(path@), m)
                    == frames@[m].node@,
        decreases depth - j,
    {
        assert(frame_ok(g, frames@, j as int));
        assert(frame_ok(g, frames@, j - 1));
        let e = frames[j - 1].moves[frames[j - 1].next - 1].0;
        let n = frames[j].node.duplicate();
        proof {
            let sv = steps_view(path@);
            assert(walk_end(start, sv) == walk_node(start, sv, j - 1));
            assert(g.moves(frames@[j - 1].node@)[frames@[j - 1].next - 1] == (e, n@));
            walk_extend(g, start, sv, (e, n@));
            steps_view_push(path@, e, n);
            let sv2 = sv.push((e, n@));
            assert forall|m: int| 0 <= m < j + 1 implies #[trigger] walk_node(start, sv2, m)
                == frames@[m].node@ by {
                if m < j {
                    assert(walk_node(start, sv, m) == frames@[m].node@);
                    if m > 0 {
                        assert(sv2[m - 1] == sv[m - 1]);
                    }
                }
            }
        }
        path.push((e, n));
        j += 1;
    }
    assert(frame_ok(g, frames@, depth - 1));
    let e = frames[depth - 1].moves[k].0;
    let n = frames[depth - 1].moves[k].1.duplicate();
    proof {
        let sv = steps_view(path@);
        assert(walk_end(start, sv) == walk_node(start, sv, depth - 1));
        assert(g.moves(frames@[depth - 1].node@)[k as int] == (e, n@));
        walk_extend(g, start, sv, (e, n@));
        steps_view_push(path@, e, n);
        let sv2 = sv.push((e, n@));
        assert forall|m: int| 0 <= m < depth implies #[trigger] walk_node(start, sv2, m)
            == frames@[m].node@ by {
            assert(walk_node(start, sv, m) == frames@[m].node@);
            if m > 0 {
                assert(sv2[m - 1] == sv[m - 1]);
            }
        }
        assert forall|a: int, b: int| 0 <= a < b <= sv2.len() implies #[trigger] walk_node(
            start,
            sv2,
            a,
        ) != #[trigger] walk_node(start, sv2, b) by {
            assert(walk_node(start, sv2, a) == frames@[a].node@);
            if b < depth {
                assert(walk_node(start, sv2, b) == frames@[b].node@);
            } else {
                assert(walk_node(start, sv2, b) == n@);
                assert(tr[a] == frames@[a].node@);
            }
        }
    }
    path.push((e, n));
    path
}

/// Depth-first search from the start of `graph` to its goal, entering at most
/// `max_visits` states.
///
/// The search follows the moves in the order in which `neighbors` lists them,
/// never steps onto a node of its current path, and forgets a node when it
/// backs out of it: it tries every simple path before it gives up, and the
/// path it finds is the first in that order, not a shortest one.
#[verifier::rlimit(100)]
pub fn dfs_search<G: Graph>(graph: &G, max_visits: usize) -> (r: Report<G::Edge, G::Node>)
    requires
        graph.well_formed(),
    ensures
        dfs_result(graph, max_visits, r),
{
    let start = graph.start();
    let goal = graph.goal();
    if start.same(&goal) {
        let path: Vec<(G::Edge, G::Node)> = Vec::new();
        proof {
            assert(steps_view(path@) =~= Seq::<(G::Edge, <G::Node as View>::V)>::empty());
        }
        return Report { outcome: Outcome::Found(path), visited: 0 };
    }
    if max_visits == 0 {
        proof {
            let s = seq![Seq::<int>::empty()];
            assert(is_route(graph, s[0]));
            assert(s.len() > 0 && s.no_duplicates());
        }
        return Report { outcome: Outcome::Exhausted, visited: 0 };
    }
    let first = graph.neighbors(&start);
    let mut frames: Vec<Frame<G::Node, G::Edge>> = Vec::new();
    frames.push(Frame { node: start, moves: first, next: 0 });
    let mut visits: usize = 1;
    let ghost mut log: Seq<Seq<int>> = seq![Seq::<int>::empty()];
    let ghost mut cur: Seq<int> = Seq::<int>::empty();
    proof {
        assert(frame_ok(graph, frames@, 0));
        routes_begin(graph, frames@);
    }
    loop
        invariant
            graph.well_formed(),
            goal@ == graph.goal_view(),
            frames_ok(graph, frames@),
            1 <= visits <= max_visits,
            log.len() == visits,
            frames@.len() > 0 ==> routes_ok(graph, frames@, log, cur),
            frames@.len() == 0 ==> blocked(
                graph,
                Seq::<<G::Node as View>::V>::empty(),
                graph.start_view(),
            ),
        decreases max_visits - visits, pending(frames@),
    {
        let ghost f0 = frames@;
        let depth: usize = frames.len();
        if depth == 0 {
            proof {
                if reachable(graph, graph.start_view(), graph.goal_view()) {
                    let w = choose|w: Steps<G>|
                        is_walk(graph, graph.start_view(), w) && walk_end(graph.start_view(), w)
                            == graph.goal_view();
                    assert(avoids(
                        graph.start_view(),
                        w,
                        Seq::<<G::Node as View>::V>::empty(),
                    ));
                }
            }
            return Report { outcome: Outcome::NoPath, visited: visits };
        }
        let top: usize = depth - 1;
        assert(frame_ok(graph, f0, top as int));
        if frames[top].next < frames[top].moves.len() {
            let k: usize = frames[top].next;
            let ghost to = frames@[top as int].moves@[k as int].1@;
            if on_path::<G>(&frames, &frames[top].moves[k].1) {
                frames[top].next = k + 1;
                proof {
                    let f1 = frames@;
                    routes_pass(graph, f0, f1, log, cur);
                    pending_step(f0, f1);
                    assert forall|j: int| 0 <= j < f1.len() implies #[trigger] frame_ok(
                        graph,
                        f1,
                        j,
                    ) by {
                        assert(frame_ok(graph, f0, j));
                        assert(trail::<G>(f1, j + 1) =~= trail::<G>(f0, j + 1));
                        assert forall|m: int|
                            0 <= m < explored::<G>(f1, j) implies #[trigger] dead(
                            graph,
                            f1,
                            j,
                            m,
                        ) by {
                            if j == top && m == k {
                                let tr = trail::<G>(f1, j + 1);
                                assert forall|w: Steps<G>|
                                    is_walk(graph, to, w) && walk_end(to, w)
                                        == graph.goal_view() implies !#[trigger] avoids(
                                    to,
                                    w,
                                    tr,
                                ) by {
                                    assert(tr.contains(walk_node(to, w, 0)));
                                }
                            } else {
                                assert(dead(graph, f0, j, m));
                            }
                        }
                    }
                }
            } else if frames[top].moves[k].1.same(&goal) {
                let path = trace(graph, &frames, k);
                return Report { outcome: Outcome::Found(path), visited: visits };
            } else if visits >= max_visits {
                proof {
                    one_more_route(graph, f0, log, cur);
                }
                return Report { outcome: Outcome::Exhausted, visited: visits };
            } else {
                let n = frames[top].moves[k].1.duplicate();
                let moves = graph.neighbors(&n);
                frames[top].next = k + 1;
                frames.push(Frame { node: n, moves, next: 0 });
                visits += 1;
                proof {
                    let f1 = frames@;
                    routes_enter(graph, f0, f1, log, cur);
                    log = log.push(cur.push(k as int));
                    cur = cur.push(k as int);
                    assert forall|j: int| 0 <= j < f1.len() implies #[trigger] frame_ok(
                        graph,
                        f1,
                        j,
                    ) by {
                        if j <= top {
                            assert(frame_ok(graph, f0, j));
                            assert(trail::<G>(f1, j + 1) =~= trail::<G>(f0, j + 1));
                            assert forall|m: int|
                                0 <= m < explored::<G>(f1, j) implies #[trigger] dead(
                                graph,
                                f1,
                                j,
                                m,
                            ) by {
                                assert(dead(graph, f0, j, m));
                            }
                        }
                    }
                    assert forall|i: int, j: int| 0 <= i < j < f1.len() implies (
                    #[trigger] f1[i]).node@ != (#[trigger] f1[j]).node@ by {
                        if j == f1.len() - 1 {
                            assert(trail::<G>(f0, f0.len() as int)[i] == f0[i].node@);
                        } else {
                            assert(f0[i].node@ != f0[j].node@);
                        }
                    }
                }
            }
        } else {
            let gone = frames.pop();
            proof {
                let f1 = frames@;
                assert(f1 =~= f0.drop_last());
                if f0.len() >= 2 {
                    routes_leave(graph, f0, log, cur);
                    cur = cur.drop_last();
                }
                let n = f0[top as int].node@;
                let avoid = trail::<G>(f0, top as int);
                assert(avoid.push(n) =~= trail::<G>(f0, top + 1));
                assert forall|m: int| 0 <= m < graph.moves(n).len() implies blocked(
                    graph,
                    avoid.push(n),
                    (#[trigger] graph.moves(n)[m]).1,
                ) by {
                    assert(dead(graph, f0, top as int, m));
                }
                assert forall|w: Steps<G>|
                    is_walk(graph, n, w) && walk_end(n, w)
                        == graph.goal_view() implies !#[trigger] avoids(n, w, avoid) by {
                    no_walk_through_dead_ends(graph, avoid, n, w);
                }
                assert(blocked(graph, avoid, n));
                if top == 0 {
                    assert(avoid =~= Seq::<<G::Node as View>::V>::empty());
                }
                assert forall|j: int| 0 <= j < f1.len() implies #[trigger] frame_ok(
                    graph,
                    f1,
                    j,
                ) by {
                    assert(frame_ok(graph, f0, j));
                    assert(trail::<G>(f1, j + 1) =~= trail::<G>(f0, j + 1));
                    assert forall|m: int|
                        0 <= m < explored::<G>(f1, j) implies #[trigger] dead(graph, f1, j, m) by {
                        if j == top - 1 && m == f0[j].next - 1 {
                            assert(trail::<G>(f1, j + 1) =~= avoid);
                        } else {
                            assert(dead(graph, f0, j, m));
                        }
                    }
                }
            }
        }
    }
}

} // verus!
