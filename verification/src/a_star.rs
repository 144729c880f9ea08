//! A* with lazy deletion: the frontier may hold several entries for one
//! node, and the stale ones are discarded as they leave it.

use crate::frontier::Frontier;
use crate::graph::{
    is_simple, is_walk, leads_to_goal, reachable, reachable_self, reachable_step, steps_view,
    steps_view_push, walk_cost, walk_end, walk_extend, walk_node, walk_total, Graph, SearchNode, Steps,
};
use crate::search::{Outcome, Report};
use std::collections::HashMap;
use vstd::multiset::Multiset;
use vstd::prelude::*;

verus! {

/// An entry of the A* search table.
pub struct Entry<N, E> {
    pub node: N,
    /// Set when the node has been expanded at its present cost.
    pub finalized: bool,
    /// The slot of the predecessor and the label of the move from it; `None`
    /// for the start.
    pub link: Option<(usize, E)>,
    /// The cost from the start, which stops at `usize::MAX`.
    pub cost: usize,
    /// The cost from the start plus the estimate to the goal, which stops at
    /// `usize::MAX`.
    pub priority: usize,
    /// When the entry was last written.
    pub stamp: Ghost<nat>,
}

/// The search table as a value: the entries in the order in which their
/// nodes were first met.
pub type Table<G> = Seq<Entry<<G as Graph>::Node, <G as Graph>::Edge>>;

/// `x`, stopped at `usize::MAX`.
pub open spec fn capped(x: int) -> int {
    if x > usize::MAX {
        usize::MAX as int
    } else {
        x
    }
}

/// What holds of slot `i` of the table by itself and with its predecessor.
pub open spec fn slot_ok<G: Graph>(g: &G, t: Table<G>, i: int) -> bool {
    &&& t[i].priority == capped(t[i].cost + g.gap(t[i].node@, g.goal_view()))
    &&& reachable(g, g.start_view(), t[i].node@)
    &&& (t[i].finalized ==> t[i].node@ != g.goal_view())
    &&& match t[i].link {
        None => i == 0,
        Some((p, e)) => {
            &&& i != 0
            &&& p < t.len()
            &&& g.moves(t[p as int].node@).contains((e, t[i].node@))
            &&& (t[i].cost == usize::MAX || t[p as int].cost + g.gap(
                t[p as int].node@,
                t[i].node@,
            ) <= t[i].cost)
            &&& t[p as int].cost <= t[i].cost
            &&& (t[p as int].cost < t[i].cost || t[p as int].stamp@ < t[i].stamp@)
        },
    }
}

/// The invariant of the search table: the start sits in slot 0 at cost 0, no
/// node has two slots, and every slot is in order.
pub open spec fn table_ok<G: Graph>(g: &G, t: Table<G>) -> bool {
    &&& t.len() >= 1
    &&& t[0].node@ == g.start_view()
    &&& t[0].cost == 0
    &&& forall|i: int, j: int|
        0 <= i < j < t.len() ==> (#[trigger] t[i]).node@ != (#[trigger] t[j]).node@
    &&& forall|i: int| 0 <= i < t.len() ==> #[trigger] slot_ok(g, t, i)
}

/// The priority that the node `to` has when it is reached from slot `i`.
pub open spec fn priority_through<G: Graph>(
    g: &G,
    t: Table<G>,
    i: int,
    to: <G::Node as View>::V,
) -> int {
    capped(capped(t[i].cost + g.gap(t[i].node@, to)) + g.gap(to, g.goal_view()))
}

/// Move `k` out of the node in slot `i` leads to a node in the table whose
/// priority is no more than the priority that it has through slot `i`.
pub open spec fn relaxed<G: Graph>(g: &G, t: Table<G>, i: int, k: int) -> bool {
    exists|j: int|
        0 <= j < t.len() && (#[trigger] t[j]).node@ == g.moves(t[i].node@)[k].1 && t[j].priority
            <= priority_through(g, t, i, t[j].node@)
}

/// The first `n` moves out of the node in slot `i` are relaxed.
pub open spec fn relaxed_upto<G: Graph>(g: &G, t: Table<G>, i: int, n: int) -> bool {
    forall|k: int| 0 <= k < n ==> #[trigger] relaxed(g, t, i, k)
}

/// Every finalized slot has all its moves relaxed; the slot `busy`, which is
/// being expanded, its first `done` moves.
pub open spec fn closure_ok<G: Graph>(g: &G, t: Table<G>, busy: int, done: int) -> bool {
    forall|i: int|
        0 <= i < t.len() && (#[trigger] t[i]).finalized ==> relaxed_upto(
            g,
            t,
            i,
            if i == busy {
                done
            } else {
                g.moves(t[i].node@).len() as int
            },
        )
}

/// Every pair in the frontier names a slot and is no cheaper than the slot
/// is now, and every slot that is not finalized has a pair at its priority.
pub open spec fn frontier_ok<N, E>(t: Seq<Entry<N, E>>, f: Multiset<(usize, usize)>) -> bool {
    &&& forall|x: (usize, usize)|
        #[trigger] f.contains(x) ==> x.1 < t.len() && t[x.1 as int].priority <= x.0
    &&& forall|i: int|
        0 <= i < t.len() && !(#[trigger] t[i]).finalized ==> f.contains(
            (t[i].priority, i as usize),
        )
}

/// Every stamp in the table is older than `clock`.
pub open spec fn stamps_before<N, E>(t: Seq<Entry<N, E>>, clock: nat) -> bool {
    forall|i: int| 0 <= i < t.len() ==> (#[trigger] t[i]).stamp@ < clock
}

/// The sum of the priorities in the table.
pub open spec fn priority_sum<N, E>(t: Seq<Entry<N, E>>) -> nat
    decreases t.len(),
{
    if t.len() == 0 {
        0
    } else {
        priority_sum(t.drop_last()) + t.last().priority as nat
    }
}

/// One more entry adds its priority to the sum.
proof fn priority_sum_push<N, E>(t: Seq<Entry<N, E>>, e: Entry<N, E>)
    ensures
        priority_sum(t.push(e)) == priority_sum(t) + e.priority,
{
    assert(t.push(e).drop_last() =~= t);
}

/// An entry that is written anew changes the sum by what its priority
/// changes.
proof fn priority_sum_update<N, E>(t: Seq<Entry<N, E>>, i: int, e: Entry<N, E>)
    requires
        0 <= i < t.len(),
    ensures
        priority_sum(t.update(i, e)) == priority_sum(t) - t[i].priority + e.priority,
    decreases t.len(),
{
    let u = t.update(i, e);
    if i == t.len() - 1 {
        assert(u.drop_last() =~= t.drop_last());
    } else {
        assert(u.drop_last() =~= t.drop_last().update(i, e));
        priority_sum_update(t.drop_last(), i, e);
    }
}

/// The digest of the node in slot `i` of the table.
pub open spec fn digest_at<G: Graph>(t: Table<G>, i: int) -> u64 {
    G::Node::digest_of(t[i].node@)
}

/// Whether the index files the slots of the table: each slot under the
/// digest of its node, and nothing but slots.
pub open spec fn index_ok<G: Graph>(t: Table<G>, index: Map<u64, Vec<usize>>) -> bool {
    &&& forall|i: int|
        0 <= i < t.len() ==> index.contains_key(#[trigger] digest_at::<G>(t, i)) && index[digest_at::<
            G,
        >(t, i)]@.contains(i as usize)
    &&& forall|h: u64, j: int|
        index.contains_key(h) && 0 <= j < index[h]@.len() ==> (#[trigger] index[h]@[j]) < t.len()
}

/// The slot of `n` in the table, if it has one: the one among the slots
/// filed under the digest of `n` whose node is `n`.
#[verifier::rlimit(100)]
fn find<G: Graph>(
    table: &Vec<Entry<G::Node, G::Edge>>,
    index: &HashMap<u64, Vec<usize>>,
    n: &G::Node,
) -> (r: Option<usize>)
    requires
        index_ok::<G>(table@, index@),
    ensures
        match r {
            Some(i) => i < table@.len() && table@[i as int].node@ == n@,
            None => forall|i: int| 0 <= i < table@.len() ==> (#[trigger] table@[i]).node@ != n@,
        },
{
    broadcast use vstd::std_specs::hash::group_hash_axioms;

    let h: u64 = n.digest();
    let slots: usize = table.len();
    match index.get(&h) {
        None => {
            assert forall|i: int| 0 <= i < table@.len() implies (#[trigger] table@[i]).node@
                != n@ by {
                assert(index@.contains_key(digest_at::<G>(table@, i)));
            }
            None
        },
        Some(list) => {
            let mut k: usize = 0;
            while k < list.len()
                invariant
                    k <= list@.len(),
                    slots == table@.len(),
                    h == G::Node::digest_of(n@),
                    index@.contains_key(h),
                    list@ == index@[h]@,
                    index_ok::<G>(table@, index@),
                    forall|m: int|
                        0 <= m < k ==> table@[(#[trigger] list@[m]) as int].node@ != n@,
                decreases list@.len() - k,
            {
                let j: usize = list[k];
                if table[j].node.same(n) {
                    return Some(j);
                }
                k += 1;
            }
            assert forall|i: int| 0 <= i < table@.len() implies (#[trigger] table@[i]).node@
                != n@ by {
                if table@[i].node@ == n@ {
                    assert(i < slots);
                    assert(digest_at::<G>(table@, i) == h);
                    assert(index@[digest_at::<G>(table@, i)]@.contains(i as usize));
                    let m = choose|m: int| 0 <= m < list@.len() && list@[m] == i as usize;
                    assert(table@[list@[m] as int].node@ != n@);
                }
            }
            None
        },
    }
}

/// Files the slot `slot` under the digest `h`.
fn file(index: &mut HashMap<u64, Vec<usize>>, h: u64, slot: usize)
    ensures
        final(index)@.contains_key(h),
        final(index)@[h]@ == (if old(index)@.contains_key(h) {
            old(index)@[h]@
        } else {
            Seq::<usize>::empty()
        }).push(slot),
        forall|k: u64|
            k != h ==> (#[trigger] final(index)@.contains_key(k)) == old(index)@.contains_key(k)
                && (final(index)@.contains_key(k) ==> final(index)@[k] == old(index)@[k]),
{
    broadcast use vstd::std_specs::hash::group_hash_axioms;

    let mut list: Vec<usize> = match index.remove(&h) {
        Some(list) => list,
        None => Vec::new(),
    };
    list.push(slot);
    index.insert(h, list);
}

/// Filing a new slot keeps the index in order.
#[verifier::rlimit(100)]
proof fn filed_in_order<G: Graph>(
    t0: Table<G>,
    t1: Table<G>,
    i0: Map<u64, Vec<usize>>,
    i1: Map<u64, Vec<usize>>,
)
    requires
        index_ok::<G>(t0, i0),
        t1.len() == t0.len() + 1,
        t1.len() <= usize::MAX,
        forall|i: int| 0 <= i < t0.len() ==> (#[trigger] t1[i]).node@ == t0[i].node@,
        i1.contains_key(digest_at::<G>(t1, t0.len() as int)),
        i1[digest_at::<G>(t1, t0.len() as int)]@ == (if i0.contains_key(
            digest_at::<G>(t1, t0.len() as int),
        ) {
            i0[digest_at::<G>(t1, t0.len() as int)]@
        } else {
            Seq::<usize>::empty()
        }).push(t0.len() as usize),
        forall|k: u64|
            k != digest_at::<G>(t1, t0.len() as int) ==> (#[trigger] i1.contains_key(k))
                == i0.contains_key(k) && (i1.contains_key(k) ==> i1[k] == i0[k]),
    ensures
        index_ok::<G>(t1, i1),
{
    let slot = t0.len() as int;
    let h = digest_at::<G>(t1, slot);
    let before = if i0.contains_key(h) {
        i0[h]@
    } else {
        Seq::<usize>::empty()
    };
    assert(i1[h]@ == before.push(slot as usize));
    assert forall|i: int| 0 <= i < t1.len() implies i1.contains_key(
        #[trigger] digest_at::<G>(t1, i),
    ) && i1[digest_at::<G>(t1, i)]@.contains(i as usize) by {
        if i == slot {
            assert(before.push(slot as usize)[before.len() as int] == slot as usize);
            assert(i1[h]@.contains(i as usize));
        } else {
            assert(t1[i].node@ == t0[i].node@);
            let d = digest_at::<G>(t0, i);
            assert(digest_at::<G>(t1, i) == d);
            assert(i0.contains_key(d) && i0[d]@.contains(i as usize));
            if d == h {
                let m = choose|m: int| 0 <= m < before.len() && before[m] == i as usize;
                assert(before.push(slot as usize)[m] == i as usize);
                assert(i1[h]@.contains(i as usize));
            } else {
                assert(i1.contains_key(d) == i0.contains_key(d));
                assert(i1[d] == i0[d]);
            }
        }
    }
    assert forall|k: u64, j: int| i1.contains_key(k) && 0 <= j < i1[k]@.len() implies (
    #[trigger] i1[k]@[j]) < t1.len() by {
        if k == h {
            if j < before.len() {
                assert(i1[k]@[j] == before[j]);
                assert(i0[h]@[j] < t0.len());
            }
        } else {
            assert(i0[k]@[j] < t0.len());
        }
    }
}

/// Writing an entry anew in its slot keeps the index in order.
proof fn rewritten_in_order<G: Graph>(t0: Table<G>, t1: Table<G>, index: Map<u64, Vec<usize>>)
    requires
        index_ok::<G>(t0, index),
        t1.len() == t0.len(),
        t1.len() <= usize::MAX,
        forall|i: int| 0 <= i < t0.len() ==> (#[trigger] t1[i]).node@ == t0[i].node@,
    ensures
        index_ok::<G>(t1, index),
{
    assert forall|i: int| 0 <= i < t1.len() implies index.contains_key(
        #[trigger] digest_at::<G>(t1, i),
    ) && index[digest_at::<G>(t1, i)]@.contains(i as usize) by {
        assert(t1[i].node@ == t0[i].node@);
        assert(digest_at::<G>(t1, i) == digest_at::<G>(t0, i));
    }
}

/// Whether slot `a` comes before slot `b` in the order in which a chain of
/// predecessors runs: at a lower cost, or at the same cost and written
/// earlier.
pub open spec fn ahead_of<N, E>(t: Seq<Entry<N, E>>, a: int, b: int) -> bool {
    t[a].cost < t[b].cost || (t[a].cost == t[b].cost && t[a].stamp@ < t[b].stamp@)
}

/// The walk from the start to the node in slot `at`, read off the
/// predecessor links.
#[verifier::rlimit(100)]
fn rebuild<G: Graph>(g: &G, table: &Vec<Entry<G::Node, G::Edge>>, at: usize) -> (path: Vec<
    (G::Edge, G::Node),
>)
    requires
        table_ok(g, table@),
        at < table@.len(),
    ensures
        is_walk(g, g.start_view(), steps_view(path@)),
        walk_end(g.start_view(), steps_view(path@)) == table@[at as int].node@,
        table@[at as int].cost == usize::MAX || walk_total(g, g.start_view(), steps_view(path@))
            <= table@[at as int].cost,
        is_simple(g.start_view(), steps_view(path@)),
{
    let mut chain: Vec<usize> = Vec::new();
    chain.push(at);
    let mut cur: usize = at;
    loop
        invariant
            table_ok(g, table@),
            chain@.len() >= 1,
            chain@[chain@.len() - 1] == cur,
            forall|t: int| 0 <= t < chain@.len() ==> (#[trigger] chain@[t]) < table@.len(),
            forall|t: int|
                0 <= t < chain@.len() - 1 ==> (#[trigger] table@[chain@[t] as int]).link is Some
                    && table@[chain@[t] as int].link.unwrap().0 == chain@[t + 1],
            chain@[0] == at,
            forall|a: int, b: int|
                0 <= a < b < chain@.len() ==> ahead_of(
                    table@,
                    #[trigger] chain@[b] as int,
                    #[trigger] chain@[a] as int,
                ),
        ensures
            cur == 0,
        decreases table@[cur as int].cost, table@[cur as int].stamp@,
    {
        assert(slot_ok(g, table@, cur as int));
        match table[cur].link {
            None => {
                break ;
            },
            Some((p, _)) => {
                let ghost before = chain@;
                chain.push(p);
                proof {
                    assert forall|a: int, b: int| 0 <= a < b < chain@.len() implies ahead_of(
                        table@,
                        #[trigger] chain@[b] as int,
                        #[trigger] chain@[a] as int,
                    ) by {
                        if b == chain@.len() - 1 {
                            assert(ahead_of(table@, p as int, cur as int));
                            if a < before.len() - 1 {
                                assert(ahead_of(
                                    table@,
                                    before[before.len() - 1] as int,
                                    before[a] as int,
                                ));
                            }
                        } else {
                            assert(ahead_of(table@, before[b] as int, before[a] as int));
                        }
                    }
                }
                cur = p;
            },
        }
    }
    let ghost last = chain@.len() - 1;
    let mut path: Vec<(G::Edge, G::Node)> = Vec::new();
    let mut t: usize = chain.len() - 1;
    proof {
        assert(steps_view(path@) =~= Seq::<(G::Edge, <G::Node as View>::V)>::empty());
    }
    while t > 0
        invariant
            table_ok(g, table@),
            0 <= t < chain@.len(),
            forall|t: int| 0 <= t < chain@.len() ==> (#[trigger] chain@[t]) < table@.len(),
            forall|t: int|
                0 <= t < chain@.len() - 1 ==> (#[trigger] table@[chain@[t] as int]).link is Some
                    && table@[chain@[t] as int].link.unwrap().0 == chain@[t + 1],
            chain@[0] == at,
            last == chain@.len() - 1,
            path@.len() == last - t,
            forall|m: int|
                0 <= m <= path@.len() ==> #[trigger] walk_node(
                    g.start_view(),
                    steps_view(path@),
                    m,
                ) == table@[chain@[last - m] as int].node@,
            forall|a: int, b: int|
                0 <= a < b < chain@.len() ==> ahead_of(
                    table@,
                    #[trigger] chain@[b] as int,
                    #[trigger] chain@[a] as int,
                ),
            is_walk(g, g.start_view(), steps_view(path@)),
            walk_end(g.start_view(), steps_view(path@)) == table@[chain@[t as int] as int].node@,
            table@[chain@[t as int] as int].cost == usize::MAX || walk_total(
                g,
                g.start_view(),
                steps_view(path@),
            ) <= table@[chain@[t as int] as int].cost,
        decreases t,
    {
        t -= 1;
        let at_t: usize = chain[t];
        assert(slot_ok(g, table@, at_t as int));
        assert(slot_ok(g, table@, chain@[t + 1] as int));
        assert(table@[at_t as int].link is Some);
        match table[at_t].link {
            Some((_, e)) => {
                let n = table[at_t].node.duplicate();
                proof {
                    let sv = steps_view(path@);
                    let sv2 = sv.push((e, n@));
                    walk_extend(g, g.start_view(), sv, (e, n@));
                    steps_view_push(path@, e, n);
                    assert forall|m: int| 0 <= m <= sv2.len() implies #[trigger] walk_node(
                        g.start_view(),
                        sv2,
                        m,
                    ) == table@[chain@[last - m] as int].node@ by {
                        if m < sv2.len() {
                            assert(walk_node(g.start_view(), sv, m) == table@[chain@[last
                                - m] as int].node@);
                            if m > 0 {
                                assert(sv2[m - 1] == sv[m - 1]);
                            }
                        }
                    }
                }
                path.push((e, n));
            },
            None => {},
        }
    }
    proof {
        let sv = steps_view(path@);
        assert forall|a: int, b: int| 0 <= a < b <= sv.len() implies #[trigger] walk_node(
            g.start_view(),
            sv,
            a,
        ) != #[trigger] walk_node(g.start_view(), sv, b) by {
            let sa = chain@[last - a] as int;
            let sb = chain@[last - b] as int;
            assert(ahead_of(table@, chain@[last - a] as int, chain@[last - b] as int));
            assert(sa != sb);
            assert(walk_node(g.start_view(), sv, a) == table@[sa].node@);
            assert(walk_node(g.start_view(), sv, b) == table@[sb].node@);
            if sa < sb {
                assert(table@[sa].node@ != table@[sb].node@);
            } else {
                assert(table@[sb].node@ != table@[sa].node@);
            }
        }
    }
    path
}

/// The cost of the first `i` steps of `w` plus the estimate from where they
/// end to the goal.
pub open spec fn estimate_through<G: Graph>(g: &G, w: Steps<G>, i: int) -> nat {
    walk_cost(g, g.start_view(), w, i) + g.gap(walk_node(g.start_view(), w, i), g.goal_view())
}

/// `cost` is no more than the estimate through some point of `w`, unless
/// that estimate does not fit a `usize`.
pub open spec fn no_dearer_than<G: Graph>(g: &G, cost: nat, w: Steps<G>) -> bool {
    exists|i: int|
        0 <= i <= w.len() && (cost <= #[trigger] estimate_through(g, w, i) || usize::MAX
            <= estimate_through(g, w, i))
}

/// More than `n` different states can be reached from the start.
pub open spec fn more_states_than<G: Graph>(g: &G, n: nat) -> bool {
    exists|s: Seq<<G::Node as View>::V>|
        s.len() > n && s.no_duplicates() && forall|i: int|
            0 <= i < s.len() ==> reachable(g, g.start_view(), #[trigger] s[i])
}

/// Where the distance from a point of a walk to the goal is never more than
/// what the rest of the walk costs, a path that is no dearer than the walk's
/// dearest estimate is no dearer than the walk.
pub proof fn never_dearer_when_admissible<G: Graph>(g: &G, cost: nat, w: Steps<G>)
    requires
        no_dearer_than(g, cost, w),
        walk_total(g, g.start_view(), w) < usize::MAX,
        forall|i: int|
            0 <= i <= w.len() ==> #[trigger] estimate_through(g, w, i) <= walk_total(
                g,
                g.start_view(),
                w,
            ),
    ensures
        cost <= walk_total(g, g.start_view(), w),
{
}

/// Some estimate through one of the first `n + 1` points of `w` does not fit
/// a `usize`.
pub open spec fn overflows_by<G: Graph>(g: &G, w: Steps<G>, n: int) -> bool {
    exists|m: int| 0 <= m <= n && usize::MAX <= #[trigger] estimate_through(g, w, m)
}

/// Point `i` of `w` sits in slot `j`, at no more than what `w` costs up to
/// it, unless an estimate up to there did not fit.
pub open spec fn sits_in<G: Graph>(g: &G, t: Table<G>, w: Steps<G>, i: int, j: int) -> bool {
    &&& 0 <= j < t.len()
    &&& t[j].node@ == walk_node(g.start_view(), w, i)
    &&& (t[j].cost <= walk_cost(g, g.start_view(), w, i) || overflows_by(g, w, i))
}

/// Along a walk from the start, the first point that is not finalized is in
/// the table, at no more than what the walk costs up to it. The result is
/// that point and its slot; it is point `n` where every point before it is
/// finalized.
#[verifier::rlimit(100)]
proof fn first_open_point<G: Graph>(g: &G, t: Table<G>, w: Steps<G>, n: int) -> (r: (int, int))
    requires
        table_ok(g, t),
        closure_ok(g, t, -1, 0),
        is_walk(g, g.start_view(), w),
        0 <= n <= w.len(),
    ensures
        0 <= r.0 <= n,
        sits_in(g, t, w, r.0, r.1),
        r.0 < n ==> !t[r.1].finalized,
    decreases n,
{
    let start = g.start_view();
    if n == 0 {
        (0, 0)
    } else {
        let (i0, j0) = first_open_point(g, t, w, n - 1);
        if i0 < n - 1 || !t[j0].finalized {
            (i0, j0)
        } else {
            let step = w[n - 1];
            assert(g.moves(walk_node(start, w, n - 1)).contains(step));
            let k = choose|k: int|
                0 <= k < g.moves(t[j0].node@).len() && g.moves(t[j0].node@)[k] == step;
            assert(relaxed_upto(g, t, j0, g.moves(t[j0].node@).len() as int));
            assert(relaxed(g, t, j0, k));
            let j = choose|j: int|
                0 <= j < t.len() && (#[trigger] t[j]).node@ == g.moves(t[j0].node@)[k].1
                    && t[j].priority <= priority_through(g, t, j0, t[j].node@);
            assert(slot_ok(g, t, j));
            assert(walk_node(start, w, n) == step.1);
            if overflows_by(g, w, n - 1) {
                let m = choose|m: int|
                    0 <= m <= n - 1 && usize::MAX <= #[trigger] estimate_through(g, w, m);
                assert(0 <= m <= n && usize::MAX <= estimate_through(g, w, m));
            } else if usize::MAX <= estimate_through(g, w, n) {
            } else {
                assert(t[j0].cost <= walk_cost(g, start, w, n - 1));
                assert(walk_cost(g, start, w, n) == walk_cost(g, start, w, n - 1) + g.gap(
                    walk_node(start, w, n - 1),
                    step.1,
                ));
            }
            (n, j)
        }
    }
}

/// What a frontier holds after a push: the new pair and what it held.
proof fn pushed_holds(f: Multiset<(usize, usize)>, x: (usize, usize))
    ensures
        f.insert(x).contains(x),
        f.insert(x).len() == f.len() + 1,
        forall|y: (usize, usize)| f.contains(y) ==> #[trigger] f.insert(x).contains(y),
        forall|y: (usize, usize)| #[trigger] f.insert(x).contains(y) ==> f.contains(y) || y == x,
{
    broadcast use vstd::multiset::group_multiset_axioms;

}

/// What a frontier holds after a pop: what it held but for the pair that
/// left, once.
proof fn popped_holds(f: Multiset<(usize, usize)>, x: (usize, usize))
    requires
        f.contains(x),
    ensures
        f.remove(x).len() + 1 == f.len(),
        forall|y: (usize, usize)| f.contains(y) && y != x ==> #[trigger] f.remove(x).contains(y),
        forall|y: (usize, usize)| #[trigger] f.remove(x).contains(y) ==> f.contains(y),
{
    broadcast use vstd::multiset::group_multiset_axioms;

}

/// An empty frontier holds nothing.
proof fn empty_holds_nothing(f: Multiset<(usize, usize)>, x: (usize, usize))
    requires
        f.len() == 0,
    ensures
        !f.contains(x),
{
    broadcast use vstd::multiset::group_multiset_axioms;

}

/// The nodes of the table and one node outside it are more states than the
/// table holds.
proof fn table_and_one_more<G: Graph>(g: &G, t: Table<G>, n: <G::Node as View>::V)
    requires
        table_ok(g, t),
        reachable(g, g.start_view(), n),
        forall|i: int| 0 <= i < t.len() ==> (#[trigger] t[i]).node@ != n,
    ensures
        more_states_than(g, t.len()),
{
    let s = Seq::new(t.len() + 1, |i: int| if i < t.len() { t[i].node@ } else { n });
    assert forall|i: int| 0 <= i < s.len() implies reachable(g, g.start_view(), #[trigger] s[i]) by {
        if i < t.len() {
            assert(slot_ok(g, t, i));
        }
    }
    assert(s.len() > t.len() && s.no_duplicates());
}

/// Relaxes move `k` out of the finalized slot `at`: where the move leads to a
/// node that is new, or that it reaches at a better priority, the node's
/// entry is written and the node enters the frontier. Returns `false`, with
/// nothing changed, when the node is new and the table is full.
#[verifier::rlimit(100)]
fn relax<G: Graph>(
    g: &G,
    goal: &G::Node,
    table: &mut Vec<Entry<G::Node, G::Edge>>,
    index: &mut HashMap<u64, Vec<usize>>,
    frontier: &mut Frontier,
    at: usize,
    k: usize,
    step: &(G::Edge, G::Node),
    max_states: usize,
    Ghost(clock): Ghost<nat>,
) -> (went: bool)
    requires
        g.well_formed(),
        goal@ == g.goal_view(),
        table_ok(g, old(table)@),
        closure_ok(g, old(table)@, at as int, k as int),
        frontier_ok(old(table)@, old(frontier)@),
        old(frontier).wf(),
        index_ok::<G>(old(table)@, old(index)@),
        stamps_before(old(table)@, clock),
        old(table)@.len() <= max_states,
        at < old(table)@.len(),
        old(table)@[at as int].finalized,
        k < g.moves(old(table)@[at as int].node@).len(),
        step.0 == g.moves(old(table)@[at as int].node@)[k as int].0,
        step.1@ == g.moves(old(table)@[at as int].node@)[k as int].1,
    ensures
        table_ok(g, final(table)@),
        frontier_ok(final(table)@, final(frontier)@),
        final(frontier).wf(),
        index_ok::<G>(final(table)@, final(index)@),
        stamps_before(final(table)@, clock + 1),
        final(table)@.len() <= max_states,
        final(table)@.len() >= old(table)@.len(),
        final(table)@[at as int].finalized,
        final(table)@[at as int].node@ == old(table)@[at as int].node@,
        went ==> closure_ok(g, final(table)@, at as int, k + 1),
        !went ==> more_states_than(g, max_states as nat) && final(table)@ == old(table)@
            && final(frontier)@ == old(frontier)@,
        final(table)@.len() > old(table)@.len() || priority_sum(final(table)@) < priority_sum(
            old(table)@,
        ) || (final(table)@ == old(table)@ && final(frontier)@ == old(frontier)@),
{
    let ghost t0 = table@;
    let ghost f0 = frontier@;
    let ghost to = step.1@;
    proof {
        assert(slot_ok(g, t0, at as int));
        assert(g.moves(t0[at as int].node@).contains((step.0, to)));
        reachable_step(g, g.start_view(), t0[at as int].node@, (step.0, to));
    }
    let d: usize = g.distance(&table[at].node, &step.1);
    let cost: usize = table[at].cost.saturating_add(d);
    let h: usize = g.distance(&step.1, goal);
    let priority: usize = cost.saturating_add(h);
    assert(priority == priority_through(g, t0, at as int, to));
    match find::<G>(table, index, &step.1) {
        Some(j) => {
            assert(slot_ok(g, t0, j as int));
            if table[j].priority > priority {
                assert(j != at);
                assert(j != 0) by {
                    assert(slot_ok(g, t0, 0));
                }
                table[j].finalized = false;
                table[j].link = Some((at, step.0));
                table[j].cost = cost;
                table[j].priority = priority;
                table[j].stamp = Ghost(clock);
                frontier.push(priority, j);
                proof {
                    let t1 = table@;
                    let f1 = frontier@;
                    assert(t1.len() == table.len());
                    rewritten_in_order::<G>(t0, t1, index@);
                    assert(t1 =~= t0.update(j as int, t1[j as int]));
                    priority_sum_update(t0, j as int, t1[j as int]);
                    assert(cost < t0[j as int].cost);
                    assert forall|i: int| 0 <= i < t1.len() implies #[trigger] slot_ok(g, t1, i) by {
                        assert(slot_ok(g, t0, i));
                        assert(slot_ok(g, t0, at as int));
                        if i != j {
                            assert(t1[i] == t0[i]);
                        }
                    }
                    assert forall|i: int| 0 <= i < t1.len() && (#[trigger] t1[i]).finalized implies relaxed_upto(
                        g,
                        t1,
                        i,
                        if i == at {
                            k + 1
                        } else {
                            g.moves(t1[i].node@).len() as int
                        },
                    ) by {
                        assert(t1[i] == t0[i]);
                        assert(t0[i].finalized);
                        let n0 = if i == at {
                            k as int
                        } else {
                            g.moves(t0[i].node@).len() as int
                        };
                        assert(relaxed_upto(g, t0, i, n0));
                        assert forall|m: int|
                            0 <= m < (if i == at {
                                k + 1
                            } else {
                                g.moves(t1[i].node@).len() as int
                            }) implies #[trigger] relaxed(g, t1, i, m) by {
                            if i == at && m == k {
                                assert(t1[j as int].node@ == g.moves(t1[i].node@)[m].1);
                            } else {
                                assert(relaxed(g, t0, i, m));
                                let x = choose|x: int|
                                    0 <= x < t0.len() && (#[trigger] t0[x]).node@ == g.moves(
                                        t0[i].node@,
                                    )[m].1 && t0[x].priority <= priority_through(
                                        g,
                                        t0,
                                        i,
                                        t0[x].node@,
                                    );
                                assert(t1[x].node@ == t0[x].node@);
                                assert(t1[x].priority <= t0[x].priority);
                            }
                        }
                    }
                    pushed_holds(f0, (priority, j));
                    assert forall|x: (usize, usize)| #[trigger] f1.contains(x) implies x.1 < t1.len()
                        && t1[x.1 as int].priority <= x.0 by {
                        if x != (priority, j) {
                            assert(f0.contains(x));
                        }
                    }
                    assert forall|i: int| 0 <= i < t1.len() && !(#[trigger] t1[i]).finalized implies f1.contains(
                        (t1[i].priority, i as usize),
                    ) by {
                        if i != j {
                            assert(t1[i] == t0[i]);
                            assert(f0.contains((t0[i].priority, i as usize)));
                        }
                    }
                }
            } else {
                proof {
                    assert forall|m: int| 0 <= m < k + 1 implies #[trigger] relaxed(
                        g,
                        t0,
                        at as int,
                        m,
                    ) by {
                        if m == k {
                            assert(t0[j as int].node@ == g.moves(t0[at as int].node@)[m].1);
                        } else {
                            assert(relaxed_upto(g, t0, at as int, k as int));
                        }
                    }
                    assert forall|i: int| 0 <= i < t0.len() && (#[trigger] t0[i]).finalized implies relaxed_upto(
                        g,
                        t0,
                        i,
                        if i == at {
                            k + 1
                        } else {
                            g.moves(t0[i].node@).len() as int
                        },
                    ) by {
                        if i != at {
                            assert(relaxed_upto(g, t0, i, g.moves(t0[i].node@).len() as int));
                        }
                    }
                }
            }
            true
        },
        None => {
            if table.len() >= max_states {
                proof {
                    table_and_one_more(g, t0, to);
                }
                return false;
            }
            let n = step.1.duplicate();
            let slot: usize = table.len();
            let ghost i0 = index@;
            file(index, n.digest(), slot);
            table.push(
                Entry {
                    node: n,
                    finalized: false,
                    link: Some((at, step.0)),
                    cost,
                    priority,
                    stamp: Ghost(clock),
                },
            );
            frontier.push(priority, slot);
            proof {
                let t1 = table@;
                let f1 = frontier@;
                assert(digest_at::<G>(t1, slot as int) == G::Node::digest_of(n@));
                assert(t1.len() == table.len());
                filed_in_order::<G>(t0, t1, i0, index@);
                assert(t1 =~= t0.push(t1[slot as int]));
                priority_sum_push(t0, t1[slot as int]);
                assert forall|i: int| 0 <= i < t1.len() implies #[trigger] slot_ok(g, t1, i) by {
                    assert(slot_ok(g, t0, at as int));
                    if i != slot {
                        assert(slot_ok(g, t0, i));
                        assert(t1[i] == t0[i]);
                    }
                }
                assert forall|i: int, j: int| 0 <= i < j < t1.len() implies (#[trigger] t1[i]).node@
                    != (#[trigger] t1[j]).node@ by {
                    assert(t1[i] == t0[i]);
                    if j != slot {
                        assert(t1[j] == t0[j]);
                    }
                }
                assert forall|i: int| 0 <= i < t1.len() && (#[trigger] t1[i]).finalized implies relaxed_upto(
                    g,
                    t1,
                    i,
                    if i == at {
                        k + 1
                    } else {
                        g.moves(t1[i].node@).len() as int
                    },
                ) by {
                    assert(t1[i] == t0[i]);
                    let n0 = if i == at {
                        k as int
                    } else {
                        g.moves(t0[i].node@).len() as int
                    };
                    assert(relaxed_upto(g, t0, i, n0));
                    assert forall|m: int|
                        0 <= m < (if i == at {
                            k + 1
                        } else {
                            g.moves(t1[i].node@).len() as int
                        }) implies #[trigger] relaxed(g, t1, i, m) by {
                        if i == at && m == k {
                            assert(t1[slot as int].node@ == g.moves(t1[i].node@)[m].1);
                        } else {
                            assert(relaxed(g, t0, i, m));
                            let x = choose|x: int|
                                0 <= x < t0.len() && (#[trigger] t0[x]).node@ == g.moves(
                                    t0[i].node@,
                                )[m].1 && t0[x].priority <= priority_through(g, t0, i, t0[x].node@);
                            assert(t1[x] == t0[x]);
                        }
                    }
                }
                pushed_holds(f0, (priority, slot));
                assert forall|x: (usize, usize)| #[trigger] f1.contains(x) implies x.1 < t1.len()
                    && t1[x.1 as int].priority <= x.0 by {
                    if x != (priority, slot) {
                        assert(f0.contains(x));
                        assert(t1[x.1 as int] == t0[x.1 as int]);
                    }
                }
                assert forall|i: int| 0 <= i < t1.len() && !(#[trigger] t1[i]).finalized implies f1.contains(
                    (t1[i].priority, i as usize),
                ) by {
                    if i != slot {
                        assert(t1[i] == t0[i]);
                        assert(f0.contains((t0[i].priority, i as usize)));
                    }
                }
            }
            true
        },
    }
}

/// What A* with a table of at most `max_states` entries returns.
///
/// A path that it finds leads from the start to the goal, passes no node
/// twice, and is no dearer than the dearest estimate along any walk to the
/// goal. It reports that
/// there is no path only where the goal cannot be reached, and gives up only
/// where more than `max_states` states can be reached.
pub open spec fn a_star_result<G: Graph>(
    g: &G,
    max_states: usize,
    r: Report<G::Edge, G::Node>,
) -> bool {
    &&& r.visited <= max_states
    &&& match r.outcome {
        Outcome::Found(path) => leads_to_goal(g, steps_view(path@)) && is_simple(
            g.start_view(),
            steps_view(path@),
        ) && forall|w: Steps<G>|
            leads_to_goal(g, w) ==> no_dearer_than(
                g,
                walk_total(g, g.start_view(), steps_view(path@)),
                w,
            ),
        Outcome::NoPath => !reachable(g, g.start_view(), g.goal_view()),
        Outcome::Exhausted => more_states_than(g, max_states as nat),
    }
}

/// When the goal leaves the frontier, the cost at which the table holds it
/// is no more than the estimate through some point of any walk to the goal.
#[verifier::rlimit(100)]
proof fn goal_is_cheapest<G: Graph>(
    g: &G,
    t: Table<G>,
    f: Multiset<(usize, usize)>,
    popped: (usize, usize),
    total: nat,
)
    requires
        table_ok(g, t),
        closure_ok(g, t, -1, 0),
        frontier_ok(t, f),
        f.contains(popped),
        forall|y: (usize, usize)| f.contains(y) ==> popped.0 <= y.0,
        t[popped.1 as int].node@ == g.goal_view(),
        t[popped.1 as int].cost == usize::MAX || total <= t[popped.1 as int].cost,
    ensures
        forall|w: Steps<G>| leads_to_goal(g, w) ==> no_dearer_than(g, total, w),
{
    let at = popped.1 as int;
    assert forall|w: Steps<G>| leads_to_goal(g, w) implies no_dearer_than(g, total, w) by {
        let n = w.len() as int;
        let (i, j) = first_open_point(g, t, w, n);
        assert(slot_ok(g, t, j));
        assert(slot_ok(g, t, at));
        assert(!t[j].finalized);
        assert(f.contains((t[j].priority, j as usize)));
        assert(t[at].priority <= popped.0);
        assert(popped.0 <= t[j].priority);
        if overflows_by(g, w, i) {
            let m = choose|m: int| 0 <= m <= i && usize::MAX <= #[trigger] estimate_through(g, w, m);
            assert(0 <= m <= w.len() && usize::MAX <= estimate_through(g, w, m));
        } else {
            assert(t[j].cost <= walk_cost(g, g.start_view(), w, i));
            assert(t[j].priority <= estimate_through(g, w, i));
            assert(0 <= i <= w.len() && (total <= estimate_through(g, w, i) || usize::MAX
                <= estimate_through(g, w, i)));
        }
    }
}

/// When the frontier is empty, no walk leads from the start to the goal.
proof fn empty_frontier_means_no_path<G: Graph>(g: &G, t: Table<G>, f: Multiset<(usize, usize)>)
    requires
        table_ok(g, t),
        closure_ok(g, t, -1, 0),
        frontier_ok(t, f),
        f.len() == 0,
    ensures
        !reachable(g, g.start_view(), g.goal_view()),
{
    if reachable(g, g.start_view(), g.goal_view()) {
        let w = choose|w: Steps<G>|
            is_walk(g, g.start_view(), w) && walk_end(g.start_view(), w) == g.goal_view();
        let (i, j) = first_open_point(g, t, w, w.len() as int);
        assert(slot_ok(g, t, j));
        if !t[j].finalized {
            assert(f.contains((t[j].priority, j as usize)));
            empty_holds_nothing(f, (t[j].priority, j as usize));
        }
    }
}

/// A* from the start of `graph` to its goal, with a search table of at most
/// `max_states` entries.
///
/// A table entry is written when its node is first met and again whenever the
/// node is reached at a lower priority; a node written again is expanded
/// again. Sums of costs stop at `usize::MAX`. Which of several frontier
/// entries of equal priority is expanded first is up to the heap that holds
/// them: it depends on the order in which they were pushed, and on nothing
/// else.
///
/// The path found costs no more than, for any walk to the goal, the dearest
/// estimate along that walk: the distance of the walk where the distance never
/// overestimates what is left.
#[verifier::rlimit(100)]
pub fn a_star_search<G: Graph>(graph: &G, max_states: usize) -> (r: Report<
    G::Edge,
    G::Node,
>)
    requires
        graph.well_formed(),
    ensures
        a_star_result(graph, max_states, r),
{
    let start = graph.start();
    let goal = graph.goal();
    if max_states == 0 {
        proof {
            reachable_self(graph, graph.start_view());
            let s = seq![graph.start_view()];
            assert(s.len() > 0 && s.no_duplicates());
            assert(forall|i: int|
                0 <= i < s.len() ==> reachable(graph, graph.start_view(), #[trigger] s[i]));
        }
        return Report { outcome: Outcome::Exhausted, visited: 0 };
    }
    let h0: usize = graph.distance(&start, &goal);
    let mut table: Vec<Entry<G::Node, G::Edge>> = Vec::new();
    let mut index: HashMap<u64, Vec<usize>> = HashMap::new();
    file(&mut index, start.digest(), 0);
    table.push(
        Entry { node: start, finalized: false, link: None, cost: 0, priority: h0, stamp: Ghost(0) },
    );
    proof {
        let t = table@;
        let d = digest_at::<G>(t, 0);
        assert(index@[d]@[0] == 0usize);
        assert forall|h: u64, j: int| index@.contains_key(h) && 0 <= j < index@[h]@.len() implies (
        #[trigger] index@[h]@[j]) < t.len() by {
            if h != d {
                assert(!Map::<u64, Vec<usize>>::empty().contains_key(h));
            }
        }
    }
    let mut frontier = Frontier::new();
    frontier.push(h0, 0);
    let ghost mut clock: nat = 1;
    proof {
        reachable_self(graph, graph.start_view());
        assert(slot_ok(graph, table@, 0));
        pushed_holds(Multiset::<(usize, usize)>::empty(), (h0, 0usize));
        assert forall|x: (usize, usize)| #[trigger] frontier@.contains(x) implies x == (
            h0,
            0usize,
        ) by {
            empty_holds_nothing(Multiset::<(usize, usize)>::empty(), x);
        }
    }
    loop
        invariant
            graph.well_formed(),
            goal@ == graph.goal_view(),
            table_ok(graph, table@),
            closure_ok(graph, table@, -1, 0),
            frontier_ok(table@, frontier@),
            frontier.wf(),
            index_ok::<G>(table@, index@),
            stamps_before(table@, clock),
            table@.len() <= max_states,
        decreases max_states - table@.len(), priority_sum(table@), frontier@.len(),
    {
        let ghost t0 = table@;
        let ghost f0 = frontier@;
        match frontier.pop() {
            None => {
                proof {
                    empty_frontier_means_no_path(graph, t0, f0);
                }
                return Report { outcome: Outcome::NoPath, visited: table.len() };
            },
            Some((cheapest, at)) => {
                proof {
                    popped_holds(f0, (cheapest, at));
                }
                if table[at].node.same(&goal) {
                    let path = rebuild(graph, &table, at);
                    proof {
                        goal_is_cheapest(
                            graph,
                            t0,
                            f0,
                            (cheapest, at),
                            walk_total(graph, graph.start_view(), steps_view(path@)),
                        );
                    }
                    return Report { outcome: Outcome::Found(path), visited: table.len() };
                }
                if !table[at].finalized {
                    table[at].finalized = true;
                    let ghost t1 = table@;
                    proof {
                        assert(t1.len() == table.len());
                        rewritten_in_order::<G>(t0, t1, index@);
                        assert(t1 =~= t0.update(at as int, t1[at as int]));
                        priority_sum_update(t0, at as int, t1[at as int]);
                        assert forall|i: int| 0 <= i < t1.len() implies #[trigger] slot_ok(
                            graph,
                            t1,
                            i,
                        ) by {
                            assert(slot_ok(graph, t0, i));
                        }
                        assert forall|i: int| 0 <= i < t1.len() && (#[trigger] t1[i]).finalized implies relaxed_upto(
                            graph,
                            t1,
                            i,
                            if i == at {
                                0
                            } else {
                                graph.moves(t1[i].node@).len() as int
                            },
                        ) by {
                            if i != at {
                                assert(t0[i].finalized);
                                assert(relaxed_upto(
                                    graph,
                                    t0,
                                    i,
                                    graph.moves(t0[i].node@).len() as int,
                                ));
                                assert forall|m: int|
                                    0 <= m < graph.moves(
                                        t1[i].node@,
                                    ).len() implies #[trigger] relaxed(graph, t1, i, m) by {
                                    assert(relaxed(graph, t0, i, m));
                                    let x = choose|x: int|
                                        0 <= x < t0.len() && (#[trigger] t0[x]).node@
                                            == graph.moves(t0[i].node@)[m].1 && t0[x].priority
                                            <= priority_through(graph, t0, i, t0[x].node@);
                                    assert(t1[x].node@ == t0[x].node@);
                                }
                            }
                        }
                        assert forall|i: int| 0 <= i < t1.len() && !(#[trigger] t1[i]).finalized implies frontier@.contains(
                            (t1[i].priority, i as usize),
                        ) by {
                            assert(t1[i] == t0[i]);
                            assert(f0.contains((t0[i].priority, i as usize)));
                        }
                    }
                    let nbrs = graph.neighbors(&table[at].node);
                    let mut k: usize = 0;
                    while k < nbrs.len()
                        invariant
                            graph.well_formed(),
                            goal@ == graph.goal_view(),
                            table_ok(graph, table@),
                            closure_ok(graph, table@, at as int, k as int),
                            frontier_ok(table@, frontier@),
                            frontier.wf(),
                            index_ok::<G>(table@, index@),
                            stamps_before(table@, clock),
                            table@.len() <= max_states,
                            at < t0.len(),
                            at < table@.len(),
                            table@[at as int].finalized,
                            table@[at as int].node@ == t0[at as int].node@,
                            k <= nbrs@.len(),
                            nbrs@.len() == graph.moves(t0[at as int].node@).len(),
                            forall|i: int|
                                0 <= i < nbrs@.len() ==> (#[trigger] nbrs@[i]).0 == graph.moves(
                                    t0[at as int].node@,
                                )[i].0 && nbrs@[i].1@ == graph.moves(t0[at as int].node@)[i].1,
                            table@.len() >= t0.len(),
                            table@.len() > t0.len() || priority_sum(table@) < priority_sum(t0) || (
                            priority_sum(table@) == priority_sum(t0) && frontier@.len() + 1
                                == f0.len()),
                        decreases nbrs@.len() - k,
                    {
                        let went = relax(
                            graph,
                            &goal,
                            &mut table,
                            &mut index,
                            &mut frontier,
                            at,
                            k,
                            &nbrs[k],
                            max_states,
                            Ghost(clock),
                        );
                        if !went {
                            return Report { outcome: Outcome::Exhausted, visited: table.len() };
                        }
                        proof {
                            clock = clock + 1;
                        }
                        k += 1;
                    }
                    proof {
                        let t2 = table@;
                        assert forall|i: int| 0 <= i < t2.len() && (#[trigger] t2[i]).finalized implies relaxed_upto(
                            graph,
                            t2,
                            i,
                            graph.moves(t2[i].node@).len() as int,
                        ) by {
                            assert(relaxed_upto(
                                graph,
                                t2,
                                i,
                                if i == at {
                                    k as int
                                } else {
                                    graph.moves(t2[i].node@).len() as int
                                },
                            ));
                        }
                    }
                }
            },
        }
    }
}

} // verus!
