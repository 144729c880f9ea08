//! The frontier of a best-first search: a queue of `(priority, slot)` pairs
//! that hands out a pair of least priority first. It is a binary heap; among
//! pairs of equal priority it promises no order.

use vstd::multiset::Multiset;
use vstd::prelude::*;
use vstd::seq_lib::{to_multiset_len, to_multiset_update};

verus! {

/// The place of the parent of place `i` in a heap.
pub open spec fn parent(i: int) -> int {
    (i - 1) / 2
}

/// Whether every pair but the first is no cheaper than its parent, save for
/// the pairs in the places `skip` and those whose parent is in the place
/// `under`.
pub open spec fn heap_but(s: Seq<(usize, usize)>, skip: int, under: int) -> bool {
    forall|i: int|
        0 < i < s.len() && i != skip && parent(i) != under ==> s[parent(i)].0 <= (#[trigger] s[i]).0
}

/// Whether every pair but the first is no cheaper than its parent.
pub open spec fn is_heap(s: Seq<(usize, usize)>) -> bool {
    heap_but(s, -1, -1)
}

/// Whether the pairs whose parent is in the place `k` are no cheaper than the
/// parent of `k`.
pub open spec fn grandparent_ok(s: Seq<(usize, usize)>, k: int) -> bool {
    forall|i: int|
        0 < i < s.len() && parent(i) == k && k > 0 ==> s[parent(k)].0 <= (#[trigger] s[i]).0
}

/// The places whose parent is in the place `k` are `2 * k + 1` and
/// `2 * k + 2`.
pub proof fn children_of(k: int, i: int)
    requires
        0 <= k,
        0 < i,
    ensures
        parent(i) == k <==> (i == 2 * k + 1 || i == 2 * k + 2),
{
}

/// What is left to mend of a heap in which the pair in the place `k` may be
/// dearer than its children, once that pair has changed places with the
/// cheapest of them, in the place `c`: only that the pair, now in the place
/// `c`, may be dearer than its children there.
#[verifier::rlimit(100)]
pub proof fn sinking_mends(before: Seq<(usize, usize)>, after: Seq<(usize, usize)>, k: int, c: int)
    requires
        0 <= k < before.len(),
        0 < c < before.len(),
        parent(c) == k,
        heap_but(before, -1, k),
        grandparent_ok(before, k),
        before[c].0 < before[k].0,
        forall|i: int| 0 < i < before.len() && parent(i) == k ==> before[c].0 <= (#[trigger] before[i]).0,
        after == before.update(k, before[c]).update(c, before[k]),
    ensures
        heap_but(after, -1, c),
        grandparent_ok(after, c),
{
    assert forall|i: int| 0 < i < after.len() && parent(i) != c implies after[parent(i)].0 <= (
    #[trigger] after[i]).0 by {
        if parent(i) == k {
            assert(before[c].0 <= before[i].0);
        } else if i == k {
            assert(before[parent(k)].0 <= before[c].0);
        } else {
            assert(before[parent(i)].0 <= before[i].0);
        }
    }
    assert forall|i: int| 0 < i < after.len() && parent(i) == c && c > 0 implies after[parent(
        c,
    )].0 <= (#[trigger] after[i]).0 by {
        assert(before[parent(i)].0 <= before[i].0);
    }
}

/// In a heap no pair is cheaper than the first.
pub proof fn first_is_least(s: Seq<(usize, usize)>, i: int)
    requires
        is_heap(s),
        0 <= i < s.len(),
    ensures
        s[0].0 <= s[i].0,
    decreases i,
{
    if i > 0 {
        first_is_least(s, parent(i));
        assert(s[parent(i)].0 <= s[i].0);
    }
}

/// Two pairs that change places leave the same pairs.
pub proof fn swapped_holds_the_same(s: Seq<(usize, usize)>, i: int, j: int)
    requires
        0 <= i < s.len(),
        0 <= j < s.len(),
    ensures
        s.update(i, s[j]).update(j, s[i]).to_multiset() == s.to_multiset(),
{
    broadcast use vstd::multiset::group_multiset_axioms;

    let t = s.update(i, s[j]);
    to_multiset_update(s, i, s[j]);
    to_multiset_update(t, j, s[i]);
    vstd::seq_lib::to_multiset_contains(s, s[i]);
    vstd::seq_lib::to_multiset_contains(s, s[j]);
    assert(s.contains(s[i]));
    assert(s.contains(s[j]));
    assert(t.update(j, s[i]).to_multiset() =~= s.to_multiset());
}

/// A min-priority queue of `(priority, slot)` pairs. It may hold several
/// pairs for one slot: the search discards the stale ones as they leave.
pub struct Frontier {
    items: Vec<(usize, usize)>,
}

impl View for Frontier {
    type V = Multiset<(usize, usize)>;

    /// The pairs in the queue, each as often as it was pushed and has not
    /// left.
    closed spec fn view(&self) -> Multiset<(usize, usize)> {
        self.items@.to_multiset()
    }
}

impl Frontier {
    /// The invariant of the queue: its pairs lie in heap order.
    pub closed spec fn wf(&self) -> bool {
        is_heap(self.items@)
    }

    /// An empty queue.
    pub fn new() -> (f: Frontier)
        ensures
            f.wf(),
            f@ == Multiset::<(usize, usize)>::empty(),
    {
        let f = Frontier { items: Vec::new() };
        assert(f.items@.to_multiset() =~= Multiset::<(usize, usize)>::empty()) by {
            broadcast use vstd::multiset::group_multiset_axioms;

            to_multiset_len(f.items@);
        }
        f
    }

    /// The number of pairs in the queue.
    pub fn len(&self) -> (n: usize)
        ensures
            n == self@.len(),
    {
        proof {
            to_multiset_len(self.items@);
        }
        self.items.len()
    }

    /// Swaps the pairs in the places `i` and `j`.
    fn swap(&mut self, i: usize, j: usize)
        requires
            i < old(self).items@.len(),
            j < old(self).items@.len(),
        ensures
            final(self).items@ == old(self).items@.update(i as int, old(self).items@[j as int]).update(
                j as int,
                old(self).items@[i as int],
            ),
            final(self)@ == old(self)@,
    {
        let a = self.items[i];
        let b = self.items[j];
        proof {
            swapped_holds_the_same(self.items@, i as int, j as int);
        }
        self.items[i] = b;
        self.items[j] = a;
    }

    /// Mends a heap in which only the first pair may be dearer than its
    /// children: the pair sinks until it is not.
    #[verifier::rlimit(100)]
    fn sink(&mut self)
        requires
            heap_but(old(self).items@, -1, 0),
        ensures
            final(self).wf(),
            final(self)@ == old(self)@,
    {
        let n: usize = self.items.len();
        let mut k: usize = 0;
        while k < n / 2
            invariant
                n == self.items@.len(),
                self@ == old(self)@,
                heap_but(self.items@, -1, k as int),
                grandparent_ok(self.items@, k as int),
            ensures
                is_heap(self.items@),
                self@ == old(self)@,
            decreases n - k,
        {
            let left: usize = 2 * k + 1;
            let right: usize = left + 1;
            let mut least: usize = k;
            if self.items[left].0 < self.items[least].0 {
                least = left;
            }
            if right < n && self.items[right].0 < self.items[least].0 {
                least = right;
            }
            let ghost before = self.items@;
            proof {
                assert forall|i: int| 0 < i < before.len() && parent(i) == k implies before[least as int].0
                    <= (#[trigger] before[i]).0 by {
                    children_of(k as int, i);
                }
            }
            if least == k {
                proof {
                    assert forall|i: int| 0 < i < before.len() implies before[parent(i)].0 <= (
                    #[trigger] before[i]).0 by {}
                }
                break ;
            }
            self.swap(k, least);
            proof {
                sinking_mends(before, self.items@, k as int, least as int);
            }
            k = least;
        }
        proof {
            let s = self.items@;
            assert forall|i: int| 0 < i < s.len() implies s[parent(i)].0 <= (#[trigger] s[i]).0 by {
                if parent(i) == k && !is_heap(s) {
                    children_of(k as int, i);
                }
            }
        }
    }

    /// Adds a pair.
    #[verifier::rlimit(100)]
    pub fn push(&mut self, priority: usize, slot: usize)
        requires
            old(self).wf(),
        ensures
            final(self).wf(),
            final(self)@ == old(self)@.insert((priority, slot)),
    {
        proof {
            self.items@.to_multiset_ensures();
        }
        self.items.push((priority, slot));
        let ghost all = self@;
        let mut k: usize = self.items.len() - 1;
        while k > 0 && self.items[(k - 1) / 2].0 > self.items[k].0
            invariant
                k < self.items@.len(),
                self@ == all,
                heap_but(self.items@, k as int, -1),
                grandparent_ok(self.items@, k as int),
            decreases k,
        {
            let p: usize = (k - 1) / 2;
            let ghost before = self.items@;
            self.swap(k, p);
            proof {
                let after = self.items@;
                assert forall|i: int| 0 < i < after.len() && i != p implies after[parent(i)].0 <= (
                #[trigger] after[i]).0 by {
                    if i == k {
                    } else if parent(i) == k {
                        assert(before[parent(k as int)].0 <= before[i].0);
                    } else if parent(i) == p {
                        assert(before[parent(i)].0 <= before[i].0);
                    } else {
                        assert(before[parent(i)].0 <= before[i].0);
                    }
                }
                assert forall|i: int|
                    0 < i < after.len() && parent(i) == p && p > 0 implies after[parent(
                    p as int,
                )].0 <= (#[trigger] after[i]).0 by {
                    assert(before[parent(p as int)].0 <= before[p as int].0);
                    if i != k {
                        assert(before[parent(i)].0 <= before[i].0);
                    }
                }
            }
            k = p;
        }
        proof {
            let s = self.items@;
            assert forall|i: int| 0 < i < s.len() implies s[parent(i)].0 <= (#[trigger] s[i]).0 by {}
        }
    }

    /// Takes out a pair of least priority; `None` when the queue is empty.
    #[verifier::rlimit(100)]
    pub fn pop(&mut self) -> (r: Option<(usize, usize)>)
        requires
            old(self).wf(),
        ensures
            final(self).wf(),
            match r {
                None => old(self)@.len() == 0 && final(self)@ == old(self)@,
                Some(x) => {
                    &&& old(self)@.contains(x)
                    &&& forall|y: (usize, usize)| old(self)@.contains(y) ==> x.0 <= y.0
                    &&& final(self)@ == old(self)@.remove(x)
                },
            },
    {
        let ghost s0 = self.items@;
        let ghost all = self@;
        proof {
            to_multiset_len(s0);
        }
        if self.items.len() == 0 {
            return None;
        }
        proof {
            s0.to_multiset_ensures();
            assert forall|y: (usize, usize)| s0.to_multiset().contains(y) implies s0[0].0
                <= y.0 by {
                vstd::seq_lib::to_multiset_contains(s0, y);
                let i = choose|i: int| 0 <= i < s0.len() && s0[i] == y;
                first_is_least(s0, i);
            }
            vstd::seq_lib::to_multiset_contains(s0, s0[0]);
            assert(s0.contains(s0[0]));
        }
        let last_at: usize = self.items.len() - 1;
        self.swap(0, last_at);
        let top = self.items.pop().unwrap();
        proof {
            let swapped = s0.update(0, s0[last_at as int]).update(last_at as int, s0[0]);
            assert(self.items@ =~= swapped.remove(last_at as int));
            swapped.to_multiset_ensures();
            assert(top == s0[0]);
        }
        proof {
            let s = self.items@;
            assert forall|i: int| 0 < i < s.len() && parent(i) != 0 implies s[parent(i)].0 <= (
            #[trigger] s[i]).0 by {
                assert(s[i] == s0[i]);
                assert(s[parent(i)] == s0[parent(i)]);
                assert(s0[parent(i)].0 <= s0[i].0);
            }
        }
        self.sink();
        Some(top)
    }
}

} // verus!
