//! Lazy-deletion priority queue for the Dijkstra loop: a binary min-heap of
//! (distance, node) entries, popped in ascending distance order. Stale
//! duplicate entries are expected; the solver discards them on pop. The view
//! is the multiset of entries, so the contracts say nothing about internal
//! order; the heap shape is an internal invariant.

use vstd::multiset::Multiset;
use vstd::prelude::*;
use vstd::seq_lib::to_multiset_insert;

verus! {

broadcast use vstd::multiset::group_multiset_axioms;

/// One queue entry: a node and the tentative distance it was enqueued with.
#[derive(Clone, Copy, Debug)]
pub struct HeapNode {
    pub node: usize,
    pub dist: i128,
}

/// The array-embedded binary-tree shape: every entry's distance is at least
/// its parent's.
spec fn heap_shape(s: Seq<HeapNode>) -> bool {
    forall|i: int| 1 <= i < s.len() ==> s[(i - 1) / 2].dist <= (#[trigger] s[i]).dist
}

/// The root of a well-shaped heap is minimal.
proof fn lemma_root_min(s: Seq<HeapNode>, i: int)
    requires
        heap_shape(s),
        0 <= i < s.len(),
    ensures
        s[0].dist <= s[i].dist,
    decreases i,
{
    if i > 0 {
        lemma_root_min(s, (i - 1) / 2);
    }
}

/// Overwriting one position exchanges its old element for the new one in
/// the multiset.
proof fn lemma_update_multiset(s: Seq<HeapNode>, i: int, x: HeapNode)
    requires
        0 <= i < s.len(),
    ensures
        s.update(i, x).to_multiset() == s.to_multiset().remove(s[i]).insert(x),
{
    assert(s.update(i, x) =~= s.remove(i).insert(i, x));
    s.to_multiset_ensures();
    to_multiset_insert(s.remove(i), i, x);
}

/// Swapping two positions leaves the multiset unchanged.
proof fn lemma_swap_multiset(s: Seq<HeapNode>, i: int, j: int)
    requires
        0 <= i < s.len(),
        0 <= j < s.len(),
    ensures
        s.update(i, s[j]).update(j, s[i]).to_multiset() == s.to_multiset(),
{
    if i == j {
        assert(s.update(i, s[j]).update(j, s[i]) =~= s);
    } else {
        let s1 = s.update(i, s[j]);
        lemma_update_multiset(s, i, s[j]);
        lemma_update_multiset(s1, j, s[i]);
        s.to_multiset_ensures();
        assert(s.to_multiset().contains(s[i]));
        assert(s.to_multiset().contains(s[j]));
        assert(s.update(i, s[j]).update(j, s[i]).to_multiset() =~= s.to_multiset());
    }
}

/// The heap shape everywhere except that `i`'s parent link may be wrong;
/// `i`'s children are still bounded by `i`'s parent.
spec fn heap_shape_up(s: Seq<HeapNode>, i: int) -> bool {
    &&& forall|k: int|
        1 <= k < s.len() && k != i ==> s[(k - 1) / 2].dist <= (#[trigger] s[k]).dist
    &&& i >= 1 ==> forall|k: int|
        1 <= k < s.len() && (k - 1) / 2 == i ==> s[(i - 1) / 2].dist <= (#[trigger] s[k]).dist
}

/// The heap shape everywhere except that `i`'s links to its children may be
/// wrong; `i`'s children are still bounded by `i`'s parent.
spec fn heap_shape_down(s: Seq<HeapNode>, i: int) -> bool {
    &&& forall|k: int|
        1 <= k < s.len() && (k - 1) / 2 != i ==> s[(k - 1) / 2].dist <= (#[trigger] s[k]).dist
    &&& i >= 1 ==> forall|k: int|
        1 <= k < s.len() && (k - 1) / 2 == i ==> s[(i - 1) / 2].dist <= (#[trigger] s[k]).dist
}

/// Min-priority queue of `HeapNode`: a binary min-heap ordered by `dist`,
/// ties broken arbitrarily.
pub struct MinQueue {
    entries: Vec<HeapNode>,
}

impl View for MinQueue {
    type V = Multiset<HeapNode>;

    closed spec fn view(&self) -> Multiset<HeapNode> {
        self.entries@.to_multiset()
    }
}

impl MinQueue {
    #[verifier::type_invariant]
    spec fn wf(self) -> bool {
        heap_shape(self.entries@)
    }

    /// The empty queue.
    pub fn new() -> (q: MinQueue)
        ensures
            q@ == Multiset::<HeapNode>::empty(),
            q@.len() == 0,
    {
        let q = MinQueue { entries: Vec::new() };
        proof {
            q.entries@.to_multiset_ensures();
            assert(q@ =~= Multiset::<HeapNode>::empty());
        }
        q
    }

    /// Number of entries, counting duplicates.
    pub fn len(&self) -> (r: usize)
        ensures
            r == self@.len(),
    {
        proof {
            self.entries@.to_multiset_ensures();
        }
        self.entries.len()
    }

    /// Whether the queue holds no entry; when it does not, every count is
    /// zero.
    pub fn is_empty(&self) -> (r: bool)
        ensures
            r == (self@.len() == 0),
            r ==> forall|e: HeapNode| self@.count(e) == 0,
    {
        proof {
            self.entries@.to_multiset_ensures();
            if self.entries@.len() == 0 {
                assert forall|e: HeapNode| self@.count(e) == 0 by {
                    assert(!self.entries@.contains(e));
                }
            }
        }
        self.entries.len() == 0
    }

    /// Add one entry and sift it up to its place.
    #[verifier::rlimit(100)]
    pub fn push(&mut self, e: HeapNode)
        ensures
            final(self)@ == old(self)@.insert(e),
            final(self)@.len() == old(self)@.len() + 1,
    {
        proof {
            use_type_invariant(&*self);
            self.entries@.to_multiset_ensures();
        }
        let mut v: Vec<HeapNode> = Vec::new();
        core::mem::swap(&mut self.entries, &mut v);
        v.push(e);
        proof {
            old(self).entries@.to_multiset_ensures();
            assert(v@ == old(self).entries@.push(e));
        }
        let mut i = v.len() - 1;
        while i > 0
            invariant
                i < v@.len(),
                v@.to_multiset() == old(self)@.insert(e),
                v@.len() == old(self)@.len() + 1,
                heap_shape_up(v@, i as int),
            decreases i,
        {
            let p = (i - 1) / 2;
            if v[p].dist > v[i].dist {
                let ghost s = v@;
                let a = v[i];
                let b = v[p];
                v.set(i, b);
                v.set(p, a);
                proof {
                    lemma_swap_multiset(s, i as int, p as int);
                    assert(heap_shape_up(v@, p as int));
                }
                i = p;
            } else {
                proof {
                    assert(heap_shape_up(v@, 0));
                }
                i = 0;
            }
        }
        proof {
            assert(heap_shape(v@));
        }
        core::mem::swap(&mut self.entries, &mut v);
    }

    /// Remove and return an entry of minimal distance: take the root,
    /// move the last entry there, sift it down.
    #[verifier::rlimit(100)]
    pub fn pop_min(&mut self) -> (r: HeapNode)
        requires
            old(self)@.len() > 0,
        ensures
            old(self)@.count(r) > 0,
            final(self)@ == old(self)@.remove(r),
            final(self)@.len() == old(self)@.len() - 1,
            forall|e: HeapNode| old(self)@.count(e) > 0 ==> r.dist <= e.dist,
    {
        proof {
            use_type_invariant(&*self);
            self.entries@.to_multiset_ensures();
            assert forall|e: HeapNode| old(self)@.count(e) > 0 implies self.entries@[0].dist
                <= e.dist by {
                assert(self.entries@.contains(e));
                let j = choose|j: int| 0 <= j < self.entries@.len() && self.entries@[j] == e;
                lemma_root_min(self.entries@, j);
            }
        }
        let mut v: Vec<HeapNode> = Vec::new();
        core::mem::swap(&mut self.entries, &mut v);
        let ghost s0 = v@;
        let r = v[0];
        let last = v.pop().unwrap();
        proof {
            assert(v@ =~= s0.remove(s0.len() - 1));
            s0.to_multiset_ensures();
        }
        if v.len() == 0 {
            core::mem::swap(&mut self.entries, &mut v);
            proof {
                assert(last == r);
                assert(self@ =~= old(self)@.remove(r));
            }
            return r;
        }
        let ghost s1 = v@;
        v.set(0, last);
        proof {
            lemma_update_multiset(s1, 0, last);
            s1.to_multiset_ensures();
            assert(s1.contains(r));
            assert(v@.to_multiset() =~= old(self)@.remove(r));
            assert(heap_shape_down(v@, 0));
        }
        let mut i: usize = 0;
        let n = v.len();
        while i < n / 2
            invariant
                n == v@.len(),
                n >= 1,
                i <= n,
                v@.to_multiset() == old(self)@.remove(r),
                v@.len() == old(self)@.len() - 1,
                heap_shape_down(v@, i as int),
            decreases n - i,
        {
            proof {
                assert(2 * (i as int) + 1 < n);
            }
            let l = 2 * i + 1;
            let rc = 2 * i + 2;
            let c = if rc < n && v[rc].dist < v[l].dist {
                rc
            } else {
                l
            };
            if v[i].dist > v[c].dist {
                let ghost s = v@;
                let a = v[i];
                let b = v[c];
                v.set(i, b);
                v.set(c, a);
                proof {
                    lemma_swap_multiset(s, i as int, c as int);
                    assert(heap_shape_down(v@, c as int));
                }
                i = c;
            } else {
                proof {
                    assert(heap_shape_down(v@, n as int));
                }
                i = n;
            }
        }
        proof {
            assert(heap_shape(v@));
        }
        core::mem::swap(&mut self.entries, &mut v);
        r
    }
}

} // verus!
