//! Nearest-first priority queue for the Voronoi flood fill frontier.
//!
//! A binary min-heap over a total order that compares squared distance first
//! and then breaks ties deterministically by seed index and pixel position,
//! so the fill pops the globally nearest claim and is reproducible for a
//! fixed input order.

use vstd::prelude::*;

verus! {

use vstd::multiset::Multiset;

broadcast use vstd::multiset::group_multiset_axioms, vstd::seq_lib::group_to_multiset_ensures;

/// A frontier item of the flood fill: a pixel proposed as reachable from the
/// seed numbered `node_index`, at squared domain distance `sqdistance` from
/// that seed's position. Never mutated after creation.
#[derive(Clone, Copy, Debug, PartialEq, Eq, Structural)]
pub struct VoronoiPixel {
    pub px: usize,
    pub py: usize,
    pub node_index: usize,
    pub sqdistance: i64,
}

/// Nearest-first total order on frontier items: ascending distance, ties
/// broken by seed index, then pixel row, then pixel column.
pub open spec fn pixel_le(a: VoronoiPixel, b: VoronoiPixel) -> bool {
    if a.sqdistance != b.sqdistance {
        a.sqdistance < b.sqdistance
    } else if a.node_index != b.node_index {
        a.node_index < b.node_index
    } else if a.py != b.py {
        a.py < b.py
    } else {
        a.px <= b.px
    }
}

/// Decides `pixel_le`.
pub fn pixel_le_exec(a: &VoronoiPixel, b: &VoronoiPixel) -> (r: bool)
    ensures
        r == pixel_le(*a, *b),
{
    if a.sqdistance != b.sqdistance {
        a.sqdistance < b.sqdistance
    } else if a.node_index != b.node_index {
        a.node_index < b.node_index
    } else if a.py != b.py {
        a.py < b.py
    } else {
        a.px <= b.px
    }
}

/// The binary-heap shape: every element is preceded by its parent.
pub open spec fn heap_wf(s: Seq<VoronoiPixel>) -> bool {
    forall|i: int| 1 <= i < s.len() ==> pixel_le(s[(i - 1) / 2], #[trigger] s[i])
}

/// In a well-shaped heap the root precedes every element.
proof fn lemma_heap_root_le(s: Seq<VoronoiPixel>, i: int)
    requires
        heap_wf(s),
        0 <= i < s.len(),
    ensures
        pixel_le(s[0], s[i]),
    decreases i,
{
    if i > 0 {
        lemma_heap_root_le(s, (i - 1) / 2);
    }
}

/// Exchanging two elements of a sequence keeps its multiset of elements.
proof fn lemma_swap_multiset(s: Seq<VoronoiPixel>, i: int, j: int)
    requires
        0 <= i < s.len(),
        0 <= j < s.len(),
    ensures
        s.update(i, s[j]).update(j, s[i]).to_multiset() == s.to_multiset(),
{
    let t = s.update(i, s[j]).update(j, s[i]);
    if i == j {
        assert(t =~= s);
    } else {
        assert(t.to_multiset() =~= s.to_multiset());
    }
}

/// A min-priority queue of frontier items, viewed as the multiset of the
/// items it holds.
pub struct MinQueue {
    items: Vec<VoronoiPixel>,
}

impl View for MinQueue {
    type V = Multiset<VoronoiPixel>;

    closed spec fn view(&self) -> Multiset<VoronoiPixel> {
        self.items@.to_multiset()
    }
}

impl MinQueue {
    /// The heap shape invariant of the backing vector.
    pub closed spec fn wf(&self) -> bool {
        heap_wf(self.items@)
    }

    /// An empty queue.
    pub fn new() -> (q: Self)
        ensures
            q@ == Multiset::<VoronoiPixel>::empty(),
            q.wf(),
    {
        let q = MinQueue { items: Vec::new() };
        proof {
            assert(q.items@.to_multiset() =~= Multiset::<VoronoiPixel>::empty()) by {
                assert(q.items@.to_multiset().len() == 0);
            }
        }
        q
    }

    /// Number of items held.
    pub fn len(&self) -> (n: usize)
        ensures
            n == self@.len(),
    {
        self.items.len()
    }

    /// Adds one item and sifts it up to restore the heap shape.
    pub fn push(&mut self, p: VoronoiPixel)
        requires
            old(self).wf(),
        ensures
            final(self)@ == old(self)@.insert(p),
            final(self).wf(),
    {
        self.items.push(p);
        proof {
            assert(self.items@ == old(self).items@.push(p));
            assert(self.items@.drop_last() =~= old(self).items@);
        }
        let mut i: usize = self.items.len() - 1;
        while i > 0
            invariant
                i < self.items@.len(),
                self.items@.to_multiset() == old(self)@.insert(p),
                forall|j: int|
                    1 <= j < self.items@.len() && j != i ==> pixel_le(
                        self.items@[(j - 1) / 2],
                        #[trigger] self.items@[j],
                    ),
                forall|j: int|
                    0 <= j < self.items@.len() && i >= 1 && (j == 2 * i + 1 || j == 2 * i + 2)
                        ==> pixel_le(self.items@[(i - 1) / 2], #[trigger] self.items@[j]),
            decreases i,
        {
            let parent: usize = (i - 1) / 2;
            if pixel_le_exec(&self.items[i], &self.items[parent]) {
                let ghost s = self.items@;
                let a = self.items[i];
                let b = self.items[parent];
                self.items.set(i, b);
                self.items.set(parent, a);
                proof {
                    lemma_swap_multiset(s, i as int, parent as int);
                    assert(self.items@ =~= s.update(i as int, s[parent as int]).update(
                        parent as int,
                        s[i as int],
                    ));
                }
                i = parent;
            } else {
                return ;
            }
        }
    }

    /// Removes and returns the least item under `pixel_le`. The result was
    /// held by the queue, the queue loses exactly that one occurrence, and
    /// the result precedes every item that was held.
    pub fn pop(&mut self) -> (r: VoronoiPixel)
        requires
            old(self).wf(),
            old(self)@.len() > 0,
        ensures
            old(self)@.count(r) > 0,
            final(self)@ == old(self)@.remove(r),
            final(self).wf(),
            forall|q: VoronoiPixel| #[trigger] old(self)@.count(q) > 0 ==> pixel_le(r, q),
    {
        let ghost s0 = self.items@;
        let r = self.items[0];
        proof {
            assert(s0.contains(r));
            assert forall|q: VoronoiPixel| #[trigger] old(self)@.count(q) > 0 implies pixel_le(
                r,
                q,
            ) by {
                assert(s0.contains(q));
                let j = choose|j: int| 0 <= j < s0.len() && s0[j] == q;
                lemma_heap_root_le(s0, j);
            }
        }
        let last = self.items.pop().unwrap();
        if self.items.len() == 0 {
            proof {
                assert(s0.drop_last() =~= s0.subrange(0, s0.len() - 1));
                assert(s0 =~= s0.drop_last().push(last));
                assert(s0.drop_last().to_multiset().len() == 0);
                assert(self.items@.to_multiset() =~= old(self)@.remove(r));
            }
            return r;
        }
        let ghost s1 = self.items@;
        self.items.set(0, last);
        proof {
            assert(s1 =~= s0.subrange(0, s0.len() - 1));
            assert(s0 =~= s1.push(last));
            assert(s0.to_multiset() == s1.to_multiset().insert(last));
            assert(self.items@ =~= s1.update(0, last));
            assert(self.items@.to_multiset() == s1.to_multiset().insert(last).remove(s1[0]));
            assert(s1[0] == r);
            assert(self.items@.to_multiset() =~= old(self)@.remove(r));
        }
        let mut i: usize = 0;
        let n = self.items.len();
        while i < n / 2
            invariant
                n == self.items@.len(),
                n >= 1,
                i < n,
                old(self)@.count(r) > 0,
                forall|q: VoronoiPixel| #[trigger] old(self)@.count(q) > 0 ==> pixel_le(r, q),
                self.items@.to_multiset() == old(self)@.remove(r),
                forall|j: int|
                    1 <= j < n && (j - 1) / 2 != i ==> pixel_le(
                        self.items@[(j - 1) / 2],
                        #[trigger] self.items@[j],
                    ),
                forall|j: int|
                    1 <= j < n && (j - 1) / 2 == i && i >= 1 ==> pixel_le(
                        self.items@[(i - 1) / 2],
                        #[trigger] self.items@[j],
                    ),
            decreases n - i,
        {
            let c1 = 2 * i + 1;
            let c2 = 2 * i + 2;
            let smaller: usize = if c2 < n && pixel_le_exec(&self.items[c2], &self.items[c1]) {
                c2
            } else {
                c1
            };
            if pixel_le_exec(&self.items[smaller], &self.items[i]) {
                let ghost s = self.items@;
                let a = self.items[smaller];
                let b = self.items[i];
                self.items.set(smaller, b);
                self.items.set(i, a);
                proof {
                    lemma_swap_multiset(s, smaller as int, i as int);
                    assert(self.items@ =~= s.update(smaller as int, s[i as int]).update(
                        i as int,
                        s[smaller as int],
                    ));
                }
                i = smaller;
            } else {
                proof {
                    assert(pixel_le(self.items@[i as int], self.items@[2 * i + 1]));
                    if 2 * i + 2 < n {
                        assert(pixel_le(self.items@[i as int], self.items@[2 * i + 2]));
                    }
                }
                return r;
            }
        }
        r
    }
}

} // verus!
