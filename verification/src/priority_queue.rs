//! A binary min-heap over items with a `PartialOrd` comparison.
//!
//! The heap only ever asks `lt` of its items. Its multiset of contents is
//! tracked exactly. When the item comparison is a strict weak order that
//! Verus knows (see [`cmp_reliable`]), `pop` and `peek` are additionally
//! guaranteed to deliver a minimal item.

use vstd::prelude::*;

verus! {

use core::cmp::Ordering;
use vstd::multiset::Multiset;
use vstd::std_specs::cmp::PartialOrdSpec;

broadcast use vstd::seq_lib::group_to_multiset_ensures;

/// `a` is strictly below `b` under the item comparison.
pub open spec fn below<T: PartialOrd>(a: T, b: T) -> bool {
    a.partial_cmp_spec(&b) == Some(Ordering::Less)
}

/// The item comparison is visible to Verus and behaves as a strict weak
/// order: `below` is asymmetric, transitive, and its complement is
/// transitive. Every total order satisfies this; a comparison with
/// tolerance-based equality in general does not, and for such items only
/// the multiset guarantees of the queue apply.
pub open spec fn cmp_reliable<T: PartialOrd>() -> bool {
    &&& T::obeys_partial_cmp_spec()
    &&& forall|a: T, b: T| #[trigger] below(a, b) ==> !below(b, a)
    &&& forall|a: T, b: T, c: T| #[trigger] below(a, b) && #[trigger] below(b, c) ==> below(a, c)
    &&& forall|a: T, b: T, c: T|
        !(#[trigger] below(a, b)) && !(#[trigger] below(b, c)) ==> !below(a, c)
}

/// Position of the parent of heap slot `i`.
pub open spec fn parent_index(i: int) -> int {
    (i - 1) / 2
}

/// Slot `i` does not undercut its parent.
pub open spec fn heap_edge_ok<T: PartialOrd>(s: Seq<T>, i: int) -> bool {
    !below(s[i], s[parent_index(i)])
}

/// The slots form a binary min-heap: no slot undercuts its parent.
pub open spec fn is_heap<T: PartialOrd>(s: Seq<T>) -> bool {
    forall|i: int| 1 <= i < s.len() ==> #[trigger] heap_edge_ok(s, i)
}

/// Exchanges the item at position `i` with the last item.
fn swap_with_last<T>(v: &mut Vec<T>, i: usize)
    requires
        i < old(v)@.len(),
    ensures
        final(v)@ == old(v)@.update(i as int, old(v)@.last()).update(
            old(v)@.len() - 1,
            old(v)@[i as int],
        ),
{
    let moved = v.swap_remove(i);
    v.push(moved);
    proof {
        assert(v@ =~= old(v)@.update(i as int, old(v)@.last()).update(
            old(v)@.len() - 1,
            old(v)@[i as int],
        ));
    }
}

/// Exchanges the items at positions `i` and `j`.
fn swap_items<T>(v: &mut Vec<T>, i: usize, j: usize)
    requires
        i < old(v)@.len(),
        j < old(v)@.len(),
    ensures
        final(v)@ == old(v)@.update(i as int, old(v)@[j as int]).update(
            j as int,
            old(v)@[i as int],
        ),
{
    let last = v.len() - 1;
    if i != j {
        swap_with_last(v, i);
        if j != last {
            swap_with_last(v, j);
            swap_with_last(v, i);
        }
    }
    proof {
        assert(v@ =~= old(v)@.update(i as int, old(v)@[j as int]).update(
            j as int,
            old(v)@[i as int],
        ));
    }
}

/// The storage during an upward sift: every slot except `cur` respects its
/// parent, and the slots under `cur` do not undercut `cur`'s parent either.
pub open spec fn sift_up_ok<T: PartialOrd>(s: Seq<T>, cur: int) -> bool {
    &&& forall|i: int| 1 <= i < s.len() && i != cur ==> #[trigger] heap_edge_ok(s, i)
    &&& cur != 0 ==> forall|i: int|
        1 <= i < s.len() && parent_index(i) == cur ==> !below(
            #[trigger] s[i],
            s[parent_index(cur)],
        )
}

/// Swapping a sifted-up slot with its parent moves the sift frontier to
/// the parent.
proof fn lemma_sift_up_swap<T: PartialOrd>(s: Seq<T>, cur: int)
    requires
        cmp_reliable::<T>(),
        1 <= cur < s.len(),
        sift_up_ok(s, cur),
        below(s[cur], s[parent_index(cur)]),
    ensures
        sift_up_ok(
            s.update(cur, s[parent_index(cur)]).update(parent_index(cur), s[cur]),
            parent_index(cur),
        ),
{
    let par = parent_index(cur);
    let t = s.update(cur, s[par]).update(par, s[cur]);
    assert forall|i: int| 1 <= i < t.len() && i != par implies #[trigger] heap_edge_ok(t, i) by {
        if i == cur {
            assert(!below(s[par], s[cur]));
        } else if parent_index(i) == par {
            assert(heap_edge_ok(s, i));
            assert(!below(s[i], s[cur]));
        } else if parent_index(i) == cur {
            assert(!below(s[i], s[par]));
        } else {
            assert(heap_edge_ok(s, i));
        }
    }
    if par != 0 {
        let gp = parent_index(par);
        assert forall|i: int| 1 <= i < t.len() && parent_index(i) == par implies !below(
            #[trigger] t[i],
            t[gp],
        ) by {
            assert(heap_edge_ok(s, par));
            if i == cur {
                assert(!below(s[par], s[gp]));
            } else {
                assert(heap_edge_ok(s, i));
                assert(!below(s[i], s[par]));
            }
        }
    }
}

/// The storage during a downward sift: every slot except the children of
/// `cur` respects its parent, and the children of `cur` do not undercut
/// `cur`'s parent either.
pub open spec fn sift_down_ok<T: PartialOrd>(s: Seq<T>, cur: int) -> bool {
    &&& forall|i: int|
        1 <= i < s.len() && parent_index(i) != cur ==> #[trigger] heap_edge_ok(s, i)
    &&& cur != 0 ==> forall|i: int|
        1 <= i < s.len() && parent_index(i) == cur ==> !below(
            #[trigger] s[i],
            s[parent_index(cur)],
        )
}

/// Swapping a sifted-down slot with its least child moves the sift
/// frontier to that child.
proof fn lemma_sift_down_swap<T: PartialOrd>(s: Seq<T>, cur: int, nc: int)
    requires
        cmp_reliable::<T>(),
        0 <= cur < s.len(),
        nc == 2 * cur + 1 || nc == 2 * cur + 2,
        nc < s.len(),
        sift_down_ok(s, cur),
        below(s[nc], s[cur]),
        forall|oc: int|
            2 * cur + 1 <= oc <= 2 * cur + 2 && oc < s.len() && oc != nc ==> !below(
                #[trigger] s[oc],
                s[nc],
            ),
    ensures
        sift_down_ok(s.update(cur, s[nc]).update(nc, s[cur]), nc),
{
    let t = s.update(cur, s[nc]).update(nc, s[cur]);
    assert forall|i: int| 1 <= i < t.len() && parent_index(i) != nc implies #[trigger] heap_edge_ok(
        t,
        i,
    ) by {
        if i == nc {
            assert(!below(s[cur], s[nc]));
        } else if parent_index(i) == cur {
            assert(!below(s[i], s[nc]));
        } else if i == cur {
            assert(!below(s[nc], s[parent_index(cur)]));
        } else {
            assert(heap_edge_ok(s, i));
        }
    }
    assert forall|i: int| 1 <= i < t.len() && parent_index(i) == nc implies !below(
        #[trigger] t[i],
        t[parent_index(nc)],
    ) by {
        assert(heap_edge_ok(s, i));
    }
}

/// In a heap, no slot is below the root.
proof fn lemma_heap_root_min<T: PartialOrd>(s: Seq<T>, i: int)
    requires
        cmp_reliable::<T>(),
        is_heap(s),
        0 <= i < s.len(),
    ensures
        !below(s[i], s[0]),
    decreases i,
{
    if i > 0 {
        lemma_heap_root_min(s, parent_index(i));
        assert(heap_edge_ok(s, i));
    }
}

/// Items tie under the comparison only when they are equal. The event
/// tie-break order is built to satisfy this: time, category, tie-break
/// distance, location and slot identity together identify an event.
pub open spec fn cmp_ties_only_equal<T: PartialOrd>() -> bool {
    forall|a: T, b: T| !(#[trigger] below(a, b)) && !(#[trigger] below(b, a)) ==> a == b
}

/// Determinism of event processing: when ties happen only between equal
/// items, a collection of items has at most one minimal item. Two queues
/// holding the same items therefore agree on what `pop` returns, no matter
/// in which order the items were inserted into each.
pub proof fn lemma_minimum_unique<T: PartialOrd>(m: Multiset<T>, x1: T, x2: T)
    requires
        cmp_ties_only_equal::<T>(),
        m.count(x1) > 0,
        m.count(x2) > 0,
        forall|y: T| #[trigger] m.count(y) > 0 ==> !below(y, x1),
        forall|y: T| #[trigger] m.count(y) > 0 ==> !below(y, x2),
    ensures
        x1 == x2,
{
    assert(!below(x1, x2));
    assert(!below(x2, x1));
}

/// In a heap, nothing in the multiset of slots is below the root.
proof fn lemma_heap_root_min_all<T: PartialOrd>(s: Seq<T>)
    requires
        cmp_reliable::<T>(),
        is_heap(s),
        s.len() > 0,
    ensures
        forall|y: T| #[trigger] s.to_multiset().count(y) > 0 ==> !below(y, s[0]),
{
    assert forall|y: T| #[trigger] s.to_multiset().count(y) > 0 implies !below(y, s[0]) by {
        assert(s.contains(y));
        let i = choose|i: int| 0 <= i < s.len() && s[i] == y;
        lemma_heap_root_min(s, i);
    }
}

/// The event priority queue: a binary min-heap.
pub struct PriorityQueue<T: PartialOrd> {
    size: usize,
    content: Vec<T>,
}

impl<T: PartialOrd> View for PriorityQueue<T> {
    type V = Multiset<T>;

    /// The queue is modelled by the multiset of items it holds.
    closed spec fn view(&self) -> Multiset<T> {
        self.content@.to_multiset()
    }
}

impl<T: PartialOrd> PriorityQueue<T> {
    /// The recorded size matches the storage, and — whenever the item
    /// comparison is reliable — the storage is heap-ordered.
    pub closed spec fn wf(&self) -> bool {
        &&& self.size == self.content@.len()
        &&& cmp_reliable::<T>() ==> is_heap(self.content@)
    }

    /// Creates an empty queue.
    pub fn new() -> (r: Self)
        ensures
            r.wf(),
            r@ == Multiset::<T>::empty(),
    {
        let r = Self { size: 0, content: Vec::new() };
        proof {
            assert(r.content@.to_multiset() =~= Multiset::<T>::empty());
        }
        r
    }

    /// Discards all items.
    pub fn initialize(&mut self)
        ensures
            final(self).wf(),
            final(self)@ == Multiset::<T>::empty(),
    {
        self.size = 0;
        self.content = Vec::new();
        proof {
            assert(self.content@.to_multiset() =~= Multiset::<T>::empty());
        }
    }

    /// Adds an item to the queue.
    pub fn insert(&mut self, item: T)
        requires
            old(self).wf(),
        ensures
            final(self).wf(),
            final(self)@ == old(self)@.insert(item),
    {
        let ghost m = old(self)@.insert(item);
        self.content.push(item);
        let mut cur: usize = self.size;
        proof {
            if cmp_reliable::<T>() {
                assert forall|i: int| 1 <= i < self.content@.len() && i != cur implies #[trigger]
                heap_edge_ok(self.content@, i) by {
                    assert(heap_edge_ok(old(self).content@, i));
                }
            }
        }
        let mut sifting = true;
        while sifting && cur != 0
            invariant
                self.size == old(self).size,
                self.content@.len() == self.size + 1,
                cur < self.content@.len(),
                self.content@.to_multiset() == m,
                cmp_reliable::<T>() ==> sift_up_ok(self.content@, cur as int),
                !sifting && cmp_reliable::<T>() ==> is_heap(self.content@),
            decreases (if sifting {
                1int
            } else {
                0int
            }), cur,
        {
            let par: usize = (cur - 1) / 2;
            if self.content[cur].lt(&self.content[par]) {
                let ghost s = self.content@;
                swap_items(&mut self.content, cur, par);
                proof {
                    if cmp_reliable::<T>() {
                        lemma_sift_up_swap(s, cur as int);
                    }
                    assert(self.content@.to_multiset() =~= m) by {
                        assert(s.contains(s[cur as int]));
                        assert(s.contains(s[par as int]));
                    }
                }
                cur = par;
            } else {
                sifting = false;
                proof {
                    if cmp_reliable::<T>() {
                        assert(heap_edge_ok(self.content@, cur as int));
                        assert forall|i: int|
                            1 <= i < self.content@.len() implies #[trigger] heap_edge_ok(
                            self.content@,
                            i,
                        ) by {
                            assert(sift_up_ok(self.content@, cur as int));
                        }
                    }
                }
            }
        }
        self.size = self.content.len();
        proof {
            if cmp_reliable::<T>() && cur == 0 {
                assert forall|i: int| 1 <= i < self.content@.len() implies #[trigger] heap_edge_ok(
                    self.content@,
                    i,
                ) by {
                    assert(sift_up_ok(self.content@, 0));
                }
            }
        }
    }

    /// Tells whether the queue holds no item.
    pub fn is_empty(&self) -> (r: bool)
        requires
            self.wf(),
        ensures
            r <==> self@.len() == 0,
    {
        self.size == 0
    }

    /// Shows the least item without removing it. Returns `None` exactly
    /// when the queue is empty; under a reliable comparison the shown item
    /// is minimal among the queued items.
    pub fn peek(&self) -> (r: Option<&T>)
        requires
            self.wf(),
        ensures
            match r {
                None => self@.len() == 0,
                Some(x) => {
                    &&& self@.count(*x) > 0
                    &&& cmp_reliable::<T>() ==> forall|y: T|
                        #[trigger] self@.count(y) > 0 ==> !below(y, *x)
                },
            },
    {
        if self.is_empty() {
            return None;
        }
        proof {
            assert(self.content@.contains(self.content@[0]));
            if cmp_reliable::<T>() {
                lemma_heap_root_min_all(self.content@);
            }
        }
        Some(&self.content[0])
    }

    /// Removes and returns the least item. Returns `None` exactly when the
    /// queue is empty; otherwise the returned item leaves the multiset of
    /// queued items, and under a reliable comparison it is minimal among
    /// them.
    pub fn pop(&mut self) -> (r: Option<T>)
        requires
            old(self).wf(),
        ensures
            final(self).wf(),
            match r {
                None => old(self)@.len() == 0 && final(self)@ == old(self)@,
                Some(x) => {
                    &&& old(self)@.count(x) > 0
                    &&& final(self)@ == old(self)@.remove(x)
                    &&& cmp_reliable::<T>() ==> forall|y: T|
                        #[trigger] old(self)@.count(y) > 0 ==> !below(y, x)
                },
            },
    {
        if self.is_empty() {
            return None;
        }
        let ghost s0 = self.content@;
        proof {
            assert(s0.contains(s0[0]));
            if cmp_reliable::<T>() {
                lemma_heap_root_min_all(s0);
            }
        }
        let ret = self.content.swap_remove(0);
        self.size = self.content.len();
        proof {
            assert(self.content@.to_multiset() =~= old(self)@.remove(ret)) by {
                assert(s0.update(0, s0.last()).drop_last() =~= s0.update(0, s0.last()).remove(
                    s0.len() - 1,
                ));
            }
            if cmp_reliable::<T>() {
                assert forall|i: int|
                    1 <= i < self.content@.len() && parent_index(i) != 0 implies #[trigger]
                heap_edge_ok(self.content@, i) by {
                    assert(heap_edge_ok(s0, i));
                }
            }
        }
        let mut cur: usize = 0;
        let mut sifting = true;
        while sifting && cur < self.size / 2
            invariant
                self.size == self.content@.len(),
                cur < self.content@.len() || self.content@.len() == 0,
                self.content@.to_multiset() == old(self)@.remove(ret),
                cmp_reliable::<T>() ==> sift_down_ok(self.content@, cur as int),
                !sifting && cmp_reliable::<T>() ==> is_heap(self.content@),
            decreases (if sifting {
                1int
            } else {
                0int
            }), self.content@.len() - cur,
        {
            let lc = cur * 2 + 1;
            let rc = lc + 1;
            let nc = if rc >= self.size {
                lc
            } else if self.content[lc].lt(&self.content[rc]) {
                lc
            } else {
                rc
            };
            if self.content[nc].lt(&self.content[cur]) {
                let ghost s = self.content@;
                swap_items(&mut self.content, cur, nc);
                proof {
                    if cmp_reliable::<T>() {
                        lemma_sift_down_swap(s, cur as int, nc as int);
                    }
                    assert(self.content@.to_multiset() =~= old(self)@.remove(ret)) by {
                        assert(s.contains(s[cur as int]));
                        assert(s.contains(s[nc as int]));
                    }
                }
                cur = nc;
            } else {
                sifting = false;
                proof {
                    if cmp_reliable::<T>() {
                        let s = self.content@;
                        let c = cur as int;
                        assert(!below(s[nc as int], s[c]));
                        assert forall|i: int| 1 <= i < s.len() implies #[trigger] heap_edge_ok(
                            s,
                            i,
                        ) by {
                            if parent_index(i) == c {
                                assert(i == 2 * c + 1 || i == 2 * c + 2);
                                if i != nc as int {
                                    if nc == lc {
                                        assert(below(s[lc as int], s[rc as int]));
                                        if below(s[i], s[c]) {
                                            assert(below(s[lc as int], s[c]));
                                        }
                                    } else {
                                        assert(!below(s[lc as int], s[rc as int]));
                                        assert(!below(s[i], s[c]));
                                    }
                                }
                            }
                        }
                    }
                }
            }
        }
        proof {
            if cmp_reliable::<T>() && sifting {
                assert forall|i: int| 1 <= i < self.content@.len() implies #[trigger] heap_edge_ok(
                    self.content@,
                    i,
                ) by {
                    assert(parent_index(i) != cur as int);
                }
            }
        }
        Some(ret)
    }
}

} // verus!
