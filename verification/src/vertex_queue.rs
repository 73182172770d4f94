//! The wavefront topology: circular doubly linked chains of queue slots.
//!
//! Each slot refers to a vertex in the skeleton's append-only arena by a
//! *real* index, and to its chain neighbours by *pointer* indices (positions
//! in the slot array). Slots are never deallocated: a merge retires a slot
//! by flagging it done, a split appends a fresh slot. The live slots always
//! form disjoint circular chains; [`VertexQueue::linked`] captures this.

use vstd::prelude::*;

verus! {

/// Distinguishes positions in the slot array (`PointerIndex`) from
/// positions in the vertex arena (`RealIndex`).
#[derive(Clone, Copy, Debug, PartialEq, Eq, Structural, PartialOrd)]
pub enum IndexType {
    PointerIndex(usize),
    RealIndex(usize),
}

impl IndexType {
    /// The position in the slot array held by a `PointerIndex`.
    pub fn get_index(&self) -> (r: usize)
        requires
            self is PointerIndex,
        ensures
            *self == IndexType::PointerIndex(r),
    {
        match self {
            IndexType::PointerIndex(res) => *res,
            IndexType::RealIndex(_) => unreached(),
        }
    }

    /// The position in the vertex arena held by a `RealIndex`.
    pub fn get_real_index(&self) -> (r: usize)
        requires
            self is RealIndex,
        ensures
            *self == IndexType::RealIndex(r),
    {
        match self {
            IndexType::RealIndex(res) => *res,
            IndexType::PointerIndex(_) => unreached(),
        }
    }
}

/// One wavefront slot: the arena vertex it stands for, its two chain
/// neighbours, and whether it has been retired.
#[derive(Clone, Copy, Debug)]
pub struct Node {
    pub index: IndexType,
    pub left: IndexType,
    pub right: IndexType,
    pub done: bool,
}

impl Node {
    /// The slot's fields are of the right kinds and its neighbour
    /// positions fall inside a slot array of length `len`.
    pub open spec fn shape_ok(self, len: int) -> bool {
        &&& self.index is RealIndex
        &&& self.left matches IndexType::PointerIndex(l) && l < len
        &&& self.right matches IndexType::PointerIndex(r) && r < len
    }

    /// Creates a live slot for arena vertex `index` between the slots at
    /// positions `left` and `right`.
    pub fn new(index: usize, left: usize, right: usize) -> (r: Self)
        ensures
            r == (Node {
                index: IndexType::RealIndex(index),
                left: IndexType::PointerIndex(left),
                right: IndexType::PointerIndex(right),
                done: false,
            }),
    {
        Self {
            index: IndexType::RealIndex(index),
            left: IndexType::PointerIndex(left),
            right: IndexType::PointerIndex(right),
            done: false,
        }
    }

    /// The left neighbour position.
    pub fn lv(&self) -> (r: IndexType)
        ensures
            r == self.left,
    {
        self.left
    }

    /// The right neighbour position.
    pub fn rv(&self) -> (r: IndexType)
        ensures
            r == self.right,
    {
        self.right
    }
}

/// The wavefront topology: the slot array and the registered chain starts.
#[derive(Clone, Debug)]
pub struct VertexQueue {
    pub content: Vec<Node>,
    pub start_vertex: Vec<usize>,
}

impl VertexQueue {
    /// Every slot and every registered chain start is in bounds and of the
    /// right shape.
    pub open spec fn wf(self) -> bool {
        &&& forall|i: int|
            0 <= i < self.content@.len() ==> (#[trigger] self.content@[i]).shape_ok(
                self.content@.len() as int,
            )
        &&& forall|i: int|
            0 <= i < self.start_vertex@.len() ==> #[trigger] self.start_vertex@[i]
                < self.content@.len()
    }

    /// The slot at position `i` is still part of the live wavefront.
    pub open spec fn live(self, i: int) -> bool {
        !self.content@[i].done
    }

    /// The left neighbour position recorded in slot `i`.
    pub open spec fn left_of(self, i: int) -> int {
        self.content@[i].left->PointerIndex_0 as int
    }

    /// The right neighbour position recorded in slot `i`.
    pub open spec fn right_of(self, i: int) -> int {
        self.content@[i].right->PointerIndex_0 as int
    }

    /// The live slots form disjoint circular chains: each live slot's
    /// neighbours are live and point back at it.
    pub open spec fn linked(self) -> bool {
        forall|i: int|
            0 <= i < self.content@.len() && #[trigger] self.live(i) ==> {
                &&& self.live(self.left_of(i))
                &&& self.live(self.right_of(i))
                &&& self.right_of(self.left_of(i)) == i
                &&& self.left_of(self.right_of(i)) == i
            }
    }

    /// Every registered chain start points at a live slot, as the cleanup
    /// pass leaves them.
    pub open spec fn starts_live(self) -> bool {
        forall|k: int|
            0 <= k < self.start_vertex@.len() ==> self.live(
                (#[trigger] self.start_vertex@[k]) as int,
            )
    }

    /// Creates an empty topology.
    pub fn new() -> (r: Self)
        ensures
            r.wf(),
            r.linked(),
            r.content@ == Seq::<Node>::empty(),
            r.start_vertex@ == Seq::<usize>::empty(),
    {
        Self { content: Vec::new(), start_vertex: Vec::new() }
    }

    /// The arena vertex currently represented by the slot at position `cv`.
    pub fn get_real_index(&self, cv: IndexType) -> (r: usize)
        requires
            self.wf(),
            cv matches IndexType::PointerIndex(c) && c < self.content@.len(),
        ensures
            self.content@[cv->PointerIndex_0 as int].index == IndexType::RealIndex(r),
    {
        match cv {
            IndexType::PointerIndex(c) => self.content[c].index.get_real_index(),
            IndexType::RealIndex(_) => unreached(),
        }
    }

    /// The left neighbour of the slot at position `cv`.
    pub fn lv(&self, cv: IndexType) -> (r: IndexType)
        requires
            self.wf(),
            cv matches IndexType::PointerIndex(c) && c < self.content@.len(),
        ensures
            r == self.content@[cv->PointerIndex_0 as int].left,
            r matches IndexType::PointerIndex(l) && l < self.content@.len(),
    {
        match cv {
            IndexType::PointerIndex(c) => self.content[c].left,
            IndexType::RealIndex(_) => unreached(),
        }
    }

    /// The right neighbour of the slot at position `cv`.
    pub fn rv(&self, cv: IndexType) -> (r: IndexType)
        requires
            self.wf(),
            cv matches IndexType::PointerIndex(c) && c < self.content@.len(),
        ensures
            r == self.content@[cv->PointerIndex_0 as int].right,
            r matches IndexType::PointerIndex(rr) && rr < self.content@.len(),
    {
        match cv {
            IndexType::PointerIndex(c) => self.content[c].right,
            IndexType::RealIndex(_) => unreached(),
        }
    }

    /// The left neighbour of the left neighbour of `cv`.
    pub fn llv(&self, cv: IndexType) -> (r: IndexType)
        requires
            self.wf(),
            cv matches IndexType::PointerIndex(c) && c < self.content@.len(),
        ensures
            r == self.content@[self.left_of(cv->PointerIndex_0 as int)].left,
    {
        let cv = self.lv(cv);
        self.lv(cv)
    }

    /// The right neighbour of the right neighbour of `cv`.
    pub fn rrv(&self, cv: IndexType) -> (r: IndexType)
        requires
            self.wf(),
            cv matches IndexType::PointerIndex(c) && c < self.content@.len(),
        ensures
            r == self.content@[self.right_of(cv->PointerIndex_0 as int)].right,
    {
        let cv = self.rv(cv);
        self.rv(cv)
    }

    /// The lazy-deletion test of the event loop: a recorded candidate is
    /// stale when the slot it names has retired, or no longer stands for
    /// the arena vertex recorded at enqueue time.
    pub fn is_stale(&self, cv: IndexType, recorded: usize) -> (r: bool)
        requires
            self.wf(),
            cv matches IndexType::PointerIndex(c) && c < self.content@.len(),
        ensures
            r == !(self.live(cv->PointerIndex_0 as int) && self.content@[cv->PointerIndex_0 as int].index
                == IndexType::RealIndex(recorded)),
    {
        match cv {
            IndexType::PointerIndex(c) => {
                let node = self.content[c];
                node.done || node.index.get_real_index() != recorded
            },
            IndexType::RealIndex(_) => unreached(),
        }
    }

    /// The slot array after unlinking the slot at position `c`: its
    /// neighbours are spliced together and the slot itself retires.
    #[verifier::opaque]
    pub open spec fn after_remove(content: Seq<Node>, c: int) -> Seq<Node> {
        let tl = content[c].left->PointerIndex_0 as int;
        let tr = content[c].right->PointerIndex_0 as int;
        let c1 = content.update(tl, (Node { right: content[c].right, ..content[tl] }));
        let c2 = c1.update(tr, (Node { left: content[c].left, ..c1[tr] }));
        c2.update(c, (Node { done: true, ..c2[c] }))
    }

    /// Unlinks the slot at position `cv` from its chain, retires it, and
    /// returns its former right neighbour (the merged slot's position).
    pub fn remove(&mut self, cv: IndexType) -> (r: IndexType)
        requires
            old(self).wf(),
            cv matches IndexType::PointerIndex(c) && c < old(self).content@.len(),
        ensures
            r == old(self).content@[cv->PointerIndex_0 as int].right,
            final(self).content@ == Self::after_remove(
                old(self).content@,
                cv->PointerIndex_0 as int,
            ),
            final(self).start_vertex@ == old(self).start_vertex@,
            final(self).content@.len() == old(self).content@.len(),
            final(self).wf(),
            old(self).linked() && old(self).live(cv->PointerIndex_0 as int) ==> final(self).linked(),
    {
        let tl = self.lv(cv);
        let tr = self.rv(cv);
        let mut node = self.content[tl.get_index()];
        node.right = tr;
        self.content[tl.get_index()] = node;
        let mut node = self.content[tr.get_index()];
        node.left = tl;
        self.content[tr.get_index()] = node;
        let mut node = self.content[cv.get_index()];
        node.done = true;
        self.content[cv.get_index()] = node;
        proof {
            let q0 = old(self);
            let c = cv->PointerIndex_0 as int;
            assert(q0.content@[c].shape_ok(q0.content@.len() as int));
            lemma_after_remove_fields(q0.content@, c);
            let t = Self::after_remove(q0.content@, c);
            assert forall|j: int| 0 <= j < self.content@.len() implies self.content@[j] == t[j] by {
                assert(t[j].done == (if j == c {
                    true
                } else {
                    q0.content@[j].done
                }));
            }
            assert(self.content@ =~= t);
            assert forall|j: int|
                0 <= j < self.content@.len() implies (#[trigger] self.content@[j]).shape_ok(
                self.content@.len() as int,
            ) by {
                assert(q0.content@[j].shape_ok(q0.content@.len() as int));
                assert(q0.content@[c].shape_ok(q0.content@.len() as int));
            }
            if q0.linked() && q0.live(c) {
                lemma_remove_preserves_linked(*q0, *self, c);
            }
        }
        tr
    }

    /// Unlinks the slot at `cv` and points the resulting merged slot (its
    /// former right neighbour) at the new arena vertex `nv`.
    #[verifier::rlimit(50)]
    pub fn remove_and_set(&mut self, cv: IndexType, nv: IndexType) -> (r: IndexType)
        requires
            old(self).wf(),
            cv matches IndexType::PointerIndex(c) && c < old(self).content@.len(),
            nv is RealIndex,
        ensures
            r == old(self).content@[cv->PointerIndex_0 as int].right,
            final(self).content@ == ({
                let c = cv->PointerIndex_0 as int;
                let removed = Self::after_remove(old(self).content@, c);
                let tr = old(self).content@[c].right->PointerIndex_0 as int;
                removed.update(tr, (Node { index: nv, ..removed[tr] }))
            }),
            final(self).start_vertex@ == old(self).start_vertex@,
            final(self).content@.len() == old(self).content@.len(),
            final(self).wf(),
            old(self).linked() && old(self).live(cv->PointerIndex_0 as int) ==> final(self).linked(),
    {
        let ghost c = cv->PointerIndex_0 as int;
        let merged = self.remove(cv);
        let ghost mid = *self;
        proof {
            assert(old(self).content@[c].shape_ok(old(self).content@.len() as int));
            lemma_after_remove_fields(old(self).content@, c);
        }
        if let IndexType::RealIndex(_) = nv {
            let mut node = self.content[merged.get_index()];
            node.index = nv;
            self.content[merged.get_index()] = node;
        } else {
            unreached()
        }
        proof {
            if old(self).linked() && old(self).live(c) {
                assert forall|i: int| 0 <= i < self.content@.len() && #[trigger] self.live(
                    i,
                ) implies {
                    &&& self.live(self.left_of(i))
                    &&& self.live(self.right_of(i))
                    &&& self.right_of(self.left_of(i)) == i
                    &&& self.left_of(self.right_of(i)) == i
                } by {
                    assert(mid.live(i) ==> mid.live(mid.left_of(i)) && mid.live(mid.right_of(i))
                        && mid.right_of(mid.left_of(i)) == i && mid.left_of(mid.right_of(i)) == i);
                    assert(forall|j: int|
                        0 <= j < self.content@.len() ==> (#[trigger] self.content@[j]).done
                            == mid.content@[j].done && self.content@[j].left == mid.content@[j].left
                            && self.content@[j].right == mid.content@[j].right);
                }
            }
        }
        merged
    }
}

impl VertexQueue {
    /// The slot array after splitting at anchor `c` with target `s`: a
    /// fresh slot is inserted between `s` and the old right neighbour of
    /// `c`, the anchor's chain is rewired so that `c` keeps the stretch
    /// from the old right neighbour of `s` onwards, and the anchor and the
    /// fresh slot are repointed at the arena vertices `nv1` and `nv2`.
    #[verifier::opaque]
    pub open spec fn after_split(
        content: Seq<Node>,
        c: int,
        s: int,
        nv1: IndexType,
        nv2: IndexType,
    ) -> Seq<Node> {
        let n = content.len() as int;
        let cvx = content[c].right->PointerIndex_0 as int;
        let svx = content[s].right->PointerIndex_0 as int;
        let fresh = (Node {
            index: IndexType::RealIndex(0),
            left: IndexType::PointerIndex(s as usize),
            right: content[c].right,
            done: false,
        });
        let c0 = content.push(fresh);
        let c1 = c0.update(c, (Node { index: nv1, ..c0[c] }));
        let c2 = c1.update(n, (Node { index: nv2, ..c1[n] }));
        let c3 = c2.update(cvx, (Node { left: IndexType::PointerIndex(n as usize), ..c2[cvx] }));
        let c4 = c3.update(s, (Node { right: IndexType::PointerIndex(n as usize), ..c3[s] }));
        let c5 = c4.update(c, (Node { right: content[s].right, ..c4[c] }));
        c5.update(svx, (Node { left: IndexType::PointerIndex(c as usize), ..c5[svx] }))
    }

    /// The distinctness the split needs of anchor `c` and target `s`: both
    /// live, not the same slot, not adjacent, and the anchor's chain longer
    /// than two. The candidate search guarantees this of every split it
    /// proposes.
    pub open spec fn split_apart(self, c: int, s: int) -> bool {
        &&& self.live(c)
        &&& self.live(s)
        &&& c != s
        &&& self.right_of(c) != s
        &&& self.right_of(s) != c
        &&& self.left_of(c) != self.right_of(c)
    }

    /// Inserts a fresh slot between target `sv` and the old right
    /// neighbour of anchor `cv`, rewires the chain so that the anchor and
    /// the fresh slot each head one of the two resulting chains, registers
    /// both as chain starts, and points them at the arena vertices `nv1`
    /// and `nv2`. Returns the two chain heads.
    pub fn split_and_set(
        &mut self,
        cv: IndexType,
        sv: IndexType,
        nv1: IndexType,
        nv2: IndexType,
    ) -> (r: (IndexType, IndexType))
        requires
            old(self).wf(),
            cv matches IndexType::PointerIndex(c) && c < old(self).content@.len(),
            sv matches IndexType::PointerIndex(s) && s < old(self).content@.len(),
            sv->PointerIndex_0 != cv->PointerIndex_0,
            nv1 is RealIndex,
            nv2 is RealIndex,
        ensures
            final(self).content@ == Self::after_split(
                old(self).content@,
                cv->PointerIndex_0 as int,
                sv->PointerIndex_0 as int,
                nv1,
                nv2,
            ),
            final(self).start_vertex@ == old(self).start_vertex@.push(
                cv->PointerIndex_0,
            ).push(old(self).content@.len() as usize),
            r == (cv, IndexType::PointerIndex(old(self).content@.len() as usize)),
            final(self).content@.len() == old(self).content@.len() + 1,
            final(self).wf(),
            old(self).linked() && old(self).split_apart(
                cv->PointerIndex_0 as int,
                sv->PointerIndex_0 as int,
            ) ==> final(self).linked(),
    {
        let ghost c = cv->PointerIndex_0 as int;
        let ghost s = sv->PointerIndex_0 as int;
        let new_pos = self.content.len();
        let new_index = IndexType::PointerIndex(new_pos);
        let cvx = self.rv(cv);
        let svx = self.rv(sv);
        let new_node = Node::new(0, sv.get_index(), cvx.get_index());
        self.content.push(new_node);
        let mut node = self.content[cv.get_index()];
        node.index = nv1;
        self.content[cv.get_index()] = node;
        let mut node = self.content[new_pos];
        node.index = nv2;
        self.content[new_pos] = node;
        let mut node = self.content[cvx.get_index()];
        node.left = new_index;
        self.content[cvx.get_index()] = node;
        let mut node = self.content[sv.get_index()];
        node.right = new_index;
        self.content[sv.get_index()] = node;
        let mut node = self.content[cv.get_index()];
        node.right = svx;
        self.content[cv.get_index()] = node;
        let mut node = self.content[svx.get_index()];
        node.left = cv;
        self.content[svx.get_index()] = node;
        self.start_vertex.push(cv.get_index());
        self.start_vertex.push(new_pos);
        proof {
            assert(old(self).content@[c].shape_ok(old(self).content@.len() as int));
            assert(old(self).content@[s].shape_ok(old(self).content@.len() as int));
            lemma_after_split_fields(old(self).content@, c, s, nv1, nv2);
            let t = Self::after_split(old(self).content@, c, s, nv1, nv2);
            assert forall|j: int| 0 <= j < self.content@.len() implies self.content@[j] == t[j] by {
                assert(t[j].done == (if j == old(self).content@.len() as int {
                    false
                } else {
                    old(self).content@[j].done
                }));
            }
            assert(self.content@ =~= t);
            assert forall|j: int|
                0 <= j < self.content@.len() implies (#[trigger] self.content@[j]).shape_ok(
                self.content@.len() as int,
            ) by {
                assert(old(self).content@[c].shape_ok(old(self).content@.len() as int));
                assert(old(self).content@[s].shape_ok(old(self).content@.len() as int));
                if j < old(self).content@.len() {
                    assert(old(self).content@[j].shape_ok(old(self).content@.len() as int));
                }
            }
            if old(self).linked() && old(self).split_apart(c, s) {
                lemma_split_preserves_linked(*old(self), *self, c, s, nv1, nv2);
            }
        }
        (cv, new_index)
    }
}

impl VertexQueue {
    /// The slots of one fresh ring of `len` vertices starting at position
    /// `offset`: slot `offset + j` stands for arena vertex `offset + j` and
    /// its neighbours are its cyclic predecessor and successor.
    pub open spec fn ring_block(offset: int, len: int) -> Seq<Node> {
        Seq::new(
            len as nat,
            |j: int|
                Node {
                    index: IndexType::RealIndex((offset + j) as usize),
                    left: IndexType::PointerIndex((offset + (j + len - 1) % len) as usize),
                    right: IndexType::PointerIndex((offset + (j + 1) % len) as usize),
                    done: false,
                },
        )
    }

    /// The number of slots that a list of ring sizes asks for.
    pub open spec fn total_size(sizes: Seq<usize>) -> int
        decreases sizes.len(),
    {
        if sizes.len() == 0 {
            0
        } else {
            sizes[0] + Self::total_size(sizes.drop_first())
        }
    }

    /// The slot array and chain starts after appending one ring block per
    /// listed ring size, in order.
    pub open spec fn rings_layout(
        content: Seq<Node>,
        starts: Seq<usize>,
        sizes: Seq<usize>,
    ) -> (Seq<Node>, Seq<usize>)
        decreases sizes.len(),
    {
        if sizes.len() == 0 {
            (content, starts)
        } else {
            Self::rings_layout(
                content + Self::ring_block(content.len() as int, sizes[0] as int),
                starts.push(content.len() as usize),
                sizes.drop_first(),
            )
        }
    }

    /// Appends one circular chain of `len` fresh slots, one per ring
    /// vertex, and registers its first slot as a chain start.
    pub fn push_ring(&mut self, len: usize)
        requires
            old(self).wf(),
            1 <= len,
            old(self).content@.len() + len <= usize::MAX,
        ensures
            final(self).content@ == old(self).content@ + Self::ring_block(
                old(self).content@.len() as int,
                len as int,
            ),
            final(self).start_vertex@ == old(self).start_vertex@.push(
                old(self).content@.len() as usize,
            ),
            final(self).wf(),
            old(self).linked() ==> final(self).linked(),
    {
        let offset = self.content.len();
        self.start_vertex.push(offset);
        let ghost block = Self::ring_block(offset as int, len as int);
        let mut i: usize = 0;
        while i < len
            invariant
                1 <= len,
                offset == old(self).content@.len(),
                offset + len <= usize::MAX,
                i <= len,
                block == Self::ring_block(offset as int, len as int),
                self.start_vertex@ == old(self).start_vertex@.push(offset as usize),
                self.content@ == old(self).content@ + block.take(i as int),
            decreases len - i,
        {
            let left = if i == 0 {
                offset + (len - 1)
            } else {
                offset + (i - 1)
            };
            let right = if i + 1 == len {
                offset
            } else {
                offset + (i + 1)
            };
            let node = Node::new(offset + i, left, right);
            self.content.push(node);
            proof {
                lemma_ring_mod(i as int, len as int);
                assert(node == block[i as int]);
                assert(self.content@ =~= old(self).content@ + block.take(i as int + 1));
            }
            i = i + 1;
        }
        proof {
            assert(self.content@ =~= old(self).content@ + block) by {
                assert(block.take(len as int) =~= block);
            }
            let n0 = old(self).content@.len() as int;
            let n1 = self.content@.len() as int;
            assert forall|p: int| 0 <= p < n1 implies (#[trigger] self.content@[p]).shape_ok(
                n1,
            ) by {
                if p < n0 {
                    assert(old(self).content@[p].shape_ok(n0));
                } else {
                    lemma_ring_mod(p - n0, len as int);
                }
            }
            if old(self).linked() {
                assert forall|p: int| 0 <= p < n1 && #[trigger] self.live(p) implies {
                    &&& self.live(self.left_of(p))
                    &&& self.live(self.right_of(p))
                    &&& self.right_of(self.left_of(p)) == p
                    &&& self.left_of(self.right_of(p)) == p
                } by {
                    if p < n0 {
                        assert(old(self).live(p));
                        assert(old(self).live(old(self).left_of(p)) && old(self).live(
                            old(self).right_of(p),
                        ) && old(self).right_of(old(self).left_of(p)) == p && old(self).left_of(
                            old(self).right_of(p),
                        ) == p);
                        assert(old(self).content@[p].shape_ok(n0));
                        assert(old(self).content@[old(self).left_of(p)].shape_ok(n0));
                        assert(old(self).content@[old(self).right_of(p)].shape_ok(n0));
                    } else {
                        let j = p - n0;
                        lemma_ring_mod(j, len as int);
                        let jl = (j + len as int - 1) % len as int;
                        let jr = (j + 1) % len as int;
                        lemma_ring_mod(jl, len as int);
                        lemma_ring_mod(jr, len as int);
                        assert(self.left_of(p) == n0 + jl && self.right_of(p) == n0 + jr);
                        assert(self.right_of(n0 + jl) == p && self.left_of(n0 + jr) == p);
                    }
                }
            }
        }
    }

    /// Builds the initial wavefront topology: one circular chain per input
    /// ring, each ring contributing one slot per vertex, appended in order.
    pub fn initialize_from_ring_sizes(&mut self, ring_sizes: &Vec<usize>)
        requires
            old(self).wf(),
            forall|k: int| 0 <= k < ring_sizes@.len() ==> 1 <= #[trigger] ring_sizes@[k],
            old(self).content@.len() + Self::total_size(ring_sizes@) <= usize::MAX,
        ensures
            (final(self).content@, final(self).start_vertex@) == Self::rings_layout(
                old(self).content@,
                old(self).start_vertex@,
                ring_sizes@,
            ),
            final(self).wf(),
            old(self).linked() ==> final(self).linked(),
    {
        proof {
            assert(ring_sizes@.skip(0) =~= ring_sizes@);
        }
        let mut k: usize = 0;
        while k < ring_sizes.len()
            invariant
                self.wf(),
                old(self).linked() ==> self.linked(),
                k <= ring_sizes@.len(),
                forall|j: int| 0 <= j < ring_sizes@.len() ==> 1 <= #[trigger] ring_sizes@[j],
                self.content@.len() + Self::total_size(ring_sizes@.skip(k as int)) <= usize::MAX,
                Self::rings_layout(self.content@, self.start_vertex@, ring_sizes@.skip(k as int))
                    == Self::rings_layout(
                    old(self).content@,
                    old(self).start_vertex@,
                    ring_sizes@,
                ),
            decreases ring_sizes@.len() - k,
        {
            let len = ring_sizes[k];
            proof {
                lemma_total_size_nonneg(ring_sizes@.skip(k as int + 1));
                assert(ring_sizes@.skip(k as int).drop_first() =~= ring_sizes@.skip(k as int + 1));
                assert(ring_sizes@.skip(k as int)[0] == ring_sizes@[k as int]);
            }
            self.push_ring(len);
            k = k + 1;
        }
        proof {
            assert(ring_sizes@.skip(ring_sizes@.len() as int) =~= Seq::<usize>::empty());
        }
    }
}

impl VertexQueue {
    /// Normalises the chain-start registry after merges and splits:
    /// advances each start past retired slots, and drops a start whose
    /// chain was already claimed by an earlier start or has shrunk to at
    /// most one live slot. The slot array itself never changes. On a
    /// well-linked topology the pass always succeeds and leaves every
    /// surviving chain registered exactly once: no remaining start can be
    /// reached from another. Returns `false` when a walk meets a slot
    /// already claimed in the middle of a chain — the sign of corrupted
    /// topology on which construction must abort, proved unreachable
    /// while the live slots form disjoint circular chains.
    #[verifier::rlimit(100)]
    pub fn cleanup(&mut self) -> (ok: bool)
        requires
            old(self).wf(),
        ensures
            final(self).content@ == old(self).content@,
            final(self).wf(),
            old(self).linked() ==> final(self).linked(),
            old(self).linked() ==> ok,
            !ok ==> !old(self).linked(),
            old(self).linked() ==> distinct_chains(
                *final(self),
                final(self).start_vertex@,
                final(self).start_vertex@.len() as int,
            ),
            old(self).linked() ==> forall|k0: int, i0: nat|
                #![trigger old(self).iterate_right(old(self).start_vertex@[k0] as int, i0)]
                0 <= k0 < old(self).start_vertex@.len() && old(self).live(
                    old(self).start_vertex@[k0] as int,
                ) && old(self).left_of(old(self).start_vertex@[k0] as int) != old(self).right_of(
                    old(self).start_vertex@[k0] as int,
                ) ==> covered_by(
                    *final(self),
                    final(self).start_vertex@,
                    final(self).start_vertex@.len() as int,
                    old(self).iterate_right(old(self).start_vertex@[k0] as int, i0),
                ),
            ok ==> forall|k: int|
                0 <= k < final(self).start_vertex@.len() ==> {
                    let sv = (#[trigger] final(self).start_vertex@[k]) as int;
                    final(self).live(sv) && final(self).left_of(sv) != final(self).right_of(sv)
                },
    {
        let ghost q0 = *old(self);
        let n = self.content.len();
        let mut visit: Vec<bool> = Vec::new();
        let mut t: usize = 0;
        while t < n
            invariant
                visit@.len() == t,
                t <= n,
                forall|y: int| 0 <= y < t ==> !(#[trigger] visit@[y]),
            decreases n - t,
        {
            visit.push(false);
            t = t + 1;
        }
        let mut sv_idx: usize = 0;
        while sv_idx < self.start_vertex.len()
            invariant
                q0 == *old(self),
                q0.wf(),
                self.content@ == old(self).content@,
                self.wf(),
                visit@.len() == self.content@.len(),
                sv_idx <= self.start_vertex@.len(),
                q0.linked() ==> visit_whole_chains(q0, visit@),
                q0.linked() ==> starts_marked(visit@, self.start_vertex@, sv_idx as int),
                q0.linked() ==> distinct_chains(q0, self.start_vertex@, sv_idx as int),
                q0.linked() ==> forall|x: int|
                    0 <= x < q0.content@.len() && #[trigger] q0.live(x) && visit@[x]
                        ==> covered_by(q0, self.start_vertex@, sv_idx as int, x),
                q0.linked() ==> forall|k0: int|
                    #![trigger q0.start_vertex@[k0]]
                    0 <= k0 < q0.start_vertex@.len() && q0.live(q0.start_vertex@[k0] as int)
                        && q0.left_of(q0.start_vertex@[k0] as int) != q0.right_of(
                        q0.start_vertex@[k0] as int,
                    ) ==> (visit@[q0.start_vertex@[k0] as int] || pending_from(
                        self.start_vertex@,
                        sv_idx as int,
                        q0.start_vertex@[k0],
                    )),
                forall|k: int|
                    0 <= k < sv_idx ==> {
                        let sv = (#[trigger] self.start_vertex@[k]) as int;
                        self.live(sv) && self.left_of(sv) != self.right_of(sv)
                    },
            decreases self.start_vertex@.len() - sv_idx,
        {
            let ghost sv_snap = self.start_vertex@;
            let mut cur = self.start_vertex[sv_idx];
            let ghost v0 = sv_snap[sv_idx as int];
            while self.content[cur].done && !visit[cur]
                invariant
                    q0 == *old(self),
                    q0.wf(),
                    self.content@ == old(self).content@,
                    self.wf(),
                    self.start_vertex@ == sv_snap,
                    sv_idx < self.start_vertex@.len(),
                    v0 == sv_snap[sv_idx as int],
                    cur == v0 || !q0.live(v0 as int),
                    visit@.len() == self.content@.len(),
                    cur < self.content@.len(),
                    q0.linked() ==> visit_whole_chains(q0, visit@),
                    q0.linked() ==> starts_marked(visit@, self.start_vertex@, sv_idx as int),
                    q0.linked() ==> distinct_chains(q0, self.start_vertex@, sv_idx as int),
                    q0.linked() ==> forall|x: int|
                        0 <= x < q0.content@.len() && #[trigger] q0.live(x) && visit@[x]
                            ==> covered_by(q0, self.start_vertex@, sv_idx as int, x),
                    q0.linked() ==> forall|k0: int|
                        #![trigger q0.start_vertex@[k0]]
                        0 <= k0 < q0.start_vertex@.len() && q0.live(q0.start_vertex@[k0] as int)
                            && q0.left_of(q0.start_vertex@[k0] as int) != q0.right_of(
                            q0.start_vertex@[k0] as int,
                        ) ==> (visit@[q0.start_vertex@[k0] as int] || pending_from(
                            self.start_vertex@,
                            sv_idx as int,
                            q0.start_vertex@[k0],
                        )),
                decreases unvisited(visit@).len(),
            {
                let ghost v_before = visit@;
                proof {
                    lemma_unvisited_mark(visit@, cur as int);
                }
                let ghost retired = cur as int;
                visit[cur] = true;
                cur = self.content[cur].right.get_index();
                proof {
                    if q0.linked() {
                        assert forall|x: int, k: nat|
                            0 <= x < q0.content@.len() && q0.live(x) && visit@[x] implies visit@[
                        #[trigger] q0.iterate_right(x, k)] by {
                            lemma_iterate_live(q0, x, k);
                            assert(v_before[x]);
                            assert(v_before[q0.iterate_right(x, k)]);
                        }
                        assert(starts_marked(v_before, self.start_vertex@, sv_idx as int));
                        assert forall|k: int| #![trigger self.start_vertex@[k]]
                            0 <= k < sv_idx implies visit@[self.start_vertex@[k] as int] by {
                            assert(0 <= self.start_vertex@[k] < self.content@.len());
                            assert(v_before[self.start_vertex@[k] as int]);
                            assert(visit@ == v_before.update(retired, true));
                        }
                        assert forall|x: int|
                            0 <= x < q0.content@.len() && #[trigger] q0.live(x)
                                && visit@[x] implies covered_by(
                            q0,
                            self.start_vertex@,
                            sv_idx as int,
                            x,
                        ) by {
                            assert(x != retired);
                            assert(v_before[x]);
                        }
                        assert forall|k0: int| #![trigger q0.start_vertex@[k0]]
                            0 <= k0 < q0.start_vertex@.len() && q0.live(
                            q0.start_vertex@[k0] as int,
                        ) && q0.left_of(q0.start_vertex@[k0] as int) != q0.right_of(
                            q0.start_vertex@[k0] as int,
                        ) implies (visit@[q0.start_vertex@[k0] as int] || pending_from(
                            self.start_vertex@,
                            sv_idx as int,
                            q0.start_vertex@[k0],
                        )) by {
                            if v_before[q0.start_vertex@[k0] as int] {
                                assert(visit@[q0.start_vertex@[k0] as int]);
                            }
                        }
                    }
                }
            }
            if visit[cur] || self.content[cur].left.get_index()
                == self.content[cur].right.get_index() {
                let ghost dropped = self.start_vertex@;
                self.start_vertex.swap_remove(sv_idx);
                proof {
                    if q0.linked() {
                        assert forall|x: int|
                            0 <= x < q0.content@.len() && #[trigger] q0.live(x)
                                && visit@[x] implies covered_by(
                            q0,
                            self.start_vertex@,
                            sv_idx as int,
                            x,
                        ) by {
                            lemma_covered_by_prefix(
                                q0,
                                dropped,
                                self.start_vertex@,
                                sv_idx as int,
                                x,
                            );
                        }
                        assert forall|k0: int| #![trigger q0.start_vertex@[k0]]
                            0 <= k0 < q0.start_vertex@.len() && q0.live(
                            q0.start_vertex@[k0] as int,
                        ) && q0.left_of(q0.start_vertex@[k0] as int) != q0.right_of(
                            q0.start_vertex@[k0] as int,
                        ) implies (visit@[q0.start_vertex@[k0] as int] || pending_from(
                            self.start_vertex@,
                            sv_idx as int,
                            q0.start_vertex@[k0],
                        )) by {
                            let s0 = q0.start_vertex@[k0];
                            if !visit@[s0 as int] && pending_from(dropped, sv_idx as int, s0) {
                                let p = choose|p: int|
                                    sv_idx <= p < dropped.len() && #[trigger] dropped[p] == s0;
                                if p == sv_idx as int {
                                    assert(cur == v0);
                                    assert(false);
                                } else if p == dropped.len() - 1 {
                                    assert(self.start_vertex@[sv_idx as int] == s0);
                                } else {
                                    assert(self.start_vertex@[p] == s0);
                                }
                            }
                        }
                    }
                }
            } else {
                let ghost pre = visit@;
                let ghost s = cur as int;
                self.start_vertex[sv_idx] = cur;
                proof {
                    lemma_unvisited_mark(visit@, cur as int);
                }
                visit[cur] = true;
                cur = self.content[cur].right.get_index();
                let ghost mut j: nat = 1;
                proof {
                    if q0.linked() {
                        assert(q0.iterate_right(s, 0) == s);
                        assert(q0.iterate_right(s, 1) == q0.right_of(q0.iterate_right(s, 0)));
                        assert forall|y: int|
                            0 <= y < q0.content@.len() implies #[trigger] visit@[y] == (pre[y]
                            || walk_marked(q0, s, 1, y)) by {
                            if y == s {
                                assert(q0.iterate_right(s, 0) == s);
                                assert(walk_marked(q0, s, 1, s));
                            } else {
                                if walk_marked(q0, s, 1, y) {
                                    let i = choose|i: nat|
                                        i < 1 && #[trigger] q0.iterate_right(s, i) == y;
                                    assert(false);
                                }
                            }
                        }
                        assert forall|k: int| #![trigger self.start_vertex@[k]]
                            0 <= k < sv_idx implies pre[self.start_vertex@[k] as int] by {
                            assert(sv_snap[k] == self.start_vertex@[k]);
                        }
                        assert forall|k1: int, k2: int, i: nat|
                            #![trigger q0.iterate_right(self.start_vertex@[k1] as int, i), self.start_vertex@[k2]]
                            0 <= k1 < sv_idx && 0 <= k2 < sv_idx && k1 != k2 implies q0.iterate_right(
                            self.start_vertex@[k1] as int,
                            i,
                        ) != self.start_vertex@[k2] as int by {
                            assert(q0.iterate_right(sv_snap[k1] as int, i) != sv_snap[k2] as int);
                        }
                        assert forall|x: int|
                            0 <= x < q0.content@.len() && #[trigger] q0.live(x)
                                && pre[x] implies covered_by(
                            q0,
                            self.start_vertex@,
                            sv_idx as int,
                            x,
                        ) by {
                            lemma_covered_by_prefix(
                                q0,
                                sv_snap,
                                self.start_vertex@,
                                sv_idx as int,
                                x,
                            );
                        }
                        assert forall|k0: int| #![trigger q0.start_vertex@[k0]]
                            0 <= k0 < q0.start_vertex@.len() && q0.live(
                            q0.start_vertex@[k0] as int,
                        ) && q0.left_of(q0.start_vertex@[k0] as int) != q0.right_of(
                            q0.start_vertex@[k0] as int,
                        ) implies (pre[q0.start_vertex@[k0] as int] || pending_from(
                            self.start_vertex@,
                            sv_idx as int,
                            q0.start_vertex@[k0],
                        )) by {
                            let s0 = q0.start_vertex@[k0];
                            if !pre[s0 as int] && pending_from(sv_snap, sv_idx as int, s0) {
                                let p = choose|p: int|
                                    sv_idx <= p < sv_snap.len() && #[trigger] sv_snap[p] == s0;
                                if p == sv_idx as int {
                                    assert(s == v0 as int);
                                    assert(self.start_vertex@[p] == s0);
                                } else {
                                    assert(self.start_vertex@[p] == s0);
                                }
                            }
                        }
                    }
                }
                let ghost sv_set = self.start_vertex@;
                while cur != self.start_vertex[sv_idx]
                    invariant
                        q0 == *old(self),
                        q0.wf(),
                        self.content@ == old(self).content@,
                        self.wf(),
                        self.start_vertex@ == sv_set,
                        sv_idx < self.start_vertex@.len(),
                        self.start_vertex@[sv_idx as int] as int == s,
                        visit@.len() == self.content@.len(),
                        cur < self.content@.len(),
                        q0.linked() ==> {
                            &&& 0 <= s < q0.content@.len()
                            &&& q0.live(s)
                            &&& !pre[s]
                            &&& pre.len() == q0.content@.len()
                            &&& visit_whole_chains(q0, pre)
                            &&& j >= 1
                            &&& cur as int == q0.iterate_right(s, j)
                            &&& forall|y: int|
                                0 <= y < q0.content@.len() ==> #[trigger] visit@[y] == (pre[y]
                                    || walk_marked(q0, s, j, y))
                            &&& forall|i: nat| 1 <= i < j ==> #[trigger] q0.iterate_right(s, i)
                                != s
                            &&& starts_marked(pre, self.start_vertex@, sv_idx as int)
                            &&& distinct_chains(q0, self.start_vertex@, sv_idx as int)
                            &&& forall|x: int|
                                0 <= x < q0.content@.len() && #[trigger] q0.live(x) && pre[x]
                                    ==> covered_by(q0, self.start_vertex@, sv_idx as int, x)
                            &&& forall|k0: int|
                                #![trigger q0.start_vertex@[k0]]
                                0 <= k0 < q0.start_vertex@.len() && q0.live(
                                    q0.start_vertex@[k0] as int,
                                ) && q0.left_of(q0.start_vertex@[k0] as int) != q0.right_of(
                                    q0.start_vertex@[k0] as int,
                                ) ==> (pre[q0.start_vertex@[k0] as int] || pending_from(
                                    self.start_vertex@,
                                    sv_idx as int,
                                    q0.start_vertex@[k0],
                                ))
                        },
                        forall|k: int|
                            0 <= k < sv_idx + 1 ==> {
                                let sv = (#[trigger] self.start_vertex@[k]) as int;
                                self.live(sv) && self.left_of(sv) != self.right_of(sv)
                            },
                    decreases unvisited(visit@).len(),
                {
                    if visit[cur] {
                        proof {
                            if q0.linked() {
                                let c = cur as int;
                                assert(c != s);
                                assert(pre[c] || walk_marked(q0, s, j, c));
                                if pre[c] {
                                    lemma_iterate_live(q0, s, j);
                                    let m = lemma_reach_back(q0, s, c, j);
                                    assert(pre[q0.iterate_right(c, m)]);
                                    assert(false);
                                } else {
                                    let i = choose|i: nat|
                                        i < j && #[trigger] q0.iterate_right(s, i) == c;
                                    if i == 0 {
                                        assert(false);
                                    } else {
                                        lemma_iterate_shift(q0, s, i, j);
                                        assert(q0.iterate_right(s, (j - i) as nat) == s);
                                        assert(false);
                                    }
                                }
                            }
                            lemma_linked_same_content_conditional(q0, *self);
                        }
                        return false;
                    }
                    let ghost v_before = visit@;
                    let ghost c = cur as int;
                    proof {
                        lemma_unvisited_mark(visit@, cur as int);
                    }
                    visit[cur] = true;
                    cur = self.content[cur].right.get_index();
                    proof {
                        if q0.linked() {
                            assert(c != s);
                            assert forall|y: int|
                                0 <= y < q0.content@.len() implies #[trigger] visit@[y] == (pre[y]
                                || walk_marked(q0, s, (j + 1) as nat, y)) by {
                                if y == c {
                                    assert(q0.iterate_right(s, j) == c);
                                    assert(walk_marked(q0, s, (j + 1) as nat, c));
                                } else {
                                    assert(visit@[y] == v_before[y]);
                                    if walk_marked(q0, s, (j + 1) as nat, y) {
                                        let i = choose|i: nat|
                                            i < j + 1 && #[trigger] q0.iterate_right(s, i) == y;
                                        if i < j {
                                            assert(walk_marked(q0, s, j, y));
                                        } else {
                                            assert(false);
                                        }
                                    }
                                    if walk_marked(q0, s, j, y) {
                                        let i = choose|i: nat|
                                            i < j && #[trigger] q0.iterate_right(s, i) == y;
                                        assert(walk_marked(q0, s, (j + 1) as nat, y));
                                    }
                                }
                            }
                            assert(q0.iterate_right(s, (j + 1) as nat) == q0.right_of(
                                q0.iterate_right(s, j),
                            ));
                        }
                        j = j + 1;
                    }
                }
                proof {
                    if q0.linked() {
                        assert(q0.iterate_right(s, j) == s);
                        assert forall|x: int, k: nat|
                            0 <= x < q0.content@.len() && q0.live(x) && visit@[x] implies visit@[
                        #[trigger] q0.iterate_right(x, k)] by {
                            lemma_iterate_live(q0, x, k);
                            let y = q0.iterate_right(x, k);
                            if pre[x] {
                                assert(pre[q0.iterate_right(x, k)]);
                            } else {
                                assert(walk_marked(q0, s, j, x));
                                let i = choose|i: nat|
                                    i < j && #[trigger] q0.iterate_right(s, i) == x;
                                lemma_iterate_compose(q0, s, i, k);
                                let r = lemma_iterate_reduce(q0, s, j, (i + k) as nat);
                                assert(q0.iterate_right(s, r) == y);
                                assert(walk_marked(q0, s, j, y));
                            }
                        }
                        assert(q0.iterate_right(s, 0) == s);
                        assert(walk_marked(q0, s, j, s));
                        assert forall|k: int| #![trigger self.start_vertex@[k]]
                            0 <= k < sv_idx + 1 implies visit@[self.start_vertex@[k] as int] by {
                            if k == sv_idx as int {
                                assert(visit@[s] == (pre[s] || walk_marked(q0, s, j, s)));
                            } else {
                                assert(pre[self.start_vertex@[k] as int]);
                                assert(visit@[self.start_vertex@[k] as int] == (pre[self.start_vertex@[k] as int]
                                    || walk_marked(q0, s, j, self.start_vertex@[k] as int)));
                            }
                        }
                        assert forall|k1: int, k2: int, i: nat|
                            #![trigger q0.iterate_right(self.start_vertex@[k1] as int, i), self.start_vertex@[k2]]
                            0 <= k1 < sv_idx + 1 && 0 <= k2 < sv_idx + 1 && k1
                            != k2 implies q0.iterate_right(self.start_vertex@[k1] as int, i)
                            != self.start_vertex@[k2] as int by {
                            let x1 = self.start_vertex@[k1] as int;
                            let x2 = self.start_vertex@[k2] as int;
                            if k1 == sv_idx as int {
                                assert(x1 == s);
                                if q0.iterate_right(s, i) == x2 {
                                    assert(q0.live(x2));
                                    let m = lemma_reach_back(q0, s, x2, i);
                                    assert(pre[x2]);
                                    assert(pre[q0.iterate_right(x2, m)]);
                                    assert(false);
                                }
                            } else if k2 == sv_idx as int {
                                assert(x2 == s);
                                if q0.iterate_right(x1, i) == s {
                                    assert(q0.live(x1));
                                    assert(pre[x1]);
                                    assert(pre[q0.iterate_right(x1, i)]);
                                    assert(false);
                                }
                            }
                        }
                        assert forall|x: int|
                            0 <= x < q0.content@.len() && #[trigger] q0.live(x)
                                && visit@[x] implies covered_by(
                            q0,
                            self.start_vertex@,
                            sv_idx + 1,
                            x,
                        ) by {
                            if pre[x] {
                                let (k, i) = choose|k: int, i: nat|
                                    0 <= k < sv_idx as int && #[trigger] q0.iterate_right(
                                        self.start_vertex@[k] as int,
                                        i,
                                    ) == x;
                                assert(q0.iterate_right(self.start_vertex@[k] as int, i) == x);
                            } else {
                                assert(walk_marked(q0, s, j, x));
                                let i = choose|i: nat|
                                    i < j && #[trigger] q0.iterate_right(s, i) == x;
                                assert(q0.iterate_right(
                                    self.start_vertex@[sv_idx as int] as int,
                                    i,
                                ) == x);
                            }
                        }
                        assert forall|k0: int| #![trigger q0.start_vertex@[k0]]
                            0 <= k0 < q0.start_vertex@.len() && q0.live(
                            q0.start_vertex@[k0] as int,
                        ) && q0.left_of(q0.start_vertex@[k0] as int) != q0.right_of(
                            q0.start_vertex@[k0] as int,
                        ) implies (visit@[q0.start_vertex@[k0] as int] || pending_from(
                            self.start_vertex@,
                            sv_idx + 1,
                            q0.start_vertex@[k0],
                        )) by {
                            let s0 = q0.start_vertex@[k0];
                            if pre[s0 as int] {
                                assert(visit@[s0 as int] == (pre[s0 as int] || walk_marked(
                                    q0,
                                    s,
                                    j,
                                    s0 as int,
                                )));
                            } else if pending_from(self.start_vertex@, sv_idx as int, s0) {
                                let p = choose|p: int|
                                    sv_idx <= p < self.start_vertex@.len()
                                        && #[trigger] self.start_vertex@[p] == s0;
                                if p == sv_idx as int {
                                    assert(s0 as int == s);
                                    assert(visit@[s] == (pre[s] || walk_marked(q0, s, j, s)));
                                } else {
                                    assert(self.start_vertex@[p] == s0 && sv_idx + 1 <= p);
                                }
                            }
                        }
                    }
                }
                sv_idx = sv_idx + 1;
            }
        }
        proof {
            lemma_linked_same_content_conditional(q0, *self);
            if q0.linked() {
                assert forall|k1: int, k2: int, i: nat|
                    #![trigger self.iterate_right(self.start_vertex@[k1] as int, i), self.start_vertex@[k2]]
                    0 <= k1 < self.start_vertex@.len() && 0 <= k2 < self.start_vertex@.len() && k1
                    != k2 implies self.iterate_right(self.start_vertex@[k1] as int, i)
                    != self.start_vertex@[k2] as int by {
                    lemma_iterate_same_content(q0, *self, self.start_vertex@[k1] as int, i);
                    assert(q0.iterate_right(self.start_vertex@[k1] as int, i)
                        != self.start_vertex@[k2] as int);
                }
                assert forall|k0: int, i0: nat|
                    #![trigger q0.iterate_right(q0.start_vertex@[k0] as int, i0)]
                    0 <= k0 < q0.start_vertex@.len() && q0.live(q0.start_vertex@[k0] as int)
                        && q0.left_of(q0.start_vertex@[k0] as int) != q0.right_of(
                        q0.start_vertex@[k0] as int,
                    ) implies covered_by(
                    *self,
                    self.start_vertex@,
                    self.start_vertex@.len() as int,
                    q0.iterate_right(q0.start_vertex@[k0] as int, i0),
                ) by {
                    let s0 = q0.start_vertex@[k0] as int;
                    assert(visit@[s0]);
                    lemma_iterate_live(q0, s0, i0);
                    let x = q0.iterate_right(s0, i0);
                    assert(visit@[x]);
                    assert(covered_by(q0, self.start_vertex@, sv_idx as int, x));
                    let (k, i) = choose|k: int, i: nat|
                        0 <= k < sv_idx as int && #[trigger] q0.iterate_right(
                            self.start_vertex@[k] as int,
                            i,
                        ) == x;
                    lemma_iterate_same_content(q0, *self, self.start_vertex@[k] as int, i);
                    assert(self.iterate_right(self.start_vertex@[k] as int, i) == x);
                }
            }
        }
        true
    }

    /// Walks every registered chain and returns one triple per visited
    /// slot: the chain's position in the start registry, the slot position
    /// as a pointer index, and the arena vertex the slot stands for.
    /// Every chain contributes at least its registered start; within one
    /// chain the triples follow the right links from that start until the
    /// walk returns to it, and the chain indices come out in increasing
    /// order. On a well-linked topology whose registered starts are live —
    /// what cleanup leaves behind — the result is pinned exactly: chain by
    /// chain, one full round along the right links from each start. A
    /// chain that does not close — which such a topology never has (see
    /// [`lemma_chain_closes`]) — is cut off after one round over the slot
    /// array.
    #[verifier::rlimit(100)]
    pub fn iter(&self) -> (r: Vec<(usize, IndexType, usize)>)
        requires
            self.wf(),
        ensures
            forall|t: int|
                0 <= t < r@.len() ==> {
                    let entry = #[trigger] r@[t];
                    &&& entry.0 < self.start_vertex@.len()
                    &&& entry.1 matches IndexType::PointerIndex(p) && p < self.content@.len()
                    &&& self.content@[entry.1->PointerIndex_0 as int].index
                        == IndexType::RealIndex(entry.2)
                },
            forall|t1: int, t2: int|
                0 <= t1 <= t2 < r@.len() ==> (#[trigger] r@[t1]).0 <= (#[trigger] r@[t2]).0,
            forall|k: int|
                0 <= k < self.start_vertex@.len() ==> #[trigger] lists_entry(
                    r@,
                    k,
                    self.start_vertex@[k as int],
                ),
            self.linked() && self.starts_live() ==> r@ == self.chains_walk_from(0),
    {
        let mut ret: Vec<(usize, IndexType, usize)> = Vec::new();
        proof {
            if self.linked() && self.starts_live() {
                assert(ret@ + self.chains_walk_from(0) =~= self.chains_walk_from(0));
            }
        }
        let mut sv_idx: usize = 0;
        while sv_idx < self.start_vertex.len()
            invariant
                self.wf(),
                sv_idx <= self.start_vertex@.len(),
                forall|t: int|
                    0 <= t < ret@.len() ==> {
                        let entry = #[trigger] ret@[t];
                        &&& entry.0 < self.start_vertex@.len()
                        &&& entry.0 <= sv_idx
                        &&& entry.1 matches IndexType::PointerIndex(p) && p < self.content@.len()
                        &&& self.content@[entry.1->PointerIndex_0 as int].index
                            == IndexType::RealIndex(entry.2)
                    },
                forall|t1: int, t2: int|
                    0 <= t1 <= t2 < ret@.len() ==> (#[trigger] ret@[t1]).0 <= (#[trigger] ret@[t2]).0,
                forall|k: int|
                    0 <= k < sv_idx ==> #[trigger] lists_entry(
                        ret@,
                        k,
                        self.start_vertex@[k as int],
                    ),
                self.linked() && self.starts_live() ==> self.chains_walk_from(0) == ret@
                    + self.chains_walk_from(sv_idx as int),
            decreases self.start_vertex@.len() - sv_idx,
        {
            let start = self.start_vertex[sv_idx];
            let arena = self.content[start].index.get_real_index();
            let ghost head = ret@.len() as int;
            let ghost before_head = ret@;
            let ghost base = ret@;
            let ghost s = start as int;
            ret.push((sv_idx, IndexType::PointerIndex(start), arena));
            proof {
                assert forall|k: int| 0 <= k < sv_idx implies #[trigger] lists_entry(
                    ret@,
                    k,
                    self.start_vertex@[k as int],
                ) by {
                    assert(lists_entry(before_head, k, self.start_vertex@[k as int]));
                    lemma_lists_entry_extend(before_head, ret@, k, self.start_vertex@[k as int]);
                }
                if self.linked() && self.starts_live() {
                    assert(self.live(s));
                    lemma_chain_period(*self, s);
                    assert(self.iterate_right(s, 0) == s);
                    assert(ret@ =~= base + self.chain_walk(sv_idx as int, s).take(1));
                }
            }
            let ghost mut e: nat = 1;
            let mut cur = self.content[start].right.get_index();
            let mut fuel = self.content.len() - 1;
            let mut walking = cur != start;
            proof {
                if self.linked() && self.starts_live() {
                    assert(self.iterate_right(s, 1) == self.right_of(self.iterate_right(s, 0)));
                    if self.chain_period(s) == 1 {
                        assert(self.iterate_right(s, 1) == s);
                    } else {
                        assert(self.iterate_right(s, 1) != s);
                    }
                }
            }
            while walking && fuel > 0
                invariant
                    self.wf(),
                    sv_idx < self.start_vertex@.len(),
                    start == self.start_vertex@[sv_idx as int],
                    s == start as int,
                    cur < self.content@.len(),
                    0 <= head < ret@.len(),
                    ret@[head] == (sv_idx, IndexType::PointerIndex(start), arena),
                    forall|t: int|
                        0 <= t < ret@.len() ==> {
                            let entry = #[trigger] ret@[t];
                            &&& entry.0 < self.start_vertex@.len()
                            &&& entry.0 <= sv_idx
                            &&& entry.1 matches IndexType::PointerIndex(p) && p
                                < self.content@.len()
                            &&& self.content@[entry.1->PointerIndex_0 as int].index
                                == IndexType::RealIndex(entry.2)
                        },
                    forall|t1: int, t2: int|
                        0 <= t1 <= t2 < ret@.len() ==> (#[trigger] ret@[t1]).0 <= (#[trigger] ret@[t2]).0,
                    forall|k: int|
                        0 <= k < sv_idx ==> #[trigger] lists_entry(
                            ret@,
                            k,
                            self.start_vertex@[k as int],
                        ),
                    self.linked() && self.starts_live() ==> {
                        &&& self.chains_walk_from(0) == base + self.chains_walk_from(
                            sv_idx as int,
                        )
                        &&& 1 <= e <= self.chain_period(s)
                        &&& cur as int == self.iterate_right(s, e)
                        &&& (walking <==> e < self.chain_period(s))
                        &&& fuel == self.content@.len() - e
                        &&& ret@ == base + self.chain_walk(sv_idx as int, s).take(e as int)
                    },
                decreases fuel,
            {
                let arena_cur = self.content[cur].index.get_real_index();
                let ghost before_step = ret@;
                ret.push((sv_idx, IndexType::PointerIndex(cur), arena_cur));
                proof {
                    assert forall|k: int| 0 <= k < sv_idx implies #[trigger] lists_entry(
                        ret@,
                        k,
                        self.start_vertex@[k as int],
                    ) by {
                        assert(lists_entry(before_step, k, self.start_vertex@[k as int]));
                        lemma_lists_entry_extend(
                            before_step,
                            ret@,
                            k,
                            self.start_vertex@[k as int],
                        );
                    }
                }
                proof {
                    if self.linked() && self.starts_live() {
                        lemma_chain_walk_step(
                            *self,
                            sv_idx as int,
                            s,
                            e,
                            base,
                            before_step,
                            cur,
                            arena_cur,
                        );
                    }
                }
                cur = self.content[cur].right.get_index();
                fuel = fuel - 1;
                if cur == start {
                    walking = false;
                }
                proof {
                    e = e + 1;
                }
            }
            proof {
                assert forall|k: int| 0 <= k < sv_idx + 1 implies #[trigger] lists_entry(
                    ret@,
                    k,
                    self.start_vertex@[k as int],
                ) by {
                    if k == sv_idx as int {
                        assert((ret@[head]).0 == k && ret@[head].1 == IndexType::PointerIndex(
                            self.start_vertex@[k],
                        ));
                    }
                }
                if self.linked() && self.starts_live() {
                    let p = self.chain_period(s);
                    if walking {
                        assert(fuel == 0 && e == self.content@.len());
                        lemma_chain_period(*self, s);
                        assert(e < p && p <= self.content@.len());
                        assert(false);
                    }
                    assert(e == p);
                    assert(ret@ =~= base + self.chain_walk(sv_idx as int, s)) by {
                        assert(self.chain_walk(sv_idx as int, s).take(p as int)
                            =~= self.chain_walk(sv_idx as int, s));
                    }
                    assert(self.chains_walk_from(sv_idx as int) == self.chain_walk(
                        sv_idx as int,
                        s,
                    ) + self.chains_walk_from(sv_idx + 1));
                    assert(self.chains_walk_from(0) =~= ret@ + self.chains_walk_from(
                        sv_idx + 1,
                    ));
                }
            }
            sv_idx = sv_idx + 1;
        }
        proof {
            if self.linked() && self.starts_live() {
                assert(self.chains_walk_from(sv_idx as int) =~= Seq::empty());
                assert(ret@ =~= ret@ + self.chains_walk_from(sv_idx as int));
            }
        }
        ret
    }
}

impl VertexQueue {
    /// The position reached after `k` steps along the right links from `s`.
    pub open spec fn iterate_right(self, s: int, k: nat) -> int
        decreases k,
    {
        if k == 0 {
            s
        } else {
            self.right_of(self.iterate_right(s, (k - 1) as nat))
        }
    }
}

/// All iterates from a live slot stay live and inside the slot array.
proof fn lemma_iterate_live(q: VertexQueue, s: int, k: nat)
    requires
        q.wf(),
        q.linked(),
        0 <= s < q.content@.len(),
        q.live(s),
    ensures
        0 <= q.iterate_right(s, k) < q.content@.len(),
        q.live(q.iterate_right(s, k)),
    decreases k,
{
    if k > 0 {
        lemma_iterate_live(q, s, (k - 1) as nat);
        let p = q.iterate_right(s, (k - 1) as nat);
        assert(q.live(q.left_of(p)) && q.live(q.right_of(p)) && q.right_of(q.left_of(p)) == p
            && q.left_of(q.right_of(p)) == p);
        assert(q.content@[p].shape_ok(q.content@.len() as int));
    }
}

/// Equal iterates shift back to the start: a repeat after `k2 - k1` more
/// steps than `k1` means the walk returns to `s` after `k2 - k1` steps.
proof fn lemma_iterate_shift(q: VertexQueue, s: int, k1: nat, k2: nat)
    requires
        q.wf(),
        q.linked(),
        0 <= s < q.content@.len(),
        q.live(s),
        k1 <= k2,
        q.iterate_right(s, k1) == q.iterate_right(s, k2),
    ensures
        q.iterate_right(s, (k2 - k1) as nat) == s,
    decreases k1,
{
    if k1 == 0 {
    } else {
        let a = q.iterate_right(s, (k1 - 1) as nat);
        let b = q.iterate_right(s, (k2 - 1) as nat);
        lemma_iterate_live(q, s, (k1 - 1) as nat);
        lemma_iterate_live(q, s, (k2 - 1) as nat);
        assert(q.live(q.left_of(a)) && q.live(q.right_of(a)) && q.right_of(q.left_of(a)) == a
            && q.left_of(q.right_of(a)) == a);
        assert(q.live(q.left_of(b)) && q.live(q.right_of(b)) && q.right_of(q.left_of(b)) == b
            && q.left_of(q.right_of(b)) == b);
        assert(a == b);
        lemma_iterate_shift(q, s, (k1 - 1) as nat, (k2 - 1) as nat);
    }
}

/// Walking `a + b` steps is walking `a` steps, then `b` more.
proof fn lemma_iterate_compose(q: VertexQueue, s: int, a: nat, b: nat)
    ensures
        q.iterate_right(s, (a + b) as nat) == q.iterate_right(q.iterate_right(s, a), b),
    decreases b,
{
    if b > 0 {
        lemma_iterate_compose(q, s, a, (b - 1) as nat);
    }
}

/// A walk that returns after `l` steps returns after any multiple of `l`.
proof fn lemma_iterate_period_multiple(q: VertexQueue, s: int, l: nat, t: nat)
    requires
        q.iterate_right(s, l) == s,
    ensures
        q.iterate_right(s, (t * l) as nat) == s,
    decreases t,
{
    if t > 0 {
        lemma_iterate_period_multiple(q, s, l, (t - 1) as nat);
        assert(t * l == (t - 1) * l + l && (t - 1) * l >= 0) by (nonlinear_arith)
            requires
                t >= 1,
        ;
        let a = ((t - 1) * l) as nat;
        lemma_iterate_compose(q, s, a, l);
        assert(q.iterate_right(s, (a + l) as nat) == q.iterate_right(q.iterate_right(s, a), l));
        assert(a == ((t - 1) as nat) * l);
        assert(q.iterate_right(s, a) == s);
        assert((a + l) as nat == (t * l) as nat);
        assert(q.iterate_right(s, (t * l) as nat) == s);
    } else {
        assert(t * l == 0) by (nonlinear_arith)
            requires
                t == 0,
        ;
        assert(q.iterate_right(s, 0) == s);
    }
}

/// With period `j`, any number of steps lands where fewer than `j` do;
/// returns the smaller step count.
proof fn lemma_iterate_reduce(q: VertexQueue, s: int, j: nat, m: nat) -> (r: nat)
    requires
        1 <= j,
        q.iterate_right(s, j) == s,
    ensures
        r < j,
        q.iterate_right(s, m) == q.iterate_right(s, r),
    decreases m,
{
    if m < j {
        m
    } else {
        let b = (m - j) as nat;
        lemma_iterate_compose(q, s, j, b);
        assert(q.iterate_right(s, (j + b) as nat) == q.iterate_right(q.iterate_right(s, j), b));
        assert((j + b) as nat == m);
        assert(q.iterate_right(s, m) == q.iterate_right(s, b));
        lemma_iterate_reduce(q, s, j, b)
    }
}

/// Walks depend on the slot array alone, not on the chain-start registry.
proof fn lemma_iterate_same_content(q0: VertexQueue, q1: VertexQueue, s: int, k: nat)
    requires
        q1.content@ == q0.content@,
    ensures
        q1.iterate_right(s, k) == q0.iterate_right(s, k),
    decreases k,
{
    if k > 0 {
        lemma_iterate_same_content(q0, q1, s, (k - 1) as nat);
    }
}

/// A slot of another's chain reaches that slot back: walks inside one
/// circular chain run both ways.
proof fn lemma_reach_back(q: VertexQueue, s: int, x: int, i: nat) -> (m: nat)
    requires
        q.wf(),
        q.linked(),
        0 <= s < q.content@.len(),
        q.live(s),
        q.iterate_right(s, i) == x,
    ensures
        q.iterate_right(x, m) == s,
{
    lemma_chain_closes(q, s);
    let l = choose|l: nat|
        1 <= l <= q.content@.len() && #[trigger] q.iterate_right(s, l) == s;
    lemma_iterate_period_multiple(q, s, l, (i + 1) as nat);
    assert(l * (i + 1) >= i + 1 && l * (i + 1) == (i + 1) * l) by (nonlinear_arith)
        requires
            l >= 1,
    ;
    let m = (l * (i + 1) - i) as nat;
    assert(q.iterate_right(s, ((i + 1) * l) as nat) == s);
    assert((i + m) as nat == ((i + 1) * l) as nat);
    lemma_iterate_compose(q, s, i, m);
    assert(q.iterate_right(s, (i + m) as nat) == q.iterate_right(q.iterate_right(s, i), m));
    m
}

/// Visited live slots come in whole chains: every slot reachable from a
/// visited live slot is visited too.
spec fn visit_whole_chains(q: VertexQueue, v: Seq<bool>) -> bool {
    forall|x: int, k: nat|
        0 <= x < q.content@.len() && q.live(x) && v[x] ==> v[#[trigger] q.iterate_right(x, k)]
}

/// The slot `y` is among the first `j` steps of the walk from `s`.
spec fn walk_marked(q: VertexQueue, s: int, j: nat, y: int) -> bool {
    exists|i: nat| i < j && #[trigger] q.iterate_right(s, i) == y
}

/// The slot `x` is reachable by right links from one of the first `bound`
/// registered starts.
pub open spec fn covered_by(q: VertexQueue, xs: Seq<usize>, bound: int, x: int) -> bool {
    exists|k: int, i: nat| 0 <= k < bound && #[trigger] q.iterate_right(xs[k] as int, i) == x
}

/// Coverage by a registry prefix survives changes beyond the prefix.
proof fn lemma_covered_by_prefix(
    q: VertexQueue,
    xs1: Seq<usize>,
    xs2: Seq<usize>,
    bound: int,
    x: int,
)
    requires
        covered_by(q, xs1, bound, x),
        forall|k: int| 0 <= k < bound ==> #[trigger] xs2[k] == xs1[k],
    ensures
        covered_by(q, xs2, bound, x),
{
    let (k, i) = choose|k: int, i: nat|
        0 <= k < bound && #[trigger] q.iterate_right(xs1[k] as int, i) == x;
    assert(q.iterate_right(xs2[k] as int, i) == x);
}

/// The value `v` still sits in the registry at or after position `from`.
spec fn pending_from(xs: Seq<usize>, from: int, v: usize) -> bool {
    exists|p: int| from <= p < xs.len() && #[trigger] xs[p] == v
}

/// The first `bound` of the listed starts lie in pairwise distinct chains:
/// no walk from one reaches another.
pub open spec fn distinct_chains(q: VertexQueue, xs: Seq<usize>, bound: int) -> bool {
    forall|k1: int, k2: int, i: nat|
        #![trigger q.iterate_right(xs[k1] as int, i), xs[k2]]
        0 <= k1 < bound && 0 <= k2 < bound && k1 != k2 ==> q.iterate_right(xs[k1] as int, i)
            != xs[k2] as int
}

/// The first `bound` of the listed starts are all visited.
spec fn starts_marked(v: Seq<bool>, xs: Seq<usize>, bound: int) -> bool {
    forall|k: int| #![trigger xs[k]] 0 <= k < bound ==> v[xs[k] as int]
}

/// The positions the walk from `s` reaches within `k` steps.
spec fn iterate_set(q: VertexQueue, s: int, k: nat) -> Set<int> {
    Set::new(|p: int| exists|j: nat| j <= k && q.iterate_right(s, j) == p)
}

/// While no two iterates coincide, each step reaches a fresh position.
proof fn lemma_distinct_iterates_count(q: VertexQueue, s: int, k: nat)
    requires
        q.wf(),
        q.linked(),
        0 <= s < q.content@.len(),
        q.live(s),
        forall|j1: nat, j2: nat|
            j1 < j2 <= k ==> #[trigger] q.iterate_right(s, j1) != #[trigger] q.iterate_right(
                s,
                j2,
            ),
    ensures
        iterate_set(q, s, k).finite(),
        iterate_set(q, s, k).len() == k + 1,
    decreases k,
{
    if k == 0 {
        assert(iterate_set(q, s, 0) =~= Set::empty().insert(s)) by {
            assert(q.iterate_right(s, 0) == s);
            assert forall|p: int| iterate_set(q, s, 0).contains(p) implies p == s by {
                let j = choose|j: nat| j <= 0 && q.iterate_right(s, j) == p;
                assert(j == 0);
            }
        }
    } else {
        lemma_distinct_iterates_count(q, s, (k - 1) as nat);
        let prev = iterate_set(q, s, (k - 1) as nat);
        let last = q.iterate_right(s, k);
        assert(iterate_set(q, s, k) =~= prev.insert(last)) by {
            assert forall|p: int| iterate_set(q, s, k).contains(p) implies prev.insert(
                last,
            ).contains(p) by {
                let j = choose|j: nat| j <= k && q.iterate_right(s, j) == p;
                if j < k {
                    assert(j <= (k - 1) as nat && q.iterate_right(s, j) == p);
                }
            }
            assert forall|p: int| prev.insert(last).contains(p) implies iterate_set(
                q,
                s,
                k,
            ).contains(p) by {
                if prev.contains(p) {
                    let j = choose|j: nat| j <= (k - 1) as nat && q.iterate_right(s, j) == p;
                    assert(j <= k && q.iterate_right(s, j) == p);
                } else {
                    assert(q.iterate_right(s, k) == p);
                }
            }
        }
        assert(!prev.contains(last)) by {
            if prev.contains(last) {
                let j = choose|j: nat| j <= (k - 1) as nat && q.iterate_right(s, j) == last;
                assert(q.iterate_right(s, j) == q.iterate_right(s, k));
                assert(false);
            }
        }
    }
}

/// Every chain closes: following the right links from a live slot of a
/// well-linked topology returns to that slot within as many steps as there
/// are slots. The wavefront's chains are thus genuine circular chains, and
/// one round over the slot array always suffices to walk a chain.
pub proof fn lemma_chain_closes(q: VertexQueue, s: int)
    requires
        q.wf(),
        q.linked(),
        0 <= s < q.content@.len(),
        q.live(s),
    ensures
        exists|k: nat|
            1 <= k <= q.content@.len() && #[trigger] q.iterate_right(s, k) == s,
{
    let n = q.content@.len() as nat;
    if forall|j1: nat, j2: nat|
        j1 < j2 <= n ==> #[trigger] q.iterate_right(s, j1) != #[trigger] q.iterate_right(s, j2) {
        lemma_distinct_iterates_count(q, s, n);
        let range = vstd::set_lib::set_int_range(0, n as int);
        vstd::set_lib::lemma_int_range(0, n as int);
        assert(iterate_set(q, s, n).subset_of(range)) by {
            assert forall|p: int| iterate_set(q, s, n).contains(p) implies range.contains(p) by {
                let j = choose|j: nat| j <= n && q.iterate_right(s, j) == p;
                lemma_iterate_live(q, s, j);
            }
        }
        vstd::set_lib::lemma_len_subset(iterate_set(q, s, n), range);
        assert(false);
    } else {
        let (j1, j2) = choose|j1: nat, j2: nat|
            j1 < j2 <= n && #[trigger] q.iterate_right(s, j1) == #[trigger] q.iterate_right(
                s,
                j2,
            );
        lemma_iterate_shift(q, s, j1, j2);
        assert(1 <= (j2 - j1) as nat <= n);
        assert(q.iterate_right(s, (j2 - j1) as nat) == s);
    }
}

/// As [`lemma_linked_same_content`], usable where linkedness is not known.
proof fn lemma_linked_same_content_conditional(q0: VertexQueue, q1: VertexQueue)
    requires
        q1.content@ == q0.content@,
    ensures
        q0.linked() ==> q1.linked(),
{
    if q0.linked() {
        lemma_linked_same_content(q0, q1);
    }
}

impl VertexQueue {
    /// The number of steps the walk from `s` takes to first return to `s`:
    /// the length of `s`'s chain. Well defined on the live slots of a
    /// well-linked topology (see [`lemma_chain_period`]).
    pub open spec fn chain_period(self, s: int) -> nat {
        choose|c: nat|
            1 <= c && #[trigger] self.iterate_right(s, c) == s && forall|i: nat|
                1 <= i < c ==> self.iterate_right(s, i) != s
    }

    /// The triples the traversal emits for the chain of the live slot `s`,
    /// registered as chain number `k`: one full round along the right
    /// links, starting at `s`.
    pub open spec fn chain_walk(self, k: int, s: int) -> Seq<(usize, IndexType, usize)> {
        Seq::new(
            self.chain_period(s),
            |i: int|
                (
                    k as usize,
                    IndexType::PointerIndex(self.iterate_right(s, i as nat) as usize),
                    self.content@[self.iterate_right(s, i as nat)].index->RealIndex_0,
                ),
        )
    }

    /// The triples the traversal emits for the registered chains from
    /// number `k` on, in registry order.
    pub open spec fn chains_walk_from(self, k: int) -> Seq<(usize, IndexType, usize)>
        decreases self.start_vertex@.len() - k,
    {
        if 0 <= k < self.start_vertex@.len() {
            self.chain_walk(k, self.start_vertex@[k] as int) + self.chains_walk_from(k + 1)
        } else {
            Seq::empty()
        }
    }
}

/// The first return of the walk from `s`, found by searching upward from
/// step `k` under a known return at step `c0`.
proof fn lemma_first_return(q: VertexQueue, s: int, k: nat, c0: nat) -> (c: nat)
    requires
        1 <= k <= c0,
        q.iterate_right(s, c0) == s,
        forall|i: nat| 1 <= i < k ==> #[trigger] q.iterate_right(s, i) != s,
    ensures
        k <= c <= c0,
        q.iterate_right(s, c) == s,
        forall|i: nat| 1 <= i < c ==> #[trigger] q.iterate_right(s, i) != s,
    decreases c0 - k,
{
    if q.iterate_right(s, k) == s {
        k
    } else {
        lemma_first_return(q, s, (k + 1) as nat, c0)
    }
}

/// On a well-linked topology, every live slot's chain period is well
/// defined: at least one, at most the number of slots, the walk returns
/// exactly then and not before.
pub proof fn lemma_chain_period(q: VertexQueue, s: int)
    requires
        q.wf(),
        q.linked(),
        0 <= s < q.content@.len(),
        q.live(s),
    ensures
        1 <= q.chain_period(s) <= q.content@.len(),
        q.iterate_right(s, q.chain_period(s)) == s,
        forall|i: nat| 1 <= i < q.chain_period(s) ==> #[trigger] q.iterate_right(s, i) != s,
{
    lemma_chain_closes(q, s);
    let c0 = choose|c: nat|
        1 <= c <= q.content@.len() && #[trigger] q.iterate_right(s, c) == s;
    let c = lemma_first_return(q, s, 1, c0);
    assert(1 <= c && q.iterate_right(s, c) == s && forall|i: nat|
        1 <= i < c ==> q.iterate_right(s, i) != s);
    let cp = q.chain_period(s);
    assert(1 <= cp && q.iterate_right(s, cp) == s && forall|i: nat|
        1 <= i < cp ==> q.iterate_right(s, i) != s);
    if cp < c {
        assert(q.iterate_right(s, cp) != s);
        assert(false);
    }
    if c < cp {
        assert(q.iterate_right(s, c) != s);
        assert(false);
    }
}

/// One step of the chain traversal: emitting the slot `e` steps from the
/// start extends the emitted prefix of the chain's walk by one, and the
/// walk returns to the start after the next step exactly when the chain's
/// period is `e + 1`.
proof fn lemma_chain_walk_step(
    q: VertexQueue,
    k: int,
    s: int,
    e: nat,
    base: Seq<(usize, IndexType, usize)>,
    r0: Seq<(usize, IndexType, usize)>,
    cur: usize,
    arena_cur: usize,
)
    requires
        q.wf(),
        q.linked(),
        0 <= s < q.content@.len(),
        q.live(s),
        0 <= k,
        1 <= e < q.chain_period(s),
        cur as int == q.iterate_right(s, e),
        q.content@[cur as int].index == IndexType::RealIndex(arena_cur),
        r0 == base + q.chain_walk(k, s).take(e as int),
    ensures
        r0.push(((k as usize), IndexType::PointerIndex(cur), arena_cur)) == base + q.chain_walk(
            k,
            s,
        ).take(e as int + 1),
        q.iterate_right(s, (e + 1) as nat) == q.right_of(q.iterate_right(s, e)),
        (q.iterate_right(s, (e + 1) as nat) == s) <==> (e + 1 == q.chain_period(s)),
{
    lemma_chain_period(q, s);
    lemma_iterate_live(q, s, e);
    assert(r0.push(((k as usize), IndexType::PointerIndex(cur), arena_cur)) =~= base
        + q.chain_walk(k, s).take(e as int + 1));
    let p = q.chain_period(s);
    if q.iterate_right(s, (e + 1) as nat) == s {
        assert(e + 1 == p);
    } else {
        assert(q.iterate_right(s, p) == s);
        assert(e + 1 != p);
    }
}

/// Chains live in the slot array alone: two topologies with the same
/// slots are linked alike, whatever their chain-start registries hold.
proof fn lemma_linked_same_content(q0: VertexQueue, q1: VertexQueue)
    requires
        q0.linked(),
        q1.content@ == q0.content@,
    ensures
        q1.linked(),
{
    assert forall|i: int| 0 <= i < q1.content@.len() && #[trigger] q1.live(i) implies {
        &&& q1.live(q1.left_of(i))
        &&& q1.live(q1.right_of(i))
        &&& q1.right_of(q1.left_of(i)) == i
        &&& q1.left_of(q1.right_of(i)) == i
    } by {
        assert(q0.live(i));
        assert(q0.live(q0.left_of(i)) && q0.live(q0.right_of(i)) && q0.right_of(q0.left_of(i)) == i
            && q0.left_of(q0.right_of(i)) == i);
    }
}

/// The traversal `r` lists the slot `sv` as a member of chain `k`.
pub open spec fn lists_entry(r: Seq<(usize, IndexType, usize)>, k: int, sv: usize) -> bool {
    exists|t: int|
        0 <= t < r.len() && (#[trigger] r[t]).0 == k && r[t].1 == IndexType::PointerIndex(sv)
}

/// Appending entries to a traversal keeps every slot it already listed.
proof fn lemma_lists_entry_extend(
    r1: Seq<(usize, IndexType, usize)>,
    r2: Seq<(usize, IndexType, usize)>,
    k: int,
    sv: usize,
)
    requires
        r2.len() >= r1.len(),
        forall|t: int| 0 <= t < r1.len() ==> r2[t] == #[trigger] r1[t],
        lists_entry(r1, k, sv),
    ensures
        lists_entry(r2, k, sv),
{
    let t0 = choose|t: int|
        0 <= t < r1.len() && (#[trigger] r1[t]).0 == k && r1[t].1 == IndexType::PointerIndex(sv);
    assert(r2[t0] == r1[t0]);
    assert(0 <= t0 < r2.len() && (r2[t0]).0 == k && r2[t0].1 == IndexType::PointerIndex(sv));
}

/// The slot positions a traversal has not yet visited.
pub(crate) open spec fn unvisited(visit: Seq<bool>) -> Set<int> {
    Set::new(|p: int| 0 <= p < visit.len() && !visit[p])
}

/// The unvisited positions form a finite set no larger than the array.
pub(crate) proof fn lemma_unvisited_bound(visit: Seq<bool>)
    ensures
        unvisited(visit).finite(),
        unvisited(visit).len() <= visit.len(),
{
    let range = vstd::set_lib::set_int_range(0, visit.len() as int);
    vstd::set_lib::lemma_int_range(0, visit.len() as int);
    assert(unvisited(visit).subset_of(range));
    vstd::set_lib::lemma_len_subset(unvisited(visit), range);
}

/// Marking a fresh position visited shrinks the unvisited set.
pub(crate) proof fn lemma_unvisited_mark(visit: Seq<bool>, p: int)
    requires
        0 <= p < visit.len(),
        !visit[p],
    ensures
        unvisited(visit.update(p, true)).len() < unvisited(visit).len(),
        unvisited(visit.update(p, true)).finite(),
{
    lemma_unvisited_bound(visit);
    lemma_unvisited_bound(visit.update(p, true));
    assert(unvisited(visit.update(p, true)) =~= unvisited(visit).remove(p));
    assert(unvisited(visit).contains(p));
}

/// The cyclic predecessor and successor positions inside a ring of `len`
/// slots, written without the modulus.
proof fn lemma_ring_mod(j: int, len: int)
    requires
        0 <= j < len,
    ensures
        (j + len - 1) % len == (if j == 0 {
            len - 1
        } else {
            j - 1
        }),
        (j + 1) % len == (if j + 1 == len {
            0int
        } else {
            j + 1
        }),
{
    if j == 0 {
        vstd::arithmetic::div_mod::lemma_small_mod((len - 1) as nat, len as nat);
    } else {
        vstd::arithmetic::div_mod::lemma_mod_multiples_vanish(1, j - 1, len);
        vstd::arithmetic::div_mod::lemma_small_mod((j - 1) as nat, len as nat);
    }
    if j + 1 == len {
        vstd::arithmetic::div_mod::lemma_mod_self_0(len);
    } else {
        vstd::arithmetic::div_mod::lemma_small_mod((j + 1) as nat, len as nat);
    }
}

/// Ring sizes never shrink the requested slot count.
proof fn lemma_total_size_nonneg(sizes: Seq<usize>)
    ensures
        VertexQueue::total_size(sizes) >= 0,
    decreases sizes.len(),
{
    if sizes.len() > 0 {
        lemma_total_size_nonneg(sizes.drop_first());
    }
}

/// Pointwise description of [`VertexQueue::after_split`]: what each slot's
/// fields are after the splice.
proof fn lemma_after_split_fields(content: Seq<Node>, c: int, s: int, nv1: IndexType, nv2: IndexType)
    requires
        content.len() <= usize::MAX,
        0 <= c < content.len(),
        0 <= s < content.len(),
        c != s,
        content[c].right matches IndexType::PointerIndex(x) && x < content.len(),
        content[s].right matches IndexType::PointerIndex(y) && y < content.len(),
    ensures
        ({
            let t = VertexQueue::after_split(content, c, s, nv1, nv2);
            let n = content.len() as int;
            let cvx = content[c].right->PointerIndex_0 as int;
            let svx = content[s].right->PointerIndex_0 as int;
            &&& t.len() == n + 1
            &&& forall|j: int|
                0 <= j <= n ==> (#[trigger] t[j]).done == (if j == n {
                    false
                } else {
                    content[j].done
                })
            &&& forall|j: int|
                0 <= j <= n ==> (#[trigger] t[j]).index == (if j == c {
                    nv1
                } else if j == n {
                    nv2
                } else {
                    content[j].index
                })
            &&& forall|j: int|
                0 <= j <= n ==> (#[trigger] t[j]).left == (if j == svx {
                    IndexType::PointerIndex(c as usize)
                } else if j == cvx {
                    IndexType::PointerIndex(n as usize)
                } else if j == n {
                    IndexType::PointerIndex(s as usize)
                } else {
                    content[j].left
                })
            &&& forall|j: int|
                0 <= j <= n ==> (#[trigger] t[j]).right == (if j == c {
                    content[s].right
                } else if j == s {
                    IndexType::PointerIndex(n as usize)
                } else if j == n {
                    content[c].right
                } else {
                    content[j].right
                })
        }),
{
    reveal(VertexQueue::after_split);
}

/// Splitting a chain at a live anchor and a live, non-adjacent target
/// keeps the live slots in disjoint circular chains.
proof fn lemma_split_preserves_linked(
    q0: VertexQueue,
    q1: VertexQueue,
    c: int,
    s: int,
    nv1: IndexType,
    nv2: IndexType,
)
    requires
        q0.wf(),
        q0.linked(),
        q0.content@.len() <= usize::MAX,
        0 <= c < q0.content@.len(),
        0 <= s < q0.content@.len(),
        q0.split_apart(c, s),
        q1.content@ == VertexQueue::after_split(q0.content@, c, s, nv1, nv2),
    ensures
        q1.linked(),
{
    let n = q0.content@.len() as int;
    let cvx = q0.right_of(c);
    let svx = q0.right_of(s);
    assert(q0.content@[c].shape_ok(n));
    assert(q0.content@[s].shape_ok(n));
    lemma_after_split_fields(q0.content@, c, s, nv1, nv2);
    assert(q0.live(c) && q0.live(q0.left_of(c)) && q0.live(cvx) && q0.right_of(q0.left_of(c)) == c
        && q0.left_of(cvx) == c);
    assert(q0.live(s) && q0.live(q0.left_of(s)) && q0.live(svx) && q0.right_of(q0.left_of(s)) == s
        && q0.left_of(svx) == s);
    assert(q0.live(q0.left_of(cvx)) && q0.live(q0.right_of(cvx)) && q0.right_of(q0.left_of(cvx))
        == cvx && q0.left_of(q0.right_of(cvx)) == cvx);
    assert(q0.live(q0.left_of(svx)) && q0.live(q0.right_of(svx)) && q0.right_of(q0.left_of(svx))
        == svx && q0.left_of(q0.right_of(svx)) == svx);
    assert(cvx != c);
    assert(cvx != svx);
    assert(q0.left_of(c) != s);
    assert(q0.left_of(s) != c || svx == c);
    assert forall|i: int| 0 <= i < q1.content@.len() && #[trigger] q1.live(i) implies {
        &&& q1.live(q1.left_of(i))
        &&& q1.live(q1.right_of(i))
        &&& q1.right_of(q1.left_of(i)) == i
        &&& q1.left_of(q1.right_of(i)) == i
    } by {
        if i == n {
            assert(q1.left_of(i) == s && q1.right_of(i) == cvx);
            assert(q1.live(s) && q1.live(cvx));
            assert(q1.right_of(s) == n && q1.left_of(cvx) == n);
        } else {
            assert(q0.live(i));
            assert(q0.live(q0.left_of(i)) && q0.live(q0.right_of(i)) && q0.right_of(q0.left_of(i))
                == i && q0.left_of(q0.right_of(i)) == i);
            let l = q0.left_of(i);
            let r = q0.right_of(i);
            assert(q0.live(q0.left_of(l)) && q0.live(q0.right_of(l)) && q0.right_of(q0.left_of(l))
                == l && q0.left_of(q0.right_of(l)) == l);
            assert(q0.live(q0.left_of(r)) && q0.live(q0.right_of(r)) && q0.right_of(q0.left_of(r))
                == r && q0.left_of(q0.right_of(r)) == r);
            if i == c {
                assert(q1.right_of(c) == svx && q1.left_of(svx) == c);
                assert(q1.left_of(c) == q0.left_of(c));
                assert(q0.left_of(c) != c && q0.left_of(c) != s);
                assert(q1.right_of(q1.left_of(c)) == c);
            } else if i == s {
                assert(q1.right_of(s) == n && q1.left_of(n) == s);
                if svx == s {
                    assert(q1.left_of(s) == c && q1.right_of(c) == svx);
                } else {
                    assert(q1.left_of(s) == q0.left_of(s));
                    assert(q0.left_of(s) != c && q0.left_of(s) != s);
                    assert(q1.right_of(q1.left_of(s)) == s);
                }
            } else if i == cvx {
                assert(q1.left_of(cvx) == n && q1.right_of(n) == cvx);
                assert(q1.right_of(cvx) == q0.right_of(cvx));
                assert(q0.right_of(cvx) != svx && q0.right_of(cvx) != cvx);
                assert(q1.left_of(q1.right_of(cvx)) == cvx);
            } else if i == svx {
                assert(q1.left_of(svx) == c && q1.right_of(c) == svx);
                assert(q1.right_of(svx) == q0.right_of(svx));
                assert(q0.right_of(svx) != svx && q0.right_of(svx) != cvx);
                assert(q1.left_of(q1.right_of(svx)) == svx);
            } else {
                assert(l != c && l != s);
                assert(r != cvx && r != svx);
                assert(q1.left_of(i) == l && q1.right_of(i) == r);
                assert(q1.right_of(l) == q0.right_of(l) && q1.left_of(r) == q0.left_of(r));
            }
        }
    }
}

/// Unlinking a live slot from a well-linked topology keeps the remaining
/// live slots in disjoint circular chains.
proof fn lemma_remove_preserves_linked(q0: VertexQueue, q1: VertexQueue, c: int)
    requires
        q0.wf(),
        q0.linked(),
        0 <= c < q0.content@.len(),
        q0.live(c),
        q1.content@ == VertexQueue::after_remove(q0.content@, c),
    ensures
        q1.linked(),
{
    let tl = q0.left_of(c);
    let tr = q0.right_of(c);
    lemma_after_remove_fields(q0.content@, c);
    assert(q0.live(tl) && q0.live(tr) && q0.right_of(tl) == c && q0.left_of(tr) == c);
    assert(q0.live(q0.left_of(tl)) && q0.live(q0.right_of(tl)) && q0.right_of(q0.left_of(tl)) == tl
        && q0.left_of(q0.right_of(tl)) == tl);
    assert(q0.live(q0.left_of(tr)) && q0.live(q0.right_of(tr)) && q0.right_of(q0.left_of(tr)) == tr
        && q0.left_of(q0.right_of(tr)) == tr);
    assert forall|i: int| 0 <= i < q1.content@.len() && #[trigger] q1.live(i) implies {
        &&& q1.live(q1.left_of(i))
        &&& q1.live(q1.right_of(i))
        &&& q1.right_of(q1.left_of(i)) == i
        &&& q1.left_of(q1.right_of(i)) == i
    } by {
        assert(q0.live(i));
        assert(q0.live(q0.left_of(i)) && q0.live(q0.right_of(i)) && q0.right_of(q0.left_of(i)) == i
            && q0.left_of(q0.right_of(i)) == i);
        let l = q0.left_of(i);
        let r = q0.right_of(i);
        assert(q0.live(q0.left_of(l)) && q0.live(q0.right_of(l)) && q0.right_of(q0.left_of(l)) == l
            && q0.left_of(q0.right_of(l)) == l);
        assert(q0.live(q0.left_of(r)) && q0.live(q0.right_of(r)) && q0.right_of(q0.left_of(r)) == r
            && q0.left_of(q0.right_of(r)) == r);
    }
}

/// Pointwise description of [`VertexQueue::after_remove`]: what each
/// slot's fields are after the splice.
pub(crate) proof fn lemma_after_remove_fields(content: Seq<Node>, c: int)
    requires
        0 <= c < content.len(),
        content[c].left matches IndexType::PointerIndex(x) && x < content.len(),
        content[c].right matches IndexType::PointerIndex(y) && y < content.len(),
    ensures
        ({
            let t = VertexQueue::after_remove(content, c);
            let tl = content[c].left->PointerIndex_0 as int;
            let tr = content[c].right->PointerIndex_0 as int;
            &&& t.len() == content.len()
            &&& forall|j: int|
                0 <= j < t.len() ==> (#[trigger] t[j]).done == (if j == c {
                    true
                } else {
                    content[j].done
                })
            &&& forall|j: int| 0 <= j < t.len() ==> (#[trigger] t[j]).index == content[j].index
            &&& forall|j: int|
                0 <= j < t.len() ==> (#[trigger] t[j]).left == (if j == tr {
                    content[c].left
                } else {
                    content[j].left
                })
            &&& forall|j: int|
                0 <= j < t.len() ==> (#[trigger] t[j]).right == (if j == tl {
                    content[c].right
                } else {
                    content[j].right
                })
        }),
{
    reveal(VertexQueue::after_remove);
}

} // verus!
