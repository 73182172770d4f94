//! Fired wavefront events and their replay against the topology.
//!
//! The skeleton construction appends one [`Event`] to its log for every
//! topology change it commits. Replaying a prefix of the log against the
//! initial topology reproduces the wavefront at any elapsed distance
//! without re-running the geometric simulation.

use vstd::prelude::*;

use crate::vertex_queue::lemma_after_remove_fields;
use crate::vertex_queue::lemma_unvisited_mark;
use crate::vertex_queue::unvisited;
use crate::vertex_queue::IndexType;
use crate::vertex_queue::Node;
use crate::vertex_queue::VertexQueue;

verus! {

/// One committed topology change of the wavefront.
#[derive(Clone, Copy, Debug, PartialEq, Eq, Structural)]
pub enum Event {
    /// Two adjacent wavefront vertices collapsed: the slot at position
    /// `merge_from` retires and the merged slot stands for the new arena
    /// vertex `merge_to`.
    VertexEvent { merge_from: usize, merge_to: usize },
    /// A reflex vertex at slot `split_from` reached the wavefront edge
    /// owned by slot `split_into`; the chain splits in two, the halves
    /// standing for the new arena vertices `split_to_left` and
    /// `split_to_right`.
    EdgeEvent {
        split_from: usize,
        split_into: usize,
        split_to_left: usize,
        split_to_right: usize,
    },
}

/// The slot array after a merge: the slot `c` is unlinked and its former
/// right neighbour is repointed at the arena vertex `merge_to`.
pub open spec fn after_merge(content: Seq<Node>, c: int, merge_to: usize) -> Seq<Node> {
    let merged = VertexQueue::after_remove(content, c);
    let tr = content[c].right->PointerIndex_0 as int;
    merged.update(tr, (Node { index: IndexType::RealIndex(merge_to), ..merged[tr] }))
}

/// The merged slot's chain has collapsed to a point: after the merge it is
/// its own sole neighbour or forms a pair with one other slot.
pub open spec fn chain_collapsed(content: Seq<Node>, c: int, merge_to: usize) -> bool {
    let set_q = after_merge(content, c, merge_to);
    let tr = content[c].right->PointerIndex_0 as int;
    set_q[tr].left == set_q[tr].right
}

/// Replays one committed event against the topology, exactly as the
/// construction performed it. A merge unlinks the collapsing slot and
/// repoints the merged slot; if this leaves the merged slot alone with at
/// most one partner, the whole chain has collapsed to a point and both
/// remaining slots retire. A split splices the anchor's chain in two. The
/// returned positions are the slots whose neighbourhoods changed (for a
/// collapsed chain, the arena index of the final vertex instead); the
/// caller is expected to run `cleanup` afterwards, as the construction
/// does.
pub fn apply_event(vertex_queue: &mut VertexQueue, event: &Event) -> (r: (
    Option<IndexType>,
    Option<IndexType>,
))
    requires
        old(vertex_queue).wf(),
        event matches Event::VertexEvent { merge_from, .. } ==> merge_from < old(
            vertex_queue,
        ).content@.len(),
        event matches Event::EdgeEvent { split_from, split_into, .. } ==> split_from < old(
            vertex_queue,
        ).content@.len() && split_into < old(vertex_queue).content@.len() && split_from
            != split_into,
    ensures
        final(vertex_queue).wf(),
        match *event {
            Event::VertexEvent { merge_from, merge_to } => {
                let q0 = old(vertex_queue);
                let c = merge_from as int;
                let set_q = after_merge(q0.content@, c, merge_to);
                let tr = q0.content@[c].right->PointerIndex_0 as int;
                let tl = set_q[tr].left->PointerIndex_0 as int;
                &&& final(vertex_queue).start_vertex@ == q0.start_vertex@
                &&& if chain_collapsed(q0.content@, c, merge_to) {
                    let u1 = set_q.update(tl, (Node { done: true, ..set_q[tl] }));
                    let u2 = u1.update(tr, (Node { done: true, ..u1[tr] }));
                    &&& final(vertex_queue).content@ == u2
                    &&& r == (Some(set_q[tl].index), None::<IndexType>)
                } else {
                    &&& final(vertex_queue).content@ == set_q
                    &&& r == (
                        Some(IndexType::PointerIndex(tr as usize)),
                        None::<IndexType>,
                    )
                }
            },
            Event::EdgeEvent { split_from, split_into, split_to_left, split_to_right } => {
                let q0 = old(vertex_queue);
                &&& final(vertex_queue).content@ == VertexQueue::after_split(
                    q0.content@,
                    split_from as int,
                    split_into as int,
                    IndexType::RealIndex(split_to_left),
                    IndexType::RealIndex(split_to_right),
                )
                &&& final(vertex_queue).start_vertex@ == q0.start_vertex@.push(split_from).push(
                    q0.content@.len() as usize,
                )
                &&& r == (
                    Some(IndexType::PointerIndex(split_from)),
                    Some(IndexType::PointerIndex(q0.content@.len() as usize)),
                )
            },
        },
        old(vertex_queue).linked() && (match *event {
            Event::VertexEvent { merge_from, .. } => old(vertex_queue).live(merge_from as int),
            Event::EdgeEvent { split_from, split_into, .. } => old(vertex_queue).split_apart(
                split_from as int,
                split_into as int,
            ),
        }) ==> final(vertex_queue).linked(),
{
    match event {
        Event::VertexEvent { merge_from, merge_to } => {
            let from = IndexType::PointerIndex(*merge_from);
            let to = IndexType::RealIndex(*merge_to);
            let cv = vertex_queue.remove_and_set(from, to);
            let ghost mid = *vertex_queue;
            let lv = vertex_queue.lv(cv);
            let rv = vertex_queue.rv(cv);
            if lv == rv {
                let tl = lv.get_index();
                let tr = cv.get_index();
                let result_index = vertex_queue.content[tl].index;
                let mut node = vertex_queue.content[tl];
                node.done = true;
                vertex_queue.content[tl] = node;
                let mut node = vertex_queue.content[tr];
                node.done = true;
                vertex_queue.content[tr] = node;
                proof {
                    assert forall|j: int|
                        0 <= j < vertex_queue.content@.len() implies (
                    #[trigger] vertex_queue.content@[j]).shape_ok(
                        vertex_queue.content@.len() as int,
                    ) by {
                        assert(mid.content@[j].shape_ok(mid.content@.len() as int));
                    }
                    if old(vertex_queue).linked() && old(vertex_queue).live(
                        from->PointerIndex_0 as int,
                    ) {
                        let c = from->PointerIndex_0 as int;
                        let n0 = old(vertex_queue).content@.len() as int;
                        assert(old(vertex_queue).content@[c].shape_ok(n0));
                        lemma_after_remove_fields(old(vertex_queue).content@, c);
                        assert(old(vertex_queue).live(old(vertex_queue).right_of(c)));
                        assert(mid.live(tr as int) || tl == tr);
                        lemma_retire_pair_preserves_linked(
                            mid,
                            *vertex_queue,
                            tr as int,
                            tl as int,
                        );
                    }
                }
                (Some(result_index), None)
            } else {
                (Some(cv), None)
            }
        },
        Event::EdgeEvent { split_from, split_into, split_to_left, split_to_right } => {
            let rs = vertex_queue.split_and_set(
                IndexType::PointerIndex(*split_from),
                IndexType::PointerIndex(*split_into),
                IndexType::RealIndex(*split_to_left),
                IndexType::RealIndex(*split_to_right),
            );
            (Some(rs.0), Some(rs.1))
        },
    }
}

/// The discrete shape of one arena vertex: what the skeleton's edge
/// traversal reads. The geometric payload (rays, locations, times) stays
/// with the caller, keyed by the same arena positions.
#[derive(Clone, Copy, Debug, PartialEq, Eq, Structural)]
pub enum ArenaNode {
    /// A wavefront vertex travelling along its bisector; `parent` is the
    /// arena vertex it merges into, `usize::MAX` while unresolved.
    TreeNode { parent: usize },
    /// A committed split: the two chain halves continue at these arena
    /// vertices.
    SplitNode { split_left: usize, split_right: usize },
    /// A terminal collapse point.
    RootNode,
}

/// Every arena reference is in bounds, and a resolved parent points at a
/// strictly later vertex: the append-only arena order is a topological
/// order, so parent links never cycle.
pub open spec fn arena_ok(arena: Seq<ArenaNode>) -> bool {
    forall|i: int|
        0 <= i < arena.len() ==> match #[trigger] arena[i] {
            ArenaNode::TreeNode { parent } => parent == usize::MAX || (i < parent
                && (parent as int) < arena.len()),
            ArenaNode::SplitNode { split_left, split_right } => (split_left as int) < arena.len()
                && (split_right as int) < arena.len(),
            ArenaNode::RootNode => true,
        }
}

/// The traversal emitted the edge of arena vertex `x`.
pub open spec fn emits_edge(r: Seq<(usize, usize)>, x: usize) -> bool {
    exists|t: int| 0 <= t < r.len() && (#[trigger] r[t]).0 == x
}

/// The value `v` sits somewhere on the worklist.
spec fn on_stack(st: Seq<usize>, v: usize) -> bool {
    exists|t: int| 0 <= t < st.len() && #[trigger] st[t] == v
}

/// A vertex is settled once its edge duty is discharged: a tree vertex has
/// its edge emitted, a split vertex has both children visited or queued,
/// and a root vertex needs nothing.
spec fn settled(
    arena: Seq<ArenaNode>,
    visit: Seq<bool>,
    st: Seq<usize>,
    r: Seq<(usize, usize)>,
    x: int,
) -> bool {
    match arena[x] {
        ArenaNode::TreeNode { parent } => emits_edge(r, x as usize),
        ArenaNode::SplitNode { split_left, split_right } => (visit[split_left as int] || on_stack(
            st,
            split_left,
        )) && (visit[split_right as int] || on_stack(st, split_right)),
        ArenaNode::RootNode => true,
    }
}

/// An emitted edge stays emitted when the traversal appends more.
proof fn lemma_emits_extend(r1: Seq<(usize, usize)>, r2: Seq<(usize, usize)>, x: usize)
    requires
        r2.len() >= r1.len(),
        forall|t: int| 0 <= t < r1.len() ==> r2[t] == #[trigger] r1[t],
        emits_edge(r1, x),
    ensures
        emits_edge(r2, x),
{
    let t = choose|t: int| 0 <= t < r1.len() && (#[trigger] r1[t]).0 == x;
    assert(r2[t] == r1[t]);
    assert(0 <= t < r2.len() && (r2[t]).0 == x);
}

/// Popping the worklist loses at most its last entry.
proof fn lemma_on_stack_drop(st: Seq<usize>, v: usize)
    requires
        st.len() > 0,
        on_stack(st, v),
    ensures
        on_stack(st.drop_last(), v) || st.last() == v,
{
    let t = choose|t: int| 0 <= t < st.len() && #[trigger] st[t] == v;
    if t < st.len() - 1 {
        assert(st.drop_last()[t] == v);
    }
}

/// Pushing onto the worklist keeps every entry, and lists the new one.
proof fn lemma_on_stack_push(st: Seq<usize>, v: usize, w: usize)
    requires
        on_stack(st, v),
    ensures
        on_stack(st.push(w), v),
        on_stack(st.push(w), w),
{
    let t = choose|t: int| 0 <= t < st.len() && #[trigger] st[t] == v;
    assert(st.push(w)[t] == v);
    assert(st.push(w)[st.len() as int] == w);
}

/// The traversal's running state: every worklist entry is in bounds,
/// every emitted pair is the parent link of a visited tree vertex and the
/// only pair of that vertex, emitted parents are visited or queued, and
/// every visited vertex has discharged its duty (see [`settled`]).
spec fn edges_state_ok(
    arena: Seq<ArenaNode>,
    visit: Seq<bool>,
    st: Seq<usize>,
    r: Seq<(usize, usize)>,
) -> bool {
    &&& visit.len() == arena.len()
    &&& forall|t: int| 0 <= t < st.len() ==> ((#[trigger] st[t]) as int) < arena.len()
    &&& forall|t: int|
        0 <= t < r.len() ==> {
            let edge = #[trigger] r[t];
            &&& (edge.0 as int) < arena.len()
            &&& arena[edge.0 as int] == (ArenaNode::TreeNode { parent: edge.1 })
            &&& visit[edge.0 as int]
            &&& (edge.1 != usize::MAX ==> visit[edge.1 as int] || on_stack(st, edge.1))
        }
    &&& forall|t1: int, t2: int|
        0 <= t1 < t2 < r.len() ==> (#[trigger] r[t1]).0 != (#[trigger] r[t2]).0
    &&& forall|x: int|
        0 <= x < arena.len() && #[trigger] visit[x] ==> settled(arena, visit, st, r, x)
}

/// The skeleton's edges, for diagnostic visualisation, as arena index
/// pairs: every tree vertex the traversal reaches from the listed initial
/// vertices contributes exactly one pair of itself and its parent
/// (`usize::MAX` marking an unresolved parent, drawn as a stub), the
/// traversal follows each emitted parent link onward, and fans out to both
/// children of every split vertex it meets.
pub fn skeleton_edges(arena: &Vec<ArenaNode>, roots: &Vec<usize>) -> (r: Vec<(usize, usize)>)
    requires
        arena_ok(arena@),
        forall|k: int| 0 <= k < roots@.len() ==> ((#[trigger] roots@[k]) as int) < arena@.len(),
    ensures
        forall|t: int|
            0 <= t < r@.len() ==> {
                let edge = #[trigger] r@[t];
                &&& (edge.0 as int) < arena@.len()
                &&& arena@[edge.0 as int] == (ArenaNode::TreeNode { parent: edge.1 })
            },
        forall|t1: int, t2: int|
            0 <= t1 < t2 < r@.len() ==> (#[trigger] r@[t1]).0 != (#[trigger] r@[t2]).0,
        forall|k: int|
            0 <= k < roots@.len() && arena@[(#[trigger] roots@[k]) as int] is TreeNode
                ==> emits_edge(r@, roots@[k]),
        forall|k: int|
            0 <= k < roots@.len() ==> match arena@[(#[trigger] roots@[k]) as int] {
                ArenaNode::SplitNode { split_left, split_right } => (arena@[split_left as int]
                    is TreeNode ==> emits_edge(r@, split_left)) && (arena@[split_right as int]
                    is TreeNode ==> emits_edge(r@, split_right)),
                _ => true,
            },
        forall|t: int|
            0 <= t < r@.len() && (#[trigger] r@[t]).1 != usize::MAX ==> {
                let p = r@[t].1;
                &&& (arena@[p as int] is TreeNode ==> emits_edge(r@, p))
                &&& match arena@[p as int] {
                    ArenaNode::SplitNode { split_left, split_right } => (arena@[split_left as int]
                        is TreeNode ==> emits_edge(r@, split_left)) && (arena@[split_right as int]
                        is TreeNode ==> emits_edge(r@, split_right)),
                    _ => true,
                }
            },
{
    let n = arena.len();
    let mut visit: Vec<bool> = Vec::new();
    let mut t: usize = 0;
    while t < n
        invariant
            visit@.len() == t,
            t <= n,
            forall|y: int| 0 <= y < t ==> !(#[trigger] visit@[y]),
        decreases n - t,
    {
        visit.push(false);
        t = t + 1;
    }
    let mut ret: Vec<(usize, usize)> = Vec::new();
    let mut stack: Vec<usize> = Vec::new();
    let mut k: usize = 0;
    while k < roots.len()
        invariant
            k <= roots@.len(),
            forall|j: int| 0 <= j < roots@.len() ==> ((#[trigger] roots@[j]) as int)
                < arena@.len(),
            forall|t2: int| 0 <= t2 < stack@.len() ==> ((#[trigger] stack@[t2]) as int)
                < arena@.len(),
            forall|j: int| 0 <= j < k ==> on_stack(stack@, #[trigger] roots@[j]),
        decreases roots@.len() - k,
    {
        let ghost st0 = stack@;
        stack.push(roots[k]);
        proof {
            assert forall|j: int| 0 <= j < k + 1 implies on_stack(stack@, #[trigger] roots@[j]) by {
                if j < k {
                    lemma_on_stack_push(st0, roots@[j], roots@[k as int]);
                } else {
                    assert(stack@[st0.len() as int] == roots@[j]);
                }
            }
        }
        k = k + 1;
    }
    while stack.len() > 0
        invariant
            arena_ok(arena@),
            forall|j: int| 0 <= j < roots@.len() ==> ((#[trigger] roots@[j]) as int)
                < arena@.len(),
            edges_state_ok(arena@, visit@, stack@, ret@),
            forall|j: int|
                0 <= j < roots@.len() ==> visit@[(#[trigger] roots@[j]) as int] || on_stack(
                    stack@,
                    roots@[j],
                ),
        decreases unvisited(visit@).len(), stack@.len(),
    {
        let ghost st0 = stack@;
        let ghost v0 = visit@;
        let ghost r0 = ret@;
        let cur = stack.pop().unwrap();
        proof {
            assert(stack@ =~= st0.drop_last());
            assert(cur == st0.last());
            assert((st0[st0.len() - 1] as int) < arena@.len());
        }
        let ghost st_pop = stack@;
        if !visit[cur] {
            proof {
                lemma_unvisited_mark(visit@, cur as int);
            }
            visit[cur] = true;
            let node = arena[cur];
            match node {
                ArenaNode::TreeNode { parent } => {
                    ret.push((cur, parent));
                    if parent != usize::MAX {
                        stack.push(parent);
                    }
                    proof {
                        lemma_edges_step(arena@, v0, st0, r0, visit@, stack@, ret@, cur, roots@);
                    }
                },
                ArenaNode::SplitNode { split_left, split_right } => {
                    stack.push(split_left);
                    stack.push(split_right);
                    proof {
                        lemma_edges_step(arena@, v0, st0, r0, visit@, stack@, ret@, cur, roots@);
                    }
                },
                ArenaNode::RootNode => {
                    proof {
                        lemma_edges_step(arena@, v0, st0, r0, visit@, stack@, ret@, cur, roots@);
                    }
                },
            }
        } else {
            proof {
                lemma_edges_skip(arena@, v0, st0, r0, stack@, cur, roots@);
            }
        }
    }
    proof {
        assert forall|k2: int|
            0 <= k2 < roots@.len() && arena@[(#[trigger] roots@[k2]) as int]
                is TreeNode implies emits_edge(ret@, roots@[k2]) by {
            assert(visit@[roots@[k2] as int]);
            assert(settled(arena@, visit@, stack@, ret@, roots@[k2] as int));
        }
        assert forall|k2: int| 0 <= k2 < roots@.len() implies match arena@[(#[trigger] roots@[k2]) as int] {
            ArenaNode::SplitNode { split_left, split_right } => (arena@[split_left as int]
                is TreeNode ==> emits_edge(ret@, split_left)) && (arena@[split_right as int]
                is TreeNode ==> emits_edge(ret@, split_right)),
            _ => true,
        } by {
            assert(visit@[roots@[k2] as int]);
            assert(settled(arena@, visit@, stack@, ret@, roots@[k2] as int));
            match arena@[roots@[k2] as int] {
                ArenaNode::SplitNode { split_left, split_right } => {
                    assert(visit@[split_left as int] && visit@[split_right as int]);
                    assert(settled(arena@, visit@, stack@, ret@, split_left as int));
                    assert(settled(arena@, visit@, stack@, ret@, split_right as int));
                },
                _ => {},
            }
        }
        assert forall|t2: int|
            0 <= t2 < ret@.len() && (#[trigger] ret@[t2]).1 != usize::MAX implies {
            let p = ret@[t2].1;
            &&& (arena@[p as int] is TreeNode ==> emits_edge(ret@, p))
            &&& match arena@[p as int] {
                ArenaNode::SplitNode { split_left, split_right } => (arena@[split_left as int]
                    is TreeNode ==> emits_edge(ret@, split_left)) && (arena@[split_right as int]
                    is TreeNode ==> emits_edge(ret@, split_right)),
                _ => true,
            }
        } by {
            let p = ret@[t2].1;
            assert((ret@[t2].0 as int) < arena@.len());
            assert(arena@[ret@[t2].0 as int] == (ArenaNode::TreeNode { parent: p }));
            assert((p as int) < arena@.len());
            assert(visit@[p as int]);
            assert(settled(arena@, visit@, stack@, ret@, p as int));
            match arena@[p as int] {
                ArenaNode::SplitNode { split_left, split_right } => {
                    assert(visit@[split_left as int] && visit@[split_right as int]);
                    assert(settled(arena@, visit@, stack@, ret@, split_left as int));
                    assert(settled(arena@, visit@, stack@, ret@, split_right as int));
                },
                _ => {},
            }
        }
    }
    ret
}

/// Popping an already visited vertex from the worklist keeps the
/// traversal's state sound: whatever duty pointed at the popped entry is
/// discharged by its visit flag.
proof fn lemma_edges_skip(
    arena: Seq<ArenaNode>,
    v0: Seq<bool>,
    st0: Seq<usize>,
    r0: Seq<(usize, usize)>,
    st1: Seq<usize>,
    cur: usize,
    roots: Seq<usize>,
)
    requires
        st0.len() > 0,
        cur == st0.last(),
        (cur as int) < arena.len(),
        v0[cur as int],
        edges_state_ok(arena, v0, st0, r0),
        forall|j: int| 0 <= j < roots.len() ==> ((#[trigger] roots[j]) as int) < arena.len(),
        forall|j: int|
            0 <= j < roots.len() ==> v0[(#[trigger] roots[j]) as int] || on_stack(st0, roots[j]),
        st1 == st0.drop_last(),
    ensures
        edges_state_ok(arena, v0, st1, r0),
        forall|j: int|
            0 <= j < roots.len() ==> v0[(#[trigger] roots[j]) as int] || on_stack(st1, roots[j]),
{
    assert forall|t: int| 0 <= t < r0.len() implies {
        let edge = #[trigger] r0[t];
        &&& (edge.0 as int) < arena.len()
        &&& arena[edge.0 as int] == (ArenaNode::TreeNode { parent: edge.1 })
        &&& v0[edge.0 as int]
        &&& (edge.1 != usize::MAX ==> v0[edge.1 as int] || on_stack(st1, edge.1))
    } by {
        let edge = r0[t];
        if edge.1 != usize::MAX && !v0[edge.1 as int] {
            lemma_on_stack_drop(st0, edge.1);
        }
    }
    assert forall|x: int|
        0 <= x < arena.len() && #[trigger] v0[x] implies settled(arena, v0, st1, r0, x) by {
        match arena[x] {
            ArenaNode::SplitNode { split_left, split_right } => {
                if !v0[split_left as int] {
                    lemma_on_stack_drop(st0, split_left);
                }
                if !v0[split_right as int] {
                    lemma_on_stack_drop(st0, split_right);
                }
            },
            _ => {},
        }
    }
    assert forall|j: int|
        0 <= j < roots.len() implies v0[(#[trigger] roots[j]) as int] || on_stack(
        st1,
        roots[j],
    ) by {
        if !v0[roots[j] as int] {
            lemma_on_stack_drop(st0, roots[j]);
        }
    }
}

/// Visiting a fresh vertex from the worklist keeps the traversal's state
/// sound: a tree vertex emits its one pair and queues its parent, a split
/// vertex queues both children, a root vertex needs nothing.
proof fn lemma_edges_step(
    arena: Seq<ArenaNode>,
    v0: Seq<bool>,
    st0: Seq<usize>,
    r0: Seq<(usize, usize)>,
    v1: Seq<bool>,
    st1: Seq<usize>,
    r1: Seq<(usize, usize)>,
    cur: usize,
    roots: Seq<usize>,
)
    requires
        st0.len() > 0,
        cur == st0.last(),
        (cur as int) < arena.len(),
        !v0[cur as int],
        arena_ok(arena),
        edges_state_ok(arena, v0, st0, r0),
        forall|j: int| 0 <= j < roots.len() ==> ((#[trigger] roots[j]) as int) < arena.len(),
        forall|j: int|
            0 <= j < roots.len() ==> v0[(#[trigger] roots[j]) as int] || on_stack(st0, roots[j]),
        v1 == v0.update(cur as int, true),
        match arena[cur as int] {
            ArenaNode::TreeNode { parent } => r1 == r0.push((cur, parent)) && (parent
                == usize::MAX ==> st1 == st0.drop_last()) && (parent != usize::MAX ==> st1
                == st0.drop_last().push(parent)),
            ArenaNode::SplitNode { split_left, split_right } => r1 == r0 && st1
                == st0.drop_last().push(split_left).push(split_right),
            ArenaNode::RootNode => r1 == r0 && st1 == st0.drop_last(),
        },
    ensures
        edges_state_ok(arena, v1, st1, r1),
        forall|j: int|
            0 <= j < roots.len() ==> v1[(#[trigger] roots[j]) as int] || on_stack(st1, roots[j]),
{
    let dl = st0.drop_last();
    assert forall|w: usize| on_stack(st0, w) && w != cur implies on_stack(st1, w) by {
        lemma_on_stack_drop(st0, w);
        match arena[cur as int] {
            ArenaNode::TreeNode { parent } => {
                if parent != usize::MAX {
                    lemma_on_stack_push(dl, w, parent);
                }
            },
            ArenaNode::SplitNode { split_left, split_right } => {
                lemma_on_stack_push(dl, w, split_left);
                lemma_on_stack_push(dl.push(split_left), w, split_right);
            },
            ArenaNode::RootNode => {},
        }
    }
    assert forall|t: int| 0 <= t < st1.len() implies ((#[trigger] st1[t]) as int)
        < arena.len() by {
        if t < dl.len() {
            assert(st1[t] == st0[t]);
        }
    }
    assert forall|t: int| 0 <= t < r1.len() implies {
        let edge = #[trigger] r1[t];
        &&& (edge.0 as int) < arena.len()
        &&& arena[edge.0 as int] == (ArenaNode::TreeNode { parent: edge.1 })
        &&& v1[edge.0 as int]
        &&& (edge.1 != usize::MAX ==> v1[edge.1 as int] || on_stack(st1, edge.1))
    } by {
        if t < r0.len() {
            let edge = r0[t];
            assert(r1[t] == edge);
            if edge.1 != usize::MAX && !v0[edge.1 as int] && edge.1 != cur {
                assert(on_stack(st0, edge.1));
            }
        } else {
            let edge = r1[t];
            assert(edge.0 == cur);
            if edge.1 != usize::MAX {
                assert(st1 == dl.push(edge.1));
                assert(st1[dl.len() as int] == edge.1);
            }
        }
    }
    assert forall|t1: int, t2: int|
        0 <= t1 < t2 < r1.len() implies (#[trigger] r1[t1]).0 != (#[trigger] r1[t2]).0 by {
        if t2 < r0.len() {
            assert(r1[t1] == r0[t1] && r1[t2] == r0[t2]);
        } else {
            assert(r1[t1] == r0[t1]);
            assert(v0[r0[t1].0 as int] && !v0[cur as int]);
        }
    }
    assert forall|x: int|
        0 <= x < arena.len() && #[trigger] v1[x] implies settled(arena, v1, st1, r1, x) by {
        if x == cur as int {
            match arena[cur as int] {
                ArenaNode::TreeNode { parent } => {
                    assert((r1[r0.len() as int]).0 == cur);
                    assert(emits_edge(r1, cur));
                },
                ArenaNode::SplitNode { split_left, split_right } => {
                    assert(st1[dl.len() as int] == split_left);
                    assert(st1[dl.len() as int + 1] == split_right);
                    assert(on_stack(st1, split_left) && on_stack(st1, split_right));
                },
                ArenaNode::RootNode => {},
            }
        } else {
            assert(v0[x]);
            assert(settled(arena, v0, st0, r0, x));
            match arena[x] {
                ArenaNode::TreeNode { parent } => {
                    lemma_emits_extend(r0, r1, x as usize);
                },
                ArenaNode::SplitNode { split_left, split_right } => {
                    if !v0[split_left as int] && split_left != cur {
                        assert(on_stack(st0, split_left));
                    }
                    if !v0[split_right as int] && split_right != cur {
                        assert(on_stack(st0, split_right));
                    }
                },
                ArenaNode::RootNode => {},
            }
        }
    }
    assert forall|j: int|
        0 <= j < roots.len() implies v1[(#[trigger] roots[j]) as int] || on_stack(
        st1,
        roots[j],
    ) by {
        if !v0[roots[j] as int] && roots[j] != cur {
            assert(on_stack(st0, roots[j]));
        }
    }
}

/// Retiring both members of a chain that has collapsed to a pair (or to a
/// single self-linked slot) keeps the remaining live slots in disjoint
/// circular chains.
proof fn lemma_retire_pair_preserves_linked(q0: VertexQueue, q1: VertexQueue, a: int, b: int)
    requires
        q0.wf(),
        q0.linked(),
        0 <= a < q0.content@.len(),
        0 <= b < q0.content@.len(),
        q0.live(a) || a == b,
        q0.left_of(a) == b,
        q0.right_of(a) == b,
        q1.content@ == q0.content@.update(b, (Node { done: true, ..q0.content@[b] })).update(
            a,
            (Node {
                done: true,
                ..q0.content@.update(b, (Node { done: true, ..q0.content@[b] }))[a]
            }),
        ),
    ensures
        q1.linked(),
{
    if q0.live(a) {
        assert(q0.live(b) && q0.right_of(b) == a && q0.left_of(b) == a);
    }
    assert forall|i: int| 0 <= i < q1.content@.len() && #[trigger] q1.live(i) implies {
        &&& q1.live(q1.left_of(i))
        &&& q1.live(q1.right_of(i))
        &&& q1.right_of(q1.left_of(i)) == i
        &&& q1.left_of(q1.right_of(i)) == i
    } by {
        assert(i != a && i != b);
        assert(q0.live(i));
        assert(q0.live(q0.left_of(i)) && q0.live(q0.right_of(i)) && q0.right_of(q0.left_of(i)) == i
            && q0.left_of(q0.right_of(i)) == i);
        assert(q0.left_of(i) != a && q0.left_of(i) != b && q0.right_of(i) != a && q0.right_of(i)
            != b);
        let l = q0.left_of(i);
        let r = q0.right_of(i);
        assert(q0.live(q0.left_of(l)) && q0.live(q0.right_of(l)) && q0.right_of(q0.left_of(l)) == l
            && q0.left_of(q0.right_of(l)) == l);
        assert(q0.live(q0.left_of(r)) && q0.live(q0.right_of(r)) && q0.right_of(q0.left_of(r)) == r
            && q0.left_of(q0.right_of(r)) == r);
    }
}

} // verus!
