use polygon_offset::skeleton::apply_event;
use polygon_offset::skeleton::skeleton_edges;
use polygon_offset::skeleton::ArenaNode;
use polygon_offset::skeleton::Event;
use polygon_offset::vertex_queue::IndexType;
use polygon_offset::vertex_queue::VertexQueue;

fn ring(sizes: &[usize]) -> VertexQueue {
    let mut q = VertexQueue::new();
    q.initialize_from_ring_sizes(&sizes.to_vec());
    q
}

#[test]
fn merge_event_retires_one_slot() {
    let mut q = ring(&[4]);
    let ev = Event::VertexEvent { merge_from: 1, merge_to: 4 };
    let r = apply_event(&mut q, &ev);
    assert_eq!(r, (Some(IndexType::PointerIndex(2)), None));
    assert!(q.content[1].done);
    assert_eq!(q.get_real_index(IndexType::PointerIndex(2)), 4);
    assert_eq!(q.rv(IndexType::PointerIndex(0)), IndexType::PointerIndex(2));
    assert_eq!(q.lv(IndexType::PointerIndex(2)), IndexType::PointerIndex(0));
}

#[test]
fn merge_event_on_a_triangle_collapses_the_chain() {
    let mut q = ring(&[3]);
    let ev = Event::VertexEvent { merge_from: 0, merge_to: 3 };
    let r = apply_event(&mut q, &ev);
    // the chain is down to a pair: both remaining slots retire, and the
    // event reports the arena vertex the collapse point came from
    assert_eq!(r, (Some(IndexType::RealIndex(2)), None));
    assert!(q.content[0].done);
    assert!(q.content[1].done);
    assert!(q.content[2].done);
    assert!(q.cleanup());
    assert_eq!(q.start_vertex, Vec::<usize>::new());
}

#[test]
fn split_event_splices_two_chains() {
    let mut q = ring(&[6]);
    let ev = Event::EdgeEvent {
        split_from: 0,
        split_into: 3,
        split_to_left: 10,
        split_to_right: 11,
    };
    let r = apply_event(&mut q, &ev);
    assert_eq!(
        r,
        (
            Some(IndexType::PointerIndex(0)),
            Some(IndexType::PointerIndex(6))
        )
    );
    assert!(q.cleanup());
    assert_eq!(q.start_vertex, vec![0, 6]);
    let entries = q.iter();
    assert_eq!(entries.len(), 7);
    assert_eq!(entries[0], (0, IndexType::PointerIndex(0), 10));
    assert_eq!(entries[3], (1, IndexType::PointerIndex(6), 11));
}

#[test]
fn replaying_a_log_reproduces_the_wavefront() {
    // a square shrinks: two merges leave a pair, whose merge ends the chain
    let initial = ring(&[4]);
    let log = vec![
        Event::VertexEvent { merge_from: 0, merge_to: 4 },
        Event::VertexEvent { merge_from: 2, merge_to: 5 },
    ];
    // replay a prefix of length 0: the initial wavefront
    let replayed = initial.clone();
    assert_eq!(replayed.iter(), initial.iter());
    // replay a prefix of length 1: the square has lost one corner
    let mut replayed = initial.clone();
    apply_event(&mut replayed, &log[0]);
    assert!(replayed.cleanup());
    let entries = replayed.iter();
    assert_eq!(entries.len(), 3);
    assert_eq!(entries[0], (0, IndexType::PointerIndex(1), 4));
    assert_eq!(entries[1], (0, IndexType::PointerIndex(2), 2));
    assert_eq!(entries[2], (0, IndexType::PointerIndex(3), 3));
    // replay the full log: the second merge leaves a pair, the chain
    // collapses to a point and the wavefront is gone
    let mut replayed = initial.clone();
    for ev in &log {
        apply_event(&mut replayed, ev);
        assert!(replayed.cleanup());
    }
    assert_eq!(replayed.iter(), Vec::new());
}

#[test]
fn skeleton_edges_follows_parents_and_splits() {
    let arena = vec![
        ArenaNode::TreeNode { parent: 3 },
        ArenaNode::TreeNode { parent: usize::MAX },
        ArenaNode::SplitNode { split_left: 0, split_right: 1 },
        ArenaNode::RootNode,
    ];
    let edges = skeleton_edges(&arena, &vec![2]);
    assert_eq!(edges, vec![(1, usize::MAX), (0, 3)]);
}
