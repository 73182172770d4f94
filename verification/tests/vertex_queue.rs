use polygon_offset::vertex_queue::IndexType;
use polygon_offset::vertex_queue::Node;
use polygon_offset::vertex_queue::VertexQueue;

fn ring(sizes: &[usize]) -> VertexQueue {
    let mut q = VertexQueue::new();
    q.initialize_from_ring_sizes(&sizes.to_vec());
    q
}

#[test]
fn index_type_accessors() {
    assert_eq!(IndexType::PointerIndex(3).get_index(), 3);
    assert_eq!(IndexType::RealIndex(7).get_real_index(), 7);
}

#[test]
fn node_constructor_and_neighbours() {
    let n = Node::new(2, 1, 3);
    assert_eq!(n.index, IndexType::RealIndex(2));
    assert_eq!(n.lv(), IndexType::PointerIndex(1));
    assert_eq!(n.rv(), IndexType::PointerIndex(3));
    assert!(!n.done);
}

#[test]
fn square_ring_layout() {
    let q = ring(&[4]);
    assert_eq!(q.content.len(), 4);
    assert_eq!(q.start_vertex, vec![0]);
    for i in 0..4usize {
        let cv = IndexType::PointerIndex(i);
        assert_eq!(q.get_real_index(cv), i);
        assert_eq!(q.lv(cv), IndexType::PointerIndex((i + 3) % 4));
        assert_eq!(q.rv(cv), IndexType::PointerIndex((i + 1) % 4));
        assert_eq!(q.llv(cv), IndexType::PointerIndex((i + 2) % 4));
        assert_eq!(q.rrv(cv), IndexType::PointerIndex((i + 2) % 4));
    }
}

#[test]
fn two_rings_get_separate_chains() {
    let q = ring(&[3, 4]);
    assert_eq!(q.content.len(), 7);
    assert_eq!(q.start_vertex, vec![0, 3]);
    assert_eq!(q.rv(IndexType::PointerIndex(2)), IndexType::PointerIndex(0));
    assert_eq!(q.rv(IndexType::PointerIndex(6)), IndexType::PointerIndex(3));
    assert_eq!(q.lv(IndexType::PointerIndex(3)), IndexType::PointerIndex(6));
}

#[test]
fn remove_splices_the_neighbours() {
    let mut q = ring(&[4]);
    let r = q.remove(IndexType::PointerIndex(1));
    assert_eq!(r, IndexType::PointerIndex(2));
    assert!(q.content[1].done);
    assert_eq!(q.rv(IndexType::PointerIndex(0)), IndexType::PointerIndex(2));
    assert_eq!(q.lv(IndexType::PointerIndex(2)), IndexType::PointerIndex(0));
}

#[test]
fn remove_and_set_repoints_the_merged_slot() {
    let mut q = ring(&[4]);
    let r = q.remove_and_set(IndexType::PointerIndex(1), IndexType::RealIndex(9));
    assert_eq!(r, IndexType::PointerIndex(2));
    assert_eq!(q.get_real_index(IndexType::PointerIndex(2)), 9);
    assert!(q.content[1].done);
}

#[test]
fn split_makes_two_chains() {
    let mut q = ring(&[6]);
    let (head1, head2) = q.split_and_set(
        IndexType::PointerIndex(0),
        IndexType::PointerIndex(3),
        IndexType::RealIndex(10),
        IndexType::RealIndex(11),
    );
    assert_eq!(head1, IndexType::PointerIndex(0));
    assert_eq!(head2, IndexType::PointerIndex(6));
    assert_eq!(q.content.len(), 7);
    assert_eq!(q.start_vertex, vec![0, 0, 6]);
    assert_eq!(q.get_real_index(IndexType::PointerIndex(0)), 10);
    assert_eq!(q.get_real_index(IndexType::PointerIndex(6)), 11);
    // first chain: 0 -> 4 -> 5 -> 0
    assert_eq!(q.rv(IndexType::PointerIndex(0)), IndexType::PointerIndex(4));
    assert_eq!(q.rv(IndexType::PointerIndex(4)), IndexType::PointerIndex(5));
    assert_eq!(q.rv(IndexType::PointerIndex(5)), IndexType::PointerIndex(0));
    // second chain: 6 -> 1 -> 2 -> 3 -> 6
    assert_eq!(q.rv(IndexType::PointerIndex(6)), IndexType::PointerIndex(1));
    assert_eq!(q.rv(IndexType::PointerIndex(3)), IndexType::PointerIndex(6));
    assert_eq!(q.lv(IndexType::PointerIndex(6)), IndexType::PointerIndex(3));
    assert_eq!(q.lv(IndexType::PointerIndex(1)), IndexType::PointerIndex(6));
}

#[test]
fn cleanup_advances_and_drops_starts() {
    let mut q = ring(&[6]);
    q.split_and_set(
        IndexType::PointerIndex(0),
        IndexType::PointerIndex(3),
        IndexType::RealIndex(10),
        IndexType::RealIndex(11),
    );
    let ok = q.cleanup();
    assert!(ok);
    assert_eq!(q.start_vertex, vec![0, 6]);
    for &sv in &q.start_vertex {
        assert!(!q.content[sv].done);
    }
}

#[test]
fn cleanup_drops_a_fully_retired_chain() {
    let mut q = ring(&[3]);
    q.remove(IndexType::PointerIndex(0));
    // chain is down to two slots; a start that reaches a two-slot chain
    // (left neighbour equals right neighbour) is dropped
    let ok = q.cleanup();
    assert!(ok);
    assert_eq!(q.start_vertex, Vec::<usize>::new());
}

#[test]
fn single_vertex_ring_is_a_self_loop() {
    let q = ring(&[1]);
    assert_eq!(q.content.len(), 1);
    assert_eq!(q.lv(IndexType::PointerIndex(0)), IndexType::PointerIndex(0));
    assert_eq!(q.rv(IndexType::PointerIndex(0)), IndexType::PointerIndex(0));
    assert_eq!(q.start_vertex, vec![0]);
}

#[test]
fn cleanup_reports_a_corrupted_chain() {
    // a walk that never returns to its start: 0 -> 1 -> 2 -> 1 -> ...
    let q = VertexQueue {
        content: vec![Node::new(0, 2, 1), Node::new(1, 0, 2), Node::new(2, 1, 1)],
        start_vertex: vec![0],
    };
    let mut q = q;
    assert!(!q.cleanup());
}

#[test]
fn iter_lists_chains_in_order() {
    let mut q = ring(&[6]);
    q.split_and_set(
        IndexType::PointerIndex(0),
        IndexType::PointerIndex(3),
        IndexType::RealIndex(10),
        IndexType::RealIndex(11),
    );
    assert!(q.cleanup());
    let entries = q.iter();
    let expect = vec![
        (0usize, IndexType::PointerIndex(0), 10usize),
        (0, IndexType::PointerIndex(4), 4),
        (0, IndexType::PointerIndex(5), 5),
        (1, IndexType::PointerIndex(6), 11),
        (1, IndexType::PointerIndex(1), 1),
        (1, IndexType::PointerIndex(2), 2),
        (1, IndexType::PointerIndex(3), 3),
    ];
    assert_eq!(entries, expect);
}
