use polygon_offset::priority_queue::PriorityQueue;

#[test]
fn new_queue_is_empty() {
    let q: PriorityQueue<u64> = PriorityQueue::new();
    assert!(q.is_empty());
}

#[test]
fn pop_on_empty_returns_none() {
    let mut q: PriorityQueue<u64> = PriorityQueue::new();
    assert_eq!(q.pop(), None);
    assert!(q.peek().is_none());
}

#[test]
fn pops_come_out_sorted() {
    let mut q: PriorityQueue<u64> = PriorityQueue::new();
    for x in [5u64, 3, 8, 1, 9, 2, 7, 4, 6, 0] {
        q.insert(x);
    }
    let mut out = Vec::new();
    while let Some(x) = q.pop() {
        out.push(x);
    }
    assert_eq!(out, vec![0, 1, 2, 3, 4, 5, 6, 7, 8, 9]);
    assert!(q.is_empty());
}

#[test]
fn peek_shows_minimum_without_removing() {
    let mut q: PriorityQueue<u64> = PriorityQueue::new();
    q.insert(4);
    q.insert(2);
    q.insert(7);
    assert_eq!(q.peek(), Some(&2));
    assert_eq!(q.pop(), Some(2));
    assert_eq!(q.peek(), Some(&4));
}

#[test]
fn duplicates_are_kept() {
    let mut q: PriorityQueue<u64> = PriorityQueue::new();
    q.insert(3);
    q.insert(3);
    q.insert(1);
    assert_eq!(q.pop(), Some(1));
    assert_eq!(q.pop(), Some(3));
    assert_eq!(q.pop(), Some(3));
    assert_eq!(q.pop(), None);
}

#[test]
fn initialize_clears_the_queue() {
    let mut q: PriorityQueue<u64> = PriorityQueue::new();
    q.insert(11);
    q.insert(22);
    q.initialize();
    assert!(q.is_empty());
    assert_eq!(q.pop(), None);
}

/// An event-like item: time first, ties broken by a secondary key, as the
/// skeleton's candidate ordering does.
#[derive(PartialEq, Debug, Clone, Copy)]
struct Candidate {
    time: f64,
    tie: u64,
}

impl PartialOrd for Candidate {
    fn partial_cmp(&self, other: &Self) -> Option<std::cmp::Ordering> {
        if (self.time - other.time).abs() >= 1e-9 {
            return self.time.partial_cmp(&other.time);
        }
        self.tie.partial_cmp(&other.tie)
    }
}

#[test]
fn equal_times_fall_back_to_the_tie_break() {
    let a = Candidate { time: 1.0, tie: 2 };
    let b = Candidate { time: 1.0 + 1e-12, tie: 1 };
    let c = Candidate { time: 0.5, tie: 9 };
    let mut q: PriorityQueue<Candidate> = PriorityQueue::new();
    q.insert(a);
    q.insert(b);
    q.insert(c);
    assert_eq!(q.pop(), Some(c));
    assert_eq!(q.pop(), Some(b));
    assert_eq!(q.pop(), Some(a));
}

#[test]
fn insertion_order_does_not_change_what_comes_out() {
    let items = [
        Candidate { time: 2.0, tie: 1 },
        Candidate { time: 1.0, tie: 3 },
        Candidate { time: 1.0, tie: 2 },
        Candidate { time: 3.0, tie: 0 },
    ];
    let mut q1: PriorityQueue<Candidate> = PriorityQueue::new();
    for it in items {
        q1.insert(it);
    }
    let mut q2: PriorityQueue<Candidate> = PriorityQueue::new();
    for it in items.iter().rev() {
        q2.insert(*it);
    }
    loop {
        let x1 = q1.pop();
        let x2 = q2.pop();
        assert_eq!(x1, x2);
        if x1.is_none() {
            break;
        }
    }
}
