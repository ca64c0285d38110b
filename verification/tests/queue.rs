use graph_metrics::queue::MinQueue;

#[test]
fn empty_queue_pops_nothing() {
    let mut queue = MinQueue::new();
    assert_eq!(queue.len(), 0);
    assert_eq!(queue.pop(), None);
    assert_eq!(queue.len(), 0);
}

#[test]
fn entries_leave_by_distance_then_node() {
    let mut queue = MinQueue::new();
    for entry in [(2, 1), (1, 9), (1, 3), (0, 5), (2, 0), (1, 4)] {
        queue.push(entry);
    }
    assert_eq!(queue.len(), 6);
    let mut seen = Vec::new();
    while let Some(entry) = queue.pop() {
        seen.push(entry);
    }
    assert_eq!(seen, vec![(0, 5), (1, 3), (1, 4), (1, 9), (2, 0), (2, 1)]);
    assert_eq!(queue.len(), 0);
}

#[test]
fn equal_entries_are_kept_apart() {
    let mut queue = MinQueue::new();
    queue.push((1, 1));
    queue.push((1, 1));
    queue.push((0, 2));
    assert_eq!(queue.len(), 3);
    assert_eq!(queue.pop(), Some((0, 2)));
    assert_eq!(queue.pop(), Some((1, 1)));
    assert_eq!(queue.len(), 1);
    assert_eq!(queue.pop(), Some((1, 1)));
    assert_eq!(queue.pop(), None);
}

#[test]
fn pushes_and_pops_may_alternate() {
    let mut queue = MinQueue::new();
    queue.push((5, 0));
    queue.push((3, 0));
    assert_eq!(queue.pop(), Some((3, 0)));
    queue.push((4, 0));
    queue.push((1, 7));
    assert_eq!(queue.pop(), Some((1, 7)));
    assert_eq!(queue.pop(), Some((4, 0)));
    assert_eq!(queue.pop(), Some((5, 0)));
    assert_eq!(queue.pop(), None);
}

#[test]
fn many_entries_leave_sorted() {
    let mut queue = MinQueue::new();
    let mut entries = Vec::new();
    let mut state: usize = 5;
    for _ in 0..500 {
        state = (state * 1103515245 + 12345) % 2147483648;
        let entry = ((state / 65536) % 17, (state / 1024) % 23);
        entries.push(entry);
        queue.push(entry);
    }
    entries.sort();
    let mut seen = Vec::new();
    while let Some(entry) = queue.pop() {
        seen.push(entry);
    }
    assert_eq!(seen, entries);
}
