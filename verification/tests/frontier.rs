use graph_algos::frontier::{Entry, PriorityQueue};

fn drain(queue: &mut PriorityQueue) -> Vec<(i64, usize)> {
    let mut out = Vec::new();
    while let Some(Entry { priority, vertex }) = queue.pop() {
        out.push((priority, vertex));
    }
    out
}

#[test]
fn queue_hands_out_the_least_priority_first() {
    let mut queue = PriorityQueue::new();
    for (priority, vertex) in [(5, 0), (-1, 1), (3, 2), (9, 3), (0, 4), (3, 5)] {
        queue.push(priority, vertex);
    }
    assert_eq!(6, queue.len());
    assert_eq!(
        vec![(-1, 1), (0, 4), (3, 5), (3, 2), (5, 0), (9, 3)],
        drain(&mut queue)
    );
    assert!(queue.is_empty());
}

#[test]
fn queue_hands_out_the_greater_vertex_first_among_equal_priorities() {
    let mut queue = PriorityQueue::new();
    for vertex in [2, 7, 0, 5, 7] {
        queue.push(4, vertex);
    }
    assert_eq!(
        vec![(4, 7), (4, 7), (4, 5), (4, 2), (4, 0)],
        drain(&mut queue)
    );
}

#[test]
fn empty_queue_hands_out_nothing() {
    let mut queue = PriorityQueue::new();
    assert!(queue.is_empty());
    assert_eq!(None, queue.pop());
    queue.push(1, 1);
    assert_eq!(Some(Entry { priority: 1, vertex: 1 }), queue.pop());
    assert_eq!(None, queue.pop());
}

#[test]
fn queue_sorts_many_entries() {
    let mut queue = PriorityQueue::new();
    let mut expected = Vec::new();
    let mut x: i64 = 12345;
    for vertex in 0..500usize {
        x = (x * 1103515245 + 12345) % 2147483648;
        let priority = x % 50;
        queue.push(priority, vertex);
        expected.push((priority, vertex));
    }
    expected.sort_by(|a, b| a.0.cmp(&b.0).then(b.1.cmp(&a.1)));
    assert_eq!(expected, drain(&mut queue));
}

#[test]
fn queue_takes_entries_between_pops() {
    let mut queue = PriorityQueue::new();
    queue.push(3, 0);
    queue.push(1, 1);
    assert_eq!(Some(Entry { priority: 1, vertex: 1 }), queue.pop());
    queue.push(2, 2);
    queue.push(0, 3);
    assert_eq!(Some(Entry { priority: 0, vertex: 3 }), queue.pop());
    assert_eq!(Some(Entry { priority: 2, vertex: 2 }), queue.pop());
    assert_eq!(Some(Entry { priority: 3, vertex: 0 }), queue.pop());
}
