use std::hash::Hash;

use station_graph::distance::GraphDistance;
use station_graph::priority_queue::PriorityQueue;

fn to_vec<T: Copy + Eq + Hash, P: GraphDistance, X: Copy>(pq: &PriorityQueue<T, P, X>) -> Vec<T> {
    let mut result = Vec::new();
    let mut pq = pq.clone();

    while let Some((data, _, _)) = pq.pop_by_priority() {
        result.push(data);
    }

    result
}

#[test]
fn without_extra() {
    let mut pq = PriorityQueue::<i32, usize, ()>::new();
    assert_eq!(to_vec(&pq), vec![]);

    pq.push(42, 42, ());
    assert_eq!(to_vec(&pq), vec![42]);

    pq.push(1, 1, ());
    assert_eq!(to_vec(&pq), vec![1, 42]);

    pq.push(2, 2, ());
    assert_eq!(to_vec(&pq), vec![1, 2, 42]);

    pq.push(100, 100, ());
    assert_eq!(to_vec(&pq), vec![1, 2, 42, 100]);

    pq.push(42, 0, ());
    assert_eq!(to_vec(&pq), vec![42, 1, 2, 100]);

    _ = pq.pop_by_priority();
    assert_eq!(to_vec(&pq), vec![1, 2, 100]);

    pq.push(42, 42, ());
    assert_eq!(to_vec(&pq), vec![1, 2, 42, 100]);
}

#[test]
fn decrease_key_pops_first() {
    let mut pq = PriorityQueue::<u32, u64, ()>::new();
    pq.push(7, 10, ());
    pq.push(1, 1, ());
    pq.push(5, 5, ());
    pq.push(7, 100, ());
    pq.push(7, 0, ());
    assert_eq!(pq.len(), 3);
    assert_eq!(pq.pop_by_priority(), Some((7, 0, ())));
    assert_eq!(pq.pop_by_priority(), Some((1, 1, ())));
    assert_eq!(pq.pop_by_priority(), Some((5, 5, ())));
    assert_eq!(pq.pop_by_priority(), None);
}

#[test]
fn lower_priority_changes_peek() {
    let mut pq = PriorityQueue::<u32, u32, char>::new();
    assert_eq!(pq.peek_by_key(&3), None);
    pq.push(3, 50, 'a');
    assert_eq!(pq.peek_by_key(&3), Some(50));
    pq.push(3, 20, 'b');
    assert_eq!(pq.peek_by_key(&3), Some(20));
    assert_eq!(pq.peek_by_key(&4), None);
    assert_eq!(pq.pop_by_priority(), Some((3, 20, 'b')));
    assert_eq!(pq.peek_by_key(&3), None);
}

#[test]
fn raising_a_priority_moves_the_entry_down() {
    let mut pq = PriorityQueue::<u8, u16, u8>::new();
    for k in 0..10u8 {
        pq.push(k, k as u16, k);
    }
    pq.push(0, 500, 99);
    let mut popped = Vec::new();
    while let Some((k, p, x)) = pq.pop_by_priority() {
        popped.push((k, p, x));
    }
    assert_eq!(popped.len(), 10);
    assert_eq!(popped[0], (1, 1, 1));
    assert_eq!(popped[9], (0, 500, 99));
    for w in popped.windows(2) {
        assert!(w[0].1 <= w[1].1);
    }
}

#[test]
fn pops_in_priority_order() {
    let mut pq = PriorityQueue::<usize, u64, usize>::new();
    let priorities: Vec<u64> = vec![9, 3, 7, 3, 0, 12, 5, 8, 1, 1, 6];
    for (k, p) in priorities.iter().enumerate() {
        pq.push(k, *p, k * 10);
    }
    let mut last = 0u64;
    let mut count = 0;
    while let Some((k, p, x)) = pq.pop_by_priority() {
        assert!(p >= last);
        assert_eq!(p, priorities[k]);
        assert_eq!(x, k * 10);
        last = p;
        count += 1;
    }
    assert_eq!(count, priorities.len());
}
