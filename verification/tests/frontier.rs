use mst_gen::{Edge, Frontier};

fn edge(from: usize, to: usize, weight: u128) -> Edge {
    Edge { from, to, weight }
}

#[test]
fn empty_frontier_gives_nothing() {
    let mut queue = Frontier::new();
    assert!(queue.is_empty());
    assert_eq!(queue.len(), 0);
    assert_eq!(queue.pop(), None);
    assert!(queue.is_empty());
}

#[test]
fn single_entry_comes_back() {
    let mut queue = Frontier::new();
    queue.push(edge(0, 1, 42));
    assert!(!queue.is_empty());
    assert_eq!(queue.len(), 1);
    assert_eq!(queue.pop(), Some(edge(0, 1, 42)));
    assert_eq!(queue.pop(), None);
}

#[test]
fn entries_come_out_lightest_first() {
    let mut queue = Frontier::new();
    let weights: [u128; 9] = [50, 3, 77, 12, 0, 99, 8, 41, 5];
    for (i, w) in weights.iter().enumerate() {
        queue.push(edge(0, i + 1, *w));
    }
    assert_eq!(queue.len(), 9);
    let mut seen = Vec::new();
    while let Some(e) = queue.pop() {
        seen.push(e.weight);
    }
    assert_eq!(seen, vec![0, 3, 5, 8, 12, 41, 50, 77, 99]);
}

#[test]
fn ties_come_out_by_index_pair() {
    let mut queue = Frontier::new();
    queue.push(edge(2, 1, 5));
    queue.push(edge(1, 3, 5));
    queue.push(edge(0, 9, 5));
    queue.push(edge(1, 2, 5));
    queue.push(edge(7, 7, 4));
    assert_eq!(queue.pop(), Some(edge(7, 7, 4)));
    assert_eq!(queue.pop(), Some(edge(0, 9, 5)));
    assert_eq!(queue.pop(), Some(edge(1, 2, 5)));
    assert_eq!(queue.pop(), Some(edge(1, 3, 5)));
    assert_eq!(queue.pop(), Some(edge(2, 1, 5)));
    assert_eq!(queue.pop(), None);
}

#[test]
fn equal_entries_are_all_kept() {
    let mut queue = Frontier::new();
    queue.push(edge(1, 2, 3));
    queue.push(edge(1, 2, 3));
    queue.push(edge(1, 2, 3));
    assert_eq!(queue.len(), 3);
    assert_eq!(queue.pop(), Some(edge(1, 2, 3)));
    assert_eq!(queue.pop(), Some(edge(1, 2, 3)));
    assert_eq!(queue.len(), 1);
    assert_eq!(queue.pop(), Some(edge(1, 2, 3)));
    assert_eq!(queue.pop(), None);
}

#[test]
fn pushes_and_pops_may_alternate() {
    let mut queue = Frontier::new();
    queue.push(edge(0, 1, 10));
    queue.push(edge(0, 2, 20));
    assert_eq!(queue.pop(), Some(edge(0, 1, 10)));
    queue.push(edge(1, 2, 5));
    queue.push(edge(1, 3, 30));
    assert_eq!(queue.pop(), Some(edge(1, 2, 5)));
    assert_eq!(queue.pop(), Some(edge(0, 2, 20)));
    queue.push(edge(2, 3, 1));
    assert_eq!(queue.pop(), Some(edge(2, 3, 1)));
    assert_eq!(queue.pop(), Some(edge(1, 3, 30)));
    assert!(queue.is_empty());
}

#[test]
fn many_entries_come_out_sorted() {
    let mut queue = Frontier::new();
    let mut state: u64 = 12345;
    let mut expected = Vec::new();
    for i in 0..500usize {
        state = state.wrapping_mul(6364136223846793005).wrapping_add(1442695040888963407);
        let w = (state >> 40) as u128 % 64;
        queue.push(edge(i % 7, i, w));
        expected.push((w, i % 7, i));
    }
    expected.sort();
    let mut seen = Vec::new();
    while let Some(e) = queue.pop() {
        seen.push((e.weight, e.from, e.to));
    }
    assert_eq!(seen, expected);
}

#[test]
fn heaviest_weights_are_ordered_too() {
    let mut queue = Frontier::new();
    queue.push(edge(0, 1, u128::MAX));
    queue.push(edge(0, 2, u128::MAX - 1));
    queue.push(edge(usize::MAX, usize::MAX, 0));
    assert_eq!(queue.pop(), Some(edge(usize::MAX, usize::MAX, 0)));
    assert_eq!(queue.pop(), Some(edge(0, 2, u128::MAX - 1)));
    assert_eq!(queue.pop(), Some(edge(0, 1, u128::MAX)));
}
