use shard_assignment::min_heap::MinHeap;

#[test]
fn test_push_pop() {
    // Elements pushed into the heap should be popped back in increasing order.
    let mut heap = MinHeap::new();

    heap.push(7);
    heap.push(11);
    heap.push(4);
    heap.push(1);

    assert_eq!(heap.pop(), Some(1));
    assert_eq!(heap.pop(), Some(4));
    assert_eq!(heap.pop(), Some(7));
    assert_eq!(heap.pop(), Some(11));
    assert_eq!(heap.pop(), None);
}

#[test]
fn test_push_pop_push() {
    // Elements pushed into the heap should be popped back in increasing order.
    let mut heap = MinHeap::new();

    heap.push(8);
    heap.push(16);
    heap.push(2);
    heap.push(1);

    assert_eq!(heap.pop(), Some(1));
    assert_eq!(heap.pop(), Some(2));

    heap.push(4);
    heap.push(32);

    assert_eq!(heap.pop(), Some(4));
    assert_eq!(heap.pop(), Some(8));
    assert_eq!(heap.pop(), Some(16));
    assert_eq!(heap.pop(), Some(32));
    assert_eq!(heap.pop(), None);
}

#[test]
fn test_collect_pop() {
    // Elements collected into a heap should be popped back in increasing order.
    let mut heap: MinHeap<usize> = MinHeap::from_vec([9, 3, 100, 10, 5].iter().copied().collect());

    assert_eq!(heap.pop(), Some(3));
    assert_eq!(heap.pop(), Some(5));
    assert_eq!(heap.pop(), Some(9));
    assert_eq!(heap.pop(), Some(10));
    assert_eq!(heap.pop(), Some(100));
    assert_eq!(heap.pop(), None);
}

#[test]
fn test_peek() {
    // Peek should reveal the smallest element, but not remove it
    let mut heap = MinHeap::new();

    heap.push(37);
    heap.push(17);
    heap.push(101);

    assert_eq!(Some(&17), heap.peek());
    assert_eq!(Some(17), heap.pop());

    assert_eq!(Some(&37), heap.peek());
    assert_eq!(Some(37), heap.pop());

    assert_eq!(Some(&101), heap.peek());
    assert_eq!(Some(101), heap.pop());

    assert_eq!(None, heap.pop());
}

#[test]
fn empty_heap_peeks_and_pops_nothing() {
    let mut heap: MinHeap<u64> = MinHeap::new();
    assert_eq!(heap.len(), 0);
    assert_eq!(heap.peek(), None);
    assert_eq!(heap.pop(), None);
}

#[test]
fn equal_keys_are_all_kept() {
    let mut heap = MinHeap::new();
    heap.push(5);
    heap.push(5);
    heap.push(3);
    heap.push(5);
    assert_eq!(heap.len(), 4);
    assert_eq!(heap.into_sorted_vec(), vec![3, 5, 5, 5]);
}

#[test]
fn bulk_build_pops_like_sequential_pushes() {
    let keys = vec![(2usize, 7u128, 1usize), (0, 9, 3), (2, 7, 0), (1, 0, 2), (0, 9, 1)];
    let bulk = MinHeap::from_vec(keys.clone());
    let mut pushed = MinHeap::new();
    for k in keys {
        pushed.push(k);
    }
    let expected = vec![(0, 9, 1), (0, 9, 3), (1, 0, 2), (2, 7, 0), (2, 7, 1)];
    assert_eq!(bulk.into_sorted_vec(), expected);
    assert_eq!(pushed.into_sorted_vec(), expected);
}

#[test]
fn into_vec_returns_every_item() {
    let mut heap = MinHeap::new();
    heap.push(3i64);
    heap.push(-1);
    heap.push(2);
    let mut items = heap.into_vec();
    items.sort();
    assert_eq!(items, vec![-1, 2, 3]);
}
