use containers::heap::Heap;

#[test]
fn heap_test_new() {
    let heap: Heap<i32> = Heap::new();
    assert!(heap.is_empty());
}

#[test]
fn test_len() {
    let mut heap = Heap::new();
    heap.push(3);
    heap.push(1);
    heap.push(2);
    assert_eq!(heap.len(), 3);
}

#[test]
fn heap_test_pop() {
    let mut heap = Heap::new();
    heap.push(3);
    heap.push(1);
    heap.push(5);
    heap.push(7);
    heap.push(4);
    heap.push(3);
    heap.push(1);
    heap.push(9);
    assert_eq!(heap.pop(), Some(1));
    assert_eq!(heap.pop(), Some(1));
    assert_eq!(heap.pop(), Some(3));
    assert_eq!(heap.pop(), Some(3));
    assert_eq!(heap.pop(), Some(4));
    assert_eq!(heap.pop(), Some(5));
    assert_eq!(heap.pop(), Some(7));
    assert_eq!(heap.pop(), Some(9));
    assert_eq!(heap.pop(), None);
}

#[test]
fn heap_empty_pop_leaves_empty() {
    let mut heap: Heap<i32> = Heap::new();
    assert_eq!(heap.pop(), None);
    assert_eq!(heap.len(), 0);
    assert!(heap.is_empty());
}

#[test]
fn heap_singleton_pop() {
    let mut heap: Heap<i32> = Heap::new();
    heap.push(42);
    assert_eq!(heap.pop(), Some(42));
    assert!(heap.is_empty());
    assert_eq!(heap.pop(), None);
}

#[test]
fn heap_sorted_extraction() {
    let mut heap: Heap<i32> = Heap::new();
    let values = vec![5, -3, 8, 1, 9, 2, 7, 2, 0, -3];
    for v in values {
        heap.push(v);
    }
    let mut popped: Vec<i32> = Vec::new();
    while let Some(v) = heap.pop() {
        popped.push(v);
    }
    assert_eq!(popped, vec![-3, -3, 0, 1, 2, 2, 5, 7, 8, 9]);
    for w in popped.windows(2) {
        assert!(w[0] <= w[1]);
    }
}

#[test]
fn heap_size_accounting() {
    let mut heap: Heap<i32> = Heap::new();
    let k: usize = 10;
    let j: usize = 4;
    for v in 0..k {
        heap.push(v as i32);
        assert_eq!(heap.len(), v + 1);
    }
    for p in 0..j {
        heap.pop();
        assert_eq!(heap.len(), k - p - 1);
    }
    assert_eq!(heap.len(), k - j);
}

#[test]
fn heap_len_is_empty_idempotent() {
    let mut heap: Heap<i32> = Heap::new();
    assert_eq!(heap.is_empty(), heap.is_empty());
    assert_eq!(heap.len(), heap.len());
    heap.push(7);
    heap.push(7);
    assert_eq!(heap.len(), 2);
    assert_eq!(heap.len(), 2);
    assert!(!heap.is_empty());
    assert!(!heap.is_empty());
}

#[test]
fn heap_unsigned_elements() {
    let mut heap: Heap<u64> = Heap::new();
    heap.push(300_u64);
    heap.push(100_u64);
    heap.push(200_u64);
    assert_eq!(heap.pop(), Some(100));
    assert_eq!(heap.pop(), Some(200));
    assert_eq!(heap.pop(), Some(300));
    assert_eq!(heap.pop(), None);
}
