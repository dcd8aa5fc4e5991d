use rastd::heap::Heap;

#[test]
fn push_and_pop() {
    let mut heap = Heap::new();
    heap.push(3);
    heap.push(2);
    heap.push(1);
    assert_eq!(heap.pop(), Some(1));
    assert_eq!(heap.pop(), Some(2));
    assert_eq!(heap.pop(), Some(3));
    assert_eq!(heap.pop(), None);
}

#[test]
fn pop_empty() {
    let mut heap: Heap<i32> = Heap::new();
    assert_eq!(heap.pop(), None);
}

#[test]
fn pop_single() {
    let mut heap: Heap<i32> = Heap::new();
    heap.push(1);
    assert_eq!(heap.pop(), Some(1));
}

#[test]
fn size() {
    let mut heap = Heap::new();
    assert_eq!(heap.size(), 0);
    heap.push(3);
    heap.push(2);
    assert_eq!(heap.size(), 2);
    heap.pop();
    assert_eq!(heap.size(), 1);
}

#[test]
fn sift_up_idempotence() {
    let mut heap = Heap::new();
    heap.push(3);
    heap.push(2);
    let mut h2 = heap.clone();
    h2.sift_up();
    assert_eq!(heap, h2);
}

#[test]
fn sift_down_idempotence() {
    let mut heap = Heap::new();
    heap.push(3);
    heap.push(2);
    heap.pop();
    let mut h2 = heap.clone();
    h2.sift_down();
    assert_eq!(heap, h2);
}

#[test]
fn pops_come_out_in_ascending_order() {
    let mut heap = Heap::new();
    for a in [1, 2, 3, 4, 5] {
        heap.push(a);
    }
    assert_eq!(heap.pop(), Some(1));
    assert_eq!(heap.pop(), Some(2));
    assert_eq!(heap.pop(), Some(3));
    assert_eq!(heap.pop(), Some(4));
    assert_eq!(heap.pop(), Some(5));
    assert_eq!(heap.pop(), None);
}

#[test]
fn heap_sorts_with_repeated_values() {
    let input = [9, 4, 7, 4, 1, 8, 1, 0, 12, 5, 5, 3, 11, 2, 6, 10];
    let mut heap = Heap::new();
    for a in input {
        heap.push(a);
    }
    assert_eq!(heap.size(), input.len());
    let mut sorted = input.to_vec();
    sorted.sort();
    let mut popped = vec![];
    while let Some(a) = heap.pop() {
        popped.push(a);
    }
    assert_eq!(popped, sorted);
    assert_eq!(heap.size(), 0);
}

#[test]
fn pushes_and_pops_in_turn() {
    let mut heap = Heap::new();
    heap.push(5);
    heap.push(1);
    assert_eq!(heap.pop(), Some(1));
    heap.push(3);
    heap.push(0);
    assert_eq!(heap.pop(), Some(0));
    assert_eq!(heap.pop(), Some(3));
    heap.push(9);
    assert_eq!(heap.pop(), Some(5));
    assert_eq!(heap.pop(), Some(9));
    assert_eq!(heap.pop(), None);
}

#[test]
fn empty_heaps_are_equal() {
    let heap: Heap<i32> = Heap::new();
    assert_eq!(heap, Heap::default());
    let mut sifted = heap.clone();
    sifted.sift_up();
    sifted.sift_down();
    assert_eq!(heap, sifted);
}

#[test]
fn values_rise_and_sink_one_level_at_a_time() {
    let mut heap = Heap::new();
    for a in [5, 9, 7, 10] {
        heap.push(a);
    }
    let mut same = Heap::new();
    for a in [5, 9, 7, 10] {
        same.push(a);
    }
    assert_eq!(heap, same);
    heap.push(1);
    // 1 rises past 9 and past 5; 10 stays below 9.
    assert_eq!(format!("{:?}", heap), "Heap { inner: [1, 5, 7, 10, 9] }");
    assert_eq!(heap.pop(), Some(1));
    // 9 takes the first place and sinks below 5, the lesser of 5 and 7.
    assert_eq!(format!("{:?}", heap), "Heap { inner: [5, 9, 7, 10] }");
}
