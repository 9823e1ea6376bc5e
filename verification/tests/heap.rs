use rand::Rng;
use rustman::heap::{BinaryHeap, ChildSide};
use rustman::order::HeapType;

#[test]
fn test_new() {
    BinaryHeap::<String>::new(HeapType::Max);
}

#[test]
fn test_default() {
    BinaryHeap::<String>::default();
}

#[test]
fn test_pop() {
    let mut b = BinaryHeap::<i32>::default();

    assert!(b.pop().is_none());

    b.insert(2);
    assert_eq!(b.pop(), Some(2));
}

#[test]
fn test_size() {
    let mut b = BinaryHeap::<i32>::default();

    assert!(b.pop().is_none());

    b.insert(2);
    assert_eq!(b.size(), 1);
}

#[test]
fn test_heaps() {
    let mut v = Vec::new();
    let mut rng = rand::thread_rng();

    for _ in 0..100000 {
        v.push(rng.gen::<u8>());
    }
    let mut heap: BinaryHeap<u8> = BinaryHeap::default();

    // test - insert and pop
    for i in v.iter() {
        heap.insert(*i);
    }

    let mut res = Vec::new();
    for _ in 0..v.len() {
        res.push(heap.pop().unwrap());
    }

    // expected
    let mut sorted_v = v.clone();
    sorted_v.sort();

    // asserts
    assert_eq!(sorted_v, res);
}

#[test]
fn test_index() {
    let heap = BinaryHeap::<u8>::default();
    assert!(heap.parent_index(0).is_none());
    assert_eq!(heap.parent_index(1).unwrap(), 0);
    assert_eq!(heap.parent_index(2).unwrap(), 0);
    assert_eq!(heap.parent_index(3).unwrap(), 1);
    assert_eq!(heap.parent_index(6).unwrap(), 2);
    assert_eq!(heap.parent_index(8).unwrap(), 3);
}

#[test]
fn test_child() {
    let heap = BinaryHeap::<u8>::default();
    assert_eq!(heap.child_index(0, ChildSide::Left), 1);
    assert_eq!(heap.child_index(0, ChildSide::Right), 2);
    assert_eq!(heap.child_index(3, ChildSide::Left), 7);
    assert_eq!(heap.child_index(3, ChildSide::Right), 8);
    assert_eq!(heap.child_index(4, ChildSide::Left), 9);
    assert_eq!(heap.child_index(4, ChildSide::Right), 10);
}

#[test]
fn new_queue_is_empty_and_keeps_its_policy() {
    let min = BinaryHeap::<u32>::default();
    assert_eq!(min.size(), 0);
    assert!(min.peek().is_none());
    assert_eq!(min.heap_type, HeapType::Min);

    let max = BinaryHeap::<u32>::new(HeapType::Max);
    assert_eq!(max.size(), 0);
    assert_eq!(max.heap_type, HeapType::Max);
}

#[test]
fn peek_is_the_least_under_min_after_every_step() {
    let mut heap = BinaryHeap::<i32>::default();
    let steps = [5, 3, 8, 1, 9, 2, 7];
    let mut least = i32::MAX;
    for x in steps.iter() {
        heap.insert(*x);
        if *x < least {
            least = *x;
        }
        assert_eq!(heap.peek(), Some(&least));
    }
    assert_eq!(heap.pop(), Some(1));
    assert_eq!(heap.peek(), Some(&2));
    assert_eq!(heap.pop(), Some(2));
    assert_eq!(heap.peek(), Some(&3));
    heap.insert(0);
    assert_eq!(heap.peek(), Some(&0));
    assert_eq!(heap.size(), 6);
}

#[test]
fn peek_is_the_greatest_under_max_after_every_step() {
    let mut heap = BinaryHeap::<i32>::new(HeapType::Max);
    let steps = [5, 3, 8, 1, 9, 2, 7];
    let mut greatest = i32::MIN;
    for x in steps.iter() {
        heap.insert(*x);
        if *x > greatest {
            greatest = *x;
        }
        assert_eq!(heap.peek(), Some(&greatest));
    }
    assert_eq!(heap.pop(), Some(9));
    assert_eq!(heap.peek(), Some(&8));
}

#[test]
fn min_queue_pops_in_non_decreasing_order() {
    let values = [4u64, 1, 3, 1, 5, 9, 2, 6, 5, 3, 5];
    let mut heap = BinaryHeap::<u64>::default();
    for x in values.iter() {
        heap.insert(*x);
    }
    let mut out = Vec::new();
    while let Some(x) = heap.pop() {
        out.push(x);
    }
    assert_eq!(out, vec![1, 1, 2, 3, 3, 4, 5, 5, 5, 6, 9]);
    assert_eq!(heap.size(), 0);
}

#[test]
fn max_queue_pops_in_non_increasing_order() {
    let values = [4u64, 1, 3, 1, 5, 9, 2, 6, 5, 3, 5];
    let mut heap = BinaryHeap::<u64>::new(HeapType::Max);
    for x in values.iter() {
        heap.insert(*x);
    }
    let mut out = Vec::new();
    while let Some(x) = heap.pop() {
        out.push(x);
    }
    assert_eq!(out, vec![9, 6, 5, 5, 5, 4, 3, 3, 2, 1, 1]);
}

#[test]
fn single_element_pops_cleanly() {
    let mut heap = BinaryHeap::<String>::new(HeapType::Max);
    heap.insert("only".to_string());
    assert_eq!(heap.size(), 1);
    assert_eq!(heap.pop(), Some("only".to_string()));
    assert_eq!(heap.size(), 0);
    assert!(heap.pop().is_none());
    assert!(heap.peek().is_none());
}

#[test]
fn equal_elements_all_come_out() {
    let mut heap = BinaryHeap::<u8>::default();
    for _ in 0..5 {
        heap.insert(7);
    }
    for _ in 0..5 {
        assert_eq!(heap.pop(), Some(7));
    }
    assert!(heap.pop().is_none());
}

#[test]
fn clone_holds_the_same_elements() {
    let mut heap = BinaryHeap::<u32>::new(HeapType::Max);
    heap.insert(10);
    heap.insert(30);
    heap.insert(20);
    let mut copy = heap.clone();
    assert_eq!(copy.heap_type, HeapType::Max);
    assert_eq!(copy.size(), 3);
    assert_eq!(copy.pop(), Some(30));
    assert_eq!(copy.pop(), Some(20));
    assert_eq!(copy.pop(), Some(10));
    assert_eq!(heap.size(), 3);
    assert_eq!(heap.peek(), Some(&30));
}

#[test]
fn strings_are_ordered_as_strings() {
    let mut heap = BinaryHeap::<String>::default();
    heap.insert("pear".to_string());
    heap.insert("apple".to_string());
    heap.insert("fig".to_string());
    assert_eq!(heap.pop(), Some("apple".to_string()));
    assert_eq!(heap.pop(), Some("fig".to_string()));
    assert_eq!(heap.pop(), Some("pear".to_string()));
}
