use concache::arena::{AllocError, Arena};
use concache::heap::{Heap, Node};

#[test]
fn addresses_are_aligned_and_not_null() {
    let mut arena: Arena<u32> = Arena::new();
    let mut seen: Vec<usize> = Vec::new();
    for i in 0..100u32 {
        let address = arena.allocate(i).unwrap();
        assert_ne!(address, 0);
        assert_eq!(address % 2, 0);
        assert!(!seen.contains(&address));
        seen.push(address);
    }
    for (i, address) in seen.iter().enumerate() {
        assert!(arena.contains(*address));
        assert_eq!(*arena.get(*address), i as u32);
    }
}

#[test]
fn first_addresses_follow_the_slots() {
    let mut arena: Arena<u8> = Arena::new();
    assert_eq!(arena.allocate(7), Ok(2));
    assert_eq!(arena.allocate(8), Ok(4));
    assert_eq!(arena.allocate(9), Ok(6));
}

#[test]
fn contains_tells_allocated_from_free() {
    let mut arena: Arena<u8> = Arena::new();
    assert!(!arena.contains(0));
    assert!(!arena.contains(2));
    let a = arena.allocate(1).unwrap();
    assert!(arena.contains(a));
    assert!(!arena.contains(a + 1));
    assert!(!arena.contains(a + 2));
    assert!(!arena.contains(0));
    assert_eq!(arena.release(a), 1);
    assert!(!arena.contains(a));
}

#[test]
fn a_released_slot_is_used_again() {
    let mut arena: Arena<&'static str> = Arena::new();
    let a = arena.allocate("a").unwrap();
    let b = arena.allocate("b").unwrap();
    assert_eq!(arena.release(a), "a");
    let c = arena.allocate("c").unwrap();
    assert_eq!(c, a);
    assert_eq!(*arena.get(c), "c");
    assert_eq!(*arena.get(b), "b");
}

#[test]
fn set_overwrites_one_slot() {
    let mut arena: Arena<u64> = Arena::new();
    let a = arena.allocate(1).unwrap();
    let b = arena.allocate(2).unwrap();
    arena.set(a, 10);
    assert_eq!(*arena.get(a), 10);
    assert_eq!(*arena.get(b), 2);
}

#[test]
fn a_small_arena_is_not_full() {
    let mut arena: Arena<u64> = Arena::new();
    assert!(!arena.is_full());
    arena.allocate(1).unwrap();
    assert!(!arena.is_full());
}

#[test]
fn alloc_error_is_a_plain_value() {
    assert_eq!(AllocError, AllocError.clone());
    assert_eq!(format!("{:?}", AllocError), "AllocError");
}

#[test]
fn compare_and_swap_stores_only_on_a_match() {
    let mut heap: Heap<u64> = Heap::new();
    let a = heap.nodes.allocate(Node { key: Some(1), val: 0, next: 10 }).unwrap();
    assert_eq!(heap.compare_and_swap_next(a, 12, 14), 10);
    assert_eq!(heap.load_next(a), 10);
    assert_eq!(heap.compare_and_swap_next(a, 10, 14), 10);
    assert_eq!(heap.load_next(a), 14);
    assert_eq!(heap.compare_and_swap_next(a, 10, 16), 14);
    assert_eq!(heap.load_next(a), 14);
    assert_eq!(heap.load_key(a), Some(1));
}

#[test]
fn swap_val_returns_what_was_there() {
    let mut heap: Heap<u64> = Heap::new();
    let c1 = heap.cells.allocate(100).unwrap();
    let c2 = heap.cells.allocate(200).unwrap();
    let a = heap.nodes.allocate(Node { key: Some(1), val: c1, next: 0 }).unwrap();
    assert_eq!(heap.load_val(a), c1);
    assert_eq!(heap.swap_val(a, c2), c1);
    assert_eq!(heap.load_val(a), c2);
    assert_eq!(heap.read_cell(heap.load_val(a)), 200);
    assert_eq!(heap.read_cell(c1), 100);
}

#[test]
fn node_constructors() {
    let sentinel = Node::empty();
    assert_eq!((sentinel.key, sentinel.val, sentinel.next), (None, 0, 0));
    let node = Node::new(7, 12);
    assert_eq!((node.key, node.val, node.next), (Some(7), 12, 0));
}
