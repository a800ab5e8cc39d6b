use concache::heap::Heap;
use concache::linked_list::LinkedList;
use concache::marked::is_marked_reference;
use concache::retired::Retired;

fn keys(list: &LinkedList, heap: &Heap<u64>) -> Vec<u64> {
    list.entries(heap).iter().map(|e| e.0).collect()
}

#[test]
fn an_empty_list_has_two_sentinels_and_no_entry() {
    let mut heap: Heap<u64> = Heap::new();
    let mut retired = Retired::new(0);
    let mut list = LinkedList::new(&mut heap).unwrap();
    assert!(list.entries(&heap).is_empty());
    assert_eq!(list.get(&mut heap, 0, &mut retired), None);
    assert_eq!(list.delete(&mut heap, 0, &mut retired), None);
    let found = list.search(&mut heap, 5, &mut retired);
    // head is the left node, tail the right one; the head links to the tail
    assert_eq!(heap.load_key(found.0), None);
    assert_eq!(heap.load_key(found.1), None);
    assert_eq!(heap.load_next(found.0), found.1);
    assert_eq!(heap.load_next(found.1), 0);
}

#[test]
fn entries_come_out_sorted_whatever_the_order_of_insertion() {
    let mut heap: Heap<u64> = Heap::new();
    let mut retired = Retired::new(0);
    let mut list = LinkedList::new(&mut heap).unwrap();
    for key in [7u64, 3, 9, 1, 5, 8, 2, 6, 4, 0] {
        assert_eq!(list.insert(&mut heap, key, key * 10, &mut retired), Ok(None));
    }
    assert_eq!(keys(&list, &heap), vec![0, 1, 2, 3, 4, 5, 6, 7, 8, 9]);
    for e in list.entries(&heap) {
        assert_eq!(e.1, e.0 * 10);
        assert!(!e.2);
    }
}

#[test]
fn insert_returns_the_prior_value_and_retires_the_displaced_cell() {
    let mut heap: Heap<u64> = Heap::new();
    let mut retired = Retired::new(0);
    let mut list = LinkedList::new(&mut heap).unwrap();
    assert_eq!(list.insert(&mut heap, 5, 3, &mut retired), Ok(None));
    assert_eq!(retired.cells.len(), 0);
    assert_eq!(list.insert(&mut heap, 5, 8, &mut retired), Ok(Some(3)));
    assert_eq!(retired.cells.len(), 1);
    assert_eq!(heap.read_cell(retired.cells[0]), 3);
    assert_eq!(list.get(&mut heap, 5, &mut retired), Some(8));
    assert_eq!(keys(&list, &heap), vec![5]);
    assert_eq!(retired.nodes.len(), 0);
}

#[test]
fn search_finds_the_neighbours_of_a_key() {
    let mut heap: Heap<u64> = Heap::new();
    let mut retired = Retired::new(0);
    let mut list = LinkedList::new(&mut heap).unwrap();
    for key in [10u64, 20, 30] {
        list.insert(&mut heap, key, key, &mut retired).unwrap();
    }
    let found = list.search(&mut heap, 20, &mut retired);
    assert_eq!(heap.load_key(found.0), Some(10));
    assert_eq!(heap.load_key(found.1), Some(20));
    let found = list.search(&mut heap, 25, &mut retired);
    assert_eq!(heap.load_key(found.0), Some(20));
    assert_eq!(heap.load_key(found.1), Some(30));
    let found = list.search(&mut heap, 5, &mut retired);
    assert_eq!(heap.load_key(found.0), None);
    assert_eq!(heap.load_key(found.1), Some(10));
    let found = list.search(&mut heap, 31, &mut retired);
    assert_eq!(heap.load_key(found.0), Some(30));
    assert_eq!(heap.load_key(found.1), None);
    assert_eq!(heap.load_next(found.0), found.1);
    assert!(retired.nodes.is_empty());
}

#[test]
fn delete_returns_the_value_and_retires_the_node() {
    let mut heap: Heap<u64> = Heap::new();
    let mut retired = Retired::new(0);
    let mut list = LinkedList::new(&mut heap).unwrap();
    for key in [1u64, 2, 3] {
        list.insert(&mut heap, key, key + 100, &mut retired).unwrap();
    }
    assert_eq!(list.delete(&mut heap, 2, &mut retired), Some(102));
    assert_eq!(retired.nodes.len(), 1);
    assert_eq!(heap.load_key(retired.nodes[0]), Some(2));
    assert!(is_marked_reference(heap.load_next(retired.nodes[0])));
    assert_eq!(keys(&list, &heap), vec![1, 3]);
    assert_eq!(list.delete(&mut heap, 2, &mut retired), None);
    assert_eq!(retired.nodes.len(), 1);
    assert_eq!(list.get(&mut heap, 2, &mut retired), None);
    assert_eq!(list.get(&mut heap, 1, &mut retired), Some(101));
    assert_eq!(list.get(&mut heap, 3, &mut retired), Some(103));
}

#[test]
fn a_logically_deleted_node_stays_linked_until_a_search_crosses_it() {
    let mut heap: Heap<u64> = Heap::new();
    let mut retired = Retired::new(0);
    let mut list = LinkedList::new(&mut heap).unwrap();
    for key in [1u64, 2, 3, 4, 5] {
        list.insert(&mut heap, key, key, &mut retired).unwrap();
    }
    assert_eq!(list.logically_delete(&mut heap, 3, &mut retired), Some(3));
    assert_eq!(list.logically_delete(&mut heap, 2, &mut retired), Some(2));
    // both are still linked, and marked
    let entries = list.entries(&heap);
    assert_eq!(entries.iter().map(|e| (e.0, e.2)).collect::<Vec<_>>(), vec![
        (1, false),
        (2, true),
        (3, true),
        (4, false),
        (5, false)
    ]);
    assert!(retired.nodes.is_empty());
    // a search for a key in front of them does not reach them
    list.search(&mut heap, 1, &mut retired);
    assert_eq!(list.entries(&heap).len(), 5);
    assert!(retired.nodes.is_empty());
    // a search that crosses them cuts both out with one swap, in list order
    let found = list.search(&mut heap, 4, &mut retired);
    assert_eq!(heap.load_key(found.0), Some(1));
    assert_eq!(heap.load_key(found.1), Some(4));
    assert_eq!(heap.load_next(found.0), found.1);
    assert_eq!(retired.nodes.len(), 2);
    assert_eq!(heap.load_key(retired.nodes[0]), Some(2));
    assert_eq!(heap.load_key(retired.nodes[1]), Some(3));
    assert_eq!(keys(&list, &heap), vec![1, 4, 5]);
    assert!(list.entries(&heap).iter().all(|e| !e.2));
}

#[test]
fn a_logically_deleted_key_is_absent_at_once() {
    let mut heap: Heap<u64> = Heap::new();
    let mut retired = Retired::new(0);
    let mut list = LinkedList::new(&mut heap).unwrap();
    list.insert(&mut heap, 2, 20, &mut retired).unwrap();
    list.insert(&mut heap, 4, 40, &mut retired).unwrap();
    assert_eq!(list.logically_delete(&mut heap, 4, &mut retired), Some(40));
    assert_eq!(list.logically_delete(&mut heap, 4, &mut retired), None);
    assert_eq!(list.get(&mut heap, 4, &mut retired), None);
    // the lookup crossed the marked node on its way to the tail
    assert_eq!(retired.nodes.len(), 1);
    // the key can come back, in a new node
    assert_eq!(list.insert(&mut heap, 4, 41, &mut retired), Ok(None));
    assert_eq!(list.get(&mut heap, 4, &mut retired), Some(41));
    assert_eq!(keys(&list, &heap), vec![2, 4]);
}

#[test]
fn insert_lands_in_front_of_a_logically_deleted_node_with_its_key() {
    let mut heap: Heap<u64> = Heap::new();
    let mut retired = Retired::new(0);
    let mut list = LinkedList::new(&mut heap).unwrap();
    list.insert(&mut heap, 1, 1, &mut retired).unwrap();
    list.insert(&mut heap, 5, 5, &mut retired).unwrap();
    list.insert(&mut heap, 9, 9, &mut retired).unwrap();
    list.logically_delete(&mut heap, 5, &mut retired);
    assert_eq!(list.insert(&mut heap, 5, 55, &mut retired), Ok(None));
    // the marked node was cut out by the search of the insertion
    assert_eq!(retired.nodes.len(), 1);
    assert_eq!(
        list.entries(&heap),
        vec![(1, 1, false), (5, 55, false), (9, 9, false)]
    );
}

#[test]
fn releasing_the_buffer_frees_nodes_and_cells() {
    let mut heap: Heap<u64> = Heap::new();
    let mut retired = Retired::new(3);
    let mut list = LinkedList::new(&mut heap).unwrap();
    list.insert(&mut heap, 1, 10, &mut retired).unwrap();
    list.insert(&mut heap, 1, 11, &mut retired).unwrap();
    list.insert(&mut heap, 2, 20, &mut retired).unwrap();
    list.delete(&mut heap, 2, &mut retired);
    list.insert(&mut heap, 3, 30, &mut retired).unwrap();
    list.delete(&mut heap, 3, &mut retired);
    assert_eq!(retired.owner, 3);
    assert_eq!(retired.nodes.len(), 2);
    assert_eq!(retired.cells.len(), 1);
    let first_node = retired.nodes[0];
    let second_node = retired.nodes[1];
    let first_cell = heap.load_val(first_node);
    let displaced = retired.cells[0];
    // free the first node only
    retired.release(&mut heap, 1, 0);
    assert!(!heap.nodes.contains(first_node));
    assert!(!heap.cells.contains(first_cell));
    assert!(heap.nodes.contains(second_node));
    assert!(heap.cells.contains(displaced));
    assert_eq!(retired.nodes, vec![second_node]);
    assert_eq!(retired.cells, vec![displaced]);
    // free the rest
    retired.release(&mut heap, 1, 1);
    assert!(!heap.nodes.contains(second_node));
    assert!(!heap.cells.contains(displaced));
    assert!(retired.nodes.is_empty());
    assert!(retired.cells.is_empty());
    // what is in the list is untouched
    assert_eq!(list.entries(&heap), vec![(1, 11, false)]);
}

#[test]
fn two_lists_share_one_heap() {
    let mut heap: Heap<u64> = Heap::new();
    let mut retired = Retired::new(0);
    let mut a = LinkedList::new(&mut heap).unwrap();
    let mut b = LinkedList::new(&mut heap).unwrap();
    a.insert(&mut heap, 1, 1, &mut retired).unwrap();
    b.insert(&mut heap, 1, 2, &mut retired).unwrap();
    a.insert(&mut heap, 3, 3, &mut retired).unwrap();
    b.delete(&mut heap, 1, &mut retired);
    assert_eq!(a.entries(&heap), vec![(1, 1, false), (3, 3, false)]);
    assert!(b.entries(&heap).is_empty());
    assert_eq!(a.get(&mut heap, 1, &mut retired), Some(1));
    assert_eq!(b.get(&mut heap, 1, &mut retired), None);
}
