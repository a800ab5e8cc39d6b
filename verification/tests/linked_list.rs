use concache::heap::Heap;
use concache::linked_list::LinkedList;
use concache::retired::Retired;

#[test]
fn linked_list_linkedlist_basics() {
    let mut heap: Heap<i32> = Heap::new();
    let mut remove_nodes = Retired::new(0);

    let mut new_linked_list = LinkedList::new(&mut heap).unwrap();

    println!("{:?}", new_linked_list.entries(&heap));
    new_linked_list.insert(&mut heap, 3, 2, &mut remove_nodes).unwrap();
    new_linked_list.insert(&mut heap, 3, 4, &mut remove_nodes).unwrap();
    new_linked_list.insert(&mut heap, 5, 8, &mut remove_nodes).unwrap();
    new_linked_list.insert(&mut heap, 4, 6, &mut remove_nodes).unwrap();
    new_linked_list.insert(&mut heap, 1, 8, &mut remove_nodes).unwrap();
    new_linked_list.insert(&mut heap, 6, 6, &mut remove_nodes).unwrap();

    assert_eq!(new_linked_list.get(&mut heap, 3, &mut remove_nodes).unwrap(), 4);
    assert_eq!(new_linked_list.get(&mut heap, 5, &mut remove_nodes).unwrap(), 8);
    assert_eq!(new_linked_list.get(&mut heap, 2, &mut remove_nodes), None);
}

#[test]
fn main_linkedlist_basics() {
    let mut heap: Heap<usize> = Heap::new();
    let mut remove_nodes = Retired::new(0);

    let mut new_linked_list = LinkedList::new(&mut heap).unwrap();

    println!("{:?}", new_linked_list.entries(&heap));
    new_linked_list.insert(&mut heap, 3, 2, &mut remove_nodes).unwrap();
    new_linked_list.insert(&mut heap, 3, 4, &mut remove_nodes).unwrap();
    new_linked_list.insert(&mut heap, 5, 8, &mut remove_nodes).unwrap();
    new_linked_list.insert(&mut heap, 4, 6, &mut remove_nodes).unwrap();
    new_linked_list.insert(&mut heap, 1, 8, &mut remove_nodes).unwrap();
    new_linked_list.insert(&mut heap, 6, 6, &mut remove_nodes).unwrap();

    assert_eq!(new_linked_list.get(&mut heap, 3, &mut remove_nodes).unwrap(), 4);
    assert_eq!(new_linked_list.get(&mut heap, 5, &mut remove_nodes).unwrap(), 8);
    assert_eq!(new_linked_list.get(&mut heap, 2, &mut remove_nodes), None);
}

#[test]
fn linked_list_more_linked_list_tests() {
    let mut heap: Heap<i32> = Heap::new();
    let mut remove_nodes = Retired::new(0);

    let mut new_linked_list = LinkedList::new(&mut heap).unwrap();
    println!("Insert: {:?}", new_linked_list.insert(&mut heap, 5, 3, &mut remove_nodes));
    println!("Insert: {:?}", new_linked_list.insert(&mut heap, 5, 8, &mut remove_nodes));
    println!("Insert: {:?}", new_linked_list.insert(&mut heap, 2, 3, &mut remove_nodes));

    println!("Get: {:?}", new_linked_list.get(&mut heap, 5, &mut remove_nodes));

    new_linked_list.delete(&mut heap, 5, &mut remove_nodes);
}

#[test]
fn main_more_linked_list_tests() {
    let mut heap: Heap<usize> = Heap::new();
    let mut remove_nodes = Retired::new(0);

    let mut new_linked_list = LinkedList::new(&mut heap).unwrap();
    println!("Insert: {:?}", new_linked_list.insert(&mut heap, 5, 3, &mut remove_nodes));
    println!("Insert: {:?}", new_linked_list.insert(&mut heap, 5, 8, &mut remove_nodes));
    println!("Insert: {:?}", new_linked_list.insert(&mut heap, 2, 3, &mut remove_nodes));

    println!("Get: {:?}", new_linked_list.get(&mut heap, 5, &mut remove_nodes));

    new_linked_list.delete(&mut heap, 5, &mut remove_nodes);
}
