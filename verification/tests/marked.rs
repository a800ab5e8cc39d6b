use concache::marked::{get_marked_reference, get_unmarked_reference, is_marked_reference};

#[test]
fn mark_bit_of_plain_words() {
    assert!(!is_marked_reference(0));
    assert!(is_marked_reference(1));
    assert!(!is_marked_reference(2));
    assert!(is_marked_reference(3));
    assert!(!is_marked_reference(usize::MAX - 1));
    assert!(is_marked_reference(usize::MAX));
}

#[test]
fn marking_sets_only_the_low_bit() {
    assert_eq!(get_marked_reference(0), 1);
    assert_eq!(get_marked_reference(1), 1);
    assert_eq!(get_marked_reference(40), 41);
    assert_eq!(get_marked_reference(41), 41);
    assert_eq!(get_marked_reference(usize::MAX - 1), usize::MAX);
    assert_eq!(get_marked_reference(usize::MAX), usize::MAX);
}

#[test]
fn unmarking_clears_only_the_low_bit() {
    assert_eq!(get_unmarked_reference(0), 0);
    assert_eq!(get_unmarked_reference(1), 0);
    assert_eq!(get_unmarked_reference(40), 40);
    assert_eq!(get_unmarked_reference(41), 40);
    assert_eq!(get_unmarked_reference(usize::MAX), usize::MAX - 1);
}

#[test]
fn mark_then_unmark_gives_the_address_back() {
    let mut word: usize = 0;
    while word < 1000 {
        let marked = get_marked_reference(word);
        assert!(is_marked_reference(marked));
        assert_eq!(get_unmarked_reference(marked), word);
        assert_eq!(get_marked_reference(marked), marked);
        assert!(!is_marked_reference(get_unmarked_reference(marked)));
        word += 2;
    }
}
