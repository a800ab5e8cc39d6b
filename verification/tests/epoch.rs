use concache::epoch::{has_released, Registry, Scan};

#[test]
fn a_handle_that_was_quiescent_at_the_snapshot_has_released() {
    assert!(has_released(0, 0));
    assert!(has_released(4, 4));
    assert!(has_released(4, 5));
    assert!(has_released(4, 7));
}

#[test]
fn a_handle_that_was_active_has_released_once_it_moved_on() {
    assert!(!has_released(5, 5));
    assert!(has_released(5, 6));
    assert!(has_released(5, 7));
    assert!(has_released(5, 8));
    assert!(!has_released(1, 1));
    assert!(has_released(1, 2));
}

#[test]
fn registry_counts_up_one_at_a_time() {
    let mut registry = Registry::new();
    assert_eq!(registry.len(), 0);
    let a = registry.register();
    let b = registry.register();
    assert_eq!((a, b), (0, 1));
    assert_eq!(registry.len(), 2);
    assert_eq!(registry.load(a), Some(0));
    assert_eq!(registry.fetch_add(a), 0);
    assert_eq!(registry.fetch_add(a), 1);
    assert_eq!(registry.load(a), Some(2));
    assert_eq!(registry.load(b), Some(0));
    assert_eq!(registry.snapshot(), vec![Some(2), Some(0)]);
    registry.unregister(a);
    assert_eq!(registry.load(a), None);
    assert_eq!(registry.len(), 2);
    let c = registry.register();
    assert_eq!(c, 2);
}

#[test]
fn a_scan_waits_for_the_handle_that_is_inside_an_operation() {
    let mut registry = Registry::new();
    let a = registry.register();
    let b = registry.register();
    let c = registry.register();
    registry.fetch_add(b); // b goes in
    let mut scan = Scan::begin(&registry);
    assert_eq!(scan.started, vec![Some(0), Some(1), Some(0)]);
    assert_eq!(scan.poll(&registry), Some(b));
    assert_eq!(scan.next, b);
    // no progress while b stays inside
    registry.fetch_add(a);
    registry.fetch_add(c);
    assert_eq!(scan.poll(&registry), Some(b));
    // b leaves: the scan runs to its end, whatever a and c do now
    registry.fetch_add(b);
    assert_eq!(scan.poll(&registry), None);
    assert_eq!(scan.next, 3);
    assert_eq!(scan.poll(&registry), None);
}

#[test]
fn a_scan_passes_a_handle_that_left_and_came_back() {
    let mut registry = Registry::new();
    let a = registry.register();
    registry.fetch_add(a); // 1: inside
    let mut scan = Scan::begin(&registry);
    registry.fetch_add(a); // 2: outside
    registry.fetch_add(a); // 3: inside again, in a later operation
    assert_eq!(scan.poll(&registry), None);
}

#[test]
fn a_scan_passes_closed_and_later_handles() {
    let mut registry = Registry::new();
    let a = registry.register();
    let b = registry.register();
    registry.fetch_add(a);
    registry.fetch_add(b);
    let mut scan = Scan::begin(&registry);
    registry.unregister(a);
    let c = registry.register();
    registry.fetch_add(c);
    assert_eq!(scan.poll(&registry), Some(b));
    registry.fetch_add(b);
    assert_eq!(scan.poll(&registry), None);
    assert_eq!(scan.next, 2);
}
