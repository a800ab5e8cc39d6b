use concache::arena::AllocError;
use concache::manual::{SharedMap, REFRESH_RATE};
use concache::table::{hash_key, Table};
use concache::retired::Retired;
use std::collections::hash_map::DefaultHasher;
use std::hash::{Hash, Hasher};

fn reference_hash(key: u64) -> u64 {
    let mut hasher = DefaultHasher::new();
    key.hash(&mut hasher);
    hasher.finish()
}

fn all_entries(map: &SharedMap<u64>) -> Vec<(u64, u64)> {
    let mut all = Vec::new();
    for b in 0..map.capacity() {
        let entries = map.entries(b);
        // sorted, and nothing logically deleted
        for w in entries.windows(2) {
            assert!(w[0].0 < w[1].0);
        }
        for e in entries {
            assert!(!e.2);
            assert_eq!(hash_key(e.0) as usize % map.capacity(), b);
            all.push((e.0, e.1));
        }
    }
    all.sort();
    all
}

#[test]
fn the_hash_is_that_of_the_default_hasher() {
    for key in [0u64, 1, 2, 12, 13, 20, 127, 1 << 40, u64::MAX] {
        assert_eq!(hash_key(key), reference_hash(key));
        assert_eq!(hash_key(key), hash_key(key));
    }
    assert_ne!(hash_key(1), hash_key(2));
}

#[test]
fn too_many_buckets_are_refused() {
    assert!(matches!(SharedMap::<u64>::with_capacity(usize::MAX), Err(AllocError)));
    assert!(matches!(SharedMap::<u64>::with_capacity(usize::MAX / 4 + 1), Err(AllocError)));
    assert!(matches!(Table::<u64>::new(usize::MAX / 2), Err(AllocError)));
}

#[test]
fn a_new_map_is_empty() {
    let (map, handle) = SharedMap::<u64>::with_capacity(4).unwrap();
    assert_eq!(map.capacity(), 4);
    assert_eq!(handle.len(&map), 0);
    assert!(handle.is_empty(&map));
    assert_eq!(handle.epoch(&map), 0);
    assert_eq!(handle.number(), 0);
    assert_eq!(handle.retired_len(), (0, 0));
    assert!(all_entries(&map).is_empty());
}

#[test]
fn one_bucket_is_enough() {
    let (mut map, mut handle) = SharedMap::<u64>::with_capacity(1).unwrap();
    for key in [5u64, 1, 4, 2, 3] {
        assert_eq!(handle.insert(&mut map, key, key * 2), Ok(None));
    }
    assert_eq!(
        map.entries(0),
        vec![(1, 2, false), (2, 4, false), (3, 6, false), (4, 8, false), (5, 10, false)]
    );
    assert_eq!(handle.len(&map), 5);
}

#[test]
fn basic_scenario() {
    let (mut map, mut handle) = SharedMap::<u64>::with_capacity(8).unwrap();
    handle.insert(&mut map, 1, 1).unwrap();
    handle.insert(&mut map, 2, 5).unwrap();
    handle.insert(&mut map, 12, 5).unwrap();
    handle.insert(&mut map, 13, 7).unwrap();
    handle.insert(&mut map, 0, 0).unwrap();
    handle.insert(&mut map, 20, 3).unwrap();
    handle.insert(&mut map, 3, 2).unwrap();
    handle.insert(&mut map, 4, 1).unwrap();
    assert_eq!(handle.insert(&mut map, 20, 5), Ok(Some(3)));
    assert_eq!(handle.insert(&mut map, 3, 8), Ok(Some(2)));
    assert_eq!(handle.insert(&mut map, 5, 5), Ok(None));
    assert_eq!(handle.len(&map), 9);
    assert!(!handle.is_empty(&map));
    assert_ne!(handle.get(&mut map, &3), Some(2));
    assert_eq!(handle.get(&mut map, &3), Some(8));
    assert_eq!(
        all_entries(&map),
        vec![(0, 0), (1, 1), (2, 5), (3, 8), (4, 1), (5, 5), (12, 5), (13, 7), (20, 5)]
    );
}

#[test]
fn delete_scenario() {
    let (mut map, mut handle) = SharedMap::<u64>::with_capacity(8).unwrap();
    for key in 1..=16u64 {
        handle.insert(&mut map, key, if key == 2 { 5 } else { 3 }).unwrap();
    }
    assert_eq!(handle.len(&map), 16);
    assert_eq!(handle.get(&mut map, &1), Some(3));
    assert_eq!(handle.remove(&mut map, &1), Some(3));
    assert_eq!(handle.get(&mut map, &1), None);
    assert_eq!(handle.remove(&mut map, &2), Some(5));
    assert_eq!(handle.remove(&mut map, &16), Some(3));
    assert_eq!(handle.get(&mut map, &16), None);
    assert_eq!(handle.len(&map), 13);
}

#[test]
fn round_trip() {
    let (mut map, mut handle) = SharedMap::<u64>::with_capacity(8).unwrap();
    for key in 0..200u64 {
        let value = key * 7 + 1;
        assert_eq!(handle.insert(&mut map, key, value), Ok(None));
        assert_eq!(handle.get(&mut map, &key), Some(value));
    }
    for key in 0..200u64 {
        assert_eq!(handle.insert(&mut map, key, 9), Ok(Some(key * 7 + 1)));
        assert_eq!(handle.remove(&mut map, &key), Some(9));
        assert_eq!(handle.get(&mut map, &key), None);
    }
    assert!(handle.is_empty(&map));
}

#[test]
fn double_remove() {
    let (mut map, mut handle) = SharedMap::<u64>::with_capacity(8).unwrap();
    assert_eq!(handle.remove(&mut map, &7), None);
    assert_eq!(handle.remove(&mut map, &7), None);
    handle.insert(&mut map, 7, 70).unwrap();
    assert_eq!(handle.remove(&mut map, &7), Some(70));
    assert_eq!(handle.remove(&mut map, &7), None);
    assert_eq!(handle.len(&map), 0);
}

#[test]
fn no_lost_update_across_other_keys_and_handles() {
    let (mut map, mut a) = SharedMap::<u64>::with_capacity(8).unwrap();
    let mut b = a.clone(&mut map);
    a.insert(&mut map, 42, 1).unwrap();
    for key in 0..40u64 {
        b.insert(&mut map, key, key).unwrap();
        b.remove(&mut map, &(key / 2));
        a.get(&mut map, &key);
    }
    assert_eq!(b.get(&mut map, &42), Some(1));
    assert_eq!(a.get(&mut map, &42), Some(1));
    // an insertion of the key in between is what a later lookup sees
    b.insert(&mut map, 42, 2).unwrap();
    assert_eq!(a.get(&mut map, &42), Some(2));
}

#[test]
fn cross_handle_visibility() {
    let (mut map, mut a) = SharedMap::<u64>::with_capacity(8).unwrap();
    a.insert(&mut map, 5, 50).unwrap();
    let mut b = a.clone(&mut map);
    assert_eq!(b.number(), 1);
    assert_eq!(b.get(&mut map, &5), Some(50));
    b.insert(&mut map, 6, 60).unwrap();
    assert_eq!(a.get(&mut map, &6), Some(60));
    assert_eq!(a.len(&map), 2);
    assert_eq!(b.len(&map), 2);
}

#[test]
fn counter_envelope() {
    let (mut map, mut a) = SharedMap::<u64>::with_capacity(8).unwrap();
    let mut b = a.clone(&mut map);
    assert_eq!(a.epoch(&map), 0);
    a.insert(&mut map, 1, 1).unwrap();
    assert_eq!(a.epoch(&map), 2);
    a.get(&mut map, &1);
    assert_eq!(a.epoch(&map), 4);
    a.get(&mut map, &2);
    a.remove(&mut map, &1);
    a.remove(&mut map, &1);
    assert_eq!(a.epoch(&map), 10);
    assert_eq!(b.epoch(&map), 0);
    b.insert(&mut map, 1, 1).unwrap();
    assert_eq!(b.epoch(&map), 2);
    assert_eq!(a.epoch(&map), 10);
    // entering makes the counter odd, leaving makes it even again
    a.enter(&mut map);
    assert_eq!(a.epoch(&map), 11);
    a.exit(&mut map);
    assert_eq!(a.epoch(&map), 12);
}

#[test]
fn reclamation_liveness() {
    let (mut map, mut handle) = SharedMap::<u64>::with_capacity(8).unwrap();
    let mut peak = 0;
    for _ in 0..10_000 {
        handle.insert(&mut map, 1, 1).unwrap();
        handle.remove(&mut map, &1);
        let (nodes, cells) = handle.retired_len();
        peak = peak.max(nodes + cells);
    }
    // one node is retired by each removal; a pass runs every REFRESH_RATE operations
    assert!(peak <= REFRESH_RATE);
    assert!(peak >= REFRESH_RATE / 2 - 1);
    assert_eq!(handle.epoch(&map), 40_000);
    assert!(handle.cleanup(&mut map));
    assert_eq!(handle.retired_len(), (0, 0));
    assert!(handle.close(&mut map).is_none());
}

#[test]
fn updates_retire_cells_and_a_pass_frees_them() {
    let (mut map, mut handle) = SharedMap::<u64>::with_capacity(2).unwrap();
    handle.insert(&mut map, 1, 0).unwrap();
    for i in 1..=10u64 {
        assert_eq!(handle.insert(&mut map, 1, i), Ok(Some(i - 1)));
    }
    assert_eq!(handle.retired_len(), (0, 10));
    assert!(handle.cleanup(&mut map));
    assert_eq!(handle.retired_len(), (0, 0));
    assert_eq!(handle.get(&mut map, &1), Some(10));
}

#[test]
fn a_pass_is_attempted_every_refresh_rate_operations() {
    let (mut map, mut handle) = SharedMap::<u64>::with_capacity(2).unwrap();
    handle.insert(&mut map, 1, 0).unwrap();
    let mut expected = 0;
    for i in 1..(3 * REFRESH_RATE as u64) {
        handle.insert(&mut map, 1, i).unwrap();
        expected += 1;
        if (i + 1) % REFRESH_RATE as u64 == 0 {
            expected = 0;
        }
        assert_eq!(handle.retired_len(), (0, expected));
    }
}

#[test]
fn nothing_is_freed_while_another_handle_is_inside_an_operation() {
    let (mut map, mut a) = SharedMap::<u64>::with_capacity(8).unwrap();
    let mut b = a.clone(&mut map);
    b.insert(&mut map, 1, 1).unwrap();
    // a goes into an operation and may hold a pointer to the node of key 1
    a.enter(&mut map);
    assert_eq!(b.remove(&mut map, &1), Some(1));
    assert_eq!(b.retired_len(), (1, 0));
    assert!(!b.cleanup(&mut map));
    assert_eq!(b.retired_len(), (1, 0));
    // the same, one step at a time
    let mut pass = b.begin_pass(&map);
    assert_eq!(b.poll_pass(&map, &mut pass), Some(a.number()));
    assert_eq!(b.poll_pass(&map, &mut pass), Some(a.number()));
    // b goes on working while its pass waits; what it retires now is not covered
    b.insert(&mut map, 2, 2).unwrap();
    assert_eq!(b.remove(&mut map, &2), Some(2));
    assert_eq!(b.retired_len(), (2, 0));
    assert!(!b.cleanup(&mut map));
    // a leaves: the pass completes and frees what it covers
    a.exit(&mut map);
    assert_eq!(b.poll_pass(&map, &mut pass), None);
    b.finish_pass(&mut map, pass);
    assert_eq!(b.retired_len(), (1, 0));
    assert!(b.cleanup(&mut map));
    assert_eq!(b.retired_len(), (0, 0));
}

#[test]
fn a_pass_does_not_wait_for_a_handle_that_left_and_came_back() {
    let (mut map, mut a) = SharedMap::<u64>::with_capacity(8).unwrap();
    let mut b = a.clone(&mut map);
    b.insert(&mut map, 1, 1).unwrap();
    a.enter(&mut map);
    b.remove(&mut map, &1);
    let mut pass = b.begin_pass(&map);
    assert_eq!(b.poll_pass(&map, &mut pass), Some(0));
    a.exit(&mut map);
    a.enter(&mut map);
    assert_eq!(b.poll_pass(&map, &mut pass), None);
    b.finish_pass(&mut map, pass);
    assert_eq!(b.retired_len(), (0, 0));
    a.exit(&mut map);
}

#[test]
fn closing_a_handle_frees_its_buffer_and_its_number_is_not_used_again() {
    let (mut map, mut a) = SharedMap::<u64>::with_capacity(8).unwrap();
    let mut b = a.clone(&mut map);
    b.insert(&mut map, 1, 1).unwrap();
    b.insert(&mut map, 1, 2).unwrap();
    b.remove(&mut map, &1);
    assert_eq!(b.retired_len(), (1, 1));
    assert!(b.close(&mut map).is_none());
    let c = a.clone(&mut map);
    assert_eq!(c.number(), 2);
    assert_eq!(a.get(&mut map, &1), None);
    // a pass of another handle is not held up by the closed one
    a.insert(&mut map, 3, 3).unwrap();
    a.remove(&mut map, &3);
    assert!(a.cleanup(&mut map));
}

#[test]
fn a_handle_cannot_close_while_another_is_inside_an_operation() {
    let (mut map, mut a) = SharedMap::<u64>::with_capacity(8).unwrap();
    let b = a.clone(&mut map);
    a.enter(&mut map);
    let b = b.close(&mut map).expect("the handle comes back");
    a.exit(&mut map);
    assert!(b.close(&mut map).is_none());
}

#[test]
fn sentinel_integrity_after_a_mixed_workload() {
    let (mut map, mut handle) = SharedMap::<u64>::with_capacity(8).unwrap();
    let mut other = handle.clone(&mut map);
    let mut state: u64 = 1;
    let mut model = std::collections::BTreeMap::new();
    for _ in 0..20_000 {
        state = state.wrapping_mul(6364136223846793005).wrapping_add(1442695040888963407);
        let key = (state >> 33) % 64;
        let op = (state >> 20) % 3;
        let h = if (state >> 50) % 2 == 0 { &mut handle } else { &mut other };
        if op == 0 {
            assert_eq!(h.insert(&mut map, key, state), Ok(model.insert(key, state)));
        } else if op == 1 {
            assert_eq!(h.get(&mut map, &key), model.get(&key).copied());
        } else {
            assert_eq!(h.remove(&mut map, &key), model.remove(&key));
        }
        assert_eq!(h.len(&map), model.len());
    }
    let expected: Vec<(u64, u64)> = model.into_iter().collect();
    assert_eq!(all_entries(&map), expected);
}

#[test]
fn the_table_counts_what_it_holds() {
    let mut table: Table<u64> = Table::new(4).unwrap();
    let mut retired = Retired::new(0);
    assert_eq!(table.capacity(), 4);
    assert_eq!(table.len(), 0);
    assert_eq!(table.insert(1, 10, &mut retired), Ok(None));
    assert_eq!(table.insert(2, 20, &mut retired), Ok(None));
    assert_eq!(table.insert(1, 11, &mut retired), Ok(Some(10)));
    assert_eq!(table.len(), 2);
    assert_eq!(table.get(1, &mut retired), Some(11));
    assert_eq!(table.delete(3, &mut retired), None);
    assert_eq!(table.len(), 2);
    assert_eq!(table.delete(1, &mut retired), Some(11));
    assert_eq!(table.len(), 1);
    assert_eq!((retired.nodes.len(), retired.cells.len()), (1, 1));
    table.reclaim(&mut retired, 1, 1);
    assert!(retired.nodes.is_empty() && retired.cells.is_empty());
    assert_eq!(table.get(2, &mut retired), Some(20));
    let bucket = hash_key(2) as usize % 4;
    assert_eq!(table.entries(bucket), vec![(2, 20, false)]);
}

#[test]
fn single_key_order() {
    let (mut map, mut a) = SharedMap::<u64>::with_capacity(8).unwrap();
    let mut b = a.clone(&mut map);
    let mut c = b.clone(&mut map);
    a.insert(&mut map, 9, 1).unwrap();
    assert_eq!(b.get(&mut map, &9), Some(1));
    // operations on other keys, by any handle, do not change what the key holds
    c.insert(&mut map, 8, 80).unwrap();
    c.remove(&mut map, &10);
    a.insert(&mut map, 10, 100).unwrap();
    assert_eq!(c.get(&mut map, &9), Some(1));
    // a later lookup sees another value only after an insertion of that value
    assert_eq!(c.insert(&mut map, 9, 2), Ok(Some(1)));
    a.remove(&mut map, &8);
    assert_eq!(b.get(&mut map, &9), Some(2));
    assert_eq!(a.get(&mut map, &9), Some(2));
    // and nothing after a removal, until the next insertion
    assert_eq!(b.remove(&mut map, &9), Some(2));
    assert_eq!(a.get(&mut map, &9), None);
    assert_eq!(c.insert(&mut map, 9, 3), Ok(None));
    assert_eq!(a.get(&mut map, &9), Some(3));
}

#[test]
fn values_need_not_be_numbers() {
    let (mut map, mut handle) = SharedMap::<&'static str>::with_capacity(16).unwrap();
    assert_eq!(handle.insert(&mut map, 37, "a"), Ok(None));
    assert!(!handle.is_empty(&map));
    handle.insert(&mut map, 37, "b").unwrap();
    assert_eq!(handle.insert(&mut map, 37, "c"), Ok(Some("b")));
    assert_eq!(handle.get(&mut map, &37), Some("c"));
    assert_eq!(handle.get(&mut map, &2), None);
    assert_eq!(handle.remove(&mut map, &37), Some("c"));
    assert_eq!(handle.remove(&mut map, &37), None);
    assert_eq!(handle.len(&map), 0);
}

#[test]
fn keys_at_the_ends_of_the_range() {
    let (mut map, mut handle) = SharedMap::<u8>::with_capacity(3).unwrap();
    assert_eq!(handle.insert(&mut map, u64::MAX, 1), Ok(None));
    assert_eq!(handle.insert(&mut map, 0, 2), Ok(None));
    assert_eq!(handle.insert(&mut map, u64::MAX - 1, 3), Ok(None));
    assert_eq!(handle.get(&mut map, &u64::MAX), Some(1));
    assert_eq!(handle.get(&mut map, &0), Some(2));
    assert_eq!(handle.get(&mut map, &(u64::MAX - 1)), Some(3));
    assert_eq!(handle.remove(&mut map, &u64::MAX), Some(1));
    assert_eq!(handle.get(&mut map, &u64::MAX), None);
    assert_eq!(handle.len(&map), 2);
}

#[test]
fn every_handle_runs_its_own_passes() {
    let (mut map, mut a) = SharedMap::<u64>::with_capacity(4).unwrap();
    let mut b = a.clone(&mut map);
    for i in 0..60u64 {
        a.insert(&mut map, i, i).unwrap();
        b.remove(&mut map, &i);
    }
    // b has retired one node with each removal, a nothing
    assert_eq!(a.retired_len(), (0, 0));
    assert_eq!(b.retired_len(), (60, 0));
    for i in 0..39u64 {
        b.get(&mut map, &i);
    }
    assert_eq!(b.retired_len(), (60, 0));
    // the hundredth operation of b brings its pass
    b.get(&mut map, &0);
    assert_eq!(b.retired_len(), (0, 0));
    assert_eq!(a.epoch(&map), 120);
    assert_eq!(b.epoch(&map), 200);
}
