use concache::manual::{MapHandle, SharedMap};

/// A small generator of reproducible numbers for the mixed workloads.
struct Lcg(u64);

impl Lcg {
    fn next(&mut self) -> u64 {
        self.0 = self.0.wrapping_mul(6364136223846793005).wrapping_add(1442695040888963407);
        self.0 >> 33
    }

    fn gen_range(&mut self, low: u64, high: u64) -> u64 {
        low + self.next() % (high - low)
    }
}

fn mixed_workload(nhandles: usize, num_iterations: usize) {
    let (mut map, handle) = SharedMap::<u64>::with_capacity(8).unwrap();
    let mut handles: Vec<MapHandle> = Vec::new();
    for _ in 0..nhandles {
        handles.push(handle.clone(&mut map));
    }
    let mut rng = Lcg(0x5eed);
    for _ in 0..num_iterations {
        for new_handle in handles.iter_mut() {
            let val = rng.gen_range(0, 128);
            let two = rng.gen_range(0, 3);
            if two % 3 == 0 {
                new_handle.insert(&mut map, val, val).unwrap();
            } else if two % 3 == 1 {
                let v = new_handle.get(&mut map, &val);
                if v.is_some() {
                    assert_eq!(v.unwrap(), val);
                }
            } else {
                new_handle.remove(&mut map, &val);
            }
        }
    }
    for new_handle in handles.iter() {
        assert_eq!(new_handle.epoch(&map), num_iterations * 2);
    }
    assert_eq!(handle.epoch(&map), 0);
}

#[test]
fn mod_hashmap_concurr() {
    mixed_workload(5, 1000000);
}

#[test]
fn main_hashmap_concurr() {
    mixed_workload(5, 100000);
}

#[test]
#[allow(non_snake_case)]
fn HashMap_concurr() {
    let (mut map, handle) = SharedMap::<u64>::with_capacity(16).unwrap();
    let nthreads = 10;
    let mut handles: Vec<MapHandle> = Vec::new();
    for _ in 0..nthreads {
        handles.push(handle.clone(&mut map));
    }
    let mut rng = Lcg(7);
    for _ in 1..1000 {
        for h in handles.iter_mut() {
            let val = rng.gen_range(0, 256);
            if val % 2 == 0 {
                h.insert(&mut map, val, val).unwrap();
            } else {
                let v = h.get(&mut map, &val);
                if v != None {
                    assert_eq!(v.unwrap(), val);
                }
            }
        }
    }
}

#[test]
fn mod_hashmap_delete() {
    let (mut map, mut handle) = SharedMap::with_capacity(8).unwrap();
    handle.insert(&mut map, 1, 3).unwrap();
    handle.insert(&mut map, 2, 5).unwrap();
    handle.insert(&mut map, 3, 8).unwrap();
    handle.insert(&mut map, 4, 3).unwrap();
    handle.insert(&mut map, 5, 4).unwrap();
    handle.insert(&mut map, 6, 5).unwrap();
    handle.insert(&mut map, 7, 3).unwrap();
    handle.insert(&mut map, 8, 3).unwrap();
    handle.insert(&mut map, 9, 3).unwrap();
    handle.insert(&mut map, 10, 3).unwrap();
    handle.insert(&mut map, 11, 3).unwrap();
    handle.insert(&mut map, 12, 3).unwrap();
    handle.insert(&mut map, 13, 3).unwrap();
    handle.insert(&mut map, 14, 3).unwrap();
    handle.insert(&mut map, 15, 3).unwrap();
    handle.insert(&mut map, 16, 3).unwrap();
    assert_eq!(handle.get(&mut map, &1).unwrap(), 3);
    assert_eq!(handle.remove(&mut map, &1).unwrap(), 3);
    assert_eq!(handle.get(&mut map, &1), None);
    assert_eq!(handle.remove(&mut map, &2).unwrap(), 5);
    assert_eq!(handle.remove(&mut map, &16).unwrap(), 3);
    assert_eq!(handle.get(&mut map, &16), None);
}

#[test]
fn main_hashmap_delete() {
    let (mut map, mut handle) = SharedMap::<usize>::with_capacity(8).unwrap();
    handle.insert(&mut map, 1, 3).unwrap();
    handle.insert(&mut map, 2, 5).unwrap();
    handle.insert(&mut map, 3, 8).unwrap();
    handle.insert(&mut map, 4, 3).unwrap();
    handle.insert(&mut map, 5, 4).unwrap();
    handle.insert(&mut map, 6, 5).unwrap();
    handle.insert(&mut map, 7, 3).unwrap();
    handle.insert(&mut map, 8, 3).unwrap();
    handle.insert(&mut map, 9, 3).unwrap();
    handle.insert(&mut map, 10, 3).unwrap();
    handle.insert(&mut map, 11, 3).unwrap();
    handle.insert(&mut map, 12, 3).unwrap();
    handle.insert(&mut map, 13, 3).unwrap();
    handle.insert(&mut map, 14, 3).unwrap();
    handle.insert(&mut map, 15, 3).unwrap();
    handle.insert(&mut map, 16, 3).unwrap();
    assert_eq!(handle.get(&mut map, &1).unwrap(), 3);
    assert_eq!(handle.remove(&mut map, &1).unwrap(), 3);
    assert_eq!(handle.get(&mut map, &1), None);
    assert_eq!(handle.remove(&mut map, &2).unwrap(), 5);
    assert_eq!(handle.remove(&mut map, &16).unwrap(), 3);
    assert_eq!(handle.get(&mut map, &16), None);
}

#[test]
fn main_hashmap_handle_cloning() {
    let (mut map, mut handle) = SharedMap::<usize>::with_capacity(8).unwrap();
    println!("{:?}", handle.epoch(&map));
    handle.insert(&mut map, 1, 3).unwrap();
    assert_eq!(handle.get(&mut map, &1).unwrap(), 3);

    // create a new handle
    let mut new_handle = handle.clone(&mut map);
    assert_eq!(new_handle.get(&mut map, &1).unwrap(), 3);
    new_handle.insert(&mut map, 2, 5).unwrap();

    assert_eq!(handle.get(&mut map, &2).unwrap(), 5);
}

#[test]
fn mod_hashmap_basics() {
    let (mut map, mut new_hashmap) = SharedMap::with_capacity(8).unwrap();
    new_hashmap.insert(&mut map, 1, 1).unwrap();
    new_hashmap.insert(&mut map, 2, 5).unwrap();
    new_hashmap.insert(&mut map, 12, 5).unwrap();
    new_hashmap.insert(&mut map, 13, 7).unwrap();
    new_hashmap.insert(&mut map, 0, 0).unwrap();

    new_hashmap.insert(&mut map, 20, 3).unwrap();
    new_hashmap.insert(&mut map, 3, 2).unwrap();
    new_hashmap.insert(&mut map, 4, 1).unwrap();

    assert_eq!(new_hashmap.insert(&mut map, 20, 5).unwrap().unwrap(), 3); // repeated
    assert_eq!(new_hashmap.insert(&mut map, 3, 8).unwrap().unwrap(), 2); // repeated
    assert_eq!(new_hashmap.insert(&mut map, 5, 5).unwrap(), None);

    assert_eq!(new_hashmap.len(&map), 9);

    new_hashmap.insert(&mut map, 3, 8).unwrap(); // repeated

    assert_eq!(new_hashmap.get(&mut map, &20).unwrap(), 5);
    assert_eq!(new_hashmap.get(&mut map, &12).unwrap(), 5);
    assert_eq!(new_hashmap.get(&mut map, &1).unwrap(), 1);
    assert_eq!(new_hashmap.get(&mut map, &0).unwrap(), 0);
    assert!(new_hashmap.get(&mut map, &3).unwrap() != 2); // test that it changed

    // try the same assert_eqs
    assert_eq!(new_hashmap.get(&mut map, &20).unwrap(), 5);
    assert_eq!(new_hashmap.get(&mut map, &12).unwrap(), 5);
    assert_eq!(new_hashmap.get(&mut map, &1).unwrap(), 1);
    assert_eq!(new_hashmap.get(&mut map, &0).unwrap(), 0);
    assert!(new_hashmap.get(&mut map, &3).unwrap() != 2); // test that it changed
}

#[test]
fn main_hashmap_basics() {
    let (mut map, mut new_hashmap) = SharedMap::<usize>::with_capacity(8).unwrap();
    new_hashmap.insert(&mut map, 1, 1).unwrap();
    new_hashmap.insert(&mut map, 2, 5).unwrap();
    new_hashmap.insert(&mut map, 12, 5).unwrap();
    new_hashmap.insert(&mut map, 13, 7).unwrap();
    new_hashmap.insert(&mut map, 0, 0).unwrap();

    new_hashmap.insert(&mut map, 20, 3).unwrap();
    new_hashmap.insert(&mut map, 3, 2).unwrap();
    new_hashmap.insert(&mut map, 4, 1).unwrap();

    assert_eq!(new_hashmap.insert(&mut map, 20, 5).unwrap().unwrap(), 3); // repeated
    assert_eq!(new_hashmap.insert(&mut map, 3, 8).unwrap().unwrap(), 2); // repeated
    assert_eq!(new_hashmap.insert(&mut map, 5, 5).unwrap(), None);

    assert_eq!(new_hashmap.len(&map), 9);

    new_hashmap.insert(&mut map, 3, 8).unwrap(); // repeated

    assert_eq!(new_hashmap.get(&mut map, &20).unwrap(), 5);
    assert_eq!(new_hashmap.get(&mut map, &12).unwrap(), 5);
    assert_eq!(new_hashmap.get(&mut map, &1).unwrap(), 1);
    assert_eq!(new_hashmap.get(&mut map, &0).unwrap(), 0);
    assert!(new_hashmap.get(&mut map, &3).unwrap() != 2); // test that it changed

    // try the same assert_eqs
    assert_eq!(new_hashmap.get(&mut map, &20).unwrap(), 5);
    assert_eq!(new_hashmap.get(&mut map, &12).unwrap(), 5);
    assert_eq!(new_hashmap.get(&mut map, &1).unwrap(), 1);
    assert_eq!(new_hashmap.get(&mut map, &0).unwrap(), 0);
    assert!(new_hashmap.get(&mut map, &3).unwrap() != 2); // test that it changed
}
