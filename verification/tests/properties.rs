use tinypointers::{Container, ContainerConfig, Error, Handle, TinyPointer, TinyPtrMap};

fn h(v: u32) -> Handle {
    Handle::new(v).unwrap()
}

#[test]
fn handle_new_rejects_zero() {
    assert!(Handle::new(0).is_none());
    assert_eq!(Handle::new(7).unwrap().get(), 7);
    assert_eq!(Handle::min().get(), 1);
}

#[test]
fn sizing_formulas() {
    // n <= 1: one container of 16 slots.
    assert_eq!(TinyPtrMap::new(0).num_containers(), 1);
    assert_eq!(TinyPtrMap::new(0).capacity(), 16);
    assert_eq!(TinyPtrMap::new(1).capacity(), 16);
    // n = 2: ceil(log2 2) = 1, 2 containers of 2 slots.
    assert_eq!(TinyPtrMap::new(2).num_containers(), 2);
    assert_eq!(TinyPtrMap::new(2).capacity(), 4);
    // n = 3: ceil(log2 3) = 2, 1 container of 4 slots.
    assert_eq!(TinyPtrMap::new(3).num_containers(), 1);
    assert_eq!(TinyPtrMap::new(3).capacity(), 4);
    // n = 10: ceil(log2 10) = 4, 2 containers of 8 slots.
    assert_eq!(TinyPtrMap::new(10).num_containers(), 2);
    assert_eq!(TinyPtrMap::new(10).capacity(), 16);
    // n = 1024: ceil(log2 1024) = 10, 102 containers of 20 slots.
    assert_eq!(TinyPtrMap::new(1024).num_containers(), 102);
    assert_eq!(TinyPtrMap::new(1024).capacity(), 2040);
    // n = 1025: ceil(log2 1025) = 11, 93 containers of 22 slots.
    assert_eq!(TinyPtrMap::new(1025).num_containers(), 93);
    assert_eq!(TinyPtrMap::new(1025).capacity(), 2046);
}

#[test]
fn capacity_covers_requested_size() {
    for n in 0..300usize {
        let map = TinyPtrMap::new(n);
        assert!(map.capacity() >= n);
        assert!(map.capacity() > 0);
    }
}

#[test]
fn summary_text_of_fresh_map() {
    let map = TinyPtrMap::new(1024);
    assert_eq!(
        map.debug_string(),
        "TinyPtrMap { containers: 102, total_capacity: 2040, item_count: 0, arena_size: 0, reverse_index_size: 0 }"
    );
}

#[test]
fn keys_spread_over_containers() {
    // One container holds 20 items; 100 keys only fit if the hash spreads them.
    let mut map = TinyPtrMap::new(1024);
    for k in 0..100u64 {
        assert_eq!(map.insert(k, h(1)), Ok(()));
    }
    assert_eq!(map.len(), 100);
}

#[test]
fn insert_then_get_returns_value() {
    let mut map = TinyPtrMap::new(64);
    assert_eq!(map.insert(5, h(9)), Ok(()));
    assert_eq!(map.get(&5), Some(h(9)));
    assert_eq!(map.get_key_value(&5), Some((&5, h(9))));
    assert!(map.contains_key(&5));
}

#[test]
fn remove_returns_value_and_forgets_key() {
    let mut map = TinyPtrMap::new(64);
    assert_eq!(map.insert(5, h(9)), Ok(()));
    assert_eq!(map.insert(6, h(10)), Ok(()));
    assert_eq!(map.remove(&5), Some(h(9)));
    assert_eq!(map.get(&5), None);
    assert!(!map.contains_key(&5));
    assert_eq!(map.get(&6), Some(h(10)));
    assert_eq!(map.len(), 1);
    // A second remove finds nothing and changes nothing.
    assert_eq!(map.remove(&5), None);
    assert_eq!(map.len(), 1);
}

#[test]
fn repeated_key_overwrites_handle() {
    let mut map = TinyPtrMap::new(256);
    assert_eq!(map.insert(12345, h(42)), Ok(()));
    assert_eq!(map.insert(12345, h(43)), Ok(()));
    assert_eq!(map.get(&12345), Some(h(43)));
    // The key keeps its one slot.
    assert_eq!(map.len(), 1);
    let text = map.debug_string();
    assert!(text.contains("item_count: 1,"));
    assert!(text.contains("reverse_index_size: 1 }"));
    assert_eq!(map.remove(&12345), Some(h(43)));
    assert_eq!(map.get(&12345), None);
    assert_eq!(map.len(), 0);
    assert!(map.is_empty());
}

#[test]
fn clear_empties_and_keeps_capacity() {
    let mut map = TinyPtrMap::new(100);
    for k in 0..30u64 {
        let _ = map.insert(k, h(k as u32 + 1));
    }
    let cap = map.capacity();
    map.clear();
    assert_eq!(map.len(), 0);
    assert!(map.is_empty());
    assert_eq!(map.capacity(), cap);
    for k in 0..30u64 {
        assert_eq!(map.get(&k), None);
    }
    assert_eq!(map.insert(3, h(4)), Ok(()));
    assert_eq!(map.get(&3), Some(h(4)));
}

#[test]
fn failed_insert_changes_nothing() {
    // Two containers of 2 slots: the third key of a container is refused.
    let mut map = TinyPtrMap::new(2);
    let mut refused = 0;
    for k in 0..50u64 {
        let before = map.len();
        match map.insert(k, h(1)) {
            Ok(()) => assert_eq!(map.len(), before + 1),
            Err(e) => {
                assert_eq!(e, Error::ContainerFull);
                assert_eq!(map.len(), before);
                assert!(!map.contains_key(&k));
                refused += 1;
            }
        }
    }
    assert_eq!(map.len(), 4);
    assert_eq!(refused, 46);
}

#[test]
fn container_full_error() {
    let config = ContainerConfig { s: 2, b: 16, base_hash_seed: 7 };
    let mut c = Container::new(&config);
    assert!(c.try_allocate(1).is_ok());
    assert!(c.try_allocate(2).is_ok());
    assert_eq!(c.try_allocate(3), Err(Error::ContainerFull));
    assert_eq!(c.item_count(), 2);
    assert_eq!(c.capacity(), 2);
}

#[test]
fn allocation_failed_error() {
    // Capacity 1 gives no level at all: ceil(log2 1) = 0.
    let config = ContainerConfig { s: 1, b: 4, base_hash_seed: 0 };
    let mut c = Container::new(&config);
    assert_eq!(c.level_counts().len(), 0);
    assert_eq!(c.try_allocate(9), Err(Error::AllocationFailed));
    assert_eq!(c.item_count(), 0);
}

#[test]
fn container_levels_follow_capacity() {
    let config = ContainerConfig { s: 64, b: 4, base_hash_seed: 0 };
    let c = Container::new(&config);
    // ceil(log2 64) = 6 levels, all counts zero.
    assert_eq!(c.level_counts(), vec![0, 0, 0, 0, 0, 0]);
}

#[test]
fn first_allocation_in_empty_container_is_level_zero_slot_zero() {
    let config = ContainerConfig { s: 64, b: 4, base_hash_seed: 0 };
    let mut c = Container::new(&config);
    assert_eq!(c.try_allocate(77), Ok(TinyPointer::LoadBalancer { level: 0, slot: 0 }));
    assert_eq!(c.level_counts()[0], 1);
}

#[test]
fn free_undoes_allocation() {
    let config = ContainerConfig { s: 64, b: 4, base_hash_seed: 0 };
    let mut c = Container::new(&config);
    let p1 = c.try_allocate(10).unwrap();
    let counts = c.level_counts();
    let p2 = c.try_allocate(11).unwrap();
    assert!(c.dereference(11, &p2).is_some());
    c.free(11, &p2);
    assert_eq!(c.dereference(11, &p2), None);
    assert_eq!(c.item_count(), 1);
    assert_eq!(c.level_counts(), counts);
    assert!(c.dereference(10, &p1).is_some());
}

#[test]
fn dereference_rejects_other_key() {
    let config = ContainerConfig { s: 64, b: 4, base_hash_seed: 0 };
    let mut c = Container::new(&config);
    let p = c.try_allocate(10).unwrap();
    assert!(c.dereference(10, &p).is_some());
    assert_eq!(c.dereference(11, &TinyPointer::Overflow { level_from_back: 0, slot: 3 }), None);
}

#[test]
fn single_bucket_fills_in_order() {
    let config = ContainerConfig { s: 8, b: 8, base_hash_seed: 0 };
    let mut c = Container::new(&config);
    // Level 0 has one bucket of 8 slots: keys fill slots 0..8 in order.
    for k in 0..8u64 {
        assert_eq!(c.try_allocate(k), Ok(TinyPointer::LoadBalancer { level: 0, slot: k as u16 }));
        assert_eq!(c.dereference(k, &TinyPointer::LoadBalancer { level: 0, slot: k as u16 }), Some(k as usize));
    }
    // The container is at capacity now.
    assert_eq!(c.try_allocate(100), Err(Error::ContainerFull));
}

#[test]
fn every_stored_key_reads_its_own_handle() {
    // Containers of 18 slots fill up to their overflow arrays; each slot has
    // a cell of its own, so no key ever reads another key's handle.
    let mut map = TinyPtrMap::new(512);
    let mut stored = Vec::new();
    for k in 0..900u64 {
        if map.insert(k, h(k as u32 + 1)).is_ok() {
            stored.push(k);
        }
    }
    assert_eq!(map.len(), stored.len());
    for &k in &stored {
        assert_eq!(map.get(&k), Some(h(k as u32 + 1)));
    }
    // Overwriting and removing half the keys leaves the rest untouched.
    for &k in stored.iter().step_by(2) {
        assert_eq!(map.insert(k, h(7)), Ok(()));
    }
    for (i, &k) in stored.iter().enumerate() {
        if i % 2 == 0 {
            assert_eq!(map.get(&k), Some(h(7)));
            assert_eq!(map.remove(&k), Some(h(7)));
        }
    }
    for (i, &k) in stored.iter().enumerate() {
        if i % 2 == 1 {
            assert_eq!(map.get(&k), Some(h(k as u32 + 1)));
        } else {
            assert_eq!(map.get(&k), None);
        }
    }
    assert_eq!(map.len(), stored.len() / 2);
}

#[test]
fn live_slots_resolve_to_distinct_cells() {
    // Capacity 40 with buckets of 2: the container fills its buckets and
    // overflow arrays; every live slot resolves to a cell of its own.
    let config = ContainerConfig { s: 40, b: 2, base_hash_seed: 3 };
    let mut c = Container::new(&config);
    let mut live = Vec::new();
    for k in 0..200u64 {
        if let Ok(p) = c.try_allocate(k) {
            live.push((k, p));
        }
    }
    assert_eq!(c.item_count(), live.len());
    let mut cells: Vec<usize> = live.iter().map(|(k, p)| c.locate_cell(*k, p).unwrap()).collect();
    for &cell in &cells {
        assert!(cell < c.cell_count());
    }
    cells.sort();
    cells.dedup();
    assert_eq!(cells.len(), live.len());
}

fn run_script(map: &mut TinyPtrMap) -> Vec<String> {
    let mut out = Vec::new();
    for k in 0..300u64 {
        out.push(format!("{:?}", map.insert(k * 7, h(k as u32 + 1))));
    }
    for k in 0..300u64 {
        if k % 3 == 0 {
            out.push(format!("{:?}", map.remove(&(k * 7))));
        }
    }
    for k in 0..300u64 {
        out.push(format!("{:?} {:?} {}", map.get(&(k * 7)), map.get_key_value(&(k * 7)), map.contains_key(&(k * 7))));
    }
    out.push(format!("{} {} {}", map.len(), map.is_empty(), map.capacity()));
    out
}

#[test]
fn fresh_maps_behave_alike() {
    let mut a = TinyPtrMap::new(200);
    let mut b = TinyPtrMap::new(200);
    assert_eq!(run_script(&mut a), run_script(&mut b));
    assert_eq!(a.debug_string(), b.debug_string());
}

#[test]
fn with_capacity_behaves_like_new() {
    let mut a = TinyPtrMap::new(200);
    let mut b = TinyPtrMap::with_capacity(200);
    assert_eq!(a.debug_string(), b.debug_string());
    assert_eq!(run_script(&mut a), run_script(&mut b));
    assert_eq!(a.debug_string(), b.debug_string());
}

#[test]
fn clear_restores_fresh_behaviour() {
    let mut used = TinyPtrMap::new(200);
    run_script(&mut used);
    used.clear();
    let mut fresh = TinyPtrMap::new(200);
    assert_eq!(run_script(&mut used), run_script(&mut fresh));
}

#[test]
fn slot_numbers_follow_level_and_capacity() {
    // Capacity 6, buckets of 4: one bucket per level, overflow arrays of
    // 6, 3 and 2 slots. Keys 1..=4 fill level 0's bucket, 5 and 6 its
    // overflow array, numbered from capacity 6 on.
    let mut c = Container::new(&ContainerConfig { s: 6, b: 4, base_hash_seed: 0 });
    let lb = |j: u16| TinyPointer::LoadBalancer { level: 0, slot: j };
    let ov = |j: u32| TinyPointer::Overflow { level_from_back: 2, slot: j };
    for k in 1..=4u64 {
        assert_eq!(c.try_allocate(k), Ok(lb(k as u16 - 1)));
    }
    assert_eq!(c.try_allocate(5), Ok(ov(0)));
    assert_eq!(c.try_allocate(6), Ok(ov(1)));
    assert_eq!(c.item_count(), 6);
    assert_eq!(c.dereference(1, &lb(0)), Some(0));
    assert_eq!(c.dereference(4, &lb(3)), Some(3));
    assert_eq!(c.dereference(5, &ov(0)), Some(6));
    assert_eq!(c.dereference(6, &ov(1)), Some(7));
    assert_eq!(c.dereference(2, &lb(0)), None);
    assert_eq!(c.dereference(6, &ov(0)), None);
    // Their cells: level 0's bucket slots first, then its overflow array.
    assert_eq!(c.locate_cell(5, &ov(0)), Some(4));
    assert_eq!(c.locate_cell(6, &ov(1)), Some(5));
}
