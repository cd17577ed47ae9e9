use tinypointers::{Container, ContainerConfig, Handle, TinyPointer, TinyPtrMap};

#[test]
fn test_container_basic() {
    let config = ContainerConfig {
        s: 64,
        b: 4,
        base_hash_seed: 0,
    };

    let mut container = Container::new(&config);

    let key1 = 12345;
    let key2 = 67890;

    let ptr1 = container.try_allocate(key1).unwrap();
    let ptr2 = container.try_allocate(key2).unwrap();

    assert_eq!(container.item_count(), 2);

    let idx1 = container.dereference(key1, &ptr1).unwrap();
    let idx2 = container.dereference(key2, &ptr2).unwrap();

    assert_ne!(idx1, idx2);
}

#[test]
fn test_map_basic() {
    let mut map = TinyPtrMap::new(1024);

    let handle = Handle::min();
    assert!(map.insert(12345, handle).is_ok());
    assert_eq!(map.len(), 1);

    let retrieved = map.get(&12345);
    assert_eq!(retrieved, Some(handle));
}

#[test]
fn test_get_remove() {
    let mut map = TinyPtrMap::new(1024);

    let handle1 = Handle::min();
    let handle2 = Handle::new(42).unwrap();

    assert!(map.insert(111, handle1).is_ok());
    assert!(map.insert(222, handle2).is_ok());

    assert_eq!(map.get(&111), Some(handle1));
    assert_eq!(map.get(&222), Some(handle2));
    assert_eq!(map.get(&333), None);

    assert_eq!(map.remove(&111), Some(handle1));
    assert_eq!(map.get(&111), None);
    assert_eq!(map.get(&222), Some(handle2));
    assert_eq!(map.len(), 1);
}

#[test]
fn test_capacity() {
    let map = TinyPtrMap::new(1024);
    // Capacity exists and is non-zero
    assert!(map.capacity() > 0);
    // Capacity is at least as much as requested
    assert!(map.capacity() >= 1024);
}

#[test]
fn test_capacity_after_insert() {
    let mut map = TinyPtrMap::new(1024);
    let initial_capacity = map.capacity();
    let handle = Handle::min();

    for i in 0..100 {
        assert!(map.insert(i, handle).is_ok());
    }

    assert_eq!(map.capacity(), initial_capacity);
}

#[test]
fn test_capacity_after_remove() {
    let mut map = TinyPtrMap::new(1024);
    let handle = Handle::min();

    for i in 0..100 {
        assert!(map.insert(i, handle).is_ok());
    }

    let initial_capacity = map.capacity();

    for i in 0..50 {
        map.remove(&i);
    }

    assert_eq!(map.capacity(), initial_capacity);
}

#[test]
fn test_capacity_small_map() {
    let map = TinyPtrMap::new(10);
    assert!(map.capacity() > 0);
    assert!(map.capacity() >= 10);
}

#[test]
fn test_capacity_single_item_map() {
    let map = TinyPtrMap::new(1);
    assert!(map.capacity() >= 1);
}

#[test]
fn test_clear() {
    let mut map = TinyPtrMap::new(1024);
    let handle = Handle::min();

    for i in 0..100 {
        assert!(map.insert(i, handle).is_ok());
    }

    assert_eq!(map.len(), 100);

    map.clear();

    assert_eq!(map.len(), 0);
    assert!(map.is_empty());
    assert!(map.capacity() > 0);
}

#[test]
fn test_clear_capacity_unchanged() {
    let mut map = TinyPtrMap::new(1024);
    let handle = Handle::min();

    for i in 0..50 {
        assert!(map.insert(i, handle).is_ok());
    }

    let capacity_before = map.capacity();
    map.clear();
    let capacity_after = map.capacity();

    assert_eq!(capacity_before, capacity_after);
}

#[test]
fn test_clear_then_insert() {
    let mut map = TinyPtrMap::new(1024);
    let handle1 = Handle::min();
    let handle2 = Handle::new(42).unwrap();

    assert!(map.insert(111, handle1).is_ok());
    map.clear();
    assert!(map.insert(222, handle2).is_ok());

    assert_eq!(map.len(), 1);
    assert_eq!(map.get(&222), Some(handle2));
    assert_eq!(map.get(&111), None);
}

#[test]
fn test_clear_on_empty_map() {
    let mut map = TinyPtrMap::new(1024);

    map.clear();
    map.clear();

    assert_eq!(map.len(), 0);
    assert!(map.is_empty());
}

#[test]
fn test_clear_then_get_remove() {
    let mut map = TinyPtrMap::new(1024);
    let handle = Handle::min();

    for i in 0..50 {
        assert!(map.insert(i, handle).is_ok());
    }

    map.clear();

    for i in 0..50 {
        assert_eq!(map.get(&i), None);
    }

    for i in 0..50 {
        assert_eq!(map.remove(&i), None);
    }
}

#[test]
fn test_debug_impl() {
    let mut map = TinyPtrMap::new(1024);

    let debug_str = map.debug_string();

    assert!(debug_str.contains("TinyPtrMap"));
    assert!(debug_str.contains("containers"));

    let handle = Handle::min();
    for i in 0..10 {
        assert!(map.insert(i, handle).is_ok());
    }

    let debug_str_with_data = map.debug_string();
    assert!(debug_str_with_data.contains("item_count"));
    assert!(debug_str_with_data.contains("arena_size"));
}

#[test]
fn test_debug_output_readable() {
    let mut map = TinyPtrMap::new(100);
    let handle = Handle::min();

    for i in 0..20 {
        assert!(map.insert(i, handle).is_ok());
    }

    let debug_str = map.debug_string();
    assert!(!debug_str.is_empty());
    assert!(!debug_str.contains("\n\n\n"));
}

#[test]
fn test_get_key_value() {
    let mut map = TinyPtrMap::new(1024);
    let handle1 = Handle::min();
    let handle2 = Handle::new(42).unwrap();

    assert!(map.insert(111, handle1).is_ok());
    let result = map.get_key_value(&111);
    assert!(result.is_some());
    let (key_ref, handle) = result.unwrap();
    assert_eq!(*key_ref, 111);
    assert_eq!(handle, handle1);

    let result = map.get_key_value(&222);
    assert!(result.is_none());

    assert!(map.insert(222, handle2).is_ok());
    let result = map.get_key_value(&222);
    assert!(result.is_some());
    let (key_ref, handle) = result.unwrap();
    assert_eq!(*key_ref, 222);
    assert_eq!(handle, handle2);
}

#[test]
fn test_contains_key() {
    let mut map = TinyPtrMap::new(1024);
    let handle = Handle::min();

    assert!(map.insert(111, handle).is_ok());
    assert!(map.contains_key(&111));
    assert!(!map.contains_key(&222));

    assert!(!map.contains_key(&333));

    assert_eq!(map.contains_key(&111), map.get(&111).is_some());
    assert_eq!(map.contains_key(&222), map.get(&222).is_some());
}

#[test]
fn test_contains_key_after_remove() {
    let mut map = TinyPtrMap::new(1024);
    let handle = Handle::min();

    assert!(map.insert(111, handle).is_ok());
    assert!(map.contains_key(&111));

    map.remove(&111);
    assert!(!map.contains_key(&111));
}

#[test]
fn test_with_capacity() {
    let map1 = TinyPtrMap::with_capacity(1024);
    let map2 = TinyPtrMap::new(1024);

    assert_eq!(map1.capacity(), map2.capacity());

    assert_eq!(map1.num_containers(), map2.num_containers());
}

#[test]
fn test_with_capacity_functionality() {
    let mut map = TinyPtrMap::with_capacity(100);
    let handle = Handle::min();

    assert!(map.insert(42, handle).is_ok());
    assert!(map.contains_key(&42));
    assert_eq!(map.len(), 1);

    assert!(map.capacity() >= 100);
}

#[test]
fn test_container_level_count_leak() {
    let config = ContainerConfig {
        s: 64,
        b: 4,
        base_hash_seed: 0,
    };
    let mut container = Container::new(&config);
    let mut keys_and_ptrs = Vec::new();

    let mut allocated_at_level_1_or_more = false;
    for i in 0..64 {
        let key = i as u64;
        if let Ok(ptr) = container.try_allocate(key) {
            match ptr {
                TinyPointer::LoadBalancer { level, .. } if level >= 1 => {
                    allocated_at_level_1_or_more = true;
                }
                TinyPointer::Overflow { .. } => {
                    allocated_at_level_1_or_more = true;
                }
                _ => {}
            }
            keys_and_ptrs.push((key, ptr));
        }
    }

    assert!(allocated_at_level_1_or_more, "Should have allocated at level >= 1");

    for (key, ptr) in keys_and_ptrs {
        container.free(key, &ptr);
    }

    for (i, count) in container.level_counts().iter().enumerate() {
        assert_eq!(*count, 0, "Level {} count is leaked: {}", i, count);
    }
}
