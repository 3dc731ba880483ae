use iguagile_engine::id::{IdPool, MemoryIdPool};

#[test]
fn memory_id_pool_new() {
    let pool = MemoryIdPool::new();
    assert_eq!(pool.len(), 65536);
    for i in 0..=65535 {
        assert!(pool.contains(i));
    }
}

#[test]
fn memory_id_pool_is_empty() {
    let pool = MemoryIdPool::with_available(&[0]);
    assert!(!pool.is_empty());
    let pool = MemoryIdPool::with_available(&[]);
    assert!(pool.is_empty());
}

#[test]
fn memory_id_pool_len() {
    let mut pool = MemoryIdPool::new();
    assert_eq!(pool.len(), 65536);
    assert!(pool.get_id().is_some());
    assert_eq!(pool.len(), 65535);
    assert!(pool.get_id().is_some());
    assert_eq!(pool.len(), 65534);
    let pool = MemoryIdPool::with_available(&[]);
    assert_eq!(pool.len(), 0);
}

#[test]
fn memory_id_pool_clear() {
    let mut pool = MemoryIdPool::with_available(&[]);
    assert_eq!(pool.len(), 0);
    pool.clear();
    assert_eq!(pool.len(), 65536);
}

#[test]
fn memory_id_pool_get_id() {
    let mut pool = MemoryIdPool::new();
    for _ in 0..=u16::MAX {
        let id = pool.get_id().unwrap();
        assert!(!pool.contains(id));
    }
    assert!(pool.get_id().is_none());
}

#[test]
fn memory_id_pool_return_id() {
    let mut pool = MemoryIdPool::with_available(&[]);
    for id in 0..=u16::MAX {
        assert!(!pool.contains(id));
        assert!(pool.return_id(id));
        assert!(pool.contains(id));
    }
    for id in 0..=u16::MAX {
        assert!(pool.contains(id));
        assert!(!pool.return_id(id));
        assert!(pool.contains(id));
    }
}

#[test]
fn drained_pool_hands_out_every_id_once() {
    let mut pool = MemoryIdPool::new();
    let mut seen = vec![false; 65536];
    for _ in 0..65536 {
        let id = pool.get_id().unwrap();
        assert!(!seen[id as usize]);
        seen[id as usize] = true;
    }
    assert!(seen.iter().all(|s| *s));
    assert!(pool.is_empty());
    assert_eq!(pool.get_id(), None);
    assert_eq!(pool.get_id(), None);
    assert_eq!(pool.len(), 0);
}

#[test]
fn returned_id_is_handed_out_again() {
    let mut pool = MemoryIdPool::with_available(&[]);
    assert_eq!(pool.get_id(), None);
    assert!(pool.return_id(42));
    assert_eq!(pool.len(), 1);
    assert_eq!(pool.get_id(), Some(42));
    assert_eq!(pool.get_id(), None);
}

#[test]
fn double_return_of_free_id_is_refused() {
    let mut pool = MemoryIdPool::new();
    assert!(!pool.return_id(7));
    assert!(!pool.return_id(7));
    assert_eq!(pool.len(), 65536);
    let id = pool.get_id().unwrap();
    assert_eq!(pool.len(), 65535);
    assert!(pool.return_id(id));
    assert!(!pool.return_id(id));
    assert!(!pool.return_id(id));
    assert_eq!(pool.len(), 65536);
}

#[test]
fn reserve_takes_one_chosen_id() {
    let mut pool = MemoryIdPool::new();
    assert!(pool.reserve(3));
    assert!(!pool.contains(3));
    assert!(!pool.reserve(3));
    assert_eq!(pool.len(), 65535);
    assert!(pool.return_id(3));
    assert!(pool.contains(3));
}

#[test]
fn with_available_ignores_repeats() {
    let pool = MemoryIdPool::with_available(&[5, 5, 9]);
    assert_eq!(pool.len(), 2);
    assert!(pool.contains(5));
    assert!(pool.contains(9));
    assert!(!pool.contains(0));
}

#[test]
fn cloned_pool_has_the_same_free_ids() {
    let mut pool = MemoryIdPool::with_available(&[1, 2, 3]);
    let mut copy = pool.clone();
    assert_eq!(copy.len(), 3);
    assert!(copy.contains(1) && copy.contains(2) && copy.contains(3));
    assert!(copy.reserve(2));
    assert!(pool.contains(2));
    pool.clear();
    assert_eq!(copy.len(), 2);
}
