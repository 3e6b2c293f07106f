//! Tests of the primary entity map.

use lpc_lpir::{BlockEntity as Block, EntityRef, InstEntity as Inst, PrimaryMap};

#[test]
fn test_primary_map_basic() {
    let mut map: PrimaryMap<Block, i32> = PrimaryMap::new();

    let b1 = map.push(10);
    let b2 = map.push(20);
    let b3 = map.push(30);

    assert_eq!(map.get(b1), Some(&10));
    assert_eq!(map.get(b2), Some(&20));
    assert_eq!(map.get(b3), Some(&30));
    assert_eq!(map.len(), 3);
}

#[test]
fn test_primary_map_capacity() {
    let map: PrimaryMap<Block, i32> = PrimaryMap::with_capacity(100);
    assert!(map.capacity() >= 100);
    assert_eq!(map.len(), 0);
}

#[test]
fn test_primary_map_iteration() {
    let mut map: PrimaryMap<Block, i32> = PrimaryMap::new();
    map.push(10);
    map.push(20);
    map.push(30);

    let mut items: Vec<_> = map.iter();
    items.sort_by_key(|(k, _)| k.index());

    assert_eq!(items.len(), 3);
    assert_eq!(items[0].1, &10);
    assert_eq!(items[1].1, &20);
    assert_eq!(items[2].1, &30);
}

#[test]
fn test_primary_map_type_safety() {
    let mut block_map: PrimaryMap<Block, i32> = PrimaryMap::new();
    let mut inst_map: PrimaryMap<Inst, i32> = PrimaryMap::new();

    let b1 = block_map.push(100);
    let i1 = inst_map.push(200);

    assert_eq!(block_map.get(b1), Some(&100));
    assert_eq!(inst_map.get(i1), Some(&200));

    assert_eq!(b1.index(), 0);
    assert_eq!(i1.index(), 0);
}

#[test]
fn test_primary_map_growth() {
    let mut map: PrimaryMap<Block, i32> = PrimaryMap::new();

    for i in 0..100 {
        map.push(i);
    }

    assert_eq!(map.len(), 100);
    for i in 0..100 {
        let key = <Block as EntityRef>::from_index(i);
        assert_eq!(map.get(key), Some(&(i as i32)));
    }
}

#[test]
fn test_primary_map_empty() {
    let map: PrimaryMap<Block, i32> = PrimaryMap::new();
    assert!(map.is_empty());
    assert_eq!(map.len(), 0);
}

#[test]
fn test_primary_map_get_mut() {
    let mut map: PrimaryMap<Block, i32> = PrimaryMap::new();
    let b1 = map.push(10);

    if let Some(value) = map.get_mut(b1) {
        *value = 42;
    }

    assert_eq!(map.get(b1), Some(&42));
}

#[test]
fn test_primary_map_values() {
    let mut map: PrimaryMap<Block, i32> = PrimaryMap::new();
    map.push(10);
    map.push(20);
    map.push(30);

    let values: Vec<_> = map.values().iter().copied().collect();
    assert_eq!(values, vec![10, 20, 30]);
}

#[test]
fn test_primary_map_values_mut() {
    let mut map: PrimaryMap<Block, i32> = PrimaryMap::new();
    map.push(10);
    map.push(20);

    for value in map.values_mut() {
        *value *= 2;
    }

    assert_eq!(map.get(<Block as EntityRef>::from_index(0)), Some(&20));
    assert_eq!(map.get(<Block as EntityRef>::from_index(1)), Some(&40));
}

#[test]
fn test_primary_map_clear() {
    let mut map: PrimaryMap<Block, i32> = PrimaryMap::new();
    map.push(10);
    map.push(20);

    assert_eq!(map.len(), 2);
    map.clear();
    assert_eq!(map.len(), 0);
    assert!(map.is_empty());
}

#[test]
fn test_primary_map_reserve() {
    let mut map: PrimaryMap<Block, i32> = PrimaryMap::new();
    let initial_capacity = map.capacity();

    map.reserve(100);
    assert!(map.capacity() >= initial_capacity + 100);
}

#[test]
fn test_primary_map_default() {
    let map: PrimaryMap<Block, i32> = PrimaryMap::default();
    assert!(map.is_empty());
}
