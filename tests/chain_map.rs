use persistent_maps::ChainMap;

#[test]
fn chain_map_reads_overlay_then_head() {
    let map = ChainMap::new([(1, 2), (5, 6)].into_iter().collect()).insert(1, 3).insert(4, 4);
    assert_eq!(map.get(&1), Some(&3));
    assert_eq!(map.get(&5), Some(&6));
    assert_eq!(map.get(&7), None);
    assert_eq!(map.len(), 3);
    assert!(map.contains_key(&4));
    assert!(!map.is_empty());
    assert_eq!(*map.index(&5), 6);
}

#[test]
fn chain_map_walk_and_render() {
    let map = ChainMap::new([(9, 9)].into_iter().collect()).insert_many(vec![(1, 2), (3, 4)]);
    assert_eq!(map.entries(), vec![(&3, &4), (&1, &2), (&9, &9)]);
    assert_eq!(map.to_debug_string(), "{3: 4, 1: 2, 9: 9}");
    let mut it = map.iter();
    assert_eq!(it.next(), Some((&3, &4)));
    assert_eq!(it.next(), Some((&1, &2)));
    assert_eq!(it.next(), Some((&9, &9)));
    assert_eq!(it.next(), None);
}

#[test]
fn chain_map_equality_and_sharing() {
    let a = ChainMap::<i32, i32>::from_vec(vec![(1, 1), (2, 2)]);
    let b = ChainMap::new(Default::default()).insert(2, 2).insert(1, 1);
    assert_eq!(a, b);
    let c = a.insert(1, 7);
    assert_ne!(a, c);
    assert_eq!(a.get(&1), Some(&1));
    assert_eq!(ChainMap::<i32, i32>::default().len(), 0);
    assert_eq!(a.clone(), a);
}
