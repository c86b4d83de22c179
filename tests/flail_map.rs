use persistent_maps::FlailMap;
use std::collections::{BTreeMap, HashSet};

fn render(map: &FlailMap<i32, i32>) -> String {
    map.to_debug_string()
}

#[test]
fn flail_map_new() {
    FlailMap::<(), ()>::new(Default::default());
}

#[test]
fn flail_map_equal() {
    assert_eq!(
        FlailMap::<(), ()>::new(Default::default()),
        FlailMap::new(Default::default())
    );
    assert_ne!(
        FlailMap::new(Default::default()),
        FlailMap::new(Default::default()).insert(42, 42)
    );
    assert_eq!(
        FlailMap::new(Default::default()).insert(42, 42),
        FlailMap::new(Default::default()).insert(42, 42)
    );
    assert_eq!(
        FlailMap::new(Default::default()).insert(42, 42),
        FlailMap::new(Default::default())
            .insert(42, 42)
            .insert(42, 42)
    );
    assert_ne!(
        FlailMap::new(Default::default()).insert(1, 1),
        FlailMap::new(Default::default()).insert(1, 1).insert(2, 2)
    );
    assert_eq!(
        FlailMap::new(Default::default()).insert(2, 2).insert(1, 1),
        FlailMap::new(Default::default()).insert(1, 1).insert(2, 2)
    );
    assert_eq!(
        FlailMap::new([(2, 2)].into_iter().collect()).insert(1, 1),
        FlailMap::new(Default::default()).insert(1, 1).insert(2, 2)
    );
    assert_eq!(
        FlailMap::new([(1, 1), (2, 2)].into_iter().collect()),
        FlailMap::new(Default::default()).insert(1, 1).insert(2, 2)
    );
}

#[test]
fn flail_map_len() {
    assert_eq!(FlailMap::<(), ()>::new(Default::default()).len(), 0);
    assert_eq!(FlailMap::new(Default::default()).insert(1, 1).len(), 1);
    assert_eq!(
        FlailMap::new(Default::default())
            .insert(1, 1)
            .insert(1, 1)
            .len(),
        1
    );
    assert_eq!(
        FlailMap::new(Default::default())
            .insert(1, 1)
            .insert(2, 2)
            .len(),
        2
    );
    assert_eq!(
        FlailMap::new([(1, 1)].into_iter().collect())
            .insert(1, 1)
            .len(),
        1
    );
    assert_eq!(
        FlailMap::new([(1, 1)].into_iter().collect())
            .insert(2, 2)
            .len(),
        2
    );
}

#[test]
fn flail_map_is_empty() {
    assert!(FlailMap::<(), ()>::new(Default::default()).is_empty());
    assert!(!FlailMap::new(Default::default()).insert(1, 1).is_empty());
    assert!(!FlailMap::new([(1, 1)].into_iter().collect()).is_empty());
}

#[test]
fn flail_map_get() {
    let map = FlailMap::new(Default::default()).insert(1, 2).insert(3, 4);

    assert_eq!(map.get(&1), Some(&2));
    assert_eq!(map.get(&3), Some(&4));
    assert_eq!(map.get(&4), None);
}

#[test]
fn flail_map_get_from_head() {
    let map = FlailMap::new([(1, 2)].into_iter().collect()).insert(3, 4);

    assert_eq!(map.get(&1), Some(&2));
    assert_eq!(map.get(&3), Some(&4));
    assert_eq!(map.get(&4), None);
}

#[test]
fn flail_map_contains() {
    assert!(FlailMap::new(Default::default())
        .insert(1, 1)
        .insert(2, 2)
        .contains_key(&2));
    assert!(FlailMap::new([(1, 1)].into_iter().collect())
        .insert(1, 1)
        .contains_key(&1));
    assert!(FlailMap::new([(1, 1)].into_iter().collect())
        .insert(2, 2)
        .contains_key(&2));
}

#[test]
fn flail_map_insert_many() {
    assert_eq!(
        FlailMap::new(Default::default())
            .insert(1, 1)
            .insert(2, 2)
            .entries(),
        FlailMap::new(Default::default())
            .insert_many(vec![(1, 1), (2, 2)])
            .entries(),
    );
}

#[test]
fn flail_map_into_iter() {
    assert_eq!(
        FlailMap::new(Default::default())
            .insert(1, 1)
            .insert(2, 2)
            .entries()
            .into_iter()
            .collect::<HashSet<_>>(),
        [(&1, &1), (&2, &2)].into_iter().collect()
    );
}

#[test]
fn flail_map_into_iter_duplicates() {
    assert_eq!(
        FlailMap::new(Default::default())
            .insert(1, 1)
            .insert(1, 1)
            .entries()
            .len(),
        1
    );
    assert_eq!(
        FlailMap::new([(1, 1)].into_iter().collect())
            .insert(1, 1)
            .insert(1, 1)
            .entries()
            .len(),
        1
    );
}

#[test]
fn flail_map_from_iter() {
    assert_eq!(
        FlailMap::from_vec(vec![(1, 1), (2, 2)]),
        FlailMap::from_vec(vec![(1, 1), (2, 2)]),
    );
}

#[test]
fn flail_map_debug() {
    assert_eq!(
        FlailMap::<(), ()>::new(Default::default()).to_debug_string(),
        "{}"
    );
    assert_eq!(
        render(&FlailMap::new(Default::default()).insert(1, 2)),
        "{1: 2}"
    );
    assert_eq!(
        render(&FlailMap::new(Default::default()).insert_many(vec![(1, 2), (3, 4)])),
        "{3: 4, 1: 2}"
    );
    assert_eq!(
        render(&FlailMap::new(Default::default()).insert_many(vec![(1, 2), (3, 4), (5, 6)])),
        "{5: 6, 3: 4, 1: 2}"
    );

    assert_eq!(
        render(&FlailMap::new([(5, 6)].into_iter().collect()).insert_many(vec![(3, 4), (1, 2)])),
        format!(
            "{:?}",
            BTreeMap::<_, _>::from_iter([(1, 2), (3, 4), (5, 6)])
        )
    );
}
