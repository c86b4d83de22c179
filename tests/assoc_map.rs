use persistent_maps::assoc_map::render_entries;
use persistent_maps::AssocMap;
use std::collections::HashSet;

#[test]
fn map_new() {
    AssocMap::<(), ()>::new();
}

#[test]
fn map_equal() {
    assert_eq!(AssocMap::<(), ()>::new(), AssocMap::new());
    assert_ne!(AssocMap::new(), AssocMap::new().insert(42, 42));
    assert_eq!(AssocMap::new().insert(42, 42), AssocMap::new().insert(42, 42));
    assert_eq!(
        AssocMap::new().insert(42, 42),
        AssocMap::new().insert(42, 42).insert(42, 42)
    );
    assert_ne!(
        AssocMap::new().insert(1, 1),
        AssocMap::new().insert(1, 1).insert(2, 2)
    );
    assert_eq!(
        AssocMap::new().insert(2, 2).insert(1, 1),
        AssocMap::new().insert(1, 1).insert(2, 2)
    );
}

#[test]
fn map_len() {
    assert_eq!(AssocMap::<(), ()>::new().len(), 0);
    assert_eq!(AssocMap::new().insert(1, 1).len(), 1);
    assert_eq!(AssocMap::new().insert(1, 1).insert(1, 1).len(), 1);
    assert_eq!(AssocMap::new().insert(1, 1).insert(2, 2).len(), 2);
}

#[test]
fn map_is_empty() {
    assert!(AssocMap::<(), ()>::new().is_empty());
    assert!(!AssocMap::new().insert(1, 1).is_empty());
}

#[test]
fn map_get() {
    let map = AssocMap::new().insert(1, 2).insert(3, 4);

    assert_eq!(map.get(&1), Some(&2));
    assert_eq!(map.get(&3), Some(&4));
    assert_eq!(map.get(&4), None);
}

#[test]
fn map_contains() {
    assert!(AssocMap::new().insert(1, 1).insert(2, 2).contains_key(&2),);
}

#[test]
fn map_insert_many() {
    assert_eq!(
        AssocMap::new().insert(1, 1).insert(2, 2).entries(),
        AssocMap::new().insert_many(vec![(1, 1), (2, 2)]).entries(),
    );
}

#[test]
fn map_into_iter() {
    assert_eq!(
        AssocMap::new()
            .insert(1, 1)
            .insert(2, 2)
            .entries()
            .into_iter()
            .collect::<HashSet<_>>(),
        [(&1, &1), (&2, &2)].into_iter().collect()
    );
}

#[test]
fn map_into_iter_duplicates() {
    assert_eq!(AssocMap::new().insert(1, 1).insert(1, 1).entries().len(), 1);
}

#[test]
fn map_from_iter() {
    assert_eq!(
        AssocMap::from_vec(vec![(1, 1), (2, 2)]),
        AssocMap::from_vec(vec![(1, 1), (2, 2)]),
    );
}

#[test]
fn from_iter_duplicates() {
    assert_eq!(
        AssocMap::from_vec(vec![(1, 1), (2, 2)]),
        AssocMap::from_vec(vec![(1, 1), (2, 2), (1, 1)]),
    );
}

#[test]
fn independent_keys_do_not_shadow() {
    let map = AssocMap::new().insert(7, 70).insert(1, 10).insert(2, 20);
    assert_eq!(map.get(&1), Some(&10));
    assert_eq!(map.get(&2), Some(&20));
    assert_eq!(map.get(&7), Some(&70));
}

#[test]
fn repeated_insert_counts_once() {
    let map = AssocMap::new().insert(9, 9).insert(5, 6);
    assert_eq!(map.insert(5, 6).len(), map.len());
    assert_eq!(map.len(), 2);
}

#[test]
fn most_recent_insert_wins() {
    let map = AssocMap::new().insert(1, 10).insert(1, 20);
    assert_eq!(map.get(&1), Some(&20));
    assert_eq!(map.entries(), vec![(&1, &20)]);
    assert_eq!(map.values(), vec![&20]);
}

#[test]
fn distinct_and_repeated_keys_count() {
    let distinct = AssocMap::new().insert_many(vec![(1, 0), (2, 0), (3, 0), (4, 0)]);
    assert_eq!(distinct.len(), 4);
    let repeated = AssocMap::new().insert_many(vec![(1, 0), (1, 1), (1, 2), (1, 3)]);
    assert_eq!(repeated.len(), 1);
    assert_eq!(repeated.get(&1), Some(&3));
}

#[test]
fn from_vec_matches_folded_inserts() {
    let pairs = vec![(1, 1), (2, 2), (1, 3), (4, 4)];
    let built = AssocMap::from_vec(pairs.clone());
    let mut folded = AssocMap::new();
    for (k, v) in pairs {
        folded = folded.insert(k, v);
    }
    assert_eq!(built.entries(), folded.entries());
    assert_eq!(built.entries(), vec![(&4, &4), (&1, &3), (&2, &2)]);
    assert_eq!(built.keys(), vec![&4, &1, &2]);
}

#[test]
fn older_map_handles_stay_unchanged() {
    let m1 = AssocMap::new().insert(1, 1);
    let before = m1.entries().into_iter().map(|(k, v)| (*k, *v)).collect::<Vec<_>>();
    let m2 = m1.insert(1, 5).insert(2, 2);
    let after = m1.entries().into_iter().map(|(k, v)| (*k, *v)).collect::<Vec<_>>();
    assert_eq!(before, after);
    assert_eq!(m1.get(&1), Some(&1));
    assert_eq!(m1.get(&2), None);
    assert_eq!(m2.get(&1), Some(&5));
}

#[test]
fn equality_ignores_history() {
    let a = AssocMap::new().insert(1, 1).insert(2, 5).insert(2, 2);
    let b = AssocMap::new().insert(2, 2).insert(1, 7).insert(1, 1);
    assert_eq!(a, b);
    assert_ne!(a, AssocMap::new().insert(1, 1).insert(2, 3));
}

#[test]
fn walk_hands_out_each_key_once() {
    let map = AssocMap::new().insert(1, 1).insert(2, 2).insert(1, 3);
    let mut it = map.iter();
    assert_eq!(it.next(), Some((&1, &3)));
    assert_eq!(it.next(), Some((&2, &2)));
    assert_eq!(it.next(), None);
    assert!(!map.contains_key(&5));
    assert_eq!(AssocMap::<i32, i32>::default().len(), 0);
    assert_eq!(map.clone(), map);
}

#[test]
fn map_debug_lists_live_pairs_most_recent_first() {
    assert_eq!(AssocMap::<i32, i32>::new().to_debug_string(), "{}");
    assert_eq!(
        AssocMap::new().insert(1, 2).insert(3, 4).insert(1, 5).to_debug_string(),
        "{1: 5, 3: 4}"
    );
}

#[test]
fn map_index_reads_present_key() {
    let map = AssocMap::new().insert(1, 2).insert(1, 3);
    assert_eq!(*map.index(&1), 3);
}

#[test]
fn render_entries_lays_out_pairs_in_order() {
    assert_eq!(render_entries(Vec::new()), "{}");
    assert_eq!(
        render_entries(vec![
            ("3".to_string(), "4".to_string()),
            ("1".to_string(), "\"a\"".to_string()),
        ]),
        "{3: 4, 1: \"a\"}"
    );
}

#[test]
fn map_debug_renders_strings_with_debug() {
    let map = AssocMap::new().insert("k", "v");
    assert_eq!(map.to_debug_string(), "{\"k\": \"v\"}");
}
