use persistent_maps::{List, ListIterator};

fn collect(mut it: ListIterator<'_, i32>) -> Vec<i32> {
    let mut out = Vec::new();
    while let Some(x) = it.next() {
        out.push(*x);
    }
    out
}

#[test]
fn list_new() {
    List::<()>::new();
}

#[test]
fn list_equal() {
    assert_ne!(List::new(), List::new().push_front(42));
    assert_eq!(List::<()>::new(), List::new());
    assert_eq!(List::new().push_front(42), List::new().push_front(42));
}

#[test]
fn ord() {
    assert!(List::new() < List::new().push_front(1));
    assert!(List::new().push_front(1) < List::new().push_front(2));
    assert!(List::new().push_front(1) < List::new().push_front(1).push_front(1));
    assert!(List::new().push_front(1).push_front(1) < List::new().push_front(2).push_front(1));
}

#[test]
fn list_len() {
    assert_eq!(List::<()>::new().len(), 0);
    assert_eq!(List::new().push_front(42).len(), 1);
    assert_eq!(List::new().push_front(42).push_front(42).len(), 2);
}

#[test]
fn list_is_empty() {
    assert!(List::<()>::new().is_empty());
    assert!(!List::new().push_front(42).is_empty());
}

#[test]
fn list_contains() {
    assert!(List::new().push_front(1).push_front(2).contains(&2),);
}

#[test]
fn list_into_iter() {
    assert_eq!(collect(List::new().push_front(1).push_front(2).iter()), vec![2, 1]);
}

#[test]
fn list_from_iter() {
    assert_eq!(List::from_vec(vec![1, 2]), List::new().push_front(1).push_front(2));
}

#[test]
fn list_contains_missing() {
    assert!(!List::new().push_front(1).push_front(2).contains(&3));
    assert!(!List::<i32>::new().contains(&1));
}

#[test]
fn push_then_pop_gives_back_the_list() {
    let list = List::new().push_front(1).push_front(2);
    let pushed = list.push_front(3);
    assert_eq!(pushed.len(), list.len() + 1);
    let popped = pushed.pop_front();
    assert_eq!(popped, list);
    assert_eq!(popped.len(), pushed.len() - 1);
}

#[test]
fn pop_front_on_empty_gives_empty() {
    let empty = List::<i32>::new();
    assert_eq!(empty.pop_front(), List::new());
    assert_eq!(empty.pop_front().len(), 0);
}

#[test]
fn older_handles_stay_unchanged() {
    let base = List::new().push_front(1);
    let derived = base.push_front(2);
    assert_eq!(collect(base.iter()), vec![1]);
    assert_eq!(collect(derived.iter()), vec![2, 1]);
}

#[test]
fn push_front_many_puts_last_item_first() {
    let list = List::new().push_front(0).push_front_many(vec![1, 2, 3]);
    assert_eq!(collect(list.iter()), vec![3, 2, 1, 0]);
    assert_eq!(list.len(), 4);
}

#[test]
fn walks_restart_from_the_front() {
    let list = List::new().push_front(1).push_front(2);
    let mut first = list.iter();
    assert_eq!(first.next(), Some(&2));
    assert_eq!(collect(list.iter()), vec![2, 1]);
    assert_eq!(first.next(), Some(&1));
    assert_eq!(first.next(), None);
}

#[test]
fn clone_shares_the_list() {
    let list = List::new().push_front(5);
    let copy = list.clone();
    assert_eq!(copy, list);
    assert_eq!(List::<i32>::default(), List::new());
}
