use flat_map::FlatMap;

fn sample() -> FlatMap<u64, &'static str> {
    let mut m = FlatMap::new();
    m.insert(3, "c");
    m.insert(1, "a");
    m.insert(2, "b");
    m
}

#[test]
fn iter_meets_in_the_middle() {
    let m = sample();
    let mut it = m.iter();
    assert_eq!(it.size_hint(), (3, Some(3)));
    assert_eq!(it.next(), Some((&1, &"a")));
    assert_eq!(it.next_back(), Some((&3, &"c")));
    assert_eq!(it.len(), 1);
    assert_eq!(it.next(), Some((&2, &"b")));
    assert_eq!(it.next(), None);
    assert_eq!(it.next_back(), None);
}

#[test]
fn iter_clone_restarts_independently() {
    let m = sample();
    let mut it = m.iter();
    it.next();
    let mut copy = it.clone();
    assert_eq!(it.next(), Some((&2, &"b")));
    assert_eq!(copy.next(), Some((&2, &"b")));
    assert_eq!(copy.next(), Some((&3, &"c")));
    assert_eq!(it.next(), Some((&3, &"c")));
}

#[test]
fn keys_come_in_ascending_order() {
    let m = sample();
    let mut keys = m.keys();
    assert_eq!(keys.size_hint(), (3, Some(3)));
    assert_eq!(keys.next(), Some(&1));
    assert_eq!(keys.next_back(), Some(&3));
    let mut copy = keys.clone();
    assert_eq!(keys.next(), Some(&2));
    assert_eq!(keys.next(), None);
    assert_eq!(copy.next_back(), Some(&2));
}

#[test]
fn values_come_in_key_order() {
    let m = sample();
    let mut values = m.values();
    assert_eq!(values.next(), Some(&"a"));
    assert_eq!(values.next_back(), Some(&"c"));
    assert_eq!(values.size_hint(), (1, Some(1)));
    assert_eq!(values.next(), Some(&"b"));
    assert_eq!(values.next_back(), None);
}

#[test]
fn into_iter_hands_out_pairs_by_value() {
    let m = sample();
    let mut it = m.into_iter();
    assert_eq!(it.size_hint(), (3, Some(3)));
    assert_eq!(it.next(), Some((1, "a")));
    assert_eq!(it.next_back(), Some((3, "c")));
    assert_eq!(it.next_back(), Some((2, "b")));
    assert_eq!(it.next(), None);
}

#[test]
fn iterators_over_empty_map_are_empty() {
    let m: FlatMap<u64, u64> = FlatMap::new();
    assert_eq!(m.iter().next(), None);
    assert_eq!(m.keys().next_back(), None);
    assert_eq!(m.values().next(), None);
    assert_eq!(m.into_iter().next(), None);
}

#[test]
fn iter_mut_changes_values_and_keeps_keys() {
    let mut m = sample();
    {
        let mut it = m.iter_mut();
        assert_eq!(it.size_hint(), (3, Some(3)));
        let (k, v) = it.next().unwrap();
        assert_eq!(*k, 1);
        *v = "A";
        let (k, v) = it.next_back().unwrap();
        assert_eq!(*k, 3);
        *v = "C";
        let (k, _) = it.next().unwrap();
        assert_eq!(*k, 2);
        assert!(it.next().is_none());
        assert!(it.next_back().is_none());
    }
    assert_eq!(m.into_inner(), vec![(1, "A"), (2, "b"), (3, "C")]);
}

#[test]
fn values_mut_changes_values_in_key_order() {
    let mut m: FlatMap<u64, u64> = FlatMap::new();
    m.insert(2, 20);
    m.insert(1, 10);
    m.insert(3, 30);
    {
        let mut values = m.values_mut();
        assert_eq!(values.len(), 3);
        *values.next().unwrap() += 1;
        *values.next_back().unwrap() += 3;
        assert_eq!(values.size_hint(), (1, Some(1)));
        *values.next_back().unwrap() += 2;
        assert!(values.next().is_none());
    }
    assert_eq!(m.into_inner(), vec![(1, 11), (2, 22), (3, 33)]);
}

#[test]
fn iter_mut_finished_early_leaves_the_rest() {
    let mut m = sample();
    let mut it = m.iter_mut();
    if let Some((_, v)) = it.next() {
        *v = "first";
    }
    it.finish();
    let mut values = m.values_mut();
    if let Some(v) = values.next_back() {
        *v = "last";
    }
    values.finish();
    assert_eq!(m.into_inner(), vec![(1, "first"), (2, "b"), (3, "last")]);
}
