use flat_map::lookup::{BinarySearch, LinearBack, LinearFront, Lookup};
use flat_map::map::{has_room, FlatMap};

fn sample() -> FlatMap<u64, &'static str> {
    let mut m = FlatMap::new();
    m.insert(3, "c");
    m.insert(1, "a");
    m.insert(2, "b");
    m
}

fn strictly_ascending(pairs: &[(u64, &'static str)]) -> bool {
    pairs.windows(2).all(|w| w[0].0 < w[1].0)
}

#[test]
fn new_map_is_empty() {
    let m: FlatMap<u64, u64> = FlatMap::new();
    assert_eq!(m.len(), 0);
    assert!(m.is_empty());
    assert_eq!(m.into_inner(), vec![]);
}

#[test]
fn with_capacity_reserves_room() {
    let m: FlatMap<u64, u64> = FlatMap::with_capacity(10);
    assert!(m.capacity() >= 10);
    assert!(m.is_empty());
}

#[test]
fn default_map_is_empty() {
    let m: FlatMap<u64, u64, LinearBack> = FlatMap::default();
    assert_eq!(m.len(), 0);
}

#[test]
fn reserve_exact_makes_room_and_keeps_pairs() {
    let mut m = sample();
    m.reserve_exact(50);
    assert!(m.capacity() >= 53);
    assert_eq!(m.into_inner(), vec![(1, "a"), (2, "b"), (3, "c")]);
}

#[test]
fn reserve_makes_room_and_keeps_pairs() {
    let mut m = sample();
    m.reserve(20);
    assert!(m.capacity() >= 23);
    assert_eq!(m.len(), 3);
}

#[test]
fn shrink_to_fit_keeps_pairs() {
    let mut m: FlatMap<u64, &'static str> = FlatMap::with_capacity(100);
    m.insert(2, "b");
    m.insert(1, "a");
    m.shrink_to_fit();
    assert!(m.capacity() >= 2);
    assert_eq!(m.into_inner(), vec![(1, "a"), (2, "b")]);
}

#[test]
fn insert_keeps_keys_ascending() {
    let mut m: FlatMap<u64, &'static str> = FlatMap::new();
    for (i, k) in [5u64, 1, 9, 3, 7, 1, 9, 0, 4].iter().enumerate() {
        m.insert(*k, "x");
        if i % 3 == 2 {
            m.remove(&5);
        }
        let pairs = m.clone().into_inner();
        assert!(strictly_ascending(&pairs));
    }
    let keys: Vec<u64> = m.into_inner().into_iter().map(|p| p.0).collect();
    assert_eq!(keys, vec![0, 1, 3, 4, 7, 9]);
}

#[test]
fn insert_returns_previous_value() {
    let mut m: FlatMap<u64, &'static str> = FlatMap::new();
    assert_eq!(m.insert(1, "a"), None);
    assert_eq!(m.len(), 1);
    assert_eq!(m.insert(2, "b"), None);
    assert_eq!(m.len(), 2);
    assert_eq!(m.insert(1, "z"), Some("a"));
    assert_eq!(m.len(), 2);
    assert_eq!(m.get(&1), Some(&"z"));
}

#[test]
fn lookups_are_empty_iff_absent() {
    let mut m = sample();
    assert_eq!(m.get(&2), Some(&"b"));
    assert_eq!(m.get(&4), None);
    assert!(m.contains_key(&3));
    assert!(!m.contains_key(&0));
    assert_eq!(m.remove(&1), Some("a"));
    assert_eq!(m.remove(&1), None);
    assert!(!m.contains_key(&1));
}

#[test]
fn iteration_is_in_key_order() {
    let m = sample();
    let mut it = m.iter();
    let mut forward = Vec::new();
    while let Some((k, v)) = it.next() {
        forward.push((*k, *v));
    }
    assert_eq!(forward, vec![(1, "a"), (2, "b"), (3, "c")]);
    let mut it = m.iter();
    let mut backward = Vec::new();
    while let Some((k, v)) = it.next_back() {
        backward.push((*k, *v));
    }
    assert_eq!(backward, vec![(3, "c"), (2, "b"), (1, "a")]);
}

#[test]
fn removing_absent_key_changes_nothing() {
    let mut m = sample();
    assert_eq!(m.remove(&7), None);
    assert_eq!(m.len(), 3);
    assert_eq!(m.into_inner(), vec![(1, "a"), (2, "b"), (3, "c")]);
}

#[test]
fn split_off_at_present_key() {
    let mut m: FlatMap<u64, u64> = FlatMap::new();
    for k in 1..=5u64 {
        m.insert(k, k * 10);
    }
    let tail = m.split_off(&3);
    assert_eq!(m.clone().into_inner(), vec![(1, 10), (2, 20)]);
    assert_eq!(tail.clone().into_inner(), vec![(3, 30), (4, 40), (5, 50)]);
    let mut all = m.into_inner();
    all.extend(tail.into_inner());
    assert_eq!(all, vec![(1, 10), (2, 20), (3, 30), (4, 40), (5, 50)]);
}

#[test]
fn split_off_at_absent_key() {
    let mut m: FlatMap<u64, u64> = FlatMap::new();
    for k in [10u64, 20, 30, 40] {
        m.insert(k, k);
    }
    let tail = m.split_off(&25);
    assert_eq!(m.into_inner(), vec![(10, 10), (20, 20)]);
    assert_eq!(tail.into_inner(), vec![(30, 30), (40, 40)]);
}

#[test]
fn split_off_at_the_ends() {
    let mut m = sample();
    let tail = m.split_off(&9);
    assert!(tail.is_empty());
    assert_eq!(m.len(), 3);
    let tail = m.split_off(&0);
    assert!(m.is_empty());
    assert_eq!(tail.into_inner(), vec![(1, "a"), (2, "b"), (3, "c")]);
}

#[test]
fn append_moves_every_pair_and_later_value_stays() {
    let mut a = sample();
    let mut b: FlatMap<u64, &'static str> = FlatMap::new();
    b.insert(2, "B");
    b.insert(0, "zero");
    b.insert(8, "h");
    a.append(&mut b);
    assert!(b.is_empty());
    assert_eq!(
        a.into_inner(),
        vec![(0, "zero"), (1, "a"), (2, "B"), (3, "c"), (8, "h")]
    );
}

#[test]
fn extend_inserts_in_order_given() {
    let mut m = sample();
    m.extend(vec![(5, "e"), (1, "first"), (1, "second"), (4, "d")]);
    assert_eq!(
        m.into_inner(),
        vec![(1, "second"), (2, "b"), (3, "c"), (4, "d"), (5, "e")]
    );
}

#[test]
fn from_iter_keeps_first_of_duplicates() {
    let m = FlatMap::from_iter(vec![(1u64, "a"), (1, "b")]);
    assert_eq!(m.len(), 1);
    assert_eq!(m.get(&1), Some(&"a"));
}

#[test]
fn from_iter_sorts_pairs() {
    let m = FlatMap::from_iter(vec![(4u64, "d"), (2, "b"), (9, "i"), (2, "x"), (1, "a"), (9, "y")]);
    assert_eq!(m.into_inner(), vec![(1, "a"), (2, "b"), (4, "d"), (9, "i")]);
}

#[test]
fn get_mut_changes_value_in_place() {
    let mut m = sample();
    if let Some(v) = m.get_mut(&2) {
        *v = "changed";
    }
    assert!(m.get_mut(&42).is_none());
    assert_eq!(m.into_inner(), vec![(1, "a"), (2, "changed"), (3, "c")]);
}

#[test]
fn index_returns_value_of_present_key() {
    let m = sample();
    assert_eq!(*m.index(&3), "c");
}

#[test]
fn clear_removes_every_pair() {
    let mut m = sample();
    m.clear();
    assert!(m.is_empty());
    assert_eq!(m.get(&1), None);
}

#[test]
fn strategies_give_the_same_answers() {
    let pairs: Vec<(u64, u8)> = vec![(2, 0), (4, 0), (6, 0), (8, 0), (10, 0), (12, 0), (14, 0)];
    for len in 0..=pairs.len() {
        let slice = &pairs[..len];
        for q in 0u64..=16 {
            let a = BinarySearch.lookup(slice, &q);
            let b = LinearFront.lookup(slice, &q);
            let c = LinearBack.lookup(slice, &q);
            assert_eq!(a, b);
            assert_eq!(b, c);
            assert_eq!(a, slice.binary_search_by(|p| p.0.cmp(&q)));
        }
    }
}

#[test]
fn strategies_find_and_miss() {
    let pairs: Vec<(u64, u8)> = vec![(10, 1), (20, 2), (30, 3)];
    assert_eq!(BinarySearch.lookup(&pairs, &20), Ok(1));
    assert_eq!(LinearFront.lookup(&pairs, &5), Err(0));
    assert_eq!(LinearBack.lookup(&pairs, &35), Err(3));
    assert_eq!(LinearFront.lookup(&pairs, &25), Err(2));
    assert_eq!(LinearBack.lookup(&pairs, &10), Ok(0));
}

#[test]
fn maps_with_each_strategy_agree() {
    let keys = [7u64, 3, 9, 1, 3, 8, 2, 7];
    let mut a: FlatMap<u64, usize, BinarySearch> = FlatMap::with_lookup(BinarySearch);
    let mut b: FlatMap<u64, usize, LinearFront> = FlatMap::with_lookup(LinearFront);
    let mut c: FlatMap<u64, usize, LinearBack> = FlatMap::with_lookup(LinearBack);
    for (i, k) in keys.iter().enumerate() {
        let ra = a.insert(*k, i);
        assert_eq!(ra, b.insert(*k, i));
        assert_eq!(ra, c.insert(*k, i));
    }
    assert_eq!(a.remove(&9), b.remove(&9));
    assert_eq!(c.remove(&9), Some(2));
    let expected = vec![(1, 3), (2, 6), (3, 4), (7, 7), (8, 5)];
    assert_eq!(a.into_inner(), expected);
    assert_eq!(b.into_inner(), expected);
    assert_eq!(c.into_inner(), expected);
}

#[test]
fn from_iter_of_nothing_is_empty() {
    let m: FlatMap<u64, u64> = FlatMap::from_iter(vec![]);
    assert!(m.is_empty());
}

#[test]
fn append_of_empty_map_changes_nothing() {
    let mut a = sample();
    let mut b: FlatMap<u64, &'static str> = FlatMap::new();
    a.append(&mut b);
    assert_eq!(a.into_inner(), vec![(1, "a"), (2, "b"), (3, "c")]);
}

#[test]
fn has_room_tells_what_a_vector_can_be_asked() {
    assert!(has_room::<(u64, u64)>(0));
    assert!(has_room::<(u64, u64)>(10));
    assert!(has_room::<(u64, u64)>(isize::MAX as usize / 16));
    assert!(!has_room::<(u64, u64)>(isize::MAX as usize / 16 + 1));
    assert!(!has_room::<(u64, u64)>(usize::MAX));
    assert!(has_room::<u8>(isize::MAX as usize));
    assert!(!has_room::<u8>(isize::MAX as usize + 1));
    assert!(has_room::<((), ())>(usize::MAX));
}

#[test]
fn append_into_empty_map_takes_every_pair() {
    let mut a: FlatMap<u64, &'static str> = FlatMap::new();
    let mut b = sample();
    a.append(&mut b);
    assert!(b.is_empty());
    assert_eq!(a.into_inner(), vec![(1, "a"), (2, "b"), (3, "c")]);
}
