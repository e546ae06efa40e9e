use flat_map::FlatMap;
use std::cmp::Ordering;

fn map_of(pairs: &[(u64, u64)]) -> FlatMap<u64, u64> {
    let mut m = FlatMap::new();
    for (k, v) in pairs {
        m.insert(*k, *v);
    }
    m
}

#[test]
fn maps_with_same_pairs_are_equal() {
    let a = map_of(&[(1, 10), (2, 20)]);
    let b = map_of(&[(2, 20), (1, 10)]);
    assert!(a == b);
    assert!(!(a != b));
}

#[test]
fn maps_with_different_pairs_are_unequal() {
    let a = map_of(&[(1, 10), (2, 20)]);
    assert!(a != map_of(&[(1, 10)]));
    assert!(a != map_of(&[(1, 10), (2, 21)]));
    assert!(a != map_of(&[(1, 10), (3, 20)]));
    assert!(map_of(&[]) == map_of(&[]));
}

#[test]
fn maps_are_ordered_lexicographically() {
    let a = map_of(&[(1, 10), (2, 20)]);
    assert_eq!(a.partial_cmp(&map_of(&[(1, 10), (2, 20)])), Some(Ordering::Equal));
    assert_eq!(a.partial_cmp(&map_of(&[(1, 10), (2, 21)])), Some(Ordering::Less));
    assert_eq!(a.partial_cmp(&map_of(&[(1, 10)])), Some(Ordering::Greater));
    assert_eq!(a.partial_cmp(&map_of(&[(1, 10), (2, 20), (3, 0)])), Some(Ordering::Less));
    assert_eq!(a.partial_cmp(&map_of(&[(0, 99), (5, 0)])), Some(Ordering::Greater));
    assert_eq!(map_of(&[]).partial_cmp(&map_of(&[])), Some(Ordering::Equal));
    assert!(a < map_of(&[(1, 11)]));
    assert!(a >= map_of(&[(1, 10)]));
}

#[test]
fn clone_holds_the_same_pairs() {
    let a = map_of(&[(4, 40), (1, 10)]);
    let b = a.clone();
    assert!(a == b);
    assert_eq!(b.into_inner(), vec![(1, 10), (4, 40)]);
    assert_eq!(a.as_slice().to_vec(), vec![(1, 10), (4, 40)]);
}

#[test]
fn cmp_orders_maps_totally() {
    let a = map_of(&[(1, 10), (2, 20)]);
    assert_eq!(a.cmp(&map_of(&[(1, 10), (2, 20)])), Ordering::Equal);
    assert_eq!(a.cmp(&map_of(&[(1, 10), (2, 19)])), Ordering::Greater);
    assert_eq!(a.cmp(&map_of(&[(1, 10), (2, 20), (3, 30)])), Ordering::Less);
    assert_eq!(a.cmp(&map_of(&[(2, 0)])), Ordering::Less);
    assert_eq!(a.cmp(&map_of(&[])), Ordering::Greater);
}
