use flat_map::entry::Entry;
use flat_map::lookup::{BinarySearch, Lookup};
use flat_map::map::FlatMap;
use std::cell::Cell;
use std::rc::Rc;

#[derive(Clone)]
struct Counting {
    probes: Rc<Cell<usize>>,
}

impl Lookup<u64, &'static str> for Counting {
    fn lookup(&self, slice: &[(u64, &'static str)], key: &u64) -> Result<usize, usize> {
        self.probes.set(self.probes.get() + 1);
        BinarySearch.lookup(slice, key)
    }
}

#[test]
fn or_insert_on_absent_key_searches_once() {
    let probes = Rc::new(Cell::new(0));
    let mut m: FlatMap<u64, &'static str, Counting> =
        FlatMap::with_lookup(Counting { probes: probes.clone() });
    m.insert(1, "a");
    m.insert(5, "e");
    let before = probes.get();
    let v = m.entry(3).or_insert("c");
    assert_eq!(*v, "c");
    assert_eq!(probes.get(), before + 1);
    assert_eq!(m.len(), 3);
    assert_eq!(m.into_inner(), vec![(1, "a"), (3, "c"), (5, "e")]);
}

#[test]
fn or_insert_on_present_key_keeps_value() {
    let mut m: FlatMap<u64, &'static str> = FlatMap::new();
    m.insert(3, "c");
    let v = m.entry(3).or_insert("other");
    assert_eq!(*v, "c");
    *v = "C";
    assert_eq!(m.into_inner(), vec![(3, "C")]);
}

#[test]
fn or_insert_with_calls_producer_only_when_vacant() {
    let mut m: FlatMap<u64, u64> = FlatMap::new();
    let mut calls = 0;
    *m.entry(4).or_insert_with(|| {
        calls += 1;
        40
    }) += 1;
    *m.entry(4).or_insert_with(|| {
        calls += 1;
        99
    }) += 1;
    assert_eq!(calls, 1);
    assert_eq!(m.into_inner(), vec![(4, 42)]);
}

#[test]
fn vacant_entry_inserts_at_sorted_position() {
    let mut m: FlatMap<u64, &'static str> = FlatMap::new();
    m.insert(1, "a");
    m.insert(9, "i");
    match m.entry(4) {
        Entry::Vacant(e) => {
            let v = e.insert("d");
            assert_eq!(*v, "d");
        }
        Entry::Occupied(_) => panic!("key 4 is absent"),
    }
    assert_eq!(m.into_inner(), vec![(1, "a"), (4, "d"), (9, "i")]);
}

#[test]
fn occupied_entry_reads_and_replaces() {
    let mut m: FlatMap<u64, &'static str> = FlatMap::new();
    m.insert(1, "a");
    m.insert(2, "b");
    match m.entry(2) {
        Entry::Occupied(mut e) => {
            assert_eq!(*e.key(), 2);
            assert_eq!(*e.get(), "b");
            assert_eq!(e.insert("B"), "b");
            *e.get_mut() = "bb";
            assert_eq!(*e.get(), "bb");
        }
        Entry::Vacant(_) => panic!("key 2 is present"),
    }
    assert_eq!(m.into_inner(), vec![(1, "a"), (2, "bb")]);
}

#[test]
fn occupied_entry_removes_its_pair() {
    let mut m: FlatMap<u64, &'static str> = FlatMap::new();
    m.insert(1, "a");
    m.insert(2, "b");
    m.insert(3, "c");
    match m.entry(2) {
        Entry::Occupied(e) => assert_eq!(e.remove(), "b"),
        Entry::Vacant(_) => panic!("key 2 is present"),
    }
    assert_eq!(m.into_inner(), vec![(1, "a"), (3, "c")]);
}

#[test]
fn occupied_entry_into_mut_outlives_the_entry() {
    let mut m: FlatMap<u64, u64> = FlatMap::new();
    m.insert(7, 70);
    let v = match m.entry(7) {
        Entry::Occupied(e) => e.into_mut(),
        Entry::Vacant(_) => panic!("key 7 is present"),
    };
    *v += 1;
    assert_eq!(m.get(&7), Some(&71));
}

#[test]
fn entry_given_up_leaves_map_as_it_is() {
    let mut m: FlatMap<u64, &'static str> = FlatMap::new();
    m.insert(1, "a");
    match m.entry(2) {
        Entry::Vacant(e) => e.finish(),
        Entry::Occupied(_) => panic!("key 2 is absent"),
    }
    match m.entry(1) {
        Entry::Occupied(mut e) => {
            e.insert("A");
            e.finish();
        }
        Entry::Vacant(_) => panic!("key 1 is present"),
    }
    assert_eq!(m.into_inner(), vec![(1, "A")]);
}
