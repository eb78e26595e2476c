use std::hash::{BuildHasher, Hasher};

use sparse_map::SparseMap;

/// A hash strategy that sends every key to the same hash.
#[derive(Clone, Default)]
struct Fixed(u64);

struct FixedHasher(u64);

impl Hasher for FixedHasher {
    fn finish(&self) -> u64 {
        self.0
    }

    fn write(&mut self, _bytes: &[u8]) {}
}

impl BuildHasher for Fixed {
    type Hasher = FixedHasher;

    fn build_hasher(&self) -> FixedHasher {
        FixedHasher(self.0)
    }
}

#[test]
fn insert_get_overwrite_scenario() {
    let mut m: SparseMap<&str, i32> = SparseMap::default();
    assert_eq!(m.insert("a", 1), None);
    assert_eq!(m.get(&"a"), Some(&1));
    assert_eq!(m.insert("a", 2), Some(1));
    assert_eq!(m.get(&"a"), Some(&2));
    assert_eq!(m.get(&"b"), None);
}

#[test]
fn forced_collision_scenario() {
    let h: u64 = 1000;
    let mut m: SparseMap<&str, i32, Fixed> = SparseMap::with_hasher(Fixed(h));
    assert_eq!(m.insert("x", 10), None);
    assert_eq!(m.insert("y", 20), None);
    assert_eq!(m.get(&"x"), Some(&10));
    assert_eq!(m.get(&"y"), Some(&20));
    assert_eq!(m.raw_entry(&"x"), (h, Some(&10)));
    assert_eq!(m.raw_entry(&"y"), (h + 1, Some(&20)));
    assert_eq!(m.raw_entry(&"z"), (h + 2, None));
}

#[test]
fn collision_wraps_past_the_last_index() {
    let mut m: SparseMap<&str, i32, Fixed> = SparseMap::with_hasher(Fixed(u64::MAX));
    m.insert("x", 10);
    m.insert("y", 20);
    assert_eq!(m.raw_entry(&"x"), (u64::MAX, Some(&10)));
    assert_eq!(m.raw_entry(&"y"), (0, Some(&20)));
    assert_eq!(m.insert("y", 21), Some(20));
    assert_eq!(m.get(&"y"), Some(&21));
}

#[test]
fn colliding_keys_in_either_order() {
    let mut a: SparseMap<String, u32, Fixed> = SparseMap::with_hasher(Fixed(7));
    let mut b: SparseMap<String, u32, Fixed> = SparseMap::with_hasher(Fixed(7));
    a.insert(String::from("p"), 1);
    a.insert(String::from("q"), 2);
    b.insert(String::from("q"), 2);
    b.insert(String::from("p"), 1);
    for m in [&a, &b] {
        assert_eq!(m.get(&String::from("p")), Some(&1));
        assert_eq!(m.get(&String::from("q")), Some(&2));
        assert_eq!(m.get(&String::from("r")), None);
    }
    assert_eq!(a.raw_entry(&String::from("p")).0, 7);
    assert_eq!(b.raw_entry(&String::from("q")).0, 7);
}

#[test]
fn explicit_hash_probing() {
    let mut m: SparseMap<u32, &str> = SparseMap::default();
    assert_eq!(m.insert_hashed(5, 1, "one"), None);
    assert_eq!(m.insert_hashed(5, 2, "two"), None);
    assert_eq!(m.insert_hashed(6, 3, "three"), None);
    assert_eq!(m.probe(5, &1), (5, Some(&"one")));
    assert_eq!(m.probe(5, &2), (6, Some(&"two")));
    assert_eq!(m.probe(6, &3), (7, Some(&"three")));
    assert_eq!(m.get_hashed(5, &4), None);
    assert_eq!(m.probe(5, &4), (8, None));
    assert_eq!(m.insert_hashed(5, 2, "deux"), Some("two"));
    assert_eq!(m.get_hashed(5, &2), Some(&"deux"));
}

#[test]
fn copies_of_a_map_are_independent() {
    let mut a: SparseMap<&str, i32> = SparseMap::default();
    a.insert("k", 1);
    let mut b = a.clone();
    b.insert("k", 2);
    b.insert("l", 3);
    assert_eq!(a.get(&"k"), Some(&1));
    assert_eq!(a.get(&"l"), None);
    assert_eq!(b.get(&"k"), Some(&2));
}

#[test]
fn many_keys_stay_reachable() {
    let mut m: SparseMap<u64, u64> = SparseMap::default();
    for i in 0..5000u64 {
        assert_eq!(m.insert(i * 31, i), None);
    }
    for i in 0..5000u64 {
        assert_eq!(m.get(&(i * 31)), Some(&i));
    }
    assert_eq!(m.get(&1), None);
}
