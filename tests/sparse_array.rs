use sparse_map::SparseArray;

#[test]
fn empty_array_has_nothing() {
    let a: SparseArray<i32> = SparseArray::default();
    assert_eq!(a.get(0), None);
    assert_eq!(a.get(u64::MAX), None);
}

#[test]
fn get_after_set() {
    let mut a: SparseArray<&str> = SparseArray::new();
    assert_eq!(a.set(7, "seven"), None);
    assert_eq!(a.set(1 << 40, "far"), None);
    assert_eq!(a.set(u64::MAX, "last"), None);
    assert_eq!(a.get(7), Some(&"seven"));
    assert_eq!(a.get(1 << 40), Some(&"far"));
    assert_eq!(a.get(u64::MAX), Some(&"last"));
    assert_eq!(a.get(8), None);
    assert_eq!(a.get(0), None);
}

#[test]
fn overwrite_returns_previous_value() {
    let mut a: SparseArray<i32> = SparseArray::new();
    assert_eq!(a.set(42, 1), None);
    assert_eq!(a.set(42, 2), Some(1));
    assert_eq!(a.get(42), Some(&2));
}

#[test]
fn copies_are_independent() {
    let mut a: SparseArray<i32> = SparseArray::new();
    for i in 0..100u64 {
        a.set(i * 977, i as i32);
    }
    let mut b = a.clone();
    assert_eq!(b.set(0, -1), Some(0));
    assert_eq!(b.set(5, 55), None);
    assert_eq!(a.set(977, -2), Some(1));
    assert_eq!(a.get(0), Some(&0));
    assert_eq!(a.get(5), None);
    assert_eq!(b.get(0), Some(&-1));
    assert_eq!(b.get(5), Some(&55));
    assert_eq!(b.get(977), Some(&1));
    assert_eq!(a.get(977), Some(&-2));
}

#[test]
fn shared_leaf_overwrite_keeps_the_copy() {
    let mut a: SparseArray<String> = SparseArray::new();
    a.set(3, String::from("old"));
    let b = a.clone();
    assert_eq!(a.set(3, String::from("new")), Some(String::from("old")));
    assert_eq!(b.get(3), Some(&String::from("old")));
    assert_eq!(a.get(3), Some(&String::from("new")));
}

#[test]
fn indices_differing_only_in_the_top_slice() {
    let x: u64 = 0x0123_4567_89ab_cdef;
    let y: u64 = x ^ (1 << 61);
    let mut a: SparseArray<u8> = SparseArray::new();
    a.set(x, 1);
    a.set(y, 2);
    let mut b: SparseArray<u8> = SparseArray::new();
    b.set(y, 2);
    b.set(x, 1);
    for arr in [&a, &b] {
        assert_eq!(arr.get(x), Some(&1));
        assert_eq!(arr.get(y), Some(&2));
        assert_eq!(arr.get(x ^ (1 << 62)), None);
    }
}

#[test]
fn zero_and_top_bit_indices() {
    let mut a: SparseArray<u8> = SparseArray::new();
    a.set(0, 10);
    a.set(1 << 60, 11);
    a.set(1 << 63, 12);
    assert_eq!(a.get(0), Some(&10));
    assert_eq!(a.get(1 << 60), Some(&11));
    assert_eq!(a.get(1 << 63), Some(&12));
    assert_eq!(a.get(1 << 61), None);
}

#[test]
fn many_scattered_indices() {
    let mut a: SparseArray<u64> = SparseArray::new();
    let mut k: u64 = 0x9e37_79b9_7f4a_7c15;
    let mut keys = Vec::new();
    for i in 0..5000u64 {
        k = k.wrapping_mul(6364136223846793005).wrapping_add(1442695040888963407);
        assert_eq!(a.set(k, i), None);
        keys.push(k);
    }
    for (i, k) in keys.iter().enumerate() {
        assert_eq!(a.get(*k), Some(&(i as u64)));
    }
    assert_eq!(a.get(1), None);
}
