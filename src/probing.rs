use vstd::prelude::*;
use vstd::std_specs::cmp::PartialEqSpec;

verus! {

/// The number of distinct 64-bit indices.
pub open spec fn index_count() -> int {
    0x1_0000_0000_0000_0000
}

/// The index probed at step `j` of the sequence that starts at `hash`.
pub open spec fn probe_index(hash: u64, j: int) -> u64 {
    ((hash as int + j) % index_count()) as u64
}

/// Some index holds no pair.
pub open spec fn has_free_slot<K, V>(table: Map<u64, (K, V)>) -> bool {
    exists|i: u64| !table.contains_key(i)
}

/// Step `j` of the probe for `key` from `hash` ends the walk: the slot there is empty, or
/// holds `key`.
pub open spec fn stops<K: PartialEq, V>(
    table: Map<u64, (K, V)>,
    hash: u64,
    key: K,
    j: int,
) -> bool {
    let i = probe_index(hash, j);
    !table.contains_key(i) || table[i].0.eq_spec(&key)
}

/// Step `j` is the first one that ends the walk.
pub open spec fn is_first_stop<K: PartialEq, V>(
    table: Map<u64, (K, V)>,
    hash: u64,
    key: K,
    j: int,
) -> bool {
    &&& 0 <= j < index_count()
    &&& stops(table, hash, key, j)
    &&& forall|j2: int| 0 <= j2 < j ==> !stops(table, hash, key, j2)
}

/// The slot where the probe for `key` from `hash` ends, if some slot ends it.
pub open spec fn slot_for<K: PartialEq, V>(table: Map<u64, (K, V)>, hash: u64, key: K) -> Option<
    u64,
> {
    if exists|j: int| is_first_stop(table, hash, key, j) {
        Some(probe_index(hash, choose|j: int| is_first_stop(table, hash, key, j)))
    } else {
        None
    }
}

/// The value that a lookup of `key` probing from `hash` finds.
pub open spec fn value_for<K: PartialEq, V>(table: Map<u64, (K, V)>, hash: u64, key: K) -> Option<
    V,
> {
    match slot_for(table, hash, key) {
        Some(i) => if table.contains_key(i) {
            Some(table[i].1)
        } else {
            None
        },
        None => None,
    }
}

/// What a probe for `key` from `hash` returns: the slot where the walk ends, with the
/// value there.
pub open spec fn probe_outcome<K: PartialEq, V>(
    table: Map<u64, (K, V)>,
    hash: u64,
    key: K,
    r: (u64, Option<&V>),
) -> bool {
    match slot_for(table, hash, key) {
        Some(i) => r.0 == i && match r.1 {
            Some(v) => table.contains_key(i) && table[i].1 == *v,
            None => !table.contains_key(i),
        },
        None => r.1 is None,
    }
}

/// A lookup of `key` probing from `hash` returns `r`.
pub open spec fn lookup_outcome<K: PartialEq, V>(
    table: Map<u64, (K, V)>,
    hash: u64,
    key: K,
    r: Option<&V>,
) -> bool {
    match r {
        Some(v) => value_for(table, hash, key) == Some(*v),
        None => value_for(table, hash, key) is None,
    }
}

/// Inserting `(key, value)` probing from `hash` turns `before` into `after` and returns `r`:
/// the pair goes to the slot where the walk ends, and the value that was there comes back.
pub open spec fn insert_outcome<K: PartialEq + Clone, V: Clone>(
    before: Map<u64, (K, V)>,
    after: Map<u64, (K, V)>,
    hash: u64,
    key: K,
    value: V,
    r: Option<V>,
) -> bool {
    &&& slot_for(before, hash, key) is Some
    &&& after == before.insert(slot_for(before, hash, key)->0, (key, value))
    &&& match r {
        Some(x) => {
            &&& before.contains_key(slot_for(before, hash, key)->0)
            &&& cloned(before[slot_for(before, hash, key)->0].1, x)
        },
        None => !before.contains_key(slot_for(before, hash, key)->0),
    }
}

/// A first stop is the only one.
pub proof fn lemma_first_stop_unique<K: PartialEq, V>(
    table: Map<u64, (K, V)>,
    hash: u64,
    key: K,
    j: int,
)
    requires
        is_first_stop(table, hash, key, j),
    ensures
        slot_for(table, hash, key) == Some(probe_index(hash, j)),
{
    let c = choose|j2: int| is_first_stop(table, hash, key, j2);
    assert(is_first_stop(table, hash, key, c));
    if c < j {
        assert(!stops(table, hash, key, c));
    } else if j < c {
        assert(!stops(table, hash, key, j));
    }
}

/// A slot that ends the walk at some step means that the walk has a first stop.
pub proof fn lemma_empty_slot_stops<K: PartialEq, V>(
    table: Map<u64, (K, V)>,
    hash: u64,
    key: K,
    j: int,
)
    requires
        0 <= j < index_count(),
        stops(table, hash, key, j),
    ensures
        slot_for(table, hash, key) is Some,
    decreases j,
{
    if exists|j2: int| 0 <= j2 < j && stops(table, hash, key, j2) {
        let j2 = choose|j2: int| 0 <= j2 < j && stops(table, hash, key, j2);
        lemma_empty_slot_stops(table, hash, key, j2);
    } else {
        assert(is_first_stop(table, hash, key, j));
    }
}

/// Every index is probed at some step of every probe sequence.
pub proof fn lemma_probe_reaches(hash: u64, i: u64) -> (j: int)
    ensures
        0 <= j < index_count(),
        probe_index(hash, j) == i,
{
    let j = (i as int - hash as int) % index_count();
    assert(probe_index(hash, j) == i) by (nonlinear_arith)
        requires
            j == (i as int - hash as int) % index_count(),
            index_count() == 0x1_0000_0000_0000_0000,
            probe_index(hash, j) == ((hash as int + j) % index_count()) as u64,
            (i as int) < index_count(),
            0 <= hash,
    ;
    j
}

/// A probe sequence visits each index once.
pub proof fn lemma_probe_injective(hash: u64, j1: int, j2: int)
    requires
        0 <= j1 < index_count(),
        0 <= j2 < index_count(),
        probe_index(hash, j1) == probe_index(hash, j2),
    ensures
        j1 == j2,
{
    assert(j1 == j2) by (nonlinear_arith)
        requires
            0 <= j1 < 0x1_0000_0000_0000_0000,
            0 <= j2 < 0x1_0000_0000_0000_0000,
            0 <= hash < 0x1_0000_0000_0000_0000,
            (hash + j1) % 0x1_0000_0000_0000_0000 == (hash + j2) % 0x1_0000_0000_0000_0000,
    ;
}

/// `==` on keys is equality.
pub open spec fn eq_is_equality<K: PartialEq>() -> bool {
    &&& K::obeys_eq_spec()
    &&& forall|a: K, b: K| #[trigger] a.eq_spec(&b) <==> a == b
}

/// Every stored pair sits where a probe for its key, from the hash that `f` gives the key,
/// ends.
pub open spec fn placed_by<K: PartialEq, V>(
    table: Map<u64, (K, V)>,
    f: spec_fn(K) -> u64,
) -> bool {
    forall|i: u64| #[trigger]
        table.contains_key(i) ==> slot_for(table, f(table[i].0), table[i].0) == Some(i)
}

/// Putting `(k, v)` at `i0`, a slot that is empty or holds `k`, leaves the probes of every
/// other key `q` as they were, wherever they end short of `i0` or `i0` was occupied.
proof fn lemma_other_key_probe<K: PartialEq, V>(
    table: Map<u64, (K, V)>,
    i0: u64,
    k: K,
    v: V,
    hq: u64,
    q: K,
)
    requires
        eq_is_equality::<K>(),
        q != k,
        table.contains_key(i0) ==> table[i0].0 == k,
    ensures
        ({
            let after = table.insert(i0, (k, v));
            &&& forall|j: int|
                #![trigger stops(after, hq, q, j)]
                probe_index(hq, j) != i0 ==> stops(after, hq, q, j) == stops(table, hq, q, j)
            &&& forall|j: int|
                #![trigger stops(after, hq, q, j)]
                probe_index(hq, j) == i0 ==> !stops(after, hq, q, j) && stops(table, hq, q, j)
                    == !table.contains_key(i0)
        }),
{
    let after = table.insert(i0, (k, v));
    assert forall|j: int| probe_index(hq, j) == i0 implies !stops(after, hq, q, j) by {
        assert(!after[i0].0.eq_spec(&q));
    }
    assert forall|j: int| probe_index(hq, j) == i0 && table.contains_key(i0) implies !stops(
        table,
        hq,
        q,
        j,
    ) by {
        assert(!table[i0].0.eq_spec(&q));
    }
}

/// Lookups after an insert, under a hash strategy `f`: the inserted key finds its new value,
/// every other key finds what it found before, and every pair stays where a probe for its key
/// ends.
pub proof fn lemma_insert_then_lookup<K: PartialEq, V>(
    table: Map<u64, (K, V)>,
    f: spec_fn(K) -> u64,
    k: K,
    v: V,
    q: K,
)
    requires
        eq_is_equality::<K>(),
        placed_by(table, f),
        slot_for(table, f(k), k) is Some,
    ensures
        ({
            let after = table.insert(slot_for(table, f(k), k)->0, (k, v));
            &&& placed_by(after, f)
            &&& slot_for(after, f(k), k) == slot_for(table, f(k), k)
            &&& value_for(after, f(q), q) == if q == k {
                Some(v)
            } else {
                value_for(table, f(q), q)
            }
        }),
{
    let i0 = slot_for(table, f(k), k)->0;
    let after = table.insert(i0, (k, v));
    lemma_inserted_key_found(table, f(k), k, v);
    assert forall|i: u64| #[trigger] after.contains_key(i) implies slot_for(
        after,
        f(after[i].0),
        after[i].0,
    ) == Some(i) by {
        if i != i0 {
            let kq = table[i].0;
            assert(table.contains_key(i));
            assert(slot_for(table, f(kq), kq) == Some(i));
            if kq == k {
                assert(false);
            }
            lemma_other_key_slot(table, f, k, v, kq);
        }
    }
    if q != k {
        lemma_other_key_value(table, f, k, v, q);
    }
}

/// The probe for `k` ends where it ended before, now on the new pair.
proof fn lemma_inserted_key_found<K: PartialEq, V>(table: Map<u64, (K, V)>, h: u64, k: K, v: V)
    requires
        eq_is_equality::<K>(),
        slot_for(table, h, k) is Some,
    ensures
        slot_for(table.insert(slot_for(table, h, k)->0, (k, v)), h, k) == slot_for(table, h, k),
{
    let j0 = choose|j: int| is_first_stop(table, h, k, j);
    let i0 = probe_index(h, j0);
    let after = table.insert(i0, (k, v));
    assert forall|j: int| 0 <= j < j0 implies !stops(after, h, k, j) by {
        if probe_index(h, j) == i0 {
            lemma_probe_injective(h, j, j0);
        }
        assert(!stops(table, h, k, j));
    }
    assert(after[i0].0.eq_spec(&k));
    assert(is_first_stop(after, h, k, j0));
    lemma_first_stop_unique(after, h, k, j0);
}

/// A key other than the inserted one keeps the slot where its probe ended, if a pair of it
/// sits there.
proof fn lemma_other_key_slot<K: PartialEq, V>(
    table: Map<u64, (K, V)>,
    f: spec_fn(K) -> u64,
    k: K,
    v: V,
    q: K,
)
    requires
        eq_is_equality::<K>(),
        placed_by(table, f),
        slot_for(table, f(k), k) is Some,
        q != k,
        slot_for(table, f(q), q) is Some,
        table.contains_key(slot_for(table, f(q), q)->0),
    ensures
        slot_for(table.insert(slot_for(table, f(k), k)->0, (k, v)), f(q), q) == slot_for(
            table,
            f(q),
            q,
        ),
{
    let i0 = slot_for(table, f(k), k)->0;
    let hk = f(k);
    let j0 = choose|j: int| is_first_stop(table, hk, k, j);
    assert(stops(table, hk, k, j0));
    let after = table.insert(i0, (k, v));
    let hq = f(q);
    let jq = choose|j: int| is_first_stop(table, hq, q, j);
    assert(is_first_stop(table, hq, q, jq));
    lemma_other_key_probe(table, i0, k, v, hq, q);
    assert forall|j: int| 0 <= j < jq implies !stops(after, hq, q, j) by {
        assert(!stops(table, hq, q, j));
    }
    assert(stops(after, hq, q, jq));
    assert(is_first_stop(after, hq, q, jq));
    lemma_first_stop_unique(after, hq, q, jq);
}

/// A key other than the inserted one finds the value it found before.
proof fn lemma_other_key_value<K: PartialEq, V>(
    table: Map<u64, (K, V)>,
    f: spec_fn(K) -> u64,
    k: K,
    v: V,
    q: K,
)
    requires
        eq_is_equality::<K>(),
        placed_by(table, f),
        slot_for(table, f(k), k) is Some,
        q != k,
    ensures
        value_for(table.insert(slot_for(table, f(k), k)->0, (k, v)), f(q), q) == value_for(
            table,
            f(q),
            q,
        ),
{
    let i0 = slot_for(table, f(k), k)->0;
    let hk = f(k);
    let j0 = choose|j: int| is_first_stop(table, hk, k, j);
    assert(stops(table, hk, k, j0));
    let after = table.insert(i0, (k, v));
    let hq = f(q);
    lemma_other_key_probe(table, i0, k, v, hq, q);
    if slot_for(table, hq, q) is None {
        let j = lemma_probe_reaches(hq, i0);
        if !table.contains_key(i0) {
            assert(stops(table, hq, q, j));
            lemma_empty_slot_stops(table, hq, q, j);
        }
        assert forall|j2: int| !is_first_stop(after, hq, q, j2) by {
            if is_first_stop(after, hq, q, j2) {
                assert(!is_first_stop(table, hq, q, j2));
                if exists|j3: int| 0 <= j3 < j2 && stops(table, hq, q, j3) {
                    let j3 = choose|j3: int| 0 <= j3 < j2 && stops(table, hq, q, j3);
                    lemma_empty_slot_stops(table, hq, q, j3);
                } else {
                    lemma_empty_slot_stops(table, hq, q, j2);
                }
            }
        }
    } else {
        let jq = choose|j: int| is_first_stop(table, hq, q, j);
        assert(is_first_stop(table, hq, q, jq));
        let iq = probe_index(hq, jq);
        if table.contains_key(iq) {
            lemma_other_key_slot(table, f, k, v, q);
        } else if iq != i0 {
            assert forall|j: int| 0 <= j < jq implies !stops(after, hq, q, j) by {
                assert(!stops(table, hq, q, j));
            }
            assert(is_first_stop(after, hq, q, jq));
            lemma_first_stop_unique(after, hq, q, jq);
        } else {
            // The probe for q ended on the slot that k now fills: q was absent, and no pair
            // of q sits further along, since each pair sits where its probe ends.
            if value_for(after, hq, q) is Some {
                let j2 = choose|j: int| is_first_stop(after, hq, q, j);
                assert(is_first_stop(after, hq, q, j2));
                let i2 = probe_index(hq, j2);
                assert(after.contains_key(i2));
                assert(i2 != i0);
                assert(table.contains_key(i2));
                assert(table[i2].0.eq_spec(&q));
                assert(table[i2].0 == q);
                assert(slot_for(table, f(table[i2].0), table[i2].0) == Some(i2));
            }
        }
    }
}

/// Inserting a key twice: the second insert finds the first pair in the same slot, and the
/// table ends as if only the second had happened.
pub proof fn lemma_overwrite<K: PartialEq, V>(
    table: Map<u64, (K, V)>,
    h: u64,
    k: K,
    v1: V,
    v2: V,
)
    requires
        eq_is_equality::<K>(),
        slot_for(table, h, k) is Some,
    ensures
        ({
            let i = slot_for(table, h, k)->0;
            let first = table.insert(i, (k, v1));
            &&& slot_for(first, h, k) == Some(i)
            &&& first.contains_key(i) && first[i] == (k, v1)
            &&& value_for(first, h, k) == Some(v1)
            &&& first.insert(i, (k, v2)) == table.insert(i, (k, v2))
        }),
{
    let i = slot_for(table, h, k)->0;
    lemma_inserted_key_found(table, h, k, v1);
    let first = table.insert(i, (k, v1));
    assert(first.insert(i, (k, v2)) =~= table.insert(i, (k, v2)));
}

/// A free index ends every probe.
pub proof fn lemma_free_slot_ends_probe<K: PartialEq, V>(
    table: Map<u64, (K, V)>,
    hash: u64,
    key: K,
)
    requires
        has_free_slot(table),
    ensures
        slot_for(table, hash, key) is Some,
{
    let i = choose|i: u64| !table.contains_key(i);
    let j = lemma_probe_reaches(hash, i);
    lemma_empty_slot_stops(table, hash, key, j);
}

/// The table after inserting the pairs of `ops` in turn, each probing from the hash that `f`
/// gives its key.
pub open spec fn after_inserts<K: PartialEq, V>(
    table: Map<u64, (K, V)>,
    f: spec_fn(K) -> u64,
    ops: Seq<(K, V)>,
) -> Map<u64, (K, V)>
    decreases ops.len(),
{
    if ops.len() == 0 {
        table
    } else {
        let before = after_inserts(table, f, ops.drop_last());
        let k = ops.last().0;
        before.insert(slot_for(before, f(k), k)->0, ops.last())
    }
}

/// Each insert of `ops` found an index free.
pub open spec fn room_for<K: PartialEq, V>(
    table: Map<u64, (K, V)>,
    f: spec_fn(K) -> u64,
    ops: Seq<(K, V)>,
) -> bool
    decreases ops.len(),
{
    ops.len() == 0 || (room_for(table, f, ops.drop_last()) && has_free_slot(
        after_inserts(table, f, ops.drop_last()),
    ))
}

/// The value of the last pair of `ops` with key `q`, or `otherwise` where no pair has it.
pub open spec fn last_value<K, V>(ops: Seq<(K, V)>, q: K, otherwise: Option<V>) -> Option<V>
    decreases ops.len(),
{
    if ops.len() == 0 {
        otherwise
    } else if ops.last().0 == q {
        Some(ops.last().1)
    } else {
        last_value(ops.drop_last(), q, otherwise)
    }
}

/// Lookups after a sequence of inserts under a hash strategy `f`: a key finds the value of
/// its last insert, and a key never inserted finds what it found before (from an empty table,
/// nothing). Every pair stays where a probe for its key ends.
pub proof fn lemma_inserts_then_lookup<K: PartialEq, V>(
    table: Map<u64, (K, V)>,
    f: spec_fn(K) -> u64,
    ops: Seq<(K, V)>,
    q: K,
)
    requires
        eq_is_equality::<K>(),
        placed_by(table, f),
        room_for(table, f, ops),
    ensures
        placed_by(after_inserts(table, f, ops), f),
        value_for(after_inserts(table, f, ops), f(q), q) == last_value(
            ops,
            q,
            value_for(table, f(q), q),
        ),
    decreases ops.len(),
{
    if ops.len() > 0 {
        let prefix = ops.drop_last();
        lemma_inserts_then_lookup(table, f, prefix, q);
        let before = after_inserts(table, f, prefix);
        let k = ops.last().0;
        lemma_free_slot_ends_probe(before, f(k), k);
        lemma_insert_then_lookup(before, f, k, ops.last().1, q);
    }
}

/// An empty table holds no pair out of place, whatever the hash strategy.
pub proof fn lemma_empty_placed<K: PartialEq, V>(f: spec_fn(K) -> u64)
    ensures
        placed_by(Map::<u64, (K, V)>::empty(), f),
{
}

/// Nothing is found in an empty table.
pub proof fn lemma_empty_lookup<K: PartialEq, V>(hash: u64, key: K)
    ensures
        slot_for(Map::<u64, (K, V)>::empty(), hash, key) == Some(hash),
        value_for(Map::<u64, (K, V)>::empty(), hash, key) is None,
{
    let empty = Map::<u64, (K, V)>::empty();
    assert(probe_index(hash, 0) == hash);
    assert(is_first_stop(empty, hash, key, 0));
    lemma_first_stop_unique(empty, hash, key, 0);
}

} // verus!
