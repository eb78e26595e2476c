use vstd::prelude::*;

verus! {

/// Number of bits of an index that one trie level consumes.
pub const BITS: u8 = 6;

/// Largest value of a slot, and mask over the bits of one level.
pub const MASK: u64 = 63;

/// The slot that index `k` selects at trie level `level`.
pub open spec fn slot_of(level: nat, k: u64) -> u64 {
    (k >> ((6 * level) as u64)) & 63u64
}

/// A slot is below 64.
pub proof fn lemma_slot_bound(level: nat, k: u64)
    ensures
        slot_of(level, k) < 64,
{
    let sh = (6 * level) as u64;
    assert((k >> sh) & 63u64 < 64) by (bit_vector);
}

/// Whether bit `i` of `x` is one.
pub open spec fn has_bit(x: u64, i: u64) -> bool {
    (x >> i) & 1u64 == 1u64
}

/// Number of one bits of `x` among its bits `0 .. n`.
pub open spec fn ones_below(x: u64, n: nat) -> nat
    decreases n,
{
    if n == 0 {
        0
    } else {
        ones_below(x, (n - 1) as nat) + if has_bit(x, (n - 1) as u64) {
            1nat
        } else {
            0nat
        }
    }
}

/// `k` follows `path`: at each level it selects the slot the path names.
pub open spec fn agrees(k: u64, path: Seq<u64>) -> bool {
    forall|l: int| 0 <= l < path.len() ==> #[trigger] path[l] == slot_of(l as nat, k)
}

/// Relies on u64::count_ones: the number of one bits of the argument.
pub assume_specification[ u64::count_ones ](x: u64) -> (r: u32)
    ensures
        r as nat == ones_below(x, 64),
;

/// Masking with the bits below `s` keeps exactly those bits.
proof fn bits_of_masked(x: u64, s: u64, i: u64)
    requires
        s < 64,
        i < 64,
    ensures
        has_bit(x & (((1u64 << s) - 1) as u64), i) == (i < s && has_bit(x, i)),
{
    assert(((x & (((1u64 << s) - 1) as u64)) >> i) & 1u64 == 1u64 <==> (i < s && (x >> i)
        & 1u64 == 1u64)) by (bit_vector)
        requires
            s < 64,
            i < 64,
    ;
}

/// Counting the ones of `x` masked below `s` counts the ones of `x` below `s`.
proof fn ones_below_masked(x: u64, s: u64, n: nat)
    requires
        s < 64,
        n <= 64,
    ensures
        ones_below(x & (((1u64 << s) - 1) as u64), n) == ones_below(x, if n < s {
            n
        } else {
            s as nat
        }),
    decreases n,
{
    if n > 0 {
        ones_below_masked(x, s, (n - 1) as nat);
        bits_of_masked(x, s, (n - 1) as u64);
    }
}

/// The rank of slot `s` in bitmap `x`, as the branch code computes it.
pub proof fn lemma_rank(x: u64, s: u64)
    requires
        s < 64,
    ensures
        ones_below(x & (((1u64 << s) - 1) as u64), 64) == ones_below(x, s as nat),
{
    ones_below_masked(x, s, 64);
}

/// Testing `x` against the one-bit mask of `s` reads bit `s`.
pub proof fn lemma_bit_test(x: u64, s: u64)
    requires
        s < 64,
    ensures
        (1u64 << s) >= 1,
        (x & (1u64 << s) != 0) == has_bit(x, s),
{
    assert((1u64 << s) >= 1 && ((x & (1u64 << s) != 0u64) == ((x >> s) & 1u64 == 1u64)))
        by (bit_vector)
        requires
            s < 64,
    ;
}

/// Setting bit `s` of `x` sets that bit and keeps the others.
pub proof fn lemma_bits_of_or(x: u64, s: u64, i: u64)
    requires
        s < 64,
        i < 64,
    ensures
        has_bit(x | (1u64 << s), i) == (i == s || has_bit(x, i)),
        x | (1u64 << s) != 0,
{
    assert((((x | (1u64 << s)) >> i) & 1u64 == 1u64) == (i == s || (x >> i) & 1u64 == 1u64)
        && x | (1u64 << s) != 0u64) by (bit_vector)
        requires
            s < 64,
            i < 64,
    ;
}

/// Adding a fresh bit `s` to `x` adds one to the count of every range past `s`.
pub proof fn lemma_ones_below_insert(x: u64, s: u64, n: nat)
    requires
        s < 64,
        n <= 64,
        !has_bit(x, s),
    ensures
        ones_below(x | (1u64 << s), n) == ones_below(x, n) + if n > s {
            1nat
        } else {
            0nat
        },
        x | (1u64 << s) != 0,
    decreases n,
{
    lemma_bits_of_or(x, s, 0);
    if n > 0 {
        lemma_ones_below_insert(x, s, (n - 1) as nat);
        lemma_bits_of_or(x, s, (n - 1) as u64);
    }
}

/// Zero has no one bits.
pub proof fn lemma_zero_has_no_bits(n: nat)
    requires
        n <= 64,
    ensures
        ones_below(0, n) == 0,
        forall|i: u64| i < 64 ==> !has_bit(0, i),
    decreases n,
{
    assert(forall|i: u64| i < 64 ==> (0u64 >> i) & 1u64 != 1u64) by (bit_vector);
    if n > 0 {
        lemma_zero_has_no_bits((n - 1) as nat);
    }
}

/// The bitmap of a single slot.
pub proof fn lemma_single_bit(s: u64, n: nat)
    requires
        s < 64,
        n <= 64,
    ensures
        ones_below(1u64 << s, n) == if n > s {
            1nat
        } else {
            0nat
        },
        (1u64 << s) != 0,
        forall|t: u64| t < 64 ==> (has_bit(1u64 << s, t) <==> t == s),
{
    lemma_zero_has_no_bits(n);
    lemma_ones_below_insert(0, s, n);
    assert(0u64 | (1u64 << s) == (1u64 << s)) by (bit_vector);
    assert(forall|t: u64| t < 64 ==> ((((1u64 << s) >> t) & 1u64 == 1u64) <==> t == s))
        by (bit_vector)
        requires
            s < 64,
    ;
}

/// Counting ones is monotone, and strictly so across a one bit.
pub proof fn lemma_ones_below_mono(x: u64, t: nat, n: nat)
    requires
        t <= n <= 64,
    ensures
        ones_below(x, t) <= ones_below(x, n),
        t < n && has_bit(x, t as u64) ==> ones_below(x, t) < ones_below(x, n),
    decreases n,
{
    if t < n {
        lemma_ones_below_mono(x, t, (n - 1) as nat);
    }
}

/// Distinct one bits have distinct ranks.
pub proof fn lemma_rank_distinct(x: u64, s: u64, t: u64)
    requires
        s < 64,
        t < 64,
        s != t,
        has_bit(x, s),
        has_bit(x, t),
    ensures
        ones_below(x, s as nat) != ones_below(x, t as nat),
        ones_below(x, s as nat) < ones_below(x, 64),
{
    lemma_ones_below_mono(x, s as nat, 64);
    if s < t {
        lemma_ones_below_mono(x, s as nat, t as nat);
    } else {
        lemma_ones_below_mono(x, t as nat, s as nat);
    }
}

/// An index that follows a path still follows it one level further down.
pub proof fn lemma_agrees_push(k: u64, path: Seq<u64>)
    requires
        agrees(k, path),
    ensures
        agrees(k, path.push(slot_of(path.len(), k))),
{
    let p2 = path.push(slot_of(path.len(), k));
    assert forall|l: int| 0 <= l < p2.len() implies #[trigger] p2[l] == slot_of(l as nat, k) by {
        if l < path.len() {
            assert(path[l] == slot_of(l as nat, k));
        }
    }
}

/// Two indices that select the same slot at every level are equal.
pub proof fn lemma_full_path(a: u64, b: u64, path: Seq<u64>)
    requires
        path.len() >= 11,
        agrees(a, path),
        agrees(b, path),
    ensures
        a == b,
{
    assert(path[0] == slot_of(0, a) && path[0] == slot_of(0, b));
    assert((a >> 0u64) & 63u64 == (b >> 0u64) & 63u64);
    assert(path[1] == slot_of(1, a) && path[1] == slot_of(1, b));
    assert((a >> 6u64) & 63u64 == (b >> 6u64) & 63u64);
    assert(path[2] == slot_of(2, a) && path[2] == slot_of(2, b));
    assert((a >> 12u64) & 63u64 == (b >> 12u64) & 63u64);
    assert(path[3] == slot_of(3, a) && path[3] == slot_of(3, b));
    assert((a >> 18u64) & 63u64 == (b >> 18u64) & 63u64);
    assert(path[4] == slot_of(4, a) && path[4] == slot_of(4, b));
    assert((a >> 24u64) & 63u64 == (b >> 24u64) & 63u64);
    assert(path[5] == slot_of(5, a) && path[5] == slot_of(5, b));
    assert((a >> 30u64) & 63u64 == (b >> 30u64) & 63u64);
    assert(path[6] == slot_of(6, a) && path[6] == slot_of(6, b));
    assert((a >> 36u64) & 63u64 == (b >> 36u64) & 63u64);
    assert(path[7] == slot_of(7, a) && path[7] == slot_of(7, b));
    assert((a >> 42u64) & 63u64 == (b >> 42u64) & 63u64);
    assert(path[8] == slot_of(8, a) && path[8] == slot_of(8, b));
    assert((a >> 48u64) & 63u64 == (b >> 48u64) & 63u64);
    assert(path[9] == slot_of(9, a) && path[9] == slot_of(9, b));
    assert((a >> 54u64) & 63u64 == (b >> 54u64) & 63u64);
    assert(path[10] == slot_of(10, a) && path[10] == slot_of(10, b));
    assert((a >> 60u64) & 63u64 == (b >> 60u64) & 63u64);
    assert(a == b) by (bit_vector)
        requires
            (a >> 0u64) & 63u64 == (b >> 0u64) & 63u64,
            (a >> 6u64) & 63u64 == (b >> 6u64) & 63u64,
            (a >> 12u64) & 63u64 == (b >> 12u64) & 63u64,
            (a >> 18u64) & 63u64 == (b >> 18u64) & 63u64,
            (a >> 24u64) & 63u64 == (b >> 24u64) & 63u64,
            (a >> 30u64) & 63u64 == (b >> 30u64) & 63u64,
            (a >> 36u64) & 63u64 == (b >> 36u64) & 63u64,
            (a >> 42u64) & 63u64 == (b >> 42u64) & 63u64,
            (a >> 48u64) & 63u64 == (b >> 48u64) & 63u64,
            (a >> 54u64) & 63u64 == (b >> 54u64) & 63u64,
            (a >> 60u64) & 63u64 == (b >> 60u64) & 63u64,
    ;
}

/// The one-bit mask of the slot that `index` selects at the level that starts at bit `depth`.
pub fn child_bit(depth: u8, index: u64) -> (r: u64)
    requires
        depth < 64,
    ensures
        r == 1u64 << ((index >> depth as u64) & 63u64),
{
    let index_bits = (index >> depth) & MASK;
    assert(index_bits < 64) by (bit_vector)
        requires
            index_bits == (index >> depth as u64) & 63u64,
    ;
    1u64 << index_bits
}

} // verus!
