//! Bit-level facts about the 256-key occupancy bitmap of a trie node.
use vstd::prelude::*;

verus! {

/// Whether bit `i` of `x` is set.
pub open spec fn bit_set(x: u128, i: u32) -> bool {
    (x >> i) & 1u128 == 1u128
}

/// Number of set bits of `x` among its lowest `n` bits.
pub open spec fn ones_below(x: u128, n: nat) -> nat
    decreases n,
{
    if n == 0 {
        0
    } else {
        ones_below(x, (n - 1) as nat) + if bit_set(x, (n - 1) as u32) { 1nat } else { 0nat }
    }
}

/// The number of ones in the binary representation of `x`.
pub(crate) fn count_ones(x: u128) -> (r: u32)
    ensures
        r == ones_below(x, 128),
{
    let mut c: u32 = 0;
    let mut i: u32 = 0;
    while i < 128
        invariant
            i <= 128,
            c <= i,
            c == ones_below(x, i as nat),
        decreases 128 - i,
    {
        proof {
            assert(ones_below(x, (i + 1) as nat) == ones_below(x, i as nat) + if bit_set(x, i) {
                1nat
            } else {
                0nat
            });
        }
        if (x >> i) & 1u128 == 1u128 {
            c = c + 1;
        }
        i = i + 1;
    }
    c
}

proof fn lemma_mask_bit(x: u128, s: u32, i: u32)
    by (bit_vector)
    requires
        s < 128,
        i < 128,
    ensures
        ((x & !(u128::MAX << s)) >> i) & 1u128 == 1u128 <==> (i < s && (x >> i) & 1u128 == 1u128),
{
}

proof fn lemma_or_bit(x: u128, s: u32, i: u32)
    by (bit_vector)
    requires
        s < 128,
        i < 128,
    ensures
        ((x | (1u128 << s)) >> i) & 1u128 == 1u128 <==> (i == s || (x >> i) & 1u128 == 1u128),
{
}


/// Masking away every bit from `s` up keeps exactly the ones below `s`.
pub proof fn lemma_ones_below_masked(x: u128, s: u32, n: nat)
    requires
        s < 128,
        n <= 128,
    ensures
        ones_below(x & !(u128::MAX << s), n) == ones_below(x, if n < s { n } else { s as nat }),
    decreases n,
{
    if n > 0 {
        lemma_ones_below_masked(x, s, (n - 1) as nat);
        lemma_mask_bit(x, s, (n - 1) as u32);
    }
}

/// Setting bit `s` adds one to the count of every range that covers `s`,
/// unless the bit was already set.
pub proof fn lemma_ones_below_or(x: u128, s: u32, n: nat)
    requires
        s < 128,
        n <= 128,
    ensures
        ones_below(x | (1u128 << s), n) == ones_below(x, n) + if s < n && !bit_set(x, s) { 1nat } else { 0nat },
    decreases n,
{
    if n > 0 {
        lemma_ones_below_or(x, s, (n - 1) as nat);
        lemma_or_bit(x, s, (n - 1) as u32);
    }
}

/// The count over the lowest `n` bits is at most `n`.
pub proof fn lemma_ones_below_width(x: u128, n: nat)
    ensures
        ones_below(x, n) <= n,
    decreases n,
{
    if n > 0 {
        lemma_ones_below_width(x, (n - 1) as nat);
    }
}

/// Whether key `k` (below 256) is present in a two-word bitmap: word `k / 128`,
/// bit `k % 128`.
pub open spec fn has_key_bit(b: [u128; 2], k: nat) -> bool {
    if k < 128 {
        bit_set(b@[0], k as u32)
    } else {
        bit_set(b@[1], (k - 128) as u32)
    }
}

/// Number of present keys below `k`, for `k <= 256`.
pub open spec fn rank(b: [u128; 2], k: nat) -> nat {
    if k <= 128 {
        ones_below(b@[0], k)
    } else {
        ones_below(b@[0], 128) + ones_below(b@[1], (k - 128) as nat)
    }
}

/// Number of present keys.
pub open spec fn total(b: [u128; 2]) -> nat {
    rank(b, 256)
}

/// The bitmap with key `k` added.
pub open spec fn with_key(b: [u128; 2], k: nat) -> [u128; 2] {
    if k < 128 {
        [b@[0] | (1u128 << (k as u32)), b@[1]]
    } else {
        [b@[0], b@[1] | (1u128 << ((k - 128) as u32))]
    }
}

/// Ranks go up by one exactly across present keys.
pub proof fn lemma_rank_step(b: [u128; 2], k: nat)
    requires
        k < 256,
    ensures
        rank(b, k + 1) == rank(b, k) + if has_key_bit(b, k) { 1nat } else { 0nat },
{
    if k == 128 {
        assert(ones_below(b@[1], 1) == ones_below(b@[1], 0) + if bit_set(b@[1], 0) { 1nat } else { 0nat });
    }
}

/// Ranks are monotone, and a present key ranks strictly below every key above it.
pub proof fn lemma_rank_mono(b: [u128; 2], i: nat, k: nat)
    requires
        i <= k <= 256,
    ensures
        rank(b, i) <= rank(b, k),
        i < k && has_key_bit(b, i) ==> rank(b, i) < rank(b, k),
    decreases k,
{
    if i < k {
        lemma_rank_mono(b, i, (k - 1) as nat);
        lemma_rank_step(b, (k - 1) as nat);
        if i < k - 1 {
        } else {
            lemma_rank_step(b, i);
        }
    }
}

/// A present key ranks below the total number of keys.
pub proof fn lemma_rank_below_total(b: [u128; 2], k: nat)
    requires
        k < 256,
        has_key_bit(b, k),
    ensures
        rank(b, k) < total(b),
{
    lemma_rank_mono(b, k, 256);
}

/// Every position below the total is the rank of some present key.
pub proof fn lemma_rank_onto(b: [u128; 2], j: nat, n: nat)
    requires
        j < rank(b, n),
        n <= 256,
    ensures
        exists|k: nat| k < n && has_key_bit(b, k) && rank(b, k) == j,
    decreases n,
{
    let m = (n - 1) as nat;
    lemma_rank_step(b, m);
    if j < rank(b, m) {
        lemma_rank_onto(b, j, m);
        let k = choose|k: nat| k < m && has_key_bit(b, k) && rank(b, k) == j;
        assert(k < n && has_key_bit(b, k) && rank(b, k) == j);
    } else {
        assert(has_key_bit(b, m) && rank(b, m) == j);
    }
}

/// Adding key `k` adds it to the present keys and shifts the ranks above it by one
/// when it was not there before.
pub proof fn lemma_with_key(b: [u128; 2], k: nat, j: nat)
    requires
        k < 256,
        j <= 256,
    ensures
        j < 256 ==> (has_key_bit(with_key(b, k), j) == (has_key_bit(b, j) || j == k)),
        rank(with_key(b, k), j) == rank(b, j) + if k < j && !has_key_bit(b, k) { 1nat } else { 0nat },
{
    let b2 = with_key(b, k);
    if k < 128 {
        assert(b2@[0] == b@[0] | (1u128 << (k as u32)));
        assert(b2@[1] == b@[1]);
        if j < 128 {
            lemma_or_bit(b@[0], k as u32, j as u32);
        }
        lemma_ones_below_or(b@[0], k as u32, if j <= 128 { j } else { 128 });
    } else {
        assert(b2@[0] == b@[0]);
        assert(b2@[1] == b@[1] | (1u128 << ((k - 128) as u32)));
        if 128 <= j < 256 {
            lemma_or_bit(b@[1], (k - 128) as u32, (j - 128) as u32);
        }
        if j > 128 {
            lemma_ones_below_or(b@[1], (k - 128) as u32, (j - 128) as nat);
        }
    }
}

} // verus!
