use vstd::prelude::*;

verus! {

/// Number of ones in the binary representation of `x` (for `x >= 0`).
pub open spec fn ones(x: int) -> nat
    decreases x,
{
    if x <= 0 {
        0
    } else {
        (x % 2) as nat + ones(x / 2)
    }
}

/// `u32::count_ones`: the documentation says that it returns the number of
/// ones in the binary representation of its argument.
pub assume_specification[ u32::count_ones ](x: u32) -> (r: u32)
    ensures
        r == ones(x as int),
;

/// `u64::count_ones`: the documentation says that it returns the number of
/// ones in the binary representation of its argument.
pub assume_specification[ u64::count_ones ](x: u64) -> (r: u32)
    ensures
        r == ones(x as int),
;

/// Bit `k` of `w` is set.
pub open spec fn bit(w: u64, k: int) -> bool {
    (w >> (k as u64)) & 1u64 == 1u64
}

/// Number of set bits of `w` below position `n`.
pub open spec fn low_ones(w: u64, n: int) -> nat
    decreases n,
{
    if n <= 0 {
        0
    } else {
        low_ones(w, n - 1) + (if bit(w, n - 1) { 1nat } else { 0nat })
    }
}

proof fn lemma_low_ones_shift(w: u64, n: int)
    requires
        0 <= n <= 63,
    ensures
        low_ones(w, n + 1) == (w % 2) as nat + low_ones(w / 2, n),
    decreases n,
{
    if n == 0 {
        assert(((w >> 0u64) & 1u64 == 1u64) == (w % 2 == 1)) by (bit_vector);
        assert(bit(w, 0) == (w % 2 == 1));
        assert(low_ones(w, 0) == 0);
        assert(low_ones(w, 1) == (if bit(w, 0) { 1nat } else { 0nat }));
        assert(low_ones(w / 2, 0) == 0);
    } else {
        lemma_low_ones_shift(w, n - 1);
        let k: u64 = (n - 1) as u64;
        let k1: u64 = n as u64;
        assert(((w / 2) >> k) & 1u64 == (w >> k1) & 1u64) by (bit_vector)
            requires
                k < 63u64,
                k1 == k + 1,
        ;
        assert(bit(w, n) == bit(w / 2, n - 1));
    }
}

/// A zero word has no set bits.
pub proof fn lemma_low_ones_zero(n: int)
    requires
        0 <= n <= 64,
    ensures
        low_ones(0, n) == 0,
    decreases n,
{
    if n > 0 {
        lemma_low_ones_zero(n - 1);
        let k: u64 = (n - 1) as u64;
        assert((0u64 >> k) & 1u64 == 0u64) by (bit_vector);
    }
}

/// The number of ones of a word is the number of its set bits.
pub proof fn lemma_ones_is_low_ones(w: u64)
    ensures
        ones(w as int) == low_ones(w, 64),
    decreases w,
{
    if w == 0 {
        lemma_low_ones_zero(64);
    } else {
        lemma_ones_is_low_ones(w / 2);
        lemma_low_ones_shift(w, 63);
        let h: u64 = w / 2;
        assert((h >> 63u64) & 1u64 == 0u64) by (bit_vector)
            requires
                h == w / 2,
        ;
        assert(low_ones(h, 64) == low_ones(h, 63));
    }
}

/// Setting bit `l` adds one to the count of set bits below `n` if it was clear
/// and `l < n`.
pub proof fn lemma_low_ones_set_bit(m1: u64, m2: u64, l: int, n: int)
    requires
        0 <= n <= 64,
        0 <= l < 64,
        forall|k: int| 0 <= k < 64 ==> (#[trigger] bit(m2, k) <==> (bit(m1, k) || k == l)),
    ensures
        low_ones(m2, n) == low_ones(m1, n) + (if l < n && !bit(m1, l) { 1nat } else { 0nat }),
    decreases n,
{
    if n > 0 {
        lemma_low_ones_set_bit(m1, m2, l, n - 1);
        assert(bit(m2, n - 1) <==> (bit(m1, n - 1) || n - 1 == l));
    }
}

} // verus!
