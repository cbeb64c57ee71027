use vstd::prelude::*;

verus! {

/// Whether bit `i` of `x` is set. A 64-bit word stands for a set of squares,
/// and bit `i` says whether the square numbered `i` is in it.
pub open spec fn bit(x: u64, i: int) -> bool {
    (x >> (i as u64)) & 1 == 1
}

/// The word with bit `i` set and no other.
pub open spec fn single(i: int) -> u64 {
    1u64 << (i as u64)
}

/// The number of bits set in `x`.
pub open spec fn popcount(x: u64) -> nat
    decreases x,
{
    if x == 0 {
        0
    } else {
        (x % 2 + popcount(x / 2)) as nat
    }
}

/// `u64::count_ones` counts the bits that are set, as its documentation says.
pub assume_specification[ u64::count_ones ](x: u64) -> (r: u32)
    ensures
        r == popcount(x),
;

proof fn bv_ops(a: u64, b: u64, i: u64)
    by (bit_vector)
    requires
        i < 64,
    ensures
        (((a | b) >> i) & 1 == 1) == (((a >> i) & 1 == 1) || ((b >> i) & 1 == 1)),
        (((a & b) >> i) & 1 == 1) == (((a >> i) & 1 == 1) && ((b >> i) & 1 == 1)),
        (((a ^ b) >> i) & 1 == 1) == (((a >> i) & 1 == 1) != ((b >> i) & 1 == 1)),
        (((!a) >> i) & 1 == 1) == !((a >> i) & 1 == 1),
        ((0u64 >> i) & 1 == 1) == false,
        ((0xffff_ffff_ffff_ffffu64 >> i) & 1 == 1) == true,
        ((a >> i) & 1 == 1) == (a & (1u64 << i) != 0),
        ((a >> i) & 1 == 1) ==> a != 0,
{
}

proof fn bv_shift(a: u64, k: u64, i: u64)
    by (bit_vector)
    requires
        i < 64,
        k < 64,
    ensures
        (((1u64 << k) >> i) & 1 == 1) == (i == k),
        (((a << k) >> i) & 1 == 1) == (i >= k && ((a >> ((i - k) as u64)) & 1 == 1)),
        (((a >> k) >> i) & 1 == 1) == (i + k < 64 && ((a >> ((i + k) as u64)) & 1 == 1)),
{
}

proof fn bv_ext(a: u64, b: u64)
    by (bit_vector)
    requires
        ((a >> 0) & 1 == 1) == ((b >> 0) & 1 == 1),
        ((a >> 1) & 1 == 1) == ((b >> 1) & 1 == 1),
        ((a >> 2) & 1 == 1) == ((b >> 2) & 1 == 1),
        ((a >> 3) & 1 == 1) == ((b >> 3) & 1 == 1),
        ((a >> 4) & 1 == 1) == ((b >> 4) & 1 == 1),
        ((a >> 5) & 1 == 1) == ((b >> 5) & 1 == 1),
        ((a >> 6) & 1 == 1) == ((b >> 6) & 1 == 1),
        ((a >> 7) & 1 == 1) == ((b >> 7) & 1 == 1),
        ((a >> 8) & 1 == 1) == ((b >> 8) & 1 == 1),
        ((a >> 9) & 1 == 1) == ((b >> 9) & 1 == 1),
        ((a >> 10) & 1 == 1) == ((b >> 10) & 1 == 1),
        ((a >> 11) & 1 == 1) == ((b >> 11) & 1 == 1),
        ((a >> 12) & 1 == 1) == ((b >> 12) & 1 == 1),
        ((a >> 13) & 1 == 1) == ((b >> 13) & 1 == 1),
        ((a >> 14) & 1 == 1) == ((b >> 14) & 1 == 1),
        ((a >> 15) & 1 == 1) == ((b >> 15) & 1 == 1),
        ((a >> 16) & 1 == 1) == ((b >> 16) & 1 == 1),
        ((a >> 17) & 1 == 1) == ((b >> 17) & 1 == 1),
        ((a >> 18) & 1 == 1) == ((b >> 18) & 1 == 1),
        ((a >> 19) & 1 == 1) == ((b >> 19) & 1 == 1),
        ((a >> 20) & 1 == 1) == ((b >> 20) & 1 == 1),
        ((a >> 21) & 1 == 1) == ((b >> 21) & 1 == 1),
        ((a >> 22) & 1 == 1) == ((b >> 22) & 1 == 1),
        ((a >> 23) & 1 == 1) == ((b >> 23) & 1 == 1),
        ((a >> 24) & 1 == 1) == ((b >> 24) & 1 == 1),
        ((a >> 25) & 1 == 1) == ((b >> 25) & 1 == 1),
        ((a >> 26) & 1 == 1) == ((b >> 26) & 1 == 1),
        ((a >> 27) & 1 == 1) == ((b >> 27) & 1 == 1),
        ((a >> 28) & 1 == 1) == ((b >> 28) & 1 == 1),
        ((a >> 29) & 1 == 1) == ((b >> 29) & 1 == 1),
        ((a >> 30) & 1 == 1) == ((b >> 30) & 1 == 1),
        ((a >> 31) & 1 == 1) == ((b >> 31) & 1 == 1),
        ((a >> 32) & 1 == 1) == ((b >> 32) & 1 == 1),
        ((a >> 33) & 1 == 1) == ((b >> 33) & 1 == 1),
        ((a >> 34) & 1 == 1) == ((b >> 34) & 1 == 1),
        ((a >> 35) & 1 == 1) == ((b >> 35) & 1 == 1),
        ((a >> 36) & 1 == 1) == ((b >> 36) & 1 == 1),
        ((a >> 37) & 1 == 1) == ((b >> 37) & 1 == 1),
        ((a >> 38) & 1 == 1) == ((b >> 38) & 1 == 1),
        ((a >> 39) & 1 == 1) == ((b >> 39) & 1 == 1),
        ((a >> 40) & 1 == 1) == ((b >> 40) & 1 == 1),
        ((a >> 41) & 1 == 1) == ((b >> 41) & 1 == 1),
        ((a >> 42) & 1 == 1) == ((b >> 42) & 1 == 1),
        ((a >> 43) & 1 == 1) == ((b >> 43) & 1 == 1),
        ((a >> 44) & 1 == 1) == ((b >> 44) & 1 == 1),
        ((a >> 45) & 1 == 1) == ((b >> 45) & 1 == 1),
        ((a >> 46) & 1 == 1) == ((b >> 46) & 1 == 1),
        ((a >> 47) & 1 == 1) == ((b >> 47) & 1 == 1),
        ((a >> 48) & 1 == 1) == ((b >> 48) & 1 == 1),
        ((a >> 49) & 1 == 1) == ((b >> 49) & 1 == 1),
        ((a >> 50) & 1 == 1) == ((b >> 50) & 1 == 1),
        ((a >> 51) & 1 == 1) == ((b >> 51) & 1 == 1),
        ((a >> 52) & 1 == 1) == ((b >> 52) & 1 == 1),
        ((a >> 53) & 1 == 1) == ((b >> 53) & 1 == 1),
        ((a >> 54) & 1 == 1) == ((b >> 54) & 1 == 1),
        ((a >> 55) & 1 == 1) == ((b >> 55) & 1 == 1),
        ((a >> 56) & 1 == 1) == ((b >> 56) & 1 == 1),
        ((a >> 57) & 1 == 1) == ((b >> 57) & 1 == 1),
        ((a >> 58) & 1 == 1) == ((b >> 58) & 1 == 1),
        ((a >> 59) & 1 == 1) == ((b >> 59) & 1 == 1),
        ((a >> 60) & 1 == 1) == ((b >> 60) & 1 == 1),
        ((a >> 61) & 1 == 1) == ((b >> 61) & 1 == 1),
        ((a >> 62) & 1 == 1) == ((b >> 62) & 1 == 1),
        ((a >> 63) & 1 == 1) == ((b >> 63) & 1 == 1),
    ensures
        a == b,
{
}

proof fn bv_lowest(x: u64, t: u64, i: u64)
    by (bit_vector)
    requires
        i < 64,
        t < 64,
        (x >> t) & 1 == 1,
        x << ((64 - t) as u64) == 0 || t == 0,
    ensures
        (((x & ((x - 1) as u64)) >> i) & 1 == 1) == (((x >> i) & 1 == 1) && i != t),
        x != 0,
        (x & ((x - 1) as u64)) < x,
        i < t ==> !((x >> i) & 1 == 1),
{
}

/// Bit by bit, `|` is "or", `&` is "and", `^` is "differ" and `!` is "not".
pub broadcast proof fn lemma_bit_or(a: u64, b: u64, i: int)
    requires
        0 <= i < 64,
    ensures
        #[trigger] bit(a | b, i) == (bit(a, i) || bit(b, i)),
{
    bv_ops(a, b, i as u64);
}

pub broadcast proof fn lemma_bit_and(a: u64, b: u64, i: int)
    requires
        0 <= i < 64,
    ensures
        #[trigger] bit(a & b, i) == (bit(a, i) && bit(b, i)),
{
    bv_ops(a, b, i as u64);
}

pub broadcast proof fn lemma_bit_xor(a: u64, b: u64, i: int)
    requires
        0 <= i < 64,
    ensures
        #[trigger] bit(a ^ b, i) == (bit(a, i) != bit(b, i)),
{
    bv_ops(a, b, i as u64);
}

pub broadcast proof fn lemma_bit_not(a: u64, i: int)
    requires
        0 <= i < 64,
    ensures
        #[trigger] bit(!a, i) == !bit(a, i),
{
    bv_ops(a, a, i as u64);
}

/// The empty word has no bit set, and the full word has every bit set.
pub broadcast proof fn lemma_bit_zero(i: int)
    requires
        0 <= i < 64,
    ensures
        !(#[trigger] bit(0, i)),
        bit(0xffff_ffff_ffff_ffff, i),
{
    bv_ops(0, 0, i as u64);
}

/// A word with a bit set is not zero.
pub proof fn lemma_bit_nonzero(a: u64, i: int)
    requires
        0 <= i < 64,
        bit(a, i),
    ensures
        a != 0,
        a & single(i) != 0,
{
    bv_ops(a, a, i as u64);
}

/// Masking with a single bit tests that bit.
pub proof fn lemma_bit_test(a: u64, i: int)
    requires
        0 <= i < 64,
    ensures
        bit(a, i) == (a & single(i) != 0),
{
    bv_ops(a, a, i as u64);
}

/// A single-bit word has that bit and no other.
pub broadcast proof fn lemma_bit_single(k: int, i: int)
    requires
        0 <= i < 64,
        0 <= k < 64,
    ensures
        #[trigger] bit(single(k), i) == (i == k),
{
    bv_shift(0, k as u64, i as u64);
}

/// Shifting left by `k` moves bit `i - k` to bit `i`.
pub broadcast proof fn lemma_bit_shl(a: u64, k: int, i: int)
    requires
        0 <= i < 64,
        0 <= k < 64,
    ensures
        #[trigger] bit(a << (k as u64), i) == (i >= k && bit(a, i - k)),
{
    bv_shift(a, k as u64, i as u64);
}

/// Shifting right by `k` moves bit `i + k` to bit `i`.
pub broadcast proof fn lemma_bit_shr(a: u64, k: int, i: int)
    requires
        0 <= i < 64,
        0 <= k < 64,
    ensures
        #[trigger] bit(a >> (k as u64), i) == (i + k < 64 && bit(a, i + k)),
{
    bv_shift(a, k as u64, i as u64);
}

pub broadcast group group_bits {
    lemma_bit_or,
    lemma_bit_and,
    lemma_bit_xor,
    lemma_bit_not,
    lemma_bit_zero,
    lemma_bit_single,
    lemma_bit_shl,
    lemma_bit_shr,
}

/// Two words with the same bits are the same word.
pub proof fn lemma_bits_ext(a: u64, b: u64)
    requires
        forall|i: int| 0 <= i < 64 ==> bit(a, i) == bit(b, i),
    ensures
        a == b,
{
    assert(bit(a, 0) == bit(b, 0));
    assert(bit(a, 1) == bit(b, 1));
    assert(bit(a, 2) == bit(b, 2));
    assert(bit(a, 3) == bit(b, 3));
    assert(bit(a, 4) == bit(b, 4));
    assert(bit(a, 5) == bit(b, 5));
    assert(bit(a, 6) == bit(b, 6));
    assert(bit(a, 7) == bit(b, 7));
    assert(bit(a, 8) == bit(b, 8));
    assert(bit(a, 9) == bit(b, 9));
    assert(bit(a, 10) == bit(b, 10));
    assert(bit(a, 11) == bit(b, 11));
    assert(bit(a, 12) == bit(b, 12));
    assert(bit(a, 13) == bit(b, 13));
    assert(bit(a, 14) == bit(b, 14));
    assert(bit(a, 15) == bit(b, 15));
    assert(bit(a, 16) == bit(b, 16));
    assert(bit(a, 17) == bit(b, 17));
    assert(bit(a, 18) == bit(b, 18));
    assert(bit(a, 19) == bit(b, 19));
    assert(bit(a, 20) == bit(b, 20));
    assert(bit(a, 21) == bit(b, 21));
    assert(bit(a, 22) == bit(b, 22));
    assert(bit(a, 23) == bit(b, 23));
    assert(bit(a, 24) == bit(b, 24));
    assert(bit(a, 25) == bit(b, 25));
    assert(bit(a, 26) == bit(b, 26));
    assert(bit(a, 27) == bit(b, 27));
    assert(bit(a, 28) == bit(b, 28));
    assert(bit(a, 29) == bit(b, 29));
    assert(bit(a, 30) == bit(b, 30));
    assert(bit(a, 31) == bit(b, 31));
    assert(bit(a, 32) == bit(b, 32));
    assert(bit(a, 33) == bit(b, 33));
    assert(bit(a, 34) == bit(b, 34));
    assert(bit(a, 35) == bit(b, 35));
    assert(bit(a, 36) == bit(b, 36));
    assert(bit(a, 37) == bit(b, 37));
    assert(bit(a, 38) == bit(b, 38));
    assert(bit(a, 39) == bit(b, 39));
    assert(bit(a, 40) == bit(b, 40));
    assert(bit(a, 41) == bit(b, 41));
    assert(bit(a, 42) == bit(b, 42));
    assert(bit(a, 43) == bit(b, 43));
    assert(bit(a, 44) == bit(b, 44));
    assert(bit(a, 45) == bit(b, 45));
    assert(bit(a, 46) == bit(b, 46));
    assert(bit(a, 47) == bit(b, 47));
    assert(bit(a, 48) == bit(b, 48));
    assert(bit(a, 49) == bit(b, 49));
    assert(bit(a, 50) == bit(b, 50));
    assert(bit(a, 51) == bit(b, 51));
    assert(bit(a, 52) == bit(b, 52));
    assert(bit(a, 53) == bit(b, 53));
    assert(bit(a, 54) == bit(b, 54));
    assert(bit(a, 55) == bit(b, 55));
    assert(bit(a, 56) == bit(b, 56));
    assert(bit(a, 57) == bit(b, 57));
    assert(bit(a, 58) == bit(b, 58));
    assert(bit(a, 59) == bit(b, 59));
    assert(bit(a, 60) == bit(b, 60));
    assert(bit(a, 61) == bit(b, 61));
    assert(bit(a, 62) == bit(b, 62));
    assert(bit(a, 63) == bit(b, 63));
    bv_ext(a, b);
}

/// The number of the lowest bit set in `x`; 64 if `x` is zero.
pub open spec fn lowest(x: u64) -> int {
    vstd::std_specs::bits::u64_trailing_zeros(x) as int
}

/// What the lowest set bit is, and what clearing it by `x & (x - 1)` does:
/// that bit goes, every other stays, and the word gets smaller.
pub proof fn lemma_lowest(x: u64)
    requires
        x != 0,
    ensures
        0 <= lowest(x) < 64,
        bit(x, lowest(x)),
        forall|i: int| 0 <= i < lowest(x) ==> !bit(x, i),
        forall|i: int|
            0 <= i < 64 ==> #[trigger] bit(x & ((x - 1) as u64), i) == (bit(x, i) && i != lowest(
                x,
            )),
        (x & ((x - 1) as u64)) < x,
{
    vstd::std_specs::bits::axiom_u64_trailing_zeros(x);
    let t = vstd::std_specs::bits::u64_trailing_zeros(x) as u64;
    assert(t < 64);
    assert((x >> t) & 1 == 1);
    assert(x << ((64 - t) as u64) == 0 || t == 0) by {
        if t != 0 {
            assert(vstd::std_specs::bits::u64_trailing_zeros(x) as u64 == t);
        }
    }
    assert forall|i: int| 0 <= i < 64 implies #[trigger] bit(x & ((x - 1) as u64), i) == (bit(
        x,
        i,
    ) && i != lowest(x)) by {
        bv_lowest(x, t, i as u64);
    }
    assert forall|i: int| 0 <= i < lowest(x) implies !bit(x, i) by {
        bv_lowest(x, t, i as u64);
    }
    bv_lowest(x, t, 0);
}

/// A word that is not zero has a bit set.
pub proof fn lemma_nonzero_bit(x: u64)
    requires
        x != 0,
    ensures
        exists|i: int| 0 <= i < 64 && bit(x, i),
{
    lemma_lowest(x);
    assert(0 <= lowest(x) < 64 && bit(x, lowest(x)));
}

/// The word of the squares below `n` that `holds` is true of.
pub open spec fn gather(holds: spec_fn(int) -> bool, n: int) -> u64
    decreases n,
{
    if n <= 0 {
        0
    } else {
        gather(holds, n - 1) | (if holds(n - 1) {
            single(n - 1)
        } else {
            0
        })
    }
}

/// The gathered word has bit `i` set exactly if `i` is below `n` and `holds`
/// is true of it.
pub proof fn lemma_gather(holds: spec_fn(int) -> bool, n: int, i: int)
    requires
        0 <= n <= 64,
        0 <= i < 64,
    ensures
        bit(gather(holds, n), i) == (i < n && holds(i)),
    decreases n,
{
    if n > 0 {
        lemma_gather(holds, n - 1, i);
        let rest = gather(holds, n - 1);
        if holds(n - 1) {
            lemma_bit_or(rest, single(n - 1), i);
            lemma_bit_single(n - 1, i);
        } else {
            lemma_bit_or(rest, 0, i);
            lemma_bit_zero(i);
        }
    } else {
        lemma_bit_zero(i);
    }
}

proof fn bv_halves(i: u64)
    by (bit_vector)
    requires
        i < 64,
    ensures
        (1u64 << i) >= 1,
        i >= 1 ==> (1u64 << i) / 2 == 1u64 << ((i - 1) as u64),
        i >= 1 ==> (1u64 << i) % 2 == 0,
        i == 0 ==> (1u64 << i) == 1,
        i < 63 ==> (1u64 << i) * 2 == 1u64 << ((i + 1) as u64),
        i == 63 ==> (1u64 << i) * 2 > 0xffff_ffff_ffff_ffff,
{
}

/// Only the empty word has no bit set.
pub proof fn lemma_popcount_zero(x: u64)
    ensures
        (popcount(x) == 0) == (x == 0),
    decreases x,
{
    if x != 0 {
        lemma_popcount_zero(x / 2);
    }
}

/// A word has exactly one bit set exactly if it is the word of one square.
pub proof fn lemma_popcount_one(x: u64)
    ensures
        (popcount(x) == 1) == (exists|i: int| 0 <= i < 64 && x == #[trigger] single(i)),
    decreases x,
{
    if x == 0 {
        assert forall|i: int| 0 <= i < 64 implies x != #[trigger] single(i) by {
            bv_halves(i as u64);
        }
    } else if x % 2 == 1 {
        lemma_popcount_zero(x / 2);
        if x == 1 {
            bv_halves(0);
            assert(x == single(0));
        } else {
            assert forall|i: int| 0 <= i < 64 implies x != #[trigger] single(i) by {
                bv_halves(i as u64);
            }
        }
    } else {
        let half = (x / 2) as u64;
        lemma_popcount_one(half);
        if popcount(half) == 1 {
            let j = choose|j: int| 0 <= j < 64 && half == #[trigger] single(j);
            bv_halves(j as u64);
            assert(x == single(j + 1));
        } else {
            assert forall|i: int| 0 <= i < 64 implies x != #[trigger] single(i) by {
                bv_halves(i as u64);
                if x == single(i) {
                    assert(i >= 1);
                    assert(half == single(i - 1));
                }
            }
        }
    }
}

} // verus!
