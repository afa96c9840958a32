//! Single-bit facts about `u16` and `u32` words, proved with the bit-vector
//! solver once here and reused by the digit masks and the banded cell sets.

use vstd::prelude::*;

verus! {

/// Bit `k` of a 16-bit mask.
pub open spec fn bit16(m: u16, k: u16) -> bool {
    (m >> k) & 1u16 == 1u16
}

/// Bit `k` of a 32-bit word.
pub open spec fn bit32(m: u32, k: u32) -> bool {
    (m >> k) & 1u32 == 1u32
}

pub proof fn lemma_bit16_and(a: u16, b: u16, k: u16)
    requires
        k < 16,
    ensures
        bit16(a & b, k) == (bit16(a, k) && bit16(b, k)),
{
    assert(((a & b) >> k) & 1u16 == 1u16 <==> ((a >> k) & 1u16 == 1u16 && (b >> k) & 1u16 == 1u16))
        by (bit_vector)
        requires
            k < 16,
    ;
}

pub proof fn lemma_bit16_or(a: u16, b: u16, k: u16)
    requires
        k < 16,
    ensures
        bit16(a | b, k) == (bit16(a, k) || bit16(b, k)),
{
    assert(((a | b) >> k) & 1u16 == 1u16 <==> ((a >> k) & 1u16 == 1u16 || (b >> k) & 1u16 == 1u16))
        by (bit_vector)
        requires
            k < 16,
    ;
}

pub proof fn lemma_bit16_not(a: u16, k: u16)
    requires
        k < 16,
    ensures
        bit16(!a, k) == !bit16(a, k),
{
    assert(((!a) >> k) & 1u16 == 1u16 <==> !((a >> k) & 1u16 == 1u16)) by (bit_vector)
        requires
            k < 16,
    ;
}

pub proof fn lemma_bit16_one(j: u16, k: u16)
    requires
        j < 16,
        k < 16,
    ensures
        bit16(1u16 << j, k) == (j == k),
{
    assert(((1u16 << j) >> k) & 1u16 == 1u16 <==> j == k) by (bit_vector)
        requires
            j < 16,
            k < 16,
    ;
}

pub proof fn lemma_bit16_zero(k: u16)
    ensures
        !bit16(0u16, k),
{
    assert((0u16 >> k) & 1u16 != 1u16) by (bit_vector);
}

/// The digit mask `0x1FF` holds exactly the bits below 9.
pub proof fn lemma_bit16_all9(k: u16)
    requires
        k < 16,
    ensures
        bit16(0x1FFu16, k) == (k < 9),
{
    assert(k < 16 ==> (((0x1FFu16 >> k) & 1u16 == 1u16) == (k < 9))) by (bit_vector);
}

/// Testing a bit by masking.
pub proof fn lemma_bit16_test(m: u16, k: u16)
    requires
        k < 16,
    ensures
        ((m & (1u16 << k)) == 0) == !bit16(m, k),
{
    assert(k < 16 ==> (((m & (1u16 << k)) == 0u16) == !((m >> k) & 1u16 == 1u16))) by (bit_vector);
}

/// `m & (m - 1)` clears the lowest set bit `k`.
pub proof fn lemma_bit16_clear_lowest(m: u16, k: u16)
    requires
        m != 0,
        k < 16,
        bit16(m, k),
        m << ((16 - k) as u16) == 0,
    ensures
        m & ((m - 1) as u16) == m & !(1u16 << k),
{
    let lowk = (16 - k) as u16;
    assert(m & ((m - 1) as u16) == m & !(1u16 << k)) by (bit_vector)
        requires
            m != 0,
            k < 16,
            (m >> k) & 1u16 == 1u16,
            lowk == 16 - k,
            m << lowk == 0u16,
    ;
}

/// A subset is numerically no larger.
pub proof fn lemma_bit16_andnot_le(a: u16, b: u16)
    ensures
        a & !b <= a,
{
    assert(a & !b <= a) by (bit_vector);
}

/// A mask below `2^9` has no bit at or above 9.
pub proof fn lemma_bit16_low9(a: u16, k: u16)
    requires
        a < 512,
        9 <= k,
    ensures
        !bit16(a, k),
{
    assert(a < 512 && 9 <= k ==> (a >> k) & 1u16 != 1u16) by (bit_vector);
}

/// A mask whose bits all lie below 9 is below `2^9`.
pub proof fn lemma_bit16_bound9(a: u16)
    requires
        forall|k: u16| 9 <= k < 16 ==> !bit16(a, k),
    ensures
        a < 512,
{
    assert(!bit16(a, 9));
    assert(!bit16(a, 10));
    assert(!bit16(a, 11));
    assert(!bit16(a, 12));
    assert(!bit16(a, 13));
    assert(!bit16(a, 14));
    assert(!bit16(a, 15));
    assert(a < 512) by (bit_vector)
        requires
            (a >> 9u16) & 1u16 != 1u16,
            (a >> 10u16) & 1u16 != 1u16,
            (a >> 11u16) & 1u16 != 1u16,
            (a >> 12u16) & 1u16 != 1u16,
            (a >> 13u16) & 1u16 != 1u16,
            (a >> 14u16) & 1u16 != 1u16,
            (a >> 15u16) & 1u16 != 1u16,
    ;
}

/// Two masks with the same bits are equal.
pub proof fn lemma_bit16_ext(a: u16, b: u16)
    requires
        forall|k: u16| k < 16 ==> bit16(a, k) == bit16(b, k),
    ensures
        a == b,
{
    assert(bit16(a, 0) == bit16(b, 0));
    assert(bit16(a, 1) == bit16(b, 1));
    assert(bit16(a, 2) == bit16(b, 2));
    assert(bit16(a, 3) == bit16(b, 3));
    assert(bit16(a, 4) == bit16(b, 4));
    assert(bit16(a, 5) == bit16(b, 5));
    assert(bit16(a, 6) == bit16(b, 6));
    assert(bit16(a, 7) == bit16(b, 7));
    assert(bit16(a, 8) == bit16(b, 8));
    assert(bit16(a, 9) == bit16(b, 9));
    assert(bit16(a, 10) == bit16(b, 10));
    assert(bit16(a, 11) == bit16(b, 11));
    assert(bit16(a, 12) == bit16(b, 12));
    assert(bit16(a, 13) == bit16(b, 13));
    assert(bit16(a, 14) == bit16(b, 14));
    assert(bit16(a, 15) == bit16(b, 15));
    assert(a == b) by (bit_vector)
        requires
            ((a >> 0u16) & 1u16 == 1u16) == ((b >> 0u16) & 1u16 == 1u16),
            ((a >> 1u16) & 1u16 == 1u16) == ((b >> 1u16) & 1u16 == 1u16),
            ((a >> 2u16) & 1u16 == 1u16) == ((b >> 2u16) & 1u16 == 1u16),
            ((a >> 3u16) & 1u16 == 1u16) == ((b >> 3u16) & 1u16 == 1u16),
            ((a >> 4u16) & 1u16 == 1u16) == ((b >> 4u16) & 1u16 == 1u16),
            ((a >> 5u16) & 1u16 == 1u16) == ((b >> 5u16) & 1u16 == 1u16),
            ((a >> 6u16) & 1u16 == 1u16) == ((b >> 6u16) & 1u16 == 1u16),
            ((a >> 7u16) & 1u16 == 1u16) == ((b >> 7u16) & 1u16 == 1u16),
            ((a >> 8u16) & 1u16 == 1u16) == ((b >> 8u16) & 1u16 == 1u16),
            ((a >> 9u16) & 1u16 == 1u16) == ((b >> 9u16) & 1u16 == 1u16),
            ((a >> 10u16) & 1u16 == 1u16) == ((b >> 10u16) & 1u16 == 1u16),
            ((a >> 11u16) & 1u16 == 1u16) == ((b >> 11u16) & 1u16 == 1u16),
            ((a >> 12u16) & 1u16 == 1u16) == ((b >> 12u16) & 1u16 == 1u16),
            ((a >> 13u16) & 1u16 == 1u16) == ((b >> 13u16) & 1u16 == 1u16),
            ((a >> 14u16) & 1u16 == 1u16) == ((b >> 14u16) & 1u16 == 1u16),
            ((a >> 15u16) & 1u16 == 1u16) == ((b >> 15u16) & 1u16 == 1u16),
    ;
}

/// `0 & x == 0` for masks.
pub proof fn lemma_bit16_zero_and(x: u16)
    ensures
        0u16 & x == 0u16,
{
    assert forall|k: u16| k < 16 implies bit16(0u16 & x, k) == bit16(0u16, k) by {
        lemma_bit16_and(0u16, x, k);
        lemma_bit16_zero(k);
    }
    lemma_bit16_ext(0u16 & x, 0u16);
}

pub proof fn lemma_bit32_and(a: u32, b: u32, k: u32)
    requires
        k < 32,
    ensures
        bit32(a & b, k) == (bit32(a, k) && bit32(b, k)),
{
    assert(((a & b) >> k) & 1u32 == 1u32 <==> ((a >> k) & 1u32 == 1u32 && (b >> k) & 1u32 == 1u32))
        by (bit_vector)
        requires
            k < 32,
    ;
}

pub proof fn lemma_bit32_or(a: u32, b: u32, k: u32)
    requires
        k < 32,
    ensures
        bit32(a | b, k) == (bit32(a, k) || bit32(b, k)),
{
    assert(((a | b) >> k) & 1u32 == 1u32 <==> ((a >> k) & 1u32 == 1u32 || (b >> k) & 1u32 == 1u32))
        by (bit_vector)
        requires
            k < 32,
    ;
}

pub proof fn lemma_bit32_not(a: u32, k: u32)
    requires
        k < 32,
    ensures
        bit32(!a, k) == !bit32(a, k),
{
    assert(((!a) >> k) & 1u32 == 1u32 <==> !((a >> k) & 1u32 == 1u32)) by (bit_vector)
        requires
            k < 32,
    ;
}

pub proof fn lemma_bit32_one(j: u32, k: u32)
    requires
        j < 32,
        k < 32,
    ensures
        bit32(1u32 << j, k) == (j == k),
{
    assert(((1u32 << j) >> k) & 1u32 == 1u32 <==> j == k) by (bit_vector)
        requires
            j < 32,
            k < 32,
    ;
}

pub proof fn lemma_bit32_zero(k: u32)
    ensures
        !bit32(0u32, k),
{
    assert((0u32 >> k) & 1u32 != 1u32) by (bit_vector);
}

/// A word below `2^27` has no bit at or above 27.
pub proof fn lemma_bit32_low27(a: u32, k: u32)
    requires
        a < 0x800_0000,
        27 <= k,
    ensures
        !bit32(a, k),
{
    assert(a < 0x800_0000u32 && 27 <= k ==> (a >> k) & 1u32 != 1u32) by (bit_vector);
}

/// A word whose bits all lie below 27 is below `2^27`.
pub proof fn lemma_bit32_bound27(a: u32)
    requires
        forall|k: u32| 27 <= k < 32 ==> !bit32(a, k),
    ensures
        a < 0x800_0000,
{
    assert(!bit32(a, 27));
    assert(!bit32(a, 28));
    assert(!bit32(a, 29));
    assert(!bit32(a, 30));
    assert(!bit32(a, 31));
    assert(a < 0x800_0000u32) by (bit_vector)
        requires
            (a >> 27u32) & 1u32 != 1u32,
            (a >> 28u32) & 1u32 != 1u32,
            (a >> 29u32) & 1u32 != 1u32,
            (a >> 30u32) & 1u32 != 1u32,
            (a >> 31u32) & 1u32 != 1u32,
    ;
}

/// A nonzero word has a set bit; the zero word has none.
pub proof fn lemma_bit32_nonzero(a: u32)
    ensures
        a != 0 <==> exists|k: u32| k < 32 && bit32(a, k),
{
    if a != 0 {
        let k = a.trailing_zeros();
        vstd::std_specs::bits::axiom_u32_trailing_zeros(a);
        assert(k < 32 && bit32(a, k));
    } else {
        assert forall|k: u32| k < 32 implies !bit32(a, k) by {
            lemma_bit32_zero(k);
        }
    }
}

/// Two words with the same bits are equal.
pub proof fn lemma_bit32_ext(a: u32, b: u32)
    requires
        forall|k: u32| k < 32 ==> bit32(a, k) == bit32(b, k),
    ensures
        a == b,
{
    let x = a ^ b;
    assert forall|k: u32| k < 32 implies !bit32(x, k) by {
        assert(bit32(a, k) == bit32(b, k));
        lemma_bit32_xor(a, b, k);
    }
    lemma_bit32_nonzero(x);
    lemma_bit32_xor_zero(a, b);
}

proof fn lemma_bit32_xor(a: u32, b: u32, k: u32)
    requires
        k < 32,
    ensures
        bit32(a ^ b, k) == (bit32(a, k) != bit32(b, k)),
{
    assert(k < 32 ==> (((a ^ b) >> k) & 1u32 == 1u32 <==> (((a >> k) & 1u32 == 1u32) != ((b >> k) & 1u32 == 1u32)))) by (bit_vector);
}

proof fn lemma_bit32_xor_zero(a: u32, b: u32)
    ensures
        (a ^ b == 0) ==> a == b,
{
    assert(a ^ b == 0u32 ==> a == b) by (bit_vector);
}

/// A subset is numerically no larger.
pub proof fn lemma_bit32_andnot_le(a: u32, b: u32)
    ensures
        a & !b <= a,
{
    assert(a & !b <= a) by (bit_vector);
}

/// In a word with `v & (v - 1) == 0` any two set bits coincide.
pub proof fn lemma_bit32_single(v: u32, k: u32, k2: u32)
    requires
        v & ((v - 1) as u32) == 0,
        k < 32,
        k2 < 32,
        bit32(v, k),
        bit32(v, k2),
    ensures
        k == k2,
{
    assert(v & ((v - 1) as u32) == 0u32 && k < 32 && k2 < 32 && (v >> k) & 1u32 == 1u32 && (v >> k2) & 1u32 == 1u32 ==> k == k2) by (bit_vector);
}

/// A set bit of `v & (v - 1)` is a bit of `v` other than its lowest bit `k`.
pub proof fn lemma_bit32_clear_lowest(v: u32, k: u32, k2: u32)
    requires
        v != 0,
        k < 32,
        bit32(v, k),
        v << ((32 - k) as u32) == 0,
        k2 < 32,
        bit32(v & ((v - 1) as u32), k2),
    ensures
        k2 != k,
        bit32(v, k2),
{
    let lowk = (32 - k) as u32;
    assert(v != 0 && k < 32 && (v >> k) & 1u32 == 1u32 && lowk == 32 - k && v << lowk == 0u32 && k2 < 32 && ((v & ((v - 1) as u32)) >> k2) & 1u32 == 1u32 ==> k2 != k && (v >> k2) & 1u32 == 1u32) by (bit_vector);
}

/// Halving respects subsets: the step of the bit-count comparison.
pub proof fn lemma_bit32_half(x: u32, y: u32)
    requires
        y & !x == 0,
    ensures
        x == 0 ==> y == 0,
        (y / 2) & !(x / 2) == 0,
        y % 2 <= x % 2,
        y != x ==> (y % 2 != x % 2 || y / 2 != x / 2),
{
    assert(y & !x == 0u32 ==> ((x == 0u32 ==> y == 0u32) && (y / 2) & !(x / 2) == 0u32 && y % 2 <= x % 2 && (y != x ==> (y % 2 != x % 2 || y / 2 != x / 2)))) by (bit_vector);
}


/// Bit `s` of a shifted, 9-bit-masked chunk is bit `sh + s` of the word.
pub proof fn lemma_bit32_chunk9(x: u32, sh: u32, s: u32)
    requires
        sh + s < 32,
    ensures
        bit32((x >> sh) & 0x1FFu32, s) == (s < 9 && bit32(x, (sh + s) as u32)),
{
    assert(sh + s < 32 ==> ((((x >> sh) & 0x1FFu32) >> s) & 1u32 == 1u32) == (s < 9 && (x >> ((sh + s) as u32)) & 1u32 == 1u32)) by (bit_vector);
}

/// Bit `t` of `o << sh` is bit `t - sh` of `o`.
pub proof fn lemma_bit32_shl(o: u32, sh: u32, t: u32)
    requires
        sh < 32,
        t < 32,
    ensures
        bit32(o << sh, t) == (t >= sh && bit32(o, (t - sh) as u32)),
{
    assert(sh < 32 && t < 32 ==> ((((o << sh) >> t) & 1u32 == 1u32) == (t >= sh && (o >> ((t - sh) as u32)) & 1u32 == 1u32))) by (bit_vector);
}

/// The three-bit group at `3j` of `v` is nonzero iff one of its bits is set.
pub proof fn lemma_bit32_trip(v: u32, j: u32)
    requires
        j < 10,
    ensures
        ((v & (7u32 << (3 * j))) != 0) == (bit32(v, (3 * j) as u32) || bit32(v, (3 * j + 1) as u32) || bit32(v, (3 * j + 2) as u32)),
        forall|k: u32| k < 32 ==> #[trigger] bit32(7u32 << (3 * j), k) == (3 * j <= k < 3 * j + 3),
{
    assert(j < 10 ==> (((v & (7u32 << (3 * j))) != 0u32) == ((v >> (3 * j)) & 1u32 == 1u32 || (v >> ((3 * j + 1) as u32)) & 1u32 == 1u32 || (v >> ((3 * j + 2) as u32)) & 1u32 == 1u32))) by (bit_vector);
    assert forall|k: u32| k < 32 implies #[trigger] bit32(7u32 << (3 * j), k) == (3 * j <= k < 3 * j + 3) by {
        assert(j < 10 && k < 32 ==> ((((7u32 << (3 * j)) >> k) & 1u32 == 1u32) == (3 * j <= k && k < 3 * j + 3))) by (bit_vector);
    }
}


/// The box gather of a band word: bits `3k..3k+3` of each of the three 9-bit
/// rows, packed into nine bits; bit `s` is bit `9 (s / 3) + 3k + s % 3`.
pub proof fn lemma_bit32_gather(v: u32, k: u32, s: u32)
    requires
        k < 3,
        s < 9,
    ensures
        ((v >> (3 * k)) & 7u32) | (((v >> ((9 + 3 * k) as u32)) & 7u32) << 3u32) | (((v >> ((18 + 3 * k) as u32)) & 7u32) << 6u32) < 512,
        bit32(((v >> (3 * k)) & 7u32) | (((v >> ((9 + 3 * k) as u32)) & 7u32) << 3u32) | (((v >> ((18 + 3 * k) as u32)) & 7u32) << 6u32), s)
            == bit32(v, ((s / 3) * 9 + 3 * k + s % 3) as u32),
{
    assert(k < 3 && s < 9 ==> (((v >> (3 * k)) & 7u32) | (((v >> ((9 + 3 * k) as u32)) & 7u32) << 3u32) | (((v >> ((18 + 3 * k) as u32)) & 7u32) << 6u32) < 512
        && (((((v >> (3 * k)) & 7u32) | (((v >> ((9 + 3 * k) as u32)) & 7u32) << 3u32) | (((v >> ((18 + 3 * k) as u32)) & 7u32) << 6u32)) >> s) & 1u32 == 1u32)
        == ((v >> (((s / 3) * 9 + 3 * k + s % 3) as u32)) & 1u32 == 1u32))) by (bit_vector);
}

/// Testing bit `t` of a word by masking.
pub proof fn lemma_bit32_test(x: u32, t: u32)
    requires
        t < 32,
    ensures
        ((x & (1u32 << t)) != 0) == bit32(x, t),
{
    lemma_bit32_and(x, 1u32 << t, t);
    lemma_bit32_one(t, t);
    lemma_bit32_nonzero(x & (1u32 << t));
    if x & (1u32 << t) != 0 {
        let k = choose|k: u32| k < 32 && bit32(x & (1u32 << t), k);
        lemma_bit32_and(x, 1u32 << t, k);
        lemma_bit32_one(t, k);
    }
}


/// Bit `k + 1` of `m` is bit `k` of `m / 2`, and bit 0 is `m`'s parity.
pub proof fn lemma_bit16_half(m: u16, k: u16)
    requires
        k < 15,
    ensures
        bit16(m, (k + 1) as u16) == bit16(m / 2, k),
        bit16(m, 0) == (m % 2 == 1),
{
    assert(k < 15 ==> ((((m >> ((k + 1) as u16)) & 1u16) == 1u16) == ((((m / 2) >> k) & 1u16) == 1u16)) && ((((m >> 0u16)
        & 1u16) == 1u16) == (m % 2 == 1))) by (bit_vector);
}

} // verus!
