//! Banding layout. A band is three rows (27 cells, three boxes side by side) in
//! one `u32`; a board-wide cell set is three bands. Two bandings are kept:
//!
//! - **row-major** (`r`): cell `j` sits in lane `j / 27`, bit `j % 27`, so rows
//!   and boxes are in-lane;
//! - **column-major** (`c`): the transposed grid banded the same way (lane
//!   `col / 3`, bit `(col % 3) * 9 + row`), so columns and boxes are in-lane.
//!
//! This module holds the cell <-> (lane, bit) maps, the unit / peer / triplet
//! masks, the within-band locked-candidates and hidden-single lookups, and the
//! small band-set helpers, each with its meaning as a set of cells.

use vstd::prelude::*;
use crate::bits::{bit32, lemma_bit32_and, lemma_bit32_or, lemma_bit32_not, lemma_bit32_one, lemma_bit32_zero, lemma_bit32_low27, lemma_bit32_bound27, lemma_bit32_nonzero, lemma_bit32_ext, lemma_bit32_andnot_le, lemma_bit32_single, lemma_bit32_clear_lowest, lemma_bit32_half, lemma_bit32_chunk9, lemma_bit32_shl, lemma_bit32_trip};
use crate::grid::{is_peer, row_spec, col_spec, box_spec};

verus! {

/// A cell set: three 27-bit bands.
pub type B = [u32; 3];

/// The empty cell set.
pub const ZERO: B = [0u32, 0u32, 0u32];

/// Every band holds bits `0..27` only.
pub open spec fn band_ok(x: B) -> bool {
    x[0] < 0x800_0000 && x[1] < 0x800_0000 && x[2] < 0x800_0000
}

/// Membership of row-major position `p` (cell `p` of the row-major banding).
pub open spec fn has_pos(x: B, p: int) -> bool {
    bit32(x[p / 27], (p % 27) as u32)
}

/// The transpose of cell `j` (row and column swapped).
pub open spec fn tr(j: int) -> int {
    (j % 9) * 9 + j / 9
}

/// Cell `j` is in `x` read as a row-major set.
pub open spec fn in_r(x: B, j: int) -> bool {
    has_pos(x, j)
}

/// Cell `j` is in `x` read as a column-major set.
pub open spec fn in_c(x: B, j: int) -> bool {
    has_pos(x, tr(j))
}

pub proof fn lemma_tr(j: int)
    requires
        0 <= j < 81,
    ensures
        0 <= tr(j) < 81,
        tr(tr(j)) == j,
        row_spec(tr(j)) == col_spec(j),
        col_spec(tr(j)) == row_spec(j),
{
    let r = j / 9;
    let c = j % 9;
    assert(j == r * 9 + c);
    assert(0 <= r < 9 && 0 <= c < 9);
    let t = c * 9 + r;
    vstd::arithmetic::div_mod::lemma_fundamental_div_mod_converse(t, 9, c, r);
    assert(tr(j) == t);
    assert(t % 9 == r && t / 9 == c);
    vstd::arithmetic::div_mod::lemma_fundamental_div_mod_converse(j, 9, r, c);
}

/// Transposition maps boxes to boxes and so preserves the peer relation.
pub proof fn lemma_tr_peer(i: int, j: int)
    requires
        0 <= i < 81,
        0 <= j < 81,
    ensures
        is_peer(tr(i), tr(j)) == is_peer(i, j),
        (tr(i) == tr(j)) == (i == j),
{
    lemma_tr(i);
    lemma_tr(j);
    lemma_box_tr(i);
    lemma_box_tr(j);
}

/// The box of a transposed cell is the transposed box.
pub proof fn lemma_box_tr(j: int)
    requires
        0 <= j < 81,
    ensures
        box_spec(tr(j)) == (box_spec(j) % 3) * 3 + box_spec(j) / 3,
{
    lemma_tr(j);
    let r = j / 9;
    let c = j % 9;
    assert(0 <= r < 9 && 0 <= c < 9);
    assert(box_spec(j) == (r / 3) * 3 + c / 3);
    assert(box_spec(tr(j)) == (c / 3) * 3 + r / 3);
    let b = (r / 3) * 3 + c / 3;
    assert(0 <= r / 3 < 3 && 0 <= c / 3 < 3);
    vstd::arithmetic::div_mod::lemma_fundamental_div_mod_converse(b, 3, r / 3, c / 3);
}

/// A cell's row-major lane and bit.
pub proof fn lemma_pos(j: int)
    requires
        0 <= j < 81,
    ensures
        0 <= j / 27 < 3,
        0 <= j % 27 < 27,
        j == 27 * (j / 27) + j % 27,
        row_spec(j) == 3 * (j / 27) + (j % 27) / 9,
        col_spec(j) == (j % 27) % 9,
        box_spec(j) == 3 * (j / 27) + ((j % 27) % 9) / 3,
{
    let l = j / 27;
    let k = j % 27;
    assert(j == 27 * l + k);
    assert(0 <= k < 27);
    let r = j / 9;
    let c = j % 9;
    vstd::arithmetic::div_mod::lemma_fundamental_div_mod_converse(j, 9, 3 * l + k / 9, k % 9);
    assert(r == 3 * l + k / 9);
    assert(c == k % 9);
    vstd::arithmetic::div_mod::lemma_fundamental_div_mod_converse(r, 3, l, k / 9);
}

/// Positions in different lanes or at different bits are different cells.
pub proof fn lemma_pos_inj(p: int, q: int)
    requires
        0 <= p < 81,
        0 <= q < 81,
    ensures
        (p == q) == (p / 27 == q / 27 && p % 27 == q % 27),
{
    lemma_pos(p);
    lemma_pos(q);
}

/// The row-major lane of cell `cell`.
pub fn rm_lane(cell: usize) -> (r: usize)
    requires
        cell < 81,
    ensures
        r == cell / 27,
        r < 3,
{
    (cell / 9) / 3
}

/// The row-major bit of cell `cell`.
pub fn rm_bit(cell: usize) -> (r: usize)
    requires
        cell < 81,
    ensures
        r == cell % 27,
        r < 27,
{
    proof {
        lemma_pos(cell as int);
    }
    ((cell / 9) % 3) * 9 + cell % 9
}

/// The column-major lane of cell `cell`.
pub fn cm_lane(cell: usize) -> (r: usize)
    requires
        cell < 81,
    ensures
        r == tr(cell as int) / 27,
        r < 3,
{
    proof {
        lemma_tr(cell as int);
        lemma_pos(tr(cell as int));
    }
    (cell % 9) / 3
}

/// The column-major bit of cell `cell`.
pub fn cm_bit(cell: usize) -> (r: usize)
    requires
        cell < 81,
    ensures
        r == tr(cell as int) % 27,
        r < 27,
{
    proof {
        lemma_tr(cell as int);
        lemma_pos(tr(cell as int));
    }
    ((cell % 9) % 3) * 9 + cell / 9
}

/// The cell at row-major (lane, bit).
pub fn rm_cell(lane: usize, bit: u32) -> (r: usize)
    requires
        lane < 3,
        bit < 27,
    ensures
        r == 27 * lane + bit,
        r < 81,
{
    let b = bit as usize;
    (3 * lane + b / 9) * 9 + b % 9
}

/// The cell at column-major (lane, bit).
pub fn cm_cell(lane: usize, bit: u32) -> (r: usize)
    requires
        lane < 3,
        bit < 27,
    ensures
        tr(r as int) == 27 * lane + bit,
        r == tr(27 * lane + bit),
        r < 81,
{
    let b = bit as usize;
    let p = 27 * lane + b;
    proof {
        lemma_tr(p as int);
        lemma_pos(p as int);
    }
    (b % 9) * 9 + (3 * lane + b / 9)
}


/// Lane-wise intersection.
pub fn band_and(a: B, b: B) -> (r: B)
    ensures
        r[0] == a[0] & b[0],
        r[1] == a[1] & b[1],
        r[2] == a[2] & b[2],
{
    [a[0] & b[0], a[1] & b[1], a[2] & b[2]]
}

/// Lane-wise union.
pub fn band_or(a: B, b: B) -> (r: B)
    ensures
        r[0] == a[0] | b[0],
        r[1] == a[1] | b[1],
        r[2] == a[2] | b[2],
{
    [a[0] | b[0], a[1] | b[1], a[2] | b[2]]
}

/// Lane-wise difference `a & !b`.
pub fn band_andnot(a: B, b: B) -> (r: B)
    ensures
        r[0] == a[0] & !b[0],
        r[1] == a[1] & !b[1],
        r[2] == a[2] & !b[2],
{
    [a[0] & !b[0], a[1] & !b[1], a[2] & !b[2]]
}

pub proof fn lemma_pos_and(x: B, a: B, b: B, p: int)
    requires
        0 <= p < 81,
        x[0] == a[0] & b[0],
        x[1] == a[1] & b[1],
        x[2] == a[2] & b[2],
    ensures
        has_pos(x, p) == (has_pos(a, p) && has_pos(b, p)),
{
    lemma_pos(p);
    let l = p / 27;
    lemma_bit32_and(a[l], b[l], (p % 27) as u32);
}

pub proof fn lemma_pos_or(x: B, a: B, b: B, p: int)
    requires
        0 <= p < 81,
        x[0] == a[0] | b[0],
        x[1] == a[1] | b[1],
        x[2] == a[2] | b[2],
    ensures
        has_pos(x, p) == (has_pos(a, p) || has_pos(b, p)),
{
    lemma_pos(p);
    let l = p / 27;
    lemma_bit32_or(a[l], b[l], (p % 27) as u32);
}

pub proof fn lemma_pos_andnot(x: B, a: B, b: B, p: int)
    requires
        0 <= p < 81,
        x[0] == a[0] & !b[0],
        x[1] == a[1] & !b[1],
        x[2] == a[2] & !b[2],
    ensures
        has_pos(x, p) == (has_pos(a, p) && !has_pos(b, p)),
{
    lemma_pos(p);
    let l = p / 27;
    lemma_bit32_and(a[l], !b[l], (p % 27) as u32);
    lemma_bit32_not(b[l], (p % 27) as u32);
}

/// Set operations on words keep them within 27 bits.
pub proof fn lemma_word27_ops(a: u32, b: u32)
    requires
        a < 0x800_0000,
        b < 0x800_0000,
    ensures
        a & b < 0x800_0000,
        a | b < 0x800_0000,
        a & !b < 0x800_0000,
{
    assert forall|k: u32| 27 <= k < 32 implies !bit32(a & b, k) by {
        lemma_bit32_and(a, b, k);
        lemma_bit32_low27(a, k);
    }
    assert forall|k: u32| 27 <= k < 32 implies !bit32(a | b, k) by {
        lemma_bit32_or(a, b, k);
        lemma_bit32_low27(a, k);
        lemma_bit32_low27(b, k);
    }
    assert forall|k: u32| 27 <= k < 32 implies !bit32(a & !b, k) by {
        lemma_bit32_and(a, !b, k);
        lemma_bit32_low27(a, k);
    }
    lemma_bit32_bound27(a & b);
    lemma_bit32_bound27(a | b);
    lemma_bit32_bound27(a & !b);
}

/// `1 << k` for `k < 27` is a 27-bit word.
pub proof fn lemma_one27(k: u32)
    requires
        k < 27,
    ensures
        1u32 << k < 0x800_0000,
{
    assert forall|j: u32| 27 <= j < 32 implies !bit32(1u32 << k, j) by {
        lemma_bit32_one(k, j);
    }
    lemma_bit32_bound27(1u32 << k);
}

/// A set bit of a word below `2^27` is below 27.
pub proof fn lemma_bit_below27(a: u32, k: u32)
    requires
        a < 0x800_0000,
        bit32(a, k),
    ensures
        k < 27,
{
    if k >= 27 {
        lemma_bit32_low27(a, k);
    }
}

/// Set operations keep bands within 27 bits.
pub proof fn lemma_ok_ops(a: B, b: B)
    requires
        band_ok(a),
        band_ok(b),
    ensures
        a[0] & b[0] < 0x800_0000 && a[1] & b[1] < 0x800_0000 && a[2] & b[2] < 0x800_0000,
        a[0] | b[0] < 0x800_0000 && a[1] | b[1] < 0x800_0000 && a[2] | b[2] < 0x800_0000,
        a[0] & !b[0] < 0x800_0000 && a[1] & !b[1] < 0x800_0000 && a[2] & !b[2] < 0x800_0000,
{
    lemma_word27_ops(a[0], b[0]);
    lemma_word27_ops(a[1], b[1]);
    lemma_word27_ops(a[2], b[2]);
}

/// Two band-limited sets with the same positions are equal.
pub proof fn lemma_band_ext(a: B, b: B)
    requires
        band_ok(a),
        band_ok(b),
        forall|p: int| 0 <= p < 81 ==> #[trigger] has_pos(a, p) == has_pos(b, p),
    ensures
        a == b,
{
    assert forall|l: int| 0 <= l < 3 implies a[l] == b[l] by {
        assert forall|k: u32| k < 32 implies bit32(a[l], k) == bit32(b[l], k) by {
            if k < 27 {
                let p = 27 * l + k;
                lemma_pos(p);
                assert(has_pos(a, p) == has_pos(b, p));
            } else {
                lemma_bit32_low27(a[l], k);
                lemma_bit32_low27(b[l], k);
            }
        }
        lemma_bit32_ext(a[l], b[l]);
    }
    assert(a =~= b);
}

/// The empty set has no position.
pub proof fn lemma_zero_pos(p: int)
    requires
        0 <= p < 81,
    ensures
        !has_pos(ZERO, p),
{
    lemma_pos(p);
    lemma_bit32_zero((p % 27) as u32);
}

/// The set holding only row-major position `p`.
pub fn single(p: usize) -> (r: B)
    requires
        p < 81,
    ensures
        band_ok(r),
        forall|q: int| 0 <= q < 81 ==> #[trigger] has_pos(r, q) == (q == p),
{
    let lane = p / 27;
    let bit = (p % 27) as u32;
    let mut r: B = [0u32, 0u32, 0u32];
    r[lane] = 1u32 << bit;
    proof {
        assert forall|k: u32| 27 <= k < 32 implies !bit32(1u32 << bit, k) by {
            lemma_bit32_one(bit, k);
        }
        lemma_bit32_bound27(1u32 << bit);
        assert forall|q: int| 0 <= q < 81 implies #[trigger] has_pos(r, q) == (q == p) by {
            lemma_pos(q);
            lemma_pos(p as int);
            if q / 27 == lane {
                lemma_bit32_one(bit, (q % 27) as u32);
            } else {
                lemma_bit32_zero((q % 27) as u32);
            }
        }
    }
    r
}

/// The row-major set of cell `c`.
pub fn bit_r(c: usize) -> (r: B)
    requires
        c < 81,
    ensures
        band_ok(r),
        forall|j: int| 0 <= j < 81 ==> #[trigger] in_r(r, j) == (j == c),
{
    single(c)
}

/// The column-major set of cell `c`.
pub fn bit_c(c: usize) -> (r: B)
    requires
        c < 81,
    ensures
        band_ok(r),
        forall|j: int| 0 <= j < 81 ==> #[trigger] in_c(r, j) == (j == c),
{
    proof {
        lemma_tr(c as int);
    }
    let t = (c % 9) * 9 + c / 9;
    let r = single(t);
    proof {
        assert forall|j: int| 0 <= j < 81 implies #[trigger] in_c(r, j) == (j == c) by {
            lemma_tr_peer(j, c as int);
            lemma_tr(j);
        }
    }
    r
}


proof fn lemma_rowband_bit(rr: u32, k: u32)
    requires
        rr < 3,
        k < 27,
    ensures
        bit32(0x1FFu32 << (9 * rr), k) == (k / 9 == rr),
        0x1FFu32 << (9 * rr) < 0x800_0000,
{
    assert(rr < 3 && k < 27 ==> ((((0x1FFu32 << (9 * rr)) >> k) & 1u32 == 1u32) == (k / 9 == rr)) && 0x1FFu32 << (9 * rr) < 0x800_0000u32) by (bit_vector);
}

proof fn lemma_colband_bit(c: u32, k: u32)
    requires
        c < 9,
        k < 27,
    ensures
        bit32(0x40201u32 << c, k) == (k % 9 == c),
        0x40201u32 << c < 0x800_0000,
{
    assert(c < 9 && k < 27 ==> ((((0x40201u32 << c) >> k) & 1u32 == 1u32) == (k % 9 == c)) && 0x40201u32 << c < 0x800_0000u32) by (bit_vector);
}

proof fn lemma_boxband_bit(g: u32, k: u32)
    requires
        g < 3,
        k < 27,
    ensures
        bit32(0x1C0E07u32 << (3 * g), k) == ((k % 9) / 3 == g),
        0x1C0E07u32 << (3 * g) < 0x800_0000,
{
    assert(g < 3 && k < 27 ==> ((((0x1C0E07u32 << (3 * g)) >> k) & 1u32 == 1u32) == ((k % 9) / 3 == g)) && 0x1C0E07u32 << (3 * g) < 0x800_0000u32) by (bit_vector);
}

/// Cell `j` belongs to unit `u` (rows `0..9`, columns `9..18`, boxes `18..27`).
pub open spec fn in_unit(u: int, j: int) -> bool {
    if u < 9 {
        row_spec(j) == u
    } else if u < 18 {
        col_spec(j) == u - 9
    } else {
        box_spec(j) == u - 18
    }
}

/// Unit `u` as a row-major set.
pub fn unit_mask_r(u: usize) -> (r: B)
    requires
        u < 27,
    ensures
        band_ok(r),
        forall|j: int| 0 <= j < 81 ==> #[trigger] in_r(r, j) == in_unit(u as int, j),
{
    let mut r: B = [0u32, 0u32, 0u32];
    if u < 9 {
        let rr = (u % 3) as u32;
        proof {
            lemma_rowband_bit(rr, 0);
        }
        r[u / 3] = 0x1FFu32 << (9 * rr);
        proof {
            assert forall|j: int| 0 <= j < 81 implies #[trigger] in_r(r, j) == in_unit(u as int, j) by {
                lemma_pos(j);
                let k = (j % 27) as u32;
                if j / 27 == u / 3 {
                    lemma_rowband_bit(rr, k);
                } else {
                    lemma_bit32_zero(k);
                }
            }
        }
    } else if u < 18 {
        let c = (u - 9) as u32;
        proof {
            lemma_colband_bit(c, 0);
        }
        let m = 0x40201u32 << c;
        r = [m, m, m];
        proof {
            assert forall|j: int| 0 <= j < 81 implies #[trigger] in_r(r, j) == in_unit(u as int, j) by {
                lemma_pos(j);
                lemma_colband_bit(c, (j % 27) as u32);
            }
        }
    } else {
        let b = u - 18;
        let g = (b % 3) as u32;
        proof {
            lemma_boxband_bit(g, 0);
        }
        r[b / 3] = 0x1C0E07u32 << (3 * g);
        proof {
            assert forall|j: int| 0 <= j < 81 implies #[trigger] in_r(r, j) == in_unit(u as int, j) by {
                lemma_pos(j);
                let k = (j % 27) as u32;
                if j / 27 == b / 3 {
                    lemma_boxband_bit(g, k);
                } else {
                    lemma_bit32_zero(k);
                }
            }
        }
    }
    r
}

/// The peers of row-major position `p`, as a row-major set.
pub fn peer_mask_pos(p: usize) -> (r: B)
    requires
        p < 81,
    ensures
        band_ok(r),
        forall|q: int| 0 <= q < 81 ==> #[trigger] has_pos(r, q) == is_peer(p as int, q),
{
    let lane = p / 27;
    let k = (p % 27) as u32;
    let rr = k / 9;
    let c = k % 9;
    let g = c / 3;
    proof {
        lemma_colband_bit(c, 0);
        lemma_rowband_bit(rr, 0);
        lemma_boxband_bit(g, 0);
    }
    let col = 0x40201u32 << c;
    let own = ((0x1FFu32 << (9 * rr)) | col | (0x1C0E07u32 << (3 * g))) & !(1u32 << k);
    let mut r: B = [col, col, col];
    r[lane] = own;
    proof {
        let (a, b2, cc) = (0x1FFu32 << (9 * rr), col, 0x1C0E07u32 << (3 * g));
        lemma_word27_ops(a, b2);
        lemma_word27_ops(a | b2, cc);
        lemma_one27(k);
        lemma_word27_ops(a | b2 | cc, 1u32 << k);
        lemma_pos(p as int);
        assert forall|q: int| 0 <= q < 81 implies #[trigger] has_pos(r, q) == is_peer(p as int, q) by {
            lemma_pos(q);
            let kq = (q % 27) as u32;
            lemma_colband_bit(c, kq);
            if q / 27 == lane {
                lemma_rowband_bit(rr, kq);
                lemma_boxband_bit(g, kq);
                lemma_bit32_and(a | b2 | cc, !(1u32 << k), kq);
                lemma_bit32_not(1u32 << k, kq);
                lemma_bit32_one(k, kq);
                lemma_bit32_or(a | b2, cc, kq);
                lemma_bit32_or(a, b2, kq);
                lemma_pos_inj(p as int, q);
            }
        }
    }
    r
}

/// The peers of cell `c`, row-major.
pub fn peer_mask_r(c: usize) -> (r: B)
    requires
        c < 81,
    ensures
        band_ok(r),
        forall|j: int| 0 <= j < 81 ==> #[trigger] in_r(r, j) == is_peer(c as int, j),
{
    peer_mask_pos(c)
}

/// The peers of cell `c`, column-major.
pub fn peer_mask_c(c: usize) -> (r: B)
    requires
        c < 81,
    ensures
        band_ok(r),
        forall|j: int| 0 <= j < 81 ==> #[trigger] in_c(r, j) == is_peer(c as int, j),
{
    proof {
        lemma_tr(c as int);
    }
    let t = (c % 9) * 9 + c / 9;
    let r = peer_mask_pos(t);
    proof {
        assert forall|j: int| 0 <= j < 81 implies #[trigger] in_c(r, j) == is_peer(c as int, j) by {
            lemma_tr_peer(c as int, j);
            lemma_tr(j);
        }
    }
    r
}


/// The set bits of `v` among its lowest `n`.
pub open spec fn bits_below(v: u32, n: int) -> nat
    decreases n,
{
    if n <= 0 {
        0
    } else {
        bits_below(v, n - 1) + if bit32(v, (n - 1) as u32) {
            1nat
        } else {
            0nat
        }
    }
}

/// Halving shifts the bits down by one.
proof fn lemma_bit32_halve(x: u32, k: u32)
    requires
        k < 31,
    ensures
        bit32(x, (k + 1) as u32) == bit32(x / 2, k),
        bit32(x, 0) == (x % 2 == 1),
        !bit32(x / 2, 31),
{
    assert(k < 31 ==> ((((x >> ((k + 1) as u32)) & 1u32) == 1u32) == ((((x / 2) >> k) & 1u32) == 1u32)) && ((((x >> 0u32) & 1u32)
        == 1u32) == (x % 2 == 1)) && (((x / 2) >> 31u32) & 1u32) != 1u32) by (bit_vector);
}

/// The low bit and the bits of the half make up the bits of a word.
proof fn lemma_bits_below_shift(v: u32, n: int)
    requires
        0 <= n <= 31,
    ensures
        bits_below(v, n + 1) == (v % 2) as nat + bits_below(v / 2, n),
    decreases n,
{
    lemma_bit32_halve(v, 0);
    if n > 0 {
        lemma_bits_below_shift(v, n - 1);
        lemma_bit32_halve(v, (n - 1) as u32);
    }
}

/// No bit of zero is set.
proof fn lemma_bits_below_zero(n: int)
    ensures
        bits_below(0u32, n) == 0,
    decreases n,
{
    if n > 0 {
        lemma_bits_below_zero(n - 1);
        lemma_bit32_zero((n - 1) as u32);
    }
}

/// The population count counts the set bits.
pub proof fn lemma_pc32_bits(v: u32)
    ensures
        pc32(v) == bits_below(v, 32),
    decreases v,
{
    if v == 0 {
        lemma_bits_below_zero(32);
    } else {
        lemma_pc32_bits(v / 2);
        lemma_bits_below_shift(v, 31);
        lemma_bit32_halve(v, 0);
        assert(bits_below(v / 2, 32) == bits_below(v / 2, 31));
    }
}

/// Bits at 27 and above add nothing to a band lane.
pub proof fn lemma_bits_below_27(v: u32, n: int)
    requires
        v < 0x800_0000,
        27 <= n <= 32,
    ensures
        bits_below(v, n) == bits_below(v, 27),
    decreases n,
{
    if n > 27 {
        lemma_bits_below_27(v, n - 1);
        lemma_bit32_low27(v, (n - 1) as u32);
    }
}

/// Number of set bits of a word.
pub open spec fn pc32(x: u32) -> nat
    decreases x,
{
    if x == 0 {
        0
    } else {
        (x % 2) as nat + pc32(x / 2)
    }
}

/// Number of set bits of a cell set.
pub open spec fn pcb(x: B) -> nat {
    pc32(x[0]) + pc32(x[1]) + pc32(x[2])
}

/// A nonzero word has a set bit.
pub proof fn lemma_pc32_pos(x: u32)
    requires
        x != 0,
    ensures
        pc32(x) > 0,
    decreases x,
{
    if x % 2 == 0 {
        lemma_pc32_pos((x / 2) as u32);
    }
}

/// A subset has no more bits, and a proper subset strictly fewer.
pub proof fn lemma_pc32_sub(x: u32, y: u32)
    requires
        y & !x == 0,
    ensures
        pc32(y) <= pc32(x),
        y != x ==> pc32(y) < pc32(x),
    decreases x,
{
    lemma_bit32_half(x, y);
    if x != 0 {
        lemma_pc32_sub(x / 2, y / 2);
    }
}

/// A cell set has a position iff it is nonzero.
pub proof fn lemma_nonzero_pos(x: B)
    requires
        band_ok(x),
    ensures
        (x[0] != 0 || x[1] != 0 || x[2] != 0) == exists|p: int| 0 <= p < 81 && #[trigger] has_pos(x, p),
{
    if x[0] != 0 || x[1] != 0 || x[2] != 0 {
        let l: int = if x[0] != 0 { 0 } else if x[1] != 0 { 1 } else { 2 };
        let w = x[l];
        crate::bits::lemma_bit32_nonzero(w);
        let k = choose|k: u32| k < 32 && bit32(w, k);
        lemma_bit_below27(w, k);
        let p = 27 * l + k;
        lemma_pos(p);
        assert(has_pos(x, p));
    } else {
        assert forall|p: int| 0 <= p < 81 implies !#[trigger] has_pos(x, p) by {
            lemma_pos(p);
            lemma_bit32_zero((p % 27) as u32);
        }
    }
}

/// Whether the set holds any cell.
pub fn nonzero(x: B) -> (r: bool)
    requires
        band_ok(x),
    ensures
        r == exists|p: int| 0 <= p < 81 && #[trigger] has_pos(x, p),
{
    proof {
        lemma_nonzero_pos(x);
    }
    x[0] != 0 || x[1] != 0 || x[2] != 0
}

/// Number of set bits of a word.
pub fn count_bits(x: u32) -> (r: u32)
    ensures
        r == pc32(x),
        r <= 32,
{
    let mut m = x;
    let mut n: u32 = 0;
    proof {
        lemma_pc32_bound(x);
    }
    while m != 0
        invariant
            n + pc32(m) == pc32(x),
            pc32(x) <= 32,
        decreases m,
    {
        n = n + m % 2;
        m = m / 2;
    }
    n
}

/// A word has at most 32 set bits.
pub proof fn lemma_pc32_bound(x: u32)
    ensures
        pc32(x) <= 32,
{
    reveal_with_fuel(crate::grid::pow2n, 33);
    assert(crate::grid::pow2n(32) == 0x1_0000_0000);
    lemma_pc32_pow(x, 32);
}

proof fn lemma_pc32_pow(x: u32, k: nat)
    requires
        x < crate::grid::pow2n(k),
    ensures
        pc32(x) <= k,
    decreases k,
{
    if k > 0 && x != 0 {
        assert(x / 2 < crate::grid::pow2n((k - 1) as nat));
        lemma_pc32_pow(x / 2, (k - 1) as nat);
    } else if k == 0 {
        assert(x == 0);
    }
}

/// Total number of cells in the set.
pub fn popcnt(x: B) -> (r: u32)
    ensures
        r == pcb(x),
        r <= 96,
{
    count_bits(x[0]) + count_bits(x[1]) + count_bits(x[2])
}

/// The set holds exactly one cell.
pub open spec fn one_pos(x: B) -> bool {
    exists|p: int| 0 <= p < 81 && #[trigger] has_pos(x, p) && forall|q: int| 0 <= q < 81 && #[trigger] has_pos(x, q) ==> q == p
}

proof fn lemma_two_bits(v: u32)
    requires
        v != 0,
        v & ((v - 1) as u32) != 0,
    ensures
        exists|k: u32, k2: u32| k < 32 && k2 < 32 && k != k2 && bit32(v, k) && bit32(v, k2),
{
    let k = v.trailing_zeros();
    vstd::std_specs::bits::axiom_u32_trailing_zeros(v);
    let w = v & ((v - 1) as u32);
    crate::bits::lemma_bit32_nonzero(w);
    let k2 = choose|k2: u32| k2 < 32 && bit32(w, k2);
    lemma_bit32_clear_lowest(v, k, k2);
    assert(bit32(v, k) && bit32(v, k2));
}

proof fn lemma_or3_nonzero(a: u32, b: u32, c: u32)
    requires
        a != 0 || b != 0 || c != 0,
    ensures
        a | b | c != 0,
{
    let w = if a != 0 { a } else if b != 0 { b } else { c };
    lemma_bit32_nonzero(w);
    let k = choose|k: u32| k < 32 && bit32(w, k);
    lemma_bit32_or(a | b, c, k);
    lemma_bit32_or(a, b, k);
    lemma_bit32_zero(k);
}

proof fn lemma_or3_one(a: u32, b: u32, c: u32, l: int)
    requires
        0 <= l < 3,
        l != 0 ==> a == 0,
        l != 1 ==> b == 0,
        l != 2 ==> c == 0,
    ensures
        a | b | c == if l == 0 { a } else if l == 1 { b } else { c },
{
    let w = if l == 0 { a } else if l == 1 { b } else { c };
    assert forall|k: u32| k < 32 implies bit32(a | b | c, k) == bit32(w, k) by {
        lemma_bit32_or(a | b, c, k);
        lemma_bit32_or(a, b, k);
        lemma_bit32_zero(k);
    }
    lemma_bit32_ext(a | b | c, w);
}

/// Whether the set holds exactly one cell.
pub fn exactly_one(x: B) -> (r: bool)
    requires
        band_ok(x),
    ensures
        r == one_pos(x),
{
    let (a, b, c) = (x[0], x[1], x[2]);
    let nz = (a != 0) as u32 + (b != 0) as u32 + (c != 0) as u32;
    let res = if nz == 1 {
        let v = a | b | c;
        assert(v != 0) by {
            lemma_or3_nonzero(a, b, c);
        }
        v & (v - 1) == 0
    } else {
        false
    };
    proof {
        if nz == 1 {
            let l: int = if a != 0 { 0 } else if b != 0 { 1 } else { 2 };
            let v = a | b | c;
            assert(v == x[l]) by {
                lemma_or3_one(a, b, c, l);
            }
            let vv = x[l];
            if vv & ((vv - 1) as u32) == 0 {
                crate::bits::lemma_bit32_nonzero(vv);
                let k = choose|k: u32| k < 32 && bit32(vv, k);
                lemma_bit_below27(vv, k);
                let p = 27 * l + k;
                lemma_pos(p);
                assert(has_pos(x, p));
                assert forall|q: int| 0 <= q < 81 && #[trigger] has_pos(x, q) implies q == p by {
                    lemma_pos(q);
                    if q / 27 != l {
                        assert(x[q / 27] == 0);
                        lemma_bit32_zero((q % 27) as u32);
                    } else {
                        lemma_bit32_single(vv, k, (q % 27) as u32);
                    }
                }
                assert(one_pos(x));
            } else {
                lemma_two_bits(vv);
                let (k, k2) = choose|k: u32, k2: u32| k < 32 && k2 < 32 && k != k2 && bit32(vv, k) && bit32(vv, k2);
                lemma_bit_below27(vv, k);
                lemma_bit_below27(vv, k2);
                let p = 27 * l + k;
                let p2 = 27 * l + k2;
                lemma_pos(p);
                lemma_pos(p2);
                assert(has_pos(x, p) && has_pos(x, p2) && p != p2);
            }
        } else if nz == 0 {
            assert(a == 0 && b == 0 && c == 0);
            lemma_nonzero_pos(x);
        } else {
            let l1: int = if a != 0 { 0 } else { 1 };
            let l2: int = if c != 0 { 2 } else { 1 };
            assert(l1 != l2);
            assert(x[l1] != 0 && x[l2] != 0);
            crate::bits::lemma_bit32_nonzero(x[l1]);
            crate::bits::lemma_bit32_nonzero(x[l2]);
            let k = choose|k: u32| k < 32 && bit32(x[l1], k);
            let k2 = choose|k: u32| k < 32 && bit32(x[l2], k);
            lemma_bit_below27(x[l1], k);
            lemma_bit_below27(x[l2], k2);
            let p = 27 * l1 + k;
            let p2 = 27 * l2 + k2;
            lemma_pos(p);
            lemma_pos(p2);
            assert(has_pos(x, p) && has_pos(x, p2) && p != p2);
        }
    }
    res
}

/// Whether the set holds two or more cells.
pub fn at_least_two(x: B) -> (r: bool)
    requires
        band_ok(x),
    ensures
        r == ((exists|p: int| 0 <= p < 81 && #[trigger] has_pos(x, p)) && !one_pos(x)),
{
    nonzero(x) && !exactly_one(x)
}

/// The lowest cell of a nonempty row-major set.
pub fn first_rm(x: B) -> (r: usize)
    requires
        band_ok(x),
        exists|p: int| 0 <= p < 81 && #[trigger] has_pos(x, p),
    ensures
        r < 81,
        has_pos(x, r as int),
        forall|q: int| 0 <= q < r ==> !#[trigger] has_pos(x, q),
{
    proof {
        lemma_nonzero_pos(x);
    }
    let lane: usize = if x[0] != 0 { 0 } else if x[1] != 0 { 1 } else { 2 };
    let w = x[lane];
    let k = w.trailing_zeros();
    proof {
        vstd::std_specs::bits::axiom_u32_trailing_zeros(w);
        lemma_bit_below27(w, k);
    }
    let r = rm_cell(lane, k);
    proof {
        lemma_pos(r as int);
        assert forall|q: int| 0 <= q < r implies !#[trigger] has_pos(x, q) by {
            lemma_pos(q);
            if q / 27 == lane {
                assert(((w >> ((q % 27) as u32)) & 1u32) == 0u32);
            } else {
                assert(q / 27 < lane);
                lemma_bit32_zero((q % 27) as u32);
            }
        }
    }
    r
}


/// The three-bit group `t` (bits `3t..3t+3`) of `m` holds a bit.
pub open spec fn trip(m: u32, t: u32) -> bool {
    bit32(m, (3 * t) as u32) || bit32(m, (3 * t + 1) as u32) || bit32(m, (3 * t + 2) as u32)
}

/// `v` (below `2^9`) has exactly one set bit.
pub open spec fn lone9(v: u32) -> bool {
    exists|s: u32| s < 9 && #[trigger] bit32(v, s) && forall|s2: u32| s2 < 32 && #[trigger] bit32(v, s2) ==> s2 == s
}

/// The hidden-single lookup: for a 9-bit unit mask, the index of its lone set bit,
/// or `0xFF` when it holds zero or several bits.
pub fn single9(v: u32) -> (r: u8)
    requires
        v < 512,
    ensures
        r == 0xFF <==> !lone9(v),
        r != 0xFF ==> r < 9 && bit32(v, r as u32) && forall|s2: u32| s2 < 32 && #[trigger] bit32(v, s2) ==> s2 == r,
{
    if v != 0 && v & (v - 1) == 0 {
        let k = v.trailing_zeros();
        proof {
            vstd::std_specs::bits::axiom_u32_trailing_zeros(v);
            if k >= 9 {
                assert(v < 512);
                lemma_v9(v, k);
            }
            assert forall|s2: u32| s2 < 32 && #[trigger] bit32(v, s2) implies s2 == k by {
                lemma_bit32_single(v, k, s2);
            }
        }
        k as u8
    } else {
        proof {
            if lone9(v) {
                let s = choose|s: u32| s < 9 && #[trigger] bit32(v, s) && forall|s2: u32| s2 < 32 && #[trigger] bit32(v, s2) ==> s2 == s;
                if v == 0 {
                    lemma_bit32_zero(s);
                } else {
                    let k = v.trailing_zeros();
                    vstd::std_specs::bits::axiom_u32_trailing_zeros(v);
                    let w = v & ((v - 1) as u32);
                    lemma_bit32_nonzero(w);
                    let k2 = choose|k2: u32| k2 < 32 && bit32(w, k2);
                    lemma_bit32_clear_lowest(v, k, k2);
                }
            }
        }
        0xFF
    }
}

pub proof fn lemma_v9(v: u32, k: u32)
    requires
        v < 512,
        k < 32,
        9 <= k,
    ensures
        !bit32(v, k),
{
    assert(v < 512 && 9 <= k ==> (v >> k) & 1u32 != 1u32) by (bit_vector);
}

/// Which of the three 3-bit groups of a 9-bit row hold a bit.
pub fn occ3(v: u32) -> (r: u32)
    ensures
        r < 8,
        forall|j: u32| j < 3 ==> #[trigger] bit32(r, j) == trip(v, j),
{
    proof {
        lemma_bit32_trip(v, 0);
        lemma_bit32_trip(v, 1);
        lemma_bit32_trip(v, 2);
    }
    let mut o: u32 = 0;
    if v & (7u32 << 0) != 0 {
        o = o + 1;
    }
    if v & (7u32 << 3) != 0 {
        o = o + 2;
    }
    if v & (7u32 << 6) != 0 {
        o = o + 4;
    }
    proof {
        lemma_small_bits(o);
        assert forall|j: u32| j < 3 implies #[trigger] bit32(o, j) == trip(v, j) by {
            if j == 0 {
                assert(bit32(o, 0) == trip(v, 0));
            } else if j == 1 {
                assert(bit32(o, 1) == trip(v, 1));
            } else {
                assert(bit32(o, 2) == trip(v, 2));
            }
        }
    }
    o
}

/// Bits of a value below 8 built from 1, 2, 4.
proof fn lemma_small_bits(o: u32)
    requires
        o < 8,
    ensures
        bit32(o, 0) == (o % 2 == 1),
        bit32(o, 1) == ((o / 2) % 2 == 1),
        bit32(o, 2) == (o / 4 == 1),
{
    assert(o < 8 ==> (((o >> 0u32) & 1u32 == 1u32) == (o % 2 == 1) && ((o >> 1u32) & 1u32 == 1u32) == ((o / 2) % 2 == 1) && ((o >> 2u32) & 1u32 == 1u32) == (o / 4 == 1))) by (bit_vector);
}

/// The 9-bit triplet occupancy of one band: bit `t` set iff triplet `t` (band-row
/// `t / 3`, box-column `t % 3`, bits `3t..3t+3`) holds a candidate.
pub fn triplet_occ(m: u32) -> (r: usize)
    requires
        m < 0x800_0000,
    ensures
        r < 512,
        forall|t: u32| t < 9 ==> #[trigger] bit32(r as u32, t) == trip(m, t),
{
    let o0 = occ3(m & 0x1FF);
    let o1 = occ3((m >> 9) & 0x1FF);
    let o2 = occ3((m >> 18) & 0x1FF);
    let r = o0 | (o1 << 3) | (o2 << 6);
    proof {
        assert((m >> 0u32) & 0x1FFu32 == m & 0x1FFu32) by {
            lemma_shr0(m);
        }
        assert forall|t: u32| t < 9 implies #[trigger] bit32(r, t) == trip(m, t) by {
            lemma_bit32_or(o0 | (o1 << 3), o2 << 6, t);
            lemma_bit32_or(o0, o1 << 3, t);
            lemma_bit32_shl(o1, 3, t);
            lemma_bit32_shl(o2, 6, t);
            let q = t / 3;
            let j = t % 3;
            let sh = (9 * q) as u32;
            lemma_bit32_chunk9(m, sh, (3 * j) as u32);
            lemma_bit32_chunk9(m, sh, (3 * j + 1) as u32);
            lemma_bit32_chunk9(m, sh, (3 * j + 2) as u32);
            if q == 0 {
                lemma_v8(o0, t);
            } else if q == 1 {
                lemma_v8(o0, t);
                lemma_v8(o1, (t - 3) as u32);
            } else {
                lemma_v8(o0, t);
                lemma_v8(o1, (t - 3) as u32);
            }
        }
        lemma_v8_bound(o0, o1, o2);
    }
    r as usize
}

proof fn lemma_shr0(m: u32)
    ensures
        m >> 0u32 == m,
{
    assert(m >> 0u32 == m) by (bit_vector);
}

proof fn lemma_v8(o: u32, k: u32)
    requires
        o < 8,
    ensures
        k >= 3 ==> !bit32(o, k),
{
    assert(o < 8 && k >= 3 ==> (o >> k) & 1u32 != 1u32) by (bit_vector);
}

proof fn lemma_v8_bound(o0: u32, o1: u32, o2: u32)
    requires
        o0 < 8,
        o1 < 8,
        o2 < 8,
    ensures
        o0 | (o1 << 3) | (o2 << 6) < 512,
{
    assert(o0 < 8 && o1 < 8 && o2 < 8 ==> o0 | (o1 << 3) | (o2 << 6) < 512) by (bit_vector);
}


/// `x` is a subset of `y` (as bit sets).
pub open spec fn sub32(x: u32, y: u32) -> bool {
    x & !y == 0
}

/// Bitwise reading of the subset relation.
pub proof fn lemma_sub32_bits(x: u32, y: u32)
    ensures
        sub32(x, y) == forall|k: u32| k < 32 ==> (#[trigger] bit32(x, k) ==> bit32(y, k)),
{
    if sub32(x, y) {
        assert forall|k: u32| k < 32 implies (#[trigger] bit32(x, k) ==> bit32(y, k)) by {
            lemma_bit32_and(x, !y, k);
            lemma_bit32_not(y, k);
            lemma_bit32_zero(k);
        }
    } else {
        lemma_bit32_nonzero(x & !y);
        let k = choose|k: u32| k < 32 && bit32(x & !y, k);
        lemma_bit32_and(x, !y, k);
        lemma_bit32_not(y, k);
    }
}

/// Removing bits keeps a subset; subsets compose.
pub proof fn lemma_sub32_andnot(x: u32, m: u32, y: u32)
    requires
        sub32(x, y),
    ensures
        sub32(x & !m, y),
        sub32(x & !m, x),
{
    lemma_sub32_bits(x, y);
    assert forall|k: u32| k < 32 implies (#[trigger] bit32(x & !m, k) ==> bit32(y, k)) by {
        lemma_bit32_and(x, !m, k);
    }
    lemma_sub32_bits(x & !m, y);
    assert forall|k: u32| k < 32 implies (#[trigger] bit32(x & !m, k) ==> bit32(x, k)) by {
        lemma_bit32_and(x, !m, k);
    }
    lemma_sub32_bits(x & !m, x);
}

pub proof fn lemma_sub32_trans(x: u32, y: u32, z: u32)
    requires
        sub32(x, y),
        sub32(y, z),
    ensures
        sub32(x, z),
{
    lemma_sub32_bits(x, y);
    lemma_sub32_bits(y, z);
    lemma_sub32_bits(x, z);
}

pub proof fn lemma_sub32_refl(x: u32)
    ensures
        sub32(x, x),
{
    lemma_sub32_bits(x, x);
}

/// The within-band locked-candidates fixpoint of a 9-bit triplet occupancy
/// (bit `3r + k` = band-row `r`, box-column `k`): repeatedly, a box-column whose
/// occupied triplets lie in one band-row clears that row's other two triplets
/// (pointing), and a band-row whose occupied triplets lie in one box-column
/// clears that column's other two triplets (claiming). Returns the surviving
/// triplets, a subset of `occ`.
pub fn band_keep(occ: u32) -> (r: u32)
    requires
        occ < 512,
    ensures
        sub32(r, occ),
        r <= occ,
{
    let mut keep = occ;
    let mut done = false;
    proof {
        lemma_sub32_refl(occ);
    }
    while !done
        invariant
            sub32(keep, occ),
            keep <= occ,
        decreases pc32(keep) + if done { 0nat } else { 1nat },
    {
        let mut next = keep;
        proof {
            lemma_sub32_refl(keep);
        }
        // pointing: box-column k whose occupied triplets are a single band-row.
        let mut k: u32 = 0;
        while k < 3
            invariant
                k <= 3,
                sub32(next, keep),
            decreases 3 - k,
        {
            let r0 = (next >> k) & 1;
            let r1 = (next >> (3 + k)) & 1;
            let r2 = (next >> (6 + k)) & 1;
            proof {
                lemma_and1(next >> k);
                lemma_and1(next >> (3 + k));
                lemma_and1(next >> (6 + k));
            }
            if r0 + r1 + r2 == 1 {
                let r: u32 = if r0 == 1 { 0 } else if r1 == 1 { 1 } else { 2 };
                let mut kk: u32 = 0;
                while kk < 3
                    invariant
                        kk <= 3,
                        r < 3,
                        sub32(next, keep),
                    decreases 3 - kk,
                {
                    if kk != k {
                        proof {
                            lemma_sub32_andnot(next, 1u32 << (r * 3 + kk), keep);
                        }
                        next = next & !(1u32 << (r * 3 + kk));
                    }
                    kk += 1;
                }
            }
            k += 1;
        }
        // claiming: band-row r whose occupied triplets are a single box-column.
        let mut r: u32 = 0;
        while r < 3
            invariant
                r <= 3,
                sub32(next, keep),
            decreases 3 - r,
        {
            let c0 = (next >> (r * 3)) & 1;
            let c1 = (next >> (r * 3 + 1)) & 1;
            let c2 = (next >> (r * 3 + 2)) & 1;
            proof {
                lemma_and1(next >> (r * 3));
                lemma_and1(next >> (r * 3 + 1));
                lemma_and1(next >> (r * 3 + 2));
            }
            if c0 + c1 + c2 == 1 {
                let k: u32 = if c0 == 1 { 0 } else if c1 == 1 { 1 } else { 2 };
                let mut rr: u32 = 0;
                while rr < 3
                    invariant
                        rr <= 3,
                        k < 3,
                        sub32(next, keep),
                    decreases 3 - rr,
                {
                    if rr != r {
                        proof {
                            lemma_sub32_andnot(next, 1u32 << (rr * 3 + k), keep);
                        }
                        next = next & !(1u32 << (rr * 3 + k));
                    }
                    rr += 1;
                }
            }
            r += 1;
        }
        proof {
            lemma_sub32_trans(next, keep, occ);
            lemma_pc32_subset(keep, next);
        }
        if next == keep {
            done = true;
        } else {
            keep = next;
        }
    }
    keep
}

/// `x & 1` is 0 or 1.
proof fn lemma_and1(x: u32)
    ensures
        x & 1 == 0 || x & 1 == 1,
{
    assert(x & 1u32 == 0u32 || x & 1u32 == 1u32) by (bit_vector);
}

/// A subset is numerically no larger and has no more bits; a proper one fewer.
pub proof fn lemma_pc32_subset(x: u32, y: u32)
    requires
        sub32(y, x),
    ensures
        y <= x,
        pc32(y) <= pc32(x),
        y != x ==> pc32(y) < pc32(x),
{
    lemma_pc32_sub(x, y);
    lemma_sub_le(x, y);
}

proof fn lemma_sub_le(x: u32, y: u32)
    requires
        y & !x == 0,
    ensures
        y <= x,
{
    assert(y & !x == 0u32 ==> y <= x) by (bit_vector);
}

/// The triplets the locked-candidates fixpoint drops from occupancy `occ`.
pub fn drop_trip(occ: u32) -> (r: u32)
    requires
        occ < 512,
    ensures
        sub32(r, occ),
{
    let keep = band_keep(occ);
    proof {
        lemma_sub32_refl(occ);
        lemma_sub32_bits(occ & !keep, occ);
        assert forall|k: u32| k < 32 implies (#[trigger] bit32(occ & !keep, k) ==> bit32(occ, k)) by {
            lemma_bit32_and(occ, !keep, k);
        }
        lemma_sub32_bits(occ & !keep, occ);
    }
    occ & !keep
}


/// The three bits `x`, `9 + x`, `18 + x` of a word.
proof fn lemma_col3_bits(x: u32, k: u32)
    requires
        x < 9,
        k < 32,
    ensures
        bit32((1u32 << x) | (1u32 << (9 + x)) | (1u32 << (18 + x)), k) == (k == x || k == 9 + x || k == 18 + x),
        (1u32 << x) | (1u32 << (9 + x)) | (1u32 << (18 + x)) < 0x800_0000,
{
    let m = (1u32 << x) | (1u32 << (9 + x)) | (1u32 << (18 + x));
    lemma_bit32_or((1u32 << x) | (1u32 << (9 + x)), 1u32 << (18 + x), k);
    lemma_bit32_or(1u32 << x, 1u32 << (9 + x), k);
    lemma_bit32_one(x, k);
    lemma_bit32_one((9 + x) as u32, k);
    lemma_bit32_one((18 + x) as u32, k);
    lemma_one27(x);
    lemma_one27((9 + x) as u32);
    lemma_one27((18 + x) as u32);
    lemma_word27_ops(1u32 << x, 1u32 << (9 + x));
    lemma_word27_ops((1u32 << x) | (1u32 << (9 + x)), 1u32 << (18 + x));
}

/// Membership in a lane set `7 << 3t` placed in lane `b`.
proof fn lemma_trip_lane(x: B, b: int, t: int, p: int)
    requires
        0 <= b < 3,
        0 <= t < 9,
        0 <= p < 81,
        x[b] == 7u32 << (3 * t as u32),
        forall|l: int| 0 <= l < 3 && l != b ==> x[l] == 0,
    ensures
        has_pos(x, p) == (p / 27 == b && (p % 27) / 9 == t / 3 && ((p % 27) % 9) / 3 == t % 3),
{
    lemma_pos(p);
    let k = (p % 27) as u32;
    lemma_bit32_zero(k);
    lemma_bit32_trip(0, t as u32);
    assert(bit32(7u32 << (3 * t as u32), k) == (3 * t <= k < 3 * t + 3));
    let kk = p % 27;
    assert((3 * t <= kk < 3 * t + 3) == (kk / 9 == t / 3 && (kk % 9) / 3 == t % 3)) by {
        assert(0 <= kk < 27 && 0 <= t < 9);
        assert(kk == 9 * (kk / 9) + kk % 9);
        assert(kk % 9 == 3 * ((kk % 9) / 3) + (kk % 9) % 3);
        assert(t == 3 * (t / 3) + t % 3);
    }
}

/// Membership in a set with bits `x`, `9 + x`, `18 + x` placed in lane `g`.
proof fn lemma_vert_lane(y: B, g: int, x: int, p: int)
    requires
        0 <= g < 3,
        0 <= x < 9,
        0 <= p < 81,
        y[g] == (1u32 << (x as u32)) | (1u32 << (9 + x) as u32) | (1u32 << (18 + x) as u32),
        forall|l: int| 0 <= l < 3 && l != g ==> y[l] == 0,
    ensures
        has_pos(y, p) == (p / 27 == g && (p % 27) % 9 == x),
{
    lemma_pos(p);
    let k = (p % 27) as u32;
    lemma_bit32_zero(k);
    lemma_col3_bits(x as u32, k);
}

/// The cells of a locked-candidates triplet in both views. `row_major`: band `b`
/// of the row-major banding, triplet `t` (band-row `t / 3`, box-column `t % 3`),
/// i.e. row `3b + t / 3`, columns `3 (t % 3) ..+3`; otherwise the same triplet of
/// the column-major banding (column `3b + t / 3`, rows `3 (t % 3) ..+3`). Returns
/// the triplet as a row-major and as a column-major set.
pub fn lc_trip(row_major: bool, b: usize, t: usize) -> (r: (B, B))
    requires
        b < 3,
        t < 9,
    ensures
        band_ok(r.0),
        band_ok(r.1),
        forall|j: int| 0 <= j < 81 ==> #[trigger] in_r(r.0, j) == in_c(r.1, j),
        forall|j: int| 0 <= j < 81 ==> #[trigger] in_r(r.0, j) == if row_major {
            row_spec(j) == 3 * b + t / 3 && col_spec(j) / 3 == t % 3
        } else {
            col_spec(j) == 3 * b + t / 3 && row_spec(j) / 3 == t % 3
        },
        row_major ==> r.0[b as int] == 7u32 << (3 * t as u32) && forall|l: int| 0 <= l < 3 && l != b ==> r.0[l] == 0,
        !row_major ==> r.1[b as int] == 7u32 << (3 * t as u32) && forall|l: int| 0 <= l < 3 && l != b ==> r.1[l] == 0,
{
    let a = t / 3;
    let g = t % 3;
    let tt = t as u32;
    let big = (3 * b + a) as u32;
    proof {
        lemma_bit32_trip(0, tt);
        assert forall|k: u32| 27 <= k < 32 implies !#[trigger] bit32(7u32 << (3 * tt), k) by {}
        lemma_bit32_bound27(7u32 << (3 * tt));
        lemma_col3_bits(big, 0);
    }
    let lanes = 7u32 << (3 * tt);
    let vert = (1u32 << big) | (1u32 << (9 + big)) | (1u32 << (18 + big));
    let mut rmask: B = [0u32, 0u32, 0u32];
    let mut cmask: B = [0u32, 0u32, 0u32];
    if row_major {
        rmask[b] = lanes;
        cmask[g] = vert;
    } else {
        cmask[b] = lanes;
        rmask[g] = vert;
    }
    proof {
        assert forall|j: int| 0 <= j < 81 implies #[trigger] in_r(rmask, j) == (if row_major {
            row_spec(j) == 3 * b + t / 3 && col_spec(j) / 3 == t % 3
        } else {
            col_spec(j) == 3 * b + t / 3 && row_spec(j) / 3 == t % 3
        }) && in_r(rmask, j) == in_c(cmask, j) by {
            lemma_pos(j);
            lemma_tr(j);
            lemma_pos(tr(j));
            if row_major {
                lemma_trip_lane(rmask, b as int, t as int, j);
                lemma_vert_lane(cmask, g as int, big as int, tr(j));
            } else {
                lemma_trip_lane(cmask, b as int, t as int, tr(j));
                lemma_vert_lane(rmask, g as int, big as int, j);
            }
        }
    }
    (rmask, cmask)
}

} // verus!
