//! Grid primitives: digits, cell coordinates, units and peers, and the scalar
//! `Board` (placed digits plus the naked candidate mask of every cell).

use vstd::prelude::*;
use crate::text::{is_space, is_space_spec, chars_of, push_char};
use crate::bits::{bit16, lemma_bit16_and, lemma_bit16_or, lemma_bit16_not, lemma_bit16_one, lemma_bit16_ext, lemma_bit16_low9, lemma_bit16_bound9, lemma_bit16_all9, lemma_bit16_test, lemma_bit16_clear_lowest, lemma_bit16_andnot_le, lemma_bit16_zero_and};

verus! {

/// Side length of the grid.
pub const N: usize = 9;
/// Number of cells.
pub const CELLS: usize = 81;
/// The 9-bit mask holding every digit.
pub const ALL_DIGITS: u16 = 0x1FF;

/// A digit `1..=9`; `0` stands for an empty cell.
pub type Digit = u8;
/// A cell index `0..81`, row-major.
pub type CellIdx = usize;
/// A 9-bit set of digits: bit `d-1` set iff digit `d` is present.
pub type DigitMask = u16;

// ---------------------------------------------------------------------------
// Geometry
// ---------------------------------------------------------------------------

pub open spec fn row_spec(i: int) -> int {
    i / 9
}

pub open spec fn col_spec(i: int) -> int {
    i % 9
}

pub open spec fn box_spec(i: int) -> int {
    (i / 9 / 3) * 3 + (i % 9) / 3
}

/// `j` is a peer of `i`: a different cell sharing a row, a column or a box.
pub open spec fn is_peer(i: int, j: int) -> bool {
    i != j && (row_spec(i) == row_spec(j) || col_spec(i) == col_spec(j) || box_spec(i)
        == box_spec(j))
}

/// Digit `d` is a member of mask `m`.
pub open spec fn mask_has(m: u16, d: u8) -> bool {
    bit16(m, (d - 1) as u16)
}

/// Some filled peer of cell `i` holds digit `d`.
pub open spec fn blocked(cells: Seq<u8>, i: int, d: u8) -> bool {
    exists|j: int| 0 <= j < 81 && #[trigger] is_peer(i, j) && cells[j] == d
}

/// The candidate mask of cell `i` is its naked candidate set: empty when the cell
/// is filled, otherwise exactly the digits no filled peer holds.
pub open spec fn naked_at(cells: Seq<u8>, cands: Seq<u16>, i: int) -> bool {
    if cells[i] != 0 {
        cands[i] == 0
    } else {
        &&& cands[i] < 512
        &&& forall|d: u8| 1 <= d <= 9 ==> (#[trigger] mask_has(cands[i], d) <==> !blocked(cells, i, d))
    }
}

/// Bit `d-1` of a digit mask.
pub fn digit_to_bit(d: Digit) -> (r: DigitMask)
    requires
        1 <= d <= 9,
    ensures
        r == 1u16 << ((d - 1) as u16),
{
    1u16 << (d as u16 - 1)
}

/// The row of cell `i`.
pub fn row_of(i: CellIdx) -> (r: usize)
    ensures
        r == row_spec(i as int),
{
    i / 9
}

/// The column of cell `i`.
pub fn col_of(i: CellIdx) -> (r: usize)
    ensures
        r == col_spec(i as int),
{
    i % 9
}

/// The box of cell `i` (boxes numbered row-major).
pub fn box_of(i: CellIdx) -> (r: usize)
    ensures
        r == box_spec(i as int),
{
    (i / 9 / 3) * 3 + (i % 9) / 3
}

/// Whether `j` is a peer of `i`.
pub fn peer_of(i: CellIdx, j: CellIdx) -> (r: bool)
    ensures
        r == is_peer(i as int, j as int),
{
    i != j && (row_of(i) == row_of(j) || col_of(i) == col_of(j) || box_of(i) == box_of(j))
}

/// The digit bit of `d` holds exactly digit `d`.
pub proof fn lemma_digit_bit(d: u8, e: u8)
    requires
        1 <= d <= 9,
        1 <= e <= 9,
    ensures
        mask_has(1u16 << ((d - 1) as u16), e) == (d == e),
{
    lemma_bit16_one((d - 1) as u16, (e - 1) as u16);
}

/// Removing the bit of `d` keeps exactly the other digits.
pub proof fn lemma_mask_remove(m: u16, d: u8, e: u8)
    requires
        1 <= d <= 9,
        1 <= e <= 9,
    ensures
        mask_has(m & !(1u16 << ((d - 1) as u16)), e) == (mask_has(m, e) && d != e),
{
    lemma_bit16_and(m, !(1u16 << ((d - 1) as u16)), (e - 1) as u16);
    lemma_bit16_not(1u16 << ((d - 1) as u16), (e - 1) as u16);
    lemma_bit16_one((d - 1) as u16, (e - 1) as u16);
}

/// Adding the bit of `d` adds exactly digit `d`.
pub proof fn lemma_mask_insert(m: u16, d: u8, e: u8)
    requires
        1 <= d <= 9,
        1 <= e <= 9,
    ensures
        mask_has(m | (1u16 << ((d - 1) as u16)), e) == (mask_has(m, e) || d == e),
{
    lemma_bit16_or(m, 1u16 << ((d - 1) as u16), (e - 1) as u16);
    lemma_bit16_one((d - 1) as u16, (e - 1) as u16);
}

/// `m & !(1 << (d-1))` stays below `2^9` when `m` does.
pub proof fn lemma_mask_remove_bound(m: u16, d: u8)
    requires
        m < 512,
        1 <= d <= 9,
    ensures
        m & !(1u16 << ((d - 1) as u16)) < 512,
{
    let kd = (d - 1) as u16;
    assert forall|k: u16| 9 <= k < 16 implies !bit16(m & !(1u16 << kd), k) by {
        lemma_bit16_and(m, !(1u16 << kd), k);
        lemma_bit16_low9(m, k);
    }
    lemma_bit16_bound9(m & !(1u16 << kd));
}

/// `m | (1 << (d-1))` stays below `2^9` when `m` does.
pub proof fn lemma_mask_insert_bound(m: u16, d: u8)
    requires
        m < 512,
        1 <= d <= 9,
    ensures
        m | (1u16 << ((d - 1) as u16)) < 512,
{
    let kd = (d - 1) as u16;
    assert forall|k: u16| 9 <= k < 16 implies !bit16(m | (1u16 << kd), k) by {
        lemma_bit16_or(m, 1u16 << kd, k);
        lemma_bit16_low9(m, k);
        lemma_bit16_one(kd, k);
    }
    lemma_bit16_bound9(m | (1u16 << kd));
}

/// `x & ALL_DIGITS` is below `2^9` and keeps the digit bits of `x`.
pub proof fn lemma_and_all9(x: u16)
    ensures
        x & 0x1FFu16 < 512,
        forall|d: u8| 1 <= d <= 9 ==> #[trigger] mask_has(x & 0x1FFu16, d) == mask_has(x, d),
{
    assert forall|k: u16| 9 <= k < 16 implies !bit16(x & 0x1FFu16, k) by {
        lemma_bit16_and(x, 0x1FFu16, k);
        lemma_bit16_all9(k);
    }
    lemma_bit16_bound9(x & 0x1FFu16);
    assert forall|d: u8| 1 <= d <= 9 implies #[trigger] mask_has(x & 0x1FFu16, d) == mask_has(x, d) by {
        lemma_bit16_and(x, 0x1FFu16, (d - 1) as u16);
        lemma_bit16_all9((d - 1) as u16);
    }
}

/// Every digit is in `ALL_DIGITS`.
pub proof fn lemma_all_digits(d: u8)
    requires
        1 <= d <= 9,
    ensures
        mask_has(0x1FFu16, d),
{
    lemma_bit16_all9((d - 1) as u16);
}

/// Masking out an absent digit changes nothing; testing by masking reads the bit.
pub proof fn lemma_mask_test(m: u16, d: u8)
    requires
        1 <= d <= 9,
    ensures
        ((m & (1u16 << ((d - 1) as u16))) == 0) == !mask_has(m, d),
        !mask_has(m, d) ==> m & !(1u16 << ((d - 1) as u16)) == m,
{
    let kd = (d - 1) as u16;
    lemma_bit16_test(m, kd);
    if !mask_has(m, d) {
        assert forall|k: u16| k < 16 implies bit16(m & !(1u16 << kd), k) == bit16(m, k) by {
            lemma_bit16_and(m, !(1u16 << kd), k);
            lemma_bit16_not(1u16 << kd, k);
            lemma_bit16_one(kd, k);
        }
        lemma_bit16_ext(m & !(1u16 << kd), m);
    }
}


/// Number of set bits of `x`.
pub open spec fn ones16(x: u16) -> nat
    decreases x,
{
    if x == 0 {
        0
    } else {
        (x % 2) as nat + ones16(x / 2)
    }
}

/// The number of digits in `mask` (bits above the ninth are ignored).
pub fn popcount(mask: DigitMask) -> (r: u32)
    ensures
        r == ones16(mask & ALL_DIGITS),
        r <= 9,
{
    let m0 = mask & ALL_DIGITS;
    proof {
        lemma_and_all9(mask);
    }
    let mut m = m0;
    let mut n: u32 = 0;
    proof {
        lemma_ones16_bound(m0);
    }
    while m != 0
        invariant
            n + ones16(m) == ones16(m0),
            ones16(m0) <= 9,
        decreases m,
    {
        n = n + (m % 2) as u32;
        m = m / 2;
    }
    n
}

/// `2^k` as a natural number.
pub open spec fn pow2n(k: nat) -> nat
    decreases k,
{
    if k == 0 {
        1
    } else {
        2 * pow2n((k - 1) as nat)
    }
}

/// A value below `2^9` has at most nine set bits.
pub proof fn lemma_ones16_bound(x: u16)
    requires
        x < 512,
    ensures
        ones16(x) <= 9,
{
    reveal_with_fuel(pow2n, 10);
    assert(pow2n(9) == 512);
    lemma_ones16_pow(x, 9);
}

proof fn lemma_ones16_pow(x: u16, k: nat)
    requires
        x < pow2n(k),
    ensures
        ones16(x) <= k,
    decreases k,
{
    if k > 0 && x != 0 {
        assert(x / 2 < pow2n((k - 1) as nat));
        lemma_ones16_pow(x / 2, (k - 1) as nat);
    }
}

/// Iterator state over the digits of a mask, lowest first.
pub struct DigitIter {
    mask: DigitMask,
}

impl DigitIter {
    /// The digits not yet yielded.
    pub closed spec fn rest(&self) -> u16 {
        self.mask
    }

    /// Yield the lowest remaining digit, or `None` once the mask is exhausted.
    pub fn next(&mut self) -> (r: Option<Digit>)
        requires
            old(self).rest() < 512,
        ensures
            final(self).rest() < 512,
            old(self).rest() == 0 ==> r is None && final(self).rest() == 0,
            old(self).rest() != 0 ==> (r matches Some(d) && 1 <= d <= 9 && mask_has(old(self).rest(), d)
                && (forall|e: u8| 1 <= e < d ==> !#[trigger] mask_has(old(self).rest(), e))
                && (forall|e: u8| 1 <= e <= 9 ==> #[trigger] mask_has(final(self).rest(), e) == (mask_has(old(self).rest(), e) && e != d))),
            final(self).rest() <= old(self).rest(),
            old(self).rest() != 0 ==> final(self).rest() < old(self).rest(),
    {
        if self.mask == 0 {
            return None;
        }
        let m = self.mask;
        let tz = m.trailing_zeros();
        proof {
            vstd::std_specs::bits::axiom_u16_trailing_zeros(m);
            if tz >= 9 {
                lemma_bit16_low9(m, tz as u16);
            }
        }
        let d = (tz + 1) as u8;
        self.mask = m & (m - 1);
        proof {
            let k = tz as u16;
            lemma_bit16_clear_lowest(m, k);
            assert forall|e: u8| 1 <= e <= 9 implies #[trigger] mask_has(self.mask, e) == (mask_has(m, e) && e != d) by {
                lemma_mask_remove(m, d, e);
            }
            assert forall|e: u8| 1 <= e < d implies !#[trigger] mask_has(m, e) by {
                assert(((m >> ((e - 1) as u16)) & 1u16) == 0u16);
            }
            lemma_mask_remove_bound(m, d);
            lemma_bit16_andnot_le(m, 1u16 << k);
            lemma_mask_remove(m, d, d);
        }
        Some(d)
    }

    /// The exact number of digits left.
    pub fn size_hint(&self) -> (r: (usize, Option<usize>))
        ensures
            r.0 == ones16(self.rest() & ALL_DIGITS),
            r.1 == Some(r.0),
    {
        let n = popcount(self.mask) as usize;
        (n, Some(n))
    }
}

/// Iterate the digits of `mask` (bits above the ninth dropped), lowest first.
pub fn iter_digits(mask: DigitMask) -> (r: DigitIter)
    ensures
        r.rest() == mask & ALL_DIGITS,
        r.rest() < 512,
{
    let m = mask & ALL_DIGITS;
    proof {
        lemma_and_all9(mask);
    }
    DigitIter { mask: m }
}


/// Cell `i` holds a digit and no filled peer holds the same one.
pub open spec fn no_conflict_at(cells: Seq<u8>, i: int) -> bool {
    cells[i] != 0 ==> !blocked(cells, i, cells[i])
}

/// A 9x9 grid of placed digits plus a candidate mask per cell. Placements keep
/// the masks equal to the naked candidates (`is_naked`); `eliminate` may narrow
/// them further.
#[derive(Clone, Copy)]
pub struct Board {
    cells: [u8; 81],
    candidates: [u16; 81],
}

impl Board {
    /// The 81 placed digits (0 = empty).
    pub closed spec fn cells_view(&self) -> Seq<u8> {
        self.cells@
    }

    /// The 81 candidate masks.
    pub closed spec fn cands_view(&self) -> Seq<u16> {
        self.candidates@
    }

    /// Both views have 81 entries and every placed value is `0..=9`.
    pub open spec fn wf(&self) -> bool {
        &&& self.cells_view().len() == 81
        &&& self.cands_view().len() == 81
        &&& forall|i: int| 0 <= i < 81 ==> #[trigger] self.cells_view()[i] <= 9
    }

    /// Every candidate mask is the cell's naked candidate set.
    pub open spec fn is_naked(&self) -> bool {
        forall|i: int| 0 <= i < 81 ==> naked_at(self.cells_view(), self.cands_view(), i)
    }

    /// The board with no digit placed and every digit a candidate everywhere.
    pub fn empty() -> (r: Self)
        ensures
            r.wf(),
            r.is_naked(),
            forall|i: int| 0 <= i < 81 ==> #[trigger] r.cells_view()[i] == 0,
            forall|i: int| 0 <= i < 81 ==> #[trigger] r.cands_view()[i] == ALL_DIGITS,
    {
        let r = Board { cells: [0u8; 81], candidates: [0x1FFu16; 81] };
        proof {
            assert forall|i: int| 0 <= i < 81 implies naked_at(r.cells_view(), r.cands_view(), i) by {
                assert forall|d: u8| 1 <= d <= 9 implies (#[trigger] mask_has(r.cands_view()[i], d)
                    <==> !blocked(r.cells_view(), i, d)) by {
                    lemma_all_digits(d);
                    if blocked(r.cells_view(), i, d) {
                        let j = choose|j: int| 0 <= j < 81 && #[trigger] is_peer(i, j) && r.cells_view()[j] == d;
                        assert(r.cells_view()[j] == 0);
                    }
                }
            }
        }
        r
    }

    /// A complete board straight from its 81 digits: every cell filled, so every
    /// candidate mask is empty.
    pub fn from_solved_cells(cells: [Digit; 81]) -> (r: Self)
        requires
            forall|i: int| 0 <= i < 81 ==> 1 <= #[trigger] cells[i] <= 9,
        ensures
            r.wf(),
            r.is_naked(),
            r.cells_view() == cells@,
            forall|i: int| 0 <= i < 81 ==> #[trigger] r.cands_view()[i] == 0,
    {
        Board { cells, candidates: [0u16; 81] }
    }

    /// The digit at cell `i` (0 = empty).
    pub fn cell(&self, i: CellIdx) -> (r: Digit)
        requires
            self.wf(),
            i < 81,
        ensures
            r == self.cells_view()[i as int],
    {
        self.cells[i]
    }

    /// The 81 cell digits.
    pub fn cells(&self) -> (r: &[Digit; 81])
        ensures
            r@ == self.cells_view(),
    {
        &self.cells
    }

    /// The candidate mask of cell `i`.
    pub fn candidates(&self, i: CellIdx) -> (r: DigitMask)
        requires
            self.wf(),
            i < 81,
        ensures
            r == self.cands_view()[i as int],
    {
        self.candidates[i]
    }

    /// Whether cell `i` holds no digit.
    pub fn is_empty(&self, i: CellIdx) -> (r: bool)
        requires
            self.wf(),
            i < 81,
        ensures
            r == (self.cells_view()[i as int] == 0),
    {
        self.cells[i] == 0
    }

    /// Place digit `d` at empty cell `i`: the cell is filled, its mask cleared,
    /// and `d` leaves the mask of every peer.
    pub fn place(&mut self, i: CellIdx, d: Digit)
        requires
            old(self).wf(),
            i < 81,
            1 <= d <= 9,
            old(self).cells_view()[i as int] == 0,
            mask_has(old(self).cands_view()[i as int], d),
        ensures
            final(self).wf(),
            final(self).cells_view() == old(self).cells_view().update(i as int, d),
            final(self).cands_view()[i as int] == 0,
            forall|j: int| 0 <= j < 81 && j != i ==> #[trigger] final(self).cands_view()[j] == if is_peer(i as int, j) {
                old(self).cands_view()[j] & !(1u16 << ((d - 1) as u16))
            } else {
                old(self).cands_view()[j]
            },
            old(self).is_naked() ==> final(self).is_naked(),
    {
        let ghost old_cells = self.cells@;
        let ghost old_cands = self.candidates@;
        self.cells[i] = d;
        self.candidates[i] = 0;
        let bit = digit_to_bit(d);
        let mut j: usize = 0;
        while j < 81
            invariant
                0 <= j <= 81,
                self.cells@ == old_cells.update(i as int, d),
                self.candidates@.len() == 81,
                self.candidates@[i as int] == 0,
                bit == 1u16 << ((d - 1) as u16),
                i < 81,
                forall|q: int| 0 <= q < 81 && q != i ==> #[trigger] self.candidates@[q] == if q < j && is_peer(i as int, q) {
                    old_cands[q] & !bit
                } else {
                    old_cands[q]
                },
            decreases 81 - j,
        {
            if peer_of(i, j) {
                self.candidates[j] = self.candidates[j] & !bit;
            }
            j += 1;
        }
        proof {
            if old(self).is_naked() {
                lemma_place_keeps_naked(old_cells, old_cands, self.cells@, self.candidates@, i as int, d);
            }
        }
    }
}

impl Board {
    /// Remove the digit at cell `i` from a naked board, reopening the naked
    /// candidates of the cell and of its peers. A no-op on an empty cell.
    pub fn clear_naked(&mut self, i: CellIdx)
        requires
            old(self).wf(),
            old(self).is_naked(),
            i < 81,
        ensures
            final(self).wf(),
            final(self).is_naked(),
            final(self).cells_view() == old(self).cells_view().update(i as int, 0),
    {
        let d = self.cells[i];
        if d == 0 {
            proof {
                assert(self.cells@ =~= old(self).cells_view().update(i as int, 0));
            }
            return;
        }
        let ghost old_cells = self.cells@;
        let ghost old_cands = self.candidates@;
        self.cells[i] = 0;
        let ghost cells = self.cells@;
        // The cleared cell: every digit no filled peer holds.
        let mut c: u16 = ALL_DIGITS;
        proof {
            assert forall|e: u8| 1 <= e <= 9 implies #[trigger] mask_has(c, e) by {
                lemma_all_digits(e);
            }
        }
        let mut j: usize = 0;
        while j < 81
            invariant
                0 <= j <= 81,
                i < 81,
                self.cells@ == cells,
                cells.len() == 81,
                forall|q: int| 0 <= q < 81 ==> #[trigger] cells[q] <= 9,
                c < 512,
                forall|e: u8| 1 <= e <= 9 ==> (#[trigger] mask_has(c, e) <==> !exists|q: int|
                    0 <= q < j && #[trigger] is_peer(i as int, q) && cells[q] == e),
            decreases 81 - j,
        {
            if peer_of(i, j) {
                let pd = self.cells[j];
                if pd != 0 {
                    proof {
                        lemma_mask_remove_bound(c, pd);
                        assert forall|e: u8| 1 <= e <= 9 implies (#[trigger] mask_has(c & !(1u16 << ((pd - 1) as u16)), e)
                            <==> !exists|q: int| 0 <= q < j + 1 && #[trigger] is_peer(i as int, q) && cells[q] == e) by {
                            lemma_mask_remove(c, pd, e);
                            if e != pd {
                                if exists|q: int| 0 <= q < j + 1 && #[trigger] is_peer(i as int, q) && cells[q] == e {
                                    let q = choose|q: int| 0 <= q < j + 1 && #[trigger] is_peer(i as int, q) && cells[q] == e;
                                    assert(q < j);
                                }
                            } else {
                                assert(is_peer(i as int, j as int) && cells[j as int] == e);
                            }
                        }
                    }
                    c = c & !digit_to_bit(pd);
                } else {
                    proof {
                        assert forall|e: u8| 1 <= e <= 9 implies (#[trigger] mask_has(c, e)
                            <==> !exists|q: int| 0 <= q < j + 1 && #[trigger] is_peer(i as int, q) && cells[q] == e) by {
                            if exists|q: int| 0 <= q < j + 1 && #[trigger] is_peer(i as int, q) && cells[q] == e {
                                let q = choose|q: int| 0 <= q < j + 1 && #[trigger] is_peer(i as int, q) && cells[q] == e;
                                assert(q < j);
                            }
                        }
                    }
                }
            } else {
                proof {
                    assert forall|e: u8| 1 <= e <= 9 implies (#[trigger] mask_has(c, e)
                        <==> !exists|q: int| 0 <= q < j + 1 && #[trigger] is_peer(i as int, q) && cells[q] == e) by {
                        if exists|q: int| 0 <= q < j + 1 && #[trigger] is_peer(i as int, q) && cells[q] == e {
                            let q = choose|q: int| 0 <= q < j + 1 && #[trigger] is_peer(i as int, q) && cells[q] == e;
                            assert(q < j);
                        }
                    }
                }
            }
            j += 1;
        }
        self.candidates[i] = c;
        proof {
            assert forall|e: u8| 1 <= e <= 9 implies (#[trigger] mask_has(c, e) <==> !blocked(cells, i as int, e)) by {
                if blocked(cells, i as int, e) {
                    let q = choose|q: int| 0 <= q < 81 && #[trigger] is_peer(i as int, q) && cells[q] == e;
                    assert(0 <= q < 81 && is_peer(i as int, q) && cells[q] == e);
                }
            }
        }
        let ghost mid = self.candidates@;
        // Its peers: `d` returns to each empty peer that no other peer blocks.
        let bit = digit_to_bit(d);
        let mut p: usize = 0;
        while p < 81
            invariant
                0 <= p <= 81,
                i < 81,
                1 <= d <= 9,
                bit == 1u16 << ((d - 1) as u16),
                self.cells@ == cells,
                cells.len() == 81,
                mid.len() == 81,
                self.candidates@.len() == 81,
                forall|q: int| 0 <= q < 81 ==> #[trigger] cells[q] <= 9,
                forall|q: int| 0 <= q < 81 && !(q < p && is_peer(i as int, q) && cells[q] == 0)
                    ==> #[trigger] self.candidates@[q] == mid[q],
                forall|q: int| 0 <= q < p && is_peer(i as int, q) && cells[q] == 0 ==> #[trigger] self.candidates@[q]
                    == if blocked(cells, q, d) { mid[q] } else { mid[q] | bit },
            decreases 81 - p,
        {
            if peer_of(i, p) && self.cells[p] == 0 {
                let mut is_blocked = false;
                let mut pp: usize = 0;
                while pp < 81 && !is_blocked
                    invariant
                        0 <= pp <= 81,
                        p < 81,
                        self.cells@ == cells,
                        cells.len() == 81,
                        is_blocked == exists|q: int| 0 <= q < pp && #[trigger] is_peer(p as int, q) && cells[q] == d,
                    decreases 81 - pp,
                {
                    if peer_of(p, pp) && self.cells[pp] == d {
                        is_blocked = true;
                        assert(is_peer(p as int, pp as int) && cells[pp as int] == d);
                    }
                    proof {
                        if !is_blocked && exists|q: int| 0 <= q < pp + 1 && #[trigger] is_peer(p as int, q) && cells[q] == d {
                            let q = choose|q: int| 0 <= q < pp + 1 && #[trigger] is_peer(p as int, q) && cells[q] == d;
                            assert(q < pp);
                        }
                    }
                    pp += 1;
                }
                proof {
                    if blocked(cells, p as int, d) {
                        let q = choose|q: int| 0 <= q < 81 && #[trigger] is_peer(p as int, q) && cells[q] == d;
                        assert(0 <= q < 81);
                    }
                    if is_blocked {
                        let q = choose|q: int| 0 <= q < pp && #[trigger] is_peer(p as int, q) && cells[q] == d;
                        assert(is_peer(p as int, q) && cells[q] == d);
                    }
                    assert(is_blocked == blocked(cells, p as int, d));
                }
                if !is_blocked {
                    self.candidates[p] = self.candidates[p] | bit;
                }
            }
            p += 1;
        }
        proof {
            lemma_clear_keeps_naked(old_cells, old_cands, cells, mid, self.candidates@, i as int, d);
        }
    }

    /// Clear digit `d` from the candidate mask of cell `i`; returns whether it was
    /// there.
    pub fn eliminate(&mut self, i: CellIdx, d: Digit) -> (r: bool)
        requires
            old(self).wf(),
            i < 81,
            1 <= d <= 9,
        ensures
            final(self).wf(),
            r == mask_has(old(self).cands_view()[i as int], d),
            final(self).cells_view() == old(self).cells_view(),
            final(self).cands_view() == old(self).cands_view().update(
                i as int,
                old(self).cands_view()[i as int] & !(1u16 << ((d - 1) as u16)),
            ),
    {
        let bit = digit_to_bit(d);
        proof {
            lemma_mask_test(self.candidates@[i as int], d);
        }
        if self.candidates[i] & bit == 0 {
            proof {
                assert(self.candidates@ =~= self.candidates@.update(i as int, self.candidates@[i as int] & !bit));
            }
            return false;
        }
        self.candidates[i] = self.candidates[i] & !bit;
        true
    }

    /// Rebuild every candidate mask from the placed digits alone: afterwards the
    /// board is naked.
    pub fn recompute_candidates(&mut self)
        requires
            old(self).wf(),
        ensures
            final(self).wf(),
            final(self).is_naked(),
            final(self).cells_view() == old(self).cells_view(),
    {
        let ghost cells = self.cells@;
        let mut i: usize = 0;
        while i < 81
            invariant
                0 <= i <= 81,
                self.cells@ == cells,
                cells.len() == 81,
                self.candidates@.len() == 81,
                forall|q: int| 0 <= q < i ==> #[trigger] self.candidates@[q] == if cells[q] != 0 { 0u16 } else { 0x1FFu16 },
            decreases 81 - i,
        {
            self.candidates[i] = if self.cells[i] != 0 { 0 } else { ALL_DIGITS };
            i += 1;
        }
        proof {
            assert forall|q: int| 0 <= q < 81 implies #[trigger] naked_upto(cells, self.candidates@, q, 0) by {
                if cells[q] == 0 {
                    assert forall|e: u8| 1 <= e <= 9 implies (#[trigger] mask_has(self.candidates@[q], e)
                        <==> !blocked_upto(cells, q, e, 0)) by {
                        lemma_all_digits(e);
                    }
                }
            }
        }
        let mut i: usize = 0;
        while i < 81
            invariant
                0 <= i <= 81,
                self.cells@ == cells,
                cells.len() == 81,
                forall|q: int| 0 <= q < 81 ==> #[trigger] cells[q] <= 9,
                self.candidates@.len() == 81,
                forall|q: int| 0 <= q < 81 ==> #[trigger] naked_upto(cells, self.candidates@, q, i as int),
            decreases 81 - i,
        {
            let d = self.cells[i];
            if d == 0 {
                proof {
                    assert forall|q: int| 0 <= q < 81 implies #[trigger] naked_upto(cells, self.candidates@, q, i + 1) by {
                        assert(naked_upto(cells, self.candidates@, q, i as int));
                        lemma_blocked_upto_step(cells, q, i as int);
                    }
                }
                i += 1;
                continue;
            }
            let bit = digit_to_bit(d);
            let ghost before = self.candidates@;
            let mut k: usize = 0;
            while k < 81
                invariant
                    0 <= k <= 81,
                    i < 81,
                    1 <= d <= 9,
                    d == cells[i as int],
                    bit == 1u16 << ((d - 1) as u16),
                    self.cells@ == cells,
                    cells.len() == 81,
                    before.len() == 81,
                    self.candidates@.len() == 81,
                    forall|q: int| 0 <= q < 81 ==> #[trigger] self.candidates@[q] == if q < k && is_peer(i as int, q) {
                        before[q] & !bit
                    } else {
                        before[q]
                    },
                decreases 81 - k,
            {
                if peer_of(i, k) {
                    self.candidates[k] = self.candidates[k] & !bit;
                }
                k += 1;
            }
            proof {
                assert forall|q: int| 0 <= q < 81 implies #[trigger] naked_upto(cells, self.candidates@, q, i + 1) by {
                    assert(naked_upto(cells, before, q, i as int));
                    lemma_blocked_upto_step(cells, q, i as int);
                    if cells[q] != 0 {
                        lemma_bit16_zero_and(!bit);
                    } else if is_peer(i as int, q) {
                        lemma_mask_remove_bound(before[q], d);
                        assert forall|e: u8| 1 <= e <= 9 implies (#[trigger] mask_has(self.candidates@[q], e)
                            <==> !blocked_upto(cells, q, e, i + 1)) by {
                            lemma_mask_remove(before[q], d, e);
                            assert(is_peer(q, i as int));
                        }
                    }
                }
            }
            i += 1;
        }
        proof {
            assert forall|q: int| 0 <= q < 81 implies naked_at(cells, self.candidates@, q) by {
                assert(naked_upto(cells, self.candidates@, q, 81));
                if cells[q] == 0 {
                    assert forall|e: u8| 1 <= e <= 9 implies (#[trigger] mask_has(self.candidates@[q], e)
                        <==> !blocked(cells, q, e)) by {
                        if blocked(cells, q, e) {
                            let j = choose|j: int| 0 <= j < 81 && #[trigger] is_peer(q, j) && cells[j] == e;
                            assert(blocked_upto(cells, q, e, 81));
                        }
                        if blocked_upto(cells, q, e, 81) {
                            let j = choose|j: int| 0 <= j < 81 && #[trigger] is_peer(q, j) && cells[j] == e;
                            assert(blocked(cells, q, e));
                        }
                    }
                }
            }
        }
    }

    /// Whether every cell holds a digit.
    pub fn is_solved(&self) -> (r: bool)
        requires
            self.wf(),
        ensures
            r == forall|i: int| 0 <= i < 81 ==> #[trigger] self.cells_view()[i] != 0,
    {
        let mut i: usize = 0;
        while i < 81
            invariant
                0 <= i <= 81,
                self.wf(),
                forall|q: int| 0 <= q < i ==> #[trigger] self.cells_view()[q] != 0,
            decreases 81 - i,
        {
            if self.cells[i] == 0 {
                return false;
            }
            i += 1;
        }
        true
    }

    /// The number of filled cells.
    pub fn givens(&self) -> (r: usize)
        requires
            self.wf(),
        ensures
            r == count_filled(self.cells_view()),
            r <= 81,
    {
        let mut n: usize = 0;
        let mut i: usize = 0;
        while i < 81
            invariant
                0 <= i <= 81,
                self.wf(),
                n == count_filled(self.cells_view().take(i as int)),
                n <= i,
            decreases 81 - i,
        {
            proof {
                assert(self.cells_view().take(i + 1).drop_last() =~= self.cells_view().take(i as int));
            }
            if self.cells[i] != 0 {
                n += 1;
            }
            i += 1;
        }
        proof {
            assert(self.cells_view().take(81) =~= self.cells_view());
        }
        n
    }
}

/// A character `Board::parse` keeps (everything but white space and the
/// `|`, `-`, `+` drawing characters).
pub open spec fn kept_char(c: char) -> bool {
    !is_space_spec(c) && c != '|' && c != '-' && c != '+'
}

/// A character that stands for a cell: `.`/`0` for empty, `1`..`9` for a digit.
pub open spec fn cell_char(c: char) -> bool {
    c == '.' || ('0' <= c && c <= '9')
}

/// The digit a cell character stands for (0 = empty).
pub open spec fn char_digit(c: char) -> u8 {
    if c == '.' {
        0
    } else {
        (c as u32 - '0' as u32) as u8
    }
}

/// The cell characters of `s`: `s` without the characters `parse` skips.
pub open spec fn kept_chars(s: Seq<char>) -> Seq<char> {
    s.filter(|c: char| kept_char(c))
}

/// No two peers hold the same digit.
pub open spec fn conflict_free(cells: Seq<u8>) -> bool {
    forall|i: int| 0 <= i < 81 ==> #[trigger] no_conflict_at(cells, i)
}

/// `s` describes a grid `parse` accepts: 81 cell characters whose digits no two
/// peers share.
pub open spec fn parses(s: Seq<char>) -> bool {
    &&& kept_chars(s).len() == 81
    &&& forall|i: int| 0 <= i < 81 ==> #[trigger] cell_char(kept_chars(s)[i])
    &&& conflict_free(Seq::new(81, |i: int| char_digit(kept_chars(s)[i])))
}

/// The character `to_line` writes for a cell.
pub open spec fn line_char(d: u8) -> char {
    if d == 0 {
        '.'
    } else {
        (48 + d) as char
    }
}

proof fn lemma_filter_step(s: Seq<char>, k: int)
    requires
        0 <= k < s.len(),
    ensures
        s.take(k + 1).filter(|c: char| kept_char(c)) == if kept_char(s[k]) {
            s.take(k).filter(|c: char| kept_char(c)).push(s[k])
        } else {
            s.take(k).filter(|c: char| kept_char(c))
        },
{
    reveal(Seq::filter);
    assert(s.take(k + 1).drop_last() =~= s.take(k));
}

/// The line `to_line` writes for `cells`.
pub open spec fn line_of(cells: Seq<u8>) -> Seq<char> {
    Seq::new(81, |i: int| line_char(cells[i]))
}

/// Every cell character of a line survives the filter `parse` applies.
proof fn lemma_line_kept(line: Seq<char>, k: int)
    requires
        0 <= k <= line.len(),
        forall|i: int| 0 <= i < line.len() ==> #[trigger] kept_char(line[i]),
    ensures
        line.take(k).filter(|c: char| kept_char(c)) == line.take(k),
    decreases k,
{
    if k > 0 {
        lemma_line_kept(line, k - 1);
        lemma_filter_step(line, k - 1);
        assert(line.take(k - 1).push(line[k - 1]) =~= line.take(k));
    } else {
        reveal(Seq::filter);
        assert(line.take(0) =~= Seq::<char>::empty());
    }
}

/// The line of a conflict-free grid parses back to that grid.
pub proof fn lemma_line_round_trip(cells: Seq<u8>)
    requires
        cells.len() == 81,
        forall|i: int| 0 <= i < 81 ==> #[trigger] cells[i] <= 9,
        conflict_free(cells),
    ensures
        parses(line_of(cells)),
        Seq::new(81, |i: int| char_digit(kept_chars(line_of(cells))[i])) == cells,
{
    let line = line_of(cells);
    assert forall|i: int| 0 <= i < 81 implies #[trigger] kept_char(line[i]) && cell_char(line[i]) && char_digit(line[i]) == cells[i] by {
        assert(cells[i] <= 9);
    }
    lemma_line_kept(line, 81);
    assert(line.take(81) =~= line);
    assert(kept_chars(line) == line);
    assert(Seq::new(81, |i: int| char_digit(kept_chars(line)[i])) =~= cells);
}

/// Two well-formed boards with the same cells and naked candidates are equal in
/// their candidates: naked candidates are a function of the cells.
pub proof fn lemma_naked_unique(a: Board, b: Board)
    requires
        a.wf(),
        b.wf(),
        a.is_naked(),
        b.is_naked(),
        a.cells_view() == b.cells_view(),
    ensures
        a.cands_view() == b.cands_view(),
{
    assert forall|i: int| 0 <= i < 81 implies #[trigger] a.cands_view()[i] == b.cands_view()[i] by {
        assert(naked_at(a.cells_view(), a.cands_view(), i));
        assert(naked_at(b.cells_view(), b.cands_view(), i));
        if a.cells_view()[i] == 0 {
            let x = a.cands_view()[i];
            let y = b.cands_view()[i];
            assert forall|k: u16| k < 16 implies #[trigger] bit16(x, k) == bit16(y, k) by {
                if k < 9 {
                    assert(mask_has(x, (k + 1) as u8) == mask_has(y, (k + 1) as u8));
                } else {
                    crate::bits::lemma_bit16_low9(x, k);
                    crate::bits::lemma_bit16_low9(y, k);
                }
            }
            crate::bits::lemma_bit16_ext(x, y);
        }
    }
    assert(a.cands_view() =~= b.cands_view());
}

impl Board {
    /// Parse an 81-cell grid (`1`..`9` digits, `.`/`0` empty; white space and
    /// `|`, `-`, `+` skipped). `None` if there are not exactly 81 cell characters,
    /// a character is not a cell character, or two peers hold the same digit.
    pub fn parse(s: &str) -> (r: Option<Self>)
        ensures
            r is Some <==> parses(s@),
            r matches Some(b) ==> b.wf() && b.is_naked() && b.cells_view() == Seq::new(
                81,
                |i: int| char_digit(kept_chars(s@)[i]),
            ),
    {
        let all = chars_of(s);
        let mut chars: Vec<char> = Vec::new();
        let mut k: usize = 0;
        while k < all.len()
            invariant
                0 <= k <= all@.len(),
                all@ == s@,
                chars@ == s@.take(k as int).filter(|c: char| kept_char(c)),
            decreases all@.len() - k,
        {
            let c = all[k];
            proof {
                lemma_filter_step(s@, k as int);
            }
            if !is_space(c) && c != '|' && c != '-' && c != '+' {
                chars.push(c);
            }
            k += 1;
        }
        proof {
            assert(s@.take(all@.len() as int) =~= s@);
        }
        let ghost kept = kept_chars(s@);
        let ghost digits = Seq::new(81, |i: int| char_digit(kept[i]));
        if chars.len() != 81 {
            return None;
        }
        let mut board = Self::empty();
        let mut i: usize = 0;
        while i < 81
            invariant
                0 <= i <= 81,
                chars@ == kept,
                kept == kept_chars(s@),
                kept.len() == 81,
                digits == Seq::new(81, |i: int| char_digit(kept[i])),
                board.wf(),
                board.is_naked(),
                forall|q: int| 0 <= q < i ==> #[trigger] cell_char(kept[q]),
                forall|q: int| 0 <= q < 81 ==> #[trigger] board.cells_view()[q] == if q < i { digits[q] } else { 0 },
                conflict_free(board.cells_view()),
            decreases 81 - i,
        {
            let c = chars[i];
            let d: u8 = if c == '.' || c == '0' {
                0
            } else if '1' <= c && c <= '9' {
                (c as u32 - '0' as u32) as u8
            } else {
                proof {
                    assert(!cell_char(kept_chars(s@)[i as int]));
                    assert(!parses(s@));
                }
                return None;
            };
            assert(cell_char(kept[i as int]));
            assert(d == digits[i as int]);
            if d == 0 {
                proof {
                    assert forall|q: int| 0 <= q < 81 implies #[trigger] board.cells_view()[q] == if q < i + 1 { digits[q] } else { 0 } by {
                    }
                }
                i += 1;
                continue;
            }
            let bit = digit_to_bit(d);
            proof {
                let m = board.cands_view()[i as int];
                lemma_mask_test(m, d);
                assert(naked_at(board.cells_view(), board.cands_view(), i as int));
            }
            if board.candidates[i] & bit == 0 {
                proof {
                    let cells = board.cells_view();
                    let m = board.cands_view()[i as int];
                    assert(m & bit == 0);
                    assert(!mask_has(m, d));
                    assert(naked_at(cells, board.cands_view(), i as int));
                    assert(blocked(cells, i as int, d));
                    let j = choose|j: int| 0 <= j < 81 && #[trigger] is_peer(i as int, j) && cells[j] == d;
                    assert(j < i);
                    assert(is_peer(i as int, j) && digits[j] == digits[i as int]);
                    assert(!no_conflict_at(digits, i as int));
                }
                return None;
            }
            let ghost before = board.cells_view();
            proof {
                assert(mask_has(board.cands_view()[i as int], d));
                assert(!blocked(before, i as int, d));
            }
            board.place(i, d);
            proof {
                let after = board.cells_view();
                assert forall|q: int| 0 <= q < 81 implies #[trigger] no_conflict_at(after, q) by {
                    assert(no_conflict_at(before, q));
                    if after[q] != 0 && blocked(after, q, after[q]) {
                        let j = choose|j: int| 0 <= j < 81 && #[trigger] is_peer(q, j) && after[j] == after[q];
                        if q == i {
                            assert(before[j] == d);
                            assert(blocked(before, i as int, d));
                        } else if j == i {
                            assert(is_peer(i as int, q) && before[q] == d);
                            assert(blocked(before, i as int, d));
                        } else {
                            assert(blocked(before, q, before[q]));
                        }
                    }
                }
            }
            i += 1;
        }
        proof {
            assert(board.cells_view() =~= digits);
        }
        Some(board)
    }

    /// The grid as 81 characters, `.` for an empty cell.
    pub fn to_line(&self) -> (r: String)
        requires
            self.wf(),
        ensures
            r@ == Seq::new(81, |i: int| line_char(self.cells_view()[i])),
    {
        let mut out = String::new();
        let mut i: usize = 0;
        while i < 81
            invariant
                0 <= i <= 81,
                self.wf(),
                out@ == Seq::new(i as nat, |q: int| line_char(self.cells_view()[q])),
            decreases 81 - i,
        {
            let d = self.cells[i];
            let c = if d == 0 { '.' } else { (48u8 + d) as char };
            push_char(&mut out, c);
            proof {
                assert(out@ =~= Seq::new((i + 1) as nat, |q: int| line_char(self.cells_view()[q])));
            }
            i += 1;
        }
        out
    }
}

/// The three kinds of unit.
#[derive(Clone, Copy, PartialEq, Eq, Debug, Structural)]
pub enum UnitKind {
    Row,
    Col,
    Box,
}

/// Cell `k` of unit `u`: units `0..9` are the rows, `9..18` the columns, `18..27`
/// the boxes (boxes and their cells numbered row-major).
pub open spec fn unit_cell(u: int, k: int) -> int {
    if u < 9 {
        u * 9 + k
    } else if u < 18 {
        k * 9 + (u - 9)
    } else {
        (((u - 18) / 3) * 3 + k / 3) * 9 + ((u - 18) % 3) * 3 + k % 3
    }
}

/// The nine rows as cell lists: `u[r][c]` is the cell at row `r`, column `c`.
pub fn build_row_units() -> (u: [[usize; 9]; 9])
    ensures
        forall|r: int, k: int| 0 <= r < 9 && 0 <= k < 9 ==> #[trigger] u[r][k] == unit_cell(r, k),
{
    let mut u = [[0usize; 9]; 9];
    let mut r: usize = 0;
    while r < 9
        invariant
            0 <= r <= 9,
            forall|q: int, k: int| 0 <= q < r && 0 <= k < 9 ==> #[trigger] u[q][k] == unit_cell(q, k),
        decreases 9 - r,
    {
        let mut row = [0usize; 9];
        let mut c: usize = 0;
        while c < 9
            invariant
                0 <= c <= 9,
                r < 9,
                forall|k: int| 0 <= k < c ==> #[trigger] row[k] == unit_cell(r as int, k),
            decreases 9 - c,
        {
            row[c] = r * 9 + c;
            c += 1;
        }
        u[r] = row;
        r += 1;
    }
    u
}

/// The nine columns as cell lists: `u[c][r]` is the cell at row `r`, column `c`.
pub fn build_col_units() -> (u: [[usize; 9]; 9])
    ensures
        forall|c: int, k: int| 0 <= c < 9 && 0 <= k < 9 ==> #[trigger] u[c][k] == unit_cell(c + 9, k),
{
    let mut u = [[0usize; 9]; 9];
    let mut c: usize = 0;
    while c < 9
        invariant
            0 <= c <= 9,
            forall|q: int, k: int| 0 <= q < c && 0 <= k < 9 ==> #[trigger] u[q][k] == unit_cell(q + 9, k),
        decreases 9 - c,
    {
        let mut col = [0usize; 9];
        let mut r: usize = 0;
        while r < 9
            invariant
                0 <= r <= 9,
                c < 9,
                forall|k: int| 0 <= k < r ==> #[trigger] col[k] == unit_cell(c + 9, k),
            decreases 9 - r,
        {
            col[r] = r * 9 + c;
            r += 1;
        }
        u[c] = col;
        c += 1;
    }
    u
}

/// The nine boxes as cell lists, each box's cells row-major.
pub fn build_box_units() -> (u: [[usize; 9]; 9])
    ensures
        forall|b: int, k: int| 0 <= b < 9 && 0 <= k < 9 ==> #[trigger] u[b][k] == unit_cell(b + 18, k),
{
    let mut u = [[0usize; 9]; 9];
    let mut b: usize = 0;
    while b < 9
        invariant
            0 <= b <= 9,
            forall|q: int, k: int| 0 <= q < b && 0 <= k < 9 ==> #[trigger] u[q][k] == unit_cell(q + 18, k),
        decreases 9 - b,
    {
        let br = (b / 3) * 3;
        let bc = (b % 3) * 3;
        let mut bx = [0usize; 9];
        let mut k: usize = 0;
        let mut dr: usize = 0;
        while dr < 3
            invariant
                0 <= dr <= 3,
                b < 9,
                br == (b / 3) * 3,
                bc == (b % 3) * 3,
                k == dr * 3,
                forall|q: int| 0 <= q < k ==> #[trigger] bx[q] == unit_cell(b + 18, q),
            decreases 3 - dr,
        {
            let mut dc: usize = 0;
            while dc < 3
                invariant
                    0 <= dc <= 3,
                    0 <= dr < 3,
                    b < 9,
                    br == (b / 3) * 3,
                    bc == (b % 3) * 3,
                    k == dr * 3 + dc,
                    forall|q: int| 0 <= q < k ==> #[trigger] bx[q] == unit_cell(b + 18, q),
                decreases 3 - dc,
            {
                assert(k / 3 == dr && k % 3 == dc);
                bx[k] = (br + dr) * 9 + (bc + dc);
                k += 1;
                dc += 1;
            }
            dr += 1;
        }
        u[b] = bx;
        b += 1;
    }
    u
}

/// For every cell, its peers in ascending order.
pub fn build_peers() -> (p: Vec<Vec<usize>>)
    ensures
        p@.len() == 81,
        forall|i: int, a: int, b: int| 0 <= i < 81 && 0 <= a < b < p@[i]@.len() ==> #[trigger] p@[i]@[a] < #[trigger] p@[i]@[b],
        forall|i: int, j: int| 0 <= i < 81 && 0 <= j < 81 ==> (#[trigger] p@[i]@.contains(j as usize) <==> is_peer(i, j)),
        forall|i: int, x: usize| 0 <= i < 81 && #[trigger] p@[i]@.contains(x) ==> x < 81,
{
    let mut peers: Vec<Vec<usize>> = Vec::new();
    let mut i: usize = 0;
    while i < 81
        invariant
            0 <= i <= 81,
            peers@.len() == i,
            forall|q: int, a: int, b: int| 0 <= q < i && 0 <= a < b < peers@[q]@.len() ==> #[trigger] peers@[q]@[a] < #[trigger] peers@[q]@[b],
            forall|q: int, j: int| 0 <= q < i && 0 <= j < 81 ==> (#[trigger] peers@[q]@.contains(j as usize) <==> is_peer(q, j)),
            forall|q: int, x: usize| 0 <= q < i && #[trigger] peers@[q]@.contains(x) ==> x < 81,
        decreases 81 - i,
    {
        let mut list: Vec<usize> = Vec::new();
        let mut j: usize = 0;
        while j < 81
            invariant
                0 <= j <= 81,
                i < 81,
                forall|a: int, b: int| 0 <= a < b < list@.len() ==> #[trigger] list@[a] < #[trigger] list@[b],
                forall|x: usize| #[trigger] list@.contains(x) ==> x < j && is_peer(i as int, x as int),
                forall|x: int| 0 <= x < j && is_peer(i as int, x) ==> #[trigger] list@.contains(x as usize),
            decreases 81 - j,
        {
            if peer_of(i, j) {
                let ghost before = list@;
                list.push(j);
                proof {
                    assert forall|x: usize| #[trigger] list@.contains(x) implies x < j + 1 && is_peer(i as int, x as int) by {
                        if x != j {
                            let k = choose|k: int| 0 <= k < list@.len() && list@[k] == x;
                            assert(before[k] == x);
                            assert(before.contains(x));
                        }
                    }
                    assert forall|x: int| 0 <= x < j + 1 && is_peer(i as int, x) implies #[trigger] list@.contains(x as usize) by {
                        if x < j {
                            assert(before.contains(x as usize));
                            let k = choose|k: int| 0 <= k < before.len() && before[k] == x as usize;
                            assert(list@[k] == x as usize);
                        } else {
                            assert(list@[list@.len() - 1] == j);
                        }
                    }
                    assert forall|a: int, b: int| 0 <= a < b < list@.len() implies #[trigger] list@[a] < #[trigger] list@[b] by {
                        if b == list@.len() - 1 {
                            assert(before.contains(before[a]));
                        }
                    }
                }
            }
            j += 1;
        }
        peers.push(list);
        proof {
            assert forall|q: int, x: usize| 0 <= q < i + 1 && #[trigger] peers@[q]@.contains(x) implies x < 81 by {
                if q < i {
                    assert(peers@[q] == peers@[q]);
                }
            }
        }
        i += 1;
    }
    peers
}

/// All 27 units as `(kind, index, cells)`, rows then columns then boxes.
pub fn all_units() -> (r: Vec<(UnitKind, usize, [usize; 9])>)
    ensures
        r@.len() == 27,
        forall|u: int| 0 <= u < 27 ==> (#[trigger] r@[u]).1 == u % 9 && r@[u].0 == if u < 9 {
            UnitKind::Row
        } else if u < 18 {
            UnitKind::Col
        } else {
            UnitKind::Box
        },
        forall|u: int, k: int| 0 <= u < 27 && 0 <= k < 9 ==> #[trigger] r@[u].2[k] == unit_cell(u, k),
{
    let rows = build_row_units();
    let cols = build_col_units();
    let boxes = build_box_units();
    let mut out: Vec<(UnitKind, usize, [usize; 9])> = Vec::new();
    let mut u: usize = 0;
    while u < 27
        invariant
            0 <= u <= 27,
            out@.len() == u,
            forall|r: int, k: int| 0 <= r < 9 && 0 <= k < 9 ==> #[trigger] rows[r][k] == unit_cell(r, k),
            forall|c: int, k: int| 0 <= c < 9 && 0 <= k < 9 ==> #[trigger] cols[c][k] == unit_cell(c + 9, k),
            forall|b: int, k: int| 0 <= b < 9 && 0 <= k < 9 ==> #[trigger] boxes[b][k] == unit_cell(b + 18, k),
            forall|q: int| 0 <= q < u ==> (#[trigger] out@[q]).1 == q % 9 && out@[q].0 == if q < 9 {
                UnitKind::Row
            } else if q < 18 {
                UnitKind::Col
            } else {
                UnitKind::Box
            },
            forall|q: int, k: int| 0 <= q < u && 0 <= k < 9 ==> #[trigger] out@[q].2[k] == unit_cell(q, k),
        decreases 27 - u,
    {
        if u < 9 {
            out.push((UnitKind::Row, u, rows[u]));
        } else if u < 18 {
            out.push((UnitKind::Col, u - 9, cols[u - 9]));
            assert(forall|k: int| 0 <= k < 9 ==> #[trigger] cols[u - 9][k] == unit_cell(u as int, k));
        } else {
            out.push((UnitKind::Box, u - 18, boxes[u - 18]));
            assert(forall|k: int| 0 <= k < 9 ==> #[trigger] boxes[u - 18][k] == unit_cell(u as int, k));
        }
        u += 1;
    }
    out
}

/// Number of nonzero entries.
pub open spec fn count_filled(s: Seq<u8>) -> nat
    decreases s.len(),
{
    if s.len() == 0 {
        0
    } else {
        count_filled(s.drop_last()) + if s.last() != 0 { 1nat } else { 0nat }
    }
}

/// Some peer among the first `n` cells holds digit `d`.
pub open spec fn blocked_upto(cells: Seq<u8>, i: int, d: u8, n: int) -> bool {
    exists|j: int| 0 <= j < n && #[trigger] is_peer(i, j) && cells[j] == d
}

/// `naked_at`, counting only the digits placed among the first `n` cells.
pub open spec fn naked_upto(cells: Seq<u8>, cands: Seq<u16>, i: int, n: int) -> bool {
    if cells[i] != 0 {
        cands[i] == 0
    } else {
        &&& cands[i] < 512
        &&& forall|d: u8| 1 <= d <= 9 ==> (#[trigger] mask_has(cands[i], d) <==> !blocked_upto(cells, i, d, n))
    }
}

proof fn lemma_blocked_upto_step(cells: Seq<u8>, i: int, n: int)
    requires
        0 <= n < cells.len(),
    ensures
        forall|d: u8| #[trigger] blocked_upto(cells, i, d, n + 1) == (blocked_upto(cells, i, d, n) || (is_peer(i, n)
            && cells[n] == d)),
{
    assert forall|d: u8| #[trigger] blocked_upto(cells, i, d, n + 1) == (blocked_upto(cells, i, d, n) || (is_peer(i, n)
        && cells[n] == d)) by {
        if blocked_upto(cells, i, d, n + 1) {
            let j = choose|j: int| 0 <= j < n + 1 && #[trigger] is_peer(i, j) && cells[j] == d;
            if j < n {
                assert(blocked_upto(cells, i, d, n));
            }
        }
        if blocked_upto(cells, i, d, n) {
            let j = choose|j: int| 0 <= j < n && #[trigger] is_peer(i, j) && cells[j] == d;
            assert(blocked_upto(cells, i, d, n + 1));
        }
        if is_peer(i, n) && cells[n] == d {
            assert(0 <= n < n + 1);
        }
    }
}

/// Clearing digit `d` at cell `i` of a naked board, recomputing cell `i` from
/// its peers and returning `d` to exactly the unblocked empty peers, leaves the
/// board naked.
proof fn lemma_clear_keeps_naked(
    old_cells: Seq<u8>,
    old_cands: Seq<u16>,
    cells: Seq<u8>,
    mid: Seq<u16>,
    fin: Seq<u16>,
    i: int,
    d: u8,
)
    requires
        old_cells.len() == 81,
        old_cands.len() == 81,
        mid.len() == 81,
        fin.len() == 81,
        0 <= i < 81,
        1 <= d <= 9,
        old_cells[i] == d,
        cells == old_cells.update(i, 0),
        forall|q: int| 0 <= q < 81 ==> naked_at(old_cells, old_cands, q),
        forall|q: int| 0 <= q < 81 && q != i ==> #[trigger] mid[q] == old_cands[q],
        naked_at(cells, mid, i),
        forall|q: int| 0 <= q < 81 && !(is_peer(i, q) && cells[q] == 0) ==> #[trigger] fin[q] == mid[q],
        forall|q: int| 0 <= q < 81 && is_peer(i, q) && cells[q] == 0 ==> #[trigger] fin[q]
            == if blocked(cells, q, d) { mid[q] } else { mid[q] | (1u16 << ((d - 1) as u16)) },
    ensures
        forall|q: int| 0 <= q < 81 ==> naked_at(cells, fin, q),
{
    assert forall|q: int| 0 <= q < 81 implies naked_at(cells, fin, q) by {
        if q != i {
            assert(naked_at(old_cells, old_cands, q));
            if cells[q] == 0 {
                if is_peer(i, q) {
                    if !blocked(cells, q, d) {
                        lemma_mask_insert_bound(mid[q], d);
                    }
                }
                assert forall|e: u8| 1 <= e <= 9 implies (#[trigger] mask_has(fin[q], e)
                    <==> !blocked(cells, q, e)) by {
                    if is_peer(i, q) && !blocked(cells, q, d) {
                        lemma_mask_insert(mid[q], d, e);
                    }
                    if e != d || !is_peer(i, q) {
                        if blocked(cells, q, e) {
                            let j = choose|j: int| 0 <= j < 81 && #[trigger] is_peer(q, j) && cells[j] == e;
                            assert(old_cells[j] == e);
                        }
                        if blocked(old_cells, q, e) {
                            let j = choose|j: int| 0 <= j < 81 && #[trigger] is_peer(q, j) && old_cells[j] == e;
                            assert(j != i);
                            assert(cells[j] == e);
                        }
                    } else {
                        assert(is_peer(q, i) && old_cells[i] == e);
                    }
                }
            }
        }
    }
}

/// Placing `d` at an empty cell `i` (filling it, clearing its mask and removing
/// `d` from its peers' masks) keeps every mask naked.
pub proof fn lemma_place_keeps_naked(
    old_cells: Seq<u8>,
    old_cands: Seq<u16>,
    new_cells: Seq<u8>,
    new_cands: Seq<u16>,
    i: int,
    d: u8,
)
    requires
        old_cells.len() == 81,
        old_cands.len() == 81,
        0 <= i < 81,
        1 <= d <= 9,
        old_cells[i] == 0,
        new_cells == old_cells.update(i, d),
        new_cands.len() == 81,
        new_cands[i] == 0,
        forall|q: int| 0 <= q < 81 && q != i ==> #[trigger] new_cands[q] == if is_peer(i, q) {
            old_cands[q] & !(1u16 << ((d - 1) as u16))
        } else {
            old_cands[q]
        },
        forall|q: int| 0 <= q < 81 ==> naked_at(old_cells, old_cands, q),
    ensures
        forall|q: int| 0 <= q < 81 ==> naked_at(new_cells, new_cands, q),
{
    assert forall|q: int| 0 <= q < 81 implies naked_at(new_cells, new_cands, q) by {
        assert(naked_at(old_cells, old_cands, q));
        if q != i {
            let bit = 1u16 << ((d - 1) as u16);
            if old_cells[q] != 0 {
                lemma_bit16_zero_and(!bit);
            } else {
                if is_peer(i, q) {
                    lemma_mask_remove_bound(old_cands[q], d);
                } 
                assert forall|e: u8| 1 <= e <= 9 implies (#[trigger] mask_has(new_cands[q], e)
                    <==> !blocked(new_cells, q, e)) by {
                    if is_peer(i, q) {
                        lemma_mask_remove(old_cands[q], d, e);
                        if e == d {
                            assert(is_peer(q, i) && new_cells[i] == e);
                        } else {
                            if blocked(new_cells, q, e) {
                                let j = choose|j: int| 0 <= j < 81 && #[trigger] is_peer(q, j) && new_cells[j] == e;
                                assert(old_cells[j] == e);
                            }
                            if blocked(old_cells, q, e) {
                                let j = choose|j: int| 0 <= j < 81 && #[trigger] is_peer(q, j) && old_cells[j] == e;
                                assert(new_cells[j] == e);
                            }
                        }
                    } else {
                        if blocked(new_cells, q, e) {
                            let j = choose|j: int| 0 <= j < 81 && #[trigger] is_peer(q, j) && new_cells[j] == e;
                            assert(j != i);
                            assert(old_cells[j] == e);
                        }
                        if blocked(old_cells, q, e) {
                            let j = choose|j: int| 0 <= j < 81 && #[trigger] is_peer(q, j) && old_cells[j] == e;
                            assert(new_cells[j] == e);
                        }
                    }
                }
            }
        }
    }
}


/// A value with no set bit is zero.
pub proof fn lemma_ones16_zero(x: u16)
    requires
        ones16(x) == 0,
    ensures
        x == 0,
    decreases x,
{
    if x != 0 {
        lemma_ones16_zero(x / 2);
    }
}

/// A value with one set bit has no two.
pub proof fn lemma_ones16_single(m: u16, a: u16, b: u16)
    requires
        ones16(m) == 1,
        a < 16,
        b < 16,
        bit16(m, a),
        bit16(m, b),
    ensures
        a == b,
    decreases m,
{
    if a > 0 {
        crate::bits::lemma_bit16_half(m, (a - 1) as u16);
    }
    if b > 0 {
        crate::bits::lemma_bit16_half(m, (b - 1) as u16);
    }
    crate::bits::lemma_bit16_half(m, 0);
    if a > 0 && b > 0 {
        if m % 2 == 1 {
            lemma_ones16_zero(m / 2);
            crate::bits::lemma_bit16_zero((a - 1) as u16);
        } else {
            lemma_ones16_single(m / 2, (a - 1) as u16, (b - 1) as u16);
        }
    } else if a > 0 || b > 0 {
        lemma_ones16_zero(m / 2);
        if a > 0 {
            crate::bits::lemma_bit16_zero((a - 1) as u16);
        } else {
            crate::bits::lemma_bit16_zero((b - 1) as u16);
        }
    }
}

/// `s` completes the grid `cells`: a full conflict-free grid that keeps every
/// filled cell of `cells`.
pub open spec fn completes(s: Seq<u8>, cells: Seq<u8>) -> bool {
    &&& s.len() == 81
    &&& forall|i: int| 0 <= i < 81 ==> 1 <= #[trigger] s[i] <= 9
    &&& conflict_free(s)
    &&& forall|i: int| 0 <= i < 81 && #[trigger] cells[i] != 0 ==> s[i] == cells[i]
}

/// In a completion, an empty cell holds one of its naked candidates.
pub proof fn lemma_completion_candidate(s: Seq<u8>, cells: Seq<u8>, cands: Seq<u16>, c: int)
    requires
        completes(s, cells),
        cells.len() == 81,
        0 <= c < 81,
        cells[c] == 0,
        naked_at(cells, cands, c),
    ensures
        mask_has(cands[c], s[c]),
{
    assert(1 <= s[c] <= 9);
    if blocked(cells, c, s[c]) {
        let j = choose|j: int| 0 <= j < 81 && #[trigger] is_peer(c, j) && cells[j] == s[c];
        assert(s[j] == cells[j]);
        assert(no_conflict_at(s, c));
        assert(blocked(s, c, s[c]));
    }
}

/// Two different cells of one unit are peers.
pub proof fn lemma_unit_peers(u: int, k1: int, k2: int)
    requires
        0 <= u < 27,
        0 <= k1 < 9,
        0 <= k2 < 9,
        k1 != k2,
    ensures
        is_peer(unit_cell(u, k1), unit_cell(u, k2)),
{
    let c1 = unit_cell(u, k1);
    let c2 = unit_cell(u, k2);
    if u < 9 {
        assert(c1 / 9 == u && c2 / 9 == u);
    } else if u < 18 {
        assert(c1 % 9 == u - 9 && c2 % 9 == u - 9);
        assert(c1 / 9 == k1 && c2 / 9 == k2);
    } else {
        let b = u - 18;
        let r1 = (b / 3) * 3 + k1 / 3;
        let r2 = (b / 3) * 3 + k2 / 3;
        let q1 = (b % 3) * 3 + k1 % 3;
        let q2 = (b % 3) * 3 + k2 % 3;
        assert(0 <= q1 < 9 && 0 <= q2 < 9);
        assert(c1 == r1 * 9 + q1 && c2 == r2 * 9 + q2);
        assert(c1 / 9 == r1 && c1 % 9 == q1) by {
            vstd::arithmetic::div_mod::lemma_fundamental_div_mod_converse(c1, 9, r1, q1);
        }
        assert(c2 / 9 == r2 && c2 % 9 == q2) by {
            vstd::arithmetic::div_mod::lemma_fundamental_div_mod_converse(c2, 9, r2, q2);
        }
        assert(r1 / 3 == b / 3 && r2 / 3 == b / 3);
        assert(q1 / 3 == b % 3 && q2 / 3 == b % 3);
        assert(box_spec(c1) == box_spec(c2));
        assert(c1 != c2) by {
            if c1 == c2 {
                assert(r1 == r2 && q1 == q2);
                assert(k1 == (k1 / 3) * 3 + k1 % 3);
                assert(k2 == (k2 / 3) * 3 + k2 % 3);
            }
        }
    }
}

/// A full grid: 81 digits, no two peers alike.
pub open spec fn solved(s: Seq<u8>) -> bool {
    &&& s.len() == 81
    &&& forall|i: int| 0 <= i < 81 ==> 1 <= #[trigger] s[i] <= 9
    &&& conflict_free(s)
}

/// Cell `i` is the cell of its box's unit at the slot its row and column give.
pub proof fn lemma_box_slot(i: int)
    requires
        0 <= i < 81,
    ensures
        0 <= box_spec(i) < 9,
        unit_cell(18 + box_spec(i), ((i / 9) % 3) * 3 + (i % 9) % 3) == i,
{
    let r = i / 9;
    let c = i % 9;
    assert(0 <= r < 9 && 0 <= c < 9);
    let bx = (r / 3) * 3 + c / 3;
    assert(box_spec(i) == bx);
    let k = (r % 3) * 3 + c % 3;
    assert(0 <= c / 3 < 3 && 0 <= r / 3 < 3);
    assert(bx / 3 == r / 3 && bx % 3 == c / 3) by {
        vstd::arithmetic::div_mod::lemma_fundamental_div_mod_converse(bx, 3, r / 3, c / 3);
    }
    assert(k / 3 == r % 3 && k % 3 == c % 3) by {
        vstd::arithmetic::div_mod::lemma_fundamental_div_mod_converse(k, 3, r % 3, c % 3);
    }
    assert(r == (r / 3) * 3 + r % 3);
    assert(c == (c / 3) * 3 + c % 3);
    assert(i == r * 9 + c);
}

/// Two peers are cells of one unit: `w` names the unit and the two slots.
pub proof fn lemma_peer_unit(i: int, j: int) -> (w: (int, int, int))
    requires
        0 <= i < 81,
        0 <= j < 81,
        is_peer(i, j),
    ensures
        0 <= w.0 < 27,
        0 <= w.1 < 9,
        0 <= w.2 < 9,
        unit_cell(w.0, w.1) == i,
        unit_cell(w.0, w.2) == j,
{
    if row_spec(i) == row_spec(j) {
        (i / 9, i % 9, j % 9)
    } else if col_spec(i) == col_spec(j) {
        (9 + i % 9, i / 9, j / 9)
    } else {
        lemma_box_slot(i);
        lemma_box_slot(j);
        (18 + box_spec(i), ((i / 9) % 3) * 3 + (i % 9) % 3, ((j / 9) % 3) * 3 + (j % 9) % 3)
    }
}

/// A full conflict-free grid holds every digit in every unit.
pub proof fn lemma_unit_has_digit(s: Seq<u8>, u: int, d: u8)
    requires
        s.len() == 81,
        forall|i: int| 0 <= i < 81 ==> 1 <= #[trigger] s[i] <= 9,
        conflict_free(s),
        0 <= u < 27,
        1 <= d <= 9,
    ensures
        exists|k: int| 0 <= k < 9 && s[unit_cell(u, k)] == d,
{
    let vals = Seq::new(9, |k: int| s[unit_cell(u, k)] as int);
    assert forall|k1: int, k2: int| 0 <= k1 < 9 && 0 <= k2 < 9 && k1 != k2 implies vals[k1] != vals[k2] by {
        lemma_unit_peers(u, k1, k2);
        crate::probe::techniques::lemma_unit_cell_bound(u, k1);
        crate::probe::techniques::lemma_unit_cell_bound(u, k2);
        let c1 = unit_cell(u, k1);
        let c2 = unit_cell(u, k2);
        assert(no_conflict_at(s, c1));
        if s[c1] == s[c2] {
            assert(blocked(s, c1, s[c1]));
        }
    }
    assert(vals.no_duplicates());
    vals.unique_seq_to_set();
    let range = vstd::set_lib::set_int_range(1, 10);
    vstd::set_lib::lemma_int_range(1, 10);
    assert forall|x: int| vals.to_set().contains(x) implies range.contains(x) by {
        let k = choose|k: int| 0 <= k < vals.len() && vals[k] == x;
        crate::probe::techniques::lemma_unit_cell_bound(u, k);
    }
    vstd::set_lib::lemma_subset_equality(vals.to_set(), range);
    assert(range.contains(d as int));
    assert(vals.to_set().contains(d as int));
    let k = choose|k: int| 0 <= k < vals.len() && vals[k] == d as int;
    assert(s[unit_cell(u, k)] == d);
}

} // verus!
