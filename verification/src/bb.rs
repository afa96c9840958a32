//! Dual-banded bitboard for the baseline technique engine and the strip's
//! incremental candidate state.
//!
//! `r[d]` holds the cells where digit `d + 1` is still a candidate in the
//! row-major banding, `c[d]` the same set in the column-major banding;
//! `unsolved_r` / `unsolved_c` hold the undecided cells. Every mutation keeps the
//! two bandings describing the same sets (`wf`), so any unit can be read in the
//! banding that puts it in-lane.

use vstd::prelude::*;
use crate::bits::{bit32, lemma_bit32_and, lemma_bit32_or, lemma_bit32_not, lemma_bit32_zero};
use crate::grid::{Board, CELLS, mask_has, is_peer, blocked, naked_at, iter_digits, lemma_and_all9};
use crate::kinds::{
    SolveTrace, NAKED_SINGLE, HIDDEN_SINGLE, LC_POINTING, LC_CLAIMING, NAKED_PAIR, HIDDEN_PAIR, NAKED_TRIPLE, HIDDEN_TRIPLE,
    NAKED_QUAD, HIDDEN_QUAD,
};
use crate::layout::{
    B, ZERO, band_ok, has_pos, in_r, in_c, tr, lemma_tr, lemma_tr_peer, lemma_pos, lemma_pos_inj,
    band_and, band_or, band_andnot, lemma_pos_and, lemma_pos_or, lemma_pos_andnot, lemma_ok_ops,
    lemma_band_ext, lemma_zero_pos, bit_r, bit_c, peer_mask_r, peer_mask_c, nonzero, popcnt, pcb,
    pc32, sub32, lemma_sub32_bits, lemma_pc32_subset, first_rm, unit_mask_r, exactly_one, at_least_two,
    triplet_occ, drop_trip, lc_trip, single9, trip, rm_cell, cm_cell,
};

verus! {

/// `x` is a subset of `y`, lane by lane.
pub open spec fn subb(x: B, y: B) -> bool {
    sub32(x[0], y[0]) && sub32(x[1], y[1]) && sub32(x[2], y[2])
}

/// A subset holds no position the superset lacks.
pub proof fn lemma_subb_pos(x: B, y: B)
    requires
        band_ok(y),
    ensures
        subb(x, y) ==> forall|p: int| 0 <= p < 81 && #[trigger] has_pos(x, p) ==> has_pos(y, p),
        (band_ok(x) && forall|p: int| 0 <= p < 81 && #[trigger] has_pos(x, p) ==> has_pos(y, p)) ==> subb(x, y),
{
    lemma_sub32_bits(x[0], y[0]);
    lemma_sub32_bits(x[1], y[1]);
    lemma_sub32_bits(x[2], y[2]);
    if subb(x, y) {
        assert forall|p: int| 0 <= p < 81 && #[trigger] has_pos(x, p) implies has_pos(y, p) by {
            lemma_pos(p);
        }
    }
    if band_ok(x) && forall|p: int| 0 <= p < 81 && #[trigger] has_pos(x, p) ==> has_pos(y, p) {
        assert forall|l: int, k: u32| 0 <= l < 3 && k < 32 implies (#[trigger] bit32(x[l], k) ==> bit32(y[l], k)) by {
            if bit32(x[l], k) {
                if k < 27 {
                    let p = 27 * l + k;
                    lemma_pos(p);
                    assert(has_pos(x, p));
                } else {
                    crate::bits::lemma_bit32_low27(x[l], k);
                }
            }
        }
        assert forall|k: u32| k < 32 implies (#[trigger] bit32(x[0], k) ==> bit32(y[0], k)) by {
            assert(bit32(x[0], k) ==> bit32(y[0], k));
        }
        assert forall|k: u32| k < 32 implies (#[trigger] bit32(x[1], k) ==> bit32(y[1], k)) by {
            assert(bit32(x[1], k) ==> bit32(y[1], k));
        }
        assert forall|k: u32| k < 32 implies (#[trigger] bit32(x[2], k) ==> bit32(y[2], k)) by {
            assert(bit32(x[2], k) ==> bit32(y[2], k));
        }
    }
}

/// A subset has no more bits; a proper subset strictly fewer.
pub proof fn lemma_subb_pcb(x: B, y: B)
    requires
        subb(x, y),
    ensures
        pcb(x) <= pcb(y),
        x != y ==> pcb(x) < pcb(y),
{
    lemma_pc32_subset(y[0], x[0]);
    lemma_pc32_subset(y[1], x[1]);
    lemma_pc32_subset(y[2], x[2]);
    if x != y {
        assert(x[0] != y[0] || x[1] != y[1] || x[2] != y[2]) by {
            if x[0] == y[0] && x[1] == y[1] && x[2] == y[2] {
                assert(x =~= y);
            }
        }
    }
}

/// `x & !m` is a subset of `x`.
pub proof fn lemma_subb_andnot(x: B, m: B, r: B)
    requires
        r[0] == x[0] & !m[0],
        r[1] == x[1] & !m[1],
        r[2] == x[2] & !m[2],
    ensures
        subb(r, x),
{
    crate::layout::lemma_sub32_refl(x[0]);
    crate::layout::lemma_sub32_refl(x[1]);
    crate::layout::lemma_sub32_refl(x[2]);
    crate::layout::lemma_sub32_andnot(x[0], m[0], x[0]);
    crate::layout::lemma_sub32_andnot(x[1], m[1], x[1]);
    crate::layout::lemma_sub32_andnot(x[2], m[2], x[2]);
}

/// Total bits over nine digit sets.
pub open spec fn sum9(a: Seq<B>, n: int) -> nat
    decreases n,
{
    if n <= 0 {
        0
    } else {
        sum9(a, n - 1) + pcb(a[n - 1])
    }
}

/// A band holds at most 96 bits.
pub proof fn lemma_pcb_bound(x: B)
    ensures
        pcb(x) <= 96,
{
    crate::layout::lemma_pc32_bound(x[0]);
    crate::layout::lemma_pc32_bound(x[1]);
    crate::layout::lemma_pc32_bound(x[2]);
}

/// Nine bands hold at most `96 n` bits among the first `n`.
pub proof fn lemma_sum9_bound(a: Seq<B>, n: int)
    requires
        0 <= n,
    ensures
        sum9(a, n) <= 96 * n,
    decreases n,
{
    if n > 0 {
        lemma_sum9_bound(a, n - 1);
        lemma_pcb_bound(a[n - 1]);
    }
}

/// Replacing one digit set by a subset does not grow the total; a proper subset
/// shrinks it.
pub proof fn lemma_sum9_update(a: Seq<B>, d: int, x: B, n: int)
    requires
        a.len() == 9,
        0 <= d < 9,
        0 <= n <= 9,
        subb(x, a[d]),
    ensures
        sum9(a.update(d, x), n) <= sum9(a, n),
        d < n && x != a[d] ==> sum9(a.update(d, x), n) < sum9(a, n),
    decreases n,
{
    lemma_subb_pcb(x, a[d]);
    if n > 0 {
        lemma_sum9_update(a, d, x, n - 1);
        assert(a.update(d, x)[n - 1] == if n - 1 == d { x } else { a[n - 1] });
    }
}

/// The nine digit boards in both bandings plus the undecided cells in both.
#[derive(Clone, Copy)]
pub struct BitBoard {
    r: [B; 9],
    c: [B; 9],
    unsolved_r: B,
    unsolved_c: B,
}

/// Per-digit clue positions (row-major): bit for cell `i` of `r[d]` is set iff
/// cell `i` holds the clue digit `d + 1`.
pub struct Placed {
    r: [B; 9],
}

impl Placed {
    /// Cell `j` holds clue digit `d + 1`.
    pub closed spec fn clue(&self, d: int, j: int) -> bool {
        in_r(self.r[d], j)
    }

    /// The clue map describes the clue grid `cells`.
    pub closed spec fn of_cells(&self, cells: Seq<u8>) -> bool {
        &&& forall|d: int| 0 <= d < 9 ==> band_ok(#[trigger] self.r[d])
        &&& forall|d: int, j: int| 0 <= d < 9 && 0 <= j < 81 ==> #[trigger] in_r(self.r[d], j) == (cells[j] == d + 1)
    }

    /// The clue map of `b`'s placed digits.
    pub fn from_board(b: &Board) -> (p: Self)
        requires
            b.wf(),
        ensures
            p.of_cells(b.cells_view()),
    {
        let mut r: [B; 9] = [ZERO; 9];
        proof {
            assert forall|d: int, j: int| 0 <= d < 9 && 0 <= j < 81 implies !#[trigger] in_r(r[d], j) by {
                assert(r[d] == ZERO);
                lemma_zero_pos(j);
            }
        }
        let mut cell: usize = 0;
        while cell < CELLS
            invariant
                0 <= cell <= 81,
                b.wf(),
                forall|d: int| 0 <= d < 9 ==> band_ok(#[trigger] r[d]),
                forall|d: int, j: int| 0 <= d < 9 && 0 <= j < 81 ==> #[trigger] in_r(r[d], j) == (j < cell && b.cells_view()[j] == d + 1),
            decreases 81 - cell,
        {
            let d = b.cell(cell);
            if d != 0 {
                let e = (d - 1) as usize;
                let bit = bit_r(cell);
                proof {
                    lemma_ok_ops(r[e as int], bit);
                }
                let nr = band_or(r[e], bit);
                let ghost old_r = r;
                r[e] = nr;
                proof {
                    assert(r@ == old_r@.update(e as int, nr));
                    assert forall|dd: int, j: int| 0 <= dd < 9 && 0 <= j < 81 implies #[trigger] in_r(r[dd], j) == (j < cell + 1 && b.cells_view()[j] == dd + 1) by {
                        if dd == e {
                            lemma_pos_or(nr, old_r[e as int], bit, j);
                            assert(in_r(bit, j) == (j == cell));
                            assert(in_r(old_r[e as int], j) == (j < cell && b.cells_view()[j] == dd + 1));
                        } else {
                            assert(r[dd] == old_r[dd]);
                        }
                    }
                }
            } else {
                proof {
                    assert forall|dd: int, j: int| 0 <= dd < 9 && 0 <= j < 81 implies #[trigger] in_r(r[dd], j) == (j < cell + 1 && b.cells_view()[j] == dd + 1) by {
                    }
                }
            }
            cell += 1;
        }
        Placed { r }
    }
}

/// The bitboard carries the naked candidates of the clue grid `cells`: a cell is
/// undecided iff it is empty, and `d + 1` is a candidate of an empty cell iff no
/// filled peer holds it.
pub open spec fn naked_bb(bb: BitBoard, cells: Seq<u8>) -> bool {
    &&& bb.wf()
    &&& forall|j: int| 0 <= j < 81 ==> #[trigger] bb.open(j) == (cells[j] == 0)
    &&& forall|d: int, j: int| 0 <= d < 9 && 0 <= j < 81 ==> #[trigger] bb.cand(d, j) == (cells[j] == 0
        && !blocked(cells, j, (d + 1) as u8))
}

/// The full grid `s` agrees with `bb`: every undecided cell keeps `s`'s digit
/// as a candidate, and no undecided cell keeps the digit `s` holds at a decided
/// peer.
pub open spec fn agrees(s: Seq<u8>, bb: BitBoard) -> bool {
    &&& crate::grid::solved(s)
    &&& forall|j: int| 0 <= j < 81 && #[trigger] bb.open(j) ==> bb.cand(s[j] - 1, j)
    &&& forall|j: int, k: int| 0 <= j < 81 && 0 <= k < 81 && !bb.open(j) && bb.open(k) && #[trigger] is_peer(j, k) ==> !bb.cand(
        s[j] - 1,
        k,
    )
}

/// `g` records a digit for every decided cell of `bb` and 0 for every undecided
/// one: no two peers record one digit, and no undecided peer keeps a recorded
/// digit as a candidate. A bitboard keeps no digit for a decided cell, so the
/// record is what fixes them.
pub open spec fn records(bb: BitBoard, g: Seq<u8>) -> bool {
    &&& g.len() == 81
    &&& forall|j: int| 0 <= j < 81 ==> #[trigger] g[j] <= 9 && ((g[j] == 0) == bb.open(j))
    &&& forall|j: int, k: int| 0 <= j < 81 && 0 <= k < 81 && #[trigger] is_peer(j, k) && g[j] != 0 ==> g[k] != g[j] && (bb.open(k)
        ==> !bb.cand(g[j] - 1, k))
}

/// `g` keeps every recorded digit of `g0`.
pub open spec fn extends_rec(g: Seq<u8>, g0: Seq<u8>) -> bool {
    forall|j: int| 0 <= j < 81 && g0[j] != 0 ==> #[trigger] g[j] == g0[j]
}

/// `g` keeps `g0`, and every digit it adds at a cell undecided in `o` is one of
/// that cell's candidates in `o`.
pub open spec fn grows_from(g: Seq<u8>, g0: Seq<u8>, o: BitBoard) -> bool {
    &&& extends_rec(g, g0)
    &&& forall|j: int| 0 <= j < 81 && #[trigger] o.open(j) && g[j] != 0 ==> o.cand(g[j] - 1, j)
}

/// Every record of `o` grows into a record of `n`: the decisions that lead
/// from `o` to `n` are consistent ones.
pub open spec fn keeps_records(o: BitBoard, n: BitBoard) -> bool {
    forall|g0: Seq<u8>| #[trigger] records(o, g0) ==> exists|g: Seq<u8>| #[trigger] records(n, g) && grows_from(g, g0, o)
}

/// The clues of a conflict-free grid are a record of its naked bitboard.
pub proof fn lemma_naked_records(bb: BitBoard, cells: Seq<u8>)
    requires
        naked_bb(bb, cells),
        cells.len() == 81,
        forall|j: int| 0 <= j < 81 ==> #[trigger] cells[j] <= 9,
        crate::grid::conflict_free(cells),
    ensures
        records(bb, cells),
{
    assert forall|j: int, k: int| 0 <= j < 81 && 0 <= k < 81 && #[trigger] is_peer(j, k) && cells[j] != 0 implies cells[k]
        != cells[j] && (bb.open(k) ==> !bb.cand(cells[j] - 1, k)) by {
        assert(crate::grid::no_conflict_at(cells, j));
        if cells[k] == cells[j] {
            assert(blocked(cells, j, cells[j]));
        }
        if bb.open(k) {
            assert(is_peer(k, j));
            assert(blocked(cells, k, ((cells[j] - 1) + 1) as u8));
        }
    }
}

/// Nothing decided keeps every record.
pub proof fn lemma_keeps_refl(o: BitBoard)
    ensures
        keeps_records(o, o),
{
    assert forall|g0: Seq<u8>| #[trigger] records(o, g0) implies exists|g: Seq<u8>| #[trigger] records(o, g) && grows_from(g, g0, o) by {
        assert(records(o, g0) && grows_from(g0, g0, o));
    }
}

/// Keeping records composes.
pub proof fn lemma_keeps_trans(a: BitBoard, b: BitBoard, c: BitBoard)
    requires
        keeps_records(a, b),
        keeps_records(b, c),
        b.within(a),
    ensures
        keeps_records(a, c),
{
    assert forall|g0: Seq<u8>| #[trigger] records(a, g0) implies exists|g: Seq<u8>| #[trigger] records(c, g) && grows_from(g, g0, a) by {
        let g1 = choose|g: Seq<u8>| #[trigger] records(b, g) && grows_from(g, g0, a);
        let g2 = choose|g: Seq<u8>| #[trigger] records(c, g) && grows_from(g, g1, b);
        assert forall|j: int| 0 <= j < 81 && #[trigger] a.open(j) && g2[j] != 0 implies a.cand(g2[j] - 1, j) by {
            if b.open(j) {
                assert(b.cand(g2[j] - 1, j));
            } else {
                assert(g1[j] != 0);
                assert(g2[j] == g1[j]);
            }
        }
        assert forall|j: int| 0 <= j < 81 && g0[j] != 0 implies #[trigger] g2[j] == g0[j] by {
            assert(g1[j] == g0[j]);
        }
        assert(records(c, g2) && grows_from(g2, g0, a));
    }
}

/// Removing candidates without deciding a cell keeps every record.
pub proof fn lemma_keeps_elim(o: BitBoard, n: BitBoard)
    requires
        n.within(o),
        forall|j: int| 0 <= j < 81 ==> #[trigger] n.open(j) == o.open(j),
    ensures
        keeps_records(o, n),
{
    assert forall|g0: Seq<u8>| #[trigger] records(o, g0) implies exists|g: Seq<u8>| #[trigger] records(n, g) && grows_from(g, g0, o) by {
        assert forall|j: int, k: int| 0 <= j < 81 && 0 <= k < 81 && #[trigger] is_peer(j, k) && g0[j] != 0 implies g0[k] != g0[j]
            && (n.open(k) ==> !n.cand(g0[j] - 1, k)) by {
            if n.open(k) && n.cand(g0[j] - 1, k) {
                assert(o.cand(g0[j] - 1, k));
            }
        }
        assert(records(n, g0) && grows_from(g0, g0, o));
    }
}

/// Deciding an undecided cell for one of its candidates keeps every record.
pub proof fn lemma_keeps_place(o: BitBoard, n: BitBoard, cell: int, d: u8)
    requires
        0 <= cell < 81,
        1 <= d <= 9,
        o.open(cell),
        o.cand(d - 1, cell),
        forall|j: int| 0 <= j < 81 ==> #[trigger] n.open(j) == (o.open(j) && j != cell),
        forall|e: int, j: int| 0 <= e < 9 && 0 <= j < 81 ==> #[trigger] n.cand(e, j) == (o.cand(e, j) && !(e == d - 1 && is_peer(
            cell,
            j,
        ))),
    ensures
        keeps_records(o, n),
{
    assert forall|g0: Seq<u8>| #[trigger] records(o, g0) implies exists|g: Seq<u8>| #[trigger] records(n, g) && grows_from(g, g0, o) by {
        let g = g0.update(cell, d);
        assert forall|j: int| 0 <= j < 81 implies #[trigger] g[j] <= 9 && ((g[j] == 0) == n.open(j)) by {
            assert(g0[j] <= 9 && ((g0[j] == 0) == o.open(j)));
        }
        assert forall|j: int, k: int| 0 <= j < 81 && 0 <= k < 81 && #[trigger] is_peer(j, k) && g[j] != 0 implies g[k] != g[j] && (
        n.open(k) ==> !n.cand(g[j] - 1, k)) by {
            assert(is_peer(k, j));
            if j == cell {
                if g0[k] != 0 {
                    assert(!o.cand(g0[k] - 1, cell));
                }
            } else if k == cell {
                assert(!o.cand(g0[j] - 1, cell));
            } else {
                assert(g0[k] != g0[j] && (o.open(k) ==> !o.cand(g0[j] - 1, k)));
            }
        }
        assert(records(n, g));
        assert(grows_from(g, g0, o));
    }
}

/// The naked singles of `singles` whose digit is below `dd` placed, without a
/// clash among them, keep every record.
pub proof fn lemma_keeps_singles_upto(o: BitBoard, n: BitBoard, singles: B, dd: int)
    requires
        0 <= dd <= 9,
        lone_cells(o, singles),
        forall|e: int, q: int, p: int| 0 <= e < dd && 0 <= q < 81 && 0 <= p < 81 && in_r(singles, q) && in_r(singles, p)
            && #[trigger] o.cand(e, q) && #[trigger] o.cand(e, p) ==> !is_peer(q, p),
        forall|j: int| 0 <= j < 81 ==> #[trigger] n.open(j) == (o.open(j) && !(in_r(singles, j) && exists|e: int| 0 <= e < dd
            && #[trigger] o.cand(e, j))),
        forall|e: int, j: int| 0 <= e < 9 && 0 <= j < 81 ==> #[trigger] n.cand(e, j) == (o.cand(e, j) && !(e < dd && exists|q: int|
            0 <= q < 81 && in_r(singles, q) && o.cand(e, q) && #[trigger] is_peer(q, j))),
    ensures
        keeps_records(o, n),
{
    assert forall|g0: Seq<u8>| #[trigger] records(o, g0) implies exists|g: Seq<u8>| #[trigger] records(n, g) && grows_from(g, g0, o) by {
        let g = Seq::new(
            81,
            |j: int|
                if in_r(singles, j) && o.open(j) && exists|d: int| 0 <= d < dd && #[trigger] o.cand(d, j) {
                    ((choose|d: int| 0 <= d < dd && #[trigger] o.cand(d, j)) + 1) as u8
                } else {
                    g0[j]
                },
        );
        assert forall|j: int| 0 <= j < 81 && in_r(singles, j) && o.open(j) && (exists|d: int| 0 <= d < dd && #[trigger] o.cand(d, j))
            implies 1 <= #[trigger] g[j] <= dd && o.cand(g[j] - 1, j) && forall|e: int| 0 <= e < 9 && #[trigger] o.cand(e, j) ==> e == g[j] - 1 by {
            let d = choose|d: int| 0 <= d < dd && #[trigger] o.cand(d, j);
            assert(g[j] == (d + 1) as u8);
        }
        assert forall|j: int| 0 <= j < 81 implies #[trigger] g[j] <= 9 && ((g[j] == 0) == n.open(j)) by {
            assert(g0[j] <= 9 && ((g0[j] == 0) == o.open(j)));
            if in_r(singles, j) && o.open(j) && exists|e: int| 0 <= e < dd && #[trigger] o.cand(e, j) {
            } else {
                assert(g[j] == g0[j]);
            }
        }
        assert forall|j: int, k: int| 0 <= j < 81 && 0 <= k < 81 && #[trigger] is_peer(j, k) && g[j] != 0 implies g[k] != g[j] && (
        n.open(k) ==> !n.cand(g[j] - 1, k)) by {
            assert(is_peer(k, j));
            let pj = in_r(singles, j) && o.open(j) && exists|d: int| 0 <= d < dd && #[trigger] o.cand(d, j);
            let pk = in_r(singles, k) && o.open(k) && exists|d: int| 0 <= d < dd && #[trigger] o.cand(d, k);
            if pj {
                if pk {
                    if g[k] == g[j] {
                        assert(o.cand(g[j] - 1, j) && o.cand(g[j] - 1, k));
                        assert(!is_peer(j, k));
                    }
                } else {
                    assert(g[k] == g0[k]);
                    if g0[k] != 0 {
                        assert(!o.cand(g0[k] - 1, j));
                    }
                }
                if n.open(k) {
                    assert(in_r(singles, j) && o.cand(g[j] - 1, j) && is_peer(j, k));
                }
            } else {
                assert(g[j] == g0[j]);
                if pk {
                    assert(!o.cand(g0[j] - 1, k));
                } else {
                    assert(g[k] == g0[k]);
                    assert(g0[k] != g0[j]);
                }
                if n.open(k) {
                    assert(!o.cand(g0[j] - 1, k));
                }
            }
        }
        assert(records(n, g));
        assert forall|j: int| 0 <= j < 81 && g0[j] != 0 implies #[trigger] g[j] == g0[j] by {
            assert(!o.open(j));
        }
        assert(grows_from(g, g0, o));
    }
}

/// A wave of naked singles placed without a clash keeps every record.
pub proof fn lemma_keeps_singles(o: BitBoard, n: BitBoard, singles: B)
    requires
        lone_cells(o, singles),
        !singles_clash(o, singles),
        singles_post(o, n, singles),
    ensures
        keeps_records(o, n),
{
    assert forall|e: int, q: int, p: int| 0 <= e < 9 && 0 <= q < 81 && 0 <= p < 81 && in_r(singles, q) && in_r(singles, p)
        && #[trigger] o.cand(e, q) && #[trigger] o.cand(e, p) implies !is_peer(q, p) by {
        if is_peer(q, p) {
            assert(singles_clash(o, singles));
        }
    }
    lemma_keeps_singles_upto(o, n, singles, 9);
}

/// A decided board reached from `x` by consistent decisions gives a grid that
/// agrees with `x`.
pub proof fn lemma_records_agree(x: BitBoard, fin: BitBoard, g0: Seq<u8>, g: Seq<u8>)
    requires
        records(x, g0),
        records(fin, g),
        grows_from(g, g0, x),
        all_decided(fin),
    ensures
        agrees(g, x),
        extends_rec(g, g0),
{
    assert forall|j: int| 0 <= j < 81 implies 1 <= #[trigger] g[j] <= 9 by {
        assert(!fin.open(j));
    }
    assert forall|i: int| 0 <= i < 81 implies #[trigger] crate::grid::no_conflict_at(g, i) by {
        if blocked(g, i, g[i]) {
            let j = choose|j: int| 0 <= j < 81 && #[trigger] is_peer(i, j) && g[j] == g[i];
            assert(g[j] != g[i]);
        }
    }
    assert forall|j: int| 0 <= j < 81 && #[trigger] x.open(j) implies x.cand(g[j] - 1, j) by {
        assert(!fin.open(j));
    }
    assert forall|j: int, k: int| 0 <= j < 81 && 0 <= k < 81 && !x.open(j) && x.open(k) && #[trigger] is_peer(j, k) implies !x.cand(
        g[j] - 1,
        k,
    ) by {
        assert(g0[j] != 0);
    }
}

/// Every record of `x` completes to a grid that agrees with `x` and, where cell
/// `i` is undecided, holds one of the digits of `alts` there.
pub open spec fn completes_with(x: BitBoard, i: int, alts: u16) -> bool {
    forall|g0: Seq<u8>| #[trigger] records(x, g0) ==> exists|g: Seq<u8>| #[trigger] agrees(g, x) && extends_rec(g, g0) && (x.open(i)
        ==> mask_has(alts, g[i]))
}

/// A record stays one when candidates go and no cell is decided.
pub proof fn lemma_records_within(x: BitBoard, y: BitBoard, g0: Seq<u8>)
    requires
        records(x, g0),
        y.within(x),
        forall|j: int| 0 <= j < 81 ==> #[trigger] y.open(j) == x.open(j),
    ensures
        records(y, g0),
{
    assert forall|j: int, k: int| 0 <= j < 81 && 0 <= k < 81 && #[trigger] is_peer(j, k) && g0[j] != 0 implies g0[k] != g0[j] && (
    y.open(k) ==> !y.cand(g0[j] - 1, k)) by {
        if y.open(k) && y.cand(g0[j] - 1, k) {
            assert(x.cand(g0[j] - 1, k));
        }
    }
}

/// Deciding every cell of `x` with cell `i` kept to `alts` by consistent
/// decisions completes every record of `x`.
pub proof fn lemma_restricted_completes(x: BitBoard, s0: BitBoard, fin: BitBoard, i: int, alts: u16)
    requires
        0 <= i < 81,
        forall|j: int| 0 <= j < 81 ==> #[trigger] s0.open(j) == x.open(j),
        forall|e: int, j: int| 0 <= e < 9 && 0 <= j < 81 ==> #[trigger] s0.cand(e, j) == (x.cand(e, j) && !(j == i && !mask_has(
            alts,
            (e + 1) as u8,
        ))),
        all_decided(fin),
        keeps_records(s0, fin),
    ensures
        completes_with(x, i, alts),
{
    assert forall|g0: Seq<u8>| #[trigger] records(x, g0) implies exists|g: Seq<u8>| #[trigger] agrees(g, x) && extends_rec(g, g0) && (
    x.open(i) ==> mask_has(alts, g[i])) by {
        lemma_records_within(x, s0, g0);
        let g = choose|g: Seq<u8>| #[trigger] records(fin, g) && grows_from(g, g0, s0);
        assert forall|j: int| 0 <= j < 81 && #[trigger] x.open(j) && g[j] != 0 implies x.cand(g[j] - 1, j) by {
            assert(s0.cand(g[j] - 1, j));
        }
        lemma_records_agree(x, fin, g0, g);
        if x.open(i) {
            assert(s0.cand(g[i] - 1, i));
            assert(((g[i] - 1) + 1) as u8 == g[i]);
        }
    }
}

/// `fin` decides every cell of `x` by consistent decisions.
pub open spec fn decides(x: BitBoard, fin: BitBoard) -> bool {
    &&& shrinks(x, fin)
    &&& all_decided(fin)
    &&& keeps_records(x, fin)
}

/// Every record of `x` completes to a grid that agrees with `x`.
pub open spec fn record_completes(x: BitBoard) -> bool {
    forall|g0: Seq<u8>| #[trigger] records(x, g0) ==> exists|g: Seq<u8>| #[trigger] agrees(g, x) && extends_rec(g, g0)
}

/// A board decided by consistent decisions completes every record.
pub proof fn lemma_decides_completes(x: BitBoard, fin: BitBoard)
    requires
        decides(x, fin),
    ensures
        record_completes(x),
{
    assert forall|g0: Seq<u8>| #[trigger] records(x, g0) implies exists|g: Seq<u8>| #[trigger] agrees(g, x) && extends_rec(g, g0) by {
        let g = choose|g: Seq<u8>| #[trigger] records(fin, g) && grows_from(g, g0, x);
        lemma_records_agree(x, fin, g0, g);
    }
}

/// `p` holds the exported bands and undecided cells of `bb`.
pub open spec fn probe_of(p: crate::probe::Probe, bb: BitBoard) -> bool {
    &&& forall|d: int, l: int| 0 <= d < 9 && 0 <= l < 3 ==> #[trigger] p.r[d][l] == bb.digit_band(d)[l]
    &&& forall|l: int| 0 <= l < 3 ==> #[trigger] p.unsolved[l] == bb.open_band()[l]
}

/// An undecided cell's bit is set in the undecided-cell band.
pub proof fn lemma_open_bit(bb: BitBoard, j: int)
    requires
        0 <= j < 81,
        bb.open(j),
    ensures
        crate::bits::bit32(bb.open_band()[j / 27], (j % 27) as u32),
{
}

/// The undecided cells among the first `n`.
pub open spec fn count_open(bb: BitBoard, n: int) -> nat
    decreases n,
{
    if n <= 0 {
        0
    } else {
        count_open(bb, n - 1) + if bb.open(n - 1) {
            1nat
        } else {
            0nat
        }
    }
}

/// The undecided cells of the first `l` lanes, then `k` cells of lane `l`.
proof fn lemma_count_open_lanes(bb: BitBoard, l: int, k: int)
    requires
        0 <= l < 3,
        0 <= k <= 27,
    ensures
        count_open(bb, 27 * l + k) == (if l >= 1 { crate::layout::bits_below(bb.unsolved_r[0], 27) } else { 0nat }) + (if l >= 2 {
            crate::layout::bits_below(bb.unsolved_r[1], 27)
        } else {
            0nat
        }) + crate::layout::bits_below(bb.unsolved_r[l], k),
    decreases l, k,
{
    if k == 0 {
        if l > 0 {
            lemma_count_open_lanes(bb, l - 1, 27);
        }
    } else {
        lemma_count_open_lanes(bb, l, k - 1);
        let j = 27 * l + k - 1;
        assert(j / 27 == l && j % 27 == k - 1);
        assert(bb.open(j) == crate::bits::bit32(bb.unsolved_r[l], (k - 1) as u32));
    }
}

/// The undecided-cell band counts the undecided cells.
pub proof fn lemma_count_open_pcb(bb: BitBoard)
    requires
        bb.wf(),
    ensures
        count_open(bb, 81) == pcb(bb.open_band()),
{
    lemma_count_open_lanes(bb, 2, 27);
    let u = bb.unsolved_r;
    crate::layout::lemma_pc32_bits(u[0]);
    crate::layout::lemma_pc32_bits(u[1]);
    crate::layout::lemma_pc32_bits(u[2]);
    crate::layout::lemma_bits_below_27(u[0], 32);
    crate::layout::lemma_bits_below_27(u[1], 32);
    crate::layout::lemma_bits_below_27(u[2], 32);
}

/// A board whose undecided cells are the empty cells of `cells` has as many
/// undecided cells as `cells` has empty ones.
pub proof fn lemma_count_open_cells(bb: BitBoard, cells: Seq<u8>, n: int)
    requires
        cells.len() == 81,
        0 <= n <= 81,
        forall|j: int| 0 <= j < 81 ==> #[trigger] bb.open(j) == (cells[j] == 0),
    ensures
        count_open(bb, n) + crate::grid::count_filled(cells.take(n)) == n,
    decreases n,
{
    if n > 0 {
        lemma_count_open_cells(bb, cells, n - 1);
        assert(cells.take(n).drop_last() =~= cells.take(n - 1));
    }
}

/// Every completion of the clue grid agrees with its naked bitboard.
pub proof fn lemma_naked_agrees(bb: BitBoard, cells: Seq<u8>, s: Seq<u8>)
    requires
        naked_bb(bb, cells),
        crate::grid::completes(s, cells),
    ensures
        agrees(s, bb),
{
    assert forall|j: int| 0 <= j < 81 && #[trigger] bb.open(j) implies bb.cand(s[j] - 1, j) by {
        assert(1 <= s[j] <= 9);
        assert(bb.cand(s[j] - 1, j) == (cells[j] == 0 && !blocked(cells, j, ((s[j] - 1) + 1) as u8)));
        if blocked(cells, j, s[j]) {
            let k = choose|k: int| 0 <= k < 81 && #[trigger] is_peer(j, k) && cells[k] == s[j];
            assert(crate::grid::no_conflict_at(s, j));
            assert(blocked(s, j, s[j]));
        }
    }
    assert forall|j: int, k: int| 0 <= j < 81 && 0 <= k < 81 && !bb.open(j) && bb.open(k) && #[trigger] is_peer(j, k) implies !bb.cand(
        s[j] - 1,
        k,
    ) by {
        assert(1 <= s[j] <= 9);
        assert(cells[j] != 0);
        assert(is_peer(k, j));
        assert(blocked(cells, k, ((s[j] - 1) + 1) as u8));
    }
}

/// Deciding cell `cell` for the digit a grid holds there keeps the grid in
/// agreement.
pub proof fn lemma_place_agrees(o: BitBoard, n: BitBoard, s: Seq<u8>, cell: int, d: u8)
    requires
        agrees(s, o),
        0 <= cell < 81,
        1 <= d <= 9,
        s[cell] == d,
        forall|j: int| 0 <= j < 81 ==> #[trigger] n.open(j) == (o.open(j) && j != cell),
        forall|e: int, j: int| 0 <= e < 9 && 0 <= j < 81 ==> #[trigger] n.cand(e, j) == (o.cand(e, j) && !(e == d - 1 && is_peer(
            cell,
            j,
        ))),
    ensures
        agrees(s, n),
{
    assert forall|j: int| 0 <= j < 81 && #[trigger] n.open(j) implies n.cand(s[j] - 1, j) by {
        assert(o.open(j));
        assert(1 <= s[j] <= 9);
        if is_peer(cell, j) && s[j] == d {
            assert(crate::grid::no_conflict_at(s, j));
            assert(is_peer(j, cell));
            assert(blocked(s, j, s[j]));
        }
    }
    assert forall|j: int, k: int| 0 <= j < 81 && 0 <= k < 81 && !n.open(j) && n.open(k) && #[trigger] is_peer(j, k) implies !n.cand(
        s[j] - 1,
        k,
    ) by {
        assert(1 <= s[j] <= 9);
        if j != cell {
            assert(!o.open(j));
        }
    }
}

/// A digit whose only undecided candidate cell in unit `u` is `cell` sits there
/// in every agreeing grid.
pub proof fn lemma_lone_home(bb: BitBoard, s: Seq<u8>, u: int, d: int, cell: int)
    requires
        agrees(s, bb),
        0 <= u < 27,
        0 <= d < 9,
        0 <= cell < 81,
        bb.open(cell),
        bb.cand(d, cell),
        exists|kc: int| 0 <= kc < 9 && crate::grid::unit_cell(u, kc) == cell,
        forall|x: int| 0 <= x < 9 && bb.open(#[trigger] crate::grid::unit_cell(u, x)) && bb.cand(d, crate::grid::unit_cell(u, x))
            ==> crate::grid::unit_cell(u, x) == cell,
    ensures
        s[cell] == d + 1,
{
    crate::grid::lemma_unit_has_digit(s, u, (d + 1) as u8);
    let x2 = choose|x: int| 0 <= x < 9 && s[crate::grid::unit_cell(u, x)] == (d + 1) as u8;
    let kc = choose|kc: int| 0 <= kc < 9 && crate::grid::unit_cell(u, kc) == cell;
    let c2 = crate::grid::unit_cell(u, x2);
    crate::probe::techniques::lemma_unit_cell_bound(u, x2);
    if c2 != cell {
        crate::grid::lemma_unit_peers(u, x2, kc);
        if bb.open(c2) {
            assert(bb.cand(s[c2] - 1, c2));
        } else {
            assert(is_peer(c2, cell));
            assert(!bb.cand(s[c2] - 1, cell));
        }
    }
}

impl BitBoard {
    /// Digit `d + 1` is a candidate at cell `j`.
    pub closed spec fn cand(&self, d: int, j: int) -> bool {
        in_r(self.r[d], j)
    }

    /// The row-major band set of digit `d + 1`'s candidate cells.
    pub closed spec fn digit_band(&self, d: int) -> B {
        self.r[d]
    }

    /// The row-major band set of the undecided cells.
    pub closed spec fn open_band(&self) -> B {
        self.unsolved_r
    }

    /// Cell `j` is undecided.
    pub closed spec fn open(&self, j: int) -> bool {
        in_r(self.unsolved_r, j)
    }

    /// Every band is within 27 bits and the two bandings describe the same sets.
    pub closed spec fn wf(&self) -> bool {
        &&& forall|d: int| 0 <= d < 9 ==> band_ok(#[trigger] self.r[d]) && band_ok(self.c[d])
        &&& band_ok(self.unsolved_r)
        &&& band_ok(self.unsolved_c)
        &&& forall|d: int, j: int| 0 <= d < 9 && 0 <= j < 81 ==> #[trigger] in_c(self.c[d], j) == in_r(self.r[d], j)
        &&& forall|j: int| 0 <= j < 81 ==> #[trigger] in_c(self.unsolved_c, j) == in_r(self.unsolved_r, j)
    }

    /// Total bits held: strictly decreases with every elimination or decision.
    pub closed spec fn measure(&self) -> nat {
        sum9(self.r@, 9) + sum9(self.c@, 9) + pcb(self.unsolved_r) + pcb(self.unsolved_c)
    }

    /// Every candidate and undecided cell of `self` is one of `o`'s.
    pub open spec fn within(&self, o: BitBoard) -> bool {
        &&& forall|j: int| 0 <= j < 81 && #[trigger] self.open(j) ==> o.open(j)
        &&& forall|d: int, j: int| 0 <= d < 9 && 0 <= j < 81 && #[trigger] self.cand(d, j) ==> o.cand(d, j)
    }

    /// Two well-formed boards with the same candidates and undecided cells are equal.
    pub proof fn lemma_ext(a: BitBoard, b: BitBoard)
        requires
            a.wf(),
            b.wf(),
            forall|j: int| 0 <= j < 81 ==> #[trigger] a.open(j) == b.open(j),
            forall|d: int, j: int| 0 <= d < 9 && 0 <= j < 81 ==> #[trigger] a.cand(d, j) == b.cand(d, j),
        ensures
            a == b,
    {
        assert forall|d: int| 0 <= d < 9 implies a.r[d] == b.r[d] && a.c[d] == b.c[d] by {
            assert forall|p: int| 0 <= p < 81 implies #[trigger] has_pos(a.r[d], p) == has_pos(b.r[d], p) by {
                assert(a.cand(d, p) == b.cand(d, p));
            }
            lemma_band_ext(a.r[d], b.r[d]);
            assert forall|p: int| 0 <= p < 81 implies #[trigger] has_pos(a.c[d], p) == has_pos(b.c[d], p) by {
                lemma_tr(p);
                assert(a.cand(d, tr(p)) == b.cand(d, tr(p)));
                assert(in_c(a.c[d], tr(p)) == in_c(b.c[d], tr(p)));
            }
            lemma_band_ext(a.c[d], b.c[d]);
        }
        assert forall|p: int| 0 <= p < 81 implies #[trigger] has_pos(a.unsolved_r, p) == has_pos(b.unsolved_r, p) by {
            assert(a.open(p) == b.open(p));
        }
        lemma_band_ext(a.unsolved_r, b.unsolved_r);
        assert forall|p: int| 0 <= p < 81 implies #[trigger] has_pos(a.unsolved_c, p) == has_pos(b.unsolved_c, p) by {
            lemma_tr(p);
            assert(a.open(tr(p)) == b.open(tr(p)));
            assert(in_c(a.unsolved_c, tr(p)) == in_c(b.unsolved_c, tr(p)));
        }
        lemma_band_ext(a.unsolved_c, b.unsolved_c);
        assert(a.r =~= b.r);
        assert(a.c =~= b.c);
    }

    /// The bitboard of `b`: undecided cells are the empty ones, candidates are
    /// `b`'s candidate masks on the empty cells.
    pub fn from_board(b: &Board) -> (bb: Self)
        requires
            b.wf(),
        ensures
            bb.wf(),
            forall|j: int| 0 <= j < 81 ==> #[trigger] bb.open(j) == (b.cells_view()[j] == 0),
            forall|d: int, j: int| 0 <= d < 9 && 0 <= j < 81 ==> #[trigger] bb.cand(d, j) == (b.cells_view()[j] == 0
                && mask_has(b.cands_view()[j], (d + 1) as u8)),
            b.is_naked() ==> naked_bb(bb, b.cells_view()),
    {
        let mut r: [B; 9] = [ZERO; 9];
        let mut c: [B; 9] = [ZERO; 9];
        let mut ur: B = ZERO;
        let mut uc: B = ZERO;
        proof {
            assert forall|j: int| 0 <= j < 81 implies !has_pos(ZERO, j) && !in_c(ZERO, j) by {
                lemma_zero_pos(j);
                lemma_tr(j);
                lemma_zero_pos(tr(j));
            }
            assert forall|d: int| 0 <= d < 9 implies r[d] == ZERO && c[d] == ZERO by {}
        }
        let mut cell: usize = 0;
        while cell < CELLS
            invariant
                0 <= cell <= 81,
                b.wf(),
                forall|d: int| 0 <= d < 9 ==> #[trigger] band_ok(r[d]),
                forall|d: int| 0 <= d < 9 ==> #[trigger] band_ok(c[d]),
                band_ok(ur),
                band_ok(uc),
                forall|j: int| 0 <= j < 81 ==> #[trigger] in_r(ur, j) == (j < cell && b.cells_view()[j] == 0),
                forall|j: int| 0 <= j < 81 ==> #[trigger] in_c(uc, j) == (j < cell && b.cells_view()[j] == 0),
                forall|d: int, j: int| 0 <= d < 9 && 0 <= j < 81 ==> #[trigger] in_r(r[d], j) == (j < cell && b.cells_view()[j]
                    == 0 && mask_has(b.cands_view()[j], (d + 1) as u8)),
                forall|d: int, j: int| 0 <= d < 9 && 0 <= j < 81 ==> #[trigger] in_c(c[d], j) == (j < cell && b.cells_view()[j]
                    == 0 && mask_has(b.cands_view()[j], (d + 1) as u8)),
            decreases 81 - cell,
        {
            if b.cell(cell) == 0 {
                let br = bit_r(cell);
                let bc = bit_c(cell);
                proof {
                    lemma_ok_ops(ur, br);
                    lemma_ok_ops(uc, bc);
                }
                let ghost (ur0, uc0) = (ur, uc);
                ur = band_or(ur, br);
                uc = band_or(uc, bc);
                proof {
                    assert forall|j: int| 0 <= j < 81 implies #[trigger] in_r(ur, j) == (j < cell + 1 && b.cells_view()[j] == 0) by {
                        lemma_pos_or(ur, ur0, br, j);
                        assert(in_r(br, j) == (j == cell));
                        assert(in_r(ur0, j) == (j < cell && b.cells_view()[j] == 0));
                    }
                    assert forall|j: int| 0 <= j < 81 implies #[trigger] in_c(uc, j) == (j < cell + 1 && b.cells_view()[j] == 0) by {
                        lemma_tr(j);
                        lemma_pos_or(uc, uc0, bc, tr(j));
                        assert(in_c(bc, j) == (j == cell));
                        assert(in_c(uc0, j) == (j < cell && b.cells_view()[j] == 0));
                    }
                }
                let m = b.candidates(cell);
                let mut it = iter_digits(m);
                proof {
                    lemma_and_all9(m);
                }
                let mut done = false;
                while !done
                    invariant
                        cell < 81,
                        b.wf(),
                        b.cells_view()[cell as int] == 0,
                        m == b.cands_view()[cell as int],
                        band_ok(br),
                        band_ok(bc),
                        forall|j: int| 0 <= j < 81 ==> #[trigger] in_r(br, j) == (j == cell),
                        forall|j: int| 0 <= j < 81 ==> #[trigger] in_c(bc, j) == (j == cell),
                        it.rest() < 512,
                        forall|e: u8| 1 <= e <= 9 && #[trigger] mask_has(it.rest(), e) ==> mask_has(m, e),
                        done ==> it.rest() == 0,
                        forall|d: int| 0 <= d < 9 ==> #[trigger] band_ok(r[d]),
                forall|d: int| 0 <= d < 9 ==> #[trigger] band_ok(c[d]),
                        forall|d: int, j: int| 0 <= d < 9 && 0 <= j < 81 && j != cell ==> #[trigger] in_r(r[d], j) == (j < cell
                            && b.cells_view()[j] == 0 && mask_has(b.cands_view()[j], (d + 1) as u8)),
                        forall|d: int, j: int| 0 <= d < 9 && 0 <= j < 81 && j != cell ==> #[trigger] in_c(c[d], j) == (j < cell
                            && b.cells_view()[j] == 0 && mask_has(b.cands_view()[j], (d + 1) as u8)),
                        forall|d: int| 0 <= d < 9 ==> #[trigger] in_r(r[d], cell as int) == (mask_has(m, (d + 1) as u8)
                            && !mask_has(it.rest(), (d + 1) as u8)),
                        forall|d: int| 0 <= d < 9 ==> #[trigger] in_c(c[d], cell as int) == (mask_has(m, (d + 1) as u8)
                            && !mask_has(it.rest(), (d + 1) as u8)),
                    decreases it.rest() + if done { 0int } else { 1int },
                {
                    let ghost rest0 = it.rest();
                    match it.next() {
                        None => {
                            done = true;
                        },
                        Some(d) => {
                            let e = (d - 1) as usize;
                            proof {
                                lemma_ok_ops(r[e as int], br);
                                lemma_ok_ops(c[e as int], bc);
                            }
                            let nr = band_or(r[e], br);
                            let nc = band_or(c[e], bc);
                            let ghost (r0, c0) = (r, c);
                            r[e] = nr;
                            c[e] = nc;
                            proof {
                                assert(r@ == r0@.update(e as int, nr));
                                assert(c@ == c0@.update(e as int, nc));
                                assert forall|dd: int, j: int| #![trigger in_r(r[dd], j)] #![trigger in_c(c[dd], j)] 0 <= dd < 9 && 0 <= j < 81 implies in_r(r[dd], j) == (
                                    if j == cell {
                                        mask_has(m, (dd + 1) as u8) && !mask_has(it.rest(), (dd + 1) as u8)
                                    } else {
                                        j < cell && b.cells_view()[j] == 0 && mask_has(b.cands_view()[j], (dd + 1) as u8)
                                    }) && in_c(c[dd], j) == in_r(r[dd], j) by {
                                    lemma_tr(j);
                                    assert(mask_has(it.rest(), (dd + 1) as u8) == (mask_has(rest0, (dd + 1) as u8) && (dd + 1) as u8 != d));
                                    if j == cell {
                                        assert(in_r(r0[dd], j) == (mask_has(m, (dd + 1) as u8) && !mask_has(rest0, (dd + 1) as u8)));
                                        assert(in_c(c0[dd], j) == (mask_has(m, (dd + 1) as u8) && !mask_has(rest0, (dd + 1) as u8)));
                                    } else {
                                        assert(in_r(r0[dd], j) == (j < cell && b.cells_view()[j] == 0 && mask_has(b.cands_view()[j], (dd + 1) as u8)));
                                        assert(in_c(c0[dd], j) == (j < cell && b.cells_view()[j] == 0 && mask_has(b.cands_view()[j], (dd + 1) as u8)));
                                    }
                                    if dd == e {
                                        lemma_pos_or(nr, r0[e as int], br, j);
                                        lemma_pos_or(nc, c0[e as int], bc, tr(j));
                                        assert(in_r(br, j) == (j == cell));
                                        assert(in_c(bc, j) == (j == cell));
                                    } else {
                                        assert(r[dd] == r0[dd]);
                                        assert(c[dd] == c0[dd]);
                                    }
                                }
                                assert forall|dd: int| #![trigger band_ok(r[dd])] #![trigger band_ok(c[dd])] 0 <= dd < 9 implies band_ok(r[dd]) && band_ok(c[dd]) by {
                                    if dd != e {
                                        assert(r[dd] == r0[dd]);
                                        assert(c[dd] == c0[dd]);
                                    }
                                }
                            }
                        },
                    }
                }
                proof {
                    assert forall|d: int, j: int| 0 <= d < 9 && 0 <= j < 81 implies #[trigger] in_r(r[d], j) == (j < cell + 1
                        && b.cells_view()[j] == 0 && mask_has(b.cands_view()[j], (d + 1) as u8)) by {
                        if j == cell {
                            crate::bits::lemma_bit16_zero(d as u16);
                        }
                    }
                    assert forall|d: int, j: int| 0 <= d < 9 && 0 <= j < 81 implies #[trigger] in_c(c[d], j) == (j < cell + 1
                        && b.cells_view()[j] == 0 && mask_has(b.cands_view()[j], (d + 1) as u8)) by {
                        if j == cell {
                            crate::bits::lemma_bit16_zero(d as u16);
                        }
                    }
                }
            } else {
                proof {
                    assert forall|d: int, j: int| 0 <= d < 9 && 0 <= j < 81 implies #[trigger] in_r(r[d], j) == (j < cell + 1
                        && b.cells_view()[j] == 0 && mask_has(b.cands_view()[j], (d + 1) as u8)) by {
                    }
                    assert forall|d: int, j: int| 0 <= d < 9 && 0 <= j < 81 implies #[trigger] in_c(c[d], j) == (j < cell + 1
                        && b.cells_view()[j] == 0 && mask_has(b.cands_view()[j], (d + 1) as u8)) by {
                    }
                    assert forall|j: int| 0 <= j < 81 implies #[trigger] in_r(ur, j) == (j < cell + 1 && b.cells_view()[j] == 0) by {
                    }
                    assert forall|j: int| 0 <= j < 81 implies #[trigger] in_c(uc, j) == (j < cell + 1 && b.cells_view()[j] == 0) by {
                    }
                }
            }
            cell += 1;
        }
        let bb = BitBoard { r, c, unsolved_r: ur, unsolved_c: uc };
        proof {
            if b.is_naked() {
                assert forall|d: int, j: int| 0 <= d < 9 && 0 <= j < 81 implies #[trigger] bb.cand(d, j) == (b.cells_view()[j] == 0
                    && !blocked(b.cells_view(), j, (d + 1) as u8)) by {
                    assert(naked_at(b.cells_view(), b.cands_view(), j));
                    if b.cells_view()[j] == 0 {
                        assert(mask_has(b.cands_view()[j], (d + 1) as u8) <==> !blocked(b.cells_view(), j, (d + 1) as u8));
                    }
                }
            }
        }
        bb
    }
}


/// `x & !m` differs from `x` when they share a position.
proof fn lemma_andnot_strict(x: B, m: B, r: B, p: int)
    requires
        0 <= p < 81,
        r[0] == x[0] & !m[0],
        r[1] == x[1] & !m[1],
        r[2] == x[2] & !m[2],
        has_pos(x, p),
        has_pos(m, p),
    ensures
        r != x,
{
    lemma_pos_andnot(r, x, m, p);
}

/// Removing the cells of a set from a band: the result is the band minus the set,
/// a subset of the band, and within 27 bits.
proof fn lemma_remove(x: B, m: B, r: B)
    requires
        band_ok(x),
        band_ok(m),
        r[0] == x[0] & !m[0],
        r[1] == x[1] & !m[1],
        r[2] == x[2] & !m[2],
    ensures
        band_ok(r),
        subb(r, x),
        pcb(r) <= pcb(x),
        r != x ==> pcb(r) < pcb(x),
        forall|p: int| 0 <= p < 81 ==> #[trigger] has_pos(r, p) == (has_pos(x, p) && !has_pos(m, p)),
{
    lemma_ok_ops(x, m);
    lemma_subb_andnot(x, m, r);
    lemma_subb_pcb(r, x);
    assert forall|p: int| 0 <= p < 81 implies #[trigger] has_pos(r, p) == (has_pos(x, p) && !has_pos(m, p)) by {
        lemma_pos_andnot(r, x, m, p);
    }
}

impl BitBoard {
    /// Remove the cells of `mr` (row-major) / `mc` (the same cells, column-major)
    /// from digit `d`'s candidates in both bandings.
    #[verifier::spinoff_prover]
    fn clear_digit(&mut self, d: usize, mr: B, mc: B)
        requires
            old(self).wf(),
            d < 9,
            band_ok(mr),
            band_ok(mc),
            forall|j: int| 0 <= j < 81 ==> #[trigger] in_r(mr, j) == in_c(mc, j),
        ensures
            final(self).wf(),
            forall|j: int| 0 <= j < 81 ==> #[trigger] final(self).open(j) == old(self).open(j),
            forall|e: int, j: int| 0 <= e < 9 && 0 <= j < 81 ==> #[trigger] final(self).cand(e, j) == (old(self).cand(e, j) && !(e == d
                && in_r(mr, j))),
            final(self).measure() <= old(self).measure(),
            (exists|j: int| 0 <= j < 81 && old(self).cand(d as int, j) && #[trigger] in_r(mr, j)) ==> final(self).measure()
                < old(self).measure(),
    {
        let ghost o = *self;
        let nr = band_andnot(self.r[d], mr);
        let nc = band_andnot(self.c[d], mc);
        self.r[d] = nr;
        self.c[d] = nc;
        proof {
            lemma_remove(o.r[d as int], mr, nr);
            lemma_remove(o.c[d as int], mc, nc);
            assert(self.r@ == o.r@.update(d as int, nr));
            assert(self.c@ == o.c@.update(d as int, nc));
            lemma_sum9_update(o.r@, d as int, nr, 9);
            lemma_sum9_update(o.c@, d as int, nc, 9);
            assert forall|e: int, j: int| #![trigger in_r(self.r[e], j)] #![trigger in_c(self.c[e], j)] 0 <= e < 9 && 0 <= j < 81 implies
                in_r(self.r[e], j) == (in_r(o.r[e], j) && !(e == d && in_r(mr, j))) && in_c(self.c[e], j) == in_r(self.r[e], j) by {
                lemma_tr(j);
                if e != d {
                    assert(self.r[e] == o.r[e]);
                    assert(self.c[e] == o.c[e]);
                }
                assert(in_c(o.c[e], j) == in_r(o.r[e], j));
            }
            assert forall|e: int| #![trigger band_ok(self.r[e])] 0 <= e < 9 implies band_ok(self.r[e]) && band_ok(self.c[e]) by {
                if e != d {
                    assert(self.r[e] == o.r[e]);
                    assert(self.c[e] == o.c[e]);
                }
            }
            if exists|j: int| 0 <= j < 81 && o.cand(d as int, j) && #[trigger] in_r(mr, j) {
                let j = choose|j: int| 0 <= j < 81 && o.cand(d as int, j) && #[trigger] in_r(mr, j);
                lemma_andnot_strict(o.r[d as int], mr, nr, j);
            }
        }
    }

    /// Remove the cells of `mr` / `mc` from the undecided cells in both bandings.
    fn clear_open(&mut self, mr: B, mc: B)
        requires
            old(self).wf(),
            band_ok(mr),
            band_ok(mc),
            forall|j: int| 0 <= j < 81 ==> #[trigger] in_r(mr, j) == in_c(mc, j),
        ensures
            final(self).wf(),
            forall|j: int| 0 <= j < 81 ==> #[trigger] final(self).open(j) == (old(self).open(j) && !in_r(mr, j)),
            forall|e: int, j: int| 0 <= e < 9 && 0 <= j < 81 ==> #[trigger] final(self).cand(e, j) == old(self).cand(e, j),
            final(self).measure() <= old(self).measure(),
            (exists|j: int| 0 <= j < 81 && old(self).open(j) && #[trigger] in_r(mr, j)) ==> final(self).measure()
                < old(self).measure(),
    {
        let ghost o = *self;
        let nr = band_andnot(self.unsolved_r, mr);
        let nc = band_andnot(self.unsolved_c, mc);
        self.unsolved_r = nr;
        self.unsolved_c = nc;
        proof {
            lemma_remove(o.unsolved_r, mr, nr);
            lemma_remove(o.unsolved_c, mc, nc);
            assert forall|j: int| 0 <= j < 81 implies #[trigger] in_c(nc, j) == in_r(nr, j) by {
                lemma_tr(j);
                assert(in_c(o.unsolved_c, j) == in_r(o.unsolved_r, j));
                assert(has_pos(nc, tr(j)) == (has_pos(o.unsolved_c, tr(j)) && !has_pos(mc, tr(j))));
                assert(has_pos(nr, j) == (has_pos(o.unsolved_r, j) && !has_pos(mr, j)));
                assert(in_c(mc, j) == in_r(mr, j));
            }
            if exists|j: int| 0 <= j < 81 && o.open(j) && #[trigger] in_r(mr, j) {
                let j = choose|j: int| 0 <= j < 81 && o.open(j) && #[trigger] in_r(mr, j);
                lemma_andnot_strict(o.unsolved_r, mr, nr, j);
            }
        }
    }

    /// Decide cell `cell` for digit `d` (1..=9): the cell leaves the undecided set
    /// and `d` leaves every peer, in both bandings.
    fn place(&mut self, cell: usize, d: u8)
        requires
            old(self).wf(),
            cell < 81,
            1 <= d <= 9,
        ensures
            final(self).wf(),
            forall|j: int| 0 <= j < 81 ==> #[trigger] final(self).open(j) == (old(self).open(j) && j != cell),
            forall|e: int, j: int| 0 <= e < 9 && 0 <= j < 81 ==> #[trigger] final(self).cand(e, j) == (old(self).cand(e, j)
                && !(e == d - 1 && is_peer(cell as int, j))),
            final(self).measure() <= old(self).measure(),
            old(self).open(cell as int) ==> final(self).measure() < old(self).measure(),
    {
        let br = bit_r(cell);
        let bc = bit_c(cell);
        proof {
            assert(in_r(br, cell as int));
        }
        self.clear_open(br, bc);
        self.clear_digit((d - 1) as usize, peer_mask_r(cell), peer_mask_c(cell));
    }

    /// Candidate digit mask (`1 << (digit - 1)`) of cell `c`.
    pub fn cell_candidates(&self, c: usize) -> (m: u16)
        requires
            self.wf(),
            c < 81,
        ensures
            m < 512,
            forall|d: u8| 1 <= d <= 9 ==> #[trigger] mask_has(m, d) == self.cand(d - 1, c as int),
    {
        let cb = bit_r(c);
        let mut m: u16 = 0;
        proof {
            assert forall|e: u8| 1 <= e <= 9 implies !#[trigger] mask_has(0u16, e) by {
                crate::bits::lemma_bit16_zero((e - 1) as u16);
            }
        }
        let mut d: usize = 0;
        while d < 9
            invariant
                0 <= d <= 9,
                self.wf(),
                c < 81,
                band_ok(cb),
                forall|j: int| 0 <= j < 81 ==> #[trigger] in_r(cb, j) == (j == c),
                m < 512,
                forall|e: u8| 1 <= e <= 9 ==> #[trigger] mask_has(m, e) == (e <= d && self.cand(e - 1, c as int)),
            decreases 9 - d,
        {
            proof {
                lemma_ok_ops(self.r[d as int], cb);
            }
            let x = band_and(self.r[d], cb);
            let hit = nonzero(x);
            proof {
                if hit {
                    let p = choose|p: int| 0 <= p < 81 && #[trigger] has_pos(x, p);
                    lemma_pos_and(x, self.r[d as int], cb, p);
                    assert(in_r(cb, p));
                    assert(p == c);
                } else {
                    lemma_pos_and(x, self.r[d as int], cb, c as int);
                    assert(in_r(cb, c as int));
                    assert(!has_pos(x, c as int));
                }
                assert(hit == self.cand(d as int, c as int));
            }
            if hit {
                proof {
                    crate::grid::lemma_mask_insert_bound(m, (d + 1) as u8);
                    assert forall|e: u8| 1 <= e <= 9 implies #[trigger] mask_has(m | (1u16 << (d as u16)), e) == (e <= d + 1 && self.cand(e - 1, c as int)) by {
                        crate::grid::lemma_mask_insert(m, (d + 1) as u8, e);
                    }
                }
                m = m | (1u16 << (d as u16));
            }
            d += 1;
        }
        m
    }

    /// Number of undecided cells.
    pub fn count_empties(&self) -> (n: u32)
        ensures
            n == pcb(self.open_band()),
            self.wf() ==> n == count_open(*self, 81),
    {
        proof {
            if self.wf() {
                lemma_count_open_pcb(*self);
            }
        }
        popcnt(self.unsolved_r)
    }

    /// The row-major digit bands and undecided cells as plain four-lane arrays
    /// (the fourth lane is zero): the state a packed prober loads.
    pub fn export_r(&self) -> (out: ([[u32; 4]; 9], [u32; 4]))
        ensures
            forall|d: int, l: int| 0 <= d < 9 && 0 <= l < 3 ==> #[trigger] out.0[d][l] == self.digit_band(d)[l],
            forall|d: int| 0 <= d < 9 ==> #[trigger] out.0[d][3] == 0,
            forall|l: int| 0 <= l < 3 ==> #[trigger] out.1[l] == self.open_band()[l],
            out.1[3] == 0,
    {
        let mut bands = [[0u32; 4]; 9];
        let mut d: usize = 0;
        while d < 9
            invariant
                0 <= d <= 9,
                forall|e: int, l: int| 0 <= e < d && 0 <= l < 3 ==> #[trigger] bands[e][l] == self.r[e][l],
                forall|e: int| 0 <= e < d ==> #[trigger] bands[e][3] == 0,
            decreases 9 - d,
        {
            bands[d] = [self.r[d][0], self.r[d][1], self.r[d][2], 0];
            d += 1;
        }
        (bands, [self.unsolved_r[0], self.unsolved_r[1], self.unsolved_r[2], 0])
    }
}


/// Some peer of `j` other than `i` holds digit `dig`.
pub open spec fn blocked_except(cells: Seq<u8>, j: int, dig: u8, i: int) -> bool {
    exists|k: int| 0 <= k < 81 && k != i && #[trigger] is_peer(j, k) && cells[k] == dig
}

/// How `blocked` changes when cell `i` is rewritten to `v`.
pub proof fn lemma_blocked_update(cells: Seq<u8>, i: int, v: u8, j: int, dig: u8)
    requires
        cells.len() == 81,
        0 <= i < 81,
    ensures
        blocked(cells, j, dig) == (blocked_except(cells, j, dig, i) || (is_peer(j, i) && cells[i] == dig)),
        blocked(cells.update(i, v), j, dig) == (blocked_except(cells, j, dig, i) || (is_peer(j, i) && v == dig)),
{
    let nc = cells.update(i, v);
    if blocked(cells, j, dig) {
        let k = choose|k: int| 0 <= k < 81 && #[trigger] is_peer(j, k) && cells[k] == dig;
        if k != i {
            assert(blocked_except(cells, j, dig, i));
        }
    }
    if blocked_except(cells, j, dig, i) {
        let k = choose|k: int| 0 <= k < 81 && k != i && #[trigger] is_peer(j, k) && cells[k] == dig;
        assert(nc[k] == dig);
        assert(blocked(nc, j, dig));
        assert(blocked(cells, j, dig));
    }
    if blocked(nc, j, dig) {
        let k = choose|k: int| 0 <= k < 81 && #[trigger] is_peer(j, k) && nc[k] == dig;
        if k != i {
            assert(blocked_except(cells, j, dig, i));
        }
    }
    if is_peer(j, i) && v == dig {
        assert(nc[i] == dig);
    }
    if is_peer(j, i) && cells[i] == dig {
        assert(blocked(cells, j, dig));
    }
}

impl Placed {
    /// Add (`on`) or drop cell `i` as a clue of digit `d + 1`.
    fn set_clue(&mut self, d: usize, i: usize, on: bool)
        requires
            d < 9,
            i < 81,
            forall|e: int| 0 <= e < 9 ==> band_ok(#[trigger] old(self).r[e]),
        ensures
            forall|e: int| 0 <= e < 9 ==> band_ok(#[trigger] final(self).r[e]),
            forall|e: int, j: int| 0 <= e < 9 && 0 <= j < 81 ==> #[trigger] final(self).clue(e, j) == if e == d && j == i {
                on
            } else {
                old(self).clue(e, j)
            },
    {
        let ghost o = self.r;
        let bit = bit_r(i);
        proof {
            lemma_ok_ops(self.r[d as int], bit);
        }
        let n = if on { band_or(self.r[d], bit) } else { band_andnot(self.r[d], bit) };
        self.r[d] = n;
        proof {
            assert(self.r@ == o@.update(d as int, n));
            assert forall|e: int, j: int| 0 <= e < 9 && 0 <= j < 81 implies #[trigger] self.clue(e, j) == if e == d && j == i {
                on
            } else {
                old(self).clue(e, j)
            } by {
                if e == d {
                    if on {
                        lemma_pos_or(n, o[d as int], bit, j);
                    } else {
                        lemma_pos_andnot(n, o[d as int], bit, j);
                    }
                    assert(in_r(bit, j) == (j == i));
                } else {
                    assert(self.r[e] == o[e]);
                }
            }
            assert forall|e: int| 0 <= e < 9 implies band_ok(#[trigger] self.r[e]) by {
                if e != d {
                    assert(self.r[e] == o[e]);
                }
            }
        }
    }
}

impl BitBoard {
    /// Add the cells of `mr` / `mc` to digit `d`'s candidates in both bandings.
    fn set_digit(&mut self, d: usize, mr: B, mc: B)
        requires
            old(self).wf(),
            d < 9,
            band_ok(mr),
            band_ok(mc),
            forall|j: int| 0 <= j < 81 ==> #[trigger] in_r(mr, j) == in_c(mc, j),
        ensures
            final(self).wf(),
            forall|j: int| 0 <= j < 81 ==> #[trigger] final(self).open(j) == old(self).open(j),
            forall|e: int, j: int| 0 <= e < 9 && 0 <= j < 81 ==> #[trigger] final(self).cand(e, j) == (old(self).cand(e, j) || (e == d
                && in_r(mr, j))),
    {
        let ghost o = *self;
        proof {
            lemma_ok_ops(self.r[d as int], mr);
            lemma_ok_ops(self.c[d as int], mc);
        }
        let nr = band_or(self.r[d], mr);
        let nc = band_or(self.c[d], mc);
        self.r[d] = nr;
        self.c[d] = nc;
        proof {
            assert(self.r@ == o.r@.update(d as int, nr));
            assert(self.c@ == o.c@.update(d as int, nc));
            assert forall|e: int, j: int| #![trigger in_r(self.r[e], j)] #![trigger in_c(self.c[e], j)] 0 <= e < 9 && 0 <= j < 81 implies
                in_r(self.r[e], j) == (in_r(o.r[e], j) || (e == d && in_r(mr, j))) && in_c(self.c[e], j) == in_r(self.r[e], j) by {
                lemma_tr(j);
                if e != d {
                    assert(self.r[e] == o.r[e]);
                    assert(self.c[e] == o.c[e]);
                } else {
                    lemma_pos_or(nr, o.r[d as int], mr, j);
                    lemma_pos_or(nc, o.c[d as int], mc, tr(j));
                }
                assert(in_c(o.c[e], j) == in_r(o.r[e], j));
            }
            assert forall|e: int| #![trigger band_ok(self.r[e])] 0 <= e < 9 implies band_ok(self.r[e]) && band_ok(self.c[e]) by {
                if e != d {
                    assert(self.r[e] == o.r[e]);
                    assert(self.c[e] == o.c[e]);
                }
            }
        }
    }

    /// Add the cells of `mr` / `mc` to the undecided cells in both bandings.
    fn set_open(&mut self, mr: B, mc: B)
        requires
            old(self).wf(),
            band_ok(mr),
            band_ok(mc),
            forall|j: int| 0 <= j < 81 ==> #[trigger] in_r(mr, j) == in_c(mc, j),
        ensures
            final(self).wf(),
            forall|j: int| 0 <= j < 81 ==> #[trigger] final(self).open(j) == (old(self).open(j) || in_r(mr, j)),
            forall|e: int, j: int| 0 <= e < 9 && 0 <= j < 81 ==> #[trigger] final(self).cand(e, j) == old(self).cand(e, j),
    {
        let ghost o = *self;
        proof {
            lemma_ok_ops(self.unsolved_r, mr);
            lemma_ok_ops(self.unsolved_c, mc);
        }
        let nr = band_or(self.unsolved_r, mr);
        let nc = band_or(self.unsolved_c, mc);
        self.unsolved_r = nr;
        self.unsolved_c = nc;
        proof {
            assert forall|j: int| #![trigger in_r(nr, j)] #![trigger in_c(nc, j)] 0 <= j < 81 implies in_c(nc, j) == in_r(nr, j) && in_r(nr, j) == (in_r(o.unsolved_r, j) || in_r(mr, j)) by {
                lemma_tr(j);
                lemma_pos_or(nr, o.unsolved_r, mr, j);
                lemma_pos_or(nc, o.unsolved_c, mc, tr(j));
                assert(in_c(o.unsolved_c, j) == in_r(o.unsolved_r, j));
                assert(in_c(mc, j) == in_r(mr, j));
            }
        }
    }

    /// Decide cell `i` again with clue `d0` (the strip's revert): the cell is
    /// decided, `d0` leaves its peers, and `i` becomes a clue again.
    pub fn apply_place(&mut self, i: usize, d0: u8, placed: &mut Placed)
        requires
            old(self).wf(),
            old(placed).lanes_ok(),
            i < 81,
            1 <= d0 <= 9,
        ensures
            place_post(*old(self), *final(self), *old(placed), *final(placed), i as int, d0),
    {
        let ir = bit_r(i);
        let ic = bit_c(i);
        let e = (d0 - 1) as usize;
        placed.set_clue(e, i, true);
        self.clear_open(ir, ic);
        let mut d: usize = 0;
        while d < 9
            invariant
                0 <= d <= 9,
                i < 81,
                self.wf(),
                band_ok(ir),
                band_ok(ic),
                forall|j: int| 0 <= j < 81 ==> #[trigger] in_r(ir, j) == (j == i),
                forall|j: int| 0 <= j < 81 ==> #[trigger] in_c(ic, j) == (j == i),
                forall|j: int| 0 <= j < 81 ==> #[trigger] self.open(j) == (old(self).open(j) && j != i),
                forall|f: int, j: int| 0 <= f < 9 && 0 <= j < 81 ==> #[trigger] self.cand(f, j) == (old(self).cand(f, j)
                    && !(f < d && j == i)),
            decreases 9 - d,
        {
            self.clear_digit(d, ir, ic);
            d += 1;
        }
        self.clear_digit(e, peer_mask_r(i), peer_mask_c(i));
    }
}

impl Placed {
    /// Every clue band is within 27 bits.
    pub closed spec fn lanes_ok(&self) -> bool {
        forall|d: int| 0 <= d < 9 ==> band_ok(#[trigger] self.r[d])
    }

    /// A clue map of a grid has well-formed lanes.
    pub proof fn lemma_of_cells_ok(&self, cells: Seq<u8>)
        requires
            self.of_cells(cells),
        ensures
            self.lanes_ok(),
    {
    }
}

/// Some peer of cell `j` holds clue digit `d + 1` in `p`.
pub open spec fn clue_blocked(p: Placed, d: int, j: int) -> bool {
    exists|q: int| 0 <= q < 81 && #[trigger] p.clue(d, q) && is_peer(q, j)
}

/// What `apply_place(i, d0)` does: `i` becomes a decided clue of `d0`, loses all
/// candidates, and `d0` leaves every peer of `i`.
pub open spec fn place_post(o: BitBoard, n: BitBoard, po: Placed, pn: Placed, i: int, d0: u8) -> bool {
    &&& n.wf()
    &&& pn.lanes_ok()
    &&& forall|e: int, j: int| 0 <= e < 9 && 0 <= j < 81 ==> #[trigger] pn.clue(e, j) == (po.clue(e, j) || (e == d0 - 1 && j == i))
    &&& forall|j: int| 0 <= j < 81 ==> #[trigger] n.open(j) == (o.open(j) && j != i)
    &&& forall|e: int, j: int| 0 <= e < 9 && 0 <= j < 81 ==> #[trigger] n.cand(e, j) == (o.cand(e, j) && j != i
        && !(e == d0 - 1 && is_peer(i, j)))
}

/// What `apply_clear(i, d0)` does: `i` stops being a clue and is undecided again,
/// its candidates are the digits no remaining clue among its peers holds, and
/// `d0` returns to each undecided peer of `i` that no remaining `d0` clue sees.
pub open spec fn clear_post(o: BitBoard, n: BitBoard, po: Placed, pn: Placed, i: int, d0: u8) -> bool {
    &&& n.wf()
    &&& pn.lanes_ok()
    &&& forall|e: int, j: int| 0 <= e < 9 && 0 <= j < 81 ==> #[trigger] pn.clue(e, j) == (po.clue(e, j) && !(e == d0 - 1 && j == i))
    &&& forall|j: int| 0 <= j < 81 ==> #[trigger] n.open(j) == (o.open(j) || j == i)
    &&& forall|e: int, j: int| 0 <= e < 9 && 0 <= j < 81 ==> #[trigger] n.cand(e, j) == if j == i {
        !clue_blocked(pn, e, i)
    } else if e == d0 - 1 {
        o.cand(e, j) || (is_peer(i, j) && o.open(j) && !clue_blocked(pn, e, j))
    } else {
        o.cand(e, j)
    }
}

/// Clearing a clue and placing it back restores the bitboard and the clue map
/// of a clue grid.
pub proof fn lemma_clear_place_round_trip(
    o: BitBoard,
    m: BitBoard,
    n: BitBoard,
    po: Placed,
    pm: Placed,
    pn: Placed,
    cells: Seq<u8>,
    i: int,
    d0: u8,
)
    requires
        naked_bb(o, cells),
        po.of_cells(cells),
        0 <= i < 81,
        1 <= d0 <= 9,
        cells[i] == d0,
        clear_post(o, m, po, pm, i, d0),
        place_post(m, n, pm, pn, i, d0),
    ensures
        n == o,
        forall|e: int, j: int| 0 <= e < 9 && 0 <= j < 81 ==> #[trigger] pn.clue(e, j) == po.clue(e, j),
{
    assert forall|e: int, j: int| 0 <= e < 9 && 0 <= j < 81 implies #[trigger] n.cand(e, j) == o.cand(e, j) by {
        if j != i && e == d0 - 1 && is_peer(i, j) {
            assert(blocked(cells, j, (e + 1) as u8)) by {
                assert(is_peer(j, i));
            }
        }
    }
    assert forall|e: int, j: int| 0 <= e < 9 && 0 <= j < 81 implies #[trigger] pn.clue(e, j) == po.clue(e, j) by {
        if e == d0 - 1 && j == i {
            assert(po.clue(e, j));
        }
    }
    BitBoard::lemma_ext(n, o);
}

impl BitBoard {
    /// Undo clue `d0` at cell `i`: `i` stops being a clue (in `placed`) and is
    /// undecided again with its naked candidates, and `d0` returns to the
    /// undecided peers no other `d0` clue still sees. Returns the candidate mask
    /// of cell `i`.
    pub fn apply_clear(&mut self, i: usize, d0: u8, placed: &mut Placed) -> (m: u16)
        requires
            old(self).wf(),
            old(placed).lanes_ok(),
            i < 81,
            1 <= d0 <= 9,
        ensures
            clear_post(*old(self), *final(self), *old(placed), *final(placed), i as int, d0),
            m < 512,
            forall|d: u8| 1 <= d <= 9 ==> #[trigger] mask_has(m, d) == !clue_blocked(*final(placed), d - 1, i as int),
    {
        let ir = bit_r(i);
        let ic = bit_c(i);
        let e = (d0 - 1) as usize;
        placed.set_clue(e, i, false);
        self.set_open(ir, ic);
        let prr = peer_mask_r(i);
        let ghost o = *old(self);
        let ghost pn = *placed;
        // The clue-free digits of the cleared cell.
        let mut cand: u16 = 0;
        proof {
            assert forall|f: u8| 1 <= f <= 9 implies !#[trigger] mask_has(0u16, f) by {
                crate::bits::lemma_bit16_zero((f - 1) as u16);
            }
        }
        let mut d: usize = 0;
        while d < 9
            invariant
                0 <= d <= 9,
                i < 81,
                pn == *placed,
                pn.lanes_ok(),
                band_ok(prr),
                forall|j: int| 0 <= j < 81 ==> #[trigger] in_r(prr, j) == is_peer(i as int, j),
                cand < 512,
                forall|f: u8| 1 <= f <= 9 ==> #[trigger] mask_has(cand, f) == (f <= d && !clue_blocked(pn, f - 1, i as int)),
            decreases 9 - d,
        {
            proof {
                lemma_ok_ops(placed.r[d as int], prr);
            }
            let x = band_and(placed.r[d], prr);
            let hit = nonzero(x);
            proof {
                if hit {
                    let q = choose|q: int| 0 <= q < 81 && #[trigger] has_pos(x, q);
                    lemma_pos_and(x, placed.r[d as int], prr, q);
                    assert(in_r(prr, q));
                    assert(pn.clue(d as int, q) && is_peer(q, i as int));
                } else {
                    assert forall|q: int| 0 <= q < 81 && #[trigger] pn.clue(d as int, q) implies !is_peer(q, i as int) by {
                        lemma_pos_and(x, placed.r[d as int], prr, q);
                        assert(in_r(prr, q) == is_peer(i as int, q));
                    }
                }
                assert(hit == clue_blocked(pn, d as int, i as int));
            }
            if !hit {
                proof {
                    crate::grid::lemma_mask_insert_bound(cand, (d + 1) as u8);
                    assert forall|f: u8| 1 <= f <= 9 implies #[trigger] mask_has(cand | (1u16 << (d as u16)), f) == (f <= d + 1
                        && !clue_blocked(pn, f - 1, i as int)) by {
                        crate::grid::lemma_mask_insert(cand, (d + 1) as u8, f);
                    }
                }
                cand = cand | (1u16 << (d as u16));
            } else {
                proof {
                    assert forall|f: u8| 1 <= f <= 9 implies #[trigger] mask_has(cand, f) == (f <= d + 1
                        && !clue_blocked(pn, f - 1, i as int)) by {
                        if f == d + 1 {
                            assert(f - 1 == d);
                        }
                    }
                }
            }
            d += 1;
        }
        // The cleared cell's column is its candidate mask.
        let ghost s1 = *self;
        let mut d: usize = 0;
        while d < 9
            invariant
                0 <= d <= 9,
                i < 81,
                self.wf(),
                band_ok(ir),
                band_ok(ic),
                forall|j: int| 0 <= j < 81 ==> #[trigger] in_r(ir, j) == (j == i),
                forall|j: int| 0 <= j < 81 ==> #[trigger] in_c(ic, j) == (j == i),
                forall|j: int| 0 <= j < 81 ==> #[trigger] self.open(j) == s1.open(j),
                cand < 512,
                forall|f: u8| 1 <= f <= 9 ==> #[trigger] mask_has(cand, f) == !clue_blocked(pn, f - 1, i as int),
                forall|f: int, j: int| 0 <= f < 9 && 0 <= j < 81 ==> #[trigger] self.cand(f, j) == if f < d && j == i {
                    !clue_blocked(pn, f, i as int)
                } else {
                    s1.cand(f, j)
                },
            decreases 9 - d,
        {
            let on = cand & (1u16 << (d as u16)) != 0;
            proof {
                crate::grid::lemma_mask_test(cand, (d + 1) as u8);
                assert(on == mask_has(cand, (d + 1) as u8));
            }
            if on {
                self.set_digit(d, ir, ic);
            } else {
                self.clear_digit(d, ir, ic);
            }
            proof {
                assert forall|f: int, j: int| 0 <= f < 9 && 0 <= j < 81 implies #[trigger] self.cand(f, j) == if f < d + 1 && j == i {
                    !clue_blocked(pn, f, i as int)
                } else {
                    s1.cand(f, j)
                } by {
                    if f == d && j == i {
                        assert(mask_has(cand, (d + 1) as u8) == !clue_blocked(pn, d as int, i as int));
                    }
                }
            }
            d += 1;
        }
        // Cells still blocked from `d0`: the peers of the remaining `d0` clues.
        let mut blk_r: B = ZERO;
        let mut blk_c: B = ZERO;
        let mut w: B = placed.r[e];
        proof {
            crate::layout::lemma_sub32_refl(w[0]);
            crate::layout::lemma_sub32_refl(w[1]);
            crate::layout::lemma_sub32_refl(w[2]);
            assert forall|j: int| 0 <= j < 81 implies !#[trigger] in_r(ZERO, j) && !in_c(ZERO, j) by {
                lemma_zero_pos(j);
                lemma_tr(j);
                lemma_zero_pos(tr(j));
            }
        }
        while nonzero(w)
            invariant
                e < 9,
                pn == *placed,
                pn.lanes_ok(),
                band_ok(w),
                band_ok(blk_r),
                band_ok(blk_c),
                forall|q: int| 0 <= q < 81 && #[trigger] in_r(w, q) ==> pn.clue(e as int, q),
                forall|j: int| 0 <= j < 81 ==> #[trigger] in_c(blk_c, j) == in_r(blk_r, j),
                forall|j: int| 0 <= j < 81 ==> #[trigger] in_r(blk_r, j) == exists|q: int| 0 <= q < 81 && pn.clue(e as int, q)
                    && !in_r(w, q) && #[trigger] is_peer(q, j),
            decreases pcb(w),
        {
            proof {
                crate::layout::lemma_nonzero_pos(w);
            }
            let q = first_rm(w);
            let pr = peer_mask_r(q);
            let pc = peer_mask_c(q);
            let qb = bit_r(q);
            proof {
                lemma_ok_ops(blk_r, pr);
                lemma_ok_ops(blk_c, pc);
                lemma_ok_ops(w, qb);
            }
            let ghost (w0, br0, bc0) = (w, blk_r, blk_c);
            blk_r = band_or(blk_r, pr);
            blk_c = band_or(blk_c, pc);
            w = band_andnot(w, qb);
            proof {
                lemma_remove(w0, qb, w);
                assert(in_r(qb, q as int));
                lemma_andnot_strict(w0, qb, w, q as int);
                assert forall|j: int| 0 <= j < 81 implies #[trigger] in_c(blk_c, j) == in_r(blk_r, j) by {
                    lemma_tr(j);
                    lemma_pos_or(blk_r, br0, pr, j);
                    lemma_pos_or(blk_c, bc0, pc, tr(j));
                    assert(in_c(bc0, j) == in_r(br0, j));
                    assert(in_c(pc, j) == in_r(pr, j));
                }
                assert forall|j: int| 0 <= j < 81 implies #[trigger] in_r(blk_r, j) == exists|q2: int| 0 <= q2 < 81 && pn.clue(e as int, q2)
                    && !in_r(w, q2) && #[trigger] is_peer(q2, j) by {
                    lemma_pos_or(blk_r, br0, pr, j);
                    assert forall|q2: int| 0 <= q2 < 81 implies #[trigger] in_r(w, q2) == (in_r(w0, q2) && q2 != q) by {
                        assert(has_pos(w, q2) == (has_pos(w0, q2) && !has_pos(qb, q2)));
                        assert(in_r(qb, q2) == (q2 == q));
                    }
                    assert(in_r(pr, j) == is_peer(q as int, j));
                    if in_r(blk_r, j) {
                        if in_r(br0, j) {
                            let q2 = choose|q2: int| 0 <= q2 < 81 && pn.clue(e as int, q2) && !in_r(w0, q2) && #[trigger] is_peer(q2, j);
                            assert(!in_r(w, q2));
                        } else {
                            assert(is_peer(q as int, j));
                            assert(in_r(w0, q as int));
                            assert(pn.clue(e as int, q as int));
                            assert(!in_r(w, q as int));
                        }
                    }
                    if exists|q2: int| 0 <= q2 < 81 && pn.clue(e as int, q2) && !in_r(w, q2) && #[trigger] is_peer(q2, j) {
                        let q2 = choose|q2: int| 0 <= q2 < 81 && pn.clue(e as int, q2) && !in_r(w, q2) && #[trigger] is_peer(q2, j);
                        if q2 != q {
                            assert(!in_r(w0, q2));
                            assert(in_r(br0, j));
                        } else {
                            assert(in_r(pr, j));
                        }
                    }
                }
                assert forall|q2: int| 0 <= q2 < 81 && #[trigger] in_r(w, q2) implies pn.clue(e as int, q2) by {
                    assert(has_pos(w, q2) == (has_pos(w0, q2) && !has_pos(qb, q2)));
                    assert(in_r(w0, q2));
                }
            }
        }
        proof {
            assert forall|j: int| 0 <= j < 81 implies #[trigger] in_r(blk_r, j) == clue_blocked(pn, e as int, j) by {
                crate::layout::lemma_nonzero_pos(w);
                assert(!in_r(w, j));
                if clue_blocked(pn, e as int, j) {
                    let q2 = choose|q2: int| 0 <= q2 < 81 && #[trigger] pn.clue(e as int, q2) && is_peer(q2, j);
                    assert(!in_r(w, q2));
                }
            }
        }
        // `d0` returns to the undecided peers of `i` outside the blocked set.
        let pcc = peer_mask_c(i);
        proof {
            lemma_ok_ops(prr, self.unsolved_r);
            lemma_ok_ops(pcc, self.unsolved_c);
        }
        let ar0 = band_and(prr, self.unsolved_r);
        let ac0 = band_and(pcc, self.unsolved_c);
        proof {
            lemma_ok_ops(ar0, blk_r);
            lemma_ok_ops(ac0, blk_c);
        }
        let ar = band_andnot(ar0, blk_r);
        let ac = band_andnot(ac0, blk_c);
        let ghost s2 = *self;
        proof {
            assert forall|j: int| 0 <= j < 81 implies #[trigger] in_r(ar, j) == (is_peer(i as int, j) && s2.open(j)
                && !clue_blocked(pn, e as int, j)) && in_c(ac, j) == in_r(ar, j) by {
                lemma_tr(j);
                lemma_pos_and(ar0, prr, s2.unsolved_r, j);
                lemma_pos_andnot(ar, ar0, blk_r, j);
                lemma_pos_and(ac0, pcc, s2.unsolved_c, tr(j));
                lemma_pos_andnot(ac, ac0, blk_c, tr(j));
                assert(in_c(s2.unsolved_c, j) == in_r(s2.unsolved_r, j));
                assert(in_c(blk_c, j) == in_r(blk_r, j));
                assert(in_c(pcc, j) == is_peer(i as int, j));
                assert(in_r(prr, j) == is_peer(i as int, j));
                assert(in_r(blk_r, j) == clue_blocked(pn, e as int, j));
                assert(s2.open(j) == in_r(s2.unsolved_r, j));
            }
        }
        self.set_digit(e, ar, ac);
        proof {
            let n = *self;
            assert forall|f: int, j: int| 0 <= f < 9 && 0 <= j < 81 implies #[trigger] n.cand(f, j) == if j == i {
                !clue_blocked(pn, f, i as int)
            } else if f == d0 - 1 {
                o.cand(f, j) || (is_peer(i as int, j) && o.open(j) && !clue_blocked(pn, f, j))
            } else {
                o.cand(f, j)
            } by {
                assert(s2.open(j) == (o.open(j) || j == i));
                if j == i {
                    assert(!is_peer(i as int, j));
                }
            }
        }
        cand
    }
}

/// Under a clue map of `cells`, a clue among the peers of `j` is a filled peer.
pub proof fn lemma_clue_blocked(p: Placed, cells: Seq<u8>, d: int, j: int)
    requires
        p.of_cells(cells),
        cells.len() == 81,
        0 <= d < 9,
        0 <= j < 81,
    ensures
        clue_blocked(p, d, j) == blocked(cells, j, (d + 1) as u8),
{
    if clue_blocked(p, d, j) {
        let q = choose|q: int| 0 <= q < 81 && #[trigger] p.clue(d, q) && is_peer(q, j);
        assert(is_peer(j, q) && cells[q] == (d + 1) as u8);
    }
    if blocked(cells, j, (d + 1) as u8) {
        let q = choose|q: int| 0 <= q < 81 && #[trigger] is_peer(j, q) && cells[q] == (d + 1) as u8;
        assert(p.clue(d, q));
    }
}

/// Placing a clue on an empty cell keeps the bitboard and the clue map those of
/// the grid with the clue written in.
pub proof fn lemma_place_keeps_naked_bb(o: BitBoard, n: BitBoard, po: Placed, pn: Placed, cells: Seq<u8>, i: int, d0: u8)
    requires
        cells.len() == 81,
        naked_bb(o, cells),
        po.of_cells(cells),
        0 <= i < 81,
        1 <= d0 <= 9,
        cells[i] == 0,
        place_post(o, n, po, pn, i, d0),
    ensures
        naked_bb(n, cells.update(i, d0)),
        pn.of_cells(cells.update(i, d0)),
{
    let nc = cells.update(i, d0);
    assert forall|e: int, j: int| 0 <= e < 9 && 0 <= j < 81 implies #[trigger] n.cand(e, j) == (nc[j] == 0
        && !blocked(nc, j, (e + 1) as u8)) by {
        lemma_blocked_update(cells, i, d0, j, (e + 1) as u8);
        assert(o.cand(e, j) == (cells[j] == 0 && !blocked(cells, j, (e + 1) as u8)));
    }
    assert forall|j: int| 0 <= j < 81 implies #[trigger] n.open(j) == (nc[j] == 0) by {
        assert(o.open(j) == (cells[j] == 0));
    }
    assert forall|e: int, j: int| 0 <= e < 9 && 0 <= j < 81 implies #[trigger] in_r(pn.r[e], j) == (nc[j] == e + 1) by {
        assert(pn.clue(e, j) == (po.clue(e, j) || (e == d0 - 1 && j == i)));
        assert(po.clue(e, j) == (cells[j] == e + 1));
    }
}

/// Clearing a clue keeps the bitboard and the clue map those of the grid with
/// the cell emptied; the returned mask is then the cell's naked candidate set.
pub proof fn lemma_clear_keeps_naked_bb(o: BitBoard, n: BitBoard, po: Placed, pn: Placed, cells: Seq<u8>, i: int, d0: u8)
    requires
        cells.len() == 81,
        naked_bb(o, cells),
        po.of_cells(cells),
        0 <= i < 81,
        1 <= d0 <= 9,
        cells[i] == d0,
        clear_post(o, n, po, pn, i, d0),
    ensures
        naked_bb(n, cells.update(i, 0)),
        pn.of_cells(cells.update(i, 0)),
        forall|d: int, j: int| 0 <= d < 9 && 0 <= j < 81 ==> #[trigger] clue_blocked(pn, d, j) == blocked(cells.update(i, 0), j,
            (d + 1) as u8),
{
    let nc = cells.update(i, 0u8);
    assert forall|e: int, j: int| 0 <= e < 9 && 0 <= j < 81 implies #[trigger] in_r(pn.r[e], j) == (nc[j] == e + 1) by {
        assert(pn.clue(e, j) == (po.clue(e, j) && !(e == d0 - 1 && j == i)));
        assert(po.clue(e, j) == (cells[j] == e + 1));
    }
    assert(pn.of_cells(nc));
    assert forall|d: int, j: int| 0 <= d < 9 && 0 <= j < 81 implies #[trigger] clue_blocked(pn, d, j) == blocked(nc, j,
        (d + 1) as u8) by {
        lemma_clue_blocked(pn, nc, d, j);
    }
    assert forall|e: int, j: int| 0 <= e < 9 && 0 <= j < 81 implies #[trigger] n.cand(e, j) == (nc[j] == 0
        && !blocked(nc, j, (e + 1) as u8)) by {
        lemma_blocked_update(cells, i, 0u8, j, (e + 1) as u8);
        assert(o.cand(e, j) == (cells[j] == 0 && !blocked(cells, j, (e + 1) as u8)));
        assert(o.open(j) == (cells[j] == 0));
        assert(clue_blocked(pn, e, j) == blocked(nc, j, (e + 1) as u8));
        if j == i {
            assert(clue_blocked(pn, e, i) == blocked(nc, i, (e + 1) as u8));
        }
    }
    assert forall|j: int| 0 <= j < 81 implies #[trigger] n.open(j) == (nc[j] == 0) by {
        assert(o.open(j) == (cells[j] == 0));
    }
}

/// Clearing a clue and placing it back restores the bitboard and the clue map.
pub proof fn lemma_clear_then_place(a: BitBoard, b: BitBoard, c: BitBoard, pa: Placed, pb: Placed, pc: Placed, cells: Seq<u8>,
    i: int, d0: u8)
    requires
        cells.len() == 81,
        naked_bb(a, cells),
        pa.of_cells(cells),
        0 <= i < 81,
        1 <= d0 <= 9,
        cells[i] == d0,
        clear_post(a, b, pa, pb, i, d0),
        place_post(b, c, pb, pc, i, d0),
    ensures
        c == a,
        pc.of_cells(cells),
{
    lemma_clear_keeps_naked_bb(a, b, pa, pb, cells, i, d0);
    let nc = cells.update(i, 0u8);
    lemma_place_keeps_naked_bb(b, c, pb, pc, nc, i, d0);
    assert(nc.update(i, d0) =~= cells);
    assert forall|j: int| 0 <= j < 81 implies #[trigger] c.open(j) == a.open(j) by {}
    assert forall|d: int, j: int| 0 <= d < 9 && 0 <= j < 81 implies #[trigger] c.cand(d, j) == a.cand(d, j) by {}
    BitBoard::lemma_ext(c, a);
}

/// Placing a clue on an empty cell and clearing it again restores the bitboard
/// and the clue map.
pub proof fn lemma_place_then_clear(a: BitBoard, b: BitBoard, c: BitBoard, pa: Placed, pb: Placed, pc: Placed, cells: Seq<u8>,
    i: int, d0: u8)
    requires
        cells.len() == 81,
        naked_bb(a, cells),
        pa.of_cells(cells),
        0 <= i < 81,
        1 <= d0 <= 9,
        cells[i] == 0,
        place_post(a, b, pa, pb, i, d0),
        clear_post(b, c, pb, pc, i, d0),
    ensures
        c == a,
        pc.of_cells(cells),
{
    lemma_place_keeps_naked_bb(a, b, pa, pb, cells, i, d0);
    let nc = cells.update(i, d0);
    lemma_clear_keeps_naked_bb(b, c, pb, pc, nc, i, d0);
    assert(nc.update(i, 0u8) =~= cells);
    assert forall|j: int| 0 <= j < 81 implies #[trigger] c.open(j) == a.open(j) by {}
    assert forall|d: int, j: int| 0 <= d < 9 && 0 <= j < 81 implies #[trigger] c.cand(d, j) == a.cand(d, j) by {}
    BitBoard::lemma_ext(c, a);
}

/// The peers of a set and the set itself in the other banding: `pr` / `pc` hold
/// every cell that peers some cell of `x` (row- / column-major), `xc` holds the
/// cells of `x` column-major.
pub open spec fn walk_post(x: B, pr: B, pc: B, xc: B) -> bool {
    &&& band_ok(pr)
    &&& band_ok(pc)
    &&& band_ok(xc)
    &&& forall|j: int| 0 <= j < 81 ==> #[trigger] in_r(pr, j) == exists|q: int| 0 <= q < 81 && in_r(x, q) && #[trigger] is_peer(q, j)
    &&& forall|j: int| 0 <= j < 81 ==> #[trigger] in_c(pc, j) == in_r(pr, j)
    &&& forall|j: int| 0 <= j < 81 ==> #[trigger] in_c(xc, j) == in_r(x, j)
}

/// Walk the cells of `x`, collecting their peers in both bandings and `x`
/// itself column-major.
fn walk(x: B) -> (r: (B, B, B))
    requires
        band_ok(x),
    ensures
        walk_post(x, r.0, r.1, r.2),
{
    let mut pr: B = ZERO;
    let mut pc: B = ZERO;
    let mut xc: B = ZERO;
    let mut w: B = x;
    proof {
        assert forall|j: int| #![trigger in_r(ZERO, j)] #![trigger in_c(ZERO, j)] 0 <= j < 81 implies !in_r(ZERO, j) && !in_c(ZERO, j) by {
            lemma_zero_pos(j);
            lemma_tr(j);
            lemma_zero_pos(tr(j));
        }
    }
    while nonzero(w)
        invariant
            band_ok(x),
            band_ok(w),
            band_ok(pr),
            band_ok(pc),
            band_ok(xc),
            forall|q: int| 0 <= q < 81 && #[trigger] in_r(w, q) ==> in_r(x, q),
            forall|j: int| 0 <= j < 81 ==> #[trigger] in_c(pc, j) == in_r(pr, j),
            forall|j: int| 0 <= j < 81 ==> #[trigger] in_c(xc, j) == (in_r(x, j) && !in_r(w, j)),
            forall|j: int| 0 <= j < 81 ==> #[trigger] in_r(pr, j) == exists|q: int| 0 <= q < 81 && in_r(x, q) && !in_r(w, q)
                && #[trigger] is_peer(q, j),
        decreases pcb(w),
    {
        proof {
            crate::layout::lemma_nonzero_pos(w);
        }
        let q = first_rm(w);
        let qpr = peer_mask_r(q);
        let qpc = peer_mask_c(q);
        let qb = bit_r(q);
        let qc = bit_c(q);
        proof {
            lemma_ok_ops(pr, qpr);
            lemma_ok_ops(pc, qpc);
            lemma_ok_ops(xc, qc);
            lemma_ok_ops(w, qb);
        }
        let ghost (w0, pr0, pc0, xc0) = (w, pr, pc, xc);
        pr = band_or(pr, qpr);
        pc = band_or(pc, qpc);
        xc = band_or(xc, qc);
        w = band_andnot(w, qb);
        proof {
            lemma_remove(w0, qb, w);
            assert(in_r(qb, q as int));
            lemma_andnot_strict(w0, qb, w, q as int);
            assert(in_r(w0, q as int));
            assert forall|q2: int| 0 <= q2 < 81 implies #[trigger] in_r(w, q2) == (in_r(w0, q2) && q2 != q) by {
                assert(has_pos(w, q2) == (has_pos(w0, q2) && !has_pos(qb, q2)));
                assert(in_r(qb, q2) == (q2 == q));
            }
            assert forall|j: int| 0 <= j < 81 implies #[trigger] in_c(pc, j) == in_r(pr, j) by {
                lemma_tr(j);
                lemma_pos_or(pr, pr0, qpr, j);
                lemma_pos_or(pc, pc0, qpc, tr(j));
                assert(in_c(pc0, j) == in_r(pr0, j));
                assert(in_c(qpc, j) == in_r(qpr, j));
            }
            assert forall|j: int| 0 <= j < 81 implies #[trigger] in_c(xc, j) == (in_r(x, j) && !in_r(w, j)) by {
                lemma_tr(j);
                lemma_pos_or(xc, xc0, qc, tr(j));
                assert(in_c(xc0, j) == (in_r(x, j) && !in_r(w0, j)));
                assert(in_c(qc, j) == (j == q));
                assert(in_r(w, j) == (in_r(w0, j) && j != q));
                if j == q {
                    assert(in_r(x, j));
                }
            }
            assert forall|j: int| 0 <= j < 81 implies #[trigger] in_r(pr, j) == exists|q2: int| 0 <= q2 < 81 && in_r(x, q2) && !in_r(w, q2)
                && #[trigger] is_peer(q2, j) by {
                lemma_pos_or(pr, pr0, qpr, j);
                assert(in_r(qpr, j) == is_peer(q as int, j));
                if in_r(pr, j) {
                    if in_r(pr0, j) {
                        let q2 = choose|q2: int| 0 <= q2 < 81 && in_r(x, q2) && !in_r(w0, q2) && #[trigger] is_peer(q2, j);
                        assert(!in_r(w, q2));
                    } else {
                        assert(in_r(x, q as int) && !in_r(w, q as int) && is_peer(q as int, j));
                    }
                }
                if exists|q2: int| 0 <= q2 < 81 && in_r(x, q2) && !in_r(w, q2) && #[trigger] is_peer(q2, j) {
                    let q2 = choose|q2: int| 0 <= q2 < 81 && in_r(x, q2) && !in_r(w, q2) && #[trigger] is_peer(q2, j);
                    if q2 != q {
                        assert(!in_r(w0, q2));
                        assert(in_r(pr0, j));
                    }
                }
            }
            assert forall|q2: int| 0 <= q2 < 81 && #[trigger] in_r(w, q2) implies in_r(x, q2) by {
                assert(in_r(w0, q2));
            }
        }
    }
    proof {
        crate::layout::lemma_nonzero_pos(w);
        assert forall|j: int| 0 <= j < 81 implies !#[trigger] in_r(w, j) by {
            assert(!has_pos(w, j));
        }
    }
    (pr, pc, xc)
}

/// Cells holding at least one candidate and cells holding at least two.
pub open spec fn sieve_post(bb: BitBoard, ones: B, twos: B) -> bool {
    &&& band_ok(ones)
    &&& band_ok(twos)
    &&& forall|j: int| 0 <= j < 81 ==> #[trigger] in_r(ones, j) == exists|d: int| 0 <= d < 9 && #[trigger] bb.cand(d, j)
    &&& forall|j: int| 0 <= j < 81 ==> #[trigger] in_r(twos, j) == exists|d: int, e: int| 0 <= d < e < 9 && #[trigger] bb.cand(d, j)
        && #[trigger] bb.cand(e, j)
}

/// Naked singles placed together: each cell of `singles` is decided and every
/// candidate digit of it leaves its peers.
pub open spec fn singles_post(o: BitBoard, n: BitBoard, singles: B) -> bool {
    &&& forall|j: int| 0 <= j < 81 ==> #[trigger] n.open(j) == (o.open(j) && !(in_r(singles, j) && exists|d: int| 0 <= d < 9
        && #[trigger] o.cand(d, j)))
    &&& forall|d: int, j: int| 0 <= d < 9 && 0 <= j < 81 ==> #[trigger] n.cand(d, j) == (o.cand(d, j) && !exists|q: int| 0 <= q
        < 81 && in_r(singles, q) && o.cand(d, q) && #[trigger] is_peer(q, j))
}

/// Two peer cells of `singles` share candidate digit `d`.
pub open spec fn singles_clash(o: BitBoard, singles: B) -> bool {
    exists|d: int, q: int, p: int| 0 <= d < 9 && 0 <= q < 81 && 0 <= p < 81 && in_r(singles, q) && in_r(singles, p)
        && #[trigger] o.cand(d, q) && #[trigger] o.cand(d, p) && is_peer(q, p)
}

/// Two peer undecided cells each have the same single candidate: a
/// contradiction naked singles run into.
pub open spec fn naked_clash(bb: BitBoard) -> bool {
    exists|p: int, q: int, d: int|
        0 <= p < 81 && 0 <= q < 81 && 0 <= d < 9 && #[trigger] is_peer(p, q) && bb.open(p) && bb.open(q) && #[trigger] bb.cand(d, p)
            && #[trigger] bb.cand(d, q) && (forall|e: int| 0 <= e < 9 && #[trigger] bb.cand(e, p) ==> e == d) && (forall|e: int|
            0 <= e < 9 && #[trigger] bb.cand(e, q) ==> e == d)
}

/// Some undecided cell has exactly one candidate.
pub open spec fn has_naked_single(bb: BitBoard) -> bool {
    exists|j: int, d: int| 0 <= j < 81 && 0 <= d < 9 && bb.open(j) && #[trigger] bb.cand(d, j) && forall|e: int| 0 <= e < 9 && #[trigger] bb.cand(e, j) ==> e == d
}

/// Each cell of `singles` is undecided with at most one candidate.
pub open spec fn lone_cells(o: BitBoard, singles: B) -> bool {
    forall|j: int, d: int, e: int| 0 <= j < 81 && 0 <= d < 9 && 0 <= e < 9 && #[trigger] in_r(singles, j) && #[trigger] o.cand(
        d,
        j,
    ) && #[trigger] o.cand(e, j) ==> d == e && o.open(j)
}

/// Naked singles placed together keep an agreeing grid agreeing; when two of
/// them clash, no grid agrees.
pub proof fn lemma_singles_agree(o: BitBoard, n: BitBoard, singles: B, g: Seq<u8>)
    requires
        agrees(g, o),
        lone_cells(o, singles),
        forall|j: int| 0 <= j < 81 && #[trigger] in_r(singles, j) ==> o.open(j),
    ensures
        !singles_clash(o, singles),
        singles_post(o, n, singles) ==> agrees(g, n),
{
    if singles_clash(o, singles) {
        let (d, q, p) = choose|d: int, q: int, p: int| 0 <= d < 9 && 0 <= q < 81 && 0 <= p < 81 && in_r(singles, q) && in_r(singles, p)
            && #[trigger] o.cand(d, q) && #[trigger] o.cand(d, p) && is_peer(q, p);
        assert(o.open(q) && o.open(p));
        assert(o.cand(g[q] - 1, q));
        assert(o.cand(g[p] - 1, p));
        assert(1 <= g[q] <= 9 && 1 <= g[p] <= 9);
        assert(g[q] - 1 == d && g[p] - 1 == d);
        assert(crate::grid::no_conflict_at(g, q));
        assert(blocked(g, q, g[q]));
    }
    if singles_post(o, n, singles) {
        assert forall|j: int| 0 <= j < 81 && #[trigger] n.open(j) implies n.cand(g[j] - 1, j) by {
            assert(o.open(j));
            assert(1 <= g[j] <= 9);
            if exists|q: int| 0 <= q < 81 && in_r(singles, q) && o.cand(g[j] - 1, q) && #[trigger] is_peer(q, j) {
                let q = choose|q: int| 0 <= q < 81 && in_r(singles, q) && o.cand(g[j] - 1, q) && #[trigger] is_peer(q, j);
                assert(o.open(q));
                assert(o.cand(g[q] - 1, q));
                assert(1 <= g[q] <= 9);
                assert(g[q] == g[j]);
                assert(crate::grid::no_conflict_at(g, j));
                assert(is_peer(j, q));
                assert(blocked(g, j, g[j]));
            }
        }
        assert forall|j: int, k: int| 0 <= j < 81 && 0 <= k < 81 && !n.open(j) && n.open(k) && #[trigger] is_peer(j, k) implies !n.cand(
            g[j] - 1,
            k,
        ) by {
            assert(1 <= g[j] <= 9);
            assert(o.open(k));
            if o.open(j) {
                assert(in_r(singles, j));
                assert(o.cand(g[j] - 1, j));
            }
        }
    }
}

impl BitBoard {
    /// Which cells admit at least one candidate and which at least two.
    fn sieve(&self) -> (r: (B, B))
        requires
            self.wf(),
        ensures
            sieve_post(*self, r.0, r.1),
    {
        let mut ones: B = ZERO;
        let mut twos: B = ZERO;
        proof {
            assert forall|j: int| 0 <= j < 81 implies !#[trigger] in_r(ZERO, j) by {
                lemma_zero_pos(j);
            }
        }
        let mut d: usize = 0;
        while d < 9
            invariant
                0 <= d <= 9,
                self.wf(),
                band_ok(ones),
                band_ok(twos),
                forall|j: int| 0 <= j < 81 ==> #[trigger] in_r(ones, j) == exists|e: int| 0 <= e < d && #[trigger] self.cand(e, j),
                forall|j: int| 0 <= j < 81 ==> #[trigger] in_r(twos, j) == exists|e: int, f: int| 0 <= e < f < d && #[trigger] self.cand(
                    e, j) && #[trigger] self.cand(f, j),
            decreases 9 - d,
        {
            let b = self.r[d];
            proof {
                lemma_ok_ops(ones, b);
            }
            let t = band_and(ones, b);
            proof {
                lemma_ok_ops(twos, t);
            }
            let ghost (o0, t0) = (ones, twos);
            twos = band_or(twos, t);
            ones = band_or(ones, b);
            proof {
                assert forall|j: int| 0 <= j < 81 implies #[trigger] in_r(ones, j) == exists|e: int| 0 <= e < d + 1 && #[trigger] self.cand(e, j) by {
                    lemma_pos_or(ones, o0, b, j);
                    assert(in_r(o0, j) == exists|e: int| 0 <= e < d && #[trigger] self.cand(e, j));
                    assert(in_r(b, j) == self.cand(d as int, j));
                    if in_r(b, j) {
                        assert(self.cand(d as int, j));
                    }
                    if exists|e: int| 0 <= e < d + 1 && #[trigger] self.cand(e, j) {
                        let e = choose|e: int| 0 <= e < d + 1 && #[trigger] self.cand(e, j);
                        if e < d {
                            assert(in_r(o0, j));
                        }
                    }
                }
                assert forall|j: int| 0 <= j < 81 implies #[trigger] in_r(twos, j) == exists|e: int, f: int| 0 <= e < f < d + 1
                    && #[trigger] self.cand(e, j) && #[trigger] self.cand(f, j) by {
                    lemma_pos_or(twos, t0, t, j);
                    lemma_pos_and(t, o0, b, j);
                    assert(in_r(o0, j) == exists|e: int| 0 <= e < d && #[trigger] self.cand(e, j));
                    assert(in_r(t0, j) == exists|e: int, f: int| 0 <= e < f < d && #[trigger] self.cand(e, j) && #[trigger] self.cand(f, j));
                    assert(in_r(b, j) == self.cand(d as int, j));
                    if in_r(t, j) {
                        let e = choose|e: int| 0 <= e < d && #[trigger] self.cand(e, j);
                        assert(self.cand(d as int, j));
                    }
                    if exists|e: int, f: int| 0 <= e < f < d + 1 && #[trigger] self.cand(e, j) && #[trigger] self.cand(f, j) {
                        let (e, f) = choose|e: int, f: int| 0 <= e < f < d + 1 && #[trigger] self.cand(e, j) && #[trigger] self.cand(f, j);
                        if f < d {
                            assert(in_r(t0, j));
                        } else {
                            assert(in_r(o0, j));
                        }
                    }
                }
            }
            d += 1;
        }
        (ones, twos)
    }

    /// Place a wave of naked singles: every cell of `singles` is decided and its
    /// candidate digits leave its peers, one digit at a time. Returns false, with
    /// the wave partly applied, when two peer cells of the wave share a digit.
    fn place_singles(&mut self, singles: B) -> (ok: bool)
        requires
            old(self).wf(),
            band_ok(singles),
        ensures
            final(self).wf(),
            final(self).within(*old(self)),
            final(self).measure() <= old(self).measure(),
            ok == !singles_clash(*old(self), singles),
            ok ==> singles_post(*old(self), *final(self), singles),
            lone_cells(*old(self), singles) ==> keeps_records(*old(self), *final(self)),
            !ok && lone_cells(*old(self), singles) ==> naked_clash(*final(self)),
            ok && (exists|j: int| 0 <= j < 81 && in_r(singles, j) && old(self).open(j) && exists|d: int| 0 <= d < 9
                && #[trigger] old(self).cand(d, j)) ==> final(self).measure() < old(self).measure(),
    {
        let ghost o = *self;
        let mut d: usize = 0;
        while d < 9
            invariant
                0 <= d <= 9,
                self.wf(),
                band_ok(singles),
                o.wf(),
                o == *old(self),
                self.measure() <= o.measure(),
                forall|e: int, q: int, p: int| 0 <= e < d && 0 <= q < 81 && 0 <= p < 81 && in_r(singles, q) && in_r(singles, p)
                    && #[trigger] o.cand(e, q) && #[trigger] o.cand(e, p) ==> !is_peer(q, p),
                forall|j: int| 0 <= j < 81 ==> #[trigger] self.open(j) == (o.open(j) && !(in_r(singles, j) && exists|e: int| 0 <= e < d
                    && #[trigger] o.cand(e, j))),
                forall|e: int, j: int| 0 <= e < 9 && 0 <= j < 81 ==> #[trigger] self.cand(e, j) == (o.cand(e, j) && !(e < d
                    && exists|q: int| 0 <= q < 81 && in_r(singles, q) && o.cand(e, q) && #[trigger] is_peer(q, j))),
                (exists|j: int| 0 <= j < 81 && in_r(singles, j) && o.open(j) && exists|e: int| 0 <= e < d && #[trigger] o.cand(e, j))
                    ==> self.measure() < o.measure(),
            decreases 9 - d,
        {
            proof {
                lemma_ok_ops(singles, self.r[d as int]);
            }
            let group = band_and(singles, self.r[d]);
            proof {
                assert forall|j: int| 0 <= j < 81 implies #[trigger] in_r(group, j) == (in_r(singles, j) && o.cand(d as int, j)) by {
                    lemma_pos_and(group, singles, self.r[d as int], j);
                    assert(self.cand(d as int, j) == o.cand(d as int, j));
                }
            }
            if !nonzero(group) {
                proof {
                    assert forall|j: int| 0 <= j < 81 implies !#[trigger] in_r(group, j) by {
                        assert(!has_pos(group, j));
                    }
                    assert forall|e: int, q: int, p: int| 0 <= e < d + 1 && 0 <= q < 81 && 0 <= p < 81 && in_r(singles, q) && in_r(singles, p)
                        && #[trigger] o.cand(e, q) && #[trigger] o.cand(e, p) implies !is_peer(q, p) by {
                        if e == d {
                            assert(in_r(group, q));
                        }
                    }
                    assert forall|j: int| 0 <= j < 81 implies #[trigger] self.open(j) == (o.open(j) && !(in_r(singles, j) && exists|e: int| 0 <= e < d + 1
                        && #[trigger] o.cand(e, j))) by {
                        if in_r(singles, j) && exists|e: int| 0 <= e < d + 1 && #[trigger] o.cand(e, j) {
                            let e = choose|e: int| 0 <= e < d + 1 && #[trigger] o.cand(e, j);
                            if e == d {
                                assert(in_r(group, j));
                            }
                        }
                    }
                    assert forall|e: int, j: int| 0 <= e < 9 && 0 <= j < 81 implies #[trigger] self.cand(e, j) == (o.cand(e, j) && !(e < d + 1
                        && exists|q: int| 0 <= q < 81 && in_r(singles, q) && o.cand(e, q) && #[trigger] is_peer(q, j))) by {
                        if e == d && exists|q: int| 0 <= q < 81 && in_r(singles, q) && o.cand(e, q) && #[trigger] is_peer(q, j) {
                            let q = choose|q: int| 0 <= q < 81 && in_r(singles, q) && o.cand(e, q) && #[trigger] is_peer(q, j);
                            assert(in_r(group, q));
                        }
                    }
                    if exists|j: int| 0 <= j < 81 && in_r(singles, j) && o.open(j) && exists|e: int| 0 <= e < d + 1 && #[trigger] o.cand(e, j) {
                        let j = choose|j: int| 0 <= j < 81 && in_r(singles, j) && o.open(j) && exists|e: int| 0 <= e < d + 1 && #[trigger] o.cand(e, j);
                        let e = choose|e: int| 0 <= e < d + 1 && #[trigger] o.cand(e, j);
                        if e == d {
                            assert(in_r(group, j));
                        }
                    }
                }
                d += 1;
                continue;
            }
            let (pr, pc, gc) = walk(group);
            proof {
                lemma_ok_ops(pr, group);
            }
            let clash = band_and(pr, group);
            if nonzero(clash) {
                proof {
                    let p = choose|p: int| 0 <= p < 81 && #[trigger] has_pos(clash, p);
                    lemma_pos_and(clash, pr, group, p);
                    assert(in_r(pr, p));
                    let q = choose|q: int| 0 <= q < 81 && in_r(group, q) && #[trigger] is_peer(q, p);
                    assert(in_r(group, p));
                    assert(o.cand(d as int, q) && o.cand(d as int, p));
                    assert(singles_clash(o, singles));
                    assert forall|j: int| 0 <= j < 81 && #[trigger] self.open(j) implies o.open(j) by {}
                    assert forall|e: int, j: int| 0 <= e < 9 && 0 <= j < 81 && #[trigger] self.cand(e, j) implies o.cand(e, j) by {}
                    if lone_cells(o, singles) {
                        lemma_keeps_singles_upto(o, *self, singles, d as int);
                        assert forall|e: int| 0 <= e < 9 && #[trigger] self.cand(e, p) implies e == d by {
                            assert(o.cand(e, p));
                        }
                        assert forall|e: int| 0 <= e < 9 && #[trigger] self.cand(e, q) implies e == d by {
                            assert(o.cand(e, q));
                        }
                        assert forall|e: int| 0 <= e < d && #[trigger] o.cand(e, p) implies false by {}
                        assert forall|e: int| 0 <= e < d && #[trigger] o.cand(e, q) implies false by {}
                        assert(self.open(p) && self.open(q));
                        assert(self.cand(d as int, p) && self.cand(d as int, q));
                        assert(is_peer(p, q));
                        assert(naked_clash(*self));
                    }
                }
                return false;
            }
            proof {
                assert forall|q: int, p: int| 0 <= q < 81 && 0 <= p < 81 && in_r(singles, q) && in_r(singles, p)
                    && #[trigger] o.cand(d as int, q) && #[trigger] o.cand(d as int, p) implies !is_peer(q, p) by {
                    if is_peer(q, p) {
                        assert(in_r(group, q));
                        assert(in_r(pr, p));
                        lemma_pos_and(clash, pr, group, p);
                        assert(in_r(group, p));
                        assert(has_pos(clash, p));
                    }
                }
            }
            let ghost s0 = *self;
            self.clear_open(group, gc);
            self.clear_digit(d, pr, pc);
            proof {
                assert forall|j: int| 0 <= j < 81 implies #[trigger] self.open(j) == (o.open(j) && !(in_r(singles, j) && exists|e: int| 0 <= e < d + 1
                    && #[trigger] o.cand(e, j))) by {
                    if in_r(singles, j) && exists|e: int| 0 <= e < d + 1 && #[trigger] o.cand(e, j) {
                        let e = choose|e: int| 0 <= e < d + 1 && #[trigger] o.cand(e, j);
                        if e == d {
                            assert(in_r(group, j));
                        }
                    }
                    if in_r(group, j) {
                        assert(o.cand(d as int, j));
                    }
                }
                assert forall|e: int, j: int| 0 <= e < 9 && 0 <= j < 81 implies #[trigger] self.cand(e, j) == (o.cand(e, j) && !(e < d + 1
                    && exists|q: int| 0 <= q < 81 && in_r(singles, q) && o.cand(e, q) && #[trigger] is_peer(q, j))) by {
                    if e == d {
                        assert(in_r(pr, j) == exists|q: int| 0 <= q < 81 && in_r(group, q) && #[trigger] is_peer(q, j));
                        if exists|q: int| 0 <= q < 81 && in_r(singles, q) && o.cand(e, q) && #[trigger] is_peer(q, j) {
                            let q = choose|q: int| 0 <= q < 81 && in_r(singles, q) && o.cand(e, q) && #[trigger] is_peer(q, j);
                            assert(in_r(group, q));
                        }
                        if in_r(pr, j) {
                            let q = choose|q: int| 0 <= q < 81 && in_r(group, q) && #[trigger] is_peer(q, j);
                            assert(in_r(singles, q) && o.cand(e, q));
                        }
                    }
                }
                let fst = choose|j: int| 0 <= j < 81 && #[trigger] has_pos(group, j);
                assert(in_r(group, fst));
                if s0.open(fst) {
                    assert(s0.open(fst) && in_r(group, fst));
                } else {
                    assert(o.open(fst) ==> (in_r(singles, fst) && exists|e: int| 0 <= e < d && #[trigger] o.cand(e, fst)));
                }
                if exists|j: int| 0 <= j < 81 && in_r(singles, j) && o.open(j) && exists|e: int| 0 <= e < d + 1 && #[trigger] o.cand(e, j) {
                    let j = choose|j: int| 0 <= j < 81 && in_r(singles, j) && o.open(j) && exists|e: int| 0 <= e < d + 1 && #[trigger] o.cand(e, j);
                    let e = choose|e: int| 0 <= e < d + 1 && #[trigger] o.cand(e, j);
                    if e < d {
                        assert(exists|e2: int| 0 <= e2 < d && #[trigger] o.cand(e2, j));
                    } else {
                        assert(in_r(group, j));
                        if !s0.open(j) {
                            assert(exists|e2: int| 0 <= e2 < d && #[trigger] o.cand(e2, j));
                        }
                    }
                }
            }
            d += 1;
        }
        proof {
            assert forall|j: int| 0 <= j < 81 && #[trigger] self.open(j) implies o.open(j) by {}
            assert forall|e: int, j: int| 0 <= e < 9 && 0 <= j < 81 && #[trigger] self.cand(e, j) implies o.cand(e, j) by {}
            if singles_clash(o, singles) {
                let (e, q, p) = choose|e: int, q: int, p: int| 0 <= e < 9 && 0 <= q < 81 && 0 <= p < 81 && in_r(singles, q)
                    && in_r(singles, p) && #[trigger] o.cand(e, q) && #[trigger] o.cand(e, p) && is_peer(q, p);
                assert(!is_peer(q, p));
            }
            if lone_cells(o, singles) {
                lemma_keeps_singles_upto(o, *self, singles, 9);
            }
        }
        true
    }
}

/// The cells of unit `u` in order.
pub(crate) fn unit_cells(u: usize) -> (cells: [usize; 9])
    requires
        u < 27,
    ensures
        forall|k: int| 0 <= k < 9 ==> #[trigger] cells[k] == crate::grid::unit_cell(u as int, k) && cells[k] < 81,
{
    let mut cells = [0usize; 9];
    let mut k: usize = 0;
    while k < 9
        invariant
            0 <= k <= 9,
            u < 27,
            forall|q: int| 0 <= q < k ==> #[trigger] cells[q] == crate::grid::unit_cell(u as int, q) && cells[q] < 81,
        decreases 9 - k,
    {
        let c = if u < 9 {
            u * 9 + k
        } else if u < 18 {
            k * 9 + (u - 9)
        } else {
            (((u - 18) / 3) * 3 + k / 3) * 9 + ((u - 18) % 3) * 3 + k % 3
        };
        cells[k] = c;
        k += 1;
    }
    cells
}

/// `t` is a `size`-element combination of `0..n`: strictly increasing in its
/// first `size` slots, zero in the rest.
pub open spec fn is_combo(t: [usize; 4], n: usize, size: usize) -> bool {
    &&& t[0] < t[1]
    &&& size == 2 ==> t[1] < n && t[2] == 0 && t[3] == 0
    &&& size == 3 ==> t[1] < t[2] && t[2] < n && t[3] == 0
    &&& size == 4 ==> t[1] < t[2] && t[2] < t[3] && t[3] < n
}

/// The slots of `t` read as the digits of one number: for slots under ten,
/// lexicographic order is the order of these numbers.
pub open spec fn combo_code(t: [usize; 4]) -> int {
    t[0] * 1000 + t[1] * 100 + t[2] * 10 + t[3]
}

/// Pushing keeps what a sequence holds and adds the new item.
proof fn lemma_push_contains(v: Seq<[usize; 4]>, x: [usize; 4])
    ensures
        v.push(x).contains(x),
        forall|t: [usize; 4]| v.contains(t) ==> #[trigger] v.push(x).contains(t),
{
    assert(v.push(x)[v.len() as int] == x);
    assert forall|t: [usize; 4]| v.contains(t) implies #[trigger] v.push(x).contains(t) by {
        let w = choose|w: int| 0 <= w < v.len() && v[w] == t;
        assert(v.push(x)[w] == t);
    }
}

/// The `size`-element index combinations of `0..n` (`size` is 2, 3 or 4), in
/// lexicographic order; each is strictly increasing, in the first `size` slots.
#[verifier::rlimit(40)]
fn combinations(n: usize, size: usize) -> (v: Vec<[usize; 4]>)
    requires
        n <= 9,
        2 <= size <= 4,
    ensures
        forall|i: int, a: int| 0 <= i < v.len() && 0 <= a < size ==> #[trigger] v@[i][a] < n,
        forall|i: int, a: int, b: int| 0 <= i < v.len() && 0 <= a < b < size ==> #[trigger] v@[i][a] < #[trigger] v@[i][b],
        forall|i: int| 0 <= i < v.len() ==> is_combo(#[trigger] v@[i], n, size),
        forall|t: [usize; 4]| is_combo(t, n, size) ==> #[trigger] v@.contains(t),
        forall|i: int, j: int| 0 <= i < j < v.len() ==> combo_code(#[trigger] v@[i]) < combo_code(#[trigger] v@[j]),
{
    let mut v: Vec<[usize; 4]> = Vec::new();
    let mut a: usize = 0;
    while a < n
        invariant
            n <= 9,
            2 <= size <= 4,
            a <= n,
            forall|i: int| 0 <= i < v.len() ==> is_combo(#[trigger] v@[i], n, size),
            forall|i: int| 0 <= i < v.len() ==> combo_code(#[trigger] v@[i]) < a * 1000,
            forall|i: int, j: int| 0 <= i < j < v.len() ==> combo_code(#[trigger] v@[i]) < combo_code(#[trigger] v@[j]),
            forall|t: [usize; 4]| is_combo(t, n, size) && combo_code(t) < a * 1000 ==> #[trigger] v@.contains(t),
        decreases n - a,
    {
        let mut b: usize = a + 1;
        while b < n
            invariant
                n <= 9,
                2 <= size <= 4,
                a < b <= n,
                a < n,
                forall|i: int| 0 <= i < v.len() ==> is_combo(#[trigger] v@[i], n, size),
                forall|i: int| 0 <= i < v.len() ==> combo_code(#[trigger] v@[i]) < a * 1000 + b * 100,
                forall|i: int, j: int| 0 <= i < j < v.len() ==> combo_code(#[trigger] v@[i]) < combo_code(#[trigger] v@[j]),
                forall|t: [usize; 4]| is_combo(t, n, size) && combo_code(t) < a * 1000 + b * 100 ==> #[trigger] v@.contains(t),
            decreases n - b,
        {
            if size == 2 {
                let ghost v0 = v@;
                let x = [a, b, 0, 0];
                v.push(x);
                proof {
                    lemma_push_contains(v0, x);
                    assert forall|t: [usize; 4]| is_combo(t, n, size) && combo_code(t) < a * 1000 + (b + 1) * 100 implies #[trigger] v@.contains(
                        t,
                    ) by {
                        if combo_code(t) >= a * 1000 + b * 100 {
                            assert(t =~= x);
                        } else {
                            assert(v0.contains(t));
                        }
                    }
                }
            } else {
                let mut c: usize = b + 1;
                while c < n
                    invariant
                        n <= 9,
                        3 <= size <= 4,
                        a < b < c <= n,
                        b < n,
                        forall|i: int| 0 <= i < v.len() ==> is_combo(#[trigger] v@[i], n, size),
                        forall|i: int| 0 <= i < v.len() ==> combo_code(#[trigger] v@[i]) < a * 1000 + b * 100 + c * 10,
                        forall|i: int, j: int| 0 <= i < j < v.len() ==> combo_code(#[trigger] v@[i]) < combo_code(#[trigger] v@[j]),
                        forall|t: [usize; 4]| is_combo(t, n, size) && combo_code(t) < a * 1000 + b * 100 + c * 10 ==> #[trigger] v@.contains(t),
                    decreases n - c,
                {
                    if size == 3 {
                        let ghost v0 = v@;
                        let x = [a, b, c, 0];
                        v.push(x);
                        proof {
                            lemma_push_contains(v0, x);
                            assert forall|t: [usize; 4]| is_combo(t, n, size) && combo_code(t) < a * 1000 + b * 100 + (c + 1) * 10 implies #[trigger] v@.contains(
                                t,
                            ) by {
                                if combo_code(t) >= a * 1000 + b * 100 + c * 10 {
                                    assert(t =~= x);
                                } else {
                                    assert(v0.contains(t));
                                }
                            }
                        }
                    } else {
                        let mut e: usize = c + 1;
                        while e < n
                            invariant
                                n <= 9,
                                size == 4,
                                a < b < c < e <= n,
                                c < n,
                                forall|i: int| 0 <= i < v.len() ==> is_combo(#[trigger] v@[i], n, size),
                                forall|i: int| 0 <= i < v.len() ==> combo_code(#[trigger] v@[i]) < a * 1000 + b * 100 + c * 10 + e,
                                forall|i: int, j: int| 0 <= i < j < v.len() ==> combo_code(#[trigger] v@[i]) < combo_code(#[trigger] v@[j]),
                                forall|t: [usize; 4]| is_combo(t, n, size) && combo_code(t) < a * 1000 + b * 100 + c * 10 + e
                                    ==> #[trigger] v@.contains(t),
                            decreases n - e,
                        {
                            let ghost v0 = v@;
                            let x = [a, b, c, e];
                            v.push(x);
                            proof {
                                lemma_push_contains(v0, x);
                                assert forall|t: [usize; 4]| is_combo(t, n, size) && combo_code(t) < a * 1000 + b * 100 + c * 10 + e + 1 implies #[trigger] v@.contains(
                                    t,
                                ) by {
                                    if combo_code(t) >= a * 1000 + b * 100 + c * 10 + e {
                                        assert(t =~= x);
                                    } else {
                                        assert(v0.contains(t));
                                    }
                                }
                            }
                            e += 1;
                        }
                    }
                    c += 1;
                }
            }
            b += 1;
        }
        a += 1;
    }
    v
}

/// Every cell's box is one of the nine.
pub proof fn lemma_box_bound(i: int)
    requires
        0 <= i < 81,
    ensures
        0 <= crate::grid::box_spec(i) < 9,
{
    assert(0 <= i / 9 < 9);
    assert(0 <= i % 9 < 9);
}

/// Digit `d` is a candidate of undecided cell `j`.
pub open spec fn live(bb: BitBoard, d: int, j: int) -> bool {
    bb.open(j) && bb.cand(d, j)
}

/// Digit `d` is live in at least two cells of unit `u`.
pub open spec fn two_live_in(bb: BitBoard, d: int, u: int) -> bool {
    exists|p: int, q: int| 0 <= p < 81 && 0 <= q < 81 && p != q && #[trigger] live(bb, d, p) && #[trigger] live(bb, d, q)
        && crate::layout::in_unit(u, p) && crate::layout::in_unit(u, q)
}

/// Every cell of unit `u` where `d` is live lies in unit `w`.
pub open spec fn confined(bb: BitBoard, d: int, u: int, w: int) -> bool {
    forall|j: int| 0 <= j < 81 && #[trigger] live(bb, d, j) && crate::layout::in_unit(u, j) ==> crate::layout::in_unit(w, j)
}

/// Locked candidates: `d` is live in two or more cells of unit `u`, all of
/// them in unit `w`, and still live somewhere in `w` outside `u`.
pub open spec fn locked_elim(bb: BitBoard, d: int, u: int, w: int) -> bool {
    &&& two_live_in(bb, d, u)
    &&& confined(bb, d, u, w)
    &&& exists|j: int| 0 <= j < 81 && #[trigger] live(bb, d, j) && crate::layout::in_unit(w, j) && !crate::layout::in_unit(u, j)
}

/// As [`locked_elim`], with one live cell in `u` enough.
pub open spec fn locked_elim1(bb: BitBoard, d: int, u: int, w: int) -> bool {
    &&& exists|p: int| 0 <= p < 81 && #[trigger] live(bb, d, p) && crate::layout::in_unit(u, p)
    &&& confined(bb, d, u, w)
    &&& exists|j: int| 0 <= j < 81 && #[trigger] live(bb, d, j) && crate::layout::in_unit(w, j) && !crate::layout::in_unit(u, j)
}

/// Unit `l` is a row (`rows`) or a column.
pub open spec fn orient_line(rows: bool, l: int) -> bool {
    if rows {
        0 <= l < 9
    } else {
        9 <= l < 18
    }
}

/// The unit of row `l` (`rows`) or of column `l`.
pub open spec fn line_unit(rows: bool, l: int) -> int {
    if rows {
        l
    } else {
        9 + l
    }
}

/// The row (`rows`) or the column of cell `c`.
pub open spec fn line_of(rows: bool, c: int) -> int {
    if rows {
        c / 9
    } else {
        c % 9
    }
}

/// `a` and `b` have the same undecided cells and candidates.
pub open spec fn same_views(a: BitBoard, b: BitBoard) -> bool {
    &&& forall|j: int| 0 <= j < 81 ==> #[trigger] a.open(j) == b.open(j)
    &&& forall|e: int, j: int| 0 <= e < 9 && 0 <= j < 81 ==> #[trigger] a.cand(e, j) == b.cand(e, j)
}

/// A cell lies in line `l` of one orientation exactly when that is its line.
proof fn lemma_line_unit(rows: bool, l: int, j: int)
    requires
        orient_line(rows, l),
    ensures
        crate::layout::in_unit(l, j) == (line_of(rows, j) == if rows { l } else { l - 9 }),
{
}

/// Scanning box `u` found its live cells of `d` empty, or on two lines, or all
/// on line `line`: then no line but that one takes part in a pointing pattern.
proof fn lemma_pointing_none(snap: BitBoard, rows: bool, d: int, u: int, bcells: [usize; 9], line: int, one: bool)
    requires
        0 <= d < 9,
        0 <= u < 9,
        line <= 9,
        forall|q: int| 0 <= q < 9 ==> #[trigger] bcells[q] == crate::grid::unit_cell(18 + u, q) && bcells[q] < 81,
        line == 9 ==> one && forall|q: int| 0 <= q < 9 ==> !#[trigger] live(snap, d, bcells[q] as int),
        line < 9 ==> exists|q: int| 0 <= q < 9 && #[trigger] live(snap, d, bcells[q] as int) && line_of(rows, bcells[q] as int) == line,
        one && line < 9 ==> forall|q: int| 0 <= q < 9 && #[trigger] live(snap, d, bcells[q] as int) ==> line_of(rows, bcells[q] as int) == line,
        !one ==> exists|q1: int, q2: int| 0 <= q1 < 9 && 0 <= q2 < 9 && #[trigger] live(snap, d, bcells[q1] as int) && #[trigger] live(
            snap,
            d,
            bcells[q2] as int,
        ) && line_of(rows, bcells[q1] as int) != line_of(rows, bcells[q2] as int),
    ensures
        forall|l: int| orient_line(rows, l) && !(one && line < 9 && l == line_unit(rows, line)) ==> !#[trigger] locked_elim1(snap, d, 18 + u, l),
{
    assert forall|l: int| orient_line(rows, l) && !(one && line < 9 && l == line_unit(rows, line)) implies !#[trigger] locked_elim1(
        snap,
        d,
        18 + u,
        l,
    ) by {
        if locked_elim1(snap, d, 18 + u, l) {
            let p = choose|p: int| 0 <= p < 81 && #[trigger] live(snap, d, p) && crate::layout::in_unit(18 + u, p);
            lemma_in_unit(18 + u, p);
            let q = choose|q: int| 0 <= q < 9 && #[trigger] crate::grid::unit_cell(18 + u, q) == p;
            assert(bcells[q] as int == p);
            if line == 9 {
                assert(!live(snap, d, bcells[q] as int));
            } else if !one {
                let (q1, q2) = choose|q1: int, q2: int| 0 <= q1 < 9 && 0 <= q2 < 9 && #[trigger] live(snap, d, bcells[q1] as int) && #[trigger] live(
                    snap,
                    d,
                    bcells[q2] as int,
                ) && line_of(rows, bcells[q1] as int) != line_of(rows, bcells[q2] as int);
                lemma_in_unit(18 + u, bcells[q1] as int);
                lemma_in_unit(18 + u, bcells[q2] as int);
                lemma_line_unit(rows, l, bcells[q1] as int);
                lemma_line_unit(rows, l, bcells[q2] as int);
            } else {
                lemma_in_unit(18 + u, bcells[q] as int);
                lemma_line_unit(rows, l, bcells[q] as int);
            }
        }
    }
}

/// No live cell of `d` on line `line` outside box `u`: no pointing from box
/// `u` along that line.
proof fn lemma_pointing_target(snap: BitBoard, rows: bool, d: int, u: int, lcells: [usize; 9], line: int)
    requires
        0 <= line < 9,
        0 <= u < 9,
        forall|q: int| 0 <= q < 9 ==> #[trigger] lcells[q] == crate::grid::unit_cell(line_unit(rows, line), q) && lcells[q] < 81,
        forall|q: int| 0 <= q < 9 ==> !(crate::grid::box_spec(#[trigger] lcells[q] as int) != u && live(snap, d, lcells[q] as int)),
    ensures
        !locked_elim1(snap, d, 18 + u, line_unit(rows, line)),
{
    if locked_elim1(snap, d, 18 + u, line_unit(rows, line)) {
        let j = choose|j: int| 0 <= j < 81 && #[trigger] live(snap, d, j) && crate::layout::in_unit(line_unit(rows, line), j)
            && !crate::layout::in_unit(18 + u, j);
        lemma_in_unit(line_unit(rows, line), j);
        let q = choose|q: int| 0 <= q < 9 && #[trigger] crate::grid::unit_cell(line_unit(rows, line), q) == j;
        assert(lcells[q] as int == j);
    }
}

/// Scanning line `u` found its live cells of `d` empty, or in two boxes, or all
/// in box `bx`: then no box but that one takes part in a claiming pattern.
proof fn lemma_claiming_none(snap: BitBoard, rows: bool, d: int, u: int, lcells: [usize; 9], bx: int, one: bool)
    requires
        0 <= d < 9,
        0 <= u < 9,
        bx <= 9,
        forall|q: int| 0 <= q < 9 ==> #[trigger] lcells[q] == crate::grid::unit_cell(line_unit(rows, u), q) && lcells[q] < 81,
        bx == 9 ==> one && forall|q: int| 0 <= q < 9 ==> !#[trigger] live(snap, d, lcells[q] as int),
        bx < 9 ==> exists|q: int| 0 <= q < 9 && #[trigger] live(snap, d, lcells[q] as int) && crate::grid::box_spec(lcells[q] as int) == bx,
        one && bx < 9 ==> forall|q: int| 0 <= q < 9 && #[trigger] live(snap, d, lcells[q] as int) ==> crate::grid::box_spec(lcells[q] as int) == bx,
        !one ==> exists|q1: int, q2: int| 0 <= q1 < 9 && 0 <= q2 < 9 && #[trigger] live(snap, d, lcells[q1] as int) && #[trigger] live(
            snap,
            d,
            lcells[q2] as int,
        ) && crate::grid::box_spec(lcells[q1] as int) != crate::grid::box_spec(lcells[q2] as int),
    ensures
        forall|b: int| 0 <= b < 9 && !(one && bx < 9 && b == bx) ==> !#[trigger] locked_elim1(snap, d, line_unit(rows, u), 18 + b),
{
    let lu = line_unit(rows, u);
    assert forall|b: int| 0 <= b < 9 && !(one && bx < 9 && b == bx) implies !#[trigger] locked_elim1(snap, d, lu, 18 + b) by {
        if locked_elim1(snap, d, lu, 18 + b) {
            let p = choose|p: int| 0 <= p < 81 && #[trigger] live(snap, d, p) && crate::layout::in_unit(lu, p);
            lemma_in_unit(lu, p);
            let q = choose|q: int| 0 <= q < 9 && #[trigger] crate::grid::unit_cell(lu, q) == p;
            assert(lcells[q] as int == p);
            if bx == 9 {
                assert(!live(snap, d, lcells[q] as int));
            } else if !one {
                let (q1, q2) = choose|q1: int, q2: int| 0 <= q1 < 9 && 0 <= q2 < 9 && #[trigger] live(snap, d, lcells[q1] as int) && #[trigger] live(
                    snap,
                    d,
                    lcells[q2] as int,
                ) && crate::grid::box_spec(lcells[q1] as int) != crate::grid::box_spec(lcells[q2] as int);
                lemma_in_unit(lu, lcells[q1] as int);
                lemma_in_unit(lu, lcells[q2] as int);
            } else {
                lemma_in_unit(lu, lcells[q] as int);
            }
        }
    }
}

/// No live cell of `d` in box `bx` off line `u`: no claiming from line `u`
/// into that box.
proof fn lemma_claiming_target(snap: BitBoard, rows: bool, d: int, u: int, bcells: [usize; 9], bx: int)
    requires
        0 <= bx < 9,
        0 <= u < 9,
        forall|q: int| 0 <= q < 9 ==> #[trigger] bcells[q] == crate::grid::unit_cell(18 + bx, q) && bcells[q] < 81,
        forall|q: int| 0 <= q < 9 ==> !(line_of(rows, #[trigger] bcells[q] as int) != u && live(snap, d, bcells[q] as int)),
    ensures
        !locked_elim1(snap, d, line_unit(rows, u), 18 + bx),
{
    let lu = line_unit(rows, u);
    if locked_elim1(snap, d, lu, 18 + bx) {
        let j = choose|j: int| 0 <= j < 81 && #[trigger] live(snap, d, j) && crate::layout::in_unit(18 + bx, j)
            && !crate::layout::in_unit(lu, j);
        lemma_in_unit(18 + bx, j);
        let q = choose|q: int| 0 <= q < 9 && #[trigger] crate::grid::unit_cell(18 + bx, q) == j;
        assert(bcells[q] as int == j);
        lemma_line_unit(rows, lu, j);
    }
}

/// Line unit `line` (a row, or a column numbered from 9) crosses box `b`.
pub open spec fn line_of_box(b: int, line: int) -> bool {
    ||| 0 <= line < 9 && line / 3 == b / 3
    ||| 9 <= line < 18 && (line - 9) / 3 == b % 3
}

/// The `k`-th line crossing box `b`: its three rows, then its three columns.
pub open spec fn box_line(b: int, k: int) -> int {
    if k < 3 {
        (b / 3) * 3 + k
    } else {
        9 + (b % 3) * 3 + (k - 3)
    }
}

/// Removing candidates that a grid does not use keeps it in agreement.
pub proof fn lemma_elim_agrees(o: BitBoard, n: BitBoard, g: Seq<u8>)
    requires
        agrees(g, o),
        n.within(o),
        forall|j: int| 0 <= j < 81 ==> #[trigger] n.open(j) == o.open(j),
        forall|j: int| 0 <= j < 81 && #[trigger] n.open(j) && o.cand(g[j] - 1, j) ==> n.cand(g[j] - 1, j),
    ensures
        agrees(g, n),
{
    assert forall|j: int, k: int| 0 <= j < 81 && 0 <= k < 81 && !n.open(j) && n.open(k) && #[trigger] is_peer(j, k) implies !n.cand(
        g[j] - 1,
        k,
    ) by {
        if n.cand(g[j] - 1, k) {
            assert(o.cand(g[j] - 1, k));
        }
    }
}

/// When the live cells of digit `d` in unit `u` all lie in unit `w`, a grid
/// that agrees with the board holds `d` nowhere else in `w`.
pub proof fn lemma_locked_agrees(o: BitBoard, g: Seq<u8>, d: int, u: int, w: int, t: int)
    requires
        agrees(g, o),
        0 <= u < 27,
        0 <= w < 27,
        0 <= d < 9,
        exists|q: int| 0 <= q < 81 && #[trigger] live(o, d, q) && crate::layout::in_unit(u, q),
        confined(o, d, u, w),
        0 <= t < 81,
        crate::layout::in_unit(w, t),
        !crate::layout::in_unit(u, t),
    ensures
        g[t] != d + 1,
{
    crate::grid::lemma_unit_has_digit(g, u, (d + 1) as u8);
    let k = choose|k: int| 0 <= k < 9 && g[crate::grid::unit_cell(u, k)] == d + 1;
    let p = crate::grid::unit_cell(u, k);
    crate::probe::techniques::lemma_unit_cell_bound(u, k);
    lemma_in_unit(u, p);
    assert(crate::layout::in_unit(u, p));
    let q = choose|q: int| 0 <= q < 81 && #[trigger] live(o, d, q) && crate::layout::in_unit(u, q);
    if !o.open(p) {
        assert(q != p);
        assert(is_peer(p, q));
        assert(!o.cand(g[p] - 1, q));
    }
    assert(o.cand(g[p] - 1, p));
    assert(live(o, d, p));
    assert(crate::layout::in_unit(w, p));
    assert(t != p);
    assert(is_peer(t, p));
    assert(crate::grid::no_conflict_at(g, t));
    if g[t] == d + 1 {
        assert(blocked(g, t, g[t]));
    }
}

/// Dropping digit `d` from cells of unit `w` outside unit `u`, when the live
/// cells of `d` in `u` all lie in `w`, keeps every agreeing grid.
pub proof fn lemma_lc_elim_agrees(o: BitBoard, n: BitBoard, d: int, u: int, w: int, targets: B)
    requires
        0 <= u < 27,
        0 <= w < 27,
        0 <= d < 9,
        exists|q: int| 0 <= q < 81 && #[trigger] live(o, d, q) && crate::layout::in_unit(u, q),
        confined(o, d, u, w),
        forall|j: int| 0 <= j < 81 && #[trigger] in_r(targets, j) ==> o.open(j) && crate::layout::in_unit(w, j)
            && !crate::layout::in_unit(u, j),
        forall|j: int| 0 <= j < 81 ==> #[trigger] n.open(j) == o.open(j),
        forall|e: int, j: int| 0 <= e < 9 && 0 <= j < 81 ==> #[trigger] n.cand(e, j) == (o.cand(e, j) && !(e == d && in_r(
            targets,
            j,
        ))),
    ensures
        forall|g: Seq<u8>| agrees(g, o) ==> #[trigger] agrees(g, n),
{
    assert forall|g: Seq<u8>| agrees(g, o) implies #[trigger] agrees(g, n) by {
        assert forall|j: int| 0 <= j < 81 && #[trigger] n.open(j) && o.cand(g[j] - 1, j) implies n.cand(g[j] - 1, j) by {
            if in_r(targets, j) && g[j] - 1 == d {
                lemma_locked_agrees(o, g, d, u, w, j);
            }
        }
        lemma_elim_agrees(o, n, g);
    }
}

/// `m` is the candidate mask of cell `c`: bit `d - 1` set exactly when `d` is
/// a candidate, nothing above the ninth bit.
pub open spec fn is_cand_mask(bb: BitBoard, c: int, m: u16) -> bool {
    &&& m < 512
    &&& forall|d: u8| 1 <= d <= 9 ==> #[trigger] mask_has(m, d) == bb.cand(d - 1, c)
}

/// The union of the first `k` masks of `ms`.
pub open spec fn or_masks(ms: Seq<u16>, k: int) -> u16
    decreases k,
{
    if k <= 0 {
        0
    } else {
        or_masks(ms, k - 1) | ms[k - 1]
    }
}

/// A naked subset of `size` in unit `u`: the undecided cells at the increasing
/// slots `ks`, each with two to `size` candidates (masks `ms`), together hold
/// exactly `size` digits, and one of those digits is still a candidate of
/// another undecided cell of the unit.
pub open spec fn naked_subset_at(bb: BitBoard, u: int, size: int, ks: Seq<int>, ms: Seq<u16>) -> bool {
    &&& ks.len() == size
    &&& ms.len() == size
    &&& forall|i: int, j: int| 0 <= i < j < size ==> #[trigger] ks[i] < #[trigger] ks[j]
    &&& forall|i: int| 0 <= i < size ==> 0 <= #[trigger] ks[i] < 9
    &&& forall|i: int| 0 <= i < size ==> bb.open(crate::grid::unit_cell(u, #[trigger] ks[i])) && is_cand_mask(
        bb,
        crate::grid::unit_cell(u, ks[i]),
        ms[i],
    ) && 2 <= crate::grid::ones16(ms[i] & 0x1FF) <= size
    &&& crate::grid::ones16(or_masks(ms, size) & 0x1FF) == size
    &&& exists|kk: int, e: u8|
        0 <= kk < 9 && !ks.contains(kk) && 1 <= e <= 9 && bb.open(#[trigger] crate::grid::unit_cell(u, kk)) && bb.cand(e - 1, crate::grid::unit_cell(u, kk))
            && #[trigger] mask_has(or_masks(ms, size), e)
}

/// The slots a combination of positions picks from the slot list `sl`.
pub open spec fn slots_of(sl: Seq<int>, t: [usize; 4], size: int) -> Seq<int> {
    Seq::new(size as nat, |a: int| sl[t[a] as int])
}

/// The masks a combination of positions picks from the mask list `cm`.
pub open spec fn masks_of(cm: Seq<u16>, t: [usize; 4], size: int) -> Seq<u16> {
    Seq::new(size as nat, |a: int| cm[t[a] as int])
}

/// The slots of a naked subset are among the listed ones, so there are at
/// least `size` of them, and the positions where they are listed form one of
/// the combinations.
proof fn lemma_subset_positions(
    bb: BitBoard,
    u: int,
    size: int,
    ks: Seq<int>,
    ms: Seq<u16>,
    sl: Seq<int>,
    cm: Seq<u16>,
    cells: [usize; 9],
    n: int,
) -> (t: [usize; 4])
    requires
        0 <= u < 27,
        2 <= size <= 4,
        0 <= n <= 9,
        cm.len() == 9,
        forall|q: int| 0 <= q < 9 ==> #[trigger] cells[q] == crate::grid::unit_cell(u, q),
        sl.len() == n,
        forall|i: int, j: int| 0 <= i < j < n ==> #[trigger] sl[i] < #[trigger] sl[j],
        forall|i: int| 0 <= i < n ==> 0 <= #[trigger] sl[i] < 9 && is_cand_mask(bb, cells[sl[i]] as int, cm[i]),
        forall|kk: int, m: u16| 0 <= kk < 9 && bb.open(cells[kk] as int) && #[trigger] is_cand_mask(bb, cells[kk] as int, m) && 2
            <= crate::grid::ones16(m & 0x1FF) <= size ==> sl.contains(kk),
        naked_subset_at(bb, u, size, ks, ms),
    ensures
        n >= size,
        crate::bb::is_combo(t, n as usize, size as usize),
        slots_of(sl, t, size) == ks,
        masks_of(cm, t, size) == ms,
{
    let pos = Seq::new(size as nat, |i: int| choose|w: int| 0 <= w < n && sl[w] == ks[i]);
    assert forall|i: int| 0 <= i < size implies 0 <= #[trigger] pos[i] < n && sl[pos[i]] == ks[i] by {
        assert(cells[ks[i]] == crate::grid::unit_cell(u, ks[i]));
        assert(sl.contains(ks[i]));
    }
    assert forall|i: int, j: int| 0 <= i < j < size implies #[trigger] pos[i] < #[trigger] pos[j] by {
        assert(ks[i] < ks[j]);
        if pos[i] >= pos[j] {
            if pos[i] > pos[j] {
                assert(sl[pos[j]] < sl[pos[i]]);
            }
        }
    }
    assert(pos[0] < pos[1]);
    if size >= 3 {
        assert(pos[1] < pos[2]);
    }
    if size >= 4 {
        assert(pos[2] < pos[3]);
    }
    let p2: usize = if size >= 3 { pos[2] as usize } else { 0 };
    let p3: usize = if size >= 4 { pos[3] as usize } else { 0 };
    let t: [usize; 4] = [pos[0] as usize, pos[1] as usize, p2, p3];
    assert(slots_of(sl, t, size) =~= ks);
    assert forall|i: int| 0 <= i < size implies #[trigger] masks_of(cm, t, size)[i] == ms[i] by {
        assert(t[i] as int == pos[i]);
        assert(is_cand_mask(bb, crate::grid::unit_cell(u, ks[i]), ms[i]));
        assert(cells[sl[pos[i]]] == crate::grid::unit_cell(u, ks[i]));
        lemma_cand_mask_unique(bb, crate::grid::unit_cell(u, ks[i]), cm[pos[i]], ms[i]);
    }
    assert(masks_of(cm, t, size) =~= ms);
    t
}

/// `p` is the position mask of digit `d` in unit `u`: bit `q` set exactly when
/// the unit's cell at slot `q` is undecided with candidate `d`.
pub open spec fn is_pos_mask(bb: BitBoard, u: int, d: int, p: u16) -> bool {
    forall|q: u16| q < 16 ==> #[trigger] crate::bits::bit16(p, q) == (q < 9 && bb.open(crate::grid::unit_cell(u, q as int)) && bb.cand(
        d,
        crate::grid::unit_cell(u, q as int),
    ))
}

/// A hidden subset of `size` in unit `u`: the increasing digits `ds`, each
/// with two to `size` undecided homes in the unit (position masks `ps`), have
/// exactly `size` homes together, and one of those cells still holds a
/// candidate outside `ds`.
pub open spec fn hidden_subset_at(bb: BitBoard, u: int, size: int, ds: Seq<int>, ps: Seq<u16>) -> bool {
    &&& ds.len() == size
    &&& ps.len() == size
    &&& forall|i: int, j: int| 0 <= i < j < size ==> #[trigger] ds[i] < #[trigger] ds[j]
    &&& forall|i: int| 0 <= i < size ==> 0 <= #[trigger] ds[i] < 9
    &&& forall|i: int| 0 <= i < size ==> is_pos_mask(bb, u, #[trigger] ds[i], ps[i]) && 2 <= crate::grid::ones16(ps[i] & 0x1FF) <= size
    &&& crate::grid::ones16(or_masks(ps, size) & 0x1FF) == size
    &&& exists|kk: u16, e: int|
        kk < 9 && #[trigger] crate::bits::bit16(or_masks(ps, size), kk) && 0 <= e < 9 && !ds.contains(e) && bb.open(
            crate::grid::unit_cell(u, kk as int),
        ) && #[trigger] bb.cand(e, crate::grid::unit_cell(u, kk as int))
}

/// The position masks of the digits a combination picks from the digit list.
pub open spec fn picked_masks(dl: Seq<int>, pos: Seq<u16>, t: [usize; 4], size: int) -> Seq<u16> {
    Seq::new(size as nat, |a: int| pos[dl[t[a] as int]])
}

/// A digit's position mask in a unit is unique.
pub proof fn lemma_pos_mask_unique(bb: BitBoard, u: int, d: int, p1: u16, p2: u16)
    requires
        is_pos_mask(bb, u, d, p1),
        is_pos_mask(bb, u, d, p2),
    ensures
        p1 == p2,
{
    assert forall|k: u16| k < 16 implies #[trigger] crate::bits::bit16(p1, k) == crate::bits::bit16(p2, k) by {}
    crate::bits::lemma_bit16_ext(p1, p2);
}

/// The digits of a hidden subset are among the listed ones, so there are at
/// least `size` of them, and the positions where they are listed form one of
/// the combinations.
proof fn lemma_hidden_positions(bb: BitBoard, u: int, size: int, ds: Seq<int>, ps: Seq<u16>, dl: Seq<int>, pos: Seq<u16>, n: int) -> (t: [usize; 4])
    requires
        0 <= u < 27,
        2 <= size <= 4,
        0 <= n <= 9,
        pos.len() == 9,
        dl.len() == n,
        forall|i: int, j: int| 0 <= i < j < n ==> #[trigger] dl[i] < #[trigger] dl[j],
        forall|i: int| 0 <= i < n ==> 0 <= #[trigger] dl[i] < 9,
        forall|d: int| 0 <= d < 9 ==> is_pos_mask(bb, u, d, #[trigger] pos[d]),
        forall|d: int| 0 <= d < 9 && 2 <= crate::grid::ones16(#[trigger] pos[d] & 0x1FF) <= size ==> dl.contains(d),
        hidden_subset_at(bb, u, size, ds, ps),
    ensures
        n >= size,
        crate::bb::is_combo(t, n as usize, size as usize),
        slots_of(dl, t, size) == ds,
        picked_masks(dl, pos, t, size) == ps,
{
    assert forall|i: int| 0 <= i < size implies #[trigger] pos[ds[i]] == ps[i] by {
        lemma_pos_mask_unique(bb, u, ds[i], pos[ds[i]], ps[i]);
    }
    let ix = Seq::new(size as nat, |i: int| choose|w: int| 0 <= w < n && dl[w] == ds[i]);
    assert forall|i: int| 0 <= i < size implies 0 <= #[trigger] ix[i] < n && dl[ix[i]] == ds[i] by {
        assert(pos[ds[i]] == ps[i]);
        assert(dl.contains(ds[i]));
    }
    assert forall|i: int, j: int| 0 <= i < j < size implies #[trigger] ix[i] < #[trigger] ix[j] by {
        assert(ds[i] < ds[j]);
        if ix[i] > ix[j] {
            assert(dl[ix[j]] < dl[ix[i]]);
        }
    }
    assert(ix[0] < ix[1]);
    if size >= 3 {
        assert(ix[1] < ix[2]);
    }
    if size >= 4 {
        assert(ix[2] < ix[3]);
    }
    let p2: usize = if size >= 3 { ix[2] as usize } else { 0 };
    let p3: usize = if size >= 4 { ix[3] as usize } else { 0 };
    let t: [usize; 4] = [ix[0] as usize, ix[1] as usize, p2, p3];
    assert(slots_of(dl, t, size) =~= ds);
    assert forall|i: int| 0 <= i < size implies #[trigger] picked_masks(dl, pos, t, size)[i] == ps[i] by {
        assert(t[i] as int == ix[i]);
    }
    assert(picked_masks(dl, pos, t, size) =~= ps);
    t
}

/// No step of a kind in `a` other than naked singles applies to `b`: no hidden
/// single, no locked-candidates pattern, and no naked or hidden subset that
/// removes a candidate.
pub open spec fn harder_stuck(b: BitBoard, a: u32) -> bool {
    &&& allows(a, HIDDEN_SINGLE as int) ==> forall|u: int, d: int| 0 <= u < 27 && 0 <= d < 9 ==> #[trigger] live_count(b, d, u, 9) != 1
    &&& allows(a, LC_POINTING as int) ==> forall|bx: int, d: int, line: int| 0 <= bx < 9 && 0 <= d < 9 && line_of_box(bx, line)
        ==> !#[trigger] locked_elim(b, d, 18 + bx, line)
    &&& allows(a, LC_CLAIMING as int) ==> forall|line: int, d: int, bx: int| 0 <= line < 18 && 0 <= d < 9 && 0 <= bx < 9
        ==> !#[trigger] locked_elim(b, d, line, 18 + bx)
    &&& forall|u: int, ks: Seq<int>, ms: Seq<u16>, z: int| 0 <= u < 27 && 2 <= z <= 4 && allows(a, naked_kind(z))
        ==> !#[trigger] naked_subset_at(b, u, z, ks, ms)
    &&& forall|u: int, ds: Seq<int>, ps: Seq<u16>, z: int| 0 <= u < 27 && 2 <= z <= 4 && allows(a, hidden_kind(z))
        ==> !#[trigger] hidden_subset_at(b, u, z, ds, ps)
}

/// No technique of the kinds in `a` applies to `b` (a naked-single clash counts
/// as stuck: the singles cannot be placed).
pub open spec fn walk_stuck(b: BitBoard, a: u32) -> bool {
    &&& allows(a, NAKED_SINGLE as int) ==> !has_naked_single(b) || naked_clash(b)
    &&& harder_stuck(b, a)
}

/// The naked subset kind of size `z`.
pub open spec fn naked_kind(z: int) -> int {
    if z == 2 {
        NAKED_PAIR as int
    } else if z == 3 {
        NAKED_TRIPLE as int
    } else {
        NAKED_QUAD as int
    }
}

/// The hidden subset kind of size `z`.
pub open spec fn hidden_kind(z: int) -> int {
    if z == 2 {
        HIDDEN_PAIR as int
    } else if z == 3 {
        HIDDEN_TRIPLE as int
    } else {
        HIDDEN_QUAD as int
    }
}

/// A cell's candidate mask is unique.
pub proof fn lemma_cand_mask_unique(bb: BitBoard, c: int, m1: u16, m2: u16)
    requires
        is_cand_mask(bb, c, m1),
        is_cand_mask(bb, c, m2),
    ensures
        m1 == m2,
{
    assert forall|k: u16| k < 16 implies #[trigger] crate::bits::bit16(m1, k) == crate::bits::bit16(m2, k) by {
        if k < 9 {
            assert(mask_has(m1, (k + 1) as u8) == mask_has(m2, (k + 1) as u8));
        } else {
            crate::bits::lemma_bit16_low9(m1, k);
            crate::bits::lemma_bit16_low9(m2, k);
        }
    }
    crate::bits::lemma_bit16_ext(m1, m2);
}

/// A technique step: a well-formed board with no new candidate or undecided
/// cell, and no more bits than before.
pub open spec fn shrinks(o: BitBoard, n: BitBoard) -> bool {
    &&& n.wf()
    &&& n.within(o)
    &&& n.measure() <= o.measure()
}

/// `within` is transitive.
pub proof fn lemma_within_trans(a: BitBoard, b: BitBoard, c: BitBoard)
    requires
        a.within(b),
        b.within(c),
    ensures
        a.within(c),
{
}

impl BitBoard {
    /// Remove digit `d` from the cells of `targets` (row-major) in both bandings.
    fn eliminate_both(&mut self, d: usize, targets: B)
        requires
            old(self).wf(),
            d < 9,
            band_ok(targets),
        ensures
            final(self).wf(),
            forall|j: int| 0 <= j < 81 ==> #[trigger] final(self).open(j) == old(self).open(j),
            forall|e: int, j: int| 0 <= e < 9 && 0 <= j < 81 ==> #[trigger] final(self).cand(e, j) == (old(self).cand(e, j) && !(e == d
                && in_r(targets, j))),
            final(self).measure() <= old(self).measure(),
            (exists|j: int| 0 <= j < 81 && old(self).cand(d as int, j) && #[trigger] in_r(targets, j)) ==> final(self).measure()
                < old(self).measure(),
    {
        let (_pr, _pc, tc) = walk(targets);
        self.clear_digit(d, targets, tc);
    }

    /// Place every naked single in waves until none is left; returns how many
    /// were placed (saturating).
    fn drain_naked_singles(&mut self) -> (n: u16)
        requires
            old(self).wf(),
        ensures
            shrinks(*old(self), *final(self)),
            n > 0 ==> final(self).measure() < old(self).measure(),
            forall|g: Seq<u8>| agrees(g, *old(self)) ==> #[trigger] agrees(g, *final(self)),
            has_naked_single(*final(self)) ==> forall|g: Seq<u8>| !#[trigger] agrees(g, *old(self)),
            keeps_records(*old(self), *final(self)),
            n == 0 ==> !has_naked_single(*final(self)) || naked_clash(*final(self)),
            n == 0 ==> *final(self) == *old(self) || naked_clash(*final(self)),
    {
        proof {
            lemma_keeps_refl(*self);
        }
        let mut total: u16 = 0;
        let ghost o = *self;
        loop
            invariant
                self.wf(),
                o == *old(self),
                total == 0 ==> *self == o,
                shrinks(o, *self),
                keeps_records(o, *self),
                total > 0 ==> self.measure() < o.measure(),
                forall|g: Seq<u8>| agrees(g, o) ==> #[trigger] agrees(g, *self),
            decreases self.measure(),
        {
            let (ones, twos) = self.sieve();
            proof {
                lemma_ok_ops(self.unsolved_r, ones);
            }
            let a = band_and(self.unsolved_r, ones);
            proof {
                lemma_ok_ops(a, twos);
            }
            let singles = band_andnot(a, twos);
            let ghost pre = *self;
            proof {
                assert forall|j: int| 0 <= j < 81 && #[trigger] in_r(singles, j) implies pre.open(j) && !in_r(twos, j) by {
                    lemma_pos_andnot(singles, a, twos, j);
                    lemma_pos_and(a, pre.unsolved_r, ones, j);
                }
                assert forall|j: int, d: int, e: int| 0 <= j < 81 && 0 <= d < 9 && 0 <= e < 9 && #[trigger] in_r(singles, j)
                    && #[trigger] pre.cand(d, j) && #[trigger] pre.cand(e, j) implies d == e && pre.open(j) by {
                    assert(!in_r(twos, j));
                    if d < e {
                        assert(exists|x: int, y: int| 0 <= x < y < 9 && #[trigger] pre.cand(x, j) && #[trigger] pre.cand(y, j));
                    } else if e < d {
                        assert(exists|x: int, y: int| 0 <= x < y < 9 && #[trigger] pre.cand(x, j) && #[trigger] pre.cand(y, j));
                    }
                }
                assert(lone_cells(pre, singles));
            }
            if !nonzero(singles) {
                proof {
                    if has_naked_single(*self) {
                        let (j, d) = choose|j: int, d: int| 0 <= j < 81 && 0 <= d < 9 && self.open(j) && #[trigger] self.cand(d, j)
                            && forall|e: int| 0 <= e < 9 && #[trigger] self.cand(e, j) ==> e == d;
                        lemma_pos_andnot(singles, a, twos, j);
                        lemma_pos_and(a, self.unsolved_r, ones, j);
                        assert(in_r(ones, j));
                        if in_r(twos, j) {
                            let (x, y) = choose|x: int, y: int| 0 <= x < y < 9 && #[trigger] self.cand(x, j) && #[trigger] self.cand(y, j);
                        }
                        assert(has_pos(singles, j));
                    }
                }
                return total;
            }
            let n = popcnt(singles);
            let ghost s0 = *self;
            proof {
                crate::layout::lemma_nonzero_pos(singles);
                if singles[0] != 0 {
                    crate::layout::lemma_pc32_pos(singles[0]);
                } else if singles[1] != 0 {
                    crate::layout::lemma_pc32_pos(singles[1]);
                } else {
                    crate::layout::lemma_pc32_pos(singles[2]);
                }
                assert(n > 0);
                let j = choose|j: int| 0 <= j < 81 && #[trigger] has_pos(singles, j);
                lemma_pos_andnot(singles, a, twos, j);
                lemma_pos_and(a, s0.unsolved_r, ones, j);
                assert(in_r(ones, j));
                assert(exists|d: int| 0 <= d < 9 && #[trigger] s0.cand(d, j));
                assert(in_r(singles, j) && s0.open(j));
            }
            let okp = self.place_singles(singles);
            proof {
                lemma_keeps_trans(o, pre, *self);
            }
            if !okp {
                proof {
                    assert forall|g: Seq<u8>| !#[trigger] agrees(g, *old(self)) by {
                        if agrees(g, *old(self)) {
                            lemma_singles_agree(pre, *self, singles, g);
                        }
                    }
                }
                return total;
            }
            proof {
                assert forall|g: Seq<u8>| agrees(g, o) implies #[trigger] agrees(g, *self) by {
                    assert(agrees(g, pre));
                    lemma_singles_agree(pre, *self, singles, g);
                }
            }
            let add = if n > 0xffff { 0xffffu16 } else { n as u16 };
            total = if total > 0xffff - add { 0xffffu16 } else { total + add };
        }
    }

    /// Hidden single: a digit with exactly one undecided candidate cell in a unit
    /// is placed there. Returns at the first placement.
    pub fn hidden_single(&mut self) -> (r: bool)
        requires
            old(self).wf(),
        ensures
            shrinks(*old(self), *final(self)),
            r ==> final(self).measure() < old(self).measure(),
            !r ==> *final(self) == *old(self),
            !r ==> forall|u: int, d: int| 0 <= u < 27 && 0 <= d < 9 ==> #[trigger] live_count(*old(self), d, u, 9) != 1,
            keeps_records(*old(self), *final(self)),
            forall|g: Seq<u8>| agrees(g, *old(self)) ==> #[trigger] agrees(g, *final(self)),
    {
        proof {
            lemma_keeps_refl(*self);
        }
        let mut bd: [B; 9] = [ZERO; 9];
        let mut d: usize = 0;
        while d < 9
            invariant
                0 <= d <= 9,
                self.wf(),
                *self == *old(self),
                forall|e: int| 0 <= e < d ==> band_ok(#[trigger] bd[e]) && forall|j: int| 0 <= j < 81 ==> #[trigger] in_r(bd[e], j) == (
                    self.cand(e, j) && self.open(j)),
            decreases 9 - d,
        {
            proof {
                lemma_ok_ops(self.r[d as int], self.unsolved_r);
            }
            let x = band_and(self.r[d], self.unsolved_r);
            proof {
                assert forall|j: int| 0 <= j < 81 implies #[trigger] in_r(x, j) == (self.cand(d as int, j) && self.open(j)) by {
                    lemma_pos_and(x, self.r[d as int], self.unsolved_r, j);
                }
            }
            let ghost b0 = bd;
            bd[d] = x;
            proof {
                assert forall|e: int| 0 <= e < d + 1 implies band_ok(#[trigger] bd[e]) && forall|j: int| 0 <= j < 81 ==> #[trigger] in_r(bd[e], j) == (
                    self.cand(e, j) && self.open(j)) by {
                    if e < d {
                        assert(bd[e] == b0[e]);
                    }
                }
            }
            d += 1;
        }
        let mut u: usize = 0;
        while u < 27
            invariant
                0 <= u <= 27,
                self.wf(),
                *self == *old(self),
                forall|e: int| 0 <= e < 9 ==> band_ok(#[trigger] bd[e]) && forall|j: int| 0 <= j < 81 ==> #[trigger] in_r(bd[e], j) == (
                    self.cand(e, j) && self.open(j)),
                forall|v: int, e: int| 0 <= v < u && 0 <= e < 9 ==> #[trigger] live_count(*old(self), e, v, 9) != 1,
            decreases 27 - u,
        {
            let um = unit_mask_r(u);
            let mut d: usize = 0;
            while d < 9
                invariant
                    0 <= d <= 9,
                    u < 27,
                    self.wf(),
                    *self == *old(self),
                    band_ok(um),
                    forall|j: int| 0 <= j < 81 ==> #[trigger] in_r(um, j) == crate::layout::in_unit(u as int, j),
                    forall|e: int| 0 <= e < 9 ==> band_ok(#[trigger] bd[e]) && forall|j: int| 0 <= j < 81 ==> #[trigger] in_r(bd[e], j) == (
                        self.cand(e, j) && self.open(j)),
                    forall|v: int, e: int| 0 <= v < u && 0 <= e < 9 ==> #[trigger] live_count(*old(self), e, v, 9) != 1,
                    forall|e: int| 0 <= e < d ==> #[trigger] live_count(*old(self), e, u as int, 9) != 1,
                decreases 9 - d,
            {
                proof {
                    lemma_ok_ops(bd[d as int], um);
                }
                let pos = band_and(bd[d], um);
                if exactly_one(pos) {
                    proof {
                        let p = choose|p: int| 0 <= p < 81 && #[trigger] has_pos(pos, p) && forall|q: int| 0 <= q < 81 && #[trigger] has_pos(pos, q) ==> q == p;
                        assert(exists|p: int| 0 <= p < 81 && #[trigger] has_pos(pos, p));
                    }
                    let c = first_rm(pos);
                    proof {
                        lemma_pos_and(pos, bd[d as int], um, c as int);
                        assert(in_r(bd[d as int], c as int));
                        assert(self.open(c as int));
                    }
                    let ghost pre = *self;
                    self.place(c, (d + 1) as u8);
                    proof {
                        assert(pre.cand(d as int, c as int));
                        lemma_keeps_place(pre, *self, c as int, (d + 1) as u8);
                        let p = choose|p: int| 0 <= p < 81 && #[trigger] has_pos(pos, p) && forall|q: int| 0 <= q < 81 && #[trigger] has_pos(pos, q) ==> q == p;
                        assert(has_pos(pos, c as int));
                        lemma_in_unit(u as int, c as int);
                        lemma_pos_and(pos, bd[d as int], um, c as int);
                        assert(in_r(um, c as int));
                        assert(crate::layout::in_unit(u as int, c as int));
                        assert forall|x: int| 0 <= x < 9 && pre.open(#[trigger] crate::grid::unit_cell(u as int, x)) && pre.cand(
                            d as int,
                            crate::grid::unit_cell(u as int, x),
                        ) implies crate::grid::unit_cell(u as int, x) == c as int by {
                            let jx = crate::grid::unit_cell(u as int, x);
                            crate::probe::techniques::lemma_unit_cell_bound(u as int, x);
                            lemma_in_unit(u as int, jx);
                            lemma_pos_and(pos, bd[d as int], um, jx);
                            assert(in_r(bd[d as int], jx));
                            assert(in_r(um, jx));
                            assert(has_pos(pos, jx));
                        }
                        assert forall|g: Seq<u8>| agrees(g, pre) implies #[trigger] agrees(g, *self) by {
                            lemma_lone_home(pre, g, u as int, d as int, c as int);
                            lemma_place_agrees(pre, *self, g, c as int, (d + 1) as u8);
                        }
                    }
                    return true;
                }
                proof {
                    if live_count(*self, d as int, u as int, 9) == 1 {
                        assert forall|j: int| 0 <= j < 81 implies #[trigger] has_pos(pos, j) == (self.cand(d as int, j) && self.open(j)
                            && crate::layout::in_unit(u as int, j)) by {
                            lemma_pos_and(pos, bd[d as int], um, j);
                            assert(in_r(bd[d as int], j) == (self.cand(d as int, j) && self.open(j)));
                            assert(in_r(um, j) == crate::layout::in_unit(u as int, j));
                        }
                        lemma_lone_pos(*self, pos, d as int, u as int);
                    }
                }
                d += 1;
            }
            u += 1;
        }
        false
    }

    /// Locked candidates, pointing: a digit confined to one line within a box
    /// leaves the rest of that line. Returns at the first elimination.
    #[verifier::rlimit(80)]
    fn lc_pointing(&mut self) -> (r: bool)
        requires
            old(self).wf(),
        ensures
            shrinks(*old(self), *final(self)),
            r ==> final(self).measure() < old(self).measure(),
            !r ==> *final(self) == *old(self),
            !r ==> forall|b: int, d: int, line: int| 0 <= b < 9 && 0 <= d < 9 && line_of_box(b, line) ==> !#[trigger] locked_elim(
                *old(self),
                d,
                18 + b,
                line,
            ),
            keeps_records(*old(self), *final(self)),
            forall|g: Seq<u8>| agrees(g, *old(self)) ==> #[trigger] agrees(g, *final(self)),
    {
        proof {
            lemma_keeps_refl(*self);
        }
        let mut b: usize = 0;
        while b < 9
            invariant
                0 <= b <= 9,
                self.wf(),
                *self == *old(self),
                forall|b2: int, d2: int, line: int| 0 <= b2 < b && 0 <= d2 < 9 && line_of_box(b2, line) ==> !#[trigger] locked_elim(
                    *self,
                    d2,
                    18 + b2,
                    line,
                ),
            decreases 9 - b,
        {
            let bm = unit_mask_r(18 + b);
            let br = (b / 3) * 3;
            let bc = (b % 3) * 3;
            let mut d: usize = 0;
            while d < 9
                invariant
                    0 <= d <= 9,
                    b < 9,
                    br == (b / 3) * 3,
                    bc == (b % 3) * 3,
                    br + 3 <= 9,
                    bc + 3 <= 9,
                    band_ok(bm),
                    forall|j: int| 0 <= j < 81 ==> #[trigger] in_r(bm, j) == crate::layout::in_unit(18 + b, j),
                    self.wf(),
                    *self == *old(self),
                    forall|b2: int, d2: int, line: int| 0 <= d2 < 9 && (0 <= b2 < b || (b2 == b && d2 < d)) && line_of_box(b2, line)
                        ==> !#[trigger] locked_elim(*self, d2, 18 + b2, line),
                decreases 9 - d,
            {
                proof {
                    lemma_ok_ops(self.r[d as int], bm);
                }
                let x = band_and(self.r[d], bm);
                proof {
                    lemma_ok_ops(x, self.unsolved_r);
                }
                let pos = band_and(x, self.unsolved_r);
                proof {
                    assert forall|j: int| 0 <= j < 81 implies #[trigger] has_pos(pos, j) == (live(*self, d as int, j)
                        && crate::layout::in_unit(18 + b, j)) by {
                        lemma_pos_and(pos, x, self.unsolved_r, j);
                        lemma_pos_and(x, self.r[d as int], bm, j);
                        assert(in_r(bm, j) == crate::layout::in_unit(18 + b, j));
                    }
                }
                if at_least_two(pos) {
                    let mut k: usize = 0;
                    while k < 6
                        invariant
                            0 <= k <= 6,
                            d < 9,
                            b < 9,
                            br == (b / 3) * 3,
                            bc == (b % 3) * 3,
                            br + 3 <= 9,
                            bc + 3 <= 9,
                            band_ok(bm),
                            band_ok(pos),
                            forall|j: int| 0 <= j < 81 ==> #[trigger] in_r(bm, j) == crate::layout::in_unit(18 + b, j),
                            forall|j: int| 0 <= j < 81 ==> #[trigger] has_pos(pos, j) == (live(*self, d as int, j)
                                && crate::layout::in_unit(18 + b, j)),
                            self.wf(),
                            *self == *old(self),
                            forall|k2: int| 0 <= k2 < k ==> !#[trigger] locked_elim(*self, d as int, 18 + b, box_line(b as int, k2)),
                            exists|q: int| 0 <= q < 81 && #[trigger] has_pos(pos, q),
                        decreases 6 - k,
                    {
                        let line = if k < 3 { br + k } else { 9 + bc + (k - 3) };
                        let lm = unit_mask_r(line);
                        proof {
                            lemma_ok_ops(pos, lm);
                            assert(line == box_line(b as int, k as int));
                        }
                        let outside = band_andnot(pos, lm);
                        if !nonzero(outside) {
                            proof {
                                lemma_ok_ops(self.r[d as int], lm);
                            }
                            let t1 = band_and(self.r[d], lm);
                            proof {
                                lemma_ok_ops(t1, bm);
                            }
                            let t2 = band_andnot(t1, bm);
                            proof {
                                lemma_ok_ops(t2, self.unsolved_r);
                            }
                            let targets = band_and(t2, self.unsolved_r);
                            if nonzero(targets) {
                                proof {
                                    let j = choose|j: int| 0 <= j < 81 && #[trigger] has_pos(targets, j);
                                    lemma_pos_and(targets, t2, self.unsolved_r, j);
                                    lemma_pos_andnot(t2, t1, bm, j);
                                    lemma_pos_and(t1, self.r[d as int], lm, j);
                                    assert(self.cand(d as int, j) && in_r(targets, j));
                                }
                                proof {
                                    assert forall|j: int| 0 <= j < 81 && #[trigger] live(*self, d as int, j) && crate::layout::in_unit(18 + b, j) implies crate::layout::in_unit(
                                        line as int,
                                        j,
                                    ) by {
                                        assert(has_pos(pos, j));
                                        lemma_pos_andnot(outside, pos, lm, j);
                                        assert(!has_pos(outside, j));
                                        assert(in_r(lm, j));
                                    }
                                    let q0 = choose|q0: int| 0 <= q0 < 81 && #[trigger] has_pos(pos, q0);
                                    assert(live(*self, d as int, q0) && crate::layout::in_unit(18 + b, q0));
                                }
                                let ghost pre = *self;
                                self.eliminate_both(d, targets);
                                proof {
                                    lemma_keeps_elim(pre, *self);
                                    assert forall|j: int| 0 <= j < 81 && #[trigger] in_r(targets, j) implies pre.open(j) && crate::layout::in_unit(line as int, j)
                                        && !crate::layout::in_unit(18 + b, j) by {
                                        lemma_pos_and(targets, t2, pre.unsolved_r, j);
                                        lemma_pos_andnot(t2, t1, bm, j);
                                        lemma_pos_and(t1, pre.r[d as int], lm, j);
                                        assert(in_r(lm, j) == crate::layout::in_unit(line as int, j));
                                        assert(in_r(bm, j) == crate::layout::in_unit(18 + b, j));
                                    }
                                    lemma_lc_elim_agrees(pre, *self, d as int, 18 + b, line as int, targets);
                                }
                                return true;
                            }
                            proof {
                                if locked_elim(*self, d as int, 18 + b, line as int) {
                                    let j = choose|j: int| 0 <= j < 81 && #[trigger] live(*self, d as int, j) && crate::layout::in_unit(
                                        line as int,
                                        j,
                                    ) && !crate::layout::in_unit(18 + b, j);
                                    lemma_pos_and(targets, t2, self.unsolved_r, j);
                                    lemma_pos_andnot(t2, t1, bm, j);
                                    lemma_pos_and(t1, self.r[d as int], lm, j);
                                    assert(in_r(lm, j) == crate::layout::in_unit(line as int, j));
                                    assert(in_r(bm, j) == crate::layout::in_unit(18 + b, j));
                                    assert(has_pos(targets, j));
                                }
                            }
                        } else {
                            proof {
                                let j = choose|j: int| 0 <= j < 81 && #[trigger] has_pos(outside, j);
                                lemma_pos_andnot(outside, pos, lm, j);
                                assert(live(*self, d as int, j) && crate::layout::in_unit(18 + b, j));
                                assert(in_r(lm, j) == crate::layout::in_unit(line as int, j));
                                assert(!crate::layout::in_unit(line as int, j));
                                assert(!confined(*self, d as int, 18 + b, line as int));
                            }
                        }
                        k += 1;
                    }
                    proof {
                        assert forall|line: int| line_of_box(b as int, line) implies !#[trigger] locked_elim(*self, d as int, 18 + b, line) by {
                            let k2 = if line < 9 { line - br } else { line - 9 - bc + 3 };
                            assert(line == box_line(b as int, k2));
                        }
                    }
                } else {
                    proof {
                        assert forall|line: int| line_of_box(b as int, line) implies !#[trigger] locked_elim(*self, d as int, 18 + b, line) by {
                            if two_live_in(*self, d as int, 18 + b) {
                                let (p, q) = choose|p: int, q: int| 0 <= p < 81 && 0 <= q < 81 && p != q && #[trigger] live(*self, d as int, p)
                                    && #[trigger] live(*self, d as int, q) && crate::layout::in_unit(18 + b, p) && crate::layout::in_unit(18 + b, q);
                                assert(has_pos(pos, p));
                                assert(has_pos(pos, q));
                                if crate::layout::one_pos(pos) {
                                    let p0 = choose|p0: int| 0 <= p0 < 81 && #[trigger] has_pos(pos, p0) && forall|q0: int| 0 <= q0 < 81 && #[trigger] has_pos(pos, q0) ==> q0 == p0;
                                    assert(p == p0 && q == p0);
                                }
                            }
                        }
                    }
                }
                d += 1;
            }
            b += 1;
        }
        false
    }

    /// Locked candidates, claiming: a digit confined to one box within a line
    /// leaves the rest of that box. Returns at the first elimination.
    #[verifier::rlimit(100)]
    fn lc_claiming(&mut self) -> (r: bool)
        requires
            old(self).wf(),
        ensures
            shrinks(*old(self), *final(self)),
            r ==> final(self).measure() < old(self).measure(),
            !r ==> *final(self) == *old(self),
            !r ==> forall|line: int, d: int, b: int| 0 <= line < 18 && 0 <= d < 9 && 0 <= b < 9 ==> !#[trigger] locked_elim(
                *old(self),
                d,
                line,
                18 + b,
            ),
            keeps_records(*old(self), *final(self)),
            forall|g: Seq<u8>| agrees(g, *old(self)) ==> #[trigger] agrees(g, *final(self)),
    {
        proof {
            lemma_keeps_refl(*self);
        }
        let mut line: usize = 0;
        while line < 18
            invariant
                0 <= line <= 18,
                self.wf(),
                *self == *old(self),
                forall|l2: int, d2: int, b2: int| 0 <= l2 < line && 0 <= d2 < 9 && 0 <= b2 < 9 ==> !#[trigger] locked_elim(
                    *self,
                    d2,
                    l2,
                    18 + b2,
                ),
            decreases 18 - line,
        {
            let lm = unit_mask_r(line);
            let mut d: usize = 0;
            while d < 9
                invariant
                    0 <= d <= 9,
                    line < 18,
                    band_ok(lm),
                    forall|j: int| 0 <= j < 81 ==> #[trigger] in_r(lm, j) == crate::layout::in_unit(line as int, j),
                    self.wf(),
                    *self == *old(self),
                    forall|l2: int, d2: int, b2: int| 0 <= d2 < 9 && 0 <= b2 < 9 && (0 <= l2 < line || (l2 == line && d2 < d))
                        ==> !#[trigger] locked_elim(*self, d2, l2, 18 + b2),
                decreases 9 - d,
            {
                proof {
                    lemma_ok_ops(self.r[d as int], lm);
                }
                let x = band_and(self.r[d], lm);
                proof {
                    lemma_ok_ops(x, self.unsolved_r);
                }
                let pos = band_and(x, self.unsolved_r);
                proof {
                    assert forall|j: int| 0 <= j < 81 implies #[trigger] has_pos(pos, j) == (live(*self, d as int, j)
                        && crate::layout::in_unit(line as int, j)) by {
                        lemma_pos_and(pos, x, self.unsolved_r, j);
                        lemma_pos_and(x, self.r[d as int], lm, j);
                        assert(in_r(lm, j) == crate::layout::in_unit(line as int, j));
                    }
                }
                if at_least_two(pos) {
                    let first = first_rm(pos);
                    let b = crate::grid::box_of(first);
                    proof {
                        lemma_box_bound(first as int);
                    }
                    let bm = unit_mask_r(18 + b);
                    proof {
                        lemma_ok_ops(pos, bm);
                        assert(live(*self, d as int, first as int) && crate::layout::in_unit(line as int, first as int));
                        assert forall|b2: int| 0 <= b2 < 9 && b2 != b implies !#[trigger] locked_elim(*self, d as int, line as int, 18 + b2) by {
                            assert(!crate::layout::in_unit(18 + b2, first as int));
                        }
                    }
                    let outside = band_andnot(pos, bm);
                    if !nonzero(outside) {
                        proof {
                            lemma_ok_ops(self.r[d as int], bm);
                        }
                        let t1 = band_and(self.r[d], bm);
                        proof {
                            lemma_ok_ops(t1, lm);
                        }
                        let t2 = band_andnot(t1, lm);
                        proof {
                            lemma_ok_ops(t2, self.unsolved_r);
                        }
                        let targets = band_and(t2, self.unsolved_r);
                        if nonzero(targets) {
                            proof {
                                let j = choose|j: int| 0 <= j < 81 && #[trigger] has_pos(targets, j);
                                lemma_pos_and(targets, t2, self.unsolved_r, j);
                                lemma_pos_andnot(t2, t1, lm, j);
                                lemma_pos_and(t1, self.r[d as int], bm, j);
                                assert(self.cand(d as int, j) && in_r(targets, j));
                            }
                            proof {
                                assert forall|j: int| 0 <= j < 81 && #[trigger] live(*self, d as int, j) && crate::layout::in_unit(line as int, j) implies crate::layout::in_unit(
                                    18 + b,
                                    j,
                                ) by {
                                    assert(has_pos(pos, j));
                                    lemma_pos_andnot(outside, pos, bm, j);
                                    assert(!has_pos(outside, j));
                                    assert(in_r(bm, j));
                                }
                                let q0 = choose|q0: int| 0 <= q0 < 81 && #[trigger] has_pos(pos, q0);
                                assert(live(*self, d as int, q0) && crate::layout::in_unit(line as int, q0));
                            }
                            let ghost pre = *self;
                            self.eliminate_both(d, targets);
                            proof {
                                lemma_keeps_elim(pre, *self);
                                assert forall|j: int| 0 <= j < 81 && #[trigger] in_r(targets, j) implies pre.open(j) && crate::layout::in_unit(18 + b, j)
                                    && !crate::layout::in_unit(line as int, j) by {
                                    lemma_pos_and(targets, t2, pre.unsolved_r, j);
                                    lemma_pos_andnot(t2, t1, lm, j);
                                    lemma_pos_and(t1, pre.r[d as int], bm, j);
                                    assert(in_r(lm, j) == crate::layout::in_unit(line as int, j));
                                    assert(in_r(bm, j) == crate::layout::in_unit(18 + b, j));
                                }
                                lemma_lc_elim_agrees(pre, *self, d as int, line as int, 18 + b, targets);
                            }
                            return true;
                        }
                        proof {
                            if locked_elim(*self, d as int, line as int, 18 + b) {
                                let j = choose|j: int| 0 <= j < 81 && #[trigger] live(*self, d as int, j) && crate::layout::in_unit(
                                    18 + b,
                                    j,
                                ) && !crate::layout::in_unit(line as int, j);
                                lemma_pos_and(targets, t2, self.unsolved_r, j);
                                lemma_pos_andnot(t2, t1, lm, j);
                                lemma_pos_and(t1, self.r[d as int], bm, j);
                                assert(in_r(bm, j) == crate::layout::in_unit(18 + b, j));
                                assert(in_r(lm, j) == crate::layout::in_unit(line as int, j));
                                assert(has_pos(targets, j));
                            }
                        }
                    } else {
                        proof {
                            let j = choose|j: int| 0 <= j < 81 && #[trigger] has_pos(outside, j);
                            lemma_pos_andnot(outside, pos, bm, j);
                            assert(in_r(bm, j) == crate::layout::in_unit(18 + b, j));
                            assert(live(*self, d as int, j) && crate::layout::in_unit(line as int, j));
                            assert(!crate::layout::in_unit(18 + b, j));
                            assert(!confined(*self, d as int, line as int, 18 + b));
                        }
                    }
                } else {
                    proof {
                        assert forall|b2: int| 0 <= b2 < 9 implies !#[trigger] locked_elim(*self, d as int, line as int, 18 + b2) by {
                            if two_live_in(*self, d as int, line as int) {
                                let (p, q) = choose|p: int, q: int| 0 <= p < 81 && 0 <= q < 81 && p != q && #[trigger] live(*self, d as int, p)
                                    && #[trigger] live(*self, d as int, q) && crate::layout::in_unit(line as int, p) && crate::layout::in_unit(
                                    line as int,
                                    q,
                                );
                                assert(has_pos(pos, p));
                                assert(has_pos(pos, q));
                                if crate::layout::one_pos(pos) {
                                    let p0 = choose|p0: int| 0 <= p0 < 81 && #[trigger] has_pos(pos, p0) && forall|q0: int| 0 <= q0 < 81 && #[trigger] has_pos(pos, q0) ==> q0 == p0;
                                    assert(p == p0 && q == p0);
                                }
                            }
                        }
                    }
                }
                proof {
                    assert(forall|b2: int| 0 <= b2 < 9 ==> !#[trigger] locked_elim(*self, d as int, line as int, 18 + b2));
                }
                d += 1;
            }
            line += 1;
        }
        false
    }
}

impl BitBoard {
    /// Remove the digits of mask `rm` from cell `c` (both bandings); returns
    /// whether anything was removed.
    fn clear_mask_at(&mut self, c: usize, rm: u16) -> (did: bool)
        requires
            old(self).wf(),
            c < 81,
            forall|e: int| 0 <= e < 9 && #[trigger] mask_has(rm, (e + 1) as u8) ==> old(self).cand(e, c as int),
        ensures
            shrinks(*old(self), *final(self)),
            forall|j: int| 0 <= j < 81 ==> #[trigger] final(self).open(j) == old(self).open(j),
            forall|e: int, j: int| 0 <= e < 9 && 0 <= j < 81 ==> #[trigger] final(self).cand(e, j) == (old(self).cand(e, j) && !(j
                == c && mask_has(rm, (e + 1) as u8))),
            did == exists|e: int| 0 <= e < 9 && #[trigger] mask_has(rm, (e + 1) as u8),
            did ==> final(self).measure() < old(self).measure(),
            !did ==> *final(self) == *old(self),
    {
        let br = bit_r(c);
        let bc = bit_c(c);
        let mut did = false;
        let mut d: usize = 0;
        while d < 9
            invariant
                0 <= d <= 9,
                c < 81,
                self.wf(),
                band_ok(br),
                band_ok(bc),
                forall|j: int| 0 <= j < 81 ==> #[trigger] in_r(br, j) == (j == c),
                forall|j: int| 0 <= j < 81 ==> #[trigger] in_c(bc, j) == (j == c),
                forall|e: int| 0 <= e < 9 && #[trigger] mask_has(rm, (e + 1) as u8) ==> old(self).cand(e, c as int),
                shrinks(*old(self), *self),
                forall|j: int| 0 <= j < 81 ==> #[trigger] self.open(j) == old(self).open(j),
                forall|e: int, j: int| 0 <= e < 9 && 0 <= j < 81 ==> #[trigger] self.cand(e, j) == (old(self).cand(e, j) && !(j == c
                    && e < d && mask_has(rm, (e + 1) as u8))),
                did == exists|e: int| 0 <= e < d && #[trigger] mask_has(rm, (e + 1) as u8),
                did ==> self.measure() < old(self).measure(),
                !did ==> *self == *old(self),
            decreases 9 - d,
        {
            proof {
                crate::grid::lemma_mask_test(rm, (d + 1) as u8);
            }
            if rm & (1u16 << (d as u16)) != 0 {
                proof {
                    assert(mask_has(rm, (d + 1) as u8));
                    assert(self.cand(d as int, c as int));
                    assert(in_r(br, c as int));
                }
                self.clear_digit(d, br, bc);
                did = true;
            }
            d += 1;
        }
        did
    }

    /// Naked subset of `size`: `size` undecided cells of a unit whose candidates
    /// together are exactly `size` digits; those digits leave the unit's other
    /// undecided cells. Returns at the first subset that eliminates something.
    fn naked_subset(&mut self, size: usize) -> (r: bool)
        requires
            old(self).wf(),
            2 <= size <= 4,
        ensures
            shrinks(*old(self), *final(self)),
            r ==> final(self).measure() < old(self).measure(),
            !r ==> *final(self) == *old(self),
            keeps_records(*old(self), *final(self)),
            !r ==> forall|u: int, ks: Seq<int>, ms: Seq<u16>| 0 <= u < 27 ==> !#[trigger] naked_subset_at(*old(self), u, size as int, ks, ms),
    {
        let mut u: usize = 0;
        while u < 27
            invariant
                0 <= u <= 27,
                2 <= size <= 4,
                self.wf(),
                *self == *old(self),
                forall|u2: int, ks: Seq<int>, ms: Seq<u16>| 0 <= u2 < u ==> !#[trigger] naked_subset_at(*self, u2, size as int, ks, ms),
            decreases 27 - u,
        {
            let cells = unit_cells(u);
            let ghost mut sl: Seq<int> = Seq::empty();
            let mut cand_cells: [usize; 9] = [0; 9];
            let mut cand_masks: [u16; 9] = [0; 9];
            let mut n: usize = 0;
            let mut k: usize = 0;
            while k < 9
                invariant
                    0 <= k <= 9,
                    n <= k,
                    2 <= size <= 4,
                    self.wf(),
                    *self == *old(self),
                    forall|q: int| 0 <= q < 9 ==> #[trigger] cells[q] < 81,
                    forall|q: int| 0 <= q < 9 ==> #[trigger] cand_cells[q] < 81,
                    u < 27,
                    forall|q: int| 0 <= q < 9 ==> #[trigger] cells[q] == crate::grid::unit_cell(u as int, q),
                    sl.len() == n,
                    forall|i: int, j: int| 0 <= i < j < n ==> #[trigger] sl[i] < #[trigger] sl[j],
                    forall|i: int| 0 <= i < n ==> 0 <= #[trigger] sl[i] < k && cand_cells[i] == cells[sl[i]] && self.open(cells[sl[i]] as int)
                        && is_cand_mask(*self, cells[sl[i]] as int, cand_masks[i]) && 2 <= crate::grid::ones16(cand_masks[i] & 0x1FF) <= size,
                    forall|kk: int, m: u16| 0 <= kk < k && self.open(cells[kk] as int) && #[trigger] is_cand_mask(*self, cells[kk] as int, m) && 2
                        <= crate::grid::ones16(m & 0x1FF) <= size ==> sl.contains(kk),
                decreases 9 - k,
            {
                let c = cells[k];
                let cb = bit_r(c);
                proof {
                    lemma_ok_ops(self.unsolved_r, cb);
                }
                let x = band_and(self.unsolved_r, cb);
                proof {
                    assert forall|j: int| 0 <= j < 81 implies #[trigger] has_pos(x, j) == (j == c && self.open(c as int)) by {
                        lemma_pos_and(x, self.unsolved_r, cb, j);
                        assert(in_r(cb, j) == (j == c));
                    }
                }
                let ghost sl0 = sl;
                if nonzero(x) {
                    let m = self.cell_candidates(c);
                    let pc = crate::grid::popcount(m);
                    if pc >= 2 && pc as usize <= size {
                        cand_cells[n] = c;
                        cand_masks[n] = m;
                        proof {
                            sl = sl.push(k as int);
                        }
                        n += 1;
                    }
                    proof {
                        assert forall|kk: int, m2: u16| 0 <= kk < k + 1 && self.open(cells[kk] as int) && #[trigger] is_cand_mask(
                            *self,
                            cells[kk] as int,
                            m2,
                        ) && 2 <= crate::grid::ones16(m2 & 0x1FF) <= size implies sl.contains(kk) by {
                            if kk == k {
                                lemma_cand_mask_unique(*self, c as int, m, m2);
                                assert(sl[sl.len() - 1] == k);
                            } else {
                                assert(sl0.contains(kk));
                                let w = choose|w: int| 0 <= w < sl0.len() && sl0[w] == kk;
                                assert(sl[w] == kk);
                            }
                        }
                    }
                } else {
                    proof {
                        assert(!has_pos(x, c as int));
                    }
                }
                k += 1;
            }
            if n >= size {
                let combos = combinations(n, size);
                let mut ci: usize = 0;
                while ci < combos.len()
                    invariant
                        0 <= ci <= combos@.len(),
                        n <= 9,
                        2 <= size <= 4,
                        self.wf(),
                        *self == *old(self),
                        forall|q: int| 0 <= q < 9 ==> #[trigger] cells[q] < 81,
                        forall|q: int| 0 <= q < 9 ==> #[trigger] cand_cells[q] < 81,
                        forall|i: int, a: int| 0 <= i < combos@.len() && 0 <= a < size ==> #[trigger] combos@[i][a] < n,
                        forall|i: int| 0 <= i < combos@.len() ==> crate::bb::is_combo(#[trigger] combos@[i], n, size),
                        u < 27,
                        forall|q: int| 0 <= q < 9 ==> #[trigger] cells[q] == crate::grid::unit_cell(u as int, q),
                        sl.len() == n,
                        forall|i: int, j: int| 0 <= i < j < n ==> #[trigger] sl[i] < #[trigger] sl[j],
                        forall|i: int| 0 <= i < n ==> 0 <= #[trigger] sl[i] < 9 && cand_cells[i] == cells[sl[i]] && self.open(cells[sl[i]] as int)
                            && is_cand_mask(*self, cells[sl[i]] as int, cand_masks[i]) && 2 <= crate::grid::ones16(cand_masks[i] & 0x1FF) <= size,
                        forall|kk: int, m: u16| 0 <= kk < 9 && self.open(cells[kk] as int) && #[trigger] is_cand_mask(*self, cells[kk] as int, m) && 2
                            <= crate::grid::ones16(m & 0x1FF) <= size ==> sl.contains(kk),
                        forall|u2: int, ks: Seq<int>, ms: Seq<u16>| 0 <= u2 < u ==> !#[trigger] naked_subset_at(*self, u2, size as int, ks, ms),
                        forall|c2: int| 0 <= c2 < ci ==> !#[trigger] naked_subset_at(
                            *self,
                            u as int,
                            size as int,
                            slots_of(sl, combos@[c2], size as int),
                            masks_of(cand_masks@, combos@[c2], size as int),
                        ),
                    decreases combos@.len() - ci,
                {
                    let combo = combos[ci];
                    let mut union: u16 = 0;
                    let mut a: usize = 0;
                    while a < size
                        invariant
                            0 <= a <= size,
                            size <= 4,
                            n <= 9,
                            forall|x: int| 0 <= x < size ==> #[trigger] combo[x] < n,
                            union == or_masks(masks_of(cand_masks@, combo, size as int), a as int),
                        decreases size - a,
                    {
                        union = union | cand_masks[combo[a]];
                        a += 1;
                    }
                    let ghost ks = slots_of(sl, combo, size as int);
                    let ghost ms = masks_of(cand_masks@, combo, size as int);
                    if crate::grid::popcount(union) as usize == size {
                        let mut did = false;
                        proof {
                            lemma_keeps_refl(*self);
                        }
                        let mut k: usize = 0;
                        while k < 9
                            invariant
                                0 <= k <= 9,
                                2 <= size <= 4,
                                n <= 9,
                                self.wf(),
                                forall|q: int| 0 <= q < 9 ==> #[trigger] cells[q] < 81,
                                forall|q: int| 0 <= q < 9 ==> #[trigger] cand_cells[q] < 81,
                                forall|x: int| 0 <= x < size ==> #[trigger] combo[x] < n,
                                shrinks(*old(self), *self),
                                keeps_records(*old(self), *self),
                                did ==> self.measure() < old(self).measure(),
                                !did ==> *self == *old(self),
                                union == or_masks(ms, size as int),
                                ks == slots_of(sl, combo, size as int),
                                u < 27,
                                forall|q: int| 0 <= q < 9 ==> #[trigger] cells[q] == crate::grid::unit_cell(u as int, q),
                                sl.len() == n,
                                forall|i: int| 0 <= i < n ==> 0 <= #[trigger] sl[i] < 9 && cand_cells[i] == cells[sl[i]],
                                !did ==> forall|kk: int, e: u8| 0 <= kk < k && !ks.contains(kk) && 1 <= e <= 9 && self.open(#[trigger] crate::grid::unit_cell(
                                    u as int,
                                    kk,
                                )) && self.cand(e - 1, crate::grid::unit_cell(u as int, kk)) ==> !#[trigger] mask_has(union, e),
                            decreases 9 - k,
                        {
                            let c = cells[k];
                            let cb = bit_r(c);
                            proof {
                                lemma_ok_ops(self.unsolved_r, cb);
                            }
                            let xo = band_and(self.unsolved_r, cb);
                            proof {
                                assert forall|j: int| 0 <= j < 81 implies #[trigger] has_pos(xo, j) == (j == c && self.open(c as int)) by {
                                    lemma_pos_and(xo, self.unsolved_r, cb, j);
                                    assert(in_r(cb, j) == (j == c));
                                }
                            }
                            let ghost did0 = did;
                            if nonzero(xo) {
                                let mut in_combo = false;
                                let mut a: usize = 0;
                                while a < size
                                    invariant
                                        0 <= a <= size,
                                        2 <= size <= 4,
                                        n <= 9,
                                        k < 9,
                                        forall|x: int| 0 <= x < size ==> #[trigger] combo[x] < n,
                                        u < 27,
                                        forall|q: int| 0 <= q < 9 ==> #[trigger] cells[q] == crate::grid::unit_cell(u as int, q),
                                        sl.len() == n,
                                        forall|i: int| 0 <= i < n ==> 0 <= #[trigger] sl[i] < 9 && cand_cells[i] == cells[sl[i]],
                                        ks == slots_of(sl, combo, size as int),
                                        c == cells[k as int],
                                        in_combo == exists|a2: int| 0 <= a2 < a && #[trigger] ks[a2] == k,
                                    decreases size - a,
                                {
                                    proof {
                                        let kk = ks[a as int];
                                        assert(kk == sl[combo[a as int] as int]);
                                        assert(0 <= kk < 9);
                                        crate::probe::techniques::lemma_unit_cell_bound(u as int, kk);
                                        crate::probe::techniques::lemma_unit_cell_bound(u as int, k as int);
                                        if kk != k {
                                            crate::grid::lemma_unit_peers(u as int, kk, k as int);
                                        }
                                        assert((cand_cells[combo[a as int] as int] == c) == (kk == k));
                                    }
                                    if cand_cells[combo[a]] == c {
                                        in_combo = true;
                                    }
                                    a += 1;
                                }
                                proof {
                                    assert(in_combo == ks.contains(k as int)) by {
                                        if ks.contains(k as int) {
                                            let w = choose|w: int| 0 <= w < ks.len() && ks[w] == k;
                                        }
                                    }
                                }
                                if !in_combo {
                                    let m = self.cell_candidates(c);
                                    let rm = m & union;
                                    proof {
                                        assert forall|e: int| 0 <= e < 9 && #[trigger] mask_has(rm, (e + 1) as u8) implies self.cand(e, c as int) by {
                                            crate::bits::lemma_bit16_and(m, union, e as u16);
                                            assert(mask_has(m, (e + 1) as u8) == self.cand(((e + 1) as u8 - 1) as int, c as int));
                                        }
                                    }
                                    proof {
                                        if rm == 0 {
                                            assert forall|e: u8| 1 <= e <= 9 && self.cand(e - 1, c as int) implies !#[trigger] mask_has(union, e) by {
                                                crate::bits::lemma_bit16_and(m, union, (e - 1) as u16);
                                                crate::bits::lemma_bit16_zero((e - 1) as u16);
                                                assert(mask_has(m, e));
                                            }
                                        }
                                    }
                                    if rm != 0 {
                                        let ghost s0 = *self;
                                        let hit = self.clear_mask_at(c, rm);
                                        proof {
                                            lemma_keeps_elim(s0, *self);
                                            lemma_keeps_trans(*old(self), s0, *self);
                                        }
                                        proof {
                                            if !hit {
                                                assert forall|x: u16| x < 16 implies #[trigger] crate::bits::bit16(rm, x) == crate::bits::bit16(0u16, x) by {
                                                    crate::bits::lemma_bit16_and(m, union, x);
                                                    crate::bits::lemma_bit16_zero(x);
                                                    if x < 9 {
                                                        assert(!mask_has(rm, (x + 1) as u8));
                                                    } else {
                                                        crate::bits::lemma_bit16_low9(m, x);
                                                    }
                                                }
                                                crate::bits::lemma_bit16_ext(rm, 0);
                                            }
                                        }
                                        did = true;
                                    }
                                }
                            }
                            proof {
                                if !did {
                                    assert forall|kk: int, e: u8| 0 <= kk < k + 1 && !ks.contains(kk) && 1 <= e <= 9 && self.open(
                                        #[trigger] crate::grid::unit_cell(u as int, kk),
                                    ) && self.cand(e - 1, crate::grid::unit_cell(u as int, kk)) implies !#[trigger] mask_has(union, e) by {
                                        if kk == k {
                                            assert(cells[k as int] == crate::grid::unit_cell(u as int, kk));
                                            assert(has_pos(xo, c as int));
                                        }
                                    }
                                }
                            }
                            k += 1;
                        }
                        if did {
                            return true;
                        }
                        proof {
                            assert(!naked_subset_at(*self, u as int, size as int, ks, ms));
                        }
                    }
                    proof {
                        assert(!naked_subset_at(*self, u as int, size as int, ks, ms));
                    }
                    ci += 1;
                }
                proof {
                    assert forall|ks2: Seq<int>, ms2: Seq<u16>| !#[trigger] naked_subset_at(*self, u as int, size as int, ks2, ms2) by {
                        if naked_subset_at(*self, u as int, size as int, ks2, ms2) {
                            let tt = lemma_subset_positions(*self, u as int, size as int, ks2, ms2, sl, cand_masks@, cells, n as int);
                            assert(combos@.contains(tt));
                            let w = choose|w: int| 0 <= w < combos@.len() && combos@[w] == tt;
                            assert(!naked_subset_at(
                                *self,
                                u as int,
                                size as int,
                                slots_of(sl, combos@[w], size as int),
                                masks_of(cand_masks@, combos@[w], size as int),
                            ));
                        }
                    }
                }
            } else {
                proof {
                    assert forall|ks2: Seq<int>, ms2: Seq<u16>| !#[trigger] naked_subset_at(*self, u as int, size as int, ks2, ms2) by {
                        if naked_subset_at(*self, u as int, size as int, ks2, ms2) {
                            let tt = lemma_subset_positions(*self, u as int, size as int, ks2, ms2, sl, cand_masks@, cells, n as int);
                        }
                    }
                }
            }
            u += 1;
        }
        proof {
            lemma_keeps_refl(*self);
        }
        false
    }

    /// Hidden subset of `size`: `size` digits confined to the same `size`
    /// undecided cells of a unit; every other digit leaves those cells. Returns
    /// at the first subset that eliminates something.
    fn hidden_subset(&mut self, size: usize) -> (r: bool)
        requires
            old(self).wf(),
            2 <= size <= 4,
        ensures
            shrinks(*old(self), *final(self)),
            r ==> final(self).measure() < old(self).measure(),
            !r ==> *final(self) == *old(self),
            keeps_records(*old(self), *final(self)),
            !r ==> forall|u: int, ds: Seq<int>, ps: Seq<u16>| 0 <= u < 27 ==> !#[trigger] hidden_subset_at(*old(self), u, size as int, ds, ps),
    {
        let mut u: usize = 0;
        while u < 27
            invariant
                0 <= u <= 27,
                2 <= size <= 4,
                self.wf(),
                *self == *old(self),
                forall|u2: int, ds: Seq<int>, ps: Seq<u16>| 0 <= u2 < u ==> !#[trigger] hidden_subset_at(*self, u2, size as int, ds, ps),
            decreases 27 - u,
        {
            let cells = unit_cells(u);
            let mut pos: [u16; 9] = [0; 9];
            proof {
                assert forall|d: int, q: u16| 0 <= d < 9 && q < 16 implies !#[trigger] crate::bits::bit16(pos[d], q) by {
                    crate::bits::lemma_bit16_zero(q);
                }
            }
            let mut k: usize = 0;
            while k < 9
                invariant
                    0 <= k <= 9,
                    2 <= size <= 4,
                    self.wf(),
                    *self == *old(self),
                    forall|q: int| 0 <= q < 9 ==> #[trigger] cells[q] < 81,
                    u < 27,
                    forall|q: int| 0 <= q < 9 ==> #[trigger] cells[q] == crate::grid::unit_cell(u as int, q),
                    forall|d: int, q: u16| 0 <= d < 9 && q < 16 ==> #[trigger] crate::bits::bit16(pos[d], q) == (q < k && self.open(
                        cells[q as int] as int,
                    ) && self.cand(d, cells[q as int] as int)),
                decreases 9 - k,
            {
                let c = cells[k];
                let cb = bit_r(c);
                proof {
                    lemma_ok_ops(self.unsolved_r, cb);
                }
                let xo = band_and(self.unsolved_r, cb);
                proof {
                    assert forall|j: int| 0 <= j < 81 implies #[trigger] has_pos(xo, j) == (j == c && self.open(c as int)) by {
                        lemma_pos_and(xo, self.unsolved_r, cb, j);
                        assert(in_r(cb, j) == (j == c));
                    }
                }
                if nonzero(xo) {
                    let m = self.cell_candidates(c);
                    let mut d: usize = 0;
                    while d < 9
                        invariant
                            0 <= d <= 9,
                            k < 9,
                            c == cells[k as int],
                            self.open(c as int),
                            forall|e: u8| 1 <= e <= 9 ==> #[trigger] mask_has(m, e) == self.cand(e - 1, c as int),
                            forall|d2: int, q: u16| 0 <= d2 < 9 && q < 16 ==> #[trigger] crate::bits::bit16(pos[d2], q) == (if d2 < d {
                                q < k + 1 && self.open(cells[q as int] as int) && self.cand(d2, cells[q as int] as int)
                            } else {
                                q < k && self.open(cells[q as int] as int) && self.cand(d2, cells[q as int] as int)
                            }),
                        decreases 9 - d,
                    {
                        proof {
                            crate::bits::lemma_bit16_test(m, d as u16);
                            assert(mask_has(m, (d + 1) as u8) == self.cand(d as int, c as int));
                        }
                        let ghost p0 = pos;
                        if m & (1u16 << (d as u16)) != 0 {
                            pos[d] = pos[d] | (1u16 << (k as u16));
                            proof {
                                assert forall|q: u16| q < 16 implies #[trigger] crate::bits::bit16(pos[d as int], q) == (q < k + 1 && self.open(
                                    cells[q as int] as int,
                                ) && self.cand(d as int, cells[q as int] as int)) by {
                                    crate::bits::lemma_bit16_or(p0[d as int], 1u16 << (k as u16), q);
                                    crate::bits::lemma_bit16_one(k as u16, q);
                                }
                            }
                        }
                        proof {
                            assert forall|d2: int, q: u16| 0 <= d2 < 9 && q < 16 implies #[trigger] crate::bits::bit16(pos[d2], q) == (if d2 < d + 1 {
                                q < k + 1 && self.open(cells[q as int] as int) && self.cand(d2, cells[q as int] as int)
                            } else {
                                q < k && self.open(cells[q as int] as int) && self.cand(d2, cells[q as int] as int)
                            }) by {
                                if d2 != d {
                                    assert(pos[d2] == p0[d2]);
                                }
                            }
                        }
                        d += 1;
                    }
                } else {
                    proof {
                        assert(!has_pos(xo, c as int));
                    }
                }
                k += 1;
            }
            proof {
                assert forall|d: int| 0 <= d < 9 implies is_pos_mask(*self, u as int, d, #[trigger] pos[d]) by {
                    assert forall|q: u16| q < 16 implies #[trigger] crate::bits::bit16(pos[d], q) == (q < 9 && self.open(
                        crate::grid::unit_cell(u as int, q as int),
                    ) && self.cand(d, crate::grid::unit_cell(u as int, q as int))) by {
                        if q < 9 {
                            assert(cells[q as int] == crate::grid::unit_cell(u as int, q as int));
                        }
                    }
                }
            }
            let mut digits: [usize; 9] = [0; 9];
            let mut n: usize = 0;
            let mut d: usize = 0;
            let ghost mut dl: Seq<int> = Seq::empty();
            while d < 9
                invariant
                    0 <= d <= 9,
                    n <= d,
                    2 <= size <= 4,
                    forall|q: int| 0 <= q < 9 ==> #[trigger] digits[q] < 9,
                    dl.len() == n,
                    forall|i: int, j: int| 0 <= i < j < n ==> #[trigger] dl[i] < #[trigger] dl[j],
                    forall|i: int| 0 <= i < n ==> 0 <= #[trigger] dl[i] < d && digits[i] == dl[i],
                    forall|d2: int| 0 <= d2 < d && 2 <= crate::grid::ones16(#[trigger] pos[d2] & 0x1FF) <= size ==> dl.contains(d2),
                decreases 9 - d,
            {
                let pc = crate::grid::popcount(pos[d]);
                let ghost dl0 = dl;
                if pc >= 2 && pc as usize <= size {
                    digits[n] = d;
                    proof {
                        dl = dl.push(d as int);
                    }
                    n += 1;
                }
                proof {
                    assert forall|d2: int| 0 <= d2 < d + 1 && 2 <= crate::grid::ones16(#[trigger] pos[d2] & 0x1FF) <= size implies dl.contains(d2) by {
                        if d2 == d {
                            assert(dl[dl.len() - 1] == d);
                        } else {
                            let w = choose|w: int| 0 <= w < dl0.len() && dl0[w] == d2;
                            assert(dl[w] == d2);
                        }
                    }
                }
                d += 1;
            }
            if n >= size {
                let combos = combinations(n, size);
                let mut ci: usize = 0;
                while ci < combos.len()
                    invariant
                        0 <= ci <= combos@.len(),
                        n <= 9,
                        2 <= size <= 4,
                        self.wf(),
                        *self == *old(self),
                        forall|q: int| 0 <= q < 9 ==> #[trigger] cells[q] < 81,
                        forall|q: int| 0 <= q < 9 ==> #[trigger] digits[q] < 9,
                        forall|i: int, a: int| 0 <= i < combos@.len() && 0 <= a < size ==> #[trigger] combos@[i][a] < n,
                        forall|i: int| 0 <= i < combos@.len() ==> crate::bb::is_combo(#[trigger] combos@[i], n, size),
                        u < 27,
                        forall|q: int| 0 <= q < 9 ==> #[trigger] cells[q] == crate::grid::unit_cell(u as int, q),
                        forall|d2: int| 0 <= d2 < 9 ==> is_pos_mask(*self, u as int, d2, #[trigger] pos[d2]),
                        dl.len() == n,
                        forall|i: int, j: int| 0 <= i < j < n ==> #[trigger] dl[i] < #[trigger] dl[j],
                        forall|i: int| 0 <= i < n ==> 0 <= #[trigger] dl[i] < 9 && digits[i] == dl[i],
                        forall|d2: int| 0 <= d2 < 9 && 2 <= crate::grid::ones16(#[trigger] pos[d2] & 0x1FF) <= size ==> dl.contains(d2),
                        forall|u2: int, ds: Seq<int>, ps: Seq<u16>| 0 <= u2 < u ==> !#[trigger] hidden_subset_at(*self, u2, size as int, ds, ps),
                        forall|c2: int| 0 <= c2 < ci ==> !#[trigger] hidden_subset_at(
                            *self,
                            u as int,
                            size as int,
                            slots_of(dl, combos@[c2], size as int),
                            picked_masks(dl, pos@, combos@[c2], size as int),
                        ),
                    decreases combos@.len() - ci,
                {
                    let combo = combos[ci];
                    let mut union: u16 = 0;
                    let mut keep: u16 = 0;
                    proof {
                        assert forall|e: u16| e < 16 implies !#[trigger] crate::bits::bit16(keep, e) by {
                            crate::bits::lemma_bit16_zero(e);
                        }
                    }
                    let mut a: usize = 0;
                    while a < size
                        invariant
                            0 <= a <= size,
                            size <= 4,
                            n <= 9,
                            forall|x: int| 0 <= x < size ==> #[trigger] combo[x] < n,
                            forall|q: int| 0 <= q < 9 ==> #[trigger] digits[q] < 9,
                            forall|i: int| 0 <= i < n ==> 0 <= #[trigger] dl[i] < 9 && digits[i] == dl[i],
                            union == or_masks(picked_masks(dl, pos@, combo, size as int), a as int),
                            forall|e: u16| e < 16 ==> #[trigger] crate::bits::bit16(keep, e) == exists|a2: int| 0 <= a2 < a && #[trigger] slots_of(
                                dl,
                                combo,
                                size as int,
                            )[a2] == e,
                        decreases size - a,
                    {
                        let dg = digits[combo[a]];
                        let ghost k0 = keep;
                        union = union | pos[dg];
                        keep = keep | (1u16 << (dg as u16));
                        proof {
                            assert forall|e: u16| e < 16 implies #[trigger] crate::bits::bit16(keep, e) == exists|a2: int| 0 <= a2 < a + 1
                                && #[trigger] slots_of(dl, combo, size as int)[a2] == e by {
                                crate::bits::lemma_bit16_or(k0, 1u16 << (dg as u16), e);
                                crate::bits::lemma_bit16_one(dg as u16, e);
                                assert(slots_of(dl, combo, size as int)[a as int] == dg);
                            }
                        }
                        a += 1;
                    }
                    let ghost ds = slots_of(dl, combo, size as int);
                    let ghost ps = picked_masks(dl, pos@, combo, size as int);
                    if crate::grid::popcount(union) as usize == size {
                        let mut did = false;
                        proof {
                            lemma_keeps_refl(*self);
                        }
                        let mut k: usize = 0;
                        while k < 9
                            invariant
                                0 <= k <= 9,
                                self.wf(),
                                forall|q: int| 0 <= q < 9 ==> #[trigger] cells[q] < 81,
                                shrinks(*old(self), *self),
                                keeps_records(*old(self), *self),
                                did ==> self.measure() < old(self).measure(),
                                !did ==> *self == *old(self),
                                2 <= size <= 4,
                                u < 27,
                                forall|q: int| 0 <= q < 9 ==> #[trigger] cells[q] == crate::grid::unit_cell(u as int, q),
                                forall|e: u16| e < 16 ==> #[trigger] crate::bits::bit16(keep, e) == exists|a2: int| 0 <= a2 < size && #[trigger] ds[a2] == e,
                                ds.len() == size,
                                !did ==> forall|kk: u16, e: int| kk < k && #[trigger] crate::bits::bit16(union, kk) && 0 <= e < 9 && !ds.contains(e)
                                    && self.open(crate::grid::unit_cell(u as int, kk as int)) ==> !#[trigger] self.cand(e, crate::grid::unit_cell(u as int, kk as int)),
                            decreases 9 - k,
                        {
                            proof {
                                crate::bits::lemma_bit16_test(union, k as u16);
                            }
                            if union & (1u16 << (k as u16)) != 0 {
                                let c = cells[k];
                                let m = self.cell_candidates(c);
                                let rm = m & !keep;
                                proof {
                                    if rm == 0 {
                                        assert forall|e: int| 0 <= e < 9 && !ds.contains(e) implies !#[trigger] self.cand(e, c as int) by {
                                            crate::bits::lemma_bit16_and(m, !keep, e as u16);
                                            crate::bits::lemma_bit16_not(keep, e as u16);
                                            crate::bits::lemma_bit16_zero(e as u16);
                                            assert(mask_has(m, (e + 1) as u8) == self.cand(e, c as int));
                                            assert(mask_has(m, (e + 1) as u8) == crate::bits::bit16(m, e as u16));
                                            if self.cand(e, c as int) {
                                                assert(crate::bits::bit16(keep, e as u16));
                                                let a2 = choose|a2: int| 0 <= a2 < size && #[trigger] ds[a2] == e as u16;
                                                assert(ds[a2] == e);
                                                assert(ds.contains(e));
                                            }
                                        }
                                    }
                                }
                                proof {
                                    assert forall|e: int| 0 <= e < 9 && #[trigger] mask_has(rm, (e + 1) as u8) implies self.cand(e, c as int) by {
                                        crate::bits::lemma_bit16_and(m, !keep, e as u16);
                                        assert(mask_has(m, (e + 1) as u8) == self.cand(((e + 1) as u8 - 1) as int, c as int));
                                    }
                                }
                                if rm != 0 {
                                    let ghost s0 = *self;
                                    let hit = self.clear_mask_at(c, rm);
                                        proof {
                                            lemma_keeps_elim(s0, *self);
                                            lemma_keeps_trans(*old(self), s0, *self);
                                        }
                                    proof {
                                        if !hit {
                                            assert forall|x: u16| x < 16 implies #[trigger] crate::bits::bit16(rm, x) == crate::bits::bit16(0u16, x) by {
                                                crate::bits::lemma_bit16_and(m, !keep, x);
                                                crate::bits::lemma_bit16_zero(x);
                                                if x < 9 {
                                                    assert(!mask_has(rm, (x + 1) as u8));
                                                } else {
                                                    crate::bits::lemma_bit16_low9(m, x);
                                                }
                                            }
                                            crate::bits::lemma_bit16_ext(rm, 0);
                                        }
                                    }
                                    did = true;
                                }
                            }
                            proof {
                                if !did {
                                    assert forall|kk: u16, e: int| kk < k + 1 && #[trigger] crate::bits::bit16(union, kk) && 0 <= e < 9 && !ds.contains(e)
                                        && self.open(crate::grid::unit_cell(u as int, kk as int)) implies !#[trigger] self.cand(
                                        e,
                                        crate::grid::unit_cell(u as int, kk as int),
                                    ) by {
                                        if kk == k {
                                            assert(cells[k as int] == crate::grid::unit_cell(u as int, kk as int));
                                        }
                                    }
                                }
                            }
                            k += 1;
                        }
                        if did {
                            return true;
                        }
                    }
                    proof {
                        assert(!hidden_subset_at(*self, u as int, size as int, ds, ps));
                    }
                    ci += 1;
                }
                proof {
                    assert forall|ds2: Seq<int>, ps2: Seq<u16>| !#[trigger] hidden_subset_at(*self, u as int, size as int, ds2, ps2) by {
                        if hidden_subset_at(*self, u as int, size as int, ds2, ps2) {
                            let tt = lemma_hidden_positions(*self, u as int, size as int, ds2, ps2, dl, pos@, n as int);
                            assert(combos@.contains(tt));
                            let w = choose|w: int| 0 <= w < combos@.len() && combos@[w] == tt;
                            assert(!hidden_subset_at(
                                *self,
                                u as int,
                                size as int,
                                slots_of(dl, combos@[w], size as int),
                                picked_masks(dl, pos@, combos@[w], size as int),
                            ));
                        }
                    }
                }
            } else {
                proof {
                    assert forall|ds2: Seq<int>, ps2: Seq<u16>| !#[trigger] hidden_subset_at(*self, u as int, size as int, ds2, ps2) by {
                        if hidden_subset_at(*self, u as int, size as int, ds2, ps2) {
                            let tt = lemma_hidden_positions(*self, u as int, size as int, ds2, ps2, dl, pos@, n as int);
                        }
                    }
                }
            }
            u += 1;
        }
        proof {
            lemma_keeps_refl(*self);
        }
        false
    }
}

/// The cell at bit `k` of band `b` in the row-major (`rm`) or column-major
/// banding.
pub open spec fn band_cell(rm: bool, b: int, k: int) -> int {
    if rm {
        27 * b + k
    } else {
        tr(27 * b + k)
    }
}

/// Band `b`, bit `k` is position `27b + k`.
proof fn lemma_band_pos(b: int, k: int)
    requires
        0 <= b < 3,
        0 <= k < 27,
    ensures
        (27 * b + k) / 27 == b,
        (27 * b + k) % 27 == k,
        0 <= 27 * b + k < 81,
        0 <= tr(27 * b + k) < 81,
        tr(tr(27 * b + k)) == 27 * b + k,
{
    lemma_pos(27 * b + k);
    lemma_tr(27 * b + k);
}

/// Cell `x` of line `rr` of band `b` is the cell at bit `9 rr + x` of the band:
/// a row in the row-major banding, a column in the column-major one.
proof fn lemma_line_cell(rm: bool, b: int, rr: int, x: int)
    requires
        0 <= b < 3,
        0 <= rr < 3,
        0 <= x < 9,
    ensures
        crate::grid::unit_cell(if rm { 3 * b + rr } else { 9 + 3 * b + rr }, x) == band_cell(rm, b, 9 * rr + x),
        0 <= band_cell(rm, b, 9 * rr + x) < 81,
{
    let p = 27 * b + 9 * rr + x;
    vstd::arithmetic::div_mod::lemma_fundamental_div_mod_converse(p, 9, 3 * b + rr, x);
}

/// Cell `x` of box `kk` of row band `b` is the cell at bit
/// `9 (x / 3) + 3 kk + x % 3` of the band.
proof fn lemma_box_cell(b: int, kk: int, x: int)
    requires
        0 <= b < 3,
        0 <= kk < 3,
        0 <= x < 9,
    ensures
        crate::grid::unit_cell(18 + 3 * b + kk, x) == band_cell(true, b, (x / 3) * 9 + 3 * kk + x % 3),
        0 <= band_cell(true, b, (x / 3) * 9 + 3 * kk + x % 3) < 81,
{
    vstd::arithmetic::div_mod::lemma_fundamental_div_mod_converse(3 * b + kk, 3, b, kk);
    assert(0 <= x / 3 < 3 && 0 <= x % 3 < 3);
}

/// A digit with a single undecided candidate on a line of a band sits there in
/// every agreeing grid.
proof fn lemma_line_home(bb: BitBoard, s: Seq<u8>, rm: bool, b: int, rr: int, d: int, live: u32, sx: u32)
    requires
        agrees(s, bb),
        0 <= b < 3,
        0 <= rr < 3,
        0 <= d < 9,
        forall|k: u32| k < 27 ==> #[trigger] bit32(live, k) == (bb.cand(d, band_cell(rm, b, k as int)) && bb.open(
            band_cell(rm, b, k as int),
        )),
        sx < 9,
        bit32((live >> ((9 * rr) as u32)) & 0x1FFu32, sx),
        forall|s2: u32| s2 < 32 && #[trigger] bit32((live >> ((9 * rr) as u32)) & 0x1FFu32, s2) ==> s2 == sx,
    ensures
        s[band_cell(rm, b, 9 * rr + sx)] == d + 1,
{
    let u = if rm { 3 * b + rr } else { 9 + 3 * b + rr };
    let sh = (9 * rr) as u32;
    let cell = band_cell(rm, b, 9 * rr + sx);
    crate::bits::lemma_bit32_chunk9(live, sh, sx);
    assert(bit32(live, (sh + sx) as u32));
    lemma_line_cell(rm, b, rr, sx as int);
    assert forall|x: int| 0 <= x < 9 && bb.open(#[trigger] crate::grid::unit_cell(u, x)) && bb.cand(d, crate::grid::unit_cell(u, x))
        implies crate::grid::unit_cell(u, x) == cell by {
        lemma_line_cell(rm, b, rr, x);
        crate::bits::lemma_bit32_chunk9(live, sh, x as u32);
        assert(bit32(live, (sh + x) as u32));
    }
    lemma_lone_home(bb, s, u, d, cell);
}

/// A digit with one undecided candidate cell in a line of band `b` leaves that
/// line's chunk of the band word with a lone bit.
proof fn lemma_line_lone(bb: BitBoard, rm: bool, b: int, rr: int, d: int, live: u32)
    requires
        0 <= b < 3,
        0 <= rr < 3,
        0 <= d < 9,
        forall|k: u32| k < 27 ==> #[trigger] bit32(live, k) == (bb.cand(d, band_cell(rm, b, k as int)) && bb.open(
            band_cell(rm, b, k as int),
        )),
        live_count(bb, d, line_unit(rm, 3 * b + rr), 9) == 1,
    ensures
        crate::layout::lone9((live >> ((9 * rr) as u32)) & 0x1FFu32),
{
    let u = line_unit(rm, 3 * b + rr);
    let sh = (9 * rr) as u32;
    let chunk = (live >> sh) & 0x1FFu32;
    let x = lemma_live_some(bb, d, u, 9);
    lemma_line_cell(rm, b, rr, x);
    crate::bits::lemma_bit32_chunk9(live, sh, x as u32);
    assert(bit32(live, (sh + x) as u32));
    assert forall|s2: u32| s2 < 32 && #[trigger] bit32(chunk, s2) implies s2 == x as u32 by {
        if s2 < 9 {
            crate::bits::lemma_bit32_chunk9(live, sh, s2);
            lemma_line_cell(rm, b, rr, s2 as int);
            assert(bit32(live, (sh + s2) as u32));
            if s2 != x as u32 {
                lemma_live_two(bb, d, u, 9, x, s2 as int);
            }
        } else {
            assert(chunk < 512) by (bit_vector)
                requires
                    chunk == (live >> sh) & 0x1FFu32,
            ;
            crate::layout::lemma_v9(chunk, s2);
        }
    }
    assert(bit32(chunk, x as u32));
}

/// A digit with one undecided candidate cell in box `kk` of row band `b` leaves
/// that box's gathered word with a lone bit.
proof fn lemma_box_lone(bb: BitBoard, b: int, kk: u32, d: int, live: u32)
    requires
        0 <= b < 3,
        kk < 3,
        0 <= d < 9,
        forall|k: u32| k < 27 ==> #[trigger] bit32(live, k) == (bb.cand(d, band_cell(true, b, k as int)) && bb.open(
            band_cell(true, b, k as int),
        )),
        live_count(bb, d, 18 + 3 * b + kk, 9) == 1,
    ensures
        crate::layout::lone9(
            ((live >> (3 * kk)) & 7u32) | (((live >> ((9 + 3 * kk) as u32)) & 7u32) << 3u32) | (((live >> ((18 + 3 * kk) as u32))
                & 7u32) << 6u32),
        ),
{
    let u = 18 + 3 * b + kk;
    let bk = ((live >> (3 * kk)) & 7u32) | (((live >> ((9 + 3 * kk) as u32)) & 7u32) << 3u32) | (((live >> ((18 + 3 * kk) as u32))
        & 7u32) << 6u32);
    let x = lemma_live_some(bb, d, u, 9);
    lemma_box_cell(b, kk as int, x);
    crate::bits::lemma_bit32_gather(live, kk, x as u32);
    assert(bit32(live, ((x / 3) * 9 + 3 * kk + x % 3) as u32));
    assert forall|s2: u32| s2 < 32 && #[trigger] bit32(bk, s2) implies s2 == x as u32 by {
        if s2 < 9 {
            crate::bits::lemma_bit32_gather(live, kk, s2);
            lemma_box_cell(b, kk as int, s2 as int);
            assert(bit32(live, ((s2 / 3) * 9 + 3 * kk + s2 % 3) as u32));
            if s2 != x as u32 {
                lemma_live_two(bb, d, u, 9, x, s2 as int);
            }
        } else {
            crate::bits::lemma_bit32_gather(live, kk, 0);
            crate::layout::lemma_v9(bk, s2);
        }
    }
    assert(bit32(bk, x as u32));
}

/// A digit with a single undecided candidate in a box of a row band sits there
/// in every agreeing grid.
proof fn lemma_box_home(bb: BitBoard, s: Seq<u8>, b: int, kk: u32, d: int, live: u32, su: u32)
    requires
        agrees(s, bb),
        0 <= b < 3,
        kk < 3,
        0 <= d < 9,
        forall|k: u32| k < 27 ==> #[trigger] bit32(live, k) == (bb.cand(d, band_cell(true, b, k as int)) && bb.open(
            band_cell(true, b, k as int),
        )),
        su < 9,
        forall|s2: u32| s2 < 32 && #[trigger] bit32(
            ((live >> (3 * kk)) & 7u32) | (((live >> ((9 + 3 * kk) as u32)) & 7u32) << 3u32) | (((live >> ((18 + 3 * kk) as u32))
                & 7u32) << 6u32),
            s2,
        ) ==> s2 == su,
        bit32(live, ((su / 3) * 9 + 3 * kk + su % 3) as u32),
    ensures
        s[band_cell(true, b, ((su / 3) * 9 + 3 * kk + su % 3) as int)] == d + 1,
{
    let u = 18 + 3 * b + kk;
    let cell = band_cell(true, b, ((su / 3) * 9 + 3 * kk + su % 3) as int);
    lemma_box_cell(b, kk as int, su as int);
    assert forall|x: int| 0 <= x < 9 && bb.open(#[trigger] crate::grid::unit_cell(u, x)) && bb.cand(d, crate::grid::unit_cell(u, x))
        implies crate::grid::unit_cell(u, x) == cell by {
        lemma_box_cell(b, kk as int, x);
        crate::bits::lemma_bit32_gather(live, kk, x as u32);
        assert(bit32(live, ((x / 3) * 9 + 3 * kk + x % 3) as u32));
    }
    lemma_lone_home(bb, s, u, d, cell);
}

impl BitBoard {
    /// The undecided candidate cells of digit `d` in band `b`, as a 27-bit word.
    fn live_word(&self, rm: bool, b: usize, d: usize) -> (w: u32)
        requires
            self.wf(),
            b < 3,
            d < 9,
        ensures
            w < 0x800_0000,
            forall|k: u32| k < 27 ==> #[trigger] bit32(w, k) == (self.cand(d as int, band_cell(rm, b as int, k as int)) && self.open(
                band_cell(rm, b as int, k as int))),
    {
        if rm {
            proof {
                lemma_ok_ops(self.r[d as int], self.unsolved_r);
            }
            let x = band_and(self.r[d], self.unsolved_r);
            proof {
                assert forall|k: u32| k < 27 implies #[trigger] bit32(x[b as int], k) == (self.cand(d as int, band_cell(rm, b as int, k as int))
                    && self.open(band_cell(rm, b as int, k as int))) by {
                    lemma_band_pos(b as int, k as int);
                    lemma_pos_and(x, self.r[d as int], self.unsolved_r, 27 * b + k);
                }
            }
            x[b]
        } else {
            proof {
                assert(band_ok(self.r[d as int]));
                lemma_ok_ops(self.c[d as int], self.unsolved_c);
            }
            let x = band_and(self.c[d], self.unsolved_c);
            proof {
                assert forall|k: u32| k < 27 implies #[trigger] bit32(x[b as int], k) == (self.cand(d as int, band_cell(rm, b as int, k as int))
                    && self.open(band_cell(rm, b as int, k as int))) by {
                    lemma_band_pos(b as int, k as int);
                    let p = 27 * b + k;
                    lemma_pos_and(x, self.c[d as int], self.unsolved_c, p);
                    let j = tr(p);
                    assert(in_c(self.c[d as int], j) == in_r(self.r[d as int], j));
                    assert(in_c(self.unsolved_c, j) == in_r(self.unsolved_r, j));
                }
            }
            x[b]
        }
    }

    /// One banding's fused pass, band by band and digit by digit: with `lc`,
    /// drop the triplets the within-band locked-candidates fixpoint kills; then
    /// place the hidden singles of the band's three lines (and, row-major, its
    /// three boxes), re-reading the band after each change. Returns whether
    /// anything changed, whether a hidden single was placed, and whether a
    /// locked-candidates elimination happened.
    fn band_update(&mut self, rm: bool, lc: bool) -> (r: (bool, bool, bool))
        requires
            old(self).wf(),
        ensures
            shrinks(*old(self), *final(self)),
            r.0 ==> final(self).measure() < old(self).measure(),
            !r.0 ==> *final(self) == *old(self),
            r.1 || r.2 ==> r.0,
            !lc ==> forall|g: Seq<u8>| agrees(g, *old(self)) ==> #[trigger] agrees(g, *final(self)),
            keeps_records(*old(self), *final(self)),
            !r.0 ==> forall|x: int, e: int| 0 <= x < 9 && 0 <= e < 9 ==> #[trigger] live_count(*old(self), e, line_unit(rm, x), 9) != 1,
            !r.0 && rm ==> forall|x: int, e: int| 0 <= x < 9 && 0 <= e < 9 ==> #[trigger] live_count(*old(self), e, 18 + x, 9) != 1,
    {
        proof {
            lemma_keeps_refl(*self);
        }
        let mut changed = false;
        let mut hs = false;
        let mut lcf = false;
        let mut b: usize = 0;
        while b < 3
            invariant
                0 <= b <= 3,
                self.wf(),
                shrinks(*old(self), *self),
                keeps_records(*old(self), *self),
                changed ==> self.measure() < old(self).measure(),
                !changed ==> *self == *old(self),
                hs || lcf ==> changed,
                !lc ==> forall|g: Seq<u8>| agrees(g, *old(self)) ==> #[trigger] agrees(g, *self),
                !changed ==> forall|x: int, e: int| 0 <= x < 3 * b && 0 <= e < 9 ==> #[trigger] live_count(*old(self), e, line_unit(rm, x), 9) != 1,
                !changed && rm ==> forall|x: int, e: int| 0 <= x < 3 * b && 0 <= e < 9 ==> #[trigger] live_count(*old(self), e, 18 + x, 9) != 1,
            decreases 3 - b,
        {
            let mut d: usize = 0;
            while d < 9
                invariant
                    0 <= d <= 9,
                    b < 3,
                    self.wf(),
                    shrinks(*old(self), *self),
                    keeps_records(*old(self), *self),
                    changed ==> self.measure() < old(self).measure(),
                    !changed ==> *self == *old(self),
                    hs || lcf ==> changed,
                    !lc ==> forall|g: Seq<u8>| agrees(g, *old(self)) ==> #[trigger] agrees(g, *self),
                    !changed ==> forall|x: int, e: int| 0 <= e < 9 && (0 <= x < 3 * b || (3 * b <= x < 3 * b + 3 && e < d)) ==> #[trigger] live_count(
                        *old(self),
                        e,
                        line_unit(rm, x),
                        9,
                    ) != 1,
                    !changed && rm ==> forall|x: int, e: int| 0 <= e < 9 && (0 <= x < 3 * b || (3 * b <= x < 3 * b + 3 && e < d)) ==> #[trigger] live_count(
                        *old(self),
                        e,
                        18 + x,
                        9,
                    ) != 1,
                decreases 9 - d,
            {
                let mut live = self.live_word(rm, b, d);
                if lc {
                    let occ = triplet_occ(live);
                    let dropped = drop_trip(occ as u32);
                    if dropped != 0 {
                        let ghost s0 = *self;
                        let mut cleared = false;
                        let mut t: usize = 0;
                        while t < 9
                            invariant
                                0 <= t <= 9,
                                b < 3,
                                d < 9,
                                s0.wf(),
                                self.wf(),
                                shrinks(*old(self), s0),
                                shrinks(s0, *self),
                                keeps_records(*old(self), *self),
                                live < 0x800_0000,
                                occ < 512,
                                sub32(dropped, occ as u32),
                                forall|q: u32| q < 9 ==> #[trigger] bit32(occ as u32, q) == trip(live, q),
                                forall|k: u32| k < 27 ==> #[trigger] bit32(live, k) == (s0.cand(d as int, band_cell(rm, b as int, k as int))
                                    && s0.open(band_cell(rm, b as int, k as int))),
                                cleared ==> self.measure() < s0.measure(),
                                !cleared ==> *self == s0,
                                !cleared ==> forall|q: u32| q < t ==> !#[trigger] bit32(dropped, q),
                            decreases 9 - t,
                        {
                            proof {
                                crate::bits::lemma_bit32_test(dropped, t as u32);
                            }
                            if dropped & (1u32 << (t as u32)) != 0 {
                                let (mr, mc) = lc_trip(rm, b, t);
                                let ghost s1 = *self;
                                proof {
                                    if !cleared {
                                        let tt = t as u32;
                                        lemma_sub32_bits(dropped, occ as u32);
                                        assert(bit32(occ as u32, tt));
                                        assert(trip(live, tt));
                                        crate::bits::lemma_bit32_trip(0, tt);
                                        let k: u32 = if bit32(live, (3 * tt) as u32) {
                                            (3 * tt) as u32
                                        } else if bit32(live, (3 * tt + 1) as u32) {
                                            (3 * tt + 1) as u32
                                        } else {
                                            (3 * tt + 2) as u32
                                        };
                                        assert(bit32(live, k));
                                        let j = band_cell(rm, b as int, k as int);
                                        lemma_band_pos(b as int, k as int);
                                        assert(s0.cand(d as int, j));
                                        assert(bit32(7u32 << (3 * tt), k));
                                        if rm {
                                            assert(has_pos(mr, j));
                                        } else {
                                            assert(has_pos(mc, 27 * b + k));
                                            assert(in_c(mc, j));
                                        }
                                        assert(in_r(mr, j));
                                    }
                                }
                                self.clear_digit(d, mr, mc);
                                proof {
                                    lemma_within_trans(s1, s0, *old(self));
                                    lemma_keeps_elim(s1, *self);
                                    lemma_keeps_trans(*old(self), s1, *self);
                                }
                                cleared = true;
                            }
                            t += 1;
                        }
                        proof {
                            if !cleared {
                                crate::bits::lemma_bit32_nonzero(dropped);
                                let q = choose|q: u32| q < 32 && bit32(dropped, q);
                                lemma_sub32_bits(dropped, occ as u32);
                                assert(bit32(occ as u32, q));
                                if q >= 9 {
                                    crate::layout::lemma_v9(occ as u32, q);
                                }
                            }
                        }
                        changed = true;
                        lcf = true;
                        live = self.live_word(rm, b, d);
                    }
                }
                let mut rr: usize = 0;
                while rr < 3
                    invariant
                        0 <= rr <= 3,
                        b < 3,
                        d < 9,
                        self.wf(),
                        shrinks(*old(self), *self),
                        keeps_records(*old(self), *self),
                        live < 0x800_0000,
                        forall|k: u32| k < 27 ==> #[trigger] bit32(live, k) == (self.cand(d as int, band_cell(rm, b as int, k as int))
                            && self.open(band_cell(rm, b as int, k as int))),
                        changed ==> self.measure() < old(self).measure(),
                        !changed ==> *self == *old(self),
                        hs || lcf ==> changed,
                        !lc ==> forall|g: Seq<u8>| agrees(g, *old(self)) ==> #[trigger] agrees(g, *self),
                        !changed ==> forall|x: int, e: int| 0 <= e < 9 && (0 <= x < 3 * b || (3 * b <= x < 3 * b + 3 && e < d) || (3 * b <= x
                            < 3 * b + rr && e == d)) ==> #[trigger] live_count(*old(self), e, line_unit(rm, x), 9) != 1,
                        !changed && rm ==> forall|x: int, e: int| 0 <= e < 9 && (0 <= x < 3 * b || (3 * b <= x < 3 * b + 3 && e < d)) ==> #[trigger] live_count(
                            *old(self),
                            e,
                            18 + x,
                            9,
                        ) != 1,
                    decreases 3 - rr,
                {
                    let sh = (9 * rr) as u32;
                    let chunk = (live >> sh) & 0x1FFu32;
                    proof {
                        assert(chunk <= 0x1FFu32) by (bit_vector)
                            requires
                                chunk == (live >> sh) & 0x1FFu32,
                        ;
                    }
                    let s = single9(chunk);
                    proof {
                        if s == 0xFF && !changed {
                            if live_count(*self, d as int, line_unit(rm, 3 * b + rr), 9) == 1 {
                                lemma_line_lone(*self, rm, b as int, rr as int, d as int, live);
                            }
                        }
                    }
                    if s != 0xFF {
                        let bit = sh + s as u32;
                        proof {
                            crate::bits::lemma_bit32_chunk9(live, sh, s as u32);
                            assert(bit32(live, bit));
                            lemma_band_pos(b as int, bit as int);
                        }
                        let cell = if rm { rm_cell(b, bit) } else { cm_cell(b, bit) };
                        proof {
                            assert(cell == band_cell(rm, b as int, bit as int));
                            assert(self.open(cell as int));
                        }
                        let ghost pre = *self;
                        self.place(cell, (d + 1) as u8);
                        proof {
                            assert(pre.cand(d as int, cell as int));
                            lemma_keeps_place(pre, *self, cell as int, (d + 1) as u8);
                            lemma_keeps_trans(*old(self), pre, *self);
                            if !lc {
                                assert forall|g: Seq<u8>| agrees(g, *old(self)) implies #[trigger] agrees(g, *self) by {
                                    assert(agrees(g, pre));
                                    lemma_line_home(pre, g, rm, b as int, rr as int, d as int, live, s as u32);
                                    lemma_place_agrees(pre, *self, g, cell as int, (d + 1) as u8);
                                }
                            }
                        }
                        changed = true;
                        hs = true;
                        live = self.live_word(rm, b, d);
                    }
                    rr += 1;
                }
                if rm {
                    let mut k: usize = 0;
                    while k < 3
                        invariant
                            0 <= k <= 3,
                            b < 3,
                            d < 9,
                            rm,
                            self.wf(),
                            shrinks(*old(self), *self),
                            keeps_records(*old(self), *self),
                            live < 0x800_0000,
                            forall|q: u32| q < 27 ==> #[trigger] bit32(live, q) == (self.cand(d as int, band_cell(rm, b as int, q as int))
                                && self.open(band_cell(rm, b as int, q as int))),
                            changed ==> self.measure() < old(self).measure(),
                            !changed ==> *self == *old(self),
                            hs || lcf ==> changed,
                            !lc ==> forall|g: Seq<u8>| agrees(g, *old(self)) ==> #[trigger] agrees(g, *self),
                            !changed ==> forall|x: int, e: int| 0 <= e < 9 && (0 <= x < 3 * b || (3 * b <= x < 3 * b + 3 && e <= d)) ==> #[trigger] live_count(
                                *old(self),
                                e,
                                line_unit(rm, x),
                                9,
                            ) != 1,
                            !changed ==> forall|x: int, e: int| 0 <= e < 9 && (0 <= x < 3 * b || (3 * b <= x < 3 * b + 3 && e < d) || (3 * b <= x
                                < 3 * b + k && e == d)) ==> #[trigger] live_count(*old(self), e, 18 + x, 9) != 1,
                        decreases 3 - k,
                    {
                        let kk = k as u32;
                        let bk = ((live >> (3 * kk)) & 7u32) | (((live >> (9 + 3 * kk)) & 7u32) << 3u32) | (((live >> (18 + 3
                            * kk)) & 7u32) << 6u32);
                        proof {
                            crate::bits::lemma_bit32_gather(live, kk, 0);
                        }
                        let s = single9(bk);
                        proof {
                            if s == 0xFF && !changed {
                                if live_count(*self, d as int, 18 + 3 * b + k, 9) == 1 {
                                    lemma_box_lone(*self, b as int, kk, d as int, live);
                                }
                            }
                        }
                        if s != 0xFF {
                            let su = s as u32;
                            let bit = (su / 3) * 9 + 3 * kk + su % 3;
                            proof {
                                crate::bits::lemma_bit32_gather(live, kk, su);
                                assert(bit32(live, bit));
                                lemma_band_pos(b as int, bit as int);
                            }
                            let cell = rm_cell(b, bit);
                            proof {
                                assert(cell == band_cell(rm, b as int, bit as int));
                                assert(self.open(cell as int));
                            }
                            let ghost pre = *self;
                            self.place(cell, (d + 1) as u8);
                            proof {
                                assert(pre.cand(d as int, cell as int));
                                lemma_keeps_place(pre, *self, cell as int, (d + 1) as u8);
                                lemma_keeps_trans(*old(self), pre, *self);
                                if !lc {
                                    assert forall|g: Seq<u8>| agrees(g, *old(self)) implies #[trigger] agrees(g, *self) by {
                                        assert(agrees(g, pre));
                                        lemma_box_home(pre, g, b as int, kk, d as int, live, su);
                                        lemma_place_agrees(pre, *self, g, cell as int, (d + 1) as u8);
                                    }
                                }
                            }
                            changed = true;
                            hs = true;
                            live = self.live_word(rm, b, d);
                        }
                        k += 1;
                    }
                }
                d += 1;
            }
            b += 1;
        }
        (changed, hs, lcf)
    }
}

/// No box-line pair of orientation `rows` forms a locked-candidates pattern
/// that removes a candidate.
pub open spec fn lc_clear(bb: BitBoard, rows: bool) -> bool {
    &&& forall|d: int, b: int, l: int| 0 <= d < 9 && 0 <= b < 9 && orient_line(rows, l) ==> !#[trigger] locked_elim1(bb, d, 18 + b, l)
    &&& forall|d: int, b: int, l: int| 0 <= d < 9 && 0 <= b < 9 && orient_line(rows, l) ==> !#[trigger] locked_elim1(bb, d, l, 18 + b)
}

/// Toolbox `tb` reads hidden singles in unit `u`: rows and boxes under `rb`,
/// columns under `col`.
pub open spec fn tb_wants(tb: crate::probe::toolbox::Tb, u: int) -> bool {
    if u < 9 || u >= 18 {
        tb.rb
    } else {
        tb.col
    }
}

/// A pass under toolbox `tb` finds nothing on `bb`: some cell is undecided, the
/// enabled locked-candidate sweeps remove nothing, and no unit the toolbox reads
/// holds a digit with a single undecided candidate cell.
pub open spec fn stuck_under(bb: BitBoard, tb: crate::probe::toolbox::Tb) -> bool {
    &&& !all_decided(bb)
    &&& tb.lcr ==> lc_clear(bb, true)
    &&& tb.lcc ==> lc_clear(bb, false)
    &&& forall|d: int, u: int| 0 <= d < 9 && 0 <= u < 27 && tb_wants(tb, u) ==> #[trigger] live_count(bb, d, u, 9) != 1
}

/// Why propagation stopped.
#[derive(Clone, Copy, PartialEq, Eq, Structural, Debug)]
pub enum Prop {
    /// Every cell is decided.
    Solved,
    /// An undecided cell ran out of candidates, or two peer naked singles
    /// share their digit.
    Contradiction,
    /// A fixpoint with undecided cells left.
    Stuck,
}

/// No cell is undecided.
pub open spec fn all_decided(bb: BitBoard) -> bool {
    forall|j: int| 0 <= j < 81 ==> !#[trigger] bb.open(j)
}

/// Kind `k`'s bit is set in `allowed`.
pub open spec fn allows(allowed: u32, k: int) -> bool {
    bit32(allowed, k as u32)
}

impl BitBoard {
    /// Whether any cell is undecided.
    fn any_open(&self) -> (r: bool)
        requires
            self.wf(),
        ensures
            r == !all_decided(*self),
    {
        let r = nonzero(self.unsolved_r);
        proof {
            crate::layout::lemma_nonzero_pos(self.unsolved_r);
            if r {
                let j = choose|j: int| 0 <= j < 81 && #[trigger] has_pos(self.unsolved_r, j);
                assert(self.open(j));
            }
        }
        r
    }

    /// The fused closure: naked singles in waves, then one row-major and one
    /// column-major band pass (hidden singles, and locked candidates when `lc`),
    /// repeated until solved, contradicted or stuck. Returns why it stopped and
    /// whether naked singles, hidden singles and locked candidates fired.
    fn propagate_g(&mut self, lc: bool) -> (r: (Prop, bool, bool, bool))
        requires
            old(self).wf(),
        ensures
            shrinks(*old(self), *final(self)),
            r.0 == Prop::Solved ==> all_decided(*final(self)),
            r.0 == Prop::Stuck ==> !all_decided(*final(self)),
            !lc ==> !r.3,
            keeps_records(*old(self), *final(self)),
    {
        proof {
            lemma_keeps_refl(*self);
        }
        let mut ns = false;
        let mut hs = false;
        let mut lcf = false;
        loop
            invariant
                self.wf(),
                shrinks(*old(self), *self),
                keeps_records(*old(self), *self),
                !lc ==> !lcf,
            decreases self.measure(),
        {
            let ghost m0 = self.measure();
            loop
                invariant
                    self.wf(),
                    shrinks(*old(self), *self),
                    keeps_records(*old(self), *self),
                    !lc ==> !lcf,
                    self.measure() <= m0,
                ensures
                    self.wf(),
                    shrinks(*old(self), *self),
                    keeps_records(*old(self), *self),
                    !lc ==> !lcf,
                    !all_decided(*self),
                    self.measure() <= m0,
                decreases self.measure(),
            {
                let (ones, twos) = self.sieve();
                proof {
                    lemma_ok_ops(self.unsolved_r, ones);
                }
                if nonzero(band_andnot(self.unsolved_r, ones)) {
                    return (Prop::Contradiction, ns, hs, lcf);
                }
                if !self.any_open() {
                    return (Prop::Solved, ns, hs, lcf);
                }
                let a = band_and(self.unsolved_r, ones);
                proof {
                    lemma_ok_ops(a, twos);
                }
                let singles = band_andnot(a, twos);
                if !nonzero(singles) {
                    break;
                }
                proof {
                    let j = choose|j: int| 0 <= j < 81 && #[trigger] has_pos(singles, j);
                    lemma_pos_andnot(singles, a, twos, j);
                    lemma_pos_and(a, self.unsolved_r, ones, j);
                    assert(in_r(ones, j));
                    assert(in_r(singles, j) && self.open(j));
                }
                ns = true;
                let ghost pre = *self;
                proof {
                    assert forall|j: int, d: int, e: int| 0 <= j < 81 && 0 <= d < 9 && 0 <= e < 9 && #[trigger] in_r(singles, j)
                        && #[trigger] pre.cand(d, j) && #[trigger] pre.cand(e, j) implies d == e && pre.open(j) by {
                        lemma_pos_andnot(singles, a, twos, j);
                        lemma_pos_and(a, pre.unsolved_r, ones, j);
                        assert(!in_r(twos, j));
                        if d < e {
                            assert(exists|x: int, y: int| 0 <= x < y < 9 && #[trigger] pre.cand(x, j) && #[trigger] pre.cand(y, j));
                        } else if e < d {
                            assert(exists|x: int, y: int| 0 <= x < y < 9 && #[trigger] pre.cand(x, j) && #[trigger] pre.cand(y, j));
                        }
                    }
                    assert(lone_cells(pre, singles));
                }
                let okp = self.place_singles(singles);
                proof {
                    lemma_keeps_trans(*old(self), pre, *self);
                }
                if !okp {
                    return (Prop::Contradiction, ns, hs, lcf);
                }
            }
            let ghost b1 = *self;
            let (c1, h1, l1) = self.band_update(true, lc);
            let ghost b2 = *self;
            let (c2, h2, l2) = self.band_update(false, lc);
            proof {
                lemma_keeps_trans(*old(self), b1, b2);
                lemma_within_trans(b2, b1, *old(self));
                lemma_keeps_trans(*old(self), b2, *self);
            }
            hs = hs || h1 || h2;
            lcf = lcf || (lc && (l1 || l2));
            if !(c1 || c2) {
                return (Prop::Stuck, ns, hs, lcf);
            }
        }
    }
}

/// Whether kind `k` is in `mask`.
pub fn has_kind(mask: u32, k: usize) -> (r: bool)
    requires
        k < 32,
    ensures
        r == bit32(mask, k as u32),
{
    proof {
        crate::bits::lemma_bit32_test(mask, k as u32);
    }
    mask & (1u32 << (k as u32)) != 0
}

/// A baseline trace only counts kinds the toolbox allows.
pub open spec fn counts_allowed(counts: Seq<u16>, allowed: u32) -> bool {
    forall|k: int| 0 <= k < 16 && #[trigger] counts[k] > 0 ==> allows(allowed, k)
}

impl BitBoard {
    /// The subset ladder, easiest first, gated by `allowed`: apply the first
    /// subset technique (naked pair up to hidden quad) that eliminates something
    /// and return its kind.
    fn step_subsets(&mut self, allowed: u32) -> (r: Option<usize>)
        requires
            old(self).wf(),
        ensures
            shrinks(*old(self), *final(self)),
            match r {
                Some(k) => NAKED_PAIR <= k <= HIDDEN_QUAD && allows(allowed, k as int) && final(self).measure() < old(
                    self).measure(),
                None => *final(self) == *old(self),
            },
            keeps_records(*old(self), *final(self)),
            r is None ==> forall|u: int, ks: Seq<int>, ms: Seq<u16>, z: int| 0 <= u < 27 && 2 <= z <= 4 && allows(
                allowed,
                naked_kind(z),
            ) ==> !#[trigger] naked_subset_at(*old(self), u, z, ks, ms),
            r is None ==> forall|u: int, ds: Seq<int>, ps: Seq<u16>, z: int| 0 <= u < 27 && 2 <= z <= 4 && allows(
                allowed,
                hidden_kind(z),
            ) ==> !#[trigger] hidden_subset_at(*old(self), u, z, ds, ps),
    {
        proof {
            lemma_keeps_refl(*self);
        }
        if has_kind(allowed, NAKED_PAIR) && self.naked_subset(2) {
            return Some(NAKED_PAIR);
        }
        if has_kind(allowed, HIDDEN_PAIR) && self.hidden_subset(2) {
            return Some(HIDDEN_PAIR);
        }
        if has_kind(allowed, NAKED_TRIPLE) && self.naked_subset(3) {
            return Some(NAKED_TRIPLE);
        }
        if has_kind(allowed, HIDDEN_TRIPLE) && self.hidden_subset(3) {
            return Some(HIDDEN_TRIPLE);
        }
        if has_kind(allowed, NAKED_QUAD) && self.naked_subset(4) {
            return Some(NAKED_QUAD);
        }
        if has_kind(allowed, HIDDEN_QUAD) && self.hidden_subset(4) {
            return Some(HIDDEN_QUAD);
        }
        None
    }

    /// The harder ladder, easiest first, gated by `allowed`: apply the first
    /// technique from hidden single up to hidden quad that makes progress and
    /// return its kind.
    fn step_harder(&mut self, allowed: u32) -> (r: Option<usize>)
        requires
            old(self).wf(),
        ensures
            shrinks(*old(self), *final(self)),
            match r {
                Some(k) => HIDDEN_SINGLE <= k <= HIDDEN_QUAD && allows(allowed, k as int) && final(self).measure() < old(
                    self).measure(),
                None => *final(self) == *old(self),
            },
            r is None && allows(allowed, HIDDEN_SINGLE as int) ==> forall|u: int, d: int| 0 <= u < 27 && 0 <= d < 9
                ==> #[trigger] live_count(*old(self), d, u, 9) != 1,
            r is None && allows(allowed, LC_POINTING as int) ==> forall|b: int, d: int, line: int| 0 <= b < 9 && 0 <= d < 9
                && line_of_box(b, line) ==> !#[trigger] locked_elim(*old(self), d, 18 + b, line),
            r is None && allows(allowed, LC_CLAIMING as int) ==> forall|line: int, d: int, b: int| 0 <= line < 18 && 0 <= d < 9
                && 0 <= b < 9 ==> !#[trigger] locked_elim(*old(self), d, line, 18 + b),
            r is None ==> harder_stuck(*old(self), allowed),
            keeps_records(*old(self), *final(self)),
            r is None ==> forall|u: int, ks: Seq<int>, ms: Seq<u16>, z: int| 0 <= u < 27 && 2 <= z <= 4 && allows(
                allowed,
                naked_kind(z),
            ) ==> !#[trigger] naked_subset_at(*old(self), u, z, ks, ms),
            r is None ==> forall|u: int, ds: Seq<int>, ps: Seq<u16>, z: int| 0 <= u < 27 && 2 <= z <= 4 && allows(
                allowed,
                hidden_kind(z),
            ) ==> !#[trigger] hidden_subset_at(*old(self), u, z, ds, ps),
    {
        proof {
            lemma_keeps_refl(*self);
        }
        if has_kind(allowed, HIDDEN_SINGLE) && self.hidden_single() {
            return Some(HIDDEN_SINGLE);
        }
        if has_kind(allowed, LC_POINTING) && self.lc_pointing() {
            return Some(LC_POINTING);
        }
        if has_kind(allowed, LC_CLAIMING) && self.lc_claiming() {
            return Some(LC_CLAIMING);
        }
        self.step_subsets(allowed)
    }

    /// Discrete baseline: naked singles drain in waves; the harder techniques
    /// apply one easiest-first step at a time, each counted exactly.
    fn baseline_discrete(&self, allowed: u32) -> (t: SolveTrace)
        requires
            self.wf(),
        ensures
            t.solved ==> exists|fin: BitBoard| decides(*self, fin),
            counts_allowed(t.counts@, allowed),
    {
        let mut bb = *self;
        proof {
            lemma_keeps_refl(bb);
        }
        let mut counts = [0u16; 16];
        let ns = has_kind(allowed, NAKED_SINGLE);
        loop
            invariant
                bb.wf(),
                shrinks(*self, bb),
                keeps_records(*self, bb),
                ns == allows(allowed, NAKED_SINGLE as int),
                counts_allowed(counts@, allowed),
            decreases bb.measure(),
        {
            if ns {
                let ghost pre = bb;
                let n = bb.drain_naked_singles();
                proof {
                    lemma_keeps_trans(*self, pre, bb);
                }
                if n > 0 {
                    counts[NAKED_SINGLE] = if counts[NAKED_SINGLE] > 0xffff - n { 0xffff } else { counts[NAKED_SINGLE] + n };
                    continue;
                }
            }
            if !bb.any_open() {
                proof {
                    assert(decides(*self, bb));
                }
                return SolveTrace { solved: true, counts };
            }
            let ghost pre2 = bb;
            let st = bb.step_harder(allowed);
            proof {
                lemma_keeps_trans(*self, pre2, bb);
            }
            match st {
                Some(k) => {
                    counts[k] = if counts[k] == 0xffff { 0xffff } else { counts[k] + 1 };
                },
                None => {
                    return SolveTrace { solved: false, counts };
                },
            }
        }
    }

    /// Fast baseline: the fused closure (singles, plus both locked-candidates
    /// kinds when `lc`) runs to its fixpoint; when it stalls, the subset ladder
    /// advances one step and the closure runs again. Kinds of the closure are
    /// recorded fired-or-not (count 1).
    fn baseline_fast(&self, lc: bool, allowed: u32) -> (t: SolveTrace)
        requires
            self.wf(),
            allows(allowed, NAKED_SINGLE as int),
            allows(allowed, HIDDEN_SINGLE as int),
            lc ==> allows(allowed, LC_POINTING as int) && allows(allowed, LC_CLAIMING as int),
        ensures
            t.solved ==> exists|fin: BitBoard| decides(*self, fin),
            counts_allowed(t.counts@, allowed),
    {
        let mut bb = *self;
        proof {
            lemma_keeps_refl(bb);
        }
        let mut counts = [0u16; 16];
        let mut f_ns = false;
        let mut f_hs = false;
        let mut f_lc = false;
        let mut result = false;
        loop
            invariant_except_break
                !result,
            invariant
                bb.wf(),
                shrinks(*self, bb),
                keeps_records(*self, bb),
                counts_allowed(counts@, allowed),
                !lc ==> !f_lc,
            ensures
                bb.wf(),
                shrinks(*self, bb),
                keeps_records(*self, bb),
                counts_allowed(counts@, allowed),
                !lc ==> !f_lc,
                result ==> all_decided(bb),
            decreases bb.measure(),
        {
            let ghost b0 = bb;
            let (p, ns, hs, l) = bb.propagate_g(lc);
            proof {
                lemma_keeps_trans(*self, b0, bb);
            }
            f_ns = f_ns || ns;
            f_hs = f_hs || hs;
            f_lc = f_lc || l;
            if p == Prop::Solved {
                result = true;
                break;
            }
            if p == Prop::Contradiction {
                break;
            }
            let ghost b1 = bb;
            let st = bb.step_subsets(allowed);
            proof {
                lemma_keeps_trans(*self, b1, bb);
            }
            match st {
                Some(k) => {
                    counts[k] = if counts[k] == 0xffff { 0xffff } else { counts[k] + 1 };
                },
                None => {
                    break;
                },
            }
        }
        if f_ns && counts[NAKED_SINGLE] == 0 {
            counts[NAKED_SINGLE] = 1;
        }
        if f_hs && counts[HIDDEN_SINGLE] == 0 {
            counts[HIDDEN_SINGLE] = 1;
        }
        if f_lc && counts[LC_POINTING] == 0 {
            counts[LC_POINTING] = 1;
        }
        if f_lc && counts[LC_CLAIMING] == 0 {
            counts[LC_CLAIMING] = 1;
        }
        proof {
            if result {
                assert(decides(*self, bb));
            }
        }
        SolveTrace { solved: result, counts }
    }

    /// Baseline gate: solve this board with the `allowed` toolbox, counting which
    /// kinds fired. The fused fast path runs when both singles are allowed, the
    /// two locked-candidates kinds are both allowed or both not, and no cheap
    /// kind (singles, locked candidates) is in `forced`; otherwise the discrete
    /// engine runs. When `solved`, the toolbox decided every cell.
    pub fn baseline(&self, allowed: u32, forced: u32) -> (t: SolveTrace)
        requires
            self.wf(),
        ensures
            t.solved ==> exists|fin: BitBoard| decides(*self, fin),
            t.solved ==> record_completes(*self),
            counts_allowed(t.counts@, allowed),
    {
        let has_ns = has_kind(allowed, NAKED_SINGLE);
        let has_hs = has_kind(allowed, HIDDEN_SINGLE);
        let has_lcp = has_kind(allowed, LC_POINTING);
        let has_lcc = has_kind(allowed, LC_CLAIMING);
        let cheap_forced = has_kind(forced, NAKED_SINGLE) || has_kind(forced, HIDDEN_SINGLE) || has_kind(forced, LC_POINTING)
            || has_kind(forced, LC_CLAIMING);
        let fast = has_ns && has_hs && (has_lcp == has_lcc) && !cheap_forced;
        let t = if !fast {
            self.baseline_discrete(allowed)
        } else {
            self.baseline_fast(has_lcp, allowed)
        };
        proof {
            if t.solved {
                let fin = choose|fin: BitBoard| decides(*self, fin);
                lemma_decides_completes(*self, fin);
            }
        }
        t
    }
}

/// The existence prober's board: the row-major steps only (naked singles and
/// row and box hidden singles, no locked candidates), completed by branching.
#[derive(Clone, Copy)]
struct ProberBoard {
    bb: BitBoard,
}

impl ProberBoard {
    /// The prober's board over the candidates of `bb`.
    fn from_bitboard(bb: &BitBoard) -> (p: Self)
        ensures
            p.bb == *bb,
    {
        ProberBoard { bb: *bb }
    }

    /// Naked singles drained in waves, then one row-major hidden-single band
    /// pass, repeated until solved, contradicted or stuck.
    fn propagate(&mut self) -> (r: Prop)
        requires
            old(self).bb.wf(),
        ensures
            shrinks(old(self).bb, final(self).bb),
            r == Prop::Solved ==> all_decided(final(self).bb),
            r == Prop::Stuck ==> !all_decided(final(self).bb),
            forall|g: Seq<u8>| agrees(g, old(self).bb) ==> #[trigger] agrees(g, final(self).bb),
            r == Prop::Contradiction ==> forall|g: Seq<u8>| !#[trigger] agrees(g, old(self).bb),
            r == Prop::Stuck ==> !has_naked_single(final(self).bb),
            r != Prop::Contradiction ==> keeps_records(old(self).bb, final(self).bb),
    {
        proof {
            lemma_keeps_refl(self.bb);
        }
        loop
            invariant
                self.bb.wf(),
                shrinks(old(self).bb, self.bb),
                keeps_records(old(self).bb, self.bb),
                forall|g: Seq<u8>| agrees(g, old(self).bb) ==> #[trigger] agrees(g, self.bb),
            decreases self.bb.measure(),
        {
            let ghost m0 = self.bb.measure();
            loop
                invariant
                    self.bb.wf(),
                    shrinks(old(self).bb, self.bb),
                    keeps_records(old(self).bb, self.bb),
                    self.bb.measure() <= m0,
                    forall|g: Seq<u8>| agrees(g, old(self).bb) ==> #[trigger] agrees(g, self.bb),
                ensures
                    self.bb.wf(),
                    shrinks(old(self).bb, self.bb),
                    keeps_records(old(self).bb, self.bb),
                    !all_decided(self.bb),
                    self.bb.measure() <= m0,
                    forall|g: Seq<u8>| agrees(g, old(self).bb) ==> #[trigger] agrees(g, self.bb),
                    !has_naked_single(self.bb),
                decreases self.bb.measure(),
            {
                let (ones, twos) = self.bb.sieve();
                proof {
                    lemma_ok_ops(self.bb.unsolved_r, ones);
                }
                let dead = band_andnot(self.bb.unsolved_r, ones);
                if nonzero(dead) {
                    proof {
                        let x = dead;
                        let j = choose|j: int| 0 <= j < 81 && #[trigger] has_pos(x, j);
                        lemma_pos_andnot(x, self.bb.unsolved_r, ones, j);
                        assert(self.bb.open(j) && !in_r(ones, j));
                        assert forall|g: Seq<u8>| !#[trigger] agrees(g, old(self).bb) by {
                            if agrees(g, old(self).bb) {
                                assert(agrees(g, self.bb));
                                assert(self.bb.cand(g[j] - 1, j));
                                assert(1 <= g[j] <= 9);
                            }
                        }
                    }
                    return Prop::Contradiction;
                }
                if !self.bb.any_open() {
                    return Prop::Solved;
                }
                let a = band_and(self.bb.unsolved_r, ones);
                proof {
                    lemma_ok_ops(a, twos);
                }
                let singles = band_andnot(a, twos);
                if !nonzero(singles) {
                    proof {
                        if has_naked_single(self.bb) {
                            let (j, d) = choose|j: int, d: int| 0 <= j < 81 && 0 <= d < 9 && self.bb.open(j) && #[trigger] self.bb.cand(
                                d,
                                j,
                            ) && forall|e: int| 0 <= e < 9 && #[trigger] self.bb.cand(e, j) ==> e == d;
                            lemma_pos_andnot(singles, a, twos, j);
                            lemma_pos_and(a, self.bb.unsolved_r, ones, j);
                            assert(in_r(ones, j));
                            if in_r(twos, j) {
                                let (x, y) = choose|x: int, y: int| 0 <= x < y < 9 && #[trigger] self.bb.cand(x, j) && #[trigger] self.bb.cand(y, j);
                            }
                            assert(has_pos(singles, j));
                        }
                    }
                    break;
                }
                proof {
                    let j = choose|j: int| 0 <= j < 81 && #[trigger] has_pos(singles, j);
                    lemma_pos_andnot(singles, a, twos, j);
                    lemma_pos_and(a, self.bb.unsolved_r, ones, j);
                    assert(in_r(ones, j));
                    assert(in_r(singles, j) && self.bb.open(j));
                }
                let ghost pre = self.bb;
                proof {
                    assert forall|j: int| 0 <= j < 81 && #[trigger] in_r(singles, j) implies pre.open(j) && !in_r(twos, j) by {
                        lemma_pos_andnot(singles, a, twos, j);
                        lemma_pos_and(a, pre.unsolved_r, ones, j);
                    }
                    assert forall|j: int, d: int, e: int| 0 <= j < 81 && 0 <= d < 9 && 0 <= e < 9 && #[trigger] in_r(singles, j)
                        && #[trigger] pre.cand(d, j) && #[trigger] pre.cand(e, j) implies d == e && pre.open(j) by {
                        assert(!in_r(twos, j));
                        if d < e {
                            assert(exists|x: int, y: int| 0 <= x < y < 9 && #[trigger] pre.cand(x, j) && #[trigger] pre.cand(y, j));
                        } else if e < d {
                            assert(exists|x: int, y: int| 0 <= x < y < 9 && #[trigger] pre.cand(x, j) && #[trigger] pre.cand(y, j));
                        }
                    }
                    assert(lone_cells(pre, singles));
                }
                if !self.bb.place_singles(singles) {
                    proof {
                        assert forall|g: Seq<u8>| !#[trigger] agrees(g, old(self).bb) by {
                            if agrees(g, old(self).bb) {
                                lemma_singles_agree(pre, self.bb, singles, g);
                            }
                        }
                    }
                    return Prop::Contradiction;
                }
                proof {
                    assert forall|g: Seq<u8>| agrees(g, old(self).bb) implies #[trigger] agrees(g, self.bb) by {
                        assert(agrees(g, pre));
                        lemma_singles_agree(pre, self.bb, singles, g);
                    }
                    lemma_keeps_singles(pre, self.bb, singles);
                    lemma_keeps_trans(old(self).bb, pre, self.bb);
                }
            }
            let ghost pb = self.bb;
            let (changed, _hs, _lc) = self.bb.band_update(true, false);
            proof {
                lemma_keeps_trans(old(self).bb, pb, self.bb);
            }
            if !changed {
                return Prop::Stuck;
            }
        }
    }

    /// The branching cell: the first undecided cell with exactly two candidates,
    /// else the first undecided cell; with its candidate mask.
    fn branch_cell(&self) -> (r: (usize, u16))
        requires
            self.bb.wf(),
            !all_decided(self.bb),
        ensures
            r.0 < 81,
            self.bb.open(r.0 as int),
            r.1 < 512,
            forall|d: u8| 1 <= d <= 9 ==> #[trigger] mask_has(r.1, d) == self.bb.cand(d - 1, r.0 as int),
    {
        let (ones, twos) = self.bb.sieve();
        let mut threes: B = ZERO;
        let mut tw: B = ZERO;
        let mut on: B = ZERO;
        let mut d: usize = 0;
        while d < 9
            invariant
                0 <= d <= 9,
                self.bb.wf(),
                band_ok(threes),
                band_ok(tw),
                band_ok(on),
            decreases 9 - d,
        {
            let b = self.bb.r[d];
            proof {
                lemma_ok_ops(tw, b);
                lemma_ok_ops(on, b);
            }
            let t3 = band_and(tw, b);
            proof {
                lemma_ok_ops(threes, t3);
            }
            threes = band_or(threes, t3);
            let t2 = band_and(on, b);
            proof {
                lemma_ok_ops(tw, t2);
            }
            tw = band_or(tw, t2);
            on = band_or(on, b);
            d += 1;
        }
        proof {
            lemma_ok_ops(self.bb.unsolved_r, tw);
        }
        let x = band_and(self.bb.unsolved_r, tw);
        proof {
            lemma_ok_ops(x, threes);
        }
        let bivalue = band_andnot(x, threes);
        let pick = if nonzero(bivalue) {
            proof {
                let j = choose|j: int| 0 <= j < 81 && #[trigger] has_pos(bivalue, j);
                lemma_pos_andnot(bivalue, x, threes, j);
                lemma_pos_and(x, self.bb.unsolved_r, tw, j);
                assert forall|q: int| 0 <= q < 81 && #[trigger] has_pos(bivalue, q) implies self.bb.open(q) by {
                    lemma_pos_andnot(bivalue, x, threes, q);
                    lemma_pos_and(x, self.bb.unsolved_r, tw, q);
                }
            }
            bivalue
        } else {
            proof {
                let j = choose|j: int| 0 <= j < 81 && #[trigger] self.bb.open(j);
                assert(has_pos(self.bb.unsolved_r, j));
            }
            self.bb.unsolved_r
        };
        proof {
            assert(exists|j: int| 0 <= j < 81 && #[trigger] has_pos(pick, j));
        }
        let cell = first_rm(pick);
        proof {
            if pick == bivalue {
                lemma_pos_andnot(bivalue, x, threes, cell as int);
                lemma_pos_and(x, self.bb.unsolved_r, tw, cell as int);
            }
            assert(self.bb.open(cell as int));
        }
        let m = self.bb.cell_candidates(cell);
        (cell, m)
    }

    /// Whether some completion exists: propagate, then branch on a cell, trying
    /// each candidate digit but the last on a copy and the last in place.
    fn solve_first(&mut self) -> (r: bool)
        requires
            old(self).bb.wf(),
        ensures
            final(self).bb.wf(),
            r ==> exists|fin: BitBoard| shrinks(old(self).bb, fin) && all_decided(fin) && keeps_records(old(self).bb, fin),
            !r ==> forall|g: Seq<u8>| !#[trigger] agrees(g, old(self).bb),
        decreases old(self).bb.measure(),
    {
        proof {
            lemma_keeps_refl(self.bb);
        }
        loop
            invariant
                self.bb.wf(),
                shrinks(old(self).bb, self.bb),
                keeps_records(old(self).bb, self.bb),
                forall|g: Seq<u8>| agrees(g, old(self).bb) ==> #[trigger] agrees(g, self.bb),
            decreases self.bb.measure(),
        {
            let ghost pre = self.bb;
            let p = self.propagate();
            proof {
                if p != Prop::Contradiction {
                    lemma_keeps_trans(old(self).bb, pre, self.bb);
                }
            }
            match p {
                Prop::Solved => {
                    return true;
                },
                Prop::Contradiction => {
                    proof {
                        assert forall|g: Seq<u8>| !#[trigger] agrees(g, old(self).bb) by {
                            if agrees(g, old(self).bb) {
                                assert(agrees(g, pre));
                            }
                        }
                    }
                    return false;
                },
                Prop::Stuck => {},
            }
            let (cell, mask) = self.branch_cell();
            let mut m = mask;
            let ghost m0 = self.bb.measure();
            proof {
                assert forall|g: Seq<u8>| #[trigger] agrees(g, old(self).bb) implies agrees(g, self.bb) && mask_has(m, g[cell as int]) by {
                    assert(agrees(g, self.bb));
                    assert(self.bb.cand(g[cell as int] - 1, cell as int));
                    assert(1 <= g[cell as int] <= 9);
                }
            }
            loop
                invariant_except_break
                    self.bb.measure() == m0,
                    self.bb.open(cell as int),
                    forall|g: Seq<u8>| #[trigger] agrees(g, old(self).bb) ==> agrees(g, self.bb) && mask_has(m, g[cell as int]),
                    forall|e: u8| 1 <= e <= 9 && #[trigger] mask_has(m, e) ==> self.bb.cand(e - 1, cell as int),
                invariant
                    self.bb.wf(),
                    shrinks(old(self).bb, self.bb),
                    keeps_records(old(self).bb, self.bb),
                    cell < 81,
                    m < 512,
                ensures
                    self.bb.wf(),
                    shrinks(old(self).bb, self.bb),
                    keeps_records(old(self).bb, self.bb),
                    self.bb.measure() < m0,
                    forall|g: Seq<u8>| agrees(g, old(self).bb) ==> #[trigger] agrees(g, self.bb),
                decreases m,
            {
                if m == 0 {
                    // No candidate left: the branching cell is dead.
                    proof {
                        assert forall|g: Seq<u8>| !#[trigger] agrees(g, old(self).bb) by {
                            if agrees(g, old(self).bb) {
                                assert(mask_has(m, g[cell as int]));
                                crate::bits::lemma_bit16_zero((g[cell as int] - 1) as u16);
                            }
                        }
                    }
                    return false;
                }
                let d = (m.trailing_zeros() + 1) as u8;
                proof {
                    vstd::std_specs::bits::axiom_u16_trailing_zeros(m);
                    if m.trailing_zeros() >= 9 {
                        crate::bits::lemma_bit16_low9(m, m.trailing_zeros() as u16);
                    }
                }
                let next = m & (m - 1);
                proof {
                    let k = m.trailing_zeros() as u16;
                    crate::bits::lemma_bit16_clear_lowest(m, k);
                    crate::bits::lemma_bit16_andnot_le(m, 1u16 << k);
                    crate::bits::lemma_bit16_and(m, !(1u16 << k), k);
                    crate::bits::lemma_bit16_not(1u16 << k, k);
                    crate::bits::lemma_bit16_one(k, k);
                    assert(next != m);
                    assert(next == m & !(1u16 << ((d - 1) as u16)));
                    assert(mask_has(m, d));
                    assert forall|e: u8| 1 <= e <= 9 && #[trigger] mask_has(next, e) implies mask_has(m, e) by {
                        crate::bits::lemma_bit16_and(m, !(1u16 << k), (e - 1) as u16);
                    }
                }
                if next == 0 {
                    let ghost before = self.bb;
                    self.bb.place(cell, d);
                    proof {
                        lemma_keeps_place(before, self.bb, cell as int, d);
                        lemma_keeps_trans(old(self).bb, before, self.bb);
                        assert forall|g: Seq<u8>| agrees(g, old(self).bb) implies #[trigger] agrees(g, self.bb) by {
                            assert(agrees(g, before) && mask_has(m, g[cell as int]));
                            assert(1 <= g[cell as int] <= 9);
                            crate::grid::lemma_mask_remove(m, d, g[cell as int]);
                            if g[cell as int] != d {
                                assert(mask_has(next, g[cell as int]));
                                crate::bits::lemma_bit16_zero((g[cell as int] - 1) as u16);
                            }
                            lemma_place_agrees(before, self.bb, g, cell as int, d);
                        }
                    }
                    break;
                }
                let mut child = *self;
                child.bb.place(cell, d);
                let ghost c0 = child.bb;
                proof {
                    assert(c0.within(self.bb));
                    lemma_within_trans(c0, self.bb, old(self).bb);
                    lemma_keeps_place(self.bb, c0, cell as int, d);
                    lemma_keeps_trans(old(self).bb, self.bb, c0);
                }
                if child.solve_first() {
                    proof {
                        let fin = choose|fin: BitBoard| shrinks(c0, fin) && all_decided(fin) && keeps_records(c0, fin);
                        lemma_within_trans(fin, c0, old(self).bb);
                        assert(shrinks(old(self).bb, fin));
                        lemma_keeps_trans(old(self).bb, c0, fin);
                    }
                    return true;
                }
                proof {
                    assert forall|g: Seq<u8>| #[trigger] agrees(g, old(self).bb) implies agrees(g, self.bb) && mask_has(next, g[cell as int]) by {
                        assert(agrees(g, self.bb) && mask_has(m, g[cell as int]));
                        assert(1 <= g[cell as int] <= 9);
                        crate::grid::lemma_mask_remove(m, d, g[cell as int]);
                        if g[cell as int] == d {
                            lemma_place_agrees(self.bb, c0, g, cell as int, d);
                        }
                    }
                }
                m = next;
            }
        }
    }
}

impl BitBoard {
    /// The prober's board with cell `i` restricted to the digits of `alts`.
    fn restricted(&self, i: usize, alts: u16) -> (p: ProberBoard)
        requires
            self.wf(),
            i < 81,
        ensures
            shrinks(*self, p.bb),
            forall|j: int| 0 <= j < 81 ==> #[trigger] p.bb.open(j) == self.open(j),
            forall|e: int, j: int| 0 <= e < 9 && 0 <= j < 81 ==> #[trigger] p.bb.cand(e, j) == (self.cand(e, j) && !(j == i
                && !mask_has(alts, (e + 1) as u8))),
    {
        let mut s = ProberBoard::from_bitboard(self);
        let kr = bit_r(i);
        let kc = bit_c(i);
        let mut d: usize = 0;
        while d < 9
            invariant
                0 <= d <= 9,
                i < 81,
                s.bb.wf(),
                band_ok(kr),
                band_ok(kc),
                forall|j: int| 0 <= j < 81 ==> #[trigger] in_r(kr, j) == (j == i),
                forall|j: int| 0 <= j < 81 ==> #[trigger] in_c(kc, j) == (j == i),
                shrinks(*self, s.bb),
                forall|j: int| 0 <= j < 81 ==> #[trigger] s.bb.open(j) == self.open(j),
                forall|e: int, j: int| 0 <= e < 9 && 0 <= j < 81 ==> #[trigger] s.bb.cand(e, j) == (self.cand(e, j) && !(j == i
                    && e < d && !mask_has(alts, (e + 1) as u8))),
            decreases 9 - d,
        {
            proof {
                crate::grid::lemma_mask_test(alts, (d + 1) as u8);
            }
            if alts & (1u16 << (d as u16)) == 0 {
                s.bb.clear_digit(d, kr, kc);
            }
            d += 1;
        }
        s
    }

    /// Uniqueness gate: restrict cell `i` to the alternate digits `alts` and
    /// search for a completion of the rest. True means the search decided every
    /// cell.
    pub fn any_alt_solves(&self, i: usize, alts: u16) -> (r: bool)
        requires
            self.wf(),
            i < 81,
        ensures
            r ==> completes_with(*self, i as int, alts),
            !r ==> forall|g: Seq<u8>| #[trigger] agrees(g, *self) && self.open(i as int) ==> !mask_has(alts, g[i as int]),
    {
        let mut s = self.restricted(i, alts);
        let ghost s0 = s.bb;
        let r = s.solve_first();
        proof {
            if r {
                let fin = choose|fin: BitBoard| shrinks(s0, fin) && all_decided(fin) && keeps_records(s0, fin);
                lemma_restricted_completes(*self, s0, fin, i as int, alts);
            } else {
                assert forall|g: Seq<u8>| #[trigger] agrees(g, *self) && self.open(i as int) implies !mask_has(alts, g[i as int]) by {
                    if mask_has(alts, g[i as int]) {
                        assert forall|j: int| 0 <= j < 81 && #[trigger] s0.open(j) implies s0.cand(g[j] - 1, j) by {
                            assert(self.cand(g[j] - 1, j));
                            assert(1 <= g[j] <= 9);
                            assert(((g[j] - 1) + 1) as u8 == g[j]);
                        }
                        assert(agrees(g, s0));
                    }
                }
            }
        }
        r
    }
}

impl BitBoard {
    /// The prober's closure alone: restrict cell `i` to `alts` and propagate
    /// once, without branching; true when that decides every cell.
    pub fn probe_closure_only(&self, i: usize, alts: u16) -> (r: bool)
        requires
            self.wf(),
            i < 81,
        ensures
            r ==> completes_with(*self, i as int, alts),
            !r ==> (forall|g: Seq<u8>| #[trigger] agrees(g, *self) && self.open(i as int) ==> !mask_has(alts, g[i as int]))
                || exists|fin: BitBoard|
                shrinks(*self, fin) && !all_decided(fin) && !has_naked_single(fin) && forall|g: Seq<u8>| #[trigger] agrees(g, *self)
                    && self.open(i as int) && mask_has(alts, g[i as int]) ==> agrees(g, fin),
    {
        let mut s = self.restricted(i, alts);
        let ghost s0 = s.bb;
        let p = s.propagate();
        proof {
            lemma_within_trans(s.bb, s0, *self);
            assert(shrinks(*self, s.bb));
            assert forall|g: Seq<u8>| #[trigger] agrees(g, *self) && self.open(i as int) && mask_has(alts, g[i as int]) implies agrees(
                g,
                s0,
            ) by {
                assert forall|j: int| 0 <= j < 81 && #[trigger] s0.open(j) implies s0.cand(g[j] - 1, j) by {
                    assert(self.cand(g[j] - 1, j));
                    assert(1 <= g[j] <= 9);
                    assert(((g[j] - 1) + 1) as u8 == g[j]);
                }
            }
            if p == Prop::Stuck {
                assert(forall|g: Seq<u8>| #[trigger] agrees(g, *self) && self.open(i as int) && mask_has(alts, g[i as int]) ==> agrees(
                    g,
                    s.bb,
                ));
            }
            if p == Prop::Solved {
                lemma_restricted_completes(*self, s0, s.bb, i as int, alts);
            }
        }
        p == Prop::Solved
    }

    /// How many undecided cells the prober's closure (no branching) decides; a
    /// contradiction counts as deciding them all.
    pub fn closure_solved(&self) -> (n: u32)
        requires
            self.wf(),
        ensures
            n <= pcb(self.open_band()),
            exists|fin: BitBoard|
                shrinks(*self, fin) && (forall|g: Seq<u8>| #[trigger] agrees(g, *self) ==> agrees(g, fin)) && ((!has_naked_single(fin)
                    && n == pcb(self.open_band()) - pcb(fin.open_band())) || (n == pcb(self.open_band()) && forall|g: Seq<u8>|
                    !#[trigger] agrees(g, *self))),
    {
        let before = popcnt(self.unsolved_r);
        let mut s = ProberBoard::from_bitboard(self);
        let p = s.propagate();
        proof {
            assert(shrinks(*self, s.bb));
            if p == Prop::Solved {
                assert(!has_naked_single(s.bb));
            }
        }
        match p {
            Prop::Contradiction => {
                proof {
                    let fin = s.bb;
                    assert(forall|g: Seq<u8>| #[trigger] agrees(g, *self) ==> agrees(g, fin));
                    assert(pcb(self.open_band()) == before);
                    assert(forall|g: Seq<u8>| !#[trigger] agrees(g, *self));
                    assert(shrinks(*self, fin) && (forall|g: Seq<u8>| #[trigger] agrees(g, *self) ==> agrees(g, fin)) && ((
                    !has_naked_single(fin) && before == pcb(self.open_band()) - pcb(fin.open_band())) || (before == pcb(
                        self.open_band(),
                    ) && forall|g: Seq<u8>| !#[trigger] agrees(g, *self))));
                }
                before
            },
            _ => {
                let after = popcnt(s.bb.unsolved_r);
                proof {
                    lemma_subb_pos(s.bb.unsolved_r, self.unsolved_r);
                    assert forall|p: int| 0 <= p < 81 && #[trigger] has_pos(s.bb.unsolved_r, p) implies has_pos(self.unsolved_r, p) by {
                        assert(s.bb.open(p));
                    }
                    lemma_subb_pcb(s.bb.unsolved_r, self.unsolved_r);
                }
                before - after
            },
        }
    }
}

/// The most completions a count bounded by `cap` reports.
pub open spec fn count_cap(cap: usize) -> usize {
    if cap == 0 {
        1
    } else {
        cap
    }
}

impl ProberBoard {
    /// Count completions into `found`, stopping once `found` reaches `cap`:
    /// propagate, then branch on a cell, each candidate but the last on a copy.
    fn count(&mut self, cap: usize, found: &mut usize)
        requires
            old(self).bb.wf(),
            *old(found) < cap || *old(found) == 0,
        ensures
            final(self).bb.wf(),
            *old(found) <= *final(found) <= count_cap(cap),
            cap > 0 && *final(found) == *old(found) ==> forall|g: Seq<u8>| !#[trigger] agrees(g, old(self).bb),
        decreases old(self).bb.measure(),
    {
        loop
            invariant
                self.bb.wf(),
                self.bb.measure() <= old(self).bb.measure(),
                *old(found) <= *found <= count_cap(cap),
                *found < cap || *found == 0,
                *found == *old(found) ==> forall|g: Seq<u8>| #[trigger] agrees(g, old(self).bb) ==> agrees(g, self.bb),
            decreases self.bb.measure(),
        {
            let ghost pre = self.bb;
            match self.propagate() {
                Prop::Solved => {
                    *found = *found + 1;
                    return;
                },
                Prop::Contradiction => {
                    proof {
                        if *found == *old(found) {
                            assert forall|g: Seq<u8>| !#[trigger] agrees(g, old(self).bb) by {
                                if agrees(g, old(self).bb) {
                                    assert(agrees(g, pre));
                                }
                            }
                        }
                    }
                    return;
                },
                Prop::Stuck => {},
            }
            let (cell, mask) = self.branch_cell();
            let mut m = mask;
            let ghost m0 = self.bb.measure();
            proof {
                assert forall|g: Seq<u8>| #[trigger] agrees(g, old(self).bb) && *found == *old(found) implies agrees(g, self.bb)
                    && mask_has(m, g[cell as int]) by {
                    assert(agrees(g, pre));
                    assert(agrees(g, self.bb));
                    assert(self.bb.cand(g[cell as int] - 1, cell as int));
                    assert(1 <= g[cell as int] <= 9);
                }
            }
            loop
                invariant_except_break
                    self.bb.measure() == m0,
                    self.bb.open(cell as int),
                    forall|g: Seq<u8>| #[trigger] agrees(g, old(self).bb) && *found == *old(found) ==> agrees(g, self.bb)
                        && mask_has(m, g[cell as int]),
                invariant
                    self.bb.wf(),
                    self.bb.measure() <= old(self).bb.measure(),
                    cell < 81,
                    m < 512,
                    *old(found) <= *found <= count_cap(cap),
                    *found < cap || *found == 0,
                ensures
                    self.bb.wf(),
                    self.bb.measure() < m0,
                    *old(found) <= *found <= count_cap(cap),
                    *found < cap || *found == 0,
                    *found == *old(found) ==> forall|g: Seq<u8>| #[trigger] agrees(g, old(self).bb) ==> agrees(g, self.bb),
                decreases m,
            {
                if m == 0 {
                    proof {
                        if *found == *old(found) {
                            assert forall|g: Seq<u8>| !#[trigger] agrees(g, old(self).bb) by {
                                if agrees(g, old(self).bb) {
                                    assert(mask_has(m, g[cell as int]));
                                    crate::bits::lemma_bit16_zero((g[cell as int] - 1) as u16);
                                }
                            }
                        }
                    }
                    return;
                }
                let d = (m.trailing_zeros() + 1) as u8;
                proof {
                    vstd::std_specs::bits::axiom_u16_trailing_zeros(m);
                    if m.trailing_zeros() >= 9 {
                        crate::bits::lemma_bit16_low9(m, m.trailing_zeros() as u16);
                    }
                }
                let next = m & (m - 1);
                proof {
                    let k = m.trailing_zeros() as u16;
                    crate::bits::lemma_bit16_clear_lowest(m, k);
                    crate::bits::lemma_bit16_andnot_le(m, 1u16 << k);
                    crate::bits::lemma_bit16_and(m, !(1u16 << k), k);
                    crate::bits::lemma_bit16_not(1u16 << k, k);
                    crate::bits::lemma_bit16_one(k, k);
                    assert(next != m);
                    assert(next == m & !(1u16 << ((d - 1) as u16)));
                }
                if next == 0 {
                    let ghost before = self.bb;
                    self.bb.place(cell, d);
                    proof {
                        if *found == *old(found) {
                            assert forall|g: Seq<u8>| #[trigger] agrees(g, old(self).bb) implies agrees(g, self.bb) by {
                                assert(agrees(g, before) && mask_has(m, g[cell as int]));
                                assert(1 <= g[cell as int] <= 9);
                                crate::grid::lemma_mask_remove(m, d, g[cell as int]);
                                if g[cell as int] != d {
                                    assert(mask_has(next, g[cell as int]));
                                    crate::bits::lemma_bit16_zero((g[cell as int] - 1) as u16);
                                }
                                lemma_place_agrees(before, self.bb, g, cell as int, d);
                            }
                        }
                    }
                    break;
                }
                let mut child = *self;
                child.bb.place(cell, d);
                let ghost c0 = child.bb;
                let ghost fb = *found;
                child.count(cap, found);
                if *found >= cap {
                    return;
                }
                proof {
                    assert forall|g: Seq<u8>| #[trigger] agrees(g, old(self).bb) && *found == *old(found) implies agrees(g, self.bb)
                        && mask_has(next, g[cell as int]) by {
                        assert(fb == *found);
                        assert(agrees(g, self.bb) && mask_has(m, g[cell as int]));
                        assert(1 <= g[cell as int] <= 9);
                        crate::grid::lemma_mask_remove(m, d, g[cell as int]);
                        if g[cell as int] == d {
                            lemma_place_agrees(self.bb, c0, g, cell as int, d);
                        }
                    }
                }
                m = next;
            }
        }
    }
}

impl BitBoard {
    /// The number of completions of this board, counting stops at `cap`: naked
    /// singles and row and box hidden singles, completed by branching on the
    /// first cell with two candidates (else the first undecided cell).
    pub fn count_up_to(&self, cap: usize) -> (n: usize)
        requires
            self.wf(),
        ensures
            n <= count_cap(cap),
            cap > 0 && n == 0 ==> forall|g: Seq<u8>| !#[trigger] agrees(g, *self),
    {
        let mut found: usize = 0;
        let mut s = ProberBoard::from_bitboard(self);
        s.count(cap, &mut found);
        found
    }
}

impl BitBoard {
    /// The exact (discrete) baseline: every technique counted step by step, with
    /// no fused fast path.
    pub fn solve_exact(&self, allowed: u32) -> (t: SolveTrace)
        requires
            self.wf(),
        ensures
            t.solved ==> exists|fin: BitBoard| decides(*self, fin),
            t.solved ==> record_completes(*self),
            counts_allowed(t.counts@, allowed),
    {
        let t = self.baseline_discrete(allowed);
        proof {
            if t.solved {
                let fin = choose|fin: BitBoard| decides(*self, fin);
                lemma_decides_completes(*self, fin);
            }
        }
        t
    }

    /// The avoid-target walk: solve with the `scope` toolbox, easiest first,
    /// using a `target` kind only when no other in-scope kind applies, and count
    /// the target's uses (each naked single placed counts once). `u32::MAX` when
    /// the walk gets stuck.
    #[verifier::spinoff_prover]
    #[verifier::rlimit(80)]
    pub fn min_target_uses(&self, scope: u32, target: u32) -> (n: u32)
        requires
            self.wf(),
        ensures
            n < u32::MAX ==> exists|fin: BitBoard| decides(*self, fin),
            n < u32::MAX ==> record_completes(*self),
            n > 0 ==> can_stall(*self, scope & !target),
            n == u32::MAX ==> can_stall(*self, scope & target),
    {
        let mut bb = *self;
        proof {
            lemma_keeps_refl(bb);
            lemma_sum9_bound(self.r@, 9);
            lemma_sum9_bound(self.c@, 9);
            lemma_pcb_bound(self.unsolved_r);
            lemma_pcb_bound(self.unsolved_c);
            assert(self.measure() <= 1920);
        }
        let mut uses: u32 = 0;
        let non = scope & !target;
        let tgt = scope & target;
        loop
            invariant
                bb.wf(),
                shrinks(*self, bb),
                keeps_records(*self, bb),
                self.measure() <= 1920,
                uses as int <= 0xffff * (self.measure() - bb.measure()),
                uses > 0 ==> can_stall(*self, scope & !target),
                non == scope & !target,
                tgt == scope & target,
            decreases bb.measure(),
        {
            if !bb.any_open() {
                proof {
                    lemma_uses_bound(uses, self.measure(), bb.measure());
                    assert(decides(*self, bb));
                    lemma_decides_completes(*self, bb);
                }
                return uses;
            }
            let ghost top = bb;
            if has_kind(non, NAKED_SINGLE) {
                let ghost pre = bb;
                let n = bb.drain_naked_singles();
                proof {
                    lemma_keeps_trans(*self, pre, bb);
                }
                if n > 0 {
                    continue;
                }
            }
            proof {
                lemma_clash_open(bb);
                assert(!all_decided(bb));
                assert(allows(non, NAKED_SINGLE as int) ==> !has_naked_single(bb) || naked_clash(bb));
            }
            let ghost pre = bb;
            let st = bb.step_harder(non);
            proof {
                lemma_keeps_trans(*self, pre, bb);
            }
            match st {
                Some(_) => {
                    continue;
                },
                None => {},
            }
            proof {
                assert(bb == pre);
                assert(harder_stuck(bb, non));
                assert(allows(non, NAKED_SINGLE as int) ==> !has_naked_single(bb) || naked_clash(bb));
                assert(walk_stuck(bb, non));
                assert(shrinks(*self, bb));
                assert(keeps_records(*self, bb));
                assert(!all_decided(bb));
                assert(non == scope & !target);
                assert(stalls_at(*self, bb, scope & !target));
            }
            if has_kind(tgt, NAKED_SINGLE) {
                let ghost pre = bb;
                let n = bb.drain_naked_singles();
                proof {
                    lemma_keeps_trans(*self, pre, bb);
                }
                if n > 0 {
                    proof {
                        lemma_uses_bound(uses, self.measure(), pre.measure());
                        lemma_uses_step(uses, n as int, self.measure(), pre.measure(), bb.measure());
                    }
                    uses = if uses > u32::MAX - (n as u32) { u32::MAX } else { uses + n as u32 };
                    continue;
                }
            }
            proof {
                lemma_clash_open(bb);
                assert(!all_decided(bb));
            }
            let ghost pre = bb;
            let st = bb.step_harder(tgt);
            proof {
                lemma_keeps_trans(*self, pre, bb);
            }
            match st {
                Some(_) => {
                    proof {
                        lemma_uses_bound(uses, self.measure(), pre.measure());
                        lemma_uses_step(uses, 1, self.measure(), pre.measure(), bb.measure());
                    }
                    uses = if uses == u32::MAX { u32::MAX } else { uses + 1 };
                },
                None => {
                    proof {
                        assert(walk_stuck(bb, tgt));
                        assert(shrinks(*self, bb));
                        assert(keeps_records(*self, bb));
                        assert(!all_decided(bb));
                        assert(stalls_at(*self, bb, scope & target));
                    }
                    return u32::MAX;
                },
            }
        }
    }
}

/// `b` is an undecided board that `b0` shrinks to, keeping every record, on
/// which no kind of `a` applies.
pub open spec fn stalls_at(b0: BitBoard, b: BitBoard, a: u32) -> bool {
    &&& shrinks(b0, b)
    &&& keeps_records(b0, b)
    &&& !all_decided(b)
    &&& walk_stuck(b, a)
}

/// Solving `b0` with the kinds of `a` can reach a board where none of them applies.
pub open spec fn can_stall(b0: BitBoard, a: u32) -> bool {
    exists|b: BitBoard| #[trigger] stalls_at(b0, b, a)
}

/// A toolbox stalls wherever a larger one does: when every kind of `a2` is in
/// `a1` and solving `b0` with `a1` can stall, so can solving it with `a2`.
/// With the avoid-target walk, a target that was used at all therefore finds
/// every toolbox made of in-scope kinds other than the target stalled.
pub proof fn law_stall_fewer_kinds(b0: BitBoard, a1: u32, a2: u32)
    requires
        forall|j: u32| j < 32 && #[trigger] bit32(a2, j) ==> bit32(a1, j),
        can_stall(b0, a1),
    ensures
        can_stall(b0, a2),
{
    let b = choose|b: BitBoard| #[trigger] stalls_at(b0, b, a1);
    assert forall|k: int| 0 <= k < 32 && allows(a2, k) implies allows(a1, k) by {
        assert(bit32(a2, k as u32));
    }
    assert(stalls_at(b0, b, a2));
}

/// A naked-single clash sits on undecided cells.
pub proof fn lemma_clash_open(bb: BitBoard)
    ensures
        naked_clash(bb) ==> !all_decided(bb),
{
    if naked_clash(bb) {
        let (p, q, d) = choose|p: int, q: int, d: int|
            0 <= p < 81 && 0 <= q < 81 && 0 <= d < 9 && #[trigger] is_peer(p, q) && bb.open(p) && bb.open(q) && #[trigger] bb.cand(d, p)
                && #[trigger] bb.cand(d, q) && (forall|e: int| 0 <= e < 9 && #[trigger] bb.cand(e, p) ==> e == d) && (forall|e: int|
                0 <= e < 9 && #[trigger] bb.cand(e, q) ==> e == d);
        assert(bb.open(p));
    }
}

/// The use count stays below the saturation value: at most 0xffff per unit of
/// measure, and the measure is at most 1920.
proof fn lemma_uses_bound(uses: u32, m0: nat, m: nat)
    requires
        uses as int <= 0xffff * (m0 - m),
        m0 <= 1920,
        m >= 0,
    ensures
        uses < u32::MAX,
        uses as int <= 0xffff * 1920 - 0xffff * m,
{
    assert(0xffff * (m0 - m) <= 0xffff * 1920 - 0xffff * m) by (nonlinear_arith)
        requires
            m0 <= 1920,
    ;
}

/// Adding at most 0xffff uses while the measure drops keeps the bound.
proof fn lemma_uses_step(uses: u32, k: int, m0: nat, m: nat, m2: nat)
    requires
        uses as int <= 0xffff * (m0 - m),
        0 < k <= 0xffff,
        m2 < m,
        m0 <= 1920,
        m2 >= 0,
    ensures
        uses as int + k <= 0xffff * (m0 - m2),
        uses as int + k < u32::MAX,
{
    assert(0xffff * (m0 - m) + 0xffff <= 0xffff * (m0 - m2)) by (nonlinear_arith)
        requires
            m2 < m,
    ;
    assert(0xffff * (m0 - m2) <= 0xffff * 1920) by (nonlinear_arith)
        requires
            m0 <= 1920,
            m2 >= 0,
    ;
}

/// How many of the first `n` cells of unit `u` are undecided with digit `d + 1`
/// among their candidates.
pub open spec fn live_count(bb: BitBoard, d: int, u: int, n: int) -> nat
    decreases n,
{
    if n <= 0 {
        0
    } else {
        live_count(bb, d, u, n - 1) + if bb.open(crate::grid::unit_cell(u, n - 1)) && bb.cand(d, crate::grid::unit_cell(u, n - 1)) {
            1nat
        } else {
            0nat
        }
    }
}

/// Two distinct live homes among a unit's first `n` cells count at least two.
pub proof fn lemma_live_two(bb: BitBoard, d: int, u: int, n: int, x1: int, x2: int)
    requires
        0 <= x1 < n,
        0 <= x2 < n,
        x1 != x2,
        bb.open(crate::grid::unit_cell(u, x1)) && bb.cand(d, crate::grid::unit_cell(u, x1)),
        bb.open(crate::grid::unit_cell(u, x2)) && bb.cand(d, crate::grid::unit_cell(u, x2)),
    ensures
        live_count(bb, d, u, n) >= 2,
    decreases n,
{
    if x1 == n - 1 || x2 == n - 1 {
        let other = if x1 == n - 1 { x2 } else { x1 };
        lemma_live_one(bb, d, u, n - 1, other);
    } else {
        lemma_live_two(bb, d, u, n - 1, x1, x2);
    }
}

/// A live home among a unit's first `n` cells counts at least one.
pub proof fn lemma_live_one(bb: BitBoard, d: int, u: int, n: int, x: int)
    requires
        0 <= x < n,
        bb.open(crate::grid::unit_cell(u, x)) && bb.cand(d, crate::grid::unit_cell(u, x)),
    ensures
        live_count(bb, d, u, n) >= 1,
    decreases n,
{
    if x < n - 1 {
        lemma_live_one(bb, d, u, n - 1, x);
    }
}

/// A positive count has a live home.
pub proof fn lemma_live_some(bb: BitBoard, d: int, u: int, n: int) -> (x: int)
    requires
        live_count(bb, d, u, n) >= 1,
    ensures
        0 <= x < n,
        bb.open(crate::grid::unit_cell(u, x)) && bb.cand(d, crate::grid::unit_cell(u, x)),
    decreases n,
{
    if n <= 0 {
        0
    } else if bb.open(crate::grid::unit_cell(u, n - 1)) && bb.cand(d, crate::grid::unit_cell(u, n - 1)) {
        n - 1
    } else {
        lemma_live_some(bb, d, u, n - 1)
    }
}

/// A single live home in a unit is the single position of the unit's live set.
proof fn lemma_lone_pos(bb: BitBoard, pos: B, d: int, u: int)
    requires
        0 <= u < 27,
        live_count(bb, d, u, 9) == 1,
        forall|j: int| 0 <= j < 81 ==> #[trigger] has_pos(pos, j) == (bb.cand(d, j) && bb.open(j) && crate::layout::in_unit(u, j)),
    ensures
        crate::layout::one_pos(pos),
{
    let x = lemma_live_some(bb, d, u, 9);
    let p = crate::grid::unit_cell(u, x);
    crate::probe::techniques::lemma_unit_cell_bound(u, x);
    lemma_in_unit(u, p);
    assert(has_pos(pos, p));
    assert forall|q: int| 0 <= q < 81 && #[trigger] has_pos(pos, q) implies q == p by {
        lemma_in_unit(u, q);
        let kq = choose|k: int| 0 <= k < 9 && crate::grid::unit_cell(u, k) == q;
        if kq != x {
            lemma_live_two(bb, d, u, 9, kq, x);
        }
    }
}

/// The cells of unit `u` are exactly its nine slots.
pub proof fn lemma_in_unit(u: int, j: int)
    requires
        0 <= u < 27,
        0 <= j < 81,
    ensures
        crate::layout::in_unit(u, j) <==> exists|k: int| 0 <= k < 9 && crate::grid::unit_cell(u, k) == j,
{
    let r = j / 9;
    let c = j % 9;
    vstd::arithmetic::div_mod::lemma_fundamental_div_mod_converse(j, 9, r, c);
    crate::grid::lemma_box_slot(j);
    if crate::layout::in_unit(u, j) {
        let k = if u < 9 { c } else if u < 18 { r } else { (r % 3) * 3 + c % 3 };
        assert(crate::grid::unit_cell(u, k) == j);
    }
    if exists|k: int| 0 <= k < 9 && crate::grid::unit_cell(u, k) == j {
        let k = choose|k: int| 0 <= k < 9 && crate::grid::unit_cell(u, k) == j;
        if u >= 18 {
            let b = u - 18;
            let rr = (b / 3) * 3 + k / 3;
            let cc = (b % 3) * 3 + k % 3;
            assert(0 <= cc < 9 && 0 <= rr < 9);
            vstd::arithmetic::div_mod::lemma_fundamental_div_mod_converse(j, 9, rr, cc);
            vstd::arithmetic::div_mod::lemma_fundamental_div_mod_converse(rr, 3, b / 3, k / 3);
            vstd::arithmetic::div_mod::lemma_fundamental_div_mod_converse(cc, 3, b % 3, k % 3);
        } else if u >= 9 {
            vstd::arithmetic::div_mod::lemma_fundamental_div_mod_converse(j, 9, k, u - 9);
        } else {
            vstd::arithmetic::div_mod::lemma_fundamental_div_mod_converse(j, 9, u, k);
        }
    }
}

impl BitBoard {
    /// Whether cell `j` is undecided.
    pub fn is_open(&self, j: usize) -> (r: bool)
        requires
            self.wf(),
            j < 81,
        ensures
            r == self.open(j as int),
    {
        let cb = bit_r(j);
        proof {
            lemma_ok_ops(self.unsolved_r, cb);
        }
        let x = band_and(self.unsolved_r, cb);
        let hit = nonzero(x);
        proof {
            lemma_pos_and(x, self.unsolved_r, cb, j as int);
            assert(in_r(cb, j as int));
            if hit {
                let p = choose|p: int| 0 <= p < 81 && #[trigger] has_pos(x, p);
                lemma_pos_and(x, self.unsolved_r, cb, p);
                assert(in_r(cb, p));
            }
        }
        hit
    }

    /// Cell `j` is undecided with digit `d + 1` among its candidates.
    fn live_at(&self, d: usize, j: usize) -> (r: bool)
        requires
            self.wf(),
            d < 9,
            j < 81,
        ensures
            r == (self.open(j as int) && self.cand(d as int, j as int)),
    {
        let cb = bit_r(j);
        proof {
            lemma_ok_ops(self.r[d as int], self.unsolved_r);
        }
        let x = band_and(self.r[d], self.unsolved_r);
        proof {
            lemma_ok_ops(x, cb);
        }
        let y = band_and(x, cb);
        let hit = nonzero(y);
        proof {
            lemma_pos_and(y, x, cb, j as int);
            lemma_pos_and(x, self.r[d as int], self.unsolved_r, j as int);
            assert(in_r(cb, j as int));
            assert(self.open(j as int) == has_pos(self.unsolved_r, j as int));
            assert(self.cand(d as int, j as int) == has_pos(self.r[d as int], j as int));
            if hit {
                let p = choose|p: int| 0 <= p < 81 && #[trigger] has_pos(y, p);
                lemma_pos_and(y, x, cb, p);
                assert(in_r(cb, p));
            }
        }
        hit
    }

    /// The number of cells of unit `u` that are undecided with digit `d + 1` among
    /// their candidates.
    fn unit_live(&self, d: usize, u: usize) -> (n: u32)
        requires
            self.wf(),
            d < 9,
            u < 27,
        ensures
            n == live_count(*self, d as int, u as int, 9),
    {
        let cells = unit_cells(u);
        let mut n: u32 = 0;
        let mut k: usize = 0;
        while k < 9
            invariant
                0 <= k <= 9,
                self.wf(),
                d < 9,
                u < 27,
                forall|q: int| 0 <= q < 9 ==> #[trigger] cells[q] == crate::grid::unit_cell(u as int, q) && cells[q] < 81,
                n == live_count(*self, d as int, u as int, k as int),
                n <= k,
            decreases 9 - k,
        {
            assert(cells[k as int] == crate::grid::unit_cell(u as int, k as int));
            if self.live_at(d, cells[k]) {
                n += 1;
            }
            k += 1;
        }
        n
    }

    /// After a strip of `cell` back to undecided: the units in which digit `orig` has
    /// exactly one undecided candidate home (bit 0 the row, bit 1 the column, bit 2
    /// the box). With `orig` still a candidate of `cell`, a set bit means every
    /// completion puts `orig` back at `cell`.
    pub fn reforced(&self, cell: usize, orig: u8) -> (m: u8)
        requires
            self.wf(),
            cell < 81,
            1 <= orig <= 9,
        ensures
            m == (if live_count(*self, orig - 1, crate::grid::row_spec(cell as int), 9) == 1 { 1int } else { 0int })
                + (if live_count(*self, orig - 1, 9 + crate::grid::col_spec(cell as int), 9) == 1 { 2int } else { 0int })
                + (if live_count(*self, orig - 1, 18 + crate::grid::box_spec(cell as int), 9) == 1 { 4int } else { 0int }),
    {
        let d = (orig - 1) as usize;
        let row = self.unit_live(d, cell / 9);
        let col = self.unit_live(d, 9 + cell % 9);
        let bx = self.unit_live(d, 18 + (cell / 27) * 3 + (cell % 9) / 3);
        let mut m: u8 = 0;
        if row == 1 {
            m += 1;
        }
        if col == 1 {
            m += 2;
        }
        if bx == 1 {
            m += 4;
        }
        m
    }
}


/// The prober toolbox experiment: propagation under a chosen technique set, one
/// pass mirroring one tick of the packed prober.
impl BitBoard {
    /// Remove digit `d + 1` from cell `c` when it is an undecided candidate there.
    fn drop_live(&mut self, d: usize, c: usize) -> (did: bool)
        requires
            old(self).wf(),
            d < 9,
            c < 81,
        ensures
            shrinks(*old(self), *final(self)),
            did ==> final(self).measure() < old(self).measure(),
            did == (old(self).open(c as int) && old(self).cand(d as int, c as int)),
            forall|j: int| 0 <= j < 81 ==> #[trigger] final(self).open(j) == old(self).open(j),
            forall|e: int, j: int| 0 <= e < 9 && 0 <= j < 81 ==> #[trigger] final(self).cand(e, j) == (old(self).cand(e, j) && !(did
                && j == c && e == d)),
    {
        if !self.live_at(d, c) {
            return false;
        }
        let rm: u16 = 1u16 << (d as u16);
        proof {
            assert forall|e: int| 0 <= e < 9 && #[trigger] mask_has(rm, (e + 1) as u8) implies self.cand(e, c as int) by {
                crate::bits::lemma_bit16_one(d as u16, e as u16);
            }
            crate::bits::lemma_bit16_one(d as u16, d as u16);
            assert(mask_has(rm, (d + 1) as u8));
            assert forall|e: int| 0 <= e < 9 implies #[trigger] mask_has(rm, (e + 1) as u8) == (e == d) by {
                crate::bits::lemma_bit16_one(d as u16, e as u16);
            }
        }
        self.clear_mask_at(c, rm)
    }

    /// The box of cell `c`.
    fn box_index(c: usize) -> (b: usize)
        requires
            c < 81,
        ensures
            b < 9,
            b == crate::grid::box_spec(c as int),
    {
        (c / 27) * 3 + (c % 9) / 3
    }

    /// Locked candidates between boxes and rows (`rows`) or boxes and columns,
    /// read off a snapshot of the board: a digit confined to one line within a box
    /// leaves the rest of that line, and a digit confined to one box within a line
    /// leaves the rest of that box. Returns whether any candidate left.
    #[verifier::rlimit(100)]
    fn lc_orient(&mut self, rows: bool) -> (changed: bool)
        requires
            old(self).wf(),
        ensures
            shrinks(*old(self), *final(self)),
            changed ==> final(self).measure() < old(self).measure(),
            !changed ==> *final(self) == *old(self),
            keeps_records(*old(self), *final(self)),
            !changed ==> forall|d: int, b: int, l: int| 0 <= d < 9 && 0 <= b < 9 && orient_line(rows, l) ==> !#[trigger] locked_elim1(
                *old(self),
                d,
                18 + b,
                l,
            ),
            !changed ==> forall|d: int, b: int, l: int| 0 <= d < 9 && 0 <= b < 9 && orient_line(rows, l) ==> !#[trigger] locked_elim1(
                *old(self),
                d,
                l,
                18 + b,
            ),
    {
        let snap = *self;
        let mut changed = false;
        let mut d: usize = 0;
        while d < 9
            invariant
                0 <= d <= 9,
                snap == *old(self),
                snap.wf(),
                shrinks(*old(self), *self),
                forall|j: int| 0 <= j < 81 ==> #[trigger] self.open(j) == old(self).open(j),
                changed ==> self.measure() < old(self).measure(),
                !changed ==> same_views(*self, snap),
                !changed ==> *self == snap,
                !changed ==> forall|d2: int, b: int, l: int| 0 <= d2 < d && 0 <= b < 9 && orient_line(rows, l) ==> !#[trigger] locked_elim1(
                    snap,
                    d2,
                    18 + b,
                    l,
                ),
                !changed ==> forall|d2: int, b: int, l: int| 0 <= d2 < d && 0 <= b < 9 && orient_line(rows, l) ==> !#[trigger] locked_elim1(
                    snap,
                    d2,
                    l,
                    18 + b,
                ),
            decreases 9 - d,
        {
            let mut u: usize = 0;
            while u < 9
                invariant
                    0 <= u <= 9,
                    d < 9,
                    snap == *old(self),
                    snap.wf(),
                    shrinks(*old(self), *self),
                    forall|j: int| 0 <= j < 81 ==> #[trigger] self.open(j) == old(self).open(j),
                    changed ==> self.measure() < old(self).measure(),
                    !changed ==> same_views(*self, snap),
                    !changed ==> *self == snap,
                    !changed ==> forall|d2: int, b: int, l: int| 0 <= d2 < d && 0 <= b < 9 && orient_line(rows, l) ==> !#[trigger] locked_elim1(
                        snap,
                        d2,
                        18 + b,
                        l,
                    ),
                    !changed ==> forall|d2: int, b: int, l: int| 0 <= d2 < d && 0 <= b < 9 && orient_line(rows, l) ==> !#[trigger] locked_elim1(
                        snap,
                        d2,
                        l,
                        18 + b,
                    ),
                    !changed ==> forall|b: int, l: int| 0 <= b < u && orient_line(rows, l) ==> !#[trigger] locked_elim1(snap, d as int, 18 + b, l),
                    !changed ==> forall|b: int, l2: int| 0 <= b < 9 && 0 <= l2 < u ==> !#[trigger] locked_elim1(
                        snap,
                        d as int,
                        line_unit(rows, l2),
                        18 + b,
                    ),
                decreases 9 - u,
            {
                // Pointing: within box `u`, is digit `d` confined to one line?
                let bcells = unit_cells(18 + u);
                let mut line: usize = 9;
                let mut one = true;
                let mut k: usize = 0;
                while k < 9
                    invariant
                        0 <= k <= 9,
                        d < 9,
                        u < 9,
                        line <= 9,
                        snap.wf(),
                        forall|q: int| 0 <= q < 9 ==> #[trigger] bcells[q] == crate::grid::unit_cell(18 + u, q) && bcells[q] < 81,
                        line == 9 ==> one && forall|q: int| 0 <= q < k ==> !#[trigger] live(snap, d as int, bcells[q] as int),
                        line < 9 ==> exists|q: int| 0 <= q < k && #[trigger] live(snap, d as int, bcells[q] as int) && line_of(rows, bcells[q] as int) == line,
                        one && line < 9 ==> forall|q: int| 0 <= q < k && #[trigger] live(snap, d as int, bcells[q] as int) ==> line_of(rows, bcells[q] as int) == line,
                        !one ==> exists|q1: int, q2: int| 0 <= q1 < k && 0 <= q2 < k && #[trigger] live(snap, d as int, bcells[q1] as int)
                            && #[trigger] live(snap, d as int, bcells[q2] as int) && line_of(rows, bcells[q1] as int) != line_of(rows, bcells[q2] as int),
                    decreases 9 - k,
                {
                    let c = bcells[k];
                    if snap.live_at(d, c) {
                        let l = if rows {
                            c / 9
                        } else {
                            c % 9
                        };
                        proof {
                            assert(l as int == line_of(rows, c as int));
                        }
                        if line == 9 {
                            line = l;
                            proof {
                                assert(live(snap, d as int, bcells[k as int] as int) && line_of(rows, bcells[k as int] as int) == line);
                            }
                        } else if line != l {
                            proof {
                                let q = choose|q: int| 0 <= q < k && #[trigger] live(snap, d as int, bcells[q] as int) && line_of(rows, bcells[q] as int) == line;
                                assert(live(snap, d as int, bcells[k as int] as int));
                            }
                            one = false;
                        }
                    }
                    k += 1;
                }
                proof {
                    if !changed {
                        lemma_pointing_none(snap, rows, d as int, u as int, bcells, line as int, one);
                    }
                }
                let ghost ch_a = changed;
                if one && line < 9 {
                    let lcells = unit_cells(if rows {
                        line
                    } else {
                        9 + line
                    });
                    let ghost lu = line_unit(rows, line as int);
                    let mut k: usize = 0;
                    while k < 9
                        invariant
                            0 <= k <= 9,
                            d < 9,
                            u < 9,
                            line < 9,
                            lu == line_unit(rows, line as int),
                            ch_a ==> changed,
                            snap == *old(self),
                            snap.wf(),
                            forall|q: int| 0 <= q < 9 ==> #[trigger] lcells[q] == crate::grid::unit_cell(lu, q) && lcells[q] < 81,
                            shrinks(*old(self), *self),
                            forall|j: int| 0 <= j < 81 ==> #[trigger] self.open(j) == old(self).open(j),
                            changed ==> self.measure() < old(self).measure(),
                            !changed ==> same_views(*self, snap),
                            !changed ==> *self == snap,
                            !changed ==> forall|q: int| 0 <= q < k ==> !(crate::grid::box_spec(#[trigger] lcells[q] as int) != u && live(
                                snap,
                                d as int,
                                lcells[q] as int,
                            )),
                        decreases 9 - k,
                    {
                        let c = lcells[k];
                        if Self::box_index(c) != u && snap.live_at(d, c) {
                            let ghost before = *self;
                            if self.drop_live(d, c) {
                                changed = true;
                            }
                            proof {
                                lemma_within_trans(*self, before, *old(self));
                            }
                        }
                        k += 1;
                    }
                    proof {
                        if !changed {
                            lemma_pointing_target(snap, rows, d as int, u as int, lcells, line as int);
                        }
                    }
                }
                proof {
                    if !changed {
                        assert(!ch_a);
                        assert forall|l: int| orient_line(rows, l) implies !#[trigger] locked_elim1(snap, d as int, 18 + u, l) by {
                            if one && line < 9 && l == line_unit(rows, line as int) {
                            }
                        }
                    }
                }
                let ghost ch_b = changed;
                // Claiming: within line `u`, is digit `d` confined to one box?
                let lcells = unit_cells(if rows {
                    u
                } else {
                    9 + u
                });
                let ghost lu = line_unit(rows, u as int);
                let mut bx: usize = 9;
                let mut one = true;
                let mut k: usize = 0;
                while k < 9
                    invariant
                        0 <= k <= 9,
                        d < 9,
                        u < 9,
                        bx <= 9,
                        lu == line_unit(rows, u as int),
                        snap.wf(),
                        forall|q: int| 0 <= q < 9 ==> #[trigger] lcells[q] == crate::grid::unit_cell(lu, q) && lcells[q] < 81,
                        bx == 9 ==> one && forall|q: int| 0 <= q < k ==> !#[trigger] live(snap, d as int, lcells[q] as int),
                        bx < 9 ==> exists|q: int| 0 <= q < k && #[trigger] live(snap, d as int, lcells[q] as int) && crate::grid::box_spec(lcells[q] as int) == bx,
                        one && bx < 9 ==> forall|q: int| 0 <= q < k && #[trigger] live(snap, d as int, lcells[q] as int) ==> crate::grid::box_spec(lcells[q] as int) == bx,
                        !one ==> exists|q1: int, q2: int| 0 <= q1 < k && 0 <= q2 < k && #[trigger] live(snap, d as int, lcells[q1] as int)
                            && #[trigger] live(snap, d as int, lcells[q2] as int) && crate::grid::box_spec(lcells[q1] as int) != crate::grid::box_spec(lcells[q2] as int),
                    decreases 9 - k,
                {
                    let c = lcells[k];
                    if snap.live_at(d, c) {
                        let b = Self::box_index(c);
                        if bx == 9 {
                            bx = b;
                            proof {
                                assert(live(snap, d as int, lcells[k as int] as int) && crate::grid::box_spec(lcells[k as int] as int) == bx);
                            }
                        } else if bx != b {
                            proof {
                                let q = choose|q: int| 0 <= q < k && #[trigger] live(snap, d as int, lcells[q] as int) && crate::grid::box_spec(lcells[q] as int) == bx;
                                assert(live(snap, d as int, lcells[k as int] as int));
                            }
                            one = false;
                        }
                    }
                    k += 1;
                }
                proof {
                    if !changed {
                        lemma_claiming_none(snap, rows, d as int, u as int, lcells, bx as int, one);
                    }
                }
                let ghost ch_c = changed;
                if one && bx < 9 {
                    let bcells = unit_cells(18 + bx);
                    let mut k: usize = 0;
                    while k < 9
                        invariant
                            0 <= k <= 9,
                            d < 9,
                            u < 9,
                            bx < 9,
                            ch_b ==> changed,
                            ch_c ==> changed,
                            snap == *old(self),
                            snap.wf(),
                            forall|q: int| 0 <= q < 9 ==> #[trigger] bcells[q] == crate::grid::unit_cell(18 + bx, q) && bcells[q] < 81,
                            shrinks(*old(self), *self),
                            forall|j: int| 0 <= j < 81 ==> #[trigger] self.open(j) == old(self).open(j),
                            changed ==> self.measure() < old(self).measure(),
                            !changed ==> same_views(*self, snap),
                            !changed ==> *self == snap,
                            !changed ==> forall|q: int| 0 <= q < k ==> !(line_of(rows, #[trigger] bcells[q] as int) != u && live(
                                snap,
                                d as int,
                                bcells[q] as int,
                            )),
                        decreases 9 - k,
                    {
                        let c = bcells[k];
                        let l = if rows {
                            c / 9
                        } else {
                            c % 9
                        };
                        proof {
                            assert(l as int == line_of(rows, c as int));
                        }
                        if l != u && snap.live_at(d, c) {
                            let ghost before = *self;
                            if self.drop_live(d, c) {
                                changed = true;
                            }
                            proof {
                                lemma_within_trans(*self, before, *old(self));
                            }
                        }
                        k += 1;
                    }
                    proof {
                        if !changed {
                            lemma_claiming_target(snap, rows, d as int, u as int, bcells, bx as int);
                        }
                    }
                }
                proof {
                    if !changed {
                        assert(!ch_b && !ch_c);
                        assert forall|b: int| 0 <= b < 9 implies !#[trigger] locked_elim1(snap, d as int, line_unit(rows, u as int), 18 + b) by {
                            if one && bx < 9 && b == bx {
                            }
                        }
                        assert forall|b: int, l: int| 0 <= b < u + 1 && orient_line(rows, l) implies !#[trigger] locked_elim1(
                            snap,
                            d as int,
                            18 + b,
                            l,
                        ) by {
                        }
                        assert forall|b: int, l2: int| 0 <= b < 9 && 0 <= l2 < u + 1 implies !#[trigger] locked_elim1(
                            snap,
                            d as int,
                            line_unit(rows, l2),
                            18 + b,
                        ) by {
                        }
                    }
                }
                u += 1;
            }
            proof {
                if !changed {
                    assert forall|d2: int, b: int, l: int| 0 <= d2 < d + 1 && 0 <= b < 9 && orient_line(rows, l) implies !#[trigger] locked_elim1(
                        snap,
                        d2,
                        l,
                        18 + b,
                    ) by {
                        if d2 == d {
                            let l2 = if rows { l } else { l - 9 };
                            assert(line_unit(rows, l2) == l);
                        }
                    }
                }
            }
            d += 1;
        }
        proof {
            lemma_keeps_elim(*old(self), *self);
        }
        changed
    }

    /// The lone undecided home of digit `d + 1` in unit `u`, if it has exactly one.
    fn lone_home(&self, d: usize, u: usize) -> (r: Option<usize>)
        requires
            self.wf(),
            d < 9,
            u < 27,
        ensures
            r matches Some(c) ==> c < 81 && self.open(c as int) && self.cand(d as int, c as int),
            r is Some <==> live_count(*self, d as int, u as int, 9) == 1,
            r matches Some(c) ==> exists|k: int| 0 <= k < 9 && crate::grid::unit_cell(u as int, k) == c,
    {
        let cells = unit_cells(u);
        let mut n: usize = 0;
        let mut at: usize = 0;
        let mut k: usize = 0;
        while k < 9
            invariant
                0 <= k <= 9,
                self.wf(),
                d < 9,
                u < 27,
                forall|q: int| 0 <= q < 9 ==> #[trigger] cells[q] == crate::grid::unit_cell(u as int, q) && cells[q] < 81,
                n > 0 ==> at < 81 && self.open(at as int) && self.cand(d as int, at as int),
                n > 0 ==> exists|q: int| 0 <= q < k && crate::grid::unit_cell(u as int, q) == at,
                n == live_count(*self, d as int, u as int, k as int),
                n <= k,
            decreases 9 - k,
        {
            if self.live_at(d, cells[k]) {
                n += 1;
                at = cells[k];
            }
            k += 1;
        }
        if n == 1 {
            Some(at)
        } else {
            None
        }
    }

    /// One propagation pass under toolbox `tb`: the enabled locked-candidate
    /// sweeps, then (if no undecided cell has run out of candidates and some are
    /// left) digit by digit the naked singles of the pass start and the enabled
    /// hidden singles found on the board as it stands, placed together. Returns the
    /// verdict and whether anything changed; two peers placed with one digit in a
    /// pass are a contradiction.
    fn tb_pass(&mut self, tb: crate::probe::toolbox::Tb) -> (r: (Prop, bool))
        requires
            old(self).wf(),
        ensures
            shrinks(*old(self), *final(self)),
            r.1 ==> final(self).measure() < old(self).measure(),
            r.0 == Prop::Solved ==> all_decided(*final(self)),
            r.0 == Prop::Stuck && !r.1 ==> stuck_under(*old(self), tb) && *final(self) == *old(self),
            r.0 != Prop::Contradiction ==> keeps_records(*old(self), *final(self)),
    {
        let mut changed = false;
        proof {
            lemma_keeps_refl(*self);
        }
        if tb.lcr {
            if self.lc_orient(true) {
                changed = true;
            }
        }
        let ghost after_rows = *self;
        if tb.lcc {
            let ghost before = *self;
            if self.lc_orient(false) {
                changed = true;
            }
            proof {
                lemma_within_trans(*self, before, *old(self));
                lemma_keeps_trans(*old(self), before, *self);
            }
        }
        proof {
            if !changed {
                assert(*self == *old(self));
                assert(tb.lcr ==> lc_clear(*old(self), true));
                assert(tb.lcc ==> lc_clear(*old(self), false));
            }
        }
        let (ones, twos) = self.sieve();
        proof {
            lemma_ok_ops(self.unsolved_r, ones);
        }
        if nonzero(band_andnot(self.unsolved_r, ones)) {
            return (Prop::Contradiction, false);
        }
        if !self.any_open() {
            return (Prop::Solved, false);
        }
        let mut naked_cells = [false; 81];
        if tb.nk {
            let mut c: usize = 0;
            while c < 81
                invariant
                    0 <= c <= 81,
                    self.wf(),
                decreases 81 - c,
            {
                naked_cells[c] = self.is_open(c) && crate::grid::popcount(self.cell_candidates(c)) == 1;
                c += 1;
            }
        }
        let mut dead = false;
        let mut d: usize = 0;
        while d < 9
            invariant
                0 <= d <= 9,
                self.wf(),
                shrinks(*old(self), *self),
                !dead ==> keeps_records(*old(self), *self),
                changed ==> self.measure() < old(self).measure(),
                !changed ==> *self == *old(self),
                !changed ==> !all_decided(*old(self)),
                !changed ==> (tb.lcr ==> lc_clear(*old(self), true)) && (tb.lcc ==> lc_clear(*old(self), false)),
                !changed ==> forall|d2: int, u: int| 0 <= d2 < d && 0 <= u < 27 && tb_wants(tb, u) ==> #[trigger] live_count(
                    *old(self),
                    d2,
                    u,
                    9,
                ) != 1,
            decreases 9 - d,
        {
            let mut group = [false; 81];
            let mut any = false;
            let mut c: usize = 0;
            while c < 81
                invariant
                    0 <= c <= 81,
                    d < 9,
                    self.wf(),
                    any ==> exists|q: int| 0 <= q < 81 && #[trigger] group[q] && self.open(q) && self.cand(d as int, q),
                    forall|q: int| 0 <= q < 81 && #[trigger] group[q] ==> self.open(q) && self.cand(d as int, q),
                decreases 81 - c,
            {
                if naked_cells[c] && self.live_at(d, c) {
                    group[c] = true;
                    any = true;
                    assert(group[c as int] && self.open(c as int) && self.cand(d as int, c as int));
                }
                c += 1;
            }
            let mut u: usize = 0;
            while u < 27
                invariant
                    0 <= u <= 27,
                    d < 9,
                    self.wf(),
                    any ==> exists|q: int| 0 <= q < 81 && #[trigger] group[q] && self.open(q) && self.cand(d as int, q),
                    forall|q: int| 0 <= q < 81 && #[trigger] group[q] ==> self.open(q) && self.cand(d as int, q),
                    !any ==> forall|u2: int| 0 <= u2 < u && tb_wants(tb, u2) ==> #[trigger] live_count(*self, d as int, u2, 9) != 1,
                decreases 27 - u,
            {
                let wanted = if u < 9 || u >= 18 {
                    tb.rb
                } else {
                    tb.col
                };
                proof {
                    assert(wanted == tb_wants(tb, u as int));
                }
                if wanted {
                    match self.lone_home(d, u) {
                        Some(c) => {
                            group[c] = true;
                            any = true;
                            assert(group[c as int] && self.open(c as int) && self.cand(d as int, c as int));
                        },
                        None => {},
                    }
                }
                u += 1;
            }
            if any {
                let ghost m0 = self.measure();
                // Two group cells that see each other place the digit twice.
                let mut p: usize = 0;
                while p < 81
                    invariant
                        0 <= p <= 81,
                        !dead ==> keeps_records(*old(self), *self),
                        !dead ==> forall|p2: int, q2: int| 0 <= p2 < p && p2 < q2 < 81 && #[trigger] group[p2] && #[trigger] group[q2]
                            ==> !is_peer(p2, q2),
                    decreases 81 - p,
                {
                    if group[p] {
                        let mut q: usize = p + 1;
                        while q < 81
                            invariant
                                p < q <= 81,
                                group[p as int],
                                !dead ==> keeps_records(*old(self), *self),
                                !dead ==> forall|p2: int, q2: int| 0 <= p2 < p && p2 < q2 < 81 && #[trigger] group[p2] && #[trigger] group[q2]
                                    ==> !is_peer(p2, q2),
                                !dead ==> forall|q2: int| p < q2 < q && #[trigger] group[q2] ==> !is_peer(p as int, q2),
                            decreases 81 - q,
                        {
                            if group[q] && crate::grid::peer_of(p, q) {
                                dead = true;
                            }
                            q += 1;
                        }
                    }
                    p += 1;
                }
                let mut placed_open = false;
                let mut c: usize = 0;
                while c < 81
                    invariant
                        0 <= c <= 81,
                        d < 9,
                        self.wf(),
                        shrinks(*old(self), *self),
                        self.measure() <= m0,
                        m0 <= old(self).measure(),
                        placed_open ==> self.measure() < m0,
                        !placed_open ==> forall|q: int| c <= q < 81 && #[trigger] group[q] ==> self.open(q),
                        !placed_open ==> exists|q: int| c <= q < 81 && #[trigger] group[q],
                        d < 9,
                        !dead ==> keeps_records(*old(self), *self),
                        !dead ==> forall|q: int| c <= q < 81 && #[trigger] group[q] ==> self.open(q) && self.cand(d as int, q),
                        !dead ==> forall|p2: int, q2: int| 0 <= p2 < 81 && 0 <= q2 < 81 && #[trigger] group[p2] && #[trigger] group[q2]
                            && p2 != q2 ==> !is_peer(p2, q2),
                    decreases 81 - c,
                {
                    if group[c] {
                        let ghost before = *self;
                        self.place(c, (d + 1) as u8);
                        proof {
                            lemma_within_trans(*self, before, *old(self));
                            if !dead {
                                lemma_keeps_place(before, *self, c as int, (d + 1) as u8);
                                lemma_keeps_trans(*old(self), before, *self);
                            }
                        }
                        placed_open = true;
                    }
                    c += 1;
                }
                changed = true;
            }
            d += 1;
        }
        if dead {
            (Prop::Contradiction, changed)
        } else {
            (Prop::Stuck, changed)
        }
    }

    /// Passes under toolbox `tb` until a pass changes nothing, the board is solved,
    /// or a contradiction shows; each pass counts into `passes`.
    fn tb_propagate(&mut self, tb: crate::probe::toolbox::Tb, passes: &mut u64) -> (r: Prop)
        requires
            old(self).wf(),
        ensures
            shrinks(*old(self), *final(self)),
            r == Prop::Solved ==> all_decided(*final(self)),
            *final(passes) >= *old(passes),
            r == Prop::Stuck ==> stuck_under(*final(self), tb),
            r != Prop::Contradiction ==> keeps_records(*old(self), *final(self)),
    {
        proof {
            lemma_keeps_refl(*self);
        }
        loop
            invariant
                self.wf(),
                shrinks(*old(self), *self),
                keeps_records(*old(self), *self),
                *passes >= *old(passes),
            decreases self.measure(),
        {
            *passes = passes.saturating_add(1);
            let ghost before = *self;
            let (fx, changed) = self.tb_pass(tb);
            proof {
                lemma_within_trans(*self, before, *old(self));
                if fx != Prop::Contradiction {
                    lemma_keeps_trans(*old(self), before, *self);
                }
            }
            match fx {
                Prop::Stuck => {
                    if !changed {
                        return Prop::Stuck;
                    }
                },
                _ => {
                    return fx;
                },
            }
        }
    }

    /// Count completions under toolbox `tb` into `found`, stopping once it reaches
    /// `cap`, branching as the prober does; every search node counts into `nodes`
    /// and every pass into `passes`. False when the node budget `cap_nodes` ran out
    /// (0: no budget).
    pub(crate) fn count_tb(
        &mut self,
        tb: crate::probe::toolbox::Tb,
        cap: usize,
        found: &mut usize,
        nodes: &mut u64,
        passes: &mut u64,
        cap_nodes: u64,
    ) -> (ok: bool)
        requires
            old(self).wf(),
            *old(found) < cap || *old(found) == 0,
        ensures
            final(self).wf(),
            *old(found) <= *final(found) <= count_cap(cap),
            *final(found) > *old(found) ==> exists|fin: BitBoard| decides(*old(self), fin),
            *final(nodes) > *old(nodes) || *old(nodes) == u64::MAX,
            *final(nodes) >= *old(nodes),
            *final(passes) >= *old(passes),
            !ok ==> cap_nodes != 0 && *final(nodes) >= cap_nodes,
        decreases old(self).measure(),
    {
        *nodes = nodes.saturating_add(1);
        if cap_nodes != 0 && *nodes >= cap_nodes {
            return false;
        }
        let ghost n1 = *nodes;
        assert(n1 >= *old(nodes));
        proof {
            lemma_keeps_refl(*self);
        }
        loop
            invariant
                self.wf(),
                n1 >= *old(nodes),
                shrinks(*old(self), *self),
                keeps_records(*old(self), *self),
                *old(found) <= *found <= count_cap(cap),
                *found < cap || *found == 0,
                *found > *old(found) ==> exists|fin: BitBoard| decides(*old(self), fin),
                *nodes >= n1,
                n1 > *old(nodes) || *old(nodes) == u64::MAX,
                *passes >= *old(passes),
            decreases self.measure(),
        {
            let ghost pre = *self;
            match self.tb_propagate(tb, passes) {
                Prop::Solved => {
                    proof {
                        lemma_within_trans(*self, pre, *old(self));
                        lemma_keeps_trans(*old(self), pre, *self);
                        assert(decides(*old(self), *self));
                    }
                    *found = *found + 1;
                    return true;
                },
                Prop::Contradiction => {
                    return true;
                },
                Prop::Stuck => {},
            }
            proof {
                lemma_within_trans(*self, pre, *old(self));
                lemma_keeps_trans(*old(self), pre, *self);
            }
            if !self.any_open() {
                return true;
            }
            let pb = ProberBoard::from_bitboard(self);
            let (cell, mask) = pb.branch_cell();
            let mut m = mask;
            let ghost m0 = self.measure();
            loop
                invariant_except_break
                    self.measure() == m0,
                    self.open(cell as int),
                    forall|e: u8| 1 <= e <= 9 && #[trigger] mask_has(m, e) ==> self.cand(e - 1, cell as int),
                invariant
                    self.wf(),
                    shrinks(*old(self), *self),
                    keeps_records(*old(self), *self),
                    cell < 81,
                    m < 512,
                    *old(found) <= *found <= count_cap(cap),
                    *found < cap || *found == 0,
                    *found > *old(found) ==> exists|fin: BitBoard| decides(*old(self), fin),
                    *nodes >= n1,
                    n1 >= *old(nodes),
                    n1 > *old(nodes) || *old(nodes) == u64::MAX,
                    *passes >= *old(passes),
                ensures
                    self.wf(),
                    shrinks(*old(self), *self),
                    keeps_records(*old(self), *self),
                    self.measure() < m0,
                    *old(found) <= *found <= count_cap(cap),
                    *found < cap || *found == 0,
                    *found > *old(found) ==> exists|fin: BitBoard| decides(*old(self), fin),
                    *nodes >= n1,
                    *passes >= *old(passes),
                decreases m,
            {
                if m == 0 {
                    return true;
                }
                let d = (m.trailing_zeros() + 1) as u8;
                proof {
                    vstd::std_specs::bits::axiom_u16_trailing_zeros(m);
                    if m.trailing_zeros() >= 9 {
                        crate::bits::lemma_bit16_low9(m, m.trailing_zeros() as u16);
                    }
                }
                let next = m & (m - 1);
                proof {
                    let k = m.trailing_zeros() as u16;
                    crate::bits::lemma_bit16_clear_lowest(m, k);
                    crate::bits::lemma_bit16_andnot_le(m, 1u16 << k);
                    crate::bits::lemma_bit16_and(m, !(1u16 << k), k);
                    crate::bits::lemma_bit16_not(1u16 << k, k);
                    crate::bits::lemma_bit16_one(k, k);
                    assert(next != m);
                    assert(next == m & !(1u16 << ((d - 1) as u16)));
                    assert(mask_has(m, d));
                    assert forall|e: u8| 1 <= e <= 9 && #[trigger] mask_has(next, e) implies mask_has(m, e) by {
                        crate::bits::lemma_bit16_and(m, !(1u16 << k), (e - 1) as u16);
                    }
                }
                if next == 0 {
                    let ghost before = *self;
                    self.place(cell, d);
                    proof {
                        lemma_within_trans(*self, before, *old(self));
                        lemma_keeps_place(before, *self, cell as int, d);
                        lemma_keeps_trans(*old(self), before, *self);
                    }
                    break;
                }
                let mut child = *self;
                child.place(cell, d);
                let ghost c0 = child;
                let ghost f0 = *found;
                proof {
                    lemma_keeps_place(*self, c0, cell as int, d);
                    lemma_keeps_trans(*old(self), *self, c0);
                }
                let ok = child.count_tb(tb, cap, found, nodes, passes, cap_nodes);
                proof {
                    if *found > f0 {
                        let fin = choose|fin: BitBoard| decides(c0, fin);
                        lemma_within_trans(fin, c0, *self);
                        lemma_within_trans(fin, *self, *old(self));
                        lemma_within_trans(c0, *self, *old(self));
                        lemma_keeps_trans(*old(self), c0, fin);
                        assert(decides(*old(self), fin));
                    }
                }
                if !ok {
                    return false;
                }
                if *found >= cap {
                    return true;
                }
                m = next;
            }
        }
    }
}

} // verus!
