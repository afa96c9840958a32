//! The SiSuS human-solver model: a randomized solver that uses only naked and
//! hidden singles, and when they stall fills the empty cell whose wrong
//! candidates are refuted fastest by random single steps. Its run log (the
//! refutation cost of each stalled step and the number of simple moves at each
//! step) is the raw material of two difficulty metrics.

use vstd::prelude::*;
use crate::grid::{Board, CELLS, mask_has, count_filled, unit_cell, conflict_free, no_conflict_at, blocked, is_peer, ones16, all_units, peer_of};
use crate::fill::{lemma_count_filled_update, lemma_count_filled_bound};
use crate::generator::board_from_cells;
use crate::probe::singles::first_completion;
use crate::probe::techniques::{extends, lemma_unit_cell_bound};
use crate::rng::Rng;

verus! {

/// Whether no two peers of `cells` hold the same digit.
pub fn is_conflict_free(cells: &[u8; 81]) -> (r: bool)
    ensures
        r == conflict_free(cells@),
{
    let mut i: usize = 0;
    while i < CELLS
        invariant
            0 <= i <= 81,
            forall|q: int| 0 <= q < i ==> #[trigger] no_conflict_at(cells@, q),
        decreases 81 - i,
    {
        if cells[i] != 0 {
            let mut j: usize = 0;
            while j < CELLS
                invariant
                    0 <= j <= 81,
                    i < 81,
                    cells@[i as int] != 0,
                    forall|q: int| 0 <= q < j ==> !(#[trigger] is_peer(i as int, q) && cells@[q] == cells@[i as int]),
                decreases 81 - j,
            {
                if peer_of(i, j) && cells[j] == cells[i] {
                    proof {
                        assert(blocked(cells@, i as int, cells@[i as int]));
                        assert(!no_conflict_at(cells@, i as int));
                    }
                    return false;
                }
                j += 1;
            }
        }
        i += 1;
    }
    true
}

/// The completion the search finds for `puzzle`: a complete conflict-free grid
/// holding every clue; `None` exactly when the puzzle's clues conflict or it has
/// no completion.
pub fn solution_of(puzzle: &[u8; 81]) -> (r: Option<[u8; 81]>)
    requires
        forall|i: int| 0 <= i < 81 ==> #[trigger] puzzle[i] <= 9,
    ensures
        !conflict_free(puzzle@) ==> r is None,
        r matches Some(s) ==> conflict_free(s@) && (forall|j: int| 0 <= j < 81 ==> 1 <= #[trigger] s[j] <= 9) && forall|j: int|
            0 <= j < 81 && #[trigger] puzzle[j] != 0 ==> s[j] == puzzle[j],
        r is None && conflict_free(puzzle@) ==> forall|t: Seq<u8>| !#[trigger] crate::grid::completes(t, puzzle@),
{
    if !is_conflict_free(puzzle) {
        return None;
    }
    let board = board_from_cells(puzzle);
    match first_completion(board) {
        Some(g) => {
            let s = *g.cells();
            proof {
                assert forall|j: int| 0 <= j < 81 implies 1 <= #[trigger] s[j] <= 9 by {
                    assert(g.cells_view()[j] != 0);
                }
                assert forall|j: int| 0 <= j < 81 && #[trigger] puzzle[j] != 0 implies s[j] == puzzle[j] by {
                    assert(board.cells_view()[j] != 0);
                }
            }
            Some(s)
        },
        None => None,
    }
}

/// Some empty cell has no candidate digit.
pub open spec fn dead_cell(b: Board) -> bool {
    exists|c: int| 0 <= c < 81 && #[trigger] b.cells_view()[c] == 0 && b.cands_view()[c] & 0x1FF == 0
}

/// Digit `d` has a home at cell `c`: placed there, or a candidate of it empty.
pub open spec fn home(b: Board, c: int, d: u8) -> bool {
    b.cells_view()[c] == d || (b.cells_view()[c] == 0 && mask_has(b.cands_view()[c], d))
}

/// Digit `d` has no home in unit `u`.
pub open spec fn no_home(b: Board, u: int, d: u8) -> bool {
    forall|k: int| 0 <= k < 9 ==> !#[trigger] home(b, unit_cell(u, k), d)
}

/// Some unit has a digit with no home in it.
pub open spec fn homeless(b: Board) -> bool {
    exists|u: int, d: u8| 0 <= u < 27 && 1 <= d <= 9 && #[trigger] no_home(b, u, d)
}

/// Whether `board` is inconsistent: an empty cell without candidates, or a unit
/// with a digit that has no home in it.
pub fn is_inconsistent(board: &Board) -> (r: bool)
    requires
        board.wf(),
    ensures
        r == (dead_cell(*board) || homeless(*board)),
{
    let mut c: usize = 0;
    while c < CELLS
        invariant
            0 <= c <= 81,
            board.wf(),
            forall|q: int| 0 <= q < c ==> !(#[trigger] board.cells_view()[q] == 0 && board.cands_view()[q] & 0x1FF == 0),
        decreases 81 - c,
    {
        if board.is_empty(c) && board.candidates(c) & 0x1FF == 0 {
            return true;
        }
        c += 1;
    }
    let units = all_units();
    let mut u: usize = 0;
    while u < 27
        invariant
            0 <= u <= 27,
            board.wf(),
            !dead_cell(*board),
            units@.len() == 27,
            forall|x: int, k: int| 0 <= x < 27 && 0 <= k < 9 ==> #[trigger] units@[x].2[k] == unit_cell(x, k),
            forall|x: int, d: u8| 0 <= x < u && 1 <= d <= 9 ==> !#[trigger] no_home(*board, x, d),
        decreases 27 - u,
    {
        let cells = units[u].2;
        let mut available: u16 = 0;
        proof {
            assert forall|d: u8| 1 <= d <= 9 implies !#[trigger] mask_has(0u16, d) by {
                crate::bits::lemma_bit16_zero((d - 1) as u16);
            }
        }
        let mut k: usize = 0;
        while k < 9
            invariant
                0 <= k <= 9,
                u < 27,
                board.wf(),
                forall|q: int| 0 <= q < 9 ==> #[trigger] cells[q] == unit_cell(u as int, q),
                available < 512,
                forall|d: u8| 1 <= d <= 9 ==> #[trigger] mask_has(available, d) == exists|q: int| 0 <= q < k && #[trigger] home(*board,
                    unit_cell(u as int, q), d),
            decreases 9 - k,
        {
            let c = cells[k];
            proof {
                lemma_unit_cell_bound(u as int, k as int);
            }
            let v = board.cell(c);
            let cm = board.candidates(c);
            let add: u16 = if v != 0 { 1u16 << ((v - 1) as u16) } else { cm & 0x1FF };
            proof {
                crate::grid::lemma_and_all9(cm);
                if v != 0 {
                    assert forall|x: u16| 9 <= x < 16 implies !#[trigger] crate::bits::bit16(1u16 << ((v - 1) as u16), x) by {
                        crate::bits::lemma_bit16_one((v - 1) as u16, x);
                    }
                    crate::bits::lemma_bit16_bound9(1u16 << ((v - 1) as u16));
                    assert forall|d: u8| 1 <= d <= 9 implies #[trigger] mask_has(add, d) == (v == d) by {
                        crate::grid::lemma_digit_bit(v, d);
                    }
                }
                assert forall|d: u8| 1 <= d <= 9 implies #[trigger] mask_has(available | add, d) == exists|q: int| 0 <= q < k + 1
                    && #[trigger] home(*board, unit_cell(u as int, q), d) by {
                    crate::bits::lemma_bit16_or(available, add, (d - 1) as u16);
                    assert(c == unit_cell(u as int, k as int));
                    assert(board.cells_view()[c as int] == v);
                    assert(board.cands_view()[c as int] == cm);
                    if v == 0 {
                        assert(mask_has(add, d) == mask_has(cm, d));
                    }
                    assert(home(*board, unit_cell(u as int, k as int), d) == mask_has(add, d));
                    if mask_has(add, d) {
                        assert(home(*board, unit_cell(u as int, k as int), d));
                    }
                    if mask_has(available, d) {
                        let q = choose|q: int| 0 <= q < k && #[trigger] home(*board, unit_cell(u as int, q), d);
                        assert(0 <= q < k + 1 && home(*board, unit_cell(u as int, q), d));
                    }
                    if exists|q: int| 0 <= q < k + 1 && #[trigger] home(*board, unit_cell(u as int, q), d) {
                        let q = choose|q: int| 0 <= q < k + 1 && #[trigger] home(*board, unit_cell(u as int, q), d);
                        if q == k {
                            assert(mask_has(add, d));
                        } else {
                            assert(exists|q2: int| 0 <= q2 < k && #[trigger] home(*board, unit_cell(u as int, q2), d));
                            assert(mask_has(available, d));
                        }
                    }
                }
                assert forall|x: u16| 9 <= x < 16 implies !#[trigger] crate::bits::bit16(available | add, x) by {
                    crate::bits::lemma_bit16_or(available, add, x);
                    crate::bits::lemma_bit16_low9(available, x);
                    if v != 0 {
                        crate::bits::lemma_bit16_one((v - 1) as u16, x);
                    } else {
                        crate::bits::lemma_bit16_low9(add, x);
                    }
                }
                crate::bits::lemma_bit16_bound9(available | add);
            }
            available = available | add;
            k += 1;
        }
        if available != 0x1FF {
            proof {
                if forall|d: u8| 1 <= d <= 9 ==> #[trigger] mask_has(available, d) {
                    assert forall|x: u16| x < 16 implies #[trigger] crate::bits::bit16(available, x) == crate::bits::bit16(0x1FFu16, x) by {
                        crate::bits::lemma_bit16_all9(x);
                        if x < 9 {
                            assert(mask_has(available, (x + 1) as u8));
                        } else {
                            crate::bits::lemma_bit16_low9(available, x);
                        }
                    }
                    crate::bits::lemma_bit16_ext(available, 0x1FFu16);
                }
                let d = choose|d: u8| 1 <= d <= 9 && !#[trigger] mask_has(available, d);
                assert forall|q: int| 0 <= q < 9 implies !#[trigger] home(*board, unit_cell(u as int, q), d) by {}
                assert(no_home(*board, u as int, d));
                assert(homeless(*board));
            }
            return true;
        }
        proof {
            assert forall|d: u8| 1 <= d <= 9 implies !#[trigger] no_home(*board, u as int, d) by {
                crate::grid::lemma_all_digits(d);
                assert(mask_has(available, d));
                let q = choose|q: int| 0 <= q < 9 && #[trigger] home(*board, unit_cell(u as int, q), d);
            }
        }
        u += 1;
    }
    proof {
        if homeless(*board) {
            let (x, d) = choose|x: int, d: u8| 0 <= x < 27 && 1 <= d <= 9 && #[trigger] no_home(*board, x, d);
            assert(!no_home(*board, x, d));
        }
    }
    false
}

/// Cell `c` is a naked single for `d`: empty, and `d` its only candidate.
pub open spec fn naked_move(b: Board, c: int, d: u8) -> bool {
    b.cells_view()[c] == 0 && mask_has(b.cands_view()[c], d) && ones16(b.cands_view()[c] & 0x1FF) == 1
}

/// Cell `c` is a hidden single for `d`: the only empty cell of some unit with
/// candidate `d`.
pub open spec fn hidden_move(b: Board, c: int, d: u8) -> bool {
    exists|u: int, k: int| 0 <= u < 27 && 0 <= k < 9 && unit_cell(u, k) == c && #[trigger] b.cells_view()[unit_cell(u, k)]
        == 0 && mask_has(b.cands_view()[c], d) && forall|q: int| 0 <= q < 9 && q != k ==> !(#[trigger] b.cells_view()[unit_cell(u, q)]
        == 0 && mask_has(b.cands_view()[unit_cell(u, q)], d))
}

/// A simple move on a naked board agrees with every completion of it.
pub proof fn lemma_simple_move_sound(b: Board, m: (usize, u8), s: Seq<u8>)
    requires
        b.wf(),
        b.is_naked(),
        simple_move(b, m),
        crate::grid::completes(s, b.cells_view()),
    ensures
        s[m.0 as int] == m.1,
{
    let c = m.0 as int;
    let d = m.1;
    assert(crate::grid::naked_at(b.cells_view(), b.cands_view(), c));
    if naked_move(b, c, d) {
        crate::grid::lemma_completion_candidate(s, b.cells_view(), b.cands_view(), c);
        let cm = b.cands_view()[c];
        crate::grid::lemma_and_all9(cm);
        assert(mask_has(cm & 0x1FFu16, d));
        assert(mask_has(cm & 0x1FFu16, s[c]));
        crate::grid::lemma_ones16_single(cm & 0x1FFu16, (d - 1) as u16, (s[c] - 1) as u16);
    } else {
        let (u, k) = choose|u: int, k: int| 0 <= u < 27 && 0 <= k < 9 && unit_cell(u, k) == c && #[trigger] b.cells_view()[unit_cell(u, k)]
            == 0 && mask_has(b.cands_view()[c], d) && forall|q: int| 0 <= q < 9 && q != k ==> !(#[trigger] b.cells_view()[unit_cell(u, q)]
            == 0 && mask_has(b.cands_view()[unit_cell(u, q)], d));
        crate::grid::lemma_unit_has_digit(s, u, d);
        let k2 = choose|k2: int| 0 <= k2 < 9 && s[unit_cell(u, k2)] == d;
        if k2 != k {
            let q = unit_cell(u, k2);
            lemma_unit_cell_bound(u, k2);
            crate::grid::lemma_unit_peers(u, k, k2);
            if b.cells_view()[q] != 0 {
                assert(b.cells_view()[q] == d);
                assert(blocked(b.cells_view(), c, d));
            } else {
                assert(crate::grid::naked_at(b.cells_view(), b.cands_view(), q));
                crate::grid::lemma_completion_candidate(s, b.cells_view(), b.cands_view(), q);
            }
        }
    }
}

/// Digit `d` is a candidate of empty cell `c`.
pub open spec fn live_at(b: Board, c: int, d: u8) -> bool {
    b.cells_view()[c] == 0 && mask_has(b.cands_view()[c], d)
}

/// Cell `c` is the only empty cell of unit `u` with candidate `d`.
pub open spec fn hidden_in(b: Board, u: int, c: int, d: u8) -> bool {
    exists|k: int| 0 <= k < 9 && crate::grid::unit_cell(u, k) == c && #[trigger] live_at(b, crate::grid::unit_cell(u, k), d)
        && forall|q: int| 0 <= q < 9 && q != k ==> !#[trigger] live_at(b, crate::grid::unit_cell(u, q), d)
}

/// Some move of `out` is at cell `c`.
pub open spec fn emitted(out: Seq<(usize, u8)>, c: int) -> bool {
    exists|i: int| 0 <= i < out.len() && out[i].0 == c
}

/// A move `simple_moves` may list: a naked or a hidden single.
pub open spec fn simple_move(b: Board, m: (usize, u8)) -> bool {
    &&& m.0 < 81
    &&& 1 <= m.1 <= 9
    &&& (naked_move(b, m.0 as int, m.1) || hidden_move(b, m.0 as int, m.1))
}

/// Collect into `out` the cells forced by a naked or a hidden single, with the
/// forced digit, at most one move per cell (naked singles first, in cell order;
/// then hidden singles, unit by unit and digit by digit).
pub fn simple_moves(board: &Board, out: &mut Vec<(usize, u8)>)
    requires
        board.wf(),
    ensures
        forall|i: int| 0 <= i < final(out)@.len() ==> #[trigger] simple_move(*board, final(out)@[i]),
        forall|i: int, j: int| 0 <= i < j < final(out)@.len() ==> #[trigger] final(out)@[i].0 != #[trigger] final(out)@[j].0,
        forall|c: int, d: u8| 0 <= c < 81 && 1 <= d <= 9 && #[trigger] naked_move(*board, c, d) ==> emitted(final(out)@, c),
        forall|c: int, d: u8| 0 <= c < 81 && 1 <= d <= 9 && #[trigger] hidden_move(*board, c, d) ==> emitted(final(out)@, c),
{
    out.clear();
    let mut seen = [false; 81];
    let mut c: usize = 0;
    while c < CELLS
        invariant
            0 <= c <= 81,
            board.wf(),
            forall|i: int| 0 <= i < out@.len() ==> #[trigger] simple_move(*board, out@[i]),
            forall|i: int, j: int| 0 <= i < j < out@.len() ==> #[trigger] out@[i].0 != #[trigger] out@[j].0,
            forall|i: int| 0 <= i < out@.len() ==> #[trigger] seen[out@[i].0 as int],
            forall|x: int| 0 <= x < 81 && #[trigger] seen[x] ==> emitted(out@, x),
            forall|x: int| 0 <= x < 81 && #[trigger] seen[x] ==> x < c,
            forall|x: int, e: u8| 0 <= x < c && 1 <= e <= 9 && #[trigger] naked_move(*board, x, e) ==> seen[x],
        decreases 81 - c,
    {
        if board.is_empty(c) {
            let m = board.candidates(c);
            if crate::grid::popcount(m) == 1 {
                let m9 = m & 0x1FF;
                proof {
                    crate::grid::lemma_and_all9(m);
                    if m9 == 0 {
                        assert(ones16(m9) == 0);
                    }
                    vstd::std_specs::bits::axiom_u16_trailing_zeros(m9);
                    if m9.trailing_zeros() >= 9 {
                        crate::bits::lemma_bit16_low9(m9, m9.trailing_zeros() as u16);
                    }
                }
                let d = (m9.trailing_zeros() + 1) as u8;
                proof {
                    assert(mask_has(m9, d));
                    assert(naked_move(*board, c as int, d));
                    assert forall|i: int| 0 <= i < out@.len() implies out@[i].0 != c by {
                        assert(seen[out@[i].0 as int]);
                    }
                }
                let ghost o0 = out@;
                out.push((c, d));
                seen[c] = true;
                proof {
                    assert(out@[out@.len() - 1].0 == c);
                    assert forall|x: int| 0 <= x < 81 && #[trigger] seen[x] implies emitted(out@, x) by {
                        if x != c as int {
                            let w = choose|w: int| 0 <= w < o0.len() && o0[w].0 == x;
                            assert(out@[w] == o0[w]);
                        }
                    }
                    assert forall|i: int| 0 <= i < out@.len() implies #[trigger] seen[out@[i].0 as int] by {
                        if i < o0.len() {
                            assert(out@[i] == o0[i]);
                            assert(simple_move(*board, o0[i]));
                        }
                    }
                }
            }
        }
        proof {
            assert forall|x: int, e: u8| 0 <= x < c + 1 && 1 <= e <= 9 && #[trigger] naked_move(*board, x, e) implies seen[x] by {
                if x == c as int {
                    assert(board.cells_view()[x] == 0);
                }
            }
        }
        c += 1;
    }
    let units = all_units();
    let mut u: usize = 0;
    while u < 27
        invariant
            0 <= u <= 27,
            board.wf(),
            units@.len() == 27,
            forall|x: int, k: int| 0 <= x < 27 && 0 <= k < 9 ==> #[trigger] units@[x].2[k] == unit_cell(x, k),
            forall|x: int, e: u8| 0 <= x < 81 && 1 <= e <= 9 && #[trigger] naked_move(*board, x, e) ==> seen[x],
            forall|v: int, x: int, e: u8| 0 <= v < u && 0 <= x < 81 && 1 <= e <= 9 && #[trigger] hidden_in(*board, v, x, e) ==> seen[x],
            forall|i: int| 0 <= i < out@.len() ==> #[trigger] simple_move(*board, out@[i]),
            forall|i: int, j: int| 0 <= i < j < out@.len() ==> #[trigger] out@[i].0 != #[trigger] out@[j].0,
            forall|i: int| 0 <= i < out@.len() ==> #[trigger] seen[out@[i].0 as int],
            forall|x: int| 0 <= x < 81 && #[trigger] seen[x] ==> emitted(out@, x),
        decreases 27 - u,
    {
        let cells = units[u].2;
        let mut d: u8 = 1;
        while d <= 9
            invariant
                1 <= d <= 10,
                u < 27,
                board.wf(),
                forall|q: int| 0 <= q < 9 ==> #[trigger] cells[q] == unit_cell(u as int, q),
                forall|x: int, e: u8| 0 <= x < 81 && 1 <= e <= 9 && #[trigger] naked_move(*board, x, e) ==> seen[x],
                forall|v: int, x: int, e: u8| 0 <= x < 81 && 1 <= e <= 9 && (0 <= v < u || (v == u && e < d)) && #[trigger] hidden_in(*board, v, x, e)
                    ==> seen[x],
                forall|i: int| 0 <= i < out@.len() ==> #[trigger] simple_move(*board, out@[i]),
                forall|i: int, j: int| 0 <= i < j < out@.len() ==> #[trigger] out@[i].0 != #[trigger] out@[j].0,
                forall|i: int| 0 <= i < out@.len() ==> #[trigger] seen[out@[i].0 as int],
                forall|x: int| 0 <= x < 81 && #[trigger] seen[x] ==> emitted(out@, x),
            decreases 10 - d,
        {
            let mut only: usize = 0;
            let mut count: u8 = 0;
            let mut k: usize = 0;
            while k < 9
                invariant
                    0 <= k <= 9,
                    u < 27,
                    1 <= d <= 9,
                    board.wf(),
                    forall|q: int| 0 <= q < 9 ==> #[trigger] cells[q] == unit_cell(u as int, q),
                    count <= k,
                    count >= 1 ==> only < 9 && only < k && board.cells_view()[unit_cell(u as int, only as int)] == 0 && mask_has(
                        board.cands_view()[unit_cell(u as int, only as int)], d),
                    count == 1 ==> forall|q: int| 0 <= q < k && q != only ==> !(#[trigger] board.cells_view()[unit_cell(u as int, q)]
                        == 0 && mask_has(board.cands_view()[unit_cell(u as int, q)], d)),
                    count == 0 ==> forall|q: int| 0 <= q < k ==> !(#[trigger] board.cells_view()[unit_cell(u as int, q)] == 0
                        && mask_has(board.cands_view()[unit_cell(u as int, q)], d)),
                    count >= 2 ==> exists|q1: int, q2: int| 0 <= q1 < k && 0 <= q2 < k && q1 != q2 && #[trigger] live_at(*board, unit_cell(u as int, q1), d)
                        && #[trigger] live_at(*board, unit_cell(u as int, q2), d),
                decreases 9 - k,
            {
                let c = cells[k];
                proof {
                    lemma_unit_cell_bound(u as int, k as int);
                }
                let m = board.candidates(c);
                proof {
                    crate::grid::lemma_mask_test(m, d);
                }
                if board.is_empty(c) && m & (1u16 << ((d - 1) as u16)) != 0 {
                    proof {
                        if count >= 1 {
                            assert(live_at(*board, unit_cell(u as int, only as int), d));
                            assert(live_at(*board, unit_cell(u as int, k as int), d));
                        }
                    }
                    only = k;
                    count = count + 1;
                }
                k += 1;
            }
            if count == 1 {
                let c = cells[only];
                proof {
                    lemma_unit_cell_bound(u as int, only as int);
                }
                if !seen[c] {
                    proof {
                        assert(hidden_move(*board, c as int, d));
                        assert forall|i: int| 0 <= i < out@.len() implies out@[i].0 != c by {
                            assert(seen[out@[i].0 as int]);
                        }
                    }
                    let ghost o0 = out@;
                    out.push((c, d));
                    seen[c] = true;
                    proof {
                        assert(out@[out@.len() - 1].0 == c);
                        assert forall|x: int| 0 <= x < 81 && #[trigger] seen[x] implies emitted(out@, x) by {
                            if x != c as int {
                                let w = choose|w: int| 0 <= w < o0.len() && o0[w].0 == x;
                                assert(out@[w] == o0[w]);
                            }
                        }
                        assert forall|i: int| 0 <= i < out@.len() implies #[trigger] seen[out@[i].0 as int] by {
                            if i < o0.len() {
                                assert(out@[i] == o0[i]);
                                assert(simple_move(*board, o0[i]));
                            }
                        }
                    }
                }
            }
            proof {
                assert forall|x: int| 0 <= x < 81 && #[trigger] hidden_in(*board, u as int, x, d) implies seen[x] by {
                    let k0 = choose|k0: int| 0 <= k0 < 9 && unit_cell(u as int, k0) == x && #[trigger] live_at(*board, unit_cell(u as int, k0), d)
                        && forall|q: int| 0 <= q < 9 && q != k0 ==> !#[trigger] live_at(*board, unit_cell(u as int, q), d);
                    assert(live_at(*board, unit_cell(u as int, k0), d));
                    if count == 0 {
                    } else if count >= 2 {
                        let (q1, q2) = choose|q1: int, q2: int| 0 <= q1 < 9 && 0 <= q2 < 9 && q1 != q2 && #[trigger] live_at(*board, unit_cell(u as int, q1), d)
                            && #[trigger] live_at(*board, unit_cell(u as int, q2), d);
                    } else {
                        assert(only as int == k0);
                    }
                }
            }
            d += 1;
        }
        u += 1;
    }
    proof {
        assert forall|c: int, d: u8| 0 <= c < 81 && 1 <= d <= 9 && #[trigger] hidden_move(*board, c, d) implies emitted(out@, c) by {
            let (v, k) = choose|v: int, k: int| 0 <= v < 27 && 0 <= k < 9 && unit_cell(v, k) == c && #[trigger] board.cells_view()[unit_cell(v, k)]
                == 0 && mask_has(board.cands_view()[c], d) && forall|q: int| 0 <= q < 9 && q != k ==> !(#[trigger] board.cells_view()[unit_cell(v, q)]
                == 0 && mask_has(board.cands_view()[unit_cell(v, q)], d));
            assert(live_at(*board, unit_cell(v, k), d));
            assert forall|q: int| 0 <= q < 9 && q != k implies !#[trigger] live_at(*board, unit_cell(v, q), d) by {
                assert(!(board.cells_view()[unit_cell(v, q)] == 0 && mask_has(board.cands_view()[unit_cell(v, q)], d)));
            }
            assert(hidden_in(*board, v, c, d));
            assert(seen[c]);
        }
    }
}

/// The first empty cell with the fewest candidates.
pub fn fewest_candidate_cell(board: &Board) -> (c: usize)
    requires
        board.wf(),
        exists|j: int| 0 <= j < 81 && #[trigger] board.cells_view()[j] == 0,
    ensures
        c < 81,
        board.cells_view()[c as int] == 0,
{
    let mut best: usize = 81;
    let mut best_len: u32 = u32::MAX;
    let mut c: usize = 0;
    while c < CELLS
        invariant
            0 <= c <= 81,
            board.wf(),
            best <= 81,
            best < 81 ==> board.cells_view()[best as int] == 0,
            best == 81 ==> best_len == u32::MAX && forall|j: int| 0 <= j < c ==> #[trigger] board.cells_view()[j] != 0,
        decreases 81 - c,
    {
        if board.is_empty(c) {
            let len = crate::grid::popcount(board.candidates(c));
            if len < best_len {
                best_len = len;
                best = c;
            }
        }
        c += 1;
    }
    best
}

/// `n` is `b` with digit `v` placed at cell `c`, the digit leaving the
/// candidates of the cell's peers.
pub open spec fn placed(b: Board, c: int, v: u8, n: Board) -> bool {
    &&& n.cells_view() == b.cells_view().update(c, v)
    &&& n.cands_view().len() == 81
    &&& n.cands_view()[c] == 0
    &&& forall|j: int| 0 <= j < 81 && j != c ==> #[trigger] n.cands_view()[j] == if is_peer(c, j) {
        b.cands_view()[j] & !(1u16 << ((v - 1) as u16))
    } else {
        b.cands_view()[j]
    }
}

/// Placing `v` at `c` leaves `b` inconsistent at once.
pub open spec fn refuted_at_once(b: Board, c: int, v: u8) -> bool {
    exists|n: Board| #[trigger] placed(b, c, v, n) && (dead_cell(n) || homeless(n))
}

/// The placed board is one board, as far as consistency goes.
pub proof fn lemma_placed_unique(b: Board, c: int, v: u8, n1: Board, n2: Board)
    requires
        placed(b, c, v, n1),
        placed(b, c, v, n2),
        0 <= c < 81,
    ensures
        (dead_cell(n1) || homeless(n1)) == (dead_cell(n2) || homeless(n2)),
{
    assert(n1.cands_view() =~= n2.cands_view());
    assert forall|x: Board, y: Board| #![auto] x.cells_view() == y.cells_view() && x.cands_view() == y.cands_view() && (dead_cell(x)
        || homeless(x)) implies dead_cell(y) || homeless(y) by {
        if dead_cell(x) {
            let q = choose|q: int| 0 <= q < 81 && #[trigger] x.cells_view()[q] == 0 && x.cands_view()[q] & 0x1FF == 0;
            assert(y.cells_view()[q] == 0);
        } else {
            let (u, d) = choose|u: int, d: u8| 0 <= u < 27 && 1 <= d <= 9 && #[trigger] no_home(x, u, d);
            assert forall|k: int| 0 <= k < 9 implies !#[trigger] home(y, unit_cell(u, k), d) by {
                assert(!home(x, unit_cell(u, k), d));
            }
            assert(no_home(y, u, d));
        }
    }
}

/// One refutation rollout: place the wrong candidate `v` at `c` on a copy of
/// `board`, then make uniformly random simple moves until the copy is
/// inconsistent (the number of moves made) or no simple move is left (`None`).
pub fn ref_v(board: &Board, c: usize, v: u8, rng: &mut Rng, scratch: &mut Vec<(usize, u8)>) -> (r: Option<u32>)
    requires
        board.wf(),
        c < 81,
        1 <= v <= 9,
        board.cells_view()[c as int] == 0,
        mask_has(board.cands_view()[c as int], v),
    ensures
        r matches Some(n) ==> n <= 81,
        (r == Some(0u32)) == refuted_at_once(*board, c as int, v),
        r matches Some(n) ==> final(rng).state() == crate::rng::advance(old(rng).state(), n as nat),
{
    let mut s = *board;
    let ghost c0 = s.cells_view();
    s.place(c, v);
    proof {
        lemma_count_filled_update(c0, c as int, v);
        lemma_count_filled_bound(s.cells_view());
        assert(placed(*board, c as int, v, s));
    }
    let mut steps: u32 = 0;
    loop
        invariant
            s.wf(),
            c < 81,
            steps == 0 ==> placed(*board, c as int, v, s),
            steps > 0 ==> !refuted_at_once(*board, c as int, v),
            count_filled(board.cells_view()) + 1 + steps <= count_filled(s.cells_view()),
            count_filled(s.cells_view()) >= count_filled(board.cells_view()) + 1,
            count_filled(s.cells_view()) <= 81,
            rng.state() == crate::rng::advance(old(rng).state(), steps as nat),
        decreases 81 - count_filled(s.cells_view()),
    {
        if is_inconsistent(&s) {
            proof {
                lemma_count_filled_bound(board.cells_view());
                if steps == 0 {
                    assert(placed(*board, c as int, v, s));
                }
            }
            return Some(steps);
        }
        proof {
            if steps == 0 && refuted_at_once(*board, c as int, v) {
                let n = choose|n: Board| #[trigger] placed(*board, c as int, v, n) && (dead_cell(n) || homeless(n));
                lemma_placed_unique(*board, c as int, v, n, s);
            }
        }
        simple_moves(&s, scratch);
        if scratch.len() == 0 {
            return None;
        }
        let pick = rng.range(scratch.len());
        let (cell, d) = scratch[pick];
        proof {
            assert(simple_move(s, scratch@[pick as int]));
        }
        let ghost s0 = s.cells_view();
        s.place(cell, d);
        proof {
            lemma_count_filled_update(s0, cell as int, d);
            lemma_count_filled_bound(s.cells_view());
            lemma_count_filled_bound(board.cells_view());
        }
        steps = steps + 1;
    }
}

/// The refutation score of empty cell `c`: the sum, over its candidates other
/// than the solution digit, of a rollout each; `None` when some rollout stalls.
pub fn refutation_score(board: &Board, c: usize, solution: &[u8; 81], rng: &mut Rng, scratch: &mut Vec<(usize, u8)>) -> (r: Option<u64>)
    requires
        board.wf(),
        c < 81,
        board.cells_view()[c as int] == 0,
    ensures
        r matches Some(n) ==> n <= 729,
        r matches Some(n) ==> final(rng).state() == crate::rng::advance(old(rng).state(), n as nat),
        (r == Some(0u64)) == forall|v: u8| 1 <= v <= 9 && #[trigger] mask_has(board.cands_view()[c as int], v) && v != solution[c as int]
            ==> refuted_at_once(*board, c as int, v),
{
    let v_star = solution[c];
    let m = board.candidates(c);
    let mut total: u64 = 0;
    let mut v: u8 = 1;
    while v <= 9
        invariant
            1 <= v <= 10,
            board.wf(),
            c < 81,
            board.cells_view()[c as int] == 0,
            m == board.cands_view()[c as int],
            total <= 81 * (v - 1),
            rng.state() == crate::rng::advance(old(rng).state(), total as nat),
            v_star == solution[c as int],
            (total == 0) == forall|x: u8| 1 <= x < v && #[trigger] mask_has(m, x) && x != v_star ==> refuted_at_once(*board, c as int, x),
        decreases 10 - v,
    {
        proof {
            crate::grid::lemma_mask_test(m, v);
        }
        if m & (1u16 << ((v - 1) as u16)) != 0 && v != v_star {
            let ghost st0 = rng.state();
            match ref_v(board, c, v, rng, scratch) {
                Some(n) => {
                    proof {
                        crate::rng::lemma_advance_add(old(rng).state(), total as nat, n as nat);
                    }
                    total = total + n as u64;
                },
                None => {
                    return None;
                },
            }
        }
        proof {
            assert((total == 0) == forall|x: u8| 1 <= x < v + 1 && #[trigger] mask_has(m, x) && x != v_star ==> refuted_at_once(
                *board,
                c as int,
                x,
            )) by {
                if total == 0 {
                    assert forall|x: u8| 1 <= x < v + 1 && #[trigger] mask_has(m, x) && x != v_star implies refuted_at_once(
                        *board,
                        c as int,
                        x,
                    ) by {
                        if x < v {
                        }
                    }
                }
            }
        }
        v += 1;
    }
    Some(total)
}

/// The refutation score is the sum of its rollouts: when the rollouts move the
/// generator through `states` (rollout `i` taking `ns[i]` draws, as each
/// rollout's result is the number of its draws), any score `t` that moves the
/// generator from the first state to the last is their sum.
pub proof fn law_score_is_rollout_sum(states: Seq<u64>, ns: Seq<nat>, t: nat)
    requires
        states.len() == ns.len() + 1,
        forall|i: int| 0 <= i < ns.len() ==> #[trigger] states[i + 1] == crate::rng::advance(states[i], ns[i]),
        crate::rng::advance(states[0], t) == states.last(),
        t < 0x1_0000_0000_0000_0000,
        sum_nat(ns) < 0x1_0000_0000_0000_0000,
    ensures
        t == sum_nat(ns),
    decreases ns.len(),
{
    lemma_advance_chain(states, ns);
    crate::rng::law_steps_determined(states[0], t, sum_nat(ns));
}

/// The sum of a sequence of counts.
pub open spec fn sum_nat(ns: Seq<nat>) -> nat
    decreases ns.len(),
{
    if ns.len() == 0 {
        0
    } else {
        sum_nat(ns.drop_last()) + ns.last()
    }
}

/// Stepping through a chain of states is stepping by the total.
proof fn lemma_advance_chain(states: Seq<u64>, ns: Seq<nat>)
    requires
        states.len() == ns.len() + 1,
        forall|i: int| 0 <= i < ns.len() ==> #[trigger] states[i + 1] == crate::rng::advance(states[i], ns[i]),
    ensures
        states.last() == crate::rng::advance(states[0], sum_nat(ns)),
    decreases ns.len(),
{
    if ns.len() > 0 {
        let s2 = states.drop_last();
        let n2 = ns.drop_last();
        assert forall|i: int| 0 <= i < n2.len() implies #[trigger] s2[i + 1] == crate::rng::advance(s2[i], n2[i]) by {
            assert(states[i + 1] == crate::rng::advance(states[i], ns[i]));
        }
        lemma_advance_chain(s2, n2);
        assert(states[ns.len() as int] == crate::rng::advance(states[ns.len() - 1], ns.last()));
        crate::rng::lemma_advance_add(states[0], sum_nat(n2), ns.last());
    }
}

/// One run's log: the refutation score of each stalled step, and the number of
/// simple moves available at each step (zero at a stalled one).
pub struct RunLog {
    pub recorded_scores: Vec<u64>,
    pub possibilities: Vec<u32>,
}

/// Run the model on `puzzle` with known `solution`: at each step make a random
/// simple move if there is one; otherwise fill the empty cell with the lowest
/// finite refutation score (ties broken uniformly at random, the fewest-candidate
/// cell when none is finite) with its solution digit. One cell is filled per
/// step, so the log has one possibility entry per empty cell of the puzzle.
pub fn sisus_run(puzzle: &[u8; 81], solution: &[u8; 81], rng: &mut Rng) -> (log: RunLog)
    requires
        forall|i: int| 0 <= i < 81 ==> #[trigger] puzzle[i] <= 9,
        conflict_free(puzzle@),
    ensures
        log.possibilities@.len() <= 81,
        log.recorded_scores@.len() <= log.possibilities@.len(),
        crate::grid::completes(solution@, puzzle@) ==> log.possibilities@.len() == 81 - count_filled(puzzle@),
        log.recorded_scores@.len() <= stalls(log.possibilities@),
        crate::grid::completes(solution@, puzzle@) ==> log.recorded_scores@.len() == stalls(log.possibilities@),
{
    let mut board = board_from_cells(puzzle);
    let mut moves: Vec<(usize, u8)> = Vec::new();
    let mut scratch: Vec<(usize, u8)> = Vec::new();
    let mut log = RunLog { recorded_scores: Vec::new(), possibilities: Vec::new() };
    proof {
        lemma_count_filled_bound(board.cells_view());
    }
    let ghost count0 = count_filled(board.cells_view());
    while !board.is_solved()
        invariant
            board.wf(),
            count_filled(board.cells_view()) <= 81,
            log.possibilities@.len() + count0 == count_filled(board.cells_view()),
            log.recorded_scores@.len() <= log.possibilities@.len(),
            log.recorded_scores@.len() == stalls(log.possibilities@),
            count0 == count_filled(puzzle@),
            board.is_naked(),
            crate::grid::completes(solution@, puzzle@) ==> crate::grid::completes(solution@, board.cells_view()),
        decreases 81 - count_filled(board.cells_view()),
    {
        proof {
            lemma_count_filled_bound(board.cells_view());
        }
        simple_moves(&board, &mut moves);
        if moves.len() > 0 {
            proof {
                assert forall|i: int| 0 <= i < moves@.len() implies #[trigger] simple_move_cell(moves@[i]) by {
                    assert(simple_move(board, moves@[i]));
                }
                lemma_moves_len(moves@);
            }
            let ghost p0 = log.possibilities@;
            log.possibilities.push(#[verifier::truncate] (moves.len() as u32));
            proof {
                assert(log.possibilities@.drop_last() == p0);
            }
            let pick = rng.range(moves.len());
            let (c, d) = moves[pick];
            proof {
                assert(simple_move(board, moves@[pick as int]));
            }
            let ghost b0 = board.cells_view();
            let ghost bd0 = board;
            board.place(c, d);
            proof {
                lemma_count_filled_update(b0, c as int, d);
                lemma_count_filled_bound(board.cells_view());
                if crate::grid::completes(solution@, puzzle@) {
                    lemma_simple_move_sound(bd0, (c, d), solution@);
                    assert(crate::grid::completes(solution@, board.cells_view()));
                }
            }
            continue;
        }
        let ghost p1 = log.possibilities@;
        log.possibilities.push(0);
        proof {
            assert(log.possibilities@.drop_last() == p1);
        }
        let mut best_cell: usize = 81;
        let mut best_score: u64 = u64::MAX;
        let mut ties: u32 = 0;
        let mut c: usize = 0;
        while c < CELLS
            invariant
                0 <= c <= 81,
                board.wf(),
                best_cell <= 81,
                best_cell < 81 ==> board.cells_view()[best_cell as int] == 0,
                ties <= c,
            decreases 81 - c,
        {
            if board.is_empty(c) {
                match refutation_score(&board, c, solution, rng, &mut scratch) {
                    Some(score) => {
                        if score < best_score {
                            best_score = score;
                            best_cell = c;
                            ties = 1;
                        } else if score == best_score {
                            ties = ties + 1;
                            if rng.range(ties as usize) == 0 {
                                best_cell = c;
                            }
                        }
                    },
                    None => {},
                }
            }
            c += 1;
        }
        let (c, recorded) = if best_cell < 81 {
            (best_cell, best_score)
        } else {
            (fewest_candidate_cell(&board), 0)
        };
        let d = solution[c];
        proof {
            if crate::grid::completes(solution@, puzzle@) {
                assert(crate::grid::naked_at(board.cells_view(), board.cands_view(), c as int));
                crate::grid::lemma_completion_candidate(solution@, board.cells_view(), board.cands_view(), c as int);
            }
        }
        if d < 1 || d > 9 {
            return log;
        }
        let m = board.candidates(c);
        proof {
            crate::grid::lemma_mask_test(m, d);
        }
        if m & (1u16 << ((d - 1) as u16)) == 0 {
            // The solution digit is no candidate here: the solution does not fit.
            return log;
        }
        let ghost b0 = board.cells_view();
        board.place(c, d);
        proof {
            lemma_count_filled_update(b0, c as int, d);
            lemma_count_filled_bound(board.cells_view());
        }
        log.recorded_scores.push(recorded);
    }
    proof {
        lemma_count_filled_bound(board.cells_view());
    }
    log
}

/// The stalled steps of a possibility log: its zero entries.
pub open spec fn stalls(p: Seq<u32>) -> nat
    decreases p.len(),
{
    if p.len() == 0 {
        0
    } else {
        stalls(p.drop_last()) + if p.last() == 0 {
            1nat
        } else {
            0nat
        }
    }
}

/// Moves at distinct cells of the grid number at most 81.
proof fn lemma_moves_len(m: Seq<(usize, u8)>)
    requires
        forall|i: int| 0 <= i < m.len() ==> #[trigger] simple_move_cell(m[i]),
        forall|i: int, j: int| 0 <= i < j < m.len() ==> #[trigger] m[i].0 != #[trigger] m[j].0,
    ensures
        m.len() <= 81,
{
    let cs = Seq::new(m.len(), |i: int| m[i].0 as int);
    assert forall|i: int, j: int| 0 <= i < cs.len() && 0 <= j < cs.len() && i != j implies cs[i] != cs[j] by {
        if i < j {
            assert(m[i].0 != m[j].0);
        } else {
            assert(m[j].0 != m[i].0);
        }
    }
    assert(cs.no_duplicates());
    cs.unique_seq_to_set();
    vstd::set_lib::lemma_int_range(0, 81);
    assert forall|x: int| cs.to_set().contains(x) implies vstd::set_lib::set_int_range(0, 81).contains(x) by {
        let i = choose|i: int| 0 <= i < cs.len() && cs[i] == x;
        assert(simple_move_cell(m[i]));
    }
    vstd::set_lib::lemma_len_subset(cs.to_set(), vstd::set_lib::set_int_range(0, 81));
}

/// The move names a cell of the grid.
pub open spec fn simple_move_cell(m: (usize, u8)) -> bool {
    m.0 < 81
}

/// Tunable knobs of the metrics.
pub struct Opts {
    /// Runs the refutation sum is averaged over.
    pub refutation_runs: usize,
    /// Runs the per-step dependency curve is averaged over.
    pub dependency_runs: usize,
    /// Steps the dependency is averaged over.
    pub dependency_k: usize,
}

impl Default for Opts {
    fn default() -> (o: Self)
        ensures
            o.refutation_runs == 30,
            o.dependency_runs == 30,
            o.dependency_k == 25,
    {
        Opts { refutation_runs: 30, dependency_runs: 30, dependency_k: 25 }
    }
}

} // verus!
