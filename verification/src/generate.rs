//! Minimal unique puzzles: strip a full grid clue by clue in random order,
//! keeping a clue only when removing it would let another completion in.

use vstd::prelude::*;
use crate::bb::BitBoard;
use crate::bits::bit32;
use crate::fingerprint::{fnv_fold_cells, FNV_OFFSET, FNV_PRIME};
use crate::generator::{GeneratedPuzzle, Stats, board_from_cells};
use crate::pelanek::is_conflict_free;
use crate::spec::{Spec, Status};
use crate::grid::{conflict_free, no_conflict_at, blocked, is_peer};
use crate::rng::Rng;
use crate::clock::{clock_now, nanos_since};
use crate::probe::Probe;
use crate::fill::{lemma_count_filled_bound, lemma_count_filled_update};
use crate::grid::{count_filled, solved, completes};
use crate::ua::{UaFilter, UaTier, UaLib, lib_shape, enumerate_2digit_uas};
use crate::bb::{has_kind, live_count, naked_bb};
use crate::grid::{Board, mask_has};
use crate::kinds::{NAKED_SINGLE, HIDDEN_SINGLE, LC_POINTING, LC_CLAIMING, SolveTrace};
use crate::spec::{in_baseline, is_forced, in_scope};

verus! {

/// `p` is `s` with some cells emptied.
pub open spec fn sub_grid(p: Seq<u8>, s: Seq<u8>) -> bool {
    forall|j: int| 0 <= j < 81 ==> #[trigger] p[j] == 0 || p[j] == s[j]
}

/// Emptying cells of a conflict-free grid leaves it conflict-free.
pub proof fn lemma_sub_grid_conflict_free(p: Seq<u8>, s: Seq<u8>)
    requires
        p.len() == 81,
        s.len() == 81,
        sub_grid(p, s),
        conflict_free(s),
    ensures
        conflict_free(p),
{
    assert forall|i: int| 0 <= i < 81 implies #[trigger] no_conflict_at(p, i) by {
        assert(no_conflict_at(s, i));
        if p[i] != 0 && blocked(p, i, p[i]) {
            let j = choose|j: int| 0 <= j < 81 && #[trigger] is_peer(i, j) && p[j] == p[i];
            assert(p[j] != 0);
            assert(s[j] == p[j] && s[i] == p[i]);
            assert(blocked(s, i, s[i]));
        }
    }
}

/// Strip the grid `solution` to a minimal puzzle: visit the cells in a random
/// order and empty each one unless some other digit could then complete the
/// puzzle (a cell left a naked single is emptied without asking). The result is
/// `solution` with some cells emptied.
pub fn strip_to_minimal(rng: &mut Rng, solution: &[u8; 81]) -> (p: [u8; 81])
    requires
        forall|i: int| 0 <= i < 81 ==> #[trigger] solution[i] <= 9,
        conflict_free(solution@),
    ensures
        sub_grid(p@, solution@),
        conflict_free(p@),
        solved(solution@) ==> unique_of(p@, solution@),
        solved(solution@) ==> minimal_unique(p@, solution@),
{
    let mut positions: Vec<usize> = Vec::new();
    let mut k: usize = 0;
    while k < 81
        invariant
            0 <= k <= 81,
            positions@.len() == k,
            forall|x: int| 0 <= x < k ==> #[trigger] positions@[x] == x,
        decreases 81 - k,
    {
        positions.push(k);
        k += 1;
    }
    let ghost start = positions@;
    proof {
        assert forall|c: usize| c < 81 implies start.contains(c) by {
            assert(start[c as int] == c);
        }
    }
    rng.shuffle(&mut positions);
    proof {
        assert forall|c: usize| c < 81 implies positions@.contains(c) by {
            vstd::seq_lib::to_multiset_contains(start, c);
            vstd::seq_lib::to_multiset_contains(positions@, c);
        }
    }
    let board = board_from_cells(solution);
    let mut st = crate::generator::StripState::new(&board);
    let ghost g = solution@;
    proof {
        if solved(g) {
            assert forall|s: Seq<u8>| #[trigger] completes(s, st.cells@) implies s == g by {
                assert(s =~= g);
            }
        }
    }
    let mut q: usize = 0;
    while q < positions.len()
        invariant
            0 <= q <= positions@.len(),
            st.wf(),
            forall|i: int| 0 <= i < 81 ==> #[trigger] solution[i] <= 9,
            sub_grid(st.cells@, solution@),
            g == solution@,
            solved(g) ==> forall|s: Seq<u8>| #[trigger] completes(s, st.cells@) ==> s == g,
            forall|c: usize| c < 81 ==> positions@.contains(c),
            conflict_free(solution@),
            forall|c: int| 0 <= c < 81 && #[trigger] st.cells@[c] != 0 && positions@.subrange(0, q as int).contains(c as usize)
                ==> exists|s: Seq<u8>| completes(s, st.cells@.update(c, 0)) && s != g,
        decreases positions@.len() - q,
    {
        let cell = positions[q];
        let ghost before_cells = st.cells@;
        if cell < 81 {
            let orig = st.cells[cell];
            if orig != 0 {
                let ghost prev = st.cells@;
                assert(orig == solution[cell as int]);
                let alts = st.strip(cell, orig);
                proof {
                    st.lemma_naked();
                    assert(st.cells@ == prev.update(cell as int, 0));
                }
                if alts != 0 {
                    proof {
                        st.lemma_bb_wf();
                    }
                    let ghost stripped = st.cells@;
                    if st.bb.any_alt_solves(cell, alts) {
                        proof {
                            st.lemma_cells_ok();
                            lemma_sub_grid_conflict_free(st.cells@, solution@);
                            crate::bb::lemma_naked_records(st.bb, st.cells@);
                            let s = choose|s: Seq<u8>| #[trigger] crate::bb::agrees(s, st.bb) && crate::bb::extends_rec(s, st.cells@)
                                && (st.bb.open(cell as int) ==> mask_has(alts, s[cell as int]));
                            assert(completes(s, stripped));
                            assert(s[cell as int] != orig);
                            assert(s != g);
                            assert(stripped == prev.update(cell as int, 0));
                        }
                        st.revert(cell, orig);
                        proof {
                            assert(st.cells@ =~= prev);
                            assert(exists|s: Seq<u8>| completes(s, st.cells@.update(cell as int, 0)) && s != g);
                        }
                    } else {
                        proof {
                            if solved(g) {
                                lemma_strip_unique(g, prev, st.bb, cell as int, alts);
                            }
                        }
                    }
                } else {
                    proof {
                        if solved(g) {
                            assert forall|s: Seq<u8>| #[trigger] crate::bb::agrees(s, st.bb) && st.bb.open(cell as int) implies !mask_has(
                                alts,
                                s[cell as int],
                            ) by {
                                assert(1 <= s[cell as int] <= 9);
                                crate::bits::lemma_bit16_zero((s[cell as int] - 1) as u16);
                            }
                            lemma_strip_unique(g, prev, st.bb, cell as int, alts);
                        }
                    }
                }
            }
        }
        proof {
            assert(st.cells@ == before_cells || (cell < 81 && st.cells@ == before_cells.update(cell as int, 0)));
            assert(positions@.subrange(0, q + 1) == positions@.subrange(0, q as int).push(cell));
            assert forall|c: int| 0 <= c < 81 && #[trigger] st.cells@[c] != 0 && positions@.subrange(0, q + 1).contains(c as usize)
                implies exists|s: Seq<u8>| completes(s, st.cells@.update(c, 0)) && s != g by {
                if c != cell as int {
                    let s1 = positions@.subrange(0, q + 1);
                    let w = choose|w: int| 0 <= w < s1.len() && s1[w] == c as usize;
                    assert(s1[q as int] == cell);
                    assert(w < q);
                    assert(positions@.subrange(0, q as int)[w] == c as usize);
                    assert(before_cells[c] != 0);
                    let s0 = choose|s: Seq<u8>| completes(s, before_cells.update(c, 0)) && s != g;
                    lemma_completes_fewer(s0, before_cells.update(c, 0), st.cells@.update(c, 0));
                }
            }
        }
        q += 1;
    }
    proof {
        lemma_sub_grid_conflict_free(st.cells@, solution@);
        if solved(g) {
            assert forall|i: int| 0 <= i < 81 && #[trigger] st.cells@[i] != 0 implies g[i] == st.cells@[i] by {
                assert(st.cells@[i] == 0 || st.cells@[i] == solution@[i]);
            }
            assert(completes(g, st.cells@));
            assert(positions@.subrange(0, q as int) =~= positions@);
            assert forall|c: int| 0 <= c < 81 && #[trigger] st.cells@[c] != 0 implies exists|s: Seq<u8>| completes(s, st.cells@.update(c, 0))
                && s != g by {
                assert(positions@.contains(c as usize));
            }
        }
    }
    st.cells
}

/// A random minimal puzzle: a random full grid, stripped.
pub fn generate_unique(rng: &mut Rng) -> (p: [u8; 81])
    ensures
        conflict_free(p@),
        forall|i: int| 0 <= i < 81 ==> #[trigger] p[i] <= 9,
        exists|g: Seq<u8>| sub_grid(p@, g) && conflict_free(g) && (solved(g) ==> minimal_unique(p@, g)),
{
    let solution = crate::fill::random_solution(rng);
    let p = strip_to_minimal(rng, &solution);
    proof {
        assert(sub_grid(p@, solution@) && conflict_free(solution@) && (solved(solution@) ==> minimal_unique(p@, solution@)));
    }
    proof {
        assert forall|i: int| 0 <= i < 81 implies #[trigger] p[i] <= 9 by {
            assert(p@[i] == 0 || p@[i] == solution@[i]);
        }
    }
    p
}

/// `p` is a unique puzzle of the full grid `g`: `g` is its only completion.
pub open spec fn unique_of(p: Seq<u8>, g: Seq<u8>) -> bool {
    &&& completes(g, p)
    &&& forall|s: Seq<u8>| #[trigger] completes(s, p) ==> s == g
}

/// `p` is a minimal unique puzzle of the full grid `g`: `g` is its only
/// completion, and emptying any clue admits another.
pub open spec fn minimal_unique(p: Seq<u8>, g: Seq<u8>) -> bool {
    &&& unique_of(p, g)
    &&& forall|c: int| 0 <= c < 81 && #[trigger] p[c] != 0 ==> exists|s: Seq<u8>| completes(s, p.update(c, 0)) && s != g
}

/// A puzzle of the full grid `g` keeps `g` as its only completion when a clue is
/// stripped whose alternate digits (the digits other than `g`'s the cell could
/// take) no agreeing grid holds there.
proof fn lemma_strip_unique(g: Seq<u8>, before: Seq<u8>, bb: BitBoard, cell: int, alts: u16)
    requires
        solved(g),
        forall|s: Seq<u8>| #[trigger] completes(s, before) ==> s == g,
        before.len() == 81,
        0 <= cell < 81,
        before[cell] == g[cell],
        naked_bb(bb, before.update(cell, 0)),
        forall|d: u8| 1 <= d <= 9 ==> #[trigger] mask_has(alts, d) == (d != g[cell] && !blocked(before.update(cell, 0), cell, d)),
        forall|s: Seq<u8>| #[trigger] crate::bb::agrees(s, bb) && bb.open(cell) ==> !mask_has(alts, s[cell]),
    ensures
        forall|s: Seq<u8>| #[trigger] completes(s, before.update(cell, 0)) ==> s == g,
{
    let stripped = before.update(cell, 0);
    assert forall|s: Seq<u8>| #[trigger] completes(s, stripped) implies s == g by {
        crate::bb::lemma_naked_agrees(bb, stripped, s);
        assert(bb.open(cell));
        assert(1 <= s[cell] <= 9);
        if blocked(stripped, cell, s[cell]) {
            let k = choose|k: int| 0 <= k < 81 && #[trigger] is_peer(cell, k) && stripped[k] == s[cell];
            assert(no_conflict_at(s, cell));
            assert(blocked(s, cell, s[cell]));
        }
        assert(s[cell] == g[cell]);
        assert forall|i: int| 0 <= i < 81 && #[trigger] before[i] != 0 implies s[i] == before[i] by {
            if i != cell {
                assert(stripped[i] == before[i]);
            }
        }
        assert(completes(s, before));
    }
}

/// A completion of a puzzle completes every puzzle with fewer clues.
proof fn lemma_completes_fewer(s: Seq<u8>, a: Seq<u8>, b: Seq<u8>)
    requires
        completes(s, a),
        forall|i: int| 0 <= i < 81 && #[trigger] b[i] != 0 ==> b[i] == a[i],
    ensures
        completes(s, b),
{
}

/// In a puzzle of the full grid `g` with cell `c` empty, `g`'s digit there is a
/// naked candidate.
proof fn lemma_solution_candidate(g: Seq<u8>, p: Seq<u8>, b: Board, c: int)
    requires
        solved(g),
        completes(g, p),
        b.wf(),
        b.is_naked(),
        b.cells_view() == p,
        0 <= c < 81,
        p[c] == 0,
    ensures
        mask_has(b.cands_view()[c], g[c]),
{
    crate::grid::lemma_completion_candidate(g, p, b.cands_view(), c);
}

/// [`strip_to_minimal`] with the scalar prober: the same random order and the
/// same keep rule, each uniqueness question answered by counting completions of
/// the candidate grid with the stripped digit forbidden. From a full grid it
/// gives a minimal unique puzzle of it.
pub fn strip_to_minimal_singles(rng: &mut Rng, solution: &[u8; 81]) -> (p: [u8; 81])
    requires
        forall|i: int| 0 <= i < 81 ==> #[trigger] solution[i] <= 9,
        conflict_free(solution@),
    ensures
        sub_grid(p@, solution@),
        conflict_free(p@),
        solved(solution@) ==> minimal_unique(p@, solution@),
{
    let mut positions: Vec<usize> = Vec::new();
    let mut k: usize = 0;
    while k < 81
        invariant
            0 <= k <= 81,
            positions@ == Seq::new(k as nat, |i: int| i as usize),
        decreases 81 - k,
    {
        positions.push(k);
        proof {
            assert(positions@ =~= Seq::new((k + 1) as nat, |i: int| i as usize));
        }
        k += 1;
    }
    let ghost all = positions@;
    rng.shuffle(&mut positions);
    proof {
        assert forall|c: int| 0 <= c < 81 implies #[trigger] positions@.contains(c as usize) by {
            assert(all[c] == c as usize);
            vstd::seq_lib::to_multiset_contains(all, c as usize);
            vstd::seq_lib::to_multiset_contains(positions@, c as usize);
        }
    }
    let mut cells: [u8; 81] = *solution;
    let ghost g = solution@;
    proof {
        assert(sub_grid(cells@, solution@));
        if solved(g) {
            assert forall|s: Seq<u8>| #[trigger] completes(s, cells@) implies s == g by {
                assert(s =~= g);
            }
        }
    }
    let mut q: usize = 0;
    while q < positions.len()
        invariant
            0 <= q <= positions@.len(),
            forall|i: int| 0 <= i < 81 ==> #[trigger] solution[i] <= 9,
            conflict_free(solution@),
            g == solution@,
            sub_grid(cells@, solution@),
            forall|c: int| 0 <= c < 81 ==> #[trigger] positions@.contains(c as usize),
            solved(g) ==> forall|s: Seq<u8>| #[trigger] completes(s, cells@) ==> s == g,
            solved(g) ==> forall|c: int| 0 <= c < 81 && #[trigger] cells@[c] != 0 && positions@.subrange(0, q as int).contains(c as usize)
                ==> exists|s: Seq<u8>| completes(s, cells@.update(c, 0)) && s != g,
        decreases positions@.len() - q,
    {
        let cell = positions[q];
        let ghost before = cells@;
        if cell < 81 {
            let orig = cells[cell];
            if orig != 0 {
                cells[cell] = 0;
                let ghost stripped = cells@;
                proof {
                    assert(sub_grid(cells@, solution@));
                    lemma_sub_grid_conflict_free(cells@, solution@);
                    assert forall|i: int| 0 <= i < 81 implies #[trigger] cells[i] <= 9 by {
                        assert(cells@[i] == 0 || cells@[i] == solution@[i]);
                    }
                }
                let mut board = board_from_cells(&cells);
                let cand = board.candidates(cell);
                proof {
                    if solved(g) {
                        assert(completes(g, stripped)) by {
                            assert forall|i: int| 0 <= i < 81 && #[trigger] stripped[i] != 0 implies g[i] == stripped[i] by {
                                assert(stripped[i] == 0 || stripped[i] == solution@[i]);
                            }
                        }
                        lemma_solution_candidate(g, stripped, board, cell as int);
                    }
                }
                if crate::grid::popcount(cand) != 1 {
                    let ghost naked = board;
                    let _ = board.eliminate(cell, orig);
                    let ghost cands2 = board.cands_view();
                    proof {
                        crate::probe::techniques::lemma_naked_fits(naked);
                        assert forall|i: int, d: u8| 0 <= i < 81 && 1 <= d <= 9 && stripped[i] == 0 && #[trigger] mask_has(cands2[i], d)
                            implies !blocked(stripped, i, d) by {
                            if i == cell {
                                crate::grid::lemma_mask_remove(naked.cands_view()[i], orig, d);
                            }
                            assert(mask_has(naked.cands_view()[i], d));
                        }
                        assert(crate::probe::techniques::sub_naked(board.cells_view(), board.cands_view()));
                    }
                    let n = crate::probe::singles::count_completions(board, 1);
                    if n >= 1 {
                        cells[cell] = orig;
                        proof {
                            if solved(g) {
                                let w = choose|w: Seq<Seq<u8>>| #[trigger] crate::probe::singles::counted(stripped, cands2, w, n as int, 1);
                                let s0 = w[0];
                                assert(crate::probe::techniques::fits(s0, stripped, cands2));
                                assert(mask_has(cands2[cell as int], s0[cell as int]));
                                crate::grid::lemma_mask_remove(naked.cands_view()[cell as int], orig, s0[cell as int]);
                                assert(s0[cell as int] != g[cell as int]);
                                assert(cells@ =~= before);
                                assert(cells@.update(cell as int, 0) =~= stripped);
                                assert forall|c: int| 0 <= c < 81 && #[trigger] cells@[c] != 0 && positions@.subrange(0, q + 1).contains(c as usize)
                                    implies exists|s: Seq<u8>| completes(s, cells@.update(c, 0)) && s != g by {
                                    if c == cell {
                                        assert(completes(s0, cells@.update(c, 0)));
                                    } else {
                                        let sub = positions@.subrange(0, q + 1);
                                        let t = choose|t: int| 0 <= t < sub.len() && #[trigger] sub[t] == c as usize;
                                        assert(t < q);
                                        assert(positions@.subrange(0, q as int)[t] == c as usize);
                                    }
                                }
                            }
                        }
                    } else {
                        proof {
                            if solved(g) {
                                let w = choose|w: Seq<Seq<u8>>| #[trigger] crate::probe::singles::counted(stripped, cands2, w, 0, 1);
                                assert forall|s: Seq<u8>| #[trigger] completes(s, cells@) implies s == g by {
                                    assert(crate::probe::techniques::fits(s, stripped, naked.cands_view()));
                                    if s[cell as int] != orig {
                                        crate::grid::lemma_mask_remove(naked.cands_view()[cell as int], orig, s[cell as int]);
                                        assert forall|i: int| 0 <= i < 81 && #[trigger] stripped[i] == 0 implies mask_has(cands2[i], s[i]) by {
                                            if i != cell {
                                                assert(cands2[i] == naked.cands_view()[i]);
                                            }
                                        }
                                        assert(crate::probe::techniques::fits(s, stripped, cands2));
                                        assert(w.contains(s));
                                    }
                                    assert forall|i: int| 0 <= i < 81 && #[trigger] before[i] != 0 implies s[i] == before[i] by {
                                        if i != cell {
                                            assert(stripped[i] == before[i]);
                                        }
                                    }
                                    assert(completes(s, before));
                                }
                            }
                        }
                    }
                } else {
                    proof {
                        if solved(g) {
                            assert forall|s: Seq<u8>| #[trigger] completes(s, cells@) implies s == g by {
                                crate::grid::lemma_completion_candidate(s, stripped, board.cands_view(), cell as int);
                                crate::grid::lemma_completion_candidate(g, stripped, board.cands_view(), cell as int);
                                let m9 = cand & 0x1FF;
                                assert(crate::grid::ones16(m9) == 1);
                                crate::bits::lemma_bit16_and(cand, 0x1FF, (s[cell as int] - 1) as u16);
                                crate::bits::lemma_bit16_and(cand, 0x1FF, (g[cell as int] - 1) as u16);
                                crate::bits::lemma_bit16_all9((s[cell as int] - 1) as u16);
                                crate::bits::lemma_bit16_all9((g[cell as int] - 1) as u16);
                                crate::grid::lemma_ones16_single(m9, (s[cell as int] - 1) as u16, (g[cell as int] - 1) as u16);
                                assert(s[cell as int] == orig);
                                assert forall|i: int| 0 <= i < 81 && #[trigger] before[i] != 0 implies s[i] == before[i] by {
                                    if i != cell {
                                        assert(stripped[i] == before[i]);
                                    }
                                }
                                assert(completes(s, before));
                            }
                        }
                    }
                }
                proof {
                    if solved(g) && cells@ == stripped {
                        assert forall|c: int| 0 <= c < 81 && #[trigger] cells@[c] != 0 && positions@.subrange(0, q + 1).contains(c as usize)
                            implies exists|s: Seq<u8>| completes(s, cells@.update(c, 0)) && s != g by {
                            let sub = positions@.subrange(0, q + 1);
                                        let t = choose|t: int| 0 <= t < sub.len() && #[trigger] sub[t] == c as usize;
                            assert(c != cell);
                            assert(t < q);
                            assert(positions@.subrange(0, q as int)[t] == c as usize);
                            assert(before[c] != 0);
                            let s = choose|s: Seq<u8>| completes(s, before.update(c, 0)) && s != g;
                            lemma_completes_fewer(s, before.update(c, 0), cells@.update(c, 0));
                        }
                    }
                }
            }
        }
        proof {
            if solved(g) && cells@ == before {
                assert forall|c: int| 0 <= c < 81 && #[trigger] cells@[c] != 0 && positions@.subrange(0, q + 1).contains(c as usize)
                    implies exists|s: Seq<u8>| completes(s, cells@.update(c, 0)) && s != g by {
                    let sub = positions@.subrange(0, q + 1);
                                        let t = choose|t: int| 0 <= t < sub.len() && #[trigger] sub[t] == c as usize;
                    if t < q {
                        assert(positions@.subrange(0, q as int)[t] == c as usize);
                    } else {
                        assert(c as usize == cell);
                    }
                }
            }
        }
        q += 1;
    }
    proof {
        lemma_sub_grid_conflict_free(cells@, solution@);
        if solved(g) {
            assert(completes(g, cells@)) by {
                assert forall|i: int| 0 <= i < 81 && #[trigger] cells@[i] != 0 implies g[i] == cells@[i] by {
                    assert(cells@[i] == 0 || cells@[i] == solution@[i]);
                }
            }
            assert forall|c: int| 0 <= c < 81 && #[trigger] cells@[c] != 0 implies exists|s: Seq<u8>| completes(s, cells@.update(c, 0))
                && s != g by {
                assert(positions@.contains(c as usize));
                assert(positions@.subrange(0, q as int) =~= positions@);
            }
        }
    }
    cells
}

/// Solving the board `bb` with every in-scope kind of `sp` except `k` can reach
/// an undecided board where none of those kinds applies.
pub open spec fn rest_can_stall(bb: BitBoard, sp: Spec, k: int) -> bool {
    exists|a: u32| #[trigger] crate::bb::can_stall(bb, a) && forall|j: u32| j < 32 ==> #[trigger] bit32(a, j) == (j < 16 && in_scope(
        sp.status_of(j as int),
    ) && j != k)
}

/// Whether `digits` satisfies `spec`: the baseline toolbox alone solves it, and
/// every Forced kind is needed at least its required count by the avoid-target
/// walk over the in-scope toolbox. A grid whose clues conflict satisfies no spec.
pub fn verify(digits: &[u8; 81], spec: &Spec) -> (r: bool)
    requires
        forall|i: int| 0 <= i < 81 ==> #[trigger] digits[i] <= 9,
    ensures
        r ==> conflict_free(digits@),
        r ==> exists|g: Seq<u8>| completes(g, digits@),
        r ==> exists|bb: BitBoard| naked_bb(bb, digits@) && forall|k: int| 0 <= k < 16 && spec.status_of(k) == Status::Forced
            && spec.need_of(k) > 0 ==> #[trigger] rest_can_stall(bb, *spec, k),
{
    if !is_conflict_free(digits) {
        return false;
    }
    let b = board_from_cells(digits);
    let bb = BitBoard::from_board(&b);
    if !bb.solve_exact(spec.baseline_mask()).solved {
        return false;
    }
    assert(naked_bb(bb, digits@));
    proof {
        crate::bb::lemma_naked_records(bb, digits@);
        let g = choose|g: Seq<u8>| #[trigger] crate::bb::agrees(g, bb) && crate::bb::extends_rec(g, digits@);
        assert(completes(g, digits@));
    }
    let scope = spec.in_scope_mask();
    let forced = spec.forced();
    assert forall|q: int| 0 <= q < forced@.len() implies #[trigger] forced@[q].0 < 16 by {
        assert(spec.status_of(forced@[q].0 as int) == Status::Forced);
    }
    let mut i: usize = 0;
    while i < forced.len()
        invariant
            0 <= i <= forced@.len(),
            bb.wf(),
            naked_bb(bb, digits@),
            exists|g: Seq<u8>| completes(g, digits@),
            conflict_free(digits@),
            forall|q: int| 0 <= q < forced@.len() ==> #[trigger] forced@[q].0 < 16,
            forall|q: int| 0 <= q < forced@.len() ==> #[trigger] spec.status_of(forced@[q].0 as int) == Status::Forced
                && forced@[q].1 == spec.need_of(forced@[q].0 as int),
            forall|k: int| 0 <= k < 16 && spec.status_of(k) == Status::Forced ==> exists|q: int| 0 <= q < forced@.len()
                && #[trigger] forced@[q].0 == k,
            forall|j: u32| j < 32 ==> #[trigger] bit32(scope, j) == (j < 16 && in_scope(spec.status_of(j as int))),
            forall|q: int| 0 <= q < i && forced@[q].1 > 0 ==> #[trigger] rest_can_stall(bb, *spec, forced@[q].0 as int),
        decreases forced@.len() - i,
    {
        let (idx, need) = forced[i];
        let target = 1u32 << (idx as u32);
        let n = bb.min_target_uses(scope, target);
        if n < need as u32 {
            return false;
        }
        proof {
            if need > 0 {
                let a = scope & !target;
                assert(crate::bb::can_stall(bb, a));
                assert forall|j: u32| j < 32 implies #[trigger] bit32(a, j) == (j < 16 && in_scope(spec.status_of(j as int))
                    && j != idx as int) by {
                    crate::bits::lemma_bit32_and(scope, !target, j);
                    crate::bits::lemma_bit32_not(target, j);
                    crate::bits::lemma_bit32_one(idx as u32, j);
                }
                assert(rest_can_stall(bb, *spec, idx as int));
            }
        }
        i += 1;
    }
    proof {
        assert forall|k: int| 0 <= k < 16 && spec.status_of(k) == Status::Forced && spec.need_of(k) > 0 implies #[trigger] rest_can_stall(
            bb,
            *spec,
            k,
        ) by {
            let q = choose|q: int| 0 <= q < forced@.len() && #[trigger] forced@[q].0 == k;
            assert(spec.status_of(forced@[q].0 as int) == Status::Forced);
        }
    }
    true
}

/// How one attempt ended.
pub enum AttemptResult {
    /// A puzzle that satisfies the spec.
    Success(GeneratedPuzzle),
    /// A requirement-meeting grid was found, but the spec's verification rejected it.
    NotForced,
    /// No strip ever met the requirement counts.
    NeverFired,
}

/// Number of clues of a grid.
fn givens_of(g: &[u8; 81]) -> (n: usize)
    ensures
        n == count_filled(g@),
        n <= 81,
{
    let mut n: usize = 0;
    let mut i: usize = 0;
    while i < 81
        invariant
            0 <= i <= 81,
            n == count_filled(g@.take(i as int)),
            n <= i,
        decreases 81 - i,
    {
        proof {
            assert(g@.take(i + 1).drop_last() =~= g@.take(i as int));
        }
        if g[i] != 0 {
            n += 1;
        }
        i += 1;
    }
    proof {
        assert(g@.take(81) =~= g@);
    }
    n
}

/// Whether the fused baseline walk serves `spec`: the baseline holds both
/// singles, both locked-candidate kinds or neither, and no cheap kind (singles,
/// locked candidates) is Forced.
pub fn baseline_fast_applicable(spec: &Spec) -> (r: bool)
    ensures
        r == fast_baseline(*spec),
{
    let baseline = spec.baseline_mask();
    let forced = spec.forced_mask();
    let both_singles = has_kind(baseline, NAKED_SINGLE) && has_kind(baseline, HIDDEN_SINGLE);
    let lc_both_or_neither = has_kind(baseline, LC_POINTING) == has_kind(baseline, LC_CLAIMING);
    let no_forced_cheap = !has_kind(forced, NAKED_SINGLE) && !has_kind(forced, HIDDEN_SINGLE) && !has_kind(forced, LC_POINTING)
        && !has_kind(forced, LC_CLAIMING);
    both_singles && lc_both_or_neither && no_forced_cheap
}

/// The fused baseline walk serves `spec`; see [`baseline_fast_applicable`].
pub open spec fn fast_baseline(spec: Spec) -> bool {
    (in_baseline(spec.status_of(NAKED_SINGLE as int)) && in_baseline(spec.status_of(HIDDEN_SINGLE as int))
            && in_baseline(spec.status_of(LC_POINTING as int)) == in_baseline(spec.status_of(LC_CLAIMING as int))
            && !is_forced(spec.status_of(NAKED_SINGLE as int)) && !is_forced(spec.status_of(HIDDEN_SINGLE as int))
            && !is_forced(spec.status_of(LC_POINTING as int)) && !is_forced(spec.status_of(LC_CLAIMING as int)))
}

/// One strip attempt's state with its unavoidable-set pre-filter: the library
/// counts cover the clues of the grid (see [`StripState::wf`]); `sol` is the full
/// grid being stripped.
pub struct StripState {
    pub core: crate::generator::StripState,
    pub ua: UaFilter,
    pub sol: Ghost<Seq<u8>>,
}

impl StripState {
    /// The grid state is well formed and the library covers its clues; when the
    /// stripped grid is full, the grid is a puzzle of it and every library set is
    /// unavoidable in it.
    pub closed spec fn wf(&self) -> bool {
        &&& self.core.wf()
        &&& self.ua.wf()
        &&& self.ua.covers(self.core.cells@)
        &&& solved(self.sol@) ==> self.ua.sound(self.sol@) && completes(self.sol@, self.core.cells@)
    }

    /// Cell `cell` has just been emptied of `orig` and awaits its gate: the grid
    /// state is well formed and the library counts still include that clue.
    pub closed spec fn pending(&self, cell: int, orig: u8) -> bool {
        &&& self.core.wf()
        &&& self.ua.wf()
        &&& 0 <= cell < 81
        &&& 1 <= orig <= 9
        &&& self.core.cells[cell] == 0
        &&& self.ua.covers(self.core.cells@.update(cell, orig))
        &&& solved(self.sol@) ==> self.ua.sound(self.sol@) && completes(self.sol@, self.core.cells@.update(cell, orig))
    }

    /// Fresh state stripping the full grid `solution`, carrying `tier`'s library.
    pub fn new_ua(solution: &Board, tier: UaTier) -> (s: Self)
        requires
            solution.wf(),
            solution.is_naked(),
        ensures
            s.wf(),
            s.core.cells@ == solution.cells_view(),
            s.core.best is None,
            !s.core.req_met,
    {
        let core = crate::generator::StripState::new(solution);
        proof {
            core.lemma_cells_ok();
        }
        let ua = UaFilter::build(&core.cells, tier);
        proof {
            ua.lemma_covers(core.cells@);
        }
        StripState { core, ua, sol: Ghost(solution.cells_view()) }
    }

    /// Fresh state with no library.
    pub fn new(solution: &Board) -> (s: Self)
        requires
            solution.wf(),
            solution.is_naked(),
        ensures
            s.wf(),
            s.core.cells@ == solution.cells_view(),
            s.core.best is None,
            !s.core.req_met,
    {
        Self::new_ua(solution, UaTier::Off)
    }

    /// Strip cell `cell` (holding `orig`); see [`crate::generator::StripState::strip`].
    pub fn strip(&mut self, cell: usize, orig: u8) -> (alts: u16)
        requires
            old(self).wf(),
            cell < 81,
            1 <= orig <= 9,
            old(self).core.cells[cell as int] == orig,
        ensures
            final(self).pending(cell as int, orig),
            final(self).core.cells@ == old(self).core.cells@.update(cell as int, 0),
            final(self).core.best == old(self).core.best,
            final(self).core.req_met == old(self).core.req_met,
            forall|d: u8| 1 <= d <= 9 ==> #[trigger] mask_has(alts, d) == (d != orig && !blocked(final(self).core.cells@, cell as int, d)),
            alts < 512,
    {
        let ghost c0 = self.core.cells@;
        let alts = self.core.strip(cell, orig);
        proof {
            assert(self.core.cells@.update(cell as int, orig) =~= c0);
        }
        alts
    }

    /// Keep the strip of `cell` without a gate: the library drops the clue, and
    /// `best` follows the carried requirement verdict.
    pub fn keep_trivial(&mut self, cell: usize, Ghost(orig): Ghost<u8>)
        requires
            old(self).pending(cell as int, orig),
        ensures
            final(self).wf(),
            final(self).core.cells == old(self).core.cells,
            final(self).core.req_met == old(self).core.req_met,
            final(self).core.best == if old(self).core.req_met {
                Some(old(self).core.cells)
            } else {
                old(self).core.best
            },
    {
        let ghost full = self.core.cells@.update(cell as int, orig);
        self.ua.kept(cell, Ghost(full));
        proof {
            assert(full.update(cell as int, 0) =~= self.core.cells@);
        }
        let ghost before = self.core;
        if self.core.req_met {
            self.core.best = Some(self.core.cells);
        }
        proof {
            crate::generator::StripState::lemma_wf_same(before, self.core);
        }
    }

    /// Revert the strip of `cell`, restoring `orig`.
    pub fn revert(&mut self, cell: usize, orig: u8)
        requires
            old(self).pending(cell as int, orig),
        ensures
            final(self).wf(),
            final(self).core.cells@ == old(self).core.cells@.update(cell as int, orig),
            final(self).core.best == old(self).core.best,
            final(self).core.req_met == old(self).core.req_met,
    {
        self.core.revert(cell, orig);
    }

    /// When emptying `cell` would leave some library set without a clue, the
    /// strip cannot stay unique: revert it and answer `true`.
    pub fn ua_revert_if_caught(&mut self, cell: usize, orig: u8) -> (r: bool)
        requires
            old(self).pending(cell as int, orig),
        ensures
            r ==> final(self).wf() && final(self).core.cells@ == old(self).core.cells@.update(cell as int, orig)
                && final(self).core.best == old(self).core.best && final(self).core.req_met == old(self).core.req_met,
            r == old(self).ua.catches(cell as int),
            r && solved(old(self).sol@) ==> exists|t: Seq<u8>| completes(t, old(self).core.cells@) && t != old(self).sol@,
            r && solved(old(self).sol@) ==> exists|t: Seq<u8>| completes(t, old(self).core.cells@) && t[cell as int] != orig,
            !r ==> *final(self) == *old(self),
    {
        if self.ua.caught(cell) {
            proof {
                if solved(self.sol@) {
                    let full = self.core.cells@.update(cell as int, orig);
                    assert(full.update(cell as int, 0) =~= self.core.cells@);
                    self.ua.lemma_caught_non_unique(self.sol@, full, cell as int);
                    assert(self.sol@[cell as int] == orig);
                }
            }
            self.revert(cell, orig);
            true
        } else {
            false
        }
    }

    /// The units in which `orig` has one undecided home left after the strip of
    /// `cell`; see [`BitBoard::reforced`].
    pub fn reforced(&self, cell: usize, orig: u8) -> (m: u8)
        requires
            self.pending(cell as int, orig),
        ensures
            m == (if live_count(self.core.bb, orig - 1, crate::grid::row_spec(cell as int), 9) == 1 { 1int } else { 0int })
                + (if live_count(self.core.bb, orig - 1, 9 + crate::grid::col_spec(cell as int), 9) == 1 { 2int } else { 0int })
                + (if live_count(self.core.bb, orig - 1, 18 + crate::grid::box_spec(cell as int), 9) == 1 { 4int } else { 0int }),
    {
        proof {
            self.core.lemma_bb_wf();
        }
        self.core.bb.reforced(cell, orig)
    }

    /// Apply a baseline walk's `trace` for the unique strip of `cell` (which held
    /// `orig`): revert when it did not solve the grid; else the library drops the
    /// clue, the requirement verdict is recorded, and the grid becomes `best` when
    /// it meets the requirement.
    pub fn apply_baseline(&mut self, cell: usize, orig: u8, trace: &SolveTrace, spec: &Spec)
        requires
            old(self).pending(cell as int, orig),
        ensures
            final(self).wf(),
            !trace.solved ==> final(self).core.cells@ == old(self).core.cells@.update(cell as int, orig)
                && final(self).core.best == old(self).core.best && final(self).core.req_met == old(self).core.req_met,
            trace.solved ==> final(self).core.cells == old(self).core.cells && final(self).core.req_met == spec.meets(
                trace.counts@,
            ) && final(self).core.best == if final(self).core.req_met {
                Some(old(self).core.cells)
            } else {
                old(self).core.best
            },
    {
        if !trace.solved {
            self.revert(cell, orig);
            return;
        }
        let ghost full = self.core.cells@.update(cell as int, orig);
        self.ua.kept(cell, Ghost(full));
        proof {
            assert(full.update(cell as int, 0) =~= self.core.cells@);
        }
        let ghost before = self.core;
        self.core.req_met = spec.requirement_met(&trace.counts);
        if self.core.req_met {
            self.core.best = Some(self.core.cells);
        }
        proof {
            crate::generator::StripState::lemma_wf_same(before, self.core);
        }
    }

    /// Resolve the gates of the strip of `cell` (which held `orig`): revert when the
    /// puzzle became non-unique or the baseline toolbox no longer solves it; else
    /// the library drops the clue, the requirement verdict is recorded, and the grid
    /// becomes `best` when it meets the requirement.
    pub fn resolve_gate(&mut self, cell: usize, orig: u8, nonunique: bool, spec: &Spec, baseline: u32, forced: u32)
        requires
            old(self).pending(cell as int, orig),
        ensures
            final(self).wf(),
            nonunique ==> final(self).core.cells@ == old(self).core.cells@.update(cell as int, orig) && final(self).core.best
                == old(self).core.best && final(self).core.req_met == old(self).core.req_met,
            final(self).core.cells@ == old(self).core.cells@ || final(self).core.cells@ == old(self).core.cells@.update(
                cell as int,
                orig,
            ),
            final(self).core.best == old(self).core.best || final(self).core.best == Some(old(self).core.cells),
            !nonunique && final(self).core.cells@ == old(self).core.cells@ ==> crate::bb::record_completes(old(self).core.bb) && (exists|
                counts: Seq<u16>,
            | counts.len() == 16 && crate::bb::counts_allowed(counts, baseline) && final(self).core.req_met == spec.meets(counts))
                && final(self).core.best == if final(self).core.req_met {
                Some(old(self).core.cells)
            } else {
                old(self).core.best
            },
            !nonunique && final(self).core.cells@ != old(self).core.cells@ ==> final(self).core.best == old(self).core.best
                && final(self).core.req_met == old(self).core.req_met,
    {
        if nonunique {
            self.revert(cell, orig);
            return;
        }
        proof {
            self.core.lemma_bb_wf();
        }
        let outcome = self.core.bb.baseline(baseline, forced);
        if !outcome.solved {
            let ghost pre = self.core.cells@;
            self.revert(cell, orig);
            proof {
                assert(self.core.cells@[cell as int] == orig);
                assert(pre[cell as int] == 0);
            }
            return;
        }
        let ghost full = self.core.cells@.update(cell as int, orig);
        self.ua.kept(cell, Ghost(full));
        proof {
            assert(full.update(cell as int, 0) =~= self.core.cells@);
        }
        let ghost before = self.core;
        self.core.req_met = spec.requirement_met(&outcome.counts);
        if self.core.req_met {
            self.core.best = Some(self.core.cells);
        }
        proof {
            crate::generator::StripState::lemma_wf_same(before, self.core);
            assert(outcome.counts@.len() == 16 && crate::bb::counts_allowed(outcome.counts@, baseline) && self.core.req_met
                == spec.meets(outcome.counts@));
        }
    }
}

/// One strip attempt for `spec` carrying `tier`'s pre-filter: a random full grid,
/// stripped in random order. A strip is kept outright when the cell stays a naked
/// single, or (on the fused baseline) when its digit keeps a single home in one of
/// the cell's units; it is reverted outright when it would empty a library set;
/// otherwise it is kept when the puzzle stays unique and baseline-solvable. The
/// most-stripped requirement-meeting grid is then verified.
pub fn attempt(rng: &mut Rng, spec: &Spec, tier: UaTier) -> (r: AttemptResult)
    ensures
        r matches AttemptResult::Success(p) ==> p.givens <= 81 && sub_grid(p.puzzle.cells_view(), p.solution.cells_view())
            && conflict_free(p.puzzle.cells_view()) && p.puzzle.wf() && p.solution.wf() && p.givens == count_filled(
            p.puzzle.cells_view(),
        ) && exists|g: Seq<u8>| completes(g, p.puzzle.cells_view()),
{
    let baseline = spec.baseline_mask();
    let forced = spec.forced_mask();
    let fast = baseline_fast_applicable(spec);
    let solution = crate::fill::random_solution(rng);
    let mut positions: Vec<usize> = Vec::new();
    let mut k: usize = 0;
    while k < 81
        invariant
            0 <= k <= 81,
        decreases 81 - k,
    {
        positions.push(k);
        k += 1;
    }
    rng.shuffle(&mut positions);
    let sol_board = board_from_cells(&solution);
    let mut st = StripState::new_ua(&sol_board, tier);
    let mut q: usize = 0;
    while q < positions.len()
        invariant
            0 <= q <= positions@.len(),
            st.wf(),
            forall|i: int| 0 <= i < 81 ==> #[trigger] solution[i] <= 9,
            conflict_free(solution@),
            sub_grid(st.core.cells@, solution@),
            st.core.best matches Some(b) ==> sub_grid(b@, solution@),
        decreases positions@.len() - q,
    {
        let cell = positions[q];
        if cell < 81 {
            proof {
                st.core.lemma_cells_ok();
            }
            let orig = st.core.cells[cell];
            if orig != 0 {
                let ghost prev = st.core.cells;
                assert(orig == solution[cell as int]);
                let alts = st.strip(cell, orig);
                if alts == 0 {
                    st.keep_trivial(cell, Ghost(orig));
                } else if fast && st.reforced(cell, orig) != 0 {
                    st.keep_trivial(cell, Ghost(orig));
                } else if st.ua_revert_if_caught(cell, orig) {
                    proof {
                        assert(st.core.cells@ =~= prev@);
                    }
                } else {
                    proof {
                        st.core.lemma_bb_wf();
                    }
                    let nonunique = st.core.bb.any_alt_solves(cell, alts);
                    st.resolve_gate(cell, orig, nonunique, spec, baseline, forced);
                    proof {
                        if st.core.cells@ != prev@.update(cell as int, 0) {
                            assert(st.core.cells@ =~= prev@);
                        }
                    }
                }
            }
        }
        q += 1;
    }
    match st.core.best {
        Some(snap) => {
            proof {
                lemma_sub_grid_conflict_free(snap@, solution@);
                assert forall|i: int| 0 <= i < 81 implies #[trigger] snap[i] <= 9 by {
                    assert(snap@[i] == 0 || snap@[i] == solution@[i]);
                }
            }
            if verify(&snap, spec) {
                let givens = givens_of(&snap);
                let puzzle = board_from_cells(&snap);
                AttemptResult::Success(GeneratedPuzzle { puzzle, solution: sol_board, givens })
            } else {
                AttemptResult::NotForced
            }
        },
        None => AttemptResult::NeverFired,
    }
}

/// Attempt until a puzzle satisfying `spec` is found or `max_attempts` attempts
/// are spent; with the tallies.
pub fn generate(rng: &mut Rng, spec: &Spec, max_attempts: usize) -> (r: (Option<GeneratedPuzzle>, Stats))
    ensures
        r.1.attempts <= max_attempts,
        r.1.successes + r.1.not_forced + r.1.never_fired == r.1.attempts,
        r.1.successes <= 1,
        (r.0 is Some) == (r.1.successes == 1),
        r.0 is None ==> r.1.attempts == max_attempts,
        r.0 matches Some(p) ==> sub_grid(p.puzzle.cells_view(), p.solution.cells_view()) && conflict_free(p.puzzle.cells_view())
            && r.1.total_givens == p.givens && p.givens == count_filled(p.puzzle.cells_view()) && exists|g: Seq<u8>|
            completes(g, p.puzzle.cells_view()),
{
    let mut stats = Stats { attempts: 0, successes: 0, never_fired: 0, not_forced: 0, total_givens: 0 };
    let mut i: usize = 0;
    while i < max_attempts
        invariant
            0 <= i <= max_attempts,
            stats.attempts == i,
            stats.successes == 0,
            stats.not_forced + stats.never_fired == i,
            stats.total_givens == 0,
        decreases max_attempts - i,
    {
        stats.attempts += 1;
        match attempt(rng, spec, UaTier::SCALAR) {
            AttemptResult::Success(p) => {
                stats.successes += 1;
                stats.total_givens += p.givens;
                return (Some(p), stats);
            },
            AttemptResult::NotForced => {
                stats.not_forced += 1;
            },
            AttemptResult::NeverFired => {
                stats.never_fired += 1;
            },
        }
        i += 1;
    }
    (None, stats)
}

/// The fingerprint of a run whose attempts came out as `outs`: from the FNV
/// offset, each produced puzzle's cells are folded in and each failed attempt
/// multiplies by the FNV prime.
pub open spec fn attempts_fp(outs: Seq<Option<Seq<u8>>>) -> u64
    decreases outs.len(),
{
    if outs.len() == 0 {
        FNV_OFFSET
    } else {
        let f = attempts_fp(outs.drop_last());
        match outs.last() {
            Some(cells) => crate::fingerprint::fnv(f, cells),
            None => f.wrapping_mul(FNV_PRIME),
        }
    }
}

/// The produced puzzles among `outs`.
pub open spec fn successes_in(outs: Seq<Option<Seq<u8>>>) -> int
    decreases outs.len(),
{
    if outs.len() == 0 {
        0
    } else {
        successes_in(outs.drop_last()) + if outs.last() is Some {
            1int
        } else {
            0int
        }
    }
}

/// `outs` records `n` attempts, `successes` of which produced a puzzle, each an
/// 81-cell conflict-free grid with a completion.
pub open spec fn outcomes_fit(outs: Seq<Option<Seq<u8>>>, n: int, successes: int) -> bool {
    &&& outs.len() == n
    &&& successes_in(outs) == successes
    &&& forall|k: int| 0 <= k < outs.len() ==> (#[trigger] outs[k] matches Some(c) ==> c.len() == 81 && conflict_free(c)
        && exists|g: Seq<u8>| completes(g, c))
}

/// Exactly `n` attempts for `spec` with the scalar pre-filter tier; see
/// [`run_attempts_ua`].
pub fn run_attempts(rng: &mut Rng, spec: &Spec, n: usize) -> (r: (Stats, u64))
    requires
        n <= usize::MAX / 81,
    ensures
        r.0.attempts == n,
        r.0.successes + r.0.not_forced + r.0.never_fired == n,
        r.0.total_givens <= 81 * r.0.successes,
        exists|outs: Seq<Option<Seq<u8>>>| #[trigger] outcomes_fit(outs, n as int, r.0.successes as int) && r.1 == attempts_fp(outs),
{
    run_attempts_ua(rng, spec, n, UaTier::SCALAR)
}

/// Exactly `n` attempts for `spec` carrying `tier`'s pre-filter: the tallies and a fingerprint folding every
/// produced puzzle's cells (each failed attempt multiplies the running value by
/// the FNV prime).
pub fn run_attempts_ua(rng: &mut Rng, spec: &Spec, n: usize, tier: UaTier) -> (r: (Stats, u64))
    requires
        n <= usize::MAX / 81,
    ensures
        r.0.attempts == n,
        r.0.successes + r.0.not_forced + r.0.never_fired == n,
        r.0.total_givens <= 81 * r.0.successes,
        exists|outs: Seq<Option<Seq<u8>>>| #[trigger] outcomes_fit(outs, n as int, r.0.successes as int) && r.1 == attempts_fp(outs),
{
    let mut stats = Stats { attempts: 0, successes: 0, never_fired: 0, not_forced: 0, total_givens: 0 };
    let mut fp: u64 = FNV_OFFSET;
    let ghost mut outs: Seq<Option<Seq<u8>>> = Seq::empty();
    let mut i: usize = 0;
    while i < n
        invariant
            0 <= i <= n,
            stats.attempts == i,
            stats.successes + stats.not_forced + stats.never_fired == i,
            stats.total_givens <= 81 * stats.successes,
            n <= usize::MAX / 81,
            outcomes_fit(outs, i as int, stats.successes as int),
            fp == attempts_fp(outs),
        decreases n - i,
    {
        stats.attempts += 1;
        match attempt(rng, spec, tier) {
            AttemptResult::Success(p) => {
                stats.successes += 1;
                stats.total_givens += p.givens;
                fnv_fold_cells(&mut fp, p.puzzle.cells());
                proof {
                    let o0 = outs;
                    outs = outs.push(Some(p.puzzle.cells_view()));
                    assert(outs.drop_last() == o0);
                }
            },
            AttemptResult::NotForced => {
                stats.not_forced += 1;
                fp = fp.wrapping_mul(FNV_PRIME);
                proof {
                    let o0 = outs;
                    outs = outs.push(None);
                    assert(outs.drop_last() == o0);
                }
            },
            AttemptResult::NeverFired => {
                stats.never_fired += 1;
                fp = fp.wrapping_mul(FNV_PRIME);
                proof {
                    let o0 = outs;
                    outs = outs.push(None);
                    assert(outs.drop_last() == o0);
                }
            },
        }
        i += 1;
    }
    (stats, fp)
}

/// The 81 cells in a random order.
fn shuffled_cells(rng: &mut Rng) -> (v: Vec<usize>)
    ensures
        v@.len() == 81,
{
    let mut v: Vec<usize> = Vec::new();
    let mut k: usize = 0;
    while k < 81
        invariant
            0 <= k <= 81,
            v@.len() == k,
        decreases 81 - k,
    {
        v.push(k);
        k += 1;
    }
    rng.shuffle(&mut v);
    v
}

/// Tallies of a [`reforce_stat`] walk: how often the single-home test fires at a
/// gate, and how often a gate it fires at turns out non-unique, unsolvable, or
/// changes the requirement verdict (each of which the skip would get wrong).
#[derive(Clone, Copy, Debug, PartialEq, Eq, Structural)]
pub struct ReforceStat {
    pub attempts: usize,
    /// Strips kept because the cell stayed a naked single.
    pub trivial: usize,
    /// Strips that posed the gates.
    pub gates: usize,
    pub accepted: usize,
    pub rejected_nonunique: usize,
    pub rejected_unsolvable: usize,
    /// Gates at which the single-home test fired in some unit.
    pub hits: usize,
    pub hit_row: usize,
    pub hit_col: usize,
    pub hit_box: usize,
    pub hit_nonunique: usize,
    pub hit_unsolvable: usize,
    pub hit_req_drift: usize,
}

/// `attempts` strip attempts from `base_seed`, each gate evaluated as [`attempt`]
/// resolves it (no library, no skip), tallying at every gate whether the
/// single-home test fires and how the real gates then decide.
pub fn reforce_stat(base_seed: u64, spec: &Spec, attempts: usize) -> (s: ReforceStat)
    requires
        attempts <= usize::MAX / 81,
    ensures
        s.attempts == attempts,
        s.trivial + s.gates <= 81 * attempts,
        s.accepted + s.rejected_nonunique + s.rejected_unsolvable == s.gates,
        s.hits <= s.gates,
        s.hit_row <= s.hits && s.hit_col <= s.hits && s.hit_box <= s.hits,
        s.hit_nonunique <= s.rejected_nonunique,
        s.hit_unsolvable <= s.rejected_unsolvable,
        s.hit_req_drift <= s.accepted,
        s.hit_nonunique + s.hit_unsolvable + s.hit_req_drift <= s.hits,
        s.hit_nonunique == 0,
{
    let baseline = spec.baseline_mask();
    let forced = spec.forced_mask();
    let mut rng = Rng::from_seed(base_seed);
    let mut s = ReforceStat {
        attempts: 0,
        trivial: 0,
        gates: 0,
        accepted: 0,
        rejected_nonunique: 0,
        rejected_unsolvable: 0,
        hits: 0,
        hit_row: 0,
        hit_col: 0,
        hit_box: 0,
        hit_nonunique: 0,
        hit_unsolvable: 0,
        hit_req_drift: 0,
    };
    let mut a: usize = 0;
    while a < attempts
        invariant
            0 <= a <= attempts,
            attempts <= usize::MAX / 81,
            s.attempts == a,
            s.trivial + s.gates <= 81 * a,
            s.accepted + s.rejected_nonunique + s.rejected_unsolvable == s.gates,
            s.hits <= s.gates,
            s.hit_row <= s.hits && s.hit_col <= s.hits && s.hit_box <= s.hits,
            s.hit_nonunique <= s.rejected_nonunique,
            s.hit_unsolvable <= s.rejected_unsolvable,
            s.hit_req_drift <= s.accepted,
            s.hit_nonunique + s.hit_unsolvable + s.hit_req_drift <= s.hits,
            s.hit_nonunique == 0,
        decreases attempts - a,
    {
        s.attempts += 1;
        let solution = crate::fill::random_solution(&mut rng);
        let positions = shuffled_cells(&mut rng);
        let board = board_from_cells(&solution);
        let mut st = StripState::new(&board);
        let ghost base = s;
        let mut q: usize = 0;
        while q < 81
            invariant
                0 <= q <= 81,
                positions@.len() == 81,
                st.wf(),
                a < attempts,
                attempts <= usize::MAX / 81,
                base.trivial + base.gates <= 81 * a,
                s.attempts == base.attempts,
                s.trivial + s.gates <= base.trivial + base.gates + q,
                s.accepted + s.rejected_nonunique + s.rejected_unsolvable == s.gates,
                s.hits <= s.gates,
                s.hit_row <= s.hits && s.hit_col <= s.hits && s.hit_box <= s.hits,
                s.hit_nonunique <= s.rejected_nonunique,
                s.hit_unsolvable <= s.rejected_unsolvable,
                s.hit_req_drift <= s.accepted,
                s.hit_nonunique + s.hit_unsolvable + s.hit_req_drift <= s.hits,
                s.hit_nonunique == 0,
                forall|i: int| 0 <= i < 81 ==> #[trigger] solution[i] <= 9,
                conflict_free(solution@),
                sub_grid(st.core.cells@, solution@),
            decreases 81 - q,
        {
            proof {
                assert(81 * a + 81 <= 81 * attempts) by (nonlinear_arith)
                    requires
                        a < attempts,
                ;
            }
            let cell = positions[q];
            q += 1;
            if cell >= 81 {
                continue;
            }
            proof {
                st.core.lemma_cells_ok();
            }
            let orig = st.core.cells[cell];
            if orig == 0 {
                continue;
            }
            let ghost prev = st.core.cells@;
            assert(orig == solution[cell as int]);
            let alts = st.strip(cell, orig);
            if alts == 0 {
                st.keep_trivial(cell, Ghost(orig));
                s.trivial += 1;
                continue;
            }
            s.gates += 1;
            let rf = st.reforced(cell, orig);
            let hit = rf != 0;
            if hit {
                s.hits += 1;
                if rf % 2 == 1 {
                    s.hit_row += 1;
                }
                if (rf / 2) % 2 == 1 {
                    s.hit_col += 1;
                }
                if rf >= 4 {
                    s.hit_box += 1;
                }
            }
            proof {
                st.core.lemma_bb_wf();
            }
            let nonunique = st.core.bb.any_alt_solves(cell, alts);
            if nonunique {
                s.rejected_nonunique += 1;
                if hit {
                    proof {
                        let cc = cell as int;
                        let uu: int = if live_count(st.core.bb, orig - 1, crate::grid::row_spec(cc), 9) == 1 {
                            crate::grid::row_spec(cc)
                        } else if live_count(st.core.bb, orig - 1, 9 + crate::grid::col_spec(cc), 9) == 1 {
                            9 + crate::grid::col_spec(cc)
                        } else {
                            18 + crate::grid::box_spec(cc)
                        };
                        assert(0 <= crate::grid::row_spec(cc) < 9 && 0 <= crate::grid::col_spec(cc) < 9);
                        crate::bb::lemma_box_bound(cc);
                        st.core.lemma_naked();
                        assert(!crate::grid::mask_has(alts, orig));
                        lemma_single_home_no_alt(st.core.bb, st.core.cells@, solution@, cc, orig, alts, uu);
                        assert(false);
                    }
                    s.hit_nonunique += 1;
                }
                st.revert(cell, orig);
                continue;
            }
            let trace = st.core.bb.baseline(baseline, forced);
            if !trace.solved {
                s.rejected_unsolvable += 1;
                if hit {
                    s.hit_unsolvable += 1;
                }
                st.revert(cell, orig);
                continue;
            }
            s.accepted += 1;
            let carried = st.core.req_met;
            st.apply_baseline(cell, orig, &trace, spec);
            if hit && st.core.req_met != carried {
                s.hit_req_drift += 1;
            }
        }
        a += 1;
    }
    s
}

/// The pre-filter never decides a gate differently from the prober: when an
/// alternate completion `t` of the stripped grid exists (as it does for every
/// strip the library catches), `t` agrees with the stripped board and holds one
/// of the cell's alternate digits, so the prober's answer on that gate is `true`
/// and it reverts the strip just as the filter does.
pub proof fn lemma_caught_prober_reverts(bb: BitBoard, cells: Seq<u8>, cell: int, orig: u8, alts: u16, t: Seq<u8>)
    requires
        crate::bb::naked_bb(bb, cells),
        completes(t, cells),
        0 <= cell < 81,
        cells[cell] == 0,
        1 <= orig <= 9,
        t[cell] != orig,
        forall|d: u8| 1 <= d <= 9 ==> #[trigger] crate::grid::mask_has(alts, d) == (d != orig && !blocked(cells, cell, d)),
    ensures
        crate::bb::agrees(t, bb),
        bb.open(cell),
        crate::grid::mask_has(alts, t[cell]),
{
    crate::bb::lemma_naked_agrees(bb, cells, t);
    assert(1 <= t[cell] <= 9);
    if blocked(cells, cell, t[cell]) {
        let j = choose|j: int| 0 <= j < 81 && #[trigger] is_peer(cell, j) && cells[j] == t[cell];
        assert(t[j] == cells[j]);
        assert(no_conflict_at(t, cell));
        assert(blocked(t, cell, t[cell]));
    }
}

/// A stripped clue whose digit keeps a single undecided home in one of the
/// cell's units admits no alternate digit: no completion of a record puts a
/// digit of `alts` there.
pub proof fn lemma_single_home_no_alt(bb: BitBoard, cells: Seq<u8>, sol: Seq<u8>, cell: int, orig: u8, alts: u16, u: int)
    requires
        crate::bb::naked_bb(bb, cells),
        cells.len() == 81,
        sol.len() == 81,
        forall|i: int| 0 <= i < 81 ==> #[trigger] cells[i] <= 9,
        sub_grid(cells, sol),
        conflict_free(sol),
        0 <= cell < 81,
        cells[cell] == 0,
        sol[cell] == orig,
        1 <= orig <= 9,
        !crate::grid::mask_has(alts, orig),
        0 <= u < 27,
        crate::layout::in_unit(u, cell),
        crate::bb::live_count(bb, orig - 1, u, 9) == 1,
    ensures
        !crate::bb::completes_with(bb, cell, alts),
{
    lemma_sub_grid_conflict_free(cells, sol);
    crate::bb::lemma_naked_records(bb, cells);
    if crate::bb::completes_with(bb, cell, alts) {
        let g = choose|g: Seq<u8>| #[trigger] crate::bb::agrees(g, bb) && crate::bb::extends_rec(g, cells) && (bb.open(cell)
            ==> crate::grid::mask_has(alts, g[cell]));
        assert(bb.open(cell));
        if blocked(cells, cell, orig) {
            let j = choose|j: int| 0 <= j < 81 && #[trigger] is_peer(cell, j) && cells[j] == orig;
            assert(sol[j] == orig);
            assert(no_conflict_at(sol, cell));
            assert(blocked(sol, cell, sol[cell]));
        }
        assert(bb.cand(orig - 1, cell));
        crate::bb::lemma_in_unit(u, cell);
        let kc = choose|kc: int| 0 <= kc < 9 && crate::grid::unit_cell(u, kc) == cell;
        assert forall|x: int| 0 <= x < 9 && bb.open(#[trigger] crate::grid::unit_cell(u, x)) && bb.cand(orig - 1, crate::grid::unit_cell(u, x))
            implies crate::grid::unit_cell(u, x) == cell by {
            if crate::grid::unit_cell(u, x) != cell {
                crate::bb::lemma_live_two(bb, orig - 1, u, 9, x, kc);
            }
        }
        crate::bb::lemma_lone_home(bb, g, u, orig - 1, cell);
        assert(g[cell] == orig);
    }
}

/// Number of set flags among the first `n`.
pub open spec fn count_true(s: Seq<bool>, n: int) -> nat
    decreases n,
{
    if n <= 0 {
        0
    } else {
        count_true(s, n - 1) + if s[n - 1] { 1nat } else { 0nat }
    }
}

/// At most `n` flags are set among the first `n`.
pub proof fn lemma_count_true_bound(s: Seq<bool>, n: int)
    requires
        0 <= n,
    ensures
        count_true(s, n) <= n,
    decreases n,
{
    if n > 0 {
        lemma_count_true_bound(s, n - 1);
    }
}

/// Setting a clear flag among the first `n` adds one.
pub proof fn lemma_count_true_set(s: Seq<bool>, i: int, n: int)
    requires
        0 <= i < n <= s.len(),
        !s[i],
    ensures
        count_true(s.update(i, true), n) == count_true(s, n) + 1,
    decreases n,
{
    if n - 1 > i {
        lemma_count_true_set(s, i, n - 1);
    } else {
        lemma_count_true_same(s, s.update(i, true), n - 1);
    }
}

/// Flags that agree on the first `n` count alike.
pub proof fn lemma_count_true_same(s: Seq<bool>, t: Seq<bool>, n: int)
    requires
        forall|i: int| 0 <= i < n ==> #[trigger] s[i] == t[i],
    ensures
        count_true(s, n) == count_true(t, n),
    decreases n,
{
    if n > 0 {
        lemma_count_true_same(s, t, n - 1);
    }
}

/// Tallies of a [`ua_catch_stat`] walk, by clue group (0: at least 33 clues, 1:
/// fewer): non-unique gates, and how many of them the size-4 sets and the whole
/// two-digit library would have caught; the locked-cell census (cells that are
/// the last clue of some set) by clue count; and the gates the library flagged
/// that turned out unique.
#[derive(Clone, Copy, Debug)]
pub struct UaCatchStat {
    pub attempts: usize,
    pub boards: u64,
    pub lib_uas: u64,
    pub lib_ua4: u64,
    pub reverts: [u64; 2],
    pub caught_ua4_ct: [u64; 2],
    pub caught_all_ct: [u64; 2],
    pub locked_sum: [u64; 82],
    pub locked_n: [u64; 82],
    pub false_positive: u64,
}

/// The first member of `members` that is still a clue, if any, is locked.
pub open spec fn first_clue_locked(members: Seq<usize>, is_given: Seq<bool>, locked: Seq<bool>) -> bool {
    forall|k: int|
        0 <= k < members.len() && #[trigger] is_given[members[k] as int] && (forall|k2: int| 0 <= k2 < k ==> !is_given[
            #[trigger] members[k2] as int]) ==> locked[members[k] as int]
}

/// Locking more cells keeps the first clue locked.
pub proof fn lemma_first_clue_locked_grows(members: Seq<usize>, is_given: Seq<bool>, l0: Seq<bool>, l1: Seq<bool>)
    requires
        first_clue_locked(members, is_given, l0),
        forall|t: int| 0 <= t < members.len() ==> #[trigger] members[t] < 81,
        forall|j: int| 0 <= j < 81 && #[trigger] l0[j] ==> l1[j],
    ensures
        first_clue_locked(members, is_given, l1),
{
    assert forall|k: int|
        0 <= k < members.len() && #[trigger] is_given[members[k] as int] && (forall|k2: int| 0 <= k2 < k ==> !is_given[
            #[trigger] members[k2] as int]) implies l1[members[k] as int] by {
        assert(l0[members[k] as int]);
    }
}

/// Commit a keep of `cell` to the library clue counts `gc`, and lock the last
/// clue of every set it leaves with one clue.
fn commit_keep(lib: &UaLib, gc: &mut Vec<u32>, is_given: &mut [bool; 81], locked: &mut [bool; 81], n_locked: &mut u64, cell: usize)
    requires
        cell < 81,
        lib_shape(lib.uas@, lib.cell_uas@),
        old(gc)@.len() == lib.uas@.len(),
        *old(n_locked) == count_true(old(locked)@, 81),
    ensures
        final(gc)@.len() == old(gc)@.len(),
        *final(n_locked) == count_true(final(locked)@, 81),
        final(is_given)@ == old(is_given)@.update(cell as int, false),
        forall|j: int| 0 <= j < 81 && #[trigger] old(locked)[j] ==> final(locked)[j],
        forall|j: int| 0 <= j < 81 && #[trigger] final(locked)[j] && !old(locked)[j] ==> final(is_given)[j],
        forall|u: int| 0 <= u < old(gc)@.len() ==> #[trigger] final(gc)@[u] <= old(gc)@[u],
        forall|u: int| 0 <= u < old(gc)@.len() && !lib.cell_uas@[cell as int]@.contains(u as usize) ==> #[trigger] final(gc)@[u]
            == old(gc)@[u],
        forall|u: int| 0 <= u < old(gc)@.len() && lib.cell_uas@[cell as int]@.contains(u as usize) && old(gc)@[u] > 0 ==> #[trigger] final(gc)@[u]
            < old(gc)@[u],
        forall|u: int| 0 <= u < old(gc)@.len() && lib.cell_uas@[cell as int]@.contains(u as usize) && #[trigger] final(gc)@[u] == 1
            ==> first_clue_locked(lib.uas@[u].0@, final(is_given)@, final(locked)@),
{
    is_given[cell] = false;
    let glen = gc.len();
    let ghost g0 = gc@;
    let ghost l0 = locked@;
    let list = &lib.cell_uas[cell];
    let mut t: usize = 0;
    while t < list.len()
        invariant
            0 <= t <= list@.len(),
            list == lib.cell_uas@[cell as int],
            cell < 81,
            lib_shape(lib.uas@, lib.cell_uas@),
            gc@.len() == lib.uas@.len(),
            g0.len() == gc@.len(),
            g0.len() == glen,
            *n_locked == count_true(locked@, 81),
            is_given@ == old(is_given)@.update(cell as int, false),
            forall|j: int| 0 <= j < 81 && #[trigger] l0[j] ==> locked[j],
            forall|j: int| 0 <= j < 81 && #[trigger] locked[j] && !l0[j] ==> is_given[j],
            forall|u: int| 0 <= u < g0.len() ==> #[trigger] gc@[u] <= g0[u],
            forall|u: int| 0 <= u < g0.len() && !list@.subrange(0, t as int).contains(u as usize) ==> #[trigger] gc@[u] == g0[u],
            forall|u: int| 0 <= u < g0.len() && list@.subrange(0, t as int).contains(u as usize) && g0[u] > 0 ==> #[trigger] gc@[u]
                < g0[u],
            forall|u: int| 0 <= u < g0.len() && list@.subrange(0, t as int).contains(u as usize) && #[trigger] gc@[u] == 1
                ==> first_clue_locked(lib.uas@[u].0@, is_given@, locked@),
        decreases list@.len() - t,
    {
        let u = list[t];
        let ghost gb = gc@;
        let ghost lb = locked@;
        proof {
            assert(list@.subrange(0, t + 1) == list@.subrange(0, t as int).push(u));
        }
        if gc[u] > 0 {
            gc.set(u, gc[u] - 1);
        }
        if gc[u] == 1 {
            let members = &lib.uas[u].0;
            let mut k: usize = 0;
            let ghost mut found = false;
            while k < members.len()
                invariant
                    0 <= k <= members@.len(),
                    found ==> first_clue_locked(members@, is_given@, locked@),
                    !found ==> forall|k2: int| 0 <= k2 < k ==> !is_given[#[trigger] members@[k2] as int],
                    u < lib.uas@.len(),
                    members == lib.uas@[u as int].0,
                    lib_shape(lib.uas@, lib.cell_uas@),
                    *n_locked == count_true(locked@, 81),
                    forall|j: int| 0 <= j < 81 && #[trigger] lb[j] ==> locked[j],
                    forall|j: int| 0 <= j < 81 && #[trigger] locked[j] && !lb[j] ==> is_given[j],
                ensures
                    found || k == members@.len(),
                    found ==> first_clue_locked(members@, is_given@, locked@),
                    !found ==> forall|k2: int| 0 <= k2 < k ==> !is_given[#[trigger] members@[k2] as int],
                    *n_locked == count_true(locked@, 81),
                    forall|j: int| 0 <= j < 81 && #[trigger] lb[j] ==> locked[j],
                    forall|j: int| 0 <= j < 81 && #[trigger] locked[j] && !lb[j] ==> is_given[j],
                decreases members@.len() - k,
            {
                let cc = members[k];
                if is_given[cc] {
                    if !locked[cc] {
                        proof {
                            lemma_count_true_set(locked@, cc as int, 81);
                        }
                        locked[cc] = true;
                        proof {
                            lemma_count_true_bound(locked@, 81);
                        }
                        *n_locked = *n_locked + 1;
                    }
                    proof {
                        assert forall|k1: int|
                            0 <= k1 < members@.len() && #[trigger] is_given[members@[k1] as int] && (forall|k2: int| 0 <= k2 < k1
                                ==> !is_given[#[trigger] members@[k2] as int]) implies locked[members@[k1] as int] by {
                            if k1 < k as int {
                            } else if k1 > k as int {
                                assert(!is_given[members@[k as int] as int]);
                            }
                        }
                        found = true;
                    }
                    break;
                }
                k += 1;
            }
            proof {
                if !found {
                    assert(k == members@.len());
                    assert forall|k1: int|
                        0 <= k1 < members@.len() && #[trigger] is_given[members@[k1] as int] && (forall|k2: int| 0 <= k2 < k1
                            ==> !is_given[#[trigger] members@[k2] as int]) implies locked[members@[k1] as int] by {
                        assert(!is_given[members@[k1] as int]);
                    }
                }
                assert(first_clue_locked(members@, is_given@, locked@));
            }
        }
        proof {
            let sub = list@.subrange(0, t as int);
            assert forall|v: int| 0 <= v < g0.len() && !list@.subrange(0, t + 1).contains(v as usize) implies #[trigger] gc@[v]
                == g0[v] by {
                assert(list@.subrange(0, t + 1)[t as int] == u);
                if sub.contains(v as usize) {
                    let w = choose|w: int| 0 <= w < sub.len() && sub[w] == v as usize;
                    assert(list@.subrange(0, t + 1)[w] == v as usize);
                }
            }
            assert forall|v: int| 0 <= v < g0.len() && list@.subrange(0, t + 1).contains(v as usize) && g0[v] > 0 implies #[trigger] gc@[v]
                < g0[v] by {
                if v != u as int {
                    let s1 = list@.subrange(0, t + 1);
                    let w = choose|w: int| 0 <= w < s1.len() && s1[w] == v as usize;
                    assert(s1[t as int] == u);
                    assert((v as usize) as int == v);
                    assert(w != t as int);
                    assert(sub[w] == v as usize);
                }
            }
            assert forall|v: int| 0 <= v < g0.len() && list@.subrange(0, t + 1).contains(v as usize) && #[trigger] gc@[v] == 1
                implies first_clue_locked(lib.uas@[v].0@, is_given@, locked@) by {
                if v != u as int {
                    let s1 = list@.subrange(0, t + 1);
                    let w = choose|w: int| 0 <= w < s1.len() && s1[w] == v as usize;
                    assert(s1[t as int] == u);
                    assert((v as usize) as int == v);
                    assert(w != t as int);
                    assert(sub[w] == v as usize);
                    assert(gb[v] == gc@[v]);
                    lemma_first_clue_locked_grows(lib.uas@[v].0@, is_given@, lb, locked@);
                }
            }
        }
        t += 1;
    }
    proof {
        assert(list@.subrange(0, list@.len() as int) == list@);
    }
}

/// `attempts` strip attempts from `base_seed` (the fused baseline, no library
/// skip), each board's two-digit library enumerated up front: at every gate, note
/// whether some set containing the cell is down to its last clue, then tally that
/// against the prober's verdict, and keep the locked-cell census.
pub fn ua_catch_stat(base_seed: u64, spec: &Spec, attempts: usize) -> (s: UaCatchStat)
    requires
        fast_baseline(*spec),
        attempts <= usize::MAX / 81,
        attempts <= 0xffff_ffff_ffff,
    ensures
        s.attempts == attempts,
        s.boards == attempts,
        s.lib_ua4 <= s.lib_uas,
        forall|g: int| 0 <= g < 2 ==> #[trigger] s.caught_ua4_ct[g] <= s.caught_all_ct[g] && s.caught_all_ct[g] <= s.reverts[g],
{
    let baseline = spec.baseline_mask();
    let forced = spec.forced_mask();
    let fast = baseline_fast_applicable(spec);
    let mut rng = Rng::from_seed(base_seed);
    let mut s = UaCatchStat {
        attempts: 0,
        boards: 0,
        lib_uas: 0,
        lib_ua4: 0,
        reverts: [0; 2],
        caught_ua4_ct: [0; 2],
        caught_all_ct: [0; 2],
        locked_sum: [0; 82],
        locked_n: [0; 82],
        false_positive: 0,
    };
    let ghost mut steps: int = 0;
    let mut a: usize = 0;
    while a < attempts
        invariant
            0 <= a <= attempts,
            attempts <= 0xffff_ffff_ffff,
            fast,
            s.attempts == a,
            s.boards == a,
            s.lib_ua4 <= s.lib_uas,
            s.lib_uas <= 2916 * a,
            0 <= steps <= 81 * a,
            s.false_positive <= steps,
            forall|g: int| 0 <= g < 2 ==> #[trigger] s.caught_ua4_ct[g] <= s.caught_all_ct[g],
            forall|g: int| 0 <= g < 2 ==> #[trigger] s.caught_all_ct[g] <= s.reverts[g],
            forall|g: int| 0 <= g < 2 ==> #[trigger] s.reverts[g] <= steps,
            forall|c: int| 0 <= c < 82 ==> #[trigger] s.locked_sum[c] <= 81 * steps,
            forall|c: int| 0 <= c < 82 ==> #[trigger] s.locked_n[c] <= steps,
        decreases attempts - a,
    {
        s.attempts += 1;
        let solution = crate::fill::random_solution(&mut rng);
        let lib = enumerate_2digit_uas(&solution);
        s.boards += 1;
        let mut n4: u64 = 0;
        let mut gc: Vec<u32> = Vec::new();
        let mut i: usize = 0;
        while i < lib.uas.len()
            invariant
                0 <= i <= lib.uas@.len(),
                lib.uas@.len() <= 2916,
                n4 <= i,
                gc@.len() == i,
            decreases lib.uas@.len() - i,
        {
            if lib.uas[i].1 == 4 {
                n4 += 1;
            }
            gc.push(lib.uas[i].1 as u32);
            i += 1;
        }
        s.lib_uas += lib.uas.len() as u64;
        s.lib_ua4 += n4;
        let mut is_given = [true; 81];
        let mut locked = [false; 81];
        let mut n_locked: u64 = 0;
        proof {
            lemma_count_true_zero(locked@, 81);
        }
        let positions = shuffled_cells(&mut rng);
        let board = board_from_cells(&solution);
        let mut st = StripState::new(&board);
        let mut givens: usize = givens_of(&solution);
        let ghost start = steps;
        let mut q: usize = 0;
        while q < 81
            invariant
                0 <= q <= 81,
                positions@.len() == 81,
                st.wf(),
                fast,
                lib_shape(lib.uas@, lib.cell_uas@),
                gc@.len() == lib.uas@.len(),
                n_locked == count_true(locked@, 81),
                givens <= 81,
                givens == count_filled(st.core.cells@),
                a < attempts,
                attempts <= 0xffff_ffff_ffff,
                0 <= start <= 81 * a,
                start <= steps <= start + q,
                s.false_positive <= steps,
                forall|g: int| 0 <= g < 2 ==> #[trigger] s.caught_ua4_ct[g] <= s.caught_all_ct[g],
                forall|g: int| 0 <= g < 2 ==> #[trigger] s.caught_all_ct[g] <= s.reverts[g],
                forall|g: int| 0 <= g < 2 ==> #[trigger] s.reverts[g] <= steps,
                forall|c: int| 0 <= c < 82 ==> #[trigger] s.locked_sum[c] <= 81 * steps,
                forall|c: int| 0 <= c < 82 ==> #[trigger] s.locked_n[c] <= steps,
                s.attempts == a + 1,
                s.boards == a + 1,
                s.lib_ua4 <= s.lib_uas,
                s.lib_uas <= 2916 * (a + 1),
            decreases 81 - q,
        {
            proof {
                lemma_count_true_bound(locked@, 81);
                assert(81 * a + 81 <= 81 * attempts) by (nonlinear_arith)
                    requires
                        a < attempts,
                ;
            }
            let cell = positions[q];
            q += 1;
            if cell >= 81 {
                continue;
            }
            proof {
                st.core.lemma_cells_ok();
            }
            let orig = st.core.cells[cell];
            if orig == 0 {
                continue;
            }
            proof {
                steps = steps + 1;
            }
            let ghost s0 = s;
            s.locked_sum[givens] += n_locked;
            s.locked_n[givens] += 1;
            proof {
                assert forall|c: int| 0 <= c < 82 implies #[trigger] s.locked_sum[c] <= 81 * steps by {
                    assert(s0.locked_sum[c] <= 81 * steps - 81);
                }
                assert forall|c: int| 0 <= c < 82 implies #[trigger] s.locked_n[c] <= steps by {
                    assert(s0.locked_n[c] <= steps - 1);
                }
            }
            let mut caught_ua4 = false;
            let mut caught_all = false;
            let list = &lib.cell_uas[cell];
            let mut t: usize = 0;
            while t < list.len()
                invariant
                    0 <= t <= list@.len(),
                    cell < 81,
                    list == lib.cell_uas@[cell as int],
                    lib_shape(lib.uas@, lib.cell_uas@),
                    gc@.len() == lib.uas@.len(),
                    caught_ua4 ==> caught_all,
                decreases list@.len() - t,
            {
                let u = list[t];
                if gc[u] == 1 {
                    caught_all = true;
                    if lib.uas[u].1 == 4 {
                        caught_ua4 = true;
                    }
                }
                t += 1;
            }
            let ghost pre = st.core.cells@;
            let alts = st.strip(cell, orig);
            proof {
                assert(st.core.cells@.update(cell as int, orig) =~= pre);
                lemma_count_filled_update(st.core.cells@, cell as int, orig);
            }
            givens -= 1;
            let group: usize = if givens >= 33 { 0 } else { 1 };
            let mut nonuniq = false;
            let mut keep = false;
            if alts == 0 || (fast && st.reforced(cell, orig) != 0) {
                st.keep_trivial(cell, Ghost(orig));
                keep = true;
            } else {
                proof {
                    st.core.lemma_bb_wf();
                }
                let nonunique = st.core.bb.any_alt_solves(cell, alts);
                if nonunique {
                    nonuniq = true;
                    assert(s.reverts[group as int] <= steps - 1);
                    assert(s.caught_all_ct[group as int] <= s.reverts[group as int]);
                    assert(s.caught_ua4_ct[group as int] <= s.caught_all_ct[group as int]);
                    s.reverts[group] += 1;
                    if caught_ua4 {
                        s.caught_ua4_ct[group] += 1;
                    }
                    if caught_all {
                        s.caught_all_ct[group] += 1;
                    }
                    st.revert(cell, orig);
                    proof {
                        lemma_count_filled_bound(st.core.cells@);
                    }
                    givens += 1;
                } else {
                    let trace = st.core.bb.baseline(baseline, forced);
                    if !trace.solved {
                        st.revert(cell, orig);
                        proof {
                            lemma_count_filled_bound(st.core.cells@);
                        }
                        givens += 1;
                    } else {
                        st.apply_baseline(cell, orig, &trace, spec);
                        keep = true;
                    }
                }
            }
            if !nonuniq && caught_all {
                s.false_positive += 1;
            }
            if keep {
                commit_keep(&lib, &mut gc, &mut is_given, &mut locked, &mut n_locked, cell);
            }
        }
        a += 1;
    }
    s
}

/// No flag is set in an all-clear array.
pub proof fn lemma_count_true_zero(s: Seq<bool>, n: int)
    requires
        forall|i: int| 0 <= i < n ==> !#[trigger] s[i],
    ensures
        count_true(s, n) == 0,
    decreases n,
{
    if n > 0 {
        lemma_count_true_zero(s, n - 1);
    }
}

/// The time split of a [`verify_share`] run between the spec verification of
/// each attempt's best grid and the rest, with the uniqueness probes split by
/// verdict. Times are in nanoseconds.
#[derive(Clone, Copy, Debug, PartialEq, Eq, Structural)]
pub struct VerifyShare {
    pub attempts: usize,
    /// Attempts whose strip met the requirement, so the verification ran.
    pub reached_verify: usize,
    /// Of those, the ones the verification rejected.
    pub not_forced: usize,
    pub successes: usize,
    pub total_nanos: u64,
    pub verify_nanos: u64,
    pub keep_probes: usize,
    pub keep_probe_nanos: u64,
    pub revert_probes: usize,
    pub revert_probe_nanos: u64,
}

/// `attempts` strip attempts from `base_seed` (no library skip), timing each whole
/// attempt, each posed uniqueness probe, and the final verification.
pub fn verify_share(base_seed: u64, spec: &Spec, attempts: usize) -> (vs: VerifyShare)
    requires
        attempts <= usize::MAX / 81,
    ensures
        vs.attempts == attempts,
        vs.successes + vs.not_forced == vs.reached_verify,
        vs.reached_verify <= attempts,
        vs.keep_probes + vs.revert_probes <= 81 * attempts,
{
    let baseline = spec.baseline_mask();
    let forced = spec.forced_mask();
    let fast = baseline_fast_applicable(spec);
    let mut rng = Rng::from_seed(base_seed);
    let mut vs = VerifyShare {
        attempts: 0,
        reached_verify: 0,
        not_forced: 0,
        successes: 0,
        total_nanos: 0,
        verify_nanos: 0,
        keep_probes: 0,
        keep_probe_nanos: 0,
        revert_probes: 0,
        revert_probe_nanos: 0,
    };
    let mut a: usize = 0;
    while a < attempts
        invariant
            0 <= a <= attempts,
            attempts <= usize::MAX / 81,
            vs.attempts == a,
            vs.successes + vs.not_forced == vs.reached_verify,
            vs.reached_verify <= a,
            vs.keep_probes + vs.revert_probes <= 81 * a,
        decreases attempts - a,
    {
        vs.attempts += 1;
        let t_att = clock_now();
        let solution = crate::fill::random_solution(&mut rng);
        let positions = shuffled_cells(&mut rng);
        let board = board_from_cells(&solution);
        let mut st = StripState::new(&board);
        let ghost base = vs.keep_probes + vs.revert_probes;
        let mut q: usize = 0;
        while q < 81
            invariant
                0 <= q <= 81,
                positions@.len() == 81,
                st.wf(),
                forall|i: int| 0 <= i < 81 ==> #[trigger] solution[i] <= 9,
                conflict_free(solution@),
                sub_grid(st.core.cells@, solution@),
                st.core.best matches Some(b) ==> sub_grid(b@, solution@),
                a < attempts,
                attempts <= usize::MAX / 81,
                base <= 81 * a,
                vs.keep_probes + vs.revert_probes <= base + q,
                vs.attempts == a + 1,
                vs.successes + vs.not_forced == vs.reached_verify,
                vs.reached_verify <= a,
            decreases 81 - q,
        {
            proof {
                assert(81 * a + 81 <= 81 * attempts) by (nonlinear_arith)
                    requires
                        a < attempts,
                ;
            }
            let cell = positions[q];
            q += 1;
            if cell >= 81 {
                continue;
            }
            proof {
                st.core.lemma_cells_ok();
            }
            let orig = st.core.cells[cell];
            if orig == 0 {
                continue;
            }
            let ghost prev = st.core.cells;
            assert(orig == solution[cell as int]);
            let alts = st.strip(cell, orig);
            if alts == 0 || (fast && st.reforced(cell, orig) != 0) {
                st.keep_trivial(cell, Ghost(orig));
                continue;
            }
            proof {
                st.core.lemma_bb_wf();
            }
            let tp = clock_now();
            let nonunique = st.core.bb.any_alt_solves(cell, alts);
            let pe = nanos_since(&tp);
            if nonunique {
                vs.revert_probes += 1;
                vs.revert_probe_nanos = vs.revert_probe_nanos.saturating_add(pe);
            } else {
                vs.keep_probes += 1;
                vs.keep_probe_nanos = vs.keep_probe_nanos.saturating_add(pe);
            }
            st.resolve_gate(cell, orig, nonunique, spec, baseline, forced);
            proof {
                if st.core.cells@ != prev@.update(cell as int, 0) {
                    assert(st.core.cells@ =~= prev@);
                }
            }
        }
        match st.core.best {
            Some(snap) => {
                vs.reached_verify += 1;
                proof {
                    assert forall|i: int| 0 <= i < 81 implies #[trigger] snap[i] <= 9 by {
                        assert(snap@[i] == 0 || snap@[i] == solution@[i]);
                    }
                }
                let tv = clock_now();
                let ok = verify(&snap, spec);
                vs.verify_nanos = vs.verify_nanos.saturating_add(nanos_since(&tv));
                if ok {
                    vs.successes += 1;
                } else {
                    vs.not_forced += 1;
                }
            },
            None => {},
        }
        vs.total_nanos = vs.total_nanos.saturating_add(nanos_since(&t_att));
        a += 1;
    }
    vs
}

/// The time to build `tier`'s library over the solution grids of `attempts`
/// attempts from `base_seed` (the grids are filled before the timer starts), with
/// the total number of sets built.
pub fn ua_build_cost(base_seed: u64, attempts: usize, tier: UaTier) -> (r: (u64, u64))
    requires
        attempts <= usize::MAX / 192,
    ensures
        r.1 <= 192 * attempts,
        tier == UaTier::Off ==> r.1 == 0,
{
    let mut rng = Rng::from_seed(base_seed);
    let mut sols: Vec<[u8; 81]> = Vec::new();
    let mut a: usize = 0;
    while a < attempts
        invariant
            0 <= a <= attempts,
            sols@.len() == a,
            forall|k: int, i: int| 0 <= k < a && 0 <= i < 81 ==> #[trigger] sols@[k][i] <= 9,
        decreases attempts - a,
    {
        let g = crate::fill::random_solution(&mut rng);
        sols.push(g);
        a += 1;
    }
    let mut uas: u64 = 0;
    let t = clock_now();
    let mut k: usize = 0;
    while k < sols.len()
        invariant
            0 <= k <= sols@.len(),
            sols@.len() == attempts,
            forall|j: int, i: int| 0 <= j < sols@.len() && 0 <= i < 81 ==> #[trigger] sols@[j][i] <= 9,
            uas <= 192 * k,
            attempts <= usize::MAX / 192,
            tier == UaTier::Off ==> uas == 0,
        decreases sols@.len() - k,
    {
        let g = sols[k];
        let f = UaFilter::of_grid(&g, tier);
        uas += f.len() as u64;
        k += 1;
    }
    (nanos_since(&t), uas)
}

/// The uniqueness probes `attempts` strip attempts from `base_seed` pose (no
/// library skip), each with the prober's verdict (`true`: another completion
/// exists), in order; the gates are resolved as [`attempt`] resolves them.
pub fn collect_probes(base_seed: u64, spec: &Spec, attempts: usize) -> (out: Vec<(Probe, bool)>)
    requires
        attempts <= usize::MAX / 81,
    ensures
        out@.len() <= 81 * attempts,
        forall|i: int| 0 <= i < out@.len() ==> (#[trigger] out@[i]).0.cell < 81 && out@[i].0.alts != 0 && out@[i].0.alts < 512,
        forall|i: int| 0 <= i < out@.len() ==> probe_ok((#[trigger] out@[i]).0, out@[i].1),
        attempts == 0 ==> out@.len() == 0,
{
    let baseline = spec.baseline_mask();
    let forced = spec.forced_mask();
    let fast = baseline_fast_applicable(spec);
    let mut rng = Rng::from_seed(base_seed);
    let mut out: Vec<(Probe, bool)> = Vec::new();
    let mut a: usize = 0;
    while a < attempts
        invariant
            0 <= a <= attempts,
            attempts <= usize::MAX / 81,
            out@.len() <= 81 * a,
            forall|i: int| 0 <= i < out@.len() ==> (#[trigger] out@[i]).0.cell < 81 && out@[i].0.alts != 0 && out@[i].0.alts
                < 512,
            forall|i: int| 0 <= i < out@.len() ==> probe_ok((#[trigger] out@[i]).0, out@[i].1),
            a == 0 ==> out@.len() == 0,
        decreases attempts - a,
    {
        let solution = crate::fill::random_solution(&mut rng);
        let positions = shuffled_cells(&mut rng);
        let board = board_from_cells(&solution);
        let mut st = StripState::new(&board);
        let ghost base = out@.len();
        let mut q: usize = 0;
        while q < 81
            invariant
                0 <= q <= 81,
                positions@.len() == 81,
                st.wf(),
                a < attempts,
                attempts <= usize::MAX / 81,
                base <= 81 * a,
                out@.len() <= base + q,
                forall|i: int| 0 <= i < out@.len() ==> (#[trigger] out@[i]).0.cell < 81 && out@[i].0.alts != 0
                    && out@[i].0.alts < 512,
                forall|i: int| 0 <= i < out@.len() ==> probe_ok((#[trigger] out@[i]).0, out@[i].1),
                forall|i: int| 0 <= i < 81 ==> #[trigger] solution[i] <= 9,
                conflict_free(solution@),
                sub_grid(st.core.cells@, solution@),
            decreases 81 - q,
        {
            proof {
                assert(81 * a + 81 <= 81 * attempts) by (nonlinear_arith)
                    requires
                        a < attempts,
                ;
            }
            let cell = positions[q];
            q += 1;
            if cell >= 81 {
                continue;
            }
            proof {
                st.core.lemma_cells_ok();
            }
            let orig = st.core.cells[cell];
            if orig == 0 {
                continue;
            }
            let ghost prev = st.core.cells@;
            assert(orig == solution[cell as int]);
            let alts = st.strip(cell, orig);
            if alts == 0 || (fast && st.reforced(cell, orig) != 0) {
                st.keep_trivial(cell, Ghost(orig));
                continue;
            }
            proof {
                st.core.lemma_bb_wf();
            }
            let (r, unsolved) = st.core.bb.export_r();
            let nonunique = st.core.bb.any_alt_solves(cell, alts);
            let ghost o0 = out@;
            let pr = Probe { r, unsolved, cell, alts };
            proof {
                let bb = st.core.bb;
                let cells = st.core.cells@;
                st.core.lemma_naked();
                st.core.lemma_cells_ok();
                lemma_sub_grid_conflict_free(cells, solution@);
                crate::bb::lemma_naked_records(bb, cells);
                assert(bb.open(cell as int));
                assert(crate::bb::probe_of(pr, bb));
                if nonunique {
                    let g = choose|g: Seq<u8>| #[trigger] crate::bb::agrees(g, bb) && crate::bb::extends_rec(g, cells) && (bb.open(cell as int)
                        ==> mask_has(alts, g[cell as int]));
                    assert(completes(g, cells));
                } else {
                    assert forall|g: Seq<u8>| completes(g, cells) implies !mask_has(alts, g[cell as int]) by {
                        crate::bb::lemma_naked_agrees(bb, cells, g);
                    }
                }
                crate::bb::lemma_open_bit(bb, cell as int);
                assert(probe_ok(pr, nonunique));
            }
            out.push((pr, nonunique));
            proof {
                assert forall|i: int| 0 <= i < out@.len() implies probe_ok((#[trigger] out@[i]).0, out@[i].1) by {
                    if i < o0.len() {
                        assert(out@[i] == o0[i]);
                    }
                }
            }
            st.resolve_gate(cell, orig, nonunique, spec, baseline, forced);
        }
        a += 1;
    }
    out
}

/// `p` was posed at a gate of a strip walk and `nonunique` is the prober's
/// verdict on it: `p` exports the stripped board (the bitboard of a
/// conflict-free clue grid with `p.cell` emptied, the cell undecided), and the
/// verdict is whether some completion of that grid puts a digit of `p.alts` in
/// the cell.
pub open spec fn probe_ok(p: Probe, nonunique: bool) -> bool {
    &&& p.cell < 81
    &&& bit32(p.unsolved[(p.cell / 27) as int], (p.cell % 27) as u32)
    &&& exists|bb: BitBoard, cells: Seq<u8>|
        #[trigger] crate::bb::naked_bb(bb, cells) && crate::bb::probe_of(p, bb) && cells.len() == 81 && conflict_free(cells)
            && cells[p.cell as int] == 0 && (nonunique <==> exists|g: Seq<u8>| completes(g, cells) && mask_has(p.alts, g[p.cell as int]))
}

/// A completion of `cells` whose cell `cell` holds one of the digits of `alts`,
/// the digits tried in increasing order.
fn alternate_completion(cells: &[u8; 81], cell: usize, alts: u16) -> (r: Option<[u8; 81]>)
    requires
        forall|i: int| 0 <= i < 81 ==> #[trigger] cells[i] <= 9,
        conflict_free(cells@),
        cell < 81,
        cells[cell as int] == 0,
        forall|e: u8| 1 <= e <= 9 && #[trigger] mask_has(alts, e) ==> !blocked(cells@, cell as int, e),
    ensures
        r matches Some(g) ==> conflict_free(g@) && (forall|j: int| 0 <= j < 81 ==> #[trigger] g[j] != 0 && g[j] <= 9)
            && mask_has(alts, g[cell as int]) && forall|j: int| 0 <= j < 81 && #[trigger] cells[j] != 0 ==> g[j] == cells[j],
        r matches Some(g) ==> forall|s: Seq<u8>| #[trigger] crate::grid::completes(s, cells@) && mask_has(alts, s[cell as int])
            ==> g[cell as int] <= s[cell as int],
        r is None ==> forall|s: Seq<u8>| #[trigger] crate::grid::completes(s, cells@) ==> !mask_has(alts, s[cell as int]),
{
    let mut e: u8 = 1;
    while e <= 9
        invariant
            1 <= e <= 10,
            forall|i: int| 0 <= i < 81 ==> #[trigger] cells[i] <= 9,
            conflict_free(cells@),
            cell < 81,
            cells[cell as int] == 0,
            forall|x: u8| 1 <= x <= 9 && #[trigger] mask_has(alts, x) ==> !blocked(cells@, cell as int, x),
            forall|s: Seq<u8>| #[trigger] crate::grid::completes(s, cells@) && mask_has(alts, s[cell as int]) ==> e <= s[cell as int],
        decreases 10 - e,
    {
        proof {
            crate::grid::lemma_mask_test(alts, e);
        }
        if alts & (1u16 << ((e - 1) as u16)) != 0 {
            let mut board = board_from_cells(cells);
            proof {
                assert(crate::grid::naked_at(board.cells_view(), board.cands_view(), cell as int));
                crate::fill::lemma_place_conflict_free(board.cells_view(), board.cands_view(), cell as int, e);
            }
            board.place(cell, e);
            match crate::probe::singles::first_completion(board) {
                Some(g) => {
                    let out = *g.cells();
                    proof {
                        assert forall|j: int| 0 <= j < 81 implies #[trigger] out[j] != 0 && out[j] <= 9 by {
                            assert(g.cells_view()[j] != 0);
                        }
                        assert(board.cells_view()[cell as int] == e);
                        assert(out[cell as int] == e);
                        assert forall|j: int| 0 <= j < 81 && #[trigger] cells[j] != 0 implies out[j] == cells[j] by {
                            assert(board.cells_view()[j] == cells@.update(cell as int, e)[j]);
                        }
                    }
                    return Some(out);
                },
                None => {
                    proof {
                        assert forall|s: Seq<u8>| #[trigger] crate::grid::completes(s, cells@) && mask_has(alts, s[cell as int])
                            implies e + 1 <= s[cell as int] by {
                            if s[cell as int] == e {
                                assert(board.cells_view() == cells@.update(cell as int, e));
                                assert(crate::grid::completes(s, board.cells_view()));
                            }
                        }
                    }
                },
            }
        }
        e += 1;
    }
    None
}

/// Tallies of a [`defer_stat`] walk, indexed by the number of clues left at each
/// gate: the uniqueness probes asked (those that kept the strip, those that
/// reverted it), the gates skipped, the kept strips the baseline then rejected,
/// how long the runs of consecutive keeps were, and, for every reverted probe,
/// how many cells an alternate completion changes, split into two clue groups
/// (0: at least 33 clues, 1: fewer).
#[derive(Clone, Copy, Debug)]
pub struct DeferStat {
    pub attempts: usize,
    pub posed: [u64; 82],
    pub fastpath: [u64; 82],
    pub keeps: [u64; 82],
    pub reverts: [u64; 82],
    pub baseline_revert: [u64; 82],
    pub run_hist: [u64; 82],
    pub witness_size: [[u64; 82]; 2],
}

/// `attempts` strip attempts from `base_seed` on the fused baseline, each gate
/// resolved as [`attempt`] resolves it (no library skip), tallied as
/// [`DeferStat`] describes. A skipped gate or a unique probe continues a run of
/// keeps; a non-unique probe ends it.
#[verifier::rlimit(60)]
pub fn defer_stat(base_seed: u64, spec: &Spec, attempts: usize) -> (s: DeferStat)
    requires
        fast_baseline(*spec),
        attempts <= usize::MAX / 81,
        attempts <= 0xffff_ffff_ffff,
    ensures
        s.attempts == attempts,
        forall|c: int| 0 <= c < 82 ==> #[trigger] s.keeps[c] + s.reverts[c] == s.posed[c],
        forall|c: int| 0 <= c < 82 ==> #[trigger] s.baseline_revert[c] <= s.keeps[c],
{
    let baseline = spec.baseline_mask();
    let forced = spec.forced_mask();
    let fast = baseline_fast_applicable(spec);
    let mut rng = Rng::from_seed(base_seed);
    let mut s = DeferStat {
        attempts: 0,
        posed: [0; 82],
        fastpath: [0; 82],
        keeps: [0; 82],
        reverts: [0; 82],
        baseline_revert: [0; 82],
        run_hist: [0; 82],
        witness_size: [[0; 82]; 2],
    };
    let ghost mut steps: int = 0;
    let mut a: usize = 0;
    while a < attempts
        invariant
            0 <= a <= attempts,
            attempts <= 0xffff_ffff_ffff,
            s.attempts == a,
            0 <= steps <= 81 * a,
            forall|c: int| 0 <= c < 82 ==> #[trigger] s.keeps[c] + s.reverts[c] == s.posed[c],
            forall|c: int| 0 <= c < 82 ==> #[trigger] s.baseline_revert[c] <= s.keeps[c],
            forall|c: int| 0 <= c < 82 ==> #[trigger] s.posed[c] <= steps,
            forall|c: int| 0 <= c < 82 ==> #[trigger] s.fastpath[c] <= steps,
            forall|c: int| 0 <= c < 82 ==> #[trigger] s.run_hist[c] <= steps + a,
            forall|g: int, c: int| 0 <= g < 2 && 0 <= c < 82 ==> #[trigger] s.witness_size[g][c] <= steps,
        decreases attempts - a,
    {
        s.attempts += 1;
        let solution = crate::fill::random_solution(&mut rng);
        let positions = shuffled_cells(&mut rng);
        let board = board_from_cells(&solution);
        let mut st = StripState::new(&board);
        let mut givens: usize = givens_of(&solution);
        let mut run: usize = 0;
        let ghost start = steps;
        let mut q: usize = 0;
        while q < 81
            invariant
                0 <= q <= 81,
                positions@.len() == 81,
                st.wf(),
                forall|i: int| 0 <= i < 81 ==> #[trigger] solution[i] <= 9,
                conflict_free(solution@),
                sub_grid(st.core.cells@, solution@),
                givens <= 81,
                givens == count_filled(st.core.cells@),
                run <= 81,
                a < attempts,
                attempts <= 0xffff_ffff_ffff,
                0 <= start <= 81 * a,
                start <= steps <= start + q,
                s.attempts == a + 1,
                forall|c: int| 0 <= c < 82 ==> #[trigger] s.keeps[c] + s.reverts[c] == s.posed[c],
                forall|c: int| 0 <= c < 82 ==> #[trigger] s.baseline_revert[c] <= s.keeps[c],
                forall|c: int| 0 <= c < 82 ==> #[trigger] s.posed[c] <= steps,
                forall|c: int| 0 <= c < 82 ==> #[trigger] s.fastpath[c] <= steps,
                forall|c: int| 0 <= c < 82 ==> #[trigger] s.run_hist[c] <= steps + a,
                forall|g: int, c: int| 0 <= g < 2 && 0 <= c < 82 ==> #[trigger] s.witness_size[g][c] <= steps,
            decreases 81 - q,
        {
            proof {
                assert(81 * a + 81 <= 81 * attempts) by (nonlinear_arith)
                    requires
                        a < attempts,
                ;
            }
            let cell = positions[q];
            q += 1;
            if cell >= 81 {
                continue;
            }
            proof {
                st.core.lemma_cells_ok();
            }
            let orig = st.core.cells[cell];
            if orig == 0 {
                continue;
            }
            proof {
                steps = steps + 1;
            }
            let ghost prev = st.core.cells;
            assert(orig == solution[cell as int]);
            let alts = st.strip(cell, orig);
            proof {
                assert(st.core.cells@.update(cell as int, orig) =~= prev@);
                lemma_count_filled_update(st.core.cells@, cell as int, orig);
            }
            givens -= 1;
            let clue = givens;
            if alts == 0 || (fast && st.reforced(cell, orig) != 0) {
                st.keep_trivial(cell, Ghost(orig));
                s.fastpath[clue] += 1;
                if run < 81 {
                    run += 1;
                }
                continue;
            }
            assert(s.posed[clue as int] <= steps - 1);
            s.posed[clue] += 1;
            proof {
                st.core.lemma_bb_wf();
            }
            let nonunique = st.core.bb.any_alt_solves(cell, alts);
            if nonunique {
                assert(s.keeps[clue as int] + s.reverts[clue as int] + 1 == s.posed[clue as int]);
                s.reverts[clue] += 1;
                proof {
                    lemma_sub_grid_conflict_free(st.core.cells@, solution@);
                    assert forall|i: int| 0 <= i < 81 implies #[trigger] st.core.cells[i] <= 9 by {
                        assert(st.core.cells@[i] == 0 || st.core.cells@[i] == solution@[i]);
                    }
                }
                match alternate_completion(&st.core.cells, cell, alts) {
                    Some(alt) => {
                        let mut diff: usize = 0;
                        let mut j: usize = 0;
                        while j < 81
                            invariant
                                0 <= j <= 81,
                                diff <= j,
                            decreases 81 - j,
                        {
                            if st.core.cells[j] == 0 && alt[j] != solution[j] {
                                diff += 1;
                            }
                            j += 1;
                        }
                        let group: usize = if clue >= 33 {
                            0
                        } else {
                            1
                        };
                        assert(s.witness_size[group as int][diff as int] <= steps - 1);
                        s.witness_size[group][diff] += 1;
                    },
                    None => {},
                }
                st.revert(cell, orig);
                proof {
                    assert(st.core.cells@ =~= prev@);
                    lemma_count_filled_bound(st.core.cells@);
                }
                givens += 1;
                if run > 0 {
                    assert(s.run_hist[run as int] <= steps + a);
                    s.run_hist[run] += 1;
                    run = 0;
                }
                continue;
            }
            assert(s.keeps[clue as int] + s.reverts[clue as int] + 1 == s.posed[clue as int]);
            s.keeps[clue] += 1;
            if run < 81 {
                run += 1;
            }
            let trace = st.core.bb.baseline(baseline, forced);
            if !trace.solved {
                st.revert(cell, orig);
                proof {
                    assert(st.core.cells@ =~= prev@);
                    lemma_count_filled_bound(st.core.cells@);
                }
                givens += 1;
                s.baseline_revert[clue] += 1;
            } else {
                st.apply_baseline(cell, orig, &trace, spec);
            }
        }
        if run > 0 {
            assert(s.run_hist[run as int] <= steps + a);
            s.run_hist[run] += 1;
        }
        a += 1;
    }
    s
}

/// A fingerprint of the random grids and strip orders of `n` attempts, folded
/// cell by cell (grid digit, then strip position): it changes whenever the filler
/// or the random stream does.
pub fn determinism_fp(rng: &mut Rng, n: usize) -> (fp: u64)
    ensures
        exists|gs: Seq<Seq<u8>>, os: Seq<Seq<usize>>| #[trigger] draws_fit(gs, os, n as int) && fp == determinism_fold(gs, os),
{
    let mut fp: u64 = FNV_OFFSET;
    let ghost mut gs: Seq<Seq<u8>> = Seq::empty();
    let ghost mut os: Seq<Seq<usize>> = Seq::empty();
    let mut a: usize = 0;
    while a < n
        invariant
            0 <= a <= n,
            draws_fit(gs, os, a as int),
            fp == determinism_fold(gs, os),
        decreases n - a,
    {
        let cells = crate::fill::random_solution(rng);
        let mut positions: Vec<usize> = Vec::new();
        let mut k: usize = 0;
        while k < 81
            invariant
                0 <= k <= 81,
                positions@ == Seq::new(k as nat, |q: int| q as usize),
            decreases 81 - k,
        {
            positions.push(k);
            proof {
                assert(positions@ =~= Seq::new((k + 1) as nat, |q: int| q as usize));
            }
            k += 1;
        }
        let ghost p0 = positions@;
        proof {
            assert(p0 =~= cell_order());
        }
        rng.shuffle(&mut positions);
        proof {
            assert(positions@.to_multiset() == cell_order().to_multiset());
        }
        let ghost base = fp;
        let mut i: usize = 0;
        while i < 81
            invariant
                0 <= i <= 81,
                positions@.len() == 81,
                fp == fold_pairs(base, cells@, positions@, i as int),
            decreases 81 - i,
        {
            fp = (fp ^ (cells[i] as u64)).wrapping_mul(FNV_PRIME);
            fp = (fp ^ (positions[i] as u64)).wrapping_mul(FNV_PRIME);
            i += 1;
        }
        proof {
            let g0 = gs;
            let o0 = os;
            gs = gs.push(cells@);
            os = os.push(positions@);
            assert(gs.drop_last() == g0);
            assert(os.drop_last() == o0);
            assert forall|q: int| 0 <= q < gs.len() implies #[trigger] gs[q].len() == 81 && conflict_free(gs[q]) && os[q].len() == 81
                && os[q].to_multiset() == cell_order().to_multiset() by {
                if q < g0.len() {
                    assert(gs[q] == g0[q] && os[q] == o0[q]);
                } else {
                    assert(gs[q] == cells@ && os[q] == positions@);
                }
            }
            assert(gs.len() == a + 1 && os.len() == a + 1);
            assert(draws_fit(gs, os, a + 1));
        }
        a += 1;
    }
    fp
}

/// The cells in order, `0..81`.
pub open spec fn cell_order() -> Seq<usize> {
    Seq::new(81, |q: int| q as usize)
}

/// FNV-1a folding of the first `i` cells of `cells`, each followed by its strip
/// position in `pos`.
pub open spec fn fold_pairs(fp: u64, cells: Seq<u8>, pos: Seq<usize>, i: int) -> u64
    decreases i,
{
    if i <= 0 {
        fp
    } else {
        let f = fold_pairs(fp, cells, pos, i - 1);
        ((f ^ (cells[i - 1] as u64)).wrapping_mul(FNV_PRIME) ^ (pos[i - 1] as u64)).wrapping_mul(FNV_PRIME)
    }
}

/// The determinism fingerprint of the grids `gs` and strip orders `os`.
pub open spec fn determinism_fold(gs: Seq<Seq<u8>>, os: Seq<Seq<usize>>) -> u64
    decreases gs.len(),
{
    if gs.len() == 0 || os.len() != gs.len() {
        FNV_OFFSET
    } else {
        fold_pairs(determinism_fold(gs.drop_last(), os.drop_last()), gs.last(), os.last(), 81)
    }
}

/// `gs` and `os` are `n` drawn conflict-free grids and strip orders, each order
/// a permutation of the cells.
pub open spec fn draws_fit(gs: Seq<Seq<u8>>, os: Seq<Seq<usize>>, n: int) -> bool {
    &&& gs.len() == n
    &&& os.len() == n
    &&& forall|q: int| 0 <= q < n ==> #[trigger] gs[q].len() == 81 && conflict_free(gs[q]) && os[q].len() == 81
        && os[q].to_multiset() == cell_order().to_multiset()
}

} // verus!
