//! The strip state: the clue grid being stripped, with its bitboard and clue map
//! kept in step clue by clue, and the per-cell gate logic that drives it.

use vstd::prelude::*;
use crate::bb::{BitBoard, Placed, naked_bb, lemma_place_keeps_naked_bb, lemma_clear_keeps_naked_bb, clue_blocked};
use crate::grid::{Board, CELLS, blocked, conflict_free, no_conflict_at, mask_has, digit_to_bit, is_peer};
use crate::spec::Spec;

verus! {

/// A generated puzzle and the full solution it was stripped from.
pub struct GeneratedPuzzle {
    pub puzzle: Board,
    pub solution: Board,
    pub givens: usize,
}

/// The first `k` cells of `cells`, the rest empty.
pub open spec fn prefix(cells: Seq<u8>, k: int) -> Seq<u8> {
    Seq::new(81, |j: int| if j < k { cells[j] } else { 0u8 })
}

/// The board of a bare puzzle grid (`0` = empty): its digits placed, with naked
/// candidates.
pub fn board_from_cells(cells: &[u8; 81]) -> (b: Board)
    requires
        forall|i: int| 0 <= i < 81 ==> #[trigger] cells[i] <= 9,
        conflict_free(cells@),
    ensures
        b.wf(),
        b.is_naked(),
        b.cells_view() == cells@,
{
    let mut b = Board::empty();
    proof {
        assert(b.cells_view() =~= prefix(cells@, 0));
    }
    let mut i: usize = 0;
    while i < CELLS
        invariant
            0 <= i <= 81,
            b.wf(),
            b.is_naked(),
            b.cells_view() == prefix(cells@, i as int),
            forall|q: int| 0 <= q < 81 ==> #[trigger] cells[q] <= 9,
            conflict_free(cells@),
        decreases 81 - i,
    {
        let d = cells[i];
        if d != 0 {
            proof {
                let pre = prefix(cells@, i as int);
                assert(crate::grid::naked_at(b.cells_view(), b.cands_view(), i as int));
                assert(no_conflict_at(cells@, i as int));
                if blocked(pre, i as int, d) {
                    let j = choose|j: int| 0 <= j < 81 && #[trigger] is_peer(i as int, j) && pre[j] == d;
                    assert(cells@[j] == d);
                    assert(blocked(cells@, i as int, d));
                }
            }
            b.place(i, d);
        }
        proof {
            assert(b.cells_view() =~= prefix(cells@, i + 1));
        }
        i += 1;
    }
    proof {
        assert(b.cells_view() =~= cells@);
    }
    b
}

/// The mutable state of one strip attempt: the bitboard and the clue map are
/// those of the bare clue grid `cells` (see [`StripState::wf`]); `best` is the
/// most-stripped grid that met the spec's requirement, `req_met` the
/// requirement verdict of the current grid.
pub struct StripState {
    pub bb: BitBoard,
    pub placed: Placed,
    pub cells: [u8; 81],
    pub best: Option<[u8; 81]>,
    pub req_met: bool,
}

impl StripState {
    /// The bitboard and the clue map describe the clue grid, a conflict-free
    /// grid of digits.
    pub closed spec fn wf(&self) -> bool {
        &&& naked_bb(self.bb, self.cells@)
        &&& self.placed.of_cells(self.cells@)
        &&& forall|i: int| 0 <= i < 81 ==> #[trigger] self.cells[i] <= 9
    }

    /// Well-formedness reads the grid, the bitboard and the clue map only.
    pub proof fn lemma_wf_same(a: StripState, b: StripState)
        requires
            a.wf(),
            a.bb == b.bb,
            a.placed == b.placed,
            a.cells == b.cells,
        ensures
            b.wf(),
    {
    }

    /// A well-formed state's bitboard carries the naked candidates of its grid.
    pub proof fn lemma_naked(&self)
        requires
            self.wf(),
        ensures
            naked_bb(self.bb, self.cells@),
    {
    }

    /// A well-formed state's grid holds digits.
    pub proof fn lemma_cells_ok(&self)
        requires
            self.wf(),
        ensures
            forall|i: int| 0 <= i < 81 ==> #[trigger] self.cells[i] <= 9,
    {
    }

    /// A well-formed state's bitboard is well formed.
    pub proof fn lemma_bb_wf(&self)
        requires
            self.wf(),
        ensures
            self.bb.wf(),
    {
    }

    /// Fresh state stripping the full grid `solution` (nothing removed yet).
    pub fn new(solution: &Board) -> (s: Self)
        requires
            solution.wf(),
            solution.is_naked(),
        ensures
            s.wf(),
            s.cells@ == solution.cells_view(),
            s.best is None,
            !s.req_met,
    {
        let bb = BitBoard::from_board(solution);
        let placed = Placed::from_board(solution);
        let cells = *solution.cells();
        StripState { bb, placed, cells, best: None, req_met: false }
    }

    /// Strip cell `i` (holding `orig`): empty it in the grid, the bitboard and the
    /// clue map. Returns the digits other than `orig` the cell could now take;
    /// `0` means it is still a naked single.
    pub fn strip(&mut self, i: usize, orig: u8) -> (alts: u16)
        requires
            old(self).wf(),
            i < 81,
            1 <= orig <= 9,
            old(self).cells[i as int] == orig,
        ensures
            final(self).wf(),
            final(self).cells@ == old(self).cells@.update(i as int, 0),
            final(self).best == old(self).best,
            final(self).req_met == old(self).req_met,
            forall|d: u8| 1 <= d <= 9 ==> #[trigger] mask_has(alts, d) == (d != orig && !blocked(final(self).cells@, i as int, d)),
            alts < 512,
    {
        let ghost (o, po, c0) = (self.bb, self.placed, self.cells@);
        proof {
            self.placed.lemma_of_cells_ok(c0);
        }
        self.cells[i] = 0;
        let cand = self.bb.apply_clear(i, orig, &mut self.placed);
        proof {
            lemma_clear_keeps_naked_bb(o, self.bb, po, self.placed, c0, i as int, orig);
            assert(self.cells@ =~= c0.update(i as int, 0));
        }
        let bit = digit_to_bit(orig);
        let alts = cand & !bit;
        proof {
            assert forall|d: u8| 1 <= d <= 9 implies #[trigger] mask_has(alts, d) == (d != orig && !blocked(self.cells@, i as int, d)) by {
                crate::bits::lemma_bit16_and(cand, !bit, (d - 1) as u16);
                crate::bits::lemma_bit16_not(bit, (d - 1) as u16);
                crate::bits::lemma_bit16_one((orig - 1) as u16, (d - 1) as u16);
                assert(mask_has(cand, d) == !clue_blocked(self.placed, d - 1, i as int));
                assert(clue_blocked(self.placed, d - 1, i as int) == blocked(self.cells@, i as int, ((d - 1) + 1) as u8));
            }
            crate::bits::lemma_bit16_andnot_le(cand, bit);
        }
        alts
    }

    /// Keep a strip whose cell stayed a naked single: the verdicts are those of
    /// the grid before, so only `best` follows `req_met`.
    pub fn keep_trivial(&mut self, spec: &Spec)
        ensures
            old(self).wf() ==> final(self).wf(),
            final(self).bb == old(self).bb,
            final(self).placed == old(self).placed,
            final(self).cells == old(self).cells,
            final(self).req_met == old(self).req_met,
            final(self).best == if old(self).req_met {
                Some(old(self).cells)
            } else {
                old(self).best
            },
    {
        if self.req_met {
            self.best = Some(self.cells);
        }
    }

    /// Revert the strip of `cell` (which held `orig`).
    pub fn revert(&mut self, cell: usize, orig: u8)
        requires
            old(self).wf(),
            cell < 81,
            1 <= orig <= 9,
            old(self).cells[cell as int] == 0,
        ensures
            final(self).wf(),
            final(self).cells@ == old(self).cells@.update(cell as int, orig),
            final(self).best == old(self).best,
            final(self).req_met == old(self).req_met,
    {
        let ghost (o, po, c0) = (self.bb, self.placed, self.cells@);
        proof {
            self.placed.lemma_of_cells_ok(c0);
        }
        self.cells[cell] = orig;
        self.bb.apply_place(cell, orig, &mut self.placed);
        proof {
            lemma_place_keeps_naked_bb(o, self.bb, po, self.placed, c0, cell as int, orig);
            assert(self.cells@ =~= c0.update(cell as int, orig));
        }
    }

    /// Resolve the gates for the strip of `cell` (which held `orig`): revert when
    /// the puzzle became non-unique or the baseline toolbox no longer solves it;
    /// otherwise keep the strip, record the requirement verdict, and remember the
    /// grid as `best` when it meets the requirement.
    pub fn resolve_gate(&mut self, cell: usize, orig: u8, nonunique: bool, spec: &Spec, baseline: u32, forced: u32)
        requires
            old(self).wf(),
            cell < 81,
            1 <= orig <= 9,
            old(self).cells[cell as int] == 0,
        ensures
            final(self).wf(),
            nonunique ==> final(self).cells@ == old(self).cells@.update(cell as int, orig) && final(self).best == old(self).best
                && final(self).req_met == old(self).req_met,
            !nonunique ==> (final(self).cells@ == old(self).cells@ || final(self).cells@ == old(self).cells@.update(
                cell as int, orig)),
            final(self).cells@ == old(self).cells@ ==> !nonunique && final(self).best == if final(self).req_met {
                Some(old(self).cells)
            } else {
                old(self).best
            },
            final(self).best == old(self).best || final(self).best == Some(old(self).cells),
    {
        if nonunique {
            self.revert(cell, orig);
            return;
        }
        let outcome = self.bb.baseline(baseline, forced);
        if !outcome.solved {
            self.revert(cell, orig);
            proof {
                assert(self.cells@[cell as int] == orig);
                assert(old(self).cells@[cell as int] == 0);
            }
            return;
        }
        self.req_met = spec.requirement_met(&outcome.counts);
        if self.req_met {
            self.best = Some(self.cells);
        }
    }
}

/// Per-run tallies for throughput and yield reporting.
#[derive(Clone, Copy, Debug, PartialEq, Eq, Structural)]
pub struct Stats {
    pub attempts: usize,
    pub successes: usize,
    pub never_fired: usize,
    pub not_forced: usize,
    pub total_givens: usize,
}

impl Stats {
    /// Fold another tally into this one.
    pub fn add(&mut self, o: &Stats)
        requires
            old(self).attempts + o.attempts <= usize::MAX,
            old(self).successes + o.successes <= usize::MAX,
            old(self).never_fired + o.never_fired <= usize::MAX,
            old(self).not_forced + o.not_forced <= usize::MAX,
            old(self).total_givens + o.total_givens <= usize::MAX,
        ensures
            final(self).attempts == old(self).attempts + o.attempts,
            final(self).successes == old(self).successes + o.successes,
            final(self).never_fired == old(self).never_fired + o.never_fired,
            final(self).not_forced == old(self).not_forced + o.not_forced,
            final(self).total_givens == old(self).total_givens + o.total_givens,
    {
        self.attempts = self.attempts + o.attempts;
        self.successes = self.successes + o.successes;
        self.never_fired = self.never_fired + o.never_fired;
        self.not_forced = self.not_forced + o.not_forced;
        self.total_givens = self.total_givens + o.total_givens;
    }
}

} // verus!
