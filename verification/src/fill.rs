//! The random full-grid filler: a randomized backtracking search that picks the
//! most constrained empty cell and tries its candidates in random order.

use vstd::prelude::*;
use crate::grid::{Board, CELLS, count_filled, conflict_free, no_conflict_at, blocked, mask_has, is_peer, naked_at};
use crate::rng::Rng;

verus! {

/// Filling an empty cell raises the filled count by one.
pub proof fn lemma_count_filled_update(s: Seq<u8>, i: int, d: u8)
    requires
        0 <= i < s.len(),
        s[i] == 0,
        d != 0,
    ensures
        count_filled(s.update(i, d)) == count_filled(s) + 1,
    decreases s.len(),
{
    let t = s.update(i, d);
    if i == s.len() - 1 {
        assert(t.drop_last() =~= s.drop_last());
    } else {
        assert(t.drop_last() =~= s.drop_last().update(i, d));
        lemma_count_filled_update(s.drop_last(), i, d);
    }
}

/// At most every entry is filled; exactly every entry iff none is zero.
pub proof fn lemma_count_filled_bound(s: Seq<u8>)
    ensures
        count_filled(s) <= s.len(),
        count_filled(s) == s.len() <==> forall|i: int| 0 <= i < s.len() ==> #[trigger] s[i] != 0,
    decreases s.len(),
{
    if s.len() > 0 {
        lemma_count_filled_bound(s.drop_last());
        if forall|i: int| 0 <= i < s.len() ==> #[trigger] s[i] != 0 {
            assert forall|i: int| 0 <= i < s.drop_last().len() implies #[trigger] s.drop_last()[i] != 0 by {
                assert(s[i] != 0);
            }
        }
        if count_filled(s) == s.len() {
            assert forall|i: int| 0 <= i < s.len() implies #[trigger] s[i] != 0 by {
                if i < s.len() - 1 {
                    assert(s.drop_last()[i] == s[i]);
                }
            }
        }
    }
}

/// A board the filler works on: naked candidates over a conflict-free grid.
pub open spec fn fill_ok(b: Board) -> bool {
    &&& b.wf()
    &&& b.is_naked()
    &&& conflict_free(b.cells_view())
}

/// Placing a candidate digit keeps a grid conflict-free.
pub proof fn lemma_place_conflict_free(cells: Seq<u8>, cands: Seq<u16>, i: int, d: u8)
    requires
        cells.len() == 81,
        cands.len() == 81,
        0 <= i < 81,
        1 <= d <= 9,
        cells[i] == 0,
        naked_at(cells, cands, i),
        mask_has(cands[i], d),
        conflict_free(cells),
    ensures
        conflict_free(cells.update(i, d)),
{
    let after = cells.update(i, d);
    assert(!blocked(cells, i, d));
    assert forall|q: int| 0 <= q < 81 implies #[trigger] no_conflict_at(after, q) by {
        assert(no_conflict_at(cells, q));
        if after[q] != 0 && blocked(after, q, after[q]) {
            let j = choose|j: int| 0 <= j < 81 && #[trigger] is_peer(q, j) && after[j] == after[q];
            if q == i {
                assert(cells[j] == d);
                assert(blocked(cells, i, d));
            } else if j == i {
                assert(is_peer(i, q) && cells[q] == d);
                assert(blocked(cells, i, d));
            } else {
                assert(blocked(cells, q, cells[q]));
            }
        }
    }
}

/// Cell `j` lies in one of the three boxes on the diagonal.
pub open spec fn in_diag_box(j: int) -> bool {
    (j / 9) / 3 == (j % 9) / 3
}

/// The slot of cell `j` within its box, row-major.
pub open spec fn slot(j: int) -> int {
    ((j / 9) % 3) * 3 + (j % 9) % 3
}

/// Filled by the diagonal seed so far: the first `k` diagonal boxes, and the
/// first `i` slots of the next.
pub open spec fn seeded(j: int, k: int, i: int) -> bool {
    ||| (j / 9) / 3 == (j % 9) / 3 && (j / 9) / 3 < k
    ||| (j / 9) / 3 == k && (j % 9) / 3 == k && slot(j) < i
}

/// How the filler picks the cell to branch on.
#[derive(Clone, Copy, PartialEq, Eq, Structural, Debug)]
pub enum Strategy {
    /// The first empty cell with the fewest candidates.
    Mrv,
    /// The first empty cell with exactly two candidates, else the first empty cell.
    Bivalue,
}

/// The branching cell under `strategy`: `None` when every cell is filled;
/// otherwise an empty cell and its candidate mask, the mask empty exactly when
/// some empty cell has no candidate left.
fn scan(b: &Board, strategy: Strategy) -> (r: Option<(usize, u16)>)
    requires
        fill_ok(*b),
    ensures
        match r {
            None => forall|j: int| 0 <= j < 81 ==> #[trigger] b.cells_view()[j] != 0,
            Some((c, m)) => c < 81 && b.cells_view()[c as int] == 0 && (m == 0 || m == b.cands_view()[c as int]) && (m == 0
                ==> crate::grid::ones16(b.cands_view()[c as int] & 0x1FFu16) == 0),
        },
{
    let mut best: Option<(usize, u16)> = None;
    let mut best_n: u32 = 10;
    let mut first: Option<(usize, u16)> = None;
    let mut i: usize = 0;
    while i < CELLS
        invariant
            0 <= i <= 81,
            fill_ok(*b),
            best is None ==> best_n == 10,
            best matches Some((c, m)) ==> c < 81 && b.cells_view()[c as int] == 0 && m == b.cands_view()[c as int],
            match first {
                None => forall|j: int| 0 <= j < i ==> #[trigger] b.cells_view()[j] != 0,
                Some((c, m)) => c < 81 && b.cells_view()[c as int] == 0 && m == b.cands_view()[c as int],
            },
        decreases 81 - i,
    {
        if b.cell(i) == 0 {
            let m = b.candidates(i);
            let n = crate::grid::popcount(m);
            if first.is_none() {
                first = Some((i, m));
            }
            if n == 0 {
                return Some((i, 0));
            }
            match strategy {
                Strategy::Mrv => {
                    if n < best_n {
                        best_n = n;
                        best = Some((i, m));
                    }
                },
                Strategy::Bivalue => {
                    if n == 2 && best.is_none() {
                        best_n = 2;
                        best = Some((i, m));
                    }
                },
            }
        }
        i += 1;
    }
    proof {
        assert(0u16 & 0x1FFu16 == 0u16) by (bit_vector);
    }
    match best {
        Some(p) => Some(p),
        None => first,
    }
}

/// The filler's working board.
struct Fill {
    board: Board,
    strategy: Strategy,
}

impl Fill {
    /// An empty grid.
    fn new(strategy: Strategy) -> (f: Fill)
        ensures
            fill_ok(f.board),
            forall|j: int| 0 <= j < 81 ==> #[trigger] f.board.cells_view()[j] == 0,
            f.strategy == strategy,
    {
        let board = Board::empty();
        proof {
            assert forall|q: int| 0 <= q < 81 implies #[trigger] no_conflict_at(board.cells_view(), q) by {}
        }
        Fill { board, strategy }
    }

    /// Place digit `d` at empty cell `c` when it is still a candidate there.
    fn try_place(&mut self, c: usize, d: u8) -> (ok: bool)
        requires
            fill_ok(old(self).board),
            c < 81,
            1 <= d <= 9,
        ensures
            fill_ok(final(self).board),
            ok ==> old(self).board.cells_view()[c as int] == 0 && final(self).board.cells_view() == old(self).board.cells_view().update(
                c as int, d),
            !ok ==> final(self).board == old(self).board,
            ok == (old(self).board.cells_view()[c as int] == 0 && mask_has(old(self).board.cands_view()[c as int], d)),
    {
        if self.board.cell(c) != 0 {
            return false;
        }
        let m = self.board.candidates(c);
        proof {
            crate::grid::lemma_mask_test(m, d);
        }
        if m & (1u16 << ((d - 1) as u16)) == 0 {
            return false;
        }
        proof {
            assert(naked_at(self.board.cells_view(), self.board.cands_view(), c as int));
            lemma_place_conflict_free(self.board.cells_view(), self.board.cands_view(), c as int, d);
        }
        self.board.place(c, d);
        true
    }

    /// Fill the three diagonal boxes (mutually unrelated) with random
    /// permutations of the digits.
    fn seed_diagonal(&mut self, rng: &mut Rng)
        requires
            fill_ok(old(self).board),
        ensures
            fill_ok(final(self).board),
            forall|j: int| 0 <= j < 81 && #[trigger] old(self).board.cells_view()[j] != 0 ==> final(self).board.cells_view()[j]
                == old(self).board.cells_view()[j],
            (forall|j: int| 0 <= j < 81 ==> #[trigger] old(self).board.cells_view()[j] == 0) ==> forall|j: int| 0 <= j < 81
                ==> (#[trigger] final(self).board.cells_view()[j] != 0 <==> in_diag_box(j)),
    {
        let ghost e = forall|j: int| 0 <= j < 81 ==> #[trigger] old(self).board.cells_view()[j] == 0;
        let mut k: usize = 0;
        while k < 3
            invariant
                0 <= k <= 3,
                fill_ok(self.board),
                forall|j: int| 0 <= j < 81 && #[trigger] old(self).board.cells_view()[j] != 0 ==> self.board.cells_view()[j]
                    == old(self).board.cells_view()[j],
                e ==> forall|j: int| 0 <= j < 81 ==> (#[trigger] self.board.cells_view()[j] != 0 <==> seeded(j, k as int, 0)),
            decreases 3 - k,
        {
            let bx = 4 * k;
            let r0 = (bx / 3) * 3;
            let c0 = (bx % 3) * 3;
            let mut idxs: Vec<u8> = vec![0u8, 1, 2, 3, 4, 5, 6, 7, 8];
            let ghost start = idxs@;
            proof {
                assert(r0 == 3 * k && c0 == 3 * k);
                assert(start.no_duplicates());
                start.lemma_multiset_has_no_duplicates();
            }
            rng.shuffle(&mut idxs);
            proof {
                assert forall|x: u8| idxs@.to_multiset().contains(x) implies idxs@.to_multiset().count(x) == 1 by {}
                idxs@.lemma_multiset_has_no_duplicates_conv();
                assert forall|q: int| 0 <= q < 9 implies #[trigger] idxs@[q] < 9 by {
                    let x = idxs@[q];
                    assert(idxs@.contains(x));
                    vstd::seq_lib::to_multiset_contains(idxs@, x);
                    vstd::seq_lib::to_multiset_contains(start, x);
                }
            }
            let mut i: usize = 0;
            while i < 9
                invariant
                    0 <= i <= 9,
                    k < 3,
                    idxs@.len() == 9,
                    idxs@.no_duplicates(),
                    forall|q: int| 0 <= q < 9 ==> #[trigger] idxs@[q] < 9,
                    r0 == 3 * k,
                    c0 == 3 * k,
                    fill_ok(self.board),
                    forall|j: int| 0 <= j < 81 && #[trigger] old(self).board.cells_view()[j] != 0 ==> self.board.cells_view()[j]
                        == old(self).board.cells_view()[j],
                    e ==> forall|j: int| 0 <= j < 81 ==> (#[trigger] self.board.cells_view()[j] != 0 <==> seeded(j, k as int, i as int)),
                    e ==> forall|j: int| 0 <= j < 81 && seeded(j, k as int, i as int) && (j / 9) / 3 == k && (j % 9) / 3 == k
                        ==> #[trigger] self.board.cells_view()[j] == idxs@[slot(j)] + 1,
                decreases 9 - i,
            {
                let cell = (r0 + i / 3) * 9 + c0 + i % 3;
                let ix = idxs[i];
                let ghost cv = self.board.cells_view();
                proof {
                    vstd::arithmetic::div_mod::lemma_fundamental_div_mod_converse(cell as int, 9, (r0 + i / 3) as int, (c0 + i % 3) as int);
                    if e {
                        assert(!seeded(cell as int, k as int, i as int));
                        assert(cv[cell as int] == 0);
                        assert forall|j: int| 0 <= j < 81 && #[trigger] is_peer(cell as int, j) implies cv[j] != ix + 1 by {
                            if cv[j] != 0 {
                                assert(seeded(j, k as int, i as int));
                                if (j / 9) / 3 == k && (j % 9) / 3 == k {
                                    assert(cv[j] == idxs@[slot(j)] + 1);
                                    assert(slot(j) != i);
                                    assert(idxs@[slot(j)] != idxs@[i as int]);
                                }
                            }
                        }
                        assert(!blocked(cv, cell as int, (ix + 1) as u8));
                        assert(naked_at(cv, self.board.cands_view(), cell as int));
                    }
                }
                if ix < 9 {
                    let ok = self.try_place(cell, ix + 1);
                    proof {
                        if e {
                            assert(ok);
                            assert forall|j: int| 0 <= j < 81 implies (#[trigger] self.board.cells_view()[j] != 0 <==> seeded(
                                j,
                                k as int,
                                i + 1,
                            )) by {
                                if j != cell as int && seeded(j, k as int, i + 1) && !seeded(j, k as int, i as int) {
                                    assert(j == (j / 9) * 9 + j % 9);
                                }
                            }
                            assert forall|j: int| 0 <= j < 81 && seeded(j, k as int, i + 1) && (j / 9) / 3 == k && (j % 9) / 3 == k
                                implies #[trigger] self.board.cells_view()[j] == idxs@[slot(j)] + 1 by {
                                if j == cell as int {
                                } else if !seeded(j, k as int, i as int) {
                                    assert(j == (j / 9) * 9 + j % 9);
                                }
                            }
                        }
                    }
                }
                i += 1;
            }
            proof {
                if e {
                    assert forall|j: int| 0 <= j < 81 implies (#[trigger] self.board.cells_view()[j] != 0 <==> seeded(j, k + 1, 0)) by {
                        assert(seeded(j, k as int, 9) == seeded(j, k + 1, 0));
                    }
                }
            }
            k += 1;
        }
        proof {
            if e {
                assert forall|j: int| 0 <= j < 81 implies (#[trigger] self.board.cells_view()[j] != 0 <==> in_diag_box(j)) by {
                    assert(seeded(j, 3, 0) == in_diag_box(j));
                }
            }
        }
    }

    /// Complete the grid by randomized backtracking on the most constrained
    /// cell. True when the grid is complete; on false the board is unchanged.
    fn fill(&mut self, rng: &mut Rng) -> (ok: bool)
        requires
            fill_ok(old(self).board),
        ensures
            fill_ok(final(self).board),
            ok ==> forall|j: int| 0 <= j < 81 ==> #[trigger] final(self).board.cells_view()[j] != 0,
            ok ==> forall|j: int| 0 <= j < 81 && #[trigger] old(self).board.cells_view()[j] != 0 ==> final(self).board.cells_view()[j]
                == old(self).board.cells_view()[j],
            !ok ==> final(self).board == old(self).board,
            !ok ==> forall|s: Seq<u8>| !#[trigger] crate::grid::completes(s, old(self).board.cells_view()),
        decreases 81 - count_filled(old(self).board.cells_view()),
    {
        proof {
            lemma_count_filled_bound(self.board.cells_view());
        }
        let (cell, mask) = match scan(&self.board, self.strategy) {
            None => {
                return true;
            },
            Some(p) => p,
        };
        if mask == 0 {
            proof {
                assert forall|s: Seq<u8>| !#[trigger] crate::grid::completes(s, self.board.cells_view()) by {
                    if crate::grid::completes(s, self.board.cells_view()) {
                        assert(naked_at(self.board.cells_view(), self.board.cands_view(), cell as int));
                        crate::grid::lemma_completion_candidate(s, self.board.cells_view(), self.board.cands_view(), cell as int);
                        let cm = self.board.cands_view()[cell as int];
                        crate::grid::lemma_ones16_zero(cm & 0x1FFu16);
                        crate::grid::lemma_and_all9(cm);
                        assert(mask_has(cm & 0x1FFu16, s[cell as int]));
                        crate::bits::lemma_bit16_zero((s[cell as int] - 1) as u16);
                    }
                }
            }
            return false;
        }
        let mut idxs: Vec<u8> = Vec::new();
        let mut d: u8 = 0;
        while d < 9
            invariant
                0 <= d <= 9,
                forall|q: int| 0 <= q < idxs@.len() ==> #[trigger] idxs@[q] < 9,
                forall|x: u8| x < d && #[trigger] mask_has(mask, (x + 1) as u8) ==> idxs@.contains(x),
            decreases 9 - d,
        {
            proof {
                crate::grid::lemma_mask_test(mask, (d + 1) as u8);
            }
            if mask & (1u16 << (d as u16)) != 0 {
                let ghost before = idxs@;
                idxs.push(d);
                proof {
                    assert(idxs@[idxs@.len() - 1] == d);
                    assert forall|x: u8| x < d + 1 && #[trigger] mask_has(mask, (x + 1) as u8) implies idxs@.contains(x) by {
                        if x < d {
                            assert(before.contains(x));
                            let w = choose|w: int| 0 <= w < before.len() && before[w] == x;
                            assert(idxs@[w] == x);
                        } else {
                            assert(idxs@[idxs@.len() - 1] == x);
                        }
                    }
                }
            }
            proof {
                assert forall|x: u8| x < d + 1 && #[trigger] mask_has(mask, (x + 1) as u8) implies idxs@.contains(x) by {
                    if x < d {
                    }
                }
            }
            d += 1;
        }
        let ghost pre = idxs@;
        rng.shuffle(&mut idxs);
        proof {
            assert forall|q: int| 0 <= q < idxs@.len() implies #[trigger] idxs@[q] < 9 by {
                let x = idxs@[q];
                assert(idxs@.contains(x));
                vstd::seq_lib::to_multiset_contains(idxs@, x);
                vstd::seq_lib::to_multiset_contains(pre, x);
                let w = choose|w: int| 0 <= w < pre.len() && pre[w] == x;
            }
            assert forall|x: u8| x < 9 && #[trigger] mask_has(mask, (x + 1) as u8) implies idxs@.contains(x) by {
                assert(pre.contains(x));
                vstd::seq_lib::to_multiset_contains(idxs@, x);
                vstd::seq_lib::to_multiset_contains(pre, x);
            }
        }
        let mut q: usize = 0;
        while q < idxs.len()
            invariant
                0 <= q <= idxs@.len(),
                cell < 81,
                fill_ok(self.board),
                *self == *old(self),
                old(self).board.cells_view()[cell as int] == 0,
                forall|x: int| 0 <= x < idxs@.len() ==> #[trigger] idxs@[x] < 9,
                forall|s: Seq<u8>| #[trigger] crate::grid::completes(s, old(self).board.cells_view()) ==> forall|x: int| 0 <= x < q ==> s[cell as int] != idxs@[x] + 1,
            decreases idxs@.len() - q,
        {
            let mut child = Fill { board: self.board, strategy: self.strategy };
            let ghost cb = child.board;
            if child.try_place(cell, idxs[q] + 1) {
                proof {
                    lemma_count_filled_update(self.board.cells_view(), cell as int, (idxs@[q as int] + 1) as u8);
                    lemma_count_filled_bound(child.board.cells_view());
                }
                let ghost c0 = child.board.cells_view();
                if child.fill(rng) {
                    proof {
                        assert forall|j: int| 0 <= j < 81 && #[trigger] old(self).board.cells_view()[j] != 0 implies child.board.cells_view()[j]
                            == old(self).board.cells_view()[j] by {
                            assert(j != cell);
                            assert(c0[j] == old(self).board.cells_view()[j]);
                        }
                    }
                    self.board = child.board;
                    return true;
                }
            }
            proof {
                let dq = (idxs@[q as int] + 1) as u8;
                assert forall|s: Seq<u8>| #[trigger] crate::grid::completes(s, old(self).board.cells_view()) implies forall|x: int|
                    0 <= x < q + 1 ==> s[cell as int] != idxs@[x] + 1 by {
                    if s[cell as int] == dq {
                        assert(naked_at(cb.cells_view(), cb.cands_view(), cell as int));
                        crate::grid::lemma_completion_candidate(s, cb.cells_view(), cb.cands_view(), cell as int);
                        assert(crate::grid::completes(s, child.board.cells_view()));
                    }
                }
            }
            q += 1;
        }
        proof {
            assert forall|s: Seq<u8>| !#[trigger] crate::grid::completes(s, old(self).board.cells_view()) by {
                if crate::grid::completes(s, old(self).board.cells_view()) {
                    assert(naked_at(self.board.cells_view(), self.board.cands_view(), cell as int));
                    crate::grid::lemma_completion_candidate(s, self.board.cells_view(), self.board.cands_view(), cell as int);
                    let x = (s[cell as int] - 1) as u8;
                    assert(mask_has(mask, (x + 1) as u8));
                    assert(idxs@.contains(x));
                    let w = choose|w: int| 0 <= w < idxs@.len() && idxs@[w] == x;
                }
            }
        }
        false
    }
}

/// A random full grid: the three diagonal boxes seeded with random
/// permutations, then completed by the backtracking filler. The grid is
/// conflict-free; it is complete whenever the filler succeeds.
pub fn random_solution(rng: &mut Rng) -> (g: [u8; 81])
    ensures
        conflict_free(g@),
        forall|j: int| 0 <= j < 81 ==> #[trigger] g[j] <= 9,
{
    let mut f = Fill::new(Strategy::Mrv);
    f.seed_diagonal(rng);
    let _ok = f.fill(rng);
    *f.board.cells()
}

/// A random full grid filled from the empty grid by `strategy`, without the
/// diagonal seed.
pub fn random_solution_with(rng: &mut Rng, strategy: Strategy) -> (g: [u8; 81])
    ensures
        conflict_free(g@),
        forall|j: int| 0 <= j < 81 ==> #[trigger] g[j] <= 9,
        crate::grid::solved(g@),
{
    let mut f = Fill::new(strategy);
    let ghost f0 = f.board.cells_view();
    let ok = f.fill(rng);
    proof {
        lemma_pattern_solved();
        assert(crate::grid::completes(pattern_grid(), f0));
        assert(ok);
    }
    *f.board.cells()
}

/// A fixed full grid: row `r`, column `c` holds `(3 (r mod 3) + r / 3 + c) mod 9 + 1`.
pub open spec fn pattern_grid() -> Seq<u8> {
    Seq::new(81, |i: int| ((((3 * ((i / 9) % 3) + (i / 9) / 3 + i % 9) % 9) + 1) as u8))
}

/// The pattern grid is a full, conflict-free grid.
pub proof fn lemma_pattern_solved()
    ensures
        crate::grid::solved(pattern_grid()),
{
    let g = pattern_grid();
    assert forall|i: int| 0 <= i < 81 implies #[trigger] no_conflict_at(g, i) by {
        if blocked(g, i, g[i]) {
            let j = choose|j: int| 0 <= j < 81 && #[trigger] is_peer(i, j) && g[j] == g[i];
            lemma_pattern_pair(i, j);
        }
    }
}

/// Two peers of the pattern grid hold different digits.
proof fn lemma_pattern_pair(i: int, j: int)
    requires
        0 <= i < 81,
        0 <= j < 81,
        is_peer(i, j),
    ensures
        pattern_grid()[i] != pattern_grid()[j],
{
    let r1 = i / 9;
    let c1 = i % 9;
    let r2 = j / 9;
    let c2 = j % 9;
    assert(i == r1 * 9 + c1);
    assert(j == r2 * 9 + c2);
    let f1 = 3 * (r1 % 3) + r1 / 3;
    let f2 = 3 * (r2 % 3) + r2 / 3;
    assert(0 <= f1 < 9 && 0 <= f2 < 9);
    let v1 = (f1 + c1) % 9;
    let v2 = (f2 + c2) % 9;
    assert(pattern_grid()[i] == (v1 + 1) as u8);
    assert(pattern_grid()[j] == (v2 + 1) as u8);
    if v1 == v2 {
        if r1 == r2 {
            assert(c1 != c2);
        } else if c1 == c2 {
            assert(f1 != f2);
        } else {
            assert(crate::grid::box_spec(i) == crate::grid::box_spec(j));
            assert(r1 / 3 == r2 / 3);
            assert(c1 / 3 == c2 / 3);
        }
    }
}

} // verus!
