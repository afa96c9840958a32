//! The scalar completion counter: naked and hidden singles on the candidate
//! grid to a fixpoint, then branching on the most constrained cell.

use vstd::prelude::*;
use crate::bb::count_cap;
use crate::grid::{Board, CELLS, count_filled, mask_has, popcount, conflict_free, completes, lemma_completion_candidate};
use crate::fill::{lemma_count_filled_update, lemma_count_filled_bound, lemma_place_conflict_free};
use crate::probe::techniques::{
    naked_singles, hidden_singles, extends, fits, sub_naked, narrows, lemma_fits_back, lemma_narrows_trans, lemma_place_fits,
    lemma_place_narrows,
};

verus! {

/// Why propagation stopped.
enum Status {
    Solved,
    Contradiction,
    Stuck,
}

/// `w` lists `n` distinct completions of the grid `cells` that pick among the
/// candidates `cands`, and every such completion when `n` stays below `cap`.
pub open spec fn counted(cells: Seq<u8>, cands: Seq<u16>, w: Seq<Seq<u8>>, n: int, cap: int) -> bool {
    &&& w.len() == n
    &&& forall|i: int| 0 <= i < n ==> #[trigger] fits(w[i], cells, cands)
    &&& forall|i: int, j: int| 0 <= i < j < n ==> #[trigger] w[i] != #[trigger] w[j]
    &&& n < cap ==> forall|s: Seq<u8>| #[trigger] fits(s, cells, cands) ==> w.contains(s)
}

/// A mask holding a digit is non-zero in its digit bits.
proof fn lemma_mask_nonzero(m: u16, d: u8)
    requires
        1 <= d <= 9,
        mask_has(m, d),
    ensures
        m & 0x1FF != 0,
{
    crate::bits::lemma_bit16_and(m, 0x1FF, (d - 1) as u16);
    crate::bits::lemma_bit16_all9((d - 1) as u16);
    if m & 0x1FF == 0 {
        crate::bits::lemma_bit16_zero((d - 1) as u16);
    }
}

/// Singles to a fixpoint: solved when every cell is filled, a contradiction
/// when an empty cell has no candidate, stuck when nothing fires. On a board of
/// naked candidates the completions stay those of the input, and a
/// contradiction means there is none.
fn propagate(b: &mut Board) -> (r: Status)
    requires
        old(b).wf(),
    ensures
        final(b).wf(),
        extends(*final(b), *old(b)),
        count_filled(final(b).cells_view()) >= count_filled(old(b).cells_view()),
        r matches Status::Stuck ==> count_filled(final(b).cells_view()) < 81,
        r matches Status::Solved ==> forall|j: int| 0 <= j < 81 ==> #[trigger] final(b).cells_view()[j] != 0,
        old(b).is_naked() ==> final(b).is_naked(),
        old(b).is_naked() && conflict_free(old(b).cells_view()) ==> conflict_free(final(b).cells_view()),
        old(b).is_naked() ==> forall|s: Seq<u8>| #[trigger] completes(s, old(b).cells_view()) ==> completes(s, final(b).cells_view()),
        old(b).is_naked() && (r is Contradiction) ==> forall|s: Seq<u8>| !#[trigger] completes(s, old(b).cells_view()),
        narrows(*final(b), *old(b)),
        sub_naked(old(b).cells_view(), old(b).cands_view()) ==> sub_naked(final(b).cells_view(), final(b).cands_view()),
        sub_naked(old(b).cells_view(), old(b).cands_view()) && conflict_free(old(b).cells_view()) ==> conflict_free(final(b).cells_view()),
        sub_naked(old(b).cells_view(), old(b).cands_view()) ==> forall|s: Seq<u8>| #[trigger] fits(s, old(b).cells_view(), old(b).cands_view())
            ==> fits(s, final(b).cells_view(), final(b).cands_view()),
        sub_naked(old(b).cells_view(), old(b).cands_view()) && (r is Contradiction) ==> forall|s: Seq<u8>| !#[trigger] fits(s, old(b).cells_view(), old(b).cands_view()),
{
    proof {
        lemma_narrows_trans(*b, *b, *b);
    }
    loop
        invariant
            b.wf(),
            extends(*b, *old(b)),
            count_filled(b.cells_view()) >= count_filled(old(b).cells_view()),
            old(b).is_naked() ==> b.is_naked(),
            old(b).is_naked() && conflict_free(old(b).cells_view()) ==> conflict_free(b.cells_view()),
            old(b).is_naked() ==> forall|s: Seq<u8>| #[trigger] completes(s, old(b).cells_view()) ==> completes(s, b.cells_view()),
            narrows(*b, *old(b)),
            sub_naked(old(b).cells_view(), old(b).cands_view()) ==> sub_naked(b.cells_view(), b.cands_view()),
            sub_naked(old(b).cells_view(), old(b).cands_view()) && conflict_free(old(b).cells_view()) ==> conflict_free(b.cells_view()),
            sub_naked(old(b).cells_view(), old(b).cands_view()) ==> forall|s: Seq<u8>| #[trigger] fits(s, old(b).cells_view(), old(b).cands_view())
                ==> fits(s, b.cells_view(), b.cands_view()),
        decreases 81 - count_filled(b.cells_view()),
    {
        proof {
            lemma_count_filled_bound(b.cells_view());
        }
        let ghost c0 = b.cells_view();
        let ghost b0 = *b;
        let n = naked_singles(b);
        let ghost b1 = *b;
        let h = hidden_singles(b);
        let changed = n || h;
        proof {
            if old(b).is_naked() {
                assert forall|s: Seq<u8>| #[trigger] completes(s, old(b).cells_view()) implies completes(s, b.cells_view()) by {
                    assert(completes(s, b0.cells_view()));
                    assert(completes(s, b1.cells_view()));
                }
            }
            lemma_narrows_trans(*old(b), b0, b1);
            lemma_narrows_trans(*old(b), b1, *b);
            if sub_naked(old(b).cells_view(), old(b).cands_view()) {
                assert forall|s: Seq<u8>| #[trigger] fits(s, old(b).cells_view(), old(b).cands_view()) implies fits(
                    s,
                    b.cells_view(),
                    b.cands_view(),
                ) by {
                    assert(fits(s, b0.cells_view(), b0.cands_view()));
                    assert(fits(s, b1.cells_view(), b1.cands_view()));
                }
            }
        }
        let mut open = false;
        let mut c: usize = 0;
        while c < CELLS
            invariant
                0 <= c <= 81,
                b.wf(),
                extends(*b, *old(b)),
                count_filled(b.cells_view()) >= count_filled(old(b).cells_view()),
                old(b).is_naked() ==> b.is_naked(),
                old(b).is_naked() && conflict_free(old(b).cells_view()) ==> conflict_free(b.cells_view()),
                open == exists|j: int| 0 <= j < c && #[trigger] b.cells_view()[j] == 0,
                old(b).is_naked() ==> forall|s: Seq<u8>| #[trigger] completes(s, old(b).cells_view()) ==> completes(s, b.cells_view()),
                narrows(*b, *old(b)),
                sub_naked(old(b).cells_view(), old(b).cands_view()) ==> sub_naked(b.cells_view(), b.cands_view()),
                sub_naked(old(b).cells_view(), old(b).cands_view()) && conflict_free(old(b).cells_view()) ==> conflict_free(b.cells_view()),
                sub_naked(old(b).cells_view(), old(b).cands_view()) ==> forall|s: Seq<u8>| #[trigger] fits(s, old(b).cells_view(), old(b).cands_view())
                    ==> fits(s, b.cells_view(), b.cands_view()),
            decreases 81 - c,
        {
            if b.is_empty(c) {
                open = true;
                if b.candidates(c) & 0x1FF == 0 {
                    proof {
                        if old(b).is_naked() {
                            assert forall|s: Seq<u8>| !#[trigger] completes(s, old(b).cells_view()) by {
                                if completes(s, old(b).cells_view()) {
                                    assert(completes(s, b.cells_view()));
                                    assert(crate::grid::naked_at(b.cells_view(), b.cands_view(), c as int));
                                    lemma_completion_candidate(s, b.cells_view(), b.cands_view(), c as int);
                                    lemma_mask_nonzero(b.cands_view()[c as int], s[c as int]);
                                }
                            }
                        }
                        if sub_naked(old(b).cells_view(), old(b).cands_view()) {
                            assert forall|s: Seq<u8>| !#[trigger] fits(s, old(b).cells_view(), old(b).cands_view()) by {
                                if fits(s, old(b).cells_view(), old(b).cands_view()) {
                                    assert(fits(s, b.cells_view(), b.cands_view()));
                                    assert(mask_has(b.cands_view()[c as int], s[c as int]));
                                    lemma_mask_nonzero(b.cands_view()[c as int], s[c as int]);
                                }
                            }
                        }
                    }
                    return Status::Contradiction;
                }
            }
            c += 1;
        }
        proof {
            lemma_count_filled_bound(b.cells_view());
        }
        if !open {
            return Status::Solved;
        }
        if !changed {
            proof {
                let j = choose|j: int| 0 <= j < 81 && #[trigger] b.cells_view()[j] == 0;
            }
            return Status::Stuck;
        }
        proof {
            lemma_count_filled_bound(b.cells_view());
        }
    }
}

/// The first empty cell with the fewest candidates.
fn branch_cell(b: &Board) -> (c: usize)
    requires
        b.wf(),
        count_filled(b.cells_view()) < 81,
    ensures
        c < 81,
        b.cells_view()[c as int] == 0,
{
    proof {
        lemma_count_filled_bound(b.cells_view());
    }
    let mut best: usize = 81;
    let mut best_len: u32 = u32::MAX;
    let mut c: usize = 0;
    while c < CELLS
        invariant
            0 <= c <= 81,
            b.wf(),
            count_filled(b.cells_view()) < 81,
            best <= 81,
            best < 81 ==> b.cells_view()[best as int] == 0,
            best == 81 ==> best_len == u32::MAX && forall|j: int| 0 <= j < c ==> #[trigger] b.cells_view()[j] != 0,
        decreases 81 - c,
    {
        if b.is_empty(c) {
            let len = popcount(b.candidates(c));
            if len < best_len {
                best_len = len;
                best = c;
            }
        }
        c += 1;
    }
    proof {
        lemma_count_filled_bound(b.cells_view());
        if best == 81 {
            assert(forall|j: int| 0 <= j < 81 ==> #[trigger] b.cells_view()[j] != 0);
        }
    }
    best
}

/// Count completions into `found`, stopping once `found` reaches `cap`. On a
/// board within the naked candidates over a conflict-free grid, `w` lists the
/// distinct fitting completions this call counted: every one when `found` ends
/// below `cap`.
fn count(start: Board, cap: usize, found: &mut usize) -> (w: Ghost<Seq<Seq<u8>>>)
    requires
        start.wf(),
        *old(found) < cap || *old(found) == 0,
    ensures
        *old(found) <= *final(found) <= count_cap(cap),
        w@.len() == *final(found) - *old(found),
        sub_naked(start.cells_view(), start.cands_view()) && conflict_free(start.cells_view()) ==> counted(
            start.cells_view(),
            start.cands_view(),
            w@,
            *final(found) - *old(found),
            cap - *old(found),
        ),
    decreases 81 - count_filled(start.cells_view()),
{
    let ghost f_in = *found;
    let ghost p = sub_naked(start.cells_view(), start.cands_view()) && conflict_free(start.cells_view());
    let ghost sc = start.cells_view();
    let ghost sk = start.cands_view();
    let mut view = start;
    proof {
        lemma_count_filled_bound(view.cells_view());
    }
    let ghost f0 = count_filled(start.cells_view());
    match propagate(&mut view) {
        Status::Contradiction => {
            return Ghost(Seq::empty());
        },
        Status::Solved => {
            *found = *found + 1;
            let ghost g = view.cells_view();
            let ghost one: Seq<Seq<u8>> = seq![g];
            proof {
                if p {
                    assert(completes(g, view.cells_view()));
                    assert(fits(g, view.cells_view(), view.cands_view()));
                    lemma_fits_back(g, view, start);
                    assert forall|s: Seq<u8>| #[trigger] fits(s, sc, sk) implies one.contains(s) by {
                        assert(fits(s, view.cells_view(), view.cands_view()));
                        assert(s =~= g);
                        assert(one[0] == s);
                    }
                    assert(counted(sc, sk, one, 1, cap - f_in));
                }
            }
            return Ghost(one);
        },
        Status::Stuck => {},
    }
    let cell = branch_cell(&view);
    let m = view.candidates(cell);
    let ghost mut acc: Seq<Seq<u8>> = Seq::empty();
    let mut d: u8 = 1;
    while d <= 9
        invariant
            1 <= d <= 10,
            cell < 81,
            view.wf(),
            view.cells_view()[cell as int] == 0,
            count_filled(view.cells_view()) >= f0,
            f0 == count_filled(start.cells_view()),
            m == view.cands_view()[cell as int],
            *old(found) <= *found <= count_cap(cap),
            *found < cap || *found == 0,
            f_in == *old(found),
            sc == start.cells_view(),
            sk == start.cands_view(),
            p == (sub_naked(sc, sk) && conflict_free(sc)),
            narrows(view, start),
            p ==> sub_naked(view.cells_view(), view.cands_view()) && conflict_free(view.cells_view()),
            p ==> forall|s: Seq<u8>| #[trigger] fits(s, sc, sk) ==> fits(s, view.cells_view(), view.cands_view()),
            acc.len() == *found - f_in,
            p ==> forall|i: int| 0 <= i < acc.len() ==> #[trigger] fits(acc[i], sc, sk) && acc[i][cell as int] < d,
            p ==> forall|i: int, j: int| 0 <= i < j < acc.len() ==> #[trigger] acc[i] != #[trigger] acc[j],
            p && *found < cap ==> forall|s: Seq<u8>| #[trigger] fits(s, sc, sk) && s[cell as int] < d ==> acc.contains(s),
        decreases 10 - d,
    {
        proof {
            crate::grid::lemma_mask_test(m, d);
        }
        if m & (1u16 << ((d - 1) as u16)) != 0 {
            let mut child = view;
            child.place(cell, d);
            proof {
                lemma_place_narrows(view, child, cell as int, d);
                lemma_narrows_trans(start, view, child);
                if p {
                    lemma_place_fits(view, child, cell as int, d);
                }
                lemma_count_filled_update(view.cells_view(), cell as int, d);
                lemma_count_filled_bound(child.cells_view());
            }
            let ghost fb = *found;
            let cw = count(child, cap, found);
            let ghost next = acc + cw@;
            proof {
                if p {
                    let cc = child.cells_view();
                    let ck = child.cands_view();
                    assert(cc == view.cells_view().update(cell as int, d));
                    assert(counted(cc, ck, cw@, *found - fb, cap - fb));
                    assert forall|i: int| 0 <= i < next.len() implies #[trigger] fits(next[i], sc, sk) && next[i][cell as int] < d + 1 by {
                        if i >= acc.len() {
                            let k = i - acc.len();
                            assert(next[i] == cw@[k]);
                            assert(fits(cw@[k], cc, ck));
                            assert(cc[cell as int] == d);
                            assert(cw@[k][cell as int] == d);
                            lemma_fits_back(cw@[k], child, start);
                        } else {
                            assert(next[i] == acc[i]);
                            assert(fits(acc[i], sc, sk));
                        }
                    }
                    assert forall|i: int, j: int| 0 <= i < j < next.len() implies #[trigger] next[i] != #[trigger] next[j] by {
                        if j >= acc.len() && i >= acc.len() {
                            assert(cw@[i - acc.len()] != cw@[j - acc.len()]);
                        } else if j >= acc.len() {
                            assert(fits(acc[i], sc, sk));
                            assert(acc[i][cell as int] < d);
                            assert(fits(cw@[j - acc.len()], cc, ck));
                            assert(cc[cell as int] == d);
                            assert(cw@[j - acc.len()][cell as int] == d);
                            assert(next[i] == acc[i]);
                            assert(next[j] == cw@[j - acc.len()]);
                        } else {
                            assert(acc[i] != acc[j]);
                        }
                    }
                    if *found < cap {
                        assert forall|s: Seq<u8>| #[trigger] fits(s, sc, sk) && s[cell as int] < d + 1 implies next.contains(s) by {
                            if s[cell as int] < d {
                                let i = choose|i: int| 0 <= i < acc.len() && acc[i] == s;
                                assert(next[i] == s);
                            } else {
                                assert(fits(s, view.cells_view(), view.cands_view()));
                                assert(fits(s, cc, ck));
                                let k = choose|k: int| 0 <= k < cw@.len() && cw@[k] == s;
                                assert(next[acc.len() + k] == s);
                            }
                        }
                    }
                }
            }
            proof {
                acc = next;
            }
            if *found >= cap {
                return Ghost(acc);
            }
        } else {
            proof {
                if p && *found < cap {
                    assert forall|s: Seq<u8>| #[trigger] fits(s, sc, sk) && s[cell as int] < d + 1 implies acc.contains(s) by {
                        if s[cell as int] == d {
                            assert(fits(s, view.cells_view(), view.cands_view()));
                            assert(mask_has(m, s[cell as int]));
                        }
                    }
                }
            }
        }
        d += 1;
    }
    proof {
        if p && *found < cap {
            assert forall|s: Seq<u8>| #[trigger] fits(s, sc, sk) implies acc.contains(s) by {
                assert(s[cell as int] <= 9);
            }
        }
    }
    Ghost(acc)
}

/// The number of completions of `view`, counting stops at `cap`: on a board
/// within the naked candidates over a conflict-free grid, there are `n`
/// distinct completions picking among its candidates, and no other when `n`
/// stays below `cap`.
pub fn count_completions(view: Board, cap: usize) -> (n: usize)
    requires
        view.wf(),
    ensures
        n <= count_cap(cap),
        sub_naked(view.cells_view(), view.cands_view()) && conflict_free(view.cells_view()) ==> exists|w: Seq<Seq<u8>>| #[trigger] counted(
            view.cells_view(),
            view.cands_view(),
            w,
            n as int,
            cap as int,
        ),
{
    let mut found: usize = 0;
    let w = count(view, cap, &mut found);
    proof {
        if sub_naked(view.cells_view(), view.cands_view()) && conflict_free(view.cells_view()) {
            assert(counted(view.cells_view(), view.cands_view(), w@, found as int, cap as int));
        }
    }
    found
}

/// The first completion the search reaches, depth first.
fn first(start: Board) -> (r: Option<Board>)
    requires
        start.wf(),
        start.is_naked(),
        conflict_free(start.cells_view()),
    ensures
        r matches Some(g) ==> g.wf() && conflict_free(g.cells_view()) && extends(g, start) && forall|j: int| 0 <= j < 81
            ==> #[trigger] g.cells_view()[j] != 0,
        r is None ==> forall|s: Seq<u8>| !#[trigger] completes(s, start.cells_view()),
    decreases 81 - count_filled(start.cells_view()),
{
    let mut view = start;
    proof {
        lemma_count_filled_bound(view.cells_view());
    }
    match propagate(&mut view) {
        Status::Contradiction => {
            return None;
        },
        Status::Solved => {
            return Some(view);
        },
        Status::Stuck => {},
    }
    let cell = branch_cell(&view);
    let m = view.candidates(cell);
    let mut d: u8 = 1;
    while d <= 9
        invariant
            1 <= d <= 10,
            cell < 81,
            view.wf(),
            view.is_naked(),
            conflict_free(view.cells_view()),
            extends(view, start),
            view.cells_view()[cell as int] == 0,
            count_filled(view.cells_view()) >= count_filled(start.cells_view()),
            m == view.cands_view()[cell as int],
            forall|s: Seq<u8>| #[trigger] completes(s, start.cells_view()) ==> completes(s, view.cells_view()) && s[cell as int] >= d,
        decreases 10 - d,
    {
        proof {
            crate::grid::lemma_mask_test(m, d);
        }
        if m & (1u16 << ((d - 1) as u16)) != 0 {
            let mut child = view;
            proof {
                lemma_place_conflict_free(view.cells_view(), view.cands_view(), cell as int, d);
            }
            child.place(cell, d);
            proof {
                lemma_count_filled_update(view.cells_view(), cell as int, d);
                lemma_count_filled_bound(child.cells_view());
            }
            match first(child) {
                Some(g) => {
                    proof {
                        assert forall|j: int| 0 <= j < 81 && #[trigger] start.cells_view()[j] != 0 implies g.cells_view()[j]
                            == start.cells_view()[j] by {
                            assert(view.cells_view()[j] == start.cells_view()[j]);
                            assert(child.cells_view()[j] == view.cells_view()[j]);
                        }
                    }
                    return Some(g);
                },
                None => {
                    proof {
                        assert forall|s: Seq<u8>| #[trigger] completes(s, start.cells_view()) implies completes(s, view.cells_view())
                            && s[cell as int] >= d + 1 by {
                            if s[cell as int] == d {
                                assert(completes(s, child.cells_view()));
                            }
                        }
                    }
                },
            }
        } else {
            proof {
                assert forall|s: Seq<u8>| #[trigger] completes(s, start.cells_view()) implies completes(s, view.cells_view())
                    && s[cell as int] >= d + 1 by {
                    if s[cell as int] == d {
                        assert(crate::grid::naked_at(view.cells_view(), view.cands_view(), cell as int));
                        lemma_completion_candidate(s, view.cells_view(), view.cands_view(), cell as int);
                    }
                }
            }
        }
        d += 1;
    }
    proof {
        assert forall|s: Seq<u8>| !#[trigger] completes(s, start.cells_view()) by {
            if completes(s, start.cells_view()) {
                assert(s[cell as int] <= 9);
            }
        }
    }
    None
}

/// The first completion of `puzzle` the search reaches: a complete
/// conflict-free grid holding every clue of `puzzle`.
pub fn first_completion(puzzle: Board) -> (r: Option<Board>)
    requires
        puzzle.wf(),
        puzzle.is_naked(),
        conflict_free(puzzle.cells_view()),
    ensures
        r matches Some(g) ==> g.wf() && conflict_free(g.cells_view()) && extends(g, puzzle) && forall|j: int| 0 <= j < 81
            ==> #[trigger] g.cells_view()[j] != 0,
        r is None ==> forall|s: Seq<u8>| !#[trigger] completes(s, puzzle.cells_view()),
{
    first(puzzle)
}

} // verus!
