//! Naked and hidden singles on the candidate grid.

use vstd::prelude::*;
use crate::grid::{
    Board, CELLS, mask_has, count_filled, unit_cell, all_units, popcount, ones16, conflict_free, completes, naked_at, blocked,
    lemma_completion_candidate, lemma_unit_has_digit, lemma_unit_peers,
};
use crate::fill::{lemma_count_filled_update, lemma_count_filled_bound, lemma_place_conflict_free};

verus! {

/// Every cell of a unit is on the grid.
pub proof fn lemma_unit_cell_bound(u: int, k: int)
    requires
        0 <= u < 27,
        0 <= k < 9,
    ensures
        0 <= unit_cell(u, k) < 81,
{
    if u >= 18 {
        let b = u - 18;
        assert(0 <= b / 3 < 3 && 0 <= b % 3 < 3);
        assert(0 <= k / 3 < 3 && 0 <= k % 3 < 3);
        assert(((b / 3) * 3 + k / 3) <= 8);
        assert(((b / 3) * 3 + k / 3) * 9 <= 72) by (nonlinear_arith)
            requires
                ((b / 3) * 3 + k / 3) <= 8,
        ;
    }
}

/// Board `n` is board `o` with more cells filled: every filled cell keeps its
/// digit.
pub open spec fn extends(n: Board, o: Board) -> bool {
    forall|j: int| 0 <= j < 81 && #[trigger] o.cells_view()[j] != 0 ==> n.cells_view()[j] == o.cells_view()[j]
}

/// The candidate masks stay within the naked candidates: no empty cell's mask
/// names a digit that a filled peer holds.
pub open spec fn sub_naked(cells: Seq<u8>, cands: Seq<u16>) -> bool {
    forall|i: int, d: u8| 0 <= i < 81 && 1 <= d <= 9 && cells[i] == 0 && #[trigger] mask_has(cands[i], d) ==> !blocked(cells, i, d)
}

/// `s` completes `cells` and picks one of its candidates at every empty cell.
pub open spec fn fits(s: Seq<u8>, cells: Seq<u8>, cands: Seq<u16>) -> bool {
    &&& completes(s, cells)
    &&& forall|i: int| 0 <= i < 81 && #[trigger] cells[i] == 0 ==> mask_has(cands[i], s[i])
}

/// Naked candidates are within the naked candidates, and every completion
/// picks among them.
pub proof fn lemma_naked_fits(b: Board)
    requires
        b.wf(),
        b.is_naked(),
    ensures
        sub_naked(b.cells_view(), b.cands_view()),
        forall|s: Seq<u8>| #[trigger] fits(s, b.cells_view(), b.cands_view()) <==> completes(s, b.cells_view()),
{
    assert forall|i: int, d: u8| 0 <= i < 81 && 1 <= d <= 9 && b.cells_view()[i] == 0 && #[trigger] mask_has(b.cands_view()[i], d)
        implies !blocked(b.cells_view(), i, d) by {
        assert(naked_at(b.cells_view(), b.cands_view(), i));
    }
    assert forall|s: Seq<u8>| completes(s, b.cells_view()) implies #[trigger] fits(s, b.cells_view(), b.cands_view()) by {
        assert forall|i: int| 0 <= i < 81 && #[trigger] b.cells_view()[i] == 0 implies mask_has(b.cands_view()[i], s[i]) by {
            assert(naked_at(b.cells_view(), b.cands_view(), i));
            lemma_completion_candidate(s, b.cells_view(), b.cands_view(), i);
        }
    }
}

/// Placing a digit keeps every fitting completion that holds that digit there.
pub proof fn lemma_place_fits_any(o: Board, n: Board, i: int, d: u8, s: Seq<u8>)
    requires
        o.wf(),
        0 <= i < 81,
        1 <= d <= 9,
        o.cells_view()[i] == 0,
        fits(s, o.cells_view(), o.cands_view()),
        s[i] == d,
        n.cells_view() == o.cells_view().update(i, d),
        forall|j: int| 0 <= j < 81 && j != i ==> #[trigger] n.cands_view()[j] == if crate::grid::is_peer(i, j) {
            o.cands_view()[j] & !(1u16 << ((d - 1) as u16))
        } else {
            o.cands_view()[j]
        },
    ensures
        fits(s, n.cells_view(), n.cands_view()),
{
    assert forall|j: int| 0 <= j < 81 && #[trigger] n.cells_view()[j] == 0 implies mask_has(n.cands_view()[j], s[j]) by {
        assert(j != i);
        assert(o.cells_view()[j] == 0);
        if crate::grid::is_peer(i, j) {
            assert(1 <= s[j] <= 9);
            crate::grid::lemma_mask_remove(o.cands_view()[j], d, s[j]);
            assert(crate::grid::no_conflict_at(s, j));
            assert(crate::grid::is_peer(j, i));
            if s[j] == d {
                assert(blocked(s, j, s[j]));
            }
        }
    }
}

/// Placing a candidate digit on a board within the naked candidates keeps it
/// so, keeps its grid conflict-free, and keeps every fitting completion that
/// holds the digit there.
pub proof fn lemma_place_fits(o: Board, n: Board, i: int, d: u8)
    requires
        o.wf(),
        n.wf(),
        0 <= i < 81,
        1 <= d <= 9,
        o.cells_view()[i] == 0,
        mask_has(o.cands_view()[i], d),
        sub_naked(o.cells_view(), o.cands_view()),
        n.cells_view() == o.cells_view().update(i, d),
        n.cands_view()[i] == 0,
        forall|j: int| 0 <= j < 81 && j != i ==> #[trigger] n.cands_view()[j] == if crate::grid::is_peer(i, j) {
            o.cands_view()[j] & !(1u16 << ((d - 1) as u16))
        } else {
            o.cands_view()[j]
        },
    ensures
        sub_naked(n.cells_view(), n.cands_view()),
        conflict_free(o.cells_view()) ==> conflict_free(n.cells_view()),
        forall|s: Seq<u8>| #[trigger] fits(s, o.cells_view(), o.cands_view()) && s[i] == d ==> fits(s, n.cells_view(), n.cands_view()),
{
    let oc = o.cells_view();
    let nc = n.cells_view();
    assert(!blocked(oc, i, d));
    assert forall|j: int, e: u8| 0 <= j < 81 && 1 <= e <= 9 && nc[j] == 0 && #[trigger] mask_has(n.cands_view()[j], e)
        implies !blocked(nc, j, e) by {
        assert(j != i);
        let peer = crate::grid::is_peer(i, j);
        if peer {
            crate::grid::lemma_mask_remove(o.cands_view()[j], d, e);
        }
        assert(mask_has(o.cands_view()[j], e));
        assert(!blocked(oc, j, e));
        if blocked(nc, j, e) {
            let k = choose|k: int| 0 <= k < 81 && #[trigger] crate::grid::is_peer(j, k) && nc[k] == e;
            if k == i {
                assert(crate::grid::is_peer(i, j));
            } else {
                assert(blocked(oc, j, e));
            }
        }
    }
    if conflict_free(oc) {
        assert forall|q: int| 0 <= q < 81 implies #[trigger] crate::grid::no_conflict_at(nc, q) by {
            assert(crate::grid::no_conflict_at(oc, q));
            if nc[q] != 0 && blocked(nc, q, nc[q]) {
                let j = choose|j: int| 0 <= j < 81 && #[trigger] crate::grid::is_peer(q, j) && nc[j] == nc[q];
                if q == i {
                    assert(oc[j] == d);
                    assert(blocked(oc, i, d));
                } else if j == i {
                    assert(crate::grid::is_peer(i, q) && oc[q] == d);
                    assert(blocked(oc, i, d));
                } else {
                    assert(blocked(oc, q, oc[q]));
                }
            }
        }
    }
    assert forall|s: Seq<u8>| #[trigger] fits(s, oc, o.cands_view()) && s[i] == d implies fits(s, nc, n.cands_view()) by {
        assert forall|j: int| 0 <= j < 81 && #[trigger] nc[j] != 0 implies s[j] == nc[j] by {
            if j != i {
                assert(oc[j] != 0);
            }
        }
        assert forall|j: int| 0 <= j < 81 && #[trigger] nc[j] == 0 implies mask_has(n.cands_view()[j], s[j]) by {
            assert(oc[j] == 0 && j != i);
            assert(mask_has(o.cands_view()[j], s[j]));
            if crate::grid::is_peer(i, j) {
                assert(1 <= s[j] <= 9);
                crate::grid::lemma_mask_remove(o.cands_view()[j], d, s[j]);
                assert(crate::grid::no_conflict_at(s, j));
                if s[j] == d {
                    assert(crate::grid::is_peer(j, i));
                    assert(blocked(s, j, s[j]));
                }
            }
        }
    }
}

/// Board `n` is board `o` narrowed: more cells filled, each new digit one of
/// `o`'s candidates there, and the masks of cells still empty within `o`'s.
pub open spec fn narrows(n: Board, o: Board) -> bool {
    &&& extends(n, o)
    &&& forall|j: int, e: u8|
        0 <= j < 81 && 1 <= e <= 9 && o.cells_view()[j] == 0 && n.cells_view()[j] == 0 && #[trigger] mask_has(n.cands_view()[j], e)
            ==> mask_has(o.cands_view()[j], e)
    &&& forall|j: int| 0 <= j < 81 && o.cells_view()[j] == 0 && #[trigger] n.cells_view()[j] != 0 ==> mask_has(
        o.cands_view()[j],
        n.cells_view()[j],
    )
}

/// Narrowing is reflexive and transitive.
pub proof fn lemma_narrows_trans(a: Board, b: Board, c: Board)
    requires
        c.wf(),
    ensures
        narrows(a, a),
        narrows(c, b) && narrows(b, a) ==> narrows(c, a),
{
    if narrows(c, b) && narrows(b, a) {
        assert forall|j: int| 0 <= j < 81 && a.cells_view()[j] == 0 && #[trigger] c.cells_view()[j] != 0 implies mask_has(
            a.cands_view()[j],
            c.cells_view()[j],
        ) by {
            if b.cells_view()[j] != 0 {
                assert(c.cells_view()[j] == b.cells_view()[j]);
            } else {
                assert(mask_has(b.cands_view()[j], c.cells_view()[j]));
                assert(1 <= c.cells_view()[j] <= 9);
            }
        }
    }
}

/// A completion fitting a narrowed board fits the board it narrows.
pub proof fn lemma_fits_back(s: Seq<u8>, n: Board, o: Board)
    requires
        narrows(n, o),
        fits(s, n.cells_view(), n.cands_view()),
    ensures
        fits(s, o.cells_view(), o.cands_view()),
{
    assert forall|j: int| 0 <= j < 81 && #[trigger] o.cells_view()[j] != 0 implies s[j] == o.cells_view()[j] by {
        assert(n.cells_view()[j] == o.cells_view()[j]);
    }
    assert forall|j: int| 0 <= j < 81 && #[trigger] o.cells_view()[j] == 0 implies mask_has(o.cands_view()[j], s[j]) by {
        if n.cells_view()[j] != 0 {
            assert(mask_has(o.cands_view()[j], n.cells_view()[j]));
        } else {
            assert(mask_has(n.cands_view()[j], s[j]));
        }
    }
}

/// Placing a candidate digit narrows the board.
pub proof fn lemma_place_narrows(o: Board, n: Board, i: int, d: u8)
    requires
        o.wf(),
        0 <= i < 81,
        1 <= d <= 9,
        o.cells_view()[i] == 0,
        mask_has(o.cands_view()[i], d),
        n.cells_view() == o.cells_view().update(i, d),
        forall|j: int| 0 <= j < 81 && j != i ==> #[trigger] n.cands_view()[j] == if crate::grid::is_peer(i, j) {
            o.cands_view()[j] & !(1u16 << ((d - 1) as u16))
        } else {
            o.cands_view()[j]
        },
    ensures
        narrows(n, o),
{
    assert forall|j: int, e: u8|
        0 <= j < 81 && 1 <= e <= 9 && o.cells_view()[j] == 0 && n.cells_view()[j] == 0 && #[trigger] mask_has(n.cands_view()[j], e)
        implies mask_has(o.cands_view()[j], e) by {
        assert(j != i);
        assert(n.cands_view()[j] == if crate::grid::is_peer(i, j) {
            o.cands_view()[j] & !(1u16 << ((d - 1) as u16))
        } else {
            o.cands_view()[j]
        });
        if crate::grid::is_peer(i, j) {
            crate::grid::lemma_mask_remove(o.cands_view()[j], d, e);
        }
    }
    assert forall|j: int| 0 <= j < 81 && o.cells_view()[j] == 0 && #[trigger] n.cells_view()[j] != 0 implies mask_has(
        o.cands_view()[j],
        n.cells_view()[j],
    ) by {
        assert(j == i);
    }
    assert(extends(n, o));
}

/// A digit with one candidate cell in a unit of a board within the naked
/// candidates sits there in every fitting completion.
pub proof fn lemma_hidden_fits(s: Seq<u8>, cells: Seq<u8>, cands: Seq<u16>, u: int, d: u8, c: int)
    requires
        fits(s, cells, cands),
        sub_naked(cells, cands),
        cells.len() == 81,
        cands.len() == 81,
        0 <= u < 27,
        1 <= d <= 9,
        0 <= c < 81,
        cells[c] == 0,
        mask_has(cands[c], d),
        exists|q: int| 0 <= q < 9 && unit_cell(u, q) == c,
        forall|q: int| 0 <= q < 9 && #[trigger] cells[unit_cell(u, q)] == 0 && mask_has(cands[unit_cell(u, q)], d) ==> unit_cell(
            u,
            q,
        ) == c,
    ensures
        s[c] == d,
{
    lemma_unit_has_digit(s, u, d);
    let k = choose|k: int| 0 <= k < 9 && s[unit_cell(u, k)] == d;
    let kc = choose|q: int| 0 <= q < 9 && unit_cell(u, q) == c;
    let c2 = unit_cell(u, k);
    lemma_unit_cell_bound(u, k);
    if c2 != c {
        lemma_unit_peers(u, kc, k);
        if cells[c2] != 0 {
            assert(cells[c2] == d);
            assert(blocked(cells, c, d));
        } else {
            assert(mask_has(cands[c2], d));
            assert(cells[unit_cell(u, k)] == 0);
        }
    }
}

/// The single digit of a mask, when its low nine bits hold exactly one.
fn lone_digit(m: u16) -> (r: Option<u8>)
    ensures
        r is Some <==> ones16(m & 0x1FF) == 1,
        r matches Some(d) ==> 1 <= d <= 9 && mask_has(m, d),
        r matches Some(d) ==> forall|e: u8| 1 <= e <= 9 && #[trigger] mask_has(m, e) ==> e == d,
{
    if popcount(m) != 1 {
        return None;
    }
    let m9 = m & 0x1FF;
    proof {
        crate::grid::lemma_and_all9(m);
        if m9 == 0 {
            assert(ones16(m9) == 0);
        }
        vstd::std_specs::bits::axiom_u16_trailing_zeros(m9);
        if m9.trailing_zeros() >= 9 {
            crate::bits::lemma_bit16_low9(m9, m9.trailing_zeros() as u16);
        }
    }
    let d = (m9.trailing_zeros() + 1) as u8;
    proof {
        assert(mask_has(m9, d));
        assert forall|e: u8| 1 <= e <= 9 && #[trigger] mask_has(m, e) implies e == d by {
            crate::bits::lemma_bit16_and(m, 0x1FF, (e - 1) as u16);
            crate::bits::lemma_bit16_all9((e - 1) as u16);
            crate::grid::lemma_ones16_single(m9, (e - 1) as u16, (d - 1) as u16);
        }
        crate::bits::lemma_bit16_and(m, 0x1FF, (d - 1) as u16);
    }
    Some(d)
}

/// Place every naked single (an empty cell with exactly one candidate), in cell
/// order, re-reading each cell's candidates. Returns whether any was placed.
pub fn naked_singles(b: &mut Board) -> (changed: bool)
    requires
        old(b).wf(),
    ensures
        final(b).wf(),
        old(b).is_naked() ==> final(b).is_naked(),
        old(b).is_naked() && conflict_free(old(b).cells_view()) ==> conflict_free(final(b).cells_view()),
        extends(*final(b), *old(b)),
        !changed ==> *final(b) == *old(b),
        changed ==> count_filled(final(b).cells_view()) > count_filled(old(b).cells_view()),
        old(b).is_naked() ==> forall|s: Seq<u8>| completes(s, old(b).cells_view()) ==> #[trigger] completes(s, final(b).cells_view()),
        sub_naked(old(b).cells_view(), old(b).cands_view()) ==> sub_naked(final(b).cells_view(), final(b).cands_view()),
        sub_naked(old(b).cells_view(), old(b).cands_view()) && conflict_free(old(b).cells_view()) ==> conflict_free(final(b).cells_view()),
        forall|s: Seq<u8>| fits(s, old(b).cells_view(), old(b).cands_view()) ==> #[trigger] fits(
            s,
            final(b).cells_view(),
            final(b).cands_view(),
        ),
        narrows(*final(b), *old(b)),
        !changed ==> forall|j: int| 0 <= j < 81 && #[trigger] old(b).cells_view()[j] == 0 ==> ones16(old(b).cands_view()[j] & 0x1FF)
            != 1,
{
    proof {
        lemma_narrows_trans(*b, *b, *b);
    }
    let mut changed = false;
    let mut cell: usize = 0;
    while cell < CELLS
        invariant
            0 <= cell <= 81,
            b.wf(),
            old(b).is_naked() ==> b.is_naked(),
            old(b).is_naked() && conflict_free(old(b).cells_view()) ==> conflict_free(b.cells_view()),
            extends(*b, *old(b)),
            !changed ==> *b == *old(b),
            changed ==> count_filled(b.cells_view()) > count_filled(old(b).cells_view()),
            count_filled(b.cells_view()) >= count_filled(old(b).cells_view()),
            old(b).is_naked() ==> forall|s: Seq<u8>| completes(s, old(b).cells_view()) ==> #[trigger] completes(s, b.cells_view()),
            sub_naked(old(b).cells_view(), old(b).cands_view()) ==> sub_naked(b.cells_view(), b.cands_view()),
            sub_naked(old(b).cells_view(), old(b).cands_view()) && conflict_free(old(b).cells_view()) ==> conflict_free(b.cells_view()),
            forall|s: Seq<u8>| fits(s, old(b).cells_view(), old(b).cands_view()) ==> #[trigger] fits(s, b.cells_view(), b.cands_view()),
            narrows(*b, *old(b)),
            !changed ==> forall|j: int| 0 <= j < cell && #[trigger] b.cells_view()[j] == 0 ==> ones16(b.cands_view()[j] & 0x1FF) != 1,
        decreases 81 - cell,
    {
        if b.is_empty(cell) {
            let m = b.candidates(cell);
            match lone_digit(m) {
                Some(d) => {
                    let ghost c0 = b.cells_view();
                    let ghost k0 = b.cands_view();
                    proof {
                        if old(b).is_naked() && conflict_free(old(b).cells_view()) {
                            lemma_place_conflict_free(c0, b.cands_view(), cell as int, d);
                        }
                    }
                    let ghost b0 = *b;
                    b.place(cell, d);
                    proof {
                        lemma_place_narrows(b0, *b, cell as int, d);
                        lemma_narrows_trans(*old(b), b0, *b);
                        if sub_naked(old(b).cells_view(), old(b).cands_view()) {
                            lemma_place_fits(b0, *b, cell as int, d);
                        }
                        assert forall|s: Seq<u8>| fits(s, old(b).cells_view(), old(b).cands_view())
                            implies #[trigger] fits(s, b.cells_view(), b.cands_view()) by {
                            assert(fits(s, b0.cells_view(), b0.cands_view()));
                            assert(mask_has(k0[cell as int], s[cell as int]));
                            assert(1 <= s[cell as int] <= 9);
                            lemma_place_fits_any(b0, *b, cell as int, d, s);
                        }
                        lemma_count_filled_update(c0, cell as int, d);
                        if old(b).is_naked() {
                            assert forall|s: Seq<u8>| completes(s, old(b).cells_view()) implies #[trigger] completes(
                                s,
                                b.cells_view(),
                            ) by {
                                assert(completes(s, c0));
                                assert(naked_at(c0, k0, cell as int));
                                lemma_completion_candidate(s, c0, k0, cell as int);
                                assert(s[cell as int] == d);
                            }
                        }
                    }
                    changed = true;
                },
                None => {},
            }
        }
        cell += 1;
    }
    changed
}

/// Digit `d` has exactly one empty candidate cell in unit `u` of board `b`.
pub open spec fn hidden_at(b: Board, u: int, d: u8) -> bool {
    exists|c: int|
        #![trigger b.cells_view()[c]]
        (exists|q: int| 0 <= q < 9 && unit_cell(u, q) == c) && b.cells_view()[c] == 0 && mask_has(b.cands_view()[c], d) && forall|
            q: int,
        | 0 <= q < 9 && #[trigger] b.cells_view()[unit_cell(u, q)] == 0 && mask_has(b.cands_view()[unit_cell(u, q)], d) ==> unit_cell(
            u,
            q,
        ) == c
}

/// A digit with two empty candidate cells in a unit, or none, is no hidden
/// single there.
proof fn lemma_not_hidden(b: Board, u: int, d: u8)
    requires
        0 <= u < 27,
        (exists|q1: int, q2: int| 0 <= q1 < q2 < 9 && #[trigger] b.cells_view()[unit_cell(u, q1)] == 0 && mask_has(
            b.cands_view()[unit_cell(u, q1)],
            d,
        ) && #[trigger] b.cells_view()[unit_cell(u, q2)] == 0 && mask_has(b.cands_view()[unit_cell(u, q2)], d)) || (forall|q: int|
            0 <= q < 9 ==> !(#[trigger] b.cells_view()[unit_cell(u, q)] == 0 && mask_has(b.cands_view()[unit_cell(u, q)], d))),
    ensures
        !hidden_at(b, u, d),
{
    if hidden_at(b, u, d) {
        let hc = choose|c: int|
            #![trigger b.cells_view()[c]]
            (exists|q: int| 0 <= q < 9 && unit_cell(u, q) == c) && b.cells_view()[c] == 0 && mask_has(b.cands_view()[c], d) && forall|
                q: int,
            | 0 <= q < 9 && #[trigger] b.cells_view()[unit_cell(u, q)] == 0 && mask_has(b.cands_view()[unit_cell(u, q)], d)
                ==> unit_cell(u, q) == c;
        let qc = choose|q: int| 0 <= q < 9 && unit_cell(u, q) == hc;
        if exists|q1: int, q2: int| 0 <= q1 < q2 < 9 && #[trigger] b.cells_view()[unit_cell(u, q1)] == 0 && mask_has(
            b.cands_view()[unit_cell(u, q1)],
            d,
        ) && #[trigger] b.cells_view()[unit_cell(u, q2)] == 0 && mask_has(b.cands_view()[unit_cell(u, q2)], d) {
            let (q1, q2) = choose|q1: int, q2: int| 0 <= q1 < q2 < 9 && #[trigger] b.cells_view()[unit_cell(u, q1)] == 0 && mask_has(
                b.cands_view()[unit_cell(u, q1)],
                d,
            ) && #[trigger] b.cells_view()[unit_cell(u, q2)] == 0 && mask_has(b.cands_view()[unit_cell(u, q2)], d);
            lemma_unit_peers(u, q1, q2);
        } else {
            assert(b.cells_view()[unit_cell(u, qc)] == 0);
        }
    }
}

/// Place every hidden single (a digit with exactly one candidate cell in a
/// unit), unit by unit and digit by digit. Returns whether any was placed.
pub fn hidden_singles(b: &mut Board) -> (changed: bool)
    requires
        old(b).wf(),
    ensures
        final(b).wf(),
        old(b).is_naked() ==> final(b).is_naked(),
        old(b).is_naked() && conflict_free(old(b).cells_view()) ==> conflict_free(final(b).cells_view()),
        extends(*final(b), *old(b)),
        !changed ==> *final(b) == *old(b),
        changed ==> count_filled(final(b).cells_view()) > count_filled(old(b).cells_view()),
        old(b).is_naked() ==> forall|s: Seq<u8>| completes(s, old(b).cells_view()) ==> #[trigger] completes(s, final(b).cells_view()),
        sub_naked(old(b).cells_view(), old(b).cands_view()) ==> sub_naked(final(b).cells_view(), final(b).cands_view()),
        sub_naked(old(b).cells_view(), old(b).cands_view()) && conflict_free(old(b).cells_view()) ==> conflict_free(final(b).cells_view()),
        sub_naked(old(b).cells_view(), old(b).cands_view()) ==> forall|s: Seq<u8>| fits(s, old(b).cells_view(), old(b).cands_view())
            ==> #[trigger] fits(s, final(b).cells_view(), final(b).cands_view()),
        narrows(*final(b), *old(b)),
        !changed ==> forall|u: int, d: u8| 0 <= u < 27 && 1 <= d <= 9 ==> !#[trigger] hidden_at(*old(b), u, d),
{
    proof {
        lemma_narrows_trans(*b, *b, *b);
    }
    let units = all_units();
    let mut changed = false;
    let mut u: usize = 0;
    while u < 27
        invariant
            0 <= u <= 27,
            units@.len() == 27,
            forall|x: int, k: int| 0 <= x < 27 && 0 <= k < 9 ==> #[trigger] units@[x].2[k] == unit_cell(x, k),
            b.wf(),
            old(b).is_naked() ==> b.is_naked(),
            old(b).is_naked() && conflict_free(old(b).cells_view()) ==> conflict_free(b.cells_view()),
            extends(*b, *old(b)),
            !changed ==> *b == *old(b),
            changed ==> count_filled(b.cells_view()) > count_filled(old(b).cells_view()),
            count_filled(b.cells_view()) >= count_filled(old(b).cells_view()),
            old(b).is_naked() ==> forall|s: Seq<u8>| completes(s, old(b).cells_view()) ==> #[trigger] completes(s, b.cells_view()),
            sub_naked(old(b).cells_view(), old(b).cands_view()) ==> sub_naked(b.cells_view(), b.cands_view()),
            sub_naked(old(b).cells_view(), old(b).cands_view()) && conflict_free(old(b).cells_view()) ==> conflict_free(b.cells_view()),
            sub_naked(old(b).cells_view(), old(b).cands_view()) ==> forall|s: Seq<u8>| fits(s, old(b).cells_view(), old(b).cands_view())
                ==> #[trigger] fits(s, b.cells_view(), b.cands_view()),
            narrows(*b, *old(b)),
            !changed ==> forall|v: int, e: u8| 0 <= v < u && 1 <= e <= 9 ==> !#[trigger] hidden_at(*b, v, e),
        decreases 27 - u,
    {
        let cells = units[u].2;
        let mut d: u8 = 1;
        while d <= 9
            invariant
                1 <= d <= 10,
                u < 27,
                forall|k: int| 0 <= k < 9 ==> #[trigger] cells[k] == unit_cell(u as int, k),
                b.wf(),
                old(b).is_naked() ==> b.is_naked(),
                old(b).is_naked() && conflict_free(old(b).cells_view()) ==> conflict_free(b.cells_view()),
                extends(*b, *old(b)),
                !changed ==> *b == *old(b),
                changed ==> count_filled(b.cells_view()) > count_filled(old(b).cells_view()),
                count_filled(b.cells_view()) >= count_filled(old(b).cells_view()),
                old(b).is_naked() ==> forall|s: Seq<u8>| completes(s, old(b).cells_view()) ==> #[trigger] completes(s, b.cells_view()),
                sub_naked(old(b).cells_view(), old(b).cands_view()) ==> sub_naked(b.cells_view(), b.cands_view()),
                sub_naked(old(b).cells_view(), old(b).cands_view()) && conflict_free(old(b).cells_view()) ==> conflict_free(b.cells_view()),
                sub_naked(old(b).cells_view(), old(b).cands_view()) ==> forall|s: Seq<u8>| fits(s, old(b).cells_view(), old(b).cands_view())
                    ==> #[trigger] fits(s, b.cells_view(), b.cands_view()),
                narrows(*b, *old(b)),
                !changed ==> forall|v: int, e: u8| 0 <= v < u && 1 <= e <= 9 ==> !#[trigger] hidden_at(*b, v, e),
                !changed ==> forall|e: u8| 1 <= e < d ==> !#[trigger] hidden_at(*b, u as int, e),
            decreases 10 - d,
        {
            let mut only: Option<usize> = None;
            let mut two = false;
            let mut k: usize = 0;
            while k < 9
                invariant
                    0 <= k <= 9,
                    u < 27,
                    1 <= d <= 9,
                    forall|q: int| 0 <= q < 9 ==> #[trigger] cells[q] == unit_cell(u as int, q),
                    b.wf(),
                    only matches Some(c) ==> c < 81 && b.cells_view()[c as int] == 0 && mask_has(b.cands_view()[c as int], d),
                    two ==> only is None,
                    two ==> exists|q1: int, q2: int| 0 <= q1 < q2 < k && #[trigger] b.cells_view()[unit_cell(u as int, q1)] == 0
                        && mask_has(b.cands_view()[unit_cell(u as int, q1)], d) && #[trigger] b.cells_view()[unit_cell(u as int, q2)] == 0
                        && mask_has(b.cands_view()[unit_cell(u as int, q2)], d),
                    only matches Some(c) ==> exists|q: int| 0 <= q < k && unit_cell(u as int, q) == c,
                    only matches Some(c) ==> exists|q: int| 0 <= q < 9 && unit_cell(u as int, q) == c,
                    !two ==> forall|q: int| 0 <= q < k && #[trigger] b.cells_view()[unit_cell(u as int, q)] == 0 && mask_has(
                        b.cands_view()[unit_cell(u as int, q)],
                        d,
                    ) ==> only == Some(unit_cell(u as int, q) as usize),
                decreases 9 - k,
            {
                let c = cells[k];
                proof {
                    lemma_unit_cell_bound(u as int, k as int);
                }
                let m = b.candidates(c);
                proof {
                    crate::grid::lemma_mask_test(m, d);
                }
                if b.is_empty(c) && m & (1u16 << ((d - 1) as u16)) != 0 {
                    if only.is_some() || two {
                        proof {
                            if !two {
                                let oc = only.unwrap();
                                let q1 = choose|q: int| 0 <= q < k && unit_cell(u as int, q) == oc;
                                assert(b.cells_view()[unit_cell(u as int, q1)] == 0);
                                assert(b.cells_view()[unit_cell(u as int, k as int)] == 0);
                            }
                        }
                        only = None;
                        two = true;
                    } else {
                        only = Some(c);
                        assert(unit_cell(u as int, k as int) == c);
                    }
                }
                k += 1;
            }
            if let Some(c) = only {
                let ghost c0 = b.cells_view();
                let ghost k0 = b.cands_view();
                proof {
                    if old(b).is_naked() && conflict_free(old(b).cells_view()) {
                        lemma_place_conflict_free(c0, b.cands_view(), c as int, d);
                    }
                }
                let ghost b0 = *b;
                b.place(c, d);
                proof {
                    lemma_place_narrows(b0, *b, c as int, d);
                    lemma_narrows_trans(*old(b), b0, *b);
                    if sub_naked(old(b).cells_view(), old(b).cands_view()) {
                        lemma_place_fits(b0, *b, c as int, d);
                        assert forall|s: Seq<u8>| fits(s, old(b).cells_view(), old(b).cands_view())
                            implies #[trigger] fits(s, b.cells_view(), b.cands_view()) by {
                            assert(fits(s, b0.cells_view(), b0.cands_view()));
                            lemma_hidden_fits(s, c0, k0, u as int, d, c as int);
                        }
                    }
                    lemma_count_filled_update(c0, c as int, d);
                    if old(b).is_naked() {
                        assert forall|s: Seq<u8>| completes(s, old(b).cells_view()) implies #[trigger] completes(
                            s,
                            b.cells_view(),
                        ) by {
                            assert(completes(s, c0));
                            lemma_hidden_forced(s, c0, k0, u as int, d, c as int);
                        }
                    }
                }
                changed = true;
            } else {
                proof {
                    if !changed {
                        if !two {
                            assert forall|q: int| 0 <= q < 9 implies !(#[trigger] b.cells_view()[unit_cell(u as int, q)] == 0 && mask_has(
                                b.cands_view()[unit_cell(u as int, q)],
                                d,
                            )) by {}
                        }
                        lemma_not_hidden(*b, u as int, d);
                    }
                }
            }
            d += 1;
        }
        u += 1;
    }
    changed
}


/// A digit with one candidate cell in a unit of a naked board sits there in
/// every completion.
pub proof fn lemma_hidden_forced(s: Seq<u8>, cells: Seq<u8>, cands: Seq<u16>, u: int, d: u8, c: int)
    requires
        completes(s, cells),
        cells.len() == 81,
        cands.len() == 81,
        forall|i: int| 0 <= i < 81 ==> naked_at(cells, cands, i),
        0 <= u < 27,
        1 <= d <= 9,
        0 <= c < 81,
        cells[c] == 0,
        mask_has(cands[c], d),
        exists|q: int| 0 <= q < 9 && unit_cell(u, q) == c,
        forall|q: int| 0 <= q < 9 && #[trigger] cells[unit_cell(u, q)] == 0 && mask_has(cands[unit_cell(u, q)], d) ==> unit_cell(
            u,
            q,
        ) == c,
    ensures
        s[c] == d,
{
    lemma_unit_has_digit(s, u, d);
    let k = choose|k: int| 0 <= k < 9 && s[unit_cell(u, k)] == d;
    let kc = choose|q: int| 0 <= q < 9 && unit_cell(u, q) == c;
    let c2 = unit_cell(u, k);
    lemma_unit_cell_bound(u, k);
    if c2 != c {
        lemma_unit_peers(u, kc, k);
        if cells[c2] != 0 {
            assert(cells[c2] == d);
            assert(blocked(cells, c, d));
            assert(naked_at(cells, cands, c));
        } else {
            assert(naked_at(cells, cands, c2));
            lemma_completion_candidate(s, cells, cands, c2);
            assert(mask_has(cands[c2], d));
            assert(cells[unit_cell(u, k)] == 0);
        }
    }
}

} // verus!
