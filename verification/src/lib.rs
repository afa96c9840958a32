//! Spec-driven sudoku puzzle generation: a random full grid is stripped clue by
//! clue while the puzzle stays uniquely solvable and solvable by the spec's
//! baseline toolbox, and a puzzle is kept when that toolbox needed the spec's
//! forced techniques.

use vstd::prelude::*;
use crate::kinds::{NUM, HIDDEN_QUAD, Tier, tier_of, branch_of, difficulty, tier_spec, tier_rank_spec, branch_spec, difficulty_spec};
use crate::spec::{
    Spec, Status, train_status, drill_status, train_union_status, drill_union_status, in_train_scope, drill_concedes,
};

pub mod bits;
pub mod grid;
pub mod layout;
pub mod bb;
pub mod text;
pub mod kinds;
pub mod spec;
pub mod cli;
pub mod generator;
pub mod rng;
pub mod fingerprint;
pub mod fill;
pub mod generate;
pub mod probe;
pub mod pelanek;
pub mod grade;
pub mod ua;
pub mod clock;
pub mod harvest;

verus! {

/// The subset-branch bench spec for `mode`: 0 trains hidden quads, anything else
/// drills them.
pub fn subset_spec_for_mode(mode: u32) -> (s: Spec)
    ensures
        forall|k: int| 0 <= k < 16 ==> #[trigger] s.status_of(k) == if mode == 0 {
            train_status(HIDDEN_QUAD as int, k)
        } else {
            drill_status(HIDDEN_QUAD as int, k)
        },
        s.need_of(HIDDEN_QUAD as int) == 1,
{
    if mode == 0 {
        Spec::train(HIDDEN_QUAD)
    } else {
        Spec::drill(HIDDEN_QUAD)
    }
}

/// A train (or, with `drill`, drill) spec for target kind `target`.
pub fn expert_spec(target: usize, drill: bool) -> (s: Spec)
    requires
        target < NUM,
    ensures
        forall|k: int| 0 <= k < 16 ==> #[trigger] s.status_of(k) == if drill {
            drill_status(target as int, k)
        } else {
            train_status(target as int, k)
        },
        s.need_of(target as int) == 1,
{
    if drill {
        Spec::drill(target)
    } else {
        Spec::train(target)
    }
}

/// Train-mode spec for a set of forced targets: a kind is Allowed iff it is in
/// some target's train scope, and every target is Forced once.
pub fn train_union(forces: &[usize]) -> (s: Spec)
    requires
        forall|i: int| 0 <= i < forces@.len() ==> #[trigger] forces@[i] < NUM,
    ensures
        forall|k: int| 0 <= k < 16 ==> #[trigger] s.status_of(k) == train_union_status(forces@, k),
        forall|k: int| 0 <= k < 16 && forces@.contains(k as usize) ==> #[trigger] s.need_of(k) == 1,
{
    let mut allowed = [false; 16];
    let mut i: usize = 0;
    while i < forces.len()
        invariant
            0 <= i <= forces@.len(),
            forall|q: int| 0 <= q < forces@.len() ==> #[trigger] forces@[q] < NUM,
            forall|k: int| 0 <= k < 16 ==> #[trigger] allowed[k] == exists|q: int| 0 <= q < i && #[trigger] in_train_scope(
                forces@[q] as int, k),
        decreases forces@.len() - i,
    {
        let target = forces[i];
        let tt = tier_of(target).rank();
        let tb = branch_of(target);
        let td = difficulty(target);
        let ghost a0 = allowed;
        let mut idx: usize = 0;
        while idx < NUM
            invariant
                0 <= idx <= 16,
                i < forces@.len(),
                target == forces@[i as int],
                target < 16,
                tt == tier_rank_spec(tier_spec(target as int)),
                tb == branch_spec(target as int),
                td == difficulty_spec(target as int),
                forall|k: int| 0 <= k < 16 ==> #[trigger] allowed[k] == (a0[k] || (k < idx && in_train_scope(target as int, k))),
            decreases 16 - idx,
        {
            let kt = tier_of(idx).rank();
            if kt <= tt {
                let ok = kt <= 1 || (branch_of(idx) == tb && difficulty(idx) <= td);
                allowed[idx] = allowed[idx] || ok;
            }
            idx += 1;
        }
        proof {
            assert forall|k: int| 0 <= k < 16 implies #[trigger] allowed[k] == exists|q: int| 0 <= q < i + 1
                && #[trigger] in_train_scope(forces@[q] as int, k) by {
                if allowed[k] && !a0[k] {
                    assert(in_train_scope(forces@[i as int] as int, k));
                }
                if exists|q: int| 0 <= q < i + 1 && #[trigger] in_train_scope(forces@[q] as int, k) {
                    let q = choose|q: int| 0 <= q < i + 1 && #[trigger] in_train_scope(forces@[q] as int, k);
                    if q < i {
                        assert(a0[k]);
                    }
                }
            }
        }
        i += 1;
    }
    let mut spec = Spec::explicit();
    let mut idx: usize = 0;
    while idx < NUM
        invariant
            0 <= idx <= 16,
            forall|k: int| 0 <= k < 16 ==> #[trigger] allowed[k] == exists|q: int| 0 <= q < forces@.len()
                && #[trigger] in_train_scope(forces@[q] as int, k),
            forall|k: int| 0 <= k < 16 ==> #[trigger] spec.status_of(k) == if k < idx && allowed[k] {
                Status::Allowed
            } else {
                Status::Excluded
            },
        decreases 16 - idx,
    {
        if allowed[idx] {
            spec = spec.allow(idx);
        }
        idx += 1;
    }
    let ghost s1 = spec;
    let mut i: usize = 0;
    while i < forces.len()
        invariant
            0 <= i <= forces@.len(),
            forall|q: int| 0 <= q < forces@.len() ==> #[trigger] forces@[q] < NUM,
            forall|k: int| 0 <= k < 16 ==> #[trigger] spec.status_of(k) == if forces@.take(i as int).contains(k as usize) {
                Status::Forced
            } else {
                s1.status_of(k)
            },
            forall|k: int| 0 <= k < 16 && forces@.take(i as int).contains(k as usize) ==> #[trigger] spec.need_of(k) == 1,
        decreases forces@.len() - i,
    {
        let t = forces[i];
        let ghost sp0 = spec;
        spec = spec.force(t, 1);
        proof {
            assert forall|k: int| 0 <= k < 16 implies #[trigger] forces@.take(i + 1).contains(k as usize) == (forces@.take(i as int).contains(
                k as usize) || k == t) by {
                assert(forces@.take(i + 1) =~= forces@.take(i as int).push(t));
                lemma_push_contains(forces@.take(i as int), t, k as usize);
            }
        }
        i += 1;
    }
    proof {
        assert(forces@.take(forces@.len() as int) =~= forces@);
        assert forall|k: int| 0 <= k < 16 implies #[trigger] spec.status_of(k) == train_union_status(forces@, k) by {
            assert(allowed[k] == exists|q: int| 0 <= q < forces@.len() && #[trigger] in_train_scope(forces@[q] as int, k));
        }
    }
    spec
}

/// Drill-mode spec for a set of forced targets: a kind is Allowed iff it is
/// below some target's tier, else Conceded iff some target's drill concedes it,
/// and every target is Forced once.
pub fn drill_union(forces: &[usize]) -> (s: Spec)
    requires
        forall|i: int| 0 <= i < forces@.len() ==> #[trigger] forces@[i] < NUM,
    ensures
        forall|k: int| 0 <= k < 16 ==> #[trigger] s.status_of(k) == drill_union_status(forces@, k),
        forall|k: int| 0 <= k < 16 && forces@.contains(k as usize) ==> #[trigger] s.need_of(k) == 1,
{
    let mut allowed = [false; 16];
    let mut conceded = [false; 16];
    let mut i: usize = 0;
    while i < forces.len()
        invariant
            0 <= i <= forces@.len(),
            forall|q: int| 0 <= q < forces@.len() ==> #[trigger] forces@[q] < NUM,
            forall|k: int| 0 <= k < 16 ==> #[trigger] allowed[k] == (!forces@.contains(k as usize) && exists|q: int| 0 <= q < i
                && tier_rank_spec(tier_spec(k)) < #[trigger] tier_rank_spec(tier_spec(forces@[q] as int))),
            forall|k: int| 0 <= k < 16 ==> #[trigger] conceded[k] == (!forces@.contains(k as usize) && exists|q: int| 0 <= q < i
                && #[trigger] drill_concedes(forces@[q] as int, k)),
        decreases forces@.len() - i,
    {
        let t = forces[i];
        let ttier = tier_of(t);
        let tt = ttier.rank();
        let tb = branch_of(t);
        let td = difficulty(t);
        let ghost (a0, c0) = (allowed, conceded);
        let mut idx: usize = 0;
        while idx < NUM
            invariant
                0 <= idx <= 16,
                i < forces@.len(),
                t == forces@[i as int],
                t < 16,
                forall|q: int| 0 <= q < forces@.len() ==> #[trigger] forces@[q] < NUM,
                ttier == tier_spec(t as int),
                tt == tier_rank_spec(tier_spec(t as int)),
                tb == branch_spec(t as int),
                td == difficulty_spec(t as int),
                forall|k: int| 0 <= k < 16 ==> #[trigger] allowed[k] == (a0[k] || (k < idx && !forces@.contains(k as usize)
                    && tier_rank_spec(tier_spec(k)) < tt)),
                forall|k: int| 0 <= k < 16 ==> #[trigger] conceded[k] == (c0[k] || (k < idx && !forces@.contains(k as usize)
                    && drill_concedes(t as int, k))),
            decreases 16 - idx,
        {
            if !contains_kind(forces, idx) {
                let kt = tier_of(idx).rank();
                if kt < tt {
                    allowed[idx] = true;
                } else if kt == tt {
                    let concede = match ttier {
                        Tier::Beginner => false,
                        Tier::Intermediate => true,
                        _ => branch_of(idx) == tb && difficulty(idx) < td,
                    };
                    conceded[idx] = conceded[idx] || concede;
                }
            }
            idx += 1;
        }
        proof {
            assert forall|k: int| 0 <= k < 16 implies #[trigger] allowed[k] == (!forces@.contains(k as usize) && exists|q: int| 0
                <= q < i + 1 && tier_rank_spec(tier_spec(k)) < #[trigger] tier_rank_spec(tier_spec(forces@[q] as int))) by {
                if allowed[k] && !a0[k] {
                    assert(tier_rank_spec(tier_spec(k)) < tier_rank_spec(tier_spec(forces@[i as int] as int)));
                }
                if exists|q: int| 0 <= q < i + 1 && tier_rank_spec(tier_spec(k)) < #[trigger] tier_rank_spec(tier_spec(forces@[q] as int)) {
                    let q = choose|q: int| 0 <= q < i + 1 && tier_rank_spec(tier_spec(k)) < #[trigger] tier_rank_spec(tier_spec(forces@[q] as int));
                    if q < i && !forces@.contains(k as usize) {
                        assert(a0[k]);
                    }
                }
            }
            assert forall|k: int| 0 <= k < 16 implies #[trigger] conceded[k] == (!forces@.contains(k as usize) && exists|q: int| 0
                <= q < i + 1 && #[trigger] drill_concedes(forces@[q] as int, k)) by {
                if conceded[k] && !c0[k] {
                    assert(drill_concedes(forces@[i as int] as int, k));
                }
                if exists|q: int| 0 <= q < i + 1 && #[trigger] drill_concedes(forces@[q] as int, k) {
                    let q = choose|q: int| 0 <= q < i + 1 && #[trigger] drill_concedes(forces@[q] as int, k);
                    if q < i && !forces@.contains(k as usize) {
                        assert(c0[k]);
                    }
                }
            }
        }
        i += 1;
    }
    let mut spec = Spec::explicit();
    let mut idx: usize = 0;
    while idx < NUM
        invariant
            0 <= idx <= 16,
            forall|k: int| 0 <= k < 16 ==> #[trigger] spec.status_of(k) == if k < idx && allowed[k] {
                Status::Allowed
            } else if k < idx && conceded[k] {
                Status::Conceded
            } else {
                Status::Excluded
            },
        decreases 16 - idx,
    {
        if allowed[idx] {
            spec = spec.allow(idx);
        } else if conceded[idx] {
            spec = spec.concede(idx);
        }
        idx += 1;
    }
    let ghost s1 = spec;
    let mut i: usize = 0;
    while i < forces.len()
        invariant
            0 <= i <= forces@.len(),
            forall|q: int| 0 <= q < forces@.len() ==> #[trigger] forces@[q] < NUM,
            forall|k: int| 0 <= k < 16 ==> #[trigger] spec.status_of(k) == if forces@.take(i as int).contains(k as usize) {
                Status::Forced
            } else {
                s1.status_of(k)
            },
            forall|k: int| 0 <= k < 16 && forces@.take(i as int).contains(k as usize) ==> #[trigger] spec.need_of(k) == 1,
        decreases forces@.len() - i,
    {
        let t = forces[i];
        spec = spec.force(t, 1);
        proof {
            assert forall|k: int| 0 <= k < 16 implies #[trigger] forces@.take(i + 1).contains(k as usize) == (forces@.take(i as int).contains(
                k as usize) || k == t) by {
                assert(forces@.take(i + 1) =~= forces@.take(i as int).push(t));
                lemma_push_contains(forces@.take(i as int), t, k as usize);
            }
        }
        i += 1;
    }
    proof {
        assert(forces@.take(forces@.len() as int) =~= forces@);
        assert forall|k: int| 0 <= k < 16 implies #[trigger] spec.status_of(k) == drill_union_status(forces@, k) by {
            assert(allowed[k] == (!forces@.contains(k as usize) && exists|q: int| 0 <= q < forces@.len() && tier_rank_spec(
                tier_spec(k)) < #[trigger] tier_rank_spec(tier_spec(forces@[q] as int))));
            assert(conceded[k] == (!forces@.contains(k as usize) && exists|q: int| 0 <= q < forces@.len()
                && #[trigger] drill_concedes(forces@[q] as int, k)));
        }
    }
    spec
}

/// A pushed sequence holds its old members and the new one.
pub proof fn lemma_push_contains(s: Seq<usize>, x: usize, y: usize)
    ensures
        s.push(x).contains(y) == (s.contains(y) || y == x),
{
    let p = s.push(x);
    if p.contains(y) {
        let i = choose|i: int| 0 <= i < p.len() && p[i] == y;
        if i < s.len() {
            assert(s[i] == y);
        }
    }
    if s.contains(y) {
        let i = choose|i: int| 0 <= i < s.len() && s[i] == y;
        assert(p[i] == y);
    }
    if y == x {
        assert(p[s.len() as int] == y);
    }
}

/// Whether `k` is one of `forces`.
fn contains_kind(forces: &[usize], k: usize) -> (r: bool)
    ensures
        r == forces@.contains(k),
{
    let mut i: usize = 0;
    while i < forces.len()
        invariant
            0 <= i <= forces@.len(),
            forall|q: int| 0 <= q < i ==> forces@[q] != k,
        decreases forces@.len() - i,
    {
        if forces[i] == k {
            return true;
        }
        i += 1;
    }
    false
}

/// A single target's union is its own spec: `train_union(&[t])` and
/// `drill_union(&[t])` give every kind the status `Spec::train(t)` and
/// `Spec::drill(t)` give it.
pub proof fn lemma_single_target_union(t: usize, k: int)
    requires
        t < NUM,
        0 <= k < 16,
    ensures
        train_union_status(seq![t], k) == train_status(t as int, k),
        drill_union_status(seq![t], k) == drill_status(t as int, k),
{
    let f = seq![t];
    assert(f[0] == t);
    assert(f.contains(k as usize) == (k == t)) by {
        if f.contains(k as usize) {
            let q = choose|q: int| 0 <= q < f.len() && f[q] == k as usize;
        }
        if k == t {
            assert(f[0] == k as usize);
        }
    }
    if k != t {
        if in_train_scope(t as int, k) {
            assert(in_train_scope(f[0] as int, k));
        }
        if tier_rank_spec(tier_spec(k)) < tier_rank_spec(tier_spec(t as int)) {
            assert(tier_rank_spec(tier_spec(k)) < tier_rank_spec(tier_spec(f[0] as int)));
        }
        if drill_concedes(t as int, k) {
            assert(drill_concedes(f[0] as int, k));
        }
        if drill_concedes(t as int, k) {
            assert(tier_spec(k) == tier_spec(t as int));
        }
    }
}

} // verus!
