//! Generation specs: for every kind, whether the baseline toolbox may use it
//! (Allowed), only the avoid-walk may (Conceded), the puzzle must need it a given
//! number of times (Forced), or it is out of scope (Excluded).

use vstd::prelude::*;
use crate::bits::{bit32, lemma_bit32_or, lemma_bit32_one, lemma_bit32_zero};
use crate::kinds::{
    NUM, Tier, Branch, tier_of, branch_of, difficulty, tier_spec, branch_spec, difficulty_spec, tier_rank_spec,
    KindMask,
};

verus! {

/// The role of one kind in a spec.
#[derive(Clone, Copy, PartialEq, Eq, Structural, Debug)]
pub enum Status {
    Excluded,
    Allowed,
    Conceded,
    Forced,
}

/// A generation spec: a [`Status`] per kind, plus the count each Forced kind must
/// reach in the baseline trace.
#[derive(Clone, Copy)]
pub struct Spec {
    status: [Status; 16],
    need: [u16; 16],
}

/// Kind `k` is in target `t`'s train scope: no harder tier than `t`, and either
/// on the trunk or a simpler-or-equal kind of `t`'s branch.
pub open spec fn in_train_scope(t: int, k: int) -> bool {
    &&& tier_rank_spec(tier_spec(k)) <= tier_rank_spec(tier_spec(t))
    &&& (tier_rank_spec(tier_spec(k)) <= 1 || (branch_spec(k) == branch_spec(t) && difficulty_spec(k)
        <= difficulty_spec(t)))
}

/// Target `t`'s drill concedes kind `k` of its own tier: every same-tier peer of
/// an Intermediate target, the simpler same-branch peers of an Expert or Master
/// target, nothing for a Beginner target.
pub open spec fn drill_concedes(t: int, k: int) -> bool {
    &&& tier_spec(k) == tier_spec(t)
    &&& match tier_spec(t) {
        Tier::Beginner => false,
        Tier::Intermediate => true,
        _ => branch_spec(k) == branch_spec(t) && difficulty_spec(k) < difficulty_spec(t),
    }
}

/// The status `Spec::train(t)` gives kind `k`.
pub open spec fn train_status(t: int, k: int) -> Status {
    if k == t {
        Status::Forced
    } else if in_train_scope(t, k) {
        Status::Allowed
    } else {
        Status::Excluded
    }
}

/// The status `Spec::drill(t)` gives kind `k`.
pub open spec fn drill_status(t: int, k: int) -> Status {
    if k == t {
        Status::Forced
    } else if tier_rank_spec(tier_spec(k)) < tier_rank_spec(tier_spec(t)) {
        Status::Allowed
    } else if drill_concedes(t, k) {
        Status::Conceded
    } else {
        Status::Excluded
    }
}

/// The status `train_union(forces)` gives kind `k`.
pub open spec fn train_union_status(forces: Seq<usize>, k: int) -> Status {
    if forces.contains(k as usize) {
        Status::Forced
    } else if exists|i: int| 0 <= i < forces.len() && #[trigger] in_train_scope(forces[i] as int, k) {
        Status::Allowed
    } else {
        Status::Excluded
    }
}

/// The status `drill_union(forces)` gives kind `k`: Allowed takes precedence
/// over Conceded.
pub open spec fn drill_union_status(forces: Seq<usize>, k: int) -> Status {
    if forces.contains(k as usize) {
        Status::Forced
    } else if exists|i: int| 0 <= i < forces.len() && tier_rank_spec(tier_spec(k)) < #[trigger] tier_rank_spec(
        tier_spec(forces[i] as int)) {
        Status::Allowed
    } else if exists|i: int| 0 <= i < forces.len() && #[trigger] drill_concedes(forces[i] as int, k) {
        Status::Conceded
    } else {
        Status::Excluded
    }
}

/// Baseline toolbox membership: Allowed or Forced.
pub open spec fn in_baseline(s: Status) -> bool {
    s == Status::Allowed || s == Status::Forced
}

/// Avoid-walk membership: anything but Excluded.
pub open spec fn in_scope(s: Status) -> bool {
    s != Status::Excluded
}

/// Forced membership.
pub open spec fn is_forced(s: Status) -> bool {
    s == Status::Forced
}

/// Membership selector `want`: 0 baseline, 1 scope, 2 forced.
pub open spec fn selects(want: u8, s: Status) -> bool {
    if want == 0 {
        in_baseline(s)
    } else if want == 1 {
        in_scope(s)
    } else {
        is_forced(s)
    }
}

impl Spec {
    /// The status of kind `k`.
    pub closed spec fn status_of(&self, k: int) -> Status {
        self.status[k]
    }

    /// The statuses of all kinds.
    pub closed spec fn statuses(&self) -> Seq<Status> {
        self.status@
    }

    /// The count Forced kind `k` must reach.
    pub closed spec fn need_of(&self, k: int) -> u16 {
        self.need[k]
    }

    /// The empty spec: every kind Excluded.
    pub fn explicit() -> (s: Spec)
        ensures
            forall|k: int| 0 <= k < 16 ==> #[trigger] s.status_of(k) == Status::Excluded && s.need_of(k) == 0,
    {
        Spec { status: [Status::Excluded; 16], need: [0u16; 16] }
    }

    /// The same spec with kind `idx` Allowed.
    pub fn allow(self, idx: usize) -> (s: Spec)
        requires
            idx < NUM,
        ensures
            forall|k: int| 0 <= k < 16 ==> #[trigger] s.status_of(k) == if k == idx {
                Status::Allowed
            } else {
                self.status_of(k)
            },
            forall|k: int| 0 <= k < 16 ==> #[trigger] s.need_of(k) == self.need_of(k),
    {
        let mut s = self;
        s.status[idx] = Status::Allowed;
        s
    }

    /// The same spec with kind `idx` Conceded.
    pub fn concede(self, idx: usize) -> (s: Spec)
        requires
            idx < NUM,
        ensures
            forall|k: int| 0 <= k < 16 ==> #[trigger] s.status_of(k) == if k == idx {
                Status::Conceded
            } else {
                self.status_of(k)
            },
            forall|k: int| 0 <= k < 16 ==> #[trigger] s.need_of(k) == self.need_of(k),
    {
        let mut s = self;
        s.status[idx] = Status::Conceded;
        s
    }

    /// The same spec with kind `idx` Forced at `count` (overriding its slot).
    pub fn force(self, idx: usize, count: u16) -> (s: Spec)
        requires
            idx < NUM,
        ensures
            forall|k: int| 0 <= k < 16 ==> #[trigger] s.status_of(k) == if k == idx {
                Status::Forced
            } else {
                self.status_of(k)
            },
            forall|k: int| 0 <= k < 16 ==> #[trigger] s.need_of(k) == if k == idx {
                count
            } else {
                self.need_of(k)
            },
    {
        let mut s = self;
        s.status[idx] = Status::Forced;
        s.need[idx] = count;
        s
    }

    /// Train-mode spec for target `t`: its train scope Allowed, `t` Forced once.
    pub fn train(t: usize) -> (s: Spec)
        requires
            t < NUM,
        ensures
            forall|k: int| 0 <= k < 16 ==> #[trigger] s.status_of(k) == train_status(t as int, k),
            s.need_of(t as int) == 1,
    {
        let tt = tier_of(t).rank();
        let tb = branch_of(t);
        let td = difficulty(t);
        let mut s = Spec::explicit();
        let mut k: usize = 0;
        while k < NUM
            invariant
                0 <= k <= 16,
                t < 16,
                tt == tier_rank_spec(tier_spec(t as int)),
                tb == branch_spec(t as int),
                td == difficulty_spec(t as int),
                forall|j: int| 0 <= j < 16 ==> #[trigger] s.status_of(j) == if j < k && in_train_scope(t as int, j) {
                    Status::Allowed
                } else {
                    Status::Excluded
                },
            decreases 16 - k,
        {
            let kt = tier_of(k).rank();
            let ok = kt <= tt && (kt <= 1 || (branch_of(k) == tb && difficulty(k) <= td));
            if ok {
                s = s.allow(k);
            }
            k += 1;
        }
        s.force(t, 1)
    }

    /// Drill-mode spec for target `t`: the easier tiers Allowed, the same-tier
    /// peers the drill concedes Conceded, `t` Forced once.
    pub fn drill(t: usize) -> (s: Spec)
        requires
            t < NUM,
        ensures
            forall|k: int| 0 <= k < 16 ==> #[trigger] s.status_of(k) == drill_status(t as int, k),
            s.need_of(t as int) == 1,
    {
        let ttier = tier_of(t);
        let tt = ttier.rank();
        let tb = branch_of(t);
        let td = difficulty(t);
        let mut s = Spec::explicit();
        let mut k: usize = 0;
        while k < NUM
            invariant
                0 <= k <= 16,
                t < 16,
                ttier == tier_spec(t as int),
                tt == tier_rank_spec(tier_spec(t as int)),
                tb == branch_spec(t as int),
                td == difficulty_spec(t as int),
                forall|j: int| 0 <= j < 16 ==> #[trigger] s.status_of(j) == if j < k && j != t {
                    drill_status(t as int, j)
                } else {
                    Status::Excluded
                },
            decreases 16 - k,
        {
            if k != t {
                let kt = tier_of(k).rank();
                if kt < tt {
                    s = s.allow(k);
                } else if kt == tt {
                    let concede = match ttier {
                        Tier::Beginner => false,
                        Tier::Intermediate => true,
                        _ => branch_of(k) == tb && difficulty(k) < td,
                    };
                    if concede {
                        s = s.concede(k);
                    }
                }
            }
            k += 1;
        }
        s.force(t, 1)
    }

    /// Bits of the kinds that selector `want` accepts.
    fn mask_where(&self, want: u8) -> (m: KindMask)
        requires
            want < 3,
        ensures
            m < 0x10000,
            forall|j: u32| j < 32 ==> #[trigger] bit32(m, j) == (j < 16 && selects(want, self.status_of(j as int))),
    {
        let mut m: u32 = 0;
        proof {
            assert forall|j: u32| j < 32 implies !#[trigger] bit32(0u32, j) by {
                lemma_bit32_zero(j);
            }
            assert(0u32 < (1u32 << 0u32)) by (bit_vector);
        }
        let mut k: usize = 0;
        while k < NUM
            invariant
                0 <= k <= 16,
                want < 3,
                m < (1u32 << (k as u32)),
                forall|j: u32| j < 32 ==> #[trigger] bit32(m, j) == (j < k && selects(want, self.status_of(j as int))),
            decreases 16 - k,
        {
            let s = self.status[k];
            let hit = if want == 0 {
                s == Status::Allowed || s == Status::Forced
            } else if want == 1 {
                s != Status::Excluded
            } else {
                s == Status::Forced
            };
            let kk = k as u32;
            if hit {
                proof {
                    assert forall|j: u32| j < 32 implies #[trigger] bit32(m | (1u32 << kk), j) == (j < k + 1
                        && selects(want, self.status_of(j as int))) by {
                        lemma_bit32_or(m, 1u32 << kk, j);
                        lemma_bit32_one(kk, j);
                    }
                    assert(m < (1u32 << kk) && kk < 16 ==> (m | (1u32 << kk)) < (1u32 << ((kk + 1) as u32))) by (bit_vector);
                }
                m = m | (1u32 << kk);
            } else {
                proof {
                    assert(kk < 16 ==> (1u32 << kk) < (1u32 << ((kk + 1) as u32))) by (bit_vector);
                }
            }
            k += 1;
        }
        proof {
            assert(1u32 << 16u32 == 0x10000) by (bit_vector);
        }
        m
    }

    /// The baseline toolbox: Allowed and Forced kinds.
    pub fn baseline_mask(&self) -> (m: KindMask)
        ensures
            m < 0x10000,
            forall|j: u32| j < 32 ==> #[trigger] bit32(m, j) == (j < 16 && in_baseline(self.status_of(j as int))),
    {
        self.mask_where(0)
    }

    /// The avoid-walk toolbox: every kind not Excluded.
    pub fn in_scope_mask(&self) -> (m: KindMask)
        ensures
            m < 0x10000,
            forall|j: u32| j < 32 ==> #[trigger] bit32(m, j) == (j < 16 && in_scope(self.status_of(j as int))),
    {
        self.mask_where(1)
    }

    /// The Forced kinds.
    pub fn forced_mask(&self) -> (m: KindMask)
        ensures
            m < 0x10000,
            forall|j: u32| j < 32 ==> #[trigger] bit32(m, j) == (j < 16 && is_forced(self.status_of(j as int))),
    {
        self.mask_where(2)
    }

    /// Every Forced kind fired at least its required count.
    pub open spec fn meets(&self, counts: Seq<u16>) -> bool {
        forall|k: int| 0 <= k < 16 && self.status_of(k) == Status::Forced ==> #[trigger] counts[k] >= self.need_of(k)
    }

    /// Whether `counts` meets every Forced kind's required count.
    pub fn requirement_met(&self, counts: &[u16; 16]) -> (r: bool)
        ensures
            r == self.meets(counts@),
    {
        let mut k: usize = 0;
        while k < NUM
            invariant
                0 <= k <= 16,
                forall|j: int| 0 <= j < k && self.status_of(j) == Status::Forced ==> #[trigger] counts@[j] >= self.need_of(j),
            decreases 16 - k,
        {
            if self.status[k] == Status::Forced && counts[k] < self.need[k] {
                return false;
            }
            k += 1;
        }
        true
    }

    /// The Forced kinds with their required counts, in kind order.
    pub fn forced(&self) -> (v: Vec<(usize, u16)>)
        ensures
            forall|i: int| 0 <= i < v.len() ==> v@[i].0 < 16 && #[trigger] self.status_of(v@[i].0 as int) == Status::Forced
                && v@[i].1 == self.need_of(v@[i].0 as int),
            forall|k: int| 0 <= k < 16 && self.status_of(k) == Status::Forced ==> exists|i: int| 0 <= i < v.len() && #[trigger] v@[i].0 == k,
            forall|i: int, j: int| 0 <= i < j < v.len() ==> v@[i].0 < v@[j].0,
    {
        let mut v: Vec<(usize, u16)> = Vec::new();
        let mut k: usize = 0;
        while k < NUM
            invariant
                0 <= k <= 16,
                forall|i: int| 0 <= i < v.len() ==> v@[i].0 < k && #[trigger] self.status_of(v@[i].0 as int) == Status::Forced
                    && v@[i].1 == self.need_of(v@[i].0 as int),
                forall|j: int| 0 <= j < k && self.status_of(j) == Status::Forced ==> exists|i: int| 0 <= i < v.len() && #[trigger] v@[i].0 == j,
                forall|i: int, j: int| 0 <= i < j < v.len() ==> v@[i].0 < v@[j].0,
            decreases 16 - k,
        {
            if self.status[k] == Status::Forced {
                let ghost v0 = v@;
                v.push((k, self.need[k]));
                proof {
                    assert forall|i: int, j: int| 0 <= i < j < v.len() implies v@[i].0 < v@[j].0 by {
                        if j == v.len() - 1 {
                            assert(self.status_of(v0[i].0 as int) == Status::Forced);
                            assert(v0[i].0 < k);
                        }
                    }
                    assert forall|j: int| 0 <= j < k + 1 && self.status_of(j) == Status::Forced implies exists|i: int| 0 <= i < v.len() && #[trigger] v@[i].0 == j by {
                        if j == k {
                            assert(v@[v.len() - 1].0 == j);
                        } else {
                            let i = choose|i: int| 0 <= i < v0.len() && #[trigger] v0[i].0 == j;
                            assert(v@[i].0 == j);
                        }
                    }
                }
            }
            k += 1;
        }
        v
    }
}

} // verus!
