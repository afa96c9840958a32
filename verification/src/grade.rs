//! Grading helpers: which kinds a spec's puzzles bottleneck on, the puzzle seed
//! for randomized grading runs, and the band labels.

use vstd::prelude::*;
use crate::bits::bit32;
use crate::bb::has_kind;
use crate::fingerprint::{fnv, fnv_fold_cells, FNV_OFFSET};
use crate::kinds::{NAKED_PAIR, NUM, difficulty_spec};
use crate::spec::{Spec, is_forced};

verus! {

/// The kinds whose firing is a bottleneck for `spec`: its Forced kinds.
pub fn bottleneck_mask(spec: &Spec) -> (m: u32)
    ensures
        m < 0x10000,
        forall|j: u32| j < 32 ==> #[trigger] bit32(m, j) == (j < 16 && is_forced(spec.status_of(j as int))),
{
    spec.forced_mask()
}

/// The hardest bottleneck kind above the trunk (naked pair or harder) that
/// `spec` forces; `None` when it forces none.
pub fn bottleneck_key(spec: &Spec) -> (r: Option<usize>)
    ensures
        match r {
            Some(k) => NAKED_PAIR <= k < NUM && is_forced(spec.status_of(k as int)) && forall|j: int| NAKED_PAIR <= j < NUM
                && is_forced(spec.status_of(j)) ==> difficulty_spec(j) <= difficulty_spec(k as int),
            None => forall|j: int| NAKED_PAIR <= j < NUM ==> !is_forced(spec.status_of(j)),
        },
{
    let mask = bottleneck_mask(spec);
    let mut best: Option<usize> = None;
    let mut k: usize = NAKED_PAIR;
    while k < NUM
        invariant
            NAKED_PAIR <= k <= NUM,
            forall|j: u32| j < 32 ==> #[trigger] bit32(mask, j) == (j < 16 && is_forced(spec.status_of(j as int))),
            match best {
                Some(b) => NAKED_PAIR <= b < k && is_forced(spec.status_of(b as int)) && forall|j: int| NAKED_PAIR <= j < k
                    && is_forced(spec.status_of(j)) ==> difficulty_spec(j) <= difficulty_spec(b as int),
                None => forall|j: int| NAKED_PAIR <= j < k ==> !is_forced(spec.status_of(j)),
            },
        decreases NUM - k,
    {
        if has_kind(mask, k) {
            proof {
                assert(bit32(mask, k as u32));
            }
            best = Some(k);
        } else {
            proof {
                assert(!bit32(mask, k as u32));
            }
        }
        k += 1;
    }
    best
}

/// A stable per-puzzle seed: the FNV-1a fingerprint of its cell bytes.
pub fn trunk_seed(puzzle: &[u8; 81]) -> (h: u64)
    ensures
        h == fnv(FNV_OFFSET, puzzle@),
{
    let mut h: u64 = 0xcbf2_9ce4_8422_2325;
    fnv_fold_cells(&mut h, puzzle);
    h
}

/// The label of a band in the three-band cut.
pub fn band_name3(band: usize) -> (s: &'static str)
    ensures
        s@ == if band == 0 {
            "gentle"@
        } else if band == 1 {
            "medium"@
        } else {
            "spicy"@
        },
{
    match band {
        0 => "gentle",
        1 => "medium",
        _ => "spicy",
    }
}

/// The label of a band in the five-band cut.
pub fn band_name5(band: usize) -> (s: &'static str)
    ensures
        s@ == if band == 0 {
            "gentle"@
        } else if band == 1 {
            "mild"@
        } else if band == 2 {
            "medium"@
        } else if band == 3 {
            "spicy"@
        } else {
            "fiery"@
        },
{
    match band {
        0 => "gentle",
        1 => "mild",
        2 => "medium",
        3 => "spicy",
        _ => "fiery",
    }
}

} // verus!
