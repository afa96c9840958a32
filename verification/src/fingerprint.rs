//! FNV-1a fingerprints of grids: the determinism guard and the per-puzzle ids.

use vstd::prelude::*;

verus! {

/// FNV-1a 64-bit offset basis.
pub const FNV_OFFSET: u64 = 0xcbf29ce484222325;

/// FNV-1a 64-bit prime.
pub const FNV_PRIME: u64 = 0x100000001b3;

/// FNV-1a folding of the bytes `s` into the running value `fp`.
pub open spec fn fnv(fp: u64, s: Seq<u8>) -> u64
    decreases s.len(),
{
    if s.len() == 0 {
        fp
    } else {
        (fnv(fp, s.drop_last()) ^ (s.last() as u64)).wrapping_mul(FNV_PRIME)
    }
}

/// Fold a grid's 81 cell bytes (`1..=9`, `0` empty) into a running FNV-1a
/// fingerprint.
pub fn fnv_fold_cells(fp: &mut u64, cells: &[u8; 81])
    ensures
        *final(fp) == fnv(*old(fp), cells@),
{
    let mut i: usize = 0;
    while i < 81
        invariant
            0 <= i <= 81,
            *fp == fnv(*old(fp), cells@.take(i as int)),
        decreases 81 - i,
    {
        proof {
            assert(cells@.take(i + 1).drop_last() =~= cells@.take(i as int));
        }
        *fp = (*fp ^ (cells[i] as u64)).wrapping_mul(FNV_PRIME);
        i += 1;
    }
    proof {
        assert(cells@.take(81) =~= cells@);
    }
}

/// The FNV-1a fingerprint of one grid's 81 cells.
pub fn grid_fp(grid: &[u8; 81]) -> (r: u64)
    ensures
        r == fnv(FNV_OFFSET, grid@),
{
    let mut fp = FNV_OFFSET;
    fnv_fold_cells(&mut fp, grid);
    fp
}

} // verus!
