//! The bitboard completion counter.

use vstd::prelude::*;
use crate::bb::{BitBoard, count_cap};

verus! {

/// The number of completions of `board`, counting stops at `cap`.
pub fn count_completions(board: BitBoard, cap: usize) -> (n: usize)
    requires
        board.wf(),
    ensures
        n <= count_cap(cap),
        cap > 0 && n == 0 ==> forall|g: Seq<u8>| !#[trigger] crate::bb::agrees(g, board),
{
    board.count_up_to(cap)
}

} // verus!
