//! Existence and uniqueness probers: count the completions of a puzzle up to a
//! cap by propagating singles and branching.

use vstd::prelude::*;
use crate::bb::{BitBoard, count_cap};
use crate::grid::{Board, conflict_free};

pub mod techniques;
pub mod singles;
pub mod search;
pub mod toolbox;

verus! {

/// A completion counter over board type `B`.
pub trait Prober<B> {
    /// Whether the board is one the prober can count.
    spec fn ready(board: B) -> bool;

    /// What a count of `n` completions of `board`, stopped at `cap`, tells of
    /// the board's completions.
    spec fn counts(board: B, cap: usize, n: usize) -> bool;

    /// The number of completions of `board`, counting stops at `cap`.
    fn count_completions(board: B, cap: usize) -> (n: usize)
        requires
            Self::ready(board),
        ensures
            n <= count_cap(cap),
            Self::counts(board, cap, n),
    ;

    /// Whether `board` has a completion: a count stopped at one finds one.
    fn has_completion(board: B) -> (r: bool)
        requires
            Self::ready(board),
        ensures
            exists|n: usize| #[trigger] Self::counts(board, 1, n) && r == (n >= 1),
    {
        let n = Self::count_completions(board, 1);
        n >= 1
    }

    /// Whether `board` has exactly one completion: a count stopped at two finds
    /// one.
    fn is_unique(board: B) -> (r: bool)
        requires
            Self::ready(board),
        ensures
            exists|n: usize| #[trigger] Self::counts(board, 2, n) && r == (n == 1),
    {
        let n = Self::count_completions(board, 2);
        n == 1
    }
}

/// The bitboard prober: naked singles and row and box hidden singles, then
/// branching on a two-candidate cell.
pub struct Search;

/// The scalar prober: naked and hidden singles on the candidate grid, then
/// branching on the most constrained cell.
pub struct Singles;

impl Prober<BitBoard> for Search {
    open spec fn ready(board: BitBoard) -> bool {
        board.wf()
    }

    /// A count of none under a positive cap means no grid agrees with the board.
    open spec fn counts(board: BitBoard, cap: usize, n: usize) -> bool {
        cap > 0 && n == 0 ==> forall|g: Seq<u8>| !#[trigger] crate::bb::agrees(g, board)
    }

    fn count_completions(board: BitBoard, cap: usize) -> (n: usize) {
        search::count_completions(board, cap)
    }
}

impl Prober<Board> for Singles {
    open spec fn ready(board: Board) -> bool {
        board.wf()
    }

    /// On a board within the naked candidates over a conflict-free grid, the
    /// count lists that many distinct fitting completions, all of them below the
    /// cap.
    open spec fn counts(board: Board, cap: usize, n: usize) -> bool {
        techniques::sub_naked(board.cells_view(), board.cands_view()) && conflict_free(board.cells_view()) ==> exists|
            w: Seq<Seq<u8>>,
        | #[trigger] singles::counted(board.cells_view(), board.cands_view(), w, n as int, cap as int)
    }

    fn count_completions(board: Board, cap: usize) -> (n: usize)
        ensures
            techniques::sub_naked(board.cells_view(), board.cands_view()) && conflict_free(board.cells_view()) ==> exists|
                w: Seq<Seq<u8>>,
            | #[trigger] singles::counted(board.cells_view(), board.cands_view(), w, n as int, cap as int),
    {
        singles::count_completions(board, cap)
    }
}


/// One uniqueness probe as a packed prober loads it: the row-major digit bands
/// and undecided cells of the stripped board, the stripped `cell`, and the
/// alternate digits `alts` it is restricted to.
#[derive(Clone, Copy)]
pub struct Probe {
    pub r: [[u32; 4]; 9],
    pub unsolved: [u32; 4],
    pub cell: usize,
    pub alts: u16,
}

} // verus!
