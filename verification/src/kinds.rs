//! The technique taxonomy: the sixteen kinds of the ladder, in difficulty order,
//! with their names, tiers and branches.
//!
//! A kind is named by its index `0..NUM`; a set of kinds is a [`KindMask`] whose
//! bit `k` stands for kind `k`.

use vstd::prelude::*;

verus! {

/// Number of technique kinds.
pub const NUM: usize = 16;

pub const NAKED_SINGLE: usize = 0;
pub const HIDDEN_SINGLE: usize = 1;
pub const LC_POINTING: usize = 2;
pub const LC_CLAIMING: usize = 3;
pub const NAKED_PAIR: usize = 4;
pub const HIDDEN_PAIR: usize = 5;
pub const NAKED_TRIPLE: usize = 6;
pub const HIDDEN_TRIPLE: usize = 7;
pub const NAKED_QUAD: usize = 8;
pub const HIDDEN_QUAD: usize = 9;
pub const X_WING: usize = 10;
pub const SWORDFISH: usize = 11;
pub const JELLYFISH: usize = 12;
pub const XY_WING: usize = 13;
pub const XYZ_WING: usize = 14;
pub const W_WING: usize = 15;

/// A set of kinds: bit `k` stands for kind `k`.
pub type KindMask = u32;

/// The difficulty tier of a kind.
#[derive(Clone, Copy, PartialEq, Eq, Structural, Debug)]
pub enum Tier {
    Beginner,
    Intermediate,
    Expert,
    Master,
}

/// The branch of the ladder a kind belongs to: the shared trunk (singles and
/// locked candidates) or one of the three families above it.
#[derive(Clone, Copy, PartialEq, Eq, Structural, Debug)]
pub enum Branch {
    Trunk,
    Subset,
    Fish,
    Wing,
}

/// Position of a tier in the order Beginner < Intermediate < Expert < Master.
pub open spec fn tier_rank_spec(t: Tier) -> int {
    match t {
        Tier::Beginner => 0,
        Tier::Intermediate => 1,
        Tier::Expert => 2,
        Tier::Master => 3,
    }
}

impl Tier {
    /// Position of the tier in the order Beginner < Intermediate < Expert < Master.
    pub fn rank(self) -> (r: u8)
        ensures
            r == tier_rank_spec(self),
    {
        match self {
            Tier::Beginner => 0,
            Tier::Intermediate => 1,
            Tier::Expert => 2,
            Tier::Master => 3,
        }
    }
}

/// The tier of kind `k`.
pub open spec fn tier_spec(k: int) -> Tier {
    if k < 2 {
        Tier::Beginner
    } else if k < 4 {
        Tier::Intermediate
    } else if k == NAKED_PAIR || k == HIDDEN_PAIR || k == NAKED_TRIPLE || k == HIDDEN_TRIPLE || k == X_WING || k
        == XY_WING {
        Tier::Expert
    } else {
        Tier::Master
    }
}

/// The branch of kind `k`.
pub open spec fn branch_spec(k: int) -> Branch {
    if k < 4 {
        Branch::Trunk
    } else if k < 10 {
        Branch::Subset
    } else if k < 13 {
        Branch::Fish
    } else {
        Branch::Wing
    }
}

/// The difficulty of kind `k`: its position on the ladder.
pub open spec fn difficulty_spec(k: int) -> int {
    k
}

/// The tier of kind `k`.
pub fn tier_of(k: usize) -> (t: Tier)
    requires
        k < NUM,
    ensures
        t == tier_spec(k as int),
{
    if k < 2 {
        Tier::Beginner
    } else if k < 4 {
        Tier::Intermediate
    } else if k == NAKED_PAIR || k == HIDDEN_PAIR || k == NAKED_TRIPLE || k == HIDDEN_TRIPLE || k == X_WING || k
        == XY_WING {
        Tier::Expert
    } else {
        Tier::Master
    }
}

/// The branch of kind `k`.
pub fn branch_of(k: usize) -> (b: Branch)
    requires
        k < NUM,
    ensures
        b == branch_spec(k as int),
{
    if k < 4 {
        Branch::Trunk
    } else if k < 10 {
        Branch::Subset
    } else if k < 13 {
        Branch::Fish
    } else {
        Branch::Wing
    }
}

/// The difficulty of kind `k` (its ladder position).
pub fn difficulty(k: usize) -> (d: u32)
    requires
        k < NUM,
    ensures
        d == difficulty_spec(k as int),
{
    k as u32
}

/// The name of kind `k`, as the command line and the fixture files spell it.
pub open spec fn kind_name(k: int) -> Seq<char> {
    if k == 0 {
        "naked-single"@
    } else if k == 1 {
        "hidden-single"@
    } else if k == 2 {
        "pointing"@
    } else if k == 3 {
        "claiming"@
    } else if k == 4 {
        "naked-pair"@
    } else if k == 5 {
        "hidden-pair"@
    } else if k == 6 {
        "naked-triple"@
    } else if k == 7 {
        "hidden-triple"@
    } else if k == 8 {
        "naked-quad"@
    } else if k == 9 {
        "hidden-quad"@
    } else if k == 10 {
        "x-wing"@
    } else if k == 11 {
        "swordfish"@
    } else if k == 12 {
        "jellyfish"@
    } else if k == 13 {
        "xy-wing"@
    } else if k == 14 {
        "xyz-wing"@
    } else {
        "w-wing"@
    }
}

/// The name of kind `k`.
pub fn name(k: usize) -> (s: &'static str)
    requires
        k < NUM,
    ensures
        s@ == kind_name(k as int),
{
    if k == 0 {
        "naked-single"
    } else if k == 1 {
        "hidden-single"
    } else if k == 2 {
        "pointing"
    } else if k == 3 {
        "claiming"
    } else if k == 4 {
        "naked-pair"
    } else if k == 5 {
        "hidden-pair"
    } else if k == 6 {
        "naked-triple"
    } else if k == 7 {
        "hidden-triple"
    } else if k == 8 {
        "naked-quad"
    } else if k == 9 {
        "hidden-quad"
    } else if k == 10 {
        "x-wing"
    } else if k == 11 {
        "swordfish"
    } else if k == 12 {
        "jellyfish"
    } else if k == 13 {
        "xy-wing"
    } else if k == 14 {
        "xyz-wing"
    } else {
        "w-wing"
    }
}

/// The outcome of a logic solve: whether the toolbox finished the grid, and how
/// many times each kind fired (saturating).
#[derive(Clone, Copy)]
pub struct SolveTrace {
    pub solved: bool,
    pub counts: [u16; 16],
}


/// Kind names are non-empty words of letters and hyphens, and no two kinds share one.
pub proof fn lemma_kind_names(k: int)
    requires
        0 <= k < 16,
    ensures
        kind_name(k).len() > 0,
        forall|i: int| 0 <= i < kind_name(k).len() ==> ('a' <= #[trigger] kind_name(k)[i] <= 'z' || kind_name(k)[i] == '-'),
        forall|j: int| 0 <= j < k ==> kind_name(j) != kind_name(k),
{
    reveal_strlit("naked-single");
    reveal_strlit("hidden-single");
    reveal_strlit("pointing");
    reveal_strlit("claiming");
    reveal_strlit("naked-pair");
    reveal_strlit("hidden-pair");
    reveal_strlit("naked-triple");
    reveal_strlit("hidden-triple");
    reveal_strlit("naked-quad");
    reveal_strlit("hidden-quad");
    reveal_strlit("x-wing");
    reveal_strlit("swordfish");
    reveal_strlit("jellyfish");
    reveal_strlit("xy-wing");
    reveal_strlit("xyz-wing");
    reveal_strlit("w-wing");
    assert forall|j: int| 0 <= j < k implies kind_name(j) != kind_name(k) by {
        if kind_name(j).len() == kind_name(k).len() {
            assert(kind_name(j)[0] != kind_name(k)[0] || kind_name(j)[6] != kind_name(k)[6] || kind_name(j)[7] != kind_name(k)[7]);
        }
    }
}

} // verus!
