//! The unavoidable-set pre-filter: a library of cell sets of the full solution
//! grid, each of which must keep at least one clue for the puzzle to stay unique,
//! with a per-set count of the clues it still holds along the strip walk.

use vstd::prelude::*;
use crate::grid::{solved, completes, unit_cell, is_peer, no_conflict_at, blocked};
use crate::probe::techniques::lemma_unit_cell_bound;

verus! {

/// Most sets a library holds; later ones are dropped.
pub const UA_CAP: usize = 192;
/// Most sets a cell's membership list holds; later memberships are dropped.
pub const UA_PER_CELL: usize = 8;

/// Which set library the strip carries.
#[derive(Clone, Copy, PartialEq, Eq, Structural, Debug)]
pub enum UaTier {
    /// No library: every uniqueness gate asks the prober.
    Off,
    /// The size-4 sets (deadly rectangles) only.
    Ua4,
    /// Every two-digit cycle set.
    Full,
}

impl UaTier {
    /// The tier of the scalar strip walk.
    pub const SCALAR: UaTier = UaTier::Ua4;
    /// The tier of the packed strip walk.
    pub const SIMT: UaTier = UaTier::Ua4;
}

/// Membership lists of the library: `cu[c]` holds, in its first `lens[c]` slots,
/// the ids of the sets containing cell `c`.
pub type Lists = [[u8; 8]; 81];

/// How many of the first `k` entries of cell `c`'s list are `u`.
pub open spec fn occ_upto(cu: Lists, c: int, u: int, k: int) -> nat
    decreases k,
{
    if k <= 0 {
        0
    } else {
        occ_upto(cu, c, u, k - 1) + if cu[c][k - 1] == u { 1nat } else { 0nat }
    }
}

/// How many times cell `c`'s list names set `u`.
pub open spec fn occ(cu: Lists, lens: [u8; 81], c: int, u: int) -> nat {
    occ_upto(cu, c, u, lens[c] as int)
}

/// Clue cells of `cells` (`cells[c] != 0`) below `n` that belong to `s`.
pub open spec fn clues_in(s: Set<int>, cells: Seq<u8>, n: int) -> nat
    decreases n,
{
    if n <= 0 {
        0
    } else {
        clues_in(s, cells, n - 1) + if cells[n - 1] != 0 && s.contains(n - 1) { 1nat } else { 0nat }
    }
}

/// Cells below `n` that belong to `s`.
pub open spec fn members_below(s: Set<int>, n: int) -> nat
    decreases n,
{
    if n <= 0 {
        0
    } else {
        members_below(s, n - 1) + if s.contains(n - 1) { 1nat } else { 0nat }
    }
}

/// Lists that agree on their first `k` entries count alike.
pub proof fn lemma_occ_agree(a: Lists, b: Lists, c: int, u: int, k: int)
    requires
        forall|i: int| 0 <= i < k ==> #[trigger] a[c][i] == b[c][i],
    ensures
        occ_upto(a, c, u, k) == occ_upto(b, c, u, k),
    decreases k,
{
    if k > 0 {
        lemma_occ_agree(a, b, c, u, k - 1);
    }
}

/// A longer prefix counts at least as many.
pub proof fn lemma_occ_mono(cu: Lists, c: int, u: int, i: int, k: int)
    requires
        0 <= i <= k,
    ensures
        occ_upto(cu, c, u, i) <= occ_upto(cu, c, u, k),
    decreases k - i,
{
    if i < k {
        lemma_occ_mono(cu, c, u, i, k - 1);
    }
}

/// A set id above every listed entry is never counted.
pub proof fn lemma_occ_absent(cu: Lists, c: int, u: int, k: int)
    requires
        forall|i: int| 0 <= i < k ==> #[trigger] cu[c][i] != u,
    ensures
        occ_upto(cu, c, u, k) == 0,
    decreases k,
{
    if k > 0 {
        lemma_occ_absent(cu, c, u, k - 1);
    }
}

/// An entry naming `u` is counted.
pub proof fn lemma_occ_present(cu: Lists, c: int, u: int, i: int, k: int)
    requires
        0 <= i < k,
        cu[c][i] == u,
    ensures
        occ_upto(cu, c, u, k) >= 1,
    decreases k,
{
    if i < k - 1 {
        lemma_occ_present(cu, c, u, i, k - 1);
    }
}

/// The clues of a set are among its members.
pub proof fn lemma_clues_le_members(s: Set<int>, cells: Seq<u8>, n: int)
    ensures
        clues_in(s, cells, n) <= members_below(s, n),
    decreases n,
{
    if n > 0 {
        lemma_clues_le_members(s, cells, n - 1);
    }
}

/// Emptying clue cell `cell` drops it from the clue count of every set holding it.
pub proof fn lemma_clues_split(s: Set<int>, cells: Seq<u8>, cell: int, n: int)
    requires
        0 <= cell < cells.len(),
        cells[cell] != 0,
        n <= cells.len(),
    ensures
        clues_in(s, cells, n) == clues_in(s, cells.update(cell, 0), n) + if 0 <= cell < n && s.contains(cell) {
            1nat
        } else {
            0nat
        },
    decreases n,
{
    if n > 0 {
        lemma_clues_split(s, cells, cell, n - 1);
        if n - 1 != cell {
            assert(cells.update(cell, 0)[n - 1] == cells[n - 1]);
        }
    }
}

/// With no clue counted, every member below `n` is empty.
pub proof fn lemma_clues_none(s: Set<int>, cells: Seq<u8>, n: int)
    requires
        clues_in(s, cells, n) == 0,
    ensures
        forall|c: int| 0 <= c < n && #[trigger] s.contains(c) ==> cells[c] == 0,
    decreases n,
{
    if n > 0 {
        lemma_clues_none(s, cells, n - 1);
    }
}

/// Adding a cell adds at most one member.
pub proof fn lemma_members_insert(s: Set<int>, c: int, n: int)
    ensures
        members_below(s.insert(c), n) <= members_below(s, n) + 1,
        !s.contains(c) && 0 <= c < n ==> members_below(s.insert(c), n) == members_below(s, n) + 1,
        c < 0 || n <= c ==> members_below(s.insert(c), n) == members_below(s, n),
    decreases n,
{
    if n > 0 {
        lemma_members_insert(s, c, n - 1);
    }
}

/// The empty set has no member.
pub proof fn lemma_members_empty(n: int)
    ensures
        members_below(Set::<int>::empty(), n) == 0,
    decreases n,
{
    if n > 0 {
        lemma_members_empty(n - 1);
    }
}

/// The set library with its per-set clue counts: `sets` holds each registered
/// set's cells; the lists record, per cell, the sets containing it (each at most
/// once, and a full list drops later memberships).
pub struct UaFilter {
    pub(crate) counts: [u8; 192],
    pub(crate) cell_uas: Lists,
    pub(crate) lens: [u8; 81],
    pub(crate) nua: usize,
    pub(crate) sets: Ghost<Seq<Set<int>>>,
}

impl UaFilter {
    /// Number of sets in the library.
    pub closed spec fn size(&self) -> nat {
        self.nua as nat
    }

    /// Clue count of set `u`.
    pub closed spec fn count(&self, u: int) -> int {
        self.counts[u] as int
    }

    /// Cell `c`'s list names set `u`.
    pub closed spec fn has(&self, c: int, u: int) -> bool {
        exists|k: int| 0 <= k < self.lens[c] && #[trigger] self.cell_uas[c][k] == u
    }

    /// The cells of set `u`.
    pub closed spec fn set_of(&self, u: int) -> Set<int> {
        self.sets@[u]
    }

    /// Set `u` is named by cell `c`'s list as often as `n` times.
    pub closed spec fn occ_of(&self, c: int, u: int) -> nat {
        occ(self.cell_uas, self.lens, c, u)
    }

    /// Lists fit, name registered sets only, each at most once and only for a
    /// cell of the set.
    pub closed spec fn wf(&self) -> bool {
        &&& self.nua <= UA_CAP
        &&& self.sets@.len() == self.nua
        &&& forall|c: int| 0 <= c < 81 ==> #[trigger] self.lens[c] <= UA_PER_CELL
        &&& forall|c: int, k: int| 0 <= c < 81 && 0 <= k < self.lens[c] ==> #[trigger] self.cell_uas[c][k] < self.nua
        &&& forall|u: int, c: int| 0 <= u < self.nua && #[trigger] self.sets@[u].contains(c) ==> 0 <= c < 81
        &&& forall|c: int, u: int| 0 <= c < 81 && 0 <= u < self.nua ==> #[trigger] occ(self.cell_uas, self.lens, c, u)
            <= if self.sets@[u].contains(c) { 1nat } else { 0nat }
    }

    /// Each set's count is at least its clue cells in `cells`.
    pub closed spec fn covers(&self, cells: Seq<u8>) -> bool {
        forall|u: int| 0 <= u < self.nua ==> #[trigger] self.counts[u] >= clues_in(self.sets@[u], cells, 81)
    }

    /// Each set's count is at least its number of cells.
    pub closed spec fn covers_all(&self) -> bool {
        forall|u: int| 0 <= u < self.nua ==> #[trigger] self.counts[u] >= members_below(self.sets@[u], 81)
    }

    /// Emptying `cell` would leave some set named in its list at a count of one.
    pub open spec fn catches(&self, cell: int) -> bool {
        exists|u: int| 0 <= u < self.size() && #[trigger] self.has(cell, u) && self.count(u) == 1
    }

    /// Every set is an unavoidable set of `g`, of an even size of at least four.
    pub open spec fn sound(&self, g: Seq<u8>) -> bool {
        forall|u: int| 0 <= u < self.size() ==> #[trigger] unavoidable(self.set_of(u), g) && well_sized(self.set_of(u))
    }

    /// A library that covers every cell covers the clue cells of any grid.
    pub proof fn lemma_covers(&self, cells: Seq<u8>)
        requires
            self.covers_all(),
        ensures
            self.covers(cells),
    {
        assert forall|u: int| 0 <= u < self.nua implies #[trigger] self.counts[u] >= clues_in(self.sets@[u], cells, 81) by {
            lemma_clues_le_members(self.sets@[u], cells, 81);
        }
    }

    /// When the library of the full grid `g` covers the clues of a puzzle of `g`
    /// and catches clue `cell`, the puzzle with `cell` emptied has a second
    /// completion: it is not unique.
    pub proof fn lemma_caught_non_unique(&self, g: Seq<u8>, cells: Seq<u8>, cell: int)
        requires
            self.wf(),
            self.sound(g),
            self.covers(cells),
            cells.len() == 81,
            completes(g, cells),
            0 <= cell < 81,
            cells[cell] != 0,
            self.catches(cell),
        ensures
            exists|t: Seq<u8>| completes(t, cells.update(cell, 0)) && t != g,
            exists|t: Seq<u8>| completes(t, cells.update(cell, 0)) && t[cell] != g[cell],
    {
        let u = choose|u: int| 0 <= u < self.size() && #[trigger] self.has(cell, u) && self.count(u) == 1;
        let k = choose|k: int| 0 <= k < self.lens[cell] && #[trigger] self.cell_uas[cell][k] == u;
        let st = self.sets@[u];
        assert(unavoidable(self.set_of(u), g));
        lemma_occ_present(self.cell_uas, cell, u, k, self.lens[cell] as int);
        assert(occ(self.cell_uas, self.lens, cell, u) >= 1);
        assert(st.contains(cell));
        lemma_clues_split(st, cells, cell, 81);
        let rest = cells.update(cell, 0);
        lemma_clues_none(st, rest, 81);
        assert(unavoidable(st, g));
        assert forall|c: int| #[trigger] st.contains(c) implies rest[c] == 0 by {
            assert(0 <= c < 81);
        }
        assert(completes(g, rest));
        lemma_unavoidable_second_completion(g, st, rest);
        let t = choose|t: Seq<u8>| completes(t, rest) && forall|c: int| #[trigger] st.contains(c) ==> t[c] != g[c];
        assert(t[cell] != g[cell]);
    }

    /// The empty library.
    pub(crate) fn empty() -> (f: Self)
        ensures
            f.wf(),
            f.covers_all(),
            f.size() == 0,
            f.sets@ == Seq::<Set<int>>::empty(),
    {
        let f = UaFilter { counts: [0u8; 192], cell_uas: [[0u8; 8]; 81], lens: [0u8; 81], nua: 0, sets: Ghost(Seq::empty()) };
        assert forall|c: int, u: int| 0 <= c < 81 && 0 <= u < f.nua implies #[trigger] occ(f.cell_uas, f.lens, c, u)
            <= if f.sets@[u].contains(c) { 1nat } else { 0nat } by {}
        f
    }

    /// Open a new empty set, with count zero.
    fn open_set(&mut self) -> (id: u8)
        requires
            old(self).wf(),
            old(self).nua < UA_CAP,
        ensures
            final(self).wf(),
            id == old(self).nua,
            final(self).nua == old(self).nua + 1,
            final(self).sets@ == old(self).sets@.push(Set::empty()),
            final(self).counts[id as int] == 0,
            forall|u: int| 0 <= u < old(self).nua ==> #[trigger] final(self).counts[u] == old(self).counts[u],
            final(self).cell_uas == old(self).cell_uas,
            final(self).lens == old(self).lens,
    {
        let id = self.nua as u8;
        self.counts[self.nua] = 0;
        self.nua += 1;
        self.sets = Ghost(self.sets@.push(Set::empty()));
        proof {
            assert forall|c: int| 0 <= c < 81 implies occ(self.cell_uas, self.lens, c, id as int) == 0 by {
                lemma_occ_absent(self.cell_uas, c, id as int, self.lens[c] as int);
            }
            assert forall|u: int, c: int| 0 <= u < self.nua && #[trigger] self.sets@[u].contains(c) implies 0 <= c < 81 by {
                if u < id {
                    assert(self.sets@[u] == old(self).sets@[u]);
                }
            }
            assert forall|c: int, u: int| 0 <= c < 81 && 0 <= u < self.nua implies #[trigger] occ(self.cell_uas, self.lens, c, u)
                <= if self.sets@[u].contains(c) { 1nat } else { 0nat } by {
                if u < id {
                    assert(self.sets@[u] == old(self).sets@[u]);
                }
            }
        }
        id
    }

    /// Add cell `c` to set `id`, naming it in `c`'s list if the list has room.
    fn join(&mut self, c: usize, id: u8)
        requires
            c < 81,
            (id as int) < old(self).nua,
            old(self).wf(),
            !old(self).sets@[id as int].contains(c as int),
        ensures
            final(self).wf(),
            final(self).nua == old(self).nua,
            final(self).counts == old(self).counts,
            final(self).sets@ == old(self).sets@.update(id as int, old(self).sets@[id as int].insert(c as int)),
    {
        let ghost o = *self;
        let n = self.lens[c] as usize;
        if n < UA_PER_CELL {
            self.cell_uas[c][n] = id;
            self.lens[c] = (n + 1) as u8;
        }
        self.sets = Ghost(self.sets@.update(id as int, self.sets@[id as int].insert(c as int)));
        proof {
            assert forall|u: int, x: int| 0 <= u < self.nua && #[trigger] self.sets@[u].contains(x) implies 0 <= x < 81 by {
                if u != id {
                    assert(self.sets@[u] == o.sets@[u]);
                }
            }
            assert forall|j: int, u: int| 0 <= j < 81 && 0 <= u < self.nua implies #[trigger] occ(self.cell_uas, self.lens, j, u)
                <= if self.sets@[u].contains(j) { 1nat } else { 0nat } by {
                assert(occ(o.cell_uas, o.lens, j, u) <= if o.sets@[u].contains(j) { 1nat } else { 0nat });
                if j != c {
                    lemma_occ_agree(o.cell_uas, self.cell_uas, j, u, o.lens[j] as int);
                } else {
                    lemma_occ_agree(o.cell_uas, self.cell_uas, j, u, n as int);
                    if u == id {
                        assert(occ(o.cell_uas, o.lens, j, u) == 0);
                    }
                }
                if u != id {
                    assert(self.sets@[u] == o.sets@[u]);
                }
            }
        }
    }

    /// Register a set spanning the distinct cells `cells`, with its count at the
    /// number of cells; past the capacity the set is dropped.
    pub(crate) fn push_ua(&mut self, cells: &[usize])
        requires
            old(self).wf(),
            old(self).covers_all(),
            cells@.len() <= 255,
            forall|t: int| 0 <= t < cells@.len() ==> #[trigger] cells@[t] < 81,
            forall|t1: int, t2: int| 0 <= t1 < t2 < cells@.len() ==> #[trigger] cells@[t1] != #[trigger] cells@[t2],
        ensures
            final(self).wf(),
            final(self).covers_all(),
            final(self).size() == if old(self).nua < UA_CAP { old(self).nua + 1 } else { old(self).nua as int },
            old(self).nua < UA_CAP ==> final(self).sets@ == old(self).sets@.push(cell_set(cells@)),
            old(self).nua >= UA_CAP ==> final(self).sets@ == old(self).sets@,
    {
        if self.nua >= UA_CAP {
            return;
        }
        let ghost o = *self;
        let id = self.open_set();
        self.counts[id as usize] = cells.len() as u8;
        proof {
            lemma_members_empty(81);
        }
        let mut t: usize = 0;
        while t < cells.len()
            invariant
                0 <= t <= cells@.len(),
                cells@.len() <= 255,
                forall|q: int| 0 <= q < cells@.len() ==> #[trigger] cells@[q] < 81,
                forall|t1: int, t2: int| 0 <= t1 < t2 < cells@.len() ==> #[trigger] cells@[t1] != #[trigger] cells@[t2],
                self.wf(),
                self.nua == o.nua + 1,
                (id as int) == o.nua,
                self.counts[id as int] == cells@.len(),
                self.sets@.len() == o.nua + 1,
                forall|u: int| 0 <= u < o.nua ==> #[trigger] self.sets@[u] == o.sets@[u],
                forall|u: int| 0 <= u < o.nua ==> #[trigger] self.counts[u] == o.counts[u],
                forall|x: int| #[trigger] self.sets@[id as int].contains(x) <==> exists|q: int| 0 <= q < t && cells@[q] == x,
                members_below(self.sets@[id as int], 81) <= t,
            decreases cells@.len() - t,
        {
            let ghost before = self.sets@[id as int];
            proof {
                if before.contains(cells@[t as int] as int) {
                    let q = choose|q: int| 0 <= q < t && cells@[q] == cells@[t as int] as int;
                    assert(cells@[q] != cells@[t as int]);
                }
            }
            self.join(cells[t], id);
            proof {
                lemma_members_insert(before, cells@[t as int] as int, 81);
                assert forall|x: int| #[trigger] self.sets@[id as int].contains(x) <==> exists|q: int| 0 <= q < t + 1 && cells@[q] == x by {
                    if self.sets@[id as int].contains(x) && x != cells@[t as int] {
                        assert(before.contains(x));
                    }
                    if exists|q: int| 0 <= q < t + 1 && cells@[q] == x {
                        let q = choose|q: int| 0 <= q < t + 1 && cells@[q] == x;
                        if q < t {
                            assert(before.contains(x));
                        }
                    }
                }
            }
            t += 1;
        }
        proof {
            assert(self.sets@[id as int] =~= cell_set(cells@)) by {
                assert forall|x: int| #[trigger] self.sets@[id as int].contains(x) implies cell_set(cells@).contains(x) by {
                    let q = choose|q: int| 0 <= q < t && cells@[q] == x;
                    assert(cells@.contains(x as usize));
                }
                assert forall|x: int| #[trigger] cell_set(cells@).contains(x) implies self.sets@[id as int].contains(x) by {
                    let q = choose|q: int| 0 <= q < cells@.len() && cells@[q] == x as usize;
                    assert(cells@[q] == x);
                }
            }
            assert(self.sets@ =~= o.sets@.push(cell_set(cells@)));
        }
    }

    /// Would emptying cell `cell` leave some set containing it with no clue?
    pub(crate) fn caught(&self, cell: usize) -> (r: bool)
        requires
            self.wf(),
            cell < 81,
        ensures
            r == self.catches(cell as int),
    {
        let n = self.lens[cell] as usize;
        let mut k: usize = 0;
        while k < n
            invariant
                0 <= k <= n,
                n == self.lens[cell as int],
                self.wf(),
                cell < 81,
                forall|q: int| 0 <= q < k ==> #[trigger] self.counts[self.cell_uas[cell as int][q] as int] != 1,
            decreases n - k,
        {
            if self.counts[self.cell_uas[cell][k] as usize] == 1 {
                proof {
                    let u = self.cell_uas[cell as int][k as int] as int;
                    assert(self.has(cell as int, u));
                }
                return true;
            }
            k += 1;
        }
        proof {
            assert forall|u: int| 0 <= u < self.size() && #[trigger] self.has(cell as int, u) implies self.count(u) != 1 by {
                let q = choose|q: int| 0 <= q < self.lens[cell as int] && #[trigger] self.cell_uas[cell as int][q] == u;
                assert(self.counts[self.cell_uas[cell as int][q] as int] != 1);
            }
        }
        false
    }

    /// Commit a kept strip of clue cell `cell` of `cells`: every set naming it
    /// loses a clue.
    pub(crate) fn kept(&mut self, cell: usize, Ghost(cells): Ghost<Seq<u8>>)
        requires
            old(self).wf(),
            old(self).covers(cells),
            cells.len() == 81,
            cell < 81,
            cells[cell as int] != 0,
        ensures
            final(self).wf(),
            final(self).covers(cells.update(cell as int, 0)),
            final(self).nua == old(self).nua,
            final(self).cell_uas == old(self).cell_uas,
            final(self).lens == old(self).lens,
            final(self).sets == old(self).sets,
            forall|g: Seq<u8>| old(self).sound(g) ==> #[trigger] final(self).sound(g),
            forall|u: int| 0 <= u < old(self).nua ==> #[trigger] final(self).counts[u] + old(self).occ_of(cell as int, u) == old(self).counts[u],
    {
        let ghost o = *self;
        let n = self.lens[cell] as usize;
        proof {
            assert forall|u: int| 0 <= u < o.nua implies #[trigger] o.counts[u] >= occ(o.cell_uas, o.lens, cell as int, u) by {
                lemma_clues_split(o.sets@[u], cells, cell as int, 81);
                assert(occ(o.cell_uas, o.lens, cell as int, u) <= if o.sets@[u].contains(cell as int) { 1nat } else { 0nat });
            }
        }
        let mut i: usize = 0;
        while i < n
            invariant
                0 <= i <= n,
                n == o.lens[cell as int],
                cell < 81,
                o.wf(),
                self.nua == o.nua,
                self.cell_uas == o.cell_uas,
                self.lens == o.lens,
                self.sets == o.sets,
                forall|u: int| 0 <= u < o.nua ==> #[trigger] o.counts[u] >= occ(o.cell_uas, o.lens, cell as int, u),
                forall|u: int| 0 <= u < o.nua ==> #[trigger] self.counts[u] + occ_upto(o.cell_uas, cell as int, u, i as int) == o.counts[u],
                forall|u: int| o.nua <= u < 192 ==> #[trigger] self.counts[u] == o.counts[u],
            decreases n - i,
        {
            let u = self.cell_uas[cell][i] as usize;
            proof {
                lemma_occ_mono(o.cell_uas, cell as int, u as int, i + 1, n as int);
                assert(occ_upto(o.cell_uas, cell as int, u as int, i + 1) == occ_upto(o.cell_uas, cell as int, u as int, i as int) + 1);
            }
            self.counts[u] = self.counts[u] - 1;
            i += 1;
        }
        proof {
            assert forall|u: int| 0 <= u < self.nua implies #[trigger] self.counts[u] >= clues_in(self.sets@[u], cells.update(cell as int, 0), 81) by {
                lemma_clues_split(o.sets@[u], cells, cell as int, 81);
                assert(occ(o.cell_uas, o.lens, cell as int, u) <= if o.sets@[u].contains(cell as int) { 1nat } else { 0nat });
            }
            assert forall|g: Seq<u8>| o.sound(g) implies #[trigger] self.sound(g) by {
                assert forall|u: int| 0 <= u < self.size() implies #[trigger] unavoidable(self.set_of(u), g) && well_sized(
                    self.set_of(u),
                ) by {
                    assert(unavoidable(o.set_of(u), g));
                }
            }
        }
    }
}

/// Parent links that climb strictly in rank, every rank within `0..=bound`.
pub open spec fn forest(parent: [usize; 81], rank: Seq<int>, bound: int) -> bool {
    &&& rank.len() == 81
    &&& forall|i: int| 0 <= i < 81 ==> #[trigger] parent[i] < 81
    &&& forall|i: int| 0 <= i < 81 ==> 0 <= #[trigger] rank[i] <= bound
    &&& forall|i: int| 0 <= i < 81 && #[trigger] parent[i] != i ==> rank[parent[i] as int] > rank[i]
}

/// The cell reached from `x` by at most `fuel` parent links, stopping at a root.
pub open spec fn climb(parent: [usize; 81], x: int, fuel: nat) -> int
    decreases fuel,
{
    if fuel == 0 || parent[x] as int == x {
        x
    } else {
        climb(parent, parent[x] as int, (fuel - 1) as nat)
    }
}

/// The root of `x`'s tree in a forest whose ranks stay within `0..=27`.
pub open spec fn root_of(parent: [usize; 81], x: int) -> int {
    climb(parent, x, 28)
}

/// With more fuel than rank left to climb, the climb ends at a root, whatever
/// the fuel.
proof fn lemma_climb_fuel(parent: [usize; 81], rank: Seq<int>, bound: int, x: int, f1: nat, f2: nat)
    requires
        forest(parent, rank, bound),
        0 <= x < 81,
        f1 > bound - rank[x],
        f2 > bound - rank[x],
    ensures
        climb(parent, x, f1) == climb(parent, x, f2),
        0 <= climb(parent, x, f1) < 81,
        parent[climb(parent, x, f1)] == climb(parent, x, f1),
    decreases f1,
{
    if parent[x] as int != x {
        lemma_climb_fuel(parent, rank, bound, parent[x] as int, (f1 - 1) as nat, (f2 - 1) as nat);
    }
}

/// A root is a root of the forest, and a cell shares the root of its parent.
proof fn lemma_root_step(parent: [usize; 81], rank: Seq<int>, bound: int, x: int)
    requires
        forest(parent, rank, bound),
        bound <= 27,
        0 <= x < 81,
    ensures
        0 <= root_of(parent, x) < 81,
        parent[root_of(parent, x)] == root_of(parent, x),
        root_of(parent, x) == root_of(parent, parent[x] as int),
        parent[x] as int == x ==> root_of(parent, x) == x,
{
    lemma_climb_fuel(parent, rank, bound, x, 28, 28);
    if parent[x] as int != x {
        lemma_climb_fuel(parent, rank, bound, parent[x] as int, 27, 28);
    }
}

/// Linking root `ra` under root `rb` sends the cells of `ra`'s tree to `rb` and
/// leaves every other root in place.
proof fn lemma_union_roots(p: [usize; 81], rank: Seq<int>, bound: int, p2: [usize; 81], rank2: Seq<int>, bound2: int,
    ra: int, rb: int, x: int)
    requires
        forest(p, rank, bound),
        forest(p2, rank2, bound2),
        bound <= 27,
        bound2 <= 27,
        0 <= ra < 81,
        0 <= rb < 81,
        ra != rb,
        p[ra] as int == ra,
        p[rb] as int == rb,
        p2@ == p@.update(ra, rb as usize),
        0 <= x < 81,
    ensures
        root_of(p2, x) == if root_of(p, x) == ra { rb } else { root_of(p, x) },
    decreases bound - rank[x],
{
    lemma_root_step(p, rank, bound, x);
    lemma_root_step(p2, rank2, bound2, x);
    if p[x] as int == x {
        if x == ra {
            lemma_root_step(p2, rank2, bound2, rb);
        }
    } else {
        lemma_union_roots(p, rank, bound, p2, rank2, bound2, ra, rb, p[x] as int);
    }
}

/// The root of `x`'s tree.
fn find(parent: &[usize; 81], x: usize, Ghost(rank): Ghost<Seq<int>>, Ghost(bound): Ghost<int>) -> (r: usize)
    requires
        forest(*parent, rank, bound),
        bound <= 27,
        x < 81,
    ensures
        r < 81,
        parent[r as int] == r,
        rank[r as int] >= rank[x as int],
        r == root_of(*parent, x as int),
{
    let mut r = x;
    while parent[r] != r
        invariant
            forest(*parent, rank, bound),
            bound <= 27,
            r < 81,
            rank[r as int] >= rank[x as int],
            root_of(*parent, r as int) == root_of(*parent, x as int),
        decreases bound - rank[r as int],
    {
        proof {
            lemma_root_step(*parent, rank, bound, r as int);
        }
        r = parent[r];
    }
    proof {
        lemma_root_step(*parent, rank, bound, r as int);
    }
    r
}

/// Cell `r * 9 + c` names row `r` and column `c`.
proof fn lemma_cell_rc(r: int, c: int)
    requires
        0 <= r < 9,
        0 <= c < 9,
    ensures
        crate::grid::row_spec(r * 9 + c) == r,
        crate::grid::col_spec(r * 9 + c) == c,
        crate::grid::box_spec(r * 9 + c) == (r / 3) * 3 + c / 3,
        0 <= r * 9 + c < 81,
{
    vstd::arithmetic::div_mod::lemma_fundamental_div_mod_converse(r * 9 + c, 9, r, c);
}

/// The four corners of the rectangle on rows `r1`, `r2` and columns `c1`, `c2`.
pub open spec fn rect_set(r1: int, r2: int, c1: int, c2: int) -> Set<int> {
    set![r1 * 9 + c1, r1 * 9 + c2, r2 * 9 + c1, r2 * 9 + c2]
}

/// Cell `t` of row `l` (`by_rows`) or of column `l`.
pub open spec fn line_cell(by_rows: bool, l: int, t: int) -> int {
    if by_rows {
        l * 9 + t
    } else {
        t * 9 + l
    }
}

/// Crosses `t1` and `t2` of lines `l0` and `l1` carry one digit pair crosswise:
/// a deadly rectangle.
pub open spec fn rect_at(g: Seq<u8>, by_rows: bool, l0: int, l1: int, t1: int, t2: int) -> bool {
    &&& g[line_cell(by_rows, l0, t1)] == g[line_cell(by_rows, l1, t2)]
    &&& g[line_cell(by_rows, l1, t1)] == g[line_cell(by_rows, l0, t2)]
}

/// The four cells of that rectangle.
pub open spec fn rect_of(by_rows: bool, l0: int, l1: int, t1: int, t2: int) -> Set<int> {
    if by_rows {
        rect_set(l0, l1, t1, t2)
    } else {
        rect_set(t1, t2, l0, l1)
    }
}

/// `s` is a deadly rectangle of lines `l0`, `l1` whose second cross lies
/// below `hi`.
pub open spec fn rect_in(s: Set<int>, g: Seq<u8>, by_rows: bool, l0: int, l1: int, hi: int) -> bool {
    exists|t1: int, t2: int| 0 <= t1 < t2 < hi && #[trigger] rect_at(g, by_rows, l0, l1, t1, t2) && s == rect_of(by_rows, l0, l1, t1, t2)
}

/// A rectangle of two given lines fixes its two crosses.
proof fn lemma_rect_crosses(by_rows: bool, l0: int, l1: int, t1: int, t2: int, u1: int, u2: int)
    requires
        0 <= l0 < 9,
        0 <= l1 < 9,
        l0 != l1,
        0 <= t1 < t2 < 9,
        0 <= u1 < u2 < 9,
        rect_of(by_rows, l0, l1, t1, t2) == rect_of(by_rows, l0, l1, u1, u2),
    ensures
        t1 == u1 && t2 == u2,
{
    let s = rect_of(by_rows, l0, l1, t1, t2);
    let s2 = rect_of(by_rows, l0, l1, u1, u2);
    if by_rows {
        assert(s.contains(l0 * 9 + t1) && s.contains(l0 * 9 + t2));
        assert(s2.contains(l0 * 9 + u1) && s2.contains(l0 * 9 + u2));
    } else {
        assert(s.contains(t1 * 9 + l0) && s.contains(t2 * 9 + l0));
        assert(s2.contains(u1 * 9 + l0) && s2.contains(u2 * 9 + l0));
    }
}

/// In a full grid the two crosses of a deadly rectangle lie in different
/// boxes' stripes: the rectangle spans two boxes.
proof fn lemma_rect_spans(g: Seq<u8>, by_rows: bool, l0: int, l1: int, t1: int, t2: int)
    requires
        solved(g),
        0 <= l0 < 9,
        0 <= l1 < 9,
        l0 != l1,
        l0 / 3 == l1 / 3,
        0 <= t1 < t2 < 9,
        rect_at(g, by_rows, l0, l1, t1, t2),
    ensures
        t1 / 3 != t2 / 3,
{
    let i = line_cell(by_rows, l0, t1);
    let j = line_cell(by_rows, l1, t2);
    if by_rows {
        lemma_cell_rc(l0, t1);
        lemma_cell_rc(l1, t2);
    } else {
        lemma_cell_rc(t1, l0);
        lemma_cell_rc(t2, l1);
    }
    if t1 / 3 == t2 / 3 {
        assert(is_peer(i, j));
        assert(no_conflict_at(g, i));
        assert(blocked(g, i, g[i]));
    }
}

/// Two rectangles of one orientation that are one set lie on the same lines.
proof fn lemma_rect_same_lines(by_rows: bool, a0: int, a1: int, t1: int, t2: int, b0: int, b1: int, u1: int, u2: int)
    requires
        0 <= a0 < a1 < 9,
        0 <= b0 < b1 < 9,
        0 <= t1 < t2 < 9,
        0 <= u1 < u2 < 9,
        rect_of(by_rows, a0, a1, t1, t2) == rect_of(by_rows, b0, b1, u1, u2),
    ensures
        a0 == b0 && a1 == b1,
{
    let s1 = rect_of(by_rows, a0, a1, t1, t2);
    let s2 = rect_of(by_rows, b0, b1, u1, u2);
    if by_rows {
        assert(s1.contains(a0 * 9 + t1) && s1.contains(a1 * 9 + t1));
        assert(s2.contains(b0 * 9 + u1) && s2.contains(b1 * 9 + u1));
    } else {
        assert(s1.contains(t1 * 9 + a0) && s1.contains(t1 * 9 + a1));
        assert(s2.contains(u1 * 9 + b0) && s2.contains(u1 * 9 + b1));
    }
}

/// A row rectangle that is also a column rectangle of one stack has both its
/// columns in that stack.
proof fn lemma_rect_cross_orient(a0: int, a1: int, t1: int, t2: int, b0: int, b1: int, u1: int, u2: int)
    requires
        0 <= a0 < a1 < 9,
        0 <= b0 < b1 < 9,
        b0 / 3 == b1 / 3,
        0 <= t1 < t2 < 9,
        0 <= u1 < u2 < 9,
        rect_of(true, a0, a1, t1, t2) == rect_of(false, b0, b1, u1, u2),
    ensures
        t1 / 3 == t2 / 3,
{
    let s1 = rect_of(true, a0, a1, t1, t2);
    let s2 = rect_of(false, b0, b1, u1, u2);
    assert(s1.contains(a0 * 9 + t1) && s1.contains(a0 * 9 + t2));
    assert(s2.contains(a0 * 9 + t1) && s2.contains(a0 * 9 + t2));
}

/// Line pairs with the same orientation and lines are one pair.
proof fn lemma_pair_inj(p: int, q: int)
    requires
        0 <= p < 18,
        0 <= q < 18,
        pair_rows(p) == pair_rows(q),
        pair_lo(p) == pair_lo(q),
        pair_hi(p) == pair_hi(q),
    ensures
        p == q,
{
}

/// Deadly rectangles of two different line pairs of a full grid are different
/// sets.
proof fn lemma_rect_pairs_differ(g: Seq<u8>, p: int, q: int, s1: Set<int>, s2: Set<int>)
    requires
        solved(g),
        0 <= p < 18,
        0 <= q < 18,
        p != q,
        rect_in(s1, g, pair_rows(p), pair_lo(p), pair_hi(p), 9),
        rect_in(s2, g, pair_rows(q), pair_lo(q), pair_hi(q), 9),
    ensures
        s1 != s2,
{
    let (t1, t2) = choose|t1: int, t2: int| 0 <= t1 < t2 < 9 && #[trigger] rect_at(g, pair_rows(p), pair_lo(p), pair_hi(p), t1, t2)
        && s1 == rect_of(pair_rows(p), pair_lo(p), pair_hi(p), t1, t2);
    let (u1, u2) = choose|u1: int, u2: int| 0 <= u1 < u2 < 9 && #[trigger] rect_at(g, pair_rows(q), pair_lo(q), pair_hi(q), u1, u2)
        && s2 == rect_of(pair_rows(q), pair_lo(q), pair_hi(q), u1, u2);
    let (a0, a1, b0, b1) = (pair_lo(p), pair_hi(p), pair_lo(q), pair_hi(q));
    assert(0 <= a0 < a1 < 9 && a0 / 3 == a1 / 3);
    assert(0 <= b0 < b1 < 9 && b0 / 3 == b1 / 3);
    if s1 == s2 {
        if pair_rows(p) == pair_rows(q) {
            lemma_rect_same_lines(pair_rows(p), a0, a1, t1, t2, b0, b1, u1, u2);
            lemma_pair_inj(p, q);
        } else if pair_rows(p) {
            lemma_rect_spans(g, true, a0, a1, t1, t2);
            lemma_rect_cross_orient(a0, a1, t1, t2, b0, b1, u1, u2);
        } else {
            lemma_rect_spans(g, true, b0, b1, u1, u2);
            lemma_rect_cross_orient(b0, b1, u1, u2, a0, a1, t1, t2);
        }
    }
}

/// The nine cross lines of rows `a`, `b` (`rows`) or of columns `a`, `b`: cross
/// `t` holds the two cells where the lines meet column (row) `t`.
fn pair_lines(a: usize, b: usize, rows: bool) -> (lines: [[usize; 2]; 9])
    requires
        a < 9,
        b < 9,
    ensures
        forall|t: int| 0 <= t < 9 ==> #[trigger] lines[t][0] == (if rows { a * 9 + t } else { t * 9 + a }) && lines[t][1] == (if rows {
            b * 9 + t
        } else {
            t * 9 + b
        }),
{
    let mut lines = [[0usize; 2]; 9];
    let mut t: usize = 0;
    while t < 9
        invariant
            0 <= t <= 9,
            a < 9,
            b < 9,
            forall|q: int| 0 <= q < t ==> #[trigger] lines[q][0] == (if rows { a * 9 + q } else { q * 9 + a }) && lines[q][1] == (if rows {
                b * 9 + q
            } else {
                q * 9 + b
            }),
        decreases 9 - t,
    {
        lines[t] = if rows {
            [a * 9 + t, b * 9 + t]
        } else {
            [t * 9 + a, t * 9 + b]
        };
        t += 1;
    }
    lines
}

/// `s` is a deadly rectangle of one of the first `n` line pairs.
pub open spec fn rect_before(s: Set<int>, g: Seq<u8>, n: int) -> bool {
    exists|p: int| 0 <= p < n && #[trigger] rect_in(s, g, pair_rows(p), pair_lo(p), pair_hi(p), 9)
}

/// Two runs of distinct sets, different from each other, make one run.
proof fn lemma_distinct_join(s: Seq<Set<int>>, lo: int, mid: int, hi: int)
    requires
        lo <= mid <= hi,
        sets_distinct(s, lo, mid),
        sets_distinct(s, mid, hi),
        forall|u1: int, u2: int| lo <= u1 < mid && mid <= u2 < hi ==> #[trigger] s[u1] != #[trigger] s[u2],
    ensures
        sets_distinct(s, lo, hi),
{
    reveal(sets_distinct);
    assert forall|u1: int, u2: int| lo <= u1 < u2 < hi implies #[trigger] s[u1] != #[trigger] s[u2] by {
        if u2 < mid {
        } else if u1 >= mid {
        } else {
            assert(s[u1] != s[u2]);
        }
    }
}

/// Pushing a set that differs from every set from `lo` on keeps them distinct.
proof fn lemma_distinct_push(s0: Seq<Set<int>>, x: Set<int>, lo: int)
    requires
        0 <= lo <= s0.len(),
        sets_distinct(s0, lo, s0.len() as int),
        forall|u: int| lo <= u < s0.len() ==> #[trigger] s0[u] != x,
    ensures
        sets_distinct(s0.push(x), lo, s0.len() + 1int),
{
    reveal(sets_distinct);
    let s1 = s0.push(x);
    assert forall|u1: int, u2: int| lo <= u1 < u2 < s0.len() + 1 implies #[trigger] s1[u1] != #[trigger] s1[u2] by {
        if u2 < s0.len() {
            assert(s0[u1] != s0[u2]);
        } else {
            assert(s0[u1] != x);
        }
    }
}

/// In a full grid the cells of one line hold distinct digits.
proof fn lemma_line_distinct(g: Seq<u8>, by_rows: bool, l: int, t1: int, t2: int)
    requires
        solved(g),
        0 <= l < 9,
        0 <= t1 < 9,
        0 <= t2 < 9,
        t1 != t2,
    ensures
        g[line_cell(by_rows, l, t1)] != g[line_cell(by_rows, l, t2)],
{
    let i = line_cell(by_rows, l, t1);
    let j = line_cell(by_rows, l, t2);
    if by_rows {
        lemma_cell_rc(l, t1);
        lemma_cell_rc(l, t2);
    } else {
        lemma_cell_rc(t1, l);
        lemma_cell_rc(t2, l);
    }
    assert(is_peer(i, j));
    assert(no_conflict_at(g, i));
    if g[i] == g[j] {
        assert(blocked(g, i, g[i]));
    }
}

/// In a full grid, a cell's only peer in a line holding a given digit is the
/// line's cell of that digit: two peers holding one digit coincide.
proof fn lemma_same_digit(g: Seq<u8>, i: int, j: int)
    requires
        solved(g),
        0 <= i < 81,
        0 <= j < 81,
        is_peer(i, j),
    ensures
        g[i] != g[j],
{
    assert(no_conflict_at(g, i));
    if g[i] == g[j] {
        assert(blocked(g, i, g[i]));
    }
}

/// A deadly rectangle: rows `r1`, `r2` and columns `c1`, `c2`, within one band or
/// one stack, whose diagonal corners hold the same digit, are an unavoidable set.
proof fn lemma_rectangle(g: Seq<u8>, r1: int, r2: int, c1: int, c2: int)
    requires
        solved(g),
        0 <= r1 < 9,
        0 <= r2 < 9,
        0 <= c1 < 9,
        0 <= c2 < 9,
        r1 != r2,
        c1 != c2,
        r1 / 3 == r2 / 3 || c1 / 3 == c2 / 3,
        g[r1 * 9 + c1] == g[r2 * 9 + c2],
        g[r1 * 9 + c2] == g[r2 * 9 + c1],
    ensures
        unavoidable(rect_set(r1, r2, c1, c2), g),
{
    let s = rect_set(r1, r2, c1, c2);
    let (i00, i01, i10, i11) = (r1 * 9 + c1, r1 * 9 + c2, r2 * 9 + c1, r2 * 9 + c2);
    lemma_cell_rc(r1, c1);
    lemma_cell_rc(r1, c2);
    lemma_cell_rc(r2, c1);
    lemma_cell_rc(r2, c2);
    assert(is_peer(i00, i01));
    lemma_same_digit(g, i00, i01);
    let x = g[i00];
    let y = g[i01];
    let (a, b) = if x < y { (x, y) } else { (y, x) };
    assert(1 <= a < b <= 9);
    assert(on_digits(s, g, a, b));
    // Each corner's partner in its row, in its column, and in its box (the box
    // partner lies along the band's column or the stack's row).
    assert forall|i: int, j: int|
        0 <= i < 81 && 0 <= j < 81 && #[trigger] is_peer(i, j) && on_ab(g, i, a, b) && on_ab(g, j, a, b)
            && s.contains(i) implies s.contains(j) by {
        let ri = crate::grid::row_spec(i);
        let ci = crate::grid::col_spec(i);
        let rp = if ri == r1 { r2 } else { r1 };
        let cp = if ci == c1 { c2 } else { c1 };
        let row_mate = ri * 9 + cp;
        let col_mate = rp * 9 + ci;
        lemma_cell_rc(ri, cp);
        lemma_cell_rc(rp, ci);
        assert(s.contains(row_mate) && s.contains(col_mate));
        assert(is_peer(i, row_mate) && is_peer(i, col_mate));
        lemma_same_digit(g, i, row_mate);
        lemma_same_digit(g, i, col_mate);
        lemma_same_digit(g, i, j);
        let mate = if crate::grid::row_spec(j) == ri {
            row_mate
        } else if crate::grid::col_spec(j) == ci {
            col_mate
        } else if r1 / 3 == r2 / 3 {
            col_mate
        } else {
            row_mate
        };
        assert(crate::grid::box_spec(mate) == crate::grid::box_spec(i) || crate::grid::row_spec(mate) == ri
            || crate::grid::col_spec(mate) == ci);
        assert(g[j] == g[mate]);
        if j != mate {
            assert(is_peer(j, mate));
            lemma_same_digit(g, j, mate);
        }
    }
    lemma_swap_solved(g, s, a, b);
    assert(s.contains(i00));
}

impl UaFilter {
    /// A sound library stays sound when a set joins it that is unavoidable and
    /// well sized, or when its sets stay as they are.
    proof fn lemma_sound_push(before: Self, after: Self, g: Seq<u8>, s: Set<int>)
        requires
            before.wf(),
            before.sound(g),
            after.sets@ == before.sets@.push(s) && after.nua == before.nua + 1 && unavoidable(s, g) && well_sized(s)
                || after.sets@ == before.sets@ && after.nua == before.nua,
        ensures
            after.sound(g),
    {
        assert forall|u: int| 0 <= u < after.size() implies #[trigger] unavoidable(after.set_of(u), g) && well_sized(
            after.set_of(u),
        ) by {
            if u < before.nua {
                assert(after.sets@[u] == before.sets@[u]);
                assert(unavoidable(before.set_of(u), g));
            }
        }
    }

    /// Register the deadly rectangles found among the nine cross lines `lines` of
    /// one line pair: a line whose two digits read `(x, y)` pairs with an earlier
    /// one reading `(y, x)`. `seen` and `stamp` record, per signature, the line
    /// carrying it in the current generation `era`. The line pair is rows `l0`,
    /// `l1` of one band (`by_rows`) or columns `l0`, `l1` of one stack.
    fn scan(&mut self, g: &[u8; 81], seen: &mut [u8; 100], stamp: &mut [u16; 100], era: u16, lines: &[[usize; 2]; 9],
        Ghost(by_rows): Ghost<bool>, Ghost(l0): Ghost<int>, Ghost(l1): Ghost<int>)
        requires
            old(self).wf(),
            old(self).covers_all(),
            forall|i: int| 0 <= i < 81 ==> #[trigger] g[i] <= 9,
            0 <= l0 < 9,
            0 <= l1 < 9,
            l0 != l1,
            l0 / 3 == l1 / 3,
            forall|t: int| 0 <= t < 9 ==> #[trigger] lines[t][0] == (if by_rows { l0 * 9 + t } else { t * 9 + l0 })
                && lines[t][1] == (if by_rows { l1 * 9 + t } else { t * 9 + l1 }),
            forall|s: int| 0 <= s < 100 ==> #[trigger] old(stamp)[s] < era,
            solved(g@) ==> old(self).sound(g@),
        ensures
            final(self).wf(),
            final(self).covers_all(),
            forall|s: int| 0 <= s < 100 ==> #[trigger] final(stamp)[s] <= era,
            solved(g@) ==> final(self).sound(g@),
            old(self).nua <= final(self).nua,
            forall|u: int| 0 <= u < old(self).nua ==> #[trigger] final(self).sets@[u] == old(self).sets@[u],
            solved(g@) && final(self).nua < UA_CAP ==> forall|t1: int, t2: int| 0 <= t1 < t2 < 9 && #[trigger] rect_at(g@, by_rows, l0, l1, t1, t2)
                ==> has_set(*final(self), old(self).nua as int, rect_of(by_rows, l0, l1, t1, t2)),
            solved(g@) ==> sets_distinct(final(self).sets@, old(self).nua as int, final(self).nua as int),
            solved(g@) ==> forall|u: int| old(self).nua <= u < final(self).nua ==> #[trigger] rect_in(final(self).sets@[u], g@, by_rows, l0, l1, 9),
    {
        proof {
            reveal(sets_distinct);
        }
        let mut cross: usize = 0;
        while cross < 9
            invariant
                0 <= cross <= 9,
                self.wf(),
                self.covers_all(),
                forall|i: int| 0 <= i < 81 ==> #[trigger] g[i] <= 9,
                0 <= l0 < 9,
                0 <= l1 < 9,
                l0 != l1,
                l0 / 3 == l1 / 3,
                forall|t: int| 0 <= t < 9 ==> #[trigger] lines[t][0] == (if by_rows { l0 * 9 + t } else { t * 9 + l0 })
                    && lines[t][1] == (if by_rows { l1 * 9 + t } else { t * 9 + l1 }),
                forall|s: int| 0 <= s < 100 ==> #[trigger] stamp[s] <= era,
                forall|s: int| 0 <= s < 100 && #[trigger] stamp[s] == era ==> seen[s] < cross
                    && s == g[lines[seen[s] as int][0] as int] * 10 + g[lines[seen[s] as int][1] as int],
                solved(g@) ==> self.sound(g@),
                old(self).nua <= self.nua,
                forall|u: int| 0 <= u < old(self).nua ==> #[trigger] self.sets@[u] == old(self).sets@[u],
                solved(g@) ==> forall|t: int| 0 <= t < cross ==> stamp[#[trigger] (g[lines[t][0] as int] * 10 + g[lines[t][1] as int])] == era
                    && seen[g[lines[t][0] as int] * 10 + g[lines[t][1] as int]] == t,
                solved(g@) && self.nua < UA_CAP ==> forall|t1: int, t2: int| 0 <= t1 < t2 < cross && #[trigger] rect_at(g@, by_rows, l0, l1, t1, t2)
                    ==> has_set(*self, old(self).nua as int, rect_of(by_rows, l0, l1, t1, t2)),
                solved(g@) ==> sets_distinct(self.sets@, old(self).nua as int, self.nua as int),
                solved(g@) ==> forall|u: int| old(self).nua <= u < self.nua ==> #[trigger] rect_in(self.sets@[u], g@, by_rows, l0, l1, cross as int),
            decreases 9 - cross,
        {
            let ghost s_in = *self;
            let ghost stamp_in = *stamp;
            let ghost seen_in = *seen;
            let ghost mut pushed_other: int = -1;
            proof {
                if by_rows {
                    lemma_cell_rc(l0, cross as int);
                    lemma_cell_rc(l1, cross as int);
                } else {
                    lemma_cell_rc(cross as int, l0);
                    lemma_cell_rc(cross as int, l1);
                }
            }
            let p = lines[cross][0];
            let q = lines[cross][1];
            let x = g[p] as usize;
            let y = g[q] as usize;
            let swapped = y * 10 + x;
            if stamp[swapped] == era {
                let other = seen[swapped] as usize;
                let quad = [lines[other][0], lines[other][1], p, q];
                let ghost o = other as int;
                let ghost cr = cross as int;
                proof {
                    assert(g[lines[o][0] as int] == y && g[lines[o][1] as int] == x);
                    if by_rows {
                        lemma_cell_rc(l0, o);
                        lemma_cell_rc(l1, o);
                    } else {
                        lemma_cell_rc(o, l0);
                        lemma_cell_rc(o, l1);
                    }
                    assert forall|t1: int, t2: int| 0 <= t1 < t2 < quad@.len() implies #[trigger] quad@[t1] != #[trigger] quad@[t2] by {
                    }
                }
                let ghost old_nua = self.nua;
                let ghost old_sets = self.sets@;
                let ghost before = *self;
                self.push_ua(&quad);
                proof {
                    pushed_other = o;
                    if solved(g@) && old_nua < UA_CAP {
                        let rs = if by_rows { rect_set(l0, l1, o, cr) } else { rect_set(o, cr, l0, l1) };
                        if by_rows {
                            lemma_rectangle(g@, l0, l1, o, cr);
                        } else {
                            lemma_rectangle(g@, o, cr, l0, l1);
                        }
                        assert(cell_set(quad@) =~= rs) by {
                            assert forall|c: int| #[trigger] cell_set(quad@).contains(c) implies rs.contains(c) by {
                                let t = choose|t: int| 0 <= t < quad@.len() && quad@[t] == c as usize;
                            }
                            assert forall|c: int| #[trigger] rs.contains(c) implies cell_set(quad@).contains(c) by {
                                if c == quad@[0] as int {
                                    assert(quad@[0] == c as usize);
                                } else if c == quad@[1] as int {
                                    assert(quad@[1] == c as usize);
                                } else if c == quad@[2] as int {
                                    assert(quad@[2] == c as usize);
                                } else {
                                    assert(quad@[3] == c as usize);
                                }
                            }
                        }
                        lemma_set_len(quad@);
                        Self::lemma_sound_push(before, *self, g@, cell_set(quad@));
                        assert(self.sets@[old_nua as int] == rect_of(by_rows, l0, l1, o, cr));
                        assert(rect_at(g@, by_rows, l0, l1, o, cr));
                        assert forall|u: int| old(self).nua <= u < old_sets.len() implies #[trigger] old_sets[u] != rect_of(by_rows, l0, l1, o, cr) by {
                            assert(rect_in(before.sets@[u], g@, by_rows, l0, l1, cr));
                            let (t1, t2) = choose|t1: int, t2: int| 0 <= t1 < t2 < cr && #[trigger] rect_at(g@, by_rows, l0, l1, t1, t2)
                                && before.sets@[u] == rect_of(by_rows, l0, l1, t1, t2);
                            if old_sets[u] == rect_of(by_rows, l0, l1, o, cr) {
                                lemma_rect_crosses(by_rows, l0, l1, t1, t2, o, cr);
                            }
                        }
                        lemma_distinct_push(old_sets, rect_of(by_rows, l0, l1, o, cr), old(self).nua as int);
                        assert forall|u: int| old(self).nua <= u < self.nua implies #[trigger] rect_in(self.sets@[u], g@, by_rows, l0, l1, cr + 1) by {
                            if u < old_sets.len() {
                                assert(rect_in(before.sets@[u], g@, by_rows, l0, l1, cr));
                                let (t1, t2) = choose|t1: int, t2: int| 0 <= t1 < t2 < cr && #[trigger] rect_at(g@, by_rows, l0, l1, t1, t2)
                                    && before.sets@[u] == rect_of(by_rows, l0, l1, t1, t2);
                                assert(self.sets@[u] == before.sets@[u]);
                            } else {
                                assert(u == old_nua as int);
                            }
                        }
                    } else if solved(g@) {
                        Self::lemma_sound_push(before, *self, g@, cell_set(quad@));
                    }
                }
            }
            let sig = x * 10 + y;
            seen[sig] = cross as u8;
            stamp[sig] = era;
            proof {
                assert forall|s: int| 0 <= s < 100 && #[trigger] stamp[s] == era implies seen[s] < cross + 1
                    && s == g[lines[seen[s] as int][0] as int] * 10 + g[lines[seen[s] as int][1] as int] by {
                }
                assert(s_in.nua <= self.nua);
                assert forall|u: int| 0 <= u < old(self).nua implies #[trigger] self.sets@[u] == old(self).sets@[u] by {
                    assert(self.sets@[u] == s_in.sets@[u]);
                }
                if solved(g@) {
                    assert forall|t: int| 0 <= t < cross + 1 implies stamp[#[trigger] (g[lines[t][0] as int] * 10 + g[lines[t][1] as int])] == era
                        && seen[g[lines[t][0] as int] * 10 + g[lines[t][1] as int]] == t by {
                        if t < cross {
                            lemma_line_distinct(g@, by_rows, l0, t, cross as int);
                            assert(g[lines[t][0] as int] * 10 + g[lines[t][1] as int] != sig);
                        }
                    }
                    if self.nua < UA_CAP {
                        assert forall|t1: int, t2: int| 0 <= t1 < t2 < cross + 1 && #[trigger] rect_at(g@, by_rows, l0, l1, t1, t2)
                            implies has_set(*self, old(self).nua as int, rect_of(by_rows, l0, l1, t1, t2)) by {
                            if t2 < cross {
                                lemma_has_set_grows(s_in, *self, old(self).nua as int, rect_of(by_rows, l0, l1, t1, t2));
                            } else {
                                assert(g[lines[t1][0] as int] * 10 + g[lines[t1][1] as int] == swapped);
                                assert(stamp_in[swapped as int] == era);
                                assert(seen_in[swapped as int] == t1);
                                assert(pushed_other == t1);
                                assert(self.sets@[s_in.nua as int] == rect_of(by_rows, l0, l1, t1, t2));
                            }
                        }
                    }
                }
            }
            proof {
                if solved(g@) {
                    assert forall|u: int| old(self).nua <= u < self.nua implies #[trigger] rect_in(self.sets@[u], g@, by_rows, l0, l1, cross + 1) by {
                        if u < s_in.nua {
                            assert(self.sets@[u] == s_in.sets@[u]);
                            assert(rect_in(s_in.sets@[u], g@, by_rows, l0, l1, cross as int));
                            let (t1, t2) = choose|t1: int, t2: int| 0 <= t1 < t2 < cross && #[trigger] rect_at(g@, by_rows, l0, l1, t1, t2)
                                && s_in.sets@[u] == rect_of(by_rows, l0, l1, t1, t2);
                        }
                    }
                }
            }
            cross += 1;
        }
    }

    /// Register every deadly rectangle of the full grid `g`: for each pair of rows
    /// in one band, then each pair of columns in one stack, the cross lines whose
    /// digits swap.
    #[verifier::rlimit(60)]
    pub(crate) fn enumerate_ua4(&mut self, g: &[u8; 81])
        requires
            old(self).wf(),
            old(self).covers_all(),
            forall|i: int| 0 <= i < 81 ==> #[trigger] g[i] <= 9,
            solved(g@) ==> old(self).sound(g@),
        ensures
            final(self).wf(),
            final(self).covers_all(),
            solved(g@) ==> final(self).sound(g@),
            old(self).nua <= final(self).nua,
            forall|u: int| 0 <= u < old(self).nua ==> #[trigger] final(self).sets@[u] == old(self).sets@[u],
            solved(g@) && final(self).nua < UA_CAP ==> forall|by_rows: bool, l0: int, l1: int, t1: int, t2: int|
                0 <= l0 < l1 < 9 && l0 / 3 == l1 / 3 && 0 <= t1 < t2 < 9 && #[trigger] rect_at(g@, by_rows, l0, l1, t1, t2)
                    ==> has_set(*final(self), old(self).nua as int, rect_of(by_rows, l0, l1, t1, t2)),
            solved(g@) ==> sets_distinct(final(self).sets@, old(self).nua as int, final(self).nua as int),
            solved(g@) ==> forall|u: int| old(self).nua <= u < final(self).nua ==> #[trigger] rect_before(final(self).sets@[u], g@, 18),
    {
        proof {
            reveal(sets_distinct);
        }
        let mut seen = [0u8; 100];
        let mut stamp = [0u16; 100];
        let mut era: u16 = 0;
        let mut pair: usize = 0;
        while pair < 18
            invariant
                0 <= pair <= 18,
                era == pair,
                self.wf(),
                self.covers_all(),
                forall|i: int| 0 <= i < 81 ==> #[trigger] g[i] <= 9,
                forall|s: int| 0 <= s < 100 ==> #[trigger] stamp[s] <= era,
                solved(g@) ==> self.sound(g@),
                old(self).nua <= self.nua,
                forall|u: int| 0 <= u < old(self).nua ==> #[trigger] self.sets@[u] == old(self).sets@[u],
                solved(g@) && self.nua < UA_CAP ==> forall|p: int, t1: int, t2: int| 0 <= p < pair && 0 <= t1 < t2 < 9
                    && #[trigger] rect_at(g@, pair_rows(p), pair_lo(p), pair_hi(p), t1, t2) ==> has_set(*self, old(self).nua as int, rect_of(
                    pair_rows(p),
                    pair_lo(p),
                    pair_hi(p),
                    t1,
                    t2,
                )),
                solved(g@) ==> sets_distinct(self.sets@, old(self).nua as int, self.nua as int),
                solved(g@) ==> forall|u: int| old(self).nua <= u < self.nua ==> #[trigger] rect_before(self.sets@[u], g@, pair as int),
            decreases 18 - pair,
        {
            // Pairs 0..9 are same-band row pairs, 9..18 same-stack column pairs.
            let group = (pair % 9) / 3;
            let which = pair % 3;
            let (i, j) = if which == 0 {
                (0usize, 1usize)
            } else if which == 1 {
                (0usize, 2usize)
            } else {
                (1usize, 2usize)
            };
            let a = group * 3 + i;
            let b = group * 3 + j;
            let lines = pair_lines(a, b, pair < 9);
            era += 1;
            proof {
                assert(a as int == pair_lo(pair as int) && b as int == pair_hi(pair as int));
                assert(a != b && a / 3 == b / 3);
            }
            let ghost s0 = *self;
            self.scan(g, &mut seen, &mut stamp, era, &lines, Ghost(pair < 9), Ghost(a as int), Ghost(b as int));
            proof {
                if solved(g@) && self.nua < UA_CAP {
                    assert forall|p: int, t1: int, t2: int| 0 <= p < pair + 1 && 0 <= t1 < t2 < 9 && #[trigger] rect_at(
                        g@,
                        pair_rows(p),
                        pair_lo(p),
                        pair_hi(p),
                        t1,
                        t2,
                    ) implies has_set(*self, old(self).nua as int, rect_of(pair_rows(p), pair_lo(p), pair_hi(p), t1, t2)) by {
                        if p < pair {
                            lemma_has_set_grows(s0, *self, old(self).nua as int, rect_of(pair_rows(p), pair_lo(p), pair_hi(p), t1, t2));
                        } else {
                            lemma_has_set_grows(*self, *self, s0.nua as int, rect_of(pair_rows(p), pair_lo(p), pair_hi(p), t1, t2));
                            let u = choose|u: int| s0.nua <= u < self.nua && #[trigger] self.sets@[u] == rect_of(pair_rows(p), pair_lo(p), pair_hi(p), t1, t2);
                            assert(self.sets@[u] == rect_of(pair_rows(p), pair_lo(p), pair_hi(p), t1, t2));
                        }
                    }
                }
            }
            proof {
                if solved(g@) {
                    assert forall|u1: int, u2: int| old(self).nua <= u1 < s0.nua && s0.nua <= u2 < self.nua implies #[trigger] self.sets@[u1]
                        != #[trigger] self.sets@[u2] by {
                        assert(self.sets@[u1] == s0.sets@[u1]);
                        assert(rect_before(s0.sets@[u1], g@, pair as int));
                        let p = choose|p: int| 0 <= p < pair && #[trigger] rect_in(s0.sets@[u1], g@, pair_rows(p), pair_lo(p), pair_hi(p), 9);
                        assert(rect_in(self.sets@[u2], g@, pair < 9, a as int, b as int, 9));
                        assert(pair_rows(pair as int) == (pair < 9));
                        lemma_rect_pairs_differ(g@, p, pair as int, s0.sets@[u1], self.sets@[u2]);
                    }
                    assert(sets_distinct(self.sets@, old(self).nua as int, s0.nua as int)) by {
                        reveal(sets_distinct);
                        assert forall|u1: int, u2: int| old(self).nua <= u1 < u2 < s0.nua implies #[trigger] self.sets@[u1]
                            != #[trigger] self.sets@[u2] by {
                            assert(self.sets@[u1] == s0.sets@[u1] && self.sets@[u2] == s0.sets@[u2]);
                            assert(s0.sets@[u1] != s0.sets@[u2]);
                        }
                    }
                    lemma_distinct_join(self.sets@, old(self).nua as int, s0.nua as int, self.nua as int);
                    assert forall|u: int| old(self).nua <= u < self.nua implies #[trigger] rect_before(self.sets@[u], g@, pair + 1) by {
                        if u < s0.nua {
                            assert(self.sets@[u] == s0.sets@[u]);
                            assert(rect_before(s0.sets@[u], g@, pair as int));
                            let p = choose|p: int| 0 <= p < pair && #[trigger] rect_in(s0.sets@[u], g@, pair_rows(p), pair_lo(p), pair_hi(p), 9);
                            assert(rect_in(self.sets@[u], g@, pair_rows(p), pair_lo(p), pair_hi(p), 9));
                        } else {
                            assert(rect_in(self.sets@[u], g@, pair < 9, a as int, b as int, 9));
                            assert(rect_in(self.sets@[u], g@, pair_rows(pair as int), pair_lo(pair as int), pair_hi(pair as int), 9));
                        }
                    }
                }
            }
            pair += 1;
        }
        proof {
            if solved(g@) && self.nua < UA_CAP {
                assert forall|by_rows: bool, l0: int, l1: int, t1: int, t2: int|
                    0 <= l0 < l1 < 9 && l0 / 3 == l1 / 3 && 0 <= t1 < t2 < 9 && #[trigger] rect_at(g@, by_rows, l0, l1, t1, t2)
                        implies has_set(*self, old(self).nua as int, rect_of(by_rows, l0, l1, t1, t2)) by {
                    let w: int = if l0 % 3 == 0 && l1 % 3 == 1 { 0 } else if l0 % 3 == 0 { 1 } else { 2 };
                    let p: int = (if by_rows { 0int } else { 9int }) + (l0 / 3) * 3 + w;
                    assert(pair_lo(p) == l0 && pair_hi(p) == l1 && pair_rows(p) == by_rows);
                    assert(rect_at(g@, pair_rows(p), pair_lo(p), pair_hi(p), t1, t2));
                }
            }
        }
    }

    /// Register every two-digit cycle set of the full grid `g`: for each digit
    /// pair, join within every unit its two cells holding the pair's digits; each
    /// connected component of the pair's cells is one set, registered in the order
    /// its first cell comes.
    #[verifier::rlimit(60)]
    pub(crate) fn enumerate_2digit(&mut self, g: &[u8; 81])
        requires
            old(self).wf(),
            old(self).covers_all(),
            solved(g@) ==> old(self).sound(g@),
        ensures
            final(self).wf(),
            final(self).covers_all(),
            solved(g@) ==> final(self).sound(g@),
            old(self).nua <= final(self).nua,
            forall|u: int| 0 <= u < old(self).nua ==> #[trigger] final(self).sets@[u] == old(self).sets@[u],
            final(self).nua < UA_CAP ==> forall|a: u8, b: u8, x: int| 1 <= a < b <= 9 && 0 <= x < 81 && on_ab(g@, x, a, b)
                ==> #[trigger] covered_by_new(*final(self), old(self).nua as int, g@, a, b, x),
            forall|u: int| 0 <= u < old(self).nua ==> #[trigger] final(self).counts[u] == old(self).counts[u],
            forall|u: int| old(self).nua <= u < final(self).nua ==> #[trigger] final(self).counts[u] == members_below(final(self).sets@[u], 81),
            solved(g@) ==> sets_distinct(final(self).sets@, old(self).nua as int, final(self).nua as int),
    {
        let mut parent = [0usize; 81];
        let ghost o = *self;
        proof {
            reveal(sets_distinct);
        }
        let mut a: u8 = 1;
        while a <= 9
            invariant
                1 <= a <= 10,
                self.wf(),
                self.covers_all(),
                solved(g@) ==> self.sound(g@),
                o.nua <= self.nua,
                forall|u: int| 0 <= u < o.nua ==> #[trigger] self.sets@[u] == o.sets@[u],
                forall|u: int| 0 <= u < o.nua ==> #[trigger] self.counts[u] == o.counts[u],
                forall|u: int| o.nua <= u < self.nua ==> #[trigger] self.counts[u] == members_below(self.sets@[u], 81),
                self.nua < UA_CAP ==> forall|a2: u8, b2: u8, x: int| 1 <= a2 < b2 <= 9 && a2 < a && 0 <= x < 81 && on_ab(g@, x, a2, b2)
                    ==> #[trigger] covered_by_new(*self, o.nua as int, g@, a2, b2, x),
                solved(g@) ==> sets_distinct(self.sets@, o.nua as int, self.nua as int),
                solved(g@) ==> forall|u: int| o.nua <= u < self.nua ==> #[trigger] from_pair_before(self.sets@[u], g@, a as int, a + 1),
            decreases 10 - a,
        {
            let mut b: u8 = a + 1;
            while b <= 9
                invariant
                    1 <= a <= 9,
                    a + 1 <= b <= 10,
                    self.wf(),
                    self.covers_all(),
                    solved(g@) ==> self.sound(g@),
                    o.nua <= self.nua,
                    forall|u: int| 0 <= u < o.nua ==> #[trigger] self.sets@[u] == o.sets@[u],
                    forall|u: int| 0 <= u < o.nua ==> #[trigger] self.counts[u] == o.counts[u],
                    forall|u: int| o.nua <= u < self.nua ==> #[trigger] self.counts[u] == members_below(self.sets@[u], 81),
                    self.nua < UA_CAP ==> forall|a2: u8, b2: u8, x: int| 1 <= a2 < b2 <= 9 && (a2 < a || (a2 == a && b2 < b)) && 0 <= x
                        < 81 && on_ab(g@, x, a2, b2) ==> #[trigger] covered_by_new(*self, o.nua as int, g@, a2, b2, x),
                    solved(g@) ==> sets_distinct(self.sets@, o.nua as int, self.nua as int),
                    solved(g@) ==> forall|u: int| o.nua <= u < self.nua ==> #[trigger] from_pair_before(self.sets@[u], g@, a as int, b as int),
                decreases 10 - b,
            {
                let ghost s0 = *self;
                self.join_pair(g, &mut parent, a, b);
                proof {
                    assert forall|u: int| o.nua <= u < self.nua implies #[trigger] self.counts[u] == members_below(self.sets@[u], 81) by {
                        if u < s0.nua {
                            assert(self.counts[u] == s0.counts[u]);
                            assert(self.sets@[u] == s0.sets@[u]);
                        }
                    }
                    if solved(g@) {
                        assert forall|u: int| s0.nua <= u < self.nua implies pair_cells(#[trigger] self.sets@[u], g@, a, b) by {
                            assert(is_some_class(self.sets@[u], g@, parent, a, b));
                            let r = choose|r: int| #[trigger] is_class(self.sets@[u], g@, parent, a, b, r);
                        }
                        lemma_distinct_extend(s0.sets@, self.sets@, o.nua as int, s0.nua as int, self.nua as int, g@, a, b);
                    }
                    if self.nua < UA_CAP {
                        assert forall|a2: u8, b2: u8, x: int| 1 <= a2 < b2 <= 9 && (a2 < a || (a2 == a && b2 < b + 1)) && 0 <= x < 81
                            && on_ab(g@, x, a2, b2) implies #[trigger] covered_by_new(*self, o.nua as int, g@, a2, b2, x) by {
                            if a2 == a && b2 == b {
                                let u = choose|u: int| s0.nua <= u < self.nua && #[trigger] self.sets@[u].contains(x);
                                assert(is_some_class(self.sets@[u], g@, parent, a, b));
                                let r = choose|r: int| #[trigger] is_class(self.sets@[u], g@, parent, a, b, r);
                                assert(pair_cells(self.sets@[u], g@, a, b));
                            } else {
                                assert(covered_by_new(s0, o.nua as int, g@, a2, b2, x));
                                let u = choose|u: int| o.nua <= u < s0.nua && #[trigger] s0.sets@[u].contains(x) && pair_cells(
                                    s0.sets@[u],
                                    g@,
                                    a2,
                                    b2,
                                );
                                assert(self.sets@[u] == s0.sets@[u]);
                            }
                        }
                    }
                }
                b += 1;
            }
            let ghost a_old = a;
            let ghost b_old = b;
            a += 1;
            proof {
                if solved(g@) {
                    assert forall|u: int| o.nua <= u < self.nua implies #[trigger] from_pair_before(self.sets@[u], g@, a as int, a + 1) by {
                        assert(from_pair_before(self.sets@[u], g@, a_old as int, b_old as int));
                        reveal(from_pair_before);
                        let (a2, b2) = choose|a2: u8, b2: u8| 1 <= a2 < b2 <= 9 && (a2 < a_old || (a2 == a_old && b2 < b_old))
                            && #[trigger] pair_cells(self.sets@[u], g@, a2, b2) && has_both(self.sets@[u], g@, a2, b2);
                        assert(a2 < a);
                    }
                }
            }
        }
    }

    /// The components of digit pair `{a, b}`, registered as sets in the order of
    /// their first cells; past the capacity new components are dropped.
    fn join_pair(&mut self, g: &[u8; 81], parent: &mut [usize; 81], a: u8, b: u8)
        requires
            old(self).wf(),
            old(self).covers_all(),
            1 <= a < b <= 9,
            solved(g@) ==> old(self).sound(g@),
        ensures
            final(self).wf(),
            final(self).covers_all(),
            solved(g@) ==> final(self).sound(g@),
            old(self).nua <= final(self).nua,
            forall|u: int| 0 <= u < old(self).nua ==> #[trigger] final(self).sets@[u] == old(self).sets@[u],
            forall|u: int| old(self).nua <= u < final(self).nua ==> inhabited(#[trigger] final(self).sets@[u]),
            forall|u: int| old(self).nua <= u < final(self).nua ==> is_some_class(#[trigger] final(self).sets@[u], g@, *final(parent), a, b),
            final(self).nua < UA_CAP ==> forall|x: int| 0 <= x < 81 && #[trigger] on_ab(g@, x, a, b) ==> exists|u: int| old(self).nua
                <= u < final(self).nua && #[trigger] final(self).sets@[u].contains(x),
            forall|u: int| 0 <= u < old(self).nua ==> #[trigger] final(self).counts[u] == old(self).counts[u],
            forall|u: int| old(self).nua <= u < final(self).nua ==> #[trigger] final(self).counts[u] == members_below(final(self).sets@[u], 81),
            sets_distinct(final(self).sets@, old(self).nua as int, final(self).nua as int),
            solved(g@) ==> sets_have_both(final(self).sets@, old(self).nua as int, final(self).nua as int, g@, a, b),
    {
        let rank_w = join_units(g, parent, a, b);
        let ghost rank = rank_w@;
        let ghost o = *self;
        let ghost start = self.nua as int;
        let mut roots: Vec<(usize, u8)> = Vec::new();
        let mut cell: usize = 0;
        while cell < 81
            invariant
                0 <= cell <= 81,
                1 <= a < b <= 9,
                forest(*parent, rank, 27),
                self.wf(),
                self.covers_all(),
                start == o.nua,
                start <= self.nua,
                forall|u: int| 0 <= u < start ==> #[trigger] self.sets@[u] == o.sets@[u],
                solved(g@) ==> o.sound(g@),
                roots@.len() == self.nua - start,
                forall|t: int| 0 <= t < roots@.len() ==> #[trigger] roots@[t].1 == start + t,
                forall|t1: int, t2: int| 0 <= t1 < t2 < roots@.len() ==> #[trigger] roots@[t1].0 != #[trigger] roots@[t2].0,
                forall|t: int, x: int| 0 <= t < roots@.len() ==>
                    (#[trigger] self.sets@[start + t].contains(x) <==> (0 <= x < cell && on_ab(g@, x, a, b)
                        && root_of(*parent, x) == roots@[t].0)),
                forall|t: int| 0 <= t < roots@.len() ==> inhabited(#[trigger] self.sets@[start + t]),
                forall|t: int| 0 <= t < roots@.len() ==> #[trigger] self.counts[start + t] <= cell,
                forall|t: int| 0 <= t < roots@.len() ==> #[trigger] self.counts[start + t] == members_below(self.sets@[start + t], 81),
                forall|u: int| 0 <= u < start ==> #[trigger] self.counts[u] == o.counts[u],
                self.nua < UA_CAP ==> forall|x: int| 0 <= x < cell && #[trigger] on_ab(g@, x, a, b)
                    ==> exists|t: int| 0 <= t < roots@.len() && #[trigger] roots@[t].0 == root_of(*parent, x),
            decreases 81 - cell,
        {
            if g[cell] == a || g[cell] == b {
                let ghost roots0 = roots@;
                let ghost s0 = *self;
                let r = find(parent, cell, Ghost(rank), Ghost(27));
                let mut id: u8 = 0;
                let mut found_root = false;
                let mut t: usize = 0;
                while t < roots.len()
                    invariant_except_break
                        0 <= t <= roots@.len(),
                        !found_root,
                        forall|q: int| 0 <= q < t ==> #[trigger] roots@[q].0 != r,
                    ensures
                        found_root ==> exists|q: int| 0 <= q < roots@.len() && #[trigger] roots@[q].1 == id && roots@[q].0 == r,
                        !found_root ==> forall|q: int| 0 <= q < roots@.len() ==> #[trigger] roots@[q].0 != r,
                    decreases roots@.len() - t,
                {
                    if roots[t].0 == r {
                        id = roots[t].1;
                        found_root = true;
                        break;
                    }
                    t += 1;
                }
                if found_root || self.nua < UA_CAP {
                    if !found_root {
                        id = self.open_set();
                        roots.push((r, id));
                    }
                    let ghost q: int = id - start;
                    let ghost s1 = *self;
                    proof {
                        assert(0 <= q < roots@.len());
                        assert(roots@[q].0 == r) by {
                            if found_root {
                                let w = choose|w: int| 0 <= w < roots0.len() && #[trigger] roots0[w].1 == id && roots0[w].0 == r;
                                assert(w == q);
                            }
                        }
                        assert(!self.sets@[id as int].contains(cell as int)) by {
                            if !found_root {
                                assert(self.sets@[id as int] == Set::<int>::empty());
                            } else {
                                assert(self.sets@[start + q] == s0.sets@[start + q]);
                            }
                        }
                        assert(self.counts[id as int] <= cell);
                        lemma_members_insert(self.sets@[id as int], cell as int, 81);
                    }
                    self.counts[id as usize] += 1;
                    self.join(cell, id);
                    proof {
                        assert(s1.counts[id as int] >= members_below(s1.sets@[id as int], 81)) by {
                            if !found_root {
                                lemma_members_empty(81);
                                assert(s1.sets@[id as int] == Set::<int>::empty());
                            } else {
                                assert(s1.sets@[id as int] == s0.sets@[id as int]);
                                assert(s1.counts[id as int] == s0.counts[id as int]);
                            }
                        }
                        assert forall|u: int| 0 <= u < self.nua implies #[trigger] self.counts[u] >= members_below(self.sets@[u], 81) by {
                            if u != id {
                                assert(self.sets@[u] == s1.sets@[u]);
                                assert(u < s0.nua);
                                assert(s1.sets@[u] == s0.sets@[u]);
                                assert(s1.counts[u] == s0.counts[u]);
                            }
                        }
                        assert forall|t: int, x: int| 0 <= t < roots@.len() implies
                            (#[trigger] self.sets@[start + t].contains(x) <==> (0 <= x < cell + 1 && on_ab(g@, x, a, b)
                                && root_of(*parent, x) == roots@[t].0)) by {
                            if t == q {
                                if !found_root {
                                    if 0 <= x < cell && on_ab(g@, x, a, b) && root_of(*parent, x) == r {
                                        let w = choose|w: int| 0 <= w < roots0.len() && #[trigger] roots0[w].0 == root_of(*parent, x);
                                        assert(roots@[w] == roots0[w]);
                                    }
                                } else {
                                    assert(s1.sets@[start + t] == s0.sets@[start + t]);
                                }
                            } else {
                                assert(self.sets@[start + t] == s1.sets@[start + t]);
                                assert(s1.sets@[start + t] == s0.sets@[start + t]);
                                assert(roots@[t] == roots0[t]);
                                assert(roots@[t].0 != roots@[q].0);
                            }
                        }
                        assert forall|t: int| 0 <= t < roots@.len() implies inhabited(#[trigger] self.sets@[start + t]) by {
                            if t == q {
                                assert(self.sets@[start + t].contains(cell as int));
                            } else {
                                assert(self.sets@[start + t] == s0.sets@[start + t]);
                                assert(inhabited(s0.sets@[start + t]));
                            }
                        }
                        assert forall|t: int| 0 <= t < roots@.len() implies #[trigger] self.counts[start + t] <= cell + 1 by {
                        }
                        assert(s1.counts[id as int] == members_below(s1.sets@[id as int], 81)) by {
                            if !found_root {
                                lemma_members_empty(81);
                                assert(s1.sets@[id as int] == Set::<int>::empty());
                            } else {
                                assert(s1.sets@[start + q] == s0.sets@[start + q]);
                                assert(s1.counts[start + q] == s0.counts[start + q]);
                            }
                        }
                        assert forall|t: int| 0 <= t < roots@.len() implies #[trigger] self.counts[start + t] == members_below(
                            self.sets@[start + t],
                            81,
                        ) by {
                            if t != q {
                                assert(self.sets@[start + t] == s1.sets@[start + t]);
                                assert(s1.sets@[start + t] == s0.sets@[start + t]);
                                assert(s1.counts[start + t] == s0.counts[start + t]);
                                assert(roots@[t] == roots0[t]);
                            }
                        }
                        assert forall|u: int| 0 <= u < start implies #[trigger] self.counts[u] == o.counts[u] by {
                            assert(s1.counts[u] == s0.counts[u]);
                        }
                        if self.nua < UA_CAP {
                            assert forall|x: int| 0 <= x < cell + 1 && #[trigger] on_ab(g@, x, a, b)
                                implies exists|w: int| 0 <= w < roots@.len() && #[trigger] roots@[w].0 == root_of(*parent, x) by {
                                if x == cell {
                                    assert(roots@[q].0 == root_of(*parent, x));
                                } else {
                                    let w = choose|w: int| 0 <= w < roots0.len() && #[trigger] roots0[w].0 == root_of(*parent, x);
                                    assert(roots@[w] == roots0[w]);
                                }
                            }
                        }
                        assert forall|u: int| 0 <= u < start implies #[trigger] self.sets@[u] == o.sets@[u] by {
                            assert(self.sets@[u] == s1.sets@[u]);
                        }
                    }
                } else {
                    proof {
                        assert forall|t: int, x: int| 0 <= t < roots@.len() implies
                            (#[trigger] self.sets@[start + t].contains(x) <==> (0 <= x < cell + 1 && on_ab(g@, x, a, b)
                                && root_of(*parent, x) == roots@[t].0)) by {
                            if x == cell {
                                assert(roots@[t].0 != r);
                            }
                        }
                    }
                }
            } else {
                proof {
                    assert forall|t: int, x: int| 0 <= t < roots@.len() implies
                        (#[trigger] self.sets@[start + t].contains(x) <==> (0 <= x < cell + 1 && on_ab(g@, x, a, b)
                            && root_of(*parent, x) == roots@[t].0)) by {
                        if x == cell {
                            assert(!on_ab(g@, x, a, b));
                        }
                    }
                }
            }
            cell += 1;
        }
        proof {
            assert forall|u: int| start <= u < self.nua implies is_some_class(#[trigger] self.sets@[u], g@, *parent, a, b) by {
                let t = u - start;
                assert(roots@[t].1 == u);
                assert forall|x: int| #[trigger] self.sets@[u].contains(x) <==> (0 <= x < 81 && on_ab(g@, x, a, b)
                    && root_of(*parent, x) == roots@[t].0) by {
                    assert(self.sets@[start + t].contains(x) <==> (0 <= x < cell && on_ab(g@, x, a, b)
                        && root_of(*parent, x) == roots@[t].0));
                }
                assert(is_class(self.sets@[u], g@, *parent, a, b, roots@[t].0 as int));
            }
            lemma_classes_distinct(self.sets@, start, self.nua as int, roots@, g@, *parent, a, b);
            if solved(g@) {
                lemma_classes_have_both(self.sets@, start, self.nua as int, roots@, g@, *parent, a, b);
            }
            assert forall|u: int| start <= u < self.nua implies #[trigger] self.counts[u] == members_below(self.sets@[u], 81) by {
                let t = u - start;
                assert(self.counts[start + t] == members_below(self.sets@[start + t], 81));
            }
            assert forall|u: int| start <= u < self.nua implies inhabited(#[trigger] self.sets@[u]) by {
                let t = u - start;
                assert(inhabited(self.sets@[start + t]));
            }
            if self.nua < UA_CAP {
                assert forall|x: int| 0 <= x < 81 && #[trigger] on_ab(g@, x, a, b) implies exists|u: int| start <= u < self.nua
                    && #[trigger] self.sets@[u].contains(x) by {
                    let w = choose|w: int| 0 <= w < roots@.len() && #[trigger] roots@[w].0 == root_of(*parent, x);
                    assert(self.sets@[start + w].contains(x));
                }
            }
        }
        proof {
            if solved(g@) {
                assert forall|u: int| 0 <= u < self.nua implies #[trigger] unavoidable(self.set_of(u), g@) && well_sized(
                    self.set_of(u),
                ) by {
                    if u < start {
                        assert(self.sets@[u] == o.sets@[u]);
                        assert(unavoidable(o.set_of(u), g@));
                    } else {
                        let t = u - start;
                        assert(roots@[t].1 == u);
                        assert forall|x: int| #[trigger] self.sets@[u].contains(x) <==> (0 <= x < 81 && on_ab(g@, x, a, b)
                            && root_of(*parent, x) == roots@[t].0) by {
                            assert(self.sets@[start + t].contains(x) <==> (0 <= x < cell && on_ab(g@, x, a, b)
                                && root_of(*parent, x) == roots@[t].0));
                        }
                        assert(inhabited(self.sets@[start + t]));
                        lemma_component_unavoidable(g@, *parent, rank, a, b, self.sets@[u], roots@[t].0 as int);
                        lemma_component_size(g@, *parent, a, b, self.sets@[u], roots@[t].0 as int);
                    }
                }
                assert(self.sound(g@));
            }
        }
    }

    /// The `tier`'s library of the full solution grid `g`; in a full grid every
    /// set is unavoidable.
    pub(crate) fn build(g: &[u8; 81], tier: UaTier) -> (f: Self)
        requires
            forall|i: int| 0 <= i < 81 ==> #[trigger] g[i] <= 9,
        ensures
            f.wf(),
            f.covers_all(),
            tier == UaTier::Off ==> f.size() == 0,
            solved(g@) ==> f.sound(g@),
            solved(g@) ==> sets_distinct(f.sets@, 0, f.nua as int),
            tier == UaTier::Ua4 && solved(g@) ==> forall|u: int| 0 <= u < f.nua ==> #[trigger] rect_before(f.sets@[u], g@, 18),
    {
        let mut f = UaFilter::empty();
        proof {
            reveal(sets_distinct);
        }
        match tier {
            UaTier::Off => {},
            UaTier::Ua4 => f.enumerate_ua4(g),
            UaTier::Full => f.enumerate_2digit(g),
        }
        f
    }
}


impl UaFilter {
    /// The `tier`'s library of the full solution grid `g`.
    pub fn of_grid(g: &[u8; 81], tier: UaTier) -> (f: Self)
        requires
            forall|i: int| 0 <= i < 81 ==> #[trigger] g[i] <= 9,
        ensures
            f.wf(),
            f.covers_all(),
            f.size() <= UA_CAP,
            tier == UaTier::Off ==> f.size() == 0,
            solved(g@) ==> f.sound(g@),
    {
        Self::build(g, tier)
    }

    /// Number of sets in the library.
    pub fn len(&self) -> (n: usize)
        ensures
            n == self.size(),
    {
        self.nua
    }

    /// Clue count of set `u`.
    pub fn count_of(&self, u: usize) -> (n: u8)
        requires
            u < UA_CAP,
        ensures
            n == self.count(u as int),
    {
        self.counts[u]
    }

    /// The sets containing cell `cell`, in registration order.
    pub fn sets_of(&self, cell: usize) -> (v: Vec<u8>)
        requires
            self.wf(),
            cell < 81,
        ensures
            v@.len() <= UA_PER_CELL,
            forall|u: int| 0 <= u < 192 ==> (#[trigger] self.has(cell as int, u) <==> v@.contains(u as u8)),
            forall|k: int| 0 <= k < v@.len() ==> v@[k] < self.size() && #[trigger] self.set_of(v@[k] as int).contains(cell as int),
    {
        let n = self.lens[cell] as usize;
        let mut v: Vec<u8> = Vec::new();
        let mut k: usize = 0;
        while k < n
            invariant
                0 <= k <= n,
                n == self.lens[cell as int],
                self.wf(),
                cell < 81,
                v@ == self.cell_uas[cell as int]@.subrange(0, k as int),
            decreases n - k,
        {
            v.push(self.cell_uas[cell][k]);
            proof {
                assert(v@ =~= self.cell_uas[cell as int]@.subrange(0, k + 1));
            }
            k += 1;
        }
        proof {
            assert forall|u: int| 0 <= u < 192 implies (#[trigger] self.has(cell as int, u) <==> v@.contains(u as u8)) by {
                if self.has(cell as int, u) {
                    let k = choose|k: int| 0 <= k < self.lens[cell as int] && #[trigger] self.cell_uas[cell as int][k] == u;
                    assert(v@[k] == u as u8);
                }
                if v@.contains(u as u8) {
                    let k = choose|k: int| 0 <= k < v@.len() && v@[k] == u as u8;
                    assert(self.cell_uas[cell as int][k] == u);
                }
            }
            assert forall|k: int| 0 <= k < v@.len() implies v@[k] < self.size() && #[trigger] self.set_of(v@[k] as int).contains(cell as int) by {
                let u = v@[k] as int;
                assert(self.cell_uas[cell as int][k] == u);
                lemma_occ_present(self.cell_uas, cell as int, u, k, self.lens[cell as int] as int);
                assert(occ(self.cell_uas, self.lens, cell as int, u) >= 1);
            }
        }
        v
    }
}


/// A grid's two-digit set library as cell lists: `uas[i]` is set `i`'s cells with
/// its size, `cell_uas[c]` the sets containing cell `c`.
pub struct UaLib {
    pub uas: Vec<(Vec<usize>, usize)>,
    pub cell_uas: Vec<Vec<usize>>,
}

impl UaLib {
    /// Sizes match the cell lists, cells are cells of the grid, every membership
    /// names a set, and each set lies on two digits `a < b` of `g`.
    pub open spec fn wf(&self, g: Seq<u8>) -> bool {
        lib_ok(self.uas@, self.cell_uas@, g)
    }
}

/// See [`UaLib::wf`].
pub open spec fn lib_ok(uas: Seq<(Vec<usize>, usize)>, cell_uas: Seq<Vec<usize>>, g: Seq<u8>) -> bool {
    &&& lib_shape(uas, cell_uas)
    &&& forall|i: int| 0 <= i < uas.len() ==> #[trigger] on_two_digits(uas[i].0@, g)
}

/// Sizes match the cell lists and stay within the grid, cells are cells of the
/// grid, and every membership names a set.
pub open spec fn lib_shape(uas: Seq<(Vec<usize>, usize)>, cell_uas: Seq<Vec<usize>>) -> bool {
    &&& cell_uas.len() == 81
    &&& forall|i: int| 0 <= i < uas.len() ==> #[trigger] uas[i].1 == uas[i].0@.len() && uas[i].1 <= 81
    &&& forall|i: int, t: int| 0 <= i < uas.len() && 0 <= t < uas[i].0@.len() ==> #[trigger] uas[i].0@[t] < 81
    &&& forall|c: int, t: int| 0 <= c < 81 && 0 <= t < cell_uas[c]@.len() ==> #[trigger] cell_uas[c]@[t] < uas.len()
}

/// The cells of `cells` hold only two digits `a < b` of `g`.
pub open spec fn on_two_digits(cells: Seq<usize>, g: Seq<u8>) -> bool {
    exists|a: u8, b: u8| a < b && #[trigger] on_pair(cells, g, a, b)
}

/// Every cell of `cells` holds `a` or `b` in `g`.
pub open spec fn on_pair(cells: Seq<usize>, g: Seq<u8>, a: u8, b: u8) -> bool {
    forall|t: int| 0 <= t < cells.len() ==> (#[trigger] g[cells[t] as int] == a || g[cells[t] as int] == b)
}

/// The two-digit set library of the full grid `g`: for each digit pair, join within
/// every unit its two cells holding the pair's digits; each connected component of
/// the pair's cells is one set. In a full grid every set is unavoidable.
#[verifier::rlimit(60)]
pub fn enumerate_2digit_uas(g: &[u8; 81]) -> (lib: UaLib)
    ensures
        lib.wf(g@),
        lib.uas@.len() <= 36 * 81,
        solved(g@) ==> forall|i: int| 0 <= i < lib.uas@.len() ==> #[trigger] genuine(lib.uas@[i].0@, g@),
        solved(g@) ==> forall|i: int| 0 <= i < lib.uas@.len() ==> #[trigger] lib.uas@[i].1 % 2 == 0 && lib.uas@[i].1 >= 4,
        solved(g@) ==> lib.uas@.len() > 0,
        lists_match(lib.uas@, lib.cell_uas@),
        forall|a: u8, b: u8, x: int| 1 <= a < b <= 9 && 0 <= x < 81 && on_ab(g@, x, a, b) ==> #[trigger] listed_for(lib.uas@, g@, a, b, x),
{
    let mut uas: Vec<(Vec<usize>, usize)> = Vec::new();
    let mut cell_uas: Vec<Vec<usize>> = Vec::new();
    let mut c: usize = 0;
    while c < 81
        invariant
            0 <= c <= 81,
            cell_uas@.len() == c,
            forall|q: int| 0 <= q < c ==> (#[trigger] cell_uas@[q])@.len() == 0,
        decreases 81 - c,
    {
        cell_uas.push(Vec::new());
        c += 1;
    }
    let mut parent = [0usize; 81];
    let ghost mut pairs: int = 0;
    let mut a: u8 = 1;
    while a <= 9
        invariant
            1 <= a <= 10,
            lib_ok(uas@, cell_uas@, g@),
            lists_match(uas@, cell_uas@),
            2 * pairs == (a - 1) * (18 - a),
            solved(g@) && a > 1 ==> uas@.len() > 0,
            forall|a2: u8, b2: u8, x: int| 1 <= a2 < b2 <= 9 && a2 < a && 0 <= x < 81 && on_ab(g@, x, a2, b2) ==> #[trigger] listed_for(
                uas@,
                g@,
                a2,
                b2,
                x,
            ),
            uas@.len() <= 81 * pairs,
            solved(g@) ==> forall|i: int| 0 <= i < uas@.len() ==> #[trigger] genuine(uas@[i].0@, g@),
            solved(g@) ==> forall|i: int| 0 <= i < uas@.len() ==> #[trigger] uas@[i].1 % 2 == 0 && uas@[i].1 >= 4,
        decreases 10 - a,
    {
        let mut b: u8 = a + 1;
        while b <= 9
            invariant
                1 <= a <= 9,
                a + 1 <= b <= 10,
                lib_ok(uas@, cell_uas@, g@),
                lists_match(uas@, cell_uas@),
                2 * pairs == (a - 1) * (18 - a) + 2 * (b - a - 1),
                solved(g@) && (a > 1 || b > a + 1) ==> uas@.len() > 0,
                forall|a2: u8, b2: u8, x: int| 1 <= a2 < b2 <= 9 && (a2 < a || (a2 == a && b2 < b)) && 0 <= x < 81 && on_ab(g@, x, a2, b2)
                    ==> #[trigger] listed_for(uas@, g@, a2, b2, x),
                uas@.len() <= 81 * pairs,
                solved(g@) ==> forall|i: int| 0 <= i < uas@.len() ==> #[trigger] genuine(uas@[i].0@, g@),
                solved(g@) ==> forall|i: int| 0 <= i < uas@.len() ==> #[trigger] uas@[i].1 % 2 == 0 && uas@[i].1 >= 4,
            decreases 10 - b,
        {
            let rank_w = join_units(g, &mut parent, a, b);
            let ghost rank = rank_w@;
            let ghost start = uas@.len();
            let ghost init = uas@;
            proof {
                assert(pairs <= 35) by (nonlinear_arith)
                    requires
                        2 * pairs == (a - 1) * (18 - a) + 2 * (b - a - 1),
                        1 <= a <= 9,
                        a + 1 <= b <= 9,
                ;
            }
            let mut roots: Vec<(usize, usize)> = Vec::new();
            let mut cell: usize = 0;
            while cell < 81
                invariant
                    0 <= cell <= 81,
                    1 <= a < b <= 9,
                    forest(parent, rank, 27),
                    lib_ok(uas@, cell_uas@, g@),
                    lists_match(uas@, cell_uas@),
                    start <= uas@.len(),
                    start <= 81 * 35,
                    forall|i: int| 0 <= i < start ==> #[trigger] uas@[i] == init[i],
                    forall|i: int| start <= i < uas@.len() ==> #[trigger] on_pair(uas@[i].0@, g@, a, b),
                    roots@.len() == uas@.len() - start,
                    forall|t: int| 0 <= t < roots@.len() ==> #[trigger] roots@[t].1 == start + t,
                    forall|t1: int, t2: int| 0 <= t1 < t2 < roots@.len() ==> #[trigger] roots@[t1].0 != #[trigger] roots@[t2].0,
                    forall|t: int, x: int| 0 <= t < roots@.len() && 0 <= x < 81 ==>
                        (#[trigger] uas@[start + t].0@.contains(x as usize) <==> (x < cell && on_ab(g@, x, a, b)
                            && root_of(parent, x) == roots@[t].0)),
                    forall|t: int| 0 <= t < roots@.len() ==> (#[trigger] uas@[start + t]).0@.len() > 0,
                    forall|x: int| 0 <= x < cell && #[trigger] on_ab(g@, x, a, b)
                        ==> exists|t: int| 0 <= t < roots@.len() && #[trigger] roots@[t].0 == root_of(parent, x),
                    uas@.len() <= start + cell,
                    forall|i: int| start <= i < uas@.len() ==> #[trigger] uas@[i].0@.len() <= cell,
                    forall|i: int, x: int, y: int| start <= i < uas@.len() && 0 <= x < y < uas@[i].0@.len()
                        ==> #[trigger] uas@[i].0@[x] != #[trigger] uas@[i].0@[y],
                decreases 81 - cell,
            {
                if g[cell] == a || g[cell] == b {
                    let ghost head = uas@;
                    let ghost roots0 = roots@;
                    let r = find(&parent, cell, Ghost(rank), Ghost(27));
                    let mut idx: usize = 0;
                    let mut found_root = false;
                    let mut t: usize = 0;
                    while t < roots.len()
                        invariant_except_break
                            0 <= t <= roots@.len(),
                            !found_root,
                            forall|q: int| 0 <= q < t ==> #[trigger] roots@[q].0 != r,
                        ensures
                            found_root ==> exists|q: int| 0 <= q < roots@.len() && #[trigger] roots@[q].1 == idx && roots@[q].0 == r,
                            !found_root ==> forall|q: int| 0 <= q < roots@.len() ==> #[trigger] roots@[q].0 != r,
                        decreases roots@.len() - t,
                    {
                        if roots[t].0 == r {
                            idx = roots[t].1;
                            found_root = true;
                            break;
                        }
                        t += 1;
                    }
                    let ghost q: int = if found_root {
                        choose|q: int| 0 <= q < roots@.len() && #[trigger] roots@[q].1 == idx && roots@[q].0 == r
                    } else {
                        roots@.len() as int
                    };
                    if !found_root {
                        idx = uas.len();
                        uas.push((Vec::new(), 0));
                        roots.push((r, idx));
                    }
                    let ghost before = uas@;
                    let ghost lists0 = cell_uas@;
                    proof {
                        if !found_root {
                            assert forall|i2: int, c2: int| 0 <= i2 < uas@.len() && 0 <= c2 < 81 implies (uas@[i2].0@.contains(c2 as usize)
                                <==> #[trigger] cell_uas@[c2]@.contains(i2 as usize)) by {
                                if i2 == idx {
                                    assert(uas@[i2].0@.len() == 0);
                                    if cell_uas@[c2]@.contains(i2 as usize) {
                                        let w = choose|w: int| 0 <= w < cell_uas@[c2]@.len() && cell_uas@[c2]@[w] == i2 as usize;
                                        assert(cell_uas@[c2]@[w] < head.len());
                                    }
                                } else {
                                    assert(uas@[i2] == head[i2]);
                                }
                            }
                        }
                        assert(lists_match(uas@, cell_uas@));
                        assert(start <= idx < before.len());
                        assert(idx == start + q);
                        assert(roots@[q].0 == r);
                        if found_root {
                            assert(on_pair(head[idx as int].0@, g@, a, b));
                        } else {
                            assert(before[idx as int].0@.len() == 0);
                        }
                        assert(on_pair(before[idx as int].0@, g@, a, b));
                        assert forall|i: int| 0 <= i < head.len() implies before[i] == head[i] by {
                        }
                    }
                    let (mut members, _) = uas.remove(idx);
                    let ghost old_members = members@;
                    members.push(cell);
                    let size = members.len();
                    uas.insert(idx, (members, size));
                    proof {
                        assert(uas@.len() == before.len());
                        assert forall|i: int| 0 <= i < uas@.len() && i != idx implies #[trigger] uas@[i] == before[i] by {
                        }
                        assert(uas@[idx as int].0@ == old_members.push(cell));
                        assert forall|t: int| 0 <= t < uas@[idx as int].0@.len() implies (#[trigger] g@[uas@[idx as int].0@[t] as int] == a
                            || g@[uas@[idx as int].0@[t] as int] == b) by {
                            if t < old_members.len() {
                                assert(uas@[idx as int].0@[t] == old_members[t]);
                            }
                        }
                        assert(on_pair(uas@[idx as int].0@, g@, a, b));
                    }
                    let ghost lists1 = cell_uas@;
                    let mut list = cell_uas.remove(cell);
                    let ghost l0 = list@;
                    list.push(idx);
                    cell_uas.insert(cell, list);
                    proof {
                        assert(cell_uas@ == lists1.update(cell as int, cell_uas@[cell as int]));
                        assert(cell_uas@[cell as int]@ == l0.push(idx));
                        assert(l0 == lists1[cell as int]@);
                        assert forall|i2: int, c2: int| 0 <= i2 < uas@.len() && 0 <= c2 < 81 implies (uas@[i2].0@.contains(c2 as usize)
                            <==> #[trigger] cell_uas@[c2]@.contains(i2 as usize)) by {
                            if i2 == idx {
                                if c2 == cell {
                                    assert(uas@[idx as int].0@[old_members.len() as int] == cell);
                                    assert(cell_uas@[c2]@[l0.len() as int] == idx);
                                } else {
                                    assert(cell_uas@[c2] == lists1[c2]);
                                    if old_members.contains(c2 as usize) {
                                        let e = choose|e: int| 0 <= e < old_members.len() && old_members[e] == c2 as usize;
                                        assert(uas@[idx as int].0@[e] == c2 as usize);
                                    }
                                    if uas@[idx as int].0@.contains(c2 as usize) {
                                        let e = choose|e: int| 0 <= e < uas@[idx as int].0@.len() && uas@[idx as int].0@[e] == c2 as usize;
                                        assert(e < old_members.len());
                                        assert(old_members[e] == c2 as usize);
                                    }
                                    assert(before[idx as int].0@ == old_members);
                                }
                            } else {
                                assert(uas@[i2] == before[i2]);
                                if c2 == cell {
                                    if l0.contains(i2 as usize) {
                                        let e = choose|e: int| 0 <= e < l0.len() && l0[e] == i2 as usize;
                                        assert(cell_uas@[c2]@[e] == i2 as usize);
                                    }
                                    if cell_uas@[c2]@.contains(i2 as usize) {
                                        let e = choose|e: int| 0 <= e < cell_uas@[c2]@.len() && cell_uas@[c2]@[e] == i2 as usize;
                                        assert(cell_uas@[c2]@[l0.len() as int] == idx);
                                        assert(e < l0.len());
                                        assert(l0[e] == i2 as usize);
                                    }
                                } else {
                                    assert(cell_uas@[c2] == lists1[c2]);
                                }
                            }
                        }
                        assert forall|i: int| start <= i < uas@.len() implies #[trigger] on_pair(uas@[i].0@, g@, a, b) by {
                            if i != idx {
                                assert(uas@[i] == before[i]);
                                if i < head.len() {
                                    assert(before[i] == head[i]);
                                }
                            }
                        }
                        assert forall|i: int| start <= i < uas@.len() implies #[trigger] uas@[i].0@.len() <= cell + 1 by {
                            if i != idx {
                                assert(uas@[i] == before[i]);
                                if i < head.len() {
                                    assert(before[i] == head[i]);
                                }
                            }
                        }
                        assert forall|i: int| 0 <= i < uas@.len() implies #[trigger] on_two_digits(uas@[i].0@, g@) by {
                            if i == idx || start <= i {
                                assert(on_pair(uas@[i].0@, g@, a, b));
                            } else {
                                assert(uas@[i] == head[i]);
                                assert(on_two_digits(head[i].0@, g@));
                            }
                        }
                        assert forall|i: int, t: int| 0 <= i < uas@.len() && 0 <= t < uas@[i].0@.len() implies #[trigger] uas@[i].0@[t] < 81 by {
                            if i != idx {
                                assert(uas@[i] == before[i]);
                                if i < head.len() {
                                    assert(before[i] == head[i]);
                                }
                            } else if t < old_members.len() {
                                assert(uas@[idx as int].0@[t] == old_members[t]);
                            }
                        }
                        assert forall|i: int| 0 <= i < start implies #[trigger] uas@[i] == init[i] by {
                            assert(uas@[i] == before[i]);
                            assert(before[i] == head[i]);
                        }
                        assert forall|t: int, x: int| 0 <= t < roots@.len() && 0 <= x < 81 implies
                            (#[trigger] uas@[start + t].0@.contains(x as usize) <==> (x < cell + 1 && on_ab(g@, x, a, b)
                                && root_of(parent, x) == roots@[t].0)) by {
                            if t == q {
                                if found_root {
                                    assert(before[idx as int] == head[idx as int]);
                                    assert(roots@[t] == roots0[t]);
                                    assert(head[start + t].0@.contains(x as usize) <==> (x < cell && on_ab(g@, x, a, b)
                                        && root_of(parent, x) == roots0[t].0));
                                } else {
                                    assert(old_members.len() == 0);
                                    if x < cell && on_ab(g@, x, a, b) && root_of(parent, x) == r {
                                        let w = choose|w: int| 0 <= w < roots0.len() && #[trigger] roots0[w].0 == root_of(parent, x);
                                        assert(roots@[w] == roots0[w]);
                                    }
                                }
                                if old_members.contains(x as usize) {
                                    let e = choose|e: int| 0 <= e < old_members.len() && old_members[e] == x as usize;
                                    assert(uas@[idx as int].0@[e] == x as usize);
                                }
                                if uas@[idx as int].0@.contains(x as usize) && x != cell {
                                    let e = choose|e: int| 0 <= e < uas@[idx as int].0@.len() && uas@[idx as int].0@[e] == x as usize;
                                    assert(e < old_members.len());
                                    assert(old_members[e] == x as usize);
                                }
                                if x == cell {
                                    assert(uas@[idx as int].0@[old_members.len() as int] == cell);
                                }
                            } else {
                                assert(roots@[t] == roots0[t]);
                                assert(uas@[start + t] == before[start + t]);
                                assert(before[start + t] == head[start + t]);
                                assert(roots@[t].0 != roots@[q].0);
                                assert(head[start + t].0@.contains(x as usize) <==> (x < cell && on_ab(g@, x, a, b)
                                    && root_of(parent, x) == roots0[t].0));
                            }
                        }
                        assert forall|t: int| 0 <= t < roots@.len() implies (#[trigger] uas@[start + t]).0@.len() > 0 by {
                            if t != q {
                                assert(uas@[start + t] == before[start + t]);
                                assert(before[start + t] == head[start + t]);
                            }
                        }
                        assert forall|x: int| 0 <= x < cell + 1 && #[trigger] on_ab(g@, x, a, b)
                            implies exists|w: int| 0 <= w < roots@.len() && #[trigger] roots@[w].0 == root_of(parent, x) by {
                            if x == cell {
                                assert(roots@[q].0 == root_of(parent, x));
                            } else {
                                let w = choose|w: int| 0 <= w < roots0.len() && #[trigger] roots0[w].0 == root_of(parent, x);
                                assert(roots@[w] == roots0[w]);
                            }
                        }
                        assert forall|i: int, x: int, y: int| start <= i < uas@.len() && 0 <= x < y < uas@[i].0@.len()
                            implies #[trigger] uas@[i].0@[x] != #[trigger] uas@[i].0@[y] by {
                            if i == idx {
                                assert(uas@[i].0@[x] == old_members[x]);
                                if y < old_members.len() {
                                    assert(uas@[i].0@[y] == old_members[y]);
                                    if i < head.len() {
                                        assert(before[i] == head[i]);
                                    }
                                } else {
                                    assert(old_members.contains(old_members[x]));
                                    assert(before[i] == head[i] || !found_root);
                                    if found_root {
                                        let v = old_members[x] as int;
                                        assert(before[idx as int] == head[idx as int]);
                                        assert(head[idx as int].0@[x] < 81);
                                        assert(0 <= v < 81);
                                        assert(head[start + q].0@.contains(v as usize));
                                        assert(v < cell);
                                    }
                                }
                            } else {
                                assert(uas@[i] == before[i]);
                                if i < head.len() {
                                    assert(before[i] == head[i]);
                                }
                            }
                        }
                    }
                } else {
                    proof {
                        assert forall|t: int, x: int| 0 <= t < roots@.len() && 0 <= x < 81 implies
                            (#[trigger] uas@[start + t].0@.contains(x as usize) <==> (x < cell + 1 && on_ab(g@, x, a, b)
                                && root_of(parent, x) == roots@[t].0)) by {
                            if x == cell {
                                assert(!on_ab(g@, x, a, b));
                            }
                        }
                    }
                }
                cell += 1;
            }
            proof {
                if solved(g@) {
                    crate::grid::lemma_unit_has_digit(g@, 0, a);
                    let k0 = choose|k: int| 0 <= k < 9 && g@[unit_cell(0, k)] == a;
                    lemma_unit_cell_bound(0, k0);
                    assert(on_ab(g@, unit_cell(0, k0), a, b));
                    assert(roots@.len() > 0);
                    assert forall|i: int| 0 <= i < uas@.len() implies #[trigger] genuine(uas@[i].0@, g@) && uas@[i].1 % 2 == 0
                        && uas@[i].1 >= 4 by {
                        if i < start {
                            assert(uas@[i] == init[i]);
                        } else {
                            let t = i - start;
                            assert(roots@[t].1 == i);
                            assert forall|x: int| 0 <= x < 81 implies (#[trigger] uas@[i].0@.contains(x as usize)
                                <==> on_ab(g@, x, a, b) && root_of(parent, x) == roots@[t].0) by {
                                assert(uas@[start + t].0@.contains(x as usize) <==> (x < cell && on_ab(g@, x, a, b)
                                    && root_of(parent, x) == roots@[t].0));
                            }
                            let cs = uas@[i].0@;
                            assert(cs.len() > 0);
                            assert(cell_set(cs).contains(cs[0] as int));
                            assert forall|x: int| #[trigger] cell_set(cs).contains(x) <==> (0 <= x < 81 && on_ab(g@, x, a, b)
                                && root_of(parent, x) == roots@[t].0) by {
                                if 0 <= x < 81 {
                                    assert(cs.contains(x as usize) <==> on_ab(g@, x, a, b) && root_of(parent, x) == roots@[t].0);
                                }
                            }
                            lemma_component_unavoidable(g@, parent, rank, a, b, cell_set(cs), roots@[t].0 as int);
                            lemma_component_size(g@, parent, a, b, cell_set(cs), roots@[t].0 as int);
                            lemma_set_len(cs);
                        }
                    }
                    assert forall|i: int| 0 <= i < uas@.len() implies #[trigger] uas@[i].1 % 2 == 0 && uas@[i].1 >= 4 by {
                        assert(genuine(uas@[i].0@, g@));
                    }
                }
                pairs = pairs + 1;
                assert forall|a2: u8, b2: u8, x: int| 1 <= a2 < b2 <= 9 && (a2 < a || (a2 == a && b2 < b + 1)) && 0 <= x < 81 && on_ab(
                    g@,
                    x,
                    a2,
                    b2,
                ) implies #[trigger] listed_for(uas@, g@, a2, b2, x) by {
                    if a2 == a && b2 == b {
                        let w = choose|w: int| 0 <= w < roots@.len() && #[trigger] roots@[w].0 == root_of(parent, x);
                        assert(uas@[start + w].0@.contains(x as usize));
                        assert(on_pair(uas@[start + w].0@, g@, a, b));
                    } else {
                        assert(listed_for(init, g@, a2, b2, x));
                        let i0 = choose|i0: int| 0 <= i0 < init.len() && #[trigger] init[i0].0@.contains(x as usize) && on_pair(
                            init[i0].0@,
                            g@,
                            a2,
                            b2,
                        );
                        assert(uas@[i0] == init[i0]);
                    }
                }
            }
            b += 1;
        }
        proof {
            assert((a - 1) * (18 - a) + 2 * (10 - a - 1) == a * (17 - a)) by (nonlinear_arith)
                requires
                    1 <= a <= 9,
            ;
        }
        a += 1;
    }
    assert(a == 10);
    assert((a - 1) * (18 - a) == 72);
    assert(pairs == 36);
    UaLib { uas, cell_uas }
}

/// Cell `c` is a member of set `i` exactly when `i` is in cell `c`'s list.
pub open spec fn lists_match(uas: Seq<(Vec<usize>, usize)>, cell_uas: Seq<Vec<usize>>) -> bool {
    forall|i: int, c: int| 0 <= i < uas.len() && 0 <= c < 81 ==> (uas[i].0@.contains(c as usize) <==> #[trigger] cell_uas[c]@.contains(
        i as usize,
    ))
}

/// Some set of `uas` holds cell `x` and only cells holding `a` or `b`.
pub open spec fn listed_for(uas: Seq<(Vec<usize>, usize)>, g: Seq<u8>, a: u8, b: u8, x: int) -> bool {
    exists|i: int| 0 <= i < uas.len() && #[trigger] uas[i].0@.contains(x as usize) && on_pair(uas[i].0@, g, a, b)
}

/// The cells named in `cells`, as a set of cell numbers.
pub open spec fn cell_set(cells: Seq<usize>) -> Set<int> {
    Set::new(|c: int| 0 <= c < 81 && cells.contains(c as usize))
}

/// `g` with digits `a` and `b` swapped over the cells of `s`.
pub open spec fn swap_on(g: Seq<u8>, s: Set<int>, a: u8, b: u8) -> Seq<u8> {
    Seq::new(g.len(), |c: int| if s.contains(c) { if g[c] == a { b } else { a } } else { g[c] })
}

/// Every cell of `s` is a cell of the grid holding `a` or `b` in `g`.
pub open spec fn on_digits(s: Set<int>, g: Seq<u8>, a: u8, b: u8) -> bool {
    forall|c: int| #[trigger] s.contains(c) ==> 0 <= c < 81 && on_ab(g, c, a, b)
}

/// `s` has a member.
pub open spec fn inhabited(s: Set<int>) -> bool {
    exists|c: int| #[trigger] s.contains(c)
}

/// `s` has an even number of cells, at least four.
pub open spec fn well_sized(s: Set<int>) -> bool {
    &&& members_below(s, 81) % 2 == 0
    &&& members_below(s, 81) >= 4
}

/// `s` is an unavoidable set of the full grid `g`: non-empty, on two digits
/// `a < b`, and swapping them over `s` gives another full grid, so a puzzle of
/// `g` with no clue in `s` has a second completion.
pub open spec fn unavoidable(s: Set<int>, g: Seq<u8>) -> bool {
    &&& inhabited(s)
    &&& exists|a: u8, b: u8| a < b && #[trigger] on_digits(s, g, a, b) && solved(swap_on(g, s, a, b))
}

/// The cells of `cells` form an unavoidable set of `g`.
pub open spec fn genuine(cells: Seq<usize>, g: Seq<u8>) -> bool {
    unavoidable(cell_set(cells), g)
}

/// A puzzle of the full grid `g` that leaves every cell of an unavoidable set of
/// `g` empty is not unique: swapping the set's two digits over it gives a second
/// completion, different from `g`.
pub proof fn lemma_unavoidable_second_completion(g: Seq<u8>, s: Set<int>, puzzle: Seq<u8>)
    requires
        unavoidable(s, g),
        puzzle.len() == 81,
        completes(g, puzzle),
        forall|c: int| #[trigger] s.contains(c) ==> puzzle[c] == 0,
    ensures
        exists|t: Seq<u8>| completes(t, puzzle) && t != g,
        exists|t: Seq<u8>| completes(t, puzzle) && forall|c: int| #[trigger] s.contains(c) ==> t[c] != g[c],
{
    let (a, b) = choose|a: u8, b: u8| a < b && #[trigger] on_digits(s, g, a, b) && solved(swap_on(g, s, a, b));
    let t = swap_on(g, s, a, b);
    assert forall|i: int| 0 <= i < 81 && #[trigger] puzzle[i] != 0 implies t[i] == puzzle[i] by {}
    let c = choose|c: int| #[trigger] s.contains(c);
    assert(on_ab(g, c, a, b));
    assert(t[c] != g[c]);
    assert(completes(t, puzzle));
    assert forall|c2: int| #[trigger] s.contains(c2) implies t[c2] != g[c2] by {
        assert(on_ab(g, c2, a, b));
    }
}

/// Swapping `a` and `b` over a set of `a`/`b` cells that holds, with each of its
/// cells, every peer holding `a` or `b`, keeps a full grid full.
pub proof fn lemma_swap_solved(g: Seq<u8>, s: Set<int>, a: u8, b: u8)
    requires
        solved(g),
        1 <= a < b <= 9,
        on_digits(s, g, a, b),
        forall|i: int, j: int|
            0 <= i < 81 && 0 <= j < 81 && #[trigger] is_peer(i, j) && on_ab(g, i, a, b) && on_ab(g, j, a, b)
                && s.contains(i) ==> s.contains(j),
    ensures
        solved(swap_on(g, s, a, b)),
{
    let sw = swap_on(g, s, a, b);
    assert forall|i: int| 0 <= i < 81 implies 1 <= #[trigger] sw[i] <= 9 by {
        if s.contains(i) {
            assert(on_ab(g, i, a, b));
        }
    }
    assert forall|i: int| 0 <= i < 81 implies #[trigger] no_conflict_at(sw, i) by {
        if blocked(sw, i, sw[i]) {
            let j = choose|j: int| 0 <= j < 81 && #[trigger] is_peer(i, j) && sw[j] == sw[i];
            assert(no_conflict_at(g, i));
            assert(g[j] != g[i]) by {
                if g[j] == g[i] {
                    assert(blocked(g, i, g[i]));
                }
            }
            let ii = s.contains(i);
            let jj = s.contains(j);
            if ii && !jj {
                assert(on_ab(g, i, a, b));
                if on_ab(g, j, a, b) {
                    assert(is_peer(i, j));
                }
            } else if jj && !ii {
                assert(on_ab(g, j, a, b));
                if on_ab(g, i, a, b) {
                    assert(is_peer(j, i));
                }
            } else if ii && jj {
                assert(on_ab(g, i, a, b) && on_ab(g, j, a, b));
            }
        }
    }
}

/// Members of `s` among the first `k` cells of row `r`.
pub open spec fn row_members(s: Set<int>, r: int, k: int) -> nat
    decreases k,
{
    if k <= 0 {
        0
    } else {
        row_members(s, r, k - 1) + if s.contains(r * 9 + k - 1) { 1nat } else { 0nat }
    }
}

/// The members below a row's `k`-th cell are those of the rows above plus the
/// row's first `k`.
proof fn lemma_members_row(s: Set<int>, r: int, k: int)
    requires
        0 <= r,
        0 <= k <= 9,
    ensures
        members_below(s, r * 9 + k) == members_below(s, r * 9) + row_members(s, r, k),
    decreases k,
{
    if k > 0 {
        lemma_members_row(s, r, k - 1);
    }
}

/// A row meeting `s` only at slots `ka` and `kb` counts those two.
proof fn lemma_row_two(s: Set<int>, r: int, ka: int, kb: int, k: int)
    requires
        0 <= ka < 9,
        0 <= kb < 9,
        ka != kb,
        forall|q: int| 0 <= q < 9 && #[trigger] s.contains(r * 9 + q) ==> q == ka || q == kb,
        0 <= k <= 9,
    ensures
        row_members(s, r, k) == (if ka < k && s.contains(r * 9 + ka) { 1nat } else { 0nat }) + (if kb < k && s.contains(
            r * 9 + kb,
        ) { 1nat } else { 0nat }),
    decreases k,
{
    if k > 0 {
        lemma_row_two(s, r, ka, kb, k - 1);
    }
}

/// With every row meeting `s` in zero or two cells, `s` has an even number of
/// members, at least the members of any two rows.
proof fn lemma_rows_sum(s: Set<int>, rows: int, r0: int, r1: int)
    requires
        0 <= rows <= 9,
        forall|r: int| 0 <= r < 9 ==> #[trigger] row_members(s, r, 9) == 0 || row_members(s, r, 9) == 2,
        r0 != r1,
    ensures
        members_below(s, rows * 9) % 2 == 0,
        members_below(s, rows * 9) >= (if 0 <= r0 < rows { row_members(s, r0, 9) } else { 0 }) + (if 0 <= r1 < rows {
            row_members(s, r1, 9)
        } else {
            0
        }),
    decreases rows,
{
    if rows > 0 {
        lemma_rows_sum(s, rows - 1, r0, r1);
        lemma_members_row(s, rows - 1, 9);
        assert(row_members(s, rows - 1, 9) == 0 || row_members(s, rows - 1, 9) == 2);
    }
}

/// A set named by a list without repeats has as many members as the list.
proof fn lemma_set_len(cs: Seq<usize>)
    requires
        forall|t: int| 0 <= t < cs.len() ==> #[trigger] cs[t] < 81,
        forall|x: int, y: int| 0 <= x < y < cs.len() ==> #[trigger] cs[x] != #[trigger] cs[y],
    ensures
        members_below(cell_set(cs), 81) == cs.len(),
    decreases cs.len(),
{
    if cs.len() == 0 {
        assert(cell_set(cs) =~= Set::<int>::empty());
        lemma_members_empty(81);
    } else {
        let init = cs.drop_last();
        let last = cs.last() as int;
        lemma_set_len(init);
        assert(cell_set(cs) =~= cell_set(init).insert(last)) by {
            assert forall|c: int| #[trigger] cell_set(cs).contains(c) implies cell_set(init).insert(last).contains(c) by {
                let t = choose|t: int| 0 <= t < cs.len() && cs[t] == c as usize;
                if t < cs.len() - 1 {
                    assert(init[t] == c as usize);
                }
            }
            assert forall|c: int| #[trigger] cell_set(init).insert(last).contains(c) implies cell_set(cs).contains(c) by {
                if c != last {
                    let t = choose|t: int| 0 <= t < init.len() && init[t] == c as usize;
                    assert(cs[t] == c as usize);
                } else {
                    assert(cs[cs.len() - 1] == c as usize);
                }
            }
        }
        assert(!cell_set(init).contains(last)) by {
            if cell_set(init).contains(last) {
                let t = choose|t: int| 0 <= t < init.len() && init[t] == last as usize;
                assert(cs[t] == cs[cs.len() - 1]);
            }
        }
        lemma_members_insert(cell_set(init), last, 81);
    }
}

/// A component of the `a`/`b` cells under a forest that joins every unit meets
/// every row in zero or two cells, and at least two rows: it has an even
/// number of members, at least four.
proof fn lemma_component_size(g: Seq<u8>, parent: [usize; 81], a: u8, b: u8, s: Set<int>, r: int)
    requires
        solved(g),
        1 <= a < b <= 9,
        forall|u: int| 0 <= u < 27 ==> #[trigger] unit_joined(parent, g, a, b, u),
        inhabited(s),
        forall|c: int| #[trigger] s.contains(c) <==> (0 <= c < 81 && on_ab(g, c, a, b) && root_of(parent, c) == r),
    ensures
        members_below(s, 81) % 2 == 0,
        members_below(s, 81) >= 4,
{
    assert forall|row: int| 0 <= row < 9 implies #[trigger] row_members(s, row, 9) == 0 || row_members(s, row, 9) == 2 by {
        let w = lemma_unit_pair(g, row, a, b);
        assert(unit_cell(row, w.0) == row * 9 + w.0);
        assert(unit_cell(row, w.1) == row * 9 + w.1);
        assert(w.0 != w.1);
        assert forall|q: int| 0 <= q < 9 && #[trigger] s.contains(row * 9 + q) implies q == w.0 || q == w.1 by {
            assert(unit_cell(row, q) == row * 9 + q);
            assert(on_ab(g, unit_cell(row, q), a, b));
        }
        lemma_row_two(s, row, w.0, w.1, 9);
        assert(on_ab(g, unit_cell(row, w.0), a, b));
        assert(on_ab(g, unit_cell(row, w.1), a, b));
        assert(unit_joined(parent, g, a, b, row));
        assert(root_of(parent, unit_cell(row, w.0)) == root_of(parent, unit_cell(row, w.1)));
        lemma_cell_rc(row, w.0);
        lemma_cell_rc(row, w.1);
    }
    let x = choose|c: int| #[trigger] s.contains(c);
    let r0 = x / 9;
    let c0 = x % 9;
    lemma_cell_rc(r0, c0);
    let u = 9 + c0;
    let w = lemma_unit_pair(g, u, a, b);
    assert(unit_cell(u, r0) == x);
    assert(on_ab(g, unit_cell(u, r0), a, b));
    assert(r0 == w.0 || r0 == w.1);
    let r1 = if r0 == w.0 { w.1 } else { w.0 };
    let y = r1 * 9 + c0;
    lemma_cell_rc(r1, c0);
    assert(unit_cell(u, r1) == y);
    assert(g[unit_cell(u, w.0)] == a && g[unit_cell(u, w.1)] == b);
    assert(r1 != r0);
    assert(on_ab(g, y, a, b));
    assert(unit_joined(parent, g, a, b, u));
    assert(root_of(parent, unit_cell(u, r0)) == root_of(parent, unit_cell(u, r1)));
    assert(s.contains(y));
    lemma_row_two_nonzero(s, r0, c0);
    lemma_row_two_nonzero(s, r1, c0);
    lemma_rows_sum(s, 9, r0, r1);
}

/// A row with a member at slot `k` has a non-zero count.
proof fn lemma_row_two_nonzero(s: Set<int>, r: int, k: int)
    requires
        0 <= k < 9,
        s.contains(r * 9 + k),
    ensures
        row_members(s, r, 9) > 0,
{
    lemma_row_ge(s, r, k + 1, 9);
}

/// Row counts grow with the prefix.
proof fn lemma_row_ge(s: Set<int>, r: int, i: int, k: int)
    requires
        0 < i <= k,
        s.contains(r * 9 + i - 1),
    ensures
        row_members(s, r, k) > 0,
    decreases k,
{
    if k > i {
        lemma_row_ge(s, r, i, k - 1);
    }
}

/// A non-empty component of the `a`/`b` cells under a forest that joins every
/// unit is an unavoidable set of the full grid.
proof fn lemma_component_unavoidable(g: Seq<u8>, parent: [usize; 81], rank: Seq<int>, a: u8, b: u8, s: Set<int>, r: int)
    requires
        solved(g),
        1 <= a < b <= 9,
        forest(parent, rank, 27),
        forall|u: int| 0 <= u < 27 ==> #[trigger] unit_joined(parent, g, a, b, u),
        inhabited(s),
        forall|c: int| #[trigger] s.contains(c) <==> (0 <= c < 81 && on_ab(g, c, a, b) && root_of(parent, c) == r),
    ensures
        unavoidable(s, g),
{
    assert forall|i: int, j: int|
        0 <= i < 81 && 0 <= j < 81 && #[trigger] is_peer(i, j) && on_ab(g, i, a, b) && on_ab(g, j, a, b)
            && s.contains(i) implies s.contains(j) by {
        let w = crate::grid::lemma_peer_unit(i, j);
        assert(unit_joined(parent, g, a, b, w.0));
        assert(root_of(parent, unit_cell(w.0, w.1)) == root_of(parent, unit_cell(w.0, w.2)));
    }
    lemma_swap_solved(g, s, a, b);
    assert(on_digits(s, g, a, b));
}

/// Cell `c` of `g` holds digit `a` or `b`.
pub open spec fn on_ab(g: Seq<u8>, c: int, a: u8, b: u8) -> bool {
    g[c] == a || g[c] == b
}

/// `s` is the class of root `r` among the cells holding `a` or `b`.
pub open spec fn is_class(s: Set<int>, g: Seq<u8>, parent: [usize; 81], a: u8, b: u8, r: int) -> bool {
    forall|x: int| #[trigger] s.contains(x) <==> (0 <= x < 81 && on_ab(g, x, a, b) && root_of(parent, x) == r)
}

/// Every cell of `s` holds `a` or `b` in `g`.
pub open spec fn pair_cells(s: Set<int>, g: Seq<u8>, a: u8, b: u8) -> bool {
    forall|y: int| #[trigger] s.contains(y) ==> 0 <= y < 81 && on_ab(g, y, a, b)
}

/// Some set of `f` from index `lo` on holds cell `x` and only cells holding `a`
/// or `b`.
pub(crate) open spec fn covered_by_new(f: UaFilter, lo: int, g: Seq<u8>, a: u8, b: u8, x: int) -> bool {
    exists|u: int| lo <= u < f.nua && #[trigger] f.sets@[u].contains(x) && pair_cells(f.sets@[u], g, a, b)
}

/// The lower line of the `p`-th line pair: pairs `0..9` are rows, `9..18`
/// columns; within a band or stack the pairs come as (0, 1), (0, 2), (1, 2).
pub open spec fn pair_lo(p: int) -> int {
    ((p % 9) / 3) * 3 + if p % 3 == 2 { 1int } else { 0int }
}

/// The `p`-th line pair is a pair of rows.
pub open spec fn pair_rows(p: int) -> bool {
    p < 9
}

/// The upper line of the `p`-th line pair.
pub open spec fn pair_hi(p: int) -> int {
    ((p % 9) / 3) * 3 + if p % 3 == 0 { 1int } else { 2int }
}

/// Some set of `f` from index `lo` on is `s`.
pub(crate) open spec fn has_set(f: UaFilter, lo: int, s: Set<int>) -> bool {
    exists|u: int| lo <= u < f.nua && #[trigger] f.sets@[u] == s
}

/// A set held stays held while sets are only added.
proof fn lemma_has_set_grows(f1: UaFilter, f2: UaFilter, lo: int, s: Set<int>)
    requires
        has_set(f1, lo, s),
        0 <= lo,
        f1.nua <= f2.nua,
        forall|u: int| 0 <= u < f1.nua ==> #[trigger] f2.sets@[u] == f1.sets@[u],
    ensures
        has_set(f2, lo, s),
{
    let u = choose|u: int| lo <= u < f1.nua && #[trigger] f1.sets@[u] == s;
    assert(f2.sets@[u] == s);
}

/// `s` holds a cell of digit `a` and a cell of digit `b`.
pub open spec fn has_both(s: Set<int>, g: Seq<u8>, a: u8, b: u8) -> bool {
    &&& exists|c: int| #[trigger] s.contains(c) && g[c] == a
    &&& exists|c: int| #[trigger] s.contains(c) && g[c] == b
}

/// The sets of `sets` from `lo` to `hi` are pairwise different.
#[verifier::opaque]
pub open spec fn sets_distinct(sets: Seq<Set<int>>, lo: int, hi: int) -> bool {
    forall|u1: int, u2: int| lo <= u1 < u2 < hi ==> #[trigger] sets[u1] != #[trigger] sets[u2]
}

/// Each set of `sets` from `lo` to `hi` holds a cell of `a` and a cell of `b`.
#[verifier::opaque]
pub open spec fn sets_have_both(sets: Seq<Set<int>>, lo: int, hi: int, g: Seq<u8>, a: u8, b: u8) -> bool {
    forall|u: int| lo <= u < hi ==> has_both(#[trigger] sets[u], g, a, b)
}

/// `s` lies on the cells of a digit pair before `(a, b)` in lexicographic order
/// and holds both of its digits.
#[verifier::opaque]
pub open spec fn from_pair_before(s: Set<int>, g: Seq<u8>, a: int, b: int) -> bool {
    exists|a2: u8, b2: u8| 1 <= a2 < b2 <= 9 && (a2 < a || (a2 == a && b2 < b)) && #[trigger] pair_cells(s, g, a2, b2) && has_both(
        s,
        g,
        a2,
        b2,
    )
}

/// Appending the pair `(a, b)`'s distinct sets, each holding both `a` and `b`,
/// to sets of earlier pairs keeps all of them distinct, and all now come from
/// pairs before the next one.
proof fn lemma_distinct_extend(s0: Seq<Set<int>>, s1: Seq<Set<int>>, lo: int, mid: int, hi: int, g: Seq<u8>, a: u8, b: u8)
    requires
        1 <= a < b <= 9,
        0 <= lo <= mid <= hi,
        forall|u: int| 0 <= u < mid ==> #[trigger] s1[u] == s0[u],
        sets_distinct(s0, lo, mid),
        sets_distinct(s1, mid, hi),
        forall|u: int| lo <= u < mid ==> #[trigger] from_pair_before(s0[u], g, a as int, b as int),
        sets_have_both(s1, mid, hi, g, a, b),
        forall|u: int| mid <= u < hi ==> pair_cells(#[trigger] s1[u], g, a, b),
    ensures
        sets_distinct(s1, lo, hi),
        forall|u: int| lo <= u < hi ==> #[trigger] from_pair_before(s1[u], g, a as int, b + 1),
{
    reveal(sets_distinct);
    reveal(sets_have_both);
    reveal(from_pair_before);
    assert forall|u1: int, u2: int| lo <= u1 < u2 < hi implies #[trigger] s1[u1] != #[trigger] s1[u2] by {
        if u2 < mid {
            assert(s0[u1] != s0[u2]);
        } else if u1 >= mid {
        } else {
            assert(from_pair_before(s0[u1], g, a as int, b as int));
            let (a2, b2) = choose|a2: u8, b2: u8| 1 <= a2 < b2 <= 9 && (a2 < a || (a2 == a && b2 < b)) && #[trigger] pair_cells(
                s0[u1],
                g,
                a2,
                b2,
            ) && has_both(s0[u1], g, a2, b2);
            assert(s1[u1] == s0[u1]);
            if s1[u1] == s1[u2] {
                assert(has_both(s1[u2], g, a, b));
                let ca = choose|c: int| #[trigger] s1[u2].contains(c) && g[c] == a;
                let cb = choose|c: int| #[trigger] s1[u2].contains(c) && g[c] == b;
                assert(s0[u1].contains(ca) && s0[u1].contains(cb));
                assert(on_ab(g, ca, a2, b2));
                assert(on_ab(g, cb, a2, b2));
            }
        }
    }
    assert forall|u: int| lo <= u < hi implies #[trigger] from_pair_before(s1[u], g, a as int, b + 1) by {
        if u < mid {
            assert(from_pair_before(s0[u], g, a as int, b as int));
            assert(s1[u] == s0[u]);
        } else {
            assert(pair_cells(s1[u], g, a, b) && has_both(s1[u], g, a, b));
        }
    }
}

/// Classes of different roots are different sets.
proof fn lemma_classes_distinct(
    sets: Seq<Set<int>>,
    start: int,
    nua: int,
    roots: Seq<(usize, u8)>,
    g: Seq<u8>,
    parent: [usize; 81],
    a: u8,
    b: u8,
)
    requires
        roots.len() == nua - start,
        forall|t1: int, t2: int| 0 <= t1 < t2 < roots.len() ==> #[trigger] roots[t1].0 != #[trigger] roots[t2].0,
        forall|t: int, x: int| 0 <= t < roots.len() ==> (#[trigger] sets[start + t].contains(x) <==> (0 <= x < 81 && on_ab(g, x, a, b)
            && root_of(parent, x) == roots[t].0)),
        forall|t: int| 0 <= t < roots.len() ==> inhabited(#[trigger] sets[start + t]),
    ensures
        sets_distinct(sets, start, nua),
{
    reveal(sets_distinct);
    assert forall|u1: int, u2: int| start <= u1 < u2 < nua implies #[trigger] sets[u1] != #[trigger] sets[u2] by {
        let t1 = u1 - start;
        let t2 = u2 - start;
        assert(roots[t1].0 != roots[t2].0);
        assert(inhabited(sets[start + t1]));
        let x = choose|x: int| #[trigger] sets[start + t1].contains(x);
        assert(sets[start + t1].contains(x) <==> (0 <= x < 81 && on_ab(g, x, a, b) && root_of(parent, x) == roots[t1].0));
        assert(sets[start + t2].contains(x) <==> (0 <= x < 81 && on_ab(g, x, a, b) && root_of(parent, x) == roots[t2].0));
    }
}

/// In a full grid with joined units, every class holds both digits.
proof fn lemma_classes_have_both(
    sets: Seq<Set<int>>,
    start: int,
    nua: int,
    roots: Seq<(usize, u8)>,
    g: Seq<u8>,
    parent: [usize; 81],
    a: u8,
    b: u8,
)
    requires
        solved(g),
        1 <= a < b <= 9,
        forall|u: int| 0 <= u < 27 ==> #[trigger] unit_joined(parent, g, a, b, u),
        roots.len() == nua - start,
        forall|t: int, x: int| 0 <= t < roots.len() ==> (#[trigger] sets[start + t].contains(x) <==> (0 <= x < 81 && on_ab(g, x, a, b)
            && root_of(parent, x) == roots[t].0)),
        forall|t: int| 0 <= t < roots.len() ==> inhabited(#[trigger] sets[start + t]),
    ensures
        sets_have_both(sets, start, nua, g, a, b),
{
    reveal(sets_have_both);
    assert forall|u: int| start <= u < nua implies has_both(#[trigger] sets[u], g, a, b) by {
        let t = u - start;
        assert(inhabited(sets[start + t]));
        let x = choose|x: int| #[trigger] sets[start + t].contains(x);
        assert forall|c: int| #[trigger] sets[u].contains(c) <==> (0 <= c < 81 && on_ab(g, c, a, b) && root_of(parent, c) == roots[t].0) by {
            assert(sets[start + t].contains(c) <==> (0 <= c < 81 && on_ab(g, c, a, b) && root_of(parent, c) == roots[t].0));
        }
        lemma_row_pair_in_class(g, parent, a, b, sets[u], roots[t].0 as int, x);
    }
}

/// In a full grid whose units are joined, the class of an `a`/`b` cell holds
/// the `a` and the `b` of that cell's row.
proof fn lemma_row_pair_in_class(g: Seq<u8>, parent: [usize; 81], a: u8, b: u8, s: Set<int>, r: int, x: int)
    requires
        solved(g),
        1 <= a < b <= 9,
        forall|u: int| 0 <= u < 27 ==> #[trigger] unit_joined(parent, g, a, b, u),
        forall|c: int| #[trigger] s.contains(c) <==> (0 <= c < 81 && on_ab(g, c, a, b) && root_of(parent, c) == r),
        s.contains(x),
    ensures
        has_both(s, g, a, b),
{
    let row = x / 9;
    let kx = x % 9;
    assert(unit_cell(row, kx) == x);
    crate::grid::lemma_unit_has_digit(g, row, a);
    crate::grid::lemma_unit_has_digit(g, row, b);
    let ka = choose|k: int| 0 <= k < 9 && g[unit_cell(row, k)] == a;
    let kb = choose|k: int| 0 <= k < 9 && g[unit_cell(row, k)] == b;
    lemma_unit_cell_bound(row, ka);
    lemma_unit_cell_bound(row, kb);
    assert(unit_joined(parent, g, a, b, row));
    assert(root_of(parent, unit_cell(row, ka)) == root_of(parent, unit_cell(row, kx)));
    assert(root_of(parent, unit_cell(row, kb)) == root_of(parent, unit_cell(row, kx)));
    assert(s.contains(unit_cell(row, ka)));
    assert(s.contains(unit_cell(row, kb)));
}

/// `s` is one class of the cells holding `a` or `b` under `parent`.
pub open spec fn is_some_class(s: Set<int>, g: Seq<u8>, parent: [usize; 81], a: u8, b: u8) -> bool {
    exists|r: int| #[trigger] is_class(s, g, parent, a, b, r)
}

/// Every two cells of unit `u` holding `a` or `b` share a root.
pub open spec fn unit_joined(parent: [usize; 81], g: Seq<u8>, a: u8, b: u8, u: int) -> bool {
    forall|k1: int, k2: int|
        0 <= k1 < 9 && 0 <= k2 < 9 && on_ab(g, unit_cell(u, k1), a, b) && on_ab(g, unit_cell(u, k2), a, b)
            ==> #[trigger] root_of(parent, unit_cell(u, k1)) == #[trigger] root_of(parent, unit_cell(u, k2))
}

/// In a full grid, unit `u` holds `a` at slot `w.0` and `b` at slot `w.1`, and no
/// other slot holds either.
proof fn lemma_unit_pair(g: Seq<u8>, u: int, a: u8, b: u8) -> (w: (int, int))
    requires
        solved(g),
        0 <= u < 27,
        1 <= a < b <= 9,
    ensures
        0 <= w.0 < 9,
        0 <= w.1 < 9,
        g[unit_cell(u, w.0)] == a,
        g[unit_cell(u, w.1)] == b,
        forall|k: int| 0 <= k < 9 && #[trigger] on_ab(g, unit_cell(u, k), a, b) ==> k == w.0 || k == w.1,
{
    crate::grid::lemma_unit_has_digit(g, u, a);
    crate::grid::lemma_unit_has_digit(g, u, b);
    let ka = choose|k: int| 0 <= k < 9 && g[unit_cell(u, k)] == a;
    let kb = choose|k: int| 0 <= k < 9 && g[unit_cell(u, k)] == b;
    assert forall|k: int| 0 <= k < 9 && #[trigger] on_ab(g, unit_cell(u, k), a, b) implies k == ka || k == kb by {
        if k != ka && k != kb {
            let other = if g[unit_cell(u, k)] == a { ka } else { kb };
            crate::grid::lemma_unit_peers(u, k, other);
            lemma_unit_cell_bound(u, k);
            lemma_unit_cell_bound(u, other);
            let c1 = unit_cell(u, k);
            let c2 = unit_cell(u, other);
            assert(no_conflict_at(g, c1));
            assert(is_peer(c1, c2) && g[c2] == g[c1]);
            assert(blocked(g, c1, g[c1]));
        }
    }
    (ka, kb)
}

/// Linking root `ra` under root `rb` keeps every joined unit joined, and joins
/// unit `u` once each of its `a`/`b` cells is rooted at `ra` or `rb`.
proof fn lemma_join_step(p: [usize; 81], rank: Seq<int>, bound: int, p2: [usize; 81], rank2: Seq<int>, bound2: int,
    g: Seq<u8>, a: u8, b: u8, u: int, ra: int, rb: int)
    requires
        forest(p, rank, bound),
        forest(p2, rank2, bound2),
        bound <= 27,
        bound2 <= 27,
        0 <= ra < 81,
        0 <= rb < 81,
        ra != rb,
        p[ra] as int == ra,
        p[rb] as int == rb,
        p2@ == p@.update(ra, rb as usize),
        0 <= u < 27,
        forall|v: int| 0 <= v < u ==> #[trigger] unit_joined(p, g, a, b, v),
        forall|k: int| 0 <= k < 9 && #[trigger] on_ab(g, unit_cell(u, k), a, b)
            ==> root_of(p, unit_cell(u, k)) == ra || root_of(p, unit_cell(u, k)) == rb,
    ensures
        forall|v: int| 0 <= v <= u ==> #[trigger] unit_joined(p2, g, a, b, v),
{
    assert forall|v: int| 0 <= v <= u implies #[trigger] unit_joined(p2, g, a, b, v) by {
        assert forall|k1: int, k2: int|
            0 <= k1 < 9 && 0 <= k2 < 9 && on_ab(g, unit_cell(v, k1), a, b) && on_ab(g, unit_cell(v, k2), a, b)
            implies #[trigger] root_of(p2, unit_cell(v, k1)) == #[trigger] root_of(p2, unit_cell(v, k2)) by {
            lemma_unit_cell_bound(v, k1);
            lemma_unit_cell_bound(v, k2);
            lemma_union_roots(p, rank, bound, p2, rank2, bound2, ra, rb, unit_cell(v, k1));
            lemma_union_roots(p, rank, bound, p2, rank2, bound2, ra, rb, unit_cell(v, k2));
            if v < u {
                assert(unit_joined(p, g, a, b, v));
                assert(root_of(p, unit_cell(v, k1)) == root_of(p, unit_cell(v, k2)));
            } else {
                assert(on_ab(g, unit_cell(u, k1), a, b));
                assert(on_ab(g, unit_cell(u, k2), a, b));
            }
        }
    }
}

/// Reset `parent` and join, in every unit, its two cells holding `a` or `b`;
/// the ranks witness that the links form a forest. In a full grid every unit
/// ends joined.
fn join_units(g: &[u8; 81], parent: &mut [usize; 81], a: u8, b: u8) -> (rank: Ghost<Seq<int>>)
    requires
        1 <= a < b <= 9,
    ensures
        forest(*final(parent), rank@, 27),
        solved(g@) ==> forall|u: int| 0 <= u < 27 ==> #[trigger] unit_joined(*final(parent), g@, a, b, u),
{
    let mut c: usize = 0;
    while c < 81
        invariant
            0 <= c <= 81,
            forall|i: int| 0 <= i < c ==> #[trigger] parent[i] == i,
        decreases 81 - c,
    {
        parent[c] = c;
        c += 1;
    }
    let ghost mut rank: Seq<int> = Seq::new(81, |i: int| 0int);
    let mut unit: usize = 0;
    while unit < 27
        invariant
            0 <= unit <= 27,
            1 <= a < b <= 9,
            forest(*parent, rank, unit as int),
            solved(g@) ==> forall|v: int| 0 <= v < unit ==> #[trigger] unit_joined(*parent, g@, a, b, v),
        decreases 27 - unit,
    {
        let cells = crate::bb::unit_cells(unit);
        let mut found = [0usize; 2];
        let mut n: usize = 0;
        let mut k: usize = 0;
        let ghost mut ks: Seq<int> = Seq::empty();
        while k < 9
            invariant
                0 <= k <= 9,
                n <= k,
                unit < 27,
                forall|q: int| 0 <= q < 9 ==> #[trigger] cells[q] == unit_cell(unit as int, q) && cells[q] < 81,
                forall|e: int| 0 <= e < 2 ==> #[trigger] found[e] < 81,
                ks.len() == n,
                forall|e: int| 0 <= e < n ==> 0 <= #[trigger] ks[e] < k && on_ab(g@, unit_cell(unit as int, ks[e]), a, b),
                forall|e1: int, e2: int| 0 <= e1 < e2 < n ==> #[trigger] ks[e1] < #[trigger] ks[e2],
                forall|q: int| 0 <= q < k && #[trigger] on_ab(g@, unit_cell(unit as int, q), a, b) ==> ks.contains(q),
                forall|e: int| 0 <= e < n && e < 2 ==> #[trigger] found[e] == unit_cell(unit as int, ks[e]),
            decreases 9 - k,
        {
            let cell = cells[k];
            let ghost ks_before = ks;
            if g[cell] == a || g[cell] == b {
                if n < 2 {
                    found[n] = cell;
                }
                proof {
                    ks = ks.push(k as int);
                }
                n += 1;
            }
            proof {
                assert forall|q: int| 0 <= q < k + 1 && #[trigger] on_ab(g@, unit_cell(unit as int, q), a, b) implies ks.contains(q) by {
                    if q == k {
                        assert(ks[ks.len() - 1] == q);
                    } else {
                        let e = choose|e: int| 0 <= e < ks_before.len() && ks_before[e] == q;
                        assert(ks[e] == q);
                    }
                }
            }
            k += 1;
        }
        let ghost pair = if solved(g@) { lemma_unit_pair(g@, unit as int, a, b) } else { (0int, 0int) };
        proof {
            if solved(g@) {
                assert(on_ab(g@, unit_cell(unit as int, pair.0), a, b));
                assert(on_ab(g@, unit_cell(unit as int, pair.1), a, b));
                assert(ks.contains(pair.0) && ks.contains(pair.1));
                assert forall|e: int| 0 <= e < n implies #[trigger] ks[e] == pair.0 || ks[e] == pair.1 by {
                    assert(on_ab(g@, unit_cell(unit as int, ks[e]), a, b));
                }
                if n >= 3 {
                    assert(ks[0] < ks[1] && ks[1] < ks[2]);
                    assert(ks[0] == pair.0 || ks[0] == pair.1);
                    assert(ks[1] == pair.0 || ks[1] == pair.1);
                    assert(ks[2] == pair.0 || ks[2] == pair.1);
                }
                assert(pair.0 != pair.1);
                if n < 2 {
                    let e0 = choose|e: int| 0 <= e < ks.len() && ks[e] == pair.0;
                    let e1 = choose|e: int| 0 <= e < ks.len() && ks[e] == pair.1;
                    assert(e0 == 0 && e1 == 0);
                }
                assert(n == 2);
            }
        }
        if n == 2 {
            let ra = find(parent, found[0], Ghost(rank), Ghost(unit as int));
            let rb = find(parent, found[1], Ghost(rank), Ghost(unit as int));
            proof {
                if solved(g@) {
                    assert forall|q: int| 0 <= q < 9 && #[trigger] on_ab(g@, unit_cell(unit as int, q), a, b)
                        implies root_of(*parent, unit_cell(unit as int, q)) == ra || root_of(*parent, unit_cell(unit as int, q)) == rb by {
                        assert(q == pair.0 || q == pair.1);
                        assert(ks[0] == pair.0 || ks[0] == pair.1);
                        assert(ks[1] == pair.0 || ks[1] == pair.1);
                    }
                }
            }
            if ra != rb {
                let ghost p0 = *parent;
                let ghost rank0 = rank;
                let ghost lifted = if rank[rb as int] > rank[ra as int] { rank[rb as int] } else { rank[ra as int] + 1 };
                proof {
                    rank = rank.update(rb as int, lifted);
                }
                parent[ra] = rb;
                proof {
                    assert(forest(*parent, rank, unit + 1));
                    if solved(g@) {
                        lemma_join_step(p0, rank0, unit as int, *parent, rank, unit + 1, g@, a, b, unit as int, ra as int, rb as int);
                    }
                }
            } else {
                proof {
                    if solved(g@) {
                        assert(unit_joined(*parent, g@, a, b, unit as int));
                    }
                }
            }
        }
        unit += 1;
    }
    Ghost(rank)
}

} // verus!
