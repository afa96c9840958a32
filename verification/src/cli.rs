//! Command-line spec construction: the `--force NAME[:COUNT]` tokens and the
//! `--toolbox train|drill|full` choice that together describe a [`Spec`].

use vstd::prelude::*;
use crate::kinds::{NUM, name, kind_name};
use crate::spec::{Spec, Status, train_union_status, drill_union_status};
use crate::text::{str_eq, push_str, push_dec, dec, parse_bounded, parse_nat, push_char};
use crate::{train_union, drill_union};

verus! {

/// Which toolbox surrounds the forced kinds.
#[derive(Clone, Copy, PartialEq, Eq, Structural, Debug)]
pub enum Toolbox {
    /// Union of each target's train scope.
    Train,
    /// Union of each target's drill scope: the simpler same-branch peers are
    /// conceded to the avoid-walk only.
    Drill,
    /// The entire ladder allowed.
    Full,
}

/// The name std's `Debug` gives a string: the string in double quotes, with
/// quotes, backslashes and control characters escaped.
pub uninterp spec fn debug_quoted(s: Seq<char>) -> Seq<char>;

/// `format!("{s:?}")`: the `Debug` spelling of a string (see [`debug_quoted`]).
#[verifier::external_body]
pub(crate) fn debug_str(s: &str) -> (r: String)
    ensures
        r@ == debug_quoted(s@),
{
    format!("{s:?}")
}

/// The toolbox a `--toolbox` value selects; anything unknown or missing is Train.
pub open spec fn toolbox_of(s: Option<Seq<char>>) -> Toolbox {
    match s {
        Some(v) => if v == "full"@ {
            Toolbox::Full
        } else if v == "drill"@ {
            Toolbox::Drill
        } else {
            Toolbox::Train
        },
        None => Toolbox::Train,
    }
}

/// The bench-header name of a toolbox.
pub open spec fn toolbox_label(t: Toolbox) -> Seq<char> {
    match t {
        Toolbox::Train => "train-union"@,
        Toolbox::Drill => "drill-union"@,
        Toolbox::Full => "full"@,
    }
}

/// The `--toolbox` token of a toolbox.
pub open spec fn toolbox_token(t: Toolbox) -> Seq<char> {
    match t {
        Toolbox::Train => "train"@,
        Toolbox::Drill => "drill"@,
        Toolbox::Full => "full"@,
    }
}

impl Toolbox {
    /// Parse a `--toolbox` value; unknown or missing falls back to Train.
    pub fn parse(s: Option<&str>) -> (t: Self)
        ensures
            t == toolbox_of(match s {
                Some(v) => Some(v@),
                None => None,
            }),
    {
        match s {
            Some(v) => {
                if str_eq(v, "full") {
                    Toolbox::Full
                } else if str_eq(v, "drill") {
                    Toolbox::Drill
                } else {
                    Toolbox::Train
                }
            },
            None => Toolbox::Train,
        }
    }

    /// The toolbox name as printed in bench headers.
    pub fn label(self) -> (s: &'static str)
        ensures
            s@ == toolbox_label(self),
    {
        match self {
            Toolbox::Train => "train-union",
            Toolbox::Drill => "drill-union",
            Toolbox::Full => "full",
        }
    }

    /// The short `--toolbox` token, which [`Toolbox::parse`] reads back.
    pub fn label_short(self) -> (s: &'static str)
        ensures
            s@ == toolbox_token(self),
    {
        match self {
            Toolbox::Train => "train",
            Toolbox::Drill => "drill",
            Toolbox::Full => "full",
        }
    }
}

/// Reading a toolbox's own token gives the toolbox back.
pub proof fn lemma_toolbox_round_trip(t: Toolbox)
    ensures
        toolbox_of(Some(toolbox_token(t))) == t,
{
    reveal_strlit("train");
    reveal_strlit("drill");
    reveal_strlit("full");
    assert("train"@[0] != "full"@[0] && "train"@[0] != "drill"@[0]);
    assert("drill"@[0] != "full"@[0]);
}

/// `i` is the first `:` of `s`.
pub open spec fn first_colon(s: Seq<char>, i: int) -> bool {
    0 <= i < s.len() && s[i] == ':' && forall|j: int| 0 <= j < i ==> s[j] != ':'
}

/// `s` holds a `:`.
pub open spec fn has_colon(s: Seq<char>) -> bool {
    exists|i: int| 0 <= i < s.len() && s[i] == ':'
}

/// The position of the first `:` of `s`.
pub open spec fn colon_pos(s: Seq<char>) -> int {
    choose|i: int| first_colon(s, i)
}

/// The kind name of a force token: everything before its first `:`.
pub open spec fn force_name(s: Seq<char>) -> Seq<char> {
    if has_colon(s) {
        s.take(colon_pos(s))
    } else {
        s
    }
}

/// The count of a force token: the number after its first `:` when that reads
/// as a `u16`, else 1.
pub open spec fn force_count(s: Seq<char>) -> u16 {
    if has_colon(s) {
        match parse_nat(s.skip(colon_pos(s) + 1)) {
            Some(v) => if v <= 0xffff {
                v as u16
            } else {
                1
            },
            None => 1,
        }
    } else {
        1
    }
}

/// The kind names joined by `", "`, the first `n` of them.
pub open spec fn names_joined(n: int) -> Seq<char>
    decreases n,
{
    if n <= 1 {
        kind_name(0)
    } else {
        names_joined(n - 1) + ", "@ + kind_name(n - 1)
    }
}

/// Every kind name, joined by `", "`.
fn known_names() -> (s: String)
    ensures
        s@ == names_joined(16),
{
    let mut s = String::new();
    push_str(&mut s, name(0));
    let mut k: usize = 1;
    while k < NUM
        invariant
            1 <= k <= 16,
            s@ == names_joined(k as int),
        decreases 16 - k,
    {
        push_str(&mut s, ", ");
        push_str(&mut s, name(k));
        proof {
            assert(s@ =~= names_joined(k as int) + ", "@ + kind_name(k as int));
        }
        k += 1;
    }
    s
}

/// The position of the first `:` of `s`, if any.
fn find_colon(s: &str) -> (r: Option<usize>)
    ensures
        match r {
            Some(i) => first_colon(s@, i as int) && has_colon(s@) && colon_pos(s@) == i,
            None => !has_colon(s@),
        },
{
    let n = s.unicode_len();
    let mut i: usize = 0;
    while i < n
        invariant
            0 <= i <= n,
            n == s@.len(),
            forall|j: int| 0 <= j < i ==> s@[j] != ':',
        decreases n - i,
    {
        if s.get_char(i) == ':' {
            proof {
                assert(first_colon(s@, i as int));
                let w = colon_pos(s@);
                assert(first_colon(s@, w));
                if w < i {
                    assert(s@[w] != ':');
                }
                if w > i {
                    assert(s@[i as int] != ':');
                }
            }
            return Some(i);
        }
        i += 1;
    }
    None
}

/// The first kind at or after `k` named `name`.
pub open spec fn first_kind(name: Seq<char>, k: int) -> Option<usize>
    decreases 16 - k,
{
    if k < 0 || k >= 16 {
        None
    } else if kind_name(k) == name {
        Some(k as usize)
    } else {
        first_kind(name, k + 1)
    }
}

/// What a force token reads as: the kind it names with its count, or the error
/// naming the unknown name and listing the known ones.
pub open spec fn force_parse(tok: Seq<char>) -> Result<(usize, u16), Seq<char>> {
    match first_kind(force_name(tok), 0) {
        Some(k) => Ok((k, force_count(tok))),
        None => Err("unknown kind "@ + debug_quoted(force_name(tok)) + "; known: "@ + names_joined(16)),
    }
}

/// The first kind named `name` from `k` on is `j` when the kinds before `j` bear
/// other names; there is none when no kind from `k` on bears it.
pub proof fn lemma_first_kind(name: Seq<char>, k: int, j: int)
    requires
        0 <= k <= j <= 16,
        forall|i: int| k <= i < j ==> kind_name(i) != name,
    ensures
        j < 16 && kind_name(j) == name ==> first_kind(name, k) == Some(j as usize),
        j == 16 ==> first_kind(name, k) is None,
    decreases j - k,
{
    if k < j {
        lemma_first_kind(name, k + 1, j);
    }
}

/// Read one `NAME[:COUNT]` force token as a (kind, count) pair; the count is 1
/// when absent or unreadable. An unknown name gives an error naming it and
/// listing the known names.
pub fn parse_force(arg: &str) -> (r: Result<(usize, u16), String>)
    ensures
        match r {
            Ok((k, c)) => k < NUM && kind_name(k as int) == force_name(arg@) && c == force_count(arg@)
                && forall|j: int| 0 <= j < k ==> kind_name(j) != force_name(arg@),
            Err(msg) => (forall|j: int| 0 <= j < 16 ==> kind_name(j) != force_name(arg@)) && msg@ == "unknown kind "@
                + debug_quoted(force_name(arg@)) + "; known: "@ + names_joined(16),
        },
        match r {
            Ok(p) => force_parse(arg@) == Ok::<(usize, u16), Seq<char>>(p),
            Err(msg) => force_parse(arg@) == Err::<(usize, u16), Seq<char>>(msg@),
        },
{
    let n = arg.unicode_len();
    let (nm, count) = match find_colon(arg) {
        Some(i) => {
            let rest = arg.substring_char(i + 1, n);
            let c = match parse_bounded(rest, 0xffff) {
                Some(v) => v as u16,
                None => 1u16,
            };
            proof {
                assert(rest@ =~= arg@.skip(i + 1));
                assert(c == force_count(arg@));
            }
            (arg.substring_char(0, i), c)
        },
        None => {
            proof {
                assert(arg@.subrange(0, n as int) =~= arg@);
            }
            (arg.substring_char(0, n), 1u16)
        },
    };
    proof {
        assert(nm@ =~= force_name(arg@));
    }
    let mut k: usize = 0;
    while k < NUM
        invariant
            0 <= k <= 16,
            count == force_count(arg@),
            nm@ == force_name(arg@),
            forall|j: int| 0 <= j < k ==> kind_name(j) != force_name(arg@),
        decreases 16 - k,
    {
        if str_eq(name(k), nm) {
            proof {
                lemma_first_kind(force_name(arg@), 0, k as int);
            }
            return Ok((k, count));
        }
        k += 1;
    }
    proof {
        lemma_first_kind(force_name(arg@), 0, 16);
    }
    let mut msg = String::new();
    push_str(&mut msg, "unknown kind ");
    let q = debug_str(nm);
    push_str(&mut msg, q.as_str());
    push_str(&mut msg, "; known: ");
    let known = known_names();
    push_str(&mut msg, known.as_str());
    Err(msg)
}

/// The kinds of a force list, in order.
pub open spec fn force_kinds(forces: Seq<(usize, u16)>) -> Seq<usize> {
    forces.map_values(|f: (usize, u16)| f.0)
}

/// The count of the last force of kind `k`, the one that wins when a kind is
/// forced twice.
pub open spec fn last_count(forces: Seq<(usize, u16)>, k: int) -> u16
    decreases forces.len(),
{
    if forces.len() == 0 {
        0
    } else if forces.last().0 == k {
        forces.last().1
    } else {
        last_count(forces.drop_last(), k)
    }
}

/// The status `build_spec` gives kind `k`.
pub open spec fn toolbox_status(forces: Seq<(usize, u16)>, toolbox: Toolbox, k: int) -> Status {
    match toolbox {
        Toolbox::Train => train_union_status(force_kinds(forces), k),
        Toolbox::Drill => drill_union_status(force_kinds(forces), k),
        Toolbox::Full => if force_kinds(forces).contains(k as usize) {
            Status::Forced
        } else {
            Status::Allowed
        },
    }
}

/// The spec of a force list inside a toolbox: the toolbox's union around the
/// forced kinds, each forced kind at the count its last token asked for.
pub fn build_spec(forces: &[(usize, u16)], toolbox: Toolbox) -> (s: Spec)
    requires
        forall|i: int| 0 <= i < forces@.len() ==> #[trigger] forces@[i].0 < NUM,
    ensures
        forall|k: int| 0 <= k < 16 ==> #[trigger] s.status_of(k) == toolbox_status(forces@, toolbox, k),
        forall|k: int| 0 <= k < 16 && force_kinds(forces@).contains(k as usize) ==> #[trigger] s.need_of(k) == last_count(
            forces@, k),
{
    let mut idxs: Vec<usize> = Vec::new();
    let mut i: usize = 0;
    while i < forces.len()
        invariant
            0 <= i <= forces@.len(),
            idxs@ == force_kinds(forces@.take(i as int)),
        decreases forces@.len() - i,
    {
        idxs.push(forces[i].0);
        proof {
            assert(force_kinds(forces@.take(i + 1)) =~= force_kinds(forces@.take(i as int)).push(forces@[i as int].0));
        }
        i += 1;
    }
    proof {
        assert(forces@.take(forces@.len() as int) =~= forces@);
        assert forall|q: int| 0 <= q < idxs@.len() implies #[trigger] idxs@[q] < NUM by {
            assert(idxs@[q] == forces@[q].0);
        }
    }
    let mut spec = match toolbox {
        Toolbox::Train => train_union(idxs.as_slice()),
        Toolbox::Drill => drill_union(idxs.as_slice()),
        Toolbox::Full => {
            let mut s = Spec::explicit();
            let mut k: usize = 0;
            while k < NUM
                invariant
                    0 <= k <= 16,
                    forall|j: int| 0 <= j < 16 ==> #[trigger] s.status_of(j) == if j < k {
                        Status::Allowed
                    } else {
                        Status::Excluded
                    },
                decreases 16 - k,
            {
                s = s.allow(k);
                k += 1;
            }
            s
        },
    };
    let ghost s1 = spec;
    let mut i: usize = 0;
    while i < forces.len()
        invariant
            0 <= i <= forces@.len(),
            forall|q: int| 0 <= q < forces@.len() ==> #[trigger] forces@[q].0 < NUM,
            forall|k: int| 0 <= k < 16 ==> #[trigger] spec.status_of(k) == if force_kinds(forces@.take(i as int)).contains(
                k as usize) {
                Status::Forced
            } else {
                s1.status_of(k)
            },
            forall|k: int| 0 <= k < 16 && force_kinds(forces@.take(i as int)).contains(k as usize) ==> #[trigger] spec.need_of(k)
                == last_count(forces@.take(i as int), k),
        decreases forces@.len() - i,
    {
        let (idx, count) = forces[i];
        spec = spec.force(idx, count);
        proof {
            let t0 = forces@.take(i as int);
            let t1 = forces@.take(i + 1);
            assert(t1.drop_last() =~= t0);
            assert(force_kinds(t1) =~= force_kinds(t0).push(idx));
            assert forall|k: int| 0 <= k < 16 implies #[trigger] force_kinds(t1).contains(k as usize) == (force_kinds(t0).contains(
                k as usize) || k == idx) by {
                crate::lemma_push_contains(force_kinds(t0), idx, k as usize);
            }
        }
        i += 1;
    }
    proof {
        assert(forces@.take(forces@.len() as int) =~= forces@);
        assert forall|k: int| 0 <= k < 16 implies #[trigger] spec.status_of(k) == toolbox_status(forces@, toolbox, k) by {
            if force_kinds(forces@).contains(k as usize) {
                match toolbox {
                    Toolbox::Train => {},
                    Toolbox::Drill => {},
                    Toolbox::Full => {},
                }
            }
        }
    }
    spec
}

/// The label token of one force: the kind name, then `x` and the count when
/// the count is not 1.
pub open spec fn label_token(k: int, c: u16) -> Seq<char> {
    if c == 1 {
        kind_name(k)
    } else {
        kind_name(k) + "x"@ + dec(c as nat)
    }
}

/// The label tokens of a force list joined by `" + "`.
pub open spec fn label_of(forces: Seq<(usize, u16)>) -> Seq<char>
    decreases forces.len(),
{
    if forces.len() == 0 {
        Seq::empty()
    } else if forces.len() == 1 {
        label_token(forces[0].0 as int, forces[0].1)
    } else {
        label_of(forces.drop_last()) + " + "@ + label_token(forces.last().0 as int, forces.last().1)
    }
}

/// Append the label token of a force.
fn push_label_token(s: &mut String, k: usize, c: u16)
    requires
        k < NUM,
    ensures
        final(s)@ == old(s)@ + label_token(k as int, c),
{
    push_str(s, name(k));
    if c != 1 {
        push_char(s, 'x');
        push_dec(s, c as u64);
        proof {
            assert(final(s)@ =~= old(s)@ + (kind_name(k as int) + "x"@ + dec(c as nat))) by {
                reveal_strlit("x");
            }
        }
    } else {
        proof {
            assert(final(s)@ =~= old(s)@ + kind_name(k as int));
        }
    }
}

/// Human-readable label for a force set, e.g. `w-wing + naked-triplex2`.
pub fn spec_label(forces: &[(usize, u16)]) -> (s: String)
    requires
        forall|i: int| 0 <= i < forces@.len() ==> #[trigger] forces@[i].0 < NUM,
    ensures
        s@ == label_of(forces@),
{
    let mut s = String::new();
    let mut i: usize = 0;
    while i < forces.len()
        invariant
            0 <= i <= forces@.len(),
            forall|q: int| 0 <= q < forces@.len() ==> #[trigger] forces@[q].0 < NUM,
            s@ == label_of(forces@.take(i as int)),
        decreases forces@.len() - i,
    {
        let (k, c) = forces[i];
        let ghost s0 = s@;
        if i > 0 {
            push_str(&mut s, " + ");
        }
        push_label_token(&mut s, k, c);
        proof {
            let t1 = forces@.take(i + 1);
            assert(t1.drop_last() =~= forces@.take(i as int));
            assert(t1.last() == (k, c));
            if i == 0 {
                assert(t1.len() == 1);
                assert(t1[0] == (k, c));
                assert(s@ =~= label_token(k as int, c));
            } else {
                assert(s@ =~= s0 + " + "@ + label_token(k as int, c));
            }
        }
        i += 1;
    }
    proof {
        assert(forces@.take(forces@.len() as int) =~= forces@);
    }
    s
}

/// The shared `--force`/`--toolbox`/`--seed`/`--count`/`--max` argument set of
/// the search tools.
pub struct FindArgs {
    /// The forced kinds with their counts, in `--force` order.
    pub forces: Vec<(usize, u16)>,
    /// The toolbox surrounding the forced kinds.
    pub toolbox: Toolbox,
    /// First seed tried; seeds are consumed upward from here.
    pub base_seed: u64,
    /// How many puzzles to produce.
    pub count: u64,
    /// Cap on the number of seeds tried.
    pub max: usize,
}

impl FindArgs {
    /// The spec these arguments describe.
    pub fn spec(&self) -> (s: Spec)
        requires
            forall|i: int| 0 <= i < self.forces@.len() ==> #[trigger] self.forces@[i].0 < NUM,
        ensures
            forall|k: int| 0 <= k < 16 ==> #[trigger] s.status_of(k) == toolbox_status(self.forces@, self.toolbox, k),
            forall|k: int| 0 <= k < 16 && force_kinds(self.forces@).contains(k as usize) ==> #[trigger] s.need_of(k)
                == last_count(self.forces@, k),
    {
        build_spec(self.forces.as_slice(), self.toolbox)
    }

    /// The force-set label, e.g. `w-wing + naked-triple`.
    pub fn label(&self) -> (s: String)
        requires
            forall|i: int| 0 <= i < self.forces@.len() ==> #[trigger] self.forces@[i].0 < NUM,
        ensures
            s@ == label_of(self.forces@),
    {
        spec_label(self.forces.as_slice())
    }
}

} // verus!
