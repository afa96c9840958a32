//! Toolbox indices for prober experiments: a five-bit index names which
//! propagation techniques a prober runs.

use vstd::prelude::*;
use crate::bits::bit32;
use crate::bb::{BitBoard, has_kind};
use crate::text::push_str;

verus! {

/// The number of toolboxes (every subset of the five techniques).
pub const TOOLBOXES: usize = 32;

/// The toolbox of the scalar prober: naked singles plus row and box hidden singles.
pub const SCALAR: usize = 0x05;

/// The toolbox of the packed prober: the scalar one plus column hidden singles.
pub const SIMT: usize = 0x07;

/// A prober toolbox: which techniques propagate between branches.
#[derive(Clone, Copy)]
pub struct Tb {
    /// Naked singles.
    pub nk: bool,
    /// Column hidden singles.
    pub col: bool,
    /// Row and box hidden singles.
    pub rb: bool,
    /// Locked candidates between boxes and rows.
    pub lcr: bool,
    /// Locked candidates between boxes and columns.
    pub lcc: bool,
}

impl Tb {
    /// The toolbox with index `t`: bit 0 naked, bit 1 column hidden, bit 2 row
    /// and box hidden, bit 3 box/row locked candidates, bit 4 box/column locked
    /// candidates.
    pub fn from_idx(t: usize) -> (tb: Tb)
        requires
            t < 0x1_0000_0000,
        ensures
            tb.nk == bit32(t as u32, 0),
            tb.col == bit32(t as u32, 1),
            tb.rb == bit32(t as u32, 2),
            tb.lcr == bit32(t as u32, 3),
            tb.lcc == bit32(t as u32, 4),
    {
        let w = t as u32;
        Tb { nk: has_kind(w, 0), col: has_kind(w, 1), rb: has_kind(w, 2), lcr: has_kind(w, 3), lcc: has_kind(w, 4) }
    }
}

/// The parts of toolbox `t`'s name, joined by `+`, the first `n` bits considered.
pub open spec fn tb_parts(t: u32, n: int) -> Seq<char>
    decreases n,
{
    if n <= 0 {
        Seq::empty()
    } else {
        let before = tb_parts(t, n - 1);
        if bit32(t, (n - 1) as u32) {
            if before.len() == 0 {
                tb_part(n - 1)
            } else {
                before + "+"@ + tb_part(n - 1)
            }
        } else {
            before
        }
    }
}

/// The name part of toolbox bit `k`.
pub open spec fn tb_part(k: int) -> Seq<char> {
    if k == 0 {
        "N"@
    } else if k == 1 {
        "C"@
    } else if k == 2 {
        "RB"@
    } else if k == 3 {
        "LCr"@
    } else {
        "LCc"@
    }
}

/// The name of toolbox `t`: its parts joined by `+` (`none` when empty), with
/// ` (scalar)` or ` (simt)` after the two production toolboxes.
pub open spec fn tb_label(t: usize) -> Seq<char> {
    let p = tb_parts((t % 32) as u32, 5);
    let base = if p.len() == 0 {
        "none"@
    } else {
        p
    };
    if t == SCALAR {
        base + " (scalar)"@
    } else if t == SIMT {
        base + " (simt)"@
    } else {
        base
    }
}

/// The name part of toolbox bit `k`.
fn part(k: usize) -> (s: &'static str)
    requires
        k < 5,
    ensures
        s@ == tb_part(k as int),
{
    if k == 0 {
        "N"
    } else if k == 1 {
        "C"
    } else if k == 2 {
        "RB"
    } else if k == 3 {
        "LCr"
    } else {
        "LCc"
    }
}

/// The name of toolbox `t`, e.g. `N+RB (scalar)`.
pub fn tb_name(t: usize) -> (s: String)
    ensures
        s@ == tb_label(t),
{
    let w = (t % 32) as u32;
    let mut s = String::new();
    let mut k: usize = 0;
    while k < 5
        invariant
            0 <= k <= 5,
            w == (t % 32) as u32,
            s@ == tb_parts(w, k as int),
        decreases 5 - k,
    {
        if has_kind(w, k) {
            if s.unicode_len() > 0 {
                push_str(&mut s, "+");
            }
            push_str(&mut s, part(k));
        }
        proof {
            assert(s@ =~= tb_parts(w, k + 1));
        }
        k += 1;
    }
    let mut out = String::new();
    if s.unicode_len() == 0 {
        push_str(&mut out, "none");
    } else {
        push_str(&mut out, s.as_str());
    }
    if t == SCALAR {
        push_str(&mut out, " (scalar)");
    } else if t == SIMT {
        push_str(&mut out, " (simt)");
    }
    proof {
        assert(out@ =~= tb_label(t));
    }
    out
}


/// One toolbox's measurement of one existence probe.
#[derive(Clone, Copy, Debug)]
pub struct TbResult {
    /// Search nodes (at most the node budget when one was set).
    pub nodes: u64,
    /// Propagation passes summed over all nodes.
    pub passes: u64,
    /// A completion was found. Meaningless when `capped`.
    pub exists: bool,
    /// The node budget ran out before the search finished.
    pub capped: bool,
}

/// Run the existence probe on `probe` under every toolbox whose bit is set in
/// `which`, each on its own copy, with node budget `cap_nodes` (0: none).
/// Toolboxes not selected report zeros.
pub fn probe_all(probe: &BitBoard, which: u32, cap_nodes: u64) -> (out: [TbResult; 32])
    requires
        probe.wf(),
    ensures
        forall|t: int| 0 <= t < 32 && !bit32(which, t as u32) ==> (#[trigger] out[t]).nodes == 0 && out[t].passes == 0
            && !out[t].exists && !out[t].capped,
        forall|t: int| 0 <= t < 32 && bit32(which, t as u32) ==> (#[trigger] out[t]).nodes >= 1 && (out[t].exists ==> crate::bb::record_completes(*probe)) && (out[t].capped ==> cap_nodes != 0) && (cap_nodes != 0 ==> out[t].nodes
            <= cap_nodes),
{
    let mut out = [TbResult { nodes: 0, passes: 0, exists: false, capped: false }; 32];
    let mut t: usize = 0;
    while t < TOOLBOXES
        invariant
            0 <= t <= 32,
            probe.wf(),
            forall|q: int| t <= q < 32 ==> (#[trigger] out[q]).nodes == 0 && out[q].passes == 0 && !out[q].exists
                && !out[q].capped,
            forall|q: int| 0 <= q < t && !bit32(which, q as u32) ==> (#[trigger] out[q]).nodes == 0 && out[q].passes == 0
                && !out[q].exists && !out[q].capped,
            forall|q: int| 0 <= q < t && bit32(which, q as u32) ==> (#[trigger] out[q]).nodes >= 1 && (out[q].exists ==> crate::bb::record_completes(*probe)) && (out[q].capped ==> cap_nodes != 0) && (cap_nodes != 0
                ==> out[q].nodes <= cap_nodes),
        decreases 32 - t,
    {
        if has_kind(which, t) {
            let mut st = *probe;
            let mut found: usize = 0;
            let mut n: u64 = 0;
            let mut p: u64 = 0;
            let ok = st.count_tb(Tb::from_idx(t), 1, &mut found, &mut n, &mut p, cap_nodes);
            proof {
                if found >= 1 {
                    let fin = choose|fin: BitBoard| crate::bb::decides(*probe, fin);
                    crate::bb::lemma_decides_completes(*probe, fin);
                }
            }
            let nodes = if cap_nodes != 0 && n > cap_nodes {
                cap_nodes
            } else {
                n
            };
            out[t] = TbResult { nodes, passes: p, exists: found >= 1, capped: !ok };
        }
        t += 1;
    }
    out
}

} // verus!
