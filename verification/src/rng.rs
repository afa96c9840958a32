//! A small deterministic pseudo-random generator (SplitMix64): every generation
//! path draws its randomness from one, so a seed fixes the output.

use vstd::prelude::*;

verus! {

/// The SplitMix64 increment.
pub const GAMMA: u64 = 0x9E3779B97F4A7C15;

/// The state after one step.
pub open spec fn step(s: u64) -> u64 {
    s.wrapping_add(GAMMA)
}

/// The SplitMix64 output function.
pub open spec fn mix(z: u64) -> u64 {
    let a = (z ^ (z >> 30u64)).wrapping_mul(0xBF58476D1CE4E5B9u64);
    let b = (a ^ (a >> 27u64)).wrapping_mul(0x94D049BB133111EBu64);
    b ^ (b >> 31u64)
}

/// Fisher-Yates from the back over the first `i` items of `s`, drawing from the
/// stream in state `st`: the shuffled sequence and the state after the draws.
pub open spec fn fisher_yates<T>(s: Seq<T>, st: u64, i: nat) -> (Seq<T>, u64)
    decreases i,
{
    if i <= 1 {
        (s, st)
    } else {
        let st1 = step(st);
        let j = (mix(st1) % (i as u64)) as int;
        fisher_yates(s.update(i - 1, s[j]).update(j, s[i - 1]), st1, (i - 1) as nat)
    }
}

/// The state `k` steps after `s`.
pub open spec fn advance(s: u64, k: nat) -> u64
    decreases k,
{
    if k == 0 {
        s
    } else {
        step(advance(s, (k - 1) as nat))
    }
}

/// Steps compose: `a` steps then `b` steps are `a + b` steps.
pub proof fn lemma_advance_add(s: u64, a: nat, b: nat)
    ensures
        advance(advance(s, a), b) == advance(s, a + b),
    decreases b,
{
    if b > 0 {
        lemma_advance_add(s, a, (b - 1) as nat);
    }
}

/// The state `k` steps on is the start plus `k` increments, wrapped.
pub proof fn lemma_advance_closed(s: u64, k: nat)
    ensures
        advance(s, k) as int == (s as int + k * (GAMMA as int)) % 0x1_0000_0000_0000_0000,
    decreases k,
{
    if k > 0 {
        lemma_advance_closed(s, (k - 1) as nat);
        let m: int = 0x1_0000_0000_0000_0000;
        let prev = advance(s, (k - 1) as nat);
        assert(step(prev) as int == (prev as int + GAMMA as int) % m);
        vstd::arithmetic::div_mod::lemma_add_mod_noop(s as int + (k - 1) * (GAMMA as int), GAMMA as int, m);
        assert(GAMMA as int % m == GAMMA as int);
        assert((s as int + (k - 1) * (GAMMA as int)) % m % m == (s as int + (k - 1) * (GAMMA as int)) % m) by {
            vstd::arithmetic::div_mod::lemma_mod_twice(s as int + (k - 1) * (GAMMA as int), m);
        }
        assert(s as int + (k - 1) * (GAMMA as int) + GAMMA as int == s as int + k * (GAMMA as int)) by (nonlinear_arith);
    }
}

/// The stream never returns to a state within fewer than `2^64` steps: two
/// step counts that reach the same state from one start are equal.
pub proof fn law_steps_determined(s: u64, a: nat, b: nat)
    requires
        a < 0x1_0000_0000_0000_0000,
        b < 0x1_0000_0000_0000_0000,
        advance(s, a) == advance(s, b),
    ensures
        a == b,
{
    let m: int = 0x1_0000_0000_0000_0000;
    let g: int = GAMMA as int;
    let inv: int = 0xf1de83e19937733d;
    lemma_advance_closed(s, a);
    lemma_advance_closed(s, b);
    assert((g * inv) % m == 1);
    let x = s as int + a * g;
    let y = s as int + b * g;
    assert(x % m == y % m);
    vstd::arithmetic::div_mod::lemma_mod_equivalence(x, y, m);
    assert((x - y) % m == 0);
    assert(x - y == (a - b) * g) by (nonlinear_arith)
        requires
            x == s as int + a * g,
            y == s as int + b * g,
    ;
    let d = a as int - b as int;
    vstd::arithmetic::div_mod::lemma_mul_mod_noop_left(d * g, inv, m);
    assert((d * g * inv) % m == 0) by {
        assert((d * g) % m == 0);
        vstd::arithmetic::div_mod::lemma_mul_mod_noop_left(d * g, inv, m);
        assert(((d * g) % m * inv) % m == (0 * inv) % m);
    }
    assert(d * g * inv == d * (g * inv)) by (nonlinear_arith);
    vstd::arithmetic::div_mod::lemma_mul_mod_noop_right(d, g * inv, m);
    assert((d * ((g * inv) % m)) % m == (d * 1) % m);
    assert(d % m == 0);
    assert(-m < d < m);
    if d != 0 {
        vstd::arithmetic::div_mod::lemma_fundamental_div_mod(d, m);
        assert(d == m * (d / m));
        if d > 0 {
            assert(d / m >= 1) by (nonlinear_arith)
                requires
                    d == m * (d / m),
                    d > 0,
                    m > 0,
            ;
            assert(m * (d / m) >= m) by (nonlinear_arith)
                requires
                    d / m >= 1,
                    m > 0,
            ;
        } else {
            assert(d / m <= -1) by (nonlinear_arith)
                requires
                    d == m * (d / m),
                    d < 0,
                    m > 0,
            ;
            assert(m * (d / m) <= -m) by (nonlinear_arith)
                requires
                    d / m <= -1,
                    m > 0,
            ;
        }
    }
}

/// A SplitMix64 stream.
pub struct Rng {
    state: u64,
}

impl Rng {
    /// The stream's current state.
    pub closed spec fn state(&self) -> u64 {
        self.state
    }

    /// The stream seeded with `seed`.
    pub fn from_seed(seed: u64) -> (r: Rng)
        ensures
            r.state() == seed,
    {
        Rng { state: seed }
    }

    /// The next 64 random bits.
    pub fn next_u64(&mut self) -> (r: u64)
        ensures
            final(self).state() == step(old(self).state()),
            r == mix(step(old(self).state())),
    {
        self.state = self.state.wrapping_add(GAMMA);
        let z = self.state;
        let a = (z ^ (z >> 30u64)).wrapping_mul(0xBF58476D1CE4E5B9u64);
        let b = (a ^ (a >> 27u64)).wrapping_mul(0x94D049BB133111EBu64);
        b ^ (b >> 31u64)
    }

    /// A draw from `0..n`.
    pub fn range(&mut self, n: usize) -> (r: usize)
        requires
            n > 0,
        ensures
            r < n,
            final(self).state() == step(old(self).state()),
            r == mix(step(old(self).state())) % (n as u64),
    {
        let x = self.next_u64();
        (x % (n as u64)) as usize
    }

    /// Shuffle `v` in place (Fisher-Yates, from the back): the result holds the
    /// same elements.
    pub fn shuffle<T: Copy>(&mut self, v: &mut Vec<T>)
        ensures
            final(v)@.len() == old(v)@.len(),
            final(v)@.to_multiset() == old(v)@.to_multiset(),
            (final(v)@, final(self).state()) == fisher_yates(old(v)@, old(self).state(), old(v)@.len()),
    {
        broadcast use vstd::seq_lib::to_multiset_update, vstd::multiset::group_multiset_axioms;
        let n = v.len();
        let mut i = n;
        while i > 1
            invariant
                0 <= i <= n,
                n == v@.len(),
                v@.to_multiset() == old(v)@.to_multiset(),
                fisher_yates(v@, self.state(), i as nat) == fisher_yates(old(v)@, old(self).state(), n as nat),
            decreases i,
        {
            let ghost st0 = self.state();
            let j = self.range(i);
            let a = v[i - 1];
            let b = v[j];
            let ghost v0 = v@;
            v.set(i - 1, b);
            let ghost v1 = v@;
            v.set(j, a);
            proof {
                assert(v1 == v0.update(i - 1, b));
                assert(v@ == v1.update(j as int, a));
                assert(v1[j as int] == b);
                vstd::seq_lib::to_multiset_update(v0, i - 1, b);
                vstd::seq_lib::to_multiset_update(v1, j as int, a);
                assert(v1.to_multiset() == v0.to_multiset().insert(b).remove(a));
                assert(v@.to_multiset() == v1.to_multiset().insert(a).remove(v1[j as int]));
                vstd::seq_lib::to_multiset_contains(v0, a);
                vstd::seq_lib::to_multiset_contains(v0, b);
                assert(v0[i - 1] == a);
                assert(v0[j as int] == b);
                assert(v0.contains(a));
                assert(v0.contains(b));
                let m = v0.to_multiset();
                assert forall|x: T| #[trigger] v@.to_multiset().count(x) == m.count(x) by {
                    vstd::seq_lib::to_multiset_contains(v0, x);
                }
                assert(v@.to_multiset() =~= v0.to_multiset());
                assert(j as int == (mix(step(st0)) % (i as u64)) as int);
                assert(v@ == v0.update(i - 1, v0[j as int]).update(j as int, v0[i - 1]));
            }
            i -= 1;
        }
    }
}

} // verus!
