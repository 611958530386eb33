//! SplitMix64, the deterministic generator behind election timeouts and the
//! simulator's fault schedule.

use vstd::prelude::*;

verus! {

/// The additive constant of SplitMix64 (the golden ratio in 64 bits).
pub const GOLDEN_GAMMA: u64 = 0x9E37_79B9_7F4A_7C15;

/// The output function of SplitMix64 applied to an already advanced state.
pub open spec fn splitmix_mix(z: u64) -> u64 {
    let z1 = ((z ^ (z >> 30u64)) as u64).wrapping_mul(0xBF58_476D_1CE4_E5B9);
    let z2 = ((z1 ^ (z1 >> 27u64)) as u64).wrapping_mul(0x94D0_49BB_1331_11EB);
    (z2 ^ (z2 >> 31u64)) as u64
}

/// The state after one step of SplitMix64.
pub open spec fn splitmix_advance(state: u64) -> u64 {
    state.wrapping_add(GOLDEN_GAMMA)
}

/// The value one step of SplitMix64 yields from `state`.
pub open spec fn splitmix_output(state: u64) -> u64 {
    splitmix_mix(splitmix_advance(state))
}

/// The state after `k` steps of SplitMix64 from `seed`.
pub open spec fn splitmix_state(seed: u64, k: nat) -> u64
    decreases k,
{
    if k == 0 {
        seed
    } else {
        splitmix_advance(splitmix_state(seed, (k - 1) as nat))
    }
}

/// SplitMix64 in closed form: after `k` steps from `seed` the state is
/// `seed + k * GOLDEN_GAMMA` modulo 2^64, and the `k`-th value drawn is
/// the output function applied to it. So a recorded seed reproduces every
/// draw.
pub proof fn law_splitmix_closed_form(seed: u64, k: nat)
    ensures
        splitmix_state(seed, k) == ((seed + k * GOLDEN_GAMMA) % 0x1_0000_0000_0000_0000) as u64,
        k >= 1 ==> splitmix_output(splitmix_state(seed, (k - 1) as nat)) == splitmix_mix(
            ((seed + k * GOLDEN_GAMMA) % 0x1_0000_0000_0000_0000) as u64,
        ),
    decreases k,
{
    let m: int = 0x1_0000_0000_0000_0000;
    if k > 0 {
        law_splitmix_closed_form(seed, (k - 1) as nat);
        let prev = splitmix_state(seed, (k - 1) as nat);
        let a: int = seed + (k - 1) * GOLDEN_GAMMA;
        assert(prev == a % m);
        assert(seed + k * GOLDEN_GAMMA == a + GOLDEN_GAMMA) by (nonlinear_arith)
            requires
                a == seed + (k - 1) * GOLDEN_GAMMA,
        ;
        vstd::arithmetic::div_mod::lemma_add_mod_noop(a, GOLDEN_GAMMA as int, m);
        vstd::arithmetic::div_mod::lemma_small_mod(GOLDEN_GAMMA as nat, m as nat);
        vstd::arithmetic::div_mod::lemma_small_mod(prev as nat, m as nat);
        let sum: int = prev + GOLDEN_GAMMA;
        assert(sum % m == (a + GOLDEN_GAMMA) % m);
        if sum >= m {
            vstd::arithmetic::div_mod::lemma_fundamental_div_mod_converse(sum, m, 1, sum - m);
        } else {
            vstd::arithmetic::div_mod::lemma_fundamental_div_mod_converse(sum, m, 0, sum);
        }
    } else {
        vstd::arithmetic::div_mod::lemma_small_mod(seed as nat, m as nat);
    }
}

/// Computes the SplitMix64 output for an advanced state.
pub fn mix(z: u64) -> (r: u64)
    ensures
        r == splitmix_mix(z),
{
    let z1 = (z ^ (z >> 30)).wrapping_mul(0xBF58_476D_1CE4_E5B9);
    let z2 = (z1 ^ (z1 >> 27)).wrapping_mul(0x94D0_49BB_1331_11EB);
    z2 ^ (z2 >> 31)
}

/// A SplitMix64 generator.
pub struct Rng(u64);

impl Rng {
    /// The generator's state.
    pub closed spec fn state(&self) -> u64 {
        self.0
    }

    pub fn new(seed: u64) -> (r: Rng)
        ensures
            r.state() == seed,
    {
        Rng(seed)
    }

    pub fn next_u64(&mut self) -> (r: u64)
        ensures
            final(self).state() == splitmix_advance(old(self).state()),
            r == splitmix_output(old(self).state()),
    {
        self.0 = self.0.wrapping_add(GOLDEN_GAMMA);
        mix(self.0)
    }

    /// A value in `0..n`.
    pub fn below(&mut self, n: usize) -> (r: usize)
        requires
            n > 0,
        ensures
            final(self).state() == splitmix_advance(old(self).state()),
            r == splitmix_output(old(self).state()) % (n as u64),
            r < n,
    {
        let x = self.next_u64();
        (x % (n as u64)) as usize
    }
}

} // verus!
