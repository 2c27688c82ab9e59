//! How the rings' along-orbit phases relate to one another, and the integer
//! generator behind a random phasing.

use vstd::prelude::*;

verus! {

/// How the rings' along-orbit phases relate to one another.
///
/// A ring's phase is a single angle added to every satellite in it, so these
/// modes do not change how satellites are spaced *within* a ring, only where
/// each ring sits relative to its neighbours.
#[derive(Debug, Clone, Copy, PartialEq, Eq, Structural)]
pub enum PhaseMode {
    /// Every ring in step.
    Aligned,
    /// Each ring offset half an in-plane slot from the last, so neighbouring
    /// rings' satellites interleave.
    HalfSlot,
    /// An independent, arbitrary offset per ring, which is what an
    /// uncoordinated launch campaign actually produces.
    Random,
}

/// The seed the constellation explorer draws its random phasing with.
pub const EXPLORER_PHASE_SEED: u64 = 0x51E7_2026;

/// Multiplier of the phase generator's recurrence.
pub const LCG_MULTIPLIER: u64 = 6364136223846793005;

/// Increment of the phase generator's recurrence.
pub const LCG_INCREMENT: u64 = 1442695040888963407;

/// One step of the 64-bit linear congruential recurrence.
pub open spec fn lcg_next(state: u64) -> u64 {
    ((state * LCG_MULTIPLIER + LCG_INCREMENT) % 0x1_0000_0000_0000_0000) as u64
}

/// The state after `n` steps from `seed`.
pub open spec fn lcg_state(seed: u64, n: nat) -> u64
    decreases n,
{
    if n == 0 {
        seed
    } else {
        lcg_next(lcg_state(seed, (n - 1) as nat))
    }
}

/// The top 53 bits of a state: a draw in `[0, 2^53)`, which divided by
/// `2^53` is a uniform number in `[0, 1)`.
pub open spec fn draw_of(state: u64) -> u64 {
    state / 2048
}

/// The 64-bit LCG behind [`PhaseMode::Random`].
///
/// Deliberately the plainest possible generator: the constellation explorer
/// on the web reimplements exactly this recurrence, so any change to the
/// constants or to the 53-bit extraction changes what that scene shows.
pub struct PhaseRng {
    state: u64,
}

impl PhaseRng {
    /// The generator's current state.
    pub closed spec fn state(&self) -> u64 {
        self.state
    }

    /// A generator starting from `seed`.
    pub fn new(seed: u64) -> (r: PhaseRng)
        ensures
            r.state() == seed,
    {
        PhaseRng { state: seed }
    }

    /// Advance one step and return the top 53 bits of the new state.
    pub fn next_draw(&mut self) -> (d: u64)
        ensures
            final(self).state() == lcg_next(old(self).state()),
            d == draw_of(final(self).state()),
            d < 0x20_0000_0000_0000,
    {
        let s = self.state;
        let next = s.wrapping_mul(LCG_MULTIPLIER).wrapping_add(LCG_INCREMENT);
        proof {
            let m: int = 0x1_0000_0000_0000_0000;
            let p: int = (s as int * LCG_MULTIPLIER as int) % m;
            assert(s.wrapping_mul(LCG_MULTIPLIER) == p);
            assert(next as int == (p + LCG_INCREMENT as int) % m) by {
                if p + LCG_INCREMENT as int >= m {
                    vstd::arithmetic::div_mod::lemma_mod_sub_multiples_vanish(p + LCG_INCREMENT as int, m);
                    vstd::arithmetic::div_mod::lemma_small_mod(
                        (p + LCG_INCREMENT as int - m) as nat,
                        m as nat,
                    );
                } else {
                    vstd::arithmetic::div_mod::lemma_small_mod((p + LCG_INCREMENT as int) as nat, m as nat);
                }
            }
            vstd::arithmetic::div_mod::lemma_add_mod_noop(
                s as int * LCG_MULTIPLIER as int,
                LCG_INCREMENT as int,
                m,
            );
            vstd::arithmetic::div_mod::lemma_small_mod(LCG_INCREMENT as nat, m as nat);
            vstd::arithmetic::div_mod::lemma_mod_twice(s as int * LCG_MULTIPLIER as int, m);
        }
        self.state = next;
        let d = next >> 11;
        assert(d == next / 2048 && d < 0x20_0000_0000_0000) by (bit_vector)
            requires
                d == next >> 11,
        ;
        d
    }
}

/// The first `planes` draws of a fresh generator seeded with `seed`: one per
/// ring of a random phasing, in ring order. A fresh generator per call, so
/// the draws depend on the arguments alone.
pub fn phase_draws(seed: u64, planes: usize) -> (r: Vec<u64>)
    ensures
        r@ == Seq::new(planes as nat, |k: int| draw_of(lcg_state(seed, (k + 1) as nat))),
{
    let mut rng = PhaseRng::new(seed);
    let mut r: Vec<u64> = Vec::new();
    let mut k: usize = 0;
    while k < planes
        invariant
            k <= planes,
            rng.state() == lcg_state(seed, k as nat),
            r@ == Seq::new(k as nat, |j: int| draw_of(lcg_state(seed, (j + 1) as nat))),
        decreases planes - k,
    {
        let d = rng.next_draw();
        r.push(d);
        proof {
            assert(r@ =~= Seq::new(k as nat + 1, |j: int| draw_of(lcg_state(seed, (j + 1) as nat))));
        }
        k = k + 1;
    }
    r
}

} // verus!
