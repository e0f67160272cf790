use vstd::prelude::*;

verus! {

/// Multiplier of the generator (Knuth's MMIX).
pub const LCG_MUL: u64 = 6364136223846793005;

/// Increment of the generator.
pub const LCG_INC: u64 = 1442695040888963407;

/// 2^64.
pub open spec fn modulus() -> nat {
    0x1_0000_0000_0000_0000nat
}

/// The state that follows `s`.
#[verifier::opaque]
pub open spec fn next_state(s: u64) -> u64 {
    (((s as nat * LCG_MUL as nat) % modulus() + LCG_INC as nat) % modulus()) as u64
}

/// The 32 bits drawn on the step into state `s`: its high half.
pub open spec fn output_of(s: u64) -> u32 {
    (s as nat / 0x1_0000_0000nat) as u32
}

/// A seedable source of pseudo-random numbers: a 64-bit linear congruential
/// generator whose draws are the high halves of its states.
pub struct Rng {
    pub state: u64,
}

impl Rng {
    /// A generator that starts from `seed`.
    pub fn new(seed: u64) -> (r: Rng)
        ensures
            r.state == seed,
    {
        Rng { state: seed }
    }

    /// The next 32 random bits.
    pub fn next_u32(&mut self) -> (r: u32)
        ensures
            final(self).state == next_state(old(self).state),
            r == output_of(final(self).state),
    {
        proof {
            reveal(next_state);
        }
        let m = self.state.wrapping_mul(LCG_MUL);
        let s = m.wrapping_add(LCG_INC);
        proof {
            let x = m as nat + LCG_INC as nat;
            if x >= modulus() {
                vstd::arithmetic::div_mod::lemma_fundamental_div_mod_converse(x as int, modulus() as int, 1, x - modulus());
            } else {
                vstd::arithmetic::div_mod::lemma_small_mod(x, modulus());
            }
        }
        self.state = s;
        (s / 0x1_0000_0000u64) as u32
    }
}

/// A draw of `x` mapped onto `[min, max)`.
pub open spec fn in_range(x: u32, min: u32, max: u32) -> u32 {
    (min + (x as int) % ((max - min) as int)) as u32
}

/// A random number in `[min, max)`.
pub fn get_random_u32(rng: &mut Rng, min: u32, max: u32) -> (r: u32)
    requires
        min < max,
    ensures
        final(rng).state == next_state(old(rng).state),
        r == in_range(output_of(final(rng).state), min, max),
        min <= r < max,
{
    let x = rng.next_u32();
    min + x % (max - min)
}

/// A random index below `bound`.
pub fn get_random_below(rng: &mut Rng, bound: usize) -> (r: usize)
    requires
        bound > 0,
    ensures
        final(rng).state == next_state(old(rng).state),
        r == output_of(final(rng).state) as int % bound as int,
        r < bound,
{
    let x = rng.next_u32();
    (x as usize) % bound
}

} // verus!
