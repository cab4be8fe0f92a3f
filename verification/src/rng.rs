use vstd::prelude::*;

verus! {

/// Multiplier of the linear congruential step (Knuth's MMIX constants).
pub const LCG_MUL: u64 = 6364136223846793005;

/// Increment of the linear congruential step.
pub const LCG_ADD: u64 = 1442695040888963407;

/// The successor state of the generator: one linear congruential step,
/// taken modulo 2^64. Kept opaque: callers reason through the `Rng`
/// methods' contracts, not through the arithmetic itself.
#[verifier::opaque]
pub open spec fn lcg_next(s: u64) -> u64 {
    (((s as int) * (LCG_MUL as int) + (LCG_ADD as int)) % 0x1_0000_0000_0000_0000) as u64
}

/// The value one draw yields from state `s` for the half-open range
/// `[low, high)`. Kept opaque, as `lcg_next` is.
#[verifier::opaque]
pub open spec fn rand_in_range(s: u64, low: int, high: int) -> int {
    low + (lcg_next(s) as int) % (high - low)
}

/// An explicitly seeded pseudo-random generator. The whole state is one
/// machine word, and every draw is a pure function of it, so anything built
/// on this generator is reproducible from the seed alone.
pub struct Rng {
    pub state: u64,
}

impl Rng {
    pub fn new(seed: u64) -> (r: Rng)
        ensures
            r.state == seed,
    {
        Rng { state: seed }
    }

    /// Advance the generator one step and hand the new state back as the draw.
    pub fn next_u64(&mut self) -> (r: u64)
        ensures
            r == lcg_next(old(self).state),
            final(self).state == lcg_next(old(self).state),
    {
        proof {
            reveal(lcg_next);
            assert((self.state as int) * (LCG_MUL as int)
                <= (u64::MAX as int) * (u64::MAX as int)) by (nonlinear_arith)
                requires
                    0 <= self.state as int <= u64::MAX as int,
            ;
            assert(0 <= (self.state as int) * (LCG_MUL as int)) by (nonlinear_arith)
                requires
                    0 <= self.state as int,
            ;
        }
        let wide: u128 = (self.state as u128) * (LCG_MUL as u128) + (LCG_ADD as u128);
        let next: u64 = (wide % 0x1_0000_0000_0000_0000u128) as u64;
        self.state = next;
        next
    }

    /// Draw an integer from the half-open range `[low, high)`.
    pub fn rand_int(&mut self, low: i32, high: i32) -> (r: i32)
        requires
            low < high,
        ensures
            low <= r < high,
            r == rand_in_range(old(self).state, low as int, high as int),
            final(self).state == lcg_next(old(self).state),
    {
        proof {
            reveal(rand_in_range);
        }
        let x = self.next_u64();
        let span: u64 = (high as i64 - low as i64) as u64;
        let off: u64 = x % span;
        let r: i32 = ((low as i64) + (off as i64)) as i32;
        r
    }
}

} // verus!
