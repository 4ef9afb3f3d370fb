use vstd::prelude::*;
use randomize::{PCG32, BoundedRandU32};

verus! {

/// The increment that seeding uses, as the generator's own default has it.
pub const DEFAULT_PCG_INC: u128 = 34172814569070222299;

/// The multiplier of the generator's linear congruential step.
pub const PCG_MUL_64: u64 = 6364136223846793005;

/// The state of a PCG generator with 64 bits of state and 32 bits of
/// output: its position in the stream and its increment.
#[derive(Clone, Copy, Debug, PartialEq, Eq)]
pub struct Rng {
    pub state: u64,
    pub inc: u64,
}

/// One step of the linear congruential generator, wrapping.
pub open spec fn lcg64_step(mul: u64, add: u64, state: u64) -> u64 {
    ((state * mul + add) % 0x1_0000_0000_0000_0000) as u64
}

/// `x` rotated right by `r` bits, `r < 32`.
pub open spec fn rotr32(x: u32, r: u32) -> u32 {
    if r == 0 {
        x
    } else {
        (x >> r) | (x << ((32 - r) as u32))
    }
}

/// The output for a state: xor-shift of the high bits, then a rotation by
/// the top five bits.
pub open spec fn xsh_rr(state: u64) -> u32 {
    rotr32(((state ^ (state >> 18u64)) >> 27u64) as u32, (state >> 59u64) as u32)
}

/// The generator that `PCG32::seed` makes: increment and seed made odd,
/// then one step.
pub open spec fn seeded(seed: u64, inc: u64) -> Rng {
    let inc2 = ((inc * 2) % 0x1_0000_0000_0000_0000 + 1) as u64;
    let seed2 = ((seed * 2) % 0x1_0000_0000_0000_0000 + 1) as u64;
    Rng { state: lcg64_step(PCG_MUL_64, inc2, seed2), inc: inc2 }
}

/// What sampling `0 .. count` from the generator `(state, inc)` gives: the
/// new state, and the value. The sampling draws outputs until one is
/// accepted.
pub uninterp spec fn pcg32_bounded(state: u64, inc: u64, count: u32) -> (u64, u32);

/// `PCG32::seed`: the generator made from a seed and an increment; the
/// contract states the crate's formula.
#[verifier::external_body]
fn pcg32_seed(seed: u64, inc: u64) -> (r: Rng)
    ensures
        r == seeded(seed, inc),
{
    let g = PCG32::seed(seed, inc);
    Rng { state: g.state, inc: g.inc }
}

/// `PCG32::next_u32`: the output for the current state, and one step; the
/// contract states the crate's formula.
#[verifier::external_body]
fn pcg32_next_u32(g: Rng) -> (r: (Rng, u32))
    ensures
        r.0 == (Rng { state: lcg64_step(PCG_MUL_64, g.inc, g.state), inc: g.inc }),
        r.1 == xsh_rr(g.state),
{
    let mut p = PCG32::new(g.state, g.inc);
    let out = p.next_u32();
    (Rng { state: p.state, inc: p.inc }, out)
}

/// `BoundedRandU32::new(count).sample` drawing from the generator: a value
/// in `0 .. count` and the generator after the draws. Which value and how
/// many draws it takes are named, not stated; the value is below `count`,
/// as the crate documents. The increment is odd, as seeding makes it: the
/// stream then runs through every state, and the sampling ends.
#[verifier::external_body]
fn pcg32_next_bounded(g: Rng, count: u32) -> (r: (Rng, u32))
    requires
        count > 0,
        g.inc % 2 == 1,
    ensures
        (r.0.state, r.1) == pcg32_bounded(g.state, g.inc, count),
        r.0.inc == g.inc,
        r.1 < count,
{
    let mut p = PCG32::new(g.state, g.inc);
    let v = BoundedRandU32::new(count).sample(|| p.next_u32());
    (Rng { state: p.state, inc: p.inc }, v)
}

/// Seeding always gives an odd increment.
pub proof fn lemma_seeded_inc_odd(seed: u64, inc: u64)
    ensures
        seeded(seed, inc).inc % 2 == 1,
{
    let a = (inc * 2) % 0x1_0000_0000_0000_0000;
    assert(a % 2 == 0) by (nonlinear_arith)
        requires
            a == (inc * 2) % 0x1_0000_0000_0000_0000,
    ;
}

impl Rng {
    /// The generator as the game starts with it: seeded with zero.
    pub fn new() -> (r: Self)
        ensures
            r == seeded(0, 0),
            r.inc % 2 == 1,
    {
        let r = pcg32_seed(0, 0);
        proof {
            lemma_seeded_inc_odd(0, 0);
        }
        r
    }
}

/// Reseeds the generator, with the default increment.
pub fn seed(rng: &mut Rng, seed: u64)
    ensures
        *final(rng) == seeded(seed, DEFAULT_PCG_INC as u64),
        final(rng).inc % 2 == 1,
{
    *rng = pcg32_seed(seed, #[verifier::truncate] (DEFAULT_PCG_INC as u64));
    proof {
        lemma_seeded_inc_odd(seed, DEFAULT_PCG_INC as u64);
    }
}

/// The next number of the stream.
pub fn rand_u32(rng: &mut Rng) -> (r: u32)
    ensures
        r == xsh_rr(old(rng).state),
        *final(rng) == (Rng { state: lcg64_step(PCG_MUL_64, old(rng).inc, old(rng).state), inc: old(rng).inc }),
{
    let (g, out) = pcg32_next_u32(*rng);
    *rng = g;
    out
}

/// A number from `lower` up to, not including, `upper`.
pub fn rand_i32_in_range(rng: &mut Rng, lower: i32, upper: i32) -> (r: i32)
    requires
        lower < upper,
        old(rng).inc % 2 == 1,
        upper - lower <= i32::MAX,
    ensures
        lower <= r < upper,
        r == lower + pcg32_bounded(old(rng).state, old(rng).inc, (upper - lower) as u32).1,
        final(rng).state == pcg32_bounded(old(rng).state, old(rng).inc, (upper - lower) as u32).0,
        final(rng).inc == old(rng).inc,
{
    let range = upper - lower;
    let (g, v) = pcg32_next_bounded(*rng, range as u32);
    *rng = g;
    v as i32 + lower
}

} // verus!
