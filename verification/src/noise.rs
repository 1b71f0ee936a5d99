//! The integer side of JavaScript number semantics, and the `mulberry32`
//! generator behind continents, cover seeding and gameplay randomness.

use vstd::prelude::*;

verus! {

/// `Math.imul(a, b)`: the low 32 bits of the product, as a signed value.
pub fn imul(a: i32, b: i32) -> (r: i32)
    ensures
        r == a.wrapping_mul(b),
{
    a.wrapping_mul(b)
}

/// `x >>> n` of an int32 `x`.
pub open spec fn spec_ushr(x: i32, n: u32) -> u32 {
    (x as u32) >> (n & 31)
}

/// `x >>> n` for an int32 `x`; the result is an unsigned 32-bit value.
pub fn ushr(x: i32, n: u32) -> (r: u32)
    ensures
        r == spec_ushr(x, n),
{
    let s = n & 31;
    assert(s < 32) by (bit_vector)
        requires
            s == n & 31,
    ;
    (x as u32) >> s
}

/// The integer hash of a lattice point: the 32-bit value whose quotient by `2^32` is the
/// `[0, 1)` hash behind every jitter and dither.
pub open spec fn spec_hash3_bits(x: i32, y: i32, z: i32) -> u32 {
    let n0 = x.wrapping_mul(374_761_393i32) ^ y.wrapping_mul(668_265_263i32) ^ z.wrapping_mul(1_103_515_245i32);
    let n1 = (n0 ^ (spec_ushr(n0, 13) as i32)).wrapping_mul(1_274_126_177i32);
    spec_ushr(n1 ^ (spec_ushr(n1, 16) as i32), 0)
}

/// The integer hash of the lattice point `(x, y, z)`; see [`spec_hash3_bits`].
pub fn hash3_bits(x: i32, y: i32, z: i32) -> (r: u32)
    ensures
        r == spec_hash3_bits(x, y, z),
{
    let mut n = x.wrapping_mul(374_761_393) ^ y.wrapping_mul(668_265_263) ^ z.wrapping_mul(1_103_515_245);
    n = (n ^ (ushr(n, 13) as i32)).wrapping_mul(1_274_126_177);
    ushr(n ^ (ushr(n, 16) as i32), 0)
}

/// The `mulberry32` generator: one 32-bit state, one fixed sequence per seed.
#[derive(Debug, Clone, Copy, PartialEq, Eq)]
pub struct Mulberry32 {
    state: i32,
}

/// One `mulberry32` step: the next state and the 32-bit value it yields.
pub open spec fn mulberry_step(state: i32) -> (i32, u32) {
    let a = state.wrapping_add(0x6D2B_79F5i32);
    let t0 = (a ^ (spec_ushr(a, 15) as i32)).wrapping_mul(1i32 | a);
    let t1 = t0.wrapping_add((t0 ^ (spec_ushr(t0, 7) as i32)).wrapping_mul(0x3di32 | t0)) ^ t0;
    (a, spec_ushr(t1 ^ (spec_ushr(t1, 14) as i32), 0))
}

impl Mulberry32 {
    /// The generator's state.
    pub closed spec fn state(&self) -> i32 {
        self.state
    }

    /// Seed from an already-wrapped 32-bit value.
    pub fn from_i32(seed: i32) -> (g: Mulberry32)
        ensures
            g.state() == seed,
    {
        Mulberry32 { state: seed }
    }

    /// Advances the generator and returns the next 32-bit output; the `[0, 1)` value of a step is
    /// this divided by `2^32`.
    pub fn next_u32(&mut self) -> (r: u32)
        ensures
            (final(self).state(), r) == mulberry_step(old(self).state()),
    {
        let a = self.state.wrapping_add(0x6D2B_79F5);
        self.state = a;
        let mut t = (a ^ (ushr(a, 15) as i32)).wrapping_mul(1 | a);
        t = t.wrapping_add((t ^ (ushr(t, 7) as i32)).wrapping_mul(0x3d | t)) ^ t;
        ushr(t ^ (ushr(t, 14) as i32), 0)
    }
}

} // verus!
