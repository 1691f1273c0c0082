//! A small xorshift64 generator, for picking a random move without an
//! outside crate.

use vstd::prelude::*;

verus! {

/// One xorshift64 step (shifts 13, 7, 17).
pub open spec fn xorshift(x: u64) -> u64 {
    let a = x ^ (x << 13u64);
    let b = a ^ (a >> 7u64);
    b ^ (b << 17u64)
}

/// The state a seed gives: a zero seed, which xorshift never leaves, is
/// replaced by a fixed odd constant.
pub open spec fn seeded(seed: u64) -> u64 {
    if seed == 0 {
        0x9E37_79B9_7F4A_7C15u64
    } else {
        seed
    }
}

/// A nonzero state stays nonzero: the generator never gets stuck at zero.
pub proof fn law_xorshift_nonzero(x: u64)
    ensures
        x != 0 ==> xorshift(x) != 0,
{
    assert(x != 0 ==> ((x ^ (x << 13u64)) ^ ((x ^ (x << 13u64)) >> 7u64)) ^ (((x ^ (x << 13u64)) ^ ((x
        ^ (x << 13u64)) >> 7u64)) << 17u64) != 0) by (bit_vector);
}

pub struct Rng(pub u64);

impl Rng {
    pub fn new(seed: u64) -> (r: Self)
        ensures
            r.0 == seeded(seed),
            r.0 != 0,
    {
        Self(if seed == 0 { 0x9E3779B97F4A7C15 } else { seed })
    }

    /// Advance the state and return it.
    pub fn next_u64(&mut self) -> (r: u64)
        ensures
            r == xorshift(old(self).0),
            final(self).0 == r,
    {
        let mut x = self.0;
        x ^= x << 13u64;
        x ^= x >> 7u64;
        x ^= x << 17u64;
        self.0 = x;
        x
    }

    /// Advance the state and reduce it below `bound`.
    pub fn next_index(&mut self, bound: usize) -> (r: usize)
        requires
            bound > 0,
        ensures
            final(self).0 == xorshift(old(self).0),
            r as int == xorshift(old(self).0) as int % bound as int,
            r < bound,
    {
        let x = self.next_u64();
        (x % bound as u64) as usize
    }
}

} // verus!
