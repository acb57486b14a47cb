//! The random numbers of the sound engines: small, seeded, the same on every run.

use vstd::prelude::*;

verus! {

/// The state that a seed gives the music engine's generator; never zero.
pub open spec fn seeded(seed: u64) -> u64 {
    seed.wrapping_mul(0x9E37_79B9_7F4A_7C15).wrapping_add(0xDA3E_39CB_94B9_5BDB) | 1
}

/// The state after one draw: a 64-bit xorshift.
pub open spec fn shifted(s: u64) -> u64 {
    let a = s ^ (s >> 12);
    let b = a ^ (a << 25);
    b ^ (b >> 27)
}

/// The number drawn from a state.
pub open spec fn drawn(s: u64) -> u64 {
    shifted(s).wrapping_mul(0x2545_F491_4F6C_DD1D)
}

/// The music engine's generator (humanisation only).
#[derive(Debug)]
pub struct Rng {
    s: u64,
}

impl View for Rng {
    type V = u64;

    closed spec fn view(&self) -> u64 {
        self.s
    }
}

impl Rng {
    pub fn new(seed: u64) -> (r: Rng)
        ensures
            r@ == seeded(seed),
    {
        Rng { s: seed.wrapping_mul(0x9E37_79B9_7F4A_7C15).wrapping_add(0xDA3E_39CB_94B9_5BDB) | 1 }
    }

    /// Draw a number.
    pub fn next(&mut self) -> (x: u64)
        ensures
            final(self)@ == shifted(old(self)@),
            x == drawn(old(self)@),
    {
        let a: u64 = self.s ^ (self.s >> 12);
        let b: u64 = a ^ (a << 25);
        let c: u64 = b ^ (b >> 27);
        self.s = c;
        c.wrapping_mul(0x2545_F491_4F6C_DD1D)
    }

    /// Draw the 53 bits of a fraction.
    pub fn next53(&mut self) -> (x: u64)
        ensures
            final(self)@ == shifted(old(self)@),
            x == drawn(old(self)@) >> 11,
            x < 0x20_0000_0000_0000,
    {
        let d: u64 = self.next();
        proof {
            assert(d >> 11 < 0x20_0000_0000_0000) by (bit_vector);
        }
        d >> 11
    }
}

/// The state of the effects' generator after one draw: a linear congruence.
pub open spec fn congruent(s: u32) -> u32 {
    s.wrapping_mul(1664525).wrapping_add(1013904223)
}

/// The effects' generator (same shot every run).
#[derive(Debug)]
pub struct Lcg {
    pub s: u32,
}

impl Lcg {
    /// Draw the 24 bits of a fraction.
    pub fn next24(&mut self) -> (x: u32)
        ensures
            final(self).s == congruent(old(self).s),
            x == congruent(old(self).s) >> 8,
            x < 0x100_0000,
    {
        let s: u32 = self.s.wrapping_mul(1664525).wrapping_add(1013904223);
        self.s = s;
        proof {
            assert(s >> 8 < 0x100_0000) by (bit_vector);
        }
        s >> 8
    }
}

// ----------------------------------------------------------------------
// Laws
// ----------------------------------------------------------------------

/// The generator never falls into its fixed point at zero.
pub proof fn never_stuck(s: u64)
    ensures
        s != 0 ==> shifted(s) != 0,
        seeded(s) != 0,
{
    let a = s ^ (s >> 12);
    let b = a ^ (a << 25);
    if s != 0 {
        assert(a != 0) by (bit_vector)
            requires
                s != 0,
                a == s ^ (s >> 12),
        ;
        assert(b != 0) by (bit_vector)
            requires
                a != 0,
                b == a ^ (a << 25),
        ;
        assert(b ^ (b >> 27) != 0) by (bit_vector)
            requires
                b != 0,
        ;
    }
    let k = s.wrapping_mul(0x9E37_79B9_7F4A_7C15).wrapping_add(0xDA3E_39CB_94B9_5BDB);
    assert(k | 1 != 0) by (bit_vector);
}

/// Two streams never merge: different states stay different.
pub proof fn streams_never_merge(s: u64, t: u64)
    ensures
        shifted(s) == shifted(t) ==> s == t,
{
    if shifted(s) == shifted(t) {
        let (a, c) = (s ^ (s >> 12), t ^ (t >> 12));
        let (b, d) = (a ^ (a << 25), c ^ (c << 25));
        assert(b == d) by (bit_vector)
            requires
                b ^ (b >> 27) == d ^ (d >> 27),
        ;
        assert(a == c) by (bit_vector)
            requires
                a ^ (a << 25) == c ^ (c << 25),
        ;
        assert(s == t) by (bit_vector)
            requires
                s ^ (s >> 12) == t ^ (t >> 12),
        ;
    }
}

} // verus!
