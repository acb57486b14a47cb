//! Map seeds: chosen once, outside the simulation, then baked into the world and shared to
//! joiners.

use crate::crypto::unix_nanos;
use vstd::prelude::*;
use vstd::utf8::encode_utf8;

verus! {

/// The seed of the clock's stand-in, where there is no clock.
pub const NO_CLOCK: u64 = 0xC0_FFEE_D00D;

/// Spread a number: the finalizer of splitmix64. A near-sequential clock still yields a
/// spread-out seed.
pub open spec fn scrambled(raw: u64) -> u64 {
    let a = raw.wrapping_add(0x9E37_79B9_7F4A_7C15);
    let b = (a ^ (a >> 30)).wrapping_mul(0xBF58_476D_1CE4_E5B9);
    let c = (b ^ (b >> 27)).wrapping_mul(0x94D0_49BB_1331_11EB);
    c ^ (c >> 31)
}

/// The seed for a clock that reads `nanos` nanoseconds since the epoch.
pub open spec fn clock_seed(nanos: Option<u128>) -> u64 {
    scrambled(
        match nanos {
            Some(n) => (n % 0x1_0000_0000_0000_0000) as u64,
            None => NO_CLOCK,
        },
    )
}

/// Spread a number.
pub fn scramble(raw: u64) -> (z: u64)
    ensures
        z == scrambled(raw),
{
    let a: u64 = raw.wrapping_add(0x9E37_79B9_7F4A_7C15);
    let b: u64 = (a ^ (a >> 30)).wrapping_mul(0xBF58_476D_1CE4_E5B9);
    let c: u64 = (b ^ (b >> 27)).wrapping_mul(0x94D0_49BB_1331_11EB);
    c ^ (c >> 31)
}

/// The seed for a clock reading.
pub fn seed_at(nanos: Option<u128>) -> (z: u64)
    ensures
        z == clock_seed(nanos),
{
    let raw: u64 = match nanos {
        Some(n) => (n % 0x1_0000_0000_0000_0000) as u64,
        None => NO_CLOCK,
    };
    scramble(raw)
}

/// A fresh, well-spread map seed from the wall clock, so each new game lands on a different
/// planet.
pub fn fresh_seed() -> (z: u64)
    ensures
        exists|nanos: Option<u128>| z == #[trigger] clock_seed(nanos),
{
    let nanos: Option<u128> = unix_nanos();
    let z: u64 = seed_at(nanos);
    proof {
        assert(z == clock_seed(nanos));
    }
    z
}

/// One byte of the region hash.
pub open spec fn fnv_step(h: u64, b: u8) -> u64 {
    (h ^ (b as u64)).wrapping_mul(0x0000_0100_0000_01b3)
}

/// The FNV-1a hash of some bytes.
pub open spec fn fnv(bytes: Seq<u8>) -> u64
    decreases bytes.len(),
{
    if bytes.len() == 0 {
        0xcbf2_9ce4_8422_2325
    } else {
        fnv_step(fnv(bytes.drop_last()), bytes.last())
    }
}

/// Derive a map seed from a region name: the same name yields the same world on every peer, so
/// a sector is genuinely a shared place.
pub fn region_seed(region: &str) -> (h: u64)
    ensures
        h == fnv(encode_utf8(region@)),
{
    let bytes: &[u8] = region.as_bytes();
    let mut h: u64 = 0xcbf2_9ce4_8422_2325;
    let mut i: usize = 0;
    while i < bytes.len()
        invariant
            i <= bytes@.len(),
            h == fnv(bytes@.take(i as int)),
        decreases bytes@.len() - i,
    {
        proof {
            assert(bytes@.take(i + 1).drop_last() =~= bytes@.take(i as int));
        }
        h = (h ^ (bytes[i] as u64)).wrapping_mul(0x0000_0100_0000_01b3);
        i = i + 1;
    }
    proof {
        assert(bytes@.take(i as int) =~= bytes@);
    }
    h
}

// ----------------------------------------------------------------------
// Laws
// ----------------------------------------------------------------------

/// To multiply by a number with an inverse loses nothing.
proof fn unit_factor(a: u64, b: u64, c: u64, inv: u64)
    requires
        a.wrapping_mul(c) == b.wrapping_mul(c),
        (c * inv) % 0x1_0000_0000_0000_0000 == 1,
    ensures
        a == b,
{
    undone(a as int, c as int, inv as int);
    undone(b as int, c as int, inv as int);
}

proof fn undone(a: int, c: int, inv: int)
    requires
        0 <= a < 0x1_0000_0000_0000_0000,
        (c * inv) % 0x1_0000_0000_0000_0000 == 1,
    ensures
        (((a * c) % 0x1_0000_0000_0000_0000) * inv) % 0x1_0000_0000_0000_0000 == a,
{
    let m: int = 0x1_0000_0000_0000_0000;
    vstd::arithmetic::div_mod::lemma_mul_mod_noop_left(a * c, inv, m);
    vstd::arithmetic::mul::lemma_mul_is_associative(a, c, inv);
    vstd::arithmetic::div_mod::lemma_mul_mod_noop_right(a, c * inv, m);
    vstd::arithmetic::div_mod::lemma_small_mod(a as nat, m as nat);
}

/// Different clock readings roll different maps.
pub proof fn every_moment_has_its_own_map(a: u64, b: u64)
    ensures
        scrambled(a) == scrambled(b) ==> a == b,
{
    if scrambled(a) == scrambled(b) {
        let (a1, b1) = (a.wrapping_add(0x9E37_79B9_7F4A_7C15), b.wrapping_add(0x9E37_79B9_7F4A_7C15));
        let (a2, b2) = (a1 ^ (a1 >> 30), b1 ^ (b1 >> 30));
        let (a3, b3) = (a2.wrapping_mul(0xBF58_476D_1CE4_E5B9), b2.wrapping_mul(0xBF58_476D_1CE4_E5B9));
        let (a4, b4) = (a3 ^ (a3 >> 27), b3 ^ (b3 >> 27));
        let (a5, b5) = (a4.wrapping_mul(0x94D0_49BB_1331_11EB), b4.wrapping_mul(0x94D0_49BB_1331_11EB));
        assert(a5 == b5) by (bit_vector)
            requires
                a5 ^ (a5 >> 31) == b5 ^ (b5 >> 31),
        ;
        unit_factor(a4, b4, 0x94D0_49BB_1331_11EB, 0x3196_42B2_D24D_8EC3);
        assert(a3 == b3) by (bit_vector)
            requires
                a3 ^ (a3 >> 27) == b3 ^ (b3 >> 27),
        ;
        unit_factor(a2, b2, 0xBF58_476D_1CE4_E5B9, 0x96DE_1B17_3F11_9089);
        assert(a1 == b1) by (bit_vector)
            requires
                a1 ^ (a1 >> 30) == b1 ^ (b1 >> 30),
        ;
    }
}

proof fn fnv_step_keeps_apart(h: u64, k: u64, b: u8)
    requires
        h != k,
    ensures
        fnv_step(h, b) != fnv_step(k, b),
{
    let x = b as u64;
    if fnv_step(h, b) == fnv_step(k, b) {
        unit_factor(h ^ x, k ^ x, 0x0000_0100_0000_01b3, 0xCE96_5057_AFF6_957B);
        assert(h == k) by (bit_vector)
            requires
                h ^ x == k ^ x,
        ;
    }
}

proof fn fnv_step_tells_bytes(h: u64, a: u8, b: u8)
    requires
        a != b,
    ensures
        fnv_step(h, a) != fnv_step(h, b),
{
    let (x, y) = (a as u64, b as u64);
    if fnv_step(h, a) == fnv_step(h, b) {
        unit_factor(h ^ x, h ^ y, 0x0000_0100_0000_01b3, 0xCE96_5057_AFF6_957B);
        assert(x == y) by (bit_vector)
            requires
                h ^ x == h ^ y,
        ;
    }
}

/// Names that differ in one byte have different terrain.
pub proof fn one_byte_apart_is_another_map(a: Seq<u8>, b: Seq<u8>, p: int)
    requires
        a.len() == b.len(),
        0 <= p < a.len(),
        a[p] != b[p],
        forall|i: int| 0 <= i < a.len() && i != p ==> a[i] == b[i],
    ensures
        fnv(a) != fnv(b),
    decreases a.len(),
{
    let (x, y) = (a.drop_last(), b.drop_last());
    if p == a.len() - 1 {
        assert(x =~= y);
        fnv_step_tells_bytes(fnv(x), a.last(), b.last());
    } else {
        one_byte_apart_is_another_map(x, y, p);
        fnv_step_keeps_apart(fnv(x), fnv(y), a.last());
    }
}

} // verus!
