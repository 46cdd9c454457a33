//! Seeded randomness for tests. No dependency, reproducible across runs.

use vstd::prelude::*;

verus! {

/// A 64-bit xorshift generator.
pub struct XorShift64(u64);

/// One step of the generator.
pub open spec fn xorshift(x: u64) -> u64 {
    let a = x ^ (x << 13u64);
    let b = a ^ (a >> 7u64);
    b ^ (b << 17u64)
}

/// The generator never falls into zero, where it would stay.
pub proof fn lemma_xorshift_alive(x: u64)
    requires
        x != 0,
    ensures
        xorshift(x) != 0,
{
    let a = x ^ (x << 13u64);
    let b = a ^ (a >> 7u64);
    assert(x != 0 ==> x ^ (x << 13u64) != 0) by (bit_vector);
    assert(a != 0 ==> a ^ (a >> 7u64) != 0) by (bit_vector);
    assert(b != 0 ==> b ^ (b << 17u64) != 0) by (bit_vector);
}

impl View for XorShift64 {
    type V = u64;

    closed spec fn view(&self) -> u64 {
        self.0
    }
}

impl XorShift64 {
    /// `seed` must be non-zero; zero is replaced to keep the generator alive.
    pub fn new(seed: u64) -> (rng: XorShift64)
        ensures
            rng@ == if seed == 0 {
                0x9E37_79B9_7F4A_7C15
            } else {
                seed
            },
            rng@ != 0,
    {
        XorShift64(
            if seed == 0 {
                0x9E37_79B9_7F4A_7C15
            } else {
                seed
            },
        )
    }

    pub fn next_u64(&mut self) -> (x: u64)
        ensures
            x == xorshift(old(self)@),
            final(self)@ == x,
            old(self)@ != 0 ==> x != 0,
    {
        proof {
            if self@ != 0 {
                lemma_xorshift_alive(self@);
            }
        }
        let mut x: u64 = self.0;
        x = x ^ (x << 13u64);
        x = x ^ (x >> 7u64);
        x = x ^ (x << 17u64);
        self.0 = x;
        x
    }

    /// Uniform enough for test data. `bound` must be non-zero.
    pub fn next_below(&mut self, bound: u32) -> (below: u32)
        requires
            bound != 0,
        ensures
            below == xorshift(old(self)@) % bound as u64,
            below < bound,
            final(self)@ == xorshift(old(self)@),
    {
        (self.next_u64() % bound as u64) as u32
    }
}

/// A step can be taken back: no two states lead to the same one.
pub proof fn law_a_step_can_be_taken_back(x: u64)
    ensures
        ({
            let y = xorshift(x);
            let b = y ^ (y << 17u64) ^ (y << 34u64) ^ (y << 51u64);
            let a = b ^ (b >> 7u64) ^ (b >> 14u64) ^ (b >> 21u64) ^ (b >> 28u64) ^ (b >> 35u64) ^ (b
                >> 42u64) ^ (b >> 49u64) ^ (b >> 56u64) ^ (b >> 63u64);
            a ^ (a << 13u64) ^ (a << 26u64) ^ (a << 39u64) ^ (a << 52u64) == x
        }),
{
    let a = x ^ (x << 13u64);
    let b = a ^ (a >> 7u64);
    let y = b ^ (b << 17u64);
    assert(y ^ (y << 17u64) ^ (y << 34u64) ^ (y << 51u64) == b) by (bit_vector)
        requires
            y == b ^ (b << 17u64),
    ;
    assert(b ^ (b >> 7u64) ^ (b >> 14u64) ^ (b >> 21u64) ^ (b >> 28u64) ^ (b >> 35u64) ^ (b
        >> 42u64) ^ (b >> 49u64) ^ (b >> 56u64) ^ (b >> 63u64) == a) by (bit_vector)
        requires
            b == a ^ (a >> 7u64),
    ;
    assert(a ^ (a << 13u64) ^ (a << 26u64) ^ (a << 39u64) ^ (a << 52u64) == x) by (bit_vector)
        requires
            a == x ^ (x << 13u64),
    ;
}

} // verus!
