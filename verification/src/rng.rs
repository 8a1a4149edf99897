//! A deterministic generator of numbers that look random: four words of state,
//! mixed by shifts and rotations.

use vstd::prelude::*;

verus! {

/// The step by which a seed is spread over the words of a state.
pub const SEED_STEP: u64 = 0x9e37_79b9_7f4a_7c15;

/// The first factor that mixes a spread seed.
pub const FIRST_MIX: u64 = 0xbf58_476d_1ce4_e5b9;

/// The second factor that mixes a spread seed.
pub const SECOND_MIX: u64 = 0x94d0_49bb_1331_11eb;

/// The sum, without what does not fit into 64 bits.
pub open spec fn sum64(a: u64, b: u64) -> u64 {
    ((a + b) % 0x1_0000_0000_0000_0000) as u64
}

/// The product, without what does not fit into 64 bits.
pub open spec fn product64(a: u64, b: u64) -> u64 {
    ((a * b) % 0x1_0000_0000_0000_0000) as u64
}

/// The word turned left by `k` bits.
pub open spec fn turned(x: u64, k: u64) -> u64 {
    (x << k) | (x >> ((64 - k) as u64))
}

/// The four words of a state.
pub struct RngState {
    pub s0: u64,
    pub s1: u64,
    pub s2: u64,
    pub s3: u64,
}

/// A word of the state that a seed is spread over.
#[verifier::opaque]
pub open spec fn mixed(seed: u64) -> u64 {
    let a = product64(seed ^ (seed >> 30), FIRST_MIX);
    let b = product64(a ^ (a >> 27), SECOND_MIX);
    b ^ (b >> 31)
}

/// The state that a seed leads to.
pub open spec fn seeded(seed: u64) -> RngState {
    let a = sum64(seed, SEED_STEP);
    let b = sum64(a, SEED_STEP);
    let c = sum64(b, SEED_STEP);
    let d = sum64(c, SEED_STEP);
    RngState { s0: mixed(a), s1: mixed(b), s2: mixed(c), s3: mixed(d) }
}

impl RngState {
    /// The number that the state gives.
    pub open spec fn number(self) -> u64 {
        sum64(turned(sum64(self.s0, self.s3), 23), self.s0)
    }

    /// The state after that number.
    pub open spec fn next(self) -> RngState {
        let s2 = self.s2 ^ self.s0;
        let s3 = self.s3 ^ self.s1;
        RngState {
            s0: self.s0 ^ s3,
            s1: self.s1 ^ s2,
            s2: s2 ^ (self.s1 << 17),
            s3: turned(s3, 45),
        }
    }

    /// A number below the bound, and the state after it. A bound of one or less leaves
    /// nothing to draw.
    pub open spec fn below(self, bound: nat) -> (nat, RngState) {
        if bound <= 1 {
            (0, self)
        } else {
            ((self.number() as nat) % bound, self.next())
        }
    }

    /// A share of the whole in units of two to the minus 24.
    pub open spec fn share(self) -> nat {
        (self.number() >> 40) as nat
    }
}

fn turn(x: u64, k: u64) -> (r: u64)
    requires
        0 < k < 64,
    ensures
        r == turned(x, k),
{
    (x << k) | (x >> (64 - k))
}

fn plus(a: u64, b: u64) -> (r: u64)
    ensures
        r == sum64(a, b),
{
    a.wrapping_add(b)
}

fn mix(seed: u64) -> (r: u64)
    ensures
        r == mixed(seed),
{
    reveal(mixed);
    let a: u64 = (seed ^ (seed >> 30)).wrapping_mul(FIRST_MIX);
    let b: u64 = (a ^ (a >> 27)).wrapping_mul(SECOND_MIX);
    b ^ (b >> 31)
}

/// A fast deterministic generator of numbers that look random.
#[derive(Debug)]
pub struct FastRng {
    s0: u64,
    s1: u64,
    s2: u64,
    s3: u64,
}

impl View for FastRng {
    type V = RngState;

    closed spec fn view(&self) -> RngState {
        RngState { s0: self.s0, s1: self.s1, s2: self.s2, s3: self.s3 }
    }
}

impl FastRng {
    /// Spreads a seed over the state.
    pub fn seed_from_u64(seed: u64) -> (r: FastRng)
        ensures
            r@ == seeded(seed),
    {
        let a: u64 = plus(seed, SEED_STEP);
        let b: u64 = plus(a, SEED_STEP);
        let c: u64 = plus(b, SEED_STEP);
        let d: u64 = plus(c, SEED_STEP);
        FastRng { s0: mix(a), s1: mix(b), s2: mix(c), s3: mix(d) }
    }

    /// The next number.
    pub fn next_u64(&mut self) -> (r: u64)
        ensures
            r == old(self)@.number(),
            final(self)@ == old(self)@.next(),
    {
        let r: u64 = plus(turn(plus(self.s0, self.s3), 23), self.s0);
        let t: u64 = self.s1 << 17;
        self.s2 = self.s2 ^ self.s0;
        self.s3 = self.s3 ^ self.s1;
        self.s1 = self.s1 ^ self.s2;
        self.s0 = self.s0 ^ self.s3;
        self.s2 = self.s2 ^ t;
        self.s3 = turn(self.s3, 45);
        r
    }

    /// A number below the bound; zero where the bound leaves no choice.
    pub fn gen_range(&mut self, bound: usize) -> (r: usize)
        ensures
            (r as nat, final(self)@) == old(self)@.below(bound as nat),
            bound > 0 ==> r < bound,
    {
        if bound <= 1 {
            return 0;
        }
        let n: u64 = self.next_u64();
        (n % (bound as u64)) as usize
    }

    /// A share of the whole in units of two to the minus 24.
    pub fn gen_share(&mut self) -> (r: u32)
        ensures
            r == old(self)@.share(),
            final(self)@ == old(self)@.next(),
            r < 0x100_0000,
    {
        let n: u64 = self.next_u64();
        assert(n >> 40 < 0x100_0000) by (bit_vector);
        (n >> 40) as u32
    }
}

/// The generator never falls into the state of zeroes, which it could not leave.
pub proof fn generator_keeps_moving(s: RngState)
    requires
        !(s.s0 == 0 && s.s1 == 0 && s.s2 == 0 && s.s3 == 0),
    ensures
        ({
            let n = s.next();
            !(n.s0 == 0 && n.s1 == 0 && n.s2 == 0 && n.s3 == 0)
        }),
{
    let s0 = s.s0;
    let s1 = s.s1;
    let s2 = s.s2;
    let s3 = s.s3;
    assert(s0 ^ (s3 ^ s1) == 0 && s1 ^ (s2 ^ s0) == 0 && (s2 ^ s0) ^ (s1 << 17) == 0 && ((s3 ^ s1)
        << 45) | ((s3 ^ s1) >> 19) == 0 ==> s0 == 0 && s1 == 0 && s2 == 0 && s3 == 0)
        by (bit_vector);
}

} // verus!
