//! Whole numbers of 256 and 384 bits, as far as comparing products takes them.

use vstd::prelude::*;

verus! {

/// A number in two halves.
#[derive(Debug, Clone, Copy, PartialEq, Eq, Structural)]
pub struct Wide {
    pub hi: u128,
    pub lo: u128,
}

/// Two to the power of 64.
pub open spec fn two_64() -> int {
    0x1_0000_0000_0000_0000int
}

/// Two to the power of 128.
pub open spec fn two_128() -> int {
    0x1_0000_0000_0000_0000_0000_0000_0000_0000int
}

impl Wide {
    /// The number.
    pub open spec fn value(self) -> nat {
        (self.hi * two_128() + self.lo) as nat
    }
}

/// The halves of a number.
pub open spec fn wide_of(n: nat) -> Wide {
    Wide { hi: (n as int / two_128()) as u128, lo: (n as int % two_128()) as u128 }
}

/// The halves of what two halves make are these.
pub proof fn lemma_wide_of(w: Wide)
    ensures
        wide_of(w.value()) == w,
{
    let k = two_128();
    let h = w.hi as int;
    let l = w.lo as int;
    assert((h * k + l) / k == h && (h * k + l) % k == l) by (nonlinear_arith)
        requires
            0 <= l < k,
            0 <= h,
    ;
}

/// The first number that is too large.
pub open spec fn wide_limit() -> int {
    0x1_0000_0000_0000_0000_0000_0000_0000_0000_0000_0000_0000_0000_0000_0000_0000_0000int
}

/// A number of 128 bits.
pub fn widened(n: u128) -> (r: Wide)
    ensures
        r.value() == n,
{
    Wide { hi: 0, lo: n }
}

/// The product of numbers by the products of their halves.
proof fn lemma_halves(a1: int, a0: int, b1: int, b0: int, u: int)
    ensures
        (a1 * u + a0) * (b1 * u + b0) == a1 * b1 * (u * u) + (a0 * b1 + a1 * b0) * u + a0 * b0,
{
    let x = a1 * u;
    let y = b1 * u;
    assert((x + a0) * (y + b0) == x * y + x * b0 + a0 * y + a0 * b0) by (nonlinear_arith);
    assert(x * y == a1 * b1 * (u * u)) by (nonlinear_arith)
        requires
            x == a1 * u,
            y == b1 * u,
    ;
    assert(x * b0 == (a1 * b0) * u) by (nonlinear_arith)
        requires
            x == a1 * u,
    ;
    assert(a0 * y == (a0 * b1) * u) by (nonlinear_arith)
        requires
            y == b1 * u,
    ;
    let p = a0 * b1;
    let q = a1 * b0;
    assert((p + q) * u == p * u + q * u) by (nonlinear_arith);
}

proof fn lemma_small_product(a: int, b: int)
    requires
        0 <= a < two_64(),
        0 <= b < two_64(),
    ensures
        0 <= a * b <= 0xffff_ffff_ffff_fffe_0000_0000_0000_0001int,
{
    assert(0 <= a * b <= 0xffff_ffff_ffff_ffffint * 0xffff_ffff_ffff_ffffint) by (nonlinear_arith)
        requires
            0 <= a <= 0xffff_ffff_ffff_ffffint,
            0 <= b <= 0xffff_ffff_ffff_ffffint,
    ;
}

proof fn lemma_full_product(a: int, b: int)
    requires
        0 <= a < two_128(),
        0 <= b < two_128(),
    ensures
        0 <= a * b < wide_limit(),
{
    let most = 0xffff_ffff_ffff_ffff_ffff_ffff_ffff_ffffint;
    assert(0 <= a * b <= most * most) by (nonlinear_arith)
        requires
            0 <= a <= most,
            0 <= b <= most,
    ;
}

/// The product of two numbers.
pub fn product(a: u128, b: u128) -> (r: Wide)
    ensures
        r.value() == a * b,
{
    let unit: u128 = 0x1_0000_0000_0000_0000;
    let a1: u128 = a / unit;
    let a0: u128 = a % unit;
    let b1: u128 = b / unit;
    let b0: u128 = b % unit;
    proof {
        lemma_small_product(a0 as int, b0 as int);
        lemma_small_product(a0 as int, b1 as int);
        lemma_small_product(a1 as int, b0 as int);
        lemma_small_product(a1 as int, b1 as int);
        lemma_halves(a1 as int, a0 as int, b1 as int, b0 as int, two_64());
        lemma_full_product(a as int, b as int);
        assert(a1 * two_64() + a0 == a);
        assert(b1 * two_64() + b0 == b);
    }
    let low: u128 = a0 * b0;
    let left: u128 = a0 * b1;
    let right: u128 = a1 * b0;
    let high: u128 = a1 * b1;
    let mid: u128 = low / unit + left % unit + right % unit;
    let lo: u128 = (mid % unit) * unit + low % unit;
    let ghost top = high + left as int / two_64() + right as int / two_64() + mid as int / two_64();
    proof {
        assert(a * b == high * two_128() + (left + right) * two_64() + low);
        assert((left + right) * two_64() == left * two_64() + right * two_64());
        assert(left == (left as int / two_64()) * two_64() + left as int % two_64());
        assert(right == (right as int / two_64()) * two_64() + right as int % two_64());
        assert(a * b == top * two_128() + lo);
        assert(top < two_128());
    }
    let hi: u128 = high + left / unit + right / unit + mid / unit;
    Wide { hi, lo }
}

/// A number so many times.
pub fn times(w: Wide, c: u128) -> (r: Wide)
    requires
        w.value() * c < wide_limit(),
    ensures
        r.value() == w.value() * c,
{
    let low = product(w.lo, c);
    proof {
        let h = w.hi as int;
        let l = w.lo as int;
        let n = c as int;
        assert((h * two_128() + l) * n == (h * n) * two_128() + l * n) by (nonlinear_arith);
        assert(l * n >= 0) by (nonlinear_arith)
            requires
                l >= 0,
                n >= 0,
        ;
        assert(h * n >= 0) by (nonlinear_arith)
            requires
                h >= 0,
                n >= 0,
        ;
        assert((h * n) * two_128() + low.value() < wide_limit());
        assert(h * n + low.hi < two_128());
    }
    Wide { hi: w.hi * c + low.hi, lo: low.lo }
}

/// The sum of two numbers.
pub fn sum(a: Wide, b: Wide) -> (r: Wide)
    requires
        a.value() + b.value() < wide_limit(),
    ensures
        r.value() == a.value() + b.value(),
{
    let room: u128 = u128::MAX - b.lo;
    if a.lo > room {
        let lo: u128 = a.lo - room - 1;
        assert(a.lo + b.lo == lo + two_128());
        Wide { hi: a.hi + b.hi + 1, lo }
    } else {
        Wide { hi: a.hi + b.hi, lo: a.lo + b.lo }
    }
}

/// Whether a number is smaller than another.
pub fn is_less(a: &Wide, b: &Wide) -> (r: bool)
    ensures
        r == (a.value() < b.value()),
{
    a.hi < b.hi || (a.hi == b.hi && a.lo < b.lo)
}

/// A number of 384 bits: what is over 256 bits, and the rest.
pub struct Huge {
    pub top: u128,
    pub rest: Wide,
}

impl Huge {
    /// The number.
    pub open spec fn value(self) -> nat {
        (self.top * wide_limit() + self.rest.value()) as nat
    }
}

/// The product of a number of 256 bits and one of 128.
pub fn scaled(w: Wide, c: u128) -> (r: Huge)
    ensures
        r.value() == w.value() * c,
{
    let low = product(w.lo, c);
    let high = product(w.hi, c);
    proof {
        let h = w.hi as int;
        let l = w.lo as int;
        let n = c as int;
        assert((h * two_128() + l) * n == (h * n) * two_128() + l * n) by (nonlinear_arith);
        let most = 0xffff_ffff_ffff_ffff_ffff_ffff_ffff_ffffint;
        assert(h * n <= most * most) by (nonlinear_arith)
            requires
                0 <= h <= most,
                0 <= n <= most,
        ;
        assert(high.hi < most);
    }
    let room: u128 = u128::MAX - low.hi;
    if high.lo > room {
        let hi: u128 = high.lo - room - 1;
        assert(high.lo + low.hi == hi + two_128());
        Huge { top: high.hi + 1, rest: Wide { hi, lo: low.lo } }
    } else {
        Huge { top: high.hi, rest: Wide { hi: high.lo + low.hi, lo: low.lo } }
    }
}

/// Whether a number is smaller than another.
pub fn is_huge_less(a: &Huge, b: &Huge) -> (r: bool)
    ensures
        r == (a.value() < b.value()),
{
    a.top < b.top || (a.top == b.top && is_less(&a.rest, &b.rest))
}

} // verus!
