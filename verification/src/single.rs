//! Single-precision numbers held by their bit pattern.
//!
//! A [`Single`] carries the 32 bits of an IEEE 754 binary32 number, and its operations are
//! the operations of that format: the exact result, rounded to the nearest representable
//! number, ties to the even pattern. Every finite number is a whole multiple of 2^-149, so the
//! exact values below are integers (`units`) and exact results are fractions of integers.

use vstd::arithmetic::div_mod::{lemma_fundamental_div_mod, lemma_fundamental_div_mod_converse};
use vstd::arithmetic::mul::{
    lemma_mul_is_associative, lemma_mul_is_commutative, lemma_mul_is_distributive_add_other_way, lemma_mul_is_distributive_sub_other_way,
    lemma_mul_strict_inequality,
};
use vstd::arithmetic::power2::{lemma2_to64, lemma2_to64_rest, lemma_pow2_adds, lemma_pow2_pos, lemma_pow2_strictly_increases, lemma_pow2_unfold, pow2};
use vstd::prelude::*;

verus! {

/// Two to the power 23: the distance between the patterns of x and 2x.
pub const STEP: u32 = 0x0080_0000;

/// The pattern of positive infinity.
pub const INFINITY: u32 = 0x7f80_0000;

/// The sign bit.
pub const SIGN: u32 = 0x8000_0000;

/// The pattern of one.
pub const ONE: u32 = 0x3f80_0000;

/// The pattern given for every result that is not a number.
pub const NOT_A_NUMBER: u32 = 0x7fc0_0000;

/// A binary32 number, by its bits.
#[derive(Clone, Copy, PartialEq, Eq, Debug, Structural)]
pub struct Single {
    pub bits: u32,
}

/// The value of the sign-free pattern `n`, in units of 2^-149. The pattern of infinity gets
/// the value that the format's next exponent would have, which is where rounding overflows.
pub open spec fn magnitude(n: nat) -> nat {
    if n / STEP as nat == 0 {
        n
    } else {
        (STEP as nat + n % STEP as nat) * pow2((n / STEP as nat - 1) as nat)
    }
}

/// The sign-free pattern `r` is the one nearest to `num / den` units, a tie going to the even
/// pattern.
pub open spec fn rounds_to(num: nat, den: nat, r: nat) -> bool {
    &&& r <= INFINITY
    &&& r > 0 ==> {
        let border = (magnitude((r - 1) as nat) + magnitude(r)) * den;
        2 * num > border || (2 * num == border && r % 2 == 0)
    }
    &&& r < INFINITY ==> {
        let border = (magnitude(r) + magnitude(r + 1)) * den;
        2 * num < border || (2 * num == border && r % 2 == 0)
    }
}

/// The sign-free pattern nearest to `num / den` units.
pub open spec fn nearest(num: nat, den: nat) -> nat {
    choose|r: nat| rounds_to(num, den, r)
}

/// The number with the given sign and sign-free pattern.
pub open spec fn signed(negative: bool, n: nat) -> Single {
    Single { bits: (n + if negative { SIGN as nat } else { 0 }) as u32 }
}

pub open spec fn abs(i: int) -> nat {
    if i < 0 { (-i) as nat } else { i as nat }
}

impl Single {
    /// The pattern without its sign.
    pub open spec fn unsigned(self) -> nat {
        self.bits as nat % SIGN as nat
    }

    pub open spec fn negative(self) -> bool {
        self.bits >= SIGN
    }

    pub open spec fn nan(self) -> bool {
        self.unsigned() > INFINITY
    }

    pub open spec fn infinite(self) -> bool {
        self.unsigned() == INFINITY
    }

    /// The exact value in units of 2^-149.
    pub open spec fn units(self) -> int {
        if self.negative() {
            -(magnitude(self.unsigned()) as int)
        } else {
            magnitude(self.unsigned()) as int
        }
    }

    /// `self < other`.
    pub open spec fn below(self, other: Single) -> bool {
        !self.nan() && !other.nan() && self.units() < other.units()
    }

    /// `self <= other`.
    pub open spec fn at_most(self, other: Single) -> bool {
        !self.nan() && !other.nan() && self.units() <= other.units()
    }

    /// `-self`.
    pub open spec fn negated(self) -> Single {
        signed(!self.negative(), self.unsigned())
    }

    /// `self + other`.
    pub open spec fn sum(self, other: Single) -> Single {
        if self.nan() || other.nan() {
            Single { bits: NOT_A_NUMBER }
        } else if self.infinite() {
            if other.infinite() && self.negative() != other.negative() {
                Single { bits: NOT_A_NUMBER }
            } else {
                self
            }
        } else if other.infinite() {
            other
        } else {
            let exact = self.units() + other.units();
            signed(
                exact < 0 || (exact == 0 && self.negative() && other.negative()),
                nearest(abs(exact), 1),
            )
        }
    }

    /// `self - other`.
    pub open spec fn difference(self, other: Single) -> Single {
        self.sum(other.negated())
    }

    /// `self * other`.
    pub open spec fn product(self, other: Single) -> Single {
        let negative = self.negative() != other.negative();
        if self.nan() || other.nan() {
            Single { bits: NOT_A_NUMBER }
        } else if self.infinite() || other.infinite() {
            if self.unsigned() == 0 || other.unsigned() == 0 {
                Single { bits: NOT_A_NUMBER }
            } else {
                signed(negative, INFINITY as nat)
            }
        } else {
            signed(
                negative,
                nearest(magnitude(self.unsigned()) * magnitude(other.unsigned()), pow2(149)),
            )
        }
    }

    /// `self / other`.
    pub open spec fn quotient(self, other: Single) -> Single {
        let negative = self.negative() != other.negative();
        if self.nan() || other.nan() || (self.infinite() && other.infinite())
            || (self.unsigned() == 0 && other.unsigned() == 0) {
            Single { bits: NOT_A_NUMBER }
        } else if self.infinite() || other.unsigned() == 0 {
            signed(negative, INFINITY as nat)
        } else if other.infinite() {
            signed(negative, 0)
        } else {
            signed(
                negative,
                nearest(magnitude(self.unsigned()) * pow2(149), magnitude(other.unsigned())),
            )
        }
    }

    /// The whole number `n`, rounded to the format.
    pub open spec fn whole(n: nat) -> Single {
        signed(false, nearest(n * pow2(149), 1))
    }

    /// The larger of the two; the other one where one is not a number.
    pub open spec fn larger(self, other: Single) -> Single {
        if self.nan() || self.below(other) { other } else { self }
    }

    /// The smaller of the two; the other one where one is not a number.
    pub open spec fn smaller(self, other: Single) -> Single {
        if self.nan() || other.below(self) { other } else { self }
    }

    /// The nearest whole number, halves going away from zero, brought into the range of `u64`.
    pub open spec fn rounded(self) -> nat {
        if self.nan() || self.negative() {
            0
        } else {
            let n = (2 * self.units() + pow2(149)) / (pow2(150) as int);
            if n > u64::MAX { u64::MAX as nat } else { n as nat }
        }
    }

    /// The smallest whole number that is not below, brought into the range of `u64`.
    pub open spec fn ceiling(self) -> nat {
        if self.nan() || self.negative() {
            0
        } else {
            let n = (self.units() + pow2(149) - 1) / (pow2(149) as int);
            if n > u64::MAX { u64::MAX as nat } else { n as nat }
        }
    }
}

/// One step up in pattern is one step up in value, by the power of two of the exponent.
proof fn lemma_magnitude_step(n: nat)
    ensures
        magnitude(n + 1) == magnitude(n) + pow2(
            if n / STEP as nat == 0 { 0 } else { (n / STEP as nat - 1) as nat },
        ),
        magnitude(n) < magnitude(n + 1),
{
    lemma2_to64();
    let s = STEP as nat;
    let e = n / s;
    let f = n % s;
    lemma_pow2_pos((if e == 0 { 0 } else { e - 1 }) as nat);
    assert(n == e * s + f && f < s);
    if e == 0 {
        if f + 1 == s {
            assert((n + 1) / s == 1 && (n + 1) % s == 0);
            assert((s + 0) * pow2(0) == s) by (nonlinear_arith)
                requires pow2(0) == 1;
        } else {
            assert((n + 1) / s == 0);
        }
    } else {
        let k = (e - 1) as nat;
        let p = pow2(k);
        if f + 1 == s {
            assert((n + 1) / s == e + 1 && (n + 1) % s == 0);
            lemma_pow2_unfold(e);
            assert((s + 0) * (2 * p) == (s + f) * p + p) by (nonlinear_arith)
                requires f + 1 == s;
        } else {
            assert((n + 1) / s == e && (n + 1) % s == f + 1);
            assert((s + (f + 1)) * p == (s + f) * p + p) by (nonlinear_arith);
        }
    }
}

proof fn lemma_magnitude_increases(a: nat, b: nat)
    requires
        a < b,
    ensures
        magnitude(a) < magnitude(b),
    decreases b - a,
{
    lemma_magnitude_step((b - 1) as nat);
    if a < b - 1 {
        lemma_magnitude_increases(a, (b - 1) as nat);
    }
}

/// No fraction has two nearest patterns.
proof fn lemma_nearest_unique(num: nat, den: nat, r: nat)
    requires
        rounds_to(num, den, r),
        den > 0,
    ensures
        r == nearest(num, den),
{
    let q = nearest(num, den);
    assert(rounds_to(num, den, q));
    let (lo, hi) = if r < q { (r, q) } else { (q, r) };
    if lo < hi {
        let upper = magnitude(lo) + magnitude(lo + 1);
        let lower = magnitude((hi - 1) as nat) + magnitude(hi);
        if lo + 1 < hi {
            lemma_magnitude_increases(lo, (hi - 1) as nat);
            lemma_magnitude_increases(lo + 1, hi);
            assert(upper * den < lower * den) by (nonlinear_arith)
                requires upper < lower, den > 0;
        }
        assert(2 * num <= upper * den);
        assert(2 * num >= lower * den);
        assert(false);
    }
}

/// `m` counts steps of 2^(e - 256) units up to `num / den`: exactly, or with a part of one step
/// left over where `sticky`.
spec fn scaled(m: nat, e: nat, sticky: bool, num: nat, den: nat) -> bool {
    let step = pow2(e) * den;
    let total = num * pow2(256);
    if sticky {
        m * step < total < (m + 1) * step
    } else {
        total == m * step
    }
}

proof fn lemma_halve(m: nat, e: nat, sticky: bool, num: nat, den: nat)
    requires
        scaled(m, e, sticky, num, den),
        den > 0,
    ensures
        scaled(m / 2, e + 1, sticky || m % 2 == 1, num, den),
{
    lemma_pow2_unfold(e + 1);
    lemma_pow2_pos(e);
    let p = pow2(e);
    let step = p * den;
    let h = m / 2;
    assert((2 * p) * den == 2 * step) by (nonlinear_arith)
        requires step == p * den;
    assert(step > 0) by (nonlinear_arith)
        requires step == p * den, p > 0, den > 0;
    assert(h * (2 * step) == (2 * h) * step) by (nonlinear_arith);
    assert((h + 1) * (2 * step) == (2 * h + 2) * step) by (nonlinear_arith);
    assert((2 * h + 1) * step == (2 * h) * step + step) by (nonlinear_arith);
    assert((2 * h + 2) * step == (2 * h) * step + 2 * step) by (nonlinear_arith);
    assert(m == 2 * h || m == 2 * h + 1);
}

proof fn lemma_double(m: nat, e: nat, num: nat, den: nat)
    requires
        scaled(m, e, false, num, den),
        e > 0,
    ensures
        scaled(2 * m, (e - 1) as nat, false, num, den),
{
    lemma_pow2_unfold(e);
    let p = pow2((e - 1) as nat);
    assert(m * ((2 * p) * den) == (2 * m) * (p * den)) by (nonlinear_arith);
}

/// The last step of rounding: with one spare bit in `m`, the pattern and the direction.
proof fn lemma_settle(m: nat, e: nat, sticky: bool, num: nat, den: nat)
    requires
        den > 0,
        scaled(m, e, sticky, num, den),
        m < 0x200_0000,
        255 <= e,
        m >= 0x100_0000 || e == 255,
    ensures
        e - 255 > 253 ==> rounds_to(num, den, INFINITY as nat),
        e - 255 <= 253 ==> {
            let n = ((e - 255) * STEP + m / 2) as nat;
            let up = m % 2 == 1 && (sticky || (m / 2) % 2 == 1);
            &&& n < INFINITY
            &&& rounds_to(num, den, if up { n + 1 } else { n })
        },
{
    let k = (e - 255) as nat;
    let h = m / 2;
    let w = pow2(k) * den;
    lemma2_to64();
    lemma_pow2_pos(k);
    lemma_pow2_pos(255);
    lemma_pow2_adds(k, 255);
    lemma_pow2_unfold(256);
    let q = pow2(255);
    let p = pow2(k);
    let step = pow2(e) * den;
    let total = num * pow2(256);
    assert(w > 0) by (nonlinear_arith)
        requires w == p * den, p > 0, den > 0;
    assert(step == q * w) by (nonlinear_arith)
        requires step == (p * q) * den, w == p * den;
    assert(total == q * (2 * num)) by (nonlinear_arith)
        requires total == num * (2 * q);
    // Both sides are multiples of 2^255.
    assert(m * step == q * (m * w)) by (nonlinear_arith)
        requires step == q * w;
    assert((m + 1) * step == q * ((m + 1) * w)) by (nonlinear_arith)
        requires step == q * w;
    if sticky {
        assert(m * w < 2 * num) by (nonlinear_arith)
            requires q * (m * w) < q * (2 * num), q > 0;
        assert(2 * num < (m + 1) * w) by (nonlinear_arith)
            requires q * (2 * num) < q * ((m + 1) * w), q > 0;
    } else {
        assert(2 * num == m * w) by (nonlinear_arith)
            requires q * (2 * num) == q * (m * w), q > 0;
    }
    assert((m + 1) * w == m * w + w) by (nonlinear_arith);
    assert((2 * h + 1) * w == (2 * h) * w + w) by (nonlinear_arith);
    assert(m == 2 * h || m == 2 * h + 1);
    let s = STEP as nat;
    if k > 253 {
        let top = INFINITY as nat;
        lemma_magnitude_increases((top - 1) as nat, top);
        assert(magnitude(top) == (s + 0) * pow2(254));
        if k > 254 {
            lemma_pow2_strictly_increases(254, k);
        }
        let b = magnitude(top);
        let a = magnitude((top - 1) as nat);
        assert(2 * b * den <= m * w) by (nonlinear_arith)
            requires b == s * pow2(254), pow2(254) <= p, w == p * den, m >= 2 * s;
        assert((a + b) * den < 2 * b * den) by (nonlinear_arith)
            requires a < b, den > 0;
    } else {
        let n = k * s + h;
        assert(n < INFINITY);
        // The pattern stands for h * 2^k units.
        if h >= s {
            assert(n == (k + 1) * s + (h - s));
            assert(n / s == k + 1 && n % s == h - s) by (nonlinear_arith)
                requires n == (k + 1) * s + (h - s), 0 <= h - s < s;
            assert(magnitude(n) == h * p);
        } else {
            assert(k == 0);
            assert(n / s == 0);
            assert(h * p == h) by (nonlinear_arith)
                requires p == 1;
        }
        lemma_magnitude_step(n);
        assert(magnitude(n + 1) == h * p + p);
        let a = magnitude(n);
        let b = magnitude(n + 1);
        assert((a + b) * den == (2 * h + 1) * w) by (nonlinear_arith)
            requires a == h * p, b == h * p + p, w == p * den;
        assert(a * den == h * w) by (nonlinear_arith)
            requires a == h * p, w == p * den;
        assert(b * den == h * w + w) by (nonlinear_arith)
            requires b == h * p + p, w == p * den;
        assert((2 * h) * w == 2 * (h * w)) by (nonlinear_arith);
        let up = m % 2 == 1 && (sticky || h % 2 == 1);
        assert(n % 2 == h % 2) by {
            assert(s % 2 == 0);
            assert((k * s + h) % 2 == h % 2) by (nonlinear_arith)
                requires s == 0x80_0000;
        }
        if up {
            if n + 1 < INFINITY {
                lemma_magnitude_step(n + 1);
                let c = magnitude(n + 2);
                assert((b + c) * den > 2 * (b * den)) by (nonlinear_arith)
                    requires c > b, den > 0;
            }
        } else {
            if n > 0 {
                lemma_magnitude_step((n - 1) as nat);
                let c = magnitude((n - 1) as nat);
                assert((c + a) * den < 2 * (a * den)) by (nonlinear_arith)
                    requires c < a, den > 0;
            }
        }
    }
}

/// Rounds `num / den` units, given as `scaled`, to the nearest pattern.
fn settle(m0: u128, e0: u32, sticky0: bool, Ghost(num): Ghost<nat>, Ghost(den): Ghost<nat>) -> (r: u32)
    requires
        den > 0,
        e0 <= 2000,
        m0 < 0x4000_0000_0000_0000_0000_0000_0000_0000,
        scaled(m0 as nat, e0 as nat, sticky0, num, den),
        sticky0 ==> m0 >= 0x100_0000,
    ensures
        r == nearest(num, den),
        r <= INFINITY,
{
    let mut m: u128 = m0;
    let mut e: u128 = e0 as u128;
    let mut sticky: bool = sticky0;
    while m >= 0x200_0000 || e < 255
        invariant
            den > 0,
            scaled(m as nat, e as nat, sticky, num, den),
            sticky ==> m >= 0x100_0000 || e <= 255,
            e + m <= e0 + m0 + 256,
            e0 + m0 + 256 < u128::MAX,
        decreases m + (if e < 255 { 255 - e } else { 0 }),
    {
        proof {
            lemma_halve(m as nat, e as nat, sticky, num, den);
        }
        if m % 2 == 1 {
            sticky = true;
        }
        m = m / 2;
        e = e + 1;
    }
    while m < 0x100_0000 && e > 255
        invariant
            den > 0,
            scaled(m as nat, e as nat, sticky, num, den),
            sticky ==> m >= 0x100_0000 || e <= 255,
            m < 0x200_0000,
            255 <= e,
        decreases e,
    {
        proof {
            lemma_double(m as nat, e as nat, num, den);
        }
        m = m * 2;
        e = e - 1;
    }
    proof {
        lemma_settle(m as nat, e as nat, sticky, num, den);
    }
    let h: u32 = (m / 2) as u32;
    if e - 255 > 253 {
        proof {
            lemma_nearest_unique(num, den, INFINITY as nat);
        }
        return INFINITY;
    }
    let n: u32 = (e - 255) as u32 * STEP + h;
    let r: u32 = if m % 2 == 1 && (sticky || h % 2 == 1) { n + 1 } else { n };
    proof {
        lemma_nearest_unique(num, den, r as nat);
    }
    r
}

/// The values of two patterns are ordered as the patterns are.
proof fn lemma_magnitude_order(a: nat, b: nat)
    ensures
        a < b <==> magnitude(a) < magnitude(b),
        a == b <==> magnitude(a) == magnitude(b),
        magnitude(a) == 0 <==> a == 0,
{
    if a < b {
        lemma_magnitude_increases(a, b);
    } else if b < a {
        lemma_magnitude_increases(b, a);
    }
    if a > 0 {
        lemma_magnitude_increases(0, a);
    }
}

/// Splits a finite pattern into a count `m` of steps of 2^e units.
pub(crate) fn split(n: u32) -> (parts: (u128, u32))
    requires
        n < INFINITY,
    ensures
        magnitude(n as nat) == parts.0 * pow2(parts.1 as nat),
        parts.0 < 0x100_0000,
        parts.1 <= 253,
        parts.1 > 0 ==> parts.0 >= STEP,
        parts.0 == 0 <==> n == 0,
{
    let e: u32 = n / STEP;
    let f: u32 = n % STEP;
    proof {
        lemma2_to64();
        assert(n * pow2(0) == n) by (nonlinear_arith)
            requires pow2(0) == 1;
        assert(n / STEP == 0 ==> n == f) by {
            assert(n as int == e as int * STEP as int + f as int);
        }
    }
    if e == 0 {
        (n as u128, 0)
    } else {
        ((STEP + f) as u128, e - 1)
    }
}

/// The larger of two patterns has the larger exponent.
proof fn lemma_split_order(x: nat, y: nat, m: nat, e: nat, n: nat, f: nat)
    requires
        y <= x,
        magnitude(x) == m * pow2(e),
        magnitude(y) == n * pow2(f),
        m < 0x100_0000,
        f > 0 ==> n >= STEP,
    ensures
        f <= e,
{
    lemma_magnitude_order(y, x);
    if f > e {
        lemma_pow2_unfold(e + 1);
        if e + 1 < f {
            lemma_pow2_strictly_increases(e + 1, f);
        }
        lemma_pow2_pos(e);
        let p = pow2(e);
        let q = pow2(f);
        assert(n * q > m * p) by (nonlinear_arith)
            requires n >= 0x80_0000, q >= 2 * p, p > 0, m < 0x100_0000;
        lemma_magnitude_order(x, y);
    }
}

pub proof fn lemma_aligned(m: nat, e: nat, f: nat)
    requires
        f <= e,
    ensures
        m * pow2(e) == (m * pow2((e - f) as nat)) * pow2(f),
        pow2(f) > 0,
{
    lemma_pow2_adds((e - f) as nat, f);
    lemma_pow2_pos(f);
    lemma_mul_is_associative(m as int, pow2((e - f) as nat) as int, pow2(f) as int);
}

/// A number more than a hundred places down is less than the last of sixty-four spare places.
proof fn lemma_far(m: nat, e: nat, n: nat, f: nat)
    requires
        e > f + 100,
        n < 0x100_0000,
        m >= STEP,
    ensures
        n * pow2(f) < pow2((e - 64) as nat),
        n > 0 ==> n * pow2(f) > 0,
        n == 0 ==> n * pow2(f) == 0,
        m * pow2(e) == (m * pow2(64)) * pow2((e - 64) as nat),
        (m * pow2(64) + 1) * pow2((e - 64) as nat) == m * pow2(e) + pow2((e - 64) as nat),
        (m * pow2(64) - 1) * pow2((e - 64) as nat) == m * pow2(e) - pow2((e - 64) as nat),
        m * pow2(64) > 0x100_0000,
{
    lemma2_to64();
    lemma_pow2_pos(f);
    lemma_pow2_adds(24, f);
    if 24 + f < e - 64 {
        lemma_pow2_strictly_increases(24 + f, (e - 64) as nat);
    }
    assert(n * pow2(f) <= 0x100_0000 * pow2(f)) by (nonlinear_arith)
        requires n < 0x100_0000;
    assert(n > 0 ==> n * pow2(f) > 0) by (nonlinear_arith)
        requires pow2(f) > 0;
    lemma_aligned(m, e, (e - 64) as nat);
    let a = m * pow2(64);
    let p = pow2((e - 64) as nat);
    assert((a + 1) * p == a * p + p && (a - 1) * p == a * p - p) by (nonlinear_arith);
    assert(a > 0x100_0000) by (nonlinear_arith)
        requires a == m * pow2(64), m >= 1, pow2(64) > 0x100_0000;
}

/// A count of whole or broken steps of 2^f units is `scaled` at f + 256.
proof fn lemma_near(a: nat, f: nat, sticky: bool, num: nat)
    requires
        sticky ==> a * pow2(f) < num < (a + 1) * pow2(f),
        !sticky ==> num == a * pow2(f),
    ensures
        scaled(a, f + 256, sticky, num, 1),
{
    lemma_pow2_adds(f, 256);
    lemma_pow2_pos(256);
    let p = pow2(f);
    let q = pow2(256);
    assert(a * ((p * q) * 1) == (a * p) * q) by (nonlinear_arith);
    assert((a + 1) * ((p * q) * 1) == ((a + 1) * p) * q) by (nonlinear_arith);
    if sticky {
        lemma_mul_strict_inequality((a * p) as int, num as int, q as int);
        lemma_mul_strict_inequality(num as int, ((a + 1) * p) as int, q as int);
    }
}

proof fn lemma_scaled_product(m: nat, e: nat, n: nat, f: nat)
    ensures
        scaled(m * n, e + f + 107, false, (m * pow2(e)) * (n * pow2(f)), pow2(149)),
{
    lemma_pow2_adds(e, f);
    lemma_pow2_adds(e + f, 107);
    lemma_pow2_adds(107, 149);
    let p = pow2(e);
    let q = pow2(f);
    let u = pow2(107);
    let v = pow2(149);
    assert(((m * p) * (n * q)) * (u * v) == (m * n) * (((p * q) * u) * v)) by (nonlinear_arith);
}

proof fn lemma_scaled_quotient(m: nat, e: nat, n: nat, f: nat, q: nat, t: nat)
    requires
        f <= 341,
        0 < n < 0x100_0000,
        m * pow2(64) == q * n + t,
        t < n,
    ensures
        scaled(q, (e + 341 - f) as nat, t > 0, (m * pow2(e)) * pow2(149), n * pow2(f)),
        m > 0 ==> q >= 0x100_0000,
{
    lemma2_to64();
    lemma_pow2_adds((e + 341 - f) as nat, f);
    lemma_pow2_adds(e, 341);
    lemma_pow2_adds(149, 256);
    lemma_pow2_adds(341, 64);
    lemma_pow2_pos(e + 341);
    let p = pow2(e + 341);
    let a = pow2((e + 341 - f) as nat);
    let b = pow2(f);
    let c = pow2(e);
    let d = pow2(64);
    let w = pow2(341);
    let step = a * (n * b);
    let total = ((m * c) * pow2(149)) * pow2(256);
    assert(step == n * p) by (nonlinear_arith)
        requires step == a * (n * b), p == a * b;
    assert(total == (m * d) * p) by (nonlinear_arith)
        requires
            total == ((m * c) * pow2(149)) * pow2(256),
            pow2(149) * pow2(256) == w * d,
            p == c * w,
    {
        assert(total == (m * c) * (pow2(149) * pow2(256)));
        assert((m * c) * (w * d) == (m * d) * (c * w));
    }
    assert(q * (n * p) == (q * n) * p) by (nonlinear_arith);
    assert((q + 1) * (n * p) == (q * n + n) * p) by (nonlinear_arith);
    if t > 0 {
        lemma_mul_strict_inequality((q * n) as int, (q * n + t) as int, p as int);
        lemma_mul_strict_inequality((q * n + t) as int, (q * n + n) as int, p as int);
    }
    if m > 0 {
        assert(q >= 0x100_0000) by (nonlinear_arith)
            requires
                m >= 1,
                m * d == q * n + t,
                t < n,
                n < 0x100_0000,
                d == 0x1_0000_0000_0000_0000,
        {
            assert(m * d >= d);
            assert(q * n + t < (q + 1) * n);
            assert((q + 1) * n <= (q + 1) * 0x100_0000);
        }
    }
}

impl Single {
    pub fn from_bits(bits: u32) -> (s: Single)
        ensures
            s.bits == bits,
    {
        Single { bits }
    }

    pub fn to_bits(self) -> (bits: u32)
        ensures
            bits == self.bits,
    {
        self.bits
    }

    fn with_sign(negative: bool, n: u32) -> (s: Single)
        requires
            n < SIGN,
        ensures
            s == signed(negative, n as nat),
            s.unsigned() == n,
            s.negative() == negative,
    {
        if negative { Single { bits: n + SIGN } } else { Single { bits: n } }
    }

    pub fn is_nan(self) -> (b: bool)
        ensures
            b == self.nan(),
    {
        self.bits % SIGN > INFINITY
    }

    pub fn lt(self, other: Single) -> (b: bool)
        ensures
            b == self.below(other),
    {
        let x: u32 = self.bits % SIGN;
        let y: u32 = other.bits % SIGN;
        proof {
            lemma_magnitude_order(x as nat, y as nat);
            lemma_magnitude_order(y as nat, x as nat);
        }
        if self.is_nan() || other.is_nan() {
            false
        } else if self.bits >= SIGN {
            if other.bits >= SIGN { x > y } else { x > 0 || y > 0 }
        } else {
            if other.bits >= SIGN { false } else { x < y }
        }
    }

    pub fn le(self, other: Single) -> (b: bool)
        ensures
            b == self.at_most(other),
    {
        !self.is_nan() && !other.is_nan() && !other.lt(self)
    }

    pub fn gt(self, other: Single) -> (b: bool)
        ensures
            b == other.below(self),
    {
        other.lt(self)
    }

    pub fn ge(self, other: Single) -> (b: bool)
        ensures
            b == other.at_most(self),
    {
        other.le(self)
    }

    pub fn max(self, other: Single) -> (s: Single)
        ensures
            s == self.larger(other),
    {
        if self.is_nan() || self.lt(other) { other } else { self }
    }

    pub fn min(self, other: Single) -> (s: Single)
        ensures
            s == self.smaller(other),
    {
        if self.is_nan() || other.lt(self) { other } else { self }
    }

    pub fn negate(self) -> (s: Single)
        ensures
            s == self.negated(),
    {
        Single::with_sign(self.bits < SIGN, self.bits % SIGN)
    }

    /// Adds the magnitudes `x` and `y`, the first not smaller than the second.
    fn join(x: u32, y: u32) -> (r: u32)
        requires
            y <= x < INFINITY,
        ensures
            r == nearest(magnitude(x as nat) + magnitude(y as nat), 1),
            r <= INFINITY,
    {
        let (m, e) = split(x);
        let (n, f) = split(y);
        let ghost num = magnitude(x as nat) + magnitude(y as nat);
        proof {
            lemma_split_order(x as nat, y as nat, m as nat, e as nat, n as nat, f as nat);
        }
        let d: u32 = e - f;
        if d <= 100 {
            let a: u128 = shift(m, d);
            proof {
                lemma_aligned(m as nat, e as nat, f as nat);
                lemma_mul_is_distributive_add_other_way(pow2(f as nat) as int, a as int, n as int);
                lemma_near((a + n) as nat, f as nat, false, num);
            }
            settle(a + n, f + 256, false, Ghost(num), Ghost(1))
        } else {
            let a: u128 = shift(m, 64);
            proof {
                lemma_far(m as nat, e as nat, n as nat, f as nat);
                lemma_near((m * pow2(64)) as nat, (e - 64) as nat, n > 0, num);
            }
            settle(a, e - 64 + 256, n > 0, Ghost(num), Ghost(1))
        }
    }

    /// Takes the magnitude `y` from `x`, which is not smaller.
    fn part(x: u32, y: u32) -> (r: u32)
        requires
            y <= x < INFINITY,
        ensures
            r == nearest((magnitude(x as nat) - magnitude(y as nat)) as nat, 1),
            r <= INFINITY,
    {
        let (m, e) = split(x);
        let (n, f) = split(y);
        let ghost num = (magnitude(x as nat) - magnitude(y as nat)) as nat;
        proof {
            lemma_magnitude_order(x as nat, y as nat);
            lemma_magnitude_order(y as nat, x as nat);
            lemma_split_order(x as nat, y as nat, m as nat, e as nat, n as nat, f as nat);
        }
        let d: u32 = e - f;
        if d <= 100 {
            let a: u128 = shift(m, d);
            proof {
                lemma_aligned(m as nat, e as nat, f as nat);
                assert(a >= n) by (nonlinear_arith)
                    requires a * pow2(f as nat) >= n * pow2(f as nat), pow2(f as nat) > 0;
                lemma_mul_is_distributive_sub_other_way(pow2(f as nat) as int, a as int, n as int);
                lemma_near((a - n) as nat, f as nat, false, num);
            }
            settle(a - n, f + 256, false, Ghost(num), Ghost(1))
        } else {
            let a: u128 = shift(m, 64);
            proof {
                lemma_far(m as nat, e as nat, n as nat, f as nat);
            }
            if n > 0 {
                proof {
                    lemma_near((a - 1) as nat, (e - 64) as nat, true, num);
                }
                settle(a - 1, e - 64 + 256, true, Ghost(num), Ghost(1))
            } else {
                proof {
                    lemma_near(a as nat, (e - 64) as nat, false, num);
                }
                settle(a, e - 64 + 256, false, Ghost(num), Ghost(1))
            }
        }
    }

    pub fn plus(self, other: Single) -> (s: Single)
        ensures
            s == self.sum(other),
    {
        let x: u32 = self.bits % SIGN;
        let y: u32 = other.bits % SIGN;
        let sx: bool = self.bits >= SIGN;
        let sy: bool = other.bits >= SIGN;
        if self.is_nan() || other.is_nan() {
            return Single { bits: NOT_A_NUMBER };
        }
        if x == INFINITY {
            if y == INFINITY && sx != sy {
                return Single { bits: NOT_A_NUMBER };
            }
            return self;
        }
        if y == INFINITY {
            return other;
        }
        proof {
            lemma_magnitude_order(x as nat, y as nat);
            lemma_magnitude_order(y as nat, x as nat);
        }
        if sx == sy {
            let r: u32 = if x >= y { Single::join(x, y) } else { Single::join(y, x) };
            Single::with_sign(sx, r)
        } else if x == y {
            let r: u32 = Single::part(x, y);
            Single::with_sign(false, r)
        } else if x > y {
            Single::with_sign(sx, Single::part(x, y))
        } else {
            Single::with_sign(sy, Single::part(y, x))
        }
    }

    pub fn minus(self, other: Single) -> (s: Single)
        ensures
            s == self.difference(other),
    {
        self.plus(other.negate())
    }

    pub fn times(self, other: Single) -> (s: Single)
        ensures
            s == self.product(other),
    {
        let x: u32 = self.bits % SIGN;
        let y: u32 = other.bits % SIGN;
        let negative: bool = (self.bits >= SIGN) != (other.bits >= SIGN);
        if self.is_nan() || other.is_nan() {
            return Single { bits: NOT_A_NUMBER };
        }
        if x == INFINITY || y == INFINITY {
            if x == 0 || y == 0 {
                return Single { bits: NOT_A_NUMBER };
            }
            return Single::with_sign(negative, INFINITY);
        }
        let (m, e) = split(x);
        let (n, f) = split(y);
        assert(m * n < 0x1_0000_0000_0000) by (nonlinear_arith)
            requires m < 0x100_0000, n < 0x100_0000;
        let ghost num = magnitude(x as nat) * magnitude(y as nat);
        proof {
            lemma_scaled_product(m as nat, e as nat, n as nat, f as nat);
            lemma_pow2_pos(149);
        }
        let r: u32 = settle(m * n, e + f + 107, false, Ghost(num), Ghost(pow2(149)));
        Single::with_sign(negative, r)
    }

    pub fn over(self, other: Single) -> (s: Single)
        ensures
            s == self.quotient(other),
    {
        let x: u32 = self.bits % SIGN;
        let y: u32 = other.bits % SIGN;
        let negative: bool = (self.bits >= SIGN) != (other.bits >= SIGN);
        if self.is_nan() || other.is_nan() || (x == INFINITY && y == INFINITY) || (x == 0 && y == 0) {
            return Single { bits: NOT_A_NUMBER };
        }
        if x == INFINITY || y == 0 {
            return Single::with_sign(negative, INFINITY);
        }
        if y == INFINITY {
            return Single::with_sign(negative, 0);
        }
        let (m, e) = split(x);
        let (n, f) = split(y);
        let a: u128 = shift(m, 64);
        let q: u128 = a / n;
        let t: u128 = a % n;
        let ghost num = magnitude(x as nat) * pow2(149);
        let ghost den = magnitude(y as nat);
        proof {
            lemma_magnitude_order(y as nat, 0);
            lemma_fundamental_div_mod(a as int, n as int);
            lemma_mul_is_commutative(n as int, q as int);
            lemma_scaled_quotient(m as nat, e as nat, n as nat, f as nat, q as nat, t as nat);
        }
        let r: u32 = settle(q, e + 341 - f, t > 0, Ghost(num), Ghost(den));
        Single::with_sign(negative, r)
    }

    /// The whole number `n` in the format.
    pub fn from_whole(n: u64) -> (s: Single)
        ensures
            s == Single::whole(n as nat),
    {
        let ghost num = n as nat * pow2(149);
        proof {
            lemma_near(n as nat, 149, false, num);
        }
        let r: u32 = settle(n as u128, 405, false, Ghost(num), Ghost(1));
        Single::with_sign(false, r)
    }

    /// The nearest whole number, halves away from zero, within the range of `u64`.
    pub fn round(self) -> (n: u64)
        ensures
            n == self.rounded(),
    {
        if self.is_nan() || self.bits >= SIGN {
            return 0;
        }
        if self.bits == INFINITY {
            proof {
                lemma_huge(INFINITY as nat);
            }
            return u64::MAX;
        }
        let (m, e) = split(self.bits);
        if e >= 149 {
            if e - 149 > 40 {
                proof {
                    lemma_large(m as nat, e as nat);
                }
                return u64::MAX;
            }
            let n: u128 = shift(m, e - 149);
            proof {
                lemma_whole_multiple(m as nat, e as nat, n as nat);
            }
            return n as u64;
        }
        let t: u32 = 149 - e;
        if t > 60 {
            proof {
                lemma_tiny(m as nat, e as nat);
            }
            return 0;
        }
        let half: u128 = shift(1, t);
        proof {
            lemma_fraction(m as nat, e as nat);
        }
        ((2 * m + half) / (2 * half)) as u64
    }

    /// The smallest whole number that is not below, within the range of `u64`.
    pub fn ceil(self) -> (n: u64)
        ensures
            n == self.ceiling(),
    {
        if self.is_nan() || self.bits >= SIGN {
            return 0;
        }
        if self.bits == INFINITY {
            proof {
                lemma_huge(INFINITY as nat);
            }
            return u64::MAX;
        }
        let (m, e) = split(self.bits);
        if e >= 149 {
            if e - 149 > 40 {
                proof {
                    lemma_large(m as nat, e as nat);
                }
                return u64::MAX;
            }
            let n: u128 = shift(m, e - 149);
            proof {
                lemma_whole_multiple(m as nat, e as nat, n as nat);
            }
            return n as u64;
        }
        let t: u32 = 149 - e;
        if t > 60 {
            proof {
                lemma_tiny(m as nat, e as nat);
            }
            return if m > 0 { 1 } else { 0 };
        }
        let one: u128 = shift(1, t);
        proof {
            lemma_fraction(m as nat, e as nat);
        }
        ((m + one - 1) / one) as u64
    }
}

/// The half-up and the upward quotient of `units` by the units of one.
spec fn half_up(units: int) -> int {
    (2 * units + pow2(149)) / (pow2(150) as int)
}

spec fn upward(units: int) -> int {
    (units + pow2(149) - 1) / (pow2(149) as int)
}

proof fn lemma_quotients_at_least(units: int, n: int)
    requires
        units >= n * pow2(149),
    ensures
        half_up(units) >= n,
        upward(units) >= n,
{
    lemma_pow2_unfold(150);
    lemma_pow2_pos(149);
    let p = pow2(149) as int;
    assert((2 * units + p) / (2 * p) >= n) by (nonlinear_arith)
        requires units >= n * p, p > 0;
    assert((units + p - 1) / p >= n) by (nonlinear_arith)
        requires units >= n * p, p > 0;
}

proof fn lemma_huge(n: nat)
    requires
        n == INFINITY,
    ensures
        half_up(magnitude(n) as int) > u64::MAX,
        upward(magnitude(n) as int) > u64::MAX,
{
    lemma2_to64();
    lemma_pow2_adds(105, 149);
    lemma_pow2_strictly_increases(64, 105);
    assert(magnitude(n) == (STEP as nat + 0) * pow2(254));
    let p = pow2(149) as int;
    let q = pow2(105) as int;
    assert(magnitude(n) >= 0x1_0000_0000_0000_0000 * p) by (nonlinear_arith)
        requires magnitude(n) == 0x80_0000 * (q * p), q > 0x1_0000_0000_0000_0000, p >= 0;
    lemma_quotients_at_least(magnitude(n) as int, 0x1_0000_0000_0000_0000);
}

proof fn lemma_large(m: nat, e: nat)
    requires
        e > 189,
        m >= STEP,
    ensures
        half_up((m * pow2(e)) as int) > u64::MAX,
        upward((m * pow2(e)) as int) > u64::MAX,
{
    lemma2_to64();
    lemma2_to64_rest();
    let d = (e - 149) as nat;
    if d > 41 {
        lemma_pow2_strictly_increases(41, d);
    }
    lemma_pow2_adds(d, 149);
    let p = pow2(149) as int;
    let q = pow2(d) as int;
    assert(m * (q * p) >= 0x1_0000_0000_0000_0000 * p) by (nonlinear_arith)
        requires m >= 0x80_0000, q >= 0x200_0000_0000, p >= 0;
    lemma_quotients_at_least((m * pow2(e)) as int, 0x1_0000_0000_0000_0000);
}

proof fn lemma_whole_multiple(m: nat, e: nat, n: nat)
    requires
        149 <= e <= 189,
        m < 0x100_0000,
        n == m * pow2((e - 149) as nat),
    ensures
        half_up((m * pow2(e)) as int) == n,
        upward((m * pow2(e)) as int) == n,
        n <= u64::MAX,
{
    lemma2_to64();
    lemma2_to64_rest();
    lemma_aligned(m, e, 149);
    lemma_pow2_unfold(150);
    let p = pow2(149) as int;
    assert((2 * (n * p) + p) / (2 * p) == n) by (nonlinear_arith)
        requires p > 0;
    assert((n * p + p - 1) / p == n) by (nonlinear_arith)
        requires p > 0;
    let d = (e - 149) as nat;
    if d < 40 {
        lemma_pow2_strictly_increases(d, 40);
    }
    assert(n <= 0xff_ffff * 0x100_0000_0000) by (nonlinear_arith)
        requires n == m * pow2(d), m < 0x100_0000, pow2(d) <= 0x100_0000_0000;
}

proof fn lemma_tiny(m: nat, e: nat)
    requires
        e + 60 < 149,
        m < 0x100_0000,
    ensures
        half_up((m * pow2(e)) as int) == 0,
        upward((m * pow2(e)) as int) == (if m > 0 { 1int } else { 0 }),
{
    lemma2_to64();
    lemma_pow2_unfold(150);
    lemma_pow2_pos(e);
    lemma_pow2_adds(32, e);
    lemma_pow2_strictly_increases(e + 32, 149);
    let p = pow2(149) as int;
    let u = (m * pow2(e)) as int;
    assert(0 <= 2 * u < p) by (nonlinear_arith)
        requires u == m * pow2(e), m < 0x100_0000, p > 0x1_0000_0000 * pow2(e), pow2(e) > 0;
    assert((2 * u + p) / (2 * p) == 0) by (nonlinear_arith)
        requires 0 <= 2 * u < p;
    assert(m > 0 ==> u > 0) by (nonlinear_arith)
        requires u == m * pow2(e), pow2(e) > 0;
    assert(m == 0 ==> u == 0) by (nonlinear_arith)
        requires u == m * pow2(e);
    if m > 0 {
        assert((u + p - 1) / p == 1) by (nonlinear_arith)
            requires 0 < u < p;
    } else {
        assert((u + p - 1) / p == 0) by (nonlinear_arith)
            requires u == 0, p > 0;
    }
}

proof fn lemma_fraction(m: nat, e: nat)
    requires
        89 <= e < 149,
        m < 0x100_0000,
    ensures
        ({
            let one = pow2((149 - e) as nat) as int;
            &&& one > 0
            &&& half_up((m * pow2(e)) as int) == (2 * m + 1 * one) / (2 * (1 * one))
            &&& upward((m * pow2(e)) as int) == (m + 1 * one - 1) / (1 * one)
            &&& (2 * m + 1 * one) / (2 * (1 * one)) <= u64::MAX
            &&& (m + 1 * one - 1) / (1 * one) <= u64::MAX
        }),
{
    let t = (149 - e) as nat;
    lemma_pow2_pos(t);
    lemma_pow2_pos(e);
    lemma_pow2_adds(t, e);
    lemma_pow2_unfold(150);
    let one = pow2(t) as int;
    let q = pow2(e) as int;
    let a = 2 * m + one;
    assert((2 * (m * q) + one * q) == a * q && 2 * (one * q) == (2 * one) * q) by (nonlinear_arith)
        requires a == 2 * m + one;
    lemma_div_cancel(a, 2 * one, q);
    assert(a / (2 * one) <= a) by (nonlinear_arith)
        requires a >= 0, one > 0;
    let b = m + one - 1;
    lemma_div_cancel_below(m as int, one, q);
    assert(b / one <= b) by (nonlinear_arith)
        requires b >= 0, one > 0;
    lemma2_to64();
    lemma2_to64_rest();
    if t < 60 {
        lemma_pow2_strictly_increases(t, 60);
    }
}

pub proof fn lemma_div_cancel(a: int, b: int, q: int)
    requires
        a >= 0,
        b > 0,
        q > 0,
    ensures
        (a * q) / (b * q) == a / b,
{
    lemma_fundamental_div_mod(a, b);
    let d = a / b;
    let r = a % b;
    assert(a * q == d * (b * q) + r * q) by (nonlinear_arith)
        requires a == b * d + r;
    assert(0 <= r * q < b * q) by (nonlinear_arith)
        requires 0 <= r < b, q > 0;
    lemma_fundamental_div_mod_converse(a * q, b * q, d, r * q);
}

/// Upward quotients cancel a common factor too.
proof fn lemma_div_cancel_below(m: int, b: int, q: int)
    requires
        m >= 0,
        b > 0,
        q > 0,
    ensures
        (m * q + b * q - 1) / (b * q) == (m + b - 1) / b,
{
    let c = m + b - 1;
    lemma_fundamental_div_mod(c, b);
    let d = c / b;
    let r = c % b;
    // m * q + b * q - 1 == (c + 1) * q - 1
    assert(m * q + b * q - 1 == d * (b * q) + (r * q + q - 1)) by (nonlinear_arith)
        requires c == b * d + r, c == m + b - 1;
    assert(0 <= r * q + q - 1 < b * q) by (nonlinear_arith)
        requires 0 <= r < b, q > 0;
    lemma_fundamental_div_mod_converse(m * q + b * q - 1, b * q, d, r * q + q - 1);
}

/// `m * 2^d`.
pub(crate) fn shift(m: u128, d: u32) -> (r: u128)
    requires
        m < 0x100_0000,
        d <= 104,
    ensures
        r == m * pow2(d as nat),
        d <= 100 ==> r < 0x1000_0000_0000_0000_0000_0000_0000_0000,
{
    let mut r: u128 = m;
    let mut i: u32 = 0;
    proof {
        lemma2_to64();
        assert(m * pow2(0) == m) by (nonlinear_arith)
            requires pow2(0) == 1;
        assert(0x100_0000 * pow2(0) == 0x100_0000);
        lemma_pow2_adds(64, 32);
        lemma_pow2_adds(96, 4);
        lemma_pow2_adds(100, 3);
    }
    while i < d
        invariant
            i <= d <= 104,
            m < 0x100_0000,
            r == m * pow2(i as nat),
            r < 0x100_0000 * pow2(i as nat),
            pow2(103) == 0x80_0000_0000_0000_0000_0000_0000int,
        decreases d - i,
    {
        proof {
            lemma_pow2_unfold((i + 1) as nat);
            let p = pow2(i as nat);
            assert(m * (2 * p) == 2 * (m * p)) by (nonlinear_arith);
            if i < 103 {
                lemma_pow2_strictly_increases(i as nat, 103);
            }
        }
        r = r * 2;
        i = i + 1;
    }
    proof {
        if d < 100 {
            lemma_pow2_strictly_increases(d as nat, 100);
        }
    }
    r
}

/// The exponent of the highest power of two that is not above `n`.
proof fn lemma_highest_power(n: nat) -> (e: nat)
    requires
        0 < n < pow2(24),
    ensures
        pow2(e) <= n < pow2(e + 1),
        e <= 23,
    decreases n,
{
    lemma2_to64();
    if n == 1 {
        0
    } else {
        let d = lemma_highest_power(n / 2);
        lemma_pow2_unfold(d + 1);
        lemma_pow2_unfold(d + 2);
        if d + 1 > 23 {
            lemma_pow2_strictly_increases(23, d + 1);
        }
        d + 1
    }
}

/// A pattern stands for its own value.
proof fn lemma_exact(r: nat)
    requires
        r < INFINITY,
    ensures
        nearest(magnitude(r), 1) == r,
{
    lemma_magnitude_step(r);
    if r > 0 {
        lemma_magnitude_step((r - 1) as nat);
    }
    assert(rounds_to(magnitude(r), 1, r));
    lemma_nearest_unique(magnitude(r), 1, r);
}

/// Whole numbers below 2^24 are held exactly, and rounding gives them back.
pub proof fn law_whole_exact(n: nat)
    requires
        n < 0x0100_0000,
    ensures
        !Single::whole(n).nan(),
        !Single::whole(n).negative(),
        !Single::whole(n).infinite(),
        Single::whole(n).units() == n * pow2(149),
        Single::whole(n).rounded() == n,
{
    lemma2_to64();
    let s = STEP as nat;
    let r: nat = if n == 0 {
        0
    } else {
        let e = lemma_highest_power(n);
        let m = n * pow2((23 - e) as nat);
        lemma_pow2_adds(e, (23 - e) as nat);
        lemma_pow2_adds(e + 1, (23 - e) as nat);
        lemma_pow2_pos((23 - e) as nat);
        assert(s <= m < 2 * s) by (nonlinear_arith)
            requires
                m == n * pow2((23 - e) as nat),
                pow2(e) <= n < pow2(e + 1),
                pow2(e) * pow2((23 - e) as nat) == s,
                pow2(e + 1) * pow2((23 - e) as nat) == 2 * s,
                pow2((23 - e) as nat) > 0,
        ;
        let r = ((127 + e) * s + (m - s)) as nat;
        lemma_fundamental_div_mod_converse(r as int, s as int, (127 + e) as int, m - s);
        let k = (126 + e) as nat;
        lemma_pow2_adds((23 - e) as nat, k);
        lemma_mul_is_associative(n as int, pow2((23 - e) as nat) as int, pow2(k) as int);
        assert(magnitude(r) == n * pow2(149));
        r
    };
    assert(magnitude(r) == n * pow2(149)) by {
        if n == 0 {
            assert(0 * pow2(149) == 0);
        }
    }
    lemma_exact(r);
    assert(Single::whole(n) == signed(false, r));
    let one = pow2(149) as int;
    lemma_pow2_pos(149);
    lemma_pow2_unfold(150);
    assert(2 * (n * one) + one == n as int * (2 * one) + one) by (nonlinear_arith);
    lemma_fundamental_div_mod_converse(2 * (n * one) + one, 2 * one, n as int, one);
}

/// Rounding keeps the order.
pub proof fn law_rounded_in_order(x: Single, y: Single)
    requires
        x.at_most(y),
    ensures
        x.rounded() <= y.rounded(),
{
    if !x.negative() {
        if y.negative() {
            lemma_magnitude_order(y.unsigned(), 0);
            lemma_magnitude_order(x.unsigned(), 0);
            assert(magnitude(0) == 0);
            if magnitude(y.unsigned()) == 0 && magnitude(x.unsigned()) == 0 {
                lemma_small_rounds_to_zero(x);
            }
        } else {
            lemma_pow2_pos(150);
            vstd::arithmetic::div_mod::lemma_div_is_ordered(
                2 * x.units() + pow2(149),
                2 * y.units() + pow2(149),
                pow2(150) as int,
            );
        }
    }
}

proof fn lemma_small_rounds_to_zero(x: Single)
    requires
        x.units() == 0,
    ensures
        x.rounded() == 0,
{
    lemma_pow2_pos(149);
    lemma_pow2_unfold(150);
    lemma_fundamental_div_mod_converse(pow2(149) as int, pow2(150) as int, 0, pow2(149) as int);
}

/// The border between the patterns below `r` and those from `r` on is passed.
spec fn passed(num: nat, den: nat, r: nat) -> bool {
    let border = (magnitude((r - 1) as nat) + magnitude(r)) * den;
    2 * num > border || (2 * num == border && r % 2 == 0)
}

proof fn lemma_passed_last(num: nat, den: nat, top: nat) -> (r: nat)
    requires
        top <= INFINITY,
    ensures
        r <= top,
        r > 0 ==> passed(num, den, r),
        r < top ==> !passed(num, den, r + 1),
    decreases top,
{
    if top == 0 || passed(num, den, top) {
        top
    } else {
        lemma_passed_last(num, den, (top - 1) as nat)
    }
}

/// Every fraction has a nearest pattern.
proof fn lemma_nearest_exists(num: nat, den: nat)
    ensures
        rounds_to(num, den, nearest(num, den)),
{
    let r = lemma_passed_last(num, den, INFINITY as nat);
    assert(rounds_to(num, den, r));
}

/// The nearest pattern lies above `n` exactly where the fraction lies beyond the middle between `n` and the next
/// pattern, or on it where `n` is odd.
proof fn lemma_nearest_above(num: nat, den: nat, n: nat)
    requires
        den > 0,
        n < INFINITY,
    ensures
        nearest(num, den) <= INFINITY,
        nearest(num, den) > n <==> {
            let border = (magnitude(n) + magnitude(n + 1)) * den;
            2 * num > border || (2 * num == border && n % 2 == 1)
        },
{
    lemma_nearest_exists(num, den);
    let r = nearest(num, den);
    let middle = magnitude(n) + magnitude(n + 1);
    if r > n + 1 {
        let lower = magnitude((r - 1) as nat) + magnitude(r);
        lemma_magnitude_increases(n, (r - 1) as nat);
        lemma_magnitude_increases(n + 1, r);
        assert(middle * den < lower * den) by (nonlinear_arith)
            requires middle < lower, den > 0;
    }
    if r < n {
        let upper = magnitude(r) + magnitude(r + 1);
        lemma_magnitude_increases(r, n);
        lemma_magnitude_increases(r + 1, n + 1);
        assert(upper * den < middle * den) by (nonlinear_arith)
            requires upper < middle, den > 0;
    }
}

/// The quotient of two whole numbers that are held exactly lies above a positive number exactly where the true
/// quotient lies beyond the middle between that number and the next one, or on it where its pattern is odd.
pub proof fn law_share_above(part: nat, capacity: nat, bits: u32)
    requires
        part < 0x0100_0000,
        0 < capacity < 0x0100_0000,
        bits < INFINITY,
    ensures
        !Single::whole(part).quotient(Single::whole(capacity)).nan(),
        (Single { bits }).below(Single::whole(part).quotient(Single::whole(capacity))) <==> {
            let middle = (magnitude(bits as nat) + magnitude((bits + 1) as nat)) * capacity;
            2 * part * pow2(149) > middle || (2 * part * pow2(149) == middle && bits % 2 == 1)
        },
{
    law_whole_exact(part);
    law_whole_exact(capacity);
    lemma_pow2_pos(149);
    let one = pow2(149);
    let a = Single::whole(part);
    let b = Single::whole(capacity);
    let num = (part * one) * one;
    let den = capacity * one;
    assert(magnitude(0) == 0);
    assert(den > 0) by (nonlinear_arith)
        requires den == capacity * one, capacity > 0, one > 0;
    lemma_nearest_above(num, den, bits as nat);
    let q = a.quotient(b);
    let r = nearest(num, den);
    assert(q == signed(false, r));
    assert(q.unsigned() == r && !q.negative());
    let middle = magnitude(bits as nat) + magnitude((bits + 1) as nat);
    assert(middle * den == (middle * capacity) * one) by (nonlinear_arith)
        requires den == capacity * one;
    assert(2 * num == (2 * part * one) * one) by (nonlinear_arith)
        requires num == (part * one) * one;
    let x = 2 * part * one;
    let y = middle * capacity;
    assert(x * one > y * one <==> x > y) by (nonlinear_arith)
        requires one > 0;
    assert(x * one == y * one <==> x == y) by (nonlinear_arith)
        requires one > 0;
    let n = bits as nat;
    if n < r {
        lemma_magnitude_increases(n, r);
    } else if r < n {
        lemma_magnitude_increases(r, n);
    }
    assert((Single { bits }).units() == magnitude(n));
}

/// Whole numbers that are held exactly add up exactly.
pub proof fn law_whole_sum(a: nat, b: nat)
    requires
        a + b < 0x0100_0000,
    ensures
        Single::whole(a).sum(Single::whole(b)) == Single::whole(a + b),
{
    law_whole_exact(a);
    law_whole_exact(b);
    let one = pow2(149);
    assert(a * one + b * one == (a + b) * one) by (nonlinear_arith);
    assert((a + b) * one >= 0) by (nonlinear_arith);
}

/// An average of bytes, one at least and no more than 65535 of them, lies below or above a byte exactly where the
/// true average does.
pub proof fn law_average_of_bytes(sum: nat, n: nat, l: nat)
    requires
        0 < n <= 0xffff,
        l <= 255,
        sum <= n * 255,
    ensures
        Single::whole(sum).quotient(Single::whole(n)).below(Single::whole(l)) <==> sum < n * l,
        Single::whole(l).below(Single::whole(sum).quotient(Single::whole(n))) <==> sum > n * l,
{
    lemma2_to64();
    law_whole_exact(l);
    law_whole_exact(sum);
    law_whole_exact(n);
    let one = pow2(149);
    let w = Single::whole(l);
    let q = Single::whole(sum).quotient(Single::whole(n));
    let r = w.unsigned();
    assert(w.bits as nat == r);
    assert(magnitude(r) == l * one);
    lemma_pow2_pos(149);
    // The patterns of bytes lie below that of 256, and their neighbours are near.
    let top = (135 * STEP) as nat;
    lemma_pow2_adds(23, 134);
    lemma_pow2_adds(8, 149);
    assert(top / STEP as nat == 135 && top % STEP as nat == 0);
    assert(magnitude(top) == (STEP as nat + 0) * pow2(134));
    assert(magnitude(top) == 256 * one);
    assert(l * one < 256 * one) by (nonlinear_arith)
        requires l <= 255, one > 0;
    if r >= top {
        if r > top {
            lemma_magnitude_increases(top, r);
        }
        assert(false);
    }
    lemma_magnitude_step(r);
    lemma_near_byte(r, n);
    let gap = (magnitude(r + 1) - magnitude(r)) as nat;
    law_share_above(sum, n, w.bits);
    let s2 = 2 * sum * one;
    let at = 2 * (n * l) * one;
    assert((l * one + (l * one + gap)) * n == at + gap * n) by (nonlinear_arith)
        requires at == 2 * (n * l) * one;
    assert(gap * n > 0) by (nonlinear_arith)
        requires gap > 0, n > 0;
    if sum <= n * l {
        assert(s2 <= at) by (nonlinear_arith)
            requires s2 == 2 * sum * one, at == 2 * (n * l) * one, sum <= n * l;
    } else {
        assert(s2 >= at + 2 * one) by (nonlinear_arith)
            requires s2 == 2 * sum * one, at == 2 * (n * l) * one, sum >= n * l + 1;
    }
    // The other side.
    let num = (sum * one) * one;
    let den = n * one;
    assert(den > 0) by (nonlinear_arith)
        requires den == n * one, n > 0, one > 0;
    assert(magnitude(0) == 0);
    lemma_nearest_above(num, den, 0);
    let m = nearest(num, den);
    assert(q == signed(false, m));
    assert(q.unsigned() == m && !q.negative());
    if r == 0 {
        assert(l == 0) by (nonlinear_arith)
            requires l * one == 0, one > 0;
        assert(n * l == 0) by (nonlinear_arith)
            requires l == 0;
    } else {
        let p = (r - 1) as nat;
        lemma_magnitude_step(p);
        lemma_near_byte(p, n);
        let less = (magnitude(r) - magnitude(p)) as nat;
        law_share_above(sum, n, p as u32);
        assert((l * one - less + l * one) * n == at - less * n) by (nonlinear_arith)
            requires at == 2 * (n * l) * one;
        assert(less * n > 0) by (nonlinear_arith)
            requires less > 0, n > 0;
        if m < r {
            lemma_magnitude_increases(m, r);
            if m < p {
                lemma_magnitude_increases(m, p);
            }
        } else {
            if r < m {
                lemma_magnitude_increases(r, m);
            }
            lemma_magnitude_increases(p, m);
        }
        if sum < n * l {
            assert(s2 <= at - 2 * one) by (nonlinear_arith)
                requires s2 == 2 * sum * one, at == 2 * (n * l) * one, sum + 1 <= n * l;
        } else {
            assert(s2 >= at) by (nonlinear_arith)
                requires s2 == 2 * sum * one, at == 2 * (n * l) * one, sum >= n * l;
        }
    }
}

/// The patterns up to that of a byte are so close together that no average of 65535 bytes or fewer comes between.
proof fn lemma_near_byte(r: nat, n: nat)
    requires
        r < 135 * STEP,
        n <= 0xffff,
    ensures
        (magnitude(r + 1) - magnitude(r)) * n < 2 * pow2(149),
{
    lemma2_to64();
    lemma_magnitude_step(r);
    let e: nat = if r / STEP as nat == 0 { 0 } else { (r / STEP as nat - 1) as nat };
    assert(e <= 133);
    if e < 133 {
        lemma_pow2_strictly_increases(e, 133);
    }
    lemma_pow2_adds(16, 133);
    lemma_pow2_pos(133);
    let p = pow2(e);
    let q = pow2(133);
    assert(p * n < 2 * (0x1_0000 * q)) by (nonlinear_arith)
        requires p <= q, n <= 0xffff, q > 0;
}

/// Zero is the pattern without any bits.
pub proof fn law_whole_zero()
    ensures
        Single::whole(0) == (Single { bits: 0 }),
{
    lemma_exact(0);
    assert(magnitude(0) == 0);
    assert(0 * pow2(149) == 0) by (nonlinear_arith);
}

/// Whole numbers that are held exactly are taken from one another exactly.
pub proof fn law_whole_difference(a: nat, b: nat)
    requires
        b <= a < 0x0100_0000,
    ensures
        Single::whole(a).difference(Single::whole(b)) == Single::whole((a - b) as nat),
{
    law_whole_exact(a);
    law_whole_exact(b);
    let one = pow2(149);
    let c = (a - b) as nat;
    let y = Single::whole(b);
    assert(a * one - b * one == c * one) by (nonlinear_arith)
        requires c == a - b;
    assert(c * one >= 0) by (nonlinear_arith);
    let m = y.negated();
    assert(m.unsigned() == y.unsigned());
    assert(m.negative());
}

/// The pattern of one stands for one.
proof fn lemma_one()
    ensures
        magnitude(ONE as nat) == pow2(149),
        magnitude((ONE - 1) as nat) < pow2(149),
        magnitude((ONE + 1) as nat) > pow2(149),
{
    lemma2_to64();
    lemma_pow2_adds(23, 126);
    let n = ONE as nat;
    assert(n / STEP as nat == 127 && n % STEP as nat == 0);
    assert(magnitude(n) == (STEP as nat + 0) * pow2(126));
    lemma_magnitude_step(n);
    lemma_magnitude_step((n - 1) as nat);
}

/// What is left of one after taking a number from zero to one off is a number from zero to one.
pub proof fn law_rest_of_one(x: Single)
    requires
        !x.negative(),
        x.at_most(Single { bits: ONE }),
    ensures
        !(Single { bits: ONE }).difference(x).nan(),
        !(Single { bits: ONE }).difference(x).negative(),
        (Single { bits: ONE }).difference(x).at_most(Single { bits: ONE }),
{
    lemma_one();
    let one = Single { bits: ONE };
    let m = x.negated();
    let n = ONE as nat;
    assert(one.unsigned() == n && !one.negative());
    assert(m.unsigned() == x.unsigned() && m.negative());
    if x.unsigned() >= INFINITY {
        lemma_magnitude_increases(n, x.unsigned());
    }
    let exact = one.units() + m.units();
    assert(exact == pow2(149) - x.units());
    lemma_nearest_above(abs(exact), 1, n);
    let r = nearest(abs(exact), 1);
    assert(one.difference(x) == signed(false, r));
    assert(r <= n);
    if r < n {
        lemma_magnitude_increases(r, n);
    }
}

/// One and a number from zero to one together are a number from one on.
pub proof fn law_one_and_more(x: Single)
    requires
        !x.negative(),
        x.at_most(Single { bits: ONE }),
    ensures
        !(Single { bits: ONE }).sum(x).nan(),
        !(Single { bits: ONE }).sum(x).infinite(),
        !(Single { bits: ONE }).sum(x).negative(),
        (Single { bits: ONE }).at_most((Single { bits: ONE }).sum(x)),
{
    lemma_one();
    let one = Single { bits: ONE };
    let n = ONE as nat;
    assert(one.unsigned() == n && !one.negative());
    if x.unsigned() >= INFINITY {
        lemma_magnitude_increases(n, x.unsigned());
    }
    let exact = one.units() + x.units();
    lemma_nearest_above(abs(exact), 1, (n - 1) as nat);
    let top = (n + STEP) as nat;
    assert(top / STEP as nat == 128 && top % STEP as nat == 0) by {
        assert(top == 128 * STEP);
    }
    lemma2_to64();
    lemma_pow2_adds(23, 127);
    lemma_pow2_unfold(150);
    assert(magnitude(top) == (STEP as nat + 0) * pow2(127));
    assert(magnitude(top) == 2 * pow2(149));
    lemma_magnitude_step(top);
    lemma_nearest_above(abs(exact), 1, top);
    let r = nearest(abs(exact), 1);
    assert(one.sum(x) == signed(false, r));
    assert(n <= r <= top);
    if n < r {
        lemma_magnitude_increases(n, r);
    }
}

/// A whole number times a number from zero to one is no larger than it.
pub proof fn law_product_lowers(l: nat, x: Single)
    requires
        l < 0x0100_0000,
        !x.nan(),
        !x.negative(),
        x.at_most(Single { bits: ONE }),
    ensures
        Single::whole(l).product(x).at_most(Single::whole(l)),
{
    lemma_one();
    law_whole_exact(l);
    lemma_pow2_pos(149);
    let one = pow2(149);
    let w = Single::whole(l);
    let n = w.unsigned();
    if x.unsigned() == INFINITY {
        lemma_magnitude_increases(ONE as nat, x.unsigned());
    }
    assert((Single { bits: ONE }).unsigned() == ONE as nat);
    let m = magnitude(x.unsigned());
    let num = (l * one) * m;
    lemma_nearest_above(num, one, n);
    lemma_magnitude_step(n);
    assert(num <= (l * one) * one) by (nonlinear_arith)
        requires num == (l * one) * m, m <= one, one > 0;
    let up = magnitude(n + 1);
    assert((l * one + up) * one > 2 * ((l * one) * one)) by (nonlinear_arith)
        requires up > l * one, one > 0;
    let r = nearest(num, one);
    assert(w.product(x) == signed(false, r));
    if r < n {
        lemma_magnitude_increases(r, n);
    }
}

/// A whole number times a number from one on is no smaller than it.
pub proof fn law_product_raises(l: nat, x: Single)
    requires
        l < 0x0100_0000,
        !x.nan(),
        !x.infinite(),
        !x.negative(),
        (Single { bits: ONE }).at_most(x),
    ensures
        Single::whole(l).at_most(Single::whole(l).product(x)),
{
    lemma_one();
    law_whole_exact(l);
    lemma_pow2_pos(149);
    let one = pow2(149);
    let w = Single::whole(l);
    let n = w.unsigned();
    assert((Single { bits: ONE }).unsigned() == ONE as nat);
    let m = magnitude(x.unsigned());
    let num = (l * one) * m;
    assert(num >= (l * one) * one) by (nonlinear_arith)
        requires num == (l * one) * m, m >= one, one > 0;
    let r = nearest(num, one);
    lemma_nearest_above(num, one, 0);
    assert(w.product(x) == signed(false, r));
    assert(magnitude(0) == 0);
    if n > 0 {
        let p = (n - 1) as nat;
        lemma_nearest_above(num, one, p);
        lemma_magnitude_step(p);
        let down = magnitude(p);
        assert((down + l * one) * one < 2 * ((l * one) * one)) by (nonlinear_arith)
            requires down < l * one, one > 0;
        if n < r {
            lemma_magnitude_increases(n, r);
        }
    }
}

} // verus!
