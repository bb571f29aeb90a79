use vstd::prelude::*;
use vstd::arithmetic::div_mod::{
    lemma_div_is_ordered, lemma_div_pos_is_pos, lemma_fundamental_div_mod,
    lemma_div_nonincreasing, lemma_mod_division_less_than_divisor, lemma_div_multiples_vanish,
};
use vstd::arithmetic::mul::lemma_mul_is_commutative;
use vstd::math::abs;

verus! {

/// Number of fractional steps per unit: a `Fixed` with raw part `raw`
/// stands for the quantity `raw / SCALE`.
pub const SCALE: i64 = 65536;

/// A signed fixed-point scalar with 16 fractional bits.
#[derive(Clone, Copy, PartialEq, Eq, Structural, Debug)]
pub struct Fixed {
    pub raw: i64,
}

/// Truncating (round-toward-zero) division, the rounding rule every
/// fixed-point operation here follows.
pub open spec fn tdiv(a: int, b: int) -> int
    recommends
        b > 0,
{
    if a >= 0 {
        a / b
    } else {
        -((-a) / b)
    }
}

/// The raw part of the product of two fixed-point values.
pub open spec fn spec_mul(a: int, b: int) -> int {
    tdiv(a * b, SCALE as int)
}

/// The raw part of the quotient of two fixed-point values.
pub open spec fn spec_div(a: int, b: int) -> int
    recommends
        b > 0,
{
    tdiv(a * (SCALE as int), b)
}

/// Truncating division shrinks magnitudes: `|a / b| * b <= |a|` and
/// `|a / b| <= |a|`, and it agrees with Euclidean division on
/// non-negative numerators.
pub proof fn lemma_tdiv_abs(a: int, b: int)
    requires
        b > 0,
    ensures
        abs(tdiv(a, b)) * b <= abs(a),
        abs(tdiv(a, b)) <= abs(a),
        a >= 0 ==> tdiv(a, b) == a / b && tdiv(a, b) >= 0,
        a < 0 ==> tdiv(a, b) <= 0,
{
    if a >= 0 {
        lemma_div_pos_is_pos(a, b);
        lemma_fundamental_div_mod(a, b);
        lemma_mod_division_less_than_divisor(a, b);
        lemma_div_nonincreasing(a, b);
        lemma_mul_is_commutative(b, a / b);
        assert((a / b) * b <= a);
    } else {
        lemma_div_pos_is_pos(-a, b);
        lemma_fundamental_div_mod(-a, b);
        lemma_mod_division_less_than_divisor(-a, b);
        lemma_div_nonincreasing(-a, b);
        lemma_mul_is_commutative(b, (-a) / b);
        assert(((-a) / b) * b <= -a);
    }
}

/// Truncating division is monotone in the magnitude of the numerator.
pub proof fn lemma_tdiv_abs_mono(a: int, m: int, b: int)
    requires
        b > 0,
        abs(a) <= m,
    ensures
        abs(tdiv(a, b)) <= m / b,
{
    lemma_tdiv_abs(a, b);
    if a >= 0 {
        lemma_div_is_ordered(a, m, b);
    } else {
        lemma_div_pos_is_pos(-a, b);
        lemma_div_is_ordered(-a, m, b);
    }
}

/// `a` lies within `[-m, m]`.
pub open spec fn in_range(a: int, m: int) -> bool {
    -m <= a <= m
}

/// `a` fits in an `i64`.
pub open spec fn fits_i64(a: int) -> bool {
    i64::MIN <= a <= i64::MAX
}

/// A product of bounded factors is bounded.
pub proof fn lemma_mul_in_range(a: int, b: int, ma: int, mb: int)
    requires
        in_range(a, ma),
        in_range(b, mb),
    ensures
        in_range(a * b, ma * mb),
{
    assert(-(ma * mb) <= a * b && a * b <= ma * mb) by (nonlinear_arith)
        requires
            -ma <= a && a <= ma,
            -mb <= b && b <= mb;
}

/// Truncating division by `b` takes `[-q * b, q * b]` into `[-q, q]`.
pub proof fn lemma_tdiv_in_range(a: int, q: int, b: int)
    requires
        b > 0,
        q >= 0,
        in_range(a, q * b),
    ensures
        in_range(tdiv(a, b), q),
{
    lemma_tdiv_abs_mono(a, q * b, b);
    lemma_div_multiples_vanish(q, b);
    lemma_mul_is_commutative(b, q);
    assert((q * b) / b == q);
    assert(abs(tdiv(a, b)) <= q);
}

/// Truncating division recovers an exact multiple.
pub proof fn lemma_tdiv_exact(q: int, b: int)
    requires
        b > 0,
        q >= 0,
    ensures
        tdiv(q * b, b) == q,
{
    lemma_div_multiples_vanish(q, b);
    lemma_mul_is_commutative(b, q);
    assert(q * b >= 0) by (nonlinear_arith)
        requires
            q >= 0,
            b > 0;
}

/// The integer square root: the largest `r` with `r * r <= n`, computed
/// here by recursion on `n / 4` so the definition is total.
pub open spec fn sqrt_floor(n: int) -> int
    decreases n,
{
    if n < 1 {
        0
    } else {
        let h = 2 * sqrt_floor(n / 4);
        if (h + 1) * (h + 1) <= n {
            h + 1
        } else {
            h
        }
    }
}

/// The raw part of the square root of a non-negative fixed-point value.
pub open spec fn spec_sqrt(a: int) -> int
    recommends
        a >= 0,
{
    sqrt_floor(a * (SCALE as int))
}

/// `sqrt_floor(n)` really is the integer square root of `n`.
pub proof fn lemma_sqrt_floor(n: int)
    requires
        n >= 0,
    ensures
        sqrt_floor(n) >= 0,
        sqrt_floor(n) * sqrt_floor(n) <= n,
        n < (sqrt_floor(n) + 1) * (sqrt_floor(n) + 1),
    decreases n,
{
    if n >= 1 {
        let m = n / 4;
        lemma_div_pos_is_pos(n, 4);
        lemma_fundamental_div_mod(n, 4);
        lemma_mod_division_less_than_divisor(n, 4);
        lemma_sqrt_floor(m);
        let h = 2 * sqrt_floor(m);
        assert(h * h <= 4 * m) by (nonlinear_arith)
            requires
                h == 2 * sqrt_floor(m),
                sqrt_floor(m) * sqrt_floor(m) <= m;
        assert((h + 2) * (h + 2) > 4 * m + 3) by (nonlinear_arith)
            requires
                h == 2 * sqrt_floor(m),
                h >= 0,
                m < (sqrt_floor(m) + 1) * (sqrt_floor(m) + 1);
        assert(4 * m <= n <= 4 * m + 3);
    }
}

/// Any `r` bracketed by `r * r <= n < (r + 1) * (r + 1)` is `sqrt_floor(n)`.
pub proof fn lemma_sqrt_unique(n: int, r: int)
    requires
        n >= 0,
        r >= 0,
        r * r <= n,
        n < (r + 1) * (r + 1),
    ensures
        r == sqrt_floor(n),
{
    lemma_sqrt_floor(n);
    let s = sqrt_floor(n);
    if r < s {
        assert((r + 1) * (r + 1) <= s * s) by (nonlinear_arith)
            requires
                0 <= r < s;
    }
    if s < r {
        assert((s + 1) * (s + 1) <= r * r) by (nonlinear_arith)
            requires
                0 <= s < r;
    }
}

/// The integer square root of a `u128`, by binary search.
fn isqrt_u128(n: u128) -> (r: u128)
    requires
        n < 0x40000000000000000000000000000000u128,
    ensures
        r * r <= n,
        n < (r + 1) * (r + 1),
{
    let mut lo: u128 = 0;
    let mut hi: u128 = 0x8000000000000000;
    proof {
        assert((0x8000000000000000int) * (0x8000000000000000int)
            == 0x40000000000000000000000000000000int) by (nonlinear_arith);
    }
    while lo + 1 < hi
        invariant
            lo < hi <= 0x8000000000000000u128,
            (lo as int) * (lo as int) <= n as int,
            (n as int) < (hi as int) * (hi as int),
        decreases hi - lo,
    {
        let mid = lo + (hi - lo) / 2;
        proof {
            assert((mid as int) * (mid as int) < u128::MAX as int) by (nonlinear_arith)
                requires
                    0 <= (mid as int) && (mid as int) < 0x8000000000000000int;
        }
        if mid * mid <= n {
            lo = mid;
        } else {
            hi = mid;
        }
    }
    lo
}

/// Truncating division of an `i128` by a positive divisor.
fn div_i128(p: i128, d: i128) -> (q: i128)
    requires
        d > 0,
        p > i128::MIN,
    ensures
        q == tdiv(p as int, d as int),
{
    if p >= 0 {
        let qq: u128 = (p as u128) / (d as u128);
        proof {
            lemma_div_pos_is_pos(p as int, d as int);
            lemma_div_nonincreasing(p as int, d as int);
        }
        qq as i128
    } else {
        let m: u128 = (-p) as u128;
        let qq: u128 = m / (d as u128);
        proof {
            lemma_div_pos_is_pos(m as int, d as int);
            lemma_div_nonincreasing(m as int, d as int);
        }
        -(qq as i128)
    }
}

impl Fixed {
    /// The fixed-point value of a small integer, exactly.
    pub fn from_int(v: i32) -> (r: Fixed)
        ensures
            r.raw == v * SCALE,
    {
        Fixed { raw: (v as i64) * SCALE }
    }

    /// Exact fixed-point addition.
    pub fn add(self, o: Fixed) -> (r: Fixed)
        requires
            i64::MIN <= self.raw + o.raw <= i64::MAX,
        ensures
            r.raw == self.raw + o.raw,
    {
        Fixed { raw: self.raw + o.raw }
    }

    /// Exact fixed-point subtraction.
    pub fn sub(self, o: Fixed) -> (r: Fixed)
        requires
            i64::MIN <= self.raw - o.raw <= i64::MAX,
        ensures
            r.raw == self.raw - o.raw,
    {
        Fixed { raw: self.raw - o.raw }
    }

    /// Exact negation.
    pub fn neg(self) -> (r: Fixed)
        requires
            self.raw > i64::MIN,
        ensures
            r.raw == -self.raw,
    {
        Fixed { raw: -self.raw }
    }

    /// Fixed-point multiplication: the product of the raw parts, scaled
    /// back down with truncation toward zero.
    pub fn mul(self, o: Fixed) -> (r: Fixed)
        requires
            i64::MIN <= spec_mul(self.raw as int, o.raw as int) <= i64::MAX,
        ensures
            r.raw == spec_mul(self.raw as int, o.raw as int),
    {
        let p: i128 = (self.raw as i128) * (o.raw as i128);
        let q: i128 = div_i128(p, SCALE as i128);
        Fixed { raw: q as i64 }
    }

    /// Fixed-point square root of a non-negative value: the raw part is
    /// scaled up, then rounded down to its integer square root.
    pub fn sqrt(self) -> (r: Fixed)
        requires
            self.raw >= 0,
        ensures
            r.raw == spec_sqrt(self.raw as int),
            r.raw >= 0,
    {
        let n: u128 = (self.raw as u128) * (SCALE as u128);
        proof {
            assert((n as int) < 0x40000000000000000000000000000000int) by (nonlinear_arith)
                requires
                    (n as int) == (self.raw as int) * 65536,
                    0 <= (self.raw as int) && (self.raw as int) <= 0x8000000000000000int;
        }
        let s = isqrt_u128(n);
        proof {
            lemma_sqrt_unique(n as int, s as int);
            assert((s as int) < 0x10000000000int) by (nonlinear_arith)
                requires
                    (s as int) * (s as int) <= (n as int),
                    (n as int) < 0x100000000000000000000int,
                    (s as int) >= 0;
        }
        Fixed { raw: s as i64 }
    }

    /// Fixed-point division by a positive divisor: the raw numerator is
    /// scaled up, then divided with truncation toward zero.
    pub fn div(self, o: Fixed) -> (r: Fixed)
        requires
            o.raw > 0,
            i64::MIN <= spec_div(self.raw as int, o.raw as int) <= i64::MAX,
        ensures
            r.raw == spec_div(self.raw as int, o.raw as int),
    {
        let p: i128 = (self.raw as i128) * (SCALE as i128);
        let q: i128 = div_i128(p, o.raw as i128);
        Fixed { raw: q as i64 }
    }
}

} // verus!
