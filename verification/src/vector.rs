use vstd::prelude::*;
use vstd::arithmetic::div_mod::{
    lemma_div_is_ordered, lemma_div_pos_is_pos, lemma_fundamental_div_mod,
    lemma_mod_division_less_than_divisor, lemma_div_multiples_vanish,
};
use crate::fixed::{
    Fixed, SCALE, tdiv, spec_mul, spec_div, spec_sqrt, sqrt_floor, in_range, fits_i64,
    lemma_tdiv_abs, lemma_tdiv_abs_mono, lemma_tdiv_in_range, lemma_mul_in_range,
    lemma_sqrt_floor,
};

verus! {

/// The largest component magnitude (in raw fixed-point steps) that the
/// vector operations accept without risking overflow.
pub const VEC_BOUND: i64 = 0x100000000;

/// The largest coordinate magnitude (in raw fixed-point steps) that scene
/// geometry may use; differences of two such coordinates still satisfy
/// `VEC_BOUND`.
pub const COORD_BOUND: i64 = 0x80000000;

/// A three-component vector of fixed-point scalars.
#[derive(Clone, Copy, PartialEq, Eq, Structural, Debug)]
pub struct Vector3D {
    pub x: Fixed,
    pub y: Fixed,
    pub z: Fixed,
}

/// Every component's raw part lies within `[-m, m]`.
pub open spec fn vec_in_range(v: Vector3D, m: int) -> bool {
    in_range(v.x.raw as int, m) && in_range(v.y.raw as int, m) && in_range(v.z.raw as int, m)
}

/// Componentwise sum, over raw parts.
pub open spec fn spec_vadd(a: Vector3D, b: Vector3D) -> Vector3D {
    Vector3D {
        x: Fixed { raw: (a.x.raw + b.x.raw) as i64 },
        y: Fixed { raw: (a.y.raw + b.y.raw) as i64 },
        z: Fixed { raw: (a.z.raw + b.z.raw) as i64 },
    }
}

/// Componentwise difference, over raw parts.
pub open spec fn spec_vsub(a: Vector3D, b: Vector3D) -> Vector3D {
    Vector3D {
        x: Fixed { raw: (a.x.raw - b.x.raw) as i64 },
        y: Fixed { raw: (a.y.raw - b.y.raw) as i64 },
        z: Fixed { raw: (a.z.raw - b.z.raw) as i64 },
    }
}

/// The raw part of the fixed-point dot product.
pub open spec fn spec_dot(a: Vector3D, b: Vector3D) -> int {
    spec_mul(a.x.raw as int, b.x.raw as int) + spec_mul(a.y.raw as int, b.y.raw as int)
        + spec_mul(a.z.raw as int, b.z.raw as int)
}

/// Componentwise scaling by a fixed-point factor.
pub open spec fn spec_vscale(v: Vector3D, s: Fixed) -> Vector3D {
    Vector3D {
        x: Fixed { raw: spec_mul(v.x.raw as int, s.raw as int) as i64 },
        y: Fixed { raw: spec_mul(v.y.raw as int, s.raw as int) as i64 },
        z: Fixed { raw: spec_mul(v.z.raw as int, s.raw as int) as i64 },
    }
}

/// The normalized copy of `v`: each component divided by the fixed-point
/// magnitude `sqrt(dot(v, v))`.
pub open spec fn spec_normal(v: Vector3D) -> Vector3D {
    let m = spec_sqrt(spec_dot(v, v));
    Vector3D {
        x: Fixed { raw: spec_div(v.x.raw as int, m) as i64 },
        y: Fixed { raw: spec_div(v.y.raw as int, m) as i64 },
        z: Fixed { raw: spec_div(v.z.raw as int, m) as i64 },
    }
}

impl Vector3D {
    /// Builds a vector from its three components.
    pub fn new(x: Fixed, y: Fixed, z: Fixed) -> (r: Vector3D)
        ensures
            r == (Vector3D { x, y, z }),
    {
        Vector3D { x, y, z }
    }

    /// Componentwise addition.
    pub fn add(&self, other: &Vector3D) -> (r: Vector3D)
        requires
            fits_i64(self.x.raw + other.x.raw),
            fits_i64(self.y.raw + other.y.raw),
            fits_i64(self.z.raw + other.z.raw),
        ensures
            r == spec_vadd(*self, *other),
    {
        Vector3D {
            x: self.x.add(other.x),
            y: self.y.add(other.y),
            z: self.z.add(other.z),
        }
    }

    /// Componentwise subtraction.
    pub fn sub(&self, other: &Vector3D) -> (r: Vector3D)
        requires
            fits_i64(self.x.raw - other.x.raw),
            fits_i64(self.y.raw - other.y.raw),
            fits_i64(self.z.raw - other.z.raw),
        ensures
            r == spec_vsub(*self, *other),
    {
        Vector3D {
            x: self.x.sub(other.x),
            y: self.y.sub(other.y),
            z: self.z.sub(other.z),
        }
    }

    /// The fixed-point dot product.
    pub fn dot(&self, vec2: &Vector3D) -> (r: Fixed)
        requires
            vec_in_range(*self, VEC_BOUND as int),
            vec_in_range(*vec2, VEC_BOUND as int),
        ensures
            r.raw == spec_dot(*self, *vec2),
    {
        proof {
            lemma_dot_terms_fit(*self, *vec2);
        }
        let px = self.x.mul(vec2.x);
        let py = self.y.mul(vec2.y);
        let pz = self.z.mul(vec2.z);
        px.add(py).add(pz)
    }

    /// Componentwise scaling by a fixed-point factor.
    pub fn scale(&self, scalar: Fixed) -> (r: Vector3D)
        requires
            fits_i64(spec_mul(self.x.raw as int, scalar.raw as int)),
            fits_i64(spec_mul(self.y.raw as int, scalar.raw as int)),
            fits_i64(spec_mul(self.z.raw as int, scalar.raw as int)),
        ensures
            r == spec_vscale(*self, scalar),
    {
        Vector3D {
            x: self.x.mul(scalar),
            y: self.y.mul(scalar),
            z: self.z.mul(scalar),
        }
    }

    /// A normalized copy of this vector. Degenerate inputs — those whose
    /// fixed-point dot product with themselves truncates to zero — are the
    /// caller's responsibility to avoid.
    pub fn normal(&self) -> (r: Vector3D)
        requires
            vec_in_range(*self, VEC_BOUND as int),
            spec_dot(*self, *self) >= 1,
        ensures
            r == spec_normal(*self),
            vec_in_range(r, 2 * SCALE as int),
            spec_dot(r, r) >= 1,
    {
        proof {
            lemma_normal_in_range(*self);
        }
        let d = self.dot(self);
        let m = d.sqrt();
        proof {
            lemma_sqrt_floor(d.raw * (SCALE as int));
            assert(m.raw >= 1) by {
                if m.raw < 1 {
                    assert((m.raw + 1) * (m.raw + 1) <= 1 * 65536int) by (nonlinear_arith)
                        requires
                            0 <= (m.raw as int) && (m.raw as int) < 1;
                }
            }
        }
        Vector3D {
            x: self.x.div(m),
            y: self.y.div(m),
            z: self.z.div(m),
        }
    }

    /// Normalizes this vector in place.
    pub fn normalize(&mut self)
        requires
            vec_in_range(*old(self), VEC_BOUND as int),
            spec_dot(*old(self), *old(self)) >= 1,
        ensures
            *final(self) == spec_normal(*old(self)),
    {
        let n = self.normal();
        *self = n;
    }
}

/// Each term of a dot product of `VEC_BOUND`-bounded vectors fits in an
/// `i64`, as does the running sum.
proof fn lemma_dot_terms_fit(a: Vector3D, b: Vector3D)
    requires
        vec_in_range(a, VEC_BOUND as int),
        vec_in_range(b, VEC_BOUND as int),
    ensures
        in_range(spec_mul(a.x.raw as int, b.x.raw as int), 0x1000000000000),
        in_range(spec_mul(a.y.raw as int, b.y.raw as int), 0x1000000000000),
        in_range(spec_mul(a.z.raw as int, b.z.raw as int), 0x1000000000000),
{
    lemma_mul_term_in_range(a.x.raw as int, b.x.raw as int, 0x100000000, 0x100000000);
    lemma_mul_term_in_range(a.y.raw as int, b.y.raw as int, 0x100000000, 0x100000000);
    lemma_mul_term_in_range(a.z.raw as int, b.z.raw as int, 0x100000000, 0x100000000);
}

/// A dot product of bounded vectors is bounded by three scaled-down
/// products of the bounds.
pub proof fn lemma_dot_in_range(a: Vector3D, b: Vector3D, ma: int, mb: int)
    requires
        0 <= ma,
        0 <= mb,
        vec_in_range(a, ma),
        vec_in_range(b, mb),
    ensures
        in_range(spec_dot(a, b), 3 * tdiv(ma * mb, SCALE as int)),
{
    lemma_mul_term_in_range(a.x.raw as int, b.x.raw as int, ma, mb);
    lemma_mul_term_in_range(a.y.raw as int, b.y.raw as int, ma, mb);
    lemma_mul_term_in_range(a.z.raw as int, b.z.raw as int, ma, mb);
}

/// The scaled-down product of bounded factors is bounded by the scaled-down
/// product of the bounds.
pub proof fn lemma_mul_term_in_range(a: int, b: int, ma: int, mb: int)
    requires
        0 <= ma,
        0 <= mb,
        in_range(a, ma),
        in_range(b, mb),
    ensures
        in_range(spec_mul(a, b), tdiv(ma * mb, SCALE as int)),
{
    lemma_mul_in_range(a, b, ma, mb);
    lemma_tdiv_abs_mono(a * b, ma * mb, SCALE as int);
    lemma_tdiv_abs(ma * mb, SCALE as int);
    lemma_tdiv_abs(a * b, SCALE as int);
}

/// Normalizing a vector that is not degenerate keeps every component within
/// two units, keeps the result non-degenerate, and never overflows.
proof fn lemma_normal_in_range(v: Vector3D)
    requires
        vec_in_range(v, VEC_BOUND as int),
        spec_dot(v, v) >= 1,
    ensures
        ({
            let d = spec_dot(v, v);
            let m = spec_sqrt(d);
            m >= 255
            && in_range(spec_div(v.x.raw as int, m), 2 * SCALE as int)
            && in_range(spec_div(v.y.raw as int, m), 2 * SCALE as int)
            && in_range(spec_div(v.z.raw as int, m), 2 * SCALE as int)
            && spec_dot(spec_normal(v), spec_normal(v)) >= 1
        }),
{
    let d = spec_dot(v, v);
    let s = SCALE as int;
    let m = spec_sqrt(d);
    lemma_sqrt_floor(d * s);
    assert(m * m <= d * s);
    assert(d * s < (m + 1) * (m + 1));
    assert(m >= 255) by (nonlinear_arith)
        requires
            m >= 0,
            d >= 1,
            d * 65536 < (m + 1) * (m + 1);

    lemma_square_terms(v, v);
    let qx = spec_mul(v.x.raw as int, v.x.raw as int);
    let qy = spec_mul(v.y.raw as int, v.y.raw as int);
    let qz = spec_mul(v.z.raw as int, v.z.raw as int);

    lemma_normal_component(v.x.raw as int, qx, d, m);
    lemma_normal_component(v.y.raw as int, qy, d, m);
    lemma_normal_component(v.z.raw as int, qz, d, m);

    // The largest component keeps the normalized vector non-degenerate.
    let n = spec_normal(v);
    assert(spec_div(v.x.raw as int, m) == n.x.raw);
    assert(spec_div(v.y.raw as int, m) == n.y.raw);
    assert(spec_div(v.z.raw as int, m) == n.z.raw);
    if qx >= qy && qx >= qz {
        lemma_normal_largest(v.x.raw as int, qx, d, m);
        lemma_unit_term(n.x.raw as int, n.y.raw as int, n.z.raw as int);
    } else if qy >= qz {
        lemma_normal_largest(v.y.raw as int, qy, d, m);
        lemma_unit_term(n.y.raw as int, n.x.raw as int, n.z.raw as int);
    } else {
        lemma_normal_largest(v.z.raw as int, qz, d, m);
        lemma_unit_term(n.z.raw as int, n.x.raw as int, n.y.raw as int);
    }
}

/// Relates each squared component to its truncated fixed-point square.
proof fn lemma_square_terms(a: Vector3D, b: Vector3D)
    requires
        a == b,
    ensures
        spec_mul(a.x.raw as int, a.x.raw as int) >= 0,
        spec_mul(a.y.raw as int, a.y.raw as int) >= 0,
        spec_mul(a.z.raw as int, a.z.raw as int) >= 0,
        (a.x.raw as int) * (a.x.raw as int) < (spec_mul(a.x.raw as int, a.x.raw as int) + 1) * (
        SCALE as int),
        (a.y.raw as int) * (a.y.raw as int) < (spec_mul(a.y.raw as int, a.y.raw as int) + 1) * (
        SCALE as int),
        (a.z.raw as int) * (a.z.raw as int) < (spec_mul(a.z.raw as int, a.z.raw as int) + 1) * (
        SCALE as int),
        (a.x.raw as int) * (a.x.raw as int) >= spec_mul(a.x.raw as int, a.x.raw as int) * (
        SCALE as int),
        (a.y.raw as int) * (a.y.raw as int) >= spec_mul(a.y.raw as int, a.y.raw as int) * (
        SCALE as int),
        (a.z.raw as int) * (a.z.raw as int) >= spec_mul(a.z.raw as int, a.z.raw as int) * (
        SCALE as int),
{
    lemma_square_term(a.x.raw as int);
    lemma_square_term(a.y.raw as int);
    lemma_square_term(a.z.raw as int);
}

/// A truncated fixed-point square brackets the exact square.
pub proof fn lemma_square_term(x: int)
    ensures
        spec_mul(x, x) >= 0,
        x * x >= spec_mul(x, x) * (SCALE as int),
        x * x < (spec_mul(x, x) + 1) * (SCALE as int),
{
    let s = SCALE as int;
    assert(x * x >= 0) by (nonlinear_arith);
    lemma_tdiv_abs(x * x, s);
    lemma_fundamental_div_mod(x * x, s);
    lemma_mod_division_less_than_divisor(x * x, s);
}

/// Any normalized component of a non-degenerate vector stays within two
/// units.
proof fn lemma_normal_component(x: int, q: int, d: int, m: int)
    requires
        q >= 0,
        q <= d,
        d >= 1,
        x * x < (q + 1) * (SCALE as int),
        m * m <= d * (SCALE as int),
        d * (SCALE as int) < (m + 1) * (m + 1),
        m >= 255,
    ensures
        in_range(spec_div(x, m), 2 * SCALE as int),
{
    let s = SCALE as int;
    assert(x * x <= 4 * (m * m)) by (nonlinear_arith)
        requires
            q >= 0 && q <= d && d >= 1 && m >= 255,
            x * x < (q + 1) * 65536,
            m * m <= d * 65536,
            d * 65536 < (m + 1) * (m + 1);
    assert(-(2 * m) <= x && x <= 2 * m) by (nonlinear_arith)
        requires
            x * x <= 4 * (m * m),
            m >= 0;
    assert(in_range(x * s, (2 * s) * m)) by (nonlinear_arith)
        requires
            -(2 * m) <= x && x <= 2 * m,
            m >= 0,
            s == 65536;
    lemma_tdiv_in_range(x * s, 2 * s, m);
}

/// The largest component of a normalized non-degenerate vector is at least
/// 256 raw steps.
proof fn lemma_normal_largest(x: int, q: int, d: int, m: int)
    requires
        q >= 0,
        3 * q >= d,
        d >= 1,
        x * x >= q * (SCALE as int),
        m * m <= d * (SCALE as int),
        m >= 255,
    ensures
        spec_div(x, m) >= 256 || spec_div(x, m) <= -256,
{
    let s = SCALE as int;
    assert(m * m <= 3 * (x * x)) by (nonlinear_arith)
        requires
            3 * q >= d,
            x * x >= q * 65536,
            m * m <= d * 65536,
            q >= 0;
    assert(2 * abs_of(x) >= m) by (nonlinear_arith)
        requires
            m * m <= 3 * (x * x),
            m >= 0;
    let ax = abs_of(x);
    assert(ax * s >= 256 * m) by (nonlinear_arith)
        requires
            2 * ax >= m,
            m >= 0,
            s == 65536;
    lemma_div_multiples_vanish(256, m);
    lemma_div_is_ordered(256 * m, ax * s, m);
    assert((ax * s) / m >= 256);
    lemma_tdiv_abs(x * s, m);
    if x >= 0 {
        assert(tdiv(x * s, m) == (x * s) / m);
        assert(ax * s == x * s);
    } else {
        assert(ax * s == (-x) * s) by (nonlinear_arith)
            requires
                ax == -x;
        assert(tdiv(x * s, m) == -(((-x) * s) / m)) by {
            assert(x * s < 0) by (nonlinear_arith)
                requires
                    x < 0,
                    s > 0;
            assert(-(x * s) == (-x) * s) by (nonlinear_arith);
        }
    }
}

/// Truncating division toward zero leaves a remainder smaller than the
/// divisor and on the same side of zero as the quotient.
proof fn lemma_tdiv_remainder(a: int, b: int)
    requires
        b > 0,
    ensures
        -(b - 1) <= a - b * tdiv(a, b) <= b - 1,
        (a - b * tdiv(a, b)) * tdiv(a, b) >= 0,
{
    if a >= 0 {
        lemma_fundamental_div_mod(a, b);
        lemma_mod_division_less_than_divisor(a, b);
        lemma_div_pos_is_pos(a, b);
        assert((a - b * tdiv(a, b)) * tdiv(a, b) >= 0) by (nonlinear_arith)
            requires
                a - b * tdiv(a, b) >= 0,
                tdiv(a, b) >= 0;
    } else {
        lemma_fundamental_div_mod(-a, b);
        lemma_mod_division_less_than_divisor(-a, b);
        lemma_div_pos_is_pos(-a, b);
        assert(b * (-((-a) / b)) == -(b * ((-a) / b))) by (nonlinear_arith);
        assert((a - b * tdiv(a, b)) * tdiv(a, b) >= 0) by (nonlinear_arith)
            requires
                a - b * tdiv(a, b) <= 0,
                tdiv(a, b) <= 0;
    }
}

/// Squaring the truncated quotient brackets the squared numerator within
/// one divisor-sized band, as long as the quotient itself is bounded.
proof fn lemma_component_square_bracket(x: int, m: int, nb: int)
    requires
        m > 0,
        nb >= 0,
        in_range(tdiv(x * (SCALE as int), m), nb),
    ensures
        m * m * (tdiv(x * (SCALE as int), m) * tdiv(x * (SCALE as int), m)) <= (x * (SCALE as int))
            * (x * (SCALE as int)),
        (x * (SCALE as int)) * (x * (SCALE as int)) <= m * m * (tdiv(x * (SCALE as int), m) * tdiv(
            x * (SCALE as int),
            m,
        )) + m * m * (2 * nb + 1),
{
    let a = x * (SCALE as int);
    let t = tdiv(a, m);
    lemma_tdiv_remainder(a, m);
    let e = a - m * t;
    assert(a * a == m * m * (t * t) + 2 * m * (t * e) + e * e) by (nonlinear_arith)
        requires
            e == a - m * t;
    assert(2 * m * (t * e) >= 0) by (nonlinear_arith)
        requires
            m > 0,
            t * e >= 0,
    ;
    assert(e * e >= 0) by (nonlinear_arith);
    assert(2 * m * (t * e) + e * e <= m * m * (2 * nb + 1)) by (nonlinear_arith)
        requires
            m > 0,
            nb >= 0,
            -nb <= t <= nb,
            -(m - 1) <= e <= m - 1,
            t * e >= 0;
}

/// Normalizing a vector of at least unit squared magnitude gives a result
/// whose squared magnitude is one, up to a few dozen raw fixed-point
/// steps on either side.
pub proof fn lemma_normal_near_unit(v: Vector3D)
    requires
        vec_in_range(v, VEC_BOUND as int),
        spec_dot(v, v) >= SCALE,
    ensures
        SCALE - 64 <= spec_dot(spec_normal(v), spec_normal(v)) <= SCALE + 64,
{
    let s = SCALE as int;
    let x = v.x.raw as int;
    let y = v.y.raw as int;
    let z = v.z.raw as int;
    let d = spec_dot(v, v);
    let p = d * s;
    let m = spec_sqrt(d);
    lemma_sqrt_floor(p);
    assert(m >= s) by (nonlinear_arith)
        requires
            d * 65536 < (m + 1) * (m + 1),
            d >= 65536,
            m >= 0,
            s == 65536;
    lemma_normal_in_range(v);
    let nx = spec_div(x, m);
    let ny = spec_div(y, m);
    let nz = spec_div(z, m);
    lemma_component_square_bracket(x, m, 2 * s);
    lemma_component_square_bracket(y, m, 2 * s);
    lemma_component_square_bracket(z, m, 2 * s);
    lemma_square_term(x);
    lemma_square_term(y);
    lemma_square_term(z);

    let sx2 = x * x + y * y + z * z;
    assert(s * d <= sx2 <= s * d + 3 * s - 3);

    // Squared components scale by the square of the scale factor.
    assert((x * s) * (x * s) == (s * s) * (x * x)) by (nonlinear_arith)
        requires
            s == 65536;
    assert((y * s) * (y * s) == (s * s) * (y * y)) by (nonlinear_arith)
        requires
            s == 65536;
    assert((z * s) * (z * s) == (s * s) * (z * z)) by (nonlinear_arith)
        requires
            s == 65536;
    assert((s * s) * (x * x) + (s * s) * (y * y) + (s * s) * (z * z) == (s * s) * sx2) by (
    nonlinear_arith)
        requires
            sx2 == x * x + y * y + z * z;

    let n2sum = nx * nx + ny * ny + nz * nz;
    assert(m * m * (nx * nx) + m * m * (ny * ny) + m * m * (nz * nz) == m * m * n2sum) by (
    nonlinear_arith)
        requires
            n2sum == nx * nx + ny * ny + nz * nz;
    assert(m * m * n2sum <= (s * s) * sx2);
    assert((s * s) * sx2 <= m * m * n2sum + 3 * (m * m) * (2 * (2 * s) + 1)) by (nonlinear_arith)
        requires
            (s * s) * sx2 <= m * m * n2sum + m * m * (2 * (2 * s) + 1) + m * m * (2 * (2 * s) + 1)
                + m * m * (2 * (2 * s) + 1);

    // Upper bound: the squared magnitude cannot exceed one unit by more
    // than a few dozen steps.
    assert((s * s) * sx2 <= (s * s) * (s * d) + 3 * (s * s) * s) by (nonlinear_arith)
        requires
            sx2 <= s * d + 3 * s - 3,
            s > 0;
    assert((s * s) * (s * d) == (s * s) * p) by (nonlinear_arith)
        requires
            p == d * s;
    assert((s * s) * p <= (s * s) * ((m + 1) * (m + 1) - 1)) by (nonlinear_arith)
        requires
            p <= (m + 1) * (m + 1) - 1,
            s > 0;
    assert((s * s) * ((m + 1) * (m + 1) - 1) == (s * s) * (m * m) + (s * s) * (2 * m)) by (
    nonlinear_arith);
    assert(m * m * n2sum <= (s * s) * (m * m) + (s * s) * (2 * m) + 3 * (s * s) * s);
    assert((s * s) * (2 * m) + 3 * (s * s) * s + 3 * (m * m) * (2 * (2 * s) + 1) <= (m * m) * (40
        * s)) by (nonlinear_arith)
        requires
            m >= s,
            s == 65536;
    assert(m * m * n2sum <= (m * m) * (s * s + 40 * s)) by (nonlinear_arith)
        requires
            m * m * n2sum <= (s * s) * (m * m) + (s * s) * (2 * m) + 3 * (s * s) * s,
            (s * s) * (2 * m) + 3 * (s * s) * s <= (m * m) * (40 * s);
    assert(n2sum <= s * s + 40 * s) by (nonlinear_arith)
        requires
            m * m * n2sum <= (m * m) * (s * s + 40 * s),
            m >= 1;

    // Lower bound: it cannot fall short of one unit by more than a few
    // dozen steps either.
    assert((s * s) * sx2 >= (s * s) * (s * d)) by (nonlinear_arith)
        requires
            sx2 >= s * d,
            s > 0;
    assert((s * s) * p >= (s * s) * (m * m)) by (nonlinear_arith)
        requires
            p >= m * m,
            s > 0;
    assert(m * m * n2sum + 3 * (m * m) * (2 * (2 * s) + 1) >= (s * s) * (m * m));
    assert(n2sum >= s * s - 3 * (2 * (2 * s) + 1)) by (nonlinear_arith)
        requires
            m * m * n2sum + 3 * (m * m) * (2 * (2 * s) + 1) >= (s * s) * (m * m),
            m >= 1;

    // From the squared components to the truncated fixed-point dot
    // product of the normalized vector.
    let dn = spec_dot(spec_normal(v), spec_normal(v));
    assert(spec_normal(v).x.raw == nx);
    assert(spec_normal(v).y.raw == ny);
    assert(spec_normal(v).z.raw == nz);
    lemma_square_term(nx);
    lemma_square_term(ny);
    lemma_square_term(nz);
    assert(s * dn <= n2sum);
    assert(s * dn >= n2sum - 3 * s + 3);
    assert(dn <= s + 40);
    assert(dn >= s - 16);
}

/// Absolute value, spelled out.
pub open spec fn abs_of(x: int) -> int {
    if x >= 0 {
        x
    } else {
        -x
    }
}

/// A component of at least 256 raw steps keeps the truncated dot product of
/// the vector with itself at least one raw step.
proof fn lemma_unit_term(big: int, o1: int, o2: int)
    requires
        big >= 256 || big <= -256,
    ensures
        spec_mul(big, big) + spec_mul(o1, o1) + spec_mul(o2, o2) >= 1,
{
    let s = SCALE as int;
    lemma_square_term(big);
    lemma_square_term(o1);
    lemma_square_term(o2);
    assert(big * big >= 65536) by (nonlinear_arith)
        requires
            big >= 256 || big <= -256;
    assert(spec_mul(big, big) >= 1) by {
        if spec_mul(big, big) < 1 {
            assert((spec_mul(big, big) + 1) * s <= 65536) by (nonlinear_arith)
                requires
                    spec_mul(big, big) >= 0,
                    spec_mul(big, big) < 1,
                    s == 65536;
        }
    }
}

} // verus!
