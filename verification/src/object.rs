use vstd::prelude::*;
use crate::RenderError;
use crate::camera::{Ray, ray_ok};
use crate::color::Color;
use crate::fixed::{
    Fixed, SCALE, tdiv, spec_mul, spec_div, spec_sqrt, in_range, lemma_tdiv_abs,
    lemma_mul_in_range, lemma_sqrt_floor, lemma_tdiv_exact,
};
use crate::vector::{
    Vector3D, vec_in_range, spec_dot, spec_vsub, spec_normal, COORD_BOUND, VEC_BOUND,
    lemma_dot_in_range, lemma_mul_term_in_range,
};

verus! {

/// The scene capability: anything that can report its surface normal, its
/// surface color, and where a ray first meets it.
pub trait Object {
    /// Whether this object's geometry is well formed.
    spec fn wf(&self) -> bool;

    /// Surface coordinates at which the normal is defined.
    spec fn normal_req(&self, coordinates: Vector3D) -> bool;

    /// The normal at a surface coordinate.
    spec fn normal_spec(&self, coordinates: Vector3D) -> Vector3D;

    /// The color at a surface coordinate.
    spec fn color_spec(&self, coordinates: Vector3D) -> Color;

    /// The distance along a ray at which it meets this object, if it does.
    spec fn collision_spec(&self, ray: Ray) -> Option<Fixed>;

    /// Returns the normal of the object at that coordinate.
    fn get_normal(&self, coordinates: Vector3D) -> (r: Vector3D)
        requires
            self.wf(),
            self.normal_req(coordinates),
        ensures
            r == self.normal_spec(coordinates),
    ;

    /// Returns the color of the object at that coordinate.
    fn get_color(&self, coordinates: Vector3D) -> (r: Color)
        requires
            self.wf(),
        ensures
            r == self.color_spec(coordinates),
    ;

    /// Returns the distance along the ray at which there is a collision
    /// with the object.
    fn get_collision(&self, ray: &Ray) -> (r: Option<Fixed>)
        requires
            self.wf(),
            ray_ok(*ray),
        ensures
            r == self.collision_spec(*ray),
    ;
}

/// A sphere: a center, a positive radius, and a flat surface color.
#[derive(Clone, Copy, PartialEq, Eq, Structural, Debug)]
pub struct Sphere {
    pub center: Vector3D,
    pub radius: Fixed,
    pub color: Color,
}

/// A well-formed sphere: positive radius, geometry within the scene
/// coordinate range.
pub open spec fn sphere_wf(s: Sphere) -> bool {
    0 < s.radius.raw <= COORD_BOUND && vec_in_range(s.center, COORD_BOUND as int)
}

/// The largest raw magnitude a reported collision distance can have.
pub const COLLISION_BOUND: i64 = 0x2c000000000000;

/// Evaluates the truncated-division bounds that the collision math uses.
proof fn lemma_collision_bound_values()
    ensures
        tdiv(0x400000000, 0x10000) == 0x40000,
        tdiv(0x2000000000000, 0x10000) == 0x200000000,
        tdiv(0x10000000000000000, 0x10000) == 0x1000000000000,
        tdiv(0x4000000000000000, 0x10000) == 0x400000000000,
        tdiv(0x900000000000000000, 0x10000) == 0x90000000000000,
        tdiv(0x9c0000000000000000, 0x10000) == 0x9c000000000000,
{
    lemma_tdiv_exact(0x40000, 0x10000);
    lemma_tdiv_exact(0x200000000, 0x10000);
    lemma_tdiv_exact(0x1000000000000, 0x10000);
    lemma_tdiv_exact(0x400000000000, 0x10000);
    lemma_tdiv_exact(0x90000000000000, 0x10000);
    lemma_tdiv_exact(0x9c000000000000, 0x10000);
}

/// Where a ray first meets a sphere, in closed form: the discriminant
/// `b^2 - 4ac` of the ray/sphere quadratic decides whether the line meets
/// the sphere at all, and of the two roots the smaller is returned —
/// even when it is negative and the surface lies behind the ray origin.
pub open spec fn spec_collision(s: Sphere, ray: Ray) -> Option<Fixed> {
    let oc = spec_vsub(ray.origin, s.center);
    let a = spec_dot(ray.direction, ray.direction);
    let b = 2 * spec_dot(ray.direction, oc);
    let c = spec_dot(oc, oc) - spec_mul(s.radius.raw as int, s.radius.raw as int);
    let disc = spec_mul(b, b) - spec_mul(4 * a, c);
    if disc < 0 {
        None
    } else {
        let root = spec_sqrt(disc);
        let t1 = spec_div(-b - root, 2 * a);
        let t2 = spec_div(-b + root, 2 * a);
        if t1 < t2 {
            Some(Fixed { raw: t1 as i64 })
        } else {
            Some(Fixed { raw: t2 as i64 })
        }
    }
}

/// Either no collision, or one whose raw distance lies within `m`.
pub open spec fn collision_in_range(r: Option<Fixed>, m: int) -> bool {
    match r {
        None => true,
        Some(t) => in_range(t.raw as int, m),
    }
}

impl Sphere {
    /// Builds a sphere, rejecting a non-positive radius before any
    /// rendering work can divide by it.
    pub fn new(center: Vector3D, radius: Fixed, color: Color) -> (r: Result<Sphere, RenderError>)
        requires
            vec_in_range(center, COORD_BOUND as int),
            radius.raw <= COORD_BOUND,
        ensures
            radius.raw > 0 ==> r == Ok::<Sphere, RenderError>((Sphere { center, radius, color })),
            radius.raw <= 0 ==> r == Err::<Sphere, RenderError>(RenderError::InvalidConfiguration),
    {
        if radius.raw <= 0 {
            Err(RenderError::InvalidConfiguration)
        } else {
            Ok(Sphere { center, radius, color })
        }
    }
}

impl Object for Sphere {
    open spec fn wf(&self) -> bool {
        sphere_wf(*self)
    }

    open spec fn normal_req(&self, coordinates: Vector3D) -> bool {
        vec_in_range(coordinates, COORD_BOUND as int) && spec_dot(
            spec_vsub(coordinates, self.center),
            spec_vsub(coordinates, self.center),
        ) >= 1
    }

    open spec fn normal_spec(&self, coordinates: Vector3D) -> Vector3D {
        spec_normal(spec_vsub(coordinates, self.center))
    }

    open spec fn color_spec(&self, coordinates: Vector3D) -> Color {
        self.color
    }

    open spec fn collision_spec(&self, ray: Ray) -> Option<Fixed> {
        spec_collision(*self, ray)
    }

    fn get_normal(&self, coordinates: Vector3D) -> (r: Vector3D) {
        coordinates.sub(&self.center).normal()
    }

    fn get_color(&self, coordinates: Vector3D) -> (r: Color) {
        self.color
    }

    fn get_collision(&self, ray: &Ray) -> (r: Option<Fixed>) {
        let oc = ray.origin.sub(&self.center);
        let a = ray.direction.dot(&ray.direction);
        let d1 = ray.direction.dot(&oc);
        let oc2 = oc.dot(&oc);
        proof {
            lemma_collision_bound_values();
            lemma_dot_in_range(ray.direction, ray.direction, 0x20000, 0x20000);
            lemma_dot_in_range(ray.direction, oc, 0x20000, 0x100000000);
            lemma_dot_in_range(oc, oc, 0x100000000, 0x100000000);
            assert(in_range(a.raw as int, 0xc0000));
            assert(in_range(d1.raw as int, 0x600000000));
            assert(in_range(oc2.raw as int, 0x3000000000000));
            lemma_mul_term_in_range(self.radius.raw as int, self.radius.raw as int, 0x80000000, 0x80000000);
        }
        let b: i64 = 2 * d1.raw;
        let r2 = self.radius.mul(self.radius);
        let c: i64 = oc2.raw - r2.raw;
        proof {
            lemma_mul_term_in_range(b as int, b as int, 0xc00000000, 0xc00000000);
            lemma_mul_term_in_range(4 * a.raw as int, c as int, 0x300000, 0x3400000000000);
        }
        let bb = Fixed { raw: b }.mul(Fixed { raw: b });
        let four_a: i64 = 4 * a.raw;
        let fac = Fixed { raw: four_a }.mul(Fixed { raw: c });
        let disc: i64 = bb.raw - fac.raw;
        if disc < 0 {
            return None;
        }
        let root = Fixed { raw: disc }.sqrt();
        proof {
            lemma_sqrt_floor((disc as int) * (SCALE as int));
            assert((root.raw as int) <= 0x2000000000) by (nonlinear_arith)
                requires
                    (root.raw as int) * (root.raw as int) <= (disc as int) * 65536,
                    (disc as int) <= 0x12c000000000000,
                    (root.raw as int) >= 0;
        }
        let neg_b: i64 = -b;
        let num1: i64 = neg_b - root.raw;
        let num2: i64 = neg_b + root.raw;
        let two_a: i64 = 2 * a.raw;
        proof {
            lemma_mul_in_range(num1 as int, SCALE as int, 0x2c00000000, 0x10000);
            lemma_mul_in_range(num2 as int, SCALE as int, 0x2c00000000, 0x10000);
            lemma_tdiv_abs((num1 as int) * (SCALE as int), two_a as int);
            lemma_tdiv_abs((num2 as int) * (SCALE as int), two_a as int);
        }
        let t1 = Fixed { raw: num1 }.div(Fixed { raw: two_a });
        let t2 = Fixed { raw: num2 }.div(Fixed { raw: two_a });
        if t1.raw < t2.raw {
            Some(t1)
        } else {
            Some(t2)
        }
    }
}

/// A reported collision distance always lies within `COLLISION_BOUND`, so
/// the hit point itself can be computed without overflow.
pub proof fn lemma_collision_in_range(s: Sphere, ray: Ray)
    requires
        sphere_wf(s),
        ray_ok(ray),
    ensures
        collision_in_range(spec_collision(s, ray), COLLISION_BOUND as int),
{
    let oc = spec_vsub(ray.origin, s.center);
    let a = spec_dot(ray.direction, ray.direction);
    let b = 2 * spec_dot(ray.direction, oc);
    let c = spec_dot(oc, oc) - spec_mul(s.radius.raw as int, s.radius.raw as int);
    let disc = spec_mul(b, b) - spec_mul(4 * a, c);
    lemma_collision_bound_values();
    lemma_dot_in_range(ray.direction, ray.direction, 0x20000, 0x20000);
    lemma_dot_in_range(ray.direction, oc, 0x20000, 0x100000000);
    lemma_dot_in_range(oc, oc, 0x100000000, 0x100000000);
    lemma_mul_term_in_range(s.radius.raw as int, s.radius.raw as int, 0x80000000, 0x80000000);
    lemma_mul_term_in_range(b, b, 0xc00000000, 0xc00000000);
    lemma_mul_term_in_range(4 * a, c, 0x300000, 0x3400000000000);
    if disc >= 0 {
        let root = spec_sqrt(disc);
        lemma_sqrt_floor(disc * (SCALE as int));
        assert(root <= 0x2000000000) by (nonlinear_arith)
            requires
                root * root <= disc * 65536,
                disc <= 0x12c000000000000,
                root >= 0;
        lemma_mul_in_range(-b - root, SCALE as int, 0x2c00000000, 0x10000);
        lemma_mul_in_range(-b + root, SCALE as int, 0x2c00000000, 0x10000);
        lemma_tdiv_abs((-b - root) * (SCALE as int), 2 * a);
        lemma_tdiv_abs((-b + root) * (SCALE as int), 2 * a);
    }
}

} // verus!
