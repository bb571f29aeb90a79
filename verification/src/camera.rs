use vstd::prelude::*;
use vstd::arithmetic::div_mod::{
    lemma_div_is_ordered, lemma_div_is_ordered_by_denominator, lemma_div_pos_is_pos,
    lemma_fundamental_div_mod, lemma_fundamental_div_mod_converse_div,
    lemma_fundamental_div_mod_converse_mod, lemma_mod_division_less_than_divisor,
    lemma_multiply_divide_lt,
};
use vstd::arithmetic::mul::{
    lemma_mul_inequality, lemma_mul_is_commutative, lemma_mul_is_distributive_add_other_way,
};
use crate::RenderError;
use crate::fixed::{
    Fixed, SCALE, tdiv, spec_mul, spec_div, in_range, lemma_tdiv_abs, lemma_tdiv_exact,
    lemma_mul_in_range,
};
use crate::vector::{
    Vector3D, vec_in_range, spec_dot, COORD_BOUND, VEC_BOUND, lemma_mul_term_in_range,
    lemma_square_term,
};

verus! {

/// The tangent of half the fixed 60-degree field of view, in raw
/// fixed-point steps: `tan(30 degrees) * SCALE`, rounded down.
pub const ANGLE_RAW: i64 = 37837;

/// Half of one fixed-point unit, the raw part of `0.5`.
pub const HALF_RAW: i64 = 32768;

/// The largest output resolution accepted on either axis.
pub const MAX_RES: usize = 16384;

/// The largest anti-aliasing factor accepted.
pub const MAX_AA: usize = 256;

/// A half-line through space: a starting point and a direction.
#[derive(Clone, Copy, PartialEq, Eq, Structural, Debug)]
pub struct Ray {
    pub direction: Vector3D,
    pub origin: Vector3D,
}

/// What the intersection math assumes of a ray: the direction is roughly
/// unit length (within two units, not degenerate) and the origin lies in
/// the scene coordinate range.
pub open spec fn ray_ok(r: Ray) -> bool {
    vec_in_range(r.direction, 2 * SCALE as int) && spec_dot(r.direction, r.direction) >= 1
        && vec_in_range(r.origin, COORD_BOUND as int)
}

impl Ray {
    /// Builds a ray from a direction and an origin.
    pub fn new(direction: Vector3D, origin: Vector3D) -> (r: Ray)
        ensures
            r == (Ray { direction, origin }),
    {
        Ray { direction, origin }
    }
}

/// The bundle of supersampled rays that shade one output pixel.
pub struct Pixel {
    pub rays: Vec<Ray>,
}

impl Pixel {
    /// An empty bundle with room for `capacity` rays.
    pub fn new(capacity: usize) -> (p: Pixel)
        ensures
            p.rays@ == Seq::<Ray>::empty(),
    {
        Pixel { rays: Vec::with_capacity(capacity) }
    }
}

/// The fixed-point aspect ratio of a `w` by `h` raster.
pub open spec fn spec_aspect(w: int, h: int) -> int {
    spec_div(w * (SCALE as int), h * (SCALE as int))
}

/// The fixed-point value of `(coord + 0.5) / count`, the relative position
/// of supersample `coord` on an axis of `count` supersamples.
pub open spec fn spec_axis_ratio(coord: int, count: int) -> int {
    spec_div((2 * coord + 1) * (HALF_RAW as int), count * (SCALE as int))
}

/// The pinhole-projected, normalized direction of supersample `(i, j)` on
/// the `w * aa` by `h * aa` grid.
pub open spec fn spec_dir_at(w: int, h: int, aa: int, i: int, j: int) -> Vector3D {
    let s = SCALE as int;
    let rx = spec_axis_ratio(i, w * aa);
    let ry = spec_axis_ratio(j, h * aa);
    let ndc_x = spec_mul(spec_mul(2 * rx - s, ANGLE_RAW as int), spec_aspect(w, h));
    let ndc_y = spec_mul(s - 2 * ry, ANGLE_RAW as int);
    crate::vector::spec_normal(
        Vector3D {
            x: Fixed { raw: ndc_x as i64 },
            y: Fixed { raw: ndc_y as i64 },
            z: Fixed { raw: (-s) as i64 },
        },
    )
}

/// The camera ray for supersample `(si, sj)` of pixel `pixel` of a `w` by
/// `h` render with anti-aliasing factor `aa` and focal point `focal`.
pub open spec fn spec_ray(
    focal: Vector3D,
    w: int,
    h: int,
    aa: int,
    pixel: int,
    si: int,
    sj: int,
) -> Ray {
    Ray {
        direction: spec_dir_at(w, h, aa, (pixel % w) * aa + si, (pixel / w) * aa + sj),
        origin: focal,
    }
}

/// The axis ratio of a supersample lies between zero and one.
pub proof fn lemma_axis_ratio_range(coord: int, count: int)
    requires
        0 <= coord < count,
        1 <= count <= 0x400000,
    ensures
        0 <= spec_axis_ratio(coord, count) <= SCALE,
{
    let s = SCALE as int;
    let num = (2 * coord + 1) * (HALF_RAW as int);
    let den = count * s;
    lemma_tdiv_abs(num * s, den);
    lemma_div_pos_is_pos(num * s, den);
    assert(num * s <= den * s) by (nonlinear_arith)
        requires
            0 <= num <= den,
            s > 0;
    lemma_div_is_ordered(num * s, den * s, den);
    lemma_tdiv_exact(s, den);
    lemma_mul_is_commutative(s, den);
}

/// Every camera-generated ray direction is unit length up to fixed-point
/// truncation: its squared fixed-point magnitude lies within 64 raw steps
/// (about one thousandth) of one.
pub proof fn lemma_camera_ray_near_unit(w: int, h: int, aa: int, i: int, j: int)
    requires
        1 <= w <= MAX_RES,
        1 <= h <= MAX_RES,
        1 <= aa <= MAX_AA,
        0 <= i < w * aa,
        0 <= j < h * aa,
    ensures
        SCALE - 64 <= spec_dot(spec_dir_at(w, h, aa, i, j), spec_dir_at(w, h, aa, i, j)) <= SCALE
            + 64,
{
    let s = SCALE as int;
    lemma_mul_in_range(w, aa, 0x4000, 0x100);
    lemma_mul_in_range(h, aa, 0x4000, 0x100);
    lemma_mul_inequality(1, w, aa);
    lemma_mul_inequality(1, h, aa);
    lemma_axis_ratio_range(i, w * aa);
    lemma_axis_ratio_range(j, h * aa);
    lemma_aspect_in_range(w, h);
    let rx = spec_axis_ratio(i, w * aa);
    let ry = spec_axis_ratio(j, h * aa);
    lemma_tdiv_exact(37837, 0x10000);
    lemma_tdiv_exact(37837int * 0x4000, 0x10000);
    lemma_mul_term_in_range(2 * rx - s, ANGLE_RAW as int, 0x10000, 37837);
    let ndc_x1 = spec_mul(2 * rx - s, ANGLE_RAW as int);
    lemma_mul_term_in_range(ndc_x1, spec_aspect(w, h), 37837, 0x40000000);
    lemma_mul_term_in_range(s - 2 * ry, ANGLE_RAW as int, 0x10000, 37837);
    let ndc_x = spec_mul(ndc_x1, spec_aspect(w, h));
    let ndc_y = spec_mul(s - 2 * ry, ANGLE_RAW as int);
    let dir0 = Vector3D {
        x: Fixed { raw: ndc_x as i64 },
        y: Fixed { raw: ndc_y as i64 },
        z: Fixed { raw: (-s) as i64 },
    };
    lemma_tdiv_exact(0x10000, 0x10000);
    lemma_square_term(dir0.x.raw as int);
    lemma_square_term(dir0.y.raw as int);
    assert(spec_mul(dir0.z.raw as int, dir0.z.raw as int) == s);
    assert(spec_dot(dir0, dir0) >= s);
    assert(vec_in_range(dir0, VEC_BOUND as int));
    crate::vector::lemma_normal_near_unit(dir0);
    assert(spec_dir_at(w, h, aa, i, j) == crate::vector::spec_normal(dir0));
}

/// How many pixels each chunk of a `t`-pixel render split `n` ways gets:
/// the ceiling of `t / n`.
pub open spec fn chunk_size(t: int, n: int) -> int
    recommends
        n >= 1,
{
    if t % n == 0 {
        t / n
    } else {
        t / n + 1
    }
}

/// Where chunk `k` of a `t`-pixel render split `n` ways begins: `k` whole
/// chunk sizes in, capped at the end of the raster.
pub open spec fn chunk_start(t: int, n: int, k: int) -> int
    recommends
        n >= 1,
{
    if k * chunk_size(t, n) > t {
        t
    } else {
        k * chunk_size(t, n)
    }
}

/// The chunk that pixel `p` of a `t`-pixel render split `n` ways lands
/// in.
pub open spec fn chunk_of(t: int, n: int, p: int) -> int
    recommends
        n >= 1,
        t >= 1,
{
    p / chunk_size(t, n)
}

/// A positive pixel count gives a positive chunk size, and `n` chunks
/// cover the whole raster.
pub proof fn lemma_chunk_size(t: int, n: int)
    requires
        t >= 0,
        n >= 1,
    ensures
        chunk_size(t, n) >= 0,
        t >= 1 ==> chunk_size(t, n) >= 1,
        n * chunk_size(t, n) >= t,
{
    lemma_fundamental_div_mod(t, n);
    lemma_mod_division_less_than_divisor(t, n);
    lemma_div_pos_is_pos(t, n);
    let q = t / n;
    if t % n == 0 {
        assert(n * q == t);
    } else {
        lemma_mul_is_distributive_add_other_way_int(n, q, 1);
        assert(n * (q + 1) == n * q + n);
    }
}

/// Distributivity restated for the chunk lemmas.
proof fn lemma_mul_is_distributive_add_other_way_int(x: int, y: int, z: int)
    ensures
        x * (y + z) == x * y + x * z,
{
    vstd::arithmetic::mul::lemma_mul_is_distributive_add(x, y, z);
}

/// Chunk starts never decrease as the chunk index grows.
pub proof fn lemma_chunk_start_monotonic(t: int, n: int, k1: int, k2: int)
    requires
        t >= 0,
        n >= 1,
        k1 <= k2,
    ensures
        chunk_start(t, n, k1) <= chunk_start(t, n, k2),
        chunk_start(t, n, k1) <= t,
{
    lemma_chunk_size(t, n);
    lemma_mul_inequality(k1, k2, chunk_size(t, n));
}

/// The chunk partition law: for any pixel count `t >= 0` and chunk count
/// `n >= 1`, the ranges `[chunk_start(k), chunk_start(k + 1))` for
/// `k < n` begin at zero, end at `t`, are contiguous and pairwise
/// disjoint, cover every pixel index exactly once, and are each of length
/// `chunk_size(t, n)` — except possibly in the tail, where a range is
/// capped by the end of the raster (with `t = 1` and `n = 3`, the second
/// and third ranges are empty).
pub proof fn lemma_chunk_partition(t: int, n: int)
    requires
        t >= 0,
        n >= 1,
    ensures
        chunk_start(t, n, 0) == 0,
        chunk_start(t, n, n) == t,
        forall|k1: int, k2: int|
            0 <= k1 <= k2 <= n ==> #[trigger] chunk_start(t, n, k1) <= #[trigger] chunk_start(
                t,
                n,
                k2,
            ),
        forall|k: int|
            0 <= k < n ==> chunk_start(t, n, k + 1) - #[trigger] chunk_start(t, n, k)
                <= chunk_size(t, n),
        forall|k: int|
            0 <= k < n && (k + 1) * chunk_size(t, n) <= t ==> chunk_start(t, n, k + 1)
                - #[trigger] chunk_start(t, n, k) == chunk_size(t, n),
        forall|p: int|
            0 <= p < t ==> 0 <= #[trigger] chunk_of(t, n, p) < n && chunk_start(t, n, chunk_of(t, n, p)) <= p
                < chunk_start(t, n, chunk_of(t, n, p) + 1),
        forall|p: int, k: int|
            #![trigger chunk_start(t, n, k), chunk_of(t, n, p)]
            0 <= p < t && 0 <= k < n && chunk_start(t, n, k) <= p < chunk_start(t, n, k + 1)
                ==> k == chunk_of(t, n, p),
{
    lemma_chunk_size(t, n);
    let size = chunk_size(t, n);
    assert(chunk_start(t, n, 0) == 0) by {
        assert(0 * size == 0) by (nonlinear_arith);
    }
    assert(chunk_start(t, n, n) == t) by {
        lemma_mul_is_commutative(n, size);
    }
    assert forall|k1: int, k2: int| 0 <= k1 <= k2 <= n implies #[trigger] chunk_start(t, n, k1)
        <= #[trigger] chunk_start(t, n, k2) by {
        lemma_chunk_start_monotonic(t, n, k1, k2);
    }
    assert forall|k: int| 0 <= k < n implies chunk_start(t, n, k + 1) - #[trigger] chunk_start(
        t,
        n,
        k,
    ) <= size by {
        lemma_mul_is_distributive_add_other_way(size, k, 1);
        lemma_chunk_start_monotonic(t, n, k, k + 1);
    }
    assert forall|k: int| 0 <= k < n && (k + 1) * size <= t implies chunk_start(t, n, k + 1)
        - #[trigger] chunk_start(t, n, k) == size by {
        lemma_mul_is_distributive_add_other_way(size, k, 1);
        lemma_mul_inequality(k, k + 1, size);
    }
    assert forall|p: int| 0 <= p < t implies 0 <= #[trigger] chunk_of(t, n, p) < n && chunk_start(
        t,
        n,
        chunk_of(t, n, p),
    ) <= p < chunk_start(t, n, chunk_of(t, n, p) + 1) by {
        let k = p / size;
        lemma_div_pos_is_pos(p, size);
        lemma_fundamental_div_mod(p, size);
        lemma_mod_division_less_than_divisor(p, size);
        lemma_mul_is_commutative(n, size);
        lemma_multiply_divide_lt(p, size, n);
        lemma_mul_is_commutative(k, size);
        lemma_mul_is_distributive_add_other_way(size, k, 1);
        assert(chunk_start(t, n, k) <= p < chunk_start(t, n, k + 1));
    }
    assert forall|p: int, k: int|
        0 <= p < t && 0 <= k < n && #[trigger] chunk_start(t, n, k) <= p < chunk_start(
            t,
            n,
            k + 1,
        ) implies k == #[trigger] chunk_of(t, n, p) by {
        lemma_mul_is_distributive_add_other_way(size, k, 1);
        assert(k * size <= p < k * size + size);
        lemma_fundamental_div_mod_converse_div(p, size, k, p - k * size);
        lemma_mul_is_commutative(k, size);
    }
}

/// Camera parameters plus a half-open range `[pixel_start, pixel_end)` of
/// row-major pixel indices that this chunk renders, with a cursor for the
/// next pixel to produce.
#[derive(Clone, Copy)]
pub struct ViewPortChunk {
    pub focal_point: Vector3D,
    pub aspect_ratio: Fixed,
    pub resolution_w: usize,
    pub resolution_h: usize,
    pub aa: usize,
    pub angle: Fixed,
    pub pixel_start: usize,
    pub pixel_end: usize,
    pub curr_pixel: usize,
}

/// A well-formed chunk: resolutions and anti-aliasing within the accepted
/// ranges, the pixel range inside the raster, the cursor inside the range,
/// and the cached aspect ratio and view angle what the resolutions demand.
pub open spec fn vpc_wf(c: ViewPortChunk) -> bool {
    1 <= c.resolution_w <= MAX_RES && 1 <= c.resolution_h <= MAX_RES && 1 <= c.aa <= MAX_AA
        && c.pixel_start <= c.curr_pixel <= c.pixel_end
        && c.pixel_end <= c.resolution_w * c.resolution_h
        && c.aspect_ratio.raw == spec_aspect(c.resolution_w as int, c.resolution_h as int)
        && c.angle.raw == ANGLE_RAW
        && vec_in_range(c.focal_point, COORD_BOUND as int)
}

/// The bundle produced for the chunk's current pixel: one ray per
/// supersample, in row-major supersample order, each a camera ray.
pub open spec fn pixel_rays_ok(p: Pixel, c: ViewPortChunk) -> bool {
    let aa = c.aa as int;
    p.rays@.len() == aa * aa && (forall|k: int|
        0 <= k < aa * aa ==> (#[trigger] p.rays@[k]) == spec_ray(
            c.focal_point,
            c.resolution_w as int,
            c.resolution_h as int,
            aa,
            c.curr_pixel as int,
            k % aa,
            k / aa,
        )) && (forall|k: int| 0 <= k < aa * aa ==> ray_ok(#[trigger] p.rays@[k]))
}

/// The aspect ratio of an accepted resolution is non-negative and small
/// enough for the projection math.
pub proof fn lemma_aspect_in_range(w: int, h: int)
    requires
        1 <= w <= MAX_RES,
        1 <= h <= MAX_RES,
    ensures
        0 <= spec_aspect(w, h) <= 0x40000000,
{
    let s = SCALE as int;
    let num = w * s * s;
    assert(w * s * s == w * 0x100000000);
    lemma_tdiv_abs(num, h * s);
    lemma_div_pos_is_pos(num, h * s);
    lemma_div_is_ordered_by_denominator(num, s, h * s);
    lemma_tdiv_exact(w * s, s);
    assert((w * s) * s == w * s * s);
    assert(tdiv(num, s) == w * s);
}

impl ViewPortChunk {
    /// Builds a chunk for pixels `[pixel_start, pixel_end)` of a `w` by `h`
    /// render, caching the aspect ratio and the view angle.
    pub fn new(
        focal_point: Vector3D,
        resolution_w: usize,
        resolution_h: usize,
        aa: usize,
        pixel_start: usize,
        pixel_end: usize,
    ) -> (c: ViewPortChunk)
        requires
            1 <= resolution_w <= MAX_RES,
            1 <= resolution_h <= MAX_RES,
            1 <= aa <= MAX_AA,
            pixel_start <= pixel_end,
            pixel_end <= resolution_w * resolution_h,
            vec_in_range(focal_point, COORD_BOUND as int),
        ensures
            c.focal_point == focal_point,
            c.resolution_w == resolution_w,
            c.resolution_h == resolution_h,
            c.aa == aa,
            c.pixel_start == pixel_start,
            c.pixel_end == pixel_end,
            c.curr_pixel == pixel_start,
            vpc_wf(c),
    {
        proof {
            lemma_aspect_in_range(resolution_w as int, resolution_h as int);
        }
        let wfx = Fixed::from_int(resolution_w as i32);
        let hfx = Fixed::from_int(resolution_h as i32);
        let aspect_ratio = wfx.div(hfx);
        ViewPortChunk {
            focal_point,
            aspect_ratio,
            resolution_w,
            resolution_h,
            aa,
            angle: Fixed { raw: ANGLE_RAW },
            pixel_start,
            pixel_end,
            curr_pixel: pixel_start,
        }
    }

    /// The camera ray for absolute supersample `(ii, jj)` of this chunk's
    /// render.
    fn sample_ray(&self, ii: usize, jj: usize) -> (r: Ray)
        requires
            vpc_wf(*self),
            ii < self.resolution_w * self.aa,
            jj < self.resolution_h * self.aa,
        ensures
            r.direction == spec_dir_at(
                self.resolution_w as int,
                self.resolution_h as int,
                self.aa as int,
                ii as int,
                jj as int,
            ),
            r.origin == self.focal_point,
            ray_ok(r),
    {
        proof {
            lemma_mul_in_range(self.resolution_w as int, self.aa as int, 0x4000, 0x100);
            lemma_mul_in_range(self.resolution_h as int, self.aa as int, 0x4000, 0x100);
            lemma_aspect_in_range(self.resolution_w as int, self.resolution_h as int);
            lemma_tdiv_exact(37837, 0x10000);
            lemma_tdiv_exact(37837int * 0x4000, 0x10000);
        }
        let waa: usize = self.resolution_w * self.aa;
        let haa: usize = self.resolution_h * self.aa;
        let rx = Self::axis_ratio(ii, waa);
        let ry = Self::axis_ratio(jj, haa);
        proof {
            lemma_mul_term_in_range(2 * rx.raw - SCALE, ANGLE_RAW as int, 0x10000, 37837);
        }
        let x1 = Fixed { raw: 2 * rx.raw - SCALE }.mul(self.angle);
        proof {
            lemma_mul_term_in_range(x1.raw as int, self.aspect_ratio.raw as int, 37837, 0x40000000);
        }
        let x2 = x1.mul(self.aspect_ratio);
        proof {
            lemma_mul_term_in_range(SCALE - 2 * ry.raw, ANGLE_RAW as int, 0x10000, 37837);
        }
        let y1 = Fixed { raw: SCALE - 2 * ry.raw }.mul(self.angle);
        let dir0 = Vector3D { x: x2, y: y1, z: Fixed { raw: -SCALE } };
        proof {
            lemma_square_term(dir0.x.raw as int);
            lemma_square_term(dir0.y.raw as int);
            lemma_tdiv_exact(0x10000, 0x10000);
            assert(spec_mul(dir0.z.raw as int, dir0.z.raw as int) == 0x10000);
        }
        let direction = dir0.normal();
        Ray { direction, origin: self.focal_point }
    }

    /// The fixed-point value of `(coord + 0.5) / count`, between zero and
    /// one.
    fn axis_ratio(coord: usize, count: usize) -> (r: Fixed)
        requires
            coord < count,
            count <= 0x400000,
        ensures
            r.raw == spec_axis_ratio(coord as int, count as int),
            0 <= r.raw <= SCALE,
    {
        let num = Fixed { raw: (2 * (coord as i64) + 1) * HALF_RAW };
        let den: i64 = (count as i64) * SCALE;
        proof {
            let s = SCALE as int;
            let n = num.raw as int;
            lemma_tdiv_abs(n * s, den as int);
            lemma_div_pos_is_pos(n * s, den as int);
            assert(n * s <= (den as int) * s) by (nonlinear_arith)
                requires
                    0 <= n <= den as int,
                    s > 0;
            lemma_div_is_ordered(n * s, (den as int) * s, den as int);
            lemma_tdiv_exact(s, den as int);
            lemma_mul_is_commutative(s, den as int);
        }
        num.div(Fixed { raw: den })
    }

    /// Produces the sample bundle for the current pixel and advances the
    /// cursor, or reports that the chunk's range is exhausted. Bundles are
    /// computed on demand: nothing beyond one pixel's rays is ever held.
    pub fn next(&mut self) -> (r: Option<Pixel>)
        requires
            vpc_wf(*old(self)),
        ensures
            vpc_wf(*final(self)),
            final(self).focal_point == old(self).focal_point,
            final(self).aspect_ratio == old(self).aspect_ratio,
            final(self).resolution_w == old(self).resolution_w,
            final(self).resolution_h == old(self).resolution_h,
            final(self).aa == old(self).aa,
            final(self).angle == old(self).angle,
            final(self).pixel_start == old(self).pixel_start,
            final(self).pixel_end == old(self).pixel_end,
            old(self).curr_pixel >= old(self).pixel_end ==> final(self).curr_pixel == old(
                self,
            ).curr_pixel && (match r {
                Option::None => true,
                Option::Some(_) => false,
            }),
            old(self).curr_pixel < old(self).pixel_end ==> final(self).curr_pixel == old(
                self,
            ).curr_pixel + 1 && (match r {
                Option::Some(p) => pixel_rays_ok(p, *old(self)),
                Option::None => false,
            }),
    {
        if self.curr_pixel >= self.pixel_end {
            return None;
        }
        let aa = self.aa;
        let w = self.resolution_w;
        let h = self.resolution_h;
        proof {
            lemma_mul_in_range(aa as int, aa as int, 0x100, 0x100);
            lemma_multiply_divide_lt(self.curr_pixel as int, w as int, h as int);
            lemma_mod_division_less_than_divisor(self.curr_pixel as int, w as int);
            lemma_div_pos_is_pos(self.curr_pixel as int, w as int);
            lemma_mul_inequality(self.curr_pixel as int / (w as int), h as int - 1, aa as int);
            lemma_mul_inequality(self.curr_pixel as int % (w as int), w as int - 1, aa as int);
            lemma_mul_in_range(self.curr_pixel as int / (w as int), aa as int, 0x4000, 0x100);
            lemma_mul_in_range(self.curr_pixel as int % (w as int), aa as int, 0x4000, 0x100);
            lemma_mul_is_distributive_add_other_way(aa as int, h as int - 1, 1);
            lemma_mul_is_distributive_add_other_way(aa as int, w as int - 1, 1);
        }
        let mut pixel = Pixel::new(aa * aa);
        let j0: usize = (self.curr_pixel / w) * aa;
        let i0: usize = (self.curr_pixel % w) * aa;
        let mut sub_j: usize = 0;
        while sub_j < aa
            invariant
                *self == *old(self),
                vpc_wf(*self),
                aa == self.aa,
                w == self.resolution_w,
                h == self.resolution_h,
                self.curr_pixel < self.pixel_end,
                j0 == (self.curr_pixel as int / (w as int)) * (aa as int),
                i0 == (self.curr_pixel as int % (w as int)) * (aa as int),
                j0 + aa <= h * aa,
                i0 + aa <= w * aa,
                j0 <= 0x400000,
                i0 <= 0x400000,
                0 <= sub_j <= aa,
                pixel.rays@.len() == sub_j * aa,
                forall|k: int|
                    0 <= k < pixel.rays@.len() ==> (#[trigger] pixel.rays@[k]) == spec_ray(
                        self.focal_point,
                        w as int,
                        h as int,
                        aa as int,
                        self.curr_pixel as int,
                        k % (aa as int),
                        k / (aa as int),
                    ),
                forall|k: int| 0 <= k < pixel.rays@.len() ==> ray_ok(#[trigger] pixel.rays@[k]),
            decreases aa - sub_j,
        {
            let mut sub_i: usize = 0;
            proof {
                lemma_mul_inequality(sub_j as int, aa as int - 1, aa as int);
                lemma_mul_is_distributive_add_other_way(aa as int, aa as int - 1, 1);
            }
            while sub_i < aa
                invariant
                    *self == *old(self),
                    vpc_wf(*self),
                    aa == self.aa,
                    w == self.resolution_w,
                    h == self.resolution_h,
                    self.curr_pixel < self.pixel_end,
                    j0 == (self.curr_pixel as int / (w as int)) * (aa as int),
                    i0 == (self.curr_pixel as int % (w as int)) * (aa as int),
                    j0 + aa <= h * aa,
                    i0 + aa <= w * aa,
                    j0 <= 0x400000,
                    i0 <= 0x400000,
                    0 <= sub_j < aa,
                    0 <= sub_i <= aa,
                    (sub_j as int) * (aa as int) + aa <= (aa as int) * (aa as int),
                    pixel.rays@.len() == sub_j * aa + sub_i,
                    forall|k: int|
                        0 <= k < pixel.rays@.len() ==> (#[trigger] pixel.rays@[k]) == spec_ray(
                            self.focal_point,
                            w as int,
                            h as int,
                            aa as int,
                            self.curr_pixel as int,
                            k % (aa as int),
                            k / (aa as int),
                        ),
                    forall|k: int| 0 <= k < pixel.rays@.len() ==> ray_ok(#[trigger] pixel.rays@[k]),
                decreases aa - sub_i,
            {
                let jj = j0 + sub_j;
                let ii = i0 + sub_i;
                let ray = self.sample_ray(ii, jj);
                pixel.rays.push(ray);
                proof {
                    let k = (sub_j as int) * (aa as int) + sub_i as int;
                    lemma_fundamental_div_mod_converse_div(k, aa as int, sub_j as int, sub_i as int);
                    lemma_fundamental_div_mod_converse_mod(k, aa as int, sub_j as int, sub_i as int);
                    assert(pixel.rays@[k] == ray);
                }
                sub_i += 1;
            }
            proof {
                lemma_mul_is_distributive_add_other_way(aa as int, sub_j as int, 1);
                lemma_mul_inequality(sub_j as int + 1, aa as int, aa as int);
            }
            sub_j += 1;
        }
        self.curr_pixel = self.curr_pixel + 1;
        Some(pixel)
    }
}

/// Chunk `k` of a render split `n` ways: the shared camera parameters,
/// the `k`-th slice of the raster, and a cursor at the slice's start.
pub open spec fn chunk_fields_ok(
    c: ViewPortChunk,
    focal: Vector3D,
    w: int,
    h: int,
    aa: int,
    n: int,
    k: int,
) -> bool {
    let t = w * h;
    vpc_wf(c) && c.focal_point == focal && c.resolution_w as int == w && c.resolution_h as int == h
        && c.aa as int == aa && c.pixel_start as int == chunk_start(t, n, k) && c.pixel_end as int
        == chunk_start(t, n, k + 1) && c.curr_pixel == c.pixel_start
}

/// Splits a render into `chunks` contiguous, disjoint pixel ranges that
/// together cover the whole raster, each carrying the camera parameters it
/// needs to produce its rays independently. A zero resolution,
/// anti-aliasing factor, or chunk count is rejected before any division
/// can go wrong.
pub fn generate_view_port_chunks(
    focal_point: Vector3D,
    resolution_w: usize,
    resolution_h: usize,
    aa: usize,
    chunks: usize,
) -> (r: Result<Vec<ViewPortChunk>, RenderError>)
    requires
        resolution_w <= MAX_RES,
        resolution_h <= MAX_RES,
        aa <= MAX_AA,
        vec_in_range(focal_point, COORD_BOUND as int),
    ensures
        (match r {
            Ok(v) => resolution_w >= 1 && resolution_h >= 1 && aa >= 1 && chunks >= 1
                && v@.len() == chunks && (forall|k: int|
                0 <= k < chunks ==> chunk_fields_ok(
                    #[trigger] v@[k],
                    focal_point,
                    resolution_w as int,
                    resolution_h as int,
                    aa as int,
                    chunks as int,
                    k,
                )),
            Err(e) => e == RenderError::InvalidConfiguration && (resolution_w == 0 || resolution_h
                == 0 || aa == 0 || chunks == 0),
        }),
{
    if resolution_w == 0 || resolution_h == 0 || aa == 0 || chunks == 0 {
        return Err(RenderError::InvalidConfiguration);
    }
    proof {
        lemma_mul_in_range(resolution_w as int, resolution_h as int, 0x4000, 0x4000);
        lemma_chunk_size(
            (resolution_w as int) * (resolution_h as int),
            chunks as int,
        );
    }
    let total: usize = resolution_w * resolution_h;
    let rem: usize = total % chunks;
    let size: usize = total / chunks + (if rem == 0 {
        0
    } else {
        1
    });
    proof {
        lemma_div_pos_is_pos(total as int, chunks as int);
        lemma_div_is_ordered(total as int, 0x10000000, chunks as int);
        assert(size as int == chunk_size(total as int, chunks as int));
    }
    let ghost t = total as int;
    let ghost n = chunks as int;
    let mut view_ports: Vec<ViewPortChunk> = Vec::new();
    let mut start: usize = 0;
    let mut i: usize = 0;
    while i < chunks
        invariant
            1 <= resolution_w <= MAX_RES,
            1 <= resolution_h <= MAX_RES,
            1 <= aa <= MAX_AA,
            1 <= chunks,
            vec_in_range(focal_point, COORD_BOUND as int),
            t == (resolution_w as int) * (resolution_h as int),
            total as int == t,
            n == chunks as int,
            size as int == chunk_size(t, n),
            0 <= i <= chunks,
            start as int == chunk_start(t, n, i as int),
            start <= total,
            view_ports@.len() == i,
            forall|k: int|
                0 <= k < i ==> chunk_fields_ok(
                    #[trigger] view_ports@[k],
                    focal_point,
                    resolution_w as int,
                    resolution_h as int,
                    aa as int,
                    n,
                    k,
                ),
        decreases chunks - i,
    {
        let end: usize = if size > total - start {
            total
        } else {
            start + size
        };
        proof {
            lemma_chunk_size(t, n);
            lemma_mul_is_distributive_add_other_way(size as int, i as int, 1);
            lemma_mul_inequality(i as int, i as int + 1, size as int);
            assert(end as int == chunk_start(t, n, i as int + 1));
        }
        let curr_view_port = ViewPortChunk::new(
            focal_point,
            resolution_w,
            resolution_h,
            aa,
            start,
            end,
        );
        view_ports.push(curr_view_port);
        start = end;
        i += 1;
    }
    Ok(view_ports)
}

} // verus!
