use vstd::prelude::*;
use vstd::pervasive::unreached;
use vstd::arithmetic::div_mod::{
    lemma_div_is_ordered, lemma_div_pos_is_pos, lemma_div_multiples_vanish,
    lemma_mod_division_less_than_divisor, lemma_multiply_divide_lt,
};
use vstd::arithmetic::mul::{lemma_mul_inequality, lemma_mul_is_distributive_add_other_way};
use crate::RenderError;
use crate::camera::{
    ViewPortChunk, Pixel, Ray, ray_ok, spec_ray, vpc_wf, pixel_rays_ok, chunk_fields_ok,
    chunk_start, generate_view_port_chunks, MAX_AA, MAX_RES,
};
use crate::color::{Color, background};
use crate::fixed::{Fixed, lemma_tdiv_exact};
use crate::object::{
    Object, Sphere, spec_collision, sphere_wf, lemma_collision_in_range, COLLISION_BOUND,
};
use crate::vector::{Vector3D, vec_in_range, COORD_BOUND, lemma_mul_term_in_range};

verus! {

/// Every object in the scene is well formed.
pub open spec fn scene_ok(objects: Seq<Sphere>) -> bool {
    forall|i: int| 0 <= i < objects.len() ==> sphere_wf(#[trigger] objects[i])
}

/// The nearest hit a ray makes across a scene scanned in order: the
/// distance and the color at the hit point, where a later object wins
/// only with a strictly smaller distance.
pub open spec fn spec_nearest(objects: Seq<Sphere>, ray: Ray) -> Option<(Fixed, Color)>
    decreases objects.len(),
{
    if objects.len() == 0 {
        Option::None
    } else {
        let prev = spec_nearest(objects.drop_last(), ray);
        let s = objects.last();
        match spec_collision(s, ray) {
            Option::None => prev,
            Option::Some(t) => match prev {
                Option::None => Option::Some((t, s.color)),
                Option::Some(best) => if t.raw < best.0.raw {
                    Option::Some((t, s.color))
                } else {
                    Option::Some(best)
                },
            },
        }
    }
}

/// What one sample resolves to: the color of the globally nearest hit, or
/// the background where the ray meets nothing.
pub open spec fn spec_sample_color(objects: Seq<Sphere>, ray: Ray) -> Color {
    match spec_nearest(objects, ray) {
        Option::None => background(),
        Option::Some(hit) => hit.1,
    }
}

/// Channelwise sums of the first `k` sample colors of one pixel, samples
/// taken in row-major supersample order.
pub open spec fn spec_sample_sum(
    objects: Seq<Sphere>,
    focal: Vector3D,
    w: int,
    h: int,
    aa: int,
    pixel: int,
    k: int,
) -> (int, int, int)
    decreases k,
{
    if k <= 0 {
        (0, 0, 0)
    } else {
        let prev = spec_sample_sum(objects, focal, w, h, aa, pixel, k - 1);
        let c = spec_sample_color(
            objects,
            spec_ray(focal, w, h, aa, pixel, (k - 1) % aa, (k - 1) / aa),
        );
        (prev.0 + c.r, prev.1 + c.g, prev.2 + c.b)
    }
}

/// The color of one output pixel: its `aa * aa` sample colors summed and
/// averaged channelwise, the sum truncated by the integer division.
pub open spec fn spec_pixel_color(
    objects: Seq<Sphere>,
    focal: Vector3D,
    w: int,
    h: int,
    aa: int,
    pixel: int,
) -> Color {
    let n = aa * aa;
    let sums = spec_sample_sum(objects, focal, w, h, aa, pixel, n);
    Color { r: (sums.0 / n) as u8, g: (sums.1 / n) as u8, b: (sums.2 / n) as u8 }
}

/// The three bytes of one pixel, in R, G, B order.
pub open spec fn pixel_bytes(c: Color) -> Seq<u8> {
    seq![c.r, c.g, c.b]
}

/// The packed bytes of pixels `[start, end)`, three per pixel, in
/// row-major pixel order.
pub open spec fn spec_chunk_bytes(
    objects: Seq<Sphere>,
    focal: Vector3D,
    w: int,
    h: int,
    aa: int,
    start: int,
    end: int,
) -> Seq<u8>
    decreases end - start,
{
    if end <= start {
        Seq::empty()
    } else {
        spec_chunk_bytes(objects, focal, w, h, aa, start, end - 1) + pixel_bytes(
            spec_pixel_color(objects, focal, w, h, aa, end - 1),
        )
    }
}

/// The whole raster, row-major, three bytes per pixel. The chunk count
/// appears nowhere here: however a render is split, this is its output.
pub open spec fn spec_image(
    objects: Seq<Sphere>,
    focal: Vector3D,
    w: int,
    h: int,
    aa: int,
) -> Seq<u8> {
    spec_chunk_bytes(objects, focal, w, h, aa, 0, w * h)
}

/// A chunk's bytes are three per pixel.
pub proof fn lemma_chunk_bytes_len(
    objects: Seq<Sphere>,
    focal: Vector3D,
    w: int,
    h: int,
    aa: int,
    start: int,
    end: int,
)
    requires
        start <= end,
    ensures
        spec_chunk_bytes(objects, focal, w, h, aa, start, end).len() == 3 * (end - start),
    decreases end - start,
{
    if start < end {
        lemma_chunk_bytes_len(objects, focal, w, h, aa, start, end - 1);
    }
}

/// Adjacent pixel ranges concatenate to the combined range.
pub proof fn lemma_chunk_bytes_concat(
    objects: Seq<Sphere>,
    focal: Vector3D,
    w: int,
    h: int,
    aa: int,
    a: int,
    b: int,
    c: int,
)
    requires
        a <= b <= c,
    ensures
        spec_chunk_bytes(objects, focal, w, h, aa, a, c) == spec_chunk_bytes(
            objects,
            focal,
            w,
            h,
            aa,
            a,
            b,
        ) + spec_chunk_bytes(objects, focal, w, h, aa, b, c),
    decreases c - b,
{
    if c == b {
        assert(spec_chunk_bytes(objects, focal, w, h, aa, a, c) =~= spec_chunk_bytes(
            objects,
            focal,
            w,
            h,
            aa,
            a,
            b,
        ) + spec_chunk_bytes(objects, focal, w, h, aa, b, c));
    } else {
        lemma_chunk_bytes_concat(objects, focal, w, h, aa, a, b, c - 1);
        assert(spec_chunk_bytes(objects, focal, w, h, aa, a, c) =~= spec_chunk_bytes(
            objects,
            focal,
            w,
            h,
            aa,
            a,
            b,
        ) + spec_chunk_bytes(objects, focal, w, h, aa, b, c));
    }
}

/// Resolves one sample: every object is tested and the globally nearest
/// hit — not the last one tested — supplies the color; a ray that meets
/// nothing resolves to the background.
fn sample_color(ray: &Ray, objects: &Vec<Sphere>) -> (c: Color)
    requires
        ray_ok(*ray),
        scene_ok(objects@),
    ensures
        c == spec_sample_color(objects@, *ray),
{
    let mut best: Option<(Fixed, Color)> = None;
    let mut j: usize = 0;
    while j < objects.len()
        invariant
            ray_ok(*ray),
            scene_ok(objects@),
            0 <= j <= objects@.len(),
            best == spec_nearest(objects@.take(j as int), *ray),
        decreases objects@.len() - j,
    {
        let obj = &objects[j];
        let hit = obj.get_collision(ray);
        match hit {
            None => {},
            Some(t) => {
                proof {
                    lemma_collision_in_range(objects@[j as int], *ray);
                    lemma_tdiv_exact(0x58000000000000, 0x10000);
                    lemma_mul_term_in_range(
                        ray.direction.x.raw as int,
                        t.raw as int,
                        0x20000,
                        0x2c000000000000,
                    );
                    lemma_mul_term_in_range(
                        ray.direction.y.raw as int,
                        t.raw as int,
                        0x20000,
                        0x2c000000000000,
                    );
                    lemma_mul_term_in_range(
                        ray.direction.z.raw as int,
                        t.raw as int,
                        0x20000,
                        0x2c000000000000,
                    );
                }
                let point = ray.origin.add(&ray.direction.scale(t));
                let hit_color = obj.get_color(point);
                match best {
                    None => {
                        best = Some((t, hit_color));
                    },
                    Some(b) => {
                        if t.raw < b.0.raw {
                            best = Some((t, hit_color));
                        }
                    },
                }
            },
        }
        proof {
            assert(objects@.take(j as int + 1).drop_last() =~= objects@.take(j as int));
            assert(objects@.take(j as int + 1).last() == objects@[j as int]);
        }
        j += 1;
    }
    proof {
        assert(objects@.take(objects@.len() as int) =~= objects@);
    }
    match best {
        None => Color::background(),
        Some(hit) => hit.1,
    }
}

/// Averages the sample colors of one pixel's ray bundle.
fn shade_pixel(
    p: &Pixel,
    objects: &Vec<Sphere>,
    w: usize,
    h: usize,
    aa: usize,
    Ghost(focal): Ghost<Vector3D>,
    Ghost(pix): Ghost<int>,
) -> (c: Color)
    requires
        scene_ok(objects@),
        1 <= aa <= MAX_AA,
        p.rays@.len() == (aa as int) * (aa as int),
        forall|k: int|
            0 <= k < p.rays@.len() ==> (#[trigger] p.rays@[k]) == spec_ray(
                focal,
                w as int,
                h as int,
                aa as int,
                pix,
                k % (aa as int),
                k / (aa as int),
            ),
        forall|k: int| 0 <= k < p.rays@.len() ==> ray_ok(#[trigger] p.rays@[k]),
    ensures
        c == spec_pixel_color(objects@, focal, w as int, h as int, aa as int, pix),
{
    proof {
        crate::fixed::lemma_mul_in_range(aa as int, aa as int, 0x100, 0x100);
        lemma_mul_inequality(1, aa as int, aa as int);
    }
    let n2: usize = aa * aa;
    let mut sr: u32 = 0;
    let mut sg: u32 = 0;
    let mut sb: u32 = 0;
    let mut k: usize = 0;
    while k < n2
        invariant
            scene_ok(objects@),
            1 <= aa <= MAX_AA,
            n2 == (aa as int) * (aa as int),
            n2 <= 0x10000,
            p.rays@.len() == n2,
            forall|i: int|
                0 <= i < p.rays@.len() ==> (#[trigger] p.rays@[i]) == spec_ray(
                    focal,
                    w as int,
                    h as int,
                    aa as int,
                    pix,
                    i % (aa as int),
                    i / (aa as int),
                ),
            forall|i: int| 0 <= i < p.rays@.len() ==> ray_ok(#[trigger] p.rays@[i]),
            0 <= k <= n2,
            sr as int == spec_sample_sum(
                objects@,
                focal,
                w as int,
                h as int,
                aa as int,
                pix,
                k as int,
            ).0,
            sg as int == spec_sample_sum(
                objects@,
                focal,
                w as int,
                h as int,
                aa as int,
                pix,
                k as int,
            ).1,
            sb as int == spec_sample_sum(
                objects@,
                focal,
                w as int,
                h as int,
                aa as int,
                pix,
                k as int,
            ).2,
            sr <= 255 * k,
            sg <= 255 * k,
            sb <= 255 * k,
        decreases n2 - k,
    {
        let ray = p.rays[k];
        let sc = sample_color(&ray, objects);
        sr = sr + sc.r as u32;
        sg = sg + sc.g as u32;
        sb = sb + sc.b as u32;
        k += 1;
    }
    let n2u: u32 = n2 as u32;
    proof {
        lemma_div_pos_is_pos(sr as int, n2 as int);
        lemma_div_pos_is_pos(sg as int, n2 as int);
        lemma_div_pos_is_pos(sb as int, n2 as int);
        lemma_div_multiples_vanish(255, n2 as int);
        lemma_div_is_ordered(sr as int, 255 * (n2 as int), n2 as int);
        lemma_div_is_ordered(sg as int, 255 * (n2 as int), n2 as int);
        lemma_div_is_ordered(sb as int, 255 * (n2 as int), n2 as int);
    }
    Color { r: (sr / n2u) as u8, g: (sg / n2u) as u8, b: (sb / n2u) as u8 }
}

/// Renders one chunk: each pixel of the chunk's range, in order, has its
/// sample bundle produced on demand, resolved against every object for
/// the globally nearest hit per sample, averaged, and emitted as three
/// bytes.
pub fn render(view_port: ViewPortChunk, objects: &Vec<Sphere>) -> (out: Vec<u8>)
    requires
        vpc_wf(view_port),
        view_port.curr_pixel == view_port.pixel_start,
        scene_ok(objects@),
    ensures
        out@ == spec_chunk_bytes(
            objects@,
            view_port.focal_point,
            view_port.resolution_w as int,
            view_port.resolution_h as int,
            view_port.aa as int,
            view_port.pixel_start as int,
            view_port.pixel_end as int,
        ),
        out@.len() == 3 * (view_port.pixel_end - view_port.pixel_start),
{
    let ghost orig = view_port;
    let mut vpc = view_port;
    let mut out: Vec<u8> = Vec::new();
    while vpc.curr_pixel < vpc.pixel_end
        invariant
            vpc_wf(vpc),
            scene_ok(objects@),
            vpc.focal_point == orig.focal_point,
            vpc.aspect_ratio == orig.aspect_ratio,
            vpc.resolution_w == orig.resolution_w,
            vpc.resolution_h == orig.resolution_h,
            vpc.aa == orig.aa,
            vpc.angle == orig.angle,
            vpc.pixel_start == orig.pixel_start,
            vpc.pixel_end == orig.pixel_end,
            orig.pixel_start <= vpc.curr_pixel,
            out@ == spec_chunk_bytes(
                objects@,
                orig.focal_point,
                orig.resolution_w as int,
                orig.resolution_h as int,
                orig.aa as int,
                orig.pixel_start as int,
                vpc.curr_pixel as int,
            ),
        decreases vpc.pixel_end - vpc.curr_pixel,
    {
        let ghost pix = vpc.curr_pixel as int;
        let ghost before = vpc;
        let popt = vpc.next();
        let p = match popt {
            Some(p) => p,
            None => unreached(),
        };
        proof {
            assert(pixel_rays_ok(p, before));
        }
        let c = shade_pixel(
            &p,
            objects,
            vpc.resolution_w,
            vpc.resolution_h,
            vpc.aa,
            Ghost(orig.focal_point),
            Ghost(pix),
        );
        out.push(c.r);
        out.push(c.g);
        out.push(c.b);
        proof {
            assert(out@ =~= spec_chunk_bytes(
                objects@,
                orig.focal_point,
                orig.resolution_w as int,
                orig.resolution_h as int,
                orig.aa as int,
                orig.pixel_start as int,
                vpc.curr_pixel as int,
            ));
        }
    }
    proof {
        lemma_chunk_bytes_len(
            objects@,
            orig.focal_point,
            orig.resolution_w as int,
            orig.resolution_h as int,
            orig.aa as int,
            orig.pixel_start as int,
            orig.pixel_end as int,
        );
    }
    out
}

/// Renders the whole raster: the scene is split into `chunks` contiguous
/// pixel ranges, each range rendered independently of the others, and the
/// byte buffers joined strictly in chunk order. The output is pinned to
/// `spec_image`, which does not mention the chunk count: splitting the
/// same scene one way or many ways gives byte-identical rasters.
pub fn render_scene(
    focal_point: Vector3D,
    resolution_w: usize,
    resolution_h: usize,
    aa: usize,
    chunks: usize,
    objects: &Vec<Sphere>,
) -> (r: Result<Vec<u8>, RenderError>)
    requires
        resolution_w <= MAX_RES,
        resolution_h <= MAX_RES,
        aa <= MAX_AA,
        vec_in_range(focal_point, COORD_BOUND as int),
        scene_ok(objects@),
    ensures
        (match r {
            Ok(buf) => resolution_w >= 1 && resolution_h >= 1 && aa >= 1 && chunks >= 1 && buf@
                == spec_image(
                objects@,
                focal_point,
                resolution_w as int,
                resolution_h as int,
                aa as int,
            ) && buf@.len() == 3 * (resolution_w * resolution_h),
            Err(e) => e == RenderError::InvalidConfiguration && (resolution_w == 0 || resolution_h
                == 0 || aa == 0 || chunks == 0),
        }),
{
    let view_ports = match generate_view_port_chunks(
        focal_point,
        resolution_w,
        resolution_h,
        aa,
        chunks,
    ) {
        Ok(v) => v,
        Err(e) => {
            return Err(e);
        },
    };
    let ghost t = (resolution_w as int) * (resolution_h as int);
    let ghost n = chunks as int;
    proof {
        crate::camera::lemma_chunk_partition(t, n);
    }
    let mut out: Vec<u8> = Vec::new();
    let mut i: usize = 0;
    while i < chunks
        invariant
            resolution_w <= MAX_RES,
            resolution_h <= MAX_RES,
            aa <= MAX_AA,
            scene_ok(objects@),
            t == (resolution_w as int) * (resolution_h as int),
            n == chunks as int,
            n >= 1,
            t >= 0,
            0 <= i <= chunks,
            view_ports@.len() == chunks,
            forall|k: int|
                0 <= k < chunks ==> chunk_fields_ok(
                    #[trigger] view_ports@[k],
                    focal_point,
                    resolution_w as int,
                    resolution_h as int,
                    aa as int,
                    n,
                    k,
                ),
            out@ == spec_chunk_bytes(
                objects@,
                focal_point,
                resolution_w as int,
                resolution_h as int,
                aa as int,
                0,
                chunk_start(t, n, i as int),
            ),
        decreases chunks - i,
    {
        let vp = view_ports[i];
        let mut bytes = render(vp, objects);
        proof {
            crate::camera::lemma_chunk_start_monotonic(t, n, 0, i as int);
            crate::camera::lemma_chunk_start_monotonic(t, n, i as int, i as int + 1);
        }
        out.append(&mut bytes);
        proof {
            lemma_chunk_bytes_concat(
                objects@,
                focal_point,
                resolution_w as int,
                resolution_h as int,
                aa as int,
                0,
                chunk_start(t, n, i as int),
                chunk_start(t, n, i as int + 1),
            );
        }
        i += 1;
    }
    proof {
        crate::camera::lemma_chunk_partition(t, n);
        lemma_chunk_bytes_len(
            objects@,
            focal_point,
            resolution_w as int,
            resolution_h as int,
            aa as int,
            0,
            t,
        );
    }
    Ok(out)
}

/// A ray that meets no object in the scene resolves to the background
/// color, whatever the scene holds.
pub proof fn lemma_miss_resolves_to_background(objects: Seq<Sphere>, ray: Ray)
    requires
        forall|i: int|
            0 <= i < objects.len() ==> (#[trigger] spec_collision(objects[i], ray)) is None,
    ensures
        spec_sample_color(objects, ray) == background(),
    decreases objects.len(),
{
    if objects.len() > 0 {
        assert(forall|i: int|
            0 <= i < objects.drop_last().len() ==> (#[trigger] spec_collision(
                objects.drop_last()[i],
                ray,
            )) is None);
        lemma_miss_resolves_to_background(objects.drop_last(), ray);
        assert(spec_collision(objects[objects.len() - 1], ray) is None);
    }
}

/// Channelwise sums of samples that all resolve to one color are that
/// color scaled by the sample count.
proof fn lemma_const_sample_sum(
    objects: Seq<Sphere>,
    focal: Vector3D,
    w: int,
    h: int,
    aa: int,
    pixel: int,
    c: Color,
    k: int,
)
    requires
        1 <= aa,
        0 <= k <= aa * aa,
        forall|si: int, sj: int|
            0 <= si < aa && 0 <= sj < aa ==> spec_sample_color(
                objects,
                #[trigger] spec_ray(focal, w, h, aa, pixel, si, sj),
            ) == c,
    ensures
        spec_sample_sum(objects, focal, w, h, aa, pixel, k).0 == k * (c.r as int),
        spec_sample_sum(objects, focal, w, h, aa, pixel, k).1 == k * (c.g as int),
        spec_sample_sum(objects, focal, w, h, aa, pixel, k).2 == k * (c.b as int),
    decreases k,
{
    if k <= 0 {
        assert(k * (c.r as int) == 0) by (nonlinear_arith)
            requires
                k == 0;
        assert(k * (c.g as int) == 0) by (nonlinear_arith)
            requires
                k == 0;
        assert(k * (c.b as int) == 0) by (nonlinear_arith)
            requires
                k == 0;
    } else {
        lemma_const_sample_sum(objects, focal, w, h, aa, pixel, c, k - 1);
        lemma_div_pos_is_pos(k - 1, aa);
        lemma_mod_division_less_than_divisor(k - 1, aa);
        lemma_multiply_divide_lt(k - 1, aa, aa);
        assert(spec_sample_color(
            objects,
            spec_ray(focal, w, h, aa, pixel, (k - 1) % aa, (k - 1) / aa),
        ) == c);
        lemma_mul_is_distributive_add_other_way(c.r as int, k - 1, 1);
        lemma_mul_is_distributive_add_other_way(c.g as int, k - 1, 1);
        lemma_mul_is_distributive_add_other_way(c.b as int, k - 1, 1);
    }
}

/// A pixel whose samples all resolve to one color averages to exactly
/// that color.
pub proof fn lemma_const_pixel(
    objects: Seq<Sphere>,
    focal: Vector3D,
    w: int,
    h: int,
    aa: int,
    pixel: int,
    c: Color,
)
    requires
        1 <= aa,
        forall|si: int, sj: int|
            0 <= si < aa && 0 <= sj < aa ==> spec_sample_color(
                objects,
                #[trigger] spec_ray(focal, w, h, aa, pixel, si, sj),
            ) == c,
    ensures
        spec_pixel_color(objects, focal, w, h, aa, pixel) == c,
{
    let n = aa * aa;
    assert(aa * aa >= 1) by (nonlinear_arith)
        requires
            aa >= 1;
    lemma_const_sample_sum(objects, focal, w, h, aa, pixel, c, n);
    lemma_div_multiples_vanish(c.r as int, n);
    lemma_div_multiples_vanish(c.g as int, n);
    lemma_div_multiples_vanish(c.b as int, n);
    assert(n * (c.r as int) == (c.r as int) * n) by (nonlinear_arith);
    assert(n * (c.g as int) == (c.g as int) * n) by (nonlinear_arith);
    assert(n * (c.b as int) == (c.b as int) * n) by (nonlinear_arith);
}

/// Anti-aliasing invariance: when every sample of a pixel resolves to the
/// same color — as over a viewport showing one constant-color surface —
/// the averaged pixel is that color for every anti-aliasing factor, so
/// factors one and `k` give identical output.
pub proof fn lemma_aa_invariance(
    objects: Seq<Sphere>,
    focal: Vector3D,
    w: int,
    h: int,
    aa1: int,
    aa2: int,
    pixel: int,
    c: Color,
)
    requires
        1 <= aa1,
        1 <= aa2,
        forall|si: int, sj: int|
            0 <= si < aa1 && 0 <= sj < aa1 ==> spec_sample_color(
                objects,
                #[trigger] spec_ray(focal, w, h, aa1, pixel, si, sj),
            ) == c,
        forall|si: int, sj: int|
            0 <= si < aa2 && 0 <= sj < aa2 ==> spec_sample_color(
                objects,
                #[trigger] spec_ray(focal, w, h, aa2, pixel, si, sj),
            ) == c,
    ensures
        spec_pixel_color(objects, focal, w, h, aa1, pixel) == spec_pixel_color(
            objects,
            focal,
            w,
            h,
            aa2,
            pixel,
        ),
{
    lemma_const_pixel(objects, focal, w, h, aa1, pixel, c);
    lemma_const_pixel(objects, focal, w, h, aa2, pixel, c);
}

} // verus!
