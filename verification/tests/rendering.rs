use raytracer::RenderError;
use raytracer::camera::{generate_view_port_chunks, Ray};
use raytracer::color::Color;
use raytracer::fixed::{Fixed, SCALE};
use raytracer::object::{Object, Sphere};
use raytracer::render::{render, render_scene};
use raytracer::vector::Vector3D;

fn fx(v: i32) -> Fixed {
    Fixed::from_int(v)
}

fn vec3(x: i32, y: i32, z: i32) -> Vector3D {
    Vector3D::new(fx(x), fx(y), fx(z))
}

fn sphere(cx: i32, cy: i32, cz: i32, radius: i32, color: Color) -> Sphere {
    Sphere::new(vec3(cx, cy, cz), fx(radius), color).unwrap()
}

#[test]
fn test_sphere_intersection_distance() {
    // Sphere at the origin with radius one; a ray from (0, 0, 5) aimed
    // along (0, 0, -1) first meets it at distance exactly four.
    let s = sphere(0, 0, 0, 1, Color::new(255, 0, 0));
    let ray = Ray::new(vec3(0, 0, -1), vec3(0, 0, 5));
    let hit = s.get_collision(&ray);
    assert_eq!(hit, Some(Fixed { raw: 4 * SCALE }));
}

#[test]
fn test_ray_aimed_away_misses() {
    // The same sphere, but the ray points along +y: the line never meets
    // the sphere, so there is no intersection at all.
    let s = sphere(0, 0, 0, 1, Color::new(255, 0, 0));
    let ray = Ray::new(vec3(0, 1, 0), vec3(0, 0, 5));
    assert_eq!(s.get_collision(&ray), None);
}

#[test]
fn test_rays_that_miss_everything_give_background() {
    // One sphere far off to the side: every camera ray misses it, and
    // every pixel resolves to the white background.
    let objects = vec![sphere(1000, 0, 0, 1, Color::new(255, 0, 0))];
    let buf = render_scene(vec3(0, 0, 5), 2, 2, 1, 1, &objects).unwrap();
    assert_eq!(buf.len(), 12);
    assert!(buf.iter().all(|&b| b == 255));
}

#[test]
fn test_chunk_partition() {
    // 15 pixels split four ways: three chunks of ceil(15 / 4) = 4 pixels
    // and a final chunk absorbing the remainder, covering [0, 15) with no
    // gaps or overlaps.
    let chunks = generate_view_port_chunks(vec3(0, 0, 5), 5, 3, 1, 4).unwrap();
    let ranges: Vec<(usize, usize)> = chunks.iter().map(|c| (c.pixel_start, c.pixel_end)).collect();
    assert_eq!(ranges, vec![(0, 4), (4, 8), (8, 12), (12, 15)]);
    assert_eq!(ranges[0].0, 0);
    assert_eq!(ranges[ranges.len() - 1].1, 15);
    for w in ranges.windows(2) {
        assert_eq!(w[0].1, w[1].0);
    }
}

#[test]
fn test_chunk_partition_more_chunks_than_pixels() {
    // One pixel split three ways: the first chunk takes it and the rest
    // are empty, still covering [0, 1) exactly.
    let chunks = generate_view_port_chunks(vec3(0, 0, 5), 1, 1, 1, 3).unwrap();
    let ranges: Vec<(usize, usize)> = chunks.iter().map(|c| (c.pixel_start, c.pixel_end)).collect();
    assert_eq!(ranges, vec![(0, 1), (1, 1), (1, 1)]);
}

#[test]
fn test_camera_rays_unit_magnitude() {
    // Every camera-generated ray direction has magnitude one, up to
    // fixed-point truncation.
    for (w, h, aa) in [(4usize, 4usize, 1usize), (16, 9, 2), (2, 2, 1)] {
        let chunks = generate_view_port_chunks(vec3(0, 0, 5), w, h, aa, 1).unwrap();
        for mut chunk in chunks {
            while let Some(pixel) = chunk.next() {
                assert_eq!(pixel.rays.len(), aa * aa);
                for ray in &pixel.rays {
                    let x = ray.direction.x.raw as f64 / SCALE as f64;
                    let y = ray.direction.y.raw as f64 / SCALE as f64;
                    let z = ray.direction.z.raw as f64 / SCALE as f64;
                    let magnitude = (x * x + y * y + z * z).sqrt();
                    assert!((magnitude - 1.0).abs() < 1e-4);
                }
            }
        }
    }
}

#[test]
fn test_render_chunk_emits_three_bytes_per_pixel() {
    let objects = vec![sphere(0, 0, 0, 1, Color::new(255, 0, 0))];
    let chunks = generate_view_port_chunks(vec3(0, 0, 5), 5, 3, 1, 4).unwrap();
    let last = chunks[3];
    let bytes = render(last, &objects);
    assert_eq!(bytes.len(), 3 * (15 - 12));
}

#[test]
fn test_red_sphere_fills_viewport() {
    // A red sphere big enough that every camera ray hits it: all sixteen
    // pixels come out (255, 0, 0).
    let objects = vec![sphere(0, 0, 0, 15, Color::new(255, 0, 0))];
    let buf = render_scene(vec3(0, 0, 20), 4, 4, 1, 1, &objects).unwrap();
    assert_eq!(buf.len(), 48);
    for pixel in buf.chunks(3) {
        assert_eq!(pixel, &[255, 0, 0]);
    }
}

#[test]
fn test_empty_scene_is_all_background() {
    let objects: Vec<Sphere> = Vec::new();
    let buf = render_scene(vec3(0, 0, 5), 2, 2, 1, 1, &objects).unwrap();
    assert_eq!(buf, vec![255u8; 12]);
}

#[test]
fn test_aa_invariance_on_constant_view() {
    // The whole viewport shows one constant-color surface, so rendering
    // with anti-aliasing factors one and two gives identical bytes.
    let objects = vec![sphere(0, 0, 0, 15, Color::new(255, 0, 0))];
    let plain = render_scene(vec3(0, 0, 20), 4, 4, 1, 1, &objects).unwrap();
    let supersampled = render_scene(vec3(0, 0, 20), 4, 4, 2, 1, &objects).unwrap();
    assert_eq!(plain, supersampled);

    // The same for an empty scene: background everywhere.
    let empty: Vec<Sphere> = Vec::new();
    let plain = render_scene(vec3(0, 0, 5), 3, 2, 1, 1, &empty).unwrap();
    let supersampled = render_scene(vec3(0, 0, 5), 3, 2, 3, 1, &empty).unwrap();
    assert_eq!(plain, supersampled);
}

#[test]
fn test_determinism_across_chunk_counts() {
    // The same scene rendered in one chunk and in several gives
    // byte-identical output.
    let objects = vec![
        sphere(0, 0, 0, 1, Color::new(255, 0, 0)),
        sphere(2, 0, 0, 1, Color::new(255, 255, 0)),
        sphere(0, 2, 0, 1, Color::new(255, 0, 255)),
        sphere(2, 2, 0, 1, Color::new(0, 255, 0)),
    ];
    let focal = vec3(0, 0, 10);
    let one = render_scene(focal, 8, 6, 2, 1, &objects).unwrap();
    let three = render_scene(focal, 8, 6, 2, 3, &objects).unwrap();
    let seven = render_scene(focal, 8, 6, 2, 7, &objects).unwrap();
    assert_eq!(one, three);
    assert_eq!(one, seven);
}

#[test]
fn test_nearest_object_wins() {
    // Two spheres on the same axis: the nearer one's color shows, even
    // though the farther one is tested later.
    let near = sphere(0, 0, 2, 1, Color::new(0, 255, 0));
    let far = sphere(0, 0, -2, 1, Color::new(0, 0, 255));
    let objects = vec![far, near];
    let buf = render_scene(vec3(0, 0, 20), 1, 1, 1, 1, &objects).unwrap();
    assert_eq!(buf, vec![0, 255, 0]);

    // Listed the other way around, the result is the same.
    let objects = vec![near, far];
    let buf = render_scene(vec3(0, 0, 20), 1, 1, 1, 1, &objects).unwrap();
    assert_eq!(buf, vec![0, 255, 0]);
}

#[test]
fn test_invalid_configuration_is_rejected() {
    let objects: Vec<Sphere> = Vec::new();
    let focal = vec3(0, 0, 5);
    assert_eq!(render_scene(focal, 0, 2, 1, 1, &objects), Err(RenderError::InvalidConfiguration));
    assert_eq!(render_scene(focal, 2, 0, 1, 1, &objects), Err(RenderError::InvalidConfiguration));
    assert_eq!(render_scene(focal, 2, 2, 0, 1, &objects), Err(RenderError::InvalidConfiguration));
    assert_eq!(render_scene(focal, 2, 2, 1, 0, &objects), Err(RenderError::InvalidConfiguration));
    assert!(generate_view_port_chunks(focal, 2, 2, 1, 0).is_err());
    assert!(generate_view_port_chunks(focal, 2, 2, 1, 2).is_ok());
}

#[test]
fn test_sphere_rejects_nonpositive_radius() {
    let err = Sphere::new(vec3(0, 0, 0), fx(0), Color::new(1, 2, 3));
    assert_eq!(err, Err(RenderError::InvalidConfiguration));
    let err = Sphere::new(vec3(0, 0, 0), fx(-1), Color::new(1, 2, 3));
    assert_eq!(err, Err(RenderError::InvalidConfiguration));
    assert!(Sphere::new(vec3(0, 0, 0), fx(1), Color::new(1, 2, 3)).is_ok());
}

#[test]
fn test_surface_normal_and_color() {
    let s = sphere(0, 0, 0, 1, Color::new(9, 8, 7));
    let n = s.get_normal(vec3(2, 0, 0));
    assert_eq!(n, Vector3D::new(Fixed { raw: SCALE }, fx(0), fx(0)));
    assert_eq!(s.get_color(vec3(2, 0, 0)), Color::new(9, 8, 7));
}
