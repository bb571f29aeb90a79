use raytracer::fixed::{Fixed, SCALE};
use raytracer::vector::Vector3D;

fn fx(v: i32) -> Fixed {
    Fixed::from_int(v)
}

fn vec3(x: i32, y: i32, z: i32) -> Vector3D {
    Vector3D::new(fx(x), fx(y), fx(z))
}

#[test]
fn test_vector3d() {
    let mut v1: Vector3D = vec3(1, 2, 3);
    let v2: Vector3D = vec3(3, 2, 1);

    // Subtraction, both ways around.
    assert_eq!(v1.sub(&v2), vec3(-2, 0, 2));
    assert_eq!(v2.sub(&v1), vec3(2, 0, -2));

    // Addition.
    assert_eq!(v1.add(&v2), vec3(4, 4, 4));

    // Component read access.
    assert_eq!(v1.x, fx(1));

    // Component write access.
    v1.x = fx(4);
    assert_eq!(v1.x, fx(4));
}

#[test]
fn test_fixed_exact_arithmetic() {
    assert_eq!(fx(1).raw, SCALE);
    assert_eq!(fx(2).add(fx(3)), fx(5));
    assert_eq!(fx(2).sub(fx(5)), fx(-3));
    assert_eq!(fx(2).mul(fx(3)), fx(6));
    assert_eq!(fx(-2).mul(fx(3)), fx(-6));
    assert_eq!(fx(6).div(fx(2)), fx(3));
    assert_eq!(fx(1).div(fx(2)).raw, SCALE / 2);
    assert_eq!(fx(9).sqrt(), fx(3));
    assert_eq!(fx(4).sqrt(), fx(2));
    assert_eq!(fx(0).sqrt(), fx(0));
    assert_eq!(fx(3).neg(), fx(-3));
}

#[test]
fn test_dot_product() {
    let v1 = vec3(1, 2, 3);
    let v2 = vec3(4, -5, 6);
    assert_eq!(v1.dot(&v2), fx(4 - 10 + 18));
    assert_eq!(v1.dot(&v1), fx(14));
}

#[test]
fn test_scale() {
    let v = vec3(1, -2, 3);
    assert_eq!(v.scale(fx(4)), vec3(4, -8, 12));
}

#[test]
fn test_normal_three_four_zero() {
    // (3, 4, 0) has magnitude 5; the normalized components are 3/5 and
    // 4/5, truncated to raw fixed-point steps.
    let v = vec3(3, 4, 0);
    let n = v.normal();
    assert_eq!(n.x.raw, 3 * SCALE / 5);
    assert_eq!(n.y.raw, 4 * SCALE / 5);
    assert_eq!(n.z.raw, 0);

    let mut m = v;
    m.normalize();
    assert_eq!(m, n);
}
