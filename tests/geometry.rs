use raytracing::arith::{floor_div, isqrt};
use raytracing::geom::{Aabb, Ray, Vec3, LIM};
use raytracing::light::{cos_between, pow_exec, reflect};
use raytracing::plane::Plane;
use raytracing::sphere::Sphere;
use raytracing::shader::{Color, MonochromeShader};

fn v(x: i64, y: i64, z: i64) -> Vec3 {
    Vec3::new(x, y, z)
}

fn floor_patch(z: i64) -> Plane {
    Plane {
        a: v(-100, -100, z),
        b: v(100, -100, z),
        c: v(-100, 100, z),
        shader: MonochromeShader::new(Color::new(1000, 0, 0)),
    }
}

#[test]
fn isqrt_and_floor_div_values() {
    assert_eq!(isqrt(0), 0);
    assert_eq!(isqrt(99), 9);
    assert_eq!(isqrt(100), 10);
    assert_eq!(floor_div(-7, 2), -4);
    assert_eq!(floor_div(7, 2), 3);
    assert_eq!(floor_div(-8, 2), -4);
}

#[test]
fn slab_test_with_axis_aligned_rays() {
    let b = Aabb { min: v(-10, -10, 5), max: v(10, 10, 15) };
    // Direction with two zero components, start between the faces on those axes.
    let inside = Ray::new(v(0, 0, 0), v(0, 0, 1)).unwrap();
    assert!(b.intersects(&inside));
    // Start outside the faces of an axis the ray runs parallel to.
    let beside = Ray::new(v(20, 0, 0), v(0, 0, 1)).unwrap();
    assert!(!b.intersects(&beside));
    // Start exactly on a face.
    let on_face = Ray::new(v(10, 0, 0), v(0, 0, 1)).unwrap();
    assert!(b.intersects(&on_face));
    // The line meets the box behind the start as well.
    let away = Ray::new(v(0, 0, 0), v(0, 0, -1)).unwrap();
    assert!(b.intersects(&away));
    // A diagonal that passes by a corner.
    let diagonal = Ray::new(v(0, 0, 0), v(3, 0, 1)).unwrap();
    assert!(!b.intersects(&diagonal));
    let diagonal_hit = Ray::new(v(0, 0, 0), v(1, 0, 1)).unwrap();
    assert!(b.intersects(&diagonal_hit));
}

#[test]
fn ray_new_rejects_zero_and_large_directions() {
    assert!(Ray::new(v(0, 0, 0), v(0, 0, 0)).is_none());
    assert!(Ray::new(v(0, 0, 0), v(LIM + 1, 0, 0)).is_none());
    assert!(Ray::new(v(LIM, -LIM, 0), v(LIM, 0, 0)).is_some());
}

#[test]
fn plane_hit_exact_values() {
    let p = floor_patch(10);
    let ray = Ray::new(v(0, 0, 0), v(0, 0, 1)).unwrap();
    let h = p.intercept(&ray, 7).unwrap();
    assert_eq!(h.num, 400000);
    assert_eq!(h.den, 40000);
    assert_eq!(h.pos, v(0, 0, 10));
    assert_eq!(h.normal_at_surface, v(0, 0, -40000));
    assert_eq!(h.surface_u, 100);
    assert_eq!(h.surface_v, 100);
    assert_eq!(h.prim, 7);
}

#[test]
fn plane_hit_from_behind_faces_the_ray() {
    let p = floor_patch(10);
    let ray = Ray::new(v(50, 20, 30), v(0, 0, -2)).unwrap();
    let h = p.intercept(&ray, 0).unwrap();
    // distance 20 in units of a direction of length 2: 10 steps
    assert_eq!(h.num * 10, h.den * 100);
    assert_eq!(h.pos, v(50, 20, 10));
    assert_eq!(h.normal_at_surface, v(0, 0, 40000));
    assert_eq!(h.surface_u, 150);
    assert_eq!(h.surface_v, 120);
}

#[test]
fn plane_misses() {
    let p = floor_patch(10);
    let parallel = Ray::new(v(0, 0, 0), v(1, 0, 0)).unwrap();
    assert!(p.intercept(&parallel, 0).is_none());
    let behind = Ray::new(v(0, 0, 0), v(0, 0, -1)).unwrap();
    assert!(p.intercept(&behind, 0).is_none());
    let outside = Ray::new(v(500, 0, 0), v(0, 0, 1)).unwrap();
    assert!(p.intercept(&outside, 0).is_none());
    let oblique_outside = Ray::new(v(0, 0, 0), v(20, 0, 1)).unwrap();
    assert!(p.intercept(&oblique_outside, 0).is_none());
}

#[test]
fn plane_bounds() {
    let p = Plane { a: v(3, -1, 7), b: v(-2, 4, 0), c: v(5, 5, 5), shader: MonochromeShader::new(Color::black()) };
    assert_eq!(p.get_min(), v(-2, -1, 0));
    assert_eq!(p.get_max(), v(5, 5, 7));
}

#[test]
fn reflect_about_normal() {
    let r = reflect(&v(1, 0, -1), &v(0, 0, 1));
    assert_eq!(r, v(LIM, 0, LIM));
    let r2 = reflect(&v(0, 0, 5), &v(0, 0, -3));
    assert_eq!(r2, v(0, 0, -LIM));
}

#[test]
fn cosine_and_power() {
    assert_eq!(cos_between(&v(100, 0, 0), &v(100, 0, 0)), 1000);
    assert_eq!(cos_between(&v(100, 0, 0), &v(100, 100, 0)), 707);
    assert_eq!(cos_between(&v(100, 0, 0), &v(-100, 100, 0)), 0);
    assert_eq!(cos_between(&v(100, 0, 0), &v(0, 100, 0)), 0);
    assert_eq!(pow_exec(500, 2), 250);
    assert_eq!(pow_exec(707, 0), 1000);
    assert_eq!(pow_exec(1000, 10), 1000);
}

fn ball() -> Sphere {
    Sphere { center: v(0, 0, 10), radius: 2, shader: MonochromeShader::new(Color::black()) }
}

#[test]
fn sphere_hit_exact_values() {
    let s = ball();
    let h = s.intercept(&Ray::new(v(0, 0, 0), v(0, 0, 1)).unwrap(), 3).unwrap();
    assert_eq!((h.num, h.den), (8, 1));
    assert_eq!(h.pos, v(0, 0, 8));
    assert_eq!(h.normal_at_surface, v(0, 0, -LIM));
    assert_eq!(h.prim, 3);
    let inside = s.intercept(&Ray::new(v(0, 0, 10), v(0, 0, 1)).unwrap(), 0).unwrap();
    assert_eq!((inside.num, inside.den), (2, 1));
    assert_eq!(inside.pos, v(0, 0, 12));
    assert_eq!(inside.normal_at_surface, v(0, 0, LIM));
    let slanted = s.intercept(&Ray::new(v(0, 0, 0), v(0, 0, 4)).unwrap(), 0).unwrap();
    assert_eq!((slanted.num, slanted.den), (32, 16));
    assert_eq!(slanted.pos, v(0, 0, 8));
}

#[test]
fn sphere_misses() {
    let s = ball();
    assert!(s.intercept(&Ray::new(v(5, 0, 0), v(0, 0, 1)).unwrap(), 0).is_none());
    assert!(s.intercept(&Ray::new(v(0, 0, 20), v(0, 0, 1)).unwrap(), 0).is_none());
    assert!(s.intercept(&Ray::new(v(0, 0, 0), v(1, 0, 0)).unwrap(), 0).is_none());
    assert_eq!(s.get_min(), v(-2, -2, 8));
    assert_eq!(s.get_max(), v(2, 2, 12));
}

#[test]
fn tiny_sphere_hit_at_its_center_is_kept() {
    // The hit point (10.33, 10.33, 20.33) rounds down to the center.
    let s = Sphere { center: v(10, 10, 20), radius: 1, shader: MonochromeShader::new(Color::black()) };
    let h = s.intercept(&Ray::new(v(20, 20, 30), v(-1, -1, -1)).unwrap(), 0).unwrap();
    assert_eq!((h.num, h.den), (29, 3));
    assert_eq!(h.pos, v(10, 10, 20));
    assert_eq!(h.normal_at_surface, v(LIM, LIM, LIM));
}
