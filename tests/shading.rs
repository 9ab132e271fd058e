use raytracing::geom::{Ray, Vec3, UNIT};
use raytracing::plane::Plane;
use raytracing::primitive::Primitive;
use raytracing::sphere::Sphere;
use raytracing::shader::{
    combine_product, combine_sum, combine_weighted, get_bw_chess, get_phong, AmbientShader, ChessShader, Color,
    DiffuseShader, MonochromeShader, Rgb, Shader, SpecularShader,
};
use raytracing::world::{Light, World};

fn v(x: i64, y: i64, z: i64) -> Vec3 {
    Vec3::new(x, y, z)
}

fn mono(r: i64, g: i64, b: i64) -> Shader {
    MonochromeShader::new(Color::new(r, g, b))
}

fn square(cx: i64, cy: i64, z: i64, half: i64, shader: Shader) -> Primitive {
    Primitive::Plane(Plane { a: v(cx - half, cy - half, z), b: v(cx + half, cy - half, z), c: v(cx - half, cy + half, z), shader })
}

fn white_light(x: i64, y: i64, z: i64) -> Light {
    Light::new(v(x, y, z), Color::new(1000, 1000, 1000))
}

#[test]
fn color_conversion_to_eight_bits() {
    assert_eq!(Color::new(500, 1500, -3).to_rgb8(), Rgb { r: 127, g: 255, b: 0 });
    assert_eq!(Color::new(1000, 0, 4).to_rgb8(), Rgb { r: 255, g: 0, b: 1 });
}

#[test]
fn color_arithmetic() {
    let a = Color::new(500, 1000, -200);
    let b = Color::new(500, 300, 1000);
    assert_eq!(a.add(&b), Color::new(1000, 1300, 800));
    assert_eq!(a.mul(&b), Color::new(250, 300, -200));
    assert_eq!(a.scale(800), Color::new(400, 800, -160));
    let big = Color::new(0x100_0000_0000, 0, 0);
    assert_eq!(big.add(&big), big);
}

#[test]
fn chess_cells_pick_shaders() {
    let chess = ChessShader { shader1: Box::new(mono(0, 0, 0)), shader2: Box::new(mono(1000, 1000, 1000)), size: UNIT };
    assert!(chess.picks_first(UNIT / 2, UNIT / 2));
    assert!(!chess.picks_first(3 * UNIT / 2, UNIT / 2));
    assert!(chess.picks_first(3 * UNIT / 2, 3 * UNIT / 2));
    assert!(!chess.picks_first(-UNIT / 2, UNIT / 2));
    assert!(chess.picks_first(0, 0));
    assert!(chess.picks_first(UNIT, UNIT / 2));
    assert!(!chess.picks_first(2 * UNIT, UNIT / 2));
}

#[test]
fn chess_pattern_on_a_floor() {
    // A floor at z = 10 whose surface coordinates grow toward -x and -y from its corner a.
    let floor = Primitive::Plane(Plane { a: v(1024, 1024, 10), b: v(-1024, 1024, 10), c: v(1024, -1024, 10), shader: get_bw_chess() });
    let world = World::new(vec![floor], Vec::new()).unwrap();
    // surface coordinates (128, 128): half a cell in on both axes
    let first = Ray::new(v(896, 896, 0), v(0, 0, 1)).unwrap();
    assert_eq!(world.appearance(&first, 10), Color::new(0, 0, 0));
    // surface coordinates (384, 128)
    let second = Ray::new(v(640, 896, 0), v(0, 0, 1)).unwrap();
    assert_eq!(world.appearance(&second, 10), Color::new(1000, 1000, 1000));
    assert_eq!(world.color(&second, 10), Rgb { r: 255, g: 255, b: 255 });
}

#[test]
fn background_where_nothing_is_hit() {
    let world = World::new(vec![square(0, 0, 100, 10, mono(1000, 0, 0))], Vec::new()).unwrap();
    let miss = Ray::new(v(0, 0, 0), v(0, 0, -1)).unwrap();
    assert_eq!(world.appearance(&miss, 10), Color::new(0, 0, 0));
    let hit = Ray::new(v(0, 0, 0), v(0, 0, 1)).unwrap();
    assert_eq!(world.appearance(&hit, 10), Color::new(1000, 0, 0));
    assert!(world.next_intersection(&hit).is_some());
    assert!(world.next_intersection(&miss).is_none());
}

#[test]
fn diffuse_light_reaches_unoccluded_point() {
    let floor = square(0, 0, 100, 200, DiffuseShader::new(Color::new(500, 500, 500)));
    let world = World::new(vec![floor], vec![white_light(0, 0, 0)]).unwrap();
    let ray = Ray::new(v(0, 0, 0), v(0, 0, 1)).unwrap();
    // light straight above: cosine 1000, 2 * 1 * 0.5 * 1 = 1
    assert_eq!(world.appearance(&ray, 10), Color::new(1000, 1000, 1000));
}

#[test]
fn occluded_light_adds_nothing() {
    let floor = square(0, 0, 100, 200, DiffuseShader::new(Color::new(500, 500, 500)));
    let blocker = square(0, 0, 50, 20, mono(0, 1000, 0));
    let world = World::new(vec![floor, blocker], vec![white_light(0, 0, 0)]).unwrap();
    // A ray from the side reaches the floor at (0, 0, 100), which lies in the blocker's shadow.
    let ray = Ray::new(v(150, 0, 90), v(-15, 0, 1)).unwrap();
    let h = world.next_intersection(&ray).unwrap();
    assert_eq!(h.prim, 0);
    assert_eq!(world.appearance(&ray, 10), Color::new(0, 0, 0));
    // Out of the shadow the light arrives at a slant.
    let lit = Ray::new(v(150, 0, 90), v(0, 0, 1)).unwrap();
    let c = world.appearance(&lit, 10);
    assert!(c.r > 0 && c.g > 0 && c.b > 0);
}

#[test]
fn surfaces_are_lit_from_either_side() {
    let floor = square(0, 0, 100, 200, DiffuseShader::new(Color::new(500, 500, 500)));
    let world = World::new(vec![floor], vec![white_light(0, 0, 300)]).unwrap();
    let ray = Ray::new(v(0, 0, 0), v(0, 0, 1)).unwrap();
    // the shadow ray's hit has the normal that faces the light
    assert_eq!(world.appearance(&ray, 10), Color::new(1000, 1000, 1000));
}

#[test]
fn specular_highlight_facing_the_viewer() {
    let floor = square(0, 0, 100, 200, SpecularShader::new(10));
    let world = World::new(vec![floor], vec![white_light(0, 0, 0)]).unwrap();
    let ray = Ray::new(v(0, 0, 0), v(0, 0, 1)).unwrap();
    assert_eq!(world.appearance(&ray, 10), Color::new(1000, 1000, 1000));
    let world_dark = World::new(vec![square(0, 0, 100, 200, SpecularShader::new(10))], Vec::new()).unwrap();
    assert_eq!(world_dark.appearance(&ray, 10), Color::new(0, 0, 0));
}

#[test]
fn composite_shaders() {
    let sum = combine_sum(mono(100, 200, 300), AmbientShader::new(Color::new(50, 50, 50)));
    let product = combine_product(mono(500, 1000, 0), mono(500, 500, 500));
    let weighted = combine_weighted(mono(1000, 0, 0), 500, mono(0, 1000, 0), 250);
    let world = World::new(
        vec![square(0, 0, 10, 10, sum), square(100, 0, 10, 10, product), square(200, 0, 10, 10, weighted)],
        Vec::new(),
    )
    .unwrap();
    let at = |x: i64| Ray::new(v(x, 0, 0), v(0, 0, 1)).unwrap();
    assert_eq!(world.appearance(&at(0), 10), Color::new(150, 250, 350));
    assert_eq!(world.appearance(&at(100), 10), Color::new(250, 500, 0));
    assert_eq!(world.appearance(&at(200), 10), Color::new(500, 250, 0));
}

#[test]
fn phong_material_is_lit() {
    let floor = square(0, 0, 100, 200, get_phong(Color::new(300, 300, 300)));
    let world = World::new(vec![floor], vec![white_light(0, 0, 0)]).unwrap();
    let ray = Ray::new(v(0, 0, 0), v(0, 0, 1)).unwrap();
    // 0.5 * diffuse (0.6) + specular (1.0) + 0.8 * ambient (0.3)
    assert_eq!(world.appearance(&ray, 10), Color::new(1540, 1540, 1540));
    assert_eq!(world.color(&ray, 10), Rgb { r: 255, g: 255, b: 255 });
}

#[test]
fn mirror_shows_what_it_faces() {
    let mirror = square(0, 0, 100, 200, Shader::Mirror);
    let target = square(0, 0, -100, 200, mono(0, 0, 1000));
    let world = World::new(vec![mirror, target], Vec::new()).unwrap();
    let ray = Ray::new(v(0, 0, 0), v(0, 0, 1)).unwrap();
    assert_eq!(world.appearance(&ray, 10), Color::new(0, 0, 1000));
    // no reflection left
    assert_eq!(world.appearance(&ray, 0), Color::new(0, 0, 0));
}

#[test]
fn facing_mirrors_stop_at_the_budget() {
    let m1 = square(0, 0, 100, 200, combine_sum(Shader::Mirror, mono(10, 0, 0)));
    let m2 = square(0, 0, -100, 200, combine_sum(Shader::Mirror, mono(0, 10, 0)));
    let world = World::new(vec![m1, m2], Vec::new()).unwrap();
    let ray = Ray::new(v(0, 0, 0), v(0, 0, 1)).unwrap();
    // each bounce adds its own tint: budget 3 gives four evaluations, m1 m2 m1 m2
    assert_eq!(world.appearance(&ray, 3), Color::new(20, 20, 0));
    assert_eq!(world.appearance(&ray, 0), Color::new(10, 0, 0));
    assert_eq!(world.appearance(&ray, 10), Color::new(60, 50, 0));
}

#[test]
fn world_rejects_out_of_range_scenes() {
    assert!(World::new(vec![square(0, 0, 20000, 10, mono(0, 0, 0))], Vec::new()).is_none());
    assert!(World::new(Vec::new(), vec![white_light(0, 0, 17000)]).is_none());
    let bad_chess = ChessShader { shader1: Box::new(mono(0, 0, 0)), shader2: Box::new(mono(0, 0, 0)), size: 0 };
    assert!(World::new(vec![square(0, 0, 10, 10, Shader::Chess(bad_chess))], Vec::new()).is_none());
    assert!(World::new(Vec::new(), Vec::new()).is_some());
}

#[test]
fn lit_patch_differs_from_background() {
    // A patch seen by a camera at the origin, lit from the upper right.
    let patch = square(0, 0, 5 * UNIT, UNIT, get_phong(Color::new(300, 300, 300)));
    let world = World::new(vec![patch], vec![white_light(10 * UNIT, 10 * UNIT, 10 * UNIT)]).unwrap();
    let background = Rgb { r: 0, g: 0, b: 0 };
    let centre = Ray::new(v(0, 0, 0), v(0, 0, 1000)).unwrap();
    assert_ne!(world.color(&centre, 10), background);
    let mut x: i64 = -1000;
    while x <= 1000 {
        let ray = Ray::new(v(0, 0, 0), v(x, 0, 1000)).unwrap();
        let c = world.color(&ray, 10);
        // outside the patch's projected outline: exactly the background
        if x > 200 || x < -200 {
            assert_eq!(c, background);
        } else {
            assert_ne!(c, background);
        }
        x += 50;
    }
}

#[test]
fn lit_sphere_differs_from_background() {
    // A sphere of radius one unit five units ahead, a light at (10, 10, 10) units,
    // and a 300 by 200 raster of rays from the origin.
    let sphere = Primitive::Sphere(Sphere { center: v(0, 0, 5 * UNIT), radius: UNIT, shader: get_phong(Color::new(300, 300, 300)) });
    let world = World::new(vec![sphere], vec![white_light(10 * UNIT, 10 * UNIT, 10 * UNIT)]).unwrap();
    let background = Rgb { r: 0, g: 0, b: 0 };
    let centre = Ray::new(v(0, 0, 0), v(0, 0, 1000)).unwrap();
    assert_ne!(world.color(&centre, 10), background);
    let c = (0i128, 0i128, (5 * UNIT) as i128);
    let r = (UNIT + 2) as i128;
    let mut outside = 0;
    let mut px: i64 = 0;
    while px < 300 {
        let mut py: i64 = 0;
        while py < 200 {
            let d = (px - 150, py - 100, 400);
            let ray = Ray::new(v(0, 0, 0), v(d.0, d.1, d.2)).unwrap();
            let (dx, dy, dz) = (d.0 as i128, d.1 as i128, d.2 as i128);
            // squared distance of the centre from the ray's line, times |d|^2
            let cx = c.1 * dz - c.2 * dy;
            let cy = c.2 * dx - c.0 * dz;
            let cz = c.0 * dy - c.1 * dx;
            let dd = dx * dx + dy * dy + dz * dz;
            if cx * cx + cy * cy + cz * cz > r * r * dd {
                assert_eq!(world.color(&ray, 10), background);
                outside += 1;
            }
            py += 7;
        }
        px += 7;
    }
    assert!(outside > 100);
}

#[test]
fn sphere_in_a_scene_with_a_floor() {
    let sphere = Primitive::Sphere(Sphere { center: v(0, 0, 5 * UNIT), radius: UNIT, shader: mono(0, 1000, 0) });
    let floor = square(0, 0, 8 * UNIT, 4 * UNIT, mono(1000, 0, 0));
    let world = World::new(vec![floor, sphere], Vec::new()).unwrap();
    let centre = Ray::new(v(0, 0, 0), v(0, 0, 1)).unwrap();
    assert_eq!(world.appearance(&centre, 10), Color::new(0, 1000, 0));
    let aside = Ray::new(v(2 * UNIT, 0, 0), v(0, 0, 1)).unwrap();
    assert_eq!(world.appearance(&aside, 10), Color::new(1000, 0, 0));
}

#[test]
fn faint_light_on_faint_material_is_not_black() {
    let floor = square(0, 0, 100, 200, DiffuseShader::new(Color::new(1, 1, 1)));
    let world = World::new(vec![floor], vec![Light::new(v(0, 0, 0), Color::new(1, 1, 1))]).unwrap();
    let ray = Ray::new(v(0, 0, 0), v(0, 0, 1)).unwrap();
    let c = world.appearance(&ray, 10);
    assert!(c.r > 0 && c.g > 0 && c.b > 0);
    // a light at a grazing angle still counts
    let slanted = square(0, 0, 100, 16000, DiffuseShader::new(Color::new(1000, 1000, 1000)));
    let world = World::new(vec![slanted], vec![white_light(16000, 0, 99)]).unwrap();
    let c = world.appearance(&ray, 10);
    assert!(c.r > 0);
}
