use vstd::prelude::*;
use crate::arith::lemma_mul_bound;
use crate::bvh::{all_indices, all_wf, is_nearest, nearest_hit, BVStorage};
use crate::geom::{within_exec, v_neg, v_sub, v_dot, within, Ray, Vec3, V3, LIM};
use crate::light::{cos_between, cos_fixed, pow_exec, pow_fixed, reflect, reflect_dir, shrink};
use crate::plane::{hit_bounded, Intersection};
use crate::primitive::Primitive;
use crate::shader::{CMAX, add_spec, chess_first, color_ok, mul_spec, scale_spec, Color, Rgb, Shader, ONE, chan_u8};

verus! {

/// Largest magnitude of a lattice coordinate of a primitive's point or a light.
pub const HALF: i64 = 16384;

/// A point light.
#[derive(Clone, Copy, Debug, PartialEq, Eq, Structural)]
pub struct Light {
    pub pos: Vec3,
    pub color: Color,
}

/// The scene: the hierarchy over the primitives, the lights, the color of rays
/// that hit nothing, and the distances within which a shadow ray's hit counts as
/// the shaded point itself, for diffuse and for specular light.
#[derive(Debug)]
pub struct World {
    pub storage: BVStorage,
    pub lights: Vec<Light>,
    pub background: Color,
    pub eps_diffuse: i64,
    pub eps_specular: i64,
}

pub open spec fn prim_ok(pl: Primitive) -> bool {
    pl.fits(HALF as int) && pl.shader().ok()
}

pub open spec fn light_ok(l: Light) -> bool {
    within(l.pos@, HALF as int) && color_ok(l.color)
}

/// An intersection that shading accepts.
pub open spec fn hit_ok(h: Intersection) -> bool {
    hit_bounded(h) && within(h.pos@, HALF as int)
}

pub open spec fn dist2(a: V3, b: V3) -> int {
    v_dot(v_sub(a, b), v_sub(a, b))
}

/// The ray from a light toward a point.
pub open spec fn shadow_ray(l: Light, p: Vec3) -> Ray {
    Ray {
        start: l.pos,
        dir: Vec3 { x: (p.x - l.pos.x) as i64, y: (p.y - l.pos.y) as i64, z: (p.z - l.pos.z) as i64 },
    }
}

/// The ray that a mirror sends on: from the hit point, moved off the surface
/// along the normal, in the mirror image of the incoming direction.
pub open spec fn mirror_ray(h: Intersection, ray_dir: Vec3) -> Ray {
    let off = shrink(h.normal_at_surface@, 2);
    let d = reflect_dir(ray_dir@, h.normal_at_surface@);
    Ray {
        start: Vec3 { x: (h.pos.x + off.0) as i64, y: (h.pos.y + off.1) as i64, z: (h.pos.z + off.2) as i64 },
        dir: Vec3 { x: d.0 as i64, y: d.1 as i64, z: d.2 as i64 },
    }
}

pub open spec fn black() -> Color {
    Color { r: 0, g: 0, b: 0 }
}

impl World {
    pub open spec fn prims(self) -> Seq<Primitive> {
        self.storage.elements@
    }

    pub open spec fn wf(self) -> bool {
        &&& self.storage.wf()
        &&& forall|i: int| 0 <= i < self.prims().len() ==> prim_ok(#[trigger] self.prims()[i])
        &&& forall|i: int| 0 <= i < self.lights.len() ==> light_ok(#[trigger] self.lights@[i])
        &&& color_ok(self.background)
        &&& 0 <= self.eps_diffuse <= 0x1_0000
        &&& 0 <= self.eps_specular <= 0x1_0000
    }

    /// The nearest hit of a ray in the scene.
    pub open spec fn nearest(self, ray: Ray) -> Option<Intersection> {
        nearest_hit(self.prims(), ray)
    }

    /// The shadow ray's hit when light `l` reaches point `p`: the nearest hit from
    /// the light lies within `eps` of `p`. None when something else is hit first,
    /// nothing is hit, or the light sits at `p`.
    pub open spec fn lit(self, l: Light, p: Vec3, eps: int) -> Option<Intersection> {
        if p@ == l.pos@ {
            None
        } else {
            match self.nearest(shadow_ray(l, p)) {
                Some(sh) => if dist2(sh.pos@, p@) < eps * eps {
                    Some(sh)
                } else {
                    None
                },
                None => None,
            }
        }
    }

    /// Diffuse light from `l` at `p`: twice the cosine between the light's
    /// direction and the surface normal, times the material and light colors.
    pub open spec fn diffuse_term(self, color: Color, p: Vec3, l: Light) -> Color {
        match self.lit(l, p, self.eps_diffuse as int) {
            None => black(),
            Some(sh) => scale_spec(
                mul_spec(color, l.color),
                2 * cos_fixed(v_neg(shadow_ray(l, p).dir@), sh.normal_at_surface@),
            ),
        }
    }

    pub open spec fn diffuse_sum(self, color: Color, p: Vec3, k: nat) -> Color
        decreases k,
    {
        if k == 0 {
            black()
        } else {
            add_spec(self.diffuse_sum(color, p, (k - 1) as nat), self.diffuse_term(color, p, self.lights@[k - 1]))
        }
    }

    /// Specular light from `l` at `p` seen along `view`: the cosine between the
    /// reflected light direction and the way back to the viewer, to the power
    /// `alpha`, times the light color.
    pub open spec fn specular_term(self, alpha: nat, p: Vec3, view: Vec3, l: Light) -> Color {
        match self.lit(l, p, self.eps_specular as int) {
            None => black(),
            Some(sh) => scale_spec(
                l.color,
                pow_fixed(
                    cos_fixed(reflect_dir(shadow_ray(l, p).dir@, sh.normal_at_surface@), v_neg(view@)),
                    alpha,
                ),
            ),
        }
    }

    pub open spec fn specular_sum(self, alpha: nat, p: Vec3, view: Vec3, k: nat) -> Color
        decreases k,
    {
        if k == 0 {
            black()
        } else {
            add_spec(
                self.specular_sum(alpha, p, view, (k - 1) as nat),
                self.specular_term(alpha, p, view, self.lights@[k - 1]),
            )
        }
    }

    /// The color seen along `ray` with `depth` reflections left: the background
    /// where nothing is hit, else the hit primitive's shader at the hit.
    pub open spec fn color_spec(self, ray: Ray, depth: nat) -> Color
        decreases depth, 1nat, 0nat,
    {
        match self.nearest(ray) {
            None => self.background,
            Some(h) => if h.prim < self.prims().len() {
                self.shade(self.prims()[h.prim as int].shader(), h, ray.dir, depth)
            } else {
                black()
            },
        }
    }

    /// What shader `s` shows at intersection `h` seen along `ray_dir`.
    pub open spec fn shade(self, s: Shader, h: Intersection, ray_dir: Vec3, depth: nat) -> Color
        decreases depth, 0nat, s.size(),
    {
        match s {
            Shader::Diffuse(d) => self.diffuse_sum(d.color, h.pos, self.lights.len() as nat),
            Shader::Specular(sp) => self.specular_sum(sp.alpha as nat, h.pos, ray_dir, self.lights.len() as nat),
            Shader::Ambient(a) => a.color,
            Shader::Monochrome(m) => m.color,
            Shader::Chess(c) => if chess_first(h.surface_u as int, h.surface_v as int, c.size as int) {
                self.shade(*c.shader1, h, ray_dir, depth)
            } else {
                self.shade(*c.shader2, h, ray_dir, depth)
            },
            Shader::Additive(a) => add_spec(
                scale_spec(self.shade(*a.shader1, h, ray_dir, depth), a.weight1 as int),
                scale_spec(self.shade(*a.shader2, h, ray_dir, depth), a.weight2 as int),
            ),
            Shader::Multiplicative(m) => mul_spec(
                self.shade(*m.shader1, h, ray_dir, depth),
                self.shade(*m.shader2, h, ray_dir, depth),
            ),
            Shader::Mirror => if depth == 0 {
                black()
            } else {
                self.color_spec(mirror_ray(h, ray_dir), (depth - 1) as nat)
            },
        }
    }
}

impl World {
    /// How many color evaluations nest below the one for `ray` with `depth`
    /// reflections left: one for each mirror bounce along the deepest chain.
    pub open spec fn nested(self, ray: Ray, depth: nat) -> nat
        decreases depth, 1nat, 0nat,
    {
        match self.nearest(ray) {
            None => 0,
            Some(h) => if h.prim < self.prims().len() {
                self.nested_in(self.prims()[h.prim as int].shader(), h, ray.dir, depth)
            } else {
                0
            },
        }
    }

    pub open spec fn nested_in(self, s: Shader, h: Intersection, ray_dir: Vec3, depth: nat) -> nat
        decreases depth, 0nat, s.size(),
    {
        match s {
            Shader::Chess(c) => vstd::math::max(
                self.nested_in(*c.shader1, h, ray_dir, depth) as int,
                self.nested_in(*c.shader2, h, ray_dir, depth) as int,
            ) as nat,
            Shader::Additive(a) => vstd::math::max(
                self.nested_in(*a.shader1, h, ray_dir, depth) as int,
                self.nested_in(*a.shader2, h, ray_dir, depth) as int,
            ) as nat,
            Shader::Multiplicative(m) => vstd::math::max(
                self.nested_in(*m.shader1, h, ray_dir, depth) as int,
                self.nested_in(*m.shader2, h, ray_dir, depth) as int,
            ) as nat,
            Shader::Mirror => if depth == 0 {
                0
            } else {
                1 + self.nested(mirror_ray(h, ray_dir), (depth - 1) as nat)
            },
            _ => 0,
        }
    }
}

/// A color evaluation with a budget of `depth` reflections nests at most `depth`
/// further color evaluations, whatever the scene, mirrors facing each other
/// included.
pub proof fn lemma_nesting_bounded(w: World, ray: Ray, depth: nat)
    ensures
        w.nested(ray, depth) <= depth,
    decreases depth, 1nat, 0nat,
{
    match w.nearest(ray) {
        None => {},
        Some(h) => {
            if h.prim < w.prims().len() {
                lemma_nesting_in_bounded(w, w.prims()[h.prim as int].shader(), h, ray.dir, depth);
            }
        },
    }
}

/// The same bound for the evaluation of one shader tree.
pub proof fn lemma_nesting_in_bounded(w: World, s: Shader, h: Intersection, ray_dir: Vec3, depth: nat)
    ensures
        w.nested_in(s, h, ray_dir, depth) <= depth,
    decreases depth, 0nat, s.size(),
{
    match s {
        Shader::Chess(c) => {
            lemma_nesting_in_bounded(w, *c.shader1, h, ray_dir, depth);
            lemma_nesting_in_bounded(w, *c.shader2, h, ray_dir, depth);
        },
        Shader::Additive(a) => {
            lemma_nesting_in_bounded(w, *a.shader1, h, ray_dir, depth);
            lemma_nesting_in_bounded(w, *a.shader2, h, ray_dir, depth);
        },
        Shader::Multiplicative(m) => {
            lemma_nesting_in_bounded(w, *m.shader1, h, ray_dir, depth);
            lemma_nesting_in_bounded(w, *m.shader2, h, ray_dir, depth);
        },
        Shader::Mirror => {
            if depth > 0 {
                lemma_nesting_bounded(w, mirror_ray(h, ray_dir), (depth - 1) as nat);
            }
        },
        _ => {},
    }
}

/// A light that does not reach a point (something else is hit first from the
/// light) adds exactly nothing to its diffuse color. A light that reaches it and
/// faces the surface (the light's direction meets the normal at an obtuse angle)
/// adds strictly positive light to every channel in which both the material and
/// the light color are positive.
pub proof fn lemma_shadow(w: World, color: Color, p: Vec3, l: Light)
    requires
        color_ok(color),
        color_ok(l.color),
    ensures
        w.lit(l, p, w.eps_diffuse as int) is None ==> w.diffuse_term(color, p, l) == black(),
        w.lit(l, p, w.eps_diffuse as int) matches Some(sh) ==> {
            let t = w.diffuse_term(color, p, l);
            v_dot(shadow_ray(l, p).dir@, sh.normal_at_surface@) < 0 ==> (color.r > 0 && l.color.r > 0 ==> t.r > 0)
                && (color.g > 0 && l.color.g > 0 ==> t.g > 0) && (color.b > 0 && l.color.b > 0 ==> t.b > 0)
        },
{
    if let Some(sh) = w.lit(l, p, w.eps_diffuse as int) {
        let d = shadow_ray(l, p).dir@;
        let n = sh.normal_at_surface@;
        if v_dot(d, n) < 0 {
            assert(v_dot(v_neg(d), n) == -v_dot(d, n)) by (nonlinear_arith);
            let c = cos_fixed(v_neg(d), n);
            assert(c >= 1);
            let m = mul_spec(color, l.color);
            lemma_product_positive(color.r as int, l.color.r as int);
            lemma_product_positive(color.g as int, l.color.g as int);
            lemma_product_positive(color.b as int, l.color.b as int);
            lemma_product_positive(m.r as int, 2 * c);
            lemma_product_positive(m.g as int, 2 * c);
            lemma_product_positive(m.b as int, 2 * c);
        }
    }
}

proof fn lemma_product_positive(x: int, y: int)
    requires
        -CMAX <= x <= CMAX,
        -CMAX <= y <= CMAX,
    ensures
        x > 0 && y > 0 ==> crate::shader::chan_mul(x, y) > 0,
        -CMAX <= crate::shader::chan_mul(x, y) <= CMAX,
{
    if x > 0 && y > 0 {
        assert(x * y >= 1) by (nonlinear_arith)
            requires
                x > 0,
                y > 0,
        ;
        vstd::arithmetic::div_mod::lemma_div_is_ordered(ONE as int, x * y + ONE - 1, ONE as int);
    }
}

/// Default distance within which a shadow ray's hit counts as the point itself,
/// for diffuse light: four lattice steps. Both the shaded point and the shadow
/// ray's hit are rounded down to the lattice, and a shadow ray runs toward the
/// rounded point, so the two can lie a few steps apart on an unoccluded surface;
/// a bound below that would put lit points into shadow.
pub const EPS_DIFFUSE: i64 = 4;

/// Default distance within which a shadow ray's hit counts as the point itself,
/// for specular light.
pub const EPS_SPECULAR: i64 = 26;

fn color_ok_exec(c: &Color) -> (r: bool)
    ensures
        r == color_ok(*c),
{
    -CMAX <= c.r && c.r <= CMAX && -CMAX <= c.g && c.g <= CMAX && -CMAX <= c.b && c.b <= CMAX
}

impl Shader {
    /// Whether the parameters are in the ranges the fixed-point arithmetic accepts.
    pub fn check(&self) -> (r: bool)
        ensures
            r == self.ok(),
        decreases self,
    {
        match self {
            Shader::Diffuse(d) => color_ok_exec(&d.color),
            Shader::Specular(_) => true,
            Shader::Ambient(a) => color_ok_exec(&a.color),
            Shader::Monochrome(m) => color_ok_exec(&m.color),
            Shader::Chess(c) => 0 < c.size && c.size <= CMAX / 2 && c.shader1.check() && c.shader2.check(),
            Shader::Additive(a) => -CMAX <= a.weight1 && a.weight1 <= CMAX && -CMAX <= a.weight2 && a.weight2
                <= CMAX && a.shader1.check() && a.shader2.check(),
            Shader::Multiplicative(m) => m.shader1.check() && m.shader2.check(),
            Shader::Mirror => true,
        }
    }
}

impl Light {
    pub fn new(pos: Vec3, color: Color) -> (r: Light)
        ensures
            r == (Light { pos, color }),
    {
        Light { pos, color }
    }
}

impl World {
    /// The scene over `elements` and `lights`, on a black background with the
    /// default shadow distances; None when a point lies outside the range
    /// `-HALF ..= HALF` or a color or shader parameter outside what the
    /// fixed-point arithmetic accepts.
    pub fn new(elements: Vec<Primitive>, lights: Vec<Light>) -> (r: Option<World>)
        ensures
            r.is_some() == ((forall|i: int| 0 <= i < elements.len() ==> prim_ok(#[trigger] elements@[i]))
                && (forall|i: int| 0 <= i < lights.len() ==> light_ok(#[trigger] lights@[i]))),
            r matches Some(w) ==> w.wf() && w.prims() == elements@ && w.lights@ == lights@ && w.background
                == black() && w.eps_diffuse == EPS_DIFFUSE && w.eps_specular == EPS_SPECULAR,
    {
        let mut i: usize = 0;
        while i < elements.len()
            invariant
                i <= elements.len(),
                forall|k: int| 0 <= k < i ==> prim_ok(#[trigger] elements@[k]),
            decreases elements.len() - i,
        {
            let pl = &elements[i];
            if !(pl.fits_exec(HALF) && pl.shader_ref().check()) {
                return None;
            }
            i = i + 1;
        }
        let mut j: usize = 0;
        while j < lights.len()
            invariant
                j <= lights.len(),
                forall|k: int| 0 <= k < j ==> light_ok(#[trigger] lights@[k]),
            decreases lights.len() - j,
        {
            if !(within_exec(&lights[j].pos, HALF) && color_ok_exec(&lights[j].color)) {
                return None;
            }
            j = j + 1;
        }
        assert(all_wf(elements@)) by {
            assert forall|k: int| 0 <= k < elements.len() implies #[trigger] elements@[k].wf() by {
                assert(prim_ok(elements@[k]));
            }
        }
        let storage = BVStorage::new(elements);
        Some(World { storage, lights, background: Color::black(), eps_diffuse: EPS_DIFFUSE, eps_specular: EPS_SPECULAR })
    }

    /// The nearest hit of a ray in the scene.
    pub fn next_intersection(&self, ray: &Ray) -> (r: Option<Intersection>)
        requires
            self.wf(),
            ray.wf(),
        ensures
            r == self.nearest(*ray),
            r matches Some(h) ==> hit_ok(h) && h.prim < self.prims().len(),
    {
        let r = self.storage.intercept(ray);
        proof {
            if let Some(h) = r {
                assert(is_nearest(self.prims(), *ray, all_indices(self.prims().len()), r));
                assert(prim_ok(self.prims()[h.prim as int]));
            }
        }
        r
    }

    fn lit_exec(&self, l: &Light, p: &Vec3, eps: i64) -> (r: Option<Intersection>)
        requires
            self.wf(),
            light_ok(*l),
            within(p@, HALF as int),
            0 <= eps <= 0x1_0000,
        ensures
            r == self.lit(*l, *p, eps as int),
            r matches Some(sh) ==> hit_ok(sh),
    {
        if p.x == l.pos.x && p.y == l.pos.y && p.z == l.pos.z {
            return None;
        }
        let ray = Ray { start: l.pos, dir: p.sub(&l.pos) };
        assert(ray == shadow_ray(*l, *p));
        match self.next_intersection(&ray) {
            Some(sh) => {
                let d = sh.pos.sub(p);
                let dd = d.dot(&d);
                proof {
                    lemma_mul_bound(eps as int, eps as int, 0x1_0000, 0x1_0000);
                }
                if dd < (eps as i128) * (eps as i128) {
                    Some(sh)
                } else {
                    None
                }
            },
            None => None,
        }
    }

    fn diffuse_exec(&self, color: &Color, p: &Vec3) -> (c: Color)
        requires
            self.wf(),
            color_ok(*color),
            within(p@, HALF as int),
        ensures
            c == self.diffuse_sum(*color, *p, self.lights.len() as nat),
            color_ok(c),
    {
        let mut acc = Color::black();
        let mut k: usize = 0;
        while k < self.lights.len()
            invariant
                self.wf(),
                color_ok(*color),
                within(p@, HALF as int),
                k <= self.lights.len(),
                acc == self.diffuse_sum(*color, *p, k as nat),
                color_ok(acc),
            decreases self.lights.len() - k,
        {
            let l = self.lights[k];
            assert(light_ok(self.lights@[k as int]));
            let term = match self.lit_exec(&l, p, self.eps_diffuse) {
                None => Color::black(),
                Some(sh) => {
                    let to_light = p.sub(&l.pos).neg();
                    let cosv = cos_between(&to_light, &sh.normal_at_surface);
                    color.mul(&l.color).scale(2 * cosv)
                },
            };
            acc = acc.add(&term);
            k = k + 1;
        }
        acc
    }

    fn specular_exec(&self, alpha: u32, p: &Vec3, view: &Vec3) -> (c: Color)
        requires
            self.wf(),
            within(p@, HALF as int),
            within(view@, LIM as int),
            view@ != (0int, 0int, 0int),
        ensures
            c == self.specular_sum(alpha as nat, *p, *view, self.lights.len() as nat),
            color_ok(c),
    {
        let mut acc = Color::black();
        let mut k: usize = 0;
        while k < self.lights.len()
            invariant
                self.wf(),
                within(p@, HALF as int),
                within(view@, LIM as int),
                view@ != (0int, 0int, 0int),
                k <= self.lights.len(),
                acc == self.specular_sum(alpha as nat, *p, *view, k as nat),
                color_ok(acc),
            decreases self.lights.len() - k,
        {
            let l = self.lights[k];
            assert(light_ok(self.lights@[k as int]));
            let term = match self.lit_exec(&l, p, self.eps_specular) {
                None => Color::black(),
                Some(sh) => {
                    let dir = p.sub(&l.pos);
                    let r = reflect(&dir, &sh.normal_at_surface);
                    let back = view.neg();
                    let cosv = cos_between(&r, &back);
                    let f = pow_exec(cosv, alpha);
                    l.color.scale(f)
                },
            };
            acc = acc.add(&term);
            k = k + 1;
        }
        acc
    }

    /// The linear color seen along `ray` with `depth` reflections left.
    pub fn appearance(&self, ray: &Ray, depth: u32) -> (c: Color)
        requires
            self.wf(),
            ray.wf(),
        ensures
            c == self.color_spec(*ray, depth as nat),
            color_ok(c),
        decreases depth, 1nat, 0nat,
    {
        match self.next_intersection(ray) {
            None => self.background,
            Some(h) => h.get_appearance(&ray.dir, self, depth),
        }
    }

    /// The eight-bit color seen along `ray` with `depth` reflections left.
    pub fn color(&self, ray: &Ray, depth: u32) -> (c: Rgb)
        requires
            self.wf(),
            ray.wf(),
        ensures
            c.r == chan_u8(self.color_spec(*ray, depth as nat).r as int),
            c.g == chan_u8(self.color_spec(*ray, depth as nat).g as int),
            c.b == chan_u8(self.color_spec(*ray, depth as nat).b as int),
    {
        self.appearance(ray, depth).to_rgb8()
    }
}

impl Intersection {
    /// What the hit primitive's shader shows here, seen along `ray_dir`.
    pub fn get_appearance(&self, ray_dir: &Vec3, world: &World, depth: u32) -> (c: Color)
        requires
            world.wf(),
            hit_ok(*self),
            self.prim < world.prims().len(),
            within(ray_dir@, LIM as int),
            ray_dir@ != (0int, 0int, 0int),
        ensures
            c == world.shade(world.prims()[self.prim as int].shader(), *self, *ray_dir, depth as nat),
            color_ok(c),
        decreases depth, 0nat, world.prims()[self.prim as int].shader().size() + 1,
    {
        assert(prim_ok(world.prims()[self.prim as int]));
        world.storage.elements[self.prim].shader_ref().get_appearance_for(self, ray_dir, world, depth)
    }

    /// The eight-bit color of `get_appearance`.
    pub fn get_color(&self, ray_dir: &Vec3, world: &World, depth: u32) -> (c: Rgb)
        requires
            world.wf(),
            hit_ok(*self),
            self.prim < world.prims().len(),
            within(ray_dir@, LIM as int),
            ray_dir@ != (0int, 0int, 0int),
        ensures
            c.r == chan_u8(world.shade(world.prims()[self.prim as int].shader(), *self, *ray_dir, depth as nat).r as int),
            c.g == chan_u8(world.shade(world.prims()[self.prim as int].shader(), *self, *ray_dir, depth as nat).g as int),
            c.b == chan_u8(world.shade(world.prims()[self.prim as int].shader(), *self, *ray_dir, depth as nat).b as int),
    {
        self.get_appearance(ray_dir, world, depth).to_rgb8()
    }
}

fn mirror_ray_exec(h: &Intersection, ray_dir: &Vec3) -> (r: Ray)
    requires
        hit_ok(*h),
        within(ray_dir@, LIM as int),
        ray_dir@ != (0int, 0int, 0int),
    ensures
        r == mirror_ray(*h, *ray_dir),
        r.wf(),
{
    let n = h.normal_at_surface;
    let off = crate::light::shrink_exec((n.x as i128, n.y as i128, n.z as i128), 2);
    let d = reflect(ray_dir, &n);
    let start = Vec3 { x: h.pos.x + off.x, y: h.pos.y + off.y, z: h.pos.z + off.z };
    Ray { start, dir: d }
}

impl Shader {
    /// The eight-bit color of `get_appearance_for`.
    pub fn get_color_for(&self, h: &Intersection, ray_dir: &Vec3, world: &World, depth: u32) -> (c: Rgb)
        requires
            world.wf(),
            self.ok(),
            hit_ok(*h),
            within(ray_dir@, LIM as int),
            ray_dir@ != (0int, 0int, 0int),
        ensures
            c.r == chan_u8(world.shade(*self, *h, *ray_dir, depth as nat).r as int),
            c.g == chan_u8(world.shade(*self, *h, *ray_dir, depth as nat).g as int),
            c.b == chan_u8(world.shade(*self, *h, *ray_dir, depth as nat).b as int),
    {
        self.get_appearance_for(h, ray_dir, world, depth).to_rgb8()
    }

    /// What this shader shows at intersection `h` seen along `ray_dir`, with
    /// `depth` reflections left.
    pub fn get_appearance_for(&self, h: &Intersection, ray_dir: &Vec3, world: &World, depth: u32) -> (c: Color)
        requires
            world.wf(),
            self.ok(),
            hit_ok(*h),
            within(ray_dir@, LIM as int),
            ray_dir@ != (0int, 0int, 0int),
        ensures
            c == world.shade(*self, *h, *ray_dir, depth as nat),
            color_ok(c),
        decreases depth, 0nat, self.size(),
    {
        match self {
            Shader::Diffuse(d) => world.diffuse_exec(&d.color, &h.pos),
            Shader::Specular(sp) => world.specular_exec(sp.alpha, &h.pos, ray_dir),
            Shader::Ambient(a) => a.color,
            Shader::Monochrome(m) => m.color,
            Shader::Chess(c) => {
                if c.picks_first(h.surface_u, h.surface_v) {
                    c.shader1.get_appearance_for(h, ray_dir, world, depth)
                } else {
                    c.shader2.get_appearance_for(h, ray_dir, world, depth)
                }
            },
            Shader::Additive(a) => {
                let c1 = a.shader1.get_appearance_for(h, ray_dir, world, depth);
                let c2 = a.shader2.get_appearance_for(h, ray_dir, world, depth);
                c1.scale(a.weight1).add(&c2.scale(a.weight2))
            },
            Shader::Multiplicative(m) => {
                let c1 = m.shader1.get_appearance_for(h, ray_dir, world, depth);
                let c2 = m.shader2.get_appearance_for(h, ray_dir, world, depth);
                c1.mul(&c2)
            },
            Shader::Mirror => {
                if depth == 0 {
                    Color::black()
                } else {
                    let r = mirror_ray_exec(h, ray_dir);
                    world.appearance(&r, depth - 1)
                }
            },
        }
    }
}

} // verus!
