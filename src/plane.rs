use vstd::prelude::*;
use vstd::arithmetic::div_mod::{lemma_div_is_ordered, lemma_div_multiples_vanish};
use crate::arith::{floor_div, lemma_div_bound, isqrt, isqrt_spec, is_isqrt, lemma_mul_bound};
use crate::geom::{abs, le3, in_slab, point_in_box, v_cross, v_dot, v_min, v_max, v_neg, v_sub, within, Ray, Vec3, V3, LIM};
use crate::shader::Shader;

verus! {

/// The result of a successful ray test.
///
/// The hit lies at distance `num / den` along the ray (in multiples of its
/// direction). `pos` is the hit point rounded down to the lattice,
/// `normal_at_surface` faces the incoming ray (not of unit length), the surface
/// coordinates place the hit on the surface, and `prim` names the primitive whose
/// shader colors it.
#[derive(Clone, Copy, Debug, PartialEq, Eq, Structural)]
pub struct Intersection {
    pub num: i128,
    pub den: i128,
    pub pos: Vec3,
    pub normal_at_surface: Vec3,
    pub surface_u: i64,
    pub surface_v: i64,
    pub prim: usize,
}

/// A planar patch: the part of the plane through `a`, `b` and `c` that lies in
/// the bounding box of the three points.
#[derive(Debug)]
pub struct Plane {
    pub a: Vec3,
    pub b: Vec3,
    pub c: Vec3,
    pub shader: Shader,
}

/// The ranges that every intersection of a well-formed patch stays in.
pub open spec fn hit_bounded(h: Intersection) -> bool {
    &&& 0 <= h.num <= 0x6_0000_0000_0000
    &&& 0 < h.den <= 0x3_0000_0000_0000
    &&& within(h.normal_at_surface@, 0x2_0000_0000)
    &&& h.normal_at_surface@ != (0int, 0int, 0int)
    &&& -0x3_0000_0000 <= h.surface_u <= 0x3_0000_0000
    &&& -0x3_0000_0000 <= h.surface_v <= 0x3_0000_0000
}

/// Floor of `(o * den + num * d) / den`: one coordinate of the hit point.
pub open spec fn hit_coord(o: int, d: int, num: int, den: int) -> int {
    (o * den + num * d) / den
}

/// Floor of the projection of `w` onto the direction of `e`, with the length of
/// `e` taken as its integer square root.
pub open spec fn project(w: V3, e: V3) -> int {
    v_dot(w, e) / isqrt_spec(v_dot(e, e))
}

impl Plane {
    pub open spec fn wf(self) -> bool {
        within(self.a@, LIM as int) && within(self.b@, LIM as int) && within(self.c@, LIM as int)
    }

    pub open spec fn edge1(self) -> V3 {
        v_sub(self.a@, self.b@)
    }

    pub open spec fn edge2(self) -> V3 {
        v_sub(self.a@, self.c@)
    }

    pub open spec fn normal(self) -> V3 {
        v_cross(self.edge1(), self.edge2())
    }

    /// How fast the ray approaches the plane, along the normal.
    pub open spec fn convergence(self, ray: Ray) -> int {
        v_dot(ray.dir@, self.normal())
    }

    pub open spec fn offset(self, ray: Ray) -> int {
        v_dot(self.normal(), v_sub(self.a@, ray.start@))
    }

    pub open spec fn dist_num(self, ray: Ray) -> int {
        if self.convergence(ray) > 0 {
            self.offset(ray)
        } else {
            -self.offset(ray)
        }
    }

    pub open spec fn dist_den(self, ray: Ray) -> int {
        abs(self.convergence(ray))
    }

    pub open spec fn lo(self) -> V3 {
        v_min(self.a@, v_min(self.b@, self.c@))
    }

    pub open spec fn hi(self) -> V3 {
        v_max(self.a@, v_max(self.b@, self.c@))
    }

    /// The ray meets the patch: it is not parallel to the plane, the hit is not
    /// behind its start, and the hit point lies in the patch's box.
    pub open spec fn hits(self, ray: Ray) -> bool {
        self.convergence(ray) != 0 && self.dist_num(ray) >= 0 && point_in_box(
            self.lo(),
            self.hi(),
            ray,
            self.dist_num(ray),
            self.dist_den(ray),
        )
    }

    pub open spec fn hit_pos(self, ray: Ray) -> V3 {
        let o = ray.start@;
        let d = ray.dir@;
        let n = self.dist_num(ray);
        let m = self.dist_den(ray);
        (hit_coord(o.0, d.0, n, m), hit_coord(o.1, d.1, n, m), hit_coord(o.2, d.2, n, m))
    }

    pub open spec fn facing_normal(self, ray: Ray) -> V3 {
        if self.convergence(ray) > 0 {
            v_neg(self.normal())
        } else {
            self.normal()
        }
    }

    /// `h` is the intersection of `ray` with this patch, reported for primitive `prim`.
    pub open spec fn is_hit(self, ray: Ray, prim: int, h: Intersection) -> bool {
        &&& h.num == self.dist_num(ray)
        &&& h.den == self.dist_den(ray)
        &&& h.pos@ == self.hit_pos(ray)
        &&& h.normal_at_surface@ == self.facing_normal(ray)
        &&& h.surface_u == project(v_sub(self.a@, self.hit_pos(ray)), self.edge1())
        &&& h.surface_v == project(v_sub(self.a@, self.hit_pos(ray)), self.edge2())
        &&& h.prim == prim
    }

    /// The least corner of the patch's bounding box.
    pub fn get_min(&self) -> (r: Vec3)
        ensures
            r@ == self.lo(),
    {
        self.a.min(&self.b.min(&self.c))
    }

    /// The greatest corner of the patch's bounding box.
    pub fn get_max(&self) -> (r: Vec3)
        ensures
            r@ == self.hi(),
    {
        self.a.max(&self.b.max(&self.c))
    }

    /// Intersects the ray with the patch; the hit is reported for primitive `prim`.
    pub fn intercept(&self, ray: &Ray, prim: usize) -> (r: Option<Intersection>)
        requires
            self.wf(),
            ray.wf(),
        ensures
            r.is_none() <==> !self.hits(*ray),
            r matches Some(h) ==> self.is_hit(*ray, prim as int, h),
            r matches Some(h) ==> hit_bounded(h) && le3(self.lo(), h.pos@) && le3(h.pos@, self.hi()),
    {
        let e1 = self.a.sub(&self.b);
        let e2 = self.a.sub(&self.c);
        let n = e1.cross(&e2);
        let conv = ray.dir.dot(&n);
        if conv == 0 {
            return None;
        }
        let w = self.a.sub(&ray.start);
        let offset = n.dot(&w);
        proof {
            lemma_mul_bound(ray.dir.x as int, n.x as int, 0x8000, 0x2_0000_0000);
            lemma_mul_bound(ray.dir.y as int, n.y as int, 0x8000, 0x2_0000_0000);
            lemma_mul_bound(ray.dir.z as int, n.z as int, 0x8000, 0x2_0000_0000);
            lemma_mul_bound(n.x as int, w.x as int, 0x2_0000_0000, 0x1_0000);
            lemma_mul_bound(n.y as int, w.y as int, 0x2_0000_0000, 0x1_0000);
            lemma_mul_bound(n.z as int, w.z as int, 0x2_0000_0000, 0x1_0000);
        }
        let num: i128 = if conv > 0 { offset } else { -offset };
        let den: i128 = if conv > 0 { conv } else { -conv };
        if num < 0 {
            return None;
        }
        let lo = self.get_min();
        let hi = self.get_max();
        let x = match axis_coord(lo.x, hi.x, ray.start.x, ray.dir.x, num, den) {
            Some(x) => x,
            None => return None,
        };
        let y = match axis_coord(lo.y, hi.y, ray.start.y, ray.dir.y, num, den) {
            Some(y) => y,
            None => return None,
        };
        let z = match axis_coord(lo.z, hi.z, ray.start.z, ray.dir.z, num, den) {
            Some(z) => z,
            None => return None,
        };
        let pos = Vec3 { x, y, z };
        let normal = if conv > 0 { n.neg() } else { n };
        let to_hit = self.a.sub(&pos);
        proof {
            assert(n@ == (0int, 0int, 0int) ==> v_dot(ray.dir@, n@) == 0) by (nonlinear_arith);
            lemma_nonzero_edges(e1@, e2@);
        }
        let u = surface_coord(&to_hit, &e1);
        let v = surface_coord(&to_hit, &e2);
        Some(Intersection { num, den, pos, normal_at_surface: normal, surface_u: u, surface_v: v, prim })
    }
}

/// One coordinate of the hit point, if it lies between `lo` and `hi`.
pub fn axis_coord(lo: i64, hi: i64, o: i64, d: i64, num: i128, den: i128) -> (r: Option<i64>)
    requires
        -LIM <= lo <= LIM,
        -LIM <= hi <= LIM,
        -LIM <= o <= LIM,
        -LIM <= d <= LIM,
        0 <= num <= 0x6_0000_0000_0000,
        0 < den <= 0x3_0000_0000_0000,
    ensures
        r.is_some() == in_slab(lo as int, hi as int, o as int, d as int, num as int, den as int),
        r matches Some(p) ==> p == hit_coord(o as int, d as int, num as int, den as int) && lo <= p
            <= hi,
{
    proof {
        lemma_mul_bound(o as int, den as int, 0x8000, 0x3_0000_0000_0000);
        lemma_mul_bound(num as int, d as int, 0x6_0000_0000_0000, 0x8000);
        lemma_mul_bound(lo as int, den as int, 0x8000, 0x3_0000_0000_0000);
        lemma_mul_bound(hi as int, den as int, 0x8000, 0x3_0000_0000_0000);
    }
    let q = (o as i128) * den + num * (d as i128);
    let lo_d = (lo as i128) * den;
    let hi_d = (hi as i128) * den;
    if q < lo_d || q > hi_d {
        return None;
    }
    let p = floor_div(q, den);
    proof {
        lemma_div_multiples_vanish(lo as int, den as int);
        lemma_div_multiples_vanish(hi as int, den as int);
        assert((lo as int) * (den as int) == (den as int) * (lo as int)) by (nonlinear_arith);
        assert((hi as int) * (den as int) == (den as int) * (hi as int)) by (nonlinear_arith);
        lemma_div_is_ordered(den * lo, q as int, den as int);
        lemma_div_is_ordered(q as int, den * hi, den as int);
    }
    Some(p as i64)
}

proof fn lemma_nonzero_edges(e1: V3, e2: V3)
    requires
        v_cross(e1, e2) != (0int, 0int, 0int),
    ensures
        e1 != (0int, 0int, 0int),
        e2 != (0int, 0int, 0int),
{
    assert(e1 == (0int, 0int, 0int) ==> v_cross(e1, e2) == (0int, 0int, 0int)) by (nonlinear_arith);
    assert(e2 == (0int, 0int, 0int) ==> v_cross(e1, e2) == (0int, 0int, 0int)) by (nonlinear_arith);
}

proof fn lemma_square_positive(e: V3)
    requires
        e != (0int, 0int, 0int),
    ensures
        v_dot(e, e) >= 1,
{
    assert(v_dot(e, e) >= 1) by (nonlinear_arith)
        requires
            e.0 != 0 || e.1 != 0 || e.2 != 0,
    ;
}

/// Projection of `w` onto the direction of the nonzero edge `e`, rounded down.
fn surface_coord(w: &Vec3, e: &Vec3) -> (r: i64)
    requires
        within(w@, 2 * LIM as int),
        within(e@, 2 * LIM as int),
        e@ != (0int, 0int, 0int),
    ensures
        r == project(w@, e@),
        -0x3_0000_0000 <= r <= 0x3_0000_0000,
{
    proof {
        lemma_square_positive(e@);
        let b = 0x1_0000;
        lemma_mul_bound(e.x as int, e.x as int, b, b);
        lemma_mul_bound(e.y as int, e.y as int, b, b);
        lemma_mul_bound(e.z as int, e.z as int, b, b);
        lemma_mul_bound(w.x as int, e.x as int, b, b);
        lemma_mul_bound(w.y as int, e.y as int, b, b);
        lemma_mul_bound(w.z as int, e.z as int, b, b);
    }
    let len2 = e.dot(e);
    let len = isqrt(len2 as u128);
    proof {
        assert(len2 >= 1);
        assert((len2 as u128) as int == len2 as int);
        assert(is_isqrt(len2 as int, len as int));
        assert(len >= 1) by {
            if len == 0 {
                assert(0int * 0int <= len2 < (0int + 1) * (0int + 1));
            }
        }
        assert(len as int == isqrt_spec(v_dot(e@, e@)));
        assert(len <= len * len) by (nonlinear_arith)
            requires
                len >= 1,
        ;
    }
    let d = w.dot(e);
    let q = floor_div(d, len as i128);
    proof {
        lemma_div_bound(d as int, len as int, 0x3_0000_0000);
    }
    q as i64
}

} // verus!
