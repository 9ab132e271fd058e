use vstd::prelude::*;
use crate::arith::{isqrt, isqrt_spec, lemma_mul_bound};
use crate::geom::{le3, point_in_box, v_dot, v_neg, v_sub, within, Ray, Vec3, V3, LIM};
use crate::light::{max_abs, shrink, shrink_exec, tri_view};
use crate::plane::{axis_coord, hit_bounded, hit_coord, Intersection};
use crate::shader::Shader;

verus! {

/// A sphere around `center`.
#[derive(Debug)]
pub struct Sphere {
    pub center: Vec3,
    pub radius: i64,
    pub shader: Shader,
}

impl Sphere {
    /// The sphere's box lies in `-b ..= b`.
    pub open spec fn fits(self, b: int) -> bool {
        0 <= self.radius <= LIM && within(self.lo(), b) && within(self.hi(), b)
    }

    pub open spec fn wf(self) -> bool {
        self.fits(LIM as int)
    }

    pub open spec fn lo(self) -> V3 {
        let c = self.center@;
        let r = self.radius as int;
        (c.0 - r, c.1 - r, c.2 - r)
    }

    pub open spec fn hi(self) -> V3 {
        let c = self.center@;
        let r = self.radius as int;
        (c.0 + r, c.1 + r, c.2 + r)
    }

    /// Half the linear coefficient of `|o + t d - c|^2 = r^2`, negated.
    pub open spec fn half_b(self, ray: Ray) -> int {
        v_dot(ray.dir@, v_sub(self.center@, ray.start@))
    }

    /// The discriminant of the quadratic, divided by four.
    pub open spec fn disc(self, ray: Ray) -> int {
        let w = v_sub(self.center@, ray.start@);
        let r = self.radius as int;
        self.half_b(ray) * self.half_b(ray) - v_dot(ray.dir@, ray.dir@) * (v_dot(w, w) - r * r)
    }

    /// The numerator of the nearest root that is not behind the start, over
    /// `dist_den`; the square root of the discriminant is taken as its integer
    /// square root.
    pub open spec fn dist_num(self, ray: Ray) -> int {
        let s = isqrt_spec(self.disc(ray));
        if self.half_b(ray) - s >= 0 {
            self.half_b(ray) - s
        } else {
            self.half_b(ray) + s
        }
    }

    pub open spec fn dist_den(self, ray: Ray) -> int {
        v_dot(ray.dir@, ray.dir@)
    }

    pub open spec fn hit_pos(self, ray: Ray) -> V3 {
        let o = ray.start@;
        let d = ray.dir@;
        let n = self.dist_num(ray);
        let m = self.dist_den(ray);
        (hit_coord(o.0, d.0, n, m), hit_coord(o.1, d.1, n, m), hit_coord(o.2, d.2, n, m))
    }

    /// The ray has a direction and meets the sphere ahead of its start, and the
    /// hit point lies in the sphere's box.
    pub open spec fn hits(self, ray: Ray) -> bool {
        &&& self.dist_den(ray) > 0
        &&& self.disc(ray) >= 0
        &&& self.dist_num(ray) >= 0
        &&& point_in_box(self.lo(), self.hi(), ray, self.dist_num(ray), self.dist_den(ray))
    }

    /// The exact hit point minus the center, scaled by `dist_den`.
    pub open spec fn offset(self, ray: Ray) -> V3 {
        let o = ray.start@;
        let d = ray.dir@;
        let c = self.center@;
        let n = self.dist_num(ray);
        let m = self.dist_den(ray);
        (o.0 * m + n * d.0 - c.0 * m, o.1 * m + n * d.1 - c.1 * m, o.2 * m + n * d.2 - c.2 * m)
    }

    /// The outward normal at the exact hit point, scaled so that its largest
    /// component is `LIM`; against the ray where the hit point is the center.
    pub open spec fn normal_at(self, ray: Ray) -> V3 {
        if max_abs(self.offset(ray)) == 0 {
            v_neg(ray.dir@)
        } else {
            shrink(self.offset(ray), LIM as int)
        }
    }

    /// `h` is the intersection of `ray` with this sphere, reported for primitive
    /// `prim`: the normal points from the center to the exact hit point, and the surface
    /// coordinates are zero.
    pub open spec fn is_hit(self, ray: Ray, prim: int, h: Intersection) -> bool {
        &&& h.num == self.dist_num(ray)
        &&& h.den == self.dist_den(ray)
        &&& h.pos@ == self.hit_pos(ray)
        &&& h.normal_at_surface@ == self.normal_at(ray)
        &&& h.surface_u == 0
        &&& h.surface_v == 0
        &&& h.prim == prim
    }

    pub fn get_min(&self) -> (r: Vec3)
        requires
            self.wf(),
        ensures
            r@ == self.lo(),
    {
        Vec3 { x: self.center.x - self.radius, y: self.center.y - self.radius, z: self.center.z - self.radius }
    }

    pub fn get_max(&self) -> (r: Vec3)
        requires
            self.wf(),
        ensures
            r@ == self.hi(),
    {
        Vec3 { x: self.center.x + self.radius, y: self.center.y + self.radius, z: self.center.z + self.radius }
    }

    /// Intersects the ray with the sphere; the hit is reported for primitive `prim`.
    pub fn intercept(&self, ray: &Ray, prim: usize) -> (r: Option<Intersection>)
        requires
            self.wf(),
            ray.wf(),
        ensures
            r.is_none() <==> !self.hits(*ray),
            r matches Some(h) ==> self.is_hit(*ray, prim as int, h),
            r matches Some(h) ==> hit_bounded(h) && le3(self.lo(), h.pos@) && le3(h.pos@, self.hi()),
    {
        proof {
            assert(within(self.center@, LIM as int));
        }
        let w = self.center.sub(&ray.start);
        let a = ray.dir.dot(&ray.dir);
        let b = ray.dir.dot(&w);
        let ww = w.dot(&w);
        proof {
            lemma_mul_bound(ray.dir.x as int, ray.dir.x as int, 0x8000, 0x8000);
            lemma_mul_bound(ray.dir.y as int, ray.dir.y as int, 0x8000, 0x8000);
            lemma_mul_bound(ray.dir.z as int, ray.dir.z as int, 0x8000, 0x8000);
            lemma_mul_bound(ray.dir.x as int, w.x as int, 0x8000, 0x1_0000);
            lemma_mul_bound(ray.dir.y as int, w.y as int, 0x8000, 0x1_0000);
            lemma_mul_bound(ray.dir.z as int, w.z as int, 0x8000, 0x1_0000);
            lemma_mul_bound(w.x as int, w.x as int, 0x1_0000, 0x1_0000);
            lemma_mul_bound(w.y as int, w.y as int, 0x1_0000, 0x1_0000);
            lemma_mul_bound(w.z as int, w.z as int, 0x1_0000, 0x1_0000);
            lemma_mul_bound(self.radius as int, self.radius as int, 0x8000, 0x8000);
            assert(a >= 1) by (nonlinear_arith)
                requires
                    a == ray.dir.x * ray.dir.x + ray.dir.y * ray.dir.y + ray.dir.z * ray.dir.z,
                    ray.dir.x != 0 || ray.dir.y != 0 || ray.dir.z != 0,
            ;
        }
        proof {
            assert(ww >= 0) by (nonlinear_arith)
                requires
                    ww == w.x * w.x + w.y * w.y + w.z * w.z,
            ;
        }
        let rr = (self.radius as i128) * (self.radius as i128);
        let q = ww - rr;
        proof {
            lemma_mul_bound(b as int, b as int, 0x1_8000_0000, 0x1_8000_0000);
            lemma_mul_bound(a as int, q as int, 0xc000_0000, 0x3_0000_0000);
        }
        let disc = b * b - a * q;
        if disc < 0 {
            return None;
        }
        let s = isqrt(disc as u128);
        proof {
            assert((disc as u128) as int == disc as int);
            assert(s <= 0x4_0000_0000) by {
                if s > 0x4_0000_0000 {
                    assert(s * s > 0x10_0000_0000_0000_0000) by (nonlinear_arith)
                        requires
                            s > 0x4_0000_0000,
                    ;
                }
            }
        }
        let si = s as i128;
        let num = if b - si >= 0 { b - si } else { b + si };
        if num < 0 {
            return None;
        }
        let den = a;
        let lo = self.get_min();
        let hi = self.get_max();
        let x = match axis_coord(lo.x, hi.x, ray.start.x, ray.dir.x, num, den) {
            Some(x) => x,
            None => return None,
        };
        let y = match axis_coord(lo.y, hi.y, ray.start.y, ray.dir.y, num, den) {
            Some(y) => y,
            None => return None,
        };
        let z = match axis_coord(lo.z, hi.z, ray.start.z, ray.dir.z, num, den) {
            Some(z) => z,
            None => return None,
        };
        let pos = Vec3 { x, y, z };
        proof {
            lemma_mul_bound(ray.start.x as int, den as int, 0x8000, 0xc000_0000);
            lemma_mul_bound(ray.start.y as int, den as int, 0x8000, 0xc000_0000);
            lemma_mul_bound(ray.start.z as int, den as int, 0x8000, 0xc000_0000);
            lemma_mul_bound(self.center.x as int, den as int, 0x8000, 0xc000_0000);
            lemma_mul_bound(self.center.y as int, den as int, 0x8000, 0xc000_0000);
            lemma_mul_bound(self.center.z as int, den as int, 0x8000, 0xc000_0000);
            lemma_mul_bound(num as int, ray.dir.x as int, 0x8_0000_0000, 0x8000);
            lemma_mul_bound(num as int, ray.dir.y as int, 0x8_0000_0000, 0x8000);
            lemma_mul_bound(num as int, ray.dir.z as int, 0x8_0000_0000, 0x8000);
        }
        let off = (
            (ray.start.x as i128) * den + num * (ray.dir.x as i128) - (self.center.x as i128) * den,
            (ray.start.y as i128) * den + num * (ray.dir.y as i128) - (self.center.y as i128) * den,
            (ray.start.z as i128) * den + num * (ray.dir.z as i128) - (self.center.z as i128) * den,
        );
        let normal = if off.0 == 0 && off.1 == 0 && off.2 == 0 {
            ray.dir.neg()
        } else {
            shrink_exec(off, LIM)
        };
        Some(Intersection { num, den, pos, normal_at_surface: normal, surface_u: 0, surface_v: 0, prim })
    }
}

} // verus!
