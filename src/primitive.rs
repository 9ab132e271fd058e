use vstd::prelude::*;
use crate::geom::{le3, within, within_exec, Ray, Vec3, V3, LIM};
use crate::plane::{hit_bounded, Intersection, Plane};
use crate::shader::Shader;
use crate::sphere::Sphere;

verus! {

/// A surface that rays can hit.
#[derive(Debug)]
pub enum Primitive {
    Plane(Plane),
    Sphere(Sphere),
}

impl Primitive {
    /// The primitive's defining points lie in `-b ..= b`.
    pub open spec fn fits(self, b: int) -> bool {
        match self {
            Primitive::Plane(p) => within(p.a@, b) && within(p.b@, b) && within(p.c@, b),
            Primitive::Sphere(s) => s.fits(b),
        }
    }

    pub open spec fn wf(self) -> bool {
        self.fits(LIM as int)
    }

    pub open spec fn shader(self) -> Shader {
        match self {
            Primitive::Plane(p) => p.shader,
            Primitive::Sphere(s) => s.shader,
        }
    }

    pub open spec fn lo(self) -> V3 {
        match self {
            Primitive::Plane(p) => p.lo(),
            Primitive::Sphere(s) => s.lo(),
        }
    }

    pub open spec fn hi(self) -> V3 {
        match self {
            Primitive::Plane(p) => p.hi(),
            Primitive::Sphere(s) => s.hi(),
        }
    }

    pub open spec fn hits(self, ray: Ray) -> bool {
        match self {
            Primitive::Plane(p) => p.hits(ray),
            Primitive::Sphere(s) => s.hits(ray),
        }
    }

    pub open spec fn dist_num(self, ray: Ray) -> int {
        match self {
            Primitive::Plane(p) => p.dist_num(ray),
            Primitive::Sphere(s) => s.dist_num(ray),
        }
    }

    pub open spec fn dist_den(self, ray: Ray) -> int {
        match self {
            Primitive::Plane(p) => p.dist_den(ray),
            Primitive::Sphere(s) => s.dist_den(ray),
        }
    }

    pub open spec fn is_hit(self, ray: Ray, prim: int, h: Intersection) -> bool {
        match self {
            Primitive::Plane(p) => p.is_hit(ray, prim, h),
            Primitive::Sphere(s) => s.is_hit(ray, prim, h),
        }
    }

    /// Whether the defining points lie in `-b ..= b`.
    pub fn fits_exec(&self, b: i64) -> (r: bool)
        requires
            0 <= b <= LIM,
        ensures
            r == self.fits(b as int),
    {
        match self {
            Primitive::Plane(p) => within_exec(&p.a, b) && within_exec(&p.b, b) && within_exec(&p.c, b),
            Primitive::Sphere(s) => {
                if s.radius < 0 || s.radius > LIM || !within_exec(&s.center, LIM) {
                    return false;
                }
                let c = s.center;
                let r = s.radius;
                -b <= c.x - r && c.x + r <= b && -b <= c.y - r && c.y + r <= b && -b <= c.z - r && c.z + r <= b
            },
        }
    }

    pub fn shader_ref(&self) -> (r: &Shader)
        ensures
            *r == self.shader(),
    {
        match self {
            Primitive::Plane(p) => &p.shader,
            Primitive::Sphere(s) => &s.shader,
        }
    }

    /// The least corner of the primitive's bounding box.
    pub fn get_min(&self) -> (r: Vec3)
        requires
            self.wf(),
        ensures
            r@ == self.lo(),
    {
        match self {
            Primitive::Plane(p) => p.get_min(),
            Primitive::Sphere(s) => s.get_min(),
        }
    }

    /// The greatest corner of the primitive's bounding box.
    pub fn get_max(&self) -> (r: Vec3)
        requires
            self.wf(),
        ensures
            r@ == self.hi(),
    {
        match self {
            Primitive::Plane(p) => p.get_max(),
            Primitive::Sphere(s) => s.get_max(),
        }
    }

    /// Intersects the ray with the primitive; the hit is reported for primitive `prim`.
    pub fn intercept(&self, ray: &Ray, prim: usize) -> (r: Option<Intersection>)
        requires
            self.wf(),
            ray.wf(),
        ensures
            r.is_none() <==> !self.hits(*ray),
            r matches Some(h) ==> self.is_hit(*ray, prim as int, h),
            r matches Some(h) ==> hit_bounded(h) && le3(self.lo(), h.pos@) && le3(h.pos@, self.hi()),
    {
        match self {
            Primitive::Plane(p) => p.intercept(ray, prim),
            Primitive::Sphere(s) => s.intercept(ray, prim),
        }
    }
}

} // verus!
