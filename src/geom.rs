use vstd::prelude::*;
use crate::arith::lemma_mul_bound;

verus! {

/// Largest magnitude of a lattice coordinate of a scene point or of a ray direction.
pub const LIM: i64 = 32768;

/// Lattice steps per unit of length in a scene.
pub const UNIT: i64 = 256;

/// Bound on the components that the vector operations accept.
pub const B40: i64 = 0x100_0000_0000;


/// A vector on the integer lattice.
#[derive(Clone, Copy, Debug, PartialEq, Eq, Structural)]
pub struct Vec3 {
    pub x: i64,
    pub y: i64,
    pub z: i64,
}

pub type V3 = (int, int, int);

impl View for Vec3 {
    type V = V3;

    open spec fn view(&self) -> V3 {
        (self.x as int, self.y as int, self.z as int)
    }
}

pub open spec fn within(a: V3, b: int) -> bool {
    -b <= a.0 <= b && -b <= a.1 <= b && -b <= a.2 <= b
}

pub open spec fn v_sub(a: V3, b: V3) -> V3 {
    (a.0 - b.0, a.1 - b.1, a.2 - b.2)
}

pub open spec fn v_neg(a: V3) -> V3 {
    (-a.0, -a.1, -a.2)
}

pub open spec fn v_dot(a: V3, b: V3) -> int {
    a.0 * b.0 + a.1 * b.1 + a.2 * b.2
}

pub open spec fn v_cross(a: V3, b: V3) -> V3 {
    (a.1 * b.2 - a.2 * b.1, a.2 * b.0 - a.0 * b.2, a.0 * b.1 - a.1 * b.0)
}

pub open spec fn v_min(a: V3, b: V3) -> V3 {
    (
        if a.0 <= b.0 { a.0 } else { b.0 },
        if a.1 <= b.1 { a.1 } else { b.1 },
        if a.2 <= b.2 { a.2 } else { b.2 },
    )
}

pub open spec fn v_max(a: V3, b: V3) -> V3 {
    (
        if a.0 >= b.0 { a.0 } else { b.0 },
        if a.1 >= b.1 { a.1 } else { b.1 },
        if a.2 >= b.2 { a.2 } else { b.2 },
    )
}

/// Component `k` (0, 1 or 2) of a vector.
pub open spec fn comp(a: V3, k: int) -> int {
    if k == 0 {
        a.0
    } else if k == 1 {
        a.1
    } else {
        a.2
    }
}

pub open spec fn le3(a: V3, b: V3) -> bool {
    a.0 <= b.0 && a.1 <= b.1 && a.2 <= b.2
}

impl Vec3 {
    pub fn new(x: i64, y: i64, z: i64) -> (r: Vec3)
        ensures
            r@ == (x as int, y as int, z as int),
    {
        Vec3 { x, y, z }
    }

    pub fn sub(&self, o: &Vec3) -> (r: Vec3)
        requires
            within(self@, B40 as int),
            within(o@, B40 as int),
        ensures
            r@ == v_sub(self@, o@),
    {
        Vec3 { x: self.x - o.x, y: self.y - o.y, z: self.z - o.z }
    }

    pub fn neg(&self) -> (r: Vec3)
        requires
            within(self@, B40 as int),
        ensures
            r@ == v_neg(self@),
    {
        Vec3 { x: -self.x, y: -self.y, z: -self.z }
    }

    pub fn dot(&self, o: &Vec3) -> (r: i128)
        requires
            within(self@, B40 as int),
            within(o@, B40 as int),
        ensures
            r == v_dot(self@, o@),
    {
        proof {
            let b = B40 as int;
            lemma_mul_bound(self.x as int, o.x as int, b, b);
            lemma_mul_bound(self.y as int, o.y as int, b, b);
            lemma_mul_bound(self.z as int, o.z as int, b, b);
        }
        (self.x as i128) * (o.x as i128) + (self.y as i128) * (o.y as i128) + (self.z as i128) * (
        o.z as i128)
    }

    pub fn cross(&self, o: &Vec3) -> (r: Vec3)
        requires
            within(self@, 2 * LIM as int),
            within(o@, 2 * LIM as int),
        ensures
            r@ == v_cross(self@, o@),
            within(r@, 0x2_0000_0000),
    {
        proof {
            let b = 0x1_0000;
            lemma_mul_bound(self.x as int, o.y as int, b, b);
            lemma_mul_bound(self.x as int, o.z as int, b, b);
            lemma_mul_bound(self.y as int, o.x as int, b, b);
            lemma_mul_bound(self.y as int, o.z as int, b, b);
            lemma_mul_bound(self.z as int, o.x as int, b, b);
            lemma_mul_bound(self.z as int, o.y as int, b, b);
        }
        Vec3 {
            x: self.y * o.z - self.z * o.y,
            y: self.z * o.x - self.x * o.z,
            z: self.x * o.y - self.y * o.x,
        }
    }

    pub fn min(&self, o: &Vec3) -> (r: Vec3)
        ensures
            r@ == v_min(self@, o@),
    {
        Vec3 {
            x: if self.x <= o.x { self.x } else { o.x },
            y: if self.y <= o.y { self.y } else { o.y },
            z: if self.z <= o.z { self.z } else { o.z },
        }
    }

    pub fn max(&self, o: &Vec3) -> (r: Vec3)
        ensures
            r@ == v_max(self@, o@),
    {
        Vec3 {
            x: if self.x >= o.x { self.x } else { o.x },
            y: if self.y >= o.y { self.y } else { o.y },
            z: if self.z >= o.z { self.z } else { o.z },
        }
    }

    pub fn get(&self, k: usize) -> (r: i64)
        requires
            k < 3,
        ensures
            r == comp(self@, k as int),
    {
        if k == 0 {
            self.x
        } else if k == 1 {
            self.y
        } else {
            self.z
        }
    }
}

/// A ray: a start point and a direction, both on the lattice.
///
/// The direction need not have unit length: distances along the ray are
/// measured in multiples of the direction vector.
#[derive(Clone, Copy, Debug, PartialEq, Eq, Structural)]
pub struct Ray {
    pub start: Vec3,
    pub dir: Vec3,
}

pub fn within_exec(v: &Vec3, b: i64) -> (r: bool)
    requires
        b >= 0,
    ensures
        r == within(v@, b as int),
{
    -b <= v.x && v.x <= b && -b <= v.y && v.y <= b && -b <= v.z && v.z <= b
}

impl Ray {
    pub open spec fn wf(self) -> bool {
        within(self.start@, LIM as int) && within(self.dir@, LIM as int) && self.dir@ != (0int, 0int, 0int)
    }

    /// The ray from `start` along `dir`, if both are on the lattice's range and
    /// `dir` is not zero.
    pub fn new(start: Vec3, dir: Vec3) -> (r: Option<Ray>)
        ensures
            r.is_some() == (Ray { start, dir }).wf(),
            r matches Some(ray) ==> ray == (Ray { start, dir }),
    {
        if within_exec(&start, LIM) && within_exec(&dir, LIM) && !(dir.x == 0 && dir.y == 0 && dir.z == 0) {
            Some(Ray { start, dir })
        } else {
            None
        }
    }
}

/// The point `o + (num / den) * d` lies within `[lo, hi]` on one axis.
pub open spec fn in_slab(lo: int, hi: int, o: int, d: int, num: int, den: int) -> bool {
    lo * den <= o * den + num * d <= hi * den
}

/// The point at distance `num / den` along the ray lies in the box `[lo, hi]`.
pub open spec fn point_in_box(lo: V3, hi: V3, ray: Ray, num: int, den: int) -> bool {
    let o = ray.start@;
    let d = ray.dir@;
    in_slab(lo.0, hi.0, o.0, d.0, num, den) && in_slab(lo.1, hi.1, o.1, d.1, num, den)
        && in_slab(lo.2, hi.2, o.2, d.2, num, den)
}

/// An axis-aligned box.
#[derive(Clone, Copy, Debug, PartialEq, Eq, Structural)]
pub struct Aabb {
    pub min: Vec3,
    pub max: Vec3,
}

/// Entry bound of the ray's parameter interval on one axis, as a numerator over `|d|`.
pub open spec fn slab_lo(lo: int, hi: int, o: int, d: int) -> int {
    if d > 0 {
        lo - o
    } else {
        o - hi
    }
}

/// Exit bound of the ray's parameter interval on one axis, as a numerator over `|d|`.
pub open spec fn slab_hi(lo: int, hi: int, o: int, d: int) -> int {
    if d > 0 {
        hi - o
    } else {
        o - lo
    }
}

pub open spec fn abs(d: int) -> int {
    if d >= 0 {
        d
    } else {
        -d
    }
}

/// The entry bound on one axis is at most the exit bound on another; an axis the
/// ray runs parallel to bounds nothing but must hold the start point.
pub open spec fn slabs_meet(lo: V3, hi: V3, o: V3, d: V3, i: int, j: int) -> bool {
    let di = comp(d, i);
    let dj = comp(d, j);
    (di == 0 ==> comp(lo, i) <= comp(o, i) <= comp(hi, i)) && (di != 0 && dj != 0 ==> slab_lo(
        comp(lo, i),
        comp(hi, i),
        comp(o, i),
        di,
    ) * abs(dj) <= slab_hi(comp(lo, j), comp(hi, j), comp(o, j), dj) * abs(di))
}

impl Aabb {
    pub open spec fn wf(self) -> bool {
        within(self.min@, LIM as int) && within(self.max@, LIM as int) && le3(self.min@, self.max@)
    }

    pub open spec fn encloses(self, lo: V3, hi: V3) -> bool {
        le3(self.min@, lo) && le3(hi, self.max@)
    }

    /// The slab test: the largest entry parameter over the three axes is at most
    /// the smallest exit parameter. A direction component of zero leaves that axis
    /// unbounded when the start lies between the faces, and empty otherwise.
    pub open spec fn slab_hit(self, ray: Ray) -> bool {
        forall|i: int, j: int|
            0 <= i < 3 && 0 <= j < 3 ==> #[trigger] slabs_meet(
                self.min@,
                self.max@,
                ray.start@,
                ray.dir@,
                i,
                j,
            )
    }

    fn meets(&self, ray: &Ray, i: usize, j: usize) -> (r: bool)
        requires
            self.wf(),
            ray.wf(),
            i < 3,
            j < 3,
        ensures
            r == slabs_meet(self.min@, self.max@, ray.start@, ray.dir@, i as int, j as int),
    {
        let lo_i = self.min.get(i);
        let hi_i = self.max.get(i);
        let o_i = ray.start.get(i);
        let d_i = ray.dir.get(i);
        let lo_j = self.min.get(j);
        let hi_j = self.max.get(j);
        let o_j = ray.start.get(j);
        let d_j = ray.dir.get(j);
        if d_i == 0 {
            return lo_i <= o_i && o_i <= hi_i;
        }
        if d_j == 0 {
            return true;
        }
        let a: i64 = if d_i > 0 { lo_i - o_i } else { o_i - hi_i };
        let b: i64 = if d_j > 0 { hi_j - o_j } else { o_j - lo_j };
        let ad_i: i64 = if d_i > 0 { d_i } else { -d_i };
        let ad_j: i64 = if d_j > 0 { d_j } else { -d_j };
        proof {
            lemma_mul_bound(a as int, ad_j as int, 2 * LIM as int, LIM as int);
            lemma_mul_bound(b as int, ad_i as int, 2 * LIM as int, LIM as int);
        }
        a * ad_j <= b * ad_i
    }

    /// Whether the ray's line passes through the box (the slab test).
    pub fn intersects(&self, ray: &Ray) -> (r: bool)
        requires
            self.wf(),
            ray.wf(),
        ensures
            r == self.slab_hit(*ray),
    {
        let mut i: usize = 0;
        while i < 3
            invariant
                self.wf(),
                ray.wf(),
                i <= 3,
                forall|a: int, b: int|
                    0 <= a < i && 0 <= b < 3 ==> #[trigger] slabs_meet(
                        self.min@,
                        self.max@,
                        ray.start@,
                        ray.dir@,
                        a,
                        b,
                    ),
            decreases 3 - i,
        {
            let mut j: usize = 0;
            while j < 3
                invariant
                    self.wf(),
                    ray.wf(),
                    i < 3,
                    j <= 3,
                    forall|a: int, b: int|
                        0 <= a < i && 0 <= b < 3 ==> #[trigger] slabs_meet(
                            self.min@,
                            self.max@,
                            ray.start@,
                            ray.dir@,
                            a,
                            b,
                        ),
                    forall|b: int|
                        0 <= b < j ==> #[trigger] slabs_meet(
                            self.min@,
                            self.max@,
                            ray.start@,
                            ray.dir@,
                            i as int,
                            b,
                        ),
                decreases 3 - j,
            {
                if !self.meets(ray, i, j) {
                    return false;
                }
                j = j + 1;
            }
            i = i + 1;
        }
        true
    }
}

proof fn lemma_axis(lo: int, hi: int, o: int, d: int, num: int, den: int)
    requires
        den > 0,
        in_slab(lo, hi, o, d, num, den),
    ensures
        d == 0 ==> lo <= o <= hi,
        d != 0 ==> slab_lo(lo, hi, o, d) * den <= num * abs(d),
        d != 0 ==> num * abs(d) <= slab_hi(lo, hi, o, d) * den,
{
    if d == 0 {
        assert(lo <= o <= hi) by (nonlinear_arith)
            requires
                den > 0,
                lo * den <= o * den + num * d <= hi * den,
                d == 0,
        ;
    } else if d > 0 {
        assert((lo - o) * den == lo * den - o * den) by (nonlinear_arith);
        assert((hi - o) * den == hi * den - o * den) by (nonlinear_arith);
    } else {
        assert((o - hi) * den == o * den - hi * den) by (nonlinear_arith);
        assert((o - lo) * den == o * den - lo * den) by (nonlinear_arith);
        assert(num * (-d) == -(num * d)) by (nonlinear_arith);
    }
}

proof fn lemma_pair(a: int, b: int, n: int, den: int, di: int, dj: int)
    requires
        den > 0,
        di > 0,
        dj > 0,
        a * den <= n * di,
        n * dj <= b * den,
    ensures
        a * dj <= b * di,
{
    assert(a * dj <= b * di) by (nonlinear_arith)
        requires
            den > 0,
            di > 0,
            dj > 0,
            a * den <= n * di,
            n * dj <= b * den,
    ;
}

/// A box that holds some point of a ray's line passes the slab test.
pub proof fn lemma_point_passes_slab_test(b: Aabb, ray: Ray, num: int, den: int)
    requires
        den > 0,
        point_in_box(b.min@, b.max@, ray, num, den),
    ensures
        b.slab_hit(ray),
{
    let lo = b.min@;
    let hi = b.max@;
    let o = ray.start@;
    let d = ray.dir@;
    assert forall|i: int| 0 <= i < 3 implies in_slab(
        comp(lo, i),
        comp(hi, i),
        comp(o, i),
        comp(d, i),
        num,
        den,
    ) by {}
    assert forall|i: int, j: int| 0 <= i < 3 && 0 <= j < 3 implies #[trigger] slabs_meet(
        lo,
        hi,
        o,
        d,
        i,
        j,
    ) by {
        lemma_axis(comp(lo, i), comp(hi, i), comp(o, i), comp(d, i), num, den);
        lemma_axis(comp(lo, j), comp(hi, j), comp(o, j), comp(d, j), num, den);
        if comp(d, i) != 0 && comp(d, j) != 0 {
            lemma_pair(
                slab_lo(comp(lo, i), comp(hi, i), comp(o, i), comp(d, i)),
                slab_hi(comp(lo, j), comp(hi, j), comp(o, j), comp(d, j)),
                num,
                den,
                abs(comp(d, i)),
                abs(comp(d, j)),
            );
        }
    }
}

/// A point inside an inner box is inside every box that encloses it.
pub proof fn lemma_point_in_larger_box(lo: V3, hi: V3, lo2: V3, hi2: V3, ray: Ray, num: int, den: int)
    requires
        den > 0,
        point_in_box(lo, hi, ray, num, den),
        le3(lo2, lo),
        le3(hi, hi2),
    ensures
        point_in_box(lo2, hi2, ray, num, den),
{
    assert(lo2.0 * den <= lo.0 * den && hi.0 * den <= hi2.0 * den) by (nonlinear_arith)
        requires
            den > 0,
            lo2.0 <= lo.0,
            hi.0 <= hi2.0,
    ;
    assert(lo2.1 * den <= lo.1 * den && hi.1 * den <= hi2.1 * den) by (nonlinear_arith)
        requires
            den > 0,
            lo2.1 <= lo.1,
            hi.1 <= hi2.1,
    ;
    assert(lo2.2 * den <= lo.2 * den && hi.2 * den <= hi2.2 * den) by (nonlinear_arith)
        requires
            den > 0,
            lo2.2 <= lo.2,
            hi.2 <= hi2.2,
    ;
}

} // verus!
