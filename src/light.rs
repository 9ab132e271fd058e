use vstd::prelude::*;
use vstd::arithmetic::div_mod::{lemma_div_is_ordered, lemma_div_multiples_vanish};
use crate::arith::{floor_div, isqrt, isqrt_spec, lemma_div_bound, lemma_mul_bound};
use crate::geom::{abs, v_dot, v_sub, within, Vec3, V3, LIM};
use crate::shader::ONE;

verus! {

pub open spec fn v_scale(v: V3, k: int) -> V3 {
    (v.0 * k, v.1 * k, v.2 * k)
}

pub open spec fn max_abs(v: V3) -> int {
    let a = abs(v.0);
    let b = abs(v.1);
    let c = abs(v.2);
    if a >= b && a >= c {
        a
    } else if b >= c {
        b
    } else {
        c
    }
}

/// `v` scaled so that its largest component has magnitude `len`, rounded down.
pub open spec fn shrink(v: V3, len: int) -> V3 {
    let m = max_abs(v);
    (v.0 * len / m, v.1 * len / m, v.2 * len / m)
}

/// The mirror image of direction `d` about the plane with normal `n`, scaled by
/// the squared length of `n`.
pub open spec fn reflect_full(d: V3, n: V3) -> V3 {
    v_sub(v_scale(d, v_dot(n, n)), v_scale(n, 2 * v_dot(d, n)))
}

/// The mirror image of `d` about the plane with normal `n`, as a lattice
/// direction whose largest component is `LIM` in magnitude.
pub open spec fn reflect_dir(d: V3, n: V3) -> V3 {
    if max_abs(reflect_full(d, n)) == 0 {
        d
    } else {
        shrink(reflect_full(d, n), LIM as int)
    }
}

/// The cosine of the angle between `a` and `b` in fixed point, rounded down:
/// `0` for angles of ninety degrees or more, else between `1` and `ONE`, so that
/// a light at a grazing angle still counts.
pub open spec fn cos_fixed(a: V3, b: V3) -> int {
    if v_dot(a, b) <= 0 {
        0
    } else {
        let c = (ONE as int) * v_dot(a, b) / isqrt_spec(v_dot(a, a) * v_dot(b, b));
        if c > ONE as int {
            ONE as int
        } else if c < 1 {
            1
        } else {
            c
        }
    }
}

/// `x` to the power `k` in fixed point, rounding down after each product.
pub open spec fn pow_fixed(x: int, k: nat) -> int
    decreases k,
{
    if k == 0 {
        ONE as int
    } else {
        pow_fixed(x, (k - 1) as nat) * x / (ONE as int)
    }
}

pub open spec fn tri_within(v: (i128, i128, i128), b: int) -> bool {
    -b <= v.0 <= b && -b <= v.1 <= b && -b <= v.2 <= b
}

pub open spec fn tri_view(v: (i128, i128, i128)) -> V3 {
    (v.0 as int, v.1 as int, v.2 as int)
}

fn abs128(x: i128) -> (r: i128)
    requires
        x > i128::MIN,
    ensures
        r == abs(x as int),
{
    if x >= 0 {
        x
    } else {
        -x
    }
}

proof fn lemma_shrink_coord(x: int, m: int, len: int)
    requires
        m > 0,
        -m <= x <= m,
        1 <= len,
    ensures
        -len <= x * len / m <= len,
        x == m ==> x * len / m == len,
        x == -m ==> x * len / m == -len,
{
    assert(-(m * len) <= x * len <= m * len) by (nonlinear_arith)
        requires
            -m <= x <= m,
            1 <= len,
    ;
    lemma_div_multiples_vanish(len, m);
    lemma_div_multiples_vanish(-len, m);
    assert(m * len == len * m) by (nonlinear_arith);
    assert(-(m * len) == m * (-len)) by (nonlinear_arith);
    lemma_div_is_ordered(x * len, m * len, m);
    lemma_div_is_ordered(m * (-len), x * len, m);
    if x == m {
        assert(x * len == m * len);
    }
    if x == -m {
        assert(x * len == m * (-len)) by (nonlinear_arith)
            requires
                x == -m,
        ;
    }
}

/// Scales `v` so that its largest component has magnitude `len`.
pub fn shrink_exec(v: (i128, i128, i128), len: i64) -> (r: Vec3)
    requires
        tri_within(v, 0x1_0000_0000_0000_0000_0000_0000),
        max_abs(tri_view(v)) > 0,
        1 <= len <= LIM,
    ensures
        r@ == shrink(tri_view(v), len as int),
        within(r@, len as int),
        r@ != (0int, 0int, 0int),
{
    let a = abs128(v.0);
    let b = abs128(v.1);
    let c = abs128(v.2);
    let m = if a >= b && a >= c {
        a
    } else if b >= c {
        b
    } else {
        c
    };
    let l = len as i128;
    proof {
        let mm = m as int;
        lemma_mul_bound(v.0 as int, l as int, 0x1_0000_0000_0000_0000_0000_0000, 0x8000);
        lemma_mul_bound(v.1 as int, l as int, 0x1_0000_0000_0000_0000_0000_0000, 0x8000);
        lemma_mul_bound(v.2 as int, l as int, 0x1_0000_0000_0000_0000_0000_0000, 0x8000);
        lemma_shrink_coord(v.0 as int, mm, len as int);
        lemma_shrink_coord(v.1 as int, mm, len as int);
        lemma_shrink_coord(v.2 as int, mm, len as int);
    }
    let x = floor_div(v.0 * l, m);
    let y = floor_div(v.1 * l, m);
    let z = floor_div(v.2 * l, m);
    Vec3 { x: x as i64, y: y as i64, z: z as i64 }
}

/// The mirror image of `d` about the plane with normal `n`.
pub fn reflect(d: &Vec3, n: &Vec3) -> (r: Vec3)
    requires
        within(d@, LIM as int),
        within(n@, 0x2_0000_0000),
        d@ != (0int, 0int, 0int),
    ensures
        r@ == reflect_dir(d@, n@),
        within(r@, LIM as int),
        r@ != (0int, 0int, 0int),
{
    let nn = n.dot(n);
    let dn = d.dot(n);
    proof {
        lemma_mul_bound(n.x as int, n.x as int, 0x2_0000_0000, 0x2_0000_0000);
        lemma_mul_bound(n.y as int, n.y as int, 0x2_0000_0000, 0x2_0000_0000);
        lemma_mul_bound(n.z as int, n.z as int, 0x2_0000_0000, 0x2_0000_0000);
        lemma_mul_bound(d.x as int, n.x as int, 0x8000, 0x2_0000_0000);
        lemma_mul_bound(d.y as int, n.y as int, 0x8000, 0x2_0000_0000);
        lemma_mul_bound(d.z as int, n.z as int, 0x8000, 0x2_0000_0000);
        lemma_mul_bound(d.x as int, nn as int, 0x8000, 0xc_0000_0000_0000_0000);
        lemma_mul_bound(d.y as int, nn as int, 0x8000, 0xc_0000_0000_0000_0000);
        lemma_mul_bound(d.z as int, nn as int, 0x8000, 0xc_0000_0000_0000_0000);
        lemma_mul_bound(n.x as int, 2 * dn as int, 0x2_0000_0000, 0x6_0000_0000_0000);
        lemma_mul_bound(n.y as int, 2 * dn as int, 0x2_0000_0000, 0x6_0000_0000_0000);
        lemma_mul_bound(n.z as int, 2 * dn as int, 0x2_0000_0000, 0x6_0000_0000_0000);
    }
    let full = (
        (d.x as i128) * nn - (n.x as i128) * (2 * dn),
        (d.y as i128) * nn - (n.y as i128) * (2 * dn),
        (d.z as i128) * nn - (n.z as i128) * (2 * dn),
    );
    if full.0 == 0 && full.1 == 0 && full.2 == 0 {
        return *d;
    }
    shrink_exec(full, LIM)
}

/// The cosine of the angle between `a` and `b` in fixed point.
pub fn cos_between(a: &Vec3, b: &Vec3) -> (r: i64)
    requires
        within(a@, LIM as int),
        within(b@, 0x2_0000_0000),
        a@ != (0int, 0int, 0int),
        b@ != (0int, 0int, 0int),
    ensures
        r == cos_fixed(a@, b@),
        0 <= r <= ONE,
{
    let ab = a.dot(b);
    if ab <= 0 {
        return 0;
    }
    let aa = a.dot(a);
    let bb = b.dot(b);
    proof {
        lemma_mul_bound(a.x as int, b.x as int, 0x8000, 0x2_0000_0000);
        lemma_mul_bound(a.y as int, b.y as int, 0x8000, 0x2_0000_0000);
        lemma_mul_bound(a.z as int, b.z as int, 0x8000, 0x2_0000_0000);
        lemma_mul_bound(a.x as int, a.x as int, 0x8000, 0x8000);
        lemma_mul_bound(a.y as int, a.y as int, 0x8000, 0x8000);
        lemma_mul_bound(a.z as int, a.z as int, 0x8000, 0x8000);
        lemma_mul_bound(b.x as int, b.x as int, 0x2_0000_0000, 0x2_0000_0000);
        lemma_mul_bound(b.y as int, b.y as int, 0x2_0000_0000, 0x2_0000_0000);
        lemma_mul_bound(b.z as int, b.z as int, 0x2_0000_0000, 0x2_0000_0000);
        assert(aa >= 1 && bb >= 1) by (nonlinear_arith)
            requires
                aa == a.x * a.x + a.y * a.y + a.z * a.z,
                bb == b.x * b.x + b.y * b.y + b.z * b.z,
                a.x != 0 || a.y != 0 || a.z != 0,
                b.x != 0 || b.y != 0 || b.z != 0,
        ;
        lemma_mul_bound(aa as int, bb as int, 0xc000_0000, 0xc_0000_0000_0000_0000);
        assert(aa * bb >= 1) by (nonlinear_arith)
            requires
                aa >= 1,
                bb >= 1,
        ;
    }
    let p = aa * bb;
    let len = isqrt(p as u128);
    proof {
        assert((p as u128) as int == p as int);
        if len == 0 {
            assert(0int * 0int <= p < (0int + 1) * (0int + 1));
        }
        assert(len <= len * len) by (nonlinear_arith)
            requires
                len >= 1,
        ;
    }
    let c = floor_div(1000 * ab, len as i128);
    proof {
        lemma_div_bound(1000 * ab as int, len as int, 0x3_0000_0000_0000_0000);
        vstd::arithmetic::div_mod::lemma_div_pos_is_pos(1000 * ab as int, len as int);
    }
    if c > 1000 {
        1000
    } else if c < 1 {
        1
    } else {
        c as i64
    }
}

/// `x` to the power `k` in fixed point, for `x` between `0` and `ONE`.
pub fn pow_exec(x: i64, k: u32) -> (r: i64)
    requires
        0 <= x <= ONE,
    ensures
        r == pow_fixed(x as int, k as nat),
        0 <= r <= ONE,
{
    let mut p: i64 = 1000;
    let mut i: u32 = 0;
    while i < k
        invariant
            0 <= x <= ONE,
            i <= k,
            p == pow_fixed(x as int, i as nat),
            0 <= p <= ONE,
        decreases k - i,
    {
        proof {
            assert(0 <= p * x <= 1000 * 1000) by (nonlinear_arith)
                requires
                    0 <= p <= 1000,
                    0 <= x <= 1000,
            ;
            assert(p * x / 1000 <= 1000) by {
                lemma_div_is_ordered(p as int * x as int, 1000000int, 1000int);
            }
            vstd::arithmetic::div_mod::lemma_div_pos_is_pos(p as int * x as int, 1000int);
        }
        p = p * x / 1000;
        i = i + 1;
    }
    p
}

} // verus!
