use vstd::prelude::*;
use crate::geom::{comp, v_max, v_min, V3, lemma_point_in_larger_box, lemma_point_passes_slab_test, le3, within, Aabb, Ray, Vec3, LIM};
use crate::plane::{hit_bounded, Intersection};
use crate::primitive::Primitive;

verus! {

/// Whether `h` comes no later than the hit at distance `num / den` on primitive
/// `prim`: nearer, or as near and of no larger index.
pub open spec fn not_after(h: Intersection, num: int, den: int, prim: int) -> bool {
    h.num * den < num * h.den || (h.num * den == num * h.den && h.prim <= prim)
}

pub open spec fn all_wf(prims: Seq<Primitive>) -> bool {
    forall|i: int| 0 <= i < prims.len() ==> #[trigger] prims[i].wf()
}

/// `r` is the nearest hit of `ray` among the primitives named in `idx`: none when
/// none of them is hit; else the hit of one of them, no later than any other's.
pub open spec fn is_nearest(prims: Seq<Primitive>, ray: Ray, idx: Seq<usize>, r: Option<Intersection>) -> bool {
    match r {
        None => forall|k: int| 0 <= k < idx.len() ==> !(#[trigger] prims[idx[k] as int]).hits(ray),
        Some(h) => {
            &&& idx.contains(h.prim)
            &&& h.prim < prims.len()
            &&& prims[h.prim as int].hits(ray)
            &&& prims[h.prim as int].is_hit(ray, h.prim as int, h)
            &&& hit_bounded(h)
            &&& le3(prims[h.prim as int].lo(), h.pos@)
            &&& le3(h.pos@, prims[h.prim as int].hi())
            &&& forall|k: int|
                0 <= k < idx.len() && (#[trigger] prims[idx[k] as int]).hits(ray) ==> not_after(
                    h,
                    prims[idx[k] as int].dist_num(ray),
                    prims[idx[k] as int].dist_den(ray),
                    idx[k] as int,
                )
        },
    }
}

pub open spec fn same_members(a: Seq<usize>, b: Seq<usize>) -> bool {
    forall|x: usize| a.contains(x) <==> b.contains(x)
}

/// The indices `0 .. n`.
pub open spec fn all_indices(n: nat) -> Seq<usize> {
    Seq::new(n, |i: int| i as usize)
}

/// The nearest hit of `ray` among all of `prims`.
pub open spec fn nearest_hit(prims: Seq<Primitive>, ray: Ray) -> Option<Intersection> {
    choose|r: Option<Intersection>| is_nearest(prims, ray, all_indices(prims.len()), r)
}

/// The nearest hit among a set of primitives does not depend on how the set is
/// listed or grouped: two answers over lists with the same members are equal.
/// A hierarchy over the primitives therefore answers as a linear scan of them does,
/// and two hierarchies built over one list answer alike.
pub proof fn lemma_nearest_unique(
    prims: Seq<Primitive>,
    ray: Ray,
    idx1: Seq<usize>,
    idx2: Seq<usize>,
    r1: Option<Intersection>,
    r2: Option<Intersection>,
)
    requires
        same_members(idx1, idx2),
        is_nearest(prims, ray, idx1, r1),
        is_nearest(prims, ray, idx2, r2),
    ensures
        r1 == r2,
{
    match (r1, r2) {
        (Some(h1), Some(h2)) => {
            assert(idx2.contains(h1.prim));
            assert(idx1.contains(h2.prim));
            let k1 = choose|k: int| 0 <= k < idx2.len() && idx2[k] == h1.prim;
            let k2 = choose|k: int| 0 <= k < idx1.len() && idx1[k] == h2.prim;
            assert(prims[idx2[k1] as int].hits(ray));
            assert(prims[idx1[k2] as int].hits(ray));
            assert(h1.prim == h2.prim);
            assert(h1.pos == h2.pos);
            assert(h1.normal_at_surface == h2.normal_at_surface);
        },
        (None, Some(h2)) => {
            assert(idx1.contains(h2.prim));
            let k = choose|k: int| 0 <= k < idx1.len() && idx1[k] == h2.prim;
            assert(!prims[idx1[k] as int].hits(ray));
        },
        (Some(h1), None) => {
            assert(idx2.contains(h1.prim));
            let k = choose|k: int| 0 <= k < idx2.len() && idx2[k] == h1.prim;
            assert(!prims[idx2[k] as int].hits(ray));
        },
        (None, None) => {},
    }
}

proof fn lemma_is_nearest_hit(prims: Seq<Primitive>, ray: Ray, idx: Seq<usize>, r: Option<Intersection>)
    requires
        same_members(idx, all_indices(prims.len())),
        is_nearest(prims, ray, idx, r),
    ensures
        r == nearest_hit(prims, ray),
        is_nearest(prims, ray, all_indices(prims.len()), r),
{
    let all = all_indices(prims.len());
    assert(is_nearest(prims, ray, all, r)) by {
        match r {
            None => {
                assert forall|k: int| 0 <= k < all.len() implies !(#[trigger] prims[all[k] as int]).hits(ray) by {
                    assert(all.contains(all[k]));
                    assert(idx.contains(all[k]));
                    let j = choose|j: int| 0 <= j < idx.len() && idx[j] == all[k];
                    assert(!prims[idx[j] as int].hits(ray));
                }
            },
            Some(h) => {
                assert(all.contains(h.prim));
                assert forall|k: int| 0 <= k < all.len() && (#[trigger] prims[all[k] as int]).hits(ray) implies not_after(
                    h,
                    prims[all[k] as int].dist_num(ray),
                    prims[all[k] as int].dist_den(ray),
                    all[k] as int,
                ) by {
                    assert(all.contains(all[k]));
                    assert(idx.contains(all[k]));
                    let j = choose|j: int| 0 <= j < idx.len() && idx[j] == all[k];
                    assert(prims[idx[j] as int].hits(ray));
                }
            },
        }
    }
    let c = nearest_hit(prims, ray);
    assert(is_nearest(prims, ray, all, c));
    lemma_nearest_unique(prims, ray, all, all, r, c);
}

proof fn lemma_not_after_trans(h1: Intersection, h2: Intersection, num: int, den: int, prim: int)
    requires
        h1.den > 0,
        h2.den > 0,
        den > 0,
        not_after(h1, h2.num as int, h2.den as int, h2.prim as int),
        not_after(h2, num, den, prim),
    ensures
        not_after(h1, num, den, prim),
{
    let (a, b, c, d, e, f) = (h1.num as int, h1.den as int, h2.num as int, h2.den as int, num, den);
    assert(a * f <= e * b) by (nonlinear_arith)
        requires
            b > 0,
            d > 0,
            f > 0,
            a * d <= c * b,
            c * f <= e * d,
    ;
    assert((a * d < c * b || c * f < e * d) ==> a * f < e * b) by (nonlinear_arith)
        requires
            b > 0,
            d > 0,
            f > 0,
            a * d <= c * b,
            c * f <= e * d,
    ;
}

/// The nearer of two answers, the smaller index on equal distances.
pub open spec fn nearer_of(a: Option<Intersection>, b: Option<Intersection>) -> Option<Intersection> {
    match (a, b) {
        (None, _) => b,
        (_, None) => a,
        (Some(h1), Some(h2)) => if not_after(h1, h2.num as int, h2.den as int, h2.prim as int) {
            a
        } else {
            b
        },
    }
}

fn pick_nearer(a: Option<Intersection>, b: Option<Intersection>) -> (r: Option<Intersection>)
    requires
        a matches Some(h) ==> hit_bounded(h),
        b matches Some(h) ==> hit_bounded(h),
    ensures
        r == nearer_of(a, b),
{
    match (a, b) {
        (None, x) => x,
        (x, None) => x,
        (Some(h1), Some(h2)) => {
            proof {
                crate::arith::lemma_mul_bound(h1.num as int, h2.den as int, 0x6_0000_0000_0000, 0x3_0000_0000_0000);
                crate::arith::lemma_mul_bound(h2.num as int, h1.den as int, 0x6_0000_0000_0000, 0x3_0000_0000_0000);
            }
            let l = h1.num * h2.den;
            let rr = h2.num * h1.den;
            if l < rr || (l == rr && h1.prim <= h2.prim) {
                Some(h1)
            } else {
                Some(h2)
            }
        },
    }
}

proof fn lemma_combine(prims: Seq<Primitive>, ray: Ray, i1: Seq<usize>, i2: Seq<usize>, a: Option<Intersection>, b: Option<Intersection>, r: Option<Intersection>)
    requires
        is_nearest(prims, ray, i1, a),
        is_nearest(prims, ray, i2, b),
        r == nearer_of(a, b),
    ensures
        is_nearest(prims, ray, i1 + i2, r),
{
    let s = i1 + i2;
    assert forall|k: int| 0 <= k < s.len() implies (k < i1.len() && s[k] == i1[k]) || (k >= i1.len() && s[k] == i2[k - i1.len()]) by {}
    match r {
        None => {
            assert forall|k: int| 0 <= k < s.len() implies !(#[trigger] prims[s[k] as int]).hits(ray) by {
                if k < i1.len() {
                    assert(s[k] == i1[k]);
                } else {
                    assert(s[k] == i2[k - i1.len()]);
                }
            }
        },
        Some(h) => {
            if r == a {
                let j = choose|j: int| 0 <= j < i1.len() && i1[j] == h.prim;
                assert(s[j] == h.prim);
            } else {
                let j = choose|j: int| 0 <= j < i2.len() && i2[j] == h.prim;
                assert(s[i1.len() + j] == h.prim);
            }
            assert forall|k: int| 0 <= k < s.len() && (#[trigger] prims[s[k] as int]).hits(ray) implies not_after(
                h,
                prims[s[k] as int].dist_num(ray),
                prims[s[k] as int].dist_den(ray),
                s[k] as int,
            ) by {
                if k < i1.len() {
                    assert(s[k] == i1[k]);
                    if r != a {
                        let h1 = a->0;
                        lemma_not_after_trans(h, h1, prims[s[k] as int].dist_num(ray), prims[s[k] as int].dist_den(ray), s[k] as int);
                    }
                } else {
                    assert(s[k] == i2[k - i1.len()]);
                    if r != b {
                        let h2 = b->0;
                        lemma_not_after_trans(h, h2, prims[s[k] as int].dist_num(ray), prims[s[k] as int].dist_den(ray), s[k] as int);
                    }
                }
            }
        },
    }
}

proof fn lemma_single(prims: Seq<Primitive>, ray: Ray, p: usize, r: Option<Intersection>)
    requires
        p < prims.len(),
        r.is_none() <==> !prims[p as int].hits(ray),
        r matches Some(h) ==> prims[p as int].is_hit(ray, p as int, h) && hit_bounded(h) && le3(prims[p as int].lo(), h.pos@)
            && le3(h.pos@, prims[p as int].hi()),
    ensures
        is_nearest(prims, ray, seq![p], r),
{
    let s = seq![p];
    assert(s[0] == p);
    if let Some(h) = r {
        assert(s.contains(p));
    }
}

/// The nearest hit among the primitives that `items` names, by testing each.
fn scan(prims: &Vec<Primitive>, items: &Vec<usize>, ray: &Ray) -> (r: Option<Intersection>)
    requires
        all_wf(prims@),
        ray.wf(),
        forall|k: int| 0 <= k < items.len() ==> items[k] < prims.len(),
    ensures
        is_nearest(prims@, *ray, items@, r),
{
    let mut best: Option<Intersection> = None;
    let mut i: usize = 0;
    while i < items.len()
        invariant
            all_wf(prims@),
            ray.wf(),
            forall|k: int| 0 <= k < items.len() ==> items[k] < prims.len(),
            i <= items.len(),
            is_nearest(prims@, *ray, items@.take(i as int), best),
        decreases items.len() - i,
    {
        let p = items[i];
        let h = prims[p].intercept(ray, p);
        proof {
            assert(prims@[p as int].wf());
            lemma_single(prims@, *ray, p, h);
        }
        let next = pick_nearer(best, h);
        proof {
            lemma_combine(prims@, *ray, items@.take(i as int), seq![p], best, h, next);
            assert(items@.take(i as int) + seq![p] =~= items@.take(i + 1));
        }
        best = next;
        i = i + 1;
    }
    assert(items@.take(items.len() as int) =~= items@);
    best
}

/// A node of the bounding-volume hierarchy: a list of primitives tested one by
/// one, or a box over two sub-hierarchies.
#[derive(Debug)]
pub enum Node {
    Leaf(Vec<usize>),
    Branch(Aabb, Box<Node>, Box<Node>),
}

impl Node {
    /// The primitives under this node, leaf by leaf.
    pub open spec fn items(self) -> Seq<usize>
        decreases self,
    {
        match self {
            Node::Leaf(v) => v@,
            Node::Branch(_, l, r) => l.items() + r.items(),
        }
    }

    /// Every index is in range, and every box encloses the boxes of the
    /// primitives under it.
    pub open spec fn wf(self, prims: Seq<Primitive>) -> bool
        decreases self,
    {
        match self {
            Node::Leaf(v) => forall|k: int| 0 <= k < v.len() ==> v[k] < prims.len(),
            Node::Branch(b, l, r) => {
                &&& b.wf()
                &&& l.wf(prims)
                &&& r.wf(prims)
                &&& forall|k: int|
                    0 <= k < self.items().len() ==> #[trigger] self.items()[k] < prims.len()
                        && b.encloses(prims[self.items()[k] as int].lo(), prims[self.items()[k] as int].hi())
            },
        }
    }

    /// The nearest hit among the primitives under this node. A box that the ray
    /// misses cuts its whole subtree off; otherwise both children are asked.
    pub fn intercept(&self, prims: &Vec<Primitive>, ray: &Ray) -> (r: Option<Intersection>)
        requires
            self.wf(prims@),
            all_wf(prims@),
            ray.wf(),
        ensures
            is_nearest(prims@, *ray, self.items(), r),
        decreases self,
    {
        match self {
            Node::Leaf(v) => scan(prims, v, ray),
            Node::Branch(b, l, rt) => {
                if !b.intersects(ray) {
                    proof {
                        let its = self.items();
                        assert forall|k: int| 0 <= k < its.len() implies !(#[trigger] prims@[its[k] as int]).hits(*ray) by {
                            let pl = prims@[its[k] as int];
                            if pl.hits(*ray) {
                                lemma_point_in_larger_box(pl.lo(), pl.hi(), b.min@, b.max@, *ray, pl.dist_num(*ray), pl.dist_den(*ray));
                                lemma_point_passes_slab_test(*b, *ray, pl.dist_num(*ray), pl.dist_den(*ray));
                            }
                        }
                    }
                    return None;
                }
                let a = l.intercept(prims, ray);
                let c = rt.intercept(prims, ray);
                let r = pick_nearer(a, c);
                proof {
                    lemma_combine(prims@, *ray, l.items(), rt.items(), a, c, r);
                }
                r
            },
        }
    }
}

proof fn lemma_push_contains(s: Seq<usize>, a: usize, x: usize)
    ensures
        s.push(a).contains(x) <==> (s.contains(x) || x == a),
{
    let t = s.push(a);
    if t.contains(x) {
        let j = choose|j: int| 0 <= j < t.len() && t[j] == x;
        if j < s.len() {
            assert(s[j] == x);
        }
    }
    if s.contains(x) {
        let j = choose|j: int| 0 <= j < s.len() && s[j] == x;
        assert(t[j] == x);
    }
    if x == a {
        assert(t[s.len() as int] == x);
    }
}

proof fn lemma_concat_contains(a: Seq<usize>, b: Seq<usize>, x: usize)
    ensures
        (a + b).contains(x) <==> (a.contains(x) || b.contains(x)),
{
    let t = a + b;
    if t.contains(x) {
        let j = choose|j: int| 0 <= j < t.len() && t[j] == x;
        if j < a.len() {
            assert(a[j] == x);
        } else {
            assert(b[j - a.len()] == x);
        }
    }
    if a.contains(x) {
        let j = choose|j: int| 0 <= j < a.len() && a[j] == x;
        assert(t[j] == x);
    }
    if b.contains(x) {
        let j = choose|j: int| 0 <= j < b.len() && b[j] == x;
        assert(t[a.len() + j] == x);
    }
}

/// The least corner of the tight box over the primitives that `items` names.
pub open spec fn lo_of(prims: Seq<Primitive>, items: Seq<usize>) -> V3
    decreases items.len(),
{
    if items.len() <= 1 {
        prims[items[0] as int].lo()
    } else {
        v_min(lo_of(prims, items.drop_last()), prims[items.last() as int].lo())
    }
}

/// The greatest corner of the tight box over the primitives that `items` names.
pub open spec fn hi_of(prims: Seq<Primitive>, items: Seq<usize>) -> V3
    decreases items.len(),
{
    if items.len() <= 1 {
        prims[items[0] as int].hi()
    } else {
        v_max(hi_of(prims, items.drop_last()), prims[items.last() as int].hi())
    }
}

/// The componentwise greatest of the least corners.
pub open spec fn mins_max_of(prims: Seq<Primitive>, items: Seq<usize>) -> V3
    decreases items.len(),
{
    if items.len() <= 1 {
        prims[items[0] as int].lo()
    } else {
        v_max(mins_max_of(prims, items.drop_last()), prims[items.last() as int].lo())
    }
}

/// The axis on which the greatest least corner lies farthest above the box's
/// least corner; the first such axis on a tie.
pub open spec fn split_axis(lo: V3, mm: V3) -> int {
    let sx = mm.0 - lo.0;
    let sy = mm.1 - lo.1;
    let sz = mm.2 - lo.2;
    if sx >= sy && sx >= sz {
        0
    } else if sy >= sz {
        1
    } else {
        2
    }
}

/// Primitive `p` goes to the lower side: its least corner on `axis` lies below
/// the split point `twice_split / 2`.
pub open spec fn goes_low(prims: Seq<Primitive>, p: usize, axis: int, twice_split: int) -> bool {
    2 * comp(prims[p as int].lo(), axis) < twice_split
}

/// The items that go to the lower side, in their order.
pub open spec fn lower_part(prims: Seq<Primitive>, items: Seq<usize>, axis: int, twice_split: int) -> Seq<usize>
    decreases items.len(),
{
    if items.len() == 0 {
        items
    } else {
        let rest = lower_part(prims, items.drop_last(), axis, twice_split);
        if goes_low(prims, items.last(), axis, twice_split) {
            rest.push(items.last())
        } else {
            rest
        }
    }
}

/// The items that go to the upper side, in their order.
pub open spec fn upper_part(prims: Seq<Primitive>, items: Seq<usize>, axis: int, twice_split: int) -> Seq<usize>
    decreases items.len(),
{
    if items.len() == 0 {
        items
    } else {
        let rest = upper_part(prims, items.drop_last(), axis, twice_split);
        if goes_low(prims, items.last(), axis, twice_split) {
            rest
        } else {
            rest.push(items.last())
        }
    }
}

/// Splitting a list sends each item to exactly one side.
pub proof fn lemma_parts(prims: Seq<Primitive>, items: Seq<usize>, axis: int, twice_split: int)
    ensures
        lower_part(prims, items, axis, twice_split).len() + upper_part(prims, items, axis, twice_split).len()
            == items.len(),
        lower_part(prims, items, axis, twice_split).to_multiset().add(
            upper_part(prims, items, axis, twice_split).to_multiset(),
        ) =~= items.to_multiset(),
    decreases items.len(),
{
    broadcast use vstd::seq_lib::group_to_multiset_ensures, vstd::multiset::group_multiset_axioms;

    if items.len() > 0 {
        let rest = items.drop_last();
        lemma_parts(prims, rest, axis, twice_split);
        assert(items =~= rest.push(items.last()));
    } else {
        assert(lower_part(prims, items, axis, twice_split) =~= Seq::<usize>::empty());
        assert(upper_part(prims, items, axis, twice_split) =~= Seq::<usize>::empty());
        assert(items =~= Seq::<usize>::empty());
    }
}

#[via_fn]
proof fn built_shape_decreases(prims: Seq<Primitive>, items: Seq<usize>, r: Node) {
    if items.len() > 0 {
        let lo = lo_of(prims, items);
        let axis = split_axis(lo, mins_max_of(prims, items));
        let ts = comp(lo, axis) + comp(mins_max_of(prims, items), axis);
        lemma_parts(prims, items, axis, ts);
    }
}

/// The tree that `build` makes over `items`, at every level: an empty leaf for
/// no items; else a branch with the tight box whose children hold the lower and
/// the upper side, each a leaf of that side below four items and otherwise the
/// tree built over that side; when a side is empty, one leaf with all items
/// beside an empty one.
pub open spec fn built_shape(prims: Seq<Primitive>, items: Seq<usize>, r: Node) -> bool
    decreases items.len(),
    via built_shape_decreases
{
    if items.len() == 0 {
        r is Leaf && r.items() == items
    } else {
        let lo = lo_of(prims, items);
        let axis = split_axis(lo, mins_max_of(prims, items));
        let ts = comp(lo, axis) + comp(mins_max_of(prims, items), axis);
        let lw = lower_part(prims, items, axis, ts);
        let up = upper_part(prims, items, axis, ts);
        match r {
            Node::Leaf(_) => false,
            Node::Branch(b, l, rt) => {
                &&& b.min@ == lo
                &&& b.max@ == hi_of(prims, items)
                &&& if lw.len() == 0 || up.len() == 0 {
                    &&& *l is Leaf
                    &&& l.items() == lw + up
                    &&& *rt is Leaf
                    &&& rt.items().len() == 0
                } else {
                    &&& if lw.len() < 4 {
                        *l is Leaf && l.items() == lw
                    } else {
                        built_shape(prims, lw, *l)
                    }
                    &&& if up.len() < 4 {
                        *rt is Leaf && rt.items() == up
                    } else {
                        built_shape(prims, up, *rt)
                    }
                }
            },
        }
    }
}

/// Two trees agree node by node: the same boxes, the same branching, and the
/// same items in the same order in every leaf.
pub open spec fn same_tree(a: Node, b: Node) -> bool
    decreases a,
{
    match a {
        Node::Leaf(x) => match b {
            Node::Leaf(y) => x@ == y@,
            _ => false,
        },
        Node::Branch(b1, l1, r1) => match b {
            Node::Branch(b2, l2, r2) => b1 == b2 && same_tree(*l1, *l2) && same_tree(*r1, *r2),
            _ => false,
        },
    }
}

/// The tree built over a list is fixed by the list: two trees of the built
/// shape over the same items are the same tree.
pub proof fn lemma_built_shape_unique(prims: Seq<Primitive>, items: Seq<usize>, a: Node, b: Node)
    requires
        built_shape(prims, items, a),
        built_shape(prims, items, b),
    ensures
        same_tree(a, b),
    decreases items.len(),
{
    if items.len() > 0 {
        let lo = lo_of(prims, items);
        let axis = split_axis(lo, mins_max_of(prims, items));
        let ts = comp(lo, axis) + comp(mins_max_of(prims, items), axis);
        let lw = lower_part(prims, items, axis, ts);
        let up = upper_part(prims, items, axis, ts);
        lemma_parts(prims, items, axis, ts);
        match (a, b) {
            (Node::Branch(b1, l1, r1), Node::Branch(b2, l2, r2)) => {
                assert(b1.min == b2.min && b1.max == b2.max);
                if lw.len() != 0 && up.len() != 0 {
                    if lw.len() >= 4 {
                        lemma_built_shape_unique(prims, lw, *l1, *l2);
                    } else {
                        assert(same_tree(*l1, *l2));
                    }
                    if up.len() >= 4 {
                        lemma_built_shape_unique(prims, up, *r1, *r2);
                    } else {
                        assert(same_tree(*r1, *r2));
                    }
                } else {
                    assert(same_tree(*l1, *l2));
                    assert(r1.items() =~= r2.items());
                    assert(same_tree(*r1, *r2));
                }
                assert(same_tree(a, b));
            },
            _ => {},
        }
    }
}

/// Componentwise bounds of the boxes of the primitives that `items` names: the
/// least corner, the greatest corner, and the greatest of the least corners.
fn bounds(prims: &Vec<Primitive>, items: &Vec<usize>) -> (r: (Vec3, Vec3, Vec3))
    requires
        all_wf(prims@),
        items.len() > 0,
        forall|k: int| 0 <= k < items.len() ==> items[k] < prims.len(),
    ensures
        within(r.0@, LIM as int),
        within(r.1@, LIM as int),
        within(r.2@, LIM as int),
        le3(r.0@, r.1@),
        le3(r.0@, r.2@),
        forall|k: int| 0 <= k < items.len() ==> le3(r.0@, #[trigger] prims@[items[k] as int].lo())
            && le3(prims@[items[k] as int].hi(), r.1@) && le3(prims@[items[k] as int].lo(), r.2@),
        r.0@ == lo_of(prims@, items@),
        r.1@ == hi_of(prims@, items@),
        r.2@ == mins_max_of(prims@, items@),
{
    let first = &prims[items[0]];
    assert(prims@[items@[0] as int].wf());
    let mut lo = first.get_min();
    let mut hi = first.get_max();
    let mut mm = first.get_min();
    let mut i: usize = 1;
    while i < items.len()
        invariant
            all_wf(prims@),
            forall|k: int| 0 <= k < items.len() ==> items[k] < prims.len(),
            1 <= i <= items.len(),
            within(lo@, LIM as int),
            within(hi@, LIM as int),
            within(mm@, LIM as int),
            lo@ == lo_of(prims@, items@.take(i as int)),
            hi@ == hi_of(prims@, items@.take(i as int)),
            mm@ == mins_max_of(prims@, items@.take(i as int)),
            le3(lo@, hi@),
            le3(lo@, mm@),
            forall|k: int| 0 <= k < i ==> le3(lo@, #[trigger] prims@[items[k] as int].lo())
                && le3(prims@[items[k] as int].hi(), hi@) && le3(prims@[items[k] as int].lo(), mm@),
        decreases items.len() - i,
    {
        let pl = &prims[items[i]];
        assert(prims@[items@[i as int] as int].wf());
        let pmin = pl.get_min();
        let pmax = pl.get_max();
        let ghost lo0 = lo@;
        let ghost hi0 = hi@;
        let ghost mm0 = mm@;
        assert(items@.take(i + 1).drop_last() =~= items@.take(i as int));
        lo = lo.min(&pmin);
        hi = hi.max(&pmax);
        mm = mm.max(&pmin);
        assert(le3(lo@, prims@[items@[i as int] as int].lo()));
        assert(le3(prims@[items@[i as int] as int].hi(), hi@));
        assert(le3(prims@[items@[i as int] as int].lo(), mm@));
        assert forall|k: int| 0 <= k < i + 1 implies le3(lo@, #[trigger] prims@[items[k] as int].lo())
            && le3(prims@[items[k] as int].hi(), hi@) && le3(prims@[items[k] as int].lo(), mm@) by {
            if k < i {
                assert(le3(lo0, prims@[items[k] as int].lo()));
                assert(le3(prims@[items[k] as int].hi(), hi0));
                assert(le3(prims@[items[k] as int].lo(), mm0));
            }
        }
        i = i + 1;
    }
    assert(items@.take(items.len() as int) =~= items@);
    (lo, hi, mm)
}

/// Builds a hierarchy over the primitives that `items` names.
///
/// The box is the tight box over the primitives' boxes. The split axis is the
/// one on which the greatest least corner lies farthest above the box's least
/// corner, and the split point halfway between the two. Primitives whose least
/// corner lies below the split point go left, the others right. When one side
/// would be empty, all go into one leaf. A side of fewer than four primitives
/// becomes a leaf, a larger one is split again.
pub fn build(prims: &Vec<Primitive>, items: Vec<usize>) -> (r: Node)
    requires
        all_wf(prims@),
        forall|k: int| 0 <= k < items.len() ==> items[k] < prims.len(),
    ensures
        r.wf(prims@),
        same_members(r.items(), items@),
        r.items().len() == items.len(),
        r.items().to_multiset() == items@.to_multiset(),
        built_shape(prims@, items@, r),
    decreases items.len(),
{
    if items.len() == 0 {
        return Node::Leaf(items);
    }
    let (box_min, box_max, mins_max) = bounds(prims, &items);
    let sx = mins_max.x - box_min.x;
    let sy = mins_max.y - box_min.y;
    let sz = mins_max.z - box_min.z;
    let axis: usize = if sx >= sy && sx >= sz {
        0
    } else if sy >= sz {
        1
    } else {
        2
    };
    let twice_split = box_min.get(axis) + mins_max.get(axis);
    let bbox = Aabb { min: box_min, max: box_max };
    let mut lower: Vec<usize> = Vec::new();
    let mut upper: Vec<usize> = Vec::new();
    let mut i: usize = 0;
    while i < items.len()
        invariant
            i <= items.len(),
            lower.len() + upper.len() == i,
            axis < 3,
            axis == split_axis(box_min@, mins_max@),
            twice_split == comp(box_min@, axis as int) + comp(mins_max@, axis as int),
            lower@ == lower_part(prims@, items@.take(i as int), axis as int, twice_split as int),
            upper@ == upper_part(prims@, items@.take(i as int), axis as int, twice_split as int),
            all_wf(prims@),
            forall|k: int| 0 <= k < items.len() ==> items[k] < prims.len(),
            -2 * LIM <= twice_split <= 2 * LIM,
            forall|x: usize| (lower@.contains(x) || upper@.contains(x)) <==> items@.take(i as int).contains(x),
        decreases items.len() - i,
    {
        let p = items[i];
        assert(prims@[p as int].wf());
        let key = prims[p].get_min().get(axis);
        let ghost lower0 = lower@;
        let ghost upper0 = upper@;
        if 2 * key < twice_split {
            lower.push(p);
        } else {
            upper.push(p);
        }
        proof {
            let t = items@.take(i as int);
            assert(items@.take(i + 1) =~= t.push(p));
            assert(items@.take(i + 1).drop_last() =~= t);
            assert forall|x: usize| (lower@.contains(x) || upper@.contains(x)) <==> items@.take(i + 1).contains(x) by {
                lemma_push_contains(t, p, x);
                lemma_push_contains(lower0, p, x);
                lemma_push_contains(upper0, p, x);
            }
        }
        i = i + 1;
    }
    assert(items@.take(items.len() as int) =~= items@);
    assert forall|x: usize| lower@.contains(x) implies items@.contains(x) by {}
    assert forall|x: usize| upper@.contains(x) implies items@.contains(x) by {}
    assert forall|k: int| 0 <= k < lower.len() implies lower[k] < prims.len() by {
        assert(lower@.contains(lower[k]));
    }
    assert forall|k: int| 0 <= k < upper.len() implies upper[k] < prims.len() by {
        assert(upper@.contains(upper[k]));
    }
    let ghost lw = lower@;
    let ghost up = upper@;
    proof {
        lemma_parts(prims@, items@, axis as int, twice_split as int);
    }
    let (left, right) = if lower.len() == 0 || upper.len() == 0 {
        let mut all = lower;
        all.append(&mut upper);
        proof {
            assert(all@ == lw + up);
            assert forall|x: usize| all@.contains(x) <==> (lw.contains(x) || up.contains(x)) by {
                lemma_concat_contains(lw, up, x);
            }
            assert forall|k: int| 0 <= k < all.len() implies all[k] < prims.len() by {
                assert(all@.contains(all@[k]));
            }
        }
        let l = Node::Leaf(all);
        let r = Node::Leaf(Vec::new());
        assert(l.wf(prims@) && r.wf(prims@));
        assert(r.items() == Seq::<usize>::empty());
        (l, r)
    } else {
        let l = if lower.len() < 4 {
            Node::Leaf(lower)
        } else {
            build(prims, lower)
        };
        let r = if upper.len() < 4 {
            Node::Leaf(upper)
        } else {
            build(prims, upper)
        };
        assert(l.wf(prims@) && r.wf(prims@));
        (l, r)
    };
    assert(bbox.wf());
    let node = Node::Branch(bbox, Box::new(left), Box::new(right));
    proof {
        let its = node.items();
        assert(its == left.items() + right.items());
        vstd::seq_lib::lemma_multiset_commutative(left.items(), right.items());
        vstd::seq_lib::lemma_multiset_commutative(lw, up);
        assert(its.to_multiset() =~= items@.to_multiset());
        assert forall|x: usize| its.contains(x) <==> items@.contains(x) by {
            lemma_concat_contains(left.items(), right.items(), x);
            lemma_concat_contains(lw, up, x);
            assert(right.items() == Seq::<usize>::empty() ==> !right.items().contains(x));
        }
        assert forall|k: int| 0 <= k < its.len() implies #[trigger] its[k] < prims.len()
            && bbox.encloses(prims@[its[k] as int].lo(), prims@[its[k] as int].hi()) by {
            assert(its.contains(its[k]));
            assert(items@.contains(its[k]));
            let j = choose|j: int| 0 <= j < items.len() && items[j] == its[k];
            assert(le3(box_min@, prims@[items[j] as int].lo()));
        }
    }
    node
}

/// A flat list of primitives, tested one by one.
#[derive(Debug)]
pub struct PrimitiveStorage {
    pub elements: Vec<Primitive>,
}

fn index_list(n: usize) -> (r: Vec<usize>)
    ensures
        r@ == all_indices(n as nat),
{
    let mut v: Vec<usize> = Vec::new();
    let mut i: usize = 0;
    while i < n
        invariant
            i <= n,
            v@ == all_indices(i as nat),
        decreases n - i,
    {
        v.push(i);
        i = i + 1;
        assert(v@ =~= all_indices(i as nat));
    }
    v
}

impl PrimitiveStorage {
    /// The nearest hit among all primitives.
    pub fn intercept(&self, ray: &Ray) -> (r: Option<Intersection>)
        requires
            all_wf(self.elements@),
            ray.wf(),
        ensures
            r == nearest_hit(self.elements@, *ray),
    {
        let items = index_list(self.elements.len());
        let r = scan(&self.elements, &items, ray);
        proof {
            lemma_is_nearest_hit(self.elements@, *ray, items@, r);
        }
        r
    }
}

/// A bounding-volume hierarchy that owns its primitives.
#[derive(Debug)]
pub struct BVStorage {
    pub elements: Vec<Primitive>,
    pub root: Node,
}

impl BVStorage {
    pub open spec fn wf(self) -> bool {
        &&& all_wf(self.elements@)
        &&& self.root.wf(self.elements@)
        &&& same_members(self.root.items(), all_indices(self.elements.len() as nat))
    }

    /// Builds the hierarchy over all of `elements`.
    pub fn new(elements: Vec<Primitive>) -> (r: BVStorage)
        requires
            all_wf(elements@),
        ensures
            r.wf(),
            r.elements@ == elements@,
            r.root.items().to_multiset() == all_indices(elements.len() as nat).to_multiset(),
            built_shape(elements@, all_indices(elements.len() as nat), r.root),
    {
        let items = index_list(elements.len());
        let root = build(&elements, items);
        BVStorage { elements, root }
    }

    /// The nearest hit among all primitives: the same answer a linear scan gives.
    pub fn intercept(&self, ray: &Ray) -> (r: Option<Intersection>)
        requires
            self.wf(),
            ray.wf(),
        ensures
            r == nearest_hit(self.elements@, *ray),
            is_nearest(self.elements@, *ray, all_indices(self.elements.len() as nat), r),
    {
        let r = self.root.intercept(&self.elements, ray);
        proof {
            lemma_is_nearest_hit(self.elements@, *ray, self.root.items(), r);
        }
        r
    }
}

/// A hierarchy answers every ray as a linear scan over the same primitives does:
/// the nearest hit among its leaves is the nearest hit among all primitives.
pub proof fn lemma_hierarchy_matches_scan(
    bvh: BVStorage,
    store: PrimitiveStorage,
    ray: Ray,
    r1: Option<Intersection>,
    r2: Option<Intersection>,
)
    requires
        bvh.wf(),
        bvh.elements@ == store.elements@,
        is_nearest(bvh.elements@, ray, bvh.root.items(), r1),
        is_nearest(store.elements@, ray, all_indices(store.elements.len() as nat), r2),
    ensures
        r1 == r2,
{
    lemma_nearest_unique(bvh.elements@, ray, bvh.root.items(), all_indices(store.elements.len() as nat), r1, r2);
}

/// `prims2` lists the primitives of `prims1` in another order: entry `i` of
/// `prims2` is entry `perm[i]` of `prims1`, and every entry of `prims1` appears.
pub open spec fn is_reordering(prims1: Seq<Primitive>, prims2: Seq<Primitive>, perm: Seq<int>) -> bool {
    &&& prims1.len() == prims2.len()
    &&& perm.len() == prims2.len()
    &&& forall|i: int| 0 <= i < perm.len() ==> 0 <= #[trigger] perm[i] < prims1.len() && prims2[i] == prims1[perm[i]]
    &&& forall|k: int| 0 <= k < prims1.len() ==> #[trigger] perm.contains(k)
}

/// Every other primitive that the ray hits lies strictly farther than `h`.
pub open spec fn alone_nearest(prims: Seq<Primitive>, ray: Ray, h: Intersection) -> bool {
    forall|k: int|
        0 <= k < prims.len() && k != h.prim && (#[trigger] prims[k]).hits(ray) ==> h.num * prims[k].dist_den(ray)
            < prims[k].dist_num(ray) * h.den
}

/// `h` reported for primitive `p`.
pub open spec fn with_prim(h: Intersection, p: usize) -> Intersection {
    Intersection {
        num: h.num,
        den: h.den,
        pos: h.pos,
        normal_at_surface: h.normal_at_surface,
        surface_u: h.surface_u,
        surface_v: h.surface_v,
        prim: p,
    }
}

/// The nearest hit does not depend on the order of the primitives: over a
/// reordered list a ray is hit or missed alike, at the same distance, and where
/// one primitive alone is nearest, the same record comes back but for the
/// primitive's index.
pub proof fn lemma_reordering_agrees(
    prims1: Seq<Primitive>,
    prims2: Seq<Primitive>,
    perm: Seq<int>,
    ray: Ray,
    r1: Option<Intersection>,
    r2: Option<Intersection>,
)
    requires
        prims1.len() <= usize::MAX,
        is_reordering(prims1, prims2, perm),
        is_nearest(prims1, ray, all_indices(prims1.len()), r1),
        is_nearest(prims2, ray, all_indices(prims2.len()), r2),
    ensures
        r1.is_some() == r2.is_some(),
        r1 is Some && r2 is Some ==> r1->0.num * r2->0.den == r2->0.num * r1->0.den,
        r1 is Some && r2 is Some && alone_nearest(prims1, ray, r1->0) ==> r2->0 == with_prim(r1->0, r2->0.prim),
{
    let all1 = all_indices(prims1.len());
    let all2 = all_indices(prims2.len());
    match (r1, r2) {
        (Some(h1), None) => {
            let p1 = h1.prim as int;
            assert(perm.contains(p1));
            let j = choose|i: int| 0 <= i < perm.len() && perm[i] == p1;
            assert(all2[j] as int == j);
            assert(!prims2[all2[j] as int].hits(ray));
        },
        (None, Some(h2)) => {
            let p2 = h2.prim as int;
            let k = perm[p2];
            assert(all1[k] as int == k);
            assert(!prims1[all1[k] as int].hits(ray));
        },
        (Some(h1), Some(h2)) => {
            let p1 = h1.prim as int;
            let p2 = h2.prim as int;
            assert(perm.contains(p1));
            let j = choose|i: int| 0 <= i < perm.len() && perm[i] == p1;
            assert(all2[j] as int == j);
            assert(prims2[all2[j] as int].hits(ray));
            let k = perm[p2];
            assert(all1[k] as int == k);
            assert(prims1[all1[k] as int].hits(ray));
            assert(h2.num * h1.den <= h1.num * h2.den);
            assert(h1.num * h2.den <= h2.num * h1.den);
            if alone_nearest(prims1, ray, h1) {
                if k != p1 {
                    assert(h1.num * prims1[k].dist_den(ray) < prims1[k].dist_num(ray) * h1.den);
                    assert(false);
                }
                assert(prims2[p2] == prims1[p1]);
            }
        },
        (None, None) => {},
    }
}

/// Two hierarchies over the same primitives answer every ray alike, whatever
/// shape their trees have.
pub proof fn lemma_hierarchies_agree(
    b1: BVStorage,
    b2: BVStorage,
    ray: Ray,
    r1: Option<Intersection>,
    r2: Option<Intersection>,
)
    requires
        b1.wf(),
        b2.wf(),
        b1.elements@ == b2.elements@,
        is_nearest(b1.elements@, ray, b1.root.items(), r1),
        is_nearest(b2.elements@, ray, b2.root.items(), r2),
    ensures
        r1 == r2,
{
    lemma_nearest_unique(b1.elements@, ray, b1.root.items(), b2.root.items(), r1, r2);
}

} // verus!
