use raytracing::bvh::{build, BVStorage, Node, PrimitiveStorage};
use raytracing::geom::{Ray, Vec3};
use raytracing::plane::{Intersection, Plane};
use raytracing::primitive::Primitive;
use raytracing::sphere::Sphere;
use raytracing::shader::{Color, MonochromeShader};

fn v(x: i64, y: i64, z: i64) -> Vec3 {
    Vec3::new(x, y, z)
}

fn square(cx: i64, cy: i64, z: i64, half: i64) -> Primitive {
    Primitive::Plane(Plane {
        a: v(cx - half, cy - half, z),
        b: v(cx + half, cy - half, z),
        c: v(cx - half, cy + half, z),
        shader: MonochromeShader::new(Color::new(100, 200, 300)),
    })
}

fn ball(x: i64, y: i64, z: i64, radius: i64) -> Primitive {
    Primitive::Sphere(Sphere { center: v(x, y, z), radius, shader: MonochromeShader::new(Color::new(1, 2, 3)) })
}

fn scene() -> Vec<Primitive> {
    let mut out = Vec::new();
    let mut i: i64 = 0;
    while i < 12 {
        out.push(square(i * 40 - 240, (i % 3) * 30 - 30, 50 + (i % 4) * 25, 30));
        i += 1;
    }
    // a large backdrop and one that overlaps the others
    out.push(square(0, 0, 400, 1000));
    out.push(square(-100, 0, 60, 200));
    out.push(ball(100, 0, 150, 40));
    out.push(ball(-200, 30, 90, 25));
    out.push(ball(0, 0, 300, 60));
    out
}

fn rays() -> Vec<Ray> {
    let mut out = Vec::new();
    let mut x: i64 = -300;
    while x <= 300 {
        let mut y: i64 = -60;
        while y <= 60 {
            out.push(Ray::new(v(x, y, 0), v(0, 0, 1)).unwrap());
            out.push(Ray::new(v(0, 0, 0), v(x, y, 100)).unwrap());
            y += 30;
        }
        x += 25;
    }
    out.push(Ray::new(v(0, 0, 0), v(1, 0, 0)).unwrap());
    out.push(Ray::new(v(0, 0, 500), v(0, 0, -1)).unwrap());
    out
}

fn same_distance(a: &Option<Intersection>, b: &Option<Intersection>) -> bool {
    match (a, b) {
        (None, None) => true,
        (Some(x), Some(y)) => x.num * y.den == y.num * x.den && x.pos == y.pos,
        _ => false,
    }
}

#[test]
fn hierarchy_agrees_with_linear_scan() {
    let bvh = BVStorage::new(scene());
    let flat = PrimitiveStorage { elements: scene() };
    let mut hits = 0;
    for ray in rays() {
        let a = bvh.intercept(&ray);
        let b = flat.intercept(&ray);
        assert_eq!(a, b);
        if a.is_some() {
            hits += 1;
        }
    }
    assert!(hits > 10);
}

#[test]
fn hierarchy_is_split() {
    let bvh = BVStorage::new(scene());
    match &bvh.root {
        Node::Branch(b, _, _) => {
            assert_eq!(b.min, v(-1000, -1000, 50));
            assert_eq!(b.max, v(1000, 1000, 400));
        }
        Node::Leaf(_) => panic!("expected a branch"),
    }
}

#[test]
fn small_sets_become_leaves() {
    let prims = vec![square(0, 0, 10, 5), square(100, 0, 10, 5), square(200, 0, 10, 5), square(300, 0, 10, 5), square(400, 0, 10, 5)];
    let node = build(&prims, vec![0, 1, 2, 3, 4]);
    match node {
        Node::Branch(_, l, r) => {
            // split at x = (395 + -5) / 2 = 195: two least corners lie below, three above
            match (*l, *r) {
                (Node::Leaf(a), Node::Leaf(b)) => {
                    assert_eq!(a, vec![0, 1]);
                    assert_eq!(b, vec![2, 3, 4]);
                }
                _ => panic!("expected two leaves"),
            }
        }
        Node::Leaf(_) => panic!("expected a branch"),
    }
}

#[test]
fn degenerate_split_keeps_all_in_one_leaf() {
    let prims = vec![square(0, 0, 10, 5), square(0, 0, 20, 5), square(0, 0, 30, 5), square(0, 0, 40, 5), square(0, 0, 50, 5)];
    // All least corners agree on x and y; z spreads, so the split is on z.
    let node = build(&prims, vec![0, 1, 2, 3, 4]);
    match node {
        Node::Branch(_, l, r) => match (*l, *r) {
            (Node::Leaf(a), Node::Leaf(b)) => {
                assert_eq!(a, vec![0, 1]);
                assert_eq!(b, vec![2, 3, 4]);
            }
            _ => panic!("expected two leaves"),
        },
        Node::Leaf(_) => panic!("expected a branch"),
    }
    let same = vec![square(0, 0, 10, 5), square(0, 0, 10, 5), square(0, 0, 10, 5), square(0, 0, 10, 5)];
    let node = build(&same, vec![0, 1, 2, 3]);
    match node {
        Node::Branch(_, l, r) => match (*l, *r) {
            (Node::Leaf(a), Node::Leaf(b)) => {
                assert_eq!(a, vec![0, 1, 2, 3]);
                assert!(b.is_empty());
            }
            _ => panic!("expected two leaves"),
        },
        Node::Leaf(_) => panic!("expected a branch"),
    }
}

#[test]
fn empty_storage_hits_nothing() {
    let bvh = BVStorage::new(Vec::new());
    let ray = Ray::new(v(0, 0, 0), v(0, 0, 1)).unwrap();
    assert!(bvh.intercept(&ray).is_none());
    let flat = PrimitiveStorage { elements: Vec::new() };
    assert!(flat.intercept(&ray).is_none());
}

#[test]
fn rebuilding_in_another_order_gives_the_same_distances() {
    let forward = BVStorage::new(scene());
    let mut reversed_list = scene();
    reversed_list.reverse();
    let reversed = BVStorage::new(reversed_list);
    for ray in rays() {
        assert!(same_distance(&forward.intercept(&ray), &reversed.intercept(&ray)));
    }
    let again = BVStorage::new(scene());
    for ray in rays() {
        assert_eq!(forward.intercept(&ray), again.intercept(&ray));
    }
}

#[test]
fn equal_distances_go_to_the_smaller_index() {
    let prims = vec![square(0, 0, 10, 50), square(0, 0, 10, 50)];
    let bvh = BVStorage::new(prims);
    let ray = Ray::new(v(0, 0, 0), v(0, 0, 1)).unwrap();
    assert_eq!(bvh.intercept(&ray).unwrap().prim, 0);
}

#[test]
fn building_twice_gives_the_same_tree() {
    let a = BVStorage::new(scene());
    let b = BVStorage::new(scene());
    assert_eq!(format!("{:?}", a.root), format!("{:?}", b.root));
}

fn leaf_items(node: &Node, out: &mut Vec<usize>) {
    match node {
        Node::Leaf(v) => out.extend(v.iter().copied()),
        Node::Branch(_, l, r) => {
            leaf_items(l, out);
            leaf_items(r, out);
        }
    }
}

#[test]
fn every_primitive_sits_in_exactly_one_leaf() {
    let bvh = BVStorage::new(scene());
    let mut items = Vec::new();
    leaf_items(&bvh.root, &mut items);
    items.sort();
    let expected: Vec<usize> = (0..scene().len()).collect();
    assert_eq!(items, expected);
}
