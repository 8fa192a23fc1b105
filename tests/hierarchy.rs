use ray_tracing::aabb::{OrderedPoint, AABB};
use ray_tracing::bvh::{sort_by_low, BVHNode, Bvh, BvhChild, Query, Traversal};
use ray_tracing::key::order_key;

fn k(x: f64) -> u64 {
    order_key(x.to_bits()).unwrap()
}

fn cube(c: f64) -> AABB {
    AABB::new(
        OrderedPoint::new(k(c - 0.5), k(c - 0.5), k(c - 0.5)),
        OrderedPoint::new(k(c + 0.5), k(c + 0.5), k(c + 0.5)),
    )
}

fn child_box(b: &Bvh, boxes: &[AABB], c: BvhChild) -> AABB {
    match c {
        BvhChild::Primitive(i) => boxes[i],
        BvhChild::Node(j) => b.nodes[j].bbox,
    }
}

#[test]
fn sort_orders_by_low_corner() {
    let boxes = vec![cube(3.0), cube(-1.0), cube(2.0), cube(-1.0)];
    for axis in 0..3u8 {
        let mut order = vec![0usize, 1, 2, 3];
        sort_by_low(&mut order, &boxes, axis);
        assert_eq!(order, vec![1, 3, 2, 0]);
    }
}

#[test]
fn single_primitive_is_both_children() {
    let boxes = vec![cube(0.0)];
    let b = Bvh::build(&boxes);
    assert_eq!(b.nodes.len(), 1);
    let root = b.nodes[b.root];
    assert_eq!(root.left, BvhChild::Primitive(0));
    assert_eq!(root.right, BvhChild::Primitive(0));
    assert_eq!(root.bbox, cube(0.0));
}

#[test]
fn two_primitives_lower_one_on_the_left() {
    let boxes = vec![cube(5.0), cube(1.0)];
    let mut arena = Vec::new();
    let mut order = vec![0usize, 1];
    let n = BVHNode::new(&mut arena, &mut order, &boxes, 0, 2);
    assert_eq!(n.left, BvhChild::Primitive(1));
    assert_eq!(n.right, BvhChild::Primitive(0));
    assert_eq!(n.bbox, AABB::surrounding_box(cube(5.0), cube(1.0)));
    assert!(arena.is_empty());
}

#[test]
fn equal_keys_swap_the_pair() {
    let boxes = vec![cube(1.0), cube(1.0)];
    let mut arena = Vec::new();
    let mut order = vec![0usize, 1];
    let n = BVHNode::new(&mut arena, &mut order, &boxes, 0, 2);
    assert_eq!(n.left, BvhChild::Primitive(1));
    assert_eq!(n.right, BvhChild::Primitive(0));
}

#[test]
fn built_boxes_cover_their_children() {
    let boxes: Vec<AABB> = (0..9).map(|i| cube((i * 7 % 9) as f64)).collect();
    let b = Bvh::build(&boxes);
    assert_eq!(b.root, b.nodes.len() - 1);
    for (j, n) in b.nodes.iter().enumerate() {
        for c in [n.left, n.right] {
            if let BvhChild::Node(m) = c {
                assert!(m < j);
            }
        }
        let u = AABB::surrounding_box(child_box(&b, &boxes, n.left), child_box(&b, &boxes, n.right));
        assert_eq!(n.bbox, u);
    }
    let root = b.nodes[b.root].bbox;
    assert_eq!(root, AABB::surrounding_box(cube(0.0), cube(8.0)));
}

fn walk(b: &Bvh, box_hit: &dyn Fn(usize) -> bool, prim_hit: &dyn Fn(usize) -> bool) -> (Option<usize>, Vec<Query>) {
    let mut t = Traversal::new(b);
    let mut seen = Vec::new();
    loop {
        let q = t.next_query();
        seen.push(q);
        match q {
            Query::TestBox(j) => t.box_result(b, j, box_hit(j)),
            Query::TestPrimitive(i) => {
                if prim_hit(i) {
                    return (Some(i), seen);
                }
            }
            Query::Exhausted => return (None, seen),
        }
    }
}

#[test]
fn traversal_reports_left_hit_first() {
    let boxes = vec![cube(1.0), cube(5.0)];
    let b = Bvh::build(&boxes);
    // both primitives are hit; the left child (the lower box) wins
    let (r, seen) = walk(&b, &|_| true, &|_| true);
    assert_eq!(r, Some(0));
    assert_eq!(seen, vec![Query::TestBox(0), Query::TestPrimitive(0)]);
    // only the right one is hit
    let (r, _) = walk(&b, &|_| true, &|i| i == 1);
    assert_eq!(r, Some(1));
}

#[test]
fn traversal_missed_root_box_tests_nothing_else() {
    let boxes = vec![cube(1.0), cube(5.0), cube(9.0)];
    let b = Bvh::build(&boxes);
    let (r, seen) = walk(&b, &|_| false, &|_| true);
    assert_eq!(r, None);
    assert_eq!(seen, vec![Query::TestBox(b.root), Query::Exhausted]);
}

#[test]
fn traversal_with_no_primitive_hit_is_exhausted() {
    let boxes: Vec<AABB> = (0..5).map(|i| cube(i as f64 * 2.0)).collect();
    let b = Bvh::build(&boxes);
    let (r, seen) = walk(&b, &|_| true, &|_| false);
    assert_eq!(r, None);
    assert_eq!(seen.last(), Some(&Query::Exhausted));
}

#[test]
fn larger_ranges_build_two_nodes_and_keep_the_primitives() {
    let boxes: Vec<AABB> = [4.0, -2.0, 7.5, 0.0, 3.0].iter().map(|c| cube(*c)).collect();
    let mut arena = Vec::new();
    let mut order = vec![0usize, 1, 2, 3, 4];
    let n = BVHNode::new(&mut arena, &mut order, &boxes, 0, 5);
    assert!(matches!(n.left, BvhChild::Node(_)));
    assert!(matches!(n.right, BvhChild::Node(_)));
    let mut sorted = order.clone();
    sorted.sort();
    assert_eq!(sorted, vec![0, 1, 2, 3, 4]);
    assert_eq!(n.bbox, AABB::surrounding_box(cube(-2.0), cube(7.5)));
}

#[test]
fn sort_keeps_equal_keys_in_order() {
    let boxes = vec![cube(2.0), cube(1.0), cube(2.0), cube(1.0), cube(2.0)];
    let mut order = vec![4usize, 3, 2, 1, 0];
    sort_by_low(&mut order, &boxes, 1);
    assert_eq!(order, vec![3, 1, 4, 2, 0]);
}
