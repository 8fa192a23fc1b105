use ray_tracing::aabb::{OrderedPoint, AABB};
use ray_tracing::key::order_key;
use ray_tracing::list::{list_bounding_box, nearest_hit, HittableList};

fn k(x: f64) -> u64 {
    order_key(x.to_bits()).unwrap()
}

fn bx(l: [f64; 3], h: [f64; 3]) -> AABB {
    AABB::new(
        OrderedPoint::new(k(l[0]), k(l[1]), k(l[2])),
        OrderedPoint::new(k(h[0]), k(h[1]), k(h[2])),
    )
}

#[test]
fn union_contains_both_and_commutes() {
    let a = bx([0.0, -1.0, 2.0], [1.0, 0.0, 3.0]);
    let b = bx([-2.0, 0.5, 2.5], [0.5, 4.0, 2.75]);
    let u = AABB::surrounding_box(a, b);
    assert_eq!(u, bx([-2.0, -1.0, 2.0], [1.0, 4.0, 3.0]));
    assert_eq!(u, AABB::surrounding_box(b, a));
}

#[test]
fn union_of_degenerate_boxes() {
    let a = bx([1.0, 1.0, 1.0], [1.0, 1.0, 1.0]);
    let b = bx([-1.0, -1.0, -1.0], [-1.0, -1.0, -1.0]);
    assert_eq!(AABB::surrounding_box(a, b), bx([-1.0, -1.0, -1.0], [1.0, 1.0, 1.0]));
}

#[test]
fn nearest_hit_of_empty_list_is_none() {
    let times: Vec<Option<u64>> = Vec::new();
    assert_eq!(nearest_hit(&times), None);
    assert_eq!(nearest_hit(&vec![None, None]), None);
}

#[test]
fn nearest_hit_picks_smallest_time() {
    // two overlapping spheres along the ray: hits at t = 4 and t = 3.5
    let times = vec![Some(k(4.0)), None, Some(k(3.5)), Some(k(9.0))];
    assert_eq!(nearest_hit(&times), Some(2));
}

#[test]
fn nearest_hit_prefers_first_of_equal_times() {
    let times = vec![None, Some(k(2.0)), Some(k(2.0))];
    assert_eq!(nearest_hit(&times), Some(1));
}

#[test]
fn list_box_skips_children_without_box() {
    let a = bx([0.0, 0.0, 0.0], [1.0, 1.0, 1.0]);
    let b = bx([2.0, -3.0, 0.5], [2.5, -2.0, 0.75]);
    assert_eq!(list_bounding_box(&vec![]), None);
    assert_eq!(list_bounding_box(&vec![None]), None);
    assert_eq!(list_bounding_box(&vec![Some(a), None, Some(b)]), Some(AABB::surrounding_box(a, b)));
    assert_eq!(list_bounding_box(&vec![Some(b)]), Some(b));
}

#[test]
fn list_keeps_insertion_order() {
    let mut l: HittableList<u32> = HittableList::new();
    assert_eq!(l.len(), 0);
    l.add(7);
    l.add(3);
    assert_eq!(l.len(), 2);
    assert_eq!(l.objects(), &vec![7, 3]);
}
