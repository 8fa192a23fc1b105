//! Bounding volume hierarchy over a set of primitives, built in an arena.
//!
//! Primitives are named by their index into a slice of bounding boxes. The
//! working collection is a vector of such indices, reordered in place while
//! the tree is built.
use vstd::prelude::*;
use rand::Rng;
use crate::aabb::{AABB, union_box, lemma_union_laws};

verus! {

/// The low-corner coordinate on `axis` of primitive `p`: the key by which a
/// node orders its primitives.
pub open spec fn low_key(boxes: Seq<AABB>, axis: int, p: usize) -> u64 {
    boxes[p as int].low.coord(axis)
}

/// Every entry of `s` names a primitive.
pub open spec fn indices_below(s: Seq<usize>, n: int) -> bool {
    forall|i: int| 0 <= i < s.len() ==> s[i] < n
}

/// `s` is ordered by the low corner on `axis`.
pub open spec fn sorted_by_low(boxes: Seq<AABB>, axis: int, s: Seq<usize>) -> bool {
    forall|i: int, j: int|
        0 <= i < j < s.len() ==> low_key(boxes, axis, s[i]) <= low_key(boxes, axis, s[j])
}

/// `new` holds the entries of `old` rearranged: entry `i` of `new` is entry
/// `perm[i]` of `old`, no entry of `old` is used twice, and entries with equal
/// keys keep their relative order.
pub open spec fn stable_rearrangement(
    boxes: Seq<AABB>,
    axis: int,
    old: Seq<usize>,
    new: Seq<usize>,
    perm: Seq<int>,
) -> bool {
    &&& perm.len() == new.len() == old.len()
    &&& forall|i: int| 0 <= i < new.len() ==> 0 <= #[trigger] perm[i] < old.len() && new[i] == old[perm[i]]
    &&& forall|i: int, j: int| 0 <= i < j < new.len() ==> perm[i] != perm[j]
    &&& forall|i: int, j: int|
        0 <= i < j < new.len() && low_key(boxes, axis, new[i]) == low_key(boxes, axis, new[j])
            ==> perm[i] < perm[j]
}

/// Sorts the whole working collection by the low corner on `axis`, in place.
/// Of equal keys, the earlier entry stays first.
pub fn sort_by_low(hittables: &mut Vec<usize>, boxes: &Vec<AABB>, axis: u8)
    requires
        axis < 3,
        indices_below(old(hittables)@, boxes@.len() as int),
    ensures
        final(hittables)@.to_multiset() == old(hittables)@.to_multiset(),
        indices_below(final(hittables)@, boxes@.len() as int),
        sorted_by_low(boxes@, axis as int, final(hittables)@),
        exists|perm: Seq<int>|
            #[trigger] stable_rearrangement(boxes@, axis as int, old(hittables)@, final(hittables)@, perm),
{
    let n = hittables.len();
    let ghost h0 = hittables@;
    let ghost ax = axis as int;
    let ghost mut perm: Seq<int> = Seq::new(n as nat, |i: int| i);
    if n == 0 {
        assert(stable_rearrangement(boxes@, ax, h0, hittables@, perm));
        return;
    }
    let mut k: usize = 1;
    while k < n
        invariant
            n == hittables@.len(),
            1 <= k <= n,
            axis < 3,
            ax == axis as int,
            h0 == old(hittables)@,
            hittables@.to_multiset() == old(hittables)@.to_multiset(),
            indices_below(hittables@, boxes@.len() as int),
            sorted_by_low(boxes@, ax, hittables@.subrange(0, k as int)),
            perm.len() == n,
            forall|i: int| 0 <= i < n ==> hittables@[i] == h0[#[trigger] perm[i]],
            forall|i: int| k <= i < n ==> #[trigger] perm[i] == i,
            forall|i: int| 0 <= i < k ==> 0 <= #[trigger] perm[i] < k,
            forall|i: int, j: int| 0 <= i < j < k ==> perm[i] != perm[j],
            forall|i: int, j: int|
                0 <= i < j < k && low_key(boxes@, ax, hittables@[i]) == low_key(
                    boxes@,
                    ax,
                    hittables@[j],
                ) ==> perm[i] < perm[j],
        decreases n - k,
    {
        let x = hittables[k];
        let kx = boxes[x].low.axis(axis);
        let mut p: usize = 0;
        while p < k && boxes[hittables[p]].low.axis(axis) <= kx
            invariant
                p <= k < n == hittables@.len(),
                axis < 3,
                indices_below(hittables@, boxes@.len() as int),
                forall|j: int| 0 <= j < p ==> low_key(boxes@, axis as int, hittables@[j]) <= kx,
            decreases k - p,
        {
            p = p + 1;
        }
        let ghost s = hittables@;
        let ghost pm = perm;
        hittables.remove(k);
        hittables.insert(p, x);
        proof {
            perm = pm.remove(k as int).insert(p as int, k as int);
            let r = s.remove(k as int);
            s.remove_ensures(k as int);
            r.insert_ensures(p as int, x);
            let rp = pm.remove(k as int);
            pm.remove_ensures(k as int);
            rp.insert_ensures(p as int, k as int);
            assert(hittables@ == r.insert(p as int, x));
            broadcast use vstd::seq_lib::to_multiset_remove, vstd::seq_lib::to_multiset_insert,
                vstd::seq_lib::to_multiset_contains;
            broadcast use vstd::multiset::group_multiset_axioms;
            assert(s.contains(x)) by {
                assert(s[k as int] == x);
            }
            assert(s.to_multiset().remove(x).insert(x) =~= s.to_multiset());
            let t = hittables@;
            // where each entry of the new prefix came from
            assert forall|j: int| 0 <= j <= k implies #[trigger] t[j] == (if j < p {
                s[j]
            } else if j == p {
                x
            } else {
                s[j - 1]
            }) && perm[j] == (if j < p {
                pm[j]
            } else if j == p {
                k as int
            } else {
                pm[j - 1]
            }) by {}
            assert forall|j: int| k < j < n implies #[trigger] t[j] == s[j] && perm[j] == pm[j] by {}
            assert forall|j: int| 0 <= j < t.len() implies t[j] < boxes@.len() by {
                if j <= k {
                    assert(t[j] == (if j < p {
                        s[j]
                    } else if j == p {
                        x
                    } else {
                        s[j - 1]
                    }));
                } else {
                    assert(t[j] == s[j]);
                }
            }
            assert forall|i: int| 0 <= i < n implies t[i] == h0[#[trigger] perm[i]] by {
                assert(s[k as int] == h0[pm[k as int]] && pm[k as int] == k);
                if i < p {
                    assert(s[i] == h0[pm[i]]);
                } else if p < i <= k {
                    assert(s[i - 1] == h0[pm[i - 1]]);
                }
                if i <= k {
                    assert(t[i] == (if i < p {
                        s[i]
                    } else if i == p {
                        x
                    } else {
                        s[i - 1]
                    }));
                    assert(perm[i] == (if i < p {
                        pm[i]
                    } else if i == p {
                        k as int
                    } else {
                        pm[i - 1]
                    }));
                } else {
                    assert(t[i] == s[i] && perm[i] == pm[i]);
                }
            }
            assert forall|i: int| k + 1 <= i < n implies #[trigger] perm[i] == i by {
                assert(t[i] == s[i] && perm[i] == pm[i]);
            }
            assert forall|i: int| 0 <= i < k + 1 implies 0 <= #[trigger] perm[i] < k + 1 by {
                assert(perm[i] == (if i < p {
                    pm[i]
                } else if i == p {
                    k as int
                } else {
                    pm[i - 1]
                }));
            }
            let ps = s.subrange(0, k as int);
            assert forall|i: int, j: int| 0 <= i < j < k + 1 implies {
                &&& low_key(boxes@, ax, t[i]) <= low_key(boxes@, ax, t[j])
                &&& perm[i] != perm[j]
                &&& (low_key(boxes@, ax, t[i]) == low_key(boxes@, ax, t[j]) ==> perm[i] < perm[j])
            } by {
                assert(t[i] == (if i < p {
                    s[i]
                } else if i == p {
                    x
                } else {
                    s[i - 1]
                }) && perm[i] == (if i < p {
                    pm[i]
                } else if i == p {
                    k as int
                } else {
                    pm[i - 1]
                }));
                assert(t[j] == (if j < p {
                    s[j]
                } else if j == p {
                    x
                } else {
                    s[j - 1]
                }) && perm[j] == (if j < p {
                    pm[j]
                } else if j == p {
                    k as int
                } else {
                    pm[j - 1]
                }));
                if i < p && j < p {
                    assert(ps[i] == s[i] && ps[j] == s[j]);
                } else if i < p && j == p {
                    assert(0 <= pm[i] < k);
                } else if i < p {
                    assert(ps[i] == s[i] && ps[j - 1] == s[j - 1]);
                } else if i == p {
                    assert(p < k);
                    assert(ps[p as int] == s[p as int] && ps[j - 1] == s[j - 1]);
                    assert(low_key(boxes@, ax, s[p as int]) > kx);
                    assert(0 <= pm[j - 1] < k);
                    if j - 1 > p {
                        assert(low_key(boxes@, ax, ps[p as int]) <= low_key(boxes@, ax, ps[j - 1]));
                    }
                } else {
                    assert(ps[i - 1] == s[i - 1] && ps[j - 1] == s[j - 1]);
                }
            }
            assert(sorted_by_low(boxes@, ax, t.subrange(0, k + 1)));
        }
        k = k + 1;
    }
    assert(hittables@.subrange(0, n as int) =~= hittables@);
    assert(stable_rearrangement(boxes@, ax, h0, hittables@, perm));
}

/// A child of a node: a primitive, or another node of the arena.
#[derive(Clone, Copy, PartialEq, Eq, Structural, Debug)]
pub enum BvhChild {
    Primitive(usize),
    Node(usize),
}

/// An inner node: two children and the box around both.
#[derive(Clone, Copy, PartialEq, Eq, Structural, Debug)]
pub struct BVHNode {
    pub left: BvhChild,
    pub right: BvhChild,
    pub bbox: AABB,
}

/// The box of a child: the primitive's box, or the node's cached box.
pub open spec fn child_box(arena: Seq<BVHNode>, boxes: Seq<AABB>, c: BvhChild) -> AABB {
    match c {
        BvhChild::Primitive(i) => boxes[i as int],
        BvhChild::Node(j) => arena[j as int].bbox,
    }
}

/// The child names a primitive, or a node of the arena below `bound`.
pub open spec fn child_ok(nprims: int, bound: int, c: BvhChild) -> bool {
    match c {
        BvhChild::Primitive(i) => i < nprims,
        BvhChild::Node(j) => j < bound,
    }
}

/// A node whose children are valid and lie below `bound`, and whose box is
/// the union of its children's boxes.
pub open spec fn node_ok(arena: Seq<BVHNode>, boxes: Seq<AABB>, n: BVHNode, bound: int) -> bool {
    &&& child_ok(boxes.len() as int, bound, n.left)
    &&& child_ok(boxes.len() as int, bound, n.right)
    &&& n.bbox == union_box(child_box(arena, boxes, n.left), child_box(arena, boxes, n.right))
    &&& n.bbox.wf()
}

/// Every node of the arena refers only to primitives and to earlier nodes,
/// and caches the union of its children's boxes.
pub open spec fn arena_wf(arena: Seq<BVHNode>, boxes: Seq<AABB>) -> bool {
    forall|k: int| 0 <= k < arena.len() ==> node_ok(arena, boxes, #[trigger] arena[k], k)
}

/// Every primitive's box has its low corner at or below its high corner.
pub open spec fn boxes_wf(boxes: Seq<AABB>) -> bool {
    forall|i: int| 0 <= i < boxes.len() ==> (#[trigger] boxes[i]).wf()
}

proof fn lemma_node_ok_extend(a1: Seq<BVHNode>, a2: Seq<BVHNode>, boxes: Seq<AABB>, n: BVHNode, bound: int)
    requires
        node_ok(a1, boxes, n, bound),
        bound <= a1.len() <= a2.len(),
        a2.subrange(0, a1.len() as int) == a1,
    ensures
        node_ok(a2, boxes, n, bound),
{
    match n.left {
        BvhChild::Node(j) => assert(a2.subrange(0, a1.len() as int)[j as int] == a2[j as int]),
        _ => {},
    }
    match n.right {
        BvhChild::Node(j) => assert(a2.subrange(0, a1.len() as int)[j as int] == a2[j as int]),
        _ => {},
    }
}

proof fn lemma_arena_push(arena: Seq<BVHNode>, boxes: Seq<AABB>, n: BVHNode)
    requires
        arena_wf(arena, boxes),
        node_ok(arena, boxes, n, arena.len() as int),
    ensures
        arena_wf(arena.push(n), boxes),
        arena.push(n).subrange(0, arena.len() as int) == arena,
{
    let a2 = arena.push(n);
    assert(a2.subrange(0, arena.len() as int) =~= arena);
    assert forall|k: int| 0 <= k < a2.len() implies node_ok(a2, boxes, #[trigger] a2[k], k) by {
        if k < arena.len() {
            assert(a2[k] == arena[k]);
            lemma_node_ok_extend(arena, a2, boxes, arena[k], k);
        } else {
            lemma_node_ok_extend(arena, a2, boxes, n, arena.len() as int);
        }
    }
}

/// The children of `n` are primitives `a` and `b`, `a` on the left exactly
/// when its low corner on `axis` is strictly below that of `b`.
pub open spec fn pair_ordered(boxes: Seq<AABB>, axis: int, a: usize, b: usize, n: BVHNode) -> bool {
    if low_key(boxes, axis, a) < low_key(boxes, axis, b) {
        n.left == BvhChild::Primitive(a) && n.right == BvhChild::Primitive(b)
    } else {
        n.left == BvhChild::Primitive(b) && n.right == BvhChild::Primitive(a)
    }
}

/// In a well-formed arena every node's box contains the boxes of both of its
/// children, so a ray that misses a node's box misses everything below it.
pub proof fn lemma_node_box_covers(arena: Seq<BVHNode>, boxes: Seq<AABB>, k: int)
    requires
        arena_wf(arena, boxes),
        boxes_wf(boxes),
        0 <= k < arena.len(),
    ensures
        arena[k].bbox.contains(child_box(arena, boxes, arena[k].left)),
        arena[k].bbox.contains(child_box(arena, boxes, arena[k].right)),
        arena[k].bbox.wf(),
{
    let n = arena[k];
    assert(node_ok(arena, boxes, n, k));
    match n.left {
        BvhChild::Node(j) => assert(node_ok(arena, boxes, arena[j as int], j as int)),
        BvhChild::Primitive(i) => assert(boxes[i as int].wf()),
    }
    match n.right {
        BvhChild::Node(j) => assert(node_ok(arena, boxes, arena[j as int], j as int)),
        BvhChild::Primitive(i) => assert(boxes[i as int].wf()),
    }
    lemma_union_laws(child_box(arena, boxes, n.left), child_box(arena, boxes, n.right));
}

/// Relies on rand::thread_rng and rand::Rng::gen_range(low, high), which draws
/// uniformly from [low, high) when low < high.
#[verifier::external_body]
fn random_axis() -> (r: u8)
    ensures
        r < 3,
{
    rand::thread_rng().gen_range(0u8, 3u8)
}

impl BVHNode {
    /// Builds the node over positions `start..end` of the working collection
    /// `hittables`. Nodes built below it are appended to `arena`; the node
    /// itself is returned. One axis is drawn at random for the node. A single
    /// primitive becomes both children. Two are ordered by their low corner on
    /// that axis, the first on the left only when strictly lower. For more,
    /// the whole collection is sorted by that key and the range is split at
    /// its midpoint, each half becoming a node of its own.
    pub fn new(
        arena: &mut Vec<BVHNode>,
        hittables: &mut Vec<usize>,
        boxes: &Vec<AABB>,
        start: usize,
        end: usize,
    ) -> (r: BVHNode)
        requires
            start < end <= old(hittables)@.len(),
            indices_below(old(hittables)@, boxes@.len() as int),
            boxes_wf(boxes@),
            arena_wf(old(arena)@, boxes@),
        ensures
            arena_wf(final(arena)@, boxes@),
            old(arena)@.len() <= final(arena)@.len(),
            final(arena)@.subrange(0, old(arena)@.len() as int) == old(arena)@,
            node_ok(final(arena)@, boxes@, r, final(arena)@.len() as int),
            final(hittables)@.to_multiset() == old(hittables)@.to_multiset(),
            indices_below(final(hittables)@, boxes@.len() as int),
            end - start == 1 ==> {
                &&& r.left == BvhChild::Primitive(old(hittables)@[start as int])
                &&& r.right == r.left
                &&& final(hittables)@ == old(hittables)@
            },
            end - start == 2 ==> {
                &&& final(hittables)@ == old(hittables)@
                &&& exists|axis: int|
                    0 <= axis < 3 && #[trigger] pair_ordered(
                        boxes@,
                        axis,
                        old(hittables)@[start as int],
                        old(hittables)@[start + 1],
                        r,
                    )
            },
            end - start > 2 ==> {
                &&& r.left matches BvhChild::Node(j) && old(arena)@.len() <= j
                &&& r.right matches BvhChild::Node(j) && old(arena)@.len() <= j
            },
        decreases end - start,
    {
        let axis = random_axis();
        let span = end - start;
        let left: BvhChild;
        let right: BvhChild;
        if span == 1 {
            left = BvhChild::Primitive(hittables[start]);
            right = left;
        } else if span == 2 {
            let a = hittables[start];
            let b = hittables[start + 1];
            if boxes[a].low.axis(axis) < boxes[b].low.axis(axis) {
                left = BvhChild::Primitive(a);
                right = BvhChild::Primitive(b);
            } else {
                left = BvhChild::Primitive(b);
                right = BvhChild::Primitive(a);
            }
        } else {
            let middle = start + span / 2;
            let ghost h0 = hittables@;
            sort_by_low(hittables, boxes, axis);
            proof {
                vstd::seq_lib::to_multiset_len(h0);
                vstd::seq_lib::to_multiset_len(hittables@);
            }
            let ghost a0 = arena@;
            let l = BVHNode::new(arena, hittables, boxes, start, middle);
            proof {
                lemma_arena_push(arena@, boxes@, l);
            }
            arena.push(l);
            let li = arena.len() - 1;
            let ghost a1 = arena@;
            proof {
                vstd::seq_lib::to_multiset_len(h0);
                vstd::seq_lib::to_multiset_len(hittables@);
            }
            let rn = BVHNode::new(arena, hittables, boxes, middle, end);
            proof {
                lemma_arena_push(arena@, boxes@, rn);
                assert(arena@.subrange(0, a1.len() as int)[li as int] == arena@[li as int]);
            }
            arena.push(rn);
            let ri = arena.len() - 1;
            left = BvhChild::Node(li);
            right = BvhChild::Node(ri);
            proof {
                assert(arena@.subrange(0, a1.len() as int) =~= a1);
                assert(arena@.subrange(0, a0.len() as int) =~= a0);
            }
        }
        let lb = match left {
            BvhChild::Primitive(i) => boxes[i],
            BvhChild::Node(j) => arena[j].bbox,
        };
        let rb = match right {
            BvhChild::Primitive(i) => boxes[i],
            BvhChild::Node(j) => arena[j].bbox,
        };
        proof {
            lemma_union_laws(lb, rb);
        }
        let r = BVHNode { left, right, bbox: AABB::surrounding_box(lb, rb) };
        if span == 2 {
            assert(pair_ordered(boxes@, axis as int, hittables@[start as int], hittables@[start + 1], r));
        }
        r
    }
}

/// A built hierarchy: the arena of nodes and the position of the root.
pub struct Bvh {
    pub nodes: Vec<BVHNode>,
    pub root: usize,
}

impl Bvh {
    /// The arena is well formed over `boxes` and the root is its last node.
    pub open spec fn wf(&self, boxes: Seq<AABB>) -> bool {
        &&& arena_wf(self.nodes@, boxes)
        &&& self.nodes@.len() > 0
        &&& self.root == self.nodes@.len() - 1
    }

    /// Builds the hierarchy over all primitives, given their boxes in order.
    pub fn build(boxes: &Vec<AABB>) -> (r: Bvh)
        requires
            boxes@.len() > 0,
            boxes_wf(boxes@),
        ensures
            r.wf(boxes@),
    {
        let mut hittables: Vec<usize> = Vec::new();
        let mut i: usize = 0;
        while i < boxes.len()
            invariant
                i <= boxes@.len(),
                hittables@.len() == i,
                indices_below(hittables@, boxes@.len() as int),
            decreases boxes@.len() - i,
        {
            hittables.push(i);
            i = i + 1;
        }
        let mut nodes: Vec<BVHNode> = Vec::new();
        let n = hittables.len();
        let root = BVHNode::new(&mut nodes, &mut hittables, boxes, 0, n);
        proof {
            lemma_arena_push(nodes@, boxes@, root);
        }
        nodes.push(root);
        let r = nodes.len() - 1;
        Bvh { nodes, root: r }
    }
}

/// A node child lies before position `j` of the arena; a primitive always does.
pub open spec fn precedes(c: BvhChild, j: int) -> bool {
    match c {
        BvhChild::Primitive(_) => true,
        BvhChild::Node(k) => k < j,
    }
}

/// The primitive whose hit a subtree reports, given which node boxes the ray
/// meets (`box_hit`) and which primitives it hits (`prim_hit`). A node whose
/// box is missed reports nothing. Otherwise the left child is asked first,
/// and its hit is reported without asking the right child, even where the
/// right child's hit would be nearer.
pub open spec fn first_hit(
    arena: Seq<BVHNode>,
    c: BvhChild,
    box_hit: spec_fn(usize) -> bool,
    prim_hit: spec_fn(usize) -> bool,
) -> Option<usize>
    decreases
            (match c {
                BvhChild::Primitive(_) => 0,
                BvhChild::Node(j) => j + 1,
            }),
{
    match c {
        BvhChild::Primitive(i) => if prim_hit(i) {
            Some(i)
        } else {
            None
        },
        BvhChild::Node(j) => {
            if j < arena.len() && box_hit(j) && precedes(arena[j as int].left, j as int)
                && precedes(arena[j as int].right, j as int) {
                match first_hit(arena, arena[j as int].left, box_hit, prim_hit) {
                    Some(i) => Some(i),
                    None => first_hit(arena, arena[j as int].right, box_hit, prim_hit),
                }
            } else {
                None
            }
        },
    }
}

/// The first hit among the children still to visit, the top of the stack
/// (its last entry) first.
pub open spec fn first_in_stack(
    arena: Seq<BVHNode>,
    s: Seq<BvhChild>,
    box_hit: spec_fn(usize) -> bool,
    prim_hit: spec_fn(usize) -> bool,
) -> Option<usize>
    decreases s.len(),
{
    if s.len() == 0 {
        None
    } else {
        match first_hit(arena, s.last(), box_hit, prim_hit) {
            Some(i) => Some(i),
            None => first_in_stack(arena, s.drop_last(), box_hit, prim_hit),
        }
    }
}

/// What a traversal asks of the caller next.
#[derive(Clone, Copy, PartialEq, Eq, Structural, Debug)]
pub enum Query {
    /// Does the ray meet the box of this node?
    TestBox(usize),
    /// Does the ray hit this primitive? A hit ends the traversal.
    TestPrimitive(usize),
    /// Nothing is left to visit: the ray hits nothing in the hierarchy.
    Exhausted,
}

/// The state of one ray's walk down a hierarchy: the children still to visit.
pub struct Traversal {
    stack: Vec<BvhChild>,
}

impl View for Traversal {
    type V = Seq<BvhChild>;

    closed spec fn view(&self) -> Seq<BvhChild> {
        self.stack@
    }
}

impl Traversal {
    /// A walk that starts at the root.
    pub fn new(bvh: &Bvh) -> (r: Traversal)
        ensures
            r@ == seq![BvhChild::Node(bvh.root)],
    {
        let mut stack: Vec<BvhChild> = Vec::new();
        stack.push(BvhChild::Node(bvh.root));
        proof {
            assert(stack@ =~= seq![BvhChild::Node(bvh.root)]);
        }
        Traversal { stack }
    }

    /// Takes the next child to visit off the stack and says what to test.
    pub fn next_query(&mut self) -> (q: Query)
        ensures
            old(self)@.len() == 0 ==> q == Query::Exhausted && final(self)@ == old(self)@,
            old(self)@.len() > 0 ==> {
                &&& final(self)@ == old(self)@.drop_last()
                &&& q == match old(self)@.last() {
                    BvhChild::Node(j) => Query::TestBox(j),
                    BvhChild::Primitive(i) => Query::TestPrimitive(i),
                }
            },
    {
        match self.stack.pop() {
            None => Query::Exhausted,
            Some(BvhChild::Node(j)) => Query::TestBox(j),
            Some(BvhChild::Primitive(i)) => Query::TestPrimitive(i),
        }
    }

    /// Records whether the ray meets the box of node `j`: on a hit both
    /// children are to be visited, the left one first.
    pub fn box_result(&mut self, bvh: &Bvh, j: usize, hit: bool)
        requires
            j < bvh.nodes@.len(),
        ensures
            hit ==> final(self)@ == old(self)@.push(bvh.nodes@[j as int].right).push(
                bvh.nodes@[j as int].left,
            ),
            !hit ==> final(self)@ == old(self)@,
    {
        if hit {
            let n = bvh.nodes[j];
            self.stack.push(n.right);
            self.stack.push(n.left);
        }
    }
}

/// Walking the stack finds what a recursive descent would: a walk starts from
/// the root alone; a missed box drops its node; a box that is met is replaced
/// by its right and then its left child, so the left child's subtree is
/// searched first; a primitive that is hit is the answer, and one that is
/// missed is dropped.
pub proof fn lemma_traversal_steps(
    bvh: &Bvh,
    boxes: Seq<AABB>,
    s: Seq<BvhChild>,
    box_hit: spec_fn(usize) -> bool,
    prim_hit: spec_fn(usize) -> bool,
)
    requires
        bvh.wf(boxes),
    ensures
        first_in_stack(bvh.nodes@, seq![BvhChild::Node(bvh.root)], box_hit, prim_hit)
            == first_hit(bvh.nodes@, BvhChild::Node(bvh.root), box_hit, prim_hit),
        forall|j: usize|
            #![trigger first_in_stack(bvh.nodes@, s.push(BvhChild::Node(j)), box_hit, prim_hit)]
            j < bvh.nodes@.len() ==> first_in_stack(
                bvh.nodes@,
                s.push(BvhChild::Node(j)),
                box_hit,
                prim_hit,
            ) == if box_hit(j) {
                first_in_stack(
                    bvh.nodes@,
                    s.push(bvh.nodes@[j as int].right).push(bvh.nodes@[j as int].left),
                    box_hit,
                    prim_hit,
                )
            } else {
                first_in_stack(bvh.nodes@, s, box_hit, prim_hit)
            },
        forall|i: usize|
            #![trigger first_in_stack(bvh.nodes@, s.push(BvhChild::Primitive(i)), box_hit, prim_hit)]
            first_in_stack(bvh.nodes@, s.push(BvhChild::Primitive(i)), box_hit, prim_hit) == if prim_hit(
                i,
            ) {
                Some(i)
            } else {
                first_in_stack(bvh.nodes@, s, box_hit, prim_hit)
            },
{
    let a = bvh.nodes@;
    let one = seq![BvhChild::Node(bvh.root)];
    assert(one.drop_last() =~= Seq::<BvhChild>::empty());
    assert(one.last() == BvhChild::Node(bvh.root));
    assert(first_in_stack(a, one.drop_last(), box_hit, prim_hit) == None::<usize>);
    assert forall|j: usize| j < a.len() implies first_in_stack(
        a,
        s.push(BvhChild::Node(j)),
        box_hit,
        prim_hit,
    ) == if box_hit(j) {
        first_in_stack(a, s.push(a[j as int].right).push(a[j as int].left), box_hit, prim_hit)
    } else {
        first_in_stack(a, s, box_hit, prim_hit)
    } by {
        let sj = s.push(BvhChild::Node(j));
        assert(sj.drop_last() =~= s);
        assert(sj.last() == BvhChild::Node(j));
        assert(node_ok(a, boxes, a[j as int], j as int));
        let l = a[j as int].left;
        let r = a[j as int].right;
        assert(precedes(l, j as int) && precedes(r, j as int));
        let sr = s.push(r);
        let slr = sr.push(l);
        assert(slr.drop_last() =~= sr);
        assert(sr.drop_last() =~= s);
        assert(slr.last() == l);
        assert(sr.last() == r);
        let fh = first_hit(a, BvhChild::Node(j), box_hit, prim_hit);
        let rest = first_in_stack(a, s, box_hit, prim_hit);
        assert(first_in_stack(a, sj, box_hit, prim_hit) == match fh {
            Some(i) => Some(i),
            None => rest,
        });
        assert(first_in_stack(a, sr, box_hit, prim_hit) == match first_hit(a, r, box_hit, prim_hit) {
            Some(i) => Some(i),
            None => rest,
        });
        assert(first_in_stack(a, slr, box_hit, prim_hit) == match first_hit(a, l, box_hit, prim_hit) {
            Some(i) => Some(i),
            None => first_in_stack(a, sr, box_hit, prim_hit),
        });
        if box_hit(j) {
            assert(fh == match first_hit(a, l, box_hit, prim_hit) {
                Some(i) => Some(i),
                None => first_hit(a, r, box_hit, prim_hit),
            });
        } else {
            assert(fh == None::<usize>);
        }
    }
    assert forall|i: usize| first_in_stack(a, s.push(BvhChild::Primitive(i)), box_hit, prim_hit)
        == if prim_hit(i) {
        Some(i)
    } else {
        first_in_stack(a, s, box_hit, prim_hit)
    } by {
        assert(s.push(BvhChild::Primitive(i)).drop_last() =~= s);
    }
}

} // verus!
