//! An ordered collection of primitives, and the two reductions over it: the
//! nearest hit and the box around every member.
use vstd::prelude::*;
use crate::aabb::{AABB, union_box};

verus! {

/// An ordered collection of scene objects.
pub struct HittableList<T> {
    objects: Vec<T>,
}

impl<T> View for HittableList<T> {
    type V = Seq<T>;

    closed spec fn view(&self) -> Seq<T> {
        self.objects@
    }
}

impl<T> HittableList<T> {
    pub fn new() -> (r: HittableList<T>)
        ensures
            r@ == Seq::<T>::empty(),
    {
        HittableList { objects: Vec::new() }
    }

    /// Appends an object at the end.
    pub fn add(&mut self, hittable: T)
        ensures
            final(self)@ == old(self)@.push(hittable),
    {
        self.objects.push(hittable);
    }

    pub fn len(&self) -> (r: usize)
        ensures
            r == self@.len(),
    {
        self.objects.len()
    }

    pub fn objects(&self) -> (r: &Vec<T>)
        ensures
            r@ == self@,
    {
        &self.objects
    }
}

/// `i` is the first position holding the smallest time among the positions
/// that hold a time at all.
pub open spec fn is_nearest(times: Seq<Option<u64>>, i: int) -> bool {
    &&& 0 <= i < times.len()
    &&& times[i] is Some
    &&& forall|j: int|
        0 <= j < times.len() && times[j] is Some ==> times[i]->0 <= times[j]->0
    &&& forall|j: int| 0 <= j < i && times[j] is Some ==> times[i]->0 < times[j]->0
}

/// Of the children's hit times (order keys, `None` for a child that was not
/// hit), the position of the nearest hit: the smallest time, and of equal
/// times the first. `None` when no child was hit, and so on an empty list.
pub fn nearest_hit(times: &Vec<Option<u64>>) -> (r: Option<usize>)
    ensures
        r matches Some(i) ==> is_nearest(times@, i as int),
        r is None <==> forall|j: int| 0 <= j < times@.len() ==> times@[j] is None,
{
    let mut best: Option<usize> = None;
    let mut k: usize = 0;
    while k < times.len()
        invariant
            k <= times@.len(),
            best matches Some(i) ==> is_nearest(times@.subrange(0, k as int), i as int),
            best is None <==> forall|j: int| 0 <= j < k ==> times@[j] is None,
        decreases times@.len() - k,
    {
        let t = times[k];
        match t {
            Some(tk) => {
                match best {
                    Some(i) => {
                        let ti = times[i].unwrap();
                        if tk < ti {
                            best = Some(k);
                        }
                    },
                    None => {
                        best = Some(k);
                    },
                }
            },
            None => {},
        }
        proof {
            let s = times@.subrange(0, k as int);
            let s1 = times@.subrange(0, k + 1);
            assert forall|j: int| 0 <= j < k implies s1[j] == s[j] by {}
            assert(s1[k as int] == times@[k as int]);
        }
        k = k + 1;
    }
    assert(times@.subrange(0, times@.len() as int) =~= times@);
    best
}

/// The boxes present in `boxes`, folded left to right by union; `None` when
/// no entry holds a box.
pub open spec fn fold_boxes(boxes: Seq<Option<AABB>>) -> Option<AABB>
    decreases boxes.len(),
{
    if boxes.len() == 0 {
        None
    } else {
        let acc = fold_boxes(boxes.drop_last());
        match boxes.last() {
            None => acc,
            Some(b) => match acc {
                None => Some(b),
                Some(a) => Some(union_box(a, b)),
            },
        }
    }
}

/// The box around a list given its children's boxes (`None` for a child
/// without one): the union of the boxes present, or `None` for an empty
/// list or one in which no child has a box.
pub fn list_bounding_box(boxes: &Vec<Option<AABB>>) -> (r: Option<AABB>)
    ensures
        r == fold_boxes(boxes@),
{
    let mut acc: Option<AABB> = None;
    let mut k: usize = 0;
    while k < boxes.len()
        invariant
            k <= boxes@.len(),
            acc == fold_boxes(boxes@.subrange(0, k as int)),
        decreases boxes@.len() - k,
    {
        let ghost s1 = boxes@.subrange(0, k + 1);
        assert(s1.drop_last() =~= boxes@.subrange(0, k as int));
        match boxes[k] {
            Some(b) => {
                acc = match acc {
                    None => Some(b),
                    Some(a) => Some(AABB::surrounding_box(a, b)),
                };
            },
            None => {},
        }
        k = k + 1;
    }
    assert(boxes@.subrange(0, boxes@.len() as int) =~= boxes@);
    acc
}

} // verus!
