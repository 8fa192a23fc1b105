//! Axis-aligned bounding boxes whose corner coordinates are order keys.
use vstd::prelude::*;

verus! {

/// A point whose three coordinates are order keys (see `key`).
#[derive(Clone, Copy, PartialEq, Eq, Structural, Debug)]
pub struct OrderedPoint {
    pub x: u64,
    pub y: u64,
    pub z: u64,
}

impl OrderedPoint {
    pub open spec fn coord(self, axis: int) -> u64 {
        if axis == 0 {
            self.x
        } else if axis == 1 {
            self.y
        } else {
            self.z
        }
    }

    /// Each coordinate of `self` is at most that of `o`.
    pub open spec fn le(self, o: OrderedPoint) -> bool {
        self.x <= o.x && self.y <= o.y && self.z <= o.z
    }

    pub fn new(x: u64, y: u64, z: u64) -> (r: OrderedPoint)
        ensures
            r == (OrderedPoint { x, y, z }),
    {
        OrderedPoint { x, y, z }
    }

    /// The coordinate on axis 0 (x), 1 (y) or 2 (z).
    pub fn axis(&self, axis: u8) -> (r: u64)
        requires
            axis < 3,
        ensures
            r == self.coord(axis as int),
    {
        if axis == 0 {
            self.x
        } else if axis == 1 {
            self.y
        } else {
            self.z
        }
    }
}

pub open spec fn min_key(a: u64, b: u64) -> u64 {
    if a <= b {
        a
    } else {
        b
    }
}

pub open spec fn max_key(a: u64, b: u64) -> u64 {
    if a >= b {
        a
    } else {
        b
    }
}

fn min_of(a: u64, b: u64) -> (r: u64)
    ensures
        r == min_key(a, b),
{
    if a <= b {
        a
    } else {
        b
    }
}

fn max_of(a: u64, b: u64) -> (r: u64)
    ensures
        r == max_key(a, b),
{
    if a >= b {
        a
    } else {
        b
    }
}

/// A box given by its low and high corners. Boxes built by the library have
/// `low <= high` on every axis; a box of zero volume is allowed.
#[derive(Clone, Copy, PartialEq, Eq, Structural, Debug)]
pub struct AABB {
    pub low: OrderedPoint,
    pub high: OrderedPoint,
}

/// The smallest box that holds both `a` and `b`: componentwise minimum of the
/// low corners, maximum of the high corners.
pub open spec fn union_box(a: AABB, b: AABB) -> AABB {
    AABB {
        low: OrderedPoint {
            x: min_key(a.low.x, b.low.x),
            y: min_key(a.low.y, b.low.y),
            z: min_key(a.low.z, b.low.z),
        },
        high: OrderedPoint {
            x: max_key(a.high.x, b.high.x),
            y: max_key(a.high.y, b.high.y),
            z: max_key(a.high.z, b.high.z),
        },
    }
}

impl AABB {
    /// The low corner lies at or below the high corner on every axis.
    pub open spec fn wf(self) -> bool {
        self.low.le(self.high)
    }

    /// `self` holds all of `o`.
    pub open spec fn contains(self, o: AABB) -> bool {
        self.low.le(o.low) && o.high.le(self.high)
    }

    pub fn new(low: OrderedPoint, high: OrderedPoint) -> (r: AABB)
        ensures
            r == (AABB { low, high }),
    {
        AABB { low, high }
    }

    /// The box around both `a` and `b`.
    pub fn surrounding_box(a: AABB, b: AABB) -> (r: AABB)
        ensures
            r == union_box(a, b),
    {
        AABB {
            low: OrderedPoint {
                x: min_of(a.low.x, b.low.x),
                y: min_of(a.low.y, b.low.y),
                z: min_of(a.low.z, b.low.z),
            },
            high: OrderedPoint {
                x: max_of(a.high.x, b.high.x),
                y: max_of(a.high.y, b.high.y),
                z: max_of(a.high.z, b.high.z),
            },
        }
    }
}

/// The union of two boxes contains both of them, does not depend on their
/// order, and keeps the low corner at or below the high corner.
pub proof fn lemma_union_laws(a: AABB, b: AABB)
    requires
        a.wf(),
        b.wf(),
    ensures
        union_box(a, b).contains(a),
        union_box(a, b).contains(b),
        union_box(a, b) == union_box(b, a),
        union_box(a, b).wf(),
{
}

} // verus!
