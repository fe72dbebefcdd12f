use vstd::prelude::*;

verus! {

/// An axis.
#[derive(Debug, Clone, Copy, PartialEq, Eq, Structural)]
pub enum Axis {
    X,
    Y,
    Z,
}

/// Bounding-box coordinates live on an integer grid; callers quantize their
/// geometry onto it. Keeping every coordinate within this limit keeps all of
/// the arithmetic of the surface-area heuristic far away from overflow.
pub const COORD_LIMIT: i64 = 1048576;

/// A point on the integer coordinate grid that bounding boxes are built over.
#[derive(Debug, Clone, Copy, PartialEq, Eq, Structural)]
pub struct GridVec {
    pub x: i64,
    pub y: i64,
    pub z: i64,
}

impl GridVec {
    /// Whether every component lies within the coordinate limit.
    pub open spec fn wf(self) -> bool {
        -COORD_LIMIT <= self.x <= COORD_LIMIT && -COORD_LIMIT <= self.y <= COORD_LIMIT
            && -COORD_LIMIT <= self.z <= COORD_LIMIT
    }

    pub open spec fn spec_axis(self, axis: Axis) -> i64 {
        match axis {
            Axis::X => self.x,
            Axis::Y => self.y,
            Axis::Z => self.z,
        }
    }

    pub fn new(x: i64, y: i64, z: i64) -> (v: Self)
        ensures
            v == (GridVec { x, y, z }),
    {
        GridVec { x, y, z }
    }

    /// Select one component by axis.
    #[verifier::when_used_as_spec(spec_axis)]
    pub fn axis(self, axis: Axis) -> (r: i64)
        ensures
            r == self.spec_axis(axis),
    {
        match axis {
            Axis::X => self.x,
            Axis::Y => self.y,
            Axis::Z => self.z,
        }
    }
}

/// An axis-aligned bounding box on the integer grid, stored by its minimum
/// and maximum corners.
#[derive(Debug, Clone, Copy, PartialEq, Eq, Structural)]
pub struct Aabb {
    pub min: GridVec,
    pub max: GridVec,
}

impl Aabb {
    /// A well-formed box has both corners on the grid and the corners ordered.
    pub open spec fn wf(self) -> bool {
        self.min.wf() && self.max.wf() && self.min.x <= self.max.x && self.min.y <= self.max.y
            && self.min.z <= self.max.z
    }

    /// Whether `other` lies entirely inside this box.
    pub open spec fn contains_box(self, other: Aabb) -> bool {
        self.min.x <= other.min.x && self.min.y <= other.min.y && self.min.z <= other.min.z
            && other.max.x <= self.max.x && other.max.y <= self.max.y && other.max.z <= self.max.z
    }

    pub fn new(min: GridVec, max: GridVec) -> (b: Self)
        ensures
            b == (Aabb { min, max }),
    {
        Aabb { min, max }
    }

    /// The componentwise union of two boxes.
    pub open spec fn spec_union(self, other: Aabb) -> Aabb {
        Aabb {
            min: GridVec {
                x: if self.min.x <= other.min.x {
                    self.min.x
                } else {
                    other.min.x
                },
                y: if self.min.y <= other.min.y {
                    self.min.y
                } else {
                    other.min.y
                },
                z: if self.min.z <= other.min.z {
                    self.min.z
                } else {
                    other.min.z
                },
            },
            max: GridVec {
                x: if self.max.x >= other.max.x {
                    self.max.x
                } else {
                    other.max.x
                },
                y: if self.max.y >= other.max.y {
                    self.max.y
                } else {
                    other.max.y
                },
                z: if self.max.z >= other.max.z {
                    self.max.z
                } else {
                    other.max.z
                },
            },
        }
    }

    pub fn union(&self, other: &Aabb) -> (u: Aabb)
        ensures
            u == self.spec_union(*other),
            self.wf() && other.wf() ==> u.wf(),
    {
        Aabb {
            min: GridVec {
                x: if self.min.x <= other.min.x {
                    self.min.x
                } else {
                    other.min.x
                },
                y: if self.min.y <= other.min.y {
                    self.min.y
                } else {
                    other.min.y
                },
                z: if self.min.z <= other.min.z {
                    self.min.z
                } else {
                    other.min.z
                },
            },
            max: GridVec {
                x: if self.max.x >= other.max.x {
                    self.max.x
                } else {
                    other.max.x
                },
                y: if self.max.y >= other.max.y {
                    self.max.y
                } else {
                    other.max.y
                },
                z: if self.max.z >= other.max.z {
                    self.max.z
                } else {
                    other.max.z
                },
            },
        }
    }

    /// The union of two boxes contains both of them, and no more than any
    /// other box containing both.
    pub proof fn lemma_union_contains(a: Aabb, b: Aabb)
        ensures
            a.spec_union(b).contains_box(a),
            a.spec_union(b).contains_box(b),
            a.wf() && b.wf() ==> a.spec_union(b).wf(),
    {
    }

    /// Containment carries through a union: a box containing both operands
    /// contains their union, and containment is transitive.
    pub proof fn lemma_contains_trans(outer: Aabb, mid: Aabb, inner: Aabb)
        requires
            outer.contains_box(mid),
            mid.contains_box(inner),
        ensures
            outer.contains_box(inner),
    {
    }

    /// The extent of this box along an axis.
    pub fn extent(&self, axis: Axis) -> (e: i64)
        requires
            self.wf(),
        ensures
            e == self.max.spec_axis(axis) - self.min.spec_axis(axis),
            0 <= e <= 2 * COORD_LIMIT,
    {
        self.max.axis(axis) - self.min.axis(axis)
    }

    pub open spec fn spec_surface_area(self) -> int {
        let xs = self.max.x - self.min.x;
        let ys = self.max.y - self.min.y;
        let zs = self.max.z - self.min.z;
        2 * (xs * ys) + 2 * (xs * zs) + 2 * (ys * zs)
    }

    /// Twice the summed face areas of the box, exact on the grid.
    pub fn surface_area(&self) -> (sa: i128)
        requires
            self.wf(),
        ensures
            sa == self.spec_surface_area(),
            0 <= sa <= 26388279066624,
    {
        let xs: i128 = (self.max.x - self.min.x) as i128;
        let ys: i128 = (self.max.y - self.min.y) as i128;
        let zs: i128 = (self.max.z - self.min.z) as i128;
        proof {
            assert(0 <= xs * ys <= 4398046511104 && 0 <= xs * zs <= 4398046511104 && 0 <= ys * zs
                <= 4398046511104) by (nonlinear_arith)
                requires
                    0 <= xs <= 2097152,
                    0 <= ys <= 2097152,
                    0 <= zs <= 2097152,
            ;
        }
        let xy: i128 = xs * ys;
        let xz: i128 = xs * zs;
        let yz: i128 = ys * zs;
        2 * xy + 2 * xz + 2 * yz
    }
}

} // verus!
