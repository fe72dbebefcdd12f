use vstd::prelude::*;

use crate::color::Color;
use crate::geom::Axis;

verus! {

/// A solid color skybox: every ray sees the same color.
#[derive(Debug, Clone)]
pub struct Solid(pub Color);

impl Solid {
    /// The color every ray of this skybox produces.
    pub fn color(&self) -> (c: Color)
        ensures
            c == self.0,
    {
        self.0
    }
}

/// A skybox that colors each ray by its own direction, as if the direction
/// were a surface normal.
#[derive(Debug, Clone)]
pub struct Normal;

/// Which tile of the cubemap cross a face lives in, as a (column, row) cell.
/// The cross is four tiles wide and three tall:
/// the middle row holds, left to right, the `+x`, `-z`, `-x` and `+z` faces,
/// and the middle column holds `+y` above and `-y` below the `-z` face.
pub open spec fn spec_cubemap_cell(axis: Axis, positive: bool) -> (u32, u32) {
    match axis {
        Axis::X => if positive {
            (0u32, 1u32)
        } else {
            (2u32, 1u32)
        },
        Axis::Y => if positive {
            (1u32, 0u32)
        } else {
            (1u32, 2u32)
        },
        Axis::Z => if positive {
            (3u32, 1u32)
        } else {
            (1u32, 1u32)
        },
    }
}

/// The cell of the cubemap cross that the face with the given outward axis
/// occupies.
#[verifier::when_used_as_spec(spec_cubemap_cell)]
pub fn cubemap_cell(axis: Axis, positive: bool) -> (cell: (u32, u32))
    ensures
        cell == spec_cubemap_cell(axis, positive),
        cell.0 < 4 && cell.1 < 3,
{
    match axis {
        Axis::X => if positive {
            (0, 1)
        } else {
            (2, 1)
        },
        Axis::Y => if positive {
            (1, 0)
        } else {
            (1, 2)
        },
        Axis::Z => if positive {
            (3, 1)
        } else {
            (1, 1)
        },
    }
}

/// The first texel of a cell: tiles are squares of `cell_size` texels laid
/// out on the grid the cell coordinates index.
pub fn cell_origin(cell: (u32, u32), cell_size: u32) -> (o: (u32, u32))
    requires
        cell.0 < 4,
        cell.1 < 3,
        4 * cell_size <= u32::MAX,
    ensures
        o.0 == cell.0 * cell_size,
        o.1 == cell.1 * cell_size,
{
    proof {
        assert(cell.0 * cell_size <= 3 * cell_size && cell.1 * cell_size <= 2 * cell_size)
            by (nonlinear_arith)
            requires
                cell.0 < 4,
                cell.1 < 3,
        ;
    }
    (cell.0 * cell_size, cell.1 * cell_size)
}

} // verus!
