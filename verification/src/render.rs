use vstd::prelude::*;
use vstd::arithmetic::div_mod::{
    lemma_fundamental_div_mod, lemma_fundamental_div_mod_converse,
};

verus! {

/// Which pixel the flat buffer index `i` addresses, in an image `vw` pixels
/// wide: pixels are stored row-major, `(0, 0)` top left.
pub fn pixel_coords(i: usize, vw: usize) -> (p: (usize, usize))
    requires
        vw > 0,
    ensures
        p.0 == i % vw,
        p.1 == i / vw,
        p.0 < vw,
{
    (i % vw, i / vw)
}

/// The flat buffer index of the pixel at `(x, y)` in an image `vw` pixels
/// wide.
pub fn pixel_index(x: usize, y: usize, vw: usize) -> (i: usize)
    requires
        x < vw,
        y * vw + x <= usize::MAX,
    ensures
        i == y * vw + x,
{
    y * vw + x
}

/// The two mappings invert each other: the flat index of a pixel's
/// coordinates is the index itself, and the coordinates of an index are
/// recovered from it.
pub proof fn lemma_pixel_roundtrip(i: int, x: int, y: int, vw: int)
    requires
        vw > 0,
        0 <= i,
        0 <= x < vw,
        0 <= y,
    ensures
        (i % vw) + (i / vw) * vw == i,
        (y * vw + x) % vw == x,
        (y * vw + x) / vw == y,
{
    lemma_fundamental_div_mod(i, vw);
    assert(vw * (i / vw) == (i / vw) * vw) by (nonlinear_arith);
    lemma_fundamental_div_mod_converse(y * vw + x, vw, y, x);
}

} // verus!
