//! Row-major RGBA byte buffers: where each pixel's four channels lie.

use vstd::prelude::*;

verus! {

/// Index of channel `c` of pixel (`x`, `y`) in a row-major RGBA buffer
/// `w` pixels wide.
pub open spec fn byte_index(w: int, x: int, y: int, c: int) -> int {
    (y * w + x) * 4 + c
}

/// The four channels of pixel (`x`, `y`) of `buf`.
pub open spec fn pixel_of(buf: Seq<u8>, w: int, x: int, y: int) -> Seq<u8> {
    Seq::new(4, |c: int| buf[byte_index(w, x, y, c)])
}

/// Distinct pixels and channels have distinct byte indices.
pub proof fn lemma_byte_index_injective(w: int, h: int, x1: int, y1: int, c1: int, x2: int, y2: int, c2: int)
    requires
        0 <= x1 < w,
        0 <= x2 < w,
        0 <= y1 < h,
        0 <= y2 < h,
        0 <= c1 < 4,
        0 <= c2 < 4,
        byte_index(w, x1, y1, c1) == byte_index(w, x2, y2, c2),
    ensures
        x1 == x2 && y1 == y2 && c1 == c2,
{
    let a = y1 * w + x1;
    let b = y2 * w + x2;
    assert(a == b && c1 == c2);
    assert(y1 == y2) by (nonlinear_arith)
        requires y1 * w + x1 == y2 * w + x2, 0 <= x1 < w, 0 <= x2 < w, 0 <= y1, 0 <= y2;
}

/// Byte indices of a `w` x `h` image stay below `w * h * 4`.
pub proof fn lemma_byte_index_bound(w: int, h: int, x: int, y: int, c: int)
    requires
        0 <= x < w,
        0 <= y < h,
        0 <= c < 4,
    ensures
        0 <= byte_index(w, x, y, c) < w * h * 4,
        byte_index(w, x, y, c) == byte_index(w, x, y, 0) + c,
{
    assert(0 <= y * w + x < w * h) by (nonlinear_arith)
        requires 0 <= x < w, 0 <= y < h;
}

} // verus!
