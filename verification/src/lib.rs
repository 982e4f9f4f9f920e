//! A small snake game core: a deterministic pseudo-random generator,
//! a software-rasterized pixel canvas, and the grid-based snake
//! simulation (movement, growth, collision, fruit spawning).
//!
//! Everything here is pure computation over plain values; the platform
//! glue (display, input, entropy, timing) lives outside and talks to
//! this crate through ordinary arguments and results.

use vstd::prelude::*;

pub mod buffer;
pub mod game;
pub mod rand;

verus! {

/// An integer pair. Depending on context it holds device-pixel
/// coordinates or grid-cell coordinates.
#[derive(Clone, Copy, Debug, PartialEq, Eq, Structural)]
pub struct Vec2 {
    pub x: isize,
    pub y: isize,
}

/// Row-major flattening `y * w + x` is injective on `[0, w) x [0, h)`.
pub proof fn lemma_row_major_injective(w: int, x1: int, y1: int, x2: int, y2: int)
    requires
        0 <= x1 < w,
        0 <= x2 < w,
        y1 * w + x1 == y2 * w + x2,
    ensures
        x1 == x2,
        y1 == y2,
{
    assert(x1 == x2 && y1 == y2) by (nonlinear_arith)
        requires
            0 <= x1 < w,
            0 <= x2 < w,
            y1 * w + x1 == y2 * w + x2,
    ;
}

/// Row-major flattening stays within `[0, w * h)` for cells of a
/// `w` by `h` grid.
pub proof fn lemma_row_major_in_range(w: int, h: int, x: int, y: int)
    requires
        0 <= x < w,
        0 <= y < h,
    ensures
        0 <= y * w + x < w * h,
{
    assert(0 <= y * w + x < w * h) by (nonlinear_arith)
        requires
            0 <= x < w,
            0 <= y < h,
    ;
}

} // verus!
