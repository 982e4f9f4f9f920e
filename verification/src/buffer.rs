//! Software-rasterized pixel canvas: an owned row-major buffer of 24-bit
//! colors with clearing, clipped per-pixel writes, and filled or outlined
//! rectangle drawing. Handing the buffer to a display device is the
//! platform's business, not this module's.

use vstd::prelude::*;

verus! {

/// A 24-bit color, one byte per channel.
#[derive(Clone, Copy, Debug, PartialEq, Eq, Structural)]
pub struct Rgb {
    pub r: u8,
    pub g: u8,
    pub b: u8,
}

/// The color every pixel starts from and is cleared to.
pub open spec fn black() -> Rgb {
    Rgb { r: 0, g: 0, b: 0 }
}

/// Whether the pixel `(px, py)` belongs to the drawn part of the
/// rectangle region at `(x, y)` with extent `w` by `h`: the whole region
/// when filled, otherwise the one-pixel border — first or last column,
/// or first or last row.
pub open spec fn rect_covers(
    x: int,
    y: int,
    w: int,
    h: int,
    fill: bool,
    px: int,
    py: int,
) -> bool {
    &&& x <= px < x + w
    &&& y <= py < y + h
    &&& (fill || px == x || px == x + w - 1 || py == y || py == y + h - 1)
}

/// The pixel sequence after drawing a rectangle onto `pixels`, for a
/// buffer `bw` pixels wide: covered in-buffer pixels take `color`, the
/// rest keep their value.
pub open spec fn draw_rect_on(
    pixels: Seq<Rgb>,
    bw: int,
    x: int,
    y: int,
    w: int,
    h: int,
    color: Rgb,
    fill: bool,
) -> Seq<Rgb> {
    Seq::new(
        pixels.len(),
        |i: int|
            if bw > 0 && rect_covers(x, y, w, h, fill, i % bw, i / bw) {
                color
            } else {
                pixels[i]
            },
    )
}

/// An owned rectangular pixel buffer, row-major, origin top-left.
pub struct Buffer {
    pub width: usize,
    pub height: usize,
    pub pixels: Vec<Rgb>,
}

impl Buffer {
    /// The buffer holds exactly one pixel per coordinate.
    pub open spec fn wf(self) -> bool {
        self.pixels@.len() == self.width * self.height
    }

    /// Row-major index of the pixel at `(x, y)`.
    pub open spec fn pix_index(self, x: int, y: int) -> int {
        y * self.width + x
    }

    /// Whether `(x, y)` names a pixel of this buffer.
    pub open spec fn in_bounds(self, x: int, y: int) -> bool {
        0 <= x < self.width && 0 <= y < self.height
    }

    /// Allocates a `width` by `height` buffer with every pixel black.
    pub fn new(width: usize, height: usize) -> (r: Buffer)
        requires
            width * height <= usize::MAX,
        ensures
            r.wf(),
            r.width == width,
            r.height == height,
            forall|i: int| 0 <= i < r.pixels@.len() ==> r.pixels@[i] == black(),
    {
        let n = width * height;
        let mut pixels: Vec<Rgb> = Vec::new();
        let mut i: usize = 0;
        while i < n
            invariant
                i <= n,
                pixels@.len() == i,
                forall|j: int| 0 <= j < i ==> pixels@[j] == black(),
            decreases n - i,
        {
            pixels.push(Rgb { r: 0, g: 0, b: 0 });
            i = i + 1;
        }
        Buffer { width, height, pixels }
    }

    /// Resets every pixel to black.
    pub fn clear(&mut self)
        requires
            old(self).wf(),
        ensures
            final(self).wf(),
            final(self).width == old(self).width,
            final(self).height == old(self).height,
            final(self).pixels@.len() == old(self).pixels@.len(),
            forall|i: int|
                0 <= i < final(self).pixels@.len() ==> final(self).pixels@[i] == black(),
    {
        let n = self.pixels.len();
        let mut i: usize = 0;
        while i < n
            invariant
                i <= n,
                self.width == old(self).width,
                self.height == old(self).height,
                self.pixels@.len() == n,
                n == old(self).pixels@.len(),
                forall|j: int| 0 <= j < i ==> self.pixels@[j] == black(),
            decreases n - i,
        {
            self.pixels[i] = Rgb { r: 0, g: 0, b: 0 };
            i = i + 1;
        }
    }

    /// Writes one pixel; writes outside the buffer are silent no-ops, so
    /// drawing near the edges never panics.
    pub fn set_pixel(&mut self, x: usize, y: usize, color: Rgb)
        requires
            old(self).wf(),
        ensures
            final(self).wf(),
            final(self).width == old(self).width,
            final(self).height == old(self).height,
            final(self).pixels@ == (if old(self).in_bounds(x as int, y as int) {
                old(self).pixels@.update(old(self).pix_index(x as int, y as int), color)
            } else {
                old(self).pixels@
            }),
    {
        if x < self.width && y < self.height {
            let n = self.pixels.len();
            proof {
                crate::lemma_row_major_in_range(
                    self.width as int,
                    self.height as int,
                    x as int,
                    y as int,
                );
                assert((y as int) * (self.width as int) + (x as int) < n as int);
            }
            let idx = y * self.width + x;
            self.pixels[idx] = color;
        }
    }

    /// Draws the rectangle region at `(x, y)` with extent `w` by `h`:
    /// every pixel of the region when `fill` is set, otherwise exactly
    /// the pixels on the first or last row or the first or last column.
    /// Parts of the region outside the buffer are clipped silently.
    #[verifier::loop_isolation(false)]
    pub fn rectangle(&mut self, x: usize, y: usize, w: usize, h: usize, color: Rgb, fill: bool)
        requires
            old(self).wf(),
            x + w <= usize::MAX,
            y + h <= usize::MAX,
        ensures
            final(self).wf(),
            final(self).width == old(self).width,
            final(self).height == old(self).height,
            forall|px: int, py: int|
                old(self).in_bounds(px, py) ==> final(self).pixels@[old(self).pix_index(px, py)]
                    == (if rect_covers(x as int, y as int, w as int, h as int, fill, px, py) {
                    color
                } else {
                    old(self).pixels@[old(self).pix_index(px, py)]
                }),
            final(self).pixels@ == draw_rect_on(
                old(self).pixels@,
                old(self).width as int,
                x as int,
                y as int,
                w as int,
                h as int,
                color,
                fill,
            ),
    {
        let ghost xi = x as int;
        let ghost yi = y as int;
        let ghost wi = w as int;
        let ghost hi = h as int;
        let mut dy: usize = 0;
        while dy < h
            invariant
                dy <= h,
                self.wf(),
                self.width == old(self).width,
                self.height == old(self).height,
                forall|px: int, py: int|
                    old(self).in_bounds(px, py) ==> self.pixels@[old(self).pix_index(px, py)]
                        == (if rect_covers(xi, yi, wi, hi, fill, px, py) && py < yi + dy {
                        color
                    } else {
                        old(self).pixels@[old(self).pix_index(px, py)]
                    }),
            decreases h - dy,
        {
            let mut dx: usize = 0;
            while dx < w
                invariant
                    dy < h,
                    dx <= w,
                    self.wf(),
                    self.width == old(self).width,
                    self.height == old(self).height,
                    forall|px: int, py: int|
                        old(self).in_bounds(px, py) ==> self.pixels@[old(self).pix_index(px, py)]
                            == (if rect_covers(xi, yi, wi, hi, fill, px, py) && (py < yi + dy || (
                            py == yi + dy && px < xi + dx)) {
                            color
                        } else {
                            old(self).pixels@[old(self).pix_index(px, py)]
                        }),
                decreases w - dx,
            {
                let ghost prev = self.pixels@;
                let tx = x + dx;
                let ty = y + dy;
                let should_draw = fill || dy == 0 || dy == h - 1 || dx == 0 || dx == w - 1;
                if should_draw {
                    self.set_pixel(tx, ty, color);
                    proof {
                        let ghost cur = self.pixels@;
                        assert forall|px: int, py: int|
                            old(self).in_bounds(px, py) implies cur[old(self).pix_index(px, py)]
                            == (if rect_covers(xi, yi, wi, hi, fill, px, py) && (py < yi + dy || (
                            py == yi + dy && px < xi + dx + 1)) {
                            color
                        } else {
                            old(self).pixels@[old(self).pix_index(px, py)]
                        }) by {
                            crate::lemma_row_major_in_range(
                                old(self).width as int,
                                old(self).height as int,
                                px,
                                py,
                            );
                            if old(self).in_bounds(tx as int, ty as int) {
                                crate::lemma_row_major_in_range(
                                    old(self).width as int,
                                    old(self).height as int,
                                    tx as int,
                                    ty as int,
                                );
                                if !(px == tx as int && py == ty as int) && old(self).pix_index(
                                    px,
                                    py,
                                ) == old(self).pix_index(tx as int, ty as int) {
                                    crate::lemma_row_major_injective(
                                        old(self).width as int,
                                        px,
                                        py,
                                        tx as int,
                                        ty as int,
                                    );
                                }
                            }
                        }
                    }
                }
                dx = dx + 1;
            }
            dy = dy + 1;
        }
        proof {
            let bw = old(self).width as int;
            let res = draw_rect_on(old(self).pixels@, bw, xi, yi, wi, hi, color, fill);
            assert forall|i: int| 0 <= i < self.pixels@.len() implies self.pixels@[i] == res[i] by {
                assert(bw > 0) by {
                    if bw == 0 {
                        vstd::arithmetic::mul::lemma_mul_basics(old(self).height as int);
                        assert(old(self).pixels@.len() == 0);
                    }
                }
                let px = i % bw;
                let py = i / bw;
                vstd::arithmetic::div_mod::lemma_fundamental_div_mod(i, bw);
                vstd::arithmetic::div_mod::lemma_mod_bound(i, bw);
                vstd::arithmetic::div_mod::lemma_div_pos_is_pos(i, bw);
                assert(i < bw * (old(self).height as int));
                vstd::arithmetic::div_mod::lemma_multiply_divide_lt(
                    i,
                    bw,
                    old(self).height as int,
                );
                assert(old(self).pix_index(px, py) == i);
                assert(old(self).in_bounds(px, py));
            }
            assert(self.pixels@ =~= res);
        }
    }
}

} // verus!
