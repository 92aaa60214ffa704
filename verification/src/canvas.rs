//! Page canvases and transparency-aware layer compositing.

use vstd::prelude::*;
use crate::color::Rgba;

verus! {

/// A `width` x `height` raster of RGBA pixels, row-major.
pub struct Canvas {
    pub width: usize,
    pub height: usize,
    pub pixels: Vec<Rgba>,
}

/// An opaque white raster of `n` pixels.
pub open spec fn white_pixels(n: nat) -> Seq<Rgba> {
    Seq::new(n, |i: int| Rgba { r: 255, g: 255, b: 255, a: 255 })
}

/// Pixel `i` of the overlay of a `sw` x `sh` source onto a destination of
/// width `dw`: inside the overlap a source pixel with nonzero alpha replaces
/// the destination pixel, anything else leaves it alone.
pub open spec fn overlay_pixel(
    dst: Seq<Rgba>,
    dw: nat,
    src: Seq<Rgba>,
    sw: nat,
    sh: nat,
    i: int,
) -> Rgba {
    let x = i % dw as int;
    let y = i / dw as int;
    if x < sw && y < sh {
        let s = src[y * sw as int + x];
        if s.a != 0 {
            s
        } else {
            dst[i]
        }
    } else {
        dst[i]
    }
}

/// The destination raster after compositing the source over it.
pub open spec fn overlay_spec(dst: Seq<Rgba>, dw: nat, src: Seq<Rgba>, sw: nat, sh: nat) -> Seq<
    Rgba,
> {
    Seq::new(dst.len(), |i: int| overlay_pixel(dst, dw, src, sw, sh, i))
}

impl Canvas {
    /// Well-formed: the pixel count is exactly `width * height`.
    pub open spec fn wf(&self) -> bool {
        self.pixels@.len() == self.width as nat * self.height as nat
    }

    /// The raster contents.
    pub open spec fn view(&self) -> Seq<Rgba> {
        self.pixels@
    }

    /// An opaque white canvas, the base for compositing a page.
    pub fn new_white(width: usize, height: usize) -> (c: Canvas)
        requires
            width as nat * height as nat <= usize::MAX as nat,
        ensures
            c.wf(),
            c.width == width,
            c.height == height,
            c.view() == white_pixels(width as nat * height as nat),
    {
        let n: usize = width * height;
        let pixels: Vec<Rgba> = vec![Rgba { r: 255, g: 255, b: 255, a: 255 }; n];
        proof {
            assert(pixels@ =~= white_pixels(width as nat * height as nat));
        }
        Canvas { width, height, pixels }
    }

    /// Composite a `sw` x `sh` layer raster over this canvas.  Source pixels
    /// outside the canvas are clipped; transparent ones do not overwrite.
    pub fn overlay(&mut self, src: &Vec<Rgba>, sw: usize, sh: usize)
        requires
            old(self).wf(),
            src@.len() == sw as nat * sh as nat,
        ensures
            final(self).wf(),
            final(self).width == old(self).width,
            final(self).height == old(self).height,
            final(self).view() == overlay_spec(
                old(self).view(),
                old(self).width as nat,
                src@,
                sw as nat,
                sh as nat,
            ),
    {
        let dw: usize = self.width;
        let n: usize = self.pixels.len();
        let src_len: usize = src.len();
        let ghost dst0: Seq<Rgba> = self.pixels@;
        let mut i: usize = 0;
        while i < n
            invariant
                i <= n,
                n == self.pixels@.len(),
                dst0.len() == n,
                self.width == old(self).width,
                self.height == old(self).height,
                dw == self.width,
                dst0.len() == dw as nat * self.height as nat,
                src@.len() == sw as nat * sh as nat,
                src@.len() == src_len,
                forall|j: int|
                    0 <= j < i ==> self.pixels@[j] == overlay_pixel(
                        dst0,
                        dw as nat,
                        src@,
                        sw as nat,
                        sh as nat,
                        j,
                    ),
                forall|j: int| i <= j < n ==> self.pixels@[j] == dst0[j],
            decreases n - i,
        {
            proof {
                assert((dw as int) * (self.height as int) != 0 ==> dw as int != 0)
                    by (nonlinear_arith);
            }
            if dw > 0 {
                let x: usize = i % dw;
                let y: usize = i / dw;
                if x < sw && y < sh {
                    proof {
                        assert(0 <= (y as int) * (sw as int) + (x as int) < (sw as int) * (
                        sh as int)) by (nonlinear_arith)
                            requires
                                0 <= x < sw,
                                0 <= y < sh,
                        ;
                    }
                    let s: Rgba = src[y * sw + x];
                    if s.a != 0 {
                        self.pixels[i] = s;
                    }
                }
            }
            i = i + 1;
        }
        proof {
            assert(self.pixels@ =~= overlay_spec(dst0, dw as nat, src@, sw as nat, sh as nat));
        }
    }
}

/// Compositing a layer made only of fully transparent pixels leaves the
/// canvas unchanged.
pub proof fn lemma_transparent_overlay(dst: Seq<Rgba>, dw: nat, src: Seq<Rgba>, sw: nat, sh: nat)
    requires
        src.len() == sw * sh,
        forall|i: int| 0 <= i < src.len() ==> #[trigger] src[i].a == 0,
        dw > 0 || dst.len() == 0,
    ensures
        overlay_spec(dst, dw, src, sw, sh) == dst,
{
    assert forall|i: int| 0 <= i < dst.len() implies overlay_pixel(dst, dw, src, sw, sh, i)
        == dst[i] by {
        let x = i % dw as int;
        let y = i / dw as int;
        if x < sw && y < sh {
            assert(0 <= y * (sw as int) + x < (sw as int) * (sh as int)) by (nonlinear_arith)
                requires
                    0 <= x < sw,
                    0 <= y < sh,
            ;
        }
    }
    assert(overlay_spec(dst, dw, src, sw, sh) =~= dst);
}

} // verus!
