//! Rendering one page: decode each layer and composite it onto a white
//! canvas in drawing order.

use vstd::prelude::*;
use crate::NoteError;
use crate::canvas::{overlay_spec, white_pixels, Canvas};
use crate::color::{colors_of, map_codes, Rgba};
use crate::container::{LayerView, Page, PageView};
use crate::metadata::{read_block, read_block_spec};
use crate::rle::{decode_rle, decode_rle_spec};

verus! {

/// What the outside image decoder yields for a byte buffer: `None` if the
/// bytes are not a decodable image, else the raster's width, height and flat
/// RGBA bytes.  The result depends on the bytes alone.
pub uninterp spec fn png_of(bytes: Seq<u8>) -> Option<(nat, nat, Seq<u8>)>;

/// Relies on `image::load_from_memory` and `DynamicImage::to_rgba8`: a
/// successfully decoded image converts to a row-major RGBA raster with four
/// bytes per pixel.
#[verifier::external_body]
fn decode_png(bytes: &[u8]) -> (r: Option<(u32, u32, Vec<u8>)>)
    ensures
        match r {
            Some(t) => png_of(bytes@) == Some((t.0 as nat, t.1 as nat, t.2@)) && t.2@.len() == 4
                * t.0 as nat * t.1 as nat,
            None => png_of(bytes@) is None,
        },
{
    match image::load_from_memory(bytes) {
        Ok(img) => {
            let rgba = img.to_rgba8();
            let w = rgba.width();
            let h = rgba.height();
            Some((w, h, rgba.into_raw()))
        },
        Err(_) => None,
    }
}

/// RGBA pixels read off their flat byte form, four bytes each.
pub open spec fn rgba_pixels(bytes: Seq<u8>) -> Seq<Rgba> {
    Seq::new(
        bytes.len() / 4,
        |i: int| Rgba { r: bytes[4 * i], g: bytes[4 * i + 1], b: bytes[4 * i + 2], a: bytes[4 * i + 3] },
    )
}

/// Group a flat RGBA byte buffer into pixels.
fn pixels_from_rgba_bytes(bytes: &Vec<u8>) -> (r: Vec<Rgba>)
    ensures
        r@ == rgba_pixels(bytes@),
{
    let len: usize = bytes.len();
    let n: usize = len / 4;
    let mut out: Vec<Rgba> = Vec::new();
    let mut j: usize = 0;
    proof {
        assert(rgba_pixels(bytes@).take(0) =~= Seq::<Rgba>::empty());
    }
    while j < n
        invariant
            j <= n,
            len == bytes@.len(),
            n == bytes@.len() / 4,
            out@ == rgba_pixels(bytes@).take(j as int),
        decreases n - j,
    {
        proof {
            assert(4 * (j as int) + 3 < bytes@.len()) by (nonlinear_arith)
                requires
                    0 <= j < n,
                    n == bytes@.len() / 4,
            ;
        }
        let base: usize = 4 * j;
        let px = Rgba {
            r: bytes[base],
            g: bytes[base + 1],
            b: bytes[base + 2],
            a: bytes[base + 3],
        };
        out.push(px);
        proof {
            assert(rgba_pixels(bytes@).take(j as int + 1) =~= rgba_pixels(bytes@).take(
                j as int,
            ).push(rgba_pixels(bytes@)[j as int]));
        }
        j = j + 1;
    }
    proof {
        assert(rgba_pixels(bytes@).take(n as int) =~= rgba_pixels(bytes@));
    }
    out
}

/// The raster one layer contributes: the colored RLE decoding at the page's
/// own size, the decoded embedded image at its size, or nothing for a null
/// bitmap address or an unrecognised protocol (skipped, not an error).
pub open spec fn layer_raster_spec(
    data: Seq<u8>,
    layer: LayerView,
    width: nat,
    height: nat,
) -> Result<Option<(Seq<Rgba>, nat, nat)>, NoteError> {
    if layer.bitmap_address == 0 {
        Ok(None)
    } else if layer.protocol == "RATTA_RLE"@ {
        match read_block_spec(data, layer.bitmap_address as nat) {
            None => Err(NoteError::MalformedBlock),
            Some(comp) => Ok(
                Some((colors_of(decode_rle_spec(comp, width * height)), width, height)),
            ),
        }
    } else if layer.protocol == "PNG"@ {
        match read_block_spec(data, layer.bitmap_address as nat) {
            None => Err(NoteError::MalformedBlock),
            Some(png) => match png_of(png) {
                None => Err(NoteError::MalformedBlock),
                Some(t) => Ok(Some((rgba_pixels(t.2), t.0, t.1))),
            },
        }
    } else {
        Ok(None)
    }
}

/// The canvas after compositing `layers` in order over `base`.
pub open spec fn render_layers_spec(
    data: Seq<u8>,
    layers: Seq<LayerView>,
    base: Seq<Rgba>,
    width: nat,
    height: nat,
) -> Result<Seq<Rgba>, NoteError>
    decreases layers.len(),
{
    if layers.len() == 0 {
        Ok(base)
    } else {
        match layer_raster_spec(data, layers[0], width, height) {
            Err(e) => Err(e),
            Ok(None) => render_layers_spec(data, layers.skip(1), base, width, height),
            Ok(Some(t)) => render_layers_spec(
                data,
                layers.skip(1),
                overlay_spec(base, width, t.0, t.1, t.2),
                width,
                height,
            ),
        }
    }
}

/// A page rendered to its canvas: an opaque white base with every layer
/// composited over it in drawing order.
pub open spec fn render_page_spec(data: Seq<u8>, page: PageView, width: nat, height: nat) -> Result<
    Seq<Rgba>,
    NoteError,
> {
    render_layers_spec(data, page.layers, white_pixels(width * height), width, height)
}

/// Render one page onto a fresh white canvas of the notebook's geometry.
#[verifier::loop_isolation(false)]
pub fn render_page(data: &[u8], page: &Page, width: usize, height: usize) -> (r: Result<
    Canvas,
    NoteError,
>)
    requires
        width as nat * height as nat <= usize::MAX as nat,
    ensures
        match r {
            Ok(c) => render_page_spec(data@, page@, width as nat, height as nat) == Ok::<
                Seq<Rgba>,
                NoteError,
            >(c.view()) && c.wf() && c.width == width && c.height == height,
            Err(e) => render_page_spec(data@, page@, width as nat, height as nat) == Err::<
                Seq<Rgba>,
                NoteError,
            >(e),
        },
{
    let mut canvas = Canvas::new_white(width, height);
    let ghost layer_list: Seq<LayerView> = page@.layers;
    proof {
        assert(layer_list.skip(0) =~= layer_list);
        assert((width * height) as nat == width as nat * height as nat);
    }
    let mut i: usize = 0;
    while i < page.layers.len()
        invariant
            i <= page.layers@.len(),
            canvas.wf(),
            canvas.width == width,
            canvas.height == height,
            render_layers_spec(
                data@,
                layer_list.skip(i as int),
                canvas.view(),
                width as nat,
                height as nat,
            ) == render_page_spec(data@, page@, width as nat, height as nat),
        decreases page.layers@.len() - i,
    {
        proof {
            assert(layer_list.skip(i as int)[0] == layer_list[i as int]);
            assert(layer_list.skip(i as int).skip(1) =~= layer_list.skip(i as int + 1));
            assert(layer_list[i as int] == page.layers@[i as int]@);
        }
        let layer = &page.layers[i];
        if layer.bitmap_address == 0 {
            // Absent bitmap: nothing to draw.
        } else if layer.protocol == String::from_str("RATTA_RLE") {
            let comp: Vec<u8> = match read_block(data, layer.bitmap_address) {
                Err(e) => {
                    return Err(e);
                },
                Ok(b) => b,
            };
            let codes: Vec<u8> = decode_rle(comp.as_slice(), width, height);
            let raster: Vec<Rgba> = map_codes(&codes);
            canvas.overlay(&raster, width, height);
        } else if layer.protocol == String::from_str("PNG") {
            let block: Vec<u8> = match read_block(data, layer.bitmap_address) {
                Err(e) => {
                    return Err(e);
                },
                Ok(b) => b,
            };
            match decode_png(block.as_slice()) {
                None => {
                    return Err(NoteError::MalformedBlock);
                },
                Some(img) => {
                    let pixels: Vec<Rgba> = pixels_from_rgba_bytes(&img.2);
                    proof {
                        assert(img.2@.len() / 4 == img.0 as nat * img.1 as nat)
                            by (nonlinear_arith)
                            requires
                                img.2@.len() == 4 * img.0 as nat * img.1 as nat,
                        ;
                    }
                    let sw: usize = img.0 as usize;
                    let sh: usize = img.1 as usize;
                    canvas.overlay(&pixels, sw, sh);
                },
            }
        } else {
            // Unrecognised protocol: the layer is skipped, not an error.
        }
        i = i + 1;
    }
    proof {
        assert(layer_list.skip(page.layers@.len() as int).len() == 0);
    }
    Ok(canvas)
}

} // verus!
