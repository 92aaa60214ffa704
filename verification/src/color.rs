//! Mapping from 8-bit pixel codes to RGBA colors.

use vstd::prelude::*;

verus! {

/// One RGBA pixel with 8-bit channels.
#[derive(Clone, Copy, Debug, PartialEq, Eq, Structural)]
pub struct Rgba {
    pub r: u8,
    pub g: u8,
    pub b: u8,
    pub a: u8,
}

/// The color a pixel code renders as.  Total: every byte value is defined.
/// Codes outside the named palette are anti-aliased stroke edges and render
/// as their own grayscale intensity.
pub open spec fn color_of(code: u8) -> Rgba {
    if code == 0x61 {
        Rgba { r: 0, g: 0, b: 0, a: 255 }
    } else if code == 0x65 {
        Rgba { r: 255, g: 255, b: 255, a: 255 }
    } else if code == 0x62 {
        Rgba { r: 0, g: 0, b: 0, a: 0 }
    } else if code == 0x63 || code == 0x9d || code == 0x9e {
        Rgba { r: 0x9d, g: 0x9d, b: 0x9d, a: 255 }
    } else if code == 0x64 || code == 0xc9 || code == 0xca {
        Rgba { r: 0xc9, g: 0xc9, b: 0xc9, a: 255 }
    } else {
        Rgba { r: code, g: code, b: code, a: 255 }
    }
}

/// Map a pixel code to its RGBA color.
pub fn to_rgba(pixel_byte: u8) -> (c: Rgba)
    ensures
        c == color_of(pixel_byte),
{
    match pixel_byte {
        0x61 => Rgba { r: 0, g: 0, b: 0, a: 255 },
        0x65 => Rgba { r: 255, g: 255, b: 255, a: 255 },
        0x62 => Rgba { r: 0, g: 0, b: 0, a: 0 },
        0x63 | 0x9d | 0x9e => Rgba { r: 0x9d, g: 0x9d, b: 0x9d, a: 255 },
        0x64 | 0xc9 | 0xca => Rgba { r: 0xc9, g: 0xc9, b: 0xc9, a: 255 },
        _ => Rgba { r: pixel_byte, g: pixel_byte, b: pixel_byte, a: 255 },
    }
}

/// The colors of a whole buffer of pixel codes.
pub open spec fn colors_of(codes: Seq<u8>) -> Seq<Rgba> {
    codes.map(|i: int, c: u8| color_of(c))
}

/// Map every pixel code of a decoded layer to its color.
pub fn map_codes(codes: &Vec<u8>) -> (r: Vec<Rgba>)
    ensures
        r@ == colors_of(codes@),
{
    let mut out: Vec<Rgba> = Vec::new();
    let mut i: usize = 0;
    while i < codes.len()
        invariant
            i <= codes.len(),
            out@ == colors_of(codes@.take(i as int)),
        decreases codes.len() - i,
    {
        out.push(to_rgba(codes[i]));
        proof {
            assert(colors_of(codes@.take(i as int + 1)) =~= colors_of(
                codes@.take(i as int),
            ).push(color_of(codes@[i as int])));
        }
        i = i + 1;
    }
    proof {
        assert(codes@.take(codes@.len() as int) =~= codes@);
    }
    out
}

} // verus!
