//! Tests for color mapping, compositing, rendering and document output.

use std::io::Read;

use notepdf::canvas::Canvas;
use notepdf::color::{to_rgba, Rgba};
use notepdf::container::parse_notebook;
use notepdf::convert::convert_note;
use notepdf::pdf::build_document;
use notepdf::render::render_page;

fn block(content: &[u8]) -> Vec<u8> {
    let mut out = (content.len() as u32).to_le_bytes().to_vec();
    out.extend_from_slice(content);
    out
}

#[test]
fn color_codes_map_exactly() {
    assert_eq!(to_rgba(0x61), Rgba { r: 0, g: 0, b: 0, a: 255 });
    assert_eq!(to_rgba(0x65), Rgba { r: 255, g: 255, b: 255, a: 255 });
    assert_eq!(to_rgba(0x62), Rgba { r: 0, g: 0, b: 0, a: 0 });
    for code in [0x63, 0x9d, 0x9e] {
        assert_eq!(to_rgba(code), Rgba { r: 0x9d, g: 0x9d, b: 0x9d, a: 255 });
    }
    for code in [0x64, 0xc9, 0xca] {
        assert_eq!(to_rgba(code), Rgba { r: 0xc9, g: 0xc9, b: 0xc9, a: 255 });
    }
    // Any other byte renders as its own grayscale intensity.
    assert_eq!(to_rgba(0x30), Rgba { r: 0x30, g: 0x30, b: 0x30, a: 255 });
}

#[test]
fn transparent_layer_leaves_canvas_unchanged() {
    let mut canvas = Canvas::new_white(3, 2);
    canvas.pixels[4] = Rgba { r: 1, g: 2, b: 3, a: 255 };
    let before = canvas.pixels.clone();
    let transparent: Vec<Rgba> = (0..6).map(|_| to_rgba(0x62)).collect();
    canvas.overlay(&transparent, 3, 2);
    assert_eq!(canvas.pixels, before);
}

#[test]
fn opaque_pixels_replace_and_clip() {
    let mut canvas = Canvas::new_white(2, 2);
    // A 3 x 1 source: red, transparent, red; the third column is clipped.
    let red = Rgba { r: 255, g: 0, b: 0, a: 255 };
    let src = vec![red, to_rgba(0x62), red];
    canvas.overlay(&src, 3, 1);
    assert_eq!(canvas.pixels[0], red);
    assert_eq!(canvas.pixels[1], Rgba { r: 255, g: 255, b: 255, a: 255 });
    assert_eq!(canvas.pixels[2], Rgba { r: 255, g: 255, b: 255, a: 255 });
    assert_eq!(canvas.pixels[3], Rgba { r: 255, g: 255, b: 255, a: 255 });
}

// Builds a one-page container whose single RLE layer paints the full canvas
// black (code 0x61), and returns the file bytes.
fn black_page_container() -> Vec<u8> {
    let mut rle: Vec<u8> = Vec::new();
    for _ in 0..160 {
        rle.extend([0x61, 0xff]);
    }
    for _ in 0..53 {
        rle.extend([0x61, 0x7f]);
    }
    rle.extend([0x61, 63]);
    // 160 * 16384 + 53 * 128 + 64 = 1404 * 1872
    let mut data = Vec::new();
    data.extend(b"note");
    data.extend(b"SN_FILE_VER_20200001");
    let bitmap_addr = data.len();
    data.extend(block(&rle));
    let layer_addr = data.len();
    let layer = format!("<LAYERPROTOCOL:RATTA_RLE><LAYERBITMAP:{}>", bitmap_addr);
    data.extend(block(layer.as_bytes()));
    let page_addr = data.len();
    let page = format!("<MAINLAYER:{}>", layer_addr);
    data.extend(block(page.as_bytes()));
    let footer_addr = data.len() as u32;
    let footer = format!("<PAGE1:{}>", page_addr);
    data.extend(block(footer.as_bytes()));
    data.extend(footer_addr.to_le_bytes());
    data
}

#[test]
fn end_to_end_black_page() {
    let data = black_page_container();
    let nb = parse_notebook(&data).unwrap();
    assert_eq!(nb.pages.len(), 1);
    assert_eq!((nb.width, nb.height), (1404, 1872));

    let canvas = render_page(&data, &nb.pages[0], nb.width, nb.height).unwrap();
    assert_eq!(canvas.pixels.len(), 1404 * 1872);
    let black = Rgba { r: 0, g: 0, b: 0, a: 255 };
    assert!(canvas.pixels.iter().all(|&p| p == black));

    let pdf = convert_note(&data).unwrap();
    assert!(pdf.starts_with(b"%PDF-1.7\n"));
    assert!(find(&pdf, b"/Count 1").is_some());
    assert!(find(&pdf, b"3 0 obj\n<< /Type /Page\n").is_some());
    assert!(pdf.ends_with(b"%%EOF\n"));
}

fn find(haystack: &[u8], needle: &[u8]) -> Option<usize> {
    haystack.windows(needle.len()).position(|w| w == needle)
}

#[test]
fn image_stream_inflates_back_to_the_rgb_raster() {
    // A 2 x 2 canvas with distinct pixels; the document's image stream must
    // decompress to its RGB bytes, alpha dropped.
    let canvas = Canvas {
        width: 2,
        height: 2,
        pixels: vec![
            Rgba { r: 1, g: 2, b: 3, a: 255 },
            Rgba { r: 4, g: 5, b: 6, a: 0 },
            Rgba { r: 7, g: 8, b: 9, a: 255 },
            Rgba { r: 10, g: 11, b: 12, a: 128 },
        ],
    };
    let pdf = build_document(&vec![canvas], 2, 2);
    let start_tag = b" >>\nstream\n";
    let image_obj = find(&pdf, b"/Subtype /Image").unwrap();
    let start = image_obj + find(&pdf[image_obj..], start_tag).unwrap() + start_tag.len();
    let end = start + find(&pdf[start..], b"\nendstream\nendobj\n").unwrap();
    let mut decoder = flate2::read::ZlibDecoder::new(&pdf[start..end]);
    let mut raw = Vec::new();
    decoder.read_to_end(&mut raw).unwrap();
    assert_eq!(raw, vec![1, 2, 3, 4, 5, 6, 7, 8, 9, 10, 11, 12]);
}

#[test]
fn xref_offsets_point_at_the_objects() {
    let canvas = Canvas {
        width: 1,
        height: 1,
        pixels: vec![Rgba { r: 0, g: 0, b: 0, a: 255 }],
    };
    let pdf = build_document(&vec![canvas], 1, 1);
    let xref = find(&pdf, b"xref\n0 6\n").unwrap();
    // Five fixed-width records follow the free entry for object 0.
    let records = &pdf[xref + 9 + 20..];
    for (k, expected_head) in [
        &b"1 0 obj"[..],
        &b"2 0 obj"[..],
        &b"3 0 obj"[..],
        &b"4 0 obj"[..],
        &b"5 0 obj"[..],
    ]
    .iter()
    .enumerate()
    {
        let rec = &records[k * 20..k * 20 + 20];
        let off: usize = std::str::from_utf8(&rec[..10]).unwrap().parse().unwrap();
        assert_eq!(&rec[10..], b" 00000 n \n");
        assert!(pdf[off..].starts_with(*expected_head));
    }
    // The startxref pointer names the xref position itself.
    let sx = find(&pdf, b"startxref\n").unwrap() + 10;
    let nl = sx + find(&pdf[sx..], b"\n").unwrap();
    let xref_start: usize = std::str::from_utf8(&pdf[sx..nl]).unwrap().parse().unwrap();
    assert_eq!(xref_start, xref);
}

#[test]
fn png_layer_composites_with_alpha() {
    // A 2 x 1 PNG: an opaque red pixel, then a fully transparent one.
    let mut img = image::RgbaImage::new(2, 1);
    img.put_pixel(0, 0, image::Rgba([255, 0, 0, 255]));
    img.put_pixel(1, 0, image::Rgba([0, 99, 0, 0]));
    let mut png_bytes: Vec<u8> = Vec::new();
    image::DynamicImage::ImageRgba8(img)
        .write_to(&mut std::io::Cursor::new(&mut png_bytes), image::ImageFormat::Png)
        .unwrap();

    let mut data = Vec::new();
    data.extend(b"note");
    data.extend(b"SN_FILE_VER_20200001");
    let bitmap_addr = data.len();
    data.extend(block(&png_bytes));
    let layer_addr = data.len();
    let layer = format!("<LAYERPROTOCOL:PNG><LAYERBITMAP:{}>", bitmap_addr);
    data.extend(block(layer.as_bytes()));
    let page_addr = data.len();
    let page = format!("<MAINLAYER:{}>", layer_addr);
    data.extend(block(page.as_bytes()));
    let footer_addr = data.len() as u32;
    let footer = format!("<PAGE1:{}>", page_addr);
    data.extend(block(footer.as_bytes()));
    data.extend(footer_addr.to_le_bytes());

    let nb = parse_notebook(&data).unwrap();
    let canvas = render_page(&data, &nb.pages[0], nb.width, nb.height).unwrap();
    // The opaque red pixel replaced the white base; the transparent one did
    // not; everything else stayed white.
    assert_eq!(canvas.pixels[0], Rgba { r: 255, g: 0, b: 0, a: 255 });
    assert_eq!(canvas.pixels[1], Rgba { r: 255, g: 255, b: 255, a: 255 });
    assert_eq!(canvas.pixels[2], Rgba { r: 255, g: 255, b: 255, a: 255 });
}

#[test]
fn unrecognised_protocol_is_skipped() {
    let mut data = Vec::new();
    data.extend(b"note");
    data.extend(b"SN_FILE_VER_20200001");
    let layer_addr = data.len();
    data.extend(block(b"<LAYERPROTOCOL:VECTOR><LAYERBITMAP:12345>"));
    let page_addr = data.len();
    let page = format!("<MAINLAYER:{}>", layer_addr);
    data.extend(block(page.as_bytes()));
    let footer_addr = data.len() as u32;
    let footer = format!("<PAGE1:{}>", page_addr);
    data.extend(block(footer.as_bytes()));
    data.extend(footer_addr.to_le_bytes());
    let nb = parse_notebook(&data).unwrap();
    let canvas = render_page(&data, &nb.pages[0], nb.width, nb.height).unwrap();
    let white = Rgba { r: 255, g: 255, b: 255, a: 255 };
    assert!(canvas.pixels.iter().all(|&p| p == white));
}

#[test]
fn empty_notebook_still_serializes() {
    let mut data = Vec::new();
    data.extend(b"note");
    data.extend(b"SN_FILE_VER_20200001");
    let footer_addr = data.len() as u32;
    data.extend(block(b""));
    data.extend(footer_addr.to_le_bytes());
    let pdf = convert_note(&data).unwrap();
    assert!(pdf.starts_with(b"%PDF-1.7\n"));
    assert!(find(&pdf, b"/Count 0").is_some());
    assert!(find(&pdf, b"xref\n0 3\n").is_some());
}
