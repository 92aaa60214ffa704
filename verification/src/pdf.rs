//! The document serializer: a minimal paginated document built by hand, with
//! exact byte bookkeeping.
//!
//! Each page takes three sequential object slots: a page object, a content
//! stream placing its image, and the image itself as a deflate-compressed
//! 24-bit RGB raster.  A cross-reference table records the absolute byte
//! offset of every object, and a trailer names the object count and root.

use vstd::prelude::*;
use vstd::slice::slice_to_vec;
use vstd::string::StringSliceAdditionalSpecFns;
use crate::canvas::Canvas;
use crate::color::Rgba;
use crate::text::{dec_digits, dec_digits_padded, push_u64, push_u64_padded};

verus! {

/// What the outside zlib encoder emits for a byte buffer at the default
/// compression level.  The result depends on the bytes alone.
pub uninterp spec fn deflate_of(bytes: Seq<u8>) -> Seq<u8>;

/// Relies on `flate2::write::ZlibEncoder` at the default level: writing the
/// whole input and finishing yields the zlib stream for those bytes.  The
/// `Vec` sink's `Write` impl never fails, so neither call can.
#[verifier::external_body]
fn zlib_compress(bytes: &[u8]) -> (r: Vec<u8>)
    ensures
        r@ == deflate_of(bytes@),
{
    let mut encoder = flate2::write::ZlibEncoder::new(Vec::new(), flate2::Compression::default());
    std::io::Write::write_all(&mut encoder, bytes).unwrap();
    encoder.finish().unwrap()
}

/// Append a string's UTF-8 bytes.
fn push_str(out: &mut Vec<u8>, s: &str)
    ensures
        final(out)@ == old(out)@ + s.spec_bytes(),
{
    let mut bytes: Vec<u8> = slice_to_vec(s.as_bytes());
    out.append(&mut bytes);
}

/// Append a byte buffer.
fn push_bytes(out: &mut Vec<u8>, b: &Vec<u8>)
    ensures
        final(out)@ == old(out)@ + b@,
{
    let mut copy: Vec<u8> = slice_to_vec(b.as_slice());
    out.append(&mut copy);
}

/// The header: version line and a binary-content comment.
pub open spec fn header_bytes() -> Seq<u8> {
    "%PDF-1.7\n%".spec_bytes() + seq![0xe2u8, 0xe3u8, 0xcfu8, 0xd3u8, 0x0au8]
}

/// The catalog (object 1).
pub open spec fn catalog_bytes() -> Seq<u8> {
    "1 0 obj\n<< /Type /Catalog /Pages 2 0 R >>\nendobj\n".spec_bytes()
}

/// `<id> 0 R` references to the first `n` page objects, space separated.
pub open spec fn kids_bytes(n: nat) -> Seq<u8>
    decreases n,
{
    if n == 0 {
        Seq::empty()
    } else if n == 1 {
        dec_digits((3 * (n - 1) + 3) as nat) + " 0 R".spec_bytes()
    } else {
        kids_bytes((n - 1) as nat) + " ".spec_bytes() + dec_digits((3 * (n - 1) + 3) as nat)
            + " 0 R".spec_bytes()
    }
}

/// The page-tree root (object 2).
pub open spec fn pages_root_bytes(n: nat) -> Seq<u8> {
    "2 0 obj\n<< /Type /Pages /Kids [ ".spec_bytes() + kids_bytes(n) + " ] /Count ".spec_bytes()
        + dec_digits(n) + " >>\nendobj\n".spec_bytes()
}

/// The page object of page `i` (zero-based).
pub open spec fn page_object_bytes(i: nat) -> Seq<u8> {
    dec_digits(3 * i + 3)
        + " 0 obj\n<< /Type /Page\n   /Parent 2 0 R\n   /MediaBox [0 0 595 842]\n   /Contents ".spec_bytes()
        + dec_digits(3 * i + 4) + " 0 R\n   /Resources << /XObject << /Im1 ".spec_bytes()
        + dec_digits(3 * i + 5) + " 0 R >> >>\n>>\nendobj\n".spec_bytes()
}

/// The fixed content stream: draw the page image scaled to the page box.
pub open spec fn content_stream_bytes() -> Seq<u8> {
    "q\n595 0 0 842 0 0 cm\n/Im1 Do\nQ\n".spec_bytes()
}

/// The content-stream object of page `i`.
pub open spec fn contents_object_bytes(i: nat) -> Seq<u8> {
    dec_digits(3 * i + 4) + " 0 obj\n<< /Length ".spec_bytes() + dec_digits(
        content_stream_bytes().len(),
    ) + " >>\nstream\n".spec_bytes() + content_stream_bytes() + "\nendstream\nendobj\n".spec_bytes()
}

/// A canvas flattened to 24-bit RGB, the alpha channel dropped.
pub open spec fn rgb_bytes(pixels: Seq<Rgba>) -> Seq<u8> {
    Seq::new(
        3 * pixels.len(),
        |i: int|
            {
                let p = pixels[i / 3];
                if i % 3 == 0 {
                    p.r
                } else if i % 3 == 1 {
                    p.g
                } else {
                    p.b
                }
            },
    )
}

/// The image object of page `i`: its canvas as a compressed RGB stream.
pub open spec fn image_object_bytes(i: nat, width: nat, height: nat, pixels: Seq<Rgba>) -> Seq<
    u8,
> {
    let stream = deflate_of(rgb_bytes(pixels));
    dec_digits(3 * i + 5) + " 0 obj\n<< /Type /XObject\n   /Subtype /Image\n   /Width ".spec_bytes()
        + dec_digits(width) + "\n   /Height ".spec_bytes() + dec_digits(height)
        + "\n   /ColorSpace /DeviceRGB\n   /BitsPerComponent 8\n   /Filter /FlateDecode\n   /Length ".spec_bytes()
        + dec_digits(stream.len()) + " >>\nstream\n".spec_bytes() + stream
        + "\nendstream\nendobj\n".spec_bytes()
}

/// The three objects of page `i`, in slot order.
pub open spec fn page_chunk_bytes(i: nat, width: nat, height: nat, pixels: Seq<Rgba>) -> Seq<u8> {
    page_object_bytes(i) + contents_object_bytes(i) + image_object_bytes(i, width, height, pixels)
}

/// The chunks of pages `i` onward, concatenated.
pub open spec fn chunks_bytes(canvases: Seq<Seq<Rgba>>, i: int, width: nat, height: nat) -> Seq<
    u8,
>
    decreases canvases.len() - i,
{
    if i < 0 || i >= canvases.len() {
        Seq::empty()
    } else {
        page_chunk_bytes(i as nat, width, height, canvases[i]) + chunks_bytes(
            canvases,
            i + 1,
            width,
            height,
        )
    }
}

/// Everything before the cross-reference table.
pub open spec fn body_bytes(canvases: Seq<Seq<Rgba>>, width: nat, height: nat) -> Seq<u8> {
    header_bytes() + catalog_bytes() + pages_root_bytes(canvases.len()) + chunks_bytes(
        canvases,
        0,
        width,
        height,
    )
}

/// The byte offsets of the three objects of each page from `i` on, the first
/// chunk starting at `base`.
pub open spec fn offsets_from(
    canvases: Seq<Seq<Rgba>>,
    i: int,
    base: nat,
    width: nat,
    height: nat,
) -> Seq<nat>
    decreases canvases.len() - i,
{
    if i < 0 || i >= canvases.len() {
        Seq::empty()
    } else {
        let po = page_object_bytes(i as nat).len();
        let co = contents_object_bytes(i as nat).len();
        let io = image_object_bytes(i as nat, width, height, canvases[i]).len();
        seq![base, base + po, (base + po + co) as nat] + offsets_from(
            canvases,
            i + 1,
            base + po + co + io,
            width,
            height,
        )
    }
}

/// The byte offset of every object, in object order.
pub open spec fn all_offsets(canvases: Seq<Seq<Rgba>>, width: nat, height: nat) -> Seq<nat> {
    let h = header_bytes().len();
    let c = catalog_bytes().len();
    let p = pages_root_bytes(canvases.len()).len();
    seq![h, (h + c) as nat] + offsets_from(canvases, 0, h + c + p, width, height)
}

/// One cross-reference record: a ten-digit offset.
pub open spec fn xref_entry_bytes(off: nat) -> Seq<u8> {
    dec_digits_padded(off, 10) + " 00000 n \n".spec_bytes()
}

pub open spec fn xref_entries_bytes(offs: Seq<nat>) -> Seq<u8>
    decreases offs.len(),
{
    if offs.len() == 0 {
        Seq::empty()
    } else {
        xref_entry_bytes(offs[0]) + xref_entries_bytes(offs.skip(1))
    }
}

/// The cross-reference table: its header, the reserved free entry for
/// object 0, then one record per object.
pub open spec fn xref_bytes(offs: Seq<nat>) -> Seq<u8> {
    "xref\n0 ".spec_bytes() + dec_digits(offs.len() + 1) + "\n".spec_bytes()
        + "0000000000 65535 f \n".spec_bytes() + xref_entries_bytes(offs)
}

/// The trailer: object count, the root object, and where the table starts.
pub open spec fn trailer_bytes(count: nat, xref_start: nat) -> Seq<u8> {
    "trailer\n<< /Size ".spec_bytes() + dec_digits(count)
        + " /Root 1 0 R >>\nstartxref\n".spec_bytes() + dec_digits(xref_start)
        + "\n%%EOF\n".spec_bytes()
}

/// The whole document for the given page canvases.
pub open spec fn document_bytes(canvases: Seq<Seq<Rgba>>, width: nat, height: nat) -> Seq<u8> {
    let body = body_bytes(canvases, width, height);
    let offs = all_offsets(canvases, width, height);
    body + xref_bytes(offs) + trailer_bytes(offs.len() + 1, body.len())
}

/// The raster contents of each canvas.
pub open spec fn canvas_views(cs: Seq<Canvas>) -> Seq<Seq<Rgba>> {
    cs.map(|i: int, c: Canvas| c.view())
}

/// The serialized objects of pages `i` onward, three per page in slot order.
pub open spec fn page_objects_from(
    canvases: Seq<Seq<Rgba>>,
    i: int,
    width: nat,
    height: nat,
) -> Seq<Seq<u8>>
    decreases canvases.len() - i,
{
    if i < 0 || i >= canvases.len() {
        Seq::empty()
    } else {
        seq![
            page_object_bytes(i as nat),
            contents_object_bytes(i as nat),
            image_object_bytes(i as nat, width, height, canvases[i]),
        ] + page_objects_from(canvases, i + 1, width, height)
    }
}

/// Every object of the document, in object order.
pub open spec fn document_objects(canvases: Seq<Seq<Rgba>>, width: nat, height: nat) -> Seq<
    Seq<u8>,
> {
    seq![catalog_bytes(), pages_root_bytes(canvases.len())] + page_objects_from(
        canvases,
        0,
        width,
        height,
    )
}

/// A list of byte segments, concatenated.
pub open spec fn concat_seqs(segs: Seq<Seq<u8>>) -> Seq<u8>
    decreases segs.len(),
{
    if segs.len() == 0 {
        Seq::empty()
    } else {
        segs[0] + concat_seqs(segs.skip(1))
    }
}

/// Concatenation peels one leading segment at a time.
proof fn lemma_concat_cons(x: Seq<u8>, rest: Seq<Seq<u8>>)
    ensures
        concat_seqs(seq![x] + rest) == x + concat_seqs(rest),
{
    assert((seq![x] + rest)[0] == x);
    assert((seq![x] + rest).skip(1) =~= rest);
}

/// The page chunks are the page objects concatenated, and each offset in
/// `offsets_from` is `base` plus the lengths of the objects before it.
#[verifier::rlimit(100)]
proof fn lemma_page_objects_structure(
    canvases: Seq<Seq<Rgba>>,
    i: int,
    base: nat,
    width: nat,
    height: nat,
)
    requires
        0 <= i <= canvases.len(),
    ensures
        page_objects_from(canvases, i, width, height).len() == 3 * (canvases.len() - i),
        concat_seqs(page_objects_from(canvases, i, width, height)) == chunks_bytes(
            canvases,
            i,
            width,
            height,
        ),
        offsets_from(canvases, i, base, width, height).len() == 3 * (canvases.len() - i),
        forall|k: int|
            0 <= k < 3 * (canvases.len() - i) ==> offsets_from(canvases, i, base, width, height)[k]
                == base + concat_seqs(
                page_objects_from(canvases, i, width, height).take(k),
            ).len(),
    decreases canvases.len() - i,
{
    if i < canvases.len() {
        let p = page_object_bytes(i as nat);
        let c = contents_object_bytes(i as nat);
        let im = image_object_bytes(i as nat, width, height, canvases[i]);
        let rest = page_objects_from(canvases, i + 1, width, height);
        let objs = page_objects_from(canvases, i, width, height);
        lemma_page_objects_structure(
            canvases,
            i + 1,
            base + p.len() + c.len() + im.len(),
            width,
            height,
        );
        assert(objs =~= seq![p] + (seq![c] + (seq![im] + rest)));
        lemma_concat_cons(im, rest);
        lemma_concat_cons(c, seq![im] + rest);
        lemma_concat_cons(p, seq![c] + (seq![im] + rest));
        assert(concat_seqs(objs) =~= (p + c + im) + concat_seqs(rest));
        assert(concat_seqs(objs) =~= chunks_bytes(canvases, i, width, height));
        assert forall|k: int| 0 <= k < 3 * (canvases.len() - i) implies offsets_from(
            canvases,
            i,
            base,
            width,
            height,
        )[k] == base + concat_seqs(objs.take(k)).len() by {
            if k == 0 {
                assert(objs.take(0) =~= Seq::<Seq<u8>>::empty());
            } else if k == 1 {
                assert(objs.take(1) =~= seq![p] + Seq::<Seq<u8>>::empty());
                lemma_concat_cons(p, Seq::<Seq<u8>>::empty());
            } else if k == 2 {
                assert(objs.take(2) =~= seq![p] + (seq![c] + Seq::<Seq<u8>>::empty()));
                lemma_concat_cons(c, Seq::<Seq<u8>>::empty());
                lemma_concat_cons(p, seq![c] + Seq::<Seq<u8>>::empty());
            } else {
                assert(offsets_from(canvases, i, base, width, height)[k] == offsets_from(
                    canvases,
                    i + 1,
                    base + p.len() + c.len() + im.len(),
                    width,
                    height,
                )[k - 3]);
                assert(objs.take(k) =~= seq![p] + (seq![c] + (seq![im] + rest.take(k - 3))));
                lemma_concat_cons(im, rest.take(k - 3));
                lemma_concat_cons(c, seq![im] + rest.take(k - 3));
                lemma_concat_cons(p, seq![c] + (seq![im] + rest.take(k - 3)));
            }
        }
    }
}

/// The cross-reference table is exact: the document's objects stand in slot
/// order right after the header, and the offset recorded for each one is
/// the number of bytes that precede it.
#[verifier::rlimit(100)]
pub proof fn lemma_offsets_are_exact(canvases: Seq<Seq<Rgba>>, width: nat, height: nat)
    ensures
        all_offsets(canvases, width, height).len() == document_objects(
            canvases,
            width,
            height,
        ).len(),
        body_bytes(canvases, width, height) == header_bytes() + concat_seqs(
            document_objects(canvases, width, height),
        ),
        forall|j: int|
            0 <= j < all_offsets(canvases, width, height).len() ==> all_offsets(
                canvases,
                width,
                height,
            )[j] == header_bytes().len() + concat_seqs(
                document_objects(canvases, width, height).take(j),
            ).len(),
{
    let h = header_bytes();
    let cat = catalog_bytes();
    let root = pages_root_bytes(canvases.len());
    let objs = document_objects(canvases, width, height);
    let pobjs = page_objects_from(canvases, 0, width, height);
    lemma_page_objects_structure(
        canvases,
        0,
        (h.len() + cat.len() + root.len()) as nat,
        width,
        height,
    );
    assert(objs =~= seq![cat] + (seq![root] + pobjs));
    lemma_concat_cons(root, pobjs);
    lemma_concat_cons(cat, seq![root] + pobjs);
    assert(body_bytes(canvases, width, height) =~= h + concat_seqs(objs));
    assert forall|j: int| 0 <= j < all_offsets(canvases, width, height).len() implies all_offsets(
        canvases,
        width,
        height,
    )[j] == h.len() + concat_seqs(objs.take(j)).len() by {
        if j == 0 {
            assert(objs.take(0) =~= Seq::<Seq<u8>>::empty());
        } else if j == 1 {
            assert(objs.take(1) =~= seq![cat] + Seq::<Seq<u8>>::empty());
            lemma_concat_cons(cat, Seq::<Seq<u8>>::empty());
        } else {
            assert(all_offsets(canvases, width, height)[j] == offsets_from(
                canvases,
                0,
                (h.len() + cat.len() + root.len()) as nat,
                width,
                height,
            )[j - 2]);
            assert(objs.take(j) =~= seq![cat] + (seq![root] + pobjs.take(j - 2)));
            lemma_concat_cons(root, pobjs.take(j - 2));
            lemma_concat_cons(cat, seq![root] + pobjs.take(j - 2));
        }
    }
}

/// Flatten a canvas to RGB bytes, dropping the alpha channel.
fn canvas_rgb_bytes(canvas: &Canvas) -> (r: Vec<u8>)
    ensures
        r@ == rgb_bytes(canvas.view()),
{
    let n: usize = canvas.pixels.len();
    let mut out: Vec<u8> = Vec::new();
    let mut i: usize = 0;
    proof {
        assert(rgb_bytes(canvas.view()).take(0) =~= Seq::<u8>::empty());
    }
    while i < n
        invariant
            i <= n,
            n == canvas.view().len(),
            out@ == rgb_bytes(canvas.view()).take(3 * i as int),
        decreases n - i,
    {
        let p: Rgba = canvas.pixels[i];
        out.push(p.r);
        out.push(p.g);
        out.push(p.b);
        proof {
            let whole = rgb_bytes(canvas.view());
            assert(3 * (i as int + 1) <= whole.len());
            assert(whole[3 * i as int] == p.r);
            assert(whole[3 * i as int + 1] == p.g);
            assert(whole[3 * i as int + 2] == p.b);
            assert(whole.take(3 * (i as int + 1)) =~= whole.take(3 * i as int).push(p.r).push(
                p.g,
            ).push(p.b));
        }
        i = i + 1;
    }
    proof {
        assert(rgb_bytes(canvas.view()).take(3 * n as int) =~= rgb_bytes(canvas.view()));
    }
    out
}

/// Append the page object of page `i`.
fn push_page_object(out: &mut Vec<u8>, i: usize)
    requires
        3 * (i as nat) + 5 <= usize::MAX as nat,
    ensures
        final(out)@ == old(out)@ + page_object_bytes(i as nat),
{
    let id: u64 = 3 * (i as u64) + 3;
    push_u64(out, id);
    push_str(out, " 0 obj\n<< /Type /Page\n   /Parent 2 0 R\n   /MediaBox [0 0 595 842]\n   /Contents ");
    push_u64(out, id + 1);
    push_str(out, " 0 R\n   /Resources << /XObject << /Im1 ");
    push_u64(out, id + 2);
    push_str(out, " 0 R >> >>\n>>\nendobj\n");
    proof {
        assert(out@ =~= old(out)@ + page_object_bytes(i as nat));
    }
}

/// Append the content-stream object of page `i`.
fn push_contents_object(out: &mut Vec<u8>, i: usize)
    requires
        3 * (i as nat) + 5 <= usize::MAX as nat,
    ensures
        final(out)@ == old(out)@ + contents_object_bytes(i as nat),
{
    let mut contents: Vec<u8> = Vec::new();
    push_str(&mut contents, "q\n595 0 0 842 0 0 cm\n/Im1 Do\nQ\n");
    proof {
        assert(contents@ =~= content_stream_bytes());
    }
    let id: u64 = 3 * (i as u64) + 4;
    push_u64(out, id);
    push_str(out, " 0 obj\n<< /Length ");
    push_u64(out, contents.len() as u64);
    push_str(out, " >>\nstream\n");
    push_bytes(out, &contents);
    push_str(out, "\nendstream\nendobj\n");
    proof {
        assert(out@ =~= old(out)@ + contents_object_bytes(i as nat));
    }
}

/// Append the image object of page `i`: the canvas compressed as RGB.
fn push_image_object(out: &mut Vec<u8>, i: usize, canvas: &Canvas)
    requires
        3 * (i as nat) + 5 <= usize::MAX as nat,
    ensures
        final(out)@ == old(out)@ + image_object_bytes(
            i as nat,
            canvas.width as nat,
            canvas.height as nat,
            canvas.view(),
        ),
{
    let rgb: Vec<u8> = canvas_rgb_bytes(canvas);
    let compressed: Vec<u8> = zlib_compress(rgb.as_slice());
    let id: u64 = 3 * (i as u64) + 5;
    push_u64(out, id);
    push_str(out, " 0 obj\n<< /Type /XObject\n   /Subtype /Image\n   /Width ");
    push_u64(out, canvas.width as u64);
    push_str(out, "\n   /Height ");
    push_u64(out, canvas.height as u64);
    push_str(out, "\n   /ColorSpace /DeviceRGB\n   /BitsPerComponent 8\n   /Filter /FlateDecode\n   /Length ");
    push_u64(out, compressed.len() as u64);
    push_str(out, " >>\nstream\n");
    push_bytes(out, &compressed);
    push_str(out, "\nendstream\nendobj\n");
    proof {
        assert(out@ =~= old(out)@ + image_object_bytes(
            i as nat,
            canvas.width as nat,
            canvas.height as nat,
            canvas.view(),
        ));
    }
}

/// The cross-reference table has three records per page and two more for
/// the catalog and page tree.
proof fn lemma_offsets_from_len(canvases: Seq<Seq<Rgba>>, i: int, base: nat, width: nat, height: nat)
    requires
        0 <= i <= canvases.len(),
    ensures
        offsets_from(canvases, i, base, width, height).len() == 3 * (canvases.len() - i),
    decreases canvases.len() - i,
{
    if i < canvases.len() {
        let po = page_object_bytes(i as nat).len();
        let co = contents_object_bytes(i as nat).len();
        let io = image_object_bytes(i as nat, width, height, canvases[i]).len();
        lemma_offsets_from_len(canvases, i + 1, base + po + co + io, width, height);
    }
}

/// Append the header, the catalog and the page-tree root for `n` pages,
/// recording the offsets of the two fixed objects.
#[verifier::loop_isolation(false)]
fn push_preamble(out: &mut Vec<u8>, offsets: &mut Vec<usize>, n: usize)
    requires
        old(out)@.len() == 0,
        old(offsets)@.len() == 0,
        3 * (n as nat) + 3 <= usize::MAX as nat,
    ensures
        final(out)@ == header_bytes() + catalog_bytes() + pages_root_bytes(n as nat),
        final(offsets)@.map(|q: int, v: usize| v as nat) == seq![
            header_bytes().len(),
            (header_bytes().len() + catalog_bytes().len()) as nat,
        ],
{
    // Header.
    push_str(out, "%PDF-1.7\n%");
    out.push(0xe2);
    out.push(0xe3);
    out.push(0xcf);
    out.push(0xd3);
    out.push(0x0a);
    proof {
        assert(out@ =~= header_bytes());
    }
    // Object 1: the catalog.
    offsets.push(out.len());
    push_str(out, "1 0 obj\n<< /Type /Catalog /Pages 2 0 R >>\nendobj\n");
    proof {
        assert(out@ =~= header_bytes() + catalog_bytes());
    }
    // Object 2: the page-tree root.
    offsets.push(out.len());
    push_str(out, "2 0 obj\n<< /Type /Pages /Kids [ ");
    let ghost kids_base: Seq<u8> = out@;
    let mut k: usize = 0;
    while k < n
        invariant
            k <= n,
            out@ == kids_base + kids_bytes(k as nat),
        decreases n - k,
    {
        if k > 0 {
            push_str(out, " ");
        }
        push_u64(out, 3 * (k as u64) + 3);
        push_str(out, " 0 R");
        proof {
            if k == 0 {
                assert(kids_bytes(0) =~= Seq::<u8>::empty());
                assert(out@ =~= kids_base + kids_bytes(1));
            } else {
                assert(out@ =~= kids_base + kids_bytes(k as nat + 1));
            }
        }
        k = k + 1;
    }
    push_str(out, " ] /Count ");
    push_u64(out, n as u64);
    push_str(out, " >>\nendobj\n");
    proof {
        assert(out@ =~= header_bytes() + catalog_bytes() + pages_root_bytes(n as nat));
        assert(offsets@.map(|q: int, v: usize| v as nat) =~= seq![
            header_bytes().len(),
            (header_bytes().len() + catalog_bytes().len()) as nat,
        ]);
    }
}

/// Append the three objects of every page, recording each object's offset.
#[verifier::loop_isolation(false)]
#[verifier::rlimit(100)]
fn push_chunks(
    out: &mut Vec<u8>,
    offsets: &mut Vec<usize>,
    canvases: &Vec<Canvas>,
    width: usize,
    height: usize,
)
    requires
        forall|i: int|
            0 <= i < canvases@.len() ==> (#[trigger] canvases@[i]).wf() && canvases@[i].width
                == width && canvases@[i].height == height,
        3 * canvases@.len() + 3 <= usize::MAX as nat,
    ensures
        final(out)@ == old(out)@ + chunks_bytes(
            canvas_views(canvases@),
            0,
            width as nat,
            height as nat,
        ),
        final(offsets)@.map(|q: int, v: usize| v as nat) == old(offsets)@.map(
            |q: int, v: usize| v as nat,
        ) + offsets_from(
            canvas_views(canvases@),
            0,
            old(out)@.len() as nat,
            width as nat,
            height as nat,
        ),
{
    let n: usize = canvases.len();
    let ghost views: Seq<Seq<Rgba>> = canvas_views(canvases@);
    let mut i: usize = 0;
    let ghost mut chunk_acc: Seq<u8> = Seq::empty();
    proof {
        assert(views.len() == n);
        assert(out@ =~= old(out)@ + chunk_acc);
        assert(chunk_acc + chunks_bytes(views, 0, width as nat, height as nat) =~= chunks_bytes(
            views,
            0,
            width as nat,
            height as nat,
        ));
        assert(offsets@.map(|q: int, v: usize| v as nat) + offsets_from(
            views,
            0,
            out@.len() as nat,
            width as nat,
            height as nat,
        ) =~= old(offsets)@.map(|q: int, v: usize| v as nat) + offsets_from(
            views,
            0,
            old(out)@.len() as nat,
            width as nat,
            height as nat,
        ));
    }
    while i < n
        invariant
            i <= n,
            out@ == old(out)@ + chunk_acc,
            chunks_bytes(views, 0, width as nat, height as nat) == chunk_acc + chunks_bytes(
                views,
                i as int,
                width as nat,
                height as nat,
            ),
            offsets@.map(|q: int, v: usize| v as nat) + offsets_from(
                views,
                i as int,
                out@.len() as nat,
                width as nat,
                height as nat,
            ) == old(offsets)@.map(|q: int, v: usize| v as nat) + offsets_from(
                views,
                0,
                old(out)@.len() as nat,
                width as nat,
                height as nat,
            ),
        decreases n - i,
    {
        proof {
            assert(canvases@[i as int].wf());
        }
        let ghost out0: Seq<u8> = out@;
        let ghost base0: nat = out@.len() as nat;
        offsets.push(out.len());
        push_page_object(out, i);
        offsets.push(out.len());
        push_contents_object(out, i);
        offsets.push(out.len());
        push_image_object(out, i, &canvases[i]);
        proof {
            assert(views[i as int] == canvases@[i as int].view());
            let chunk = page_chunk_bytes(i as nat, width as nat, height as nat, views[i as int]);
            assert(out@ =~= out0 + chunk);
            assert(out@ =~= old(out)@ + (chunk_acc + chunk));
            assert(chunk_acc + (chunk + chunks_bytes(views, i + 1, width as nat, height as nat))
                =~= (chunk_acc + chunk) + chunks_bytes(views, i + 1, width as nat, height as nat));
            chunk_acc = chunk_acc + chunk;
            let po = page_object_bytes(i as nat).len();
            let co = contents_object_bytes(i as nat).len();
            assert(offsets@.map(|q: int, v: usize| v as nat) =~= offsets@.take(
                offsets@.len() - 3,
            ).map(|q: int, v: usize| v as nat) + seq![base0, (base0 + po) as nat, (base0 + po
                + co) as nat]);
            assert(offsets@.take(offsets@.len() - 3).map(|q: int, v: usize| v as nat) + (seq![
                base0,
                (base0 + po) as nat,
                (base0 + po + co) as nat,
            ] + offsets_from(views, i + 1, out@.len() as nat, width as nat, height as nat))
                =~= offsets@.map(|q: int, v: usize| v as nat) + offsets_from(
                views,
                i + 1,
                out@.len() as nat,
                width as nat,
                height as nat,
            ));
        }
        i = i + 1;
    }
    proof {
        assert(chunks_bytes(views, n as int, width as nat, height as nat) =~= Seq::<u8>::empty());
        assert(chunk_acc + Seq::<u8>::empty() =~= chunk_acc);
        assert(offsets_from(views, n as int, out@.len() as nat, width as nat, height as nat)
            =~= Seq::<nat>::empty());
        assert(offsets@.map(|q: int, v: usize| v as nat) + Seq::<nat>::empty() =~= offsets@.map(
            |q: int, v: usize| v as nat,
        ));
    }
}

/// Append one cross-reference record per recorded offset.
#[verifier::loop_isolation(false)]
fn push_xref_entries(out: &mut Vec<u8>, offsets: &Vec<usize>)
    ensures
        final(out)@ == old(out)@ + xref_entries_bytes(
            offsets@.map(|q: int, v: usize| v as nat),
        ),
{
    let ghost offs: Seq<nat> = offsets@.map(|q: int, v: usize| v as nat);
    let mut j: usize = 0;
    let ghost mut entries_acc: Seq<u8> = Seq::empty();
    proof {
        assert(offs.skip(0) =~= offs);
        assert(out@ =~= old(out)@ + entries_acc);
        assert(entries_acc + xref_entries_bytes(offs) =~= xref_entries_bytes(offs));
    }
    while j < offsets.len()
        invariant
            j <= offsets@.len(),
            offs == offsets@.map(|q: int, v: usize| v as nat),
            out@ == old(out)@ + entries_acc,
            xref_entries_bytes(offs) == entries_acc + xref_entries_bytes(offs.skip(j as int)),
        decreases offsets@.len() - j,
    {
        proof {
            assert(offs.skip(j as int)[0] == offs[j as int]);
            assert(offs.skip(j as int).skip(1) =~= offs.skip(j as int + 1));
            assert(offs[j as int] == offsets@[j as int] as nat);
        }
        let ghost out0: Seq<u8> = out@;
        push_u64_padded(out, offsets[j] as u64, 10);
        push_str(out, " 00000 n \n");
        proof {
            let entry = xref_entry_bytes(offs[j as int]);
            assert(out@ =~= out0 + entry);
            assert(out@ =~= old(out)@ + (entries_acc + entry));
            assert(entries_acc + (entry + xref_entries_bytes(offs.skip(j as int + 1)))
                =~= (entries_acc + entry) + xref_entries_bytes(offs.skip(j as int + 1)));
            entries_acc = entries_acc + entry;
        }
        j = j + 1;
    }
    proof {
        assert(xref_entries_bytes(offs.skip(offsets@.len() as int)) =~= Seq::<u8>::empty());
        assert(entries_acc + Seq::<u8>::empty() =~= entries_acc);
        assert(out@ =~= old(out)@ + xref_entries_bytes(offs));
    }
}

/// Serialize rendered page canvases into a complete document: header,
/// catalog, page tree, three objects per page, cross-reference table and
/// trailer, every offset exact.
#[verifier::loop_isolation(false)]
#[verifier::rlimit(100)]
pub fn build_document(canvases: &Vec<Canvas>, width: usize, height: usize) -> (r: Vec<u8>)
    requires
        forall|i: int|
            0 <= i < canvases@.len() ==> (#[trigger] canvases@[i]).wf() && canvases@[i].width
                == width && canvases@[i].height == height,
        3 * canvases@.len() + 3 <= usize::MAX as nat,
    ensures
        r@ == document_bytes(canvas_views(canvases@), width as nat, height as nat),
{
    let n: usize = canvases.len();
    let ghost views: Seq<Seq<Rgba>> = canvas_views(canvases@);
    let mut out: Vec<u8> = Vec::new();
    let mut offsets: Vec<usize> = Vec::new();
    push_preamble(&mut out, &mut offsets, n);
    push_chunks(&mut out, &mut offsets, canvases, width, height);
    proof {
        assert(views.len() == n);
        assert(out@ =~= body_bytes(views, width as nat, height as nat));
        assert(offsets@.map(|q: int, v: usize| v as nat) =~= all_offsets(
            views,
            width as nat,
            height as nat,
        ));
        lemma_offsets_from_len(
            views,
            0,
            (header_bytes().len() + catalog_bytes().len() + pages_root_bytes(n as nat).len()) as nat,
            width as nat,
            height as nat,
        );
    }
    let ghost body: Seq<u8> = out@;
    let ghost offs: Seq<nat> = offsets@.map(|q: int, v: usize| v as nat);
    // The cross-reference table.
    let xref_start: usize = out.len();
    push_str(&mut out, "xref\n0 ");
    push_u64(&mut out, 3 * (n as u64) + 3);
    push_str(&mut out, "\n");
    push_str(&mut out, "0000000000 65535 f \n");
    proof {
        assert(offs.len() == 3 * n + 2);
        assert(out@ =~= body + ("xref\n0 ".spec_bytes() + dec_digits(offs.len() + 1)
            + "\n".spec_bytes() + "0000000000 65535 f \n".spec_bytes()));
    }
    let ghost head_acc: Seq<u8> = out@;
    push_xref_entries(&mut out, &offsets);
    proof {
        assert(out@ =~= head_acc + xref_entries_bytes(offs));
        assert(out@ =~= body + xref_bytes(offs));
        assert(xref_start as nat == body.len());
    }
    // The trailer.
    push_str(&mut out, "trailer\n<< /Size ");
    push_u64(&mut out, 3 * (n as u64) + 3);
    push_str(&mut out, " /Root 1 0 R >>\nstartxref\n");
    push_u64(&mut out, xref_start as u64);
    push_str(&mut out, "\n%%EOF\n");
    proof {
        assert(out@ =~= body + xref_bytes(offs) + trailer_bytes(offs.len() + 1, body.len()));
    }
    out
}

} // verus!
