//! The whole conversion of one notebook: parse the container, render every
//! page, and serialize the document.

use vstd::prelude::*;
use vstd::utf8::{decode_utf8, valid_utf8, length_of_first_scalar, pop_first_scalar};
use crate::NoteError;
use crate::canvas::Canvas;
use crate::color::Rgba;
use crate::container::{
    notebook_spec,
    page_rows,
    page_table_spec,
    pages_spec,
    parse_notebook,
    sort_by_index,
    lemma_sort_by_index_ensures,
    Notebook,
    PageView,
    HIRES_HEIGHT,
    HIRES_WIDTH,
    STD_HEIGHT,
    STD_WIDTH,
};
use crate::metadata::{block_pairs_spec, find_from, lemma_find_from, read_block_spec, scan_pairs_from};
use crate::pdf::{build_document, canvas_views, document_bytes};
use crate::render::{render_page, render_page_spec};

verus! {

/// The rendered canvases of the given pages, in order.
pub open spec fn rendered_pages_spec(
    data: Seq<u8>,
    pages: Seq<PageView>,
    width: nat,
    height: nat,
) -> Result<Seq<Seq<Rgba>>, NoteError>
    decreases pages.len(),
{
    if pages.len() == 0 {
        Ok(Seq::empty())
    } else {
        match render_page_spec(data, pages[0], width, height) {
            Err(e) => Err(e),
            Ok(c) => match rendered_pages_spec(data, pages.skip(1), width, height) {
                Err(e) => Err(e),
                Ok(rest) => Ok(seq![c] + rest),
            },
        }
    }
}

/// The output document for one notebook's file bytes: parse the container,
/// render each page in order, and serialize.
pub open spec fn convert_spec(data: Seq<u8>) -> Result<Seq<u8>, NoteError> {
    match notebook_spec(data) {
        Err(e) => Err(e),
        Ok(nb) => match rendered_pages_spec(data, nb.pages, nb.width as nat, nb.height as nat) {
            Err(e) => Err(e),
            Ok(canvases) => Ok(document_bytes(canvases, nb.width as nat, nb.height as nat)),
        },
    }
}

/// Decoding UTF-8 never yields more characters than it read bytes.
proof fn lemma_decode_utf8_len(bytes: Seq<u8>)
    requires
        valid_utf8(bytes),
    ensures
        decode_utf8(bytes).len() <= bytes.len(),
    decreases bytes.len(),
{
    if bytes.len() != 0 {
        assert(1 <= length_of_first_scalar(bytes) <= bytes.len());
        assert(pop_first_scalar(bytes).len() < bytes.len());
        lemma_decode_utf8_len(pop_first_scalar(bytes));
    }
}

/// The scanner finds at most one tag per character.
proof fn lemma_scan_pairs_len(s: Seq<char>, i: int)
    requires
        0 <= i <= s.len(),
    ensures
        scan_pairs_from(s, i).len() + i <= s.len(),
    decreases s.len() - i,
{
    if i < s.len() {
        lemma_find_from(s, '<', i);
        let lt = find_from(s, '<', i);
        if lt < s.len() {
            lemma_find_from(s, ':', lt + 1);
            let co = find_from(s, ':', lt + 1);
            if co < s.len() {
                if co == lt + 1 {
                    lemma_scan_pairs_len(s, lt + 1);
                } else {
                    lemma_find_from(s, '>', co + 1);
                    let gt = find_from(s, '>', co + 1);
                    if gt < s.len() {
                        lemma_scan_pairs_len(s, gt + 1);
                    }
                }
            }
        }
    }
}

/// A metadata block holds at most as many tags as the file has bytes.
proof fn lemma_block_pairs_len(data: Seq<u8>, addr: nat)
    requires
        block_pairs_spec(data, addr) is Ok,
    ensures
        block_pairs_spec(data, addr)->Ok_0.len() <= data.len(),
{
    if addr != 0 {
        let content = read_block_spec(data, addr)->0;
        lemma_decode_utf8_len(content);
        lemma_scan_pairs_len(decode_utf8(content), 0);
    }
}

/// A footer yields at most one page row per entry.
proof fn lemma_page_rows_len(ps: Seq<(Seq<char>, Seq<char>)>)
    requires
        page_rows(ps) is Ok,
    ensures
        page_rows(ps)->Ok_0.len() <= ps.len(),
    decreases ps.len(),
{
    if ps.len() != 0 {
        if page_rows(ps.skip(1)) is Ok {
            lemma_page_rows_len(ps.skip(1));
        }
    }
}

/// Sorting keeps the number of rows.
proof fn lemma_sort_len(s: Seq<(u64, u64)>)
    ensures
        sort_by_index(s).len() == s.len(),
{
    broadcast use vstd::seq_lib::group_to_multiset_ensures;

    lemma_sort_by_index_ensures(s);
    assert(sort_by_index(s).to_multiset() == s.to_multiset());
    assert(sort_by_index(s).len() == sort_by_index(s).to_multiset().len());
    assert(s.len() == s.to_multiset().len());
}

/// There is one parsed page per table row.
proof fn lemma_pages_spec_len(data: Seq<u8>, addrs: Seq<u64>)
    requires
        pages_spec(data, addrs) is Ok,
    ensures
        pages_spec(data, addrs)->Ok_0.len() == addrs.len(),
    decreases addrs.len(),
{
    if addrs.len() != 0 {
        lemma_pages_spec_len(data, addrs.skip(1));
    }
}

/// A parsed notebook has one of the two device geometries, and no more
/// pages than the file has bytes.
proof fn lemma_notebook_bounds(data: Seq<u8>)
    requires
        notebook_spec(data) is Ok,
    ensures
        ({
            let nb = notebook_spec(data)->Ok_0;
            &&& nb.pages.len() <= data.len()
            &&& ((nb.width == STD_WIDTH && nb.height == STD_HEIGHT) || (nb.width == HIRES_WIDTH
                && nb.height == HIRES_HEIGHT))
        }),
{
    let faddr = crate::metadata::le32_at(data, data.len() - 4);
    let footer = block_pairs_spec(data, faddr)->Ok_0;
    lemma_block_pairs_len(data, faddr);
    lemma_page_rows_len(footer);
    let rows = page_rows(footer)->Ok_0;
    lemma_sort_len(rows);
    let table = page_table_spec(footer)->Ok_0;
    let addrs = table.map(|i: int, row: (u64, u64)| row.1);
    lemma_pages_spec_len(data, addrs);
}

/// Convert one notebook's file bytes into the bytes of its document.
///
/// The length bound is a machine limit: it keeps the object identifiers of
/// even a degenerate notebook with one page per file byte within `usize`.
#[verifier::loop_isolation(false)]
#[verifier::rlimit(100)]
pub fn convert_note(data: &[u8]) -> (r: Result<Vec<u8>, NoteError>)
    requires
        data@.len() <= usize::MAX as nat / 4,
    ensures
        match r {
            Ok(out) => convert_spec(data@) == Ok::<Seq<u8>, NoteError>(out@),
            Err(e) => convert_spec(data@) == Err::<Seq<u8>, _>(e),
        },
{
    let notebook: Notebook = match parse_notebook(data) {
        Err(e) => {
            return Err(e);
        },
        Ok(nb) => nb,
    };
    proof {
        lemma_notebook_bounds(data@);
        assert(notebook@.pages.len() == notebook.pages@.len());
        assert(notebook.pages@.len() <= data@.len());
    }
    let width: usize = notebook.width;
    let height: usize = notebook.height;
    proof {
        assert((width == STD_WIDTH && height == STD_HEIGHT) || (width == HIRES_WIDTH && height
            == HIRES_HEIGHT));
        assert(width as nat * height as nat <= usize::MAX as nat) by (nonlinear_arith)
            requires
                (width == 1404 && height == 1872) || (width == 1920 && height == 2560),
                usize::MAX >= 0xffff_ffff,
        ;
    }
    let ghost page_list: Seq<PageView> = notebook@.pages;
    let mut canvases: Vec<Canvas> = Vec::new();
    let mut i: usize = 0;
    proof {
        assert(page_list.skip(0) =~= page_list);
        assert(canvas_views(canvases@) + rendered_pages_spec(
            data@,
            page_list,
            width as nat,
            height as nat,
        )->Ok_0 =~= rendered_pages_spec(data@, page_list, width as nat, height as nat)->Ok_0);
    }
    while i < notebook.pages.len()
        invariant
            i <= notebook.pages@.len(),
            page_list == notebook@.pages,
            canvases@.len() == i,
            forall|k: int|
                0 <= k < canvases@.len() ==> (#[trigger] canvases@[k]).wf() && canvases@[k].width
                    == width && canvases@[k].height == height,
            match rendered_pages_spec(data@, page_list.skip(i as int), width as nat, height as nat) {
                Ok(rest) => rendered_pages_spec(data@, page_list, width as nat, height as nat)
                    == Ok::<_, NoteError>(canvas_views(canvases@) + rest),
                Err(e) => rendered_pages_spec(data@, page_list, width as nat, height as nat)
                    == Err::<Seq<Seq<Rgba>>, _>(e),
            },
        decreases notebook.pages@.len() - i,
    {
        proof {
            assert(page_list.skip(i as int)[0] == page_list[i as int]);
            assert(page_list.skip(i as int).skip(1) =~= page_list.skip(i as int + 1));
            assert(page_list[i as int] == notebook.pages@[i as int]@);
        }
        let ghost views_old: Seq<Seq<Rgba>> = canvas_views(canvases@);
        match render_page(data, &notebook.pages[i], width, height) {
            Err(e) => {
                return Err(e);
            },
            Ok(canvas) => {
                canvases.push(canvas);
                proof {
                    assert(canvas_views(canvases@) =~= views_old.push(canvases@.last().view()));
                    if rendered_pages_spec(
                        data@,
                        page_list.skip(i as int + 1),
                        width as nat,
                        height as nat,
                    ) is Ok {
                        assert(canvas_views(canvases@) + rendered_pages_spec(
                            data@,
                            page_list.skip(i as int + 1),
                            width as nat,
                            height as nat,
                        )->Ok_0 =~= views_old + (seq![canvases@.last().view()]
                            + rendered_pages_spec(
                            data@,
                            page_list.skip(i as int + 1),
                            width as nat,
                            height as nat,
                        )->Ok_0));
                    }
                }
            },
        }
        i = i + 1;
    }
    proof {
        assert(page_list.skip(notebook.pages@.len() as int).len() == 0);
        assert(rendered_pages_spec(
            data@,
            page_list.skip(notebook.pages@.len() as int),
            width as nat,
            height as nat,
        ) == Ok::<Seq<Seq<Rgba>>, NoteError>(Seq::empty()));
        assert(canvas_views(canvases@) + Seq::<Seq<Rgba>>::empty() =~= canvas_views(canvases@));
    }
    let doc: Vec<u8> = build_document(&canvases, width, height);
    Ok(doc)
}

} // verus!
