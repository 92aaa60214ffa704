//! The container parser: walks the file's footer pointer to build the page
//! and layer address tree and detects the device geometry.

use vstd::prelude::*;
use vstd::multiset::Multiset;
use vstd::bytes::u32_from_le_bytes;
use vstd::slice::{slice_subrange, slice_to_vec};
use vstd::string::StrSliceExecFns;
use vstd::string::StringExecFns;
use vstd::utf8::{decode_utf8, valid_utf8};
use crate::NoteError;
use crate::metadata::{
    block_pairs_spec,
    find_from,
    le32_at,
    lemma_find_from,
    lookup_pairs,
    MetadataMap,
    parse_metadata_block,
};
use crate::text::{parse_u64, parse_u64_spec, utf8_to_string};

verus! {

/// Width of the standard device geometry.
pub const STD_WIDTH: usize = 1404;

/// Height of the standard device geometry.
pub const STD_HEIGHT: usize = 1872;

/// Width of the high-resolution device geometry.
pub const HIRES_WIDTH: usize = 1920;

/// Height of the high-resolution device geometry.
pub const HIRES_HEIGHT: usize = 2560;

/// One drawing plane of a page: its role key, its codec, and the address of
/// its bitmap block (`0` meaning absent).
#[derive(Debug, PartialEq)]
pub struct Layer {
    pub key: String,
    pub protocol: String,
    pub bitmap_address: u64,
}

/// The ghost image of a [`Layer`].
pub struct LayerView {
    pub key: Seq<char>,
    pub protocol: Seq<char>,
    pub bitmap_address: u64,
}

impl View for Layer {
    type V = LayerView;

    open spec fn view(&self) -> LayerView {
        LayerView {
            key: self.key@,
            protocol: self.protocol@,
            bitmap_address: self.bitmap_address,
        }
    }
}

/// One page: the address of its metadata block and its layers in drawing
/// order.
#[derive(Debug, PartialEq)]
pub struct Page {
    pub addr: u64,
    pub layers: Vec<Layer>,
}

/// The ghost image of a [`Page`].
pub struct PageView {
    pub addr: u64,
    pub layers: Seq<LayerView>,
}

/// The ghost images of a list of layers.
pub open spec fn layer_views(layers: Seq<Layer>) -> Seq<LayerView> {
    layers.map(|i: int, l: Layer| l@)
}

impl View for Page {
    type V = PageView;

    open spec fn view(&self) -> PageView {
        PageView { addr: self.addr, layers: layer_views(self.layers@) }
    }
}

/// The ghost images of a list of pages.
pub open spec fn page_views(pages: Seq<Page>) -> Seq<PageView> {
    pages.map(|i: int, p: Page| p@)
}

/// A parsed notebook: signature tag, pages in ascending footer order, and
/// the device geometry.
#[derive(Debug, PartialEq)]
pub struct Notebook {
    pub signature: String,
    pub pages: Vec<Page>,
    pub width: usize,
    pub height: usize,
}

/// The ghost image of a [`Notebook`].
pub struct NotebookView {
    pub signature: Seq<char>,
    pub pages: Seq<PageView>,
    pub width: usize,
    pub height: usize,
}

impl View for Notebook {
    type V = NotebookView;

    open spec fn view(&self) -> NotebookView {
        NotebookView {
            signature: self.signature@,
            pages: page_views(self.pages@),
            width: self.width,
            height: self.height,
        }
    }
}

/// The geometry a footer selects: the high-resolution pair exactly when the
/// feature block it points at names the `N5` equipment, the standard pair on
/// any absent or unparseable field, and a failure only if the feature block
/// itself is malformed.
pub open spec fn geometry_spec(data: Seq<u8>, footer: Seq<(Seq<char>, Seq<char>)>) -> Result<
    (usize, usize),
    NoteError,
> {
    match lookup_pairs(footer, "FILE_FEATURE"@) {
        None => Ok((STD_WIDTH, STD_HEIGHT)),
        Some(v) => match parse_u64_spec(v) {
            None => Ok((STD_WIDTH, STD_HEIGHT)),
            Some(addr) => match block_pairs_spec(data, addr as nat) {
                Err(e) => Err(e),
                Ok(hdr) => match lookup_pairs(hdr, "APPLY_EQUIPMENT"@) {
                    None => Ok((STD_WIDTH, STD_HEIGHT)),
                    Some(eq) => if eq == "N5"@ {
                        Ok((HIRES_WIDTH, HIRES_HEIGHT))
                    } else {
                        Ok((STD_WIDTH, STD_HEIGHT))
                    },
                },
            },
        },
    }
}

/// Detect the device geometry from the footer's feature pointer.
pub fn detect_device_dimensions(data: &[u8], footer: &MetadataMap) -> (r: Result<
    (usize, usize),
    NoteError,
>)
    ensures
        r == geometry_spec(data@, footer@),
{
    let feature = match footer.get("FILE_FEATURE") {
        None => {
            return Ok((STD_WIDTH, STD_HEIGHT));
        },
        Some(v) => v,
    };
    let addr: u64 = match parse_u64(feature.as_str()) {
        None => {
            return Ok((STD_WIDTH, STD_HEIGHT));
        },
        Some(a) => a,
    };
    let header = match parse_metadata_block(data, addr) {
        Err(e) => {
            return Err(e);
        },
        Ok(m) => m,
    };
    match header.get("APPLY_EQUIPMENT") {
        None => Ok((STD_WIDTH, STD_HEIGHT)),
        Some(eq) => {
            if eq == String::from_str("N5") {
                Ok((HIRES_WIDTH, HIRES_HEIGHT))
            } else {
                Ok((STD_WIDTH, STD_HEIGHT))
            }
        },
    }
}

/// The page index encoded in a footer key of the form `PAGE<n>`, if any.
pub open spec fn page_number(key: Seq<char>) -> Option<u64> {
    if key.len() > 4 && key.subrange(0, 4) == "PAGE"@ {
        parse_u64_spec(key.skip(4))
    } else {
        None
    }
}

/// Recognise a `PAGE<n>` key and return `n`.
pub fn parse_page_key(key: &String) -> (r: Option<u64>)
    ensures
        r == page_number(key@),
{
    let n: usize = key.as_str().unicode_len();
    proof {
        reveal_strlit("PAGE");
    }
    if n <= 4 {
        return None;
    }
    let s = key.as_str();
    proof {
        assert(key@.subrange(0, 4)[0] == key@[0]);
        assert(key@.subrange(0, 4)[1] == key@[1]);
        assert(key@.subrange(0, 4)[2] == key@[2]);
        assert(key@.subrange(0, 4)[3] == key@[3]);
    }
    if s.get_char(0) != 'P' || s.get_char(1) != 'A' || s.get_char(2) != 'G' || s.get_char(3)
        != 'E' {
        proof {
            assert(key@.subrange(0, 4) != "PAGE"@);
        }
        return None;
    }
    proof {
        assert(key@.subrange(0, 4) =~= "PAGE"@);
        assert(key@.skip(4) == key@.subrange(4, key@.len() as int));
    }
    parse_u64(s.substring_char(4, n))
}

/// Whether some entry binds `key`.
pub open spec fn has_key(ps: Seq<(Seq<char>, Seq<char>)>, key: Seq<char>) -> bool {
    exists|j: int| 0 <= j < ps.len() && (#[trigger] ps[j]).0 == key
}

/// The unsorted `(page index, address)` rows of a footer: one row per
/// surviving `PAGE<n>` binding (later duplicates shadow earlier ones), in
/// order of occurrence, or `InvalidAddress` if any such binding's value does
/// not parse.
pub open spec fn page_rows(ps: Seq<(Seq<char>, Seq<char>)>) -> Result<Seq<(u64, u64)>, NoteError>
    decreases ps.len(),
{
    if ps.len() == 0 {
        Ok(Seq::empty())
    } else {
        let rest = page_rows(ps.skip(1));
        if has_key(ps.skip(1), ps[0].0) {
            rest
        } else {
            match page_number(ps[0].0) {
                None => rest,
                Some(n) => match parse_u64_spec(ps[0].1) {
                    None => Err(NoteError::InvalidAddress),
                    Some(a) => match rest {
                        Err(e) => Err(e),
                        Ok(r) => Ok(seq![(n, a)] + r),
                    },
                },
            }
        }
    }
}

/// Insert a row after every row whose page index is not greater: a stable
/// insertion.
pub open spec fn insert_by_index(s: Seq<(u64, u64)>, e: (u64, u64)) -> Seq<(u64, u64)>
    decreases s.len(),
{
    if s.len() == 0 {
        seq![e]
    } else if s.last().0 <= e.0 {
        s.push(e)
    } else {
        insert_by_index(s.drop_last(), e).push(s.last())
    }
}

/// Stable insertion sort of the rows by page index.
pub open spec fn sort_by_index(s: Seq<(u64, u64)>) -> Seq<(u64, u64)>
    decreases s.len(),
{
    if s.len() == 0 {
        Seq::empty()
    } else {
        insert_by_index(sort_by_index(s.drop_last()), s.last())
    }
}

/// Rows in ascending page-index order.
pub open spec fn rows_sorted(s: Seq<(u64, u64)>) -> bool {
    forall|i: int, j: int| 0 <= i < j < s.len() ==> (#[trigger] s[i]).0 <= (#[trigger] s[j]).0
}

/// The footer's page table: the surviving `PAGE<n>` rows sorted ascending by
/// index, ties keeping their order of occurrence.
pub open spec fn page_table_spec(footer: Seq<(Seq<char>, Seq<char>)>) -> Result<
    Seq<(u64, u64)>,
    NoteError,
> {
    match page_rows(footer) {
        Err(e) => Err(e),
        Ok(rows) => Ok(sort_by_index(rows)),
    }
}

/// Where a stable insertion lands: just before the first row with a greater
/// index.
proof fn lemma_insert_by_index_at(s: Seq<(u64, u64)>, e: (u64, u64), j: int)
    requires
        0 <= j <= s.len(),
        forall|k: int| 0 <= k < j ==> (#[trigger] s[k]).0 <= e.0,
        forall|k: int| j <= k < s.len() ==> (#[trigger] s[k]).0 > e.0,
    ensures
        insert_by_index(s, e) == s.subrange(0, j) + seq![e] + s.subrange(j, s.len() as int),
    decreases s.len(),
{
    if s.len() == 0 {
        assert(insert_by_index(s, e) =~= s.subrange(0, j) + seq![e] + s.subrange(
            j,
            s.len() as int,
        ));
    } else if s.last().0 <= e.0 {
        assert(j == s.len());
        assert(s.push(e) =~= s.subrange(0, j) + seq![e] + s.subrange(j, s.len() as int));
    } else {
        assert(j < s.len());
        lemma_insert_by_index_at(s.drop_last(), e, j);
        assert(insert_by_index(s.drop_last(), e).push(s.last()) =~= s.subrange(0, j) + seq![e]
            + s.subrange(j, s.len() as int));
    }
}

/// A stable insertion into a sorted row list keeps it sorted.
pub proof fn lemma_insert_by_index_sorted(s: Seq<(u64, u64)>, e: (u64, u64))
    requires
        rows_sorted(s),
    ensures
        rows_sorted(insert_by_index(s, e)),
    decreases s.len(),
{
    if s.len() == 0 {
    } else if s.last().0 <= e.0 {
        assert forall|i: int, j: int| 0 <= i < j < s.push(e).len() implies (#[trigger] s.push(
            e,
        )[i]).0 <= (#[trigger] s.push(e)[j]).0 by {
            if j < s.len() {
            } else {
                if i < s.len() - 1 {
                    assert(s[i].0 <= s[s.len() - 1].0);
                }
            }
        }
    } else {
        assert(rows_sorted(s.drop_last())) by {
            assert(forall|i: int, j: int|
                0 <= i < j < s.drop_last().len() ==> (#[trigger] s.drop_last()[i]).0 == s[i].0
                    && (#[trigger] s.drop_last()[j]).0 == s[j].0);
        }
        lemma_insert_by_index_sorted(s.drop_last(), e);
        let t = insert_by_index(s.drop_last(), e);
        assert forall|i: int, j: int| 0 <= i < j < t.push(s.last()).len() implies (
        #[trigger] t.push(s.last())[i]).0 <= (#[trigger] t.push(s.last())[j]).0 by {
            if j < t.len() {
            } else {
                // every member of t is either e (below s.last()) or a row of
                // s.drop_last(), all of which are at most s.last().0
                lemma_insert_member(s.drop_last(), e, i);
                assert(t[i] == e || s.drop_last().to_multiset().contains(t[i]));
                if t[i] != e {
                    lemma_multiset_member_bound(s, t[i]);
                }
            }
        }
    }
}

/// Every row of a stable insertion is the new row or one of the old ones.
proof fn lemma_insert_member(s: Seq<(u64, u64)>, e: (u64, u64), i: int)
    requires
        0 <= i < insert_by_index(s, e).len(),
    ensures
        insert_by_index(s, e)[i] == e || s.to_multiset().contains(insert_by_index(s, e)[i]),
    decreases s.len(),
{
    broadcast use vstd::seq_lib::group_seq_properties;

    if s.len() == 0 {
    } else if s.last().0 <= e.0 {
        if i < s.len() {
            assert(s.to_multiset().contains(s[i])) by {
                lemma_seq_contains_to_multiset(s, i);
            }
        }
    } else {
        let t = insert_by_index(s.drop_last(), e);
        if i < t.len() {
            lemma_insert_member(s.drop_last(), e, i);
            if t[i] != e {
                lemma_drop_last_multiset_le(s, t[i]);
            }
        } else {
            assert(t.push(s.last())[i] == s.last());
            lemma_seq_contains_to_multiset(s, s.len() - 1);
        }
    }
}

/// A sequence's multiset contains each of its elements.
proof fn lemma_seq_contains_to_multiset(s: Seq<(u64, u64)>, i: int)
    requires
        0 <= i < s.len(),
    ensures
        s.to_multiset().contains(s[i]),
{
    broadcast use vstd::seq_lib::group_to_multiset_ensures;

    assert(s.contains(s[i]));
}

/// Elements of `drop_last` stay in the full multiset.
proof fn lemma_drop_last_multiset_le(s: Seq<(u64, u64)>, x: (u64, u64))
    requires
        s.len() > 0,
        s.drop_last().to_multiset().contains(x),
    ensures
        s.to_multiset().contains(x),
{
    broadcast use vstd::seq_lib::group_to_multiset_ensures;

    assert(s =~= s.drop_last().push(s.last()));
    assert(s.drop_last().push(s.last()).to_multiset() =~= s.drop_last().to_multiset().insert(
        s.last(),
    ));
}

/// In a sorted list a member's index never exceeds the last element's.
proof fn lemma_multiset_member_bound(s: Seq<(u64, u64)>, x: (u64, u64))
    requires
        rows_sorted(s),
        s.len() > 0,
        s.drop_last().to_multiset().contains(x),
    ensures
        x.0 <= s.last().0,
{
    broadcast use vstd::seq_lib::group_to_multiset_ensures;

    let d = s.drop_last();
    assert(d.contains(x));
    let k = choose|k: int| 0 <= k < d.len() && d[k] == x;
    assert(s[k] == x);
}

/// A stable insertion adds exactly the new row to the multiset of rows.
pub proof fn lemma_insert_by_index_multiset(s: Seq<(u64, u64)>, e: (u64, u64))
    ensures
        insert_by_index(s, e).to_multiset() == s.to_multiset().insert(e),
    decreases s.len(),
{
    broadcast use vstd::seq_lib::group_to_multiset_ensures;

    if s.len() == 0 {
        assert(seq![e] =~= Seq::<(u64, u64)>::empty().push(e));
        assert(Seq::<(u64, u64)>::empty().to_multiset() =~= Multiset::<(u64, u64)>::empty());
        assert(insert_by_index(s, e).to_multiset() =~= s.to_multiset().insert(e));
    } else if s.last().0 <= e.0 {
        assert(s.push(e).to_multiset() =~= s.to_multiset().insert(e));
    } else {
        lemma_insert_by_index_multiset(s.drop_last(), e);
        let t = insert_by_index(s.drop_last(), e);
        assert(t.push(s.last()).to_multiset() =~= t.to_multiset().insert(s.last()));
        assert(s =~= s.drop_last().push(s.last()));
        assert(s.to_multiset() =~= s.drop_last().to_multiset().insert(s.last()));
        assert(t.to_multiset().insert(s.last()) =~= s.to_multiset().insert(e));
    }
}

/// Sorting the rows yields an ascending list with the same rows.
pub proof fn lemma_sort_by_index_ensures(s: Seq<(u64, u64)>)
    ensures
        rows_sorted(sort_by_index(s)),
        sort_by_index(s).to_multiset() == s.to_multiset(),
    decreases s.len(),
{
    broadcast use vstd::seq_lib::group_to_multiset_ensures;

    if s.len() == 0 {
    } else {
        lemma_sort_by_index_ensures(s.drop_last());
        lemma_insert_by_index_sorted(sort_by_index(s.drop_last()), s.last());
        lemma_insert_by_index_multiset(sort_by_index(s.drop_last()), s.last());
        assert(s =~= s.drop_last().push(s.last()));
        assert(s.to_multiset() =~= s.drop_last().to_multiset().insert(s.last()));
    }
}

/// A footer's page table is ascending in page index and holds exactly the
/// surviving `PAGE<n>` rows.
pub proof fn lemma_page_table_sorted(footer: Seq<(Seq<char>, Seq<char>)>)
    requires
        page_table_spec(footer) is Ok,
    ensures
        rows_sorted(page_table_spec(footer)->Ok_0),
        page_table_spec(footer)->Ok_0.to_multiset() == page_rows(footer)->Ok_0.to_multiset(),
{
    lemma_sort_by_index_ensures(page_rows(footer)->Ok_0);
}

/// Sort the rows ascending by page index with a stable insertion sort.
fn sort_rows(rows: Vec<(u64, u64)>) -> (r: Vec<(u64, u64)>)
    ensures
        r@ == sort_by_index(rows@),
{
    let mut out: Vec<(u64, u64)> = Vec::new();
    let mut i: usize = 0;
    proof {
        assert(rows@.take(0) =~= Seq::<(u64, u64)>::empty());
    }
    while i < rows.len()
        invariant
            i <= rows@.len(),
            out@ == sort_by_index(rows@.take(i as int)),
            rows_sorted(out@),
        decreases rows@.len() - i,
    {
        let e: (u64, u64) = rows[i];
        let mut j: usize = out.len();
        while j > 0 && out[j - 1].0 > e.0
            invariant
                j <= out@.len(),
                forall|k: int| j <= k < out@.len() ==> (#[trigger] out@[k]).0 > e.0,
            decreases j,
        {
            j = j - 1;
        }
        let ghost before: Seq<(u64, u64)> = out@;
        proof {
            assert(forall|k: int| 0 <= k < j ==> (#[trigger] before[k]).0 <= e.0) by {
                if j > 0 {
                    assert(before[j - 1].0 <= e.0);
                    assert(forall|k: int|
                        0 <= k < j ==> (#[trigger] before[k]).0 <= before[j - 1].0);
                }
            }
        }
        out.insert(j, e);
        proof {
            lemma_insert_by_index_at(before, e, j as int);
            assert(out@ =~= before.subrange(0, j as int) + seq![e] + before.subrange(
                j as int,
                before.len() as int,
            ));
            assert(out@ == insert_by_index(before, e));
            assert(rows@.take(i as int + 1).drop_last() =~= rows@.take(i as int));
            assert(rows@.take(i as int + 1).last() == rows@[i as int]);
            lemma_insert_by_index_sorted(before, e);
        }
        i = i + 1;
    }
    proof {
        assert(rows@.take(rows@.len() as int) =~= rows@);
    }
    out
}

/// Collect the footer's `PAGE<n>` rows and sort them by page index.
pub fn page_table(footer: &MetadataMap) -> (r: Result<Vec<(u64, u64)>, NoteError>)
    ensures
        match r {
            Ok(t) => page_table_spec(footer@) == Ok::<_, NoteError>(t@),
            Err(e) => page_table_spec(footer@) == Err::<Seq<(u64, u64)>, _>(e),
        },
{
    let n: usize = footer.entries.len();
    let mut rows: Vec<(u64, u64)> = Vec::new();
    let mut i: usize = 0;
    proof {
        assert(footer@.skip(0) =~= footer@);
        assert(Seq::<(u64, u64)>::empty() + page_rows(footer@)->Ok_0 =~= page_rows(
            footer@,
        )->Ok_0);
    }
    while i < n
        invariant
            i <= n,
            n == footer@.len(),
            match page_rows(footer@.skip(i as int)) {
                Ok(rest) => page_rows(footer@) == Ok::<_, NoteError>(rows@ + rest),
                Err(e) => page_rows(footer@) == Err::<Seq<(u64, u64)>, _>(e),
            },
        decreases n - i,
    {
        proof {
            assert(footer@.skip(i as int).skip(1) =~= footer@.skip(i as int + 1));
            assert(footer@.skip(i as int)[0] == footer@[i as int]);
            let ghost entry = footer.entries@[i as int];
            assert(footer@[i as int] == (entry.0@, entry.1@));
        }
        // Does a later entry shadow this one?
        let mut shadowed = false;
        let mut j: usize = i + 1;
        while j < n && !shadowed
            invariant
                i < j <= n,
                n == footer@.len(),
                shadowed ==> exists|k: int|
                    i < k < n && (#[trigger] footer@[k]).0 == footer@[i as int].0,
                !shadowed ==> forall|k: int|
                    i < k < j ==> (#[trigger] footer@[k]).0 != footer@[i as int].0,
            decreases n - j, (if shadowed {
                0int
            } else {
                1int
            }),
        {
            if footer.entries[j].0 == footer.entries[i].0 {
                shadowed = true;
                proof {
                    assert(footer@[j as int].0 == footer@[i as int].0);
                }
            } else {
                j = j + 1;
            }
        }
        proof {
            if shadowed {
                let k = choose|k: int|
                    i < k < n && (#[trigger] footer@[k]).0 == footer@[i as int].0;
                assert(footer@.skip(i as int + 1)[k - i - 1].0 == footer@[i as int].0);
                assert(has_key(footer@.skip(i as int + 1), footer@[i as int].0));
            } else {
                assert forall|k: int|
                    0 <= k < footer@.skip(i as int + 1).len() implies (#[trigger] footer@.skip(
                    i as int + 1,
                )[k]).0 != footer@[i as int].0 by {
                    assert(footer@.skip(i as int + 1)[k] == footer@[k + i + 1]);
                }
                assert(!has_key(footer@.skip(i as int + 1), footer@[i as int].0));
            }
        }
        if !shadowed {
            match parse_page_key(&footer.entries[i].0) {
                None => (),
                Some(num) => {
                    match parse_u64(footer.entries[i].1.as_str()) {
                        None => {
                            return Err(NoteError::InvalidAddress);
                        },
                        Some(addr) => {
                            let ghost rows_old: Seq<(u64, u64)> = rows@;
                            rows.push((num, addr));
                            proof {
                                assert(rows@ =~= rows_old + seq![(num, addr)]);
                                if page_rows(footer@.skip(i as int + 1)) is Ok {
                                    assert(rows@ + page_rows(footer@.skip(i as int + 1))->Ok_0
                                        =~= rows_old + (seq![(num, addr)] + page_rows(
                                        footer@.skip(i as int + 1),
                                    )->Ok_0));
                                }
                            }
                        },
                    }
                },
            }
        }
        proof {
            let head = footer@.skip(i as int);
            let tail = footer@.skip(i as int + 1);
            assert(head.len() > 0);
            assert(head.skip(1) == tail);
            assert(head[0] == footer@[i as int]);
            if has_key(tail, footer@[i as int].0) {
                assert(page_rows(head) == page_rows(tail));
            } else {
                match page_number(footer@[i as int].0) {
                    None => {
                        assert(page_rows(head) == page_rows(tail));
                    },
                    Some(nn) => {
                        match parse_u64_spec(footer@[i as int].1) {
                            None => {
                                assert(page_rows(head) is Err);
                            },
                            Some(aa) => {
                                match page_rows(tail) {
                                    Err(e) => {
                                        assert(page_rows(head) == Err::<Seq<(u64, u64)>,
                                            NoteError,
                                        >(e));
                                    },
                                    Ok(r) => {
                                        assert(page_rows(head) == Ok::<_, NoteError>(
                                            seq![(nn, aa)] + r,
                                        ));
                                    },
                                }
                            },
                        }
                    },
                }
            }
        }
        i = i + 1;
    }
    proof {
        assert(footer@.skip(n as int).len() == 0);
        assert(rows@ + Seq::<(u64, u64)>::empty() =~= rows@);
    }
    Ok(sort_rows(rows))
}

/// The fixed default drawing order when a page has no explicit `LAYERSEQ`.
pub open spec fn default_layer_keys() -> Seq<Seq<char>> {
    seq!["BGLAYER"@, "MAINLAYER"@, "LAYER1"@, "LAYER2"@, "LAYER3"@]
}

/// The fields of a comma-separated list, empty fields kept.
pub open spec fn split_commas(s: Seq<char>) -> Seq<Seq<char>>
    decreases s.len(),
        via split_commas_decreases
{
    let co = find_from(s, ',', 0);
    if co >= s.len() {
        seq![s]
    } else {
        seq![s.take(co)] + split_commas(s.skip(co + 1))
    }
}

#[via_fn]
proof fn split_commas_decreases(s: Seq<char>) {
    lemma_find_from(s, ',', 0);
}

/// Split a layer-order value on commas.
pub fn split_commas_exec(s: &str) -> (r: Vec<String>)
    ensures
        r.deep_view() == split_commas(s@),
    decreases s@.len(),
{
    let chars: Vec<char> = crate::text::str_chars(s);
    let n: usize = chars.len();
    let co = crate::metadata::find_char(&chars, ',', 0);
    proof {
        lemma_find_from(s@, ',', 0);
    }
    if co >= n {
        let mut out: Vec<String> = Vec::new();
        out.push(String::from_str(s));
        proof {
            assert(out.deep_view() =~= seq![s@]);
        }
        out
    } else {
        let head: String = String::from_str(s.substring_char(0, co));
        let tail: &str = s.substring_char(co + 1, n);
        let mut out: Vec<String> = Vec::new();
        out.push(head);
        let mut rest = split_commas_exec(tail);
        out.append(&mut rest);
        proof {
            assert(s@.take(co as int) == s@.subrange(0, co as int));
            assert(s@.skip(co as int + 1) == s@.subrange(co as int + 1, n as int));
            assert(out.deep_view() =~= seq![s@.take(co as int)] + split_commas(
                s@.skip(co as int + 1),
            ));
        }
        out
    }
}

fn default_layer_keys_exec() -> (r: Vec<String>)
    ensures
        r.deep_view() == default_layer_keys(),
{
    let mut out: Vec<String> = Vec::new();
    out.push(String::from_str("BGLAYER"));
    out.push(String::from_str("MAINLAYER"));
    out.push(String::from_str("LAYER1"));
    out.push(String::from_str("LAYER2"));
    out.push(String::from_str("LAYER3"));
    proof {
        assert(out.deep_view() =~= default_layer_keys());
    }
    out
}

/// The layer a page map defines under `key`, if that key is present: the
/// value must parse as the address of the layer's own metadata block, whose
/// `LAYERPROTOCOL` and `LAYERBITMAP` fields fill the layer in.  A missing
/// protocol is the empty string; a missing or unparseable bitmap field is
/// the null address.
pub open spec fn layer_spec(
    data: Seq<u8>,
    page_pairs: Seq<(Seq<char>, Seq<char>)>,
    key: Seq<char>,
) -> Result<Option<LayerView>, NoteError> {
    match lookup_pairs(page_pairs, key) {
        None => Ok(None),
        Some(addr_str) => match parse_u64_spec(addr_str) {
            None => Err(NoteError::InvalidAddress),
            Some(layer_addr) => match block_pairs_spec(data, layer_addr as nat) {
                Err(e) => Err(e),
                Ok(lp) => Ok(
                    Some(
                        LayerView {
                            key: key,
                            protocol: match lookup_pairs(lp, "LAYERPROTOCOL"@) {
                                Some(p) => p,
                                None => Seq::empty(),
                            },
                            bitmap_address: match lookup_pairs(lp, "LAYERBITMAP"@) {
                                Some(b) => match parse_u64_spec(b) {
                                    Some(v) => v,
                                    None => 0,
                                },
                                None => 0,
                            },
                        },
                    ),
                ),
            },
        },
    }
}

/// The layers of a page, walking `keys` in order and keeping those present.
pub open spec fn layers_spec(
    data: Seq<u8>,
    page_pairs: Seq<(Seq<char>, Seq<char>)>,
    keys: Seq<Seq<char>>,
) -> Result<Seq<LayerView>, NoteError>
    decreases keys.len(),
{
    if keys.len() == 0 {
        Ok(Seq::empty())
    } else {
        match layer_spec(data, page_pairs, keys[0]) {
            Err(e) => Err(e),
            Ok(opt) => match layers_spec(data, page_pairs, keys.skip(1)) {
                Err(e) => Err(e),
                Ok(rest) => Ok(
                    match opt {
                        Some(l) => seq![l] + rest,
                        None => rest,
                    },
                ),
            },
        }
    }
}

/// A page's drawing order: its explicit `LAYERSEQ` split on commas, else the
/// fixed default.
pub open spec fn layer_keys_spec(page_pairs: Seq<(Seq<char>, Seq<char>)>) -> Seq<Seq<char>> {
    match lookup_pairs(page_pairs, "LAYERSEQ"@) {
        Some(v) => split_commas(v),
        None => default_layer_keys(),
    }
}

/// The page whose metadata block sits at `addr`.
pub open spec fn page_spec(data: Seq<u8>, addr: u64) -> Result<PageView, NoteError> {
    match block_pairs_spec(data, addr as nat) {
        Err(e) => Err(e),
        Ok(pp) => match layers_spec(data, pp, layer_keys_spec(pp)) {
            Err(e) => Err(e),
            Ok(ls) => Ok(PageView { addr: addr, layers: ls }),
        },
    }
}

/// The pages at the given addresses, in order.
pub open spec fn pages_spec(data: Seq<u8>, addrs: Seq<u64>) -> Result<Seq<PageView>, NoteError>
    decreases addrs.len(),
{
    if addrs.len() == 0 {
        Ok(Seq::empty())
    } else {
        match page_spec(data, addrs[0]) {
            Err(e) => Err(e),
            Ok(p) => match pages_spec(data, addrs.skip(1)) {
                Err(e) => Err(e),
                Ok(rest) => Ok(seq![p] + rest),
            },
        }
    }
}

/// The whole notebook a file parses to: signature tag, footer-indexed pages
/// in ascending numeric order, and the geometry the footer selects.
pub open spec fn notebook_spec(data: Seq<u8>) -> Result<NotebookView, NoteError> {
    if data.len() < 24 {
        Err(NoteError::TruncatedFile)
    } else {
        let sig = data.subrange(4, 24);
        if !valid_utf8(sig) {
            Err(NoteError::MalformedBlock)
        } else {
            let faddr = le32_at(data, data.len() - 4);
            match block_pairs_spec(data, faddr) {
                Err(e) => Err(e),
                Ok(footer) => match geometry_spec(data, footer) {
                    Err(e) => Err(e),
                    Ok(geom) => match page_table_spec(footer) {
                        Err(e) => Err(e),
                        Ok(table) => match pages_spec(
                            data,
                            table.map(|i: int, row: (u64, u64)| row.1),
                        ) {
                            Err(e) => Err(e),
                            Ok(pages) => Ok(
                                NotebookView {
                                    signature: decode_utf8(sig),
                                    pages: pages,
                                    width: geom.0,
                                    height: geom.1,
                                },
                            ),
                        },
                    },
                },
            }
        }
    }
}

/// Check and decode the 20-byte signature tag at offset 4.
pub fn get_signature(data: &[u8]) -> (r: Result<String, NoteError>)
    ensures
        match r {
            Ok(s) => data@.len() >= 24 && valid_utf8(data@.subrange(4, 24)) && s@ == decode_utf8(
                data@.subrange(4, 24),
            ),
            Err(e) => (data@.len() < 24 && e == NoteError::TruncatedFile) || (data@.len() >= 24
                && !valid_utf8(data@.subrange(4, 24)) && e == NoteError::MalformedBlock),
        },
{
    if data.len() < 24 {
        return Err(NoteError::TruncatedFile);
    }
    let sig_bytes: Vec<u8> = slice_to_vec(slice_subrange(data, 4, 24));
    match utf8_to_string(sig_bytes) {
        Some(s) => Ok(s),
        None => Err(NoteError::MalformedBlock),
    }
}

/// Read the layer under `key` of a page map, if that key is present.
fn parse_layer(data: &[u8], page_map: &MetadataMap, key: &String) -> (r: Result<
    Option<Layer>,
    NoteError,
>)
    ensures
        match r {
            Ok(Some(l)) => layer_spec(data@, page_map@, key@) == Ok::<_, NoteError>(Some(l@)),
            Ok(None) => layer_spec(data@, page_map@, key@) == Ok::<Option<LayerView>, NoteError>(
                None,
            ),
            Err(e) => layer_spec(data@, page_map@, key@) == Err::<Option<LayerView>, _>(e),
        },
{
    let addr_str = match page_map.get(key.as_str()) {
        None => {
            return Ok(None);
        },
        Some(v) => v,
    };
    let layer_addr: u64 = match parse_u64(addr_str.as_str()) {
        None => {
            return Err(NoteError::InvalidAddress);
        },
        Some(a) => a,
    };
    let layer_map = match parse_metadata_block(data, layer_addr) {
        Err(e) => {
            return Err(e);
        },
        Ok(m) => m,
    };
    let protocol: String = match layer_map.get("LAYERPROTOCOL") {
        Some(p) => p,
        None => String::new(),
    };
    let bitmap_address: u64 = match layer_map.get("LAYERBITMAP") {
        Some(b) => match parse_u64(b.as_str()) {
            Some(v) => v,
            None => 0,
        },
        None => 0,
    };
    Ok(Some(Layer { key: key.clone(), protocol, bitmap_address }))
}

/// Parse the page whose metadata block sits at `addr`, resolving its layers
/// in drawing order.
#[verifier::loop_isolation(false)]
pub fn parse_page(data: &[u8], addr: u64) -> (r: Result<Page, NoteError>)
    ensures
        match r {
            Ok(p) => page_spec(data@, addr) == Ok::<PageView, NoteError>(p@),
            Err(e) => page_spec(data@, addr) == Err::<PageView, _>(e),
        },
{
    let page_map = match parse_metadata_block(data, addr) {
        Err(e) => {
            return Err(e);
        },
        Ok(m) => m,
    };
    let keys: Vec<String> = match page_map.get("LAYERSEQ") {
        Some(v) => split_commas_exec(v.as_str()),
        None => default_layer_keys_exec(),
    };
    let ghost key_views: Seq<Seq<char>> = keys.deep_view();
    proof {
        assert(key_views == layer_keys_spec(page_map@));
    }
    let mut layers: Vec<Layer> = Vec::new();
    let mut i: usize = 0;
    proof {
        assert(key_views.skip(0) =~= key_views);
        assert(layer_views(layers@) + layers_spec(data@, page_map@, key_views)->Ok_0
            =~= layers_spec(data@, page_map@, key_views)->Ok_0);
    }
    while i < keys.len()
        invariant
            i <= keys@.len(),
            key_views == keys.deep_view(),
            match layers_spec(data@, page_map@, key_views.skip(i as int)) {
                Ok(rest) => layers_spec(data@, page_map@, key_views) == Ok::<_, NoteError>(
                    layer_views(layers@) + rest,
                ),
                Err(e) => layers_spec(data@, page_map@, key_views) == Err::<Seq<LayerView>, _>(e),
            },
        decreases keys@.len() - i,
    {
        proof {
            assert(key_views.skip(i as int)[0] == key_views[i as int]);
            assert(key_views.skip(i as int).skip(1) =~= key_views.skip(i as int + 1));
            assert(key_views[i as int] == keys@[i as int]@);
        }
        let ghost layer_views_old: Seq<LayerView> = layer_views(layers@);
        match parse_layer(data, &page_map, &keys[i]) {
            Err(e) => {
                return Err(e);
            },
            Ok(None) => (),
            Ok(Some(l)) => {
                layers.push(l);
                proof {
                    assert(layer_views(layers@) =~= layer_views_old.push(
                        layers@.last()@,
                    ));
                    if layers_spec(data@, page_map@, key_views.skip(i as int + 1)) is Ok {
                        assert(layer_views(layers@) + layers_spec(
                            data@,
                            page_map@,
                            key_views.skip(i as int + 1),
                        )->Ok_0 =~= layer_views_old + (seq![layers@.last()@] + layers_spec(
                            data@,
                            page_map@,
                            key_views.skip(i as int + 1),
                        )->Ok_0));
                    }
                }
            },
        }
        i = i + 1;
    }
    proof {
        assert(key_views.skip(keys@.len() as int).len() == 0);
        assert(layers_spec(data@, page_map@, key_views.skip(keys@.len() as int)) == Ok::<
            Seq<LayerView>,
            NoteError,
        >(Seq::empty()));
        assert(layer_views(layers@) + Seq::<LayerView>::empty() =~= layer_views(layers@));
        assert(block_pairs_spec(data@, addr as nat) == Ok::<Seq<(Seq<char>, Seq<char>)>,
            NoteError,
        >(page_map@));
        assert(layer_keys_spec(page_map@) == key_views);
        assert(layers_spec(data@, page_map@, key_views) == Ok::<Seq<LayerView>, NoteError>(
            layer_views(layers@),
        ));
        assert(page_spec(data@, addr) == Ok::<PageView, NoteError>(
            PageView { addr: addr, layers: layer_views(layers@) },
        ));
    }
    Ok(Page { addr, layers })
}

/// Parse a whole notebook container from its file bytes.
#[verifier::loop_isolation(false)]
pub fn parse_notebook(data: &[u8]) -> (r: Result<Notebook, NoteError>)
    ensures
        match r {
            Ok(nb) => notebook_spec(data@) == Ok::<NotebookView, NoteError>(nb@),
            Err(e) => notebook_spec(data@) == Err::<NotebookView, _>(e),
        },
{
    let signature: String = match get_signature(data) {
        Err(e) => {
            return Err(e);
        },
        Ok(s) => s,
    };
    let len: usize = data.len();
    let faddr: u64 = u32_from_le_bytes(slice_subrange(data, len - 4, len)) as u64;
    proof {
        assert(data@.subrange(len - 4, len as int) == data@.subrange(
            data@.len() - 4,
            data@.len() - 4 + 4,
        ));
        assert(le32_at(data@, data@.len() - 4) == faddr as nat);
    }
    let footer = match parse_metadata_block(data, faddr) {
        Err(e) => {
            return Err(e);
        },
        Ok(m) => m,
    };
    let dims: (usize, usize) = match detect_device_dimensions(data, &footer) {
        Err(e) => {
            return Err(e);
        },
        Ok(d) => d,
    };
    let table: Vec<(u64, u64)> = match page_table(&footer) {
        Err(e) => {
            return Err(e);
        },
        Ok(t) => t,
    };
    let ghost addrs: Seq<u64> = table@.map(|k: int, row: (u64, u64)| row.1);
    let mut pages: Vec<Page> = Vec::new();
    let mut i: usize = 0;
    proof {
        assert(addrs.skip(0) =~= addrs);
        assert(page_views(pages@) + pages_spec(data@, addrs)->Ok_0 =~= pages_spec(
            data@,
            addrs,
        )->Ok_0);
    }
    while i < table.len()
        invariant
            i <= table@.len(),
            addrs == table@.map(|k: int, row: (u64, u64)| row.1),
            match pages_spec(data@, addrs.skip(i as int)) {
                Ok(rest) => pages_spec(data@, addrs) == Ok::<_, NoteError>(
                    page_views(pages@) + rest,
                ),
                Err(e) => pages_spec(data@, addrs) == Err::<Seq<PageView>, _>(e),
            },
        decreases table@.len() - i,
    {
        proof {
            assert(addrs.skip(i as int)[0] == addrs[i as int]);
            assert(addrs.skip(i as int).skip(1) =~= addrs.skip(i as int + 1));
            assert(addrs[i as int] == table@[i as int].1);
        }
        let ghost page_views_old: Seq<PageView> = page_views(pages@);
        match parse_page(data, table[i].1) {
            Err(e) => {
                return Err(e);
            },
            Ok(p) => {
                pages.push(p);
                proof {
                    assert(page_views(pages@) =~= page_views_old.push(
                        pages@.last()@,
                    ));
                    if pages_spec(data@, addrs.skip(i as int + 1)) is Ok {
                        assert(page_views(pages@) + pages_spec(
                            data@,
                            addrs.skip(i as int + 1),
                        )->Ok_0 =~= page_views_old + (seq![pages@.last()@] + pages_spec(
                            data@,
                            addrs.skip(i as int + 1),
                        )->Ok_0));
                    }
                }
            },
        }
        i = i + 1;
    }
    proof {
        assert(addrs.skip(table@.len() as int).len() == 0);
        assert(pages_spec(data@, addrs.skip(table@.len() as int)) == Ok::<
            Seq<PageView>,
            NoteError,
        >(Seq::empty()));
        assert(page_views(pages@) + Seq::<PageView>::empty() =~= pages@.map(
            |k: int, p: Page| p@,
        ));
    }
    Ok(Notebook { signature, pages, width: dims.0, height: dims.1 })
}

} // verus!
