//! Metadata blocks: length-prefixed tagged text, parsed into an ordered
//! key-to-value mapping.
//!
//! A block is a 4-byte little-endian length followed by that many bytes of
//! UTF-8 text holding `<key:value>` tags.  The scanner is a hand-written
//! pass over the characters: a tag starts at a `<`, its key runs to the
//! first `:` and must be nonempty, its value runs to the first `>` after
//! that.  On a duplicate key the last occurrence wins.

use vstd::prelude::*;
use vstd::bytes::{spec_u32_from_le_bytes, u32_from_le_bytes};
use vstd::slice::{slice_subrange, slice_to_vec};
use vstd::string::StrSliceExecFns;
use vstd::string::StringExecFns;
use vstd::utf8::{decode_utf8, valid_utf8};
use crate::NoteError;
use crate::text::utf8_to_string;

verus! {

/// The first position at or after `i` where `c` occurs, or the length of
/// `s` if there is none.
pub open spec fn find_from(s: Seq<char>, c: char, i: int) -> int
    decreases s.len() - i,
{
    if i >= s.len() {
        s.len() as int
    } else if s[i] == c {
        i
    } else {
        find_from(s, c, i + 1)
    }
}

pub proof fn lemma_find_from(s: Seq<char>, c: char, i: int)
    requires
        0 <= i <= s.len(),
    ensures
        i <= find_from(s, c, i) <= s.len(),
        find_from(s, c, i) < s.len() ==> s[find_from(s, c, i)] == c,
        forall|j: int| i <= j < find_from(s, c, i) ==> s[j] != c,
    decreases s.len() - i,
{
    if i < s.len() && s[i] != c {
        lemma_find_from(s, c, i + 1);
    }
}

/// The `<key:value>` tags of `s` at or after position `i`, in order of
/// occurrence.  A `<` whose key would be empty is skipped; a tag missing its
/// `:` or `>` ends the scan, since no later tag can complete either.
pub open spec fn scan_pairs_from(s: Seq<char>, i: int) -> Seq<(Seq<char>, Seq<char>)>
    decreases s.len() - i,
        when 0 <= i
        via scan_pairs_from_decreases
{
    if i >= s.len() {
        Seq::empty()
    } else {
        let lt = find_from(s, '<', i);
        if lt >= s.len() {
            Seq::empty()
        } else {
            let co = find_from(s, ':', lt + 1);
            if co >= s.len() {
                Seq::empty()
            } else if co == lt + 1 {
                scan_pairs_from(s, lt + 1)
            } else {
                let gt = find_from(s, '>', co + 1);
                if gt >= s.len() {
                    Seq::empty()
                } else {
                    seq![(s.subrange(lt + 1, co), s.subrange(co + 1, gt))] + scan_pairs_from(
                        s,
                        gt + 1,
                    )
                }
            }
        }
    }
}

#[via_fn]
proof fn scan_pairs_from_decreases(s: Seq<char>, i: int) {
    if 0 <= i < s.len() {
        lemma_find_from(s, '<', i);
        let lt = find_from(s, '<', i);
        if lt < s.len() {
            lemma_find_from(s, ':', lt + 1);
            let co = find_from(s, ':', lt + 1);
            if co < s.len() && co != lt + 1 {
                lemma_find_from(s, '>', co + 1);
            }
        }
    }
}

/// The value bound to `key`, later occurrences shadowing earlier ones.
pub open spec fn lookup_pairs(ps: Seq<(Seq<char>, Seq<char>)>, key: Seq<char>) -> Option<
    Seq<char>,
>
    decreases ps.len(),
{
    if ps.len() == 0 {
        None
    } else if ps.last().0 == key {
        Some(ps.last().1)
    } else {
        lookup_pairs(ps.drop_last(), key)
    }
}

/// An ordered key-to-value mapping decoded from one metadata block.
#[derive(Debug, PartialEq)]
pub struct MetadataMap {
    pub entries: Vec<(String, String)>,
}

impl MetadataMap {
    /// The tag list, in order of occurrence.
    pub open spec fn view(&self) -> Seq<(Seq<char>, Seq<char>)> {
        self.entries.deep_view()
    }

    /// An empty mapping, the reading of an absent block.
    pub fn empty() -> (r: MetadataMap)
        ensures
            r@ == Seq::<(Seq<char>, Seq<char>)>::empty(),
    {
        let r = MetadataMap { entries: Vec::new() };
        proof {
            assert(r@ =~= Seq::<(Seq<char>, Seq<char>)>::empty());
        }
        r
    }

    /// Look up `key`; on duplicates the last occurrence wins.
    pub fn get(&self, key: &str) -> (r: Option<String>)
        ensures
            match r {
                Some(v) => lookup_pairs(self@, key@) == Some(v@),
                None => lookup_pairs(self@, key@) is None,
            },
    {
        let key_string = String::from_str(key);
        let mut i: usize = self.entries.len();
        proof {
            assert(self@.take(i as int) =~= self@);
        }
        while i > 0
            invariant
                i <= self.entries.len(),
                key_string@ == key@,
                lookup_pairs(self@, key@) == lookup_pairs(self@.take(i as int), key@),
            decreases i,
        {
            i = i - 1;
            proof {
                assert(self@.take(i as int + 1).drop_last() =~= self@.take(i as int));
                assert(self@.take(i as int + 1).last() == self@[i as int]);
            }
            if self.entries[i].0 == key_string {
                return Some(self.entries[i].1.clone());
            }
        }
        proof {
            assert(self@.take(0) =~= Seq::<(Seq<char>, Seq<char>)>::empty());
        }
        None
    }
}

/// The first position at or after `from` where `c` occurs in `chars`.
pub(crate) fn find_char(chars: &Vec<char>, c: char, from: usize) -> (r: usize)
    requires
        from <= chars@.len(),
    ensures
        r as int == find_from(chars@, c, from as int),
        r <= chars@.len(),
{
    let n: usize = chars.len();
    let mut j: usize = from;
    while j < n && chars[j] != c
        invariant
            from <= j <= n,
            n == chars@.len(),
            find_from(chars@, c, from as int) == find_from(chars@, c, j as int),
        decreases n - j,
    {
        j = j + 1;
    }
    proof {
        lemma_find_from(chars@, c, j as int);
    }
    j
}

/// Scan a block's text for `<key:value>` tags, in order of occurrence.
pub fn scan_metadata(content: &str) -> (r: MetadataMap)
    ensures
        r@ == scan_pairs_from(content@, 0),
{
    let chars: Vec<char> = crate::text::str_chars(content);
    let n: usize = chars.len();
    let mut entries: Vec<(String, String)> = Vec::new();
    let mut i: usize = 0;
    proof {
        assert(entries.deep_view() + scan_pairs_from(content@, 0) =~= scan_pairs_from(
            content@,
            0,
        ));
    }
    while i < n
        invariant
            i <= n,
            n == content@.len(),
            chars@ == content@,
            entries.deep_view() + scan_pairs_from(content@, i as int) == scan_pairs_from(
                content@,
                0,
            ),
        decreases n - i,
    {
        let lt = find_char(&chars, '<', i);
        proof {
            lemma_find_from(content@, '<', i as int);
        }
        if lt >= n {
            proof {
                assert(scan_pairs_from(content@, i as int) =~= Seq::<(Seq<char>, Seq<
                    char,
                >)>::empty());
                assert(scan_pairs_from(content@, n as int) =~= Seq::<(Seq<char>, Seq<
                    char,
                >)>::empty());
                assert(entries.deep_view() + scan_pairs_from(content@, n as int)
                    =~= entries.deep_view() + scan_pairs_from(content@, i as int));
            }
            i = n;
        } else {
            let co = find_char(&chars, ':', lt + 1);
            proof {
                lemma_find_from(content@, ':', lt as int + 1);
            }
            if co >= n {
                proof {
                    assert(scan_pairs_from(content@, i as int) =~= Seq::<(Seq<char>, Seq<
                        char,
                    >)>::empty());
                    assert(scan_pairs_from(content@, n as int) =~= Seq::<(Seq<char>, Seq<
                        char,
                    >)>::empty());
                    assert(entries.deep_view() + scan_pairs_from(content@, n as int)
                        =~= entries.deep_view() + scan_pairs_from(content@, i as int));
                }
                i = n;
            } else if co == lt + 1 {
                proof {
                    assert(scan_pairs_from(content@, i as int) == scan_pairs_from(
                        content@,
                        lt as int + 1,
                    ));
                }
                i = lt + 1;
            } else {
                let gt = find_char(&chars, '>', co + 1);
                proof {
                    lemma_find_from(content@, '>', co as int + 1);
                }
                if gt >= n {
                    proof {
                        assert(scan_pairs_from(content@, i as int) =~= Seq::<(Seq<char>, Seq<
                            char,
                        >)>::empty());
                        assert(scan_pairs_from(content@, n as int) =~= Seq::<(Seq<char>, Seq<
                            char,
                        >)>::empty());
                        assert(entries.deep_view() + scan_pairs_from(content@, n as int)
                            =~= entries.deep_view() + scan_pairs_from(content@, i as int));
                    }
                    i = n;
                } else {
                    let key: String = String::from_str(content.substring_char(lt + 1, co));
                    let value: String = String::from_str(content.substring_char(co + 1, gt));
                    let ghost before: Seq<(Seq<char>, Seq<char>)> = entries.deep_view();
                    entries.push((key, value));
                    proof {
                        assert(entries.deep_view() =~= before + seq![
                            (content@.subrange(lt as int + 1, co as int), content@.subrange(
                                co as int + 1,
                                gt as int,
                            )),
                        ]);
                        assert(scan_pairs_from(content@, i as int) == seq![
                            (content@.subrange(lt as int + 1, co as int), content@.subrange(
                                co as int + 1,
                                gt as int,
                            )),
                        ] + scan_pairs_from(content@, gt as int + 1));
                        assert(entries.deep_view() + scan_pairs_from(content@, gt as int + 1)
                            =~= before + scan_pairs_from(content@, i as int));
                    }
                    i = gt + 1;
                }
            }
        }
    }
    proof {
        assert(scan_pairs_from(content@, n as int) =~= Seq::<(Seq<char>, Seq<char>)>::empty());
        assert(entries.deep_view() + scan_pairs_from(content@, n as int) =~= entries.deep_view());
    }
    let r = MetadataMap { entries };
    r
}

/// The 32-bit little-endian integer at offset `a`.
pub open spec fn le32_at(data: Seq<u8>, a: int) -> nat {
    spec_u32_from_le_bytes(data.subrange(a, a + 4)) as nat
}

/// The contents of the length-prefixed block at `addr`, if the length field
/// and the bytes it promises lie inside the data.
pub open spec fn read_block_spec(data: Seq<u8>, addr: nat) -> Option<Seq<u8>> {
    if addr + 4 > data.len() {
        None
    } else {
        let l = le32_at(data, addr as int);
        if addr + 4 + l > data.len() {
            None
        } else {
            Some(data.subrange(addr as int + 4, addr as int + 4 + l))
        }
    }
}

/// Read the length-prefixed block at `addr`: 4 bytes of little-endian
/// length, then that many bytes of content.
pub fn read_block(data: &[u8], addr: u64) -> (r: Result<Vec<u8>, NoteError>)
    ensures
        match r {
            Ok(b) => read_block_spec(data@, addr as nat) == Some(b@),
            Err(e) => read_block_spec(data@, addr as nat) is None && e
                == NoteError::MalformedBlock,
        },
{
    let len64: u64 = data.len() as u64;
    if len64 < 4 || addr > len64 - 4 {
        return Err(NoteError::MalformedBlock);
    }
    let start: usize = addr as usize;
    let len_bytes: &[u8] = slice_subrange(data, start, start + 4);
    let block_len: u32 = u32_from_le_bytes(len_bytes);
    if (block_len as u64) > len64 - ((start as u64) + 4) {
        proof {
            assert(le32_at(data@, addr as int) == block_len as nat);
        }
        return Err(NoteError::MalformedBlock);
    }
    let content: &[u8] = slice_subrange(data, start + 4, start + 4 + (block_len as usize));
    proof {
        assert(le32_at(data@, addr as int) == block_len as nat);
    }
    Ok(slice_to_vec(content))
}

/// What parsing the metadata block at `addr` yields: the empty mapping for
/// the null address, the scanned tags of the block's text, or a
/// `MalformedBlock` failure if the block overruns the file or its content is
/// not valid UTF-8.
pub open spec fn block_pairs_spec(data: Seq<u8>, addr: nat) -> Result<
    Seq<(Seq<char>, Seq<char>)>,
    NoteError,
> {
    if addr == 0 {
        Ok(Seq::empty())
    } else {
        match read_block_spec(data, addr) {
            None => Err(NoteError::MalformedBlock),
            Some(content) => if !valid_utf8(content) {
                Err(NoteError::MalformedBlock)
            } else {
                Ok(scan_pairs_from(decode_utf8(content), 0))
            },
        }
    }
}

/// Read and scan the metadata block at `addr`; address `0` stands for an
/// absent block and yields the empty mapping.
pub fn parse_metadata_block(data: &[u8], addr: u64) -> (r: Result<MetadataMap, NoteError>)
    ensures
        match r {
            Ok(m) => block_pairs_spec(data@, addr as nat) == Ok::<_, NoteError>(m@),
            Err(e) => block_pairs_spec(data@, addr as nat) == Err::<Seq<(Seq<char>, Seq<char>)>,
                _,
            >(e),
        },
{
    if addr == 0 {
        return Ok(MetadataMap::empty());
    }
    let content: Vec<u8> = match read_block(data, addr) {
        Ok(b) => b,
        Err(e) => {
            return Err(e);
        },
    };
    let text: String = match utf8_to_string(content) {
        Some(s) => s,
        None => {
            return Err(NoteError::MalformedBlock);
        },
    };
    Ok(scan_metadata(text.as_str()))
}

} // verus!
