//! The vendor run-length codec for layer bitmaps.
//!
//! The compressed stream is a sequence of `(color, length)` byte pairs with a
//! two-level escape: a length byte with its high bit set is not emitted at
//! once but held back, and only the next pair decides what it meant.  The
//! decoder is therefore a two-state machine: `Idle`, or `Pending(color, code)`
//! with one unresolved pair in hand.

use vstd::prelude::*;

verus! {

/// Pixel code that renders fully transparent; malformed streams are padded
/// with it so that a damaged layer degrades to a transparent tail.
pub const TRANSPARENT_CODE: u8 = 0x62;

/// A run of `n` copies of the byte `c`.
pub open spec fn repeat_byte(c: u8, n: nat) -> Seq<u8> {
    Seq::new(n, |i: int| c)
}

/// Run length meant by a held escape pair on its own: low seven bits plus
/// one, scaled by 128.
pub open spec fn held_len(len_code: u8) -> nat {
    ((len_code & 0x7f) as nat + 1) * 128
}

/// Decoder state: either between runs, or holding one unresolved escape pair.
#[derive(Clone, Copy, Debug, PartialEq, Eq, Structural)]
pub enum RleState {
    Idle,
    Pending(u8, u8),
}

/// The holder contents of a decoder state.
pub open spec fn holder_of(st: RleState) -> Option<(u8, u8)> {
    match st {
        RleState::Idle => None,
        RleState::Pending(c, l) => Some((c, l)),
    }
}

pub open spec fn holder_rank(holder: Option<(u8, u8)>) -> int {
    if holder is Some {
        1
    } else {
        0
    }
}

/// Pixels emitted by the codec for the pair stream `data`, starting in state
/// `holder`.  A trailing odd byte is ignored; a pair still held when the
/// stream ends is not emitted here (see `rle_tail`).
pub open spec fn rle_emit(data: Seq<u8>, holder: Option<(u8, u8)>) -> Seq<u8>
    decreases data.len(), holder_rank(holder),
{
    if data.len() < 2 {
        Seq::empty()
    } else {
        let c = data[0];
        let l = data[1];
        match holder {
            Some((pc, pl)) => {
                if c == pc {
                    // Same color again: the two length codes combine.
                    repeat_byte(pc, 1 + l as nat + held_len(pl)) + rle_emit(data.skip(2), None)
                } else {
                    // Mismatch: resolve the held run by its own magnitude,
                    // then take the current pair as if the holder were empty.
                    repeat_byte(pc, held_len(pl)) + rle_emit(data, None)
                }
            },
            None => {
                if l == 0xff {
                    // Long-run marker.
                    repeat_byte(c, 16384) + rle_emit(data.skip(2), None)
                } else if l & 0x80 != 0 {
                    // Escape: hold the pair for the next one to resolve.
                    rle_emit(data.skip(2), Some((c, l)))
                } else {
                    repeat_byte(c, l as nat + 1) + rle_emit(data.skip(2), None)
                }
            },
        }
    }
}

/// The state the decoder is left in after consuming the pair stream `data`.
pub open spec fn rle_final_holder(data: Seq<u8>, holder: Option<(u8, u8)>) -> Option<(u8, u8)>
    decreases data.len(), holder_rank(holder),
{
    if data.len() < 2 {
        holder
    } else {
        let c = data[0];
        let l = data[1];
        match holder {
            Some((pc, pl)) => {
                if c == pc {
                    rle_final_holder(data.skip(2), None)
                } else {
                    rle_final_holder(data, None)
                }
            },
            None => {
                if l == 0xff {
                    rle_final_holder(data.skip(2), None)
                } else if l & 0x80 != 0 {
                    rle_final_holder(data.skip(2), Some((c, l)))
                } else {
                    rle_final_holder(data.skip(2), None)
                }
            },
        }
    }
}

/// Best-effort flush of a pair still held at end of stream: its own
/// magnitude, but never more than the pixels still missing.
pub open spec fn rle_tail(holder: Option<(u8, u8)>, emitted: nat, expected: nat) -> Seq<u8> {
    match holder {
        None => Seq::empty(),
        Some((pc, pl)) => {
            let rem: nat = if expected > emitted {
                (expected - emitted) as nat
            } else {
                0
            };
            let t: nat = if held_len(pl) < rem {
                held_len(pl)
            } else {
                rem
            };
            repeat_byte(pc, t)
        },
    }
}

/// Truncate to `n` bytes, or pad with the transparency code up to `n`.
pub open spec fn pad_or_trim(s: Seq<u8>, n: nat) -> Seq<u8> {
    if s.len() >= n {
        s.take(n as int)
    } else {
        s + repeat_byte(TRANSPARENT_CODE, (n - s.len()) as nat)
    }
}

/// Everything `decode_rle` returns: the emitted runs, the end-of-stream
/// flush, then padding or truncation to exactly `expected` bytes.
pub open spec fn decode_rle_spec(data: Seq<u8>, expected: nat) -> Seq<u8> {
    let body = rle_emit(data, None);
    pad_or_trim(body + rle_tail(rle_final_holder(data, None), body.len(), expected), expected)
}

/// The first `n` elements, or all of `s` if it is shorter.
pub open spec fn take_at_most(s: Seq<u8>, n: nat) -> Seq<u8> {
    if s.len() <= n {
        s
    } else {
        s.take(n as int)
    }
}

proof fn lemma_take_at_most_append(a: Seq<u8>, b: Seq<u8>, n: nat)
    ensures
        take_at_most(take_at_most(a, n) + b, n) == take_at_most(a + b, n),
{
    if a.len() <= n {
        assert(take_at_most(a, n) + b =~= a + b);
    } else {
        assert(take_at_most(a, n) =~= a.take(n as int));
        if (a.take(n as int) + b).len() <= n {
            assert(take_at_most(a.take(n as int) + b, n) =~= (a + b).take(n as int));
        } else {
            assert((a.take(n as int) + b).take(n as int) =~= (a + b).take(n as int));
        }
    }
}

/// Decoding distributes over splitting the pair stream at a pair boundary.
pub proof fn lemma_rle_append(s1: Seq<u8>, s2: Seq<u8>, holder: Option<(u8, u8)>)
    requires
        s1.len() % 2 == 0,
    ensures
        rle_emit(s1 + s2, holder) == rle_emit(s1, holder) + rle_emit(
            s2,
            rle_final_holder(s1, holder),
        ),
        rle_final_holder(s1 + s2, holder) == rle_final_holder(s2, rle_final_holder(s1, holder)),
    decreases s1.len(), holder_rank(holder),
{
    if s1.len() == 0 {
        assert(s1 + s2 =~= s2);
        assert(rle_emit(s1, holder) + rle_emit(s2, holder) =~= rle_emit(s2, holder));
    } else {
        let rest = s1.skip(2);
        assert((s1 + s2).skip(2) =~= rest + s2);
        assert((s1 + s2)[0] == s1[0]);
        assert((s1 + s2)[1] == s1[1]);
        let c = s1[0];
        let l = s1[1];
        match holder {
            Some((pc, pl)) => {
                if c == pc {
                    lemma_rle_append(rest, s2, None);
                    assert(repeat_byte(pc, 1 + l as nat + held_len(pl)) + (rle_emit(rest, None)
                        + rle_emit(s2, rle_final_holder(rest, None))) =~= (repeat_byte(
                        pc,
                        1 + l as nat + held_len(pl),
                    ) + rle_emit(rest, None)) + rle_emit(s2, rle_final_holder(rest, None)));
                } else {
                    lemma_rle_append(s1, s2, None);
                    assert(repeat_byte(pc, held_len(pl)) + (rle_emit(s1, None) + rle_emit(
                        s2,
                        rle_final_holder(s1, None),
                    )) =~= (repeat_byte(pc, held_len(pl)) + rle_emit(s1, None)) + rle_emit(
                        s2,
                        rle_final_holder(s1, None),
                    ));
                }
            },
            None => {
                if l == 0xff {
                    lemma_rle_append(rest, s2, None);
                    assert(repeat_byte(c, 16384) + (rle_emit(rest, None) + rle_emit(
                        s2,
                        rle_final_holder(rest, None),
                    )) =~= (repeat_byte(c, 16384) + rle_emit(rest, None)) + rle_emit(
                        s2,
                        rle_final_holder(rest, None),
                    ));
                } else if l & 0x80 != 0 {
                    lemma_rle_append(rest, s2, Some((c, l)));
                } else {
                    lemma_rle_append(rest, s2, None);
                    assert(repeat_byte(c, l as nat + 1) + (rle_emit(rest, None) + rle_emit(
                        s2,
                        rle_final_holder(rest, None),
                    )) =~= (repeat_byte(c, l as nat + 1) + rle_emit(rest, None)) + rle_emit(
                        s2,
                        rle_final_holder(rest, None),
                    ));
                }
            },
        }
    }
}

/// A pair stream that ends with nothing held back and emits exactly the
/// target number of pixels decodes without padding or truncation.
pub proof fn lemma_rle_exact(data: Seq<u8>, expected: nat)
    requires
        rle_final_holder(data, None) is None,
        rle_emit(data, None).len() == expected,
    ensures
        decode_rle_spec(data, expected) == rle_emit(data, None),
{
    let body = rle_emit(data, None);
    assert(body + rle_tail(rle_final_holder(data, None), body.len(), expected) =~= body);
    assert(pad_or_trim(body, expected) =~= body);
}

/// Round trip: a pair stream whose runs emit exactly the raw buffer (as
/// `encode_rle` guarantees) decodes back to that buffer.
pub proof fn lemma_rle_round_trip(raw: Seq<u8>, enc: Seq<u8>)
    requires
        rle_emit(enc, None) == raw,
        rle_final_holder(enc, None) is None,
    ensures
        decode_rle_spec(enc, raw.len()) == raw,
{
    lemma_rle_exact(enc, raw.len());
}

/// Two pairs of one color, the first length an escape (high bit set), combine
/// into a single extended run of `1 + k + ((0x80 & 0x7f) + 1) * 128 = 129 + k`
/// pixels.
pub proof fn lemma_escape_combination(c: u8, k: u8)
    ensures
        rle_emit(seq![c, 0x80, c, k], None) == repeat_byte(c, 129 + k as nat),
{
    let s = seq![c, 0x80u8, c, k];
    assert(0x80u8 & 0x80u8 != 0) by (bit_vector);
    assert(0x80u8 & 0x7fu8 == 0) by (bit_vector);
    assert(s.skip(2) =~= seq![c, k]);
    assert(seq![c, k].skip(2) =~= Seq::<u8>::empty());
    assert(rle_emit(seq![c, k], Some((c, 0x80u8))) == repeat_byte(c, 1 + k as nat + held_len(
        0x80u8,
    )) + rle_emit(Seq::<u8>::empty(), None));
    assert(repeat_byte(c, 1 + k as nat + 128) + Seq::<u8>::empty() =~= repeat_byte(
        c,
        129 + k as nat,
    ));
}

/// Two pairs of different colors, the first an escape: the held pair resolves
/// to its own 128-pixel run, then the second pair stands alone.
pub proof fn lemma_escape_mismatch(c1: u8, c2: u8, k: u8)
    requires
        c1 != c2,
        k & 0x80 == 0,
    ensures
        rle_emit(seq![c1, 0x80, c2, k], None) == repeat_byte(c1, 128) + repeat_byte(
            c2,
            k as nat + 1,
        ),
{
    let s = seq![c1, 0x80u8, c2, k];
    assert(0x80u8 & 0x80u8 != 0) by (bit_vector);
    assert(0x80u8 & 0x7fu8 == 0) by (bit_vector);
    assert(k & 0x80 == 0 ==> k != 0xff) by (bit_vector);
    assert(s.skip(2) =~= seq![c2, k]);
    assert(seq![c2, k].skip(2) =~= Seq::<u8>::empty());
    assert(rle_emit(seq![c2, k], Some((c1, 0x80u8))) == repeat_byte(c1, held_len(0x80u8))
        + rle_emit(seq![c2, k], None));
    assert(rle_emit(seq![c2, k], None) == repeat_byte(c2, k as nat + 1) + rle_emit(
        Seq::<u8>::empty(),
        None,
    ));
    assert(repeat_byte(c2, k as nat + 1) + Seq::<u8>::empty() =~= repeat_byte(c2, k as nat + 1));
}

/// The long-run marker `0xff` alone stands for exactly 16384 pixels.
pub proof fn lemma_long_run_marker(c: u8)
    ensures
        rle_emit(seq![c, 0xff], None) == repeat_byte(c, 16384),
{
    let s = seq![c, 0xffu8];
    assert(s.len() == 2);
    assert(s[0] == c);
    assert(s[1] == 0xffu8);
    assert(s.skip(2) =~= Seq::<u8>::empty());
    assert(rle_emit(Seq::<u8>::empty(), None) =~= Seq::<u8>::empty());
    assert(repeat_byte(c, 16384) + Seq::<u8>::empty() =~= repeat_byte(c, 16384));
}

/// Compress a raw buffer with the inverse of the codec's plain-run form:
/// maximal runs of up to 128 equal bytes, one `(color, run - 1)` pair each,
/// never using the escape or the long-run marker.
pub fn encode_rle(raw: &[u8]) -> (r: Vec<u8>)
    ensures
        rle_emit(r@, None) == raw@,
        rle_final_holder(r@, None) is None,
        r@.len() % 2 == 0,
{
    let mut out: Vec<u8> = Vec::new();
    let mut i: usize = 0;
    while i < raw.len()
        invariant
            i <= raw.len(),
            rle_emit(out@, None) == raw@.take(i as int),
            rle_final_holder(out@, None) is None,
            out@.len() % 2 == 0,
        decreases raw.len() - i,
    {
        let c = raw[i];
        let mut j: usize = i + 1;
        while j < raw.len() && j - i < 128 && raw[j] == c
            invariant
                i < j <= raw.len(),
                j - i <= 128,
                forall|m: int| i <= m < j ==> raw@[m] == c,
            decreases raw.len() - j,
        {
            j = j + 1;
        }
        let k: u8 = (j - i - 1) as u8;
        let ghost prev: Seq<u8> = out@;
        out.push(c);
        out.push(k);
        proof {
            assert(out@ =~= prev + seq![c, k]);
            lemma_rle_append(prev, seq![c, k], None);
            assert(k as int == j - i - 1);
            assert(k < 128 ==> k & 0x80 == 0) by (bit_vector);
            assert(k < 128 ==> k != 0xff) by (bit_vector);
            assert(seq![c, k].len() == 2);
            assert(seq![c, k][0] == c);
            assert(seq![c, k][1] == k);
            assert(seq![c, k].skip(2) =~= Seq::<u8>::empty());
            assert(rle_emit(Seq::<u8>::empty(), None) =~= Seq::<u8>::empty());
            assert(rle_final_holder(Seq::<u8>::empty(), None) is None);
            assert(rle_emit(seq![c, k], None) =~= repeat_byte(c, k as nat + 1));
            assert(rle_final_holder(seq![c, k], None) is None);
            assert(repeat_byte(c, k as nat + 1) =~= raw@.subrange(i as int, j as int));
            assert(raw@.take(i as int) + raw@.subrange(i as int, j as int) =~= raw@.take(j as int));
        }
        i = j;
    }
    proof {
        assert(raw@.take(raw@.len() as int) =~= raw@);
    }
    out
}

/// Append runs of `color` until `count` were added or `out` has `cap` bytes.
fn push_run(out: &mut Vec<u8>, color: u8, count: usize, cap: usize)
    requires
        old(out)@.len() <= cap,
    ensures
        final(out)@ == take_at_most(old(out)@ + repeat_byte(color, count as nat), cap as nat),
{
    let room: usize = cap - out.len();
    let n: usize = if count <= room {
        count
    } else {
        room
    };
    let mut k: usize = 0;
    while k < n
        invariant
            k <= n,
            out@ == old(out)@ + repeat_byte(color, k as nat),
        decreases n - k,
    {
        out.push(color);
        proof {
            assert(old(out)@ + repeat_byte(color, k as nat + 1) =~= (old(out)@ + repeat_byte(
                color,
                k as nat,
            )).push(color));
        }
        k = k + 1;
    }
    proof {
        if count <= room {
            assert(out@ =~= take_at_most(old(out)@ + repeat_byte(color, count as nat), cap as nat));
        } else {
            assert(out@ =~= (old(out)@ + repeat_byte(color, count as nat)).take(cap as int));
        }
    }
}

/// Decompress one layer bitmap into exactly `width * height` pixel codes.
///
/// The codec has no failure path: a malformed or truncated stream degrades to
/// a transparent tail (or is truncated) rather than erroring.
pub fn decode_rle(data: &[u8], width: usize, height: usize) -> (r: Vec<u8>)
    requires
        width as nat * height as nat <= usize::MAX as nat,
    ensures
        r@ == decode_rle_spec(data@, (width * height) as nat),
        r@.len() == width * height,
{
    let expected: usize = width * height;
    let mut out: Vec<u8> = Vec::new();
    let ghost mut emitted: Seq<u8> = Seq::empty();
    let mut st = RleState::Idle;
    let mut i: usize = 0;
    proof {
        assert(data@.skip(0) =~= data@);
    }
    while data.len() - i >= 2
        invariant
            i <= data.len(),
            expected == width * height,
            emitted + rle_emit(data@.skip(i as int), holder_of(st)) == rle_emit(data@, None),
            rle_final_holder(data@.skip(i as int), holder_of(st)) == rle_final_holder(
                data@,
                None,
            ),
            out@ == take_at_most(emitted, expected as nat),
        decreases data.len() - i,
    {
        let c = data[i];
        let l = data[i + 1];
        let ghost i0: int = i as int;
        proof {
            assert(data@.skip(i0)[0] == c);
            assert(data@.skip(i0)[1] == l);
            assert(data@.skip(i0).skip(2) =~= data@.skip(i0 + 2));
        }
        i = i + 2;
        let cur = st;
        st = RleState::Idle;
        match cur {
            RleState::Pending(pc, pl) => {
                if c == pc {
                    let run: usize = 1 + (l as usize) + ((pl & 0x7f) as usize + 1) * 128;
                    proof {
                        lemma_take_at_most_append(
                            emitted,
                            repeat_byte(pc, run as nat),
                            expected as nat,
                        );
                    }
                    push_run(&mut out, pc, run, expected);
                    proof {
                        emitted = emitted + repeat_byte(pc, run as nat);
                        assert(emitted + rle_emit(data@.skip(i as int), None) =~= rle_emit(
                            data@,
                            None,
                        ));
                    }
                } else {
                    let held: usize = ((pl & 0x7f) as usize + 1) * 128;
                    proof {
                        lemma_take_at_most_append(
                            emitted,
                            repeat_byte(pc, held as nat),
                            expected as nat,
                        );
                    }
                    push_run(&mut out, pc, held, expected);
                    proof {
                        // One unresolved pair resolves by its own magnitude,
                        // and the current pair restarts from the idle state.
                        assert(rle_emit(data@.skip(i0), Some((pc, pl))) == repeat_byte(
                            pc,
                            held_len(pl),
                        ) + rle_emit(data@.skip(i0), None));
                        assert(rle_final_holder(data@.skip(i0), Some((pc, pl)))
                            == rle_final_holder(data@.skip(i0), None));
                        emitted = emitted + repeat_byte(pc, held as nat);
                    }
                    // The current pair is now taken as if the holder were empty.
                    if l == 0xff {
                        proof {
                            lemma_take_at_most_append(
                                emitted,
                                repeat_byte(c, 16384),
                                expected as nat,
                            );
                        }
                        push_run(&mut out, c, 16384, expected);
                        proof {
                            assert(rle_emit(data@.skip(i0), None) == repeat_byte(c, 16384)
                                + rle_emit(data@.skip(i as int), None));
                            emitted = emitted + repeat_byte(c, 16384);
                            assert(emitted + rle_emit(data@.skip(i as int), None) =~= rle_emit(
                                data@,
                                None,
                            ));
                        }
                    } else if l & 0x80 != 0 {
                        st = RleState::Pending(c, l);
                        proof {
                            assert(rle_emit(data@.skip(i0), None) == rle_emit(
                                data@.skip(i as int),
                                Some((c, l)),
                            ));
                            assert(rle_final_holder(data@.skip(i0), None) == rle_final_holder(
                                data@.skip(i as int),
                                Some((c, l)),
                            ));
                        }
                    } else {
                        let run: usize = l as usize + 1;
                        proof {
                            lemma_take_at_most_append(
                                emitted,
                                repeat_byte(c, run as nat),
                                expected as nat,
                            );
                        }
                        push_run(&mut out, c, run, expected);
                        proof {
                            assert(rle_emit(data@.skip(i0), None) == repeat_byte(c, run as nat)
                                + rle_emit(data@.skip(i as int), None));
                            emitted = emitted + repeat_byte(c, run as nat);
                            assert(emitted + rle_emit(data@.skip(i as int), None) =~= rle_emit(
                                data@,
                                None,
                            ));
                        }
                    }
                }
            },
            RleState::Idle => {
                if l == 0xff {
                    proof {
                        lemma_take_at_most_append(emitted, repeat_byte(c, 16384), expected as nat);
                    }
                    push_run(&mut out, c, 16384, expected);
                    proof {
                        emitted = emitted + repeat_byte(c, 16384);
                        assert(emitted + rle_emit(data@.skip(i as int), None) =~= rle_emit(
                            data@,
                            None,
                        ));
                    }
                } else if l & 0x80 != 0 {
                    st = RleState::Pending(c, l);
                } else {
                    let run: usize = l as usize + 1;
                    proof {
                        lemma_take_at_most_append(emitted, repeat_byte(c, run as nat), expected as nat);
                    }
                    push_run(&mut out, c, run, expected);
                    proof {
                        emitted = emitted + repeat_byte(c, run as nat);
                        assert(emitted + rle_emit(data@.skip(i as int), None) =~= rle_emit(
                            data@,
                            None,
                        ));
                    }
                }
            },
        }
    }
    proof {
        assert(rle_emit(data@.skip(i as int), holder_of(st)) =~= Seq::<u8>::empty());
        assert(emitted =~= rle_emit(data@, None));
    }
    // Flush a pair still held when the stream ended.
    let ghost full: Seq<u8> = emitted + rle_tail(
        rle_final_holder(data@, None),
        emitted.len(),
        expected as nat,
    );
    match st {
        RleState::Pending(pc, pl) => {
            let held: usize = ((pl & 0x7f) as usize + 1) * 128;
            let rem: usize = expected - out.len();
            let t: usize = if held < rem {
                held
            } else {
                rem
            };
            proof {
                if emitted.len() <= expected as nat {
                    assert(out@.len() == emitted.len());
                } else {
                    assert(out@.len() == expected as nat);
                }
                assert(repeat_byte(pc, t as nat) == rle_tail(
                    rle_final_holder(data@, None),
                    emitted.len(),
                    expected as nat,
                ));
                lemma_take_at_most_append(emitted, repeat_byte(pc, t as nat), expected as nat);
            }
            push_run(&mut out, pc, t, expected);
        },
        RleState::Idle => {
            proof {
                assert(full =~= emitted);
            }
        },
    }
    proof {
        assert(out@ == take_at_most(full, expected as nat));
    }
    // Pad a shortfall with the transparency code.
    while out.len() < expected
        invariant
            out@.len() <= expected,
            out@ == take_at_most(full, expected as nat) + repeat_byte(
                TRANSPARENT_CODE,
                (out@.len() - take_at_most(full, expected as nat).len()) as nat,
            ),
        decreases expected - out@.len(),
    {
        let ghost before: Seq<u8> = out@;
        out.push(TRANSPARENT_CODE);
        proof {
            let base = take_at_most(full, expected as nat);
            assert(out@ =~= base + repeat_byte(
                TRANSPARENT_CODE,
                (out@.len() - base.len()) as nat,
            ));
        }
    }
    proof {
        let base = take_at_most(full, expected as nat);
        if full.len() >= expected as nat {
            assert(out@ =~= pad_or_trim(full, expected as nat));
        } else {
            assert(out@ =~= pad_or_trim(full, expected as nat));
        }
    }
    out
}

} // verus!
