//! What holds between the encoder and the decoder: decoding an encoding gives the frames
//! back, a cut-off encoding is reported as unfinished, what the decoder gives can be sent
//! again, and no byte is lost when a buffer is decoded in pieces.
use crate::bytes::{
    decimal, is_digit, lemma_decimal_digits, lemma_parse_decimal, lemma_parse_signed_decimal,
    parse_nat_u64, signed_decimal,
};
use crate::parse::{
    bulk, command, crlf, crlf_at, decode, encode, encode_all, find_crlf, lemma_encode_all_concat,
    lemma_find_crlf, lemma_parse_elements_unfold, lemma_parse_frame_used, lemma_parse_line_used,
    parse_array_spec, parse_bulk_string_spec, parse_elements, parse_frame, parse_line,
    prepend_decoding, type_of_tag, Decoding, Frame, Parse, RespType, MAX_DEPTH,
};
use vstd::prelude::*;

verus! {

/// Whether no line break stands inside `t`.
pub open spec fn unbroken(t: Seq<u8>) -> bool {
    forall|j: int| !crlf_at(t, j)
}

/// Whether `f` can go over the wire as one frame and come back: its lines of text hold
/// no line break, its integers have 64 bits, its lengths too, it holds no batch, and its
/// arrays nest at most `depth` deep.
pub open spec fn wire_frame(f: Frame, depth: nat) -> bool
    decreases f,
{
    match f {
        Frame::SimpleString(t) => unbroken(t),
        Frame::Error(t) => unbroken(t),
        Frame::Integer(i) => i64::MIN <= i <= i64::MAX,
        Frame::BulkString(Some(b)) => b.len() <= u64::MAX,
        Frame::BulkString(None) => true,
        Frame::Array(fs) => {
            &&& depth > 0
            &&& fs.len() <= u64::MAX
            &&& forall|i: int|
                0 <= i < fs.len() ==> wire_frame(#[trigger] fs[i], (depth - 1) as nat)
        },
        Frame::Batch(_) => false,
    }
}

/// Whether every frame of `fs` can go over the wire.
pub open spec fn wire_frames(fs: Seq<Frame>, depth: nat) -> bool {
    forall|i: int| 0 <= i < fs.len() ==> wire_frame(#[trigger] fs[i], depth)
}

proof fn lemma_find_crlf_at(s: Seq<u8>, from: int, k: int)
    requires
        0 <= from <= k,
        crlf_at(s, k),
        forall|j: int| from <= j < k ==> !crlf_at(s, j),
    ensures
        find_crlf(s, from) == Some(k),
{
    lemma_find_crlf(s, from);
}

proof fn lemma_find_crlf_none(s: Seq<u8>, from: int)
    requires
        0 <= from,
        forall|j: int| from <= j ==> !crlf_at(s, j),
    ensures
        find_crlf(s, from) is None,
{
    lemma_find_crlf(s, from);
}

/// A text without a carriage return holds no line break.
pub proof fn lemma_no_cr_unbroken(t: Seq<u8>)
    requires
        forall|i: int| 0 <= i < t.len() ==> t[i] != 13,
    ensures
        unbroken(t),
{
}

proof fn lemma_decimal_unbroken(n: nat)
    ensures
        unbroken(decimal(n)),
        decimal(n).len() > 0,
        is_digit(decimal(n)[0]),
{
    lemma_decimal_digits(n);
    let t = decimal(n);
    assert forall|i: int| 0 <= i < t.len() implies t[i] != 13 by {
        assert(is_digit(t[i]));
    }
    lemma_no_cr_unbroken(t);
}

proof fn lemma_signed_decimal_unbroken(i: int)
    ensures
        unbroken(signed_decimal(i)),
{
    let t = signed_decimal(i);
    if i < 0 {
        let d = decimal((-i) as nat);
        lemma_decimal_digits((-i) as nat);
        assert forall|j: int| 0 <= j < t.len() implies t[j] != 13 by {
            if j > 0 {
                assert(t[j] == d[j - 1]);
                assert(is_digit(d[j - 1]));
            }
        }
    } else {
        lemma_decimal_digits(i as nat);
        assert forall|j: int| 0 <= j < t.len() implies t[j] != 13 by {
            assert(is_digit(t[j]));
        }
    }
    lemma_no_cr_unbroken(t);
}

/// A line that holds no line break is read back whole, whatever follows it.
pub proof fn lemma_line(tag: u8, t: Seq<u8>, rest: Seq<u8>)
    requires
        unbroken(t),
    ensures
        parse_line(seq![tag] + t + crlf() + rest) == Parse::Complete(t, (t.len() + 3) as nat),
{
    let s = seq![tag] + t + crlf() + rest;
    let k = 1 + t.len() as int;
    assert(crlf_at(s, k));
    assert forall|j: int| 1 <= j < k implies !crlf_at(s, j) by {
        if j + 1 < k {
            assert(s[j] == t[j - 1]);
            assert(s[j + 1] == t[j]);
            assert(!crlf_at(t, j - 1));
        } else {
            assert(s[j + 1] == 13);
        }
    }
    lemma_find_crlf_at(s, 1, k);
    assert(s.subrange(1, k) =~= t);
}

/// A line that is cut off before its end is unfinished.
proof fn lemma_line_truncated(tag: u8, t: Seq<u8>, k: int)
    requires
        unbroken(t),
        0 <= k < t.len() + 3,
    ensures
        parse_line((seq![tag] + t + crlf()).take(k)) is Incomplete,
{
    let s = seq![tag] + t + crlf();
    let p = s.take(k);
    assert forall|j: int| 1 <= j implies !crlf_at(p, j) by {
        if j + 1 < k {
            if j + 1 < 1 + t.len() {
                assert(p[j] == t[j - 1]);
                assert(p[j + 1] == t[j]);
                assert(!crlf_at(t, j - 1));
            } else {
                assert(p[j + 1] == 13);
            }
        }
    }
    lemma_find_crlf_none(p, 1);
}

/// A line of text that holds no line break is read back from its encoding.
proof fn lemma_text_encoded(f: Frame, depth: nat, rest: Seq<u8>)
    requires
        f is SimpleString || f is Error,
        wire_frame(f, depth),
    ensures
        parse_frame(encode(f) + rest, depth) == Parse::Complete(f, encode(f).len()),
{
    let s = encode(f) + rest;
    match f {
        Frame::SimpleString(t) => {
            assert(s =~= seq![43u8] + t + crlf() + rest);
            lemma_line(43u8, t, rest);
        },
        Frame::Error(t) => {
            assert(s =~= seq![45u8] + t + crlf() + rest);
            lemma_line(45u8, t, rest);
        },
        _ => {},
    }
}

/// An integer of 64 bits is read back from its encoding.
proof fn lemma_integer_encoded(i: int, depth: nat, rest: Seq<u8>)
    requires
        i64::MIN <= i <= i64::MAX,
    ensures
        parse_frame(encode(Frame::Integer(i)) + rest, depth) == Parse::Complete(
            Frame::Integer(i),
            encode(Frame::Integer(i)).len(),
        ),
{
    let s = encode(Frame::Integer(i)) + rest;
    let t = signed_decimal(i);
    assert(s =~= seq![58u8] + t + crlf() + rest);
    lemma_signed_decimal_unbroken(i);
    lemma_line(58u8, t, rest);
    lemma_parse_signed_decimal(i);
}

/// A bulk string is read back from its encoding, whatever bytes it holds.
proof fn lemma_bulk_encoded(b: Seq<u8>, depth: nat, rest: Seq<u8>)
    requires
        b.len() <= u64::MAX,
    ensures
        parse_frame(encode(bulk(b)) + rest, depth) == Parse::Complete(
            bulk(b),
            encode(bulk(b)).len(),
        ),
{
    let s = encode(bulk(b)) + rest;
    let t = decimal(b.len());
    let after = b + crlf() + rest;
    assert(s =~= seq![36u8] + t + crlf() + after);
    lemma_decimal_unbroken(b.len());
    lemma_line(36u8, t, after);
    lemma_parse_decimal(b.len());
    let used: int = t.len() as int + 3;
    assert(t != seq![45u8, 49u8]) by {
        assert(seq![45u8, 49u8][0] == 45u8);
    }
    assert(s[used + b.len()] == 13);
    assert(s[used + b.len() + 1] == 10);
    assert(s.subrange(used, used + b.len()) =~= b);
    assert(parse_frame(s, depth) == parse_bulk_string_spec(s));
}

/// The null string is read back from its encoding.
proof fn lemma_null_encoded(depth: nat, rest: Seq<u8>)
    ensures
        parse_frame(encode(Frame::BulkString(None)) + rest, depth) == Parse::Complete(
            Frame::BulkString(None),
            5,
        ),
        encode(Frame::BulkString(None)).len() == 5,
{
    let s = encode(Frame::BulkString(None)) + rest;
    let t = seq![45u8, 49u8];
    assert(s =~= seq![36u8] + t + crlf() + rest);
    assert forall|j: int| 0 <= j < t.len() implies t[j] != 13 by {}
    lemma_no_cr_unbroken(t);
    lemma_line(36u8, t, rest);
    assert(parse_frame(s, depth) == parse_bulk_string_spec(s));
}

/// A frame that can go over the wire is read back from its encoding, whatever follows it.
pub proof fn lemma_parse_encoded(f: Frame, depth: nat, rest: Seq<u8>)
    requires
        wire_frame(f, depth),
    ensures
        parse_frame(encode(f) + rest, depth) == Parse::Complete(f, encode(f).len()),
        encode(f).len() > 0,
    decreases f, 0nat,
{
    match f {
        Frame::SimpleString(_) => {
            lemma_text_encoded(f, depth, rest);
        },
        Frame::Error(_) => {
            lemma_text_encoded(f, depth, rest);
        },
        Frame::Integer(i) => {
            lemma_integer_encoded(i, depth, rest);
        },
        Frame::BulkString(Some(b)) => {
            lemma_bulk_encoded(b, depth, rest);
        },
        Frame::BulkString(None) => {
            lemma_null_encoded(depth, rest);
        },
        Frame::Array(fs) => {
            let s = encode(f) + rest;
            let t = decimal(fs.len());
            let after = encode_all(fs) + rest;
            assert(s =~= seq![42u8] + t + crlf() + after);
            lemma_decimal_unbroken(fs.len());
            lemma_line(42u8, t, after);
            lemma_parse_decimal(fs.len());
            let used: int = t.len() as int + 3;
            assert(s.skip(used) =~= after);
            lemma_parse_encoded_all(fs, (depth - 1) as nat, rest);
            assert(parse_frame(s, depth) == parse_array_spec(s, depth));
        },
        Frame::Batch(_) => {},
    }
}

/// Frames that can go over the wire are read back from their encodings, whatever follows.
pub proof fn lemma_parse_encoded_all(fs: Seq<Frame>, depth: nat, rest: Seq<u8>)
    requires
        wire_frames(fs, depth),
    ensures
        parse_elements(encode_all(fs) + rest, fs.len(), depth) == Parse::Complete(
            fs,
            encode_all(fs).len(),
        ),
    decreases fs, 1nat,
{
    if fs.len() == 0 {
        assert(fs =~= Seq::<Frame>::empty());
    } else {
        let head = fs.first();
        let tail = fs.drop_first();
        let s = encode_all(fs) + rest;
        let after = encode_all(tail) + rest;
        assert(wire_frame(fs[0], depth));
        assert(wire_frames(tail, depth)) by {
            assert forall|i: int| 0 <= i < tail.len() implies wire_frame(
                #[trigger] tail[i],
                depth,
            ) by {
                assert(tail[i] == fs[i + 1]);
            }
        }
        assert(s =~= encode(head) + after);
        lemma_parse_encoded(head, depth, after);
        lemma_parse_encoded_all(tail, depth, rest);
        lemma_parse_elements_unfold(s, fs.len(), depth);
        assert(s.skip(encode(head).len() as int) =~= after);
        assert(seq![head] + tail =~= fs);
        assert(parse_elements(after, tail.len(), depth) == Parse::Complete(
            tail,
            encode_all(tail).len(),
        ));
        assert(encode_all(fs).len() == encode(head).len() + encode_all(tail).len());
    }
}

/// A sequence of one frame is encoded as that frame is.
pub proof fn lemma_encode_all_single(f: Frame)
    ensures
        encode_all(seq![f]) == encode(f),
{
    let fs = seq![f];
    assert(fs.first() == f);
    assert(fs.drop_first() =~= Seq::<Frame>::empty());
    assert(encode_all(fs.drop_first()) =~= Seq::<u8>::empty());
    assert(encode_all(fs) =~= encode(f));
}

/// A frame that is cut off inside its encoding is unfinished.
pub proof fn lemma_parse_truncated(f: Frame, depth: nat, k: int)
    requires
        wire_frame(f, depth),
        0 < k < encode(f).len(),
    ensures
        parse_frame(encode(f).take(k), depth) is Incomplete,
    decreases f, 0nat,
{
    let p = encode(f).take(k);
    match f {
        Frame::SimpleString(t) => {
            lemma_line_truncated(43u8, t, k);
        },
        Frame::Error(t) => {
            lemma_line_truncated(45u8, t, k);
        },
        Frame::Integer(i) => {
            lemma_signed_decimal_unbroken(i);
            lemma_line_truncated(58u8, signed_decimal(i), k);
        },
        Frame::BulkString(Some(b)) => {
            let t = decimal(b.len());
            let used: int = t.len() as int + 3;
            lemma_decimal_unbroken(b.len());
            assert(parse_frame(p, depth) == parse_bulk_string_spec(p));
            if k < used {
                assert(p =~= (seq![36u8] + t + crlf()).take(k));
                lemma_line_truncated(36u8, t, k);
            } else {
                let after = (b + crlf()).take(k - used);
                assert(p =~= seq![36u8] + t + crlf() + after);
                lemma_line(36u8, t, after);
                lemma_parse_decimal(b.len());
                assert(t != seq![45u8, 49u8]) by {
                    assert(seq![45u8, 49u8][0] == 45u8);
                }
            }
        },
        Frame::BulkString(None) => {
            let t = seq![45u8, 49u8];
            assert forall|j: int| 0 <= j < t.len() implies t[j] != 13 by {}
            lemma_no_cr_unbroken(t);
            assert(encode(f) =~= seq![36u8] + t + crlf());
            lemma_line_truncated(36u8, t, k);
            assert(parse_frame(p, depth) == parse_bulk_string_spec(p));
        },
        Frame::Array(fs) => {
            let t = decimal(fs.len());
            let used: int = t.len() as int + 3;
            lemma_decimal_unbroken(fs.len());
            assert(parse_frame(p, depth) == parse_array_spec(p, depth));
            if k < used {
                assert(p =~= (seq![42u8] + t + crlf()).take(k));
                lemma_line_truncated(42u8, t, k);
            } else {
                let after = encode_all(fs).take(k - used);
                assert(p =~= seq![42u8] + t + crlf() + after);
                lemma_line(42u8, t, after);
                lemma_parse_decimal(fs.len());
                assert(p.skip(used) =~= after);
                lemma_parse_truncated_all(fs, (depth - 1) as nat, k - used);
            }
        },
        Frame::Batch(_) => {},
    }
}

/// Frames of which the encodings are cut off before their end are unfinished.
pub proof fn lemma_parse_truncated_all(fs: Seq<Frame>, depth: nat, m: int)
    requires
        wire_frames(fs, depth),
        0 <= m < encode_all(fs).len(),
    ensures
        parse_elements(encode_all(fs).take(m), fs.len(), depth) is Incomplete,
    decreases fs, 1nat,
{
    let head = fs.first();
    let tail = fs.drop_first();
    let p = encode_all(fs).take(m);
    assert(fs.len() > 0);
    assert(wire_frame(fs[0], depth));
    assert(wire_frames(tail, depth)) by {
        assert forall|i: int| 0 <= i < tail.len() implies wire_frame(#[trigger] tail[i], depth) by {
            assert(tail[i] == fs[i + 1]);
        }
    }
    lemma_parse_elements_unfold(p, fs.len(), depth);
    let first = encode(head);
    if m == 0 {
    } else if m < first.len() {
        assert(p =~= first.take(m));
        lemma_parse_truncated(head, depth, m);
    } else {
        let after = encode_all(tail).take(m - first.len());
        assert(p =~= first + after);
        lemma_parse_encoded(head, depth, after);
        assert(p.skip(first.len() as int) =~= after);
        lemma_parse_truncated_all(tail, depth, m - first.len());
    }
}

/// Decoding the encodings of frames that can go over the wire, one after the other,
/// gives exactly those frames, in order, takes every byte and reports nothing unfinished.
pub proof fn decode_inverts_encode(fs: Seq<Frame>)
    requires
        wire_frames(fs, MAX_DEPTH as nat),
    ensures
        decode(encode_all(fs)) == Some(
            Decoding { frames: fs, consumed: encode_all(fs).len(), incomplete: false },
        ),
    decreases fs.len(),
{
    let s = encode_all(fs);
    if fs.len() == 0 {
        assert(fs =~= Seq::<Frame>::empty());
    } else {
        let head = fs.first();
        let tail = fs.drop_first();
        assert(wire_frame(fs[0], MAX_DEPTH as nat));
        assert(wire_frames(tail, MAX_DEPTH as nat)) by {
            assert forall|i: int| 0 <= i < tail.len() implies wire_frame(
                #[trigger] tail[i],
                MAX_DEPTH as nat,
            ) by {
                assert(tail[i] == fs[i + 1]);
            }
        }
        lemma_parse_encoded(head, MAX_DEPTH as nat, encode_all(tail));
        decode_inverts_encode(tail);
        assert(s.skip(encode(head).len() as int) =~= encode_all(tail));
        assert(seq![head] + tail =~= fs);
    }
}

/// Decoding the encoding of one frame that can go over the wire gives a batch of that
/// frame alone, with no byte left over.
pub proof fn decode_encoded_frame(f: Frame)
    requires
        wire_frame(f, MAX_DEPTH as nat),
    ensures
        decode(encode(f)) == Some(
            Decoding { frames: seq![f], consumed: encode(f).len(), incomplete: false },
        ),
{
    let fs = seq![f];
    lemma_encode_all_single(f);
    decode_inverts_encode(fs);
}

/// Decoding two encodings, one after the other, gives the two frames in one pass.
pub proof fn decode_encoded_pair(f1: Frame, f2: Frame)
    requires
        wire_frame(f1, MAX_DEPTH as nat),
        wire_frame(f2, MAX_DEPTH as nat),
    ensures
        decode(encode(f1) + encode(f2)) == Some(
            Decoding {
                frames: seq![f1, f2],
                consumed: encode(f1).len() + encode(f2).len(),
                incomplete: false,
            },
        ),
{
    let a = seq![f1];
    let b = seq![f2];
    lemma_encode_all_single(f1);
    lemma_encode_all_single(f2);
    lemma_encode_all_concat(a, b);
    assert(a + b =~= seq![f1, f2]);
    decode_inverts_encode(seq![f1, f2]);
}

/// A batch is encoded as its frames are, so decoding it gives the frames back.
pub proof fn decode_encoded_batch(fs: Seq<Frame>)
    requires
        wire_frames(fs, MAX_DEPTH as nat),
    ensures
        decode(encode(Frame::Batch(fs))) == Some(
            Decoding { frames: fs, consumed: encode(Frame::Batch(fs)).len(), incomplete: false },
        ),
{
    decode_inverts_encode(fs);
}

/// Of an encoding that is cut off somewhere inside, the decoder reports an unfinished
/// frame and takes no byte.
pub proof fn decode_truncated(f: Frame, k: int)
    requires
        wire_frame(f, MAX_DEPTH as nat),
        0 < k < encode(f).len(),
    ensures
        decode(encode(f).take(k)) == Some(
            Decoding { frames: Seq::empty(), consumed: 0, incomplete: true },
        ),
{
    lemma_parse_truncated(f, MAX_DEPTH as nat, k);
}

/// Of the encodings of frames followed by an encoding that is cut off somewhere inside,
/// the decoder gives the frames before the cut, takes their bytes and no more, and
/// reports the unfinished frame.
pub proof fn decode_truncated_after(fs: Seq<Frame>, f: Frame, k: int)
    requires
        wire_frames(fs, MAX_DEPTH as nat),
        wire_frame(f, MAX_DEPTH as nat),
        0 < k < encode(f).len(),
    ensures
        decode(encode_all(fs) + encode(f).take(k)) == Some(
            Decoding { frames: fs, consumed: encode_all(fs).len(), incomplete: true },
        ),
    decreases fs.len(),
{
    let tail_bytes = encode(f).take(k);
    if fs.len() == 0 {
        assert(fs =~= Seq::<Frame>::empty());
        assert(encode_all(fs) + tail_bytes =~= tail_bytes);
        decode_truncated(f, k);
    } else {
        let head = fs.first();
        let tail = fs.drop_first();
        assert(wire_frame(fs[0], MAX_DEPTH as nat));
        assert(wire_frames(tail, MAX_DEPTH as nat)) by {
            assert forall|i: int| 0 <= i < tail.len() implies wire_frame(
                #[trigger] tail[i],
                MAX_DEPTH as nat,
            ) by {
                assert(tail[i] == fs[i + 1]);
            }
        }
        let s = encode_all(fs) + tail_bytes;
        let after = encode_all(tail) + tail_bytes;
        assert(s =~= encode(head) + after);
        lemma_parse_encoded(head, MAX_DEPTH as nat, after);
        decode_truncated_after(tail, f, k);
        assert(s.skip(encode(head).len() as int) =~= after);
        assert(seq![head] + tail =~= fs);
    }
}

/// A frame that was read whole is read the same whatever bytes follow the buffer.
pub proof fn lemma_parse_stable(s: Seq<u8>, t: Seq<u8>, depth: nat)
    ensures
        parse_frame(s, depth) is Complete ==> parse_frame(s + t, depth) == parse_frame(s, depth),
    decreases depth, 2nat, 0nat,
{
    if parse_frame(s, depth) is Complete {
        let long = s + t;
        assert(long[0] == s[0]);
        lemma_find_crlf(s, 1);
        lemma_parse_line_used(s);
        match parse_line(s) {
            Parse::Complete(text, used) => {
                let k = used - 2;
                assert(crlf_at(long, k));
                assert forall|j: int| 1 <= j < k implies !crlf_at(long, j) by {
                    assert(long[j] == s[j]);
                    assert(long[j + 1] == s[j + 1]);
                    assert(!crlf_at(s, j));
                }
                lemma_find_crlf_at(long, 1, k);
                assert(long.subrange(1, k) =~= s.subrange(1, k));
                match type_of_tag(s[0]) {
                    RespType::BulkString => {
                        if text != seq![45u8, 49u8] {
                            match parse_nat_u64(text) {
                                Some(n) => {
                                    assert(long[used + n] == s[used + n]);
                                    assert(long[used + n + 1] == s[used + n + 1]);
                                    assert(long.subrange(used as int, used + n) =~= s.subrange(
                                        used as int,
                                        used + n,
                                    ));
                                },
                                None => {},
                            }
                        }
                    },
                    RespType::Array => {
                        match parse_nat_u64(text) {
                            Some(n) => {
                                lemma_parse_elements_stable(
                                    s.skip(used as int),
                                    t,
                                    n as nat,
                                    (depth - 1) as nat,
                                );
                                assert(long.skip(used as int) =~= s.skip(used as int) + t);
                            },
                            None => {},
                        }
                    },
                    _ => {},
                }
            },
            _ => {},
        }
    }
}

/// Frames that were read whole are read the same whatever bytes follow the buffer.
pub proof fn lemma_parse_elements_stable(s: Seq<u8>, t: Seq<u8>, n: nat, depth: nat)
    ensures
        parse_elements(s, n, depth) is Complete ==> parse_elements(s + t, n, depth)
            == parse_elements(s, n, depth),
    decreases depth, 3nat, n,
{
    if n > 0 && parse_elements(s, n, depth) is Complete {
        lemma_parse_elements_unfold(s, n, depth);
        lemma_parse_elements_unfold(s + t, n, depth);
        lemma_parse_stable(s, t, depth);
        lemma_parse_frame_used(s, depth);
        match parse_frame(s, depth) {
            Parse::Complete(f, used) => {
                lemma_parse_elements_stable(s.skip(used as int), t, (n - 1) as nat, depth);
                assert((s + t).skip(used as int) =~= s.skip(used as int) + t);
            },
            _ => {},
        }
    }
}

/// The decoder takes no more bytes than the buffer holds.
pub proof fn lemma_decode_consumed(s: Seq<u8>)
    ensures
        decode(s) matches Some(d) ==> d.consumed <= s.len(),
    decreases s.len(),
{
    if s.len() > 0 {
        lemma_parse_frame_used(s, MAX_DEPTH as nat);
        match parse_frame(s, MAX_DEPTH as nat) {
            Parse::Complete(f, used) => {
                lemma_decode_consumed(s.skip(used as int));
            },
            _ => {},
        }
    }
}

/// Putting one run of frames in front of another that stands in front of what was
/// decoded is putting the two runs in front as one.
proof fn lemma_prepend_twice(
    x: Seq<Frame>,
    u: nat,
    y: Seq<Frame>,
    v: nat,
    tail: Option<Decoding>,
)
    ensures
        prepend_decoding(x, u, prepend_decoding(y, v, tail)) == prepend_decoding(
            x + y,
            u + v,
            tail,
        ),
{
    match tail {
        Some(d) => {
            assert(x + (y + d.frames) =~= (x + y) + d.frames);
        },
        None => {},
    }
}

/// Putting no frame in front of what was decoded changes nothing.
proof fn lemma_prepend_nothing(tail: Option<Decoding>)
    ensures
        prepend_decoding(Seq::empty(), 0, tail) == tail,
{
    match tail {
        Some(d) => {
            assert(Seq::<Frame>::empty() + d.frames =~= d.frames);
        },
        None => {},
    }
}

/// No byte is lost between two reads: decoding a buffer, keeping what it left, and
/// decoding that with more bytes behind it gives what decoding all the bytes at once
/// gives.
pub proof fn decode_resumes(a: Seq<u8>, b: Seq<u8>)
    requires
        decode(a) is Some,
    ensures
        decode(a + b) == prepend_decoding(
            decode(a)->0.frames,
            decode(a)->0.consumed,
            decode(a.skip(decode(a)->0.consumed as int) + b),
        ),
    decreases a.len(),
{
    let depth = MAX_DEPTH as nat;
    let first = decode(a)->0;
    if a.len() > 0 && parse_frame(a, depth) is Complete {
        let f = parse_frame(a, depth)->Complete_0;
        let used = parse_frame(a, depth)->Complete_1;
        let rest = a.skip(used as int);
        lemma_parse_frame_used(a, depth);
        assert(decode(a) == prepend_decoding(seq![f], used, decode(rest)));
        let inner = decode(rest)->0;
        assert(first.frames == seq![f] + inner.frames);
        assert(first.consumed == used + inner.consumed);
        lemma_parse_stable(a, b, depth);
        assert((a + b).skip(used as int) =~= rest + b);
        assert(decode(a + b) == prepend_decoding(seq![f], used, decode(rest + b)));
        decode_resumes(rest, b);
        lemma_decode_consumed(rest);
        let kept = rest.skip(inner.consumed as int);
        assert(kept =~= a.skip(first.consumed as int));
        lemma_prepend_twice(seq![f], used, inner.frames, inner.consumed, decode(kept + b));
    } else {
        assert(first.consumed == 0);
        assert(first.frames =~= Seq::<Frame>::empty());
        assert(a.skip(0) + b =~= a + b);
        lemma_prepend_nothing(decode(a + b));
    }
}

/// A command, an array of bulk strings, can go over the wire, whatever its words hold.
pub proof fn lemma_command_is_wire(words: Seq<Seq<u8>>, depth: nat)
    requires
        depth > 0,
        words.len() <= u64::MAX,
        forall|i: int| 0 <= i < words.len() ==> (#[trigger] words[i]).len() <= u64::MAX,
    ensures
        wire_frame(command(words), depth),
{
    let fs = command(words)->Array_0;
    assert forall|i: int| 0 <= i < fs.len() implies wire_frame(
        #[trigger] fs[i],
        (depth - 1) as nat,
    ) by {
        assert(fs[i] == bulk(words[i]));
    }
}

/// The text of a line that was read holds no line break.
proof fn lemma_line_unbroken(s: Seq<u8>)
    ensures
        parse_line(s) matches Parse::Complete(t, _) ==> unbroken(t),
{
    lemma_find_crlf(s, 1);
    match parse_line(s) {
        Parse::Complete(t, used) => {
            let k = used - 2;
            assert forall|j: int| !crlf_at(t, j) by {
                if crlf_at(t, j) {
                    assert(t[j] == s[j + 1]);
                    assert(t[j + 1] == s[j + 2]);
                    assert(crlf_at(s, j + 1));
                }
            }
        },
        _ => {},
    }
}

/// A frame that the decoder reads can go over the wire again.
pub proof fn lemma_parsed_is_wire(s: Seq<u8>, depth: nat)
    ensures
        parse_frame(s, depth) matches Parse::Complete(f, _) ==> wire_frame(f, depth),
    decreases depth, 2nat, 0nat,
{
    if s.len() > 0 {
        lemma_line_unbroken(s);
        match type_of_tag(s[0]) {
            RespType::Array => {
                if depth > 0 {
                    match parse_line(s) {
                        Parse::Complete(t, used) => match parse_nat_u64(t) {
                            Some(n) => {
                                lemma_parsed_elements_are_wire(
                                    s.skip(used as int),
                                    n as nat,
                                    (depth - 1) as nat,
                                );
                            },
                            None => {},
                        },
                        _ => {},
                    }
                }
            },
            _ => {},
        }
    }
}

/// The frames that the decoder reads as the elements of an array can go over the wire
/// again, and are as many as the array announced.
pub proof fn lemma_parsed_elements_are_wire(s: Seq<u8>, n: nat, depth: nat)
    ensures
        parse_elements(s, n, depth) matches Parse::Complete(fs, _) ==> wire_frames(fs, depth)
            && fs.len() == n,
    decreases depth, 3nat, n,
{
    if n > 0 {
        lemma_parsed_is_wire(s, depth);
        match parse_frame(s, depth) {
            Parse::Complete(f, used) => {
                lemma_parsed_elements_are_wire(s.skip(used as int), (n - 1) as nat, depth);
                match parse_elements(s.skip(used as int), (n - 1) as nat, depth) {
                    Parse::Complete(rest, _) => {
                        let fs = seq![f] + rest;
                        assert forall|i: int| 0 <= i < fs.len() implies wire_frame(
                            #[trigger] fs[i],
                            depth,
                        ) by {
                            if i > 0 {
                                assert(fs[i] == rest[i - 1]);
                            }
                        }
                    },
                    _ => {},
                }
            },
            _ => {},
        }
    }
}

/// Every frame that the decoder gives can go over the wire again: encoded and decoded
/// once more, it comes back as it is.
pub proof fn decoded_frames_are_wire(s: Seq<u8>)
    ensures
        decode(s) matches Some(d) ==> wire_frames(d.frames, MAX_DEPTH as nat),
    decreases s.len(),
{
    if s.len() > 0 {
        lemma_parsed_is_wire(s, MAX_DEPTH as nat);
        lemma_parse_frame_used(s, MAX_DEPTH as nat);
        match parse_frame(s, MAX_DEPTH as nat) {
            Parse::Complete(f, used) => {
                decoded_frames_are_wire(s.skip(used as int));
                match decode(s.skip(used as int)) {
                    Some(rest) => {
                        let fs = seq![f] + rest.frames;
                        assert forall|i: int| 0 <= i < fs.len() implies wire_frame(
                            #[trigger] fs[i],
                            MAX_DEPTH as nat,
                        ) by {
                            if i > 0 {
                                assert(fs[i] == rest.frames[i - 1]);
                            }
                        }
                    },
                    None => {},
                }
            },
            _ => {},
        }
    }
}

} // verus!
