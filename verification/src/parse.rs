//! The wire codec: frames, their canonical byte encoding, and the decoder that reads
//! complete frames from a buffer and reports an unfinished tail.
use crate::bytes::{
    append_bytes, bytes_eq, copy_bytes, decimal, parse_i64, parse_int_i64, parse_nat_u64, parse_u64,
    push_decimal, push_signed_decimal, signed_decimal,
};
use vstd::prelude::*;
use vstd::slice::slice_subrange;
use vstd::std_specs::cmp::PartialEqSpecImpl;

verus! {

/// How many arrays may stand inside one another in a frame that the decoder accepts.
pub const MAX_DEPTH: usize = 32;

/// The kind of a frame, as its first byte on the wire selects it.
#[derive(Debug, Clone, Copy, PartialEq, Eq, Structural)]
pub enum RespType {
    SimpleString,
    Error,
    Integer,
    BulkString,
    Array,
    /// No frame starts with this byte.
    Unknown,
}

/// The kind that the tag byte `b` selects.
pub open spec fn type_of_tag(b: u8) -> RespType {
    if b == 43 {
        RespType::SimpleString
    } else if b == 45 {
        RespType::Error
    } else if b == 58 {
        RespType::Integer
    } else if b == 36 {
        RespType::BulkString
    } else if b == 42 {
        RespType::Array
    } else {
        RespType::Unknown
    }
}

/// The tag byte of a kind: `+`, `-`, `:`, `$` or `*`, and a zero byte for `Unknown`.
pub open spec fn tag_of_type(t: RespType) -> u8 {
    match t {
        RespType::SimpleString => 43,
        RespType::Error => 45,
        RespType::Integer => 58,
        RespType::BulkString => 36,
        RespType::Array => 42,
        RespType::Unknown => 0,
    }
}

impl From<u8> for RespType {
    fn from(val: u8) -> (out: RespType) {
        if val == 43 {
            RespType::SimpleString
        } else if val == 45 {
            RespType::Error
        } else if val == 58 {
            RespType::Integer
        } else if val == 36 {
            RespType::BulkString
        } else if val == 42 {
            RespType::Array
        } else {
            RespType::Unknown
        }
    }
}

impl vstd::std_specs::convert::FromSpecImpl<u8> for RespType {
    open spec fn obeys_from_spec() -> bool {
        true
    }

    open spec fn from_spec(val: u8) -> RespType {
        type_of_tag(val)
    }
}

impl From<RespType> for u8 {
    fn from(val: RespType) -> (out: u8) {
        match val {
            RespType::SimpleString => 43,
            RespType::Error => 45,
            RespType::Integer => 58,
            RespType::BulkString => 36,
            RespType::Array => 42,
            RespType::Unknown => 0,
        }
    }
}

impl vstd::std_specs::convert::FromSpecImpl<RespType> for u8 {
    open spec fn obeys_from_spec() -> bool {
        true
    }

    open spec fn from_spec(val: RespType) -> u8 {
        tag_of_type(val)
    }
}

/// A frame as a mathematical value.
pub enum Frame {
    /// A line of text without a line break in it.
    SimpleString(Seq<u8>),
    /// A line of text that reports a failure.
    Error(Seq<u8>),
    /// A signed integer.
    Integer(int),
    /// A binary-safe string, or the null string.
    BulkString(Option<Seq<u8>>),
    /// A sequence of frames sent as one.
    Array(Seq<Frame>),
    /// Several independent frames read from one buffer; never sent as such.
    Batch(Seq<Frame>),
}

/// A frame of the wire protocol.
#[derive(Debug)]
pub enum RespData {
    SimpleString(Vec<u8>),
    Error(Vec<u8>),
    Integer(i64),
    /// `None` is the null string.
    BulkString(Option<Vec<u8>>),
    Array(Vec<RespData>),
    /// The frames that one buffer held, in order.
    RequestArray(Vec<RespData>),
}

/// The frame that `d` stands for.
pub open spec fn frame_of(d: RespData) -> Frame
    decreases d,
{
    match d {
        RespData::SimpleString(t) => Frame::SimpleString(t@),
        RespData::Error(t) => Frame::Error(t@),
        RespData::Integer(i) => Frame::Integer(i as int),
        RespData::BulkString(Some(b)) => Frame::BulkString(Some(b@)),
        RespData::BulkString(None) => Frame::BulkString(None),
        RespData::Array(v) => Frame::Array(
            Seq::new(
                v@.len(),
                |i: int|
                    if 0 <= i < v@.len() {
                        frame_of(v@[i])
                    } else {
                        Frame::BulkString(None)
                    },
            ),
        ),
        RespData::RequestArray(v) => Frame::Batch(
            Seq::new(
                v@.len(),
                |i: int|
                    if 0 <= i < v@.len() {
                        frame_of(v@[i])
                    } else {
                        Frame::BulkString(None)
                    },
            ),
        ),
    }
}

/// The frames that a sequence of values stands for.
pub open spec fn frames_of(v: Seq<RespData>) -> Seq<Frame> {
    Seq::new(v.len(), |i: int| frame_of(v[i]))
}

impl View for RespData {
    type V = Frame;

    open spec fn view(&self) -> Frame {
        frame_of(*self)
    }
}

/// The view of an array, and of a batch, is made of the views of its elements.
pub proof fn lemma_view_elements(v: Vec<RespData>)
    ensures
        RespData::Array(v)@ == Frame::Array(frames_of(v@)),
        RespData::RequestArray(v)@ == Frame::Batch(frames_of(v@)),
{
    assert(RespData::Array(v)@->Array_0 =~= frames_of(v@));
    assert(RespData::RequestArray(v)@->Batch_0 =~= frames_of(v@));
}

/// The two bytes that end a line.
pub open spec fn crlf() -> Seq<u8> {
    seq![13u8, 10u8]
}

/// The canonical encoding of a frame. A batch is the concatenation of its frames.
pub open spec fn encode(f: Frame) -> Seq<u8>
    decreases f, 0nat,
{
    match f {
        Frame::SimpleString(t) => seq![43u8] + t + crlf(),
        Frame::Error(t) => seq![45u8] + t + crlf(),
        Frame::Integer(i) => seq![58u8] + signed_decimal(i) + crlf(),
        Frame::BulkString(Some(b)) => seq![36u8] + decimal(b.len()) + crlf() + b + crlf(),
        Frame::BulkString(None) => seq![36u8, 45u8, 49u8, 13u8, 10u8],
        Frame::Array(fs) => seq![42u8] + decimal(fs.len()) + crlf() + encode_all(fs),
        Frame::Batch(fs) => encode_all(fs),
    }
}

/// The encodings of `fs`, one after the other.
pub open spec fn encode_all(fs: Seq<Frame>) -> Seq<u8>
    decreases fs, 1nat,
{
    if fs.len() == 0 {
        Seq::<u8>::empty()
    } else {
        encode(fs.first()) + encode_all(fs.drop_first())
    }
}

/// Encoding one sequence after another is encoding the two as one.
pub proof fn lemma_encode_all_concat(a: Seq<Frame>, b: Seq<Frame>)
    ensures
        encode_all(a + b) == encode_all(a) + encode_all(b),
    decreases a.len(),
{
    if a.len() == 0 {
        assert(a + b =~= b);
        assert(encode_all(a) + encode_all(b) =~= encode_all(b));
    } else {
        assert((a + b).first() == a.first());
        assert((a + b).drop_first() =~= a.drop_first() + b);
        lemma_encode_all_concat(a.drop_first(), b);
        assert(encode(a.first()) + (encode_all(a.drop_first()) + encode_all(b)) =~= (encode(
            a.first(),
        ) + encode_all(a.drop_first())) + encode_all(b));
    }
}

/// Encoding a sequence with one more frame at its end.
pub proof fn lemma_encode_all_push(a: Seq<Frame>, f: Frame)
    ensures
        encode_all(a.push(f)) == encode_all(a) + encode(f),
{
    lemma_encode_all_concat(a, seq![f]);
    assert(a.push(f) =~= a + seq![f]);
    assert(seq![f].drop_first() =~= Seq::<Frame>::empty());
    assert(seq![f].first() == f);
    assert(encode_all(seq![f].drop_first()) =~= Seq::<u8>::empty());
    assert(encode_all(seq![f]) =~= encode(f));
}

/// What reading one item from the front of a buffer gives.
pub enum Parse<T> {
    /// The item, and the number of bytes it took.
    Complete(T, nat),
    /// The buffer ends before the item does.
    Incomplete,
    /// The bytes are not the start of any item.
    Invalid,
}

/// What reading one frame from the front of a buffer gives.
#[derive(Debug)]
pub enum Parsed {
    /// The frame, and the number of bytes it took.
    Complete(RespData, usize),
    /// The buffer ends before the frame does.
    Incomplete,
    /// The bytes are not the start of any frame.
    Invalid,
}

impl View for Parsed {
    type V = Parse<Frame>;

    open spec fn view(&self) -> Parse<Frame> {
        match self {
            Parsed::Complete(d, used) => Parse::Complete(d@, *used as nat),
            Parsed::Incomplete => Parse::Incomplete,
            Parsed::Invalid => Parse::Invalid,
        }
    }
}

/// Whether a line break starts at `j`.
pub open spec fn crlf_at(s: Seq<u8>, j: int) -> bool {
    0 <= j && j + 1 < s.len() && s[j] == 13 && s[j + 1] == 10
}

/// The place of the first line break at or after `from`.
pub open spec fn find_crlf(s: Seq<u8>, from: int) -> Option<int>
    decreases s.len() - from,
{
    if from < 0 || from + 1 >= s.len() {
        None
    } else if s[from] == 13 && s[from + 1] == 10 {
        Some(from)
    } else {
        find_crlf(s, from + 1)
    }
}

/// The text between the tag byte and the first line break, and the length of the line
/// with its break.
pub open spec fn parse_line(s: Seq<u8>) -> Parse<Seq<u8>> {
    match find_crlf(s, 1) {
        Some(k) => Parse::Complete(s.subrange(1, k), (k + 2) as nat),
        None => Parse::Incomplete,
    }
}

/// Reads a simple string: the text of the first line.
pub open spec fn parse_simple_string_spec(s: Seq<u8>) -> Parse<Frame> {
    match parse_line(s) {
        Parse::Complete(t, used) => Parse::Complete(Frame::SimpleString(t), used),
        Parse::Incomplete => Parse::Incomplete,
        Parse::Invalid => Parse::Invalid,
    }
}

/// Reads an error: the text of the first line.
pub open spec fn parse_error_spec(s: Seq<u8>) -> Parse<Frame> {
    match parse_line(s) {
        Parse::Complete(t, used) => Parse::Complete(Frame::Error(t), used),
        Parse::Incomplete => Parse::Incomplete,
        Parse::Invalid => Parse::Invalid,
    }
}

/// Reads an integer: the first line, which must be a signed decimal number of 64 bits.
pub open spec fn parse_integer_spec(s: Seq<u8>) -> Parse<Frame> {
    match parse_line(s) {
        Parse::Complete(t, used) => match parse_int_i64(t) {
            Some(i) => Parse::Complete(Frame::Integer(i as int), used),
            None => Parse::Invalid,
        },
        Parse::Incomplete => Parse::Incomplete,
        Parse::Invalid => Parse::Invalid,
    }
}

/// Reads a bulk string: a line with the length, that many bytes, and a line break. The
/// length `-1` stands for the null string, which has no bytes and no second line break.
/// Fewer bytes than the length announces are an unfinished frame, not a malformed one.
pub open spec fn parse_bulk_string_spec(s: Seq<u8>) -> Parse<Frame> {
    match parse_line(s) {
        Parse::Complete(t, used) => if t == seq![45u8, 49u8] {
            Parse::Complete(Frame::BulkString(None), used)
        } else {
            match parse_nat_u64(t) {
                Some(n) => if s.len() < used + n + 2 {
                    Parse::Incomplete
                } else if s[used + n] == 13 && s[used + n + 1] == 10 {
                    Parse::Complete(
                        Frame::BulkString(Some(s.subrange(used as int, used + n))),
                        (used + n + 2) as nat,
                    )
                } else {
                    Parse::Invalid
                },
                None => Parse::Invalid,
            }
        },
        Parse::Incomplete => Parse::Incomplete,
        Parse::Invalid => Parse::Invalid,
    }
}

/// Puts `head` in front of what was read after it.
pub open spec fn prepend(head: Seq<Frame>, used: nat, tail: Parse<Seq<Frame>>) -> Parse<
    Seq<Frame>,
> {
    match tail {
        Parse::Complete(fs, more) => Parse::Complete(head + fs, used + more),
        Parse::Incomplete => Parse::Incomplete,
        Parse::Invalid => Parse::Invalid,
    }
}

/// The array of the elements that were read after a header line of `used` bytes.
pub open spec fn array_of(used: nat, elements: Parse<Seq<Frame>>) -> Parse<Frame> {
    match elements {
        Parse::Complete(fs, more) => Parse::Complete(Frame::Array(fs), used + more),
        Parse::Incomplete => Parse::Incomplete,
        Parse::Invalid => Parse::Invalid,
    }
}

/// Reads one frame of the kind `t`, in which arrays may nest `depth` deep.
pub open spec fn parse_as(s: Seq<u8>, t: RespType, depth: nat) -> Parse<Frame>
    decreases depth, 1nat, 0nat,
{
    match t {
        RespType::SimpleString => parse_simple_string_spec(s),
        RespType::Error => parse_error_spec(s),
        RespType::Integer => parse_integer_spec(s),
        RespType::BulkString => parse_bulk_string_spec(s),
        RespType::Array => parse_array_spec(s, depth),
        RespType::Unknown => Parse::Invalid,
    }
}

/// Reads an array: a line with the number of elements, then that many frames. An array
/// where none may stand (`depth` is 0) is malformed.
pub open spec fn parse_array_spec(s: Seq<u8>, depth: nat) -> Parse<Frame>
    decreases depth, 0nat, 0nat,
{
    if depth == 0 {
        Parse::Invalid
    } else {
        match parse_line(s) {
            Parse::Complete(t, used) => match parse_nat_u64(t) {
                Some(n) => array_of(
                    used,
                    parse_elements(s.skip(used as int), n as nat, (depth - 1) as nat),
                ),
                None => Parse::Invalid,
            },
            Parse::Incomplete => Parse::Incomplete,
            Parse::Invalid => Parse::Invalid,
        }
    }
}

/// Reads one frame from the front of `s`; its first byte says of which kind.
pub open spec fn parse_frame(s: Seq<u8>, depth: nat) -> Parse<Frame>
    decreases depth, 2nat, 0nat,
{
    if s.len() == 0 {
        Parse::Incomplete
    } else {
        parse_as(s, type_of_tag(s[0]), depth)
    }
}

/// Reads `n` frames, one after the other.
pub open spec fn parse_elements(s: Seq<u8>, n: nat, depth: nat) -> Parse<Seq<Frame>>
    decreases depth, 3nat, n,
{
    if n == 0 {
        Parse::Complete(Seq::<Frame>::empty(), 0)
    } else {
        match parse_frame(s, depth) {
            Parse::Complete(f, used) => prepend(
                seq![f],
                used,
                parse_elements(s.skip(used as int), (n - 1) as nat, depth),
            ),
            Parse::Incomplete => Parse::Incomplete,
            Parse::Invalid => Parse::Invalid,
        }
    }
}


/// What the decoder makes of a buffer.
pub struct Decoding {
    /// The complete frames at the front of the buffer, in order.
    pub frames: Seq<Frame>,
    /// The number of bytes that those frames took.
    pub consumed: nat,
    /// Whether the bytes after them are the start of a frame that has not ended yet.
    pub incomplete: bool,
}

/// Puts `head` in front of what was decoded after it.
pub open spec fn prepend_decoding(head: Seq<Frame>, used: nat, tail: Option<Decoding>) -> Option<
    Decoding,
> {
    match tail {
        Some(d) => Some(
            Decoding {
                frames: head + d.frames,
                consumed: used + d.consumed,
                incomplete: d.incomplete,
            },
        ),
        None => None,
    }
}

/// Reads every complete frame from the front of `s`. `None` where the bytes after the
/// last complete frame cannot start a frame.
pub open spec fn decode(s: Seq<u8>) -> Option<Decoding>
    decreases s.len(),
    via decode_decreases
{
    if s.len() == 0 {
        Some(Decoding { frames: Seq::empty(), consumed: 0, incomplete: false })
    } else {
        match parse_frame(s, MAX_DEPTH as nat) {
            Parse::Complete(f, used) => prepend_decoding(
                seq![f],
                used,
                decode(s.skip(used as int)),
            ),
            Parse::Incomplete => Some(
                Decoding { frames: Seq::empty(), consumed: 0, incomplete: true },
            ),
            Parse::Invalid => None,
        }
    }
}

#[via_fn]
proof fn decode_decreases(s: Seq<u8>) {
    if s.len() != 0 {
        lemma_parse_frame_used(s, MAX_DEPTH as nat);
    }
}

/// Reading one or more frames is reading the first and then the others.
pub proof fn lemma_parse_elements_unfold(s: Seq<u8>, n: nat, depth: nat)
    requires
        n > 0,
    ensures
        parse_elements(s, n, depth) == (match parse_frame(s, depth) {
            Parse::Complete(f, used) => prepend(
                seq![f],
                used,
                parse_elements(s.skip(used as int), (n - 1) as nat, depth),
            ),
            Parse::Incomplete => Parse::Incomplete,
            Parse::Invalid => Parse::Invalid,
        }),
        s.len() == 0 ==> parse_frame(s, depth) is Incomplete,
        s.len() > 0 ==> parse_frame(s, depth) == parse_as(s, type_of_tag(s[0]), depth),
{
}

/// A line break that `find_crlf` finds lies at or after `from`, inside `s`, and no line
/// break starts between `from` and it.
pub proof fn lemma_find_crlf(s: Seq<u8>, from: int)
    requires
        0 <= from,
    ensures
        match find_crlf(s, from) {
            Some(k) => {
                &&& from <= k
                &&& k + 1 < s.len()
                &&& crlf_at(s, k)
                &&& forall|j: int| from <= j < k ==> !crlf_at(s, j)
            },
            None => forall|j: int| from <= j ==> !crlf_at(s, j),
        },
    decreases s.len() - from,
{
    if from + 1 >= s.len() {
    } else if s[from] == 13 && s[from + 1] == 10 {
    } else {
        lemma_find_crlf(s, from + 1);
    }
}

/// A line takes three bytes at least, the tag and the line break, and no more than the
/// buffer holds; it is never malformed.
pub proof fn lemma_parse_line_used(s: Seq<u8>)
    ensures
        parse_line(s) matches Parse::Complete(t, used) ==> 3 <= used <= s.len() && t.len() + 3
            == used,
        !(parse_line(s) is Invalid),
{
    lemma_find_crlf(s, 1);
}

/// A frame that was read took at least one byte and no more than the buffer holds.
pub proof fn lemma_parse_as_used(s: Seq<u8>, t: RespType, depth: nat)
    ensures
        parse_as(s, t, depth) matches Parse::Complete(f, used) ==> 0 < used <= s.len(),
    decreases depth, 1nat, 0nat,
{
    lemma_parse_line_used(s);
    match t {
        RespType::Array => {
            if depth > 0 {
                match parse_line(s) {
                    Parse::Complete(text, used) => match parse_nat_u64(text) {
                        Some(n) => {
                            lemma_parse_elements_used(
                                s.skip(used as int),
                                n as nat,
                                (depth - 1) as nat,
                            );
                        },
                        None => {},
                    },
                    _ => {},
                }
            }
        },
        _ => {},
    }
}

/// A frame that was read took at least one byte and no more than the buffer holds.
pub proof fn lemma_parse_frame_used(s: Seq<u8>, depth: nat)
    ensures
        parse_frame(s, depth) matches Parse::Complete(f, used) ==> 0 < used <= s.len(),
    decreases depth, 2nat, 0nat,
{
    if s.len() > 0 {
        lemma_parse_as_used(s, type_of_tag(s[0]), depth);
    }
}

/// The frames that were read are as many as were asked for, and took no more bytes than
/// the buffer holds.
pub proof fn lemma_parse_elements_used(s: Seq<u8>, n: nat, depth: nat)
    ensures
        parse_elements(s, n, depth) matches Parse::Complete(fs, used) ==> used <= s.len()
            && fs.len() == n,
    decreases depth, 3nat, n,
{
    if n > 0 {
        lemma_parse_frame_used(s, depth);
        match parse_frame(s, depth) {
            Parse::Complete(f, used) => {
                lemma_parse_elements_used(s.skip(used as int), (n - 1) as nat, depth);
            },
            _ => {},
        }
    }
}

/// One top-level frame with its kind, or the batch that one buffer held with the kind of
/// its first byte.
#[derive(Debug)]
pub struct Resp {
    pub data_type: RespType,
    pub data: RespData,
}

/// What `Resp::parse` made of a buffer.
#[derive(Debug)]
pub struct Decoded {
    /// The batch of the complete frames, in order, under the kind of the buffer's first
    /// byte.
    pub resp: Resp,
    /// The number of bytes that the complete frames took; the caller keeps the rest.
    pub consumed: usize,
    /// Whether the bytes that are left are the start of a frame that has not ended yet.
    pub incomplete: bool,
}

/// The kind that the first byte of `s` selects, `Unknown` where `s` is empty.
pub open spec fn first_type(s: Seq<u8>) -> RespType {
    if s.len() == 0 {
        RespType::Unknown
    } else {
        type_of_tag(s[0])
    }
}

/// Whether `out` is what `decode` makes of `s`.
pub open spec fn decoded_as(out: Option<Decoded>, s: Seq<u8>) -> bool {
    match decode(s) {
        Some(d) => {
            &&& out matches Some(r)
            &&& r.resp.data@ == Frame::Batch(d.frames)
            &&& r.resp.data_type == first_type(s)
            &&& r.consumed == d.consumed
            &&& r.incomplete == d.incomplete
        },
        None => out is None,
    }
}

/// Finds the first line break at or after `from`.
pub fn find_line_end(s: &[u8], from: usize) -> (out: Option<usize>)
    ensures
        match find_crlf(s@, from as int) {
            Some(k) => out == Some(k as usize) && from <= k && k + 1 < s.len(),
            None => out is None,
        },
{
    proof {
        lemma_find_crlf(s@, from as int);
    }
    if from >= s.len() {
        return None;
    }
    let mut i: usize = from;
    while i + 1 < s.len()
        invariant
            from <= i < s.len(),
            find_crlf(s@, from as int) == find_crlf(s@, i as int),
        decreases s.len() - i,
    {
        if s[i] == 13 && s[i + 1] == 10 {
            return Some(i);
        }
        i = i + 1;
    }
    None
}

fn write_all(v: &Vec<RespData>, out: &mut Vec<u8>)
    ensures
        final(out)@ == old(out)@ + encode_all(frames_of(v@)),
    decreases v, 0nat,
{
    let mut i: usize = 0;
    while i < v.len()
        invariant
            i <= v.len(),
            out@ == old(out)@ + encode_all(frames_of(v@).take(i as int)),
        decreases v.len() - i,
    {
        v[i].write_to(out);
        proof {
            let fs = frames_of(v@);
            assert(fs.take(i + 1) =~= fs.take(i as int).push(fs[i as int]));
            lemma_encode_all_push(fs.take(i as int), fs[i as int]);
        }
        i = i + 1;
    }
    assert(frames_of(v@).take(v.len() as int) =~= frames_of(v@));
}

fn copy_all(v: &Vec<RespData>) -> (out: Vec<RespData>)
    ensures
        frames_of(out@) == frames_of(v@),
    decreases v, 0nat,
{
    let mut out: Vec<RespData> = Vec::new();
    let mut i: usize = 0;
    while i < v.len()
        invariant
            i <= v.len(),
            out.len() == i,
            forall|j: int| 0 <= j < i ==> out@[j]@ == v@[j]@,
        decreases v.len() - i,
    {
        out.push(v[i].clone());
        i = i + 1;
    }
    assert(frames_of(out@) =~= frames_of(v@));
    out
}

fn same_frames(a: &Vec<RespData>, b: &Vec<RespData>) -> (out: bool)
    ensures
        out == (frames_of(a@) == frames_of(b@)),
    decreases a, 0nat,
{
    if a.len() != b.len() {
        assert(frames_of(a@).len() != frames_of(b@).len());
        return false;
    }
    let mut i: usize = 0;
    while i < a.len()
        invariant
            i <= a.len(),
            a.len() == b.len(),
            forall|j: int| 0 <= j < i ==> a@[j]@ == b@[j]@,
        decreases a.len() - i,
    {
        if !a[i].eq(&b[i]) {
            assert(frames_of(a@)[i as int] != frames_of(b@)[i as int]);
            return false;
        }
        i = i + 1;
    }
    assert(frames_of(a@) =~= frames_of(b@));
    true
}

impl PartialEq for RespData {
    /// Two frames are equal where they are of the same kind and hold the same.
    fn eq(&self, other: &Self) -> (out: bool)
        decreases self, 1nat,
    {
        match (self, other) {
            (RespData::SimpleString(a), RespData::SimpleString(b)) => bytes_eq(
                a.as_slice(),
                b.as_slice(),
            ),
            (RespData::Error(a), RespData::Error(b)) => bytes_eq(a.as_slice(), b.as_slice()),
            (RespData::Integer(a), RespData::Integer(b)) => *a == *b,
            (RespData::BulkString(Some(a)), RespData::BulkString(Some(b))) => bytes_eq(
                a.as_slice(),
                b.as_slice(),
            ),
            (RespData::BulkString(None), RespData::BulkString(None)) => true,
            (RespData::Array(a), RespData::Array(b)) => {
                proof {
                    lemma_view_elements(*a);
                    lemma_view_elements(*b);
                }
                same_frames(a, b)
            },
            (RespData::RequestArray(a), RespData::RequestArray(b)) => {
                proof {
                    lemma_view_elements(*a);
                    lemma_view_elements(*b);
                }
                same_frames(a, b)
            },
            _ => false,
        }
    }
}

impl PartialEqSpecImpl for RespData {
    open spec fn obeys_eq_spec() -> bool {
        true
    }

    open spec fn eq_spec(&self, other: &Self) -> bool {
        self@ == other@
    }
}

impl Clone for RespData {
    fn clone(&self) -> (out: RespData)
        ensures
            out@ == self@,
        decreases self, 1nat,
    {
        match self {
            RespData::SimpleString(t) => RespData::SimpleString(copy_bytes(t.as_slice())),
            RespData::Error(t) => RespData::Error(copy_bytes(t.as_slice())),
            RespData::Integer(i) => RespData::Integer(*i),
            RespData::BulkString(Some(b)) => RespData::BulkString(Some(copy_bytes(b.as_slice()))),
            RespData::BulkString(None) => RespData::BulkString(None),
            RespData::Array(v) => {
                let items = copy_all(v);
                proof {
                    lemma_view_elements(*v);
                    lemma_view_elements(items);
                }
                RespData::Array(items)
            },
            RespData::RequestArray(v) => {
                let items = copy_all(v);
                proof {
                    lemma_view_elements(*v);
                    lemma_view_elements(items);
                }
                RespData::RequestArray(items)
            },
        }
    }
}

impl RespData {
    /// Appends the canonical encoding of this frame to `out`.
    pub fn write_to(&self, out: &mut Vec<u8>)
        ensures
            final(out)@ == old(out)@ + encode(self@),
        decreases self, 1nat,
    {
        match self {
            RespData::SimpleString(t) => {
                out.push(43u8);
                append_bytes(out, t.as_slice());
                out.push(13u8);
                out.push(10u8);
                assert(out@ =~= old(out)@ + encode(self@));
            },
            RespData::Error(t) => {
                out.push(45u8);
                append_bytes(out, t.as_slice());
                out.push(13u8);
                out.push(10u8);
                assert(out@ =~= old(out)@ + encode(self@));
            },
            RespData::Integer(i) => {
                out.push(58u8);
                push_signed_decimal(out, *i);
                out.push(13u8);
                out.push(10u8);
                assert(out@ =~= old(out)@ + encode(self@));
            },
            RespData::BulkString(Some(b)) => {
                out.push(36u8);
                push_decimal(out, b.len() as u64);
                out.push(13u8);
                out.push(10u8);
                append_bytes(out, b.as_slice());
                out.push(13u8);
                out.push(10u8);
                assert(out@ =~= old(out)@ + encode(self@));
            },
            RespData::BulkString(None) => {
                out.push(36u8);
                out.push(45u8);
                out.push(49u8);
                out.push(13u8);
                out.push(10u8);
                assert(out@ =~= old(out)@ + encode(self@));
            },
            RespData::Array(v) => {
                proof {
                    lemma_view_elements(*v);
                }
                out.push(42u8);
                push_decimal(out, v.len() as u64);
                out.push(13u8);
                out.push(10u8);
                write_all(v, out);
                assert(out@ =~= old(out)@ + encode(self@));
            },
            RespData::RequestArray(v) => {
                proof {
                    lemma_view_elements(*v);
                }
                write_all(v, out);
            },
        }
    }

    /// The canonical encoding of the array that holds `items`.
    pub fn array_bytes(items: &Vec<RespData>) -> (out: Vec<u8>)
        ensures
            out@ == encode(Frame::Array(frames_of(items@))),
    {
        let mut out: Vec<u8> = Vec::new();
        out.push(42u8);
        push_decimal(&mut out, items.len() as u64);
        out.push(13u8);
        out.push(10u8);
        write_all(items, &mut out);
        assert(out@ =~= encode(Frame::Array(frames_of(items@))));
        out
    }

    /// The canonical encoding of this frame.
    pub fn as_bytes(&self) -> (out: Vec<u8>)
        ensures
            out@ == encode(self@),
    {
        let mut out: Vec<u8> = Vec::new();
        self.write_to(&mut out);
        assert(Seq::<u8>::empty() + encode(self@) =~= encode(self@));
        out
    }

    /// Reads one frame of the kind `data_type` from the front of `chars`; arrays may nest
    /// `depth` deep in it.
    pub fn parse(chars: &[u8], data_type: &RespType, depth: usize) -> (out: Parsed)
        ensures
            out@ == parse_as(chars@, *data_type, depth as nat),
            out matches Parsed::Complete(_, used) ==> 0 < used <= chars.len(),
        decreases depth, 1nat,
    {
        match data_type {
            RespType::SimpleString => RespData::parse_simple_string(chars),
            RespType::Error => RespData::parse_error(chars),
            RespType::Integer => RespData::parse_integer(chars),
            RespType::BulkString => RespData::parse_bulk_string(chars),
            RespType::Array => RespData::parse_array(chars, depth),
            RespType::Unknown => Parsed::Invalid,
        }
    }

    /// Reads a simple string from the front of `chars`.
    pub fn parse_simple_string(chars: &[u8]) -> (out: Parsed)
        ensures
            out@ == parse_simple_string_spec(chars@),
            out matches Parsed::Complete(_, used) ==> 0 < used <= chars.len(),
    {
        match find_line_end(chars, 1) {
            Some(k) => {
                let text = copy_bytes(slice_subrange(chars, 1, k));
                Parsed::Complete(RespData::SimpleString(text), k + 2)
            },
            None => Parsed::Incomplete,
        }
    }

    /// Reads an error from the front of `chars`.
    pub fn parse_error(chars: &[u8]) -> (out: Parsed)
        ensures
            out@ == parse_error_spec(chars@),
            out matches Parsed::Complete(_, used) ==> 0 < used <= chars.len(),
    {
        match find_line_end(chars, 1) {
            Some(k) => {
                let text = copy_bytes(slice_subrange(chars, 1, k));
                Parsed::Complete(RespData::Error(text), k + 2)
            },
            None => Parsed::Incomplete,
        }
    }

    /// Reads an integer from the front of `chars`.
    pub fn parse_integer(chars: &[u8]) -> (out: Parsed)
        ensures
            out@ == parse_integer_spec(chars@),
            out matches Parsed::Complete(_, used) ==> 0 < used <= chars.len(),
    {
        match find_line_end(chars, 1) {
            Some(k) => match parse_i64(slice_subrange(chars, 1, k)) {
                Some(i) => Parsed::Complete(RespData::Integer(i), k + 2),
                None => Parsed::Invalid,
            },
            None => Parsed::Incomplete,
        }
    }

    /// Reads a bulk string, or the null string, from the front of `serialized`.
    pub fn parse_bulk_string(serialized: &[u8]) -> (out: Parsed)
        ensures
            out@ == parse_bulk_string_spec(serialized@),
            out matches Parsed::Complete(_, used) ==> 0 < used <= serialized.len(),
    {
        match find_line_end(serialized, 1) {
            Some(k) => {
                let text = slice_subrange(serialized, 1, k);
                let used: usize = k + 2;
                if text.len() == 2 && text[0] == 45 && text[1] == 49 {
                    assert(text@ =~= seq![45u8, 49u8]);
                    return Parsed::Complete(RespData::BulkString(None), used);
                }
                assert(text@ != seq![45u8, 49u8]) by {
                    if text@ == seq![45u8, 49u8] {
                        assert(seq![45u8, 49u8].len() == 2);
                        assert(seq![45u8, 49u8][0] == 45u8);
                        assert(seq![45u8, 49u8][1] == 49u8);
                    }
                }
                match parse_u64(text) {
                    Some(n) => {
                        let left: u64 = (serialized.len() - used) as u64;
                        if left < 2 || left - 2 < n {
                            return Parsed::Incomplete;
                        }
                        let size: usize = n as usize;
                        if serialized[used + size] == 13 && serialized[used + size + 1] == 10 {
                            let data = copy_bytes(slice_subrange(serialized, used, used + size));
                            Parsed::Complete(RespData::BulkString(Some(data)), used + size + 2)
                        } else {
                            Parsed::Invalid
                        }
                    },
                    None => Parsed::Invalid,
                }
            },
            None => Parsed::Incomplete,
        }
    }

    /// Reads an array from the front of `serialized`; arrays may nest `depth - 1` deep in
    /// it, and where `depth` is 0 no array is accepted.
    pub fn parse_array(serialized: &[u8], depth: usize) -> (out: Parsed)
        ensures
            out@ == parse_array_spec(serialized@, depth as nat),
            out matches Parsed::Complete(_, used) ==> 0 < used <= serialized.len(),
        decreases depth, 0nat,
    {
        if depth == 0 {
            return Parsed::Invalid;
        }
        let k: usize = match find_line_end(serialized, 1) {
            Some(k) => k,
            None => {
                return Parsed::Incomplete;
            },
        };
        let n: u64 = match parse_u64(slice_subrange(serialized, 1, k)) {
            Some(n) => n,
            None => {
                return Parsed::Invalid;
            },
        };
        let start: usize = k + 2;
        let ghost body = serialized@.skip(start as int);
        let ghost below = (depth - 1) as nat;
        let mut items: Vec<RespData> = Vec::new();
        let mut pos: usize = start;
        let mut left: u64 = n;
        proof {
            assert(Seq::<Frame>::empty() =~= frames_of(items@));
            match parse_elements(body, n as nat, below) {
                Parse::Complete(fs, more) => {
                    assert(frames_of(items@) + fs =~= fs);
                },
                _ => {},
            }
        }
        while left > 0
            invariant
                depth > 0,
                below == depth - 1,
                start <= pos <= serialized.len(),
                body == serialized@.skip(start as int),
                parse_array_spec(serialized@, depth as nat) == array_of(
                    start as nat,
                    parse_elements(body, n as nat, below),
                ),
                parse_elements(body, n as nat, below) == prepend(
                    frames_of(items@),
                    (pos - start) as nat,
                    parse_elements(serialized@.skip(pos as int), left as nat, below),
                ),
            decreases left,
        {
            let rest = slice_subrange(serialized, pos, serialized.len());
            assert(rest@ == serialized@.skip(pos as int));
            proof {
                lemma_parse_elements_unfold(rest@, left as nat, below);
            }
            if rest.len() == 0 {
                return Parsed::Incomplete;
            }
            let kind = RespType::from(rest[0]);
            match RespData::parse(rest, &kind, depth - 1) {
                Parsed::Complete(item, used) => {
                    proof {
                        assert(rest@.skip(used as int) =~= serialized@.skip(pos + used));
                        assert(frames_of(items@.push(item)) =~= frames_of(items@) + seq![item@]);
                        let tail = parse_elements(
                            serialized@.skip(pos + used),
                            (left - 1) as nat,
                            below,
                        );
                        match tail {
                            Parse::Complete(fs, more) => {
                                assert((frames_of(items@) + seq![item@]) + fs =~= frames_of(items@)
                                    + (seq![item@] + fs));
                            },
                            _ => {},
                        }
                    }
                    items.push(item);
                    pos = pos + used;
                    left = left - 1;
                },
                Parsed::Incomplete => {
                    return Parsed::Incomplete;
                },
                Parsed::Invalid => {
                    return Parsed::Invalid;
                },
            }
        }
        proof {
            lemma_view_elements(items);
            assert(frames_of(items@) + Seq::<Frame>::empty() =~= frames_of(items@));
        }
        Parsed::Complete(RespData::Array(items), pos)
    }

    /// The bytes that a simple string, an error or a bulk string holds.
    pub fn inside_value(&self) -> (out: Option<&Vec<u8>>)
        ensures
            match text_of(self@) {
                Some(t) => out matches Some(v) && v@ == t,
                None => out is None,
            },
    {
        match self {
            RespData::SimpleString(s) => Some(s),
            RespData::Error(e) => Some(e),
            RespData::BulkString(Some(b)) => Some(b),
            _ => None,
        }
    }
}

/// The bytes that a simple string, an error or a bulk string holds; no other frame holds
/// any.
pub open spec fn text_of(f: Frame) -> Option<Seq<u8>> {
    match f {
        Frame::SimpleString(t) => Some(t),
        Frame::Error(t) => Some(t),
        Frame::BulkString(Some(b)) => Some(b),
        _ => None,
    }
}

/// The bulk string that holds `data`.
pub open spec fn bulk(data: Seq<u8>) -> Frame {
    Frame::BulkString(Some(data))
}

/// The array of bulk strings that holds `words`, as a command is sent.
pub open spec fn command(words: Seq<Seq<u8>>) -> Frame {
    Frame::Array(Seq::new(words.len(), |i: int| bulk(words[i])))
}

/// The words as byte sequences.
pub open spec fn words_of(v: Seq<Vec<u8>>) -> Seq<Seq<u8>> {
    Seq::new(v.len(), |i: int| v[i]@)
}

impl RespData {
    /// A bulk string with a copy of `data`.
    pub fn new_bulk(data: &[u8]) -> (out: RespData)
        ensures
            out@ == bulk(data@),
    {
        RespData::BulkString(Some(copy_bytes(data)))
    }

    /// A simple string with a copy of `text`.
    pub fn new_simple_string(text: &[u8]) -> (out: RespData)
        ensures
            out@ == Frame::SimpleString(text@),
    {
        RespData::SimpleString(copy_bytes(text))
    }

    /// An error with a copy of `text`.
    pub fn new_error(text: &[u8]) -> (out: RespData)
        ensures
            out@ == Frame::Error(text@),
    {
        RespData::Error(copy_bytes(text))
    }

    /// An array of bulk strings, one for each of `words`.
    pub fn new_bulk_array(words: &Vec<Vec<u8>>) -> (out: RespData)
        ensures
            out@ == command(words_of(words@)),
    {
        let mut items: Vec<RespData> = Vec::new();
        let mut i: usize = 0;
        while i < words.len()
            invariant
                i <= words.len(),
                items.len() == i,
                forall|j: int| 0 <= j < i ==> items@[j]@ == bulk(words@[j]@),
            decreases words.len() - i,
        {
            items.push(RespData::new_bulk(words[i].as_slice()));
            i = i + 1;
        }
        proof {
            lemma_view_elements(items);
            assert(frames_of(items@) =~= command(words_of(words@))->Array_0);
        }
        RespData::Array(items)
    }
}

impl Resp {
    /// Decodes a buffer: every complete frame at its front, in order, as one batch, with
    /// the number of bytes they took and whether an unfinished frame follows. `None`
    /// where the bytes after the last complete frame cannot start a frame.
    pub fn parse(serialized: &[u8]) -> (out: Option<Decoded>)
        ensures
            decoded_as(out, serialized@),
            out matches Some(r) ==> r.consumed <= serialized.len(),
    {
        let data_type = if serialized.len() == 0 {
            RespType::Unknown
        } else {
            RespType::from(serialized[0])
        };
        let mut frames: Vec<RespData> = Vec::new();
        let mut pos: usize = 0;
        let mut incomplete: bool = false;
        proof {
            assert(serialized@.skip(0) =~= serialized@);
            match decode(serialized@) {
                Some(d) => {
                    assert(frames_of(frames@) + d.frames =~= d.frames);
                },
                None => {},
            }
        }
        while pos < serialized.len()
            invariant_except_break
                !incomplete,
                decode(serialized@) == prepend_decoding(
                    frames_of(frames@),
                    pos as nat,
                    decode(serialized@.skip(pos as int)),
                ),
            invariant
                pos <= serialized.len(),
            ensures
                pos <= serialized.len(),
                decode(serialized@) == Some(
                    Decoding {
                        frames: frames_of(frames@),
                        consumed: pos as nat,
                        incomplete: incomplete,
                    },
                ),
            decreases serialized.len() - pos,
        {
            let rest = slice_subrange(serialized, pos, serialized.len());
            assert(rest@ == serialized@.skip(pos as int));
            let kind = RespType::from(rest[0]);
            match RespData::parse(rest, &kind, MAX_DEPTH) {
                Parsed::Complete(item, used) => {
                    proof {
                        assert(rest@.skip(used as int) =~= serialized@.skip(pos + used));
                        assert(frames_of(frames@.push(item)) =~= frames_of(frames@) + seq![
                            item@,
                        ]);
                        match decode(serialized@.skip(pos + used)) {
                            Some(d) => {
                                assert((frames_of(frames@) + seq![item@]) + d.frames =~= frames_of(
                                    frames@,
                                ) + (seq![item@] + d.frames));
                            },
                            None => {},
                        }
                    }
                    frames.push(item);
                    pos = pos + used;
                },
                Parsed::Incomplete => {
                    incomplete = true;
                    assert(frames_of(frames@) + Seq::<Frame>::empty() =~= frames_of(frames@));
                    break;
                },
                Parsed::Invalid => {
                    return None;
                },
            }
        }
        proof {
            lemma_view_elements(frames);
        }
        Some(
            Decoded {
                resp: Resp { data_type, data: RespData::RequestArray(frames) },
                consumed: pos,
                incomplete,
            },
        )
    }
}

} // verus!
