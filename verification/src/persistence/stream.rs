//! The stream store: per key, entries in ascending order of their identifiers, appended
//! under identifiers that only grow, and read back by range.
use crate::bytes::{
    copy_bytes, decimal, is_digit, lemma_decimal_digits, lemma_parse_decimal, parse_nat_u32,
    parse_nat_u64, parse_u32, parse_u64, push_decimal,
};
use crate::parse::{bulk, frames_of, lemma_view_elements, Frame, RespData};
use crate::persistence::keys::{find_key, key_views, lemma_index_of, lemma_push_key};
use vstd::prelude::*;
use vstd::slice::slice_subrange;

verus! {

/// A stream entry as a mathematical value.
pub struct Entry {
    /// Milliseconds, then a sequence number.
    pub id: (u64, u32),
    /// Fields with their values, in the order in which they were given.
    pub pairs: Seq<(Seq<u8>, Seq<u8>)>,
}

/// One entry of a stream.
#[derive(Debug)]
pub struct StreamVal {
    /// Milliseconds, then a sequence number.
    pub id: (u64, u32),
    /// Fields with their values, in the order in which they were given; a field may occur
    /// more than once.
    pub pairs: Vec<(Vec<u8>, Vec<u8>)>,
}

/// Why an identifier or an append was refused.
#[derive(Debug, Clone, Copy, PartialEq, Eq, Structural)]
pub enum StreamError {
    /// The text is no identifier.
    ParseError,
    /// The identifier is not above the last one of the stream.
    IllegalId,
    /// The identifier is `0-0`.
    IdShouldBeHigher,
}

/// The pairs as byte sequences.
pub open spec fn pairs_of(v: Seq<(Vec<u8>, Vec<u8>)>) -> Seq<(Seq<u8>, Seq<u8>)> {
    Seq::new(v.len(), |i: int| (v[i].0@, v[i].1@))
}

impl View for StreamVal {
    type V = Entry;

    open spec fn view(&self) -> Entry {
        Entry { id: self.id, pairs: pairs_of(self.pairs@) }
    }
}

/// The entries that a sequence of values stands for.
pub open spec fn entries_of(v: Seq<StreamVal>) -> Seq<Entry> {
    Seq::new(v.len(), |i: int| v[i]@)
}

/// The order of identifiers: by milliseconds, then by sequence number.
pub open spec fn id_lt(a: (u64, u32), b: (u64, u32)) -> bool {
    a.0 < b.0 || (a.0 == b.0 && a.1 < b.1)
}

/// An identifier as a bound of a range, whose sequence number has 64 bits.
pub open spec fn wide(id: (u64, u32)) -> (u64, u64) {
    (id.0, id.1 as u64)
}

/// The order of range bounds, equal bounds included.
pub open spec fn bound_le(a: (u64, u64), b: (u64, u64)) -> bool {
    a.0 < b.0 || (a.0 == b.0 && a.1 <= b.1)
}

/// Whether the identifiers of `s` grow strictly from each entry to the next.
pub open spec fn increasing(s: Seq<Entry>) -> bool {
    forall|i: int, j: int| 0 <= i < j < s.len() ==> id_lt(#[trigger] s[i].id, #[trigger] s[j].id)
}

/// Whether every stream of `m` holds an entry, none with the identifier `0-0`, in
/// strictly ascending order.
pub open spec fn ordered(m: Map<Seq<u8>, Seq<Entry>>) -> bool {
    forall|k: Seq<u8>| #[trigger]
        m.contains_key(k) ==> m[k].len() > 0 && increasing(m[k]) && id_lt((0, 0), m[k][0].id)
}

/// The entries under `key`, none where the key is unknown.
pub open spec fn stream_of(m: Map<Seq<u8>, Seq<Entry>>, key: Seq<u8>) -> Seq<Entry> {
    if m.contains_key(key) {
        m[key]
    } else {
        Seq::empty()
    }
}

/// The identifier of the last entry under `key`.
pub open spec fn top_id(m: Map<Seq<u8>, Seq<Entry>>, key: Seq<u8>) -> Option<(u64, u32)> {
    if stream_of(m, key).len() > 0 {
        Some(stream_of(m, key).last().id)
    } else {
        None
    }
}

/// The text of an identifier: milliseconds, a dash, the sequence number.
pub open spec fn id_text(id: (u64, u32)) -> Seq<u8> {
    decimal(id.0 as nat) + seq![45u8] + decimal(id.1 as nat)
}

/// The place of the first dash at or after `from`.
pub open spec fn find_dash(s: Seq<u8>, from: int) -> Option<int>
    decreases s.len() - from,
{
    if from < 0 || from >= s.len() {
        None
    } else if s[from] == 45 {
        Some(from)
    } else {
        find_dash(s, from + 1)
    }
}

/// Reads `ms-seq`: a number of 64 bits, the first dash, a number of 32 bits.
pub open spec fn explicit_id(s: Seq<u8>) -> Option<(u64, u32)> {
    match find_dash(s, 0) {
        Some(k) => match (parse_nat_u64(s.take(k)), parse_nat_u32(s.skip(k + 1))) {
            (Some(ms), Some(seq)) => Some((ms, seq)),
            _ => None,
        },
        None => None,
    }
}

/// The sequence number that `ms-*` stands for: one more than that of the last entry where
/// it has the same milliseconds, else 0, and 1 where the milliseconds are 0. There is
/// none where the last entry has the same milliseconds and the greatest sequence number.
pub open spec fn next_sequence(ms: u64, top: Option<(u64, u32)>) -> Option<u32> {
    match top {
        Some((last_ms, last_seq)) => if last_ms == ms {
            if last_seq < u32::MAX {
                Some((last_seq + 1) as u32)
            } else {
                None
            }
        } else if ms == 0 {
            Some(1u32)
        } else {
            Some(0u32)
        },
        None => if ms == 0 {
            Some(1u32)
        } else {
            Some(0u32)
        },
    }
}

/// The identifier that `ms-*` asks for, where `ms` is the text before the dash, on a
/// stream whose last identifier is `top`.
pub open spec fn starred_sequence_id(ms: Seq<u8>, top: Option<(u64, u32)>) -> Result<
    (u64, u32),
    StreamError,
> {
    match parse_nat_u64(ms) {
        Some(ms) => match next_sequence(ms, top) {
            Some(seq) => Ok((ms, seq)),
            None => Err(StreamError::IllegalId),
        },
        None => Err(StreamError::ParseError),
    }
}

/// The identifier that the text `s` asks for, on a stream whose last identifier is `top`,
/// at the wall-clock time `now_ms`: `*` is the time with sequence number 0, `ms-*` has
/// its sequence number chosen, and `ms-seq` is taken as it stands.
pub open spec fn resolve_id(s: Seq<u8>, top: Option<(u64, u32)>, now_ms: u64) -> Result<
    (u64, u32),
    StreamError,
> {
    if s == seq![42u8] {
        Ok((now_ms, 0u32))
    } else {
        match find_dash(s, 0) {
            None => Err(StreamError::ParseError),
            Some(k) => if s.skip(k + 1) == seq![42u8] {
                starred_sequence_id(s.take(k), top)
            } else {
                match explicit_id(s) {
                    Some(id) => Ok(id),
                    None => Err(StreamError::ParseError),
                }
            },
        }
    }
}

/// The lower bound that the text `s` stands for: `-` is the least bound, `ms` alone has
/// the sequence number 0, and `ms-seq` is taken as it stands.
pub open spec fn range_start(s: Seq<u8>) -> Option<(u64, u64)> {
    if s == seq![45u8] {
        Some((0u64, 0u64))
    } else {
        match find_dash(s, 0) {
            None => match parse_nat_u64(s) {
                Some(ms) => Some((ms, 0u64)),
                None => None,
            },
            Some(k) => match (parse_nat_u64(s.take(k)), parse_nat_u64(s.skip(k + 1))) {
                (Some(ms), Some(seq)) => Some((ms, seq)),
                _ => None,
            },
        }
    }
}

/// The upper bound that the text `s` stands for: `+` is the greatest bound, `ms` alone
/// has the greatest sequence number, and `ms-seq` is taken as it stands.
pub open spec fn range_end(s: Seq<u8>) -> Option<(u64, u64)> {
    if s == seq![43u8] {
        Some((u64::MAX, u64::MAX))
    } else {
        match find_dash(s, 0) {
            None => match parse_nat_u64(s) {
                Some(ms) => Some((ms, u64::MAX)),
                None => None,
            },
            Some(k) => match (parse_nat_u64(s.take(k)), parse_nat_u64(s.skip(k + 1))) {
                (Some(ms), Some(seq)) => Some((ms, seq)),
                _ => None,
            },
        }
    }
}

/// Whether an append under `key` with the identifier `id` is accepted, and if not, why.
pub open spec fn insert_check(m: Map<Seq<u8>, Seq<Entry>>, key: Seq<u8>, id: (u64, u32)) -> Result<
    (),
    StreamError,
> {
    if id.0 == 0 && id.1 == 0 {
        Err(StreamError::IdShouldBeHigher)
    } else if top_id(m, key) is Some && !id_lt(top_id(m, key)->0, id) {
        Err(StreamError::IllegalId)
    } else {
        Ok(())
    }
}

/// Whether an entry has an identifier from `start` to `end`, both included; with
/// `to_end`, from `start` on.
pub open spec fn in_range(start: (u64, u64), end: (u64, u64), to_end: bool) -> spec_fn(
    Entry,
) -> bool {
    |e: Entry| bound_le(start, wide(e.id)) && (to_end || bound_le(wide(e.id), end))
}

/// The entries of `s` with an identifier from `start` to `end`, both included; with
/// `to_end`, every entry from `start` on.
pub open spec fn range_of(s: Seq<Entry>, start: (u64, u64), end: (u64, u64), to_end: bool) -> Seq<
    Entry,
> {
    s.filter(in_range(start, end, to_end))
}

/// The entries of `s` with an identifier above `after`.
pub open spec fn newer_than(s: Seq<Entry>, after: (u64, u32)) -> Seq<Entry> {
    s.filter(|e: Entry| id_lt(after, e.id))
}

/// Filtering one more element keeps it or leaves it out.
pub proof fn lemma_filter_step<A>(s: Seq<A>, pred: spec_fn(A) -> bool, i: int)
    requires
        0 <= i < s.len(),
    ensures
        s.take(i + 1).filter(pred) == if pred(s[i]) {
            s.take(i).filter(pred).push(s[i])
        } else {
            s.take(i).filter(pred)
        },
{
    reveal(Seq::filter);
    assert(s.take(i + 1).drop_last() =~= s.take(i));
}

/// Two conditions that agree on every element of a sequence keep the same elements.
pub proof fn lemma_filter_agree<A>(s: Seq<A>, p: spec_fn(A) -> bool, q: spec_fn(A) -> bool)
    requires
        forall|i: int| 0 <= i < s.len() ==> p(#[trigger] s[i]) == q(s[i]),
    ensures
        s.filter(p) == s.filter(q),
    decreases s.len(),
{
    reveal(Seq::filter);
    if s.len() > 0 {
        let head = s.drop_last();
        assert forall|i: int| 0 <= i < head.len() implies p(#[trigger] head[i]) == q(head[i]) by {
            assert(head[i] == s[i]);
        }
        lemma_filter_agree(head, p, q);
        assert(p(s[s.len() - 1]) == q(s[s.len() - 1]));
    }
}

/// A range that runs to the greatest bound is a range that runs to the last entry.
pub proof fn lemma_range_to_last(s: Seq<Entry>, start: (u64, u64))
    ensures
        range_of(s, start, (u64::MAX, u64::MAX), false) == range_of(
            s,
            start,
            (u64::MAX, u64::MAX),
            true,
        ),
{
    let end = (u64::MAX, u64::MAX);
    lemma_filter_agree(s, in_range(start, end, false), in_range(start, end, true));
}

fn find_dash_from(s: &[u8]) -> (out: Option<usize>)
    ensures
        match find_dash(s@, 0) {
            Some(k) => out == Some(k as usize) && 0 <= k < s.len(),
            None => out is None,
        },
{
    let mut i: usize = 0;
    while i < s.len()
        invariant
            i <= s.len(),
            find_dash(s@, 0) == find_dash(s@, i as int),
        decreases s.len() - i,
    {
        if s[i] == 45 {
            return Some(i);
        }
        i = i + 1;
    }
    None
}

fn is_one_byte(s: &[u8], b: u8) -> (out: bool)
    ensures
        out == (s@ == seq![b]),
{
    if s.len() == 1 && s[0] == b {
        assert(s@ =~= seq![b]);
        true
    } else {
        assert(s@ != seq![b]) by {
            if s@ == seq![b] {
                assert(seq![b].len() == 1);
                assert(seq![b][0] == b);
            }
        }
        false
    }
}

fn copy_pairs(v: &Vec<(Vec<u8>, Vec<u8>)>) -> (out: Vec<(Vec<u8>, Vec<u8>)>)
    ensures
        pairs_of(out@) == pairs_of(v@),
{
    let mut out: Vec<(Vec<u8>, Vec<u8>)> = Vec::new();
    let mut i: usize = 0;
    while i < v.len()
        invariant
            i <= v.len(),
            out.len() == i,
            forall|j: int| 0 <= j < i ==> out@[j].0@ == v@[j].0@ && out@[j].1@ == v@[j].1@,
        decreases v.len() - i,
    {
        let field = copy_bytes(v[i].0.as_slice());
        let value = copy_bytes(v[i].1.as_slice());
        out.push((field, value));
        i = i + 1;
    }
    assert(pairs_of(out@) =~= pairs_of(v@));
    out
}

impl Clone for StreamVal {
    fn clone(&self) -> (out: StreamVal)
        ensures
            out@ == self@,
    {
        StreamVal { id: self.id, pairs: copy_pairs(&self.pairs) }
    }
}

/// The fields and values of an entry as bulk strings, one after the other.
pub open spec fn pair_frames(pairs: Seq<(Seq<u8>, Seq<u8>)>) -> Seq<Frame> {
    Seq::new(
        2 * pairs.len(),
        |i: int|
            if i % 2 == 0 {
                bulk(pairs[i / 2].0)
            } else {
                bulk(pairs[i / 2].1)
            },
    )
}

/// An entry as it is sent: an array of its identifier and the array of its fields and
/// values.
pub open spec fn entry_frame(e: Entry) -> Frame {
    Frame::Array(seq![bulk(id_text(e.id)), Frame::Array(pair_frames(e.pairs))])
}

/// Entries as they are sent, in order.
pub open spec fn entry_frames(es: Seq<Entry>) -> Seq<Frame> {
    Seq::new(es.len(), |i: int| entry_frame(es[i]))
}

impl StreamVal {
    /// The text of this entry's identifier, `ms-seq`.
    pub fn id(&self) -> (out: Vec<u8>)
        ensures
            out@ == id_text(self.id),
    {
        let mut out: Vec<u8> = Vec::new();
        push_decimal(&mut out, self.id.0);
        out.push(45u8);
        push_decimal(&mut out, self.id.1 as u64);
        assert(out@ =~= id_text(self.id));
        out
    }

    /// This entry as it is sent.
    pub fn to_resp(&self) -> (out: RespData)
        ensures
            out@ == entry_frame(self@),
    {
        let mut inside_data: Vec<RespData> = Vec::new();
        let mut i: usize = 0;
        while i < self.pairs.len()
            invariant
                i <= self.pairs.len(),
                inside_data.len() == 2 * i,
                forall|j: int|
                    0 <= j < 2 * i ==> (#[trigger] inside_data@[j])@ == pair_frames(self@.pairs)[j],
            decreases self.pairs.len() - i,
        {
            inside_data.push(RespData::new_bulk(self.pairs[i].0.as_slice()));
            inside_data.push(RespData::new_bulk(self.pairs[i].1.as_slice()));
            i = i + 1;
        }
        let mut data: Vec<RespData> = Vec::new();
        data.push(RespData::BulkString(Some(self.id())));
        proof {
            lemma_view_elements(inside_data);
            assert(frames_of(inside_data@) =~= pair_frames(self@.pairs));
        }
        data.push(RespData::Array(inside_data));
        proof {
            lemma_view_elements(data);
            assert(frames_of(data@) =~= entry_frame(self@)->Array_0);
        }
        RespData::Array(data)
    }

    /// Reads an identifier written as `ms-seq`.
    pub fn parse_explicit_id(id: &[u8]) -> (out: Result<(u64, u32), StreamError>)
        ensures
            out == (match explicit_id(id@) {
                Some(v) => Ok::<(u64, u32), StreamError>(v),
                None => Err(StreamError::ParseError),
            }),
    {
        match find_dash_from(id) {
            Some(k) => {
                let first = slice_subrange(id, 0, k);
                let second = slice_subrange(id, k + 1, id.len());
                assert(first@ == id@.take(k as int));
                assert(second@ == id@.skip(k + 1));
                match (parse_u64(first), parse_u32(second)) {
                    (Some(ms), Some(seq)) => Ok((ms, seq)),
                    _ => Err(StreamError::ParseError),
                }
            },
            None => Err(StreamError::ParseError),
        }
    }

    /// Chooses the sequence number for an identifier written as `ms-*`, of which `ms` is
    /// the text before the dash, on the stream under `key`.
    fn parse_auto_generate_sequence_id(ms: &[u8], key: &[u8], per: &StreamPersistence) -> (out:
        Result<(u64, u32), StreamError>)
        requires
            per.wf(),
        ensures
            out == starred_sequence_id(ms@, top_id(per@, key@)),
    {
        let new_id: u64 = match parse_u64(ms) {
            Some(ms) => ms,
            None => {
                return Err(StreamError::ParseError);
            },
        };
        match per.top(key) {
            Some(last) => {
                if new_id == last.0 {
                    if last.1 < 0xffff_ffff {
                        Ok((new_id, last.1 + 1))
                    } else {
                        Err(StreamError::IllegalId)
                    }
                } else if new_id == 0 {
                    Ok((new_id, 1))
                } else {
                    Ok((new_id, 0))
                }
            },
            None => {
                if new_id == 0 {
                    Ok((new_id, 1))
                } else {
                    Ok((new_id, 0))
                }
            },
        }
    }

    /// The identifier that `*` stands for at the wall-clock time `now_ms`.
    pub fn auto_generate_id(now_ms: u64) -> (out: (u64, u32))
        ensures
            out == (now_ms, 0u32),
    {
        (now_ms, 0)
    }

    /// The identifier that the text `id` asks for on the stream under `key`, at the
    /// wall-clock time `now_ms` in milliseconds since the epoch.
    pub fn parse_id(id: &[u8], key: &[u8], per: &StreamPersistence, now_ms: u64) -> (out: Result<
        (u64, u32),
        StreamError,
    >)
        requires
            per.wf(),
        ensures
            out == resolve_id(id@, top_id(per@, key@), now_ms),
    {
        if is_one_byte(id, 42u8) {
            return Ok(StreamVal::auto_generate_id(now_ms));
        }
        match find_dash_from(id) {
            Some(k) => {
                let second = slice_subrange(id, k + 1, id.len());
                assert(second@ == id@.skip(k + 1));
                if is_one_byte(second, 42u8) {
                    let first = slice_subrange(id, 0, k);
                    assert(first@ == id@.take(k as int));
                    StreamVal::parse_auto_generate_sequence_id(first, key, per)
                } else {
                    StreamVal::parse_explicit_id(id)
                }
            },
            None => Err(StreamError::ParseError),
        }
    }

    /// Reads the lower bound of a range.
    pub fn parse_range_start(text: &[u8]) -> (out: Option<(u64, u64)>)
        ensures
            out == range_start(text@),
    {
        if is_one_byte(text, 45u8) {
            return Some((0, 0));
        }
        match find_dash_from(text) {
            Some(k) => {
                let first = slice_subrange(text, 0, k);
                let second = slice_subrange(text, k + 1, text.len());
                assert(first@ == text@.take(k as int));
                assert(second@ == text@.skip(k + 1));
                match (parse_u64(first), parse_u64(second)) {
                    (Some(ms), Some(seq)) => Some((ms, seq)),
                    _ => None,
                }
            },
            None => match parse_u64(text) {
                Some(ms) => Some((ms, 0)),
                None => None,
            },
        }
    }

    /// Reads the upper bound of a range.
    pub fn parse_range_end(text: &[u8]) -> (out: Option<(u64, u64)>)
        ensures
            out == range_end(text@),
    {
        if is_one_byte(text, 43u8) {
            return Some((u64::MAX, u64::MAX));
        }
        match find_dash_from(text) {
            Some(k) => {
                let first = slice_subrange(text, 0, k);
                let second = slice_subrange(text, k + 1, text.len());
                assert(first@ == text@.take(k as int));
                assert(second@ == text@.skip(k + 1));
                match (parse_u64(first), parse_u64(second)) {
                    (Some(ms), Some(seq)) => Some((ms, seq)),
                    _ => None,
                }
            },
            None => match parse_u64(text) {
                Some(ms) => Some((ms, u64::MAX)),
                None => None,
            },
        }
    }
}

/// The streams, each under its key.
pub struct StreamPersistence {
    keys: Vec<Vec<u8>>,
    streams: Vec<Vec<StreamVal>>,
}

impl View for StreamPersistence {
    type V = Map<Seq<u8>, Seq<Entry>>;

    closed spec fn view(&self) -> Map<Seq<u8>, Seq<Entry>> {
        let ks = key_views(self.keys@);
        Map::new(
            |k: Seq<u8>| ks.contains(k),
            |k: Seq<u8>| entries_of(self.streams@[ks.index_of(k)]@),
        )
    }
}

impl Default for StreamPersistence {
    /// A store without streams.
    fn default() -> (out: StreamPersistence)
        ensures
            out.wf(),
            out@ == Map::<Seq<u8>, Seq<Entry>>::empty(),
    {
        StreamPersistence::new()
    }
}

fn id_less(a: (u64, u32), b: (u64, u32)) -> (out: bool)
    ensures
        out == id_lt(a, b),
{
    a.0 < b.0 || (a.0 == b.0 && a.1 < b.1)
}

fn at_most(a: (u64, u64), b: (u64, u64)) -> (out: bool)
    ensures
        out == bound_le(a, b),
{
    a.0 < b.0 || (a.0 == b.0 && a.1 <= b.1)
}

impl StreamPersistence {
    /// Each key is held once, with its stream.
    pub closed spec fn inv(&self) -> bool {
        &&& self.keys.len() == self.streams.len()
        &&& key_views(self.keys@).no_duplicates()
    }

    /// What every store satisfies: each stream holds an entry, and its identifiers are
    /// above `0-0` and grow strictly.
    pub open spec fn wf(&self) -> bool {
        self.inv() && ordered(self@)
    }

    /// A store without streams.
    pub fn new() -> (out: StreamPersistence)
        ensures
            out.wf(),
            out@ == Map::<Seq<u8>, Seq<Entry>>::empty(),
    {
        let out = StreamPersistence { keys: Vec::new(), streams: Vec::new() };
        assert(out@ =~= Map::<Seq<u8>, Seq<Entry>>::empty());
        out
    }

    proof fn lemma_stream_at(&self, i: int)
        requires
            self.inv(),
            0 <= i < self.keys.len(),
        ensures
            self@.contains_key(self.keys[i]@),
            self@[self.keys[i]@] == entries_of(self.streams[i]@),
    {
        lemma_index_of(self.keys@, i);
    }

    /// Whether a stream stands under `key`.
    pub fn contains_key(&self, key: &[u8]) -> (out: bool)
        requires
            self.wf(),
        ensures
            out == self@.contains_key(key@),
    {
        match find_key(&self.keys, key) {
            Some(i) => {
                proof {
                    self.lemma_stream_at(i as int);
                }
                true
            },
            None => false,
        }
    }

    /// The identifier of the last entry under `key`.
    pub fn top(&self, key: &[u8]) -> (out: Option<(u64, u32)>)
        requires
            self.wf(),
        ensures
            out == top_id(self@, key@),
    {
        match find_key(&self.keys, key) {
            Some(i) => {
                proof {
                    self.lemma_stream_at(i as int);
                }
                let list = &self.streams[i];
                Some(list[list.len() - 1].id)
            },
            None => None,
        }
    }

    /// The entries under `key` from `start` to `end`, both included, in ascending order;
    /// with `to_end` set, every entry from `start` on, whatever `end` is.
    pub fn get_range(
        &self,
        key: &[u8],
        start: (u64, u64),
        end: (u64, u64),
        to_end: Option<bool>,
    ) -> (out: Vec<StreamVal>)
        requires
            self.wf(),
        ensures
            entries_of(out@) == range_of(stream_of(self@, key@), start, end, to_end == Some(true)),
    {
        let open_end: bool = match to_end {
            Some(v) => v,
            None => false,
        };
        let ghost pred = in_range(start, end, open_end);
        let mut out: Vec<StreamVal> = Vec::new();
        match find_key(&self.keys, key) {
            Some(k) => {
                proof {
                    self.lemma_stream_at(k as int);
                }
                let list = &self.streams[k];
                let ghost all = entries_of(list@);
                let mut i: usize = 0;
                assert(all.take(0) =~= Seq::<Entry>::empty());
                assert(entries_of(out@) =~= all.take(0).filter(pred));
                while i < list.len()
                    invariant
                        i <= list.len(),
                        all == entries_of(list@),
                        pred == in_range(start, end, open_end),
                        entries_of(out@) == all.take(i as int).filter(pred),
                    decreases list.len() - i,
                {
                    let id = list[i].id;
                    let wide_id: (u64, u64) = (id.0, id.1 as u64);
                    proof {
                        lemma_filter_step(all, pred, i as int);
                    }
                    if at_most(start, wide_id) && (open_end || at_most(wide_id, end)) {
                        let ghost before = entries_of(out@);
                        out.push(list[i].clone());
                        assert(entries_of(out@) =~= before.push(all[i as int]));
                    }
                    i = i + 1;
                }
                assert(all.take(list.len() as int) =~= all);
            },
            None => {
                assert(entries_of(out@) =~= Seq::<Entry>::empty().filter(pred));
            },
        }
        out
    }

    /// The entries under `key` from the first one to `end`, `end` included, in ascending
    /// order.
    pub fn get_range_to_start(&self, key: &[u8], end: (u64, u64)) -> (out: Vec<StreamVal>)
        requires
            self.wf(),
        ensures
            entries_of(out@) == range_of(stream_of(self@, key@), (0u64, 0u64), end, false),
    {
        self.get_range(key, (0, 0), end, None)
    }

    /// The entries under `key` with an identifier above `get_id`, in ascending order.
    pub fn xread(&self, key: &[u8], get_id: (u64, u32)) -> (out: Vec<StreamVal>)
        requires
            self.wf(),
        ensures
            entries_of(out@) == newer_than(stream_of(self@, key@), get_id),
    {
        let ghost pred = |e: Entry| id_lt(get_id, e.id);
        let mut out: Vec<StreamVal> = Vec::new();
        match find_key(&self.keys, key) {
            Some(k) => {
                proof {
                    self.lemma_stream_at(k as int);
                }
                let list = &self.streams[k];
                let ghost all = entries_of(list@);
                let mut i: usize = 0;
                assert(all.take(0) =~= Seq::<Entry>::empty());
                assert(entries_of(out@) =~= all.take(0).filter(pred));
                while i < list.len()
                    invariant
                        i <= list.len(),
                        all == entries_of(list@),
                        pred == (|e: Entry| id_lt(get_id, e.id)),
                        entries_of(out@) == all.take(i as int).filter(pred),
                    decreases list.len() - i,
                {
                    proof {
                        lemma_filter_step(all, pred, i as int);
                    }
                    if id_less(get_id, list[i].id) {
                        let ghost before = entries_of(out@);
                        out.push(list[i].clone());
                        assert(entries_of(out@) =~= before.push(all[i as int]));
                    }
                    i = i + 1;
                }
                assert(all.take(list.len() as int) =~= all);
            },
            None => {
                assert(entries_of(out@) =~= Seq::<Entry>::empty().filter(pred));
            },
        }
        out
    }

    /// Appends `val` to the stream under `key`, which it opens where there is none, and
    /// gives back the text of the identifier. The identifier `0-0` is refused, and so is
    /// one that is not above the last identifier of the stream; the store is then left
    /// as it was.
    pub fn insert(&mut self, key: &[u8], val: StreamVal) -> (out: Result<Vec<u8>, StreamError>)
        requires
            old(self).wf(),
        ensures
            final(self).wf(),
            match insert_check(old(self)@, key@, val.id) {
                Err(e) => out == Err::<Vec<u8>, StreamError>(e) && final(self)@ == old(self)@,
                Ok(_) => {
                    &&& out matches Ok(text)
                    &&& text@ == id_text(val.id)
                    &&& final(self)@ == old(self)@.insert(
                        key@,
                        stream_of(old(self)@, key@).push(val@),
                    )
                },
            },
    {
        let return_id = val.id();
        let new_id = val.id;
        if new_id.0 == 0 && new_id.1 == 0 {
            return Err(StreamError::IdShouldBeHigher);
        }
        match find_key(&self.keys, key) {
            Some(i) => {
                proof {
                    self.lemma_stream_at(i as int);
                }
                let last_id = self.streams[i][self.streams[i].len() - 1].id;
                if !id_less(last_id, new_id) {
                    return Err(StreamError::IllegalId);
                }
                let ghost before = entries_of(self.streams[i as int]@);
                let ghost entry = val@;
                self.streams[i].push(val);
                proof {
                    let after = entries_of(self.streams[i as int]@);
                    assert(after =~= before.push(entry));
                    assert(self.inv());
                    lemma_index_of(self.keys@, i as int);
                    let ks = key_views(self.keys@);
                    assert forall|k: Seq<u8>| ks.contains(k) implies #[trigger] self@[k] == old(
                        self,
                    )@.insert(key@, before.push(entry))[k] by {
                        let j = ks.index_of(k);
                        if k != key@ {
                            assert(j != i);
                        }
                    }
                    assert(self@ =~= old(self)@.insert(key@, before.push(entry)));
                    assert(increasing(after)) by {
                        assert forall|a: int, b: int| 0 <= a < b < after.len() implies id_lt(
                            #[trigger] after[a].id,
                            #[trigger] after[b].id,
                        ) by {
                            if b < before.len() {
                                assert(id_lt(before[a].id, before[b].id));
                            } else if a < before.len() - 1 {
                                assert(id_lt(before[a].id, before[before.len() - 1].id));
                            }
                        }
                    }
                    assert(ordered(self@)) by {
                        assert forall|k: Seq<u8>| #[trigger] self@.contains_key(k) implies self@[k].len()
                            > 0 && increasing(self@[k]) && id_lt((0, 0), self@[k][0].id) by {
                            if k != key@ {
                                assert(old(self)@.contains_key(k));
                            } else {
                                assert(old(self)@.contains_key(key@));
                                assert(after[0] == before[0]);
                            }
                        }
                    }
                }
                Ok(return_id)
            },
            None => {
                let ghost entry = val@;
                let mut list: Vec<StreamVal> = Vec::new();
                list.push(val);
                let owned = copy_bytes(key);
                proof {
                    lemma_push_key(self.keys@, owned);
                }
                self.keys.push(owned);
                self.streams.push(list);
                proof {
                    let n = old(self).keys.len() as int;
                    let single = entries_of(self.streams[n]@);
                    assert(single =~= Seq::<Entry>::empty().push(entry));
                    assert(self.inv());
                    lemma_index_of(self.keys@, n);
                    let ks = key_views(self.keys@);
                    let before = key_views(old(self).keys@);
                    assert forall|k: Seq<u8>| ks.contains(k) implies #[trigger] self@[k] == old(
                        self,
                    )@.insert(key@, single)[k] by {
                        let j = ks.index_of(k);
                        if k != key@ {
                            assert(j != n);
                            assert(before[j] == k);
                            assert(before.contains(k));
                            let j0 = before.index_of(k);
                            assert(ks[j0] == k);
                        }
                    }
                    assert forall|k: Seq<u8>| ks.contains(k) <==> (before.contains(k) || k == key@) by {
                        if ks.contains(k) {
                            let j = ks.index_of(k);
                            if j < n {
                                assert(before[j] == k);
                            }
                        }
                        if before.contains(k) {
                            let j = before.index_of(k);
                            assert(ks[j] == k);
                        }
                    }
                    assert(self@ =~= old(self)@.insert(key@, single));
                    assert(ordered(self@)) by {
                        assert forall|k: Seq<u8>| #[trigger] self@.contains_key(k) implies self@[k].len()
                            > 0 && increasing(self@[k]) && id_lt((0, 0), self@[k][0].id) by {
                            if k != key@ {
                                assert(old(self)@.contains_key(k));
                            }
                        }
                    }
                }
                Ok(return_id)
            },
        }
    }

    /// The last entry under `key`.
    pub fn get_last(&self, key: &[u8]) -> (out: Option<StreamVal>)
        requires
            self.wf(),
        ensures
            match out {
                Some(v) => stream_of(self@, key@).len() > 0 && v@ == stream_of(self@, key@).last(),
                None => stream_of(self@, key@).len() == 0,
            },
    {
        match find_key(&self.keys, key) {
            Some(i) => {
                proof {
                    self.lemma_stream_at(i as int);
                }
                let list = &self.streams[i];
                Some(list[list.len() - 1].clone())
            },
            None => None,
        }
    }
}

/// A dash that `find_dash` finds lies at or after `from`, inside `s`, and no dash stands
/// between `from` and it.
pub proof fn lemma_find_dash(s: Seq<u8>, from: int)
    requires
        0 <= from,
    ensures
        match find_dash(s, from) {
            Some(k) => from <= k < s.len() && s[k] == 45 && forall|j: int|
                from <= j < k ==> s[j] != 45,
            None => forall|j: int| from <= j < s.len() ==> s[j] != 45,
        },
    decreases s.len() - from,
{
    if from < s.len() && s[from] != 45 {
        lemma_find_dash(s, from + 1);
    }
}

/// The text of an identifier is read back as that identifier, whatever the stream holds
/// and whatever the time is.
pub proof fn lemma_id_text_resolves(id: (u64, u32), top: Option<(u64, u32)>, now_ms: u64)
    ensures
        explicit_id(id_text(id)) == Some(id),
        resolve_id(id_text(id), top, now_ms) == Ok::<(u64, u32), StreamError>(id),
{
    let first = decimal(id.0 as nat);
    let second = decimal(id.1 as nat);
    let s = id_text(id);
    let k = first.len() as int;
    lemma_decimal_digits(id.0 as nat);
    lemma_decimal_digits(id.1 as nat);
    lemma_parse_decimal(id.0 as nat);
    lemma_parse_decimal(id.1 as nat);
    lemma_find_dash(s, 0);
    assert(s[k] == 45);
    assert forall|j: int| 0 <= j < k implies s[j] != 45 by {
        assert(s[j] == first[j]);
        assert(is_digit(first[j]));
    }
    assert(find_dash(s, 0) == Some(k));
    assert(s.take(k) =~= first);
    assert(s.skip(k + 1) =~= second);
    assert(is_digit(first[0]));
    assert(is_digit(second[0]));
    assert(s[0] == first[0]);
    assert(s != seq![42u8]) by {
        assert(seq![42u8][0] == 42u8);
    }
    assert(second != seq![42u8]) by {
        assert(seq![42u8][0] == 42u8);
    }
}

/// An accepted append leaves every stream in strictly ascending order.
pub proof fn lemma_append_keeps_order(m: Map<Seq<u8>, Seq<Entry>>, key: Seq<u8>, entry: Entry)
    requires
        ordered(m),
        insert_check(m, key, entry.id) is Ok,
    ensures
        ordered(m.insert(key, stream_of(m, key).push(entry))),
{
    let before = stream_of(m, key);
    let after = before.push(entry);
    let next = m.insert(key, after);
    assert(increasing(after)) by {
        assert forall|a: int, b: int| 0 <= a < b < after.len() implies id_lt(
            #[trigger] after[a].id,
            #[trigger] after[b].id,
        ) by {
            if b < before.len() {
                assert(m.contains_key(key));
                assert(id_lt(before[a].id, before[b].id));
            } else if a < before.len() - 1 {
                assert(m.contains_key(key));
                assert(id_lt(before[a].id, before[before.len() - 1].id));
            }
        }
    }
    assert forall|k: Seq<u8>| #[trigger] next.contains_key(k) implies next[k].len() > 0
        && increasing(next[k]) && id_lt((0, 0), next[k][0].id) by {
        if k != key {
            assert(m.contains_key(k));
        } else if m.contains_key(key) {
            assert(after[0] == before[0]);
        }
    }
}

/// In every store, the identifiers of a stream grow strictly from each entry to any later
/// one, whatever appends were accepted before.
pub proof fn stream_strictly_increasing(store: StreamPersistence, key: Seq<u8>, i: int, j: int)
    requires
        store.wf(),
        store@.contains_key(key),
        0 <= i < j < store@[key].len(),
    ensures
        id_lt(store@[key][i].id, store@[key][j].id),
{
}

} // verus!
