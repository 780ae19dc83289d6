//! The command dispatcher: what each command makes of the server's state, what it
//! answers, and what has to reach the replicas.
use crate::bytes::{
    append_bytes, ascii, bytes_eq, bytes_of, copy_bytes, decimal, decode_hex, eq_ignore_case,
    parse_nat_u16, parse_nat_u64, parse_u16, parse_u64, push_decimal, same_word, unhex,
};
use crate::parse::{
    bulk, command, crlf, encode, frames_of, lemma_view_elements, text_of, words_of, Frame, Resp,
    RespData,
};
use crate::persistence::kv_pair::{read, PersistedValue, Value};
use crate::persistence::stream::{
    entries_of, entry_frames, id_text, insert_check, lemma_range_to_last, pairs_of, range_end,
    range_of, range_start, resolve_id, stream_of, top_id, Entry, StreamError, StreamVal,
};
use crate::persistence::{PersistedType, PersistenceInner};
use crate::server::{
    add_capped, registered, replication_text, Info, InfoView, MasterView, Role, RoleView,
};
use vstd::prelude::*;

verus! {

/// Everything a server holds: the two stores and the replication state.
pub struct StateInner {
    pub persisted: PersistenceInner,
    pub info: Info,
}

/// A server's state as a mathematical value.
pub struct StateView {
    pub strings: Map<Seq<u8>, Value>,
    pub streams: Map<Seq<u8>, Seq<Entry>>,
    pub info: InfoView,
}

impl View for StateInner {
    type V = StateView;

    open spec fn view(&self) -> StateView {
        StateView {
            strings: self.persisted.key_value@,
            streams: self.persisted.stream@,
            info: self.info@,
        }
    }
}

/// What a command asks of whoever holds the sockets, besides sending the answer.
#[derive(Debug)]
pub enum Effect {
    /// Nothing.
    Local,
    /// Write these bytes to every replica of the registry, and drop from it each replica
    /// to which the write fails.
    Propagate(Vec<u8>),
    /// Keep the sender's socket as that of the replica that announced this port.
    Register(u16),
}

/// What a command gives: the bytes to answer with, none where there is no answer, and
/// what else is to be done.
#[derive(Debug)]
pub struct Outcome {
    pub reply: Vec<u8>,
    pub effect: Effect,
}

/// An effect as a mathematical value.
pub enum EffectView {
    Local,
    Propagate(Seq<u8>),
    Register(u16),
}

/// An outcome as a mathematical value.
pub struct OutcomeView {
    pub reply: Seq<u8>,
    pub effect: EffectView,
}

impl View for Effect {
    type V = EffectView;

    open spec fn view(&self) -> EffectView {
        match self {
            Effect::Local => EffectView::Local,
            Effect::Propagate(b) => EffectView::Propagate(b@),
            Effect::Register(p) => EffectView::Register(*p),
        }
    }
}

impl View for Outcome {
    type V = OutcomeView;

    open spec fn view(&self) -> OutcomeView {
        OutcomeView { reply: self.reply@, effect: self.effect@ }
    }
}

/// The answer `f` and nothing else.
pub open spec fn answer(f: Frame) -> OutcomeView {
    OutcomeView { reply: encode(f), effect: EffectView::Local }
}

/// The answer to a command that no one knows.
pub open spec fn unknown_command() -> OutcomeView {
    answer(Frame::Error(ascii("Unexpected command")))
}

/// The answer to a command with the wrong number or the wrong kind of arguments.
pub open spec fn bad_arguments() -> OutcomeView {
    answer(Frame::Error(ascii("Unexpected data type")))
}

/// The answer to an append under the identifier `0-0`.
pub open spec fn id_too_small() -> OutcomeView {
    answer(Frame::Error(ascii("ERR The ID specified in XADD must be greater than 0-0")))
}

/// The answer to an append under an identifier that is not above the stream's last.
pub open spec fn id_not_above_top() -> OutcomeView {
    answer(
        Frame::Error(
            ascii(
                "ERR The ID specified in XADD is equal or smaller than the target stream top item",
            ),
        ),
    )
}

/// The answer `OK`.
pub open spec fn ok() -> OutcomeView {
    answer(Frame::SimpleString(ascii("OK")))
}

/// The bytes of argument `i`, where the command has one and it is a text.
pub open spec fn arg(vals: Seq<Frame>, i: int) -> Option<Seq<u8>> {
    if 0 <= i < vals.len() {
        text_of(vals[i])
    } else {
        None
    }
}

/// The bytes of argument `i`, where the command has one and it is a bulk string.
pub open spec fn bulk_arg(vals: Seq<Frame>, i: int) -> Option<Seq<u8>> {
    if 0 <= i < vals.len() {
        match vals[i] {
            Frame::BulkString(Some(b)) => Some(b),
            _ => None,
        }
    } else {
        None
    }
}

/// The state `st` with other strings.
pub open spec fn with_strings(st: StateView, strings: Map<Seq<u8>, Value>) -> StateView {
    StateView { strings: strings, streams: st.streams, info: st.info }
}

/// The state `st` with other streams.
pub open spec fn with_streams(st: StateView, streams: Map<Seq<u8>, Seq<Entry>>) -> StateView {
    StateView { strings: st.strings, streams: streams, info: st.info }
}

/// The state `st` with another role.
pub open spec fn with_role(st: StateView, role: RoleView) -> StateView {
    StateView {
        strings: st.strings,
        streams: st.streams,
        info: InfoView { role: role, port: st.info.port },
    }
}

/// What a primary does with bytes that are to reach its replicas: it hands them on and
/// counts them. A replica does nothing.
pub open spec fn commit(role: RoleView, payload: Seq<u8>) -> (RoleView, EffectView) {
    match role {
        RoleView::Master(m) => (
            RoleView::Master(
                MasterView {
                    replication_id: m.replication_id,
                    offset: add_capped(m.offset, payload.len()),
                    replicas: m.replicas,
                },
            ),
            EffectView::Propagate(payload),
        ),
        RoleView::Slave(_) => (role, EffectView::Local),
    }
}

/// `PING`: the answer is `PONG`, or the one argument as a bulk string.
pub open spec fn ping_spec(vals: Seq<Frame>) -> OutcomeView {
    if vals.len() == 1 {
        answer(Frame::SimpleString(ascii("PONG")))
    } else if vals.len() == 2 && arg(vals, 1) is Some {
        answer(bulk(arg(vals, 1)->0))
    } else {
        bad_arguments()
    }
}

/// `ECHO msg`: the answer is the message as a bulk string.
pub open spec fn echo_spec(vals: Seq<Frame>) -> OutcomeView {
    if vals.len() == 2 && arg(vals, 1) is Some {
        answer(bulk(arg(vals, 1)->0))
    } else {
        bad_arguments()
    }
}

/// The time that a `SET` lets its value live: 0 without an option, the number after `PX`,
/// and 0 after any other option. `None` where the option is no bulk string, or `PX` has
/// no number of 64 bits after it.
pub open spec fn set_expiry(vals: Seq<Frame>) -> Option<u64> {
    if vals.len() <= 3 {
        Some(0u64)
    } else {
        match bulk_arg(vals, 3) {
            Some(option) => if same_word(option, ascii("px")) {
                match bulk_arg(vals, 4) {
                    Some(ms) => parse_nat_u64(ms),
                    None => None,
                }
            } else {
                Some(0u64)
            },
            None => None,
        }
    }
}

/// `SET k v [PX ms]` at the time `now`: the value is written under the key, whatever
/// stood there, and lives for `ms` milliseconds where that is given. The answer is `OK`,
/// and the command is committed.
pub open spec fn set_spec(st: StateView, vals: Seq<Frame>, now: u64) -> (StateView, OutcomeView) {
    if 3 <= vals.len() <= 5 && arg(vals, 1) is Some && arg(vals, 2) is Some && set_expiry(vals)
        is Some {
        let value = Value { data: arg(vals, 2)->0, timestamp: now, expiry: set_expiry(vals)->0 };
        let done = commit(st.info.role, encode(Frame::Array(vals)));
        (
            with_role(with_strings(st, st.strings.insert(arg(vals, 1)->0, value)), done.0),
            OutcomeView { reply: ok().reply, effect: done.1 },
        )
    } else {
        (st, bad_arguments())
    }
}

/// `GET k` at the time `now`: the value under the key as a bulk string, and the null
/// string where there is none or it has expired.
pub open spec fn get_spec(st: StateView, vals: Seq<Frame>, now: u64) -> OutcomeView {
    if vals.len() == 2 && arg(vals, 1) is Some {
        answer(Frame::BulkString(read(st.strings, arg(vals, 1)->0, now)))
    } else {
        bad_arguments()
    }
}

/// The name of what stands under `key`: a stream, else a string, whether it has expired
/// or not, else nothing.
pub open spec fn kind_name(st: StateView, key: Seq<u8>) -> Seq<u8> {
    if st.streams.contains_key(key) {
        ascii("stream")
    } else if st.strings.contains_key(key) {
        ascii("string")
    } else {
        ascii("none")
    }
}

/// `TYPE k`: the name of what stands under the key.
pub open spec fn type_spec(st: StateView, vals: Seq<Frame>) -> OutcomeView {
    if vals.len() == 2 && arg(vals, 1) is Some {
        answer(Frame::SimpleString(kind_name(st, arg(vals, 1)->0)))
    } else {
        bad_arguments()
    }
}

/// Whether the arguments from the fourth on are bulk strings, in pairs, one pair at
/// least.
pub open spec fn has_pairs(vals: Seq<Frame>) -> bool {
    &&& vals.len() >= 5
    &&& (vals.len() - 3) % 2 == 0
    &&& forall|i: int| 3 <= i < vals.len() ==> (#[trigger] bulk_arg(vals, i)) is Some
}

/// The fields with their values that the arguments from the fourth on give.
pub open spec fn pairs_from(vals: Seq<Frame>) -> Seq<(Seq<u8>, Seq<u8>)> {
    Seq::new(
        ((vals.len() - 3) / 2) as nat,
        |j: int| (bulk_arg(vals, 3 + 2 * j)->0, bulk_arg(vals, 4 + 2 * j)->0),
    )
}

/// `XADD key id field value ...` at the wall-clock time `wall`: the entry is appended
/// under the identifier that `id` asks for, and the answer is that identifier as a bulk
/// string; the command is then committed. An identifier that is refused leaves the
/// state as it was and is answered with the error that says why.
pub open spec fn xadd_spec(st: StateView, vals: Seq<Frame>, wall: u64) -> (StateView, OutcomeView) {
    if has_pairs(vals) && arg(vals, 1) is Some && arg(vals, 2) is Some {
        let key = arg(vals, 1)->0;
        match resolve_id(arg(vals, 2)->0, top_id(st.streams, key), wall) {
            Ok(id) => match insert_check(st.streams, key, id) {
                Ok(_) => {
                    let entry = Entry { id: id, pairs: pairs_from(vals) };
                    let done = commit(st.info.role, encode(Frame::Array(vals)));
                    (
                        with_role(
                            with_streams(
                                st,
                                st.streams.insert(key, stream_of(st.streams, key).push(entry)),
                            ),
                            done.0,
                        ),
                        OutcomeView { reply: encode(bulk(id_text(id))), effect: done.1 },
                    )
                },
                Err(StreamError::IdShouldBeHigher) => (st, id_too_small()),
                Err(_) => (st, id_not_above_top()),
            },
            Err(StreamError::ParseError) => (st, bad_arguments()),
            Err(StreamError::IdShouldBeHigher) => (st, id_too_small()),
            Err(StreamError::IllegalId) => (st, id_not_above_top()),
        }
    } else {
        (st, bad_arguments())
    }
}

/// `XRANGE key start end`: the entries under the key from `start` to `end`, both
/// included, in ascending order; `-` is the first and `+` the last entry.
pub open spec fn xrange_spec(st: StateView, vals: Seq<Frame>) -> OutcomeView {
    if vals.len() == 4 && arg(vals, 1) is Some && arg(vals, 2) is Some && arg(vals, 3) is Some
        && range_start(arg(vals, 2)->0) is Some && range_end(arg(vals, 3)->0) is Some {
        answer(
            Frame::Array(
                entry_frames(
                    range_of(
                        stream_of(st.streams, arg(vals, 1)->0),
                        range_start(arg(vals, 2)->0)->0,
                        range_end(arg(vals, 3)->0)->0,
                        false,
                    ),
                ),
            ),
        )
    } else {
        bad_arguments()
    }
}

/// `INFO replication`: what the server tells of its replication, as a bulk string.
pub open spec fn info_spec(st: StateView, vals: Seq<Frame>) -> OutcomeView {
    if vals.len() == 2 && bulk_arg(vals, 1) == Some(ascii("replication")) {
        answer(bulk(replication_text(st.info.role)))
    } else {
        bad_arguments()
    }
}

/// The offset that a role counts.
pub open spec fn role_offset(role: RoleView) -> u64 {
    match role {
        RoleView::Master(m) => m.offset,
        RoleView::Slave(r) => r.offset,
    }
}

/// The message by which a server tells its offset.
pub open spec fn ack_message(offset: u64) -> Seq<u8> {
    encode(command(seq![ascii("REPLCONF"), ascii("ACK"), decimal(offset as nat)]))
}

/// The message by which a primary asks its replicas for their offsets.
pub open spec fn getack_message() -> Seq<u8> {
    encode(command(seq![ascii("REPLCONF"), ascii("GETACK"), ascii("*")]))
}

/// `REPLCONF sub args`.
///
/// `GETACK` is answered with the server's own offset; a primary then hands the question
/// on to its replicas and counts its bytes. `listening-port p` makes a primary take the
/// sender into its registry under the port `p`, and is answered with `OK`; a replica
/// refuses it. Any other subcommand is answered with `OK`.
pub open spec fn replconf_spec(st: StateView, vals: Seq<Frame>) -> (StateView, OutcomeView) {
    if vals.len() >= 3 && bulk_arg(vals, 1) is Some {
        let sub = bulk_arg(vals, 1)->0;
        if same_word(sub, ascii("getack")) {
            let done = commit(st.info.role, getack_message());
            (
                with_role(st, done.0),
                OutcomeView { reply: ack_message(role_offset(st.info.role)), effect: done.1 },
            )
        } else if same_word(sub, ascii("listening-port")) {
            match st.info.role {
                RoleView::Master(m) => match bulk_arg(vals, 2) {
                    Some(text) => match parse_nat_u16(text) {
                        Some(port) => (
                            with_role(
                                st,
                                RoleView::Master(
                                    MasterView {
                                        replication_id: m.replication_id,
                                        offset: m.offset,
                                        replicas: registered(m.replicas, port),
                                    },
                                ),
                            ),
                            OutcomeView { reply: ok().reply, effect: EffectView::Register(port) },
                        ),
                        None => (st, bad_arguments()),
                    },
                    None => (st, bad_arguments()),
                },
                RoleView::Slave(_) => (
                    st,
                    answer(Frame::Error(ascii("Slave can't treat REPLCONF"))),
                ),
            }
        } else {
            (st, ok())
        }
    } else {
        (st, bad_arguments())
    }
}

/// The snapshot of an empty database that a primary sends with a full resync.
pub open spec fn empty_snapshot() -> Seq<u8> {
    unhex(
        ascii(
            "524544495330303131fa0972656469732d76657205372e322e30fa0a72656469732d62697473c040fa056374696d65c26d08bc65fa08757365642d6d656dc2b0c41000fa08616f662d62617365c000fff06e3bfec0ff5aa2",
        ),
    )
}

/// What a primary answers to `PSYNC`: the full resync line with its replication
/// identifier and offset, then the length of the snapshot on a line, then the snapshot,
/// after which no line break stands.
pub open spec fn full_resync(m: MasterView) -> Seq<u8> {
    encode(
        Frame::SimpleString(
            ascii("FULLRESYNC ") + m.replication_id + seq![32u8] + decimal(m.offset as nat),
        ),
    ) + seq![36u8] + decimal(empty_snapshot().len()) + crlf() + empty_snapshot()
}

/// `PSYNC replid offset`: a primary answers with a full resync, and a sender that has
/// announced its port is from then on among its replicas; a replica refuses.
pub open spec fn psync_spec(st: StateView, vals: Seq<Frame>, announced: Option<u16>) -> (
    StateView,
    OutcomeView,
) {
    if vals.len() == 3 {
        match st.info.role {
            RoleView::Master(m) => match announced {
                Some(port) => (
                    with_role(
                        st,
                        RoleView::Master(
                            MasterView {
                                replication_id: m.replication_id,
                                offset: m.offset,
                                replicas: registered(m.replicas, port),
                            },
                        ),
                    ),
                    OutcomeView { reply: full_resync(m), effect: EffectView::Register(port) },
                ),
                None => (st, OutcomeView { reply: full_resync(m), effect: EffectView::Local }),
            },
            RoleView::Slave(_) => (st, answer(Frame::Error(ascii("Slave can't handle PSYNC")))),
        }
    } else {
        (st, bad_arguments())
    }
}

/// What the command with the name `name` and the words `vals`, the name among them, makes
/// of the state at the time `now` on the monotonic clock and `wall` on the wall clock,
/// both in milliseconds, where `announced` is the listening port that the sender has
/// announced, if it has. The name counts without regard to the case of its letters.
pub open spec fn command_spec(
    st: StateView,
    name: Seq<u8>,
    vals: Seq<Frame>,
    announced: Option<u16>,
    now: u64,
    wall: u64,
) -> (StateView, OutcomeView) {
    if same_word(name, ascii("xadd")) {
        xadd_spec(st, vals, wall)
    } else if same_word(name, ascii("xrange")) {
        (st, xrange_spec(st, vals))
    } else if same_word(name, ascii("ping")) {
        (st, ping_spec(vals))
    } else if same_word(name, ascii("echo")) {
        (st, echo_spec(vals))
    } else if same_word(name, ascii("set")) {
        set_spec(st, vals, now)
    } else if same_word(name, ascii("get")) {
        (st, get_spec(st, vals, now))
    } else if same_word(name, ascii("type")) {
        (st, type_spec(st, vals))
    } else if same_word(name, ascii("info")) {
        (st, info_spec(st, vals))
    } else if same_word(name, ascii("replconf")) {
        replconf_spec(st, vals)
    } else if same_word(name, ascii("psync")) {
        psync_spec(st, vals, announced)
    } else {
        (st, unknown_command())
    }
}

/// What a request makes of the state: a command is an array whose first element is a
/// bulk string, the command's name; anything else is answered as a wrong kind of data.
pub open spec fn request_spec(
    st: StateView,
    req: Frame,
    announced: Option<u16>,
    now: u64,
    wall: u64,
) -> (StateView, OutcomeView) {
    match req {
        Frame::Array(vals) => match bulk_arg(vals, 0) {
            Some(name) => command_spec(st, name, vals, announced, now, wall),
            None => (st, bad_arguments()),
        },
        _ => (st, bad_arguments()),
    }
}

/// The port that a sender has announced after a request with the outcome `out`: the one
/// under which the request had it taken into the registry, else the one it had announced
/// before.
pub open spec fn announced_after(announced: Option<u16>, out: OutcomeView) -> Option<u16> {
    match out.effect {
        EffectView::Register(port) => Some(port),
        _ => announced,
    }
}

fn answer_with(frame: &RespData) -> (out: Outcome)
    ensures
        out@ == answer(frame@),
{
    Outcome { reply: frame.as_bytes(), effect: Effect::Local }
}

fn refuse() -> (out: Outcome)
    ensures
        out@ == bad_arguments(),
{
    proof {
        reveal_strlit("Unexpected data type");
    }
    answer_with(&RespData::Error(bytes_of("Unexpected data type")))
}

fn accept() -> (out: Outcome)
    ensures
        out@ == ok(),
{
    proof {
        reveal_strlit("OK");
    }
    answer_with(&RespData::SimpleString(bytes_of("OK")))
}

fn arg_at(vals: &Vec<RespData>, i: usize) -> (out: Option<&Vec<u8>>)
    ensures
        match arg(frames_of(vals@), i as int) {
            Some(t) => out matches Some(v) && v@ == t,
            None => out is None,
        },
{
    if i < vals.len() {
        vals[i].inside_value()
    } else {
        None
    }
}

fn bulk_at(vals: &Vec<RespData>, i: usize) -> (out: Option<&Vec<u8>>)
    ensures
        match bulk_arg(frames_of(vals@), i as int) {
            Some(t) => out matches Some(v) && v@ == t,
            None => out is None,
        },
{
    if i < vals.len() {
        match &vals[i] {
            RespData::BulkString(Some(b)) => Some(b),
            _ => None,
        }
    } else {
        None
    }
}

/// Hands `payload` on to the replicas of a primary and counts its bytes; does nothing on
/// a replica.
fn commit_on(info: &mut Info, payload: Vec<u8>) -> (out: Effect)
    requires
        old(info).wf(),
    ensures
        final(info).wf(),
        final(info).port == old(info).port,
        final(info)@.role == commit(old(info)@.role, payload@).0,
        out@ == commit(old(info)@.role, payload@).1,
{
    match &mut info.role {
        Role::Master(master) => {
            let n: u64 = payload.len() as u64;
            if master.offset <= u64::MAX - n {
                master.offset = master.offset + n;
            } else {
                master.offset = u64::MAX;
            }
            Effect::Propagate(payload)
        },
        Role::Slave(_) => Effect::Local,
    }
}

impl StateInner {
    /// What the state satisfies at all times.
    pub open spec fn wf(&self) -> bool {
        self.persisted.wf() && self.info.wf()
    }

    /// The state of a server with empty stores and the replication state `info`.
    pub fn new(info: Info) -> (out: StateInner)
        requires
            info.wf(),
        ensures
            out.wf(),
            out@.strings == Map::<Seq<u8>, Value>::empty(),
            out@.streams == Map::<Seq<u8>, Seq<Entry>>::empty(),
            out@.info == info@,
    {
        StateInner { persisted: PersistenceInner::new(), info }
    }
}

/// The answer that reports `msg` as an error.
pub fn handle_error(msg: &[u8]) -> (out: Outcome)
    ensures
        out@ == answer(Frame::Error(msg@)),
{
    answer_with(&RespData::new_error(msg))
}

/// Answers `PING`.
pub fn handle_ping(vals: &Vec<RespData>) -> (out: Outcome)
    ensures
        out@ == ping_spec(frames_of(vals@)),
{
    if vals.len() == 1 {
        proof {
            reveal_strlit("PONG");
        }
        answer_with(&RespData::SimpleString(bytes_of("PONG")))
    } else if vals.len() == 2 {
        match arg_at(vals, 1) {
            Some(msg) => answer_with(&RespData::new_bulk(msg.as_slice())),
            None => refuse(),
        }
    } else {
        refuse()
    }
}

/// Answers `ECHO`.
pub fn handle_echo(vals: &Vec<RespData>) -> (out: Outcome)
    ensures
        out@ == echo_spec(frames_of(vals@)),
{
    if vals.len() == 2 {
        match arg_at(vals, 1) {
            Some(msg) => answer_with(&RespData::new_bulk(msg.as_slice())),
            None => refuse(),
        }
    } else {
        refuse()
    }
}

fn expiry_of(vals: &Vec<RespData>) -> (out: Option<u64>)
    ensures
        out == set_expiry(frames_of(vals@)),
{
    if vals.len() <= 3 {
        return Some(0);
    }
    match bulk_at(vals, 3) {
        Some(option) => {
            proof {
                reveal_strlit("px");
            }
            let px = bytes_of("px");
            if eq_ignore_case(option.as_slice(), px.as_slice()) {
                match bulk_at(vals, 4) {
                    Some(ms) => parse_u64(ms.as_slice()),
                    None => None,
                }
            } else {
                Some(0)
            }
        },
        None => None,
    }
}

/// Carries out `SET` at the time `now`, in milliseconds on the monotonic clock.
pub fn handle_set(state: &mut StateInner, vals: &Vec<RespData>, now: u64) -> (out: Outcome)
    requires
        old(state).wf(),
    ensures
        final(state).wf(),
        final(state)@ == set_spec(old(state)@, frames_of(vals@), now).0,
        out@ == set_spec(old(state)@, frames_of(vals@), now).1,
{
    if vals.len() < 3 || vals.len() > 5 {
        return refuse();
    }
    let key: &Vec<u8> = match arg_at(vals, 1) {
        Some(k) => k,
        None => {
            return refuse();
        },
    };
    let value: &Vec<u8> = match arg_at(vals, 2) {
        Some(v) => v,
        None => {
            return refuse();
        },
    };
    let has_expiry: u64 = match expiry_of(vals) {
        Some(ms) => ms,
        None => {
            return refuse();
        },
    };
    let insert_val = PersistedValue {
        data: copy_bytes(value.as_slice()),
        p_type: PersistedType::String,
        timestamp: now,
        expiry: has_expiry,
    };
    state.persisted.key_value.insert(key.as_slice(), insert_val);
    let effect = commit_on(&mut state.info, RespData::array_bytes(vals));
    let done = accept();
    Outcome { reply: done.reply, effect }
}

/// Answers `GET` at the time `now`, in milliseconds on the monotonic clock.
pub fn handle_get(state: &StateInner, vals: &Vec<RespData>, now: u64) -> (out: Outcome)
    requires
        state.wf(),
    ensures
        out@ == get_spec(state@, frames_of(vals@), now),
{
    if vals.len() != 2 {
        return refuse();
    }
    let key: &Vec<u8> = match arg_at(vals, 1) {
        Some(k) => k,
        None => {
            return refuse();
        },
    };
    match state.persisted.key_value.get(key.as_slice()) {
        Some(value) => {
            if value.is_expired(now) {
                answer_with(&RespData::BulkString(None))
            } else {
                answer_with(&RespData::new_bulk(value.data.as_slice()))
            }
        },
        None => answer_with(&RespData::BulkString(None)),
    }
}

/// Answers `TYPE`.
pub fn handle_type(state: &StateInner, vals: &Vec<RespData>) -> (out: Outcome)
    requires
        state.wf(),
    ensures
        out@ == type_spec(state@, frames_of(vals@)),
{
    if vals.len() != 2 {
        return refuse();
    }
    let key: &Vec<u8> = match arg_at(vals, 1) {
        Some(k) => k,
        None => {
            return refuse();
        },
    };
    proof {
        reveal_strlit("stream");
        reveal_strlit("string");
        reveal_strlit("none");
    }
    if state.persisted.stream.contains_key(key.as_slice()) {
        answer_with(&RespData::SimpleString(bytes_of("stream")))
    } else if state.persisted.key_value.contains_key(key.as_slice()) {
        answer_with(&RespData::SimpleString(bytes_of("string")))
    } else {
        answer_with(&RespData::SimpleString(bytes_of("none")))
    }
}

/// Reads the fields with their values from the fourth argument on.
fn read_pairs(vals: &Vec<RespData>) -> (out: Option<Vec<(Vec<u8>, Vec<u8>)>>)
    ensures
        match out {
            Some(pairs) => has_pairs(frames_of(vals@)) && pairs_of(pairs@) == pairs_from(
                frames_of(vals@),
            ),
            None => !has_pairs(frames_of(vals@)),
        },
{
    let ghost fs = frames_of(vals@);
    if vals.len() < 5 || (vals.len() - 3) % 2 != 0 {
        return None;
    }
    let mut stream_vals: Vec<(Vec<u8>, Vec<u8>)> = Vec::new();
    let mut i: usize = 3;
    while i < vals.len()
        invariant
            3 <= i <= vals.len(),
            vals.len() >= 5,
            (vals.len() - 3) % 2 == 0,
            (i - 3) % 2 == 0,
            fs == frames_of(vals@),
            stream_vals.len() == (i - 3) / 2,
            forall|j: int| 3 <= j < i ==> (#[trigger] bulk_arg(fs, j)) is Some,
            forall|k: int|
                0 <= k < stream_vals.len() ==> (#[trigger] stream_vals@[k]).0@ == bulk_arg(
                    fs,
                    3 + 2 * k,
                )->0 && stream_vals@[k].1@ == bulk_arg(fs, 4 + 2 * k)->0,
        decreases vals.len() - i,
    {
        let field: &Vec<u8> = match bulk_at(vals, i) {
            Some(f) => f,
            None => {
                assert(bulk_arg(fs, i as int) is None);
                return None;
            },
        };
        let value: &Vec<u8> = match bulk_at(vals, i + 1) {
            Some(v) => v,
            None => {
                assert(bulk_arg(fs, i + 1) is None);
                return None;
            },
        };
        stream_vals.push((copy_bytes(field.as_slice()), copy_bytes(value.as_slice())));
        i = i + 2;
    }
    assert(pairs_of(stream_vals@) =~= pairs_from(fs));
    Some(stream_vals)
}

/// Carries out `XADD` at the wall-clock time `wall`, in milliseconds since the epoch.
pub fn handle_xadd(state: &mut StateInner, vals: &Vec<RespData>, wall: u64) -> (out: Outcome)
    requires
        old(state).wf(),
    ensures
        final(state).wf(),
        final(state)@ == xadd_spec(old(state)@, frames_of(vals@), wall).0,
        out@ == xadd_spec(old(state)@, frames_of(vals@), wall).1,
{
    let stream_vals = match read_pairs(vals) {
        Some(pairs) => pairs,
        None => {
            return refuse();
        },
    };
    let stream_key: &Vec<u8> = match arg_at(vals, 1) {
        Some(k) => k,
        None => {
            return refuse();
        },
    };
    let id: &Vec<u8> = match arg_at(vals, 2) {
        Some(text) => text,
        None => {
            return refuse();
        },
    };
    proof {
        reveal_strlit("ERR The ID specified in XADD must be greater than 0-0");
        reveal_strlit(
            "ERR The ID specified in XADD is equal or smaller than the target stream top item",
        );
    }
    let insert_id = match StreamVal::parse_id(
        id.as_slice(),
        stream_key.as_slice(),
        &state.persisted.stream,
        wall,
    ) {
        Ok(v) => v,
        Err(StreamError::ParseError) => {
            return refuse();
        },
        Err(StreamError::IdShouldBeHigher) => {
            return handle_error(
                bytes_of("ERR The ID specified in XADD must be greater than 0-0").as_slice(),
            );
        },
        Err(StreamError::IllegalId) => {
            return handle_error(
                bytes_of(
                    "ERR The ID specified in XADD is equal or smaller than the target stream top item",
                ).as_slice(),
            );
        },
    };
    let insert_val = StreamVal { id: insert_id, pairs: stream_vals };
    match state.persisted.stream.insert(stream_key.as_slice(), insert_val) {
        Ok(new_id) => {
            let effect = commit_on(&mut state.info, RespData::array_bytes(vals));
            Outcome { reply: RespData::BulkString(Some(new_id)).as_bytes(), effect }
        },
        Err(StreamError::IdShouldBeHigher) => handle_error(
            bytes_of("ERR The ID specified in XADD must be greater than 0-0").as_slice(),
        ),
        Err(_) => handle_error(
            bytes_of(
                "ERR The ID specified in XADD is equal or smaller than the target stream top item",
            ).as_slice(),
        ),
    }
}

/// Answers `XRANGE`.
pub fn handle_xrange(state: &StateInner, vals: &Vec<RespData>) -> (out: Outcome)
    requires
        state.wf(),
    ensures
        out@ == xrange_spec(state@, frames_of(vals@)),
{
    if vals.len() != 4 {
        return refuse();
    }
    let stream_key: &Vec<u8> = match arg_at(vals, 1) {
        Some(k) => k,
        None => {
            return refuse();
        },
    };
    let start_text: &Vec<u8> = match arg_at(vals, 2) {
        Some(t) => t,
        None => {
            return refuse();
        },
    };
    let end_text: &Vec<u8> = match arg_at(vals, 3) {
        Some(t) => t,
        None => {
            return refuse();
        },
    };
    let start = match StreamVal::parse_range_start(start_text.as_slice()) {
        Some(b) => b,
        None => {
            return refuse();
        },
    };
    let end = match StreamVal::parse_range_end(end_text.as_slice()) {
        Some(b) => b,
        None => {
            return refuse();
        },
    };
    let streams = &state.persisted.stream;
    let range: Vec<StreamVal> = if start.0 == 0 && start.1 == 0 {
        streams.get_range_to_start(stream_key.as_slice(), end)
    } else if end.0 == u64::MAX && end.1 == u64::MAX {
        proof {
            lemma_range_to_last(stream_of(state@.streams, stream_key@), start);
        }
        streams.get_range(stream_key.as_slice(), start, end, Some(true))
    } else {
        streams.get_range(stream_key.as_slice(), start, end, None)
    };
    let mut items: Vec<RespData> = Vec::new();
    let mut i: usize = 0;
    while i < range.len()
        invariant
            i <= range.len(),
            items.len() == i,
            forall|j: int|
                0 <= j < i ==> (#[trigger] items@[j])@ == entry_frames(entries_of(range@))[j],
        decreases range.len() - i,
    {
        items.push(range[i].to_resp());
        i = i + 1;
    }
    proof {
        lemma_view_elements(items);
        assert(frames_of(items@) =~= entry_frames(entries_of(range@)));
    }
    answer_with(&RespData::Array(items))
}

/// Answers `INFO`.
pub fn handle_info(state: &StateInner, vals: &Vec<RespData>) -> (out: Outcome)
    ensures
        out@ == info_spec(state@, frames_of(vals@)),
{
    if vals.len() != 2 {
        return refuse();
    }
    match bulk_at(vals, 1) {
        Some(val) => {
            proof {
                reveal_strlit("replication");
            }
            let section = bytes_of("replication");
            if bytes_eq(val.as_slice(), section.as_slice()) {
                answer_with(&state.info.replication())
            } else {
                refuse()
            }
        },
        None => refuse(),
    }
}

fn ack_bytes(offset: u64) -> (out: Vec<u8>)
    ensures
        out@ == ack_message(offset),
{
    proof {
        reveal_strlit("REPLCONF");
        reveal_strlit("ACK");
    }
    let mut number: Vec<u8> = Vec::new();
    push_decimal(&mut number, offset);
    assert(number@ =~= decimal(offset as nat));
    let mut words: Vec<Vec<u8>> = Vec::new();
    words.push(bytes_of("REPLCONF"));
    words.push(bytes_of("ACK"));
    words.push(number);
    assert(words_of(words@) =~= seq![ascii("REPLCONF"), ascii("ACK"), decimal(offset as nat)]);
    RespData::new_bulk_array(&words).as_bytes()
}

fn getack_bytes() -> (out: Vec<u8>)
    ensures
        out@ == getack_message(),
{
    proof {
        reveal_strlit("REPLCONF");
        reveal_strlit("GETACK");
        reveal_strlit("*");
    }
    let mut words: Vec<Vec<u8>> = Vec::new();
    words.push(bytes_of("REPLCONF"));
    words.push(bytes_of("GETACK"));
    words.push(bytes_of("*"));
    assert(words_of(words@) =~= seq![ascii("REPLCONF"), ascii("GETACK"), ascii("*")]);
    RespData::new_bulk_array(&words).as_bytes()
}

/// Carries out `REPLCONF`.
pub fn handle_replconf(state: &mut StateInner, vals: &Vec<RespData>) -> (out: Outcome)
    requires
        old(state).wf(),
    ensures
        final(state).wf(),
        final(state)@ == replconf_spec(old(state)@, frames_of(vals@)).0,
        out@ == replconf_spec(old(state)@, frames_of(vals@)).1,
{
    if vals.len() < 3 {
        return refuse();
    }
    let sub: &Vec<u8> = match bulk_at(vals, 1) {
        Some(s) => s,
        None => {
            return refuse();
        },
    };
    proof {
        reveal_strlit("getack");
        reveal_strlit("listening-port");
        reveal_strlit("Slave can't treat REPLCONF");
    }
    let getack = bytes_of("getack");
    let listening_port = bytes_of("listening-port");
    if eq_ignore_case(sub.as_slice(), getack.as_slice()) {
        let reply = match &state.info.role {
            Role::Master(master) => ack_bytes(master.offset),
            Role::Slave(slave) => ack_bytes(slave.offset),
        };
        let effect = commit_on(&mut state.info, getack_bytes());
        Outcome { reply, effect }
    } else if eq_ignore_case(sub.as_slice(), listening_port.as_slice()) {
        match &mut state.info.role {
            Role::Master(master) => {
                let text: &Vec<u8> = match bulk_at(vals, 2) {
                    Some(t) => t,
                    None => {
                        return refuse();
                    },
                };
                let port: u16 = match parse_u16(text.as_slice()) {
                    Some(p) => p,
                    None => {
                        return refuse();
                    },
                };
                master.register(port);
                let done = accept();
                Outcome { reply: done.reply, effect: Effect::Register(port) }
            },
            Role::Slave(_) => handle_error(bytes_of("Slave can't treat REPLCONF").as_slice()),
        }
    } else {
        accept()
    }
}

/// The snapshot of an empty database.
fn empty_rdb() -> (out: Vec<u8>)
    ensures
        out@ == empty_snapshot(),
{
    proof {
        reveal_strlit(
            "524544495330303131fa0972656469732d76657205372e322e30fa0a72656469732d62697473c040fa056374696d65c26d08bc65fa08757365642d6d656dc2b0c41000fa08616f662d62617365c000fff06e3bfec0ff5aa2",
        );
    }
    let hex = bytes_of(
        "524544495330303131fa0972656469732d76657205372e322e30fa0a72656469732d62697473c040fa056374696d65c26d08bc65fa08757365642d6d656dc2b0c41000fa08616f662d62617365c000fff06e3bfec0ff5aa2",
    );
    decode_hex(hex.as_slice())
}

/// Answers `PSYNC` from a sender that has announced the port `announced`, if it has.
pub fn handle_psync(state: &mut StateInner, vals: &Vec<RespData>, announced: Option<u16>) -> (out:
    Outcome)
    requires
        old(state).wf(),
    ensures
        final(state).wf(),
        final(state)@ == psync_spec(old(state)@, frames_of(vals@), announced).0,
        out@ == psync_spec(old(state)@, frames_of(vals@), announced).1,
{
    if vals.len() != 3 {
        return refuse();
    }
    match &mut state.info.role {
        Role::Master(master) => {
            proof {
                reveal_strlit("FULLRESYNC ");
            }
            let mut line = bytes_of("FULLRESYNC ");
            append_bytes(&mut line, master.replication_id.as_slice());
            line.push(32u8);
            push_decimal(&mut line, master.offset);
            assert(line@ =~= ascii("FULLRESYNC ") + master@.replication_id + seq![32u8] + decimal(
                master.offset as nat,
            ));
            let mut reply = RespData::SimpleString(line).as_bytes();
            let res = empty_rdb();
            reply.push(36u8);
            push_decimal(&mut reply, res.len() as u64);
            reply.push(13u8);
            reply.push(10u8);
            append_bytes(&mut reply, res.as_slice());
            assert(reply@ =~= full_resync(master@));
            match announced {
                Some(port) => {
                    master.register(port);
                    Outcome { reply, effect: Effect::Register(port) }
                },
                None => Outcome { reply, effect: Effect::Local },
            }
        },
        Role::Slave(_) => {
            proof {
                reveal_strlit("Slave can't handle PSYNC");
            }
            handle_error(bytes_of("Slave can't handle PSYNC").as_slice())
        },
    }
}

fn named(command: &Vec<u8>, name: &str) -> (out: bool)
    requires
        name.is_ascii(),
    ensures
        out == same_word(command@, ascii(name)),
{
    let word = bytes_of(name);
    eq_ignore_case(command.as_slice(), word.as_slice())
}

/// Carries out one request at the time `now` on the monotonic clock and `wall` on the
/// wall clock, both in milliseconds, from a sender that has announced the listening port
/// `announced`, if it has: the state after it, the answer, and what else is to be done.
pub fn handle_request(
    state: &mut StateInner,
    req: &Resp,
    announced: Option<u16>,
    now: u64,
    wall: u64,
) -> (out: Outcome)
    requires
        old(state).wf(),
    ensures
        final(state).wf(),
        final(state)@ == request_spec(old(state)@, req.data@, announced, now, wall).0,
        out@ == request_spec(old(state)@, req.data@, announced, now, wall).1,
{
    dispatch(state, &req.data, announced, now, wall)
}

/// Carries out the request that `frame` holds.
pub fn dispatch(
    state: &mut StateInner,
    frame: &RespData,
    announced: Option<u16>,
    now: u64,
    wall: u64,
) -> (out: Outcome)
    requires
        old(state).wf(),
    ensures
        final(state).wf(),
        final(state)@ == request_spec(old(state)@, frame@, announced, now, wall).0,
        out@ == request_spec(old(state)@, frame@, announced, now, wall).1,
{
    match frame {
        RespData::Array(vals) => {
            proof {
                lemma_view_elements(*vals);
                reveal_strlit("xadd");
                reveal_strlit("xrange");
                reveal_strlit("ping");
                reveal_strlit("echo");
                reveal_strlit("set");
                reveal_strlit("get");
                reveal_strlit("type");
                reveal_strlit("info");
                reveal_strlit("replconf");
                reveal_strlit("psync");
                reveal_strlit("Unexpected command");
            }
            match bulk_at(vals, 0) {
                Some(command) => {
                    if named(command, "xadd") {
                        handle_xadd(state, vals, wall)
                    } else if named(command, "xrange") {
                        handle_xrange(state, vals)
                    } else if named(command, "ping") {
                        handle_ping(vals)
                    } else if named(command, "echo") {
                        handle_echo(vals)
                    } else if named(command, "set") {
                        handle_set(state, vals, now)
                    } else if named(command, "get") {
                        handle_get(state, vals, now)
                    } else if named(command, "type") {
                        handle_type(state, vals)
                    } else if named(command, "info") {
                        handle_info(state, vals)
                    } else if named(command, "replconf") {
                        handle_replconf(state, vals)
                    } else if named(command, "psync") {
                        handle_psync(state, vals, announced)
                    } else {
                        handle_error(bytes_of("Unexpected command").as_slice())
                    }
                },
                None => refuse(),
            }
        },
        _ => refuse(),
    }
}

} // verus!
