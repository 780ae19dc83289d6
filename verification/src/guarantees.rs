//! What holds of the server whatever its state: what a read finds after a write, how
//! streams grow, that reads may split a request, what reaches the replicas and in which
//! order, how a handshake runs between a replica and a primary, and what a replica tells
//! of its offset.
use crate::bytes::{
    ascii, decimal, is_digit, lemma_decimal_digits, lemma_decimal_len, lemma_parse_decimal, lower,
    lower_byte, same_word,
};
use crate::connection::{
    apply_all, apply_spec, is_getack, receive, serve_all, ConnectionView, Received, Served,
};
use crate::handler::{
    ack_message, announced_after, answer, arg, bulk_arg, empty_snapshot, full_resync, has_pairs,
    ok, psync_spec, replconf_spec, id_not_above_top, id_too_small, pairs_from,
    request_spec, set_expiry, set_spec, xadd_spec, EffectView, OutcomeView, StateView,
};
use crate::parse::{
    bulk, command, crlf, decode, encode, encode_all, lemma_encode_all_push, Decoding, Frame, Parse,
    MAX_DEPTH,
};
use crate::persistence::kv_pair::{read, Value};
use crate::persistence::stream::{
    id_lt, id_text, insert_check, lemma_append_keeps_order, lemma_id_text_resolves, ordered,
    resolve_id, top_id, Entry,
};
use crate::roundtrip::{
    decode_encoded_frame, decode_inverts_encode, decode_resumes, decoded_frames_are_wire,
    lemma_command_is_wire, lemma_decode_consumed,
    lemma_line, lemma_no_cr_unbroken, lemma_parse_encoded, wire_frame, wire_frames,
};
use crate::server::{
    add_capped, await_reply, capa_request, handshake_step, is_hex, is_replication_id, moved,
    ping_request, port_request, psync_reply, psync_request, role_wf, ActionView, EventView,
    HandshakeState, MasterView, SlaveView,
};
use vstd::prelude::*;

verus! {

/// Words that are equal up to the case of their letters have the same length.
proof fn lemma_same_word_len(a: Seq<u8>, b: Seq<u8>)
    ensures
        same_word(a, b) ==> a.len() == b.len(),
{
    if same_word(a, b) {
        assert(lower(a).len() == lower(b).len());
    }
}

/// Which command a name selects, told by its length and its letters.
proof fn lemma_names(name: Seq<u8>)
    ensures
        same_word(name, ascii("set")) ==> !same_word(name, ascii("xadd")) && !same_word(
            name,
            ascii("xrange"),
        ) && !same_word(name, ascii("ping")) && !same_word(name, ascii("echo")),
        same_word(name, ascii("get")) ==> !same_word(name, ascii("xadd")) && !same_word(
            name,
            ascii("xrange"),
        ) && !same_word(name, ascii("ping")) && !same_word(name, ascii("echo")) && !same_word(
            name,
            ascii("set"),
        ),
        same_word(name, ascii("replconf")) ==> !same_word(name, ascii("xadd")) && !same_word(
            name,
            ascii("xrange"),
        ) && !same_word(name, ascii("ping")) && !same_word(name, ascii("echo")) && !same_word(
            name,
            ascii("set"),
        ) && !same_word(name, ascii("get")) && !same_word(name, ascii("type")) && !same_word(
            name,
            ascii("info"),
        ),
{
    reveal_strlit("xadd");
    reveal_strlit("xrange");
    reveal_strlit("ping");
    reveal_strlit("echo");
    reveal_strlit("set");
    reveal_strlit("get");
    reveal_strlit("type");
    reveal_strlit("info");
    reveal_strlit("replconf");
    lemma_same_word_len(name, ascii("xadd"));
    lemma_same_word_len(name, ascii("xrange"));
    lemma_same_word_len(name, ascii("ping"));
    lemma_same_word_len(name, ascii("echo"));
    lemma_same_word_len(name, ascii("set"));
    lemma_same_word_len(name, ascii("get"));
    lemma_same_word_len(name, ascii("type"));
    lemma_same_word_len(name, ascii("info"));
    lemma_same_word_len(name, ascii("replconf"));
    if same_word(name, ascii("get")) && same_word(name, ascii("set")) {
        assert(lower(name)[0] == lower(ascii("get"))[0]);
        assert(lower(name)[0] == lower(ascii("set"))[0]);
    }
}

/// After `SET k v`, a `GET k` at any later time is answered with `v` as a bulk string.
pub proof fn get_after_set(
    st: StateView,
    set_name: Seq<u8>,
    get_name: Seq<u8>,
    k: Seq<u8>,
    v: Seq<u8>,
    announced: Option<u16>,
    now: u64,
    later: u64,
    wall: u64,
)
    requires
        same_word(set_name, ascii("set")),
        same_word(get_name, ascii("get")),
    ensures
        ({
            let written = request_spec(st, command(seq![set_name, k, v]), announced, now, wall).0;
            request_spec(written, command(seq![get_name, k]), announced, later, wall).1.reply
                == encode(bulk(v))
        }),
{
    lemma_names(set_name);
    lemma_names(get_name);
    let set_vals = command(seq![set_name, k, v])->Array_0;
    let get_vals = command(seq![get_name, k])->Array_0;
    assert(bulk_arg(set_vals, 0) == Some(set_name));
    assert(arg(set_vals, 1) == Some(k));
    assert(arg(set_vals, 2) == Some(v));
    assert(bulk_arg(get_vals, 0) == Some(get_name));
    assert(arg(get_vals, 1) == Some(k));
    let written = set_spec(st, set_vals, now).0;
    assert(written.strings[k].expiry == 0);
    assert(read(written.strings, k, later) == Some(v));
}

/// After `SET k v PX t` with `t` above 0, written at the time `now`, a `GET k` is
/// answered with `v` until `t` milliseconds have passed, and with the null string once
/// more than `t` milliseconds have passed.
pub proof fn get_after_expiry(
    st: StateView,
    set_name: Seq<u8>,
    get_name: Seq<u8>,
    px: Seq<u8>,
    k: Seq<u8>,
    v: Seq<u8>,
    t: u64,
    announced: Option<u16>,
    now: u64,
    later: u64,
    wall: u64,
)
    requires
        same_word(set_name, ascii("set")),
        same_word(get_name, ascii("get")),
        same_word(px, ascii("px")),
        t > 0,
    ensures
        ({
            let written = request_spec(
                st,
                command(seq![set_name, k, v, px, decimal(t as nat)]),
                announced,
                now,
                wall,
            ).0;
            let found = request_spec(
                written,
                command(seq![get_name, k]),
                announced,
                later,
                wall,
            ).1.reply;
            &&& later - now > t ==> found == encode(Frame::BulkString(None))
            &&& later - now <= t ==> found == encode(bulk(v))
        }),
{
    lemma_names(set_name);
    lemma_names(get_name);
    lemma_parse_decimal(t as nat);
    let set_vals = command(seq![set_name, k, v, px, decimal(t as nat)])->Array_0;
    let get_vals = command(seq![get_name, k])->Array_0;
    assert(bulk_arg(set_vals, 0) == Some(set_name));
    assert(arg(set_vals, 1) == Some(k));
    assert(arg(set_vals, 2) == Some(v));
    assert(bulk_arg(set_vals, 3) == Some(px));
    assert(bulk_arg(set_vals, 4) == Some(decimal(t as nat)));
    assert(set_expiry(set_vals) == Some(t));
    assert(bulk_arg(get_vals, 0) == Some(get_name));
    assert(arg(get_vals, 1) == Some(k));
    let written = set_spec(st, set_vals, now).0;
    assert(written.strings[k] == Value { data: v, timestamp: now, expiry: t });
}

/// Whatever requests a server carries out, in whatever order, its streams stay in
/// strictly ascending order of their identifiers.
pub proof fn requests_keep_streams_ordered(
    st: StateView,
    announced: Option<u16>,
    reqs: Seq<Frame>,
    now: u64,
    wall: u64,
)
    requires
        ordered(st.streams),
    ensures
        ordered(serve_all(st, announced, reqs, now, wall).state.streams),
    decreases reqs.len(),
{
    if reqs.len() > 0 {
        requests_keep_streams_ordered(st, announced, reqs.drop_last(), now, wall);
        let before = serve_all(st, announced, reqs.drop_last(), now, wall);
        request_keeps_streams_ordered(before.state, reqs.last(), before.announced, now, wall);
    }
}

/// One request leaves the streams in strictly ascending order of their identifiers.
pub proof fn request_keeps_streams_ordered(
    st: StateView,
    req: Frame,
    announced: Option<u16>,
    now: u64,
    wall: u64,
)
    requires
        ordered(st.streams),
    ensures
        ordered(request_spec(st, req, announced, now, wall).0.streams),
{
    match req {
        Frame::Array(vals) => match bulk_arg(vals, 0) {
            Some(name) => {
                if same_word(name, ascii("xadd")) {
                    if has_pairs(vals) && arg(vals, 1) is Some && arg(vals, 2) is Some {
                        let key = arg(vals, 1)->0;
                        match resolve_id(arg(vals, 2)->0, top_id(st.streams, key), wall) {
                            Ok(id) => {
                                if insert_check(st.streams, key, id) is Ok {
                                    let entry = Entry { id: id, pairs: pairs_from(vals) };
                                    lemma_append_keeps_order(st.streams, key, entry);
                                }
                            },
                            Err(_) => {},
                        }
                    }
                }
            },
            None => {},
        },
        _ => {},
    }
}

/// An append under the identifier `0-0` is always refused, with the error that says that
/// the identifier must be greater than `0-0`, and leaves the state as it was.
pub proof fn xadd_zero_id_refused(
    st: StateView,
    vals: Seq<Frame>,
    announced: Option<u16>,
    now: u64,
    wall: u64,
)
    requires
        bulk_arg(vals, 0) is Some,
        same_word(bulk_arg(vals, 0)->0, ascii("xadd")),
        has_pairs(vals),
        arg(vals, 1) is Some,
        arg(vals, 2) == Some(ascii("0-0")),
    ensures
        request_spec(st, Frame::Array(vals), announced, now, wall) == (st, id_too_small()),
{
    reveal_strlit("0-0");
    let s = ascii("0-0");
    let zero: (u64, u32) = (0u64, 0u32);
    assert(s =~= id_text(zero)) by {
        assert(decimal(0) =~= seq![48u8]);
    }
    lemma_id_text_resolves(zero, top_id(st.streams, arg(vals, 1)->0), wall);
}

/// After an append under the identifier `a` was accepted, an append to the same stream
/// under an identifier `b` that is not above `a`, and is not `0-0`, is refused with the
/// error that says that the identifier is equal or smaller than the stream's top item,
/// and leaves the state as it was.
pub proof fn xadd_not_above_refused(
    st: StateView,
    first: Seq<Frame>,
    second: Seq<Frame>,
    a: (u64, u32),
    b: (u64, u32),
    announced: Option<u16>,
    now: u64,
    wall: u64,
)
    requires
        bulk_arg(first, 0) is Some,
        same_word(bulk_arg(first, 0)->0, ascii("xadd")),
        bulk_arg(second, 0) is Some,
        same_word(bulk_arg(second, 0)->0, ascii("xadd")),
        has_pairs(first),
        has_pairs(second),
        arg(first, 1) is Some,
        arg(second, 1) == arg(first, 1),
        arg(first, 2) == Some(id_text(a)),
        arg(second, 2) == Some(id_text(b)),
        insert_check(st.streams, arg(first, 1)->0, a) is Ok,
        !id_lt(a, b),
        !(b.0 == 0 && b.1 == 0),
    ensures
        ({
            let appended = request_spec(st, Frame::Array(first), announced, now, wall);
            &&& appended.1.reply == encode(bulk(id_text(a)))
            &&& request_spec(appended.0, Frame::Array(second), announced, now, wall) == (
                appended.0,
                id_not_above_top(),
            )
        }),
{
    let key = arg(first, 1)->0;
    lemma_id_text_resolves(a, top_id(st.streams, key), wall);
    let appended = xadd_spec(st, first, wall).0;
    assert(appended.streams[key].last().id == a);
    assert(top_id(appended.streams, key) == Some(a));
    lemma_id_text_resolves(b, top_id(appended.streams, key), wall);
}

/// Whether `f` is a `SET` or an `XADD`.
pub open spec fn is_write(f: Frame) -> bool {
    match f {
        Frame::Array(vals) => bulk_arg(vals, 0) is Some && (same_word(
            bulk_arg(vals, 0)->0,
            ascii("set"),
        ) || same_word(bulk_arg(vals, 0)->0, ascii("xadd"))),
        _ => false,
    }
}

/// The bytes that the outcomes hand on to the replicas, in the order of the outcomes.
pub open spec fn handed_on(outs: Seq<OutcomeView>) -> Seq<u8>
    decreases outs.len(),
{
    if outs.len() == 0 {
        Seq::empty()
    } else {
        handed_on(outs.drop_last()) + (match outs.last().effect {
            EffectView::Propagate(p) => p,
            _ => Seq::empty(),
        })
    }
}

/// The requests whose outcome hands something on to the replicas, in the order in which
/// they came.
pub open spec fn committed(reqs: Seq<Frame>, outs: Seq<OutcomeView>) -> Seq<Frame>
    decreases reqs.len(),
{
    if reqs.len() == 0 || outs.len() != reqs.len() {
        Seq::empty()
    } else {
        committed(reqs.drop_last(), outs.drop_last()) + (if outs.last().effect is Propagate {
            seq![reqs.last()]
        } else {
            Seq::empty()
        })
    }
}

/// A `SET` or an `XADD` on a primary is either committed, and then handed on to the
/// replicas as the encoding of the request itself, or refused, and then the state is
/// left as it was. On a replica nothing is handed on.
pub proof fn write_is_handed_on(
    st: StateView,
    req: Frame,
    announced: Option<u16>,
    now: u64,
    wall: u64,
)
    requires
        is_write(req),
    ensures
        match request_spec(st, req, announced, now, wall).1.effect {
            EffectView::Propagate(p) => p == encode(req) && st.info.role is Master,
            EffectView::Local => st.info.role is Slave || request_spec(
                st,
                req,
                announced,
                now,
                wall,
            ).0 == st,
            EffectView::Register(_) => false,
        },
{
    let vals = req->Array_0;
    lemma_names(bulk_arg(vals, 0)->0);
}

/// What a primary hands on to its replicas for a run of `SET` and `XADD` requests is the
/// encodings of the committed requests, one after the other in the order in which they
/// were carried out; so a replica that decodes what it receives finds exactly those
/// requests, in that order.
pub proof fn replicas_see_writes_in_order(
    st: StateView,
    announced: Option<u16>,
    reqs: Seq<Frame>,
    now: u64,
    wall: u64,
)
    requires
        forall|i: int| 0 <= i < reqs.len() ==> is_write(#[trigger] reqs[i]),
    ensures
        ({
            let outs = serve_all(st, announced, reqs, now, wall).outcomes;
            let sent = committed(reqs, outs);
            &&& outs.len() == reqs.len()
            &&& handed_on(outs) == encode_all(sent)
            &&& wire_frames(reqs, MAX_DEPTH as nat) ==> wire_frames(sent, MAX_DEPTH as nat)
                && decode(handed_on(outs)) == Some(
                Decoding { frames: sent, consumed: handed_on(outs).len(), incomplete: false },
            )
        }),
    decreases reqs.len(),
{
    let outs = serve_all(st, announced, reqs, now, wall).outcomes;
    let sent = committed(reqs, outs);
    if reqs.len() > 0 {
        let head = reqs.drop_last();
        replicas_see_writes_in_order(st, announced, head, now, wall);
        let before = serve_all(st, announced, head, now, wall);
        write_is_handed_on(before.state, reqs.last(), before.announced, now, wall);
        let step = request_spec(before.state, reqs.last(), before.announced, now, wall);
        assert(outs == before.outcomes.push(step.1));
        assert(outs.drop_last() =~= before.outcomes);
        assert(outs.last() == step.1);
        let sent_before = committed(head, before.outcomes);
        if step.1.effect is Propagate {
            assert(sent =~= sent_before.push(reqs.last()));
            lemma_encode_all_push(sent_before, reqs.last());
        } else {
            assert(sent =~= sent_before);
            assert(handed_on(outs) =~= handed_on(before.outcomes));
        }
        if wire_frames(reqs, MAX_DEPTH as nat) {
            assert(wire_frames(head, MAX_DEPTH as nat)) by {
                assert forall|i: int| 0 <= i < head.len() implies wire_frame(
                    #[trigger] head[i],
                    MAX_DEPTH as nat,
                ) by {
                    assert(head[i] == reqs[i]);
                }
            }
            assert(wire_frame(reqs[reqs.len() - 1], MAX_DEPTH as nat));
            assert(wire_frames(sent, MAX_DEPTH as nat));
        }
    }
    if wire_frames(reqs, MAX_DEPTH as nat) {
        decode_inverts_encode(sent);
    }
}

/// Carrying out one run of requests and then another is carrying out the two as one.
pub proof fn lemma_serve_all_concat(
    st: StateView,
    announced: Option<u16>,
    first: Seq<Frame>,
    second: Seq<Frame>,
    now: u64,
    wall: u64,
)
    ensures
        ({
            let before = serve_all(st, announced, first, now, wall);
            let after = serve_all(before.state, before.announced, second, now, wall);
            serve_all(st, announced, first + second, now, wall) == (Served {
                state: after.state,
                announced: after.announced,
                outcomes: before.outcomes + after.outcomes,
            })
        }),
    decreases second.len(),
{
    let before = serve_all(st, announced, first, now, wall);
    if second.len() == 0 {
        assert(first + second =~= first);
        assert(before.outcomes + Seq::<OutcomeView>::empty() =~= before.outcomes);
    } else {
        let head = second.drop_last();
        lemma_serve_all_concat(st, announced, first, head, now, wall);
        assert((first + second).drop_last() =~= first + head);
        assert((first + second).last() == second.last());
        let middle = serve_all(before.state, before.announced, head, now, wall);
        let step = request_spec(middle.state, second.last(), middle.announced, now, wall);
        assert((before.outcomes + middle.outcomes).push(step.1) =~= before.outcomes
            + middle.outcomes.push(step.1));
    }
}

/// Bytes that come in two reads are served as if they had come in one: the requests are
/// carried out in the same order with the same outcomes, the state and the connection
/// end up the same, and no byte is lost between the reads.
pub proof fn split_reads_are_served_alike(
    st: StateView,
    conn: ConnectionView,
    a: Seq<u8>,
    b: Seq<u8>,
    now: u64,
    wall: u64,
)
    requires
        receive(st, conn, a, now, wall) is Some,
    ensures
        ({
            let first = receive(st, conn, a, now, wall)->0;
            receive(st, conn, a + b, now, wall) == (match receive(
                first.state,
                first.connection,
                b,
                now,
                wall,
            ) {
                Some(second) => Some(
                    Received {
                        state: second.state,
                        connection: second.connection,
                        outcomes: first.outcomes + second.outcomes,
                    },
                ),
                None => None,
            })
        }),
{
    let whole = conn.carry + a;
    let d1 = decode(whole)->0;
    decode_resumes(whole, b);
    lemma_decode_consumed(whole);
    assert(conn.carry + (a + b) =~= whole + b);
    let kept = whole.skip(d1.consumed as int);
    match decode(kept + b) {
        Some(d2) => {
            lemma_serve_all_concat(st, conn.announced, d1.frames, d2.frames, now, wall);
            lemma_decode_consumed(kept + b);
            assert((whole + b).skip((d1.consumed + d2.consumed) as int) =~= (kept + b).skip(
                d2.consumed as int,
            ));
        },
        None => {},
    }
}

/// A primary counts what it hands on: after a run of requests, whatever they are, its
/// offset has grown by the number of bytes that the outcomes hand on to the replicas,
/// where that fits in 64 bits.
pub proof fn primary_counts_what_it_hands_on(
    st: StateView,
    announced: Option<u16>,
    reqs: Seq<Frame>,
    now: u64,
    wall: u64,
)
    requires
        st.info.role is Master,
        st.info.role->Master_0.offset + handed_on(
            serve_all(st, announced, reqs, now, wall).outcomes,
        ).len() <= u64::MAX,
    ensures
        serve_all(st, announced, reqs, now, wall).state.info.role is Master,
        serve_all(st, announced, reqs, now, wall).state.info.role->Master_0.offset
            == st.info.role->Master_0.offset + handed_on(
            serve_all(st, announced, reqs, now, wall).outcomes,
        ).len(),
    decreases reqs.len(),
{
    if reqs.len() > 0 {
        let head = reqs.drop_last();
        let before = serve_all(st, announced, head, now, wall);
        let step = request_spec(before.state, reqs.last(), before.announced, now, wall);
        let outs = serve_all(st, announced, reqs, now, wall).outcomes;
        assert(outs.drop_last() =~= before.outcomes);
        assert(outs.last() == step.1);
        primary_counts_what_it_hands_on(st, announced, head, now, wall);
        lemma_request_counts(before.state, reqs.last(), before.announced, now, wall);
    }
}

/// One request on a primary leaves it a primary, and its offset as it was unless the
/// outcome hands bytes on to the replicas, which are then counted.
pub proof fn lemma_request_counts(
    st: StateView,
    req: Frame,
    announced: Option<u16>,
    now: u64,
    wall: u64,
)
    requires
        st.info.role is Master,
    ensures
        ({
            let done = request_spec(st, req, announced, now, wall);
            &&& done.0.info.role is Master
            &&& done.0.info.role->Master_0.offset == (match done.1.effect {
                EffectView::Propagate(p) => add_capped(st.info.role->Master_0.offset, p.len()),
                _ => st.info.role->Master_0.offset,
            })
        }),
{
}

/// What a primary hands on for the `SET` and `XADD` requests that one buffer of a client
/// held is read back by a replica as the committed requests, in order, whatever the
/// client's bytes were.
pub proof fn replicas_decode_what_clients_sent(
    st: StateView,
    announced: Option<u16>,
    buf: Seq<u8>,
    now: u64,
    wall: u64,
)
    requires
        decode(buf) is Some,
        forall|i: int|
            0 <= i < decode(buf)->0.frames.len() ==> is_write(#[trigger] decode(buf)->0.frames[i]),
    ensures
        ({
            let reqs = decode(buf)->0.frames;
            let outs = serve_all(st, announced, reqs, now, wall).outcomes;
            decode(handed_on(outs)) == Some(
                Decoding {
                    frames: committed(reqs, outs),
                    consumed: handed_on(outs).len(),
                    incomplete: false,
                },
            )
        }),
{
    decoded_frames_are_wire(buf);
    replicas_see_writes_in_order(st, announced, decode(buf)->0.frames, now, wall);
}

/// A primary that answers `PSYNC` from a sender that has announced its port has that
/// sender among its replicas from then on, whether it was there before or not.
pub proof fn psync_promotes_sender(
    st: StateView,
    vals: Seq<Frame>,
    port: u16,
    now: u64,
    wall: u64,
)
    requires
        st.info.role is Master,
        bulk_arg(vals, 0) is Some,
        same_word(bulk_arg(vals, 0)->0, ascii("psync")),
        vals.len() == 3,
    ensures
        ({
            let done = request_spec(st, Frame::Array(vals), Some(port), now, wall);
            &&& done.0.info.role is Master
            &&& done.0.info.role->Master_0.replicas.contains(port)
            &&& done.1.effect == EffectView::Register(port)
        }),
{
    reveal_strlit("xadd");
    reveal_strlit("xrange");
    reveal_strlit("ping");
    reveal_strlit("echo");
    reveal_strlit("set");
    reveal_strlit("get");
    reveal_strlit("type");
    reveal_strlit("info");
    reveal_strlit("replconf");
    reveal_strlit("psync");
    let name = bulk_arg(vals, 0)->0;
    lemma_same_word_len(name, ascii("psync"));
    lemma_same_word_len(name, ascii("xadd"));
    lemma_same_word_len(name, ascii("xrange"));
    lemma_same_word_len(name, ascii("ping"));
    lemma_same_word_len(name, ascii("echo"));
    lemma_same_word_len(name, ascii("set"));
    lemma_same_word_len(name, ascii("get"));
    lemma_same_word_len(name, ascii("type"));
    lemma_same_word_len(name, ascii("info"));
    lemma_same_word_len(name, ascii("replconf"));
    let before = st.info.role->Master_0.replicas;
    if !before.contains(port) {
        assert(before.push(port)[before.len() as int] == port);
    }
}

/// The snapshot of an empty database has 88 bytes.
pub proof fn lemma_snapshot_len()
    ensures
        empty_snapshot().len() == 88,
{
    reveal_strlit(
        "524544495330303131fa0972656469732d76657205372e322e30fa0a72656469732d62697473c040fa056374696d65c26d08bc65fa08757365642d6d656dc2b0c41000fa08616f662d62617365c000fff06e3bfec0ff5aa2",
    );
}

/// What a primary answers to `PSYNC` is what a replica awaits after it: the replica reads
/// the full resync line and the snapshot, takes exactly the bytes of the answer, and
/// leaves what follows them.
pub proof fn replica_accepts_full_resync(m: MasterView, rest: Seq<u8>)
    requires
        is_replication_id(m.replication_id),
    ensures
        psync_reply(full_resync(m) + rest) matches Parse::Complete(_, used) && used == full_resync(
            m,
        ).len(),
{
    reveal_strlit("FULLRESYNC ");
    lemma_snapshot_len();
    let word = ascii("FULLRESYNC ");
    let number = decimal(m.offset as nat);
    let text = word + m.replication_id + seq![32u8] + number;
    let line = Frame::SimpleString(text);
    let blob = empty_snapshot();
    let size = decimal(blob.len());
    let snapshot = seq![36u8] + size + crlf() + blob;
    let s = full_resync(m) + rest;
    lemma_decimal_digits(m.offset as nat);
    assert forall|i: int| 0 <= i < text.len() implies text[i] != 13 by {
        if i < word.len() {
            assert(text[i] == word[i]);
        } else if i < word.len() + 40 {
            assert(text[i] == m.replication_id[i - word.len()]);
            assert(is_hex(m.replication_id[i - word.len()]));
        } else if i == word.len() + 40 {
        } else {
            assert(text[i] == number[i - word.len() - 41]);
            assert(is_digit(number[i - word.len() - 41]));
        }
    }
    lemma_no_cr_unbroken(text);
    assert(s =~= encode(line) + (snapshot + rest));
    lemma_parse_encoded(line, MAX_DEPTH as nat, snapshot + rest);
    assert(text.take(word.len() as int) =~= word);
    let after = s.skip(encode(line).len() as int);
    assert(after =~= snapshot + rest);
    lemma_decimal_digits(blob.len());
    assert forall|i: int| 0 <= i < size.len() implies size[i] != 13 by {
        assert(is_digit(size[i]));
    }
    lemma_no_cr_unbroken(size);
    assert(after =~= seq![36u8] + size + crlf() + (blob + rest));
    lemma_line(36u8, size, blob + rest);
    lemma_parse_decimal(blob.len());
    assert(full_resync(m).len() == encode(line).len() + snapshot.len());
}

/// The four messages of the handshake are commands that can go over the wire: a primary
/// that decodes them finds them as they were sent.
pub proof fn handshake_messages_arrive(port: u16)
    ensures
        decode(ping_request()) == Some(
            Decoding {
                frames: seq![command(seq![ascii("PING")])],
                consumed: ping_request().len(),
                incomplete: false,
            },
        ),
        decode(port_request(port)) == Some(
            Decoding {
                frames: seq![
                    command(
                        seq![ascii("REPLCONF"), ascii("listening-port"), decimal(port as nat)],
                    ),
                ],
                consumed: port_request(port).len(),
                incomplete: false,
            },
        ),
        decode(capa_request()) == Some(
            Decoding {
                frames: seq![command(seq![ascii("REPLCONF"), ascii("capa"), ascii("psync2")])],
                consumed: capa_request().len(),
                incomplete: false,
            },
        ),
        decode(psync_request()) == Some(
            Decoding {
                frames: seq![command(seq![ascii("PSYNC"), ascii("?"), ascii("-1")])],
                consumed: psync_request().len(),
                incomplete: false,
            },
        ),
{
    reveal_strlit("PING");
    reveal_strlit("REPLCONF");
    reveal_strlit("listening-port");
    reveal_strlit("capa");
    reveal_strlit("psync2");
    reveal_strlit("PSYNC");
    reveal_strlit("?");
    reveal_strlit("-1");
    let depth = MAX_DEPTH as nat;
    let ping = seq![ascii("PING")];
    let announce = seq![ascii("REPLCONF"), ascii("listening-port"), decimal(port as nat)];
    let capa = seq![ascii("REPLCONF"), ascii("capa"), ascii("psync2")];
    let psync = seq![ascii("PSYNC"), ascii("?"), ascii("-1")];
    lemma_decimal_len(port as nat);
    lemma_command_is_wire(ping, depth);
    lemma_command_is_wire(announce, depth);
    lemma_command_is_wire(capa, depth);
    lemma_command_is_wire(psync, depth);
    decode_encoded_frame(command(ping));
    decode_encoded_frame(command(announce));
    decode_encoded_frame(command(capa));
    decode_encoded_frame(command(psync));
}

/// A replica that awaits one answer and has nothing pending takes the encoding of any
/// frame that can go over the wire as that answer, and sends its next message.
proof fn lemma_answer_accepted(
    r: SlaveView,
    f: Frame,
    next: HandshakeState,
    message: Seq<u8>,
)
    requires
        r.pending.len() == 0,
        wire_frame(f, MAX_DEPTH as nat),
    ensures
        await_reply(r, r.pending + encode(f), next, message) == (
            moved(r, next, Seq::empty()),
            ActionView::Send(message),
        ),
{
    lemma_parse_encoded(f, MAX_DEPTH as nat, Seq::empty());
    assert(r.pending + encode(f) =~= encode(f) + Seq::<u8>::empty());
    assert((r.pending + encode(f)).skip(encode(f).len() as int) =~= Seq::<u8>::empty());
}

/// What a primary makes of the four messages of the handshake.
proof fn lemma_primary_answers(
    st: StateView,
    port: u16,
    announced: Option<u16>,
    now: u64,
    wall: u64,
)
    requires
        st.info.role is Master,
    ensures
        request_spec(st, command(seq![ascii("PING")]), announced, now, wall) == (
            st,
            answer(Frame::SimpleString(ascii("PONG"))),
        ),
        request_spec(
            st,
            command(seq![ascii("REPLCONF"), ascii("listening-port"), decimal(port as nat)]),
            announced,
            now,
            wall,
        ) == replconf_spec(
            st,
            command(
                seq![ascii("REPLCONF"), ascii("listening-port"), decimal(port as nat)],
            )->Array_0,
        ),
        replconf_spec(
            st,
            command(
                seq![ascii("REPLCONF"), ascii("listening-port"), decimal(port as nat)],
            )->Array_0,
        ).1 == (OutcomeView { reply: ok().reply, effect: EffectView::Register(port) }),
        replconf_spec(
            st,
            command(
                seq![ascii("REPLCONF"), ascii("listening-port"), decimal(port as nat)],
            )->Array_0,
        ).0.info.role is Master,
        replconf_spec(
            st,
            command(
                seq![ascii("REPLCONF"), ascii("listening-port"), decimal(port as nat)],
            )->Array_0,
        ).0.info.role->Master_0.replication_id == st.info.role->Master_0.replication_id,
        request_spec(
            st,
            command(seq![ascii("REPLCONF"), ascii("capa"), ascii("psync2")]),
            announced,
            now,
            wall,
        ) == (st, ok()),
        request_spec(
            st,
            command(seq![ascii("PSYNC"), ascii("?"), ascii("-1")]),
            announced,
            now,
            wall,
        ) == psync_spec(st, command(seq![ascii("PSYNC"), ascii("?"), ascii("-1")])->Array_0, announced),
{
    reveal_strlit("xadd");
    reveal_strlit("xrange");
    reveal_strlit("ping");
    reveal_strlit("echo");
    reveal_strlit("set");
    reveal_strlit("get");
    reveal_strlit("type");
    reveal_strlit("info");
    reveal_strlit("replconf");
    reveal_strlit("psync");
    reveal_strlit("getack");
    reveal_strlit("listening-port");
    reveal_strlit("PING");
    reveal_strlit("REPLCONF");
    reveal_strlit("capa");
    reveal_strlit("psync2");
    reveal_strlit("PSYNC");
    reveal_strlit("?");
    reveal_strlit("-1");
    let ping = command(seq![ascii("PING")])->Array_0;
    let announce = command(
        seq![ascii("REPLCONF"), ascii("listening-port"), decimal(port as nat)],
    )->Array_0;
    let capa = command(seq![ascii("REPLCONF"), ascii("capa"), ascii("psync2")])->Array_0;
    let psync = command(seq![ascii("PSYNC"), ascii("?"), ascii("-1")])->Array_0;
    assert(bulk_arg(ping, 0) == Some(ascii("PING")));
    assert(bulk_arg(announce, 0) == Some(ascii("REPLCONF")));
    assert(bulk_arg(announce, 1) == Some(ascii("listening-port")));
    assert(bulk_arg(announce, 2) == Some(decimal(port as nat)));
    assert(bulk_arg(capa, 0) == Some(ascii("REPLCONF")));
    assert(bulk_arg(capa, 1) == Some(ascii("capa")));
    assert(bulk_arg(psync, 0) == Some(ascii("PSYNC")));
    lemma_lower_word("PING", "ping");
    lemma_lower_word("REPLCONF", "replconf");
    lemma_lower_word("PSYNC", "psync");
    lemma_lower_word("listening-port", "listening-port");
    lemma_names(ascii("REPLCONF"));
    lemma_same_word_len(ascii("PING"), ascii("xrange"));
    assert(!same_word(ascii("PING"), ascii("xadd"))) by {
        if same_word(ascii("PING"), ascii("xadd")) {
            assert(lower(ascii("PING"))[0] == lower(ascii("xadd"))[0]);
        }
    }
    lemma_same_word_len(ascii("PSYNC"), ascii("xadd"));
    lemma_same_word_len(ascii("PSYNC"), ascii("xrange"));
    lemma_same_word_len(ascii("PSYNC"), ascii("ping"));
    lemma_same_word_len(ascii("PSYNC"), ascii("echo"));
    lemma_same_word_len(ascii("PSYNC"), ascii("set"));
    lemma_same_word_len(ascii("PSYNC"), ascii("get"));
    lemma_same_word_len(ascii("PSYNC"), ascii("type"));
    lemma_same_word_len(ascii("PSYNC"), ascii("info"));
    lemma_same_word_len(ascii("PSYNC"), ascii("replconf"));
    lemma_same_word_len(ascii("listening-port"), ascii("getack"));
    lemma_same_word_len(ascii("capa"), ascii("getack"));
    lemma_same_word_len(ascii("capa"), ascii("listening-port"));
    lemma_parse_decimal(port as nat);
}

/// A word in upper case and the same word in lower case are equal up to case.
proof fn lemma_lower_word(upper: &str, lower_case: &str)
    requires
        upper@.len() == lower_case@.len(),
        forall|i: int|
            0 <= i < upper@.len() ==> lower_byte(#[trigger] ascii(upper)[i]) == lower_byte(
                ascii(lower_case)[i],
            ),
    ensures
        same_word(ascii(upper), ascii(lower_case)),
{
    assert(lower(ascii(upper)) =~= lower(ascii(lower_case)));
}

/// A replica that awaits an answer to the ping, to its port or to its capabilities, and
/// has nothing pending, goes on to the next state when it receives the encoding of a
/// frame that can go over the wire.
proof fn lemma_step_answered(r: SlaveView, port: u16, f: Frame)
    requires
        r.pending.len() == 0,
        wire_frame(f, MAX_DEPTH as nat),
    ensures
        r.state == HandshakeState::Pinged ==> handshake_step(
            r,
            port,
            EventView::Received(encode(f)),
        ) == (
            moved(r, HandshakeState::PortAnnounced, Seq::empty()),
            ActionView::Send(port_request(port)),
        ),
        r.state == HandshakeState::PortAnnounced ==> handshake_step(
            r,
            port,
            EventView::Received(encode(f)),
        ) == (
            moved(r, HandshakeState::CapaAnnounced, Seq::empty()),
            ActionView::Send(capa_request()),
        ),
        r.state == HandshakeState::CapaAnnounced ==> handshake_step(
            r,
            port,
            EventView::Received(encode(f)),
        ) == (moved(r, HandshakeState::Synced, Seq::empty()), ActionView::Send(psync_request())),
{
    lemma_answer_accepted(r, f, HandshakeState::PortAnnounced, port_request(port));
    lemma_answer_accepted(r, f, HandshakeState::CapaAnnounced, capa_request());
    lemma_answer_accepted(r, f, HandshakeState::Synced, psync_request());
}

/// A replica that awaits the full resync and has nothing pending completes the handshake
/// when it receives what a primary answers to the request for synchronisation.
proof fn lemma_step_synced(r: SlaveView, port: u16, m: MasterView)
    requires
        r.pending.len() == 0,
        r.state == HandshakeState::Synced,
        is_replication_id(m.replication_id),
    ensures
        handshake_step(r, port, EventView::Received(full_resync(m))) == (
            moved(r, HandshakeState::Streaming, Seq::empty()),
            ActionView::Done(Seq::empty()),
        ),
{
    replica_accepts_full_resync(m, Seq::empty());
    assert(r.pending + full_resync(m) =~= full_resync(m) + Seq::<u8>::empty());
    assert((r.pending + full_resync(m)).skip(full_resync(m).len() as int) =~= Seq::<u8>::empty());
}

/// The answers `PONG` and `OK` can go over the wire.
proof fn lemma_plain_answers()
    ensures
        wire_frame(Frame::SimpleString(ascii("PONG")), MAX_DEPTH as nat),
        wire_frame(Frame::SimpleString(ascii("OK")), MAX_DEPTH as nat),
{
    reveal_strlit("PONG");
    reveal_strlit("OK");
    assert forall|i: int| 0 <= i < ascii("PONG").len() implies ascii("PONG")[i] != 13 by {}
    assert forall|i: int| 0 <= i < ascii("OK").len() implies ascii("OK")[i] != 13 by {}
    lemma_no_cr_unbroken(ascii("PONG"));
    lemma_no_cr_unbroken(ascii("OK"));
}

/// What a primary answers to the announcement of a port, and what it then holds.
proof fn lemma_port_announced(st: StateView, port: u16, now: u64, wall: u64)
    requires
        st.info.role is Master,
        role_wf(st.info.role),
    ensures
        ({
            let done = request_spec(
                st,
                command(seq![ascii("REPLCONF"), ascii("listening-port"), decimal(port as nat)]),
                None,
                now,
                wall,
            );
            &&& done.1 == (OutcomeView { reply: ok().reply, effect: EffectView::Register(port) })
            &&& done.0.info.role is Master
            &&& role_wf(done.0.info.role)
            &&& done.0.info.role->Master_0.replicas.contains(port)
        }),
{
    lemma_primary_answers(st, port, None, now, wall);
    let m = st.info.role->Master_0;
    if !m.replicas.contains(port) {
        assert(m.replicas.push(port)[m.replicas.len() as int] == port);
        assert(m.replicas.push(port).no_duplicates()) by {
            let after = m.replicas.push(port);
            assert forall|i: int, j: int|
                0 <= i < after.len() && 0 <= j < after.len() && i != j implies after[i]
                != after[j] by {
                if i < m.replicas.len() && j < m.replicas.len() {
                } else if i < m.replicas.len() {
                    assert(m.replicas.contains(m.replicas[i]));
                } else {
                    assert(m.replicas.contains(m.replicas[j]));
                }
            }
        }
    }
}

/// What a primary answers to the request for synchronisation of a sender that has
/// announced its port.
proof fn lemma_psync_answered(st: StateView, port: u16, now: u64, wall: u64)
    requires
        st.info.role is Master,
    ensures
        ({
            let done = request_spec(
                st,
                command(seq![ascii("PSYNC"), ascii("?"), ascii("-1")]),
                Some(port),
                now,
                wall,
            );
            &&& done.1 == (OutcomeView {
                reply: full_resync(st.info.role->Master_0),
                effect: EffectView::Register(port),
            })
            &&& done.0.info.role is Master
            &&& done.0.info.role->Master_0.replicas.contains(port)
        }),
{
    lemma_primary_answers(st, port, Some(port), now, wall);
    let m = st.info.role->Master_0;
    if !m.replicas.contains(port) {
        assert(m.replicas.push(port)[m.replicas.len() as int] == port);
    }
}

/// A replica and a primary that hand each other's messages on complete the handshake.
///
/// The replica, once connected, sends the ping, the listening port, the capabilities
/// and the request for synchronisation, each after the primary's answer to the message
/// before; the primary's answer to the last is a full resync that the replica accepts.
/// At the end the replica is streaming with nothing pending, and the primary has the
/// replica in its registry under the port that it announced.
pub proof fn handshake_completes(
    primary: StateView,
    replica: SlaveView,
    port: u16,
    now: u64,
    wall: u64,
)
    requires
        primary.info.role is Master,
        role_wf(primary.info.role),
        replica.state == HandshakeState::Dialing,
        replica.pending.len() == 0,
    ensures
        ({
            let d0 = handshake_step(replica, port, EventView::Connected);
            let s1 = request_spec(primary, command(seq![ascii("PING")]), None, now, wall);
            let d1 = handshake_step(d0.0, port, EventView::Received(s1.1.reply));
            let s2 = request_spec(
                s1.0,
                command(seq![ascii("REPLCONF"), ascii("listening-port"), decimal(port as nat)]),
                None,
                now,
                wall,
            );
            let d2 = handshake_step(d1.0, port, EventView::Received(s2.1.reply));
            let s3 = request_spec(
                s2.0,
                command(seq![ascii("REPLCONF"), ascii("capa"), ascii("psync2")]),
                announced_after(None, s2.1),
                now,
                wall,
            );
            let d3 = handshake_step(d2.0, port, EventView::Received(s3.1.reply));
            let s4 = request_spec(
                s3.0,
                command(seq![ascii("PSYNC"), ascii("?"), ascii("-1")]),
                announced_after(None, s2.1),
                now,
                wall,
            );
            let d4 = handshake_step(d3.0, port, EventView::Received(s4.1.reply));
            &&& d0.1 == ActionView::Send(ping_request())
            &&& d1.1 == ActionView::Send(port_request(port))
            &&& d2.1 == ActionView::Send(capa_request())
            &&& d3.1 == ActionView::Send(psync_request())
            &&& d4.1 == ActionView::Done(Seq::empty())
            &&& d4.0 == moved(replica, HandshakeState::Streaming, Seq::empty())
            &&& s4.0.info.role is Master
            &&& s4.0.info.role->Master_0.replicas.contains(port)
            &&& s4.1.effect == EffectView::Register(port)
        }),
{
    let pong = Frame::SimpleString(ascii("PONG"));
    let fine = Frame::SimpleString(ascii("OK"));
    lemma_plain_answers();

    let d0 = handshake_step(replica, port, EventView::Connected);
    assert(d0 == (
        moved(replica, HandshakeState::Pinged, replica.pending),
        ActionView::Send(ping_request()),
    ));

    let s1 = request_spec(primary, command(seq![ascii("PING")]), None, now, wall);
    assert(s1 == (primary, answer(pong))) by {
        lemma_primary_answers(primary, port, None, now, wall);
    }
    let d1 = handshake_step(d0.0, port, EventView::Received(s1.1.reply));
    assert(d1 == (
        moved(d0.0, HandshakeState::PortAnnounced, Seq::empty()),
        ActionView::Send(port_request(port)),
    )) by {
        lemma_step_answered(d0.0, port, pong);
    }

    let s2 = request_spec(
        s1.0,
        command(seq![ascii("REPLCONF"), ascii("listening-port"), decimal(port as nat)]),
        None,
        now,
        wall,
    );
    assert(s2.1 == (OutcomeView { reply: encode(fine), effect: EffectView::Register(port) })
        && s2.0.info.role is Master && role_wf(s2.0.info.role)) by {
        lemma_port_announced(primary, port, now, wall);
    }
    let d2 = handshake_step(d1.0, port, EventView::Received(s2.1.reply));
    assert(d2 == (
        moved(d1.0, HandshakeState::CapaAnnounced, Seq::empty()),
        ActionView::Send(capa_request()),
    )) by {
        lemma_step_answered(d1.0, port, fine);
    }

    assert(announced_after(None, s2.1) == Some(port));
    let s3 = request_spec(
        s2.0,
        command(seq![ascii("REPLCONF"), ascii("capa"), ascii("psync2")]),
        Some(port),
        now,
        wall,
    );
    assert(s3 == (s2.0, answer(fine))) by {
        lemma_primary_answers(s2.0, port, Some(port), now, wall);
    }
    let d3 = handshake_step(d2.0, port, EventView::Received(s3.1.reply));
    assert(d3 == (
        moved(d2.0, HandshakeState::Synced, Seq::empty()),
        ActionView::Send(psync_request()),
    )) by {
        lemma_step_answered(d2.0, port, fine);
    }

    let s4 = request_spec(
        s3.0,
        command(seq![ascii("PSYNC"), ascii("?"), ascii("-1")]),
        Some(port),
        now,
        wall,
    );
    let m = s3.0.info.role->Master_0;
    assert(s4.1 == (OutcomeView { reply: full_resync(m), effect: EffectView::Register(port) })
        && s4.0.info.role is Master && s4.0.info.role->Master_0.replicas.contains(port)) by {
        lemma_psync_answered(s3.0, port, now, wall);
    }
    let d4 = handshake_step(d3.0, port, EventView::Received(s4.1.reply));
    assert(d4 == (
        moved(d3.0, HandshakeState::Streaming, Seq::empty()),
        ActionView::Done(Seq::empty()),
    )) by {
        lemma_step_synced(d3.0, port, m);
    }
}

/// A request leaves the role of a replica as it was.
pub proof fn lemma_replica_keeps_role(
    st: StateView,
    req: Frame,
    announced: Option<u16>,
    now: u64,
    wall: u64,
)
    requires
        st.info.role is Slave,
    ensures
        request_spec(st, req, announced, now, wall).0.info == st.info,
{
}

/// What a replica has counted after the commands `fs`, where the count fits in 64 bits:
/// the bytes of their encodings.
pub proof fn lemma_applied_bytes(st: StateView, fs: Seq<Frame>, now: u64, wall: u64)
    requires
        st.info.role is Slave,
        st.info.role->Slave_0.offset + encode_all(fs).len() <= u64::MAX,
    ensures
        apply_all(st, fs, now, wall).0.info.role is Slave,
        apply_all(st, fs, now, wall).0.info.role->Slave_0.offset == st.info.role->Slave_0.offset
            + encode_all(fs).len(),
    decreases fs.len(),
{
    if fs.len() > 0 {
        let head = fs.drop_last();
        assert(fs =~= head.push(fs.last()));
        lemma_encode_all_push(head, fs.last());
        lemma_applied_bytes(st, head, now, wall);
        let before = apply_all(st, head, now, wall).0;
        lemma_replica_keeps_role(before, fs.last(), None, now, wall);
    }
}

/// A replica that has applied the commands `fs` since its handshake, from the offset 0
/// on, answers the question for its offset with the number of bytes of their encodings.
pub proof fn ack_tells_applied_bytes(
    st: StateView,
    fs: Seq<Frame>,
    question: Frame,
    now: u64,
    wall: u64,
)
    requires
        st.info.role is Slave,
        st.info.role->Slave_0.offset == 0,
        encode_all(fs).len() <= u64::MAX,
        is_getack(question),
    ensures
        apply_spec(apply_all(st, fs, now, wall).0, question, now, wall).1 == ack_message(
            encode_all(fs).len() as u64,
        ),
{
    lemma_applied_bytes(st, fs, now, wall);
    let vals = question->Array_0;
    lemma_names(bulk_arg(vals, 0)->0);
}

} // verus!
