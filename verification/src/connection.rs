//! What a server does with the bytes that a connection brings: it keeps what does not
//! end a frame yet, and carries out the complete requests in the order in which they
//! came.
use crate::bytes::{append_bytes, ascii, bytes_of, eq_ignore_case, same_word};
use crate::handler::{
    announced_after, bulk_arg, dispatch, request_spec, with_role, Effect, Outcome, OutcomeView,
    StateInner, StateView,
};
use crate::parse::{decode, encode, frames_of, lemma_view_elements, Decoded, Frame, Resp, RespData};
use crate::server::{add_capped, Role, RoleView, SlaveView};
use vstd::prelude::*;

verus! {

/// What a server remembers of one connection: the bytes that do not end a frame yet,
/// and the listening port that the peer has announced, if it has.
pub struct Connection {
    carry: Vec<u8>,
    announced: Option<u16>,
}

/// What a server remembers of one connection, as a mathematical value.
pub struct ConnectionView {
    pub carry: Seq<u8>,
    pub announced: Option<u16>,
}

impl View for Connection {
    type V = ConnectionView;

    closed spec fn view(&self) -> ConnectionView {
        ConnectionView { carry: self.carry@, announced: self.announced }
    }
}

/// The outcomes as mathematical values.
pub open spec fn outcomes_of(v: Seq<Outcome>) -> Seq<OutcomeView> {
    Seq::new(v.len(), |i: int| v[i]@)
}

/// What a run of requests has come to: the state, the port that the sender has
/// announced, and the outcomes in the order of the requests.
pub struct Served {
    pub state: StateView,
    pub announced: Option<u16>,
    pub outcomes: Seq<OutcomeView>,
}

/// Carries out the requests `frames` of one sender one after the other, each on the
/// state that the one before left.
pub open spec fn serve_all(
    st: StateView,
    announced: Option<u16>,
    frames: Seq<Frame>,
    now: u64,
    wall: u64,
) -> Served
    decreases frames.len(),
{
    if frames.len() == 0 {
        Served { state: st, announced: announced, outcomes: Seq::empty() }
    } else {
        let before = serve_all(st, announced, frames.drop_last(), now, wall);
        let step = request_spec(before.state, frames.last(), before.announced, now, wall);
        Served {
            state: step.0,
            announced: announced_after(before.announced, step.1),
            outcomes: before.outcomes.push(step.1),
        }
    }
}

/// What a server has made of the bytes of one read.
pub struct Received {
    pub state: StateView,
    pub connection: ConnectionView,
    pub outcomes: Seq<OutcomeView>,
}

/// What a server makes of the bytes `received` on a connection: they join the bytes that
/// the connection kept, every complete request among them is carried out in order, and
/// the bytes after the last complete request are kept. `None` where the bytes cannot be
/// frames.
pub open spec fn receive(
    st: StateView,
    conn: ConnectionView,
    received: Seq<u8>,
    now: u64,
    wall: u64,
) -> Option<Received> {
    match decode(conn.carry + received) {
        Some(d) => {
            let run = serve_all(st, conn.announced, d.frames, now, wall);
            Some(
                Received {
                    state: run.state,
                    connection: ConnectionView {
                        carry: (conn.carry + received).skip(d.consumed as int),
                        announced: run.announced,
                    },
                    outcomes: run.outcomes,
                },
            )
        },
        None => None,
    }
}

/// Whether `f` is the primary's question for the replica's offset.
pub open spec fn is_getack(f: Frame) -> bool {
    match f {
        Frame::Array(vals) => {
            &&& vals.len() >= 3
            &&& bulk_arg(vals, 0) is Some
            &&& same_word(bulk_arg(vals, 0)->0, ascii("replconf"))
            &&& bulk_arg(vals, 1) is Some
            &&& same_word(bulk_arg(vals, 1)->0, ascii("getack"))
        },
        _ => false,
    }
}

/// The state `st` of a replica that has applied `n` more bytes.
pub open spec fn counted(st: StateView, n: nat) -> StateView {
    match st.info.role {
        RoleView::Slave(r) => with_role(
            st,
            RoleView::Slave(
                SlaveView {
                    master_host: r.master_host,
                    master_port: r.master_port,
                    state: r.state,
                    offset: add_capped(r.offset, n),
                    pending: r.pending,
                },
            ),
        ),
        RoleView::Master(_) => st,
    }
}

/// What a replica does with one command of its primary: it carries the command out,
/// answers only the question for its offset, and then counts the bytes of the command's
/// encoding.
pub open spec fn apply_spec(st: StateView, f: Frame, now: u64, wall: u64) -> (StateView, Seq<u8>) {
    let done = request_spec(st, f, None, now, wall);
    (
        counted(done.0, encode(f).len()),
        if is_getack(f) {
            done.1.reply
        } else {
            Seq::empty()
        },
    )
}

/// What a replica does with the commands `frames` of its primary, one after the other:
/// the state after the last, and the answers, one after the other.
pub open spec fn apply_all(st: StateView, frames: Seq<Frame>, now: u64, wall: u64) -> (
    StateView,
    Seq<u8>,
)
    decreases frames.len(),
{
    if frames.len() == 0 {
        (st, Seq::empty())
    } else {
        let before = apply_all(st, frames.drop_last(), now, wall);
        let step = apply_spec(before.0, frames.last(), now, wall);
        (step.0, before.1 + step.1)
    }
}

fn asks_for_offset(frame: &RespData) -> (out: bool)
    ensures
        out == is_getack(frame@),
{
    match frame {
        RespData::Array(vals) => {
            proof {
                lemma_view_elements(*vals);
                reveal_strlit("replconf");
                reveal_strlit("getack");
            }
            if vals.len() < 3 {
                return false;
            }
            let name: &Vec<u8> = match &vals[0] {
                RespData::BulkString(Some(b)) => b,
                _ => {
                    return false;
                },
            };
            let sub: &Vec<u8> = match &vals[1] {
                RespData::BulkString(Some(b)) => b,
                _ => {
                    return false;
                },
            };
            let replconf = bytes_of("replconf");
            let getack = bytes_of("getack");
            eq_ignore_case(name.as_slice(), replconf.as_slice()) && eq_ignore_case(
                sub.as_slice(),
                getack.as_slice(),
            )
        },
        _ => false,
    }
}

fn count_applied(state: &mut StateInner, n: usize)
    requires
        old(state).wf(),
    ensures
        final(state).wf(),
        final(state)@ == counted(old(state)@, n as nat),
{
    match &mut state.info.role {
        Role::Slave(slave) => {
            let bytes: u64 = n as u64;
            if slave.offset <= u64::MAX - bytes {
                slave.offset = slave.offset + bytes;
            } else {
                slave.offset = u64::MAX;
            }
        },
        Role::Master(_) => {},
    }
}

impl Connection {
    /// A connection that has brought nothing yet.
    pub fn new() -> (out: Connection)
        ensures
            out@ == (ConnectionView { carry: Seq::empty(), announced: None }),
    {
        Connection { carry: Vec::new(), announced: None }
    }

    /// Takes the bytes `received` from a client at the time `now` on the monotonic clock
    /// and `wall` on the wall clock, both in milliseconds.
    ///
    /// The bytes join those kept from earlier reads. Every complete request among them
    /// is carried out, in order, and its outcome handed back; the bytes after the last
    /// complete request are kept for the next read, and so is the port that the peer
    /// announced. `None` where the bytes cannot be frames: the connection is then to be
    /// closed, and no request was carried out.
    pub fn handle_connection(
        &mut self,
        state: &mut StateInner,
        received: &[u8],
        now: u64,
        wall: u64,
    ) -> (out: Option<Vec<Outcome>>)
        requires
            old(state).wf(),
        ensures
            final(state).wf(),
            match receive(old(state)@, old(self)@, received@, now, wall) {
                Some(done) => {
                    &&& out matches Some(outs)
                    &&& final(state)@ == done.state
                    &&& final(self)@ == done.connection
                    &&& outcomes_of(outs@) == done.outcomes
                },
                None => out is None && final(state)@ == old(state)@,
            },
    {
        append_bytes(&mut self.carry, received);
        let decoded: Decoded = match Resp::parse(self.carry.as_slice()) {
            Some(d) => d,
            None => {
                return None;
            },
        };
        let ghost all = decode(old(self)@.carry + received@)->0.frames;
        let frames: Vec<RespData> = match decoded.resp.data {
            RespData::RequestArray(frames) => frames,
            _ => {
                return None;
            },
        };
        proof {
            lemma_view_elements(frames);
        }
        let mut outs: Vec<Outcome> = Vec::new();
        let mut i: usize = 0;
        assert(all.take(0) =~= Seq::<Frame>::empty());
        assert(outcomes_of(outs@) =~= Seq::<OutcomeView>::empty());
        while i < frames.len()
            invariant
                i <= frames.len(),
                state.wf(),
                all == frames_of(frames@),
                self.carry@ == old(self)@.carry + received@,
                state@ == serve_all(
                    old(state)@,
                    old(self)@.announced,
                    all.take(i as int),
                    now,
                    wall,
                ).state,
                self.announced == serve_all(
                    old(state)@,
                    old(self)@.announced,
                    all.take(i as int),
                    now,
                    wall,
                ).announced,
                outcomes_of(outs@) == serve_all(
                    old(state)@,
                    old(self)@.announced,
                    all.take(i as int),
                    now,
                    wall,
                ).outcomes,
            decreases frames.len() - i,
        {
            let ghost before = outcomes_of(outs@);
            let outcome = dispatch(state, &frames[i], self.announced, now, wall);
            proof {
                assert(all.take(i + 1).drop_last() =~= all.take(i as int));
                assert(all.take(i + 1).last() == frames@[i as int]@);
            }
            match &outcome.effect {
                Effect::Register(port) => {
                    self.announced = Some(*port);
                },
                _ => {},
            }
            outs.push(outcome);
            assert(outcomes_of(outs@) =~= before.push(outcome@));
            i = i + 1;
        }
        assert(all.take(frames.len() as int) =~= all);
        let rest = self.carry.split_off(decoded.consumed);
        self.carry = rest;
        assert(self.carry@ =~= (old(self)@.carry + received@).skip(decoded.consumed as int));
        Some(outs)
    }

    /// Takes the bytes `received` from the primary, on a replica, at the time `now` on
    /// the monotonic clock and `wall` on the wall clock, both in milliseconds.
    ///
    /// The bytes join those kept from earlier reads. Every complete command among them
    /// is carried out, in order, and counted by the bytes of its encoding. No command
    /// is answered but the question for the offset, whose answer tells the bytes counted
    /// before it; the answers are handed back as one run of bytes for the primary. The
    /// bytes after the last complete command are kept for the next read. `None` where
    /// the bytes cannot be frames: the connection is then to be closed, and no command
    /// was carried out.
    pub fn handle_connection_slave(
        &mut self,
        state: &mut StateInner,
        received: &[u8],
        now: u64,
        wall: u64,
    ) -> (out: Option<Vec<u8>>)
        requires
            old(state).wf(),
            old(state)@.info.role is Slave,
        ensures
            final(state).wf(),
            match decode(old(self)@.carry + received@) {
                Some(d) => {
                    &&& out matches Some(reply)
                    &&& final(state)@ == apply_all(old(state)@, d.frames, now, wall).0
                    &&& reply@ == apply_all(old(state)@, d.frames, now, wall).1
                    &&& final(self)@ == (ConnectionView {
                        carry: (old(self)@.carry + received@).skip(d.consumed as int),
                        announced: old(self)@.announced,
                    })
                },
                None => out is None && final(state)@ == old(state)@,
            },
    {
        append_bytes(&mut self.carry, received);
        let decoded: Decoded = match Resp::parse(self.carry.as_slice()) {
            Some(d) => d,
            None => {
                return None;
            },
        };
        let ghost all = decode(old(self)@.carry + received@)->0.frames;
        let frames: Vec<RespData> = match decoded.resp.data {
            RespData::RequestArray(frames) => frames,
            _ => {
                return None;
            },
        };
        proof {
            lemma_view_elements(frames);
        }
        let mut reply: Vec<u8> = Vec::new();
        let mut i: usize = 0;
        assert(all.take(0) =~= Seq::<Frame>::empty());
        while i < frames.len()
            invariant
                i <= frames.len(),
                state.wf(),
                all == frames_of(frames@),
                state@ == apply_all(old(state)@, all.take(i as int), now, wall).0,
                reply@ == apply_all(old(state)@, all.take(i as int), now, wall).1,
            decreases frames.len() - i,
        {
            let outcome = dispatch(state, &frames[i], None, now, wall);
            proof {
                assert(all.take(i + 1).drop_last() =~= all.take(i as int));
                assert(all.take(i + 1).last() == frames@[i as int]@);
            }
            if asks_for_offset(&frames[i]) {
                append_bytes(&mut reply, outcome.reply.as_slice());
            } else {
                assert(reply@ + Seq::<u8>::empty() =~= reply@);
            }
            let size: usize = frames[i].as_bytes().len();
            count_applied(state, size);
            i = i + 1;
        }
        assert(all.take(frames.len() as int) =~= all);
        let rest = self.carry.split_off(decoded.consumed);
        self.carry = rest;
        assert(self.carry@ =~= (old(self)@.carry + received@).skip(decoded.consumed as int));
        Some(reply)
    }
}

} // verus!
