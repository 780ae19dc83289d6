//! The replication state of a server: its role, what a primary knows of its replicas, and
//! the steps by which a replica introduces itself to its primary.
use crate::bytes::{
    append_bytes, ascii, bytes_of, copy_bytes, decimal, parse_nat_u64, parse_u64, push_decimal,
};
use crate::parse::{
    bulk, command, encode, find_line_end, parse_frame, parse_line, words_of, Frame, Parse, Parsed,
    RespData, RespType, MAX_DEPTH,
};
use vstd::prelude::*;
use vstd::slice::slice_subrange;

verus! {

/// How far a replica has come in introducing itself to its primary.
#[derive(Debug, Clone, Copy, PartialEq, Eq, Structural)]
pub enum HandshakeState {
    /// No connection to the primary stands yet.
    Dialing,
    /// The ping was sent; its answer is awaited.
    Pinged,
    /// The listening port was announced; the answer is awaited.
    PortAnnounced,
    /// The capabilities were announced; the answer is awaited.
    CapaAnnounced,
    /// The synchronisation was asked for; the full resync and its snapshot are awaited.
    Synced,
    /// The handshake is complete; the primary's commands follow.
    Streaming,
    /// The connection failed. Nothing leaves this state.
    Disconnected,
}

/// What a primary knows.
#[derive(Debug)]
pub struct Master {
    /// Forty hexadecimal digits that name this primary's history.
    pub replication_id: Vec<u8>,
    /// The bytes of the commands that this primary has handed on to its replicas.
    pub offset: u64,
    /// The replicas, each by the listening port that it announced, in the order in which
    /// they came.
    pub slave_ports: Vec<u16>,
}

/// What a replica knows.
#[derive(Debug)]
pub struct Slave {
    pub master_host: String,
    pub master_port: u16,
    /// How far the handshake has come.
    pub state: HandshakeState,
    /// The bytes of the primary's commands that were applied since the handshake.
    pub offset: u64,
    /// Bytes of the primary's answers that wait for the rest of their frame.
    pub pending: Vec<u8>,
}

/// The role of a server.
#[derive(Debug)]
pub enum Role {
    Master(Master),
    Slave(Slave),
}

/// A server's own port and role.
#[derive(Debug)]
pub struct Info {
    pub role: Role,
    pub port: u16,
}

/// A primary's knowledge as a mathematical value.
pub struct MasterView {
    pub replication_id: Seq<u8>,
    pub offset: u64,
    pub replicas: Seq<u16>,
}

/// A replica's knowledge as a mathematical value.
pub struct SlaveView {
    pub master_host: Seq<char>,
    pub master_port: u16,
    pub state: HandshakeState,
    pub offset: u64,
    pub pending: Seq<u8>,
}

/// A role as a mathematical value.
pub enum RoleView {
    Master(MasterView),
    Slave(SlaveView),
}

/// A server's port and role as a mathematical value.
pub struct InfoView {
    pub role: RoleView,
    pub port: u16,
}

impl View for Master {
    type V = MasterView;

    open spec fn view(&self) -> MasterView {
        MasterView {
            replication_id: self.replication_id@,
            offset: self.offset,
            replicas: self.slave_ports@,
        }
    }
}

impl View for Slave {
    type V = SlaveView;

    open spec fn view(&self) -> SlaveView {
        SlaveView {
            master_host: self.master_host@,
            master_port: self.master_port,
            state: self.state,
            offset: self.offset,
            pending: self.pending@,
        }
    }
}

impl View for Role {
    type V = RoleView;

    open spec fn view(&self) -> RoleView {
        match self {
            Role::Master(m) => RoleView::Master(m@),
            Role::Slave(s) => RoleView::Slave(s@),
        }
    }
}

impl View for Info {
    type V = InfoView;

    open spec fn view(&self) -> InfoView {
        InfoView { role: self.role@, port: self.port }
    }
}

/// Whether `b` is a hexadecimal digit.
pub open spec fn is_hex(b: u8) -> bool {
    (48 <= b <= 57) || (97 <= b <= 102) || (65 <= b <= 70)
}

/// Whether `id` is forty hexadecimal digits.
pub open spec fn is_replication_id(id: Seq<u8>) -> bool {
    id.len() == 40 && forall|i: int| 0 <= i < id.len() ==> is_hex(#[trigger] id[i])
}

/// What a role satisfies at all times: a primary has a replication identifier of forty
/// hexadecimal digits and holds each replica once.
pub open spec fn role_wf(r: RoleView) -> bool {
    match r {
        RoleView::Master(m) => is_replication_id(m.replication_id) && m.replicas.no_duplicates(),
        RoleView::Slave(_) => true,
    }
}

/// `a + n`, and the greatest number of 64 bits where that is more.
pub open spec fn add_capped(a: u64, n: nat) -> u64 {
    if a + n <= u64::MAX {
        (a + n) as u64
    } else {
        u64::MAX
    }
}

/// The line that names a role.
pub open spec fn role_line(r: RoleView) -> Seq<u8> {
    match r {
        RoleView::Master(_) => ascii("role:master"),
        RoleView::Slave(_) => ascii("role:slave"),
    }
}

/// What a server tells of its replication: the role, and for a primary its replication
/// identifier and its offset, one to a line.
pub open spec fn replication_text(r: RoleView) -> Seq<u8> {
    match r {
        RoleView::Master(m) => ascii("role:master") + seq![10u8] + ascii("master_replid:")
            + m.replication_id + seq![10u8] + ascii("master_repl_offset:") + decimal(
            m.offset as nat,
        ),
        RoleView::Slave(_) => ascii("role:slave"),
    }
}

/// The first message of the handshake.
pub open spec fn ping_request() -> Seq<u8> {
    encode(command(seq![ascii("PING")]))
}

/// The message that announces the port on which the replica listens.
pub open spec fn port_request(port: u16) -> Seq<u8> {
    encode(command(seq![ascii("REPLCONF"), ascii("listening-port"), decimal(port as nat)]))
}

/// The message that announces what the replica can do.
pub open spec fn capa_request() -> Seq<u8> {
    encode(command(seq![ascii("REPLCONF"), ascii("capa"), ascii("psync2")]))
}

/// The message that asks for synchronisation from the start.
pub open spec fn psync_request() -> Seq<u8> {
    encode(command(seq![ascii("PSYNC"), ascii("?"), ascii("-1")]))
}

/// Whether `t` begins with `p`.
pub open spec fn begins_with(t: Seq<u8>, p: Seq<u8>) -> bool {
    p.len() <= t.len() && t.take(p.len() as int) == p
}

/// Reads a snapshot: a dollar sign, a line with the length, and that many bytes, after
/// which no line break stands. The frame is the bulk string of those bytes.
pub open spec fn parse_snapshot(s: Seq<u8>) -> Parse<Frame> {
    if s.len() == 0 {
        Parse::Incomplete
    } else if s[0] != 36 {
        Parse::Invalid
    } else {
        match parse_line(s) {
            Parse::Complete(t, used) => match parse_nat_u64(t) {
                Some(n) => if s.len() < used + n {
                    Parse::Incomplete
                } else {
                    Parse::Complete(bulk(s.subrange(used as int, used + n)), (used + n) as nat)
                },
                None => Parse::Invalid,
            },
            Parse::Incomplete => Parse::Incomplete,
            Parse::Invalid => Parse::Invalid,
        }
    }
}

/// Reads the primary's answer to the request for synchronisation: a simple string that
/// begins with `FULLRESYNC` and a blank, and right after it a snapshot. The frame is the
/// simple string; the bytes counted are those of both.
pub open spec fn psync_reply(s: Seq<u8>) -> Parse<Frame> {
    match parse_frame(s, MAX_DEPTH as nat) {
        Parse::Complete(f, used) => match f {
            Frame::SimpleString(t) => if begins_with(t, ascii("FULLRESYNC ")) {
                match parse_snapshot(s.skip(used as int)) {
                    Parse::Complete(_, more) => Parse::Complete(f, used + more),
                    Parse::Incomplete => Parse::Incomplete,
                    Parse::Invalid => Parse::Invalid,
                }
            } else {
                Parse::Invalid
            },
            _ => Parse::Invalid,
        },
        Parse::Incomplete => Parse::Incomplete,
        Parse::Invalid => Parse::Invalid,
    }
}

/// What happens to a replica during the handshake.
#[derive(Debug)]
pub enum HandshakeEvent {
    /// The connection to the primary stands.
    Connected,
    /// The primary sent these bytes.
    Received(Vec<u8>),
    /// The connection failed.
    SocketError,
}

/// What the replica is to do next.
#[derive(Debug)]
pub enum HandshakeAction {
    /// Send these bytes to the primary, then read.
    Send(Vec<u8>),
    /// Read more from the primary.
    Wait,
    /// The handshake is complete. These bytes came after the snapshot and are the start
    /// of the primary's commands.
    Done(Vec<u8>),
    /// Give the connection up.
    Close,
}

/// An event as a mathematical value.
pub enum EventView {
    Connected,
    Received(Seq<u8>),
    SocketError,
}

/// An action as a mathematical value.
pub enum ActionView {
    Send(Seq<u8>),
    Wait,
    Done(Seq<u8>),
    Close,
}

impl View for HandshakeEvent {
    type V = EventView;

    open spec fn view(&self) -> EventView {
        match self {
            HandshakeEvent::Connected => EventView::Connected,
            HandshakeEvent::Received(b) => EventView::Received(b@),
            HandshakeEvent::SocketError => EventView::SocketError,
        }
    }
}

impl View for HandshakeAction {
    type V = ActionView;

    open spec fn view(&self) -> ActionView {
        match self {
            HandshakeAction::Send(b) => ActionView::Send(b@),
            HandshakeAction::Wait => ActionView::Wait,
            HandshakeAction::Done(b) => ActionView::Done(b@),
            HandshakeAction::Close => ActionView::Close,
        }
    }
}

/// The replica `r` in another state and with other bytes pending.
pub open spec fn moved(r: SlaveView, state: HandshakeState, pending: Seq<u8>) -> SlaveView {
    SlaveView {
        master_host: r.master_host,
        master_port: r.master_port,
        state: state,
        offset: r.offset,
        pending: pending,
    }
}

/// One answer is awaited in `buf`. Where it is there, whatever frame it is, the replica
/// goes on to `next` and sends `message`; where it has not ended yet, the replica waits
/// with the bytes kept; where the bytes are no frame, the connection is given up.
pub open spec fn await_reply(
    r: SlaveView,
    buf: Seq<u8>,
    next: HandshakeState,
    message: Seq<u8>,
) -> (SlaveView, ActionView) {
    match parse_frame(buf, MAX_DEPTH as nat) {
        Parse::Complete(_, used) => (
            moved(r, next, buf.skip(used as int)),
            ActionView::Send(message),
        ),
        Parse::Incomplete => (moved(r, r.state, buf), ActionView::Wait),
        Parse::Invalid => (
            moved(r, HandshakeState::Disconnected, Seq::empty()),
            ActionView::Close,
        ),
    }
}

/// The handshake of a replica whose own port is `port`: from its state and an event to
/// its next state and what it is to do.
///
/// Once connected it sends the ping; after each answer it sends the next message: the
/// listening port, the capabilities, the request for synchronisation. The answer to that
/// must be a full resync with its snapshot, after which the handshake is complete and
/// the bytes that follow are handed back. A failed connection, or bytes that are no
/// frame, end in `Disconnected`.
pub open spec fn handshake_step(r: SlaveView, port: u16, e: EventView) -> (SlaveView, ActionView) {
    match e {
        EventView::SocketError => (
            moved(r, HandshakeState::Disconnected, r.pending),
            ActionView::Close,
        ),
        EventView::Connected => match r.state {
            HandshakeState::Dialing => (
                moved(r, HandshakeState::Pinged, r.pending),
                ActionView::Send(ping_request()),
            ),
            HandshakeState::Disconnected => (r, ActionView::Close),
            _ => (r, ActionView::Wait),
        },
        EventView::Received(bytes) => match r.state {
            HandshakeState::Dialing => (r, ActionView::Wait),
            HandshakeState::Pinged => await_reply(
                r,
                r.pending + bytes,
                HandshakeState::PortAnnounced,
                port_request(port),
            ),
            HandshakeState::PortAnnounced => await_reply(
                r,
                r.pending + bytes,
                HandshakeState::CapaAnnounced,
                capa_request(),
            ),
            HandshakeState::CapaAnnounced => await_reply(
                r,
                r.pending + bytes,
                HandshakeState::Synced,
                psync_request(),
            ),
            HandshakeState::Synced => match psync_reply(r.pending + bytes) {
                Parse::Complete(_, used) => (
                    moved(r, HandshakeState::Streaming, Seq::empty()),
                    ActionView::Done((r.pending + bytes).skip(used as int)),
                ),
                Parse::Incomplete => (moved(r, r.state, r.pending + bytes), ActionView::Wait),
                Parse::Invalid => (
                    moved(r, HandshakeState::Disconnected, Seq::empty()),
                    ActionView::Close,
                ),
            },
            HandshakeState::Streaming => (r, ActionView::Done(bytes)),
            HandshakeState::Disconnected => (r, ActionView::Close),
        },
    }
}

/// The server `i` after a handshake event, and what it is to do: a primary has no
/// handshake and gives the connection up.
pub open spec fn handshake_spec(i: InfoView, e: EventView) -> (InfoView, ActionView) {
    match i.role {
        RoleView::Slave(r) => (
            InfoView { role: RoleView::Slave(handshake_step(r, i.port, e).0), port: i.port },
            handshake_step(r, i.port, e).1,
        ),
        RoleView::Master(_) => (i, ActionView::Close),
    }
}

fn starts_with(t: &[u8], p: &[u8]) -> (out: bool)
    ensures
        out == begins_with(t@, p@),
{
    if p.len() > t.len() {
        return false;
    }
    let mut i: usize = 0;
    while i < p.len()
        invariant
            i <= p.len() <= t.len(),
            forall|j: int| 0 <= j < i ==> t@[j] == p@[j],
        decreases p.len() - i,
    {
        if t[i] != p[i] {
            assert(t@.take(p.len() as int)[i as int] != p@[i as int]);
            return false;
        }
        i = i + 1;
    }
    assert(t@.take(p.len() as int) =~= p@);
    true
}

fn ping_message() -> (out: Vec<u8>)
    ensures
        out@ == ping_request(),
{
    proof {
        reveal_strlit("PING");
    }
    let mut words: Vec<Vec<u8>> = Vec::new();
    words.push(bytes_of("PING"));
    assert(words_of(words@) =~= seq![ascii("PING")]);
    RespData::new_bulk_array(&words).as_bytes()
}

fn capa_message() -> (out: Vec<u8>)
    ensures
        out@ == capa_request(),
{
    proof {
        reveal_strlit("REPLCONF");
        reveal_strlit("capa");
        reveal_strlit("psync2");
    }
    let mut words: Vec<Vec<u8>> = Vec::new();
    words.push(bytes_of("REPLCONF"));
    words.push(bytes_of("capa"));
    words.push(bytes_of("psync2"));
    assert(words_of(words@) =~= seq![ascii("REPLCONF"), ascii("capa"), ascii("psync2")]);
    RespData::new_bulk_array(&words).as_bytes()
}

fn port_message(port: u16) -> (out: Vec<u8>)
    ensures
        out@ == port_request(port),
{
    proof {
        reveal_strlit("REPLCONF");
        reveal_strlit("listening-port");
    }
    let mut number: Vec<u8> = Vec::new();
    push_decimal(&mut number, port as u64);
    assert(number@ =~= decimal(port as nat));
    let mut words: Vec<Vec<u8>> = Vec::new();
    words.push(bytes_of("REPLCONF"));
    words.push(bytes_of("listening-port"));
    words.push(number);
    assert(words_of(words@) =~= seq![
        ascii("REPLCONF"),
        ascii("listening-port"),
        decimal(port as nat),
    ]);
    RespData::new_bulk_array(&words).as_bytes()
}

fn psync_message() -> (out: Vec<u8>)
    ensures
        out@ == psync_request(),
{
    proof {
        reveal_strlit("PSYNC");
        reveal_strlit("?");
        reveal_strlit("-1");
    }
    let mut words: Vec<Vec<u8>> = Vec::new();
    words.push(bytes_of("PSYNC"));
    words.push(bytes_of("?"));
    words.push(bytes_of("-1"));
    assert(words_of(words@) =~= seq![ascii("PSYNC"), ascii("?"), ascii("-1")]);
    RespData::new_bulk_array(&words).as_bytes()
}

/// Reads a snapshot from the front of `s`.
fn read_snapshot(s: &[u8]) -> (out: Parsed)
    ensures
        out@ == parse_snapshot(s@),
        out matches Parsed::Complete(_, used) ==> used <= s.len(),
{
    if s.len() == 0 {
        return Parsed::Incomplete;
    }
    if s[0] != 36 {
        return Parsed::Invalid;
    }
    match find_line_end(s, 1) {
        Some(k) => {
            let start: usize = k + 2;
            match parse_u64(slice_subrange(s, 1, k)) {
                Some(n) => {
                    let left: u64 = (s.len() - start) as u64;
                    if left < n {
                        Parsed::Incomplete
                    } else {
                        let end: usize = start + n as usize;
                        Parsed::Complete(RespData::new_bulk(slice_subrange(s, start, end)), end)
                    }
                },
                None => Parsed::Invalid,
            }
        },
        None => Parsed::Incomplete,
    }
}

impl Clone for Slave {
    fn clone(&self) -> (out: Slave)
        ensures
            out@ == self@,
    {
        Slave {
            master_host: self.master_host.clone(),
            master_port: self.master_port,
            state: self.state,
            offset: self.offset,
            pending: copy_bytes(self.pending.as_slice()),
        }
    }
}

impl Clone for Master {
    fn clone(&self) -> (out: Master)
        ensures
            out@ == self@,
    {
        let mut slave_ports: Vec<u16> = Vec::new();
        let mut i: usize = 0;
        while i < self.slave_ports.len()
            invariant
                i <= self.slave_ports.len(),
                slave_ports@ == self.slave_ports@.take(i as int),
            decreases self.slave_ports.len() - i,
        {
            slave_ports.push(self.slave_ports[i]);
            assert(self.slave_ports@.take(i + 1) =~= self.slave_ports@.take(i as int).push(
                self.slave_ports@[i as int],
            ));
            i = i + 1;
        }
        assert(self.slave_ports@.take(self.slave_ports.len() as int) =~= self.slave_ports@);
        Master {
            replication_id: copy_bytes(self.replication_id.as_slice()),
            offset: self.offset,
            slave_ports,
        }
    }
}

impl Clone for Role {
    fn clone(&self) -> (out: Role)
        ensures
            out@ == self@,
    {
        match self {
            Role::Master(master) => Role::Master(master.clone()),
            Role::Slave(slave) => Role::Slave(slave.clone()),
        }
    }
}

impl Clone for Info {
    fn clone(&self) -> (out: Info)
        ensures
            out@ == self@,
    {
        Info { role: self.role.clone(), port: self.port }
    }
}

impl Default for Role {
    /// A primary without replicas, at offset 0, under a fixed replication identifier.
    fn default() -> (out: Role)
        ensures
            role_wf(out@),
            out@ == RoleView::Master(
                MasterView {
                    replication_id: ascii("8371b4fb1155b71f4a04d3e1bc3e18c4a990aeeb"),
                    offset: 0,
                    replicas: Seq::empty(),
                },
            ),
    {
        proof {
            reveal_strlit("8371b4fb1155b71f4a04d3e1bc3e18c4a990aeeb");
        }
        let id = bytes_of("8371b4fb1155b71f4a04d3e1bc3e18c4a990aeeb");
        Role::Master(Master { replication_id: id, offset: 0, slave_ports: Vec::new() })
    }
}

impl Default for Info {
    /// A primary on port 6379.
    fn default() -> (out: Info)
        ensures
            out.wf(),
            out.port == 6379,
            out@.role == RoleView::Master(
                MasterView {
                    replication_id: ascii("8371b4fb1155b71f4a04d3e1bc3e18c4a990aeeb"),
                    offset: 0,
                    replicas: Seq::empty(),
                },
            ),
    {
        Info { role: Role::default(), port: 6379 }
    }
}

impl Slave {
    /// Whether the handshake is complete.
    pub fn is_live(&self) -> (out: bool)
        ensures
            out == (self.state == HandshakeState::Streaming),
    {
        match self.state {
            HandshakeState::Streaming => true,
            _ => false,
        }
    }

    /// Takes one answer from the pending bytes, if it is there.
    fn await_reply(&mut self, next: HandshakeState, message: Vec<u8>) -> (out: HandshakeAction)
        ensures
            final(self)@ == await_reply(old(self)@, old(self).pending@, next, message@).0,
            out@ == await_reply(old(self)@, old(self).pending@, next, message@).1,
    {
        if self.pending.len() == 0 {
            return HandshakeAction::Wait;
        }
        let kind = RespType::from(self.pending[0]);
        match RespData::parse(self.pending.as_slice(), &kind, MAX_DEPTH) {
            Parsed::Complete(_, used) => {
                let rest = self.pending.split_off(used);
                self.pending = rest;
                self.state = next;
                assert(self.pending@ =~= old(self).pending@.skip(used as int));
                HandshakeAction::Send(message)
            },
            Parsed::Incomplete => HandshakeAction::Wait,
            Parsed::Invalid => {
                self.pending = Vec::new();
                self.state = HandshakeState::Disconnected;
                HandshakeAction::Close
            },
        }
    }

    /// One step of the handshake of a replica whose own port is `port`.
    pub fn step(&mut self, port: u16, event: HandshakeEvent) -> (out: HandshakeAction)
        ensures
            final(self)@ == handshake_step(old(self)@, port, event@).0,
            out@ == handshake_step(old(self)@, port, event@).1,
    {
        match event {
            HandshakeEvent::SocketError => {
                self.state = HandshakeState::Disconnected;
                HandshakeAction::Close
            },
            HandshakeEvent::Connected => match self.state {
                HandshakeState::Dialing => {
                    self.state = HandshakeState::Pinged;
                    HandshakeAction::Send(ping_message())
                },
                HandshakeState::Disconnected => HandshakeAction::Close,
                _ => HandshakeAction::Wait,
            },
            HandshakeEvent::Received(bytes) => match self.state {
                HandshakeState::Dialing => HandshakeAction::Wait,
                HandshakeState::Pinged => {
                    append_bytes(&mut self.pending, bytes.as_slice());
                    self.await_reply(HandshakeState::PortAnnounced, port_message(port))
                },
                HandshakeState::PortAnnounced => {
                    append_bytes(&mut self.pending, bytes.as_slice());
                    self.await_reply(HandshakeState::CapaAnnounced, capa_message())
                },
                HandshakeState::CapaAnnounced => {
                    append_bytes(&mut self.pending, bytes.as_slice());
                    self.await_reply(HandshakeState::Synced, psync_message())
                },
                HandshakeState::Synced => {
                    append_bytes(&mut self.pending, bytes.as_slice());
                    match Info::psync(self.pending.as_slice()) {
                        Parsed::Complete(_, used) => {
                            let rest = self.pending.split_off(used);
                            self.pending = Vec::new();
                            self.state = HandshakeState::Streaming;
                            assert(rest@ =~= (old(self).pending@ + bytes@).skip(used as int));
                            HandshakeAction::Done(rest)
                        },
                        Parsed::Incomplete => HandshakeAction::Wait,
                        Parsed::Invalid => {
                            self.pending = Vec::new();
                            self.state = HandshakeState::Disconnected;
                            HandshakeAction::Close
                        },
                    }
                },
                HandshakeState::Streaming => HandshakeAction::Done(bytes),
                HandshakeState::Disconnected => HandshakeAction::Close,
            },
        }
    }
}

impl Master {
    /// Takes the replica that announced `port` into the registry, unless it is there.
    pub fn register(&mut self, port: u16)
        requires
            old(self)@.replicas.no_duplicates(),
        ensures
            final(self)@.replicas.no_duplicates(),
            final(self)@ == (MasterView {
                replication_id: old(self)@.replication_id,
                offset: old(self)@.offset,
                replicas: registered(old(self)@.replicas, port),
            }),
    {
        let mut i: usize = 0;
        while i < self.slave_ports.len()
            invariant
                i <= self.slave_ports.len(),
                *self == *old(self),
                self.slave_ports@.no_duplicates(),
                forall|j: int| 0 <= j < i ==> self.slave_ports@[j] != port,
            decreases self.slave_ports.len() - i,
        {
            if self.slave_ports[i] == port {
                assert(self.slave_ports@.contains(port));
                return ;
            }
            i = i + 1;
        }
        assert(!self.slave_ports@.contains(port));
        self.slave_ports.push(port);
    }

    /// Drops the replica that announced `port` from the registry.
    pub fn forget(&mut self, port: u16)
        requires
            old(self)@.replicas.no_duplicates(),
        ensures
            final(self)@.replicas.no_duplicates(),
            final(self)@ == (MasterView {
                replication_id: old(self)@.replication_id,
                offset: old(self)@.offset,
                replicas: without(old(self)@.replicas, port),
            }),
    {
        let mut i: usize = 0;
        while i < self.slave_ports.len()
            invariant
                i <= self.slave_ports.len(),
                *self == *old(self),
                self.slave_ports@.no_duplicates(),
                forall|j: int| 0 <= j < i ==> self.slave_ports@[j] != port,
            decreases self.slave_ports.len() - i,
        {
            if self.slave_ports[i] == port {
                proof {
                    let s = self.slave_ports@;
                    assert(s.contains(port));
                    let k = s.index_of(port);
                    assert(k == i);
                    assert(s.remove(i as int).no_duplicates()) by {
                        let t = s.remove(i as int);
                        assert forall|a: int, b: int|
                            0 <= a < t.len() && 0 <= b < t.len() && a != b implies t[a] != t[b] by {
                            let a0 = if a < i { a } else { a + 1 };
                            let b0 = if b < i { b } else { b + 1 };
                            assert(t[a] == s[a0] && t[b] == s[b0]);
                        }
                    }
                }
                self.slave_ports.remove(i);
                return ;
            }
            i = i + 1;
        }
        assert(!self.slave_ports@.contains(port));
    }
}

/// The replicas with `port` among them: at the end, where it was not there.
pub open spec fn registered(replicas: Seq<u16>, port: u16) -> Seq<u16> {
    if replicas.contains(port) {
        replicas
    } else {
        replicas.push(port)
    }
}

/// The replicas without `port`.
pub open spec fn without(replicas: Seq<u16>, port: u16) -> Seq<u16> {
    if replicas.contains(port) {
        replicas.remove(replicas.index_of(port))
    } else {
        replicas
    }
}

impl Info {
    /// What the role satisfies at all times.
    pub open spec fn wf(&self) -> bool {
        role_wf(self@.role)
    }

    /// Makes this server a replica of the primary at `host` and `port`, before any
    /// connection stands.
    pub fn slave(&mut self, host: String, port: u16)
        ensures
            final(self).wf(),
            final(self).port == old(self).port,
            final(self)@.role == RoleView::Slave(
                SlaveView {
                    master_host: host@,
                    master_port: port,
                    state: HandshakeState::Dialing,
                    offset: 0,
                    pending: Seq::empty(),
                },
            ),
    {
        self.role = Role::Slave(
            Slave {
                master_host: host,
                master_port: port,
                state: HandshakeState::Dialing,
                offset: 0,
                pending: Vec::new(),
            },
        );
    }

    /// Whether this server is a primary.
    pub fn is_master(&self) -> (out: bool)
        ensures
            out == (self@.role is Master),
    {
        match self.role {
            Role::Master(_) => true,
            Role::Slave(_) => false,
        }
    }

    /// What this server knows as a replica, if it is one.
    pub fn as_slave(&self) -> (out: Option<Slave>)
        ensures
            match self@.role {
                RoleView::Slave(r) => out matches Some(s) && s@ == r,
                RoleView::Master(_) => out is None,
            },
    {
        match self.role {
            Role::Slave(ref slave) => Some(slave.clone()),
            _ => None,
        }
    }

    /// The first message of the handshake, which only a replica sends.
    pub fn ping(&self) -> (out: Option<Vec<u8>>)
        ensures
            match self@.role {
                RoleView::Slave(_) => out matches Some(m) && m@ == ping_request(),
                RoleView::Master(_) => out is None,
            },
    {
        match self.role {
            Role::Slave(_) => Some(ping_message()),
            Role::Master(_) => None,
        }
    }

    /// The command that `args` make, as it is sent: an array of bulk strings.
    pub fn replconf(&self, args: &Vec<Vec<u8>>) -> (out: Vec<u8>)
        ensures
            out@ == encode(command(words_of(args@))),
    {
        RespData::new_bulk_array(args).as_bytes()
    }

    /// Reads the primary's answer to the request for synchronisation from the front of
    /// `received`: the full resync line, then the snapshot.
    pub fn psync(received: &[u8]) -> (out: Parsed)
        ensures
            out@ == psync_reply(received@),
            out matches Parsed::Complete(_, used) ==> used <= received.len(),
    {
        if received.len() == 0 {
            return Parsed::Incomplete;
        }
        let kind = RespType::from(received[0]);
        match RespData::parse(received, &kind, MAX_DEPTH) {
            Parsed::Complete(frame, used) => {
                let accepted: bool = match &frame {
                    RespData::SimpleString(t) => {
                        proof {
                            reveal_strlit("FULLRESYNC ");
                        }
                        let word = bytes_of("FULLRESYNC ");
                        starts_with(t.as_slice(), word.as_slice())
                    },
                    _ => false,
                };
                if !accepted {
                    return Parsed::Invalid;
                }
                let rest = slice_subrange(received, used, received.len());
                assert(rest@ == received@.skip(used as int));
                match read_snapshot(rest) {
                    Parsed::Complete(_, more) => Parsed::Complete(frame, used + more),
                    Parsed::Incomplete => Parsed::Incomplete,
                    Parsed::Invalid => Parsed::Invalid,
                }
            },
            Parsed::Incomplete => Parsed::Incomplete,
            Parsed::Invalid => Parsed::Invalid,
        }
    }

    /// One step of the handshake: what the event makes of this server, and what it is to
    /// do next.
    pub fn handshake(&mut self, event: HandshakeEvent) -> (out: HandshakeAction)
        requires
            old(self).wf(),
        ensures
            final(self).wf(),
            final(self)@ == handshake_spec(old(self)@, event@).0,
            out@ == handshake_spec(old(self)@, event@).1,
    {
        let port = self.port;
        match &mut self.role {
            Role::Slave(slave) => slave.step(port, event),
            Role::Master(_) => HandshakeAction::Close,
        }
    }

    /// A bulk string with what this server tells of its replication.
    pub fn replication(&self) -> (out: RespData)
        ensures
            out@ == bulk(replication_text(self@.role)),
    {
        match &self.role {
            Role::Master(_) => {
                let mut text = self.role.line();
                let rep = self.role.master_replication();
                text.push(10u8);
                append_bytes(&mut text, rep.0.as_slice());
                text.push(10u8);
                append_bytes(&mut text, rep.1.as_slice());
                assert(text@ =~= replication_text(self@.role));
                RespData::BulkString(Some(text))
            },
            Role::Slave(_) => self.get_role(),
        }
    }

    /// A bulk string with the line that names this server's role.
    pub fn get_role(&self) -> (out: RespData)
        ensures
            out@ == bulk(role_line(self@.role)),
    {
        RespData::BulkString(Some(self.role.line()))
    }
}

impl Role {
    /// The line that names this role.
    pub fn line(&self) -> (out: Vec<u8>)
        ensures
            out@ == role_line(self@),
    {
        match self {
            Role::Master(_) => {
                proof {
                    reveal_strlit("role:master");
                }
                bytes_of("role:master")
            },
            Role::Slave(_) => {
                proof {
                    reveal_strlit("role:slave");
                }
                bytes_of("role:slave")
            },
        }
    }

    /// The two lines that a primary tells of its history: its replication identifier
    /// and its offset. A replica has neither, and gets two empty lines.
    fn master_replication(&self) -> (out: (Vec<u8>, Vec<u8>))
        ensures
            match self@ {
                RoleView::Master(m) => out.0@ == ascii("master_replid:") + m.replication_id
                    && out.1@ == ascii("master_repl_offset:") + decimal(m.offset as nat),
                RoleView::Slave(_) => out.0@.len() == 0 && out.1@.len() == 0,
            },
    {
        match self {
            Role::Master(master) => {
                proof {
                    reveal_strlit("master_replid:");
                    reveal_strlit("master_repl_offset:");
                }
                let mut id = bytes_of("master_replid:");
                append_bytes(&mut id, master.replication_id.as_slice());
                let mut offset = bytes_of("master_repl_offset:");
                push_decimal(&mut offset, master.offset);
                (id, offset)
            },
            Role::Slave(_) => (Vec::new(), Vec::new()),
        }
    }
}

} // verus!
