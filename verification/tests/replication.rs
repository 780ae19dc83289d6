use mini_redis::parse::{Parsed, RespData};
use mini_redis::server::{
    HandshakeAction, HandshakeEvent, HandshakeState, Info, Master, Role, Slave,
};

const SNAPSHOT_HEX: &str = "524544495330303131fa0972656469732d76657205372e322e30fa0a72656469732d62697473c040fa056374696d65c26d08bc65fa08757365642d6d656dc2b0c41000fa08616f662d62617365c000fff06e3bfec0ff5aa2";

fn snapshot() -> Vec<u8> {
    (0..SNAPSHOT_HEX.len())
        .step_by(2)
        .map(|i| u8::from_str_radix(&SNAPSHOT_HEX[i..i + 2], 16).unwrap())
        .collect()
}

fn full_resync_bytes() -> Vec<u8> {
    let mut bytes = b"+FULLRESYNC 8371b4fb1155b71f4a04d3e1bc3e18c4a990aeeb 0\r\n$88\r\n".to_vec();
    bytes.extend_from_slice(&snapshot());
    bytes
}

fn replica(port: u16) -> Info {
    let mut info = Info::default();
    info.port = port;
    info.slave(String::from("127.0.0.1"), 6379);
    info
}

fn state_of(info: &Info) -> HandshakeState {
    match &info.role {
        Role::Slave(s) => s.state,
        Role::Master(_) => panic!("a primary has no handshake"),
    }
}

fn sent(action: HandshakeAction) -> Vec<u8> {
    match action {
        HandshakeAction::Send(bytes) => bytes,
        other => panic!("nothing sent: {:?}", other),
    }
}

#[test]
fn a_server_starts_as_a_primary_on_the_default_port() {
    let info = Info::default();
    assert_eq!(info.port, 6379);
    assert!(info.is_master());
    assert!(info.as_slave().is_none());
    match &info.role {
        Role::Master(m) => {
            assert_eq!(m.replication_id, b"8371b4fb1155b71f4a04d3e1bc3e18c4a990aeeb".to_vec());
            assert_eq!(m.replication_id.len(), 40);
            assert!(m.replication_id.iter().all(|b| b.is_ascii_hexdigit()));
            assert_eq!(m.offset, 0);
            assert!(m.slave_ports.is_empty());
        }
        Role::Slave(_) => panic!("not a primary"),
    }
    assert!(matches!(Role::default(), Role::Master(_)));
}

#[test]
fn a_primary_tells_its_role_identifier_and_offset() {
    let info = Info::default();
    assert_eq!(
        info.replication(),
        RespData::BulkString(Some(
            b"role:master\nmaster_replid:8371b4fb1155b71f4a04d3e1bc3e18c4a990aeeb\nmaster_repl_offset:0"
                .to_vec()
        ))
    );
    assert_eq!(info.get_role(), RespData::BulkString(Some(b"role:master".to_vec())));
    let moved = Info {
        role: Role::Master(Master {
            replication_id: b"0123456789abcdef0123456789abcdef01234567".to_vec(),
            offset: 1234,
            slave_ports: vec![],
        }),
        port: 7000,
    };
    assert_eq!(
        moved.replication().as_bytes(),
        b"$90\r\nrole:master\nmaster_replid:0123456789abcdef0123456789abcdef01234567\nmaster_repl_offset:1234\r\n"
            .to_vec()
    );
}

#[test]
fn a_replica_tells_its_role_only() {
    let info = replica(6380);
    assert!(!info.is_master());
    assert_eq!(info.replication(), RespData::BulkString(Some(b"role:slave".to_vec())));
    assert_eq!(info.get_role(), RespData::BulkString(Some(b"role:slave".to_vec())));
    assert_eq!(info.role.line(), b"role:slave".to_vec());
    let copy: Slave = info.as_slave().expect("a replica");
    assert_eq!(copy.master_host, "127.0.0.1");
    assert_eq!(copy.master_port, 6379);
    assert_eq!(copy.state, HandshakeState::Dialing);
    assert_eq!(copy.offset, 0);
    assert!(copy.pending.is_empty());
    assert!(!copy.is_live());
    assert_eq!(info.port, 6380);
}

#[test]
fn only_a_replica_pings() {
    assert_eq!(replica(6380).ping(), Some(b"*1\r\n$4\r\nPING\r\n".to_vec()));
    assert_eq!(Info::default().ping(), None);
}

#[test]
fn replconf_encodes_its_words_as_a_command() {
    let info = replica(6380);
    assert_eq!(
        info.replconf(&vec![b"REPLCONF".to_vec(), b"capa".to_vec(), b"psync2".to_vec()]),
        b"*3\r\n$8\r\nREPLCONF\r\n$4\r\ncapa\r\n$6\r\npsync2\r\n".to_vec()
    );
    assert_eq!(info.replconf(&vec![]), b"*0\r\n".to_vec());
}

#[test]
fn the_handshake_sends_its_four_messages_in_order() {
    let mut info = replica(6380);
    assert_eq!(state_of(&info), HandshakeState::Dialing);

    let ping = sent(info.handshake(HandshakeEvent::Connected));
    assert_eq!(ping, b"*1\r\n$4\r\nPING\r\n".to_vec());
    assert_eq!(state_of(&info), HandshakeState::Pinged);

    let port = sent(info.handshake(HandshakeEvent::Received(b"+PONG\r\n".to_vec())));
    assert_eq!(port, b"*3\r\n$8\r\nREPLCONF\r\n$14\r\nlistening-port\r\n$4\r\n6380\r\n".to_vec());
    assert_eq!(state_of(&info), HandshakeState::PortAnnounced);

    let capa = sent(info.handshake(HandshakeEvent::Received(b"+OK\r\n".to_vec())));
    assert_eq!(capa, b"*3\r\n$8\r\nREPLCONF\r\n$4\r\ncapa\r\n$6\r\npsync2\r\n".to_vec());
    assert_eq!(state_of(&info), HandshakeState::CapaAnnounced);

    let psync = sent(info.handshake(HandshakeEvent::Received(b"+OK\r\n".to_vec())));
    assert_eq!(psync, b"*3\r\n$5\r\nPSYNC\r\n$1\r\n?\r\n$2\r\n-1\r\n".to_vec());
    assert_eq!(state_of(&info), HandshakeState::Synced);

    match info.handshake(HandshakeEvent::Received(full_resync_bytes())) {
        HandshakeAction::Done(rest) => assert!(rest.is_empty()),
        other => panic!("{:?}", other),
    }
    assert_eq!(state_of(&info), HandshakeState::Streaming);
    assert!(info.as_slave().unwrap().is_live());
}

#[test]
fn answers_may_come_in_pieces() {
    let mut info = replica(6380);
    info.handshake(HandshakeEvent::Connected);
    assert!(matches!(
        info.handshake(HandshakeEvent::Received(b"+PO".to_vec())),
        HandshakeAction::Wait
    ));
    assert_eq!(state_of(&info), HandshakeState::Pinged);
    assert!(matches!(
        info.handshake(HandshakeEvent::Received(b"NG\r".to_vec())),
        HandshakeAction::Wait
    ));
    assert!(matches!(
        info.handshake(HandshakeEvent::Received(b"\n".to_vec())),
        HandshakeAction::Send(_)
    ));
    assert_eq!(state_of(&info), HandshakeState::PortAnnounced);
    info.handshake(HandshakeEvent::Received(b"+OK\r\n".to_vec()));
    info.handshake(HandshakeEvent::Received(b"+OK\r\n".to_vec()));
    assert_eq!(state_of(&info), HandshakeState::Synced);

    let whole = full_resync_bytes();
    assert!(matches!(
        info.handshake(HandshakeEvent::Received(whole[..20].to_vec())),
        HandshakeAction::Wait
    ));
    assert!(matches!(
        info.handshake(HandshakeEvent::Received(whole[20..70].to_vec())),
        HandshakeAction::Wait
    ));
    assert_eq!(state_of(&info), HandshakeState::Synced);
    match info.handshake(HandshakeEvent::Received(whole[70..].to_vec())) {
        HandshakeAction::Done(rest) => assert!(rest.is_empty()),
        other => panic!("{:?}", other),
    }
    assert_eq!(state_of(&info), HandshakeState::Streaming);
}

#[test]
fn what_follows_the_snapshot_is_handed_back() {
    let mut info = replica(6380);
    info.handshake(HandshakeEvent::Connected);
    info.handshake(HandshakeEvent::Received(b"+PONG\r\n".to_vec()));
    info.handshake(HandshakeEvent::Received(b"+OK\r\n".to_vec()));
    info.handshake(HandshakeEvent::Received(b"+OK\r\n".to_vec()));
    let mut bytes = full_resync_bytes();
    bytes.extend_from_slice(b"*3\r\n$3\r\nSET\r\n$1\r\nk\r\n$1\r\nv\r\n");
    match info.handshake(HandshakeEvent::Received(bytes)) {
        HandshakeAction::Done(rest) => {
            assert_eq!(rest, b"*3\r\n$3\r\nSET\r\n$1\r\nk\r\n$1\r\nv\r\n".to_vec())
        }
        other => panic!("{:?}", other),
    }
    match info.handshake(HandshakeEvent::Received(b"more".to_vec())) {
        HandshakeAction::Done(rest) => assert_eq!(rest, b"more".to_vec()),
        other => panic!("{:?}", other),
    }
    assert_eq!(state_of(&info), HandshakeState::Streaming);
}

#[test]
fn a_failed_connection_ends_the_handshake() {
    let mut info = replica(6380);
    info.handshake(HandshakeEvent::Connected);
    assert!(matches!(info.handshake(HandshakeEvent::SocketError), HandshakeAction::Close));
    assert_eq!(state_of(&info), HandshakeState::Disconnected);
    assert!(matches!(info.handshake(HandshakeEvent::Connected), HandshakeAction::Close));
    assert!(matches!(
        info.handshake(HandshakeEvent::Received(b"+PONG\r\n".to_vec())),
        HandshakeAction::Close
    ));
    assert_eq!(state_of(&info), HandshakeState::Disconnected);
}

#[test]
fn bytes_that_are_no_frame_end_the_handshake() {
    let mut info = replica(6380);
    info.handshake(HandshakeEvent::Connected);
    assert!(matches!(
        info.handshake(HandshakeEvent::Received(b"?PONG\r\n".to_vec())),
        HandshakeAction::Close
    ));
    assert_eq!(state_of(&info), HandshakeState::Disconnected);
}

#[test]
fn anything_but_a_full_resync_ends_the_handshake() {
    for answer in [
        &b"-ERR no\r\n"[..],
        b"+CONTINUE\r\n",
        b"+FULLRESYNC\r\n",
        b"$3\r\nhey\r\n",
        b"+FULLRESYNC abc 0\r\n+OK\r\n",
        b"+FULLRESYNC abc 0\r\n$x\r\n",
    ] {
        let mut info = replica(6380);
        info.handshake(HandshakeEvent::Connected);
        info.handshake(HandshakeEvent::Received(b"+PONG\r\n".to_vec()));
        info.handshake(HandshakeEvent::Received(b"+OK\r\n".to_vec()));
        info.handshake(HandshakeEvent::Received(b"+OK\r\n".to_vec()));
        assert!(
            matches!(
                info.handshake(HandshakeEvent::Received(answer.to_vec())),
                HandshakeAction::Close
            ),
            "{:?}",
            answer
        );
        assert_eq!(state_of(&info), HandshakeState::Disconnected);
    }
}

#[test]
fn events_out_of_turn_change_nothing() {
    let mut info = replica(6380);
    assert!(matches!(
        info.handshake(HandshakeEvent::Received(b"+PONG\r\n".to_vec())),
        HandshakeAction::Wait
    ));
    assert_eq!(state_of(&info), HandshakeState::Dialing);
    info.handshake(HandshakeEvent::Connected);
    assert!(matches!(info.handshake(HandshakeEvent::Connected), HandshakeAction::Wait));
    assert_eq!(state_of(&info), HandshakeState::Pinged);
}

#[test]
fn a_primary_has_no_handshake() {
    let mut info = Info::default();
    assert!(matches!(info.handshake(HandshakeEvent::Connected), HandshakeAction::Close));
    assert!(info.is_master());
}

#[test]
fn psync_reads_the_line_and_the_snapshot() {
    let whole = full_resync_bytes();
    match Info::psync(&whole) {
        Parsed::Complete(frame, used) => {
            assert_eq!(
                frame,
                RespData::SimpleString(
                    b"FULLRESYNC 8371b4fb1155b71f4a04d3e1bc3e18c4a990aeeb 0".to_vec()
                )
            );
            assert_eq!(used, whole.len());
            assert_eq!(used, 56 + 5 + 88);
        }
        other => panic!("{:?}", other),
    }
    assert!(matches!(Info::psync(&whole[..whole.len() - 1]), Parsed::Incomplete));
    assert!(matches!(Info::psync(b""), Parsed::Incomplete));
    assert!(matches!(Info::psync(b"+FULLRESYNC x 0\r\n"), Parsed::Incomplete));
    assert!(matches!(Info::psync(b"+FULLRESYNC x 0\r\n$0\r\n"), Parsed::Complete(_, 21)));
    assert!(matches!(Info::psync(b"+NOPE x 0\r\n$0\r\n"), Parsed::Invalid));
    assert!(matches!(Info::psync(b":1\r\n$0\r\n"), Parsed::Invalid));
}

#[test]
fn the_registry_holds_each_replica_once() {
    let mut master = Master {
        replication_id: b"8371b4fb1155b71f4a04d3e1bc3e18c4a990aeeb".to_vec(),
        offset: 0,
        slave_ports: vec![],
    };
    master.register(6380);
    master.register(6381);
    master.register(6380);
    assert_eq!(master.slave_ports, vec![6380, 6381]);
    master.forget(6380);
    assert_eq!(master.slave_ports, vec![6381]);
    master.forget(6380);
    assert_eq!(master.slave_ports, vec![6381]);
    master.forget(6381);
    assert!(master.slave_ports.is_empty());
}

#[test]
fn a_copy_of_the_replication_state_holds_the_same() {
    let mut info = Info::default();
    if let Role::Master(master) = &mut info.role {
        master.register(6380);
        master.offset = 77;
    }
    let copy = info.clone();
    assert_eq!(copy.port, info.port);
    match (&copy.role, &info.role) {
        (Role::Master(a), Role::Master(b)) => {
            assert_eq!(a.replication_id, b.replication_id);
            assert_eq!(a.offset, 77);
            assert_eq!(a.slave_ports, vec![6380]);
        }
        _ => panic!("not a primary"),
    }
    let replica_copy = replica(6381).clone();
    assert!(!replica_copy.is_master());
    assert_eq!(replica_copy.port, 6381);
}
