use mini_redis::connection::Connection;
use mini_redis::handler::{
    handle_echo, handle_error, handle_get, handle_info, handle_ping, handle_psync,
    handle_replconf, handle_request, handle_set, handle_type, handle_xadd, handle_xrange, Effect,
    Outcome, StateInner,
};
use mini_redis::parse::{Resp, RespData, RespType};
use mini_redis::server::{Info, Role};

const SNAPSHOT_HEX_TEXT: &str = "524544495330303131fa0972656469732d76657205372e322e30fa0a72656469732d62697473c040fa056374696d65c26d08bc65fa08757365642d6d656dc2b0c41000fa08616f662d62617365c000fff06e3bfec0ff5aa2";

fn primary() -> StateInner {
    StateInner::new(Info::default())
}

fn replica_state() -> StateInner {
    let mut info = Info::default();
    info.port = 6380;
    info.slave(String::from("localhost"), 6379);
    StateInner::new(info)
}

fn words(list: &[&str]) -> Vec<RespData> {
    list.iter().map(|w| RespData::BulkString(Some(w.as_bytes().to_vec()))).collect()
}

fn request(list: &[&str]) -> Resp {
    Resp { data_type: RespType::Array, data: RespData::Array(words(list)) }
}

fn run(state: &mut StateInner, list: &[&str], now: u64) -> Outcome {
    handle_request(state, &request(list), None, now, 1_700_000_000_000)
}

fn reply(state: &mut StateInner, list: &[&str], now: u64) -> String {
    String::from_utf8(run(state, list, now).reply).expect("text")
}

fn encoded(list: &[&str]) -> Vec<u8> {
    RespData::Array(words(list)).as_bytes()
}

fn is_local(effect: &Effect) -> bool {
    matches!(effect, Effect::Local)
}

fn primary_offset(state: &StateInner) -> u64 {
    match &state.info.role {
        Role::Master(m) => m.offset,
        Role::Slave(_) => panic!("not a primary"),
    }
}

fn replica_offset(state: &StateInner) -> u64 {
    match &state.info.role {
        Role::Slave(s) => s.offset,
        Role::Master(_) => panic!("not a replica"),
    }
}

#[test]
fn echo_answers_with_its_argument() {
    let mut conn = Connection::new();
    let mut state = primary();
    let outs = conn
        .handle_connection(&mut state, b"*2\r\n$4\r\nECHO\r\n$3\r\nhey\r\n", 0, 0)
        .expect("valid");
    assert_eq!(outs.len(), 1);
    assert_eq!(outs[0].reply, b"$3\r\nhey\r\n".to_vec());
    assert!(is_local(&outs[0].effect));
}

#[test]
fn a_value_is_found_until_it_expires() {
    let mut state = primary();
    assert_eq!(reply(&mut state, &["SET", "foo", "bar", "PX", "100"], 1000), "+OK\r\n");
    assert_eq!(reply(&mut state, &["GET", "foo"], 1000), "$3\r\nbar\r\n");
    assert_eq!(reply(&mut state, &["GET", "foo"], 1100), "$3\r\nbar\r\n");
    assert_eq!(reply(&mut state, &["GET", "foo"], 1101), "$-1\r\n");
    assert_eq!(reply(&mut state, &["GET", "foo"], 1150), "$-1\r\n");
}

#[test]
fn a_value_without_expiry_is_always_found() {
    let mut state = primary();
    assert_eq!(reply(&mut state, &["SET", "k", "v"], 5), "+OK\r\n");
    assert_eq!(reply(&mut state, &["GET", "k"], 5), "$1\r\nv\r\n");
    assert_eq!(reply(&mut state, &["GET", "k"], u64::MAX), "$1\r\nv\r\n");
    assert_eq!(reply(&mut state, &["SET", "k", "w"], 6), "+OK\r\n");
    assert_eq!(reply(&mut state, &["get", "k"], 7), "$1\r\nw\r\n");
    assert_eq!(reply(&mut state, &["SET", "z", "v", "PX", "0"], 6), "+OK\r\n");
    assert_eq!(reply(&mut state, &["GET", "z"], u64::MAX), "$1\r\nv\r\n");
}

#[test]
fn a_missing_key_is_answered_with_the_null_string() {
    let mut state = primary();
    assert_eq!(reply(&mut state, &["GET", "nope"], 0), "$-1\r\n");
}

#[test]
fn the_kind_under_a_key_is_told() {
    let mut state = primary();
    assert_eq!(reply(&mut state, &["SET", "s", "hello"], 0), "+OK\r\n");
    assert_eq!(reply(&mut state, &["XADD", "st", "1-1", "k", "v"], 0), "$3\r\n1-1\r\n");
    assert_eq!(reply(&mut state, &["TYPE", "s"], 0), "+string\r\n");
    assert_eq!(reply(&mut state, &["TYPE", "st"], 0), "+stream\r\n");
    assert_eq!(reply(&mut state, &["TYPE", "nope"], 0), "+none\r\n");
    assert_eq!(reply(&mut state, &["SET", "st", "x"], 0), "+OK\r\n");
    assert_eq!(reply(&mut state, &["TYPE", "st"], 0), "+stream\r\n");
}

#[test]
fn sequence_numbers_are_chosen_and_zero_is_refused() {
    let mut state = primary();
    assert_eq!(reply(&mut state, &["XADD", "st", "0-*", "a", "1"], 0), "$3\r\n0-1\r\n");
    assert_eq!(reply(&mut state, &["XADD", "st", "0-*", "a", "2"], 0), "$3\r\n0-2\r\n");
    assert_eq!(
        reply(&mut state, &["XADD", "st", "0-0", "a", "3"], 0),
        "-ERR The ID specified in XADD must be greater than 0-0\r\n"
    );
    assert_eq!(reply(&mut state, &["XADD", "st", "5-*", "a", "4"], 0), "$3\r\n5-0\r\n");
    assert_eq!(reply(&mut state, &["XADD", "st", "5-*", "a", "5"], 0), "$3\r\n5-1\r\n");
    assert_eq!(
        reply(&mut state, &["XADD", "fresh", "0-0", "a", "3"], 0),
        "-ERR The ID specified in XADD must be greater than 0-0\r\n"
    );
    assert_eq!(reply(&mut state, &["TYPE", "fresh"], 0), "+none\r\n");
}

#[test]
fn an_identifier_not_above_the_top_is_refused() {
    let mut state = primary();
    assert_eq!(reply(&mut state, &["XADD", "st", "5-5", "a", "1"], 0), "$3\r\n5-5\r\n");
    for id in ["5-5", "5-4", "4-9", "0-1"] {
        assert_eq!(
            reply(&mut state, &["XADD", "st", id, "a", "2"], 0),
            "-ERR The ID specified in XADD is equal or smaller than the target stream top item\r\n",
            "{}",
            id
        );
    }
    assert_eq!(reply(&mut state, &["XADD", "st", "5-6", "a", "3"], 0), "$3\r\n5-6\r\n");
    assert_eq!(
        reply(&mut state, &["XRANGE", "st", "-", "+"], 0),
        "*2\r\n*2\r\n$3\r\n5-5\r\n*2\r\n$1\r\na\r\n$1\r\n1\r\n*2\r\n$3\r\n5-6\r\n*2\r\n$1\r\na\r\n$1\r\n3\r\n"
    );
}

#[test]
fn a_star_takes_the_wall_clock() {
    let mut state = primary();
    let out = handle_request(&mut state, &request(&["XADD", "st", "*", "a", "1"]), None, 0, 1526919030474);
    assert_eq!(out.reply, b"$15\r\n1526919030474-0\r\n".to_vec());
    let out = handle_request(&mut state, &request(&["XADD", "st", "*", "a", "1"]), None, 0, 1526919030474);
    assert_eq!(
        out.reply,
        b"-ERR The ID specified in XADD is equal or smaller than the target stream top item\r\n"
            .to_vec()
    );
    let out = handle_request(&mut state, &request(&["XADD", "st", "*", "a", "1"]), None, 0, 1526919030475);
    assert_eq!(out.reply, b"$15\r\n1526919030475-0\r\n".to_vec());
}

#[test]
fn a_range_of_one_millisecond_holds_all_its_entries() {
    let mut state = primary();
    for id in ["1-0", "1-1", "2-0"] {
        reply(&mut state, &["XADD", "st", id, "f", id], 0);
    }
    assert_eq!(
        reply(&mut state, &["XRANGE", "st", "1", "1"], 0),
        "*2\r\n*2\r\n$3\r\n1-0\r\n*2\r\n$1\r\nf\r\n$3\r\n1-0\r\n*2\r\n$3\r\n1-1\r\n*2\r\n$1\r\nf\r\n$3\r\n1-1\r\n"
    );
    assert_eq!(
        reply(&mut state, &["XRANGE", "st", "1-1", "2"], 0),
        "*2\r\n*2\r\n$3\r\n1-1\r\n*2\r\n$1\r\nf\r\n$3\r\n1-1\r\n*2\r\n$3\r\n2-0\r\n*2\r\n$1\r\nf\r\n$3\r\n2-0\r\n"
    );
    assert_eq!(
        reply(&mut state, &["XRANGE", "st", "-", "1-0"], 0),
        "*1\r\n*2\r\n$3\r\n1-0\r\n*2\r\n$1\r\nf\r\n$3\r\n1-0\r\n"
    );
    assert_eq!(
        reply(&mut state, &["XRANGE", "st", "2", "+"], 0),
        "*1\r\n*2\r\n$3\r\n2-0\r\n*2\r\n$1\r\nf\r\n$3\r\n2-0\r\n"
    );
    assert_eq!(reply(&mut state, &["XRANGE", "st", "3", "+"], 0), "*0\r\n");
    assert_eq!(reply(&mut state, &["XRANGE", "none", "-", "+"], 0), "*0\r\n");
}

#[test]
fn range_bounds_compare_as_numbers() {
    let mut state = primary();
    reply(&mut state, &["XADD", "st", "2-0", "f", "a"], 0);
    reply(&mut state, &["XADD", "st", "10-0", "f", "b"], 0);
    assert_eq!(
        reply(&mut state, &["XRANGE", "st", "3", "10"], 0),
        "*1\r\n*2\r\n$4\r\n10-0\r\n*2\r\n$1\r\nf\r\n$1\r\nb\r\n"
    );
}

#[test]
fn ping_answers_pong_or_its_argument() {
    let mut state = primary();
    assert_eq!(reply(&mut state, &["PING"], 0), "+PONG\r\n");
    assert_eq!(reply(&mut state, &["ping"], 0), "+PONG\r\n");
    assert_eq!(reply(&mut state, &["PING", "hello"], 0), "$5\r\nhello\r\n");
    assert_eq!(reply(&mut state, &["PING", "a", "b"], 0), "-Unexpected data type\r\n");
}

#[test]
fn an_unknown_command_is_answered_and_survives() {
    let mut state = primary();
    assert_eq!(reply(&mut state, &["FLY"], 0), "-Unexpected command\r\n");
    assert_eq!(reply(&mut state, &["XREAD", "st", "0-0"], 0), "-Unexpected command\r\n");
    assert_eq!(reply(&mut state, &["PING"], 0), "+PONG\r\n");
}

#[test]
fn what_is_no_command_is_answered_as_wrong_data() {
    let mut state = primary();
    for data in [
        RespData::SimpleString(b"PING".to_vec()),
        RespData::Integer(1),
        RespData::BulkString(Some(b"PING".to_vec())),
        RespData::BulkString(None),
        RespData::Array(vec![]),
        RespData::Array(vec![RespData::Integer(1)]),
        RespData::Array(vec![RespData::SimpleString(b"PING".to_vec())]),
        RespData::Array(vec![RespData::Array(vec![])]),
        RespData::RequestArray(vec![]),
    ] {
        let out = handle_request(
            &mut state,
            &Resp { data_type: RespType::Array, data },
            None,
            0,
            0,
        );
        assert_eq!(out.reply, b"-Unexpected data type\r\n".to_vec());
        assert!(is_local(&out.effect));
    }
}

#[test]
fn wrong_arguments_are_answered_and_change_nothing() {
    let mut state = primary();
    let wrong: Vec<Vec<&str>> = vec![
        vec!["ECHO"],
        vec!["ECHO", "a", "b"],
        vec!["SET"],
        vec!["SET", "k"],
        vec!["SET", "k", "v", "PX"],
        vec!["SET", "k", "v", "PX", "soon"],
        vec!["SET", "k", "v", "PX", "-1"],
        vec!["SET", "k", "v", "PX", "1", "x"],
        vec!["GET"],
        vec!["GET", "a", "b"],
        vec!["TYPE"],
        vec!["TYPE", "a", "b"],
        vec!["XADD", "st"],
        vec!["XADD", "st", "1-1"],
        vec!["XADD", "st", "1-1", "f"],
        vec!["XADD", "st", "1-1", "f", "v", "g"],
        vec!["XADD", "st", "nonsense", "f", "v"],
        vec!["XADD", "st", "1", "f", "v"],
        vec!["XRANGE", "st"],
        vec!["XRANGE", "st", "-"],
        vec!["XRANGE", "st", "-", "+", "x"],
        vec!["XRANGE", "st", "a", "+"],
        vec!["XRANGE", "st", "-", "b"],
        vec!["XRANGE", "st", "+", "-"],
        vec!["INFO"],
        vec!["INFO", "server"],
        vec!["INFO", "REPLICATION"],
        vec!["INFO", "replication", "x"],
        vec!["REPLCONF"],
        vec!["REPLCONF", "capa"],
        vec!["REPLCONF", "listening-port", "port"],
        vec!["REPLCONF", "listening-port", "65536"],
        vec!["PSYNC"],
        vec!["PSYNC", "?"],
        vec!["PSYNC", "?", "-1", "x"],
    ];
    for list in wrong {
        let out = run(&mut state, &list, 0);
        assert_eq!(out.reply, b"-Unexpected data type\r\n".to_vec(), "{:?}", list);
        assert!(is_local(&out.effect), "{:?}", list);
    }
    assert_eq!(reply(&mut state, &["GET", "k"], 0), "$-1\r\n");
    assert_eq!(reply(&mut state, &["TYPE", "st"], 0), "+none\r\n");
    assert_eq!(primary_offset(&state), 0);
}

#[test]
fn arguments_of_the_wrong_kind_are_refused() {
    let mut state = primary();
    let set = vec![
        RespData::BulkString(Some(b"SET".to_vec())),
        RespData::Integer(1),
        RespData::BulkString(Some(b"v".to_vec())),
    ];
    assert_eq!(handle_set(&mut state, &set, 0).reply, b"-Unexpected data type\r\n".to_vec());
    let set = vec![
        RespData::BulkString(Some(b"SET".to_vec())),
        RespData::BulkString(Some(b"k".to_vec())),
        RespData::BulkString(Some(b"v".to_vec())),
        RespData::SimpleString(b"PX".to_vec()),
        RespData::BulkString(Some(b"1".to_vec())),
    ];
    assert_eq!(handle_set(&mut state, &set, 0).reply, b"-Unexpected data type\r\n".to_vec());
    let xadd = vec![
        RespData::BulkString(Some(b"XADD".to_vec())),
        RespData::BulkString(Some(b"st".to_vec())),
        RespData::BulkString(Some(b"1-1".to_vec())),
        RespData::SimpleString(b"f".to_vec()),
        RespData::BulkString(Some(b"v".to_vec())),
    ];
    assert_eq!(handle_xadd(&mut state, &xadd, 0).reply, b"-Unexpected data type\r\n".to_vec());
    let get = vec![RespData::BulkString(Some(b"GET".to_vec())), RespData::BulkString(None)];
    assert_eq!(handle_get(&state, &get, 0).reply, b"-Unexpected data type\r\n".to_vec());
}

#[test]
fn text_arguments_may_be_simple_strings() {
    let mut state = primary();
    let set = vec![
        RespData::BulkString(Some(b"SET".to_vec())),
        RespData::SimpleString(b"k".to_vec()),
        RespData::SimpleString(b"v".to_vec()),
    ];
    assert_eq!(handle_set(&mut state, &set, 0).reply, b"+OK\r\n".to_vec());
    assert_eq!(
        handle_get(&state, &words(&["GET", "k"]), 0).reply,
        b"$1\r\nv\r\n".to_vec()
    );
}

#[test]
fn an_option_other_than_px_is_ignored() {
    let mut state = primary();
    assert_eq!(reply(&mut state, &["SET", "k", "v", "EX"], 0), "+OK\r\n");
    assert_eq!(reply(&mut state, &["SET", "j", "v", "EX", "10"], 0), "+OK\r\n");
    assert_eq!(reply(&mut state, &["GET", "j"], u64::MAX), "$1\r\nv\r\n");
    assert_eq!(reply(&mut state, &["SET", "i", "v", "px", "10"], 0), "+OK\r\n");
    assert_eq!(reply(&mut state, &["GET", "i"], 11), "$-1\r\n");
}

#[test]
fn each_handler_answers_for_its_command() {
    let mut state = primary();
    assert_eq!(handle_ping(&words(&["PING"])).reply, b"+PONG\r\n".to_vec());
    assert_eq!(handle_echo(&words(&["ECHO", "x"])).reply, b"$1\r\nx\r\n".to_vec());
    assert_eq!(handle_error(b"Unexpected command").reply, b"-Unexpected command\r\n".to_vec());
    assert_eq!(handle_set(&mut state, &words(&["SET", "a", "b"]), 3).reply, b"+OK\r\n".to_vec());
    assert_eq!(handle_get(&state, &words(&["GET", "a"]), 4).reply, b"$1\r\nb\r\n".to_vec());
    assert_eq!(handle_type(&state, &words(&["TYPE", "a"])).reply, b"+string\r\n".to_vec());
    assert_eq!(
        handle_xadd(&mut state, &words(&["XADD", "s", "1-1", "f", "v"]), 0).reply,
        b"$3\r\n1-1\r\n".to_vec()
    );
    assert_eq!(
        handle_xrange(&state, &words(&["XRANGE", "s", "-", "+"])).reply,
        b"*1\r\n*2\r\n$3\r\n1-1\r\n*2\r\n$1\r\nf\r\n$1\r\nv\r\n".to_vec()
    );
    assert!(handle_info(&state, &words(&["INFO", "replication"]))
        .reply
        .starts_with(b"$"));
    assert_eq!(
        handle_replconf(&mut state, &words(&["REPLCONF", "capa", "psync2"])).reply,
        b"+OK\r\n".to_vec()
    );
    assert!(handle_psync(&mut state, &words(&["PSYNC", "?", "-1"]), None)
        .reply
        .starts_with(b"+FULLRESYNC "));
}

#[test]
fn info_tells_the_replication_state() {
    let mut state = primary();
    assert_eq!(
        reply(&mut state, &["INFO", "replication"], 0),
        "$87\r\nrole:master\nmaster_replid:8371b4fb1155b71f4a04d3e1bc3e18c4a990aeeb\nmaster_repl_offset:0\r\n"
    );
    let mut state = replica_state();
    assert_eq!(reply(&mut state, &["INFO", "replication"], 0), "$10\r\nrole:slave\r\n");
}

#[test]
fn a_primary_hands_its_writes_on() {
    let mut state = primary();
    let out = run(&mut state, &["SET", "k", "v"], 0);
    assert_eq!(out.reply, b"+OK\r\n".to_vec());
    match out.effect {
        Effect::Propagate(bytes) => {
            assert_eq!(bytes, b"*3\r\n$3\r\nSET\r\n$1\r\nk\r\n$1\r\nv\r\n".to_vec())
        }
        other => panic!("{:?}", other),
    }
    assert_eq!(primary_offset(&state), 27);
    let out = run(&mut state, &["XADD", "st", "0-*", "a", "1"], 0);
    match out.effect {
        Effect::Propagate(bytes) => assert_eq!(bytes, encoded(&["XADD", "st", "0-*", "a", "1"])),
        other => panic!("{:?}", other),
    }
    assert_eq!(primary_offset(&state), 27 + encoded(&["XADD", "st", "0-*", "a", "1"]).len() as u64);
    let out = run(&mut state, &["XADD", "st", "0-0", "a", "1"], 0);
    assert!(is_local(&out.effect));
    let out = run(&mut state, &["GET", "k"], 0);
    assert!(is_local(&out.effect));
    assert_eq!(primary_offset(&state), 27 + encoded(&["XADD", "st", "0-*", "a", "1"]).len() as u64);
}

#[test]
fn a_replica_hands_nothing_on() {
    let mut state = replica_state();
    let out = run(&mut state, &["SET", "k", "v"], 0);
    assert_eq!(out.reply, b"+OK\r\n".to_vec());
    assert!(is_local(&out.effect));
    assert_eq!(reply(&mut state, &["GET", "k"], 0), "$1\r\nv\r\n");
    let out = run(&mut state, &["XADD", "st", "1-1", "a", "1"], 0);
    assert!(is_local(&out.effect));
    assert_eq!(replica_offset(&state), 0);
}

#[test]
fn a_primary_takes_replicas_into_its_registry() {
    let mut state = primary();
    let out = run(&mut state, &["REPLCONF", "listening-port", "6380"], 0);
    assert_eq!(out.reply, b"+OK\r\n".to_vec());
    assert!(matches!(out.effect, Effect::Register(6380)));
    let out = run(&mut state, &["replconf", "LISTENING-PORT", "6381"], 0);
    assert!(matches!(out.effect, Effect::Register(6381)));
    let out = run(&mut state, &["REPLCONF", "listening-port", "6380"], 0);
    assert!(matches!(out.effect, Effect::Register(6380)));
    match &state.info.role {
        Role::Master(m) => assert_eq!(m.slave_ports, vec![6380, 6381]),
        Role::Slave(_) => panic!("not a primary"),
    }
    let out = run(&mut state, &["REPLCONF", "capa", "psync2"], 0);
    assert_eq!(out.reply, b"+OK\r\n".to_vec());
    assert!(is_local(&out.effect));
}

#[test]
fn a_replica_refuses_what_only_a_primary_does() {
    let mut state = replica_state();
    assert_eq!(
        reply(&mut state, &["REPLCONF", "listening-port", "6381"], 0),
        "-Slave can't treat REPLCONF\r\n"
    );
    assert_eq!(reply(&mut state, &["PSYNC", "?", "-1"], 0), "-Slave can't handle PSYNC\r\n");
    assert_eq!(reply(&mut state, &["REPLCONF", "capa", "psync2"], 0), "+OK\r\n");
}

#[test]
fn a_primary_answers_psync_with_a_full_resync_and_the_snapshot() {
    let mut state = primary();
    let out = run(&mut state, &["PSYNC", "?", "-1"], 0);
    let mut expected =
        b"+FULLRESYNC 8371b4fb1155b71f4a04d3e1bc3e18c4a990aeeb 0\r\n$88\r\n".to_vec();
    let blob: Vec<u8> = (0..SNAPSHOT_HEX_TEXT.len())
        .step_by(2)
        .map(|i| u8::from_str_radix(&SNAPSHOT_HEX_TEXT[i..i + 2], 16).unwrap())
        .collect();
    assert_eq!(blob.len(), 88);
    expected.extend_from_slice(&blob);
    assert_eq!(out.reply, expected);
    assert!(is_local(&out.effect));
    assert!(out.reply.ends_with(&[0xff, 0xf0, 0x6e, 0x3b, 0xfe, 0xc0, 0xff, 0x5a, 0xa2]));
}

#[test]
fn the_offset_is_told_on_request() {
    let mut state = replica_state();
    let out = run(&mut state, &["REPLCONF", "GETACK", "*"], 0);
    assert_eq!(out.reply, b"*3\r\n$8\r\nREPLCONF\r\n$3\r\nACK\r\n$1\r\n0\r\n".to_vec());
    assert!(is_local(&out.effect));

    let mut state = primary();
    run(&mut state, &["SET", "k", "v"], 0);
    let out = run(&mut state, &["REPLCONF", "getack", "*"], 0);
    assert_eq!(out.reply, b"*3\r\n$8\r\nREPLCONF\r\n$3\r\nACK\r\n$2\r\n27\r\n".to_vec());
    match out.effect {
        Effect::Propagate(bytes) => {
            assert_eq!(bytes, b"*3\r\n$8\r\nREPLCONF\r\n$6\r\nGETACK\r\n$1\r\n*\r\n".to_vec())
        }
        other => panic!("{:?}", other),
    }
    assert_eq!(primary_offset(&state), 27 + 37);
}

#[test]
fn requests_in_one_read_are_carried_out_in_order() {
    let mut conn = Connection::new();
    let mut state = primary();
    let mut bytes = encoded(&["SET", "k", "1"]);
    bytes.extend_from_slice(&encoded(&["GET", "k"]));
    bytes.extend_from_slice(&encoded(&["SET", "k", "2"]));
    bytes.extend_from_slice(&encoded(&["GET", "k"]));
    let outs = conn.handle_connection(&mut state, &bytes, 0, 0).expect("valid");
    let replies: Vec<Vec<u8>> = outs.iter().map(|o| o.reply.clone()).collect();
    assert_eq!(
        replies,
        vec![
            b"+OK\r\n".to_vec(),
            b"$1\r\n1\r\n".to_vec(),
            b"+OK\r\n".to_vec(),
            b"$1\r\n2\r\n".to_vec(),
        ]
    );
    let handed_on: Vec<u8> = outs
        .iter()
        .flat_map(|o| match &o.effect {
            Effect::Propagate(b) => b.clone(),
            _ => vec![],
        })
        .collect();
    let mut expected = encoded(&["SET", "k", "1"]);
    expected.extend_from_slice(&encoded(&["SET", "k", "2"]));
    assert_eq!(handed_on, expected);
}

#[test]
fn a_request_split_over_reads_is_carried_out_once_it_is_whole() {
    let mut conn = Connection::new();
    let mut state = primary();
    let bytes = encoded(&["SET", "foo", "bar"]);
    for cut in 1..bytes.len() {
        let mut conn = Connection::new();
        let mut state = primary();
        let outs = conn.handle_connection(&mut state, &bytes[..cut], 0, 0).expect("valid");
        assert!(outs.is_empty(), "cut at {}", cut);
        let outs = conn.handle_connection(&mut state, &bytes[cut..], 0, 0).expect("valid");
        assert_eq!(outs.len(), 1, "cut at {}", cut);
        assert_eq!(outs[0].reply, b"+OK\r\n".to_vec());
        assert_eq!(reply(&mut state, &["GET", "foo"], 0), "$3\r\nbar\r\n");
    }
    let outs = conn.handle_connection(&mut state, b"*2\r\n$4\r\nEC", 0, 0).unwrap();
    assert!(outs.is_empty());
    let outs = conn.handle_connection(&mut state, b"HO\r\n$3\r\nhey\r\n*1\r\n$4\r\nPI", 0, 0).unwrap();
    assert_eq!(outs.len(), 1);
    assert_eq!(outs[0].reply, b"$3\r\nhey\r\n".to_vec());
    let outs = conn.handle_connection(&mut state, b"NG\r\n", 0, 0).unwrap();
    assert_eq!(outs.len(), 1);
    assert_eq!(outs[0].reply, b"+PONG\r\n".to_vec());
}

#[test]
fn bytes_that_are_no_frames_close_the_connection() {
    let mut conn = Connection::new();
    let mut state = primary();
    let mut bytes = encoded(&["SET", "k", "v"]);
    bytes.extend_from_slice(b"garbage\r\n");
    assert!(conn.handle_connection(&mut state, &bytes, 0, 0).is_none());
    assert_eq!(reply(&mut state, &["GET", "k"], 0), "$-1\r\n");
}

#[test]
fn what_a_primary_hands_on_arrives_byte_for_byte() {
    let mut primary_state = primary();
    let mut replica = replica_state();
    let mut inbound = Connection::new();
    let mut sent = Vec::new();
    for list in [
        vec!["SET", "k", "v"],
        vec!["XADD", "st", "1-1", "a", "1"],
        vec!["GET", "k"],
        vec!["SET", "k", "w", "PX", "100"],
        vec!["XADD", "st", "1-1", "a", "2"],
        vec!["XADD", "st", "1-2", "a", "3"],
    ] {
        if let Effect::Propagate(bytes) = run(&mut primary_state, &list, 50).effect {
            sent.extend_from_slice(&bytes);
        }
    }
    let mut expected = encoded(&["SET", "k", "v"]);
    expected.extend_from_slice(&encoded(&["XADD", "st", "1-1", "a", "1"]));
    expected.extend_from_slice(&encoded(&["SET", "k", "w", "PX", "100"]));
    expected.extend_from_slice(&encoded(&["XADD", "st", "1-2", "a", "3"]));
    assert_eq!(sent, expected);

    let answers = inbound.handle_connection_slave(&mut replica, &sent, 60, 0).expect("valid");
    assert!(answers.is_empty());
    assert_eq!(reply(&mut replica, &["GET", "k"], 61), "$1\r\nw\r\n");
    assert_eq!(
        reply(&mut replica, &["XRANGE", "st", "-", "+"], 0),
        reply(&mut primary_state, &["XRANGE", "st", "-", "+"], 0)
    );
    assert_eq!(replica_offset(&replica), sent.len() as u64);
    assert_eq!(primary_offset(&primary_state), sent.len() as u64);
}

#[test]
fn a_replica_answers_only_the_question_for_its_offset() {
    let mut replica = replica_state();
    let mut inbound = Connection::new();
    let getack = encoded(&["REPLCONF", "GETACK", "*"]);
    assert_eq!(getack.len(), 37);

    let answers = inbound.handle_connection_slave(&mut replica, &getack, 0, 0).unwrap();
    assert_eq!(answers, b"*3\r\n$8\r\nREPLCONF\r\n$3\r\nACK\r\n$1\r\n0\r\n".to_vec());
    assert_eq!(replica_offset(&replica), 37);

    let mut bytes = encoded(&["PING"]);
    bytes.extend_from_slice(&encoded(&["SET", "foo", "1"]));
    bytes.extend_from_slice(&getack);
    bytes.extend_from_slice(&encoded(&["SET", "bar", "2"]));
    bytes.extend_from_slice(&getack);
    let answers = inbound.handle_connection_slave(&mut replica, &bytes, 0, 0).unwrap();
    let first = 37 + 14 + 29;
    let second = first + 37 + 29;
    let mut expected = encoded(&["REPLCONF", "ACK", &first.to_string()]);
    expected.extend_from_slice(&encoded(&["REPLCONF", "ACK", &second.to_string()]));
    assert_eq!(answers, expected);
    assert_eq!(replica_offset(&replica), (second + 37) as u64);
    assert_eq!(reply(&mut replica, &["GET", "bar"], 0), "$1\r\n2\r\n");
}

#[test]
fn a_replica_keeps_the_unfinished_tail_of_its_primary() {
    let mut replica = replica_state();
    let mut inbound = Connection::new();
    let bytes = encoded(&["SET", "k", "v"]);
    let answers = inbound.handle_connection_slave(&mut replica, &bytes[..10], 0, 0).unwrap();
    assert!(answers.is_empty());
    assert_eq!(replica_offset(&replica), 0);
    let answers = inbound.handle_connection_slave(&mut replica, &bytes[10..], 0, 0).unwrap();
    assert!(answers.is_empty());
    assert_eq!(replica_offset(&replica), bytes.len() as u64);
    assert_eq!(reply(&mut replica, &["GET", "k"], 0), "$1\r\nv\r\n");
    assert!(inbound.handle_connection_slave(&mut replica, b"!", 0, 0).is_none());
}

#[test]
fn psync_takes_the_sender_that_announced_its_port_among_the_replicas() {
    let mut state = primary();
    let out = handle_psync(&mut state, &words(&["PSYNC", "?", "-1"]), Some(6380));
    assert!(out.reply.starts_with(b"+FULLRESYNC 8371b4fb1155b71f4a04d3e1bc3e18c4a990aeeb 0\r\n$88\r\n"));
    assert!(matches!(out.effect, Effect::Register(6380)));
    match &state.info.role {
        Role::Master(m) => assert_eq!(m.slave_ports, vec![6380]),
        Role::Slave(_) => panic!("not a primary"),
    }
    let out = handle_psync(&mut state, &words(&["PSYNC", "?", "-1"]), None);
    assert!(is_local(&out.effect));
    match &state.info.role {
        Role::Master(m) => assert_eq!(m.slave_ports, vec![6380]),
        Role::Slave(_) => panic!("not a primary"),
    }
    let mut state = replica_state();
    let out = handle_psync(&mut state, &words(&["PSYNC", "?", "-1"]), Some(6380));
    assert_eq!(out.reply, b"-Slave can't handle PSYNC\r\n".to_vec());
    assert!(is_local(&out.effect));
}

#[test]
fn a_connection_remembers_the_port_that_its_peer_announced() {
    let mut conn = Connection::new();
    let mut state = primary();
    let mut bytes = encoded(&["PING"]);
    bytes.extend_from_slice(&encoded(&["REPLCONF", "listening-port", "6380"]));
    bytes.extend_from_slice(&encoded(&["REPLCONF", "capa", "psync2"]));
    let outs = conn.handle_connection(&mut state, &bytes, 0, 0).expect("valid");
    assert_eq!(outs.len(), 3);
    assert_eq!(outs[0].reply, b"+PONG\r\n".to_vec());
    assert_eq!(outs[1].reply, b"+OK\r\n".to_vec());
    assert!(matches!(outs[1].effect, Effect::Register(6380)));
    assert_eq!(outs[2].reply, b"+OK\r\n".to_vec());

    if let Role::Master(master) = &mut state.info.role {
        master.forget(6380);
        assert!(master.slave_ports.is_empty());
    }

    let outs = conn
        .handle_connection(&mut state, &encoded(&["PSYNC", "?", "-1"]), 0, 0)
        .expect("valid");
    assert_eq!(outs.len(), 1);
    assert!(outs[0].reply.starts_with(b"+FULLRESYNC "));
    assert!(matches!(outs[0].effect, Effect::Register(6380)));
    match &state.info.role {
        Role::Master(m) => assert_eq!(m.slave_ports, vec![6380]),
        Role::Slave(_) => panic!("not a primary"),
    }

    let mut other = Connection::new();
    let outs = other
        .handle_connection(&mut state, &encoded(&["PSYNC", "?", "-1"]), 0, 0)
        .expect("valid");
    assert!(is_local(&outs[0].effect));
}
