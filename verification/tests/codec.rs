use mini_redis::parse::{find_line_end, Decoded, Parsed, Resp, RespData, RespType, MAX_DEPTH};

fn decode_all(bytes: &[u8]) -> (Vec<RespData>, usize, bool) {
    let Decoded { resp, consumed, incomplete } = Resp::parse(bytes).expect("valid frames");
    match resp.data {
        RespData::RequestArray(frames) => (frames, consumed, incomplete),
        other => panic!("not a batch: {:?}", other),
    }
}

fn bulk_of(text: &str) -> RespData {
    RespData::BulkString(Some(text.as_bytes().to_vec()))
}

fn nested(depth: usize) -> Vec<u8> {
    let mut bytes = Vec::new();
    for _ in 0..depth {
        bytes.extend_from_slice(b"*1\r\n");
    }
    bytes.extend_from_slice(b":7\r\n");
    bytes
}

#[test]
fn echo_request_decodes_to_one_array() {
    let (frames, consumed, incomplete) = decode_all(b"*2\r\n$4\r\nECHO\r\n$3\r\nhey\r\n");
    assert_eq!(consumed, 23);
    assert!(!incomplete);
    assert_eq!(frames, vec![RespData::Array(vec![bulk_of("ECHO"), bulk_of("hey")])]);
}

#[test]
fn every_kind_has_its_exact_encoding() {
    assert_eq!(RespData::SimpleString(b"OK".to_vec()).as_bytes(), b"+OK\r\n".to_vec());
    assert_eq!(RespData::Error(b"ERR no".to_vec()).as_bytes(), b"-ERR no\r\n".to_vec());
    assert_eq!(RespData::Integer(0).as_bytes(), b":0\r\n".to_vec());
    assert_eq!(RespData::Integer(1234567890).as_bytes(), b":1234567890\r\n".to_vec());
    assert_eq!(RespData::Integer(-5).as_bytes(), b":-5\r\n".to_vec());
    assert_eq!(
        RespData::Integer(i64::MIN).as_bytes(),
        b":-9223372036854775808\r\n".to_vec()
    );
    assert_eq!(
        RespData::Integer(i64::MAX).as_bytes(),
        b":9223372036854775807\r\n".to_vec()
    );
    assert_eq!(bulk_of("hey").as_bytes(), b"$3\r\nhey\r\n".to_vec());
    assert_eq!(bulk_of("").as_bytes(), b"$0\r\n\r\n".to_vec());
    assert_eq!(RespData::BulkString(None).as_bytes(), b"$-1\r\n".to_vec());
    assert_eq!(RespData::Array(vec![]).as_bytes(), b"*0\r\n".to_vec());
    assert_eq!(
        RespData::Array(vec![bulk_of("a"), RespData::Integer(1)]).as_bytes(),
        b"*2\r\n$1\r\na\r\n:1\r\n".to_vec()
    );
    assert_eq!(
        RespData::array_bytes(&vec![bulk_of("GET"), bulk_of("k")]),
        b"*2\r\n$3\r\nGET\r\n$1\r\nk\r\n".to_vec()
    );
}

#[test]
fn a_batch_is_encoded_as_its_frames_one_after_the_other() {
    let batch = RespData::RequestArray(vec![
        RespData::SimpleString(b"a".to_vec()),
        RespData::Integer(2),
    ]);
    assert_eq!(batch.as_bytes(), b"+a\r\n:2\r\n".to_vec());
    assert_eq!(RespData::RequestArray(vec![]).as_bytes(), Vec::<u8>::new());
}

#[test]
fn write_to_appends_to_what_is_there() {
    let mut out = b"x".to_vec();
    RespData::Integer(12).write_to(&mut out);
    assert_eq!(out, b"x:12\r\n".to_vec());
}

#[test]
fn decoding_an_encoding_gives_the_frame_back() {
    let frames = vec![
        RespData::SimpleString(b"PONG".to_vec()),
        RespData::SimpleString(b"ends with a return\r".to_vec()),
        RespData::Error(b"ERR something".to_vec()),
        RespData::Integer(-42),
        RespData::Integer(i64::MIN),
        bulk_of("hello"),
        bulk_of(""),
        RespData::BulkString(Some(vec![0, 13, 10, 255, b'$'])),
        RespData::BulkString(None),
        RespData::Array(vec![]),
        RespData::Array(vec![bulk_of("SET"), bulk_of("k"), bulk_of("v")]),
        RespData::Array(vec![RespData::Array(vec![RespData::Integer(1)]), bulk_of("x")]),
    ];
    for frame in frames {
        let bytes = frame.as_bytes();
        let (decoded, consumed, incomplete) = decode_all(&bytes);
        assert_eq!(consumed, bytes.len());
        assert!(!incomplete);
        assert_eq!(decoded, vec![frame]);
    }
}

#[test]
fn two_encodings_decode_in_one_pass() {
    let first = RespData::Array(vec![bulk_of("PING")]);
    let second = RespData::Array(vec![bulk_of("ECHO"), bulk_of("hey")]);
    let mut bytes = first.as_bytes();
    bytes.extend_from_slice(&second.as_bytes());
    let (decoded, consumed, incomplete) = decode_all(&bytes);
    assert_eq!(consumed, bytes.len());
    assert!(!incomplete);
    assert_eq!(decoded, vec![first, second]);
}

#[test]
fn every_truncation_is_incomplete_and_takes_nothing() {
    let frames = vec![
        RespData::SimpleString(b"OK".to_vec()),
        RespData::Error(b"ERR".to_vec()),
        RespData::Integer(-17),
        bulk_of("hello\r\nworld"),
        RespData::BulkString(None),
        RespData::Array(vec![bulk_of("SET"), bulk_of("key"), RespData::Array(vec![bulk_of("v")])]),
    ];
    for frame in frames {
        let bytes = frame.as_bytes();
        for cut in 1..bytes.len() {
            let (decoded, consumed, incomplete) = decode_all(&bytes[..cut]);
            assert!(decoded.is_empty(), "cut at {} of {:?}", cut, frame);
            assert_eq!(consumed, 0);
            assert!(incomplete);
        }
    }
}

#[test]
fn an_empty_buffer_holds_nothing_and_nothing_unfinished() {
    let decoded = Resp::parse(b"").expect("nothing is valid");
    assert_eq!(decoded.consumed, 0);
    assert!(!decoded.incomplete);
    assert_eq!(decoded.resp.data_type, RespType::Unknown);
    assert_eq!(decoded.resp.data, RespData::RequestArray(vec![]));
}

#[test]
fn the_tail_after_complete_frames_is_reported() {
    let (decoded, consumed, incomplete) = decode_all(b"+OK\r\n$5\r\nhel");
    assert_eq!(decoded, vec![RespData::SimpleString(b"OK".to_vec())]);
    assert_eq!(consumed, 5);
    assert!(incomplete);
}

#[test]
fn the_kind_of_the_first_byte_is_recorded() {
    assert_eq!(Resp::parse(b"+OK\r\n").unwrap().resp.data_type, RespType::SimpleString);
    assert_eq!(Resp::parse(b"*0\r\n").unwrap().resp.data_type, RespType::Array);
    assert_eq!(Resp::parse(b"$1").unwrap().resp.data_type, RespType::BulkString);
}

#[test]
fn an_unknown_tag_is_a_decode_error() {
    assert!(Resp::parse(b"?what\r\n").is_none());
    assert!(Resp::parse(b"+OK\r\n!x\r\n").is_none());
    assert!(Resp::parse(b"\0").is_none());
}

#[test]
fn malformed_numbers_are_decode_errors() {
    assert!(Resp::parse(b":abc\r\n").is_none());
    assert!(Resp::parse(b":\r\n").is_none());
    assert!(Resp::parse(b":9223372036854775808\r\n").is_none());
    assert!(Resp::parse(b"$x\r\n").is_none());
    assert!(Resp::parse(b"$-2\r\n").is_none());
    assert!(Resp::parse(b"*-1\r\n").is_none());
    assert!(Resp::parse(b"$18446744073709551616\r\n").is_none());
}

#[test]
fn a_bulk_string_must_end_with_a_line_break() {
    assert!(Resp::parse(b"$3\r\nheyXY").is_none());
    let (decoded, consumed, incomplete) = decode_all(b"$3\r\nhey\r");
    assert!(decoded.is_empty());
    assert_eq!(consumed, 0);
    assert!(incomplete);
}

#[test]
fn a_bulk_length_beyond_the_buffer_is_incomplete() {
    let (decoded, consumed, incomplete) = decode_all(b"$100\r\nabc");
    assert!(decoded.is_empty());
    assert_eq!(consumed, 0);
    assert!(incomplete);
    let (_, _, incomplete) = decode_all(b"$18446744073709551615\r\nabc");
    assert!(incomplete);
}

#[test]
fn numbers_are_read_as_the_standard_parser_reads_them() {
    let (decoded, _, _) = decode_all(b"$+3\r\nhey\r\n:+7\r\n:007\r\n*01\r\n:-0\r\n");
    assert_eq!(
        decoded,
        vec![
            bulk_of("hey"),
            RespData::Integer(7),
            RespData::Integer(7),
            RespData::Array(vec![RespData::Integer(0)]),
        ]
    );
}

#[test]
fn arrays_nest_to_the_limit_and_no_deeper() {
    assert_eq!(MAX_DEPTH, 32);
    let (decoded, consumed, incomplete) = decode_all(&nested(32));
    assert_eq!(decoded.len(), 1);
    assert_eq!(consumed, nested(32).len());
    assert!(!incomplete);
    assert!(Resp::parse(&nested(33)).is_none());
}

#[test]
fn parse_reads_one_frame_of_the_given_kind() {
    match RespData::parse(b"+OK\r\nrest", &RespType::SimpleString, MAX_DEPTH) {
        Parsed::Complete(frame, used) => {
            assert_eq!(frame, RespData::SimpleString(b"OK".to_vec()));
            assert_eq!(used, 5);
        }
        other => panic!("{:?}", other),
    }
    assert!(matches!(
        RespData::parse(b"+OK\r\n", &RespType::Integer, MAX_DEPTH),
        Parsed::Invalid
    ));
    assert!(matches!(
        RespData::parse(b"+OK\r\n", &RespType::Unknown, MAX_DEPTH),
        Parsed::Invalid
    ));
    assert!(matches!(
        RespData::parse(b"*1\r\n:1\r\n", &RespType::Array, 0),
        Parsed::Invalid
    ));
    assert!(matches!(
        RespData::parse(b"*1\r\n:1\r\n", &RespType::Array, 1),
        Parsed::Complete(_, 8)
    ));
}

#[test]
fn parse_simple_string_reads_the_first_line() {
    match RespData::parse_simple_string(b"+hello world\r\n+next\r\n") {
        Parsed::Complete(frame, used) => {
            assert_eq!(frame, RespData::SimpleString(b"hello world".to_vec()));
            assert_eq!(used, 14);
        }
        other => panic!("{:?}", other),
    }
    assert!(matches!(RespData::parse_simple_string(b"+hello"), Parsed::Incomplete));
    assert!(matches!(RespData::parse_simple_string(b""), Parsed::Incomplete));
}

#[test]
fn parse_error_reads_the_first_line() {
    match RespData::parse_error(b"-ERR bad\r\n") {
        Parsed::Complete(frame, used) => {
            assert_eq!(frame, RespData::Error(b"ERR bad".to_vec()));
            assert_eq!(used, 10);
        }
        other => panic!("{:?}", other),
    }
    assert!(matches!(RespData::parse_error(b"-ERR bad\r"), Parsed::Incomplete));
}

#[test]
fn parse_integer_reads_a_signed_number() {
    match RespData::parse_integer(b":-9223372036854775808\r\n") {
        Parsed::Complete(frame, used) => {
            assert_eq!(frame, RespData::Integer(i64::MIN));
            assert_eq!(used, 23);
        }
        other => panic!("{:?}", other),
    }
    assert!(matches!(RespData::parse_integer(b":12"), Parsed::Incomplete));
    assert!(matches!(RespData::parse_integer(b":1x\r\n"), Parsed::Invalid));
    assert!(matches!(RespData::parse_integer(b":-\r\n"), Parsed::Invalid));
}

#[test]
fn parse_bulk_string_reads_length_and_bytes() {
    match RespData::parse_bulk_string(b"$5\r\nhello\r\ntail") {
        Parsed::Complete(frame, used) => {
            assert_eq!(frame, RespData::BulkString(Some(b"hello".to_vec())));
            assert_eq!(used, 11);
        }
        other => panic!("{:?}", other),
    }
    match RespData::parse_bulk_string(b"$-1\r\n") {
        Parsed::Complete(frame, used) => {
            assert_eq!(frame, RespData::BulkString(None));
            assert_eq!(used, 5);
        }
        other => panic!("{:?}", other),
    }
    assert!(matches!(RespData::parse_bulk_string(b"$5\r\nhel"), Parsed::Incomplete));
    assert!(matches!(RespData::parse_bulk_string(b"$5"), Parsed::Incomplete));
    assert!(matches!(RespData::parse_bulk_string(b"$five\r\n"), Parsed::Invalid));
}

#[test]
fn parse_array_reads_its_elements() {
    match RespData::parse_array(b"*2\r\n$3\r\nGET\r\n$1\r\nk\r\n+more\r\n", MAX_DEPTH) {
        Parsed::Complete(frame, used) => {
            assert_eq!(frame, RespData::Array(vec![bulk_of("GET"), bulk_of("k")]));
            assert_eq!(used, 20);
        }
        other => panic!("{:?}", other),
    }
    assert!(matches!(
        RespData::parse_array(b"*2\r\n$3\r\nGET\r\n", MAX_DEPTH),
        Parsed::Incomplete
    ));
    assert!(matches!(
        RespData::parse_array(b"*2\r\n$3\r\nGET\r\n?", MAX_DEPTH),
        Parsed::Invalid
    ));
    assert!(matches!(RespData::parse_array(b"*x\r\n", MAX_DEPTH), Parsed::Invalid));
}

#[test]
fn inside_value_gives_the_text_of_a_frame() {
    assert_eq!(
        RespData::SimpleString(b"a".to_vec()).inside_value(),
        Some(&b"a".to_vec())
    );
    assert_eq!(RespData::Error(b"b".to_vec()).inside_value(), Some(&b"b".to_vec()));
    assert_eq!(bulk_of("c").inside_value(), Some(&b"c".to_vec()));
    assert_eq!(RespData::BulkString(None).inside_value(), None);
    assert_eq!(RespData::Integer(1).inside_value(), None);
    assert_eq!(RespData::Array(vec![bulk_of("c")]).inside_value(), None);
    assert_eq!(RespData::RequestArray(vec![]).inside_value(), None);
}

#[test]
fn frames_are_equal_by_kind_and_content() {
    assert_eq!(bulk_of("a"), bulk_of("a"));
    assert_ne!(bulk_of("a"), bulk_of("b"));
    assert_ne!(bulk_of("a"), RespData::SimpleString(b"a".to_vec()));
    assert_ne!(RespData::BulkString(None), bulk_of(""));
    assert_ne!(RespData::Array(vec![]), RespData::RequestArray(vec![]));
    assert_ne!(
        RespData::Array(vec![bulk_of("a")]),
        RespData::Array(vec![bulk_of("a"), bulk_of("b")])
    );
    assert_eq!(
        RespData::Array(vec![RespData::Array(vec![RespData::Integer(3)])]),
        RespData::Array(vec![RespData::Array(vec![RespData::Integer(3)])])
    );
    assert_ne!(
        RespData::Array(vec![RespData::Array(vec![RespData::Integer(3)])]),
        RespData::Array(vec![RespData::Array(vec![RespData::Integer(4)])])
    );
}

#[test]
fn a_clone_is_equal_to_its_source() {
    let frame = RespData::Array(vec![
        bulk_of("SET"),
        RespData::Array(vec![RespData::Integer(-1), RespData::BulkString(None)]),
        RespData::Error(b"e".to_vec()),
    ]);
    assert_eq!(frame.clone(), frame);
}

#[test]
fn tags_and_kinds_convert_both_ways() {
    assert_eq!(RespType::from(b'+'), RespType::SimpleString);
    assert_eq!(RespType::from(b'-'), RespType::Error);
    assert_eq!(RespType::from(b':'), RespType::Integer);
    assert_eq!(RespType::from(b'$'), RespType::BulkString);
    assert_eq!(RespType::from(b'*'), RespType::Array);
    assert_eq!(RespType::from(0u8), RespType::Unknown);
    assert_eq!(RespType::from(b'x'), RespType::Unknown);
    assert_eq!(u8::from(RespType::SimpleString), b'+');
    assert_eq!(u8::from(RespType::Error), b'-');
    assert_eq!(u8::from(RespType::Integer), b':');
    assert_eq!(u8::from(RespType::BulkString), b'$');
    assert_eq!(u8::from(RespType::Array), b'*');
    assert_eq!(u8::from(RespType::Unknown), 0);
}

#[test]
fn builders_make_the_frames_they_name() {
    assert_eq!(RespData::new_bulk(b"x"), bulk_of("x"));
    assert_eq!(RespData::new_simple_string(b"OK"), RespData::SimpleString(b"OK".to_vec()));
    assert_eq!(RespData::new_error(b"no"), RespData::Error(b"no".to_vec()));
    assert_eq!(
        RespData::new_bulk_array(&vec![b"REPLCONF".to_vec(), b"ACK".to_vec(), b"0".to_vec()]),
        RespData::Array(vec![bulk_of("REPLCONF"), bulk_of("ACK"), bulk_of("0")])
    );
}

#[test]
fn the_first_line_break_is_found() {
    assert_eq!(find_line_end(b"+OK\r\n", 1), Some(3));
    assert_eq!(find_line_end(b"+OK\r\n+NO\r\n", 1), Some(3));
    assert_eq!(find_line_end(b"+OK\r\n+NO\r\n", 4), Some(8));
    assert_eq!(find_line_end(b"\r\n", 0), Some(0));
    assert_eq!(find_line_end(b"\r\n", 1), None);
    assert_eq!(find_line_end(b"+a\rb\nc\r", 0), None);
    assert_eq!(find_line_end(b"+a\r\r\n", 1), Some(3));
    assert_eq!(find_line_end(b"", 0), None);
    assert_eq!(find_line_end(b"abc", 7), None);
}

#[test]
fn an_array_that_announces_more_than_it_holds_is_incomplete() {
    let (decoded, consumed, incomplete) = decode_all(b"*18446744073709551615\r\n");
    assert!(decoded.is_empty());
    assert_eq!(consumed, 0);
    assert!(incomplete);
    let (decoded, consumed, incomplete) = decode_all(b"+OK\r\n*3\r\n:1\r\n:2\r\n");
    assert_eq!(decoded, vec![RespData::SimpleString(b"OK".to_vec())]);
    assert_eq!(consumed, 5);
    assert!(incomplete);
    assert!(Resp::parse(b"*18446744073709551616\r\n").is_none());
}

#[test]
fn a_large_bulk_string_comes_back_whole() {
    let data: Vec<u8> = (0..100_000u32).map(|i| (i % 256) as u8).collect();
    let frame = RespData::BulkString(Some(data));
    let bytes = frame.as_bytes();
    assert_eq!(&bytes[..9], b"$100000\r\n");
    let (decoded, consumed, incomplete) = decode_all(&bytes);
    assert_eq!(consumed, bytes.len());
    assert!(!incomplete);
    assert_eq!(decoded, vec![frame]);
}
