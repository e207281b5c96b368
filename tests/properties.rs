use bytes::BytesMut;
use simple_redis::{
    next_step, respond, validate_command, validate_dynamic_command, Backend, BulkString, Command,
    CommandError, Get, RespArray, RespDecode, RespDouble, RespEncode, RespError, RespFrame,
    RespMap, RespNull, RespSet, SimpleError, SimpleString, Step,
};

fn simple(s: &str) -> RespFrame {
    RespFrame::SimpleString(SimpleString::new(s.to_string()))
}

fn bulk(s: &[u8]) -> RespFrame {
    RespFrame::BulkString(BulkString::new(s.to_vec()))
}

fn request(words: &[&[u8]]) -> RespArray {
    RespArray::new(words.iter().map(|w| bulk(w)).collect())
}

fn sample_frames() -> Vec<RespFrame> {
    let mut map = RespMap::new();
    map.insert("b".to_string(), RespFrame::Integer(1));
    map.insert("a".to_string(), RespFrame::Array(RespArray::new(vec![RespFrame::Null(RespNull)])));
    vec![
        simple("OK"),
        simple("héllo wörld"),
        RespFrame::Error(SimpleError::new("ERR bad".to_string())),
        RespFrame::Integer(0),
        RespFrame::Integer(i64::MAX),
        RespFrame::Integer(i64::MIN),
        bulk(b""),
        bulk(b"with\r\ninside"),
        RespFrame::BulkString(BulkString::new_null()),
        RespFrame::Array(RespArray::new_null()),
        RespFrame::Array(RespArray::new(vec![])),
        RespFrame::Null(RespNull),
        RespFrame::Boolean(true),
        RespFrame::Boolean(false),
        RespFrame::Double(RespDouble::new(b"-1.5e-9".to_vec())),
        RespFrame::Double(RespDouble::new(b"inf".to_vec())),
        RespFrame::RespMap(map),
        RespFrame::RespSet(RespSet::new(vec![RespFrame::Integer(7), bulk(b"x")])),
        RespFrame::Array(RespArray::new(vec![
            RespFrame::Array(RespArray::new(vec![bulk(b"deep"), RespFrame::Integer(-3)])),
            RespFrame::BulkString(BulkString::new_null()),
        ])),
    ]
}

#[test]
fn round_trip_of_every_variant() {
    for frame in sample_frames() {
        let wire = frame.clone().encode();
        let mut buf = BytesMut::from(&wire[..]);
        buf.extend_from_slice(b"+next\r\n");
        assert_eq!(RespFrame::decode(&mut buf).unwrap(), frame);
        assert_eq!(&buf[..], b"+next\r\n");
    }
}

#[test]
fn every_cut_is_not_complete_and_leaves_the_buffer() {
    for frame in sample_frames() {
        let wire = frame.clone().encode();
        for i in 0..wire.len() {
            let mut buf = BytesMut::from(&wire[..i]);
            assert_eq!(RespFrame::decode(&mut buf).unwrap_err(), RespError::NotComplete);
            assert_eq!(&buf[..], &wire[..i]);
        }
        let mut buf = BytesMut::from(&wire[..]);
        assert_eq!(RespFrame::decode(&mut buf).unwrap(), frame);
        assert!(buf.is_empty());
    }
}

#[test]
fn integer_sign_and_extremes() {
    assert_eq!(RespFrame::Integer(0).encode(), b":+0\r\n");
    assert_eq!(RespFrame::Integer(i64::MIN).encode(), b":-9223372036854775808\r\n");
    assert_eq!(RespFrame::Integer(i64::MAX).encode(), b":+9223372036854775807\r\n");
}

#[test]
fn integer_out_of_range_is_invalid() {
    let mut buf = BytesMut::from(":9223372036854775808\r\n");
    assert!(matches!(RespFrame::decode(&mut buf), Err(RespError::InvalidFrame(_))));
    assert_eq!(buf.len(), 22);
    let mut buf = BytesMut::from(":-9223372036854775808\r\n");
    assert_eq!(RespFrame::decode(&mut buf).unwrap(), RespFrame::Integer(i64::MIN));
    let mut buf = BytesMut::from(":12a\r\n");
    assert!(matches!(RespFrame::decode(&mut buf), Err(RespError::InvalidFrame(_))));
}

#[test]
fn decode_error_kinds() {
    let mut buf = BytesMut::from("!oops\r\n");
    assert!(matches!(RespFrame::decode(&mut buf), Err(RespError::InvalidFrameType(_))));
    let mut buf = BytesMut::from("#x\r\n");
    assert!(matches!(RespFrame::decode(&mut buf), Err(RespError::InvalidFrameType(_))));
    let mut buf = BytesMut::from("$-2\r\n");
    assert!(matches!(RespFrame::decode(&mut buf), Err(RespError::InvalidFrame(_))));
    let mut buf = BytesMut::from("~-1\r\n");
    assert!(matches!(RespFrame::decode(&mut buf), Err(RespError::InvalidFrame(_))));
    let mut buf = BytesMut::from("$536870913\r\n");
    assert_eq!(RespFrame::decode(&mut buf).unwrap_err(), RespError::InvalidFrameLength(536870913));
    let mut buf = BytesMut::from("*1048577\r\n");
    assert_eq!(RespFrame::decode(&mut buf).unwrap_err(), RespError::InvalidFrameLength(1048577));
    let mut buf = BytesMut::from("$3\r\nabcde\r\n");
    assert!(matches!(RespFrame::decode(&mut buf), Err(RespError::InvalidFrame(_))));
    let mut buf = BytesMut::from(",1.2.3\r\n");
    assert!(matches!(RespFrame::decode(&mut buf), Err(RespError::InvalidFrame(_))));
    let mut buf = BytesMut::from(&b"+\xff\r\n"[..]);
    assert!(matches!(RespFrame::decode(&mut buf), Err(RespError::InvalidFrame(_))));
    let mut buf = BytesMut::from("%1\r\n:1\r\n:2\r\n");
    assert!(matches!(RespFrame::decode(&mut buf), Err(RespError::InvalidFrameType(_))));
    let mut buf = BytesMut::new();
    assert_eq!(RespFrame::decode(&mut buf).unwrap_err(), RespError::NotComplete);
}

#[test]
fn three_distinct_nulls() {
    let mut buf = BytesMut::from("$-1\r\n*-1\r\n_\r\n");
    assert_eq!(RespFrame::decode(&mut buf).unwrap(), RespFrame::BulkString(BulkString::new_null()));
    assert_eq!(RespFrame::decode(&mut buf).unwrap(), RespFrame::Array(RespArray::new_null()));
    assert_eq!(RespFrame::decode(&mut buf).unwrap(), RespFrame::Null(RespNull));
    assert!(buf.is_empty());
}

#[test]
fn map_keys_go_out_in_ascending_order() {
    let mut map = RespMap::new();
    map.insert("b".to_string(), RespFrame::Integer(1));
    map.insert("a".to_string(), RespFrame::Integer(2));
    assert_eq!(RespFrame::RespMap(map).encode(), b"%2\r\n+a\r\n:+2\r\n+b\r\n:+1\r\n");
}

#[test]
fn map_decode_sorts_and_keeps_the_last_value() {
    let mut buf = BytesMut::from("%3\r\n+b\r\n:1\r\n+a\r\n:2\r\n+b\r\n:3\r\n");
    let frame = RespFrame::decode(&mut buf).unwrap();
    assert_eq!(frame.encode(), b"%2\r\n+a\r\n:+2\r\n+b\r\n:+3\r\n");
}

#[test]
fn verbs_match_without_case() {
    let cmd = Get::try_from(request(&[b"gEt", b"k"])).unwrap();
    assert_eq!(cmd.key, "k");
}

#[test]
fn wrong_verb_is_an_invalid_command() {
    let err = Get::try_from(request(&[b"set", b"k"])).unwrap_err();
    assert!(matches!(err, CommandError::InvalidCommand(_)));
    let err = validate_command(&RespArray::new_null(), "get", 1).unwrap_err();
    assert!(matches!(err, CommandError::InvalidCommand(_)));
}

#[test]
fn wrong_arity_is_an_invalid_argument() {
    let err = Get::try_from(request(&[b"get", b"k", b"extra"])).unwrap_err();
    assert!(matches!(err, CommandError::InvalidArgument(_)));
    assert!(validate_dynamic_command(&request(&[b"sadd", b"k"]), "sadd", 2).is_err());
    assert!(validate_dynamic_command(&request(&[b"sadd", b"k", b"m", b"n"]), "sadd", 2).is_ok());
}

#[test]
fn non_text_arguments_are_invalid_arguments() {
    let err = Get::try_from(request(&[b"get", b"\xff\xfe"])).unwrap_err();
    assert!(matches!(err, CommandError::InvalidArgument(_)));
    let args = RespArray::new(vec![bulk(b"get"), RespFrame::Integer(3)]);
    let err = Get::try_from(args).unwrap_err();
    assert!(matches!(err, CommandError::InvalidArgument(_)));
    let cmd = Get::try_from(request(&["get".as_bytes(), "clé".as_bytes()])).unwrap();
    assert_eq!(cmd.key, "clé");
}

#[test]
fn a_request_must_be_an_array_with_a_bulk_verb() {
    assert!(matches!(Command::try_from(RespFrame::Integer(1)), Err(CommandError::InvalidCommand(_))));
    let args = RespArray::new(vec![RespFrame::Integer(1)]);
    assert!(matches!(Command::try_from(RespFrame::Array(args)), Err(CommandError::InvalidCommand(_))));
}

#[test]
fn unknown_verb_gets_an_error_reply() {
    let backend = Backend::new();
    let reply = respond(RespFrame::Array(request(&[b"FLUSHALL"])), &backend);
    assert_eq!(reply.encode(), b"-ERR unknown command 'flushall'\r\n");
    let other = respond(RespFrame::Array(request(&[b"FlushAll"])), &backend);
    assert_eq!(other.encode(), b"-ERR unknown command 'flushall'\r\n");
}

#[test]
fn command_errors_are_answered_in_band() {
    let backend = Backend::new();
    let mut buf = BytesMut::from("*1\r\n$3\r\nGET\r\n*2\r\n$4\r\nECHO\r\n$2\r\nhi\r\n");
    match next_step(&mut buf, &backend) {
        Step::Reply(frame) => {
            assert_eq!(frame.encode(), b"-Invalid argument: wrong number of arguments\r\n")
        }
        other => panic!("unexpected step: {:?}", other),
    }
    match next_step(&mut buf, &backend) {
        Step::Reply(frame) => assert_eq!(frame.encode(), b"$2\r\nhi\r\n"),
        other => panic!("unexpected step: {:?}", other),
    }
    assert!(matches!(next_step(&mut buf, &backend), Step::NeedMore));
}

#[test]
fn framing_errors_close_the_connection() {
    let backend = Backend::new();
    let mut buf = BytesMut::from("?\r\n");
    match next_step(&mut buf, &backend) {
        Step::ReplyAndClose(frame) => assert!(matches!(frame, RespFrame::Error(_))),
        other => panic!("unexpected step: {:?}", other),
    }
    assert_eq!(&buf[..], b"?\r\n");
}

#[test]
fn partial_request_waits_for_more() {
    let backend = Backend::new();
    let mut buf = BytesMut::from("*2\r\n$4\r\nECHO\r\n$5\r\nhel");
    assert!(matches!(next_step(&mut buf, &backend), Step::NeedMore));
    assert_eq!(buf.len(), 21);
    buf.extend_from_slice(b"lo\r\n");
    match next_step(&mut buf, &backend) {
        Step::Reply(frame) => assert_eq!(frame.encode(), b"$5\r\nhello\r\n"),
        other => panic!("unexpected step: {:?}", other),
    }
}

#[test]
fn hgetall_of_missing_key_is_empty() {
    let backend = Backend::new();
    let reply = respond(RespFrame::Array(request(&[b"HGETALL", b"none"])), &backend);
    assert_eq!(reply.encode(), b"*0\r\n");
}

#[test]
fn keyspaces_are_disjoint() {
    let backend = Backend::new();
    respond(RespFrame::Array(request(&[b"SET", b"k", b"v"])), &backend);
    let reply = respond(RespFrame::Array(request(&[b"HGET", b"k", b"f"])), &backend);
    assert_eq!(reply.encode(), b"_\r\n");
    let reply = respond(RespFrame::Array(request(&[b"SISMEMBER", b"k", b"v"])), &backend);
    assert_eq!(reply.encode(), b":+0\r\n");
}

#[test]
fn set_overwrites_any_frame() {
    let backend = Backend::new();
    let args = RespArray::new(vec![bulk(b"SET"), bulk(b"k"), RespFrame::Integer(5)]);
    assert_eq!(respond(RespFrame::Array(args), &backend).encode(), b"+OK\r\n");
    let reply = respond(RespFrame::Array(request(&[b"GET", b"k"])), &backend);
    assert_eq!(reply.encode(), b":+5\r\n");
    respond(RespFrame::Array(request(&[b"SET", b"k", b"w"])), &backend);
    let reply = respond(RespFrame::Array(request(&[b"GET", b"k"])), &backend);
    assert_eq!(reply.encode(), b"$1\r\nw\r\n");
}

#[test]
fn sadd_counts_each_new_member_once() {
    let backend = Backend::new();
    let reply = respond(RespFrame::Array(request(&[b"SADD", b"s", b"a", b"a", b"b"])), &backend);
    assert_eq!(reply.encode(), b":+2\r\n");
    let reply = respond(RespFrame::Array(request(&[b"SADD", b"s", b"a"])), &backend);
    assert_eq!(reply.encode(), b":+0\r\n");
}

#[test]
fn shared_store_across_handles() {
    let backend = Backend::new();
    let other = backend.clone();
    for i in 0..1000 {
        let m = format!("m{}", i);
        assert_eq!(backend.sadd("k".to_string(), m.clone()), 1);
        assert_eq!(other.sadd("k".to_string(), format!("n{}", i)), 1);
    }
    for i in 0..1000 {
        assert_eq!(other.sadd("k".to_string(), format!("m{}", i)), 0);
        assert!(backend.sismember("k", &format!("n{}", i)));
    }
    let entries = backend.hgetall("k");
    assert!(entries.is_none());
}

#[test]
fn doubles_in_std_float_syntax() {
    for text in [".5", "5.", "+.5e3", "5E-2", "INF", "-infinity", "NaN", "+nan", "-5.14e9"] {
        let wire = format!(",{}\r\n", text);
        let mut buf = BytesMut::from(wire.as_bytes());
        let frame = RespFrame::decode(&mut buf).unwrap();
        assert_eq!(frame, RespFrame::Double(RespDouble::new(text.as_bytes().to_vec())));
        match frame {
            RespFrame::Double(d) => assert!(std::str::from_utf8(&d.0).unwrap().parse::<f64>().is_ok()),
            _ => unreachable!(),
        }
    }
    for text in ["", ".", "e5", "5e", "5e+", "in", "infinit", "1.2.3", "--1"] {
        let wire = format!(",{}\r\n", text);
        let mut buf = BytesMut::from(wire.as_bytes());
        assert!(matches!(RespFrame::decode(&mut buf), Err(RespError::InvalidFrame(_))), "{}", text);
    }
}

#[test]
fn error_texts_carry_their_tags() {
    assert_eq!(RespError::InvalidFrame("x".to_string()).message(), "Invalid frame: x");
    assert_eq!(RespError::InvalidFrameType("y".to_string()).message(), "Invalid frame type: y");
    assert_eq!(CommandError::InvalidCommand("z".to_string()).message(), "Invalid command: z");
    assert_eq!(CommandError::InvalidArgument("w".to_string()).message(), "Invalid argument: w");
    let backend = Backend::new();
    let mut buf = BytesMut::from("!x\r\n");
    match next_step(&mut buf, &backend) {
        Step::ReplyAndClose(frame) => {
            assert!(frame.encode().starts_with(b"-Invalid frame type: "))
        }
        other => panic!("unexpected step: {:?}", other),
    }
}

#[test]
fn sadd_reply_counts_new_members() {
    assert_eq!(simple_redis::cmd::sadd_reply(&vec![true, false, true]), RespFrame::Integer(2));
    assert_eq!(simple_redis::cmd::sadd_reply(&vec![]), RespFrame::Integer(0));
    assert_eq!(simple_redis::backend::added_count(true), 1);
    assert_eq!(simple_redis::backend::member_of(None), false);
}
