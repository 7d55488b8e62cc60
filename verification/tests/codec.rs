use tinikeyval::command::{parse_command, Arguments, Command};
use tinikeyval::resp::{decode, encode, word, BufWindow, RedisParseError, RespValue};

fn bs(s: &[u8]) -> RespValue {
    RespValue::String(s.to_vec())
}

#[test]
fn next_word() {
    let buf = b"*1\r".to_vec();
    assert_eq!(word(&buf, 0), None);

    let buf = b"*1\r\n".to_vec();
    assert_eq!(word(&buf, 0), Some((BufWindow(0, 2), 4)));

    let buf = b"*1\r\n$4\r\nPING\r\n".to_vec();
    assert_eq!(word(&buf, 4), Some((BufWindow(4, 6), 8)));
}

#[test]
fn ping_frame_decodes_to_ping_command() {
    let buf = b"*1\r\n$4\r\nPING\r\n".to_vec();
    let (value, used) = decode(&buf).unwrap().unwrap();
    assert_eq!(used, buf.len());
    let args = Arguments::from_raw_value(value).unwrap();
    assert_eq!(args.command, b"PING".to_vec());
    let cmd = parse_command(args).unwrap();
    assert!(matches!(cmd, Command::Ping));
}

#[test]
fn pong_reply_encodes_exactly() {
    let v = RespValue::SimpleString(b"PONG".to_vec());
    assert_eq!(encode(&v), b"+PONG\r\n".to_vec());
}

#[test]
fn encode_decode_round_trip() {
    let v = RespValue::Array(vec![
        bs(b"SET"),
        RespValue::Int(-42),
        RespValue::NilString,
        RespValue::NilArray,
        RespValue::Array(vec![bs(b"x"), RespValue::Error(b"oops".to_vec())]),
    ]);
    let bytes = encode(&v);
    let (back, used) = decode(&bytes).unwrap().unwrap();
    assert_eq!(used, bytes.len());
    // the round trip gives the same frame back: encoding again is identical
    assert_eq!(encode(&back), bytes);
}

#[test]
fn partial_frame_asks_for_more() {
    let buf = b"*2\r\n$3\r\nfoo\r\n".to_vec();
    assert!(decode(&buf).unwrap().is_none());
}

#[test]
fn unknown_tag_is_rejected() {
    let buf = b"!bad\r\n".to_vec();
    match decode(&buf) {
        Err(e) => assert_eq!(e, RedisParseError::UnknownStartingByte(b'!')),
        Ok(_) => panic!("expected an error"),
    }
}

#[test]
fn bad_bulk_size_is_rejected() {
    let buf = b"$-2\r\n".to_vec();
    match decode(&buf) {
        Err(e) => assert_eq!(e, RedisParseError::BadBulkStringSize(-2)),
        Ok(_) => panic!("expected an error"),
    }
}

#[test]
fn embedded_cr_in_simple_string_is_rejected() {
    let buf = b"+a\rb\r\n".to_vec();
    match decode(&buf) {
        Err(e) => assert_eq!(e, RedisParseError::InvalidLine),
        Ok(_) => panic!("expected an error"),
    }
}

#[test]
fn set_with_ex_parses() {
    let buf = b"*5\r\n$3\r\nSET\r\n$3\r\nfoo\r\n$3\r\nbar\r\n$2\r\nEX\r\n$2\r\n10\r\n".to_vec();
    let (value, _) = decode(&buf).unwrap().unwrap();
    let cmd = parse_command(Arguments::from_raw_value(value).unwrap()).unwrap();
    match cmd {
        Command::SetKv { key, val, ttl } => {
            assert_eq!(key, b"foo".to_vec());
            assert_eq!(val, b"bar".to_vec());
            assert_eq!(ttl, Some(10_000));
        },
        _ => panic!("wrong command"),
    }
}

#[test]
fn unknown_command_is_an_error() {
    let buf = b"*1\r\n$7\r\nINVALID\r\n".to_vec();
    let (value, _) = decode(&buf).unwrap().unwrap();
    match parse_command(Arguments::from_raw_value(value).unwrap()) {
        Err(e) => assert_eq!(e, b"Unrecognized command 'INVALID'".to_vec()),
        Ok(_) => panic!("expected an error"),
    }
}

#[test]
fn blpop_timeout_parses_decimal_seconds() {
    let buf = b"*3\r\n$5\r\nBLPOP\r\n$1\r\nq\r\n$3\r\n1.5\r\n".to_vec();
    let (value, _) = decode(&buf).unwrap().unwrap();
    let cmd = parse_command(Arguments::from_raw_value(value).unwrap()).unwrap();
    match cmd {
        Command::BPop { key, timeout_millis, .. } => {
            assert_eq!(key, b"q".to_vec());
            assert_eq!(timeout_millis, 1500);
        },
        _ => panic!("wrong command"),
    }
}
