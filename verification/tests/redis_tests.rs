use std::collections::HashMap;
use raftkv::raft::log::KvCommand;
use raftkv::redis_proxy::{
    decimal_string, dispatch_command, error_reply, format_get_reply, parse_resp_command,
    RedisAction, RespError, RespParse,
};

fn args_of(buf: &[u8]) -> (Vec<String>, usize) {
    match parse_resp_command(buf) {
        RespParse::Complete { args, consumed } => (args, consumed),
        other => panic!("unexpected {:?}", other),
    }
}

fn strings(v: &[&str]) -> Vec<String> {
    v.iter().map(|s| s.to_string()).collect()
}

#[test]
fn parses_a_set_command() {
    let buf = b"*3\r\n$3\r\nSET\r\n$3\r\nfoo\r\n$3\r\nbar\r\nrest";
    let (args, consumed) = args_of(buf);
    assert_eq!(args, strings(&["SET", "foo", "bar"]));
    assert_eq!(consumed, buf.len() - 4);
}

#[test]
fn parses_lenient_headers() {
    // A leading '+' and leading zeros are accepted, like Rust's usize parsing.
    let (args, _) = args_of(b"*+1\r\n$03\r\nGET\r\n");
    assert_eq!(args, strings(&["GET"]));
    let (args, consumed) = args_of(b"*0\r\n");
    assert!(args.is_empty());
    assert_eq!(consumed, 4);
}

#[test]
fn incomplete_commands_wait_for_more() {
    assert!(matches!(parse_resp_command(b""), RespParse::Incomplete));
    assert!(matches!(parse_resp_command(b"*2\r\n$3\r\nGET\r"), RespParse::Incomplete));
    assert!(matches!(parse_resp_command(b"*2\r\n$3\r\nGET\r\n"), RespParse::Incomplete));
    assert!(matches!(parse_resp_command(b"*1\r\n$10\r\nabc"), RespParse::Incomplete));
}

#[test]
fn malformed_commands_are_errors() {
    let err = |b: &[u8]| match parse_resp_command(b) {
        RespParse::Error(e) => e,
        other => panic!("unexpected {:?}", other),
    };
    assert_eq!(err(b"PING\r\n"), RespError::ExpectedArray);
    assert_eq!(err(b"*x\r\n"), RespError::BadCount);
    assert_eq!(err(b"*\r\n"), RespError::BadCount);
    assert_eq!(err(b"*1\r\n+OK\r\n"), RespError::ExpectedBulkString);
    assert_eq!(err(b"*1\r\n$-1\r\n"), RespError::BadLength);
    assert_eq!(err(b"*1\r\n$99999999999999999999999\r\n"), RespError::BadLength);
    assert_eq!(err(b"*1\r\n$2\r\n\xff\xfe\r\n"), RespError::InvalidUtf8);
}

#[test]
fn dispatches_commands() {
    match dispatch_command(&strings(&["ping"])) {
        RedisAction::Reply(r) => assert_eq!(r, "+PONG\r\n"),
        other => panic!("unexpected {:?}", other),
    }
    match dispatch_command(&strings(&["Get", "k"])) {
        RedisAction::Read { key } => assert_eq!(key, "k"),
        other => panic!("unexpected {:?}", other),
    }
    match dispatch_command(&strings(&["set", "k", "v"])) {
        RedisAction::Write { command: KvCommand::Put { key, value }, ok_reply } => {
            assert_eq!(key, "k");
            assert_eq!(value, b"v".to_vec());
            assert_eq!(ok_reply, "+OK\r\n");
        }
        other => panic!("unexpected {:?}", other),
    }
    match dispatch_command(&strings(&["DEL", "k"])) {
        RedisAction::Write { command: KvCommand::Delete { key }, ok_reply } => {
            assert_eq!(key, "k");
            assert_eq!(ok_reply, ":1\r\n");
        }
        other => panic!("unexpected {:?}", other),
    }
    // Long s uppercases to S, as `to_uppercase` does.
    assert!(matches!(dispatch_command(&strings(&["\u{17f}et", "k", "v"])), RedisAction::Write { .. }));
}

#[test]
fn dispatch_errors() {
    let reply = |a: &[&str]| match dispatch_command(&strings(a)) {
        RedisAction::Reply(r) => r,
        other => panic!("unexpected {:?}", other),
    };
    assert_eq!(reply(&["GET"]), "-ERR wrong number of arguments for GET\r\n");
    assert_eq!(reply(&["SET", "k"]), "-ERR wrong number of arguments for SET\r\n");
    assert_eq!(reply(&["DEL"]), "-ERR wrong number of arguments for DEL\r\n");
    assert_eq!(reply(&["FLUSHALL"]), "-ERR unknown command 'FLUSHALL'\r\n");
    assert_eq!(reply(&["GETS", "k"]), "-ERR unknown command 'GETS'\r\n");
}

#[test]
fn replies() {
    assert_eq!(format_get_reply(Some(b"bar")), "$3\r\nbar\r\n");
    assert_eq!(format_get_reply(Some(b"")), "$0\r\n\r\n");
    assert_eq!(format_get_reply(None), "$-1\r\n");
    // Invalid UTF-8 is shown with replacement characters; the length is in bytes.
    assert_eq!(format_get_reply(Some(b"a\xff")), "$2\r\na\u{fffd}\r\n");
    assert_eq!(error_reply("not leader"), "-ERR not leader\r\n");
    assert_eq!(decimal_string(0), "0");
    assert_eq!(decimal_string(1234567890), "1234567890");
    assert_eq!(decimal_string(usize::MAX), usize::MAX.to_string());
}

#[test]
fn get_after_set_reads_the_value() {
    let mut store: HashMap<Vec<u8>, Vec<u8>> = HashMap::new();
    for cmd in [strings(&["SET", "k", "v1"]), strings(&["SET", "k", "v2"])] {
        if let RedisAction::Write { command: KvCommand::Put { key, value }, .. } = dispatch_command(&cmd) {
            store.insert(key.into_bytes(), value);
        }
    }
    let key = match dispatch_command(&strings(&["GET", "k"])) {
        RedisAction::Read { key } => key,
        other => panic!("unexpected {:?}", other),
    };
    let value = store.get(key.as_bytes()).map(|v| v.as_slice());
    assert_eq!(format_get_reply(value), "$2\r\nv2\r\n");
}

fn encode(args: &[&str]) -> Vec<u8> {
    let mut out = format!("*{}\r\n", args.len()).into_bytes();
    for a in args {
        out.extend_from_slice(format!("${}\r\n", a.len()).as_bytes());
        out.extend_from_slice(a.as_bytes());
        out.extend_from_slice(b"\r\n");
    }
    out
}

#[test]
fn encoded_commands_parse_back() {
    for args in [vec!["PING"], vec!["SET", "clé", "värde\r\n*2"], vec![], vec!["", "a b"]] {
        let mut buf = encode(&args);
        let n = buf.len();
        buf.extend_from_slice(b"*1\r\n$4\r\nPING\r\n");
        let (parsed, consumed) = args_of(&buf);
        assert_eq!(parsed, strings(&args));
        assert_eq!(consumed, n);
    }
}
