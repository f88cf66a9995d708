use respkv::command::{handle_command, parse_command, RequestError};
use respkv::resp::RespValue;
use respkv::storage::Storage;

fn bulk(s: &[u8]) -> RespValue {
    RespValue::BulkString(Some(s.to_vec()))
}

fn simple(s: &[u8]) -> RespValue {
    RespValue::SimpleString(s.to_vec())
}

fn error(s: &[u8]) -> RespValue {
    RespValue::Error(s.to_vec())
}

#[test]
fn parse_command_lower_cases_the_name() {
    let req = RespValue::Array(vec![bulk(b"PiNg")]);
    let (cmd, args) = parse_command(req).unwrap();
    assert_eq!(cmd, b"ping".to_vec());
    assert!(args.is_empty());
}

#[test]
fn parse_command_keeps_arguments_in_order() {
    let req = RespValue::Array(vec![bulk(b"SET"), bulk(b"k"), RespValue::Integer(3)]);
    let (cmd, args) = parse_command(req).unwrap();
    assert_eq!(cmd, b"set".to_vec());
    assert_eq!(args, vec![bulk(b"k"), RespValue::Integer(3)]);
}

#[test]
fn parse_command_refuses_bad_shapes() {
    assert_eq!(
        parse_command(simple(b"PING")).unwrap_err(),
        RequestError::NotAggregate
    );
    assert_eq!(
        parse_command(RespValue::Array(vec![])).unwrap_err(),
        RequestError::EmptyRequest
    );
    assert_eq!(
        parse_command(RespValue::Array(vec![RespValue::Integer(1)])).unwrap_err(),
        RequestError::CommandNotBulk
    );
    assert_eq!(
        parse_command(RespValue::Array(vec![RespValue::BulkString(None)])).unwrap_err(),
        RequestError::CommandNotBulk
    );
}

#[test]
fn ping_replies_pong() {
    let mut st = Storage::new();
    let r = handle_command(b"ping", vec![], &mut st, 0, false);
    assert_eq!(r, simple(b"PONG"));
}

#[test]
fn echo_replies_the_argument_verbatim() {
    let mut st = Storage::new();
    let r = handle_command(b"echo", vec![bulk(b"hey")], &mut st, 0, false);
    assert_eq!(r, bulk(b"hey"));
    let r = handle_command(b"echo", vec![], &mut st, 0, false);
    assert_eq!(r, error(b"wrong number of arguments"));
}

#[test]
fn set_arity() {
    let mut st = Storage::new();
    let r = handle_command(b"set", vec![bulk(b"k"), bulk(b"v")], &mut st, 0, false);
    assert_eq!(r, simple(b"OK"));
    let r = handle_command(
        b"set",
        vec![bulk(b"k"), bulk(b"v"), bulk(b"PX"), bulk(b"100")],
        &mut st,
        0,
        false,
    );
    assert_eq!(r, simple(b"OK"));
    let r = handle_command(
        b"set",
        vec![bulk(b"k"), bulk(b"v"), bulk(b"PX")],
        &mut st,
        0,
        false,
    );
    assert_eq!(r, error(b"wrong number of arguments"));
    let r = handle_command(
        b"set",
        vec![bulk(b"k"), bulk(b"v"), bulk(b"XX"), bulk(b"100")],
        &mut st,
        0,
        false,
    );
    assert_eq!(r, error(b"unknown argument"));
    let r = handle_command(
        b"set",
        vec![bulk(b"k"), bulk(b"v"), bulk(b"PX"), bulk(b"12x")],
        &mut st,
        0,
        false,
    );
    assert_eq!(r, error(b"unknown argument"));
}

#[test]
fn get_miss_replies_null_bulk() {
    let mut st = Storage::new();
    let r = handle_command(b"get", vec![bulk(b"missing_key")], &mut st, 0, false);
    assert_eq!(r, RespValue::BulkString(None));
}

#[test]
fn set_get_round_trip_with_lifetime() {
    let mut st = Storage::new();
    handle_command(
        b"set",
        vec![bulk(b"k"), bulk(b"v"), bulk(b"px"), bulk(b"100")],
        &mut st,
        1000,
        false,
    );
    let r = handle_command(b"get", vec![bulk(b"k")], &mut st, 1099, false);
    assert_eq!(r, bulk(b"v"));
    let r = handle_command(b"get", vec![bulk(b"k")], &mut st, 1100, false);
    assert_eq!(r, RespValue::BulkString(None));
    let r = handle_command(b"get", vec![bulk(b"k")], &mut st, 1000, false);
    assert_eq!(r, RespValue::BulkString(None));
}

#[test]
fn info_banners() {
    let mut st = Storage::new();
    let r = handle_command(b"info", vec![], &mut st, 0, false);
    assert_eq!(r, bulk(b"# Server\nversion:0.0.1\n"));
    let r = handle_command(b"info", vec![bulk(b"replication")], &mut st, 0, false);
    assert_eq!(
        r,
        bulk(b"# Replication\nrole:master\nmaster_replid:8371b4fb1155b71f4a04d3e1bc3e18c4a990aeeb\nmaster_repl_offset:0\n")
    );
    let r = handle_command(b"info", vec![bulk(b"Replication")], &mut st, 0, true);
    assert_eq!(
        r,
        bulk(b"# Replication\nrole:slave\nmaster_replid:8371b4fb1155b71f4a04d3e1bc3e18c4a990aeeb\nmaster_repl_offset:0\n")
    );
    let r = handle_command(b"info", vec![bulk(b"keyspace")], &mut st, 0, false);
    assert_eq!(r, error(b"unknown argument"));
    let r = handle_command(
        b"info",
        vec![bulk(b"a"), bulk(b"b")],
        &mut st,
        0,
        false,
    );
    assert_eq!(r, error(b"wrong number of arguments"));
}

#[test]
fn replconf_acknowledges_anything() {
    let mut st = Storage::new();
    let r = handle_command(b"replconf", vec![], &mut st, 0, false);
    assert_eq!(r, bulk(b"OK"));
    let r = handle_command(
        b"replconf",
        vec![bulk(b"capa"), bulk(b"psync2")],
        &mut st,
        0,
        false,
    );
    assert_eq!(r, bulk(b"OK"));
}

#[test]
fn psync_announces_full_resynchronization() {
    let mut st = Storage::new();
    let r = handle_command(b"psync", vec![bulk(b"?"), bulk(b"-1")], &mut st, 0, false);
    assert_eq!(
        r,
        simple(b"FULLRESYNC 8371b4fb1155b71f4a04d3e1bc3e18c4a990aeeb 0")
    );
}

#[test]
fn unknown_command_is_an_error_status() {
    let mut st = Storage::new();
    let r = handle_command(b"flushall", vec![], &mut st, 0, false);
    assert_eq!(r, error(b"unknown command"));
}
