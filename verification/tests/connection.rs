use respkv::server::{handle_bytes, ServerStep};
use respkv::storage::Storage;

fn expect_reply(
    buf: &[u8],
    st: &mut Storage,
    now: u64,
    is_replica: bool,
) -> (Vec<u8>, usize, bool) {
    match handle_bytes(buf, st, now, is_replica) {
        ServerStep::Reply(out, used, snapshot) => (out, used, snapshot),
        other => panic!("expected a reply for {:?}, got {:?}", buf, other),
    }
}

#[test]
fn ping_set_get_scenario() {
    let mut st = Storage::new();

    let (out, used, snapshot) = expect_reply(b"*1\r\n$4\r\nPING\r\n", &mut st, 0, false);
    assert_eq!(out, b"+PONG\r\n".to_vec());
    assert_eq!(used, 14);
    assert!(!snapshot);

    let (out, used, _) =
        expect_reply(b"*3\r\n$3\r\nSET\r\n$3\r\nfoo\r\n$3\r\nbar\r\n", &mut st, 0, false);
    assert_eq!(out, b"+OK\r\n".to_vec());
    assert_eq!(used, 31);

    let (out, used, _) = expect_reply(b"*2\r\n$3\r\nGET\r\n$3\r\nfoo\r\n", &mut st, 0, false);
    assert_eq!(out, b"$3\r\nbar\r\n".to_vec());
    assert_eq!(used, 22);
}

#[test]
fn partial_request_asks_for_more_bytes() {
    let mut st = Storage::new();
    let full = b"*1\r\n$4\r\nPING\r\n";
    for k in 0..full.len() {
        match handle_bytes(&full[..k], &mut st, 0, false) {
            ServerStep::NeedMore => {}
            other => panic!("prefix of length {} gave {:?}", k, other),
        }
    }
}

#[test]
fn framing_error_is_fatal() {
    let mut st = Storage::new();
    assert!(matches!(
        handle_bytes(b"hello\r\n", &mut st, 0, false),
        ServerStep::ProtocolError
    ));
}

#[test]
fn request_format_errors_keep_the_connection() {
    let mut st = Storage::new();
    // A top-level status is not a request.
    let (out, _, _) = expect_reply(b"+PING\r\n", &mut st, 0, false);
    assert_eq!(out, b"-Expected array\r\n".to_vec());
    // An aggregate whose first element is not a bulk value.
    let (out, _, _) = expect_reply(b"*1\r\n:5\r\n", &mut st, 0, false);
    assert_eq!(out, b"-Expected bulk string\r\n".to_vec());
    // An empty aggregate names no command.
    let (out, _, _) = expect_reply(b"*0\r\n", &mut st, 0, false);
    assert_eq!(out, b"-empty request\r\n".to_vec());
}

#[test]
fn a_reply_consumes_only_one_request() {
    let mut st = Storage::new();
    let two = b"*1\r\n$4\r\nPING\r\n*1\r\n$4\r\nPING\r\n";
    let (out, used, _) = expect_reply(two, &mut st, 0, false);
    assert_eq!(out, b"+PONG\r\n".to_vec());
    assert_eq!(used, 14);
    let (out2, used2, _) = expect_reply(&two[used..], &mut st, 0, false);
    assert_eq!(out2, b"+PONG\r\n".to_vec());
    assert_eq!(used2, 14);
}

#[test]
fn psync_reply_is_followed_by_the_snapshot() {
    let mut st = Storage::new();
    let (out, _, snapshot) =
        expect_reply(b"*3\r\n$5\r\nPSYNC\r\n$1\r\n?\r\n$2\r\n-1\r\n", &mut st, 0, false);
    assert_eq!(
        out,
        b"+FULLRESYNC 8371b4fb1155b71f4a04d3e1bc3e18c4a990aeeb 0\r\n".to_vec()
    );
    assert!(snapshot);
}
