use respkv::command::Command;
use respkv::replication::{
    decode_hex_string, handshake_advance, handshake_request, snapshot_frame, HandshakeState,
    HexError,
};

#[test]
fn ping_request_bytes() {
    assert_eq!(Command::Ping.to_bytes(), b"*1\r\n$4\r\nPING\r\n".to_vec());
}

#[test]
fn follower_handshake_reaches_streaming() {
    // The five steps a follower configured against a leader walks through:
    // each sends its request (the last step only awaits the snapshot) and
    // advances on the leader's reply.
    let mut state = HandshakeState::Connected;
    let mut sent: Vec<Option<Vec<u8>>> = Vec::new();
    for _ in 0..5 {
        sent.push(handshake_request(&state, 6380));
        state = handshake_advance(&state);
    }
    assert_eq!(state, HandshakeState::Streaming);
    assert_eq!(sent[0], Some(b"*1\r\n$4\r\nPING\r\n".to_vec()));
    assert_eq!(
        sent[1],
        Some(b"*3\r\n$8\r\nREPLCONF\r\n$14\r\nlistening-port\r\n$4\r\n6380\r\n".to_vec())
    );
    assert_eq!(
        sent[2],
        Some(b"*3\r\n$8\r\nREPLCONF\r\n$4\r\ncapa\r\n$6\r\npsync2\r\n".to_vec())
    );
    assert_eq!(
        sent[3],
        Some(b"*3\r\n$5\r\nPSYNC\r\n$1\r\n?\r\n$2\r\n-1\r\n".to_vec())
    );
    assert_eq!(sent[4], None);
}

#[test]
fn terminal_states_stay_put() {
    assert_eq!(
        handshake_advance(&HandshakeState::Streaming),
        HandshakeState::Streaming
    );
    assert_eq!(
        handshake_advance(&HandshakeState::Failed),
        HandshakeState::Failed
    );
    assert_eq!(handshake_request(&HandshakeState::Streaming, 6380), None);
    assert_eq!(handshake_request(&HandshakeState::Failed, 6380), None);
}

#[test]
fn hex_decoding() {
    assert_eq!(decode_hex_string("ff00"), Ok(vec![255u8, 0u8]));
    assert_eq!(decode_hex_string("DEADbeef"), Ok(vec![0xde, 0xad, 0xbe, 0xef]));
    assert_eq!(decode_hex_string(""), Ok(vec![]));
    assert_eq!(decode_hex_string("abc"), Err(HexError::OddLength));
    assert_eq!(decode_hex_string("zz"), Err(HexError::InvalidDigit));
}

#[test]
fn snapshot_frame_shape() {
    let frame = snapshot_frame();
    // An 88-byte payload behind a `$` length header.
    assert_eq!(&frame[..5], b"$88\r\n");
    assert_eq!(frame.len(), 5 + 88);
    // The payload opens with the snapshot format's magic.
    assert_eq!(&frame[5..14], b"REDIS0011");
    // No trailing terminator: the payload's last byte ends the frame.
    assert_eq!(frame[frame.len() - 1], 0xa2);
}
