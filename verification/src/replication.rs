//! The replication bootstrap.
//!
//! Follower side: a strictly sequential five-step handshake, modelled as a
//! state machine. `handshake_request` gives the exact wire bytes to send in
//! each state, `handshake_advance` the state entered once the leader's reply
//! has arrived. The driver that owns the socket performs the sends and
//! reads; every byte it sends comes from here.
//!
//! Leader side: the snapshot frame that follows the PSYNC reply — a `$`
//! header with the payload length, then the raw payload bytes with no
//! trailing terminator. The payload is the fixed empty-dataset snapshot,
//! written down in hexadecimal.

use vstd::prelude::*;

use crate::ascii::{ascii_seq, is_digit, push_u64_dec, str_bytes, u_dec};
use vstd::string::StringSliceAdditionalSpecFns;
use crate::command::ping_request;
use crate::resp::{crlf, lemma_model_list, model_list, spec_encode, RespModel, RespValue};

verus! {

/// Where the follower stands in its bootstrap against the leader.
#[derive(Debug, PartialEq, Eq, Structural, Clone, Copy)]
pub enum HandshakeState {
    /// The connection is up; nothing sent yet.
    Connected,
    /// PING sent, awaiting any reply.
    PingSent,
    /// REPLCONF listening-port sent, awaiting any reply.
    ListeningPortSent,
    /// REPLCONF capa sent, awaiting any reply.
    CapaSent,
    /// PSYNC sent, awaiting the full-resynchronization reply and snapshot.
    PsyncSent,
    /// Bootstrap complete; the connection now carries the command stream.
    Streaming,
    /// A transport failure ended the bootstrap; terminal.
    Failed,
}

pub open spec fn bulk_of(s: Seq<u8>) -> RespModel {
    RespModel::BulkString(Some(s))
}

/// The second handshake request: REPLCONF listening-port with this
/// process's own port in decimal.
pub open spec fn replconf_port_request(port: u16) -> RespModel {
    RespModel::Array(
        seq![
            bulk_of(ascii_seq("REPLCONF"@)),
            bulk_of(ascii_seq("listening-port"@)),
            bulk_of(u_dec(port as nat)),
        ],
    )
}

/// The third handshake request: REPLCONF capa psync2.
pub open spec fn replconf_capa_request() -> RespModel {
    RespModel::Array(
        seq![
            bulk_of(ascii_seq("REPLCONF"@)),
            bulk_of(ascii_seq("capa"@)),
            bulk_of(ascii_seq("psync2"@)),
        ],
    )
}

/// The last handshake request: PSYNC ? -1, asking for a full
/// resynchronization from scratch.
pub open spec fn psync_request() -> RespModel {
    RespModel::Array(
        seq![bulk_of(ascii_seq("PSYNC"@)), bulk_of(ascii_seq("?"@)), bulk_of(ascii_seq("-1"@))],
    )
}

fn bulk_lit(s: &str) -> (r: RespValue)
    requires
        vstd::string::is_ascii(s),
    ensures
        r@ == bulk_of(ascii_seq(s@)),
{
    RespValue::BulkString(Some(str_bytes(s)))
}

fn three_bulks(a: RespValue, b: RespValue, c: RespValue) -> (r: Vec<u8>)
    ensures
        r@ == spec_encode(RespModel::Array(seq![a@, b@, c@])),
{
    let ghost am = a@;
    let ghost bm = b@;
    let ghost cm = c@;
    let mut elems: Vec<RespValue> = Vec::new();
    elems.push(a);
    elems.push(b);
    elems.push(c);
    proof {
        lemma_model_list(elems@);
        assert(elems@.len() == 3);
        assert(elems@[0]@ == am);
        assert(elems@[1]@ == bm);
        assert(elems@[2]@ == cm);
        assert(model_list(elems@) =~= seq![am, bm, cm]);
    }
    let v = RespValue::Array(elems);
    proof {
        assert(v@ =~= RespModel::Array(seq![am, bm, cm]));
    }
    v.to_bytes()
}

/// The wire bytes the follower sends upon entering `state`, or nothing
/// where the step only awaits the leader.
pub fn handshake_request(state: &HandshakeState, my_port: u16) -> (r: Option<Vec<u8>>)
    ensures
        match state {
            HandshakeState::Connected => r is Some && r->0@ == spec_encode(ping_request()),
            HandshakeState::PingSent => r is Some && r->0@ == spec_encode(
                replconf_port_request(my_port),
            ),
            HandshakeState::ListeningPortSent => r is Some && r->0@ == spec_encode(
                replconf_capa_request(),
            ),
            HandshakeState::CapaSent => r is Some && r->0@ == spec_encode(psync_request()),
            _ => r is None,
        },
{
    proof {
        reveal_strlit("REPLCONF");
        reveal_strlit("listening-port");
        reveal_strlit("capa");
        reveal_strlit("psync2");
        reveal_strlit("PSYNC");
        reveal_strlit("?");
        reveal_strlit("-1");
    }
    match state {
        HandshakeState::Connected => Some(crate::command::Command::Ping.to_bytes()),
        HandshakeState::PingSent => {
            let mut port_digits: Vec<u8> = Vec::new();
            push_u64_dec(&mut port_digits, my_port as u64);
            let port_arg = RespValue::BulkString(Some(port_digits));
            Some(
                three_bulks(bulk_lit("REPLCONF"), bulk_lit("listening-port"), port_arg),
            )
        },
        HandshakeState::ListeningPortSent => Some(
            three_bulks(bulk_lit("REPLCONF"), bulk_lit("capa"), bulk_lit("psync2")),
        ),
        HandshakeState::CapaSent => Some(
            three_bulks(bulk_lit("PSYNC"), bulk_lit("?"), bulk_lit("-1")),
        ),
        _ => None,
    }
}

/// The state entered once the reply to the pending step has arrived.
pub open spec fn spec_advance(s: HandshakeState) -> HandshakeState {
    match s {
        HandshakeState::Connected => HandshakeState::PingSent,
        HandshakeState::PingSent => HandshakeState::ListeningPortSent,
        HandshakeState::ListeningPortSent => HandshakeState::CapaSent,
        HandshakeState::CapaSent => HandshakeState::PsyncSent,
        HandshakeState::PsyncSent => HandshakeState::Streaming,
        HandshakeState::Streaming => HandshakeState::Streaming,
        HandshakeState::Failed => HandshakeState::Failed,
    }
}

/// Advances the handshake by one acknowledged step; the two terminal states
/// stay put.
pub fn handshake_advance(state: &HandshakeState) -> (r: HandshakeState)
    ensures
        r == spec_advance(*state),
{
    match state {
        HandshakeState::Connected => HandshakeState::PingSent,
        HandshakeState::PingSent => HandshakeState::ListeningPortSent,
        HandshakeState::ListeningPortSent => HandshakeState::CapaSent,
        HandshakeState::CapaSent => HandshakeState::PsyncSent,
        HandshakeState::PsyncSent => HandshakeState::Streaming,
        HandshakeState::Streaming => HandshakeState::Streaming,
        HandshakeState::Failed => HandshakeState::Failed,
    }
}

/// From a fresh connection, five acknowledged steps reach the terminal
/// bootstrap state.
pub proof fn lemma_handshake_completes()
    ensures
        spec_advance(
            spec_advance(
                spec_advance(spec_advance(spec_advance(HandshakeState::Connected))),
            ),
        ) == HandshakeState::Streaming,
{
}

/// True of the ASCII bytes `0`..`9`, `a`..`f` and `A`..`F`.
pub open spec fn is_hex_digit(b: u8) -> bool {
    is_digit(b) || (97 <= b <= 102) || (65 <= b <= 70)
}

/// The value of one hexadecimal digit.
pub open spec fn hex_val(b: u8) -> u8
    recommends
        is_hex_digit(b),
{
    if is_digit(b) {
        (b - 48) as u8
    } else if 97 <= b <= 102 {
        (b - 87) as u8
    } else {
        (b - 55) as u8
    }
}

pub open spec fn all_hex(s: Seq<u8>) -> bool {
    forall|i: int| 0 <= i < s.len() ==> is_hex_digit(#[trigger] s[i])
}

/// The bytes written down by a run of hexadecimal digit pairs.
pub open spec fn hex_decode(s: Seq<u8>) -> Seq<u8>
    decreases s.len(),
{
    if s.len() < 2 {
        Seq::empty()
    } else {
        seq![(16 * hex_val(s[0]) + hex_val(s[1])) as u8] + hex_decode(s.skip(2))
    }
}

/// A hexadecimal text that cannot be decoded.
#[derive(Debug, PartialEq, Eq, Structural, Clone, Copy)]
pub enum HexError {
    /// The text's length is odd: a digit is missing.
    OddLength,
    /// A character is not a hexadecimal digit.
    InvalidDigit,
}

fn hex_from(b: &[u8], i: usize, out: &mut Vec<u8>) -> (r: bool)
    requires
        i <= b@.len(),
        (b@.len() - i) % 2 == 0,
    ensures
        r ==> all_hex(b@.skip(i as int)) && final(out)@ == old(out)@ + hex_decode(
            b@.skip(i as int),
        ),
        !r ==> !all_hex(b@.skip(i as int)),
    decreases b@.len() - i,
{
    let ghost s = b@.skip(i as int);
    if i == b.len() {
        proof {
            assert(s =~= Seq::<u8>::empty());
            assert(old(out)@ + hex_decode(s) =~= old(out)@);
        }
        return true;
    }
    let hi = b[i];
    let lo = b[i + 1];
    let hv: u8 = if 48 <= hi && hi <= 57 {
        hi - 48
    } else if 97 <= hi && hi <= 102 {
        hi - 87
    } else if 65 <= hi && hi <= 70 {
        hi - 55
    } else {
        proof {
            assert(s[0] == hi);
            assert(!is_hex_digit(s[0]));
        }
        return false;
    };
    let lv: u8 = if 48 <= lo && lo <= 57 {
        lo - 48
    } else if 97 <= lo && lo <= 102 {
        lo - 87
    } else if 65 <= lo && lo <= 70 {
        lo - 55
    } else {
        proof {
            assert(s[1] == lo);
            assert(!is_hex_digit(s[1]));
        }
        return false;
    };
    out.push(16 * hv + lv);
    let ghost mid = out@;
    let ok = hex_from(b, i + 2, out);
    proof {
        assert(b@.skip(i + 2) =~= s.skip(2));
        assert(s[0] == hi && s[1] == lo);
        if ok {
            assert(hv == hex_val(s[0]) && lv == hex_val(s[1]));
            assert(mid =~= old(out)@ + seq![(16 * hex_val(s[0]) + hex_val(s[1])) as u8]);
            assert((old(out)@ + seq![(16 * hex_val(s[0]) + hex_val(s[1])) as u8]) + hex_decode(
                s.skip(2),
            ) =~= old(out)@ + hex_decode(s));
            assert forall|t: int| 0 <= t < s.len() implies is_hex_digit(#[trigger] s[t]) by {
                if t >= 2 {
                    assert(is_hex_digit(s.skip(2)[t - 2]));
                }
            }
        } else {
            assert(!all_hex(s.skip(2)));
            let t = choose|t: int| 0 <= t < s.skip(2).len() && !is_hex_digit(#[trigger] s.skip(2)[t]);
            assert(s.skip(2)[t] == s[t + 2]);
            assert(!is_hex_digit(s[t + 2]));
        }
    }
    ok
}

/// Decodes a hexadecimal text into the bytes it writes down: exactly when
/// its length is even and every character is a hexadecimal digit.
pub fn decode_hex_string(s: &str) -> (r: Result<Vec<u8>, HexError>)
    ensures
        match r {
            Ok(v) => s.spec_bytes().len() % 2 == 0 && all_hex(s.spec_bytes()) && v@ == hex_decode(
                s.spec_bytes(),
            ),
            Err(HexError::OddLength) => s.spec_bytes().len() % 2 == 1,
            Err(HexError::InvalidDigit) => s.spec_bytes().len() % 2 == 0 && !all_hex(
                s.spec_bytes(),
            ),
        },
{
    let b = s.as_bytes();
    if b.len() % 2 != 0 {
        return Err(HexError::OddLength);
    }
    let mut out: Vec<u8> = Vec::new();
    let ok = hex_from(b, 0, &mut out);
    proof {
        assert(b@.skip(0) =~= b@);
    }
    if ok {
        Ok(out)
    } else {
        Err(HexError::InvalidDigit)
    }
}

/// The fixed empty-dataset snapshot, as the hexadecimal text it is written
/// down in.
pub open spec fn snapshot_hex() -> Seq<char> {
    "524544495330303131fa0972656469732d76657205372e322e30fa0a72656469732d62697473c040fa056374696d65c26d08bc65fa08757365642d6d656dc2b0c41000fa08616f662d62617365c000fff06e3bfec0ff5aa2"@
}

/// The raw bytes of the snapshot payload.
pub open spec fn snapshot_bytes() -> Seq<u8> {
    hex_decode(ascii_seq(snapshot_hex()))
}

/// The snapshot frame a leader streams right after its PSYNC reply: a `$`
/// header naming the payload length, the terminator, then the raw payload —
/// deliberately with no trailing terminator, since the payload is an
/// attached blob, not a value.
pub fn snapshot_frame() -> (r: Vec<u8>)
    ensures
        r@ == seq![36u8] + u_dec(snapshot_bytes().len()) + crlf() + snapshot_bytes(),
{
    let s =
        "524544495330303131fa0972656469732d76657205372e322e30fa0a72656469732d62697473c040fa056374696d65c26d08bc65fa08757365642d6d656dc2b0c41000fa08616f662d62617365c000fff06e3bfec0ff5aa2";
    proof {
        reveal_strlit(
            "524544495330303131fa0972656469732d76657205372e322e30fa0a72656469732d62697473c040fa056374696d65c26d08bc65fa08757365642d6d656dc2b0c41000fa08616f662d62617365c000fff06e3bfec0ff5aa2",
        );
        assert(vstd::string::is_ascii(s));
        vstd::string::is_ascii_spec_bytes(s);
        assert(s.spec_bytes() =~= ascii_seq(snapshot_hex()));
        assert(all_hex(s.spec_bytes()));
    }
    let payload = match decode_hex_string(s) {
        Ok(p) => p,
        Err(_) => {
            proof {
                assert(false);
            }
            Vec::new()
        },
    };
    let mut r: Vec<u8> = Vec::new();
    r.push(36u8);
    push_u64_dec(&mut r, payload.len() as u64);
    r.push(13u8);
    r.push(10u8);
    crate::resp::push_bytes(&mut r, payload.as_slice());
    proof {
        assert(r@ =~= seq![36u8] + u_dec(snapshot_bytes().len()) + crlf() + snapshot_bytes());
    }
    r
}

} // verus!
