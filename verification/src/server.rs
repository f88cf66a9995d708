//! One request-reply step over a byte buffer: the compute side of a
//! connection.
//!
//! The driver that owns the socket accumulates bytes and calls
//! `handle_bytes`; it then writes the reply bytes, drops the consumed
//! prefix, and — after a PSYNC reply — streams the snapshot frame.

use vstd::prelude::*;

use crate::ascii::{bytes_eq, lower_bytes, str_bytes};
use crate::command::{
    cmd_psync, handle_command, parse_command, spec_reply, spec_store_after, RequestError,
};
use crate::decode::{decode, spec_decode, DecodeResult, SpecStep};
use crate::resp::{model_list, spec_encode, RespModel};
use crate::storage::{DataModel, Storage};

verus! {

/// How a decoded request is split, or why it is refused.
pub open spec fn split_request(req: RespModel) -> Result<(Seq<u8>, Seq<RespModel>), RequestError> {
    if !(req is Array) {
        Err(RequestError::NotAggregate)
    } else if req->Array_0.len() == 0 {
        Err(RequestError::EmptyRequest)
    } else if !(req->Array_0[0] is BulkString && req->Array_0[0]->BulkString_0 is Some) {
        Err(RequestError::CommandNotBulk)
    } else {
        Ok((lower_bytes(req->Array_0[0]->BulkString_0->0), req->Array_0.drop_first()))
    }
}

/// The reply sent for one decoded request.
pub open spec fn spec_response(
    req: RespModel,
    m: Map<Seq<u8>, DataModel>,
    now: u64,
    is_replica: bool,
) -> RespModel {
    match split_request(req) {
        Ok((cmd, args)) => spec_reply(cmd, args, m, now, is_replica),
        Err(e) => RespModel::Error(e.text()),
    }
}

/// The keyspace after one decoded request.
pub open spec fn spec_store_of(req: RespModel, m: Map<Seq<u8>, DataModel>, now: u64) -> Map<
    Seq<u8>,
    DataModel,
> {
    match split_request(req) {
        Ok((cmd, args)) => spec_store_after(cmd, args, m, now),
        Err(_) => m,
    }
}

/// True of the one request whose reply is followed by the snapshot frame.
pub open spec fn wants_snapshot(req: RespModel) -> bool {
    match split_request(req) {
        Ok((cmd, args)) => cmd == cmd_psync(),
        Err(_) => false,
    }
}

/// The outcome of one step over the buffered bytes.
#[derive(Debug)]
pub enum ServerStep {
    /// Reply bytes, the count of request bytes consumed, and whether the
    /// snapshot frame follows the reply.
    Reply(Vec<u8>, usize, bool),
    /// The buffer does not yet hold a whole request: read more bytes.
    NeedMore,
    /// The buffer can never become a request: the connection is lost.
    ProtocolError,
}

/// Performs at most one request found at the front of `buf` against the
/// keyspace at time `now`, and returns the encoded reply together with how
/// many bytes of `buf` the request occupied.
pub fn handle_bytes(buf: &[u8], storage: &mut Storage, now: u64, is_replica: bool) -> (r:
    ServerStep)
    requires
        old(storage).wf(),
    ensures
        final(storage).wf(),
        spec_decode(buf@) is Incomplete ==> r is NeedMore && final(storage)@ == old(storage)@,
        spec_decode(buf@) is Malformed ==> r is ProtocolError && final(storage)@ == old(storage)@,
        spec_decode(buf@) is Val ==> {
            let req = spec_decode(buf@)->Val_0;
            &&& r is Reply
            &&& r->Reply_0@ == spec_encode(spec_response(req, old(storage)@, now, is_replica))
            &&& r->Reply_1 == spec_decode(buf@)->Val_1
            &&& r->Reply_2 == wants_snapshot(req)
            &&& final(storage)@ == spec_store_of(req, old(storage)@, now)
        },
{
    match decode(buf) {
        DecodeResult::Incomplete => ServerStep::NeedMore,
        DecodeResult::Malformed => ServerStep::ProtocolError,
        DecodeResult::Complete(v, n) => {
            let ghost req = v@;
            match parse_command(v) {
                Err(e) => {
                    proof {
                        assert(split_request(req) == Err::<(Seq<u8>, Seq<RespModel>), _>(e));
                    }
                    let reply = e.reply();
                    ServerStep::Reply(reply.to_bytes(), n, false)
                },
                Ok((cmd, args)) => {
                    proof {
                        assert(split_request(req) == Ok::<_, RequestError>(
                            (cmd@, model_list(args@)),
                        ));
                        reveal_strlit("psync");
                    }
                    let snapshot = bytes_eq(cmd.as_slice(), str_bytes("psync").as_slice());
                    let reply = handle_command(cmd.as_slice(), args, storage, now, is_replica);
                    ServerStep::Reply(reply.to_bytes(), n, snapshot)
                },
            }
        },
    }
}

} // verus!
