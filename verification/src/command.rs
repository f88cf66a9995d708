//! Request splitting and command dispatch.
//!
//! A request is an aggregate whose first element is a bulk value naming the
//! command, case-insensitively; the rest are positional arguments. The
//! dispatcher maps one request to a reply and to the keyspace after it:
//! `spec_reply` and `spec_store_after` are the command table in mathematical
//! form, and `handle_command` implements exactly that table. A malformed
//! argument always yields an error status, never a failure.

use vstd::prelude::*;

use crate::ascii::{
    all_digits, ascii_seq, bytes_eq, digits_val, digits_value_capped, check_digits, lower_bytes,
    str_bytes, to_lower,
};
use crate::resp::{lemma_model_list, model_list, spec_encode, RespModel, RespValue};
use crate::storage::{lookup, store_after_get, DataModel, Storage};

verus! {

/// A request the dispatcher refuses before naming a command.
#[derive(Debug, PartialEq, Eq)]
pub enum RequestError {
    /// The request is not an aggregate.
    NotAggregate,
    /// The request is an empty aggregate.
    EmptyRequest,
    /// The first element is not a non-null bulk value.
    CommandNotBulk,
}

/// A request a client can build itself: the lone PING the follower opens
/// its handshake with.
pub enum Command {
    Ping,
}

/// The model of the PING request: an aggregate of one bulk value.
pub open spec fn ping_request() -> RespModel {
    RespModel::Array(seq![RespModel::BulkString(Some(ascii_seq("PING"@)))])
}

impl Command {
    /// The wire bytes of the request.
    pub fn to_bytes(&self) -> (r: Vec<u8>)
        ensures
            r@ == spec_encode(ping_request()),
    {
        match self {
            Command::Ping => {
                let s = "PING";
                proof {
                    reveal_strlit("PING");
                }
                let mut elems: Vec<RespValue> = Vec::new();
                elems.push(RespValue::BulkString(Some(str_bytes(s))));
                proof {
                    lemma_model_list(elems@);
                    assert(elems@.len() == 1);
                    assert(elems@[0]@ == RespModel::BulkString(Some(ascii_seq("PING"@))));
                    assert(model_list(elems@) =~= seq![
                        RespModel::BulkString(Some(ascii_seq("PING"@))),
                    ]);
                }
                let v = RespValue::Array(elems);
                proof {
                    assert(v@ =~= ping_request());
                }
                v.to_bytes()
            },
        }
    }
}

/// Splits a decoded request into its lower-cased command name and its
/// arguments.
pub fn parse_command(value: RespValue) -> (r: Result<(Vec<u8>, Vec<RespValue>), RequestError>)
    ensures
        match r {
            Ok((cmd, args)) => value@ is Array && value@->Array_0.len() >= 1
                && value@->Array_0[0] is BulkString && value@->Array_0[0]->BulkString_0 is Some
                && cmd@ == lower_bytes(value@->Array_0[0]->BulkString_0->0) && model_list(args@)
                == value@->Array_0.drop_first(),
            Err(RequestError::NotAggregate) => !(value@ is Array),
            Err(RequestError::EmptyRequest) => value@ is Array && value@->Array_0.len() == 0,
            Err(RequestError::CommandNotBulk) => value@ is Array && value@->Array_0.len() >= 1 && !(
            value@->Array_0[0] is BulkString && value@->Array_0[0]->BulkString_0 is Some),
        },
{
    match value {
        RespValue::Array(mut a) => {
            if a.len() == 0 {
                return Err(RequestError::EmptyRequest);
            }
            let ghost a0 = a@;
            proof {
                lemma_model_list(a0);
                assert(value@ == RespModel::Array(model_list(a0)));
            }
            let first = a.remove(0);
            proof {
                assert(a@ =~= a0.drop_first());
                assert(first == a0[0]);
                lemma_model_list(a@);
                lemma_model_list(a0);
                assert forall|j: int| 0 <= j < a@.len() implies model_list(a@)[j] == model_list(
                    a0,
                ).drop_first()[j] by {
                    assert(model_list(a@)[j] == a@[j]@);
                    assert(a@[j] == a0[j + 1]);
                    assert(model_list(a0)[j + 1] == a0[j + 1]@);
                }
                assert(model_list(a@) =~= model_list(a0).drop_first());
                assert(model_list(a0)[0] == a0[0]@);
            }
            match first {
                RespValue::BulkString(Some(name)) => {
                    let cmd = to_lower(name.as_slice());
                    Ok((cmd, a))
                },
                _ => Err(RequestError::CommandNotBulk),
            }
        },
        _ => Err(RequestError::NotAggregate),
    }
}

impl RequestError {
    /// The error status reported to the client for this refusal.
    pub fn reply(&self) -> (r: RespValue)
        ensures
            r@ == RespModel::Error(self.text()),
    {
        match self {
            RequestError::NotAggregate => {
                proof {
                    reveal_strlit("Expected array");
                }
                RespValue::Error(str_bytes("Expected array"))
            },
            RequestError::EmptyRequest => {
                proof {
                    reveal_strlit("empty request");
                }
                RespValue::Error(str_bytes("empty request"))
            },
            RequestError::CommandNotBulk => {
                proof {
                    reveal_strlit("Expected bulk string");
                }
                RespValue::Error(str_bytes("Expected bulk string"))
            },
        }
    }

    /// The text of the error status for this refusal.
    pub open spec fn text(&self) -> Seq<u8> {
        match self {
            RequestError::NotAggregate => ascii_seq("Expected array"@),
            RequestError::EmptyRequest => ascii_seq("empty request"@),
            RequestError::CommandNotBulk => ascii_seq("Expected bulk string"@),
        }
    }
}

/// The keyspace key a command argument addresses: the argument's own wire
/// encoding, which is total over every value, and one-to-one over
/// constructible values (`lemma_encode_injective`).
pub open spec fn key_of(v: RespModel) -> Seq<u8> {
    spec_encode(v)
}

/// True of a bulk argument that case-insensitively spells the expiry marker
/// `PX`.
pub open spec fn px_marker(a: RespModel) -> bool {
    a is BulkString && a->BulkString_0 is Some && lower_bytes(a->BulkString_0->0) == ascii_seq(
        "px"@,
    )
}

/// The lifetime named by a bulk argument: a run of digits whose value a
/// 64-bit word holds; anything else is refused.
pub open spec fn ttl_of(a: RespModel) -> Option<u64> {
    if a is BulkString && a->BulkString_0 is Some {
        let d = a->BulkString_0->0;
        if d.len() >= 1 && all_digits(d) && digits_val(d) <= u64::MAX {
            Some(digits_val(d) as u64)
        } else {
            None
        }
    } else {
        None
    }
}

pub open spec fn cmd_ping() -> Seq<u8> {
    ascii_seq("ping"@)
}

pub open spec fn cmd_echo() -> Seq<u8> {
    ascii_seq("echo"@)
}

pub open spec fn cmd_set() -> Seq<u8> {
    ascii_seq("set"@)
}

pub open spec fn cmd_get() -> Seq<u8> {
    ascii_seq("get"@)
}

pub open spec fn cmd_info() -> Seq<u8> {
    ascii_seq("info"@)
}

pub open spec fn cmd_replconf() -> Seq<u8> {
    ascii_seq("replconf"@)
}

pub open spec fn cmd_psync() -> Seq<u8> {
    ascii_seq("psync"@)
}

pub open spec fn pong_text() -> Seq<u8> {
    ascii_seq("PONG"@)
}

pub open spec fn ok_text() -> Seq<u8> {
    ascii_seq("OK"@)
}

pub open spec fn err_wrong_arity() -> Seq<u8> {
    ascii_seq("wrong number of arguments"@)
}

pub open spec fn err_unknown_argument() -> Seq<u8> {
    ascii_seq("unknown argument"@)
}

pub open spec fn err_unknown_command() -> Seq<u8> {
    ascii_seq("unknown command"@)
}

/// The fixed banner INFO replies without a section name.
pub open spec fn server_banner() -> Seq<u8> {
    ascii_seq("# Server\nversion:0.0.1\n"@)
}

/// The text block INFO replies for the replication section: the role this
/// process plays, and the fixed replication id and offset.
pub open spec fn replication_banner(is_replica: bool) -> Seq<u8> {
    if is_replica {
        ascii_seq(
            "# Replication\nrole:slave\nmaster_replid:8371b4fb1155b71f4a04d3e1bc3e18c4a990aeeb\nmaster_repl_offset:0\n"@,
        )
    } else {
        ascii_seq(
            "# Replication\nrole:master\nmaster_replid:8371b4fb1155b71f4a04d3e1bc3e18c4a990aeeb\nmaster_repl_offset:0\n"@,
        )
    }
}

/// The status line a leader answers PSYNC with: full resynchronization under
/// its replication id, from offset zero.
pub open spec fn fullresync_text() -> Seq<u8> {
    ascii_seq("FULLRESYNC 8371b4fb1155b71f4a04d3e1bc3e18c4a990aeeb 0"@)
}

/// The reply the command table gives for one request, split into command
/// name (already lower-cased) and arguments, against keyspace `m` at time
/// `now`.
pub open spec fn spec_reply(
    cmd: Seq<u8>,
    args: Seq<RespModel>,
    m: Map<Seq<u8>, DataModel>,
    now: u64,
    is_replica: bool,
) -> RespModel {
    if cmd == cmd_ping() {
        RespModel::SimpleString(pong_text())
    } else if cmd == cmd_echo() {
        if args.len() == 1 {
            args[0]
        } else {
            RespModel::Error(err_wrong_arity())
        }
    } else if cmd == cmd_set() {
        if args.len() == 2 {
            RespModel::SimpleString(ok_text())
        } else if args.len() == 4 {
            if px_marker(args[2]) && ttl_of(args[3]) is Some {
                RespModel::SimpleString(ok_text())
            } else {
                RespModel::Error(err_unknown_argument())
            }
        } else {
            RespModel::Error(err_wrong_arity())
        }
    } else if cmd == cmd_get() {
        if args.len() == 1 {
            match lookup(m, key_of(args[0]), now) {
                Some(v) => v,
                None => RespModel::BulkString(None),
            }
        } else {
            RespModel::Error(err_wrong_arity())
        }
    } else if cmd == cmd_info() {
        if args.len() == 0 {
            RespModel::BulkString(Some(server_banner()))
        } else if args.len() == 1 && args[0] is BulkString && args[0]->BulkString_0 is Some {
            if lower_bytes(args[0]->BulkString_0->0) == ascii_seq("replication"@) {
                RespModel::BulkString(Some(replication_banner(is_replica)))
            } else {
                RespModel::Error(err_unknown_argument())
            }
        } else {
            RespModel::Error(err_wrong_arity())
        }
    } else if cmd == cmd_replconf() {
        RespModel::BulkString(Some(ok_text()))
    } else if cmd == cmd_psync() {
        RespModel::SimpleString(fullresync_text())
    } else {
        RespModel::Error(err_unknown_command())
    }
}

/// The keyspace after one request: only a well-formed SET writes, and only
/// a GET evicts an expired entry.
pub open spec fn spec_store_after(
    cmd: Seq<u8>,
    args: Seq<RespModel>,
    m: Map<Seq<u8>, DataModel>,
    now: u64,
) -> Map<Seq<u8>, DataModel> {
    if cmd == cmd_set() {
        if args.len() == 2 {
            m.insert(key_of(args[0]), DataModel { value: args[1], created: now, expiry: None })
        } else if args.len() == 4 && px_marker(args[2]) && ttl_of(args[3]) is Some {
            m.insert(
                key_of(args[0]),
                DataModel { value: args[1], created: now, expiry: ttl_of(args[3]) },
            )
        } else {
            m
        }
    } else if cmd == cmd_get() && args.len() == 1 {
        store_after_get(m, key_of(args[0]), now)
    } else {
        m
    }
}

fn wrong_arity_reply() -> (r: RespValue)
    ensures
        r@ == RespModel::Error(err_wrong_arity()),
{
    proof {
        reveal_strlit("wrong number of arguments");
    }
    RespValue::Error(str_bytes("wrong number of arguments"))
}

fn unknown_argument_reply() -> (r: RespValue)
    ensures
        r@ == RespModel::Error(err_unknown_argument()),
{
    proof {
        reveal_strlit("unknown argument");
    }
    RespValue::Error(str_bytes("unknown argument"))
}

fn ok_reply() -> (r: RespValue)
    ensures
        r@ == RespModel::SimpleString(ok_text()),
{
    proof {
        reveal_strlit("OK");
    }
    RespValue::SimpleString(str_bytes("OK"))
}

/// Performs one command against the keyspace at time `now` and returns the
/// reply; `is_replica` tells INFO which role to report.
pub fn handle_command(
    command: &[u8],
    args: Vec<RespValue>,
    storage: &mut Storage,
    now: u64,
    is_replica: bool,
) -> (r: RespValue)
    requires
        old(storage).wf(),
    ensures
        final(storage).wf(),
        r@ == spec_reply(command@, model_list(args@), old(storage)@, now, is_replica),
        final(storage)@ == spec_store_after(command@, model_list(args@), old(storage)@, now),
{
    let ghost argm = model_list(args@);
    proof {
        lemma_model_list(args@);
        reveal_strlit("ping");
        reveal_strlit("echo");
        reveal_strlit("set");
        reveal_strlit("get");
        reveal_strlit("info");
        reveal_strlit("replconf");
        reveal_strlit("psync");
        reveal_strlit("px");
        reveal_strlit("replication");
        reveal_strlit("PONG");
    }
    if bytes_eq(command, str_bytes("ping").as_slice()) {
        RespValue::SimpleString(str_bytes("PONG"))
    } else if bytes_eq(command, str_bytes("echo").as_slice()) {
        if args.len() == 1 {
            let v = args[0].duplicate();
            proof {
                assert(argm[0] == args@[0]@);
            }
            v
        } else {
            wrong_arity_reply()
        }
    } else if bytes_eq(command, str_bytes("set").as_slice()) {
        if args.len() == 2 {
            let key = args[0].to_bytes();
            let value = args[1].duplicate();
            storage.set(key, value, None, now);
            ok_reply()
        } else if args.len() == 4 {
            proof {
                assert(argm[2] == args@[2]@);
                assert(argm[3] == args@[3]@);
            }
            let px_ok: bool = match args[2].as_bulk() {
                Some(b) => {
                    let low = to_lower(b.as_slice());
                    bytes_eq(low.as_slice(), str_bytes("px").as_slice())
                },
                None => false,
            };
            proof {
                assert(px_ok == px_marker(argm[2]));
            }
            if !px_ok {
                return unknown_argument_reply();
            }
            match args[3].as_bulk() {
                Some(d) => {
                    if check_digits(d.as_slice()) {
                        match digits_value_capped(d.as_slice(), u64::MAX) {
                            Some(t) => {
                                proof {
                                    assert(ttl_of(argm[3]) == Some(t));
                                }
                                let key = args[0].to_bytes();
                                let value = args[1].duplicate();
                                storage.set(key, value, Some(t), now);
                                ok_reply()
                            },
                            None => {
                                proof {
                                    assert(ttl_of(argm[3]) is None);
                                }
                                unknown_argument_reply()
                            },
                        }
                    } else {
                        proof {
                            assert(ttl_of(argm[3]) is None);
                        }
                        unknown_argument_reply()
                    }
                },
                None => {
                    proof {
                        assert(ttl_of(argm[3]) is None);
                    }
                    unknown_argument_reply()
                },
            }
        } else {
            wrong_arity_reply()
        }
    } else if bytes_eq(command, str_bytes("get").as_slice()) {
        if args.len() == 1 {
            let key = args[0].to_bytes();
            match storage.get(key.as_slice(), now) {
                Some(v) => v,
                None => RespValue::BulkString(None),
            }
        } else {
            wrong_arity_reply()
        }
    } else if bytes_eq(command, str_bytes("info").as_slice()) {
        if args.len() == 0 {
            proof {
                reveal_strlit("# Server\nversion:0.0.1\n");
            }
            RespValue::BulkString(Some(str_bytes("# Server\nversion:0.0.1\n")))
        } else if args.len() == 1 {
            proof {
                assert(argm[0] == args@[0]@);
            }
            match args[0].as_bulk() {
                Some(sec) => {
                    let low = to_lower(sec.as_slice());
                    if bytes_eq(low.as_slice(), str_bytes("replication").as_slice()) {
                        if is_replica {
                            proof {
                                reveal_strlit(
                                    "# Replication\nrole:slave\nmaster_replid:8371b4fb1155b71f4a04d3e1bc3e18c4a990aeeb\nmaster_repl_offset:0\n",
                                );
                            }
                            RespValue::BulkString(
                                Some(
                                    str_bytes(
                                        "# Replication\nrole:slave\nmaster_replid:8371b4fb1155b71f4a04d3e1bc3e18c4a990aeeb\nmaster_repl_offset:0\n",
                                    ),
                                ),
                            )
                        } else {
                            proof {
                                reveal_strlit(
                                    "# Replication\nrole:master\nmaster_replid:8371b4fb1155b71f4a04d3e1bc3e18c4a990aeeb\nmaster_repl_offset:0\n",
                                );
                            }
                            RespValue::BulkString(
                                Some(
                                    str_bytes(
                                        "# Replication\nrole:master\nmaster_replid:8371b4fb1155b71f4a04d3e1bc3e18c4a990aeeb\nmaster_repl_offset:0\n",
                                    ),
                                ),
                            )
                        }
                    } else {
                        unknown_argument_reply()
                    }
                },
                None => wrong_arity_reply(),
            }
        } else {
            wrong_arity_reply()
        }
    } else if bytes_eq(command, str_bytes("replconf").as_slice()) {
        proof {
            reveal_strlit("OK");
        }
        RespValue::BulkString(Some(str_bytes("OK")))
    } else if bytes_eq(command, str_bytes("psync").as_slice()) {
        proof {
            reveal_strlit("FULLRESYNC 8371b4fb1155b71f4a04d3e1bc3e18c4a990aeeb 0");
        }
        RespValue::SimpleString(str_bytes("FULLRESYNC 8371b4fb1155b71f4a04d3e1bc3e18c4a990aeeb 0"))
    } else {
        proof {
            reveal_strlit("unknown command");
        }
        RespValue::Error(str_bytes("unknown command"))
    }
}

} // verus!
