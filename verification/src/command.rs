//! What the commands mean: from a frame to the request it makes, and from
//! a server's state and a request to the next state, the reply, and the
//! bytes that go to the replicas.

use crate::decimal::{digits, number_of};
use crate::frame::Frame;
use crate::role::Role;
use crate::store::{deadline, live, overflows, Stored};
use crate::text::{bytes_of, same_word};
use vstd::prelude::*;
use vstd::string::is_ascii;

verus! {

/// Why a command was refused. Each is answered with an error frame; none
/// closes the connection.
#[derive(Debug, Clone, Copy, PartialEq, Eq, Structural)]
pub enum CommandError {
    /// Not an array that starts with a bulk string, or a name that is not
    /// known.
    UnknownCommand,
    /// `COMMAND`, in any form.
    NotImplemented,
    /// A known command with the wrong number of arguments.
    WrongArity,
    /// The key is not a bulk string.
    BadKey,
    /// The value is not a bulk string.
    BadValue,
    /// An option of `SET` other than `PX`.
    BadOption,
    /// The time to live is not a decimal number of 64 bits.
    BadExpiry,
    /// The time to live, added to the clock, leaves 64 bits.
    ExpiryOverflow,
    /// The replication offset cannot take the command's bytes.
    OffsetOverflow,
    /// A subcommand that is not known.
    BadSubcommand,
    /// The listening port is not a bulk string that holds a port number.
    BadPort,
    /// The capability is not a bulk string.
    BadCapa,
    /// A capability other than `psync2`.
    UnknownCapability,
    /// An argument of `REPLCONF GETACK` other than `*`.
    BadArgument,
    /// `PSYNC` sent to a replica.
    NotMaster,
}

impl CommandError {
    /// The text of the error frame.
    pub open spec fn text(self) -> Seq<char> {
        match self {
            CommandError::UnknownCommand => "ERR unknown command"@,
            CommandError::NotImplemented => "Not implemented"@,
            CommandError::WrongArity => "ERR wrong number of arguments"@,
            CommandError::BadKey => "ERR key is not a valid BulkString"@,
            CommandError::BadValue => "ERR value is not a valid BulkString"@,
            CommandError::BadOption => "ERR value is not a valid RESP type"@,
            CommandError::BadExpiry => "ERR value is not an integer or out of range"@,
            CommandError::ExpiryOverflow => "ERR expiry overflows"@,
            CommandError::OffsetOverflow => "ERR replication offset overflows"@,
            CommandError::BadSubcommand => "ERR unknown subcommand"@,
            CommandError::BadPort => "ERR port is not a valid BulkString"@,
            CommandError::BadCapa => "ERR capa is not a valid BulkString"@,
            CommandError::UnknownCapability => "ERR unknown capability"@,
            CommandError::BadArgument => "ERR invalid argument"@,
            CommandError::NotMaster => "ERR not a master"@,
        }
    }

    /// The text of the error frame.
    pub fn message(&self) -> (s: &'static str)
        ensures
            s@ == self.text(),
            is_ascii(s),
    {
        proof {
            reveal_strlit("ERR unknown command");
            reveal_strlit("Not implemented");
            reveal_strlit("ERR wrong number of arguments");
            reveal_strlit("ERR key is not a valid BulkString");
            reveal_strlit("ERR value is not a valid BulkString");
            reveal_strlit("ERR value is not a valid RESP type");
            reveal_strlit("ERR value is not an integer or out of range");
            reveal_strlit("ERR expiry overflows");
            reveal_strlit("ERR replication offset overflows");
            reveal_strlit("ERR unknown subcommand");
            reveal_strlit("ERR port is not a valid BulkString");
            reveal_strlit("ERR capa is not a valid BulkString");
            reveal_strlit("ERR unknown capability");
            reveal_strlit("ERR invalid argument");
            reveal_strlit("ERR not a master");
        }
        match self {
            CommandError::UnknownCommand => "ERR unknown command",
            CommandError::NotImplemented => "Not implemented",
            CommandError::WrongArity => "ERR wrong number of arguments",
            CommandError::BadKey => "ERR key is not a valid BulkString",
            CommandError::BadValue => "ERR value is not a valid BulkString",
            CommandError::BadOption => "ERR value is not a valid RESP type",
            CommandError::BadExpiry => "ERR value is not an integer or out of range",
            CommandError::ExpiryOverflow => "ERR expiry overflows",
            CommandError::OffsetOverflow => "ERR replication offset overflows",
            CommandError::BadSubcommand => "ERR unknown subcommand",
            CommandError::BadPort => "ERR port is not a valid BulkString",
            CommandError::BadCapa => "ERR capa is not a valid BulkString",
            CommandError::UnknownCapability => "ERR unknown capability",
            CommandError::BadArgument => "ERR invalid argument",
            CommandError::NotMaster => "ERR not a master",
        }
    }
}

/// What a frame asks of the server.
pub enum Request {
    Ping,
    Echo(Seq<u8>),
    /// Key, value, and the time to live in milliseconds where `PX` gave one.
    SetKey(Seq<u8>, Seq<u8>, Option<u64>),
    GetKey(Seq<u8>),
    /// `INFO replication`.
    Info,
    /// `REPLCONF listening-port` with the port.
    ListeningPort(u16),
    /// `REPLCONF capa psync2`.
    Capa,
    /// `REPLCONF GETACK *`.
    GetAck,
    Psync,
    /// Nothing: the frame is answered with this error.
    Rejected(CommandError),
}

/// The bytes of a bulk string; of no interest for other frames.
pub open spec fn bulk(f: Frame) -> Seq<u8> {
    match f {
        Frame::Bulk(s) => s,
        _ => Seq::empty(),
    }
}

/// `PING`, with nothing behind it.
pub open spec fn classify_ping(a: Seq<Frame>) -> Request {
    if a.len() == 1 {
        Request::Ping
    } else {
        Request::Rejected(CommandError::WrongArity)
    }
}

/// `ECHO` with one bulk string.
pub open spec fn classify_echo(a: Seq<Frame>) -> Request {
    if a.len() != 2 {
        Request::Rejected(CommandError::WrongArity)
    } else if !(a[1] is Bulk) {
        Request::Rejected(CommandError::BadValue)
    } else {
        Request::Echo(bulk(a[1]))
    }
}

/// `SET key value`, or `SET key value PX milliseconds`. Any other option
/// is refused.
pub open spec fn classify_set(a: Seq<Frame>) -> Request {
    if a.len() != 3 && a.len() != 5 {
        Request::Rejected(CommandError::WrongArity)
    } else if !(a[1] is Bulk) {
        Request::Rejected(CommandError::BadKey)
    } else if !(a[2] is Bulk) {
        Request::Rejected(CommandError::BadValue)
    } else if a.len() == 3 {
        Request::SetKey(bulk(a[1]), bulk(a[2]), None)
    } else if !(a[3] is Bulk) || !same_word(bulk(a[3]), bytes_of("px"@)) {
        Request::Rejected(CommandError::BadOption)
    } else if !(a[4] is Bulk) || number_of(bulk(a[4])) is None {
        Request::Rejected(CommandError::BadExpiry)
    } else {
        Request::SetKey(bulk(a[1]), bulk(a[2]), number_of(bulk(a[4])))
    }
}

/// `GET key`.
pub open spec fn classify_get(a: Seq<Frame>) -> Request {
    if a.len() != 2 {
        Request::Rejected(CommandError::WrongArity)
    } else if !(a[1] is Bulk) {
        Request::Rejected(CommandError::BadKey)
    } else {
        Request::GetKey(bulk(a[1]))
    }
}

/// `INFO replication`.
pub open spec fn classify_info(a: Seq<Frame>) -> Request {
    if a.len() != 2 {
        Request::Rejected(CommandError::WrongArity)
    } else if !(a[1] is Bulk) || !same_word(bulk(a[1]), bytes_of("replication"@)) {
        Request::Rejected(CommandError::BadSubcommand)
    } else {
        Request::Info
    }
}

/// `REPLCONF listening-port <port>`, `REPLCONF capa psync2`, or
/// `REPLCONF GETACK *`.
pub open spec fn classify_replconf(a: Seq<Frame>) -> Request {
    if a.len() != 3 {
        Request::Rejected(CommandError::WrongArity)
    } else if !(a[1] is Bulk) {
        Request::Rejected(CommandError::BadSubcommand)
    } else if same_word(bulk(a[1]), bytes_of("listening-port"@)) {
        if a[2] is Bulk && number_of(bulk(a[2])) is Some && number_of(bulk(a[2]))->0 <= u16::MAX {
            Request::ListeningPort(number_of(bulk(a[2]))->0 as u16)
        } else {
            Request::Rejected(CommandError::BadPort)
        }
    } else if same_word(bulk(a[1]), bytes_of("capa"@)) {
        if !(a[2] is Bulk) {
            Request::Rejected(CommandError::BadCapa)
        } else if same_word(bulk(a[2]), bytes_of("psync2"@)) {
            Request::Capa
        } else {
            Request::Rejected(CommandError::UnknownCapability)
        }
    } else if same_word(bulk(a[1]), bytes_of("getack"@)) {
        if a[2] is Bulk && bulk(a[2]) == bytes_of("*"@) {
            Request::GetAck
        } else {
            Request::Rejected(CommandError::BadArgument)
        }
    } else {
        Request::Rejected(CommandError::BadSubcommand)
    }
}

/// `PSYNC` with two bulk strings.
pub open spec fn classify_psync(a: Seq<Frame>) -> Request {
    if a.len() != 3 {
        Request::Rejected(CommandError::WrongArity)
    } else if !(a[1] is Bulk) || !(a[2] is Bulk) {
        Request::Rejected(CommandError::BadValue)
    } else {
        Request::Psync
    }
}

/// The request that an array makes. Its first element, a bulk string,
/// names the command, in any ASCII case.
pub open spec fn classify_array(a: Seq<Frame>) -> Request {
    if a.len() == 0 || !(a[0] is Bulk) {
        Request::Rejected(CommandError::UnknownCommand)
    } else if same_word(bulk(a[0]), bytes_of("ping"@)) {
        classify_ping(a)
    } else if same_word(bulk(a[0]), bytes_of("echo"@)) {
        classify_echo(a)
    } else if same_word(bulk(a[0]), bytes_of("set"@)) {
        classify_set(a)
    } else if same_word(bulk(a[0]), bytes_of("get"@)) {
        classify_get(a)
    } else if same_word(bulk(a[0]), bytes_of("info"@)) {
        classify_info(a)
    } else if same_word(bulk(a[0]), bytes_of("replconf"@)) {
        classify_replconf(a)
    } else if same_word(bulk(a[0]), bytes_of("psync"@)) {
        classify_psync(a)
    } else if same_word(bulk(a[0]), bytes_of("command"@)) {
        Request::Rejected(CommandError::NotImplemented)
    } else {
        Request::Rejected(CommandError::UnknownCommand)
    }
}

/// The request that a frame makes. Only an array makes one.
pub open spec fn classify(f: Frame) -> Request {
    match f {
        Frame::Array(a) => classify_array(a),
        _ => Request::Rejected(CommandError::UnknownCommand),
    }
}

/// A connection known to a master as a replica: a candidate from its
/// `REPLCONF listening-port` on, attached once it has been sent the
/// snapshot.
#[derive(Debug, Clone, Copy, PartialEq, Eq, Structural)]
pub struct ReplicaSlot {
    pub id: u64,
    pub attached: bool,
}

/// A server's state as a mathematical value.
pub struct ServerModel {
    pub role: Role,
    /// The replication id: 40 hexadecimal characters on a master, nothing
    /// on a replica.
    pub replication_id: Seq<u8>,
    /// On a master the bytes propagated so far, on a replica the bytes of
    /// the master's stream applied so far.
    pub offset: u64,
    pub store: Map<Seq<u8>, Stored>,
    /// The replicas, in the order in which they came.
    pub replicas: Seq<ReplicaSlot>,
}

/// What a request does: the next state, the reply, and on a master the
/// bytes to write to every attached replica.
pub struct Applied {
    pub state: ServerModel,
    pub reply: Frame,
    pub propagate: Option<Seq<u8>>,
}

/// A reply that changes nothing.
pub open spec fn answer(m: ServerModel, reply: Frame) -> Applied {
    Applied { state: m, reply, propagate: None }
}

/// The error frame for a refused command.
pub open spec fn refusal(e: CommandError) -> Frame {
    Frame::Error(bytes_of(e.text()))
}

/// The reply `+OK`.
pub open spec fn ok() -> Frame {
    Frame::Simple(bytes_of("OK"@))
}

/// The form in which a `SET` goes to the replicas, whatever the case in
/// which the client wrote it.
pub open spec fn canonical_set(key: Seq<u8>, val: Seq<u8>, ttl: Option<u64>) -> Frame {
    match ttl {
        None => Frame::Array(
            seq![Frame::Bulk(bytes_of("SET"@)), Frame::Bulk(key), Frame::Bulk(val)],
        ),
        Some(t) => Frame::Array(
            seq![
                Frame::Bulk(bytes_of("SET"@)),
                Frame::Bulk(key),
                Frame::Bulk(val),
                Frame::Bulk(bytes_of("PX"@)),
                Frame::Bulk(digits(t as nat)),
            ],
        ),
    }
}

/// The payload of the reply to `INFO replication`: lines separated by LF.
pub open spec fn info_text(m: ServerModel) -> Seq<u8> {
    if m.role == Role::Master {
        bytes_of("role:"@) + bytes_of(m.role.name()) + bytes_of("\nmaster_replid:"@)
            + m.replication_id + bytes_of("\nmaster_repl_offset:"@) + digits(m.offset as nat)
    } else {
        bytes_of("role:"@) + bytes_of(m.role.name())
    }
}

/// The line by which a master answers `PSYNC`.
pub open spec fn fullresync_line(m: ServerModel) -> Seq<u8> {
    bytes_of("FULLRESYNC "@) + m.replication_id + bytes_of(" "@) + digits(m.offset as nat)
}

/// The reply to `REPLCONF GETACK *`: the offset as it stands.
pub open spec fn ack(offset: u64) -> Frame {
    Frame::Array(
        seq![
            Frame::Bulk(bytes_of("REPLCONF"@)),
            Frame::Bulk(bytes_of("ACK"@)),
            Frame::Bulk(digits(offset as nat)),
        ],
    )
}

/// `GET`: the value where the key has a live entry; else the null bulk
/// string, and an expired entry for the key is gone.
pub open spec fn apply_get(m: ServerModel, key: Seq<u8>, now: u64) -> Applied {
    if m.store.contains_key(key) && live(m.store[key], now) {
        answer(m, Frame::Bulk(m.store[key].value))
    } else {
        answer(ServerModel { store: m.store.remove(key), ..m }, Frame::NullBulk)
    }
}

/// `SET`: the entry is written, and on a master the command goes to the
/// replicas and the offset grows by its length. Refused, with nothing
/// changed, where the deadline or the offset would leave 64 bits.
pub open spec fn apply_set(
    m: ServerModel,
    key: Seq<u8>,
    val: Seq<u8>,
    ttl: Option<u64>,
    now: u64,
) -> Applied {
    let entry = Stored { value: val, expires_at: deadline(ttl, now) };
    let bytes = canonical_set(key, val, ttl).wire();
    if overflows(ttl, now) {
        answer(m, refusal(CommandError::ExpiryOverflow))
    } else if m.role == Role::Slave {
        answer(ServerModel { store: m.store.insert(key, entry), ..m }, ok())
    } else if m.offset + bytes.len() > u64::MAX {
        answer(m, refusal(CommandError::OffsetOverflow))
    } else {
        Applied {
            state: ServerModel {
                store: m.store.insert(key, entry),
                offset: (m.offset + bytes.len()) as u64,
                ..m
            },
            reply: ok(),
            propagate: Some(bytes),
        }
    }
}

/// What a request does to a server at the instant `now`.
pub open spec fn apply(m: ServerModel, req: Request, now: u64) -> Applied {
    match req {
        Request::Ping => answer(m, Frame::Simple(bytes_of("PONG"@))),
        Request::Echo(s) => answer(m, Frame::Bulk(s)),
        Request::SetKey(key, val, ttl) => apply_set(m, key, val, ttl, now),
        Request::GetKey(key) => apply_get(m, key, now),
        Request::Info => answer(m, Frame::Bulk(info_text(m))),
        Request::ListeningPort(_) => answer(m, ok()),
        Request::Capa => answer(m, ok()),
        Request::GetAck => answer(m, ack(m.offset)),
        Request::Psync => if m.role == Role::Master {
            answer(m, Frame::Simple(fullresync_line(m)))
        } else {
            answer(m, refusal(CommandError::NotMaster))
        },
        Request::Rejected(e) => answer(m, refusal(e)),
    }
}

} // verus!
