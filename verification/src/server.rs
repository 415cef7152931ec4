//! The server's state and the command engine that runs on it.

use crate::command::{
    ack, apply, canonical_set, classify, classify_array, classify_get, classify_info,
    classify_psync, classify_replconf, classify_set, fullresync_line, info_text, ok, refusal,
    Applied, CommandError, ReplicaSlot, ServerModel,
};
use crate::decimal::{digits, push_decimal, read_u64};
use crate::frame::Frame;
use crate::parser::{copy_bytes, lemma_models, models, push_bytes, RespType};
use crate::role::Role;
use crate::store::{live_part, Store};
use crate::text::{bytes_of, is_text, is_word, literal_bytes, word_bytes};
use vstd::prelude::*;
use vstd::string::is_ascii;

verus! {

/// Where a replica finds its master.
pub struct ServerAddr {
    pub _ip: String,
    pub _port: u16,
}

impl ServerAddr {
    /// The address with this host and this port.
    pub fn new(_ip: String, _port: u16) -> (a: Self)
        ensures
            a._ip == _ip,
            a._port == _port,
    {
        Self { _ip, _port }
    }
}

impl Clone for ServerAddr {
    fn clone(&self) -> (a: Self)
        ensures
            a._ip@ == self._ip@,
            a._port == self._port,
    {
        ServerAddr { _ip: self._ip.clone(), _port: self._port }
    }
}

/// The replication id that every master takes.
pub open spec fn default_replication_id() -> Seq<u8> {
    bytes_of("8371b4fb1155b71f4a04d3e1bc3e18c4a990aeeb"@)
}

/// The replication id is 40 hexadecimal characters.
pub proof fn lemma_replication_id()
    ensures
        default_replication_id().len() == 40,
        forall|i: int|
            0 <= i < 40 ==> {
                let c = #[trigger] default_replication_id()[i];
                48 <= c <= 57 || 97 <= c <= 102
            },
{
    reveal_strlit("8371b4fb1155b71f4a04d3e1bc3e18c4a990aeeb");
}

/// The connection `id` is among the replicas.
pub open spec fn knows(slots: Seq<ReplicaSlot>, id: u64) -> bool {
    exists|i: int| 0 <= i < slots.len() && slots[i].id == id
}

/// Where the connection `id` stands among the replicas.
pub open spec fn slot_of(slots: Seq<ReplicaSlot>, id: u64) -> int {
    choose|i: int| 0 <= i < slots.len() && slots[i].id == id
}

/// No connection stands twice among the replicas.
pub open spec fn distinct_slots(slots: Seq<ReplicaSlot>) -> bool {
    forall|i: int, j: int| 0 <= i < j < slots.len() ==> slots[i].id != slots[j].id
}

/// The replicas with `id` as a candidate at the end, unless it is known.
pub open spec fn with_candidate(slots: Seq<ReplicaSlot>, id: u64) -> Seq<ReplicaSlot> {
    if knows(slots, id) {
        slots
    } else {
        slots.push(ReplicaSlot { id, attached: false })
    }
}

/// The replicas with `id` attached, if it is known.
pub open spec fn with_attached(slots: Seq<ReplicaSlot>, id: u64) -> Seq<ReplicaSlot> {
    if knows(slots, id) {
        slots.update(slot_of(slots, id), ReplicaSlot { id, attached: true })
    } else {
        slots
    }
}

/// The replicas without `id`.
pub open spec fn without(slots: Seq<ReplicaSlot>, id: u64) -> Seq<ReplicaSlot> {
    if knows(slots, id) {
        slots.remove(slot_of(slots, id))
    } else {
        slots
    }
}

/// The attached replicas' connections, in the order in which they came:
/// where a propagated command is written.
pub open spec fn targets(slots: Seq<ReplicaSlot>) -> Seq<u64>
    decreases slots.len(),
{
    if slots.len() == 0 {
        Seq::empty()
    } else if slots.last().attached {
        targets(slots.drop_last()).push(slots.last().id)
    } else {
        targets(slots.drop_last())
    }
}

impl ServerModel {
    /// A master has its replication id, a replica has none; no connection
    /// stands twice among the replicas.
    pub open spec fn wf(self) -> bool {
        &&& self.role == Role::Master ==> self.replication_id == default_replication_id()
        &&& self.role == Role::Slave ==> self.replication_id == Seq::<u8>::empty()
        &&& distinct_slots(self.replicas)
    }
}

/// What the engine hands back for one command: the reply, and on a master
/// the bytes to write to every attached replica.
pub struct Effect {
    pub reply: RespType,
    pub propagate: Option<Vec<u8>>,
}

/// The bytes of an optional byte string.
pub open spec fn optional_bytes(o: Option<Vec<u8>>) -> Option<Seq<u8>> {
    match o {
        Some(b) => Some(b@),
        None => None,
    }
}

/// The state `m` and the effect `e` are what the request did.
pub open spec fn carries(m: ServerModel, e: Effect, a: Applied) -> bool {
    &&& m == a.state
    &&& e.reply@ == a.reply
    &&& optional_bytes(e.propagate) == a.propagate
}

/// One server's state: the store, the role, the replication id and offset,
/// and on a master the replicas.
pub struct ServerState {
    store: Store,
    replication_id: Option<Vec<u8>>,
    replication_offset: u64,
    _port: u16,
    replica_of: Option<ServerAddr>,
    slave_servers: Vec<ReplicaSlot>,
}

impl View for ServerState {
    type V = ServerModel;

    closed spec fn view(&self) -> ServerModel {
        ServerModel {
            role: if self.replica_of is Some {
                Role::Slave
            } else {
                Role::Master
            },
            replication_id: match self.replication_id {
                Some(id) => id@,
                None => Seq::empty(),
            },
            offset: self.replication_offset,
            store: self.store@,
            replicas: self.slave_servers@,
        }
    }
}

/// An effect that is a reply alone.
fn reply_only(reply: RespType) -> (e: Effect)
    ensures
        e.reply == reply,
        e.propagate is None,
{
    Effect { reply, propagate: None }
}

/// The error frame for a refused command.
fn reject(e: CommandError) -> (r: Effect)
    ensures
        r.reply@ == refusal(e),
        r.propagate is None,
{
    reply_only(RespType::Error(literal_bytes(e.message())))
}

/// The reply `+OK`.
fn reply_ok() -> (r: RespType)
    ensures
        r@ == ok(),
{
    proof {
        reveal_strlit("OK");
    }
    RespType::SimpleString(literal_bytes("OK"))
}

/// A bulk string with the bytes of an ASCII text.
pub fn bulk_word(word: &str) -> (r: RespType)
    requires
        is_ascii(word),
    ensures
        r@ == Frame::Bulk(bytes_of(word@)),
{
    RespType::BulkString(literal_bytes(word))
}

impl ServerState {
    /// The store holds no key twice, and the state is that of a master
    /// with its id or of a replica without one.
    pub closed spec fn wf(&self) -> bool {
        &&& self.store.wf()
        &&& self@.wf()
        &&& self.replica_of is None <==> self.replication_id is Some
    }

    /// The port that the server listens on.
    pub closed spec fn port(&self) -> u16 {
        self._port
    }

    /// The master's address, on a replica.
    pub closed spec fn master(&self) -> Option<ServerAddr> {
        self.replica_of
    }

    /// A server with an empty store: a replica of the master at
    /// `replica_of` where one is given, a master with the fixed replication
    /// id and offset 0 where none is.
    pub fn new(port: u16, replica_of: Option<ServerAddr>) -> (s: Self)
        ensures
            s.wf(),
            s.port() == port,
            s.master() == replica_of,
            s@ == (ServerModel {
                role: if replica_of is Some {
                    Role::Slave
                } else {
                    Role::Master
                },
                replication_id: if replica_of is Some {
                    Seq::empty()
                } else {
                    default_replication_id()
                },
                offset: 0,
                store: Map::empty(),
                replicas: Seq::empty(),
            }),
    {
        let repl_id: Option<Vec<u8>> = match replica_of {
            Some(_) => None,
            None => {
                proof {
                    reveal_strlit("8371b4fb1155b71f4a04d3e1bc3e18c4a990aeeb");
                }
                Some(literal_bytes("8371b4fb1155b71f4a04d3e1bc3e18c4a990aeeb"))
            },
        };
        let s = ServerState {
            store: Store::new(),
            replication_id: repl_id,
            replication_offset: 0,
            _port: port,
            replica_of,
            slave_servers: Vec::new(),
        };
        proof {
            assert(s@.replicas =~= Seq::<ReplicaSlot>::empty());
        }
        s
    }

    /// The server's role.
    pub fn get_role(&self) -> (r: Role)
        ensures
            r == self@.role,
    {
        match self.replica_of {
            Some(_) => Role::Slave,
            None => Role::Master,
        }
    }

    /// The master's address, on a replica.
    pub fn get_replica_of(&self) -> (r: Option<ServerAddr>)
        ensures
            r is Some <==> self@.role == Role::Slave,
            r is Some <==> self.master() is Some,
            r matches Some(a) ==> a._ip@ == self.master()->0._ip@ && a._port
                == self.master()->0._port,
    {
        match &self.replica_of {
            Some(a) => Some(a.clone()),
            None => None,
        }
    }

    /// The replication offset.
    pub fn get_offset(&self) -> (r: u64)
        ensures
            r == self@.offset,
    {
        self.replication_offset
    }

    /// Where the connection `conn` stands among the replicas.
    fn find_slot(&self, conn: u64) -> (r: Option<usize>)
        requires
            self.wf(),
        ensures
            match r {
                Some(i) => i < self@.replicas.len() && self@.replicas[i as int].id == conn
                    && slot_of(self@.replicas, conn) == i && knows(self@.replicas, conn),
                None => !knows(self@.replicas, conn),
            },
    {
        let mut i: usize = 0;
        while i < self.slave_servers.len()
            invariant
                self.wf(),
                i <= self.slave_servers@.len(),
                forall|k: int| 0 <= k < i ==> self.slave_servers@[k].id != conn,
            decreases self.slave_servers@.len() - i,
        {
            if self.slave_servers[i].id == conn {
                proof {
                    let slots = self@.replicas;
                    assert(slots[i as int].id == conn);
                    assert(knows(slots, conn));
                    let j = slot_of(slots, conn);
                    assert(0 <= j < slots.len() && slots[j].id == conn);
                    assert(distinct_slots(slots));
                    if j < i {
                        assert(slots[j].id != slots[i as int].id);
                    }
                    if i < j {
                        assert(slots[i as int].id != slots[j].id);
                    }
                }
                return Some(i);
            }
            i = i + 1;
        }
        None
    }

    /// Takes the connection `conn` as a candidate replica, behind the ones
    /// already known. A connection that is known stays where it is.
    pub fn retain_slave(&mut self, conn: u64)
        requires
            old(self).wf(),
        ensures
            final(self).wf(),
            final(self)@ == (ServerModel {
                replicas: with_candidate(old(self)@.replicas, conn),
                ..old(self)@
            }),
    {
        match self.find_slot(conn) {
            Some(_) => {},
            None => {
                self.slave_servers.push(ReplicaSlot { id: conn, attached: false });
            },
        }
    }

    /// Attaches the candidate `conn`: from now on it is written every
    /// propagated command. It is called once the snapshot has been handed
    /// out for that connection.
    pub fn attach_slave(&mut self, conn: u64)
        requires
            old(self).wf(),
        ensures
            final(self).wf(),
            final(self)@ == (ServerModel {
                replicas: with_attached(old(self)@.replicas, conn),
                ..old(self)@
            }),
    {
        match self.find_slot(conn) {
            Some(i) => {
                self.slave_servers.set(i, ReplicaSlot { id: conn, attached: true });
                proof {
                    let before = old(self)@.replicas;
                    let after = self@.replicas;
                    assert forall|a: int, b: int| 0 <= a < b < after.len() implies after[a].id
                        != after[b].id by {
                        assert(after[a].id == before[a].id);
                        assert(after[b].id == before[b].id);
                    }
                }
            },
            None => {},
        }
    }

    /// Forgets the replica `conn`: its connection was closed, or a write
    /// to it failed.
    pub fn drop_slave(&mut self, conn: u64)
        requires
            old(self).wf(),
        ensures
            final(self).wf(),
            final(self)@ == (ServerModel {
                replicas: without(old(self)@.replicas, conn),
                ..old(self)@
            }),
    {
        match self.find_slot(conn) {
            Some(i) => {
                self.slave_servers.remove(i);
                proof {
                    let before = old(self)@.replicas;
                    let after = self@.replicas;
                    assert forall|a: int, b: int| 0 <= a < b < after.len() implies after[a].id
                        != after[b].id by {
                        let a1 = if a < i { a } else { a + 1 };
                        let b1 = if b < i { b } else { b + 1 };
                        assert(after[a] == before[a1]);
                        assert(after[b] == before[b1]);
                    }
                }
            },
            None => {},
        }
    }

    /// The connections of the attached replicas, in the order in which
    /// they came.
    pub fn attached_slaves(&self) -> (r: Vec<u64>)
        ensures
            r@ == targets(self@.replicas),
    {
        let mut out: Vec<u64> = Vec::new();
        let mut i: usize = 0;
        proof {
            assert(self.slave_servers@.take(0) =~= Seq::<ReplicaSlot>::empty());
        }
        while i < self.slave_servers.len()
            invariant
                i <= self.slave_servers@.len(),
                out@ == targets(self.slave_servers@.take(i as int)),
            decreases self.slave_servers@.len() - i,
        {
            proof {
                let next = self.slave_servers@.take(i + 1);
                assert(next.drop_last() =~= self.slave_servers@.take(i as int));
                assert(next.last() == self.slave_servers@[i as int]);
            }
            if self.slave_servers[i].attached {
                out.push(self.slave_servers[i].id);
            }
            i = i + 1;
        }
        proof {
            assert(self.slave_servers@.take(i as int) =~= self.slave_servers@);
        }
        out
    }

    /// Counts `n` more bytes of the master's stream as applied. Where the
    /// offset would leave 64 bits nothing changes, and the answer is
    /// `false`.
    pub fn advance_offset(&mut self, n: usize) -> (done: bool)
        requires
            old(self).wf(),
        ensures
            final(self).wf(),
            done == (old(self)@.offset + n <= u64::MAX),
            done ==> final(self)@ == (ServerModel {
                offset: (old(self)@.offset + n) as u64,
                ..old(self)@
            }),
            !done ==> final(self)@ == old(self)@,
    {
        if n as u64 > u64::MAX - self.replication_offset {
            false
        } else {
            self.replication_offset = self.replication_offset + n as u64;
            true
        }
    }

    /// Removes every entry that has expired at `now`. No answer of the
    /// server depends on it: an expired entry is absent, swept or not.
    pub fn check_expiry(&mut self, now: u64)
        requires
            old(self).wf(),
        ensures
            final(self).wf(),
            final(self)@ == (ServerModel {
                store: live_part(old(self)@.store, now),
                ..old(self)@
            }),
    {
        self.store.sweep(now);
    }

    /// Runs the command that `resp` holds at the instant `now`, a count of
    /// milliseconds on a clock that never runs backwards.
    pub fn execute_resp(&mut self, resp: RespType, now: u64) -> (e: Effect)
        requires
            old(self).wf(),
        ensures
            final(self).wf(),
            carries(final(self)@, e, apply(old(self)@, classify(resp@), now)),
    {
        self.execute_frame(&resp, now)
    }

    /// As `execute_resp`, on a frame that the caller keeps.
    pub fn execute_frame(&mut self, resp: &RespType, now: u64) -> (e: Effect)
        requires
            old(self).wf(),
        ensures
            final(self).wf(),
            carries(final(self)@, e, apply(old(self)@, classify(resp@), now)),
    {
        match resp {
            RespType::Array(arr) => self.execute_array(arr, now),
            _ => reject(CommandError::UnknownCommand),
        }
    }

    /// Runs the command that the elements of an array hold: the first
    /// names it, in any ASCII case.
    pub fn execute_array(&mut self, arr: &Vec<RespType>, now: u64) -> (e: Effect)
        requires
            old(self).wf(),
        ensures
            final(self).wf(),
            carries(final(self)@, e, apply(old(self)@, classify_array(models(arr@)), now)),
    {
        proof {
            lemma_models(arr@);
            reveal_strlit("ping");
            reveal_strlit("echo");
            reveal_strlit("set");
            reveal_strlit("get");
            reveal_strlit("info");
            reveal_strlit("replconf");
            reveal_strlit("psync");
            reveal_strlit("command");
            reveal_strlit("PONG");
        }
        if arr.len() == 0 {
            return reject(CommandError::UnknownCommand);
        }
        let name: &Vec<u8> = match &arr[0] {
            RespType::BulkString(s) => s,
            _ => {
                return reject(CommandError::UnknownCommand);
            },
        };
        if is_word(name.as_slice(), "ping") {
            if arr.len() == 1 {
                reply_only(RespType::SimpleString(literal_bytes("PONG")))
            } else {
                reject(CommandError::WrongArity)
            }
        } else if is_word(name.as_slice(), "echo") {
            if arr.len() != 2 {
                return reject(CommandError::WrongArity);
            }
            match &arr[1] {
                RespType::BulkString(s) => reply_only(
                    RespType::BulkString(copy_bytes(s.as_slice())),
                ),
                _ => reject(CommandError::BadValue),
            }
        } else if is_word(name.as_slice(), "set") {
            self.handle_set(arr, now)
        } else if is_word(name.as_slice(), "get") {
            self.handle_get(arr, now)
        } else if is_word(name.as_slice(), "info") {
            self.handle_info(arr)
        } else if is_word(name.as_slice(), "replconf") {
            self.handle_replconf(arr)
        } else if is_word(name.as_slice(), "psync") {
            self.handle_psync(arr)
        } else if is_word(name.as_slice(), "command") {
            reject(CommandError::NotImplemented)
        } else {
            reject(CommandError::UnknownCommand)
        }
    }

    /// `SET key value [PX milliseconds]`.
    pub fn handle_set(&mut self, arr: &Vec<RespType>, now: u64) -> (e: Effect)
        requires
            old(self).wf(),
        ensures
            final(self).wf(),
            carries(final(self)@, e, apply(old(self)@, classify_set(models(arr@)), now)),
    {
        proof {
            lemma_models(arr@);
            reveal_strlit("px");
        }
        if arr.len() != 3 && arr.len() != 5 {
            return reject(CommandError::WrongArity);
        }
        let key: &Vec<u8> = match &arr[1] {
            RespType::BulkString(s) => s,
            _ => {
                return reject(CommandError::BadKey);
            },
        };
        let value: &Vec<u8> = match &arr[2] {
            RespType::BulkString(s) => s,
            _ => {
                return reject(CommandError::BadValue);
            },
        };
        let mut ttl: Option<u64> = None;
        if arr.len() == 5 {
            match &arr[3] {
                RespType::BulkString(option) => {
                    if !is_word(option.as_slice(), "px") {
                        return reject(CommandError::BadOption);
                    }
                },
                _ => {
                    return reject(CommandError::BadOption);
                },
            }
            match &arr[4] {
                RespType::BulkString(text) => {
                    match read_u64(text.as_slice()) {
                        Some(t) => {
                            ttl = Some(t);
                        },
                        None => {
                            return reject(CommandError::BadExpiry);
                        },
                    }
                },
                _ => {
                    return reject(CommandError::BadExpiry);
                },
            }
        }
        if let Some(t) = ttl {
            if t > u64::MAX - now {
                return reject(CommandError::ExpiryOverflow);
            }
        }
        let propagate: Option<Vec<u8>> = match self.get_role() {
            Role::Slave => None,
            Role::Master => {
                match self.propagate_set(key.as_slice(), value.as_slice(), ttl) {
                    Some(bytes) => Some(bytes),
                    None => {
                        return reject(CommandError::OffsetOverflow);
                    },
                }
            },
        };
        let written = self.store.set(
            copy_bytes(key.as_slice()),
            copy_bytes(value.as_slice()),
            ttl,
            now,
        );
        Effect { reply: reply_ok(), propagate }
    }

    /// `GET key`.
    pub fn handle_get(&mut self, arr: &Vec<RespType>, now: u64) -> (e: Effect)
        requires
            old(self).wf(),
        ensures
            final(self).wf(),
            carries(final(self)@, e, apply(old(self)@, classify_get(models(arr@)), now)),
    {
        proof {
            lemma_models(arr@);
        }
        if arr.len() != 2 {
            return reject(CommandError::WrongArity);
        }
        let key: &Vec<u8> = match &arr[1] {
            RespType::BulkString(s) => s,
            _ => {
                return reject(CommandError::BadKey);
            },
        };
        match self.store.get(key.as_slice(), now) {
            Some(value) => reply_only(RespType::BulkString(value)),
            None => reply_only(RespType::NullBulkString),
        }
    }

    /// `INFO replication`.
    pub fn handle_info(&self, arr: &Vec<RespType>) -> (e: Effect)
        requires
            self.wf(),
        ensures
            forall|now: u64|
                carries(
                    self@,
                    e,
                    #[trigger] apply(self@, classify_info(models(arr@)), now),
                ),
    {
        proof {
            lemma_models(arr@);
            reveal_strlit("replication");
            reveal_strlit("role:");
            reveal_strlit("\nmaster_replid:");
            reveal_strlit("\nmaster_repl_offset:");
            reveal_strlit("master");
            reveal_strlit("slave");
        }
        if arr.len() != 2 {
            return reject(CommandError::WrongArity);
        }
        match &arr[1] {
            RespType::BulkString(section) => {
                if !is_word(section.as_slice(), "replication") {
                    return reject(CommandError::BadSubcommand);
                }
            },
            _ => {
                return reject(CommandError::BadSubcommand);
            },
        }
        let role = self.get_role();
        let mut text: Vec<u8> = Vec::new();
        push_bytes(&mut text, word_bytes("role:"));
        push_bytes(&mut text, word_bytes(role.as_str()));
        if let Some(id) = &self.replication_id {
            push_bytes(&mut text, word_bytes("\nmaster_replid:"));
            push_bytes(&mut text, id.as_slice());
            push_bytes(&mut text, word_bytes("\nmaster_repl_offset:"));
            push_decimal(&mut text, self.replication_offset);
        }
        proof {
            assert(text@ =~= info_text(self@));
        }
        reply_only(RespType::BulkString(text))
    }

    /// `REPLCONF listening-port <port>`, `REPLCONF capa psync2` and
    /// `REPLCONF GETACK *`.
    pub fn handle_replconf(&self, arr: &Vec<RespType>) -> (e: Effect)
        requires
            self.wf(),
        ensures
            forall|now: u64|
                carries(
                    self@,
                    e,
                    #[trigger] apply(self@, classify_replconf(models(arr@)), now),
                ),
    {
        proof {
            lemma_models(arr@);
            reveal_strlit("listening-port");
            reveal_strlit("capa");
            reveal_strlit("psync2");
            reveal_strlit("getack");
            reveal_strlit("*");
            reveal_strlit("REPLCONF");
            reveal_strlit("ACK");
        }
        if arr.len() != 3 {
            return reject(CommandError::WrongArity);
        }
        let sub: &Vec<u8> = match &arr[1] {
            RespType::BulkString(s) => s,
            _ => {
                return reject(CommandError::BadSubcommand);
            },
        };
        if is_word(sub.as_slice(), "listening-port") {
            match &arr[2] {
                RespType::BulkString(text) => {
                    match read_u64(text.as_slice()) {
                        Some(port) => {
                            if port <= 65535 {
                                reply_only(reply_ok())
                            } else {
                                reject(CommandError::BadPort)
                            }
                        },
                        None => reject(CommandError::BadPort),
                    }
                },
                _ => reject(CommandError::BadPort),
            }
        } else if is_word(sub.as_slice(), "capa") {
            match &arr[2] {
                RespType::BulkString(capa) => {
                    if is_word(capa.as_slice(), "psync2") {
                        reply_only(reply_ok())
                    } else {
                        reject(CommandError::UnknownCapability)
                    }
                },
                _ => reject(CommandError::BadCapa),
            }
        } else if is_word(sub.as_slice(), "getack") {
            match &arr[2] {
                RespType::BulkString(what) => {
                    if is_text(what.as_slice(), "*") {
                        let mut offset: Vec<u8> = Vec::new();
                        push_decimal(&mut offset, self.replication_offset);
                        let mut items: Vec<RespType> = Vec::new();
                        items.push(bulk_word("REPLCONF"));
                        items.push(bulk_word("ACK"));
                        items.push(RespType::BulkString(offset));
                        proof {
                            lemma_models(items@);
                            assert(offset@ =~= digits(self@.offset as nat));
                            assert(models(items@) =~= ack(self@.offset)->Array_0);
                        }
                        reply_only(RespType::Array(items))
                    } else {
                        reject(CommandError::BadArgument)
                    }
                },
                _ => reject(CommandError::BadArgument),
            }
        } else {
            reject(CommandError::BadSubcommand)
        }
    }

    /// `PSYNC ? -1`: a master answers with its id and offset.
    pub fn handle_psync(&self, arr: &Vec<RespType>) -> (e: Effect)
        requires
            self.wf(),
        ensures
            forall|now: u64|
                carries(self@, e, #[trigger] apply(self@, classify_psync(models(arr@)), now)),
    {
        proof {
            lemma_models(arr@);
            reveal_strlit("FULLRESYNC ");
            reveal_strlit(" ");
        }
        if arr.len() != 3 {
            return reject(CommandError::WrongArity);
        }
        match (&arr[1], &arr[2]) {
            (RespType::BulkString(_), RespType::BulkString(_)) => {},
            _ => {
                return reject(CommandError::BadValue);
            },
        }
        match &self.replication_id {
            None => reject(CommandError::NotMaster),
            Some(id) => {
                let mut line: Vec<u8> = Vec::new();
                push_bytes(&mut line, word_bytes("FULLRESYNC "));
                push_bytes(&mut line, id.as_slice());
                push_bytes(&mut line, word_bytes(" "));
                push_decimal(&mut line, self.replication_offset);
                proof {
                    assert(line@ =~= fullresync_line(self@));
                }
                reply_only(RespType::SimpleString(line))
            },
        }
    }

    /// Makes the form in which a `SET` goes to the replicas, and counts
    /// its bytes in the replication offset. Where the offset would leave
    /// 64 bits nothing changes, and nothing is handed out.
    pub fn propagate_set(&mut self, key: &[u8], value: &[u8], expiry: Option<u64>) -> (r: Option<
        Vec<u8>,
    >)
        requires
            old(self).wf(),
        ensures
            final(self).wf(),
            match r {
                Some(bytes) => {
                    &&& bytes@ == canonical_set(key@, value@, expiry).wire()
                    &&& old(self)@.offset + bytes@.len() <= u64::MAX
                    &&& final(self)@ == (ServerModel {
                        offset: (old(self)@.offset + bytes@.len()) as u64,
                        ..old(self)@
                    })
                },
                None => {
                    &&& old(self)@.offset + canonical_set(key@, value@, expiry).wire().len()
                        > u64::MAX
                    &&& final(self)@ == old(self)@
                },
            },
    {
        proof {
            reveal_strlit("SET");
            reveal_strlit("PX");
        }
        let mut cmd: Vec<RespType> = Vec::new();
        cmd.push(bulk_word("SET"));
        cmd.push(RespType::BulkString(copy_bytes(key)));
        cmd.push(RespType::BulkString(copy_bytes(value)));
        match expiry {
            Some(time) => {
                let mut text: Vec<u8> = Vec::new();
                push_decimal(&mut text, time);
                cmd.push(bulk_word("PX"));
                cmd.push(RespType::BulkString(text));
                proof {
                    assert(text@ =~= digits(time as nat));
                }
            },
            None => {},
        }
        proof {
            lemma_models(cmd@);
            assert(models(cmd@) =~= canonical_set(key@, value@, expiry)->Array_0);
        }
        let serialized_command: Vec<u8> = RespType::Array(cmd).to_resp_string();
        if serialized_command.len() as u64 > u64::MAX - self.replication_offset {
            return None;
        }
        self.replication_offset = self.replication_offset + serialized_command.len() as u64;
        Some(serialized_command)
    }
}

} // verus!
