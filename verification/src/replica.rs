//! The replica's side of replication: the handshake with the master, the
//! snapshot that follows it, and the commands that the master then sends.
//! The caller connects, reads and writes; this module decides what to send
//! and what to do with what came.

use crate::command::{apply, classify, ok, ServerModel};
use crate::connection::is_fullresync;
use crate::decimal::{
    digits, lemma_digits_injective, lemma_signed_digits_bytes, push_decimal, signed_digits,
};
use crate::decode::{decode, lemma_wire_shape, Decoded};
use crate::frame::{crlf, is_line, Frame};
use crate::parser::{
    copy_bytes, lemma_models, models, parse_value, push_bytes, read_number_line, ParseError,
    RespType,
};
use crate::reading::{
    header_fits, lemma_complete_decodes, lemma_line_unique, lemma_prefix_join,
    lemma_prefix_split, lemma_rest_join, lemma_rest_prefix, precedes,
};
use crate::server::{bulk_word, ServerState};
use crate::snapshot::snapshot_header;
use crate::text::{bytes_of, is_text, is_word, lemma_same_word_len, starts_with, word_bytes};
use vstd::prelude::*;
use vstd::slice::slice_subrange;

verus! {

/// Where the link to the master stands. Each state but the last two waits
/// for one thing from the master.
#[derive(Debug, Clone, Copy, PartialEq, Eq, Structural)]
pub enum LinkState {
    /// Not yet connected.
    Connecting,
    /// `PING` sent: waits for `+PONG`.
    Pinging,
    /// `REPLCONF listening-port` sent: waits for `+OK`.
    RegisteringPort,
    /// `REPLCONF capa psync2` sent: waits for `+OK`.
    AdvertisingCapa,
    /// `PSYNC ? -1` sent: waits for `+FULLRESYNC ...`.
    RequestingSync,
    /// Waits for the snapshot: `$`, its length, CRLF, and that many bytes.
    ReceivingSnapshot,
    /// Applies the commands that the master sends.
    Applying,
    /// Given up: the master sent what was not expected.
    Closed,
}

/// The link as a mathematical value.
pub struct LinkModel {
    pub state: LinkState,
    /// The bytes that came from the master and are not yet dealt with.
    pub buffer: Seq<u8>,
    /// The port on which this replica listens.
    pub port: u16,
}

/// `PING`, the first request of the handshake.
pub open spec fn ping_request() -> Frame {
    Frame::Array(seq![Frame::Bulk(bytes_of("PING"@))])
}

/// `REPLCONF listening-port <port>`.
pub open spec fn port_request(port: u16) -> Frame {
    Frame::Array(
        seq![
            Frame::Bulk(bytes_of("REPLCONF"@)),
            Frame::Bulk(bytes_of("listening-port"@)),
            Frame::Bulk(digits(port as nat)),
        ],
    )
}

/// `REPLCONF capa psync2`.
pub open spec fn capa_request() -> Frame {
    Frame::Array(
        seq![
            Frame::Bulk(bytes_of("REPLCONF"@)),
            Frame::Bulk(bytes_of("capa"@)),
            Frame::Bulk(bytes_of("psync2"@)),
        ],
    )
}

/// `PSYNC ? -1`.
pub open spec fn psync_request() -> Frame {
    Frame::Array(
        seq![
            Frame::Bulk(bytes_of("PSYNC"@)),
            Frame::Bulk(bytes_of("?"@)),
            Frame::Bulk(bytes_of("-1"@)),
        ],
    )
}

/// One step of the handshake: the state after the master's reply, and the
/// bytes to send next. Any reply but the expected one closes the link.
pub open spec fn handshake_step(state: LinkState, reply: Frame, port: u16) -> (LinkState, Seq<u8>) {
    match state {
        LinkState::Pinging => if reply == Frame::Simple(bytes_of("PONG"@)) {
            (LinkState::RegisteringPort, port_request(port).wire())
        } else {
            (LinkState::Closed, Seq::empty())
        },
        LinkState::RegisteringPort => if reply == ok() {
            (LinkState::AdvertisingCapa, capa_request().wire())
        } else {
            (LinkState::Closed, Seq::empty())
        },
        LinkState::AdvertisingCapa => if reply == ok() {
            (LinkState::RequestingSync, psync_request().wire())
        } else {
            (LinkState::Closed, Seq::empty())
        },
        LinkState::RequestingSync => if is_fullresync(reply) {
            (LinkState::ReceivingSnapshot, Seq::empty())
        } else {
            (LinkState::Closed, Seq::empty())
        },
        _ => (LinkState::Closed, Seq::empty()),
    }
}

/// The states in which the link waits for a reply of the handshake.
pub open spec fn in_handshake(state: LinkState) -> bool {
    state is Pinging || state is RegisteringPort || state is AdvertisingCapa
        || state is RequestingSync
}

/// `b` starts with a whole snapshot of `n` bytes: its header line and the
/// bytes. No CRLF is asked for behind them.
pub open spec fn snapshot_at(b: Seq<u8>, n: nat) -> bool {
    &&& n <= u64::MAX
    &&& snapshot_header(n).is_prefix_of(b)
    &&& b.len() >= snapshot_header(n).len() + n
}

/// `b` is the start of a snapshot of `n` bytes and stops short of its end.
pub open spec fn snapshot_starts(b: Seq<u8>, n: nat) -> bool {
    &&& n <= u64::MAX
    &&& (precedes(b, snapshot_header(n)) || (snapshot_header(n).is_prefix_of(b) && b.len()
        < snapshot_header(n).len() + n))
}

/// The three ways in which reading the snapshot can end.
pub enum SnapshotRead {
    /// The snapshot is there and takes this many bytes.
    Complete(nat),
    NeedMore,
    ProtocolError,
}

/// The reading of a snapshot off the front of `b`.
pub open spec fn snapshot_read(b: Seq<u8>) -> SnapshotRead {
    if exists|n: nat| snapshot_at(b, n) {
        let n = choose|n: nat| snapshot_at(b, n);
        SnapshotRead::Complete(snapshot_header(n).len() + n)
    } else if exists|n: nat| snapshot_starts(b, n) {
        SnapshotRead::NeedMore
    } else {
        SnapshotRead::ProtocolError
    }
}

/// A snapshot's header line is `$`, then a line of digits that fits what
/// follows the `$`.
proof fn lemma_snapshot_line(b: Seq<u8>, n: nat)
    requires
        b.len() > 0,
        n <= u64::MAX,
        snapshot_header(n).is_prefix_of(b) || b.is_prefix_of(snapshot_header(n)),
    ensures
        b[0] == 36,
        header_fits(b.skip(1), digits(n)),
        forall|k: int| 0 <= k < digits(n).len() ==> #[trigger] digits(n)[k] != 13 && digits(n)[k]
            != 10,
        snapshot_header(n).is_prefix_of(b) <==> (digits(n) + crlf()).is_prefix_of(b.skip(1)),
        snapshot_header(n).len() == digits(n).len() + 3,
{
    lemma_signed_digits_bytes(n as int);
    let h = snapshot_header(n);
    let line = digits(n) + crlf();
    let head = seq![36u8];
    assert(h =~= head + line);
    let p = b.skip(1);
    if h.is_prefix_of(b) {
        lemma_prefix_split(head, line, b);
        assert(head == b.subrange(0, 1));
        assert(head[0] == b[0]);
    } else {
        assert(b == h.subrange(0, b.len() as int));
        assert(b[0] == h[0]);
        assert(head.is_prefix_of(b)) by {
            assert(head =~= b.subrange(0, 1));
        }
        lemma_rest_prefix(head, line, b);
    }
    if line.is_prefix_of(p) {
        assert(head.is_prefix_of(b)) by {
            assert(head =~= b.subrange(0, 1));
        }
        lemma_prefix_join(head, line, b);
    }
}

/// A snapshot has one reading.
pub proof fn lemma_snapshot_unique(b: Seq<u8>, n: nat, m: nat)
    requires
        snapshot_at(b, n),
        snapshot_at(b, m) || snapshot_starts(b, m),
    ensures
        n == m,
        snapshot_at(b, m),
{
    lemma_snapshot_line(b, n);
    if b.len() > 0 {
        lemma_snapshot_line(b, m);
        let p = b.skip(1);
        assert(is_line(digits(n)));
        assert(is_line(digits(m)));
        lemma_line_unique(p, digits(n), digits(m));
        lemma_digits_injective(n, m);
    }
}

/// The reading of bytes that start with a whole snapshot, or with the
/// start of one.
pub proof fn lemma_snapshot_read(b: Seq<u8>, n: nat)
    ensures
        snapshot_at(b, n) ==> snapshot_read(b) == SnapshotRead::Complete(
            snapshot_header(n).len() + n,
        ),
        snapshot_starts(b, n) ==> snapshot_read(b) == SnapshotRead::NeedMore,
{
    if snapshot_at(b, n) {
        let m = choose|m: nat| snapshot_at(b, m);
        lemma_snapshot_unique(b, n, m);
    }
    if snapshot_starts(b, n) {
        if exists|m: nat| snapshot_at(b, m) {
            let m = choose|m: nat| snapshot_at(b, m);
            lemma_snapshot_unique(b, m, n);
        }
    }
}

/// A reader's result as a reading of the snapshot.
pub open spec fn snapshot_outcome(r: Result<usize, ParseError>) -> SnapshotRead {
    match r {
        Ok(used) => SnapshotRead::Complete(used as nat),
        Err(ParseError::NeedMore) => SnapshotRead::NeedMore,
        Err(ParseError::Protocol) => SnapshotRead::ProtocolError,
    }
}

/// Reads the snapshot off the front of `input`: `$`, the length, CRLF, and
/// that many bytes, with no CRLF behind them. It gives the number of bytes
/// that the snapshot takes; what follows them is not looked at.
pub fn parse_rdb_bulk(input: &[u8]) -> (r: Result<usize, ParseError>)
    ensures
        snapshot_outcome(r) == snapshot_read(input@),
        r matches Ok(used) ==> used <= input@.len(),
{
    let ghost b = input@;
    if input.len() == 0 {
        proof {
            assert(b =~= snapshot_header(0).subrange(0, 0));
            lemma_snapshot_read(b, 0);
        }
        return Err(ParseError::NeedMore);
    }
    let ghost p = b.skip(1);
    if input[0] != 36 {
        proof {
            assert forall|n: nat| !snapshot_at(b, n) && !snapshot_starts(b, n) by {
                if snapshot_at(b, n) || snapshot_starts(b, n) {
                    lemma_snapshot_line(b, n);
                }
            }
        }
        return Err(ParseError::Protocol);
    }
    let line = read_number_line(slice_subrange(input, 1, input.len()), 0, 18446744073709551615i128);
    proof {
        assert(input@.subrange(1, input@.len() as int) =~= p);
    }
    match line {
        Ok((n, used)) => {
            let start: usize = used + 1;
            proof {
                let head = seq![36u8];
                assert(head.is_prefix_of(b)) by {
                    assert(head =~= b.subrange(0, 1));
                }
                lemma_prefix_join(head, digits(n as nat) + crlf(), b);
                assert(snapshot_header(n as nat) =~= head + (digits(n as nat) + crlf()));
                assert((digits(n as nat) + crlf()).len() <= p.len());
                lemma_snapshot_read(b, n as nat);
            }
            if ((input.len() - start) as i128) < n {
                Err(ParseError::NeedMore)
            } else {
                Ok(start + n as usize)
            }
        },
        Err(ParseError::NeedMore) => {
            proof {
                let i = choose|i: int|
                    0 <= i <= u64::MAX && precedes(
                        p,
                        #[trigger] signed_digits(i) + crlf(),
                    );
                let head = seq![36u8];
                assert(head.is_prefix_of(b)) by {
                    assert(head =~= b.subrange(0, 1));
                }
                lemma_rest_join(head, digits(i as nat) + crlf(), b);
                assert(snapshot_header(i as nat) =~= head + (digits(i as nat) + crlf()));
                lemma_snapshot_read(b, i as nat);
            }
            Err(ParseError::NeedMore)
        },
        Err(ParseError::Protocol) => {
            proof {
                assert forall|n: nat| !snapshot_at(b, n) && !snapshot_starts(b, n) by {
                    if snapshot_at(b, n) || snapshot_starts(b, n) {
                        lemma_snapshot_line(b, n);
                        assert(header_fits(p, signed_digits(n as int)));
                    }
                }
            }
            Err(ParseError::Protocol)
        },
    }
}

/// A whole snapshot takes some bytes, and no more than there are.
pub proof fn lemma_snapshot_complete(b: Seq<u8>, used: nat)
    requires
        snapshot_read(b) == SnapshotRead::Complete(used),
    ensures
        0 < used <= b.len(),
{
    let n = choose|n: nat| snapshot_at(b, n);
    assert(snapshot_at(b, n));
    assert(snapshot_header(n).len() >= 1);
}

/// What the link does with the bytes that came from the master: the
/// server's next state, the link's next state, the bytes that stay in the
/// buffer, and the bytes to send to the master.
pub struct LinkRun {
    pub state: ServerModel,
    pub link: LinkState,
    pub rest: Seq<u8>,
    pub send: Seq<u8>,
}

/// The link gives up: nothing stays in the buffer.
pub open spec fn given_up(m: ServerModel, send: Seq<u8>) -> LinkRun {
    LinkRun { state: m, link: LinkState::Closed, rest: Seq::empty(), send }
}

/// The link waits for more bytes.
pub open spec fn waiting(m: ServerModel, state: LinkState, b: Seq<u8>) -> LinkRun {
    LinkRun { state: m, link: state, rest: b, send: Seq::empty() }
}

/// The bytes that go back to the master for a command that it sent:
/// the reply to `REPLCONF GETACK *`, and nothing for any other command.
pub open spec fn answer_to_master(f: Frame, reply: Frame) -> Seq<u8> {
    if classify(f) is GetAck {
        reply.wire()
    } else {
        Seq::empty()
    }
}

/// One step of the link's work.
pub enum Step {
    /// Nothing more can be done with the bytes that are there.
    Stop(LinkRun),
    /// `used` bytes were dealt with, and `send` goes to the master.
    Go { state: ServerModel, link: LinkState, used: nat, send: Seq<u8> },
}

/// One step of the link's work on the bytes `b` at the instant `now`. In
/// the handshake a reply is met with the next request. Then the snapshot
/// is passed over. Then a frame is run as a command, the offset counted up
/// by the length of its bytes, and only `GETACK` is answered. Anything
/// unexpected in the handshake, bytes that start no frame, and an offset
/// that would leave 64 bits close the link.
#[verifier::opaque]
pub open spec fn link_step(m: ServerModel, state: LinkState, port: u16, b: Seq<u8>, now: u64)
    -> Step {
    if in_handshake(state) {
        match decode(b) {
            Decoded::Complete(f) => Step::Go {
                state: m,
                link: handshake_step(state, f, port).0,
                used: f.wire().len(),
                send: handshake_step(state, f, port).1,
            },
            Decoded::NeedMore => Step::Stop(waiting(m, state, b)),
            Decoded::ProtocolError => Step::Stop(given_up(m, Seq::empty())),
        }
    } else if state is ReceivingSnapshot {
        match snapshot_read(b) {
            SnapshotRead::Complete(used) => Step::Go {
                state: m,
                link: LinkState::Applying,
                used,
                send: Seq::empty(),
            },
            SnapshotRead::NeedMore => Step::Stop(waiting(m, state, b)),
            SnapshotRead::ProtocolError => Step::Stop(given_up(m, Seq::empty())),
        }
    } else if state is Applying {
        match decode(b) {
            Decoded::Complete(f) => {
                let a = apply(m, classify(f), now);
                let out = answer_to_master(f, a.reply);
                if a.state.offset + f.wire().len() > u64::MAX {
                    Step::Stop(given_up(a.state, out))
                } else {
                    Step::Go {
                        state: ServerModel {
                            offset: (a.state.offset + f.wire().len()) as u64,
                            ..a.state
                        },
                        link: LinkState::Applying,
                        used: f.wire().len(),
                        send: out,
                    }
                }
            },
            Decoded::NeedMore => Step::Stop(waiting(m, state, b)),
            Decoded::ProtocolError => Step::Stop(given_up(m, Seq::empty())),
        }
    } else if state is Closed {
        Step::Stop(given_up(m, Seq::empty()))
    } else {
        Step::Stop(waiting(m, state, b))
    }
}

/// A step that goes on has dealt with some bytes, and with no more than
/// there are.
pub proof fn lemma_step_used(m: ServerModel, state: LinkState, port: u16, b: Seq<u8>, now: u64)
    ensures
        link_step(m, state, port, b, now) matches Step::Go { used, .. } ==> 0 < used <= b.len(),
{
    reveal(link_step);
    if in_handshake(state) || state is Applying {
        if let Decoded::Complete(f) = decode(b) {
            lemma_complete_decodes(b, f);
            lemma_wire_shape(f);
        }
    } else if state is ReceivingSnapshot {
        if let SnapshotRead::Complete(used) = snapshot_read(b) {
            lemma_snapshot_complete(b, used);
        }
    }
}

/// The link's work on the bytes `b` at the instant `now`: step after step,
/// until a step stops.
pub open spec fn link_run(m: ServerModel, state: LinkState, port: u16, b: Seq<u8>, now: u64)
    -> LinkRun
    decreases b.len(),
{
    match link_step(m, state, port, b, now) {
        Step::Stop(r) => r,
        Step::Go { state: next, link, used, send } => {
            proof {
                lemma_step_used(m, state, port, b, now);
            }
            let r = link_run(next, link, port, b.skip(used as int), now);
            LinkRun { send: send + r.send, ..r }
        },
    }
}

/// Whether the frame is the command `REPLCONF GETACK *`.
pub fn is_getack(resp: &RespType) -> (r: bool)
    ensures
        r == (classify(resp@) is GetAck),
{
    proof {
        reveal_strlit("ping");
        reveal_strlit("echo");
        reveal_strlit("set");
        reveal_strlit("get");
        reveal_strlit("info");
        reveal_strlit("replconf");
        reveal_strlit("psync");
        reveal_strlit("command");
        reveal_strlit("listening-port");
        reveal_strlit("capa");
        reveal_strlit("getack");
        reveal_strlit("*");
    }
    if let RespType::Array(vec) = resp {
        proof {
            lemma_models(vec@);
        }
        if vec.len() == 3 {
            match (&vec[0], &vec[1], &vec[2]) {
                (
                    RespType::BulkString(cmd),
                    RespType::BulkString(sub),
                    RespType::BulkString(what),
                ) => {
                    if is_word(cmd.as_slice(), "replconf") && is_word(sub.as_slice(), "getack") {
                        proof {
                            lemma_same_word_len(cmd@, bytes_of("replconf"@));
                            lemma_same_word_len(cmd@, bytes_of("ping"@));
                            lemma_same_word_len(cmd@, bytes_of("echo"@));
                            lemma_same_word_len(cmd@, bytes_of("set"@));
                            lemma_same_word_len(cmd@, bytes_of("get"@));
                            lemma_same_word_len(cmd@, bytes_of("info"@));
                            lemma_same_word_len(sub@, bytes_of("getack"@));
                            lemma_same_word_len(sub@, bytes_of("listening-port"@));
                            lemma_same_word_len(sub@, bytes_of("capa"@));
                        }
                        return is_text(what.as_slice(), "*");
                    }
                },
                _ => {},
            }
        }
    }
    false
}

/// The link of a replica to its master.
pub struct ReplicaLink {
    state: LinkState,
    buffer: Vec<u8>,
    port: u16,
}

impl View for ReplicaLink {
    type V = LinkModel;

    closed spec fn view(&self) -> LinkModel {
        LinkModel { state: self.state, buffer: self.buffer@, port: self.port }
    }
}

impl ReplicaLink {
    /// The link of a replica that listens on `port`, before it connects.
    pub fn new(port: u16) -> (l: ReplicaLink)
        ensures
            l@ == (LinkModel { state: LinkState::Connecting, buffer: Seq::empty(), port }),
    {
        ReplicaLink { state: LinkState::Connecting, buffer: Vec::new(), port }
    }

    /// Where the link stands.
    pub fn state(&self) -> (s: LinkState)
        ensures
            s == self@.state,
    {
        self.state
    }

    /// Gives up the link: the connection failed or was closed.
    pub fn close(&mut self)
        ensures
            final(self)@ == (LinkModel {
                state: LinkState::Closed,
                buffer: Seq::empty(),
                port: old(self)@.port,
            }),
    {
        self.state = LinkState::Closed;
        self.buffer = Vec::new();
    }

    /// Opens the handshake once the connection stands: the bytes of `PING`
    /// to send, and the link waits for the reply. On a link that is not
    /// about to connect nothing happens.
    pub fn request_replication(&mut self) -> (send: Vec<u8>)
        ensures
            old(self)@.state is Connecting ==> final(self)@ == (LinkModel {
                state: LinkState::Pinging,
                ..old(self)@
            }) && send@ == ping_request().wire(),
            !(old(self)@.state is Connecting) ==> final(self)@ == old(self)@ && send@
                == Seq::<u8>::empty(),
    {
        match self.state {
            LinkState::Connecting => {
                proof {
                    reveal_strlit("PING");
                }
                let mut items: Vec<RespType> = Vec::new();
                items.push(bulk_word("PING"));
                proof {
                    lemma_models(items@);
                    assert(models(items@) =~= ping_request()->Array_0);
                }
                self.state = LinkState::Pinging;
                RespType::Array(items).to_resp_string()
            },
            _ => Vec::new(),
        }
    }

    /// Takes one reply of the handshake: the link moves on and the next
    /// request comes back, or the link closes. See `handshake_step`.
    pub fn handshake_reply(&mut self, reply: &RespType) -> (send: Vec<u8>)
        ensures
            final(self)@ == (LinkModel {
                state: handshake_step(old(self)@.state, reply@, old(self)@.port).0,
                ..old(self)@
            }),
            send@ == handshake_step(old(self)@.state, reply@, old(self)@.port).1,
    {
        proof {
            reveal_strlit("PONG");
            reveal_strlit("OK");
            reveal_strlit("FULLRESYNC ");
            reveal_strlit("REPLCONF");
            reveal_strlit("listening-port");
            reveal_strlit("capa");
            reveal_strlit("psync2");
            reveal_strlit("PSYNC");
            reveal_strlit("?");
            reveal_strlit("-1");
        }
        let line: Option<&Vec<u8>> = match reply {
            RespType::SimpleString(s) => Some(s),
            _ => None,
        };
        let mut items: Vec<RespType> = Vec::new();
        let next: LinkState = match (self.state, line) {
            (LinkState::Pinging, Some(s)) => {
                if is_text(s.as_slice(), "PONG") {
                    let mut text: Vec<u8> = Vec::new();
                    push_decimal(&mut text, self.port as u64);
                    items.push(bulk_word("REPLCONF"));
                    items.push(bulk_word("listening-port"));
                    items.push(RespType::BulkString(text));
                    proof {
                        lemma_models(items@);
                        assert(text@ =~= digits(self.port as nat));
                        assert(models(items@) =~= port_request(self.port)->Array_0);
                    }
                    LinkState::RegisteringPort
                } else {
                    LinkState::Closed
                }
            },
            (LinkState::RegisteringPort, Some(s)) => {
                if is_text(s.as_slice(), "OK") {
                    items.push(bulk_word("REPLCONF"));
                    items.push(bulk_word("capa"));
                    items.push(bulk_word("psync2"));
                    proof {
                        lemma_models(items@);
                        assert(models(items@) =~= capa_request()->Array_0);
                    }
                    LinkState::AdvertisingCapa
                } else {
                    LinkState::Closed
                }
            },
            (LinkState::AdvertisingCapa, Some(s)) => {
                if is_text(s.as_slice(), "OK") {
                    items.push(bulk_word("PSYNC"));
                    items.push(bulk_word("?"));
                    items.push(bulk_word("-1"));
                    proof {
                        lemma_models(items@);
                        assert(models(items@) =~= psync_request()->Array_0);
                    }
                    LinkState::RequestingSync
                } else {
                    LinkState::Closed
                }
            },
            (LinkState::RequestingSync, Some(s)) => {
                if starts_with(s.as_slice(), word_bytes("FULLRESYNC ")) {
                    LinkState::ReceivingSnapshot
                } else {
                    LinkState::Closed
                }
            },
            _ => LinkState::Closed,
        };
        self.state = next;
        if items.len() > 0 {
            RespType::Array(items).to_resp_string()
        } else {
            Vec::new()
        }
    }

    /// What one step of the exec code is to have done, against `link_step`.
    pub open spec fn stepped(
        step: Step,
        b: Seq<u8>,
        r: Option<usize>,
        state: ServerModel,
        link: LinkState,
        out: Seq<u8>,
    ) -> bool {
        match step {
            Step::Go { state: next, link: l, used, send } => r == Some(used as usize) && used
                <= usize::MAX && state == next && link == l && out == send,
            Step::Stop(run) => r is None && state == run.state && link == run.link && out
                == run.send && run.rest == (if run.link is Closed {
                Seq::<u8>::empty()
            } else {
                b
            }),
        }
    }

    /// A step of the handshake on the bytes from `at` on.
    fn step_handshake(&mut self, srv: &ServerState, at: usize) -> (r: (Option<usize>, Vec<u8>))
        requires
            at <= old(self)@.buffer.len(),
            in_handshake(old(self)@.state),
        ensures
            final(self)@.buffer == old(self)@.buffer,
            final(self)@.port == old(self)@.port,
            forall|now: u64|
                Self::stepped(
                    #[trigger] link_step(
                        srv@,
                        old(self)@.state,
                        old(self)@.port,
                        old(self)@.buffer.skip(at as int),
                        now,
                    ),
                    old(self)@.buffer.skip(at as int),
                    r.0,
                    srv@,
                    final(self)@.state,
                    r.1@,
                ),
    {
        let one = parse_value(slice_subrange(self.buffer.as_slice(), at, self.buffer.len()));
        proof {
            reveal(link_step);
        }
        proof {
            assert(self.buffer@.subrange(at as int, self.buffer@.len() as int)
                =~= self.buffer@.skip(at as int));
        }
        match one {
            Ok((frame, used)) => {
                let next = self.handshake_reply(&frame);
                (Some(used), next)
            },
            Err(ParseError::NeedMore) => (None, Vec::new()),
            Err(ParseError::Protocol) => {
                self.state = LinkState::Closed;
                (None, Vec::new())
            },
        }
    }

    /// The step over the snapshot, on the bytes from `at` on.
    fn step_snapshot(&mut self, srv: &ServerState, at: usize) -> (r: (Option<usize>, Vec<u8>))
        requires
            at <= old(self)@.buffer.len(),
            old(self)@.state is ReceivingSnapshot,
        ensures
            final(self)@.buffer == old(self)@.buffer,
            final(self)@.port == old(self)@.port,
            forall|now: u64|
                Self::stepped(
                    #[trigger] link_step(
                        srv@,
                        old(self)@.state,
                        old(self)@.port,
                        old(self)@.buffer.skip(at as int),
                        now,
                    ),
                    old(self)@.buffer.skip(at as int),
                    r.0,
                    srv@,
                    final(self)@.state,
                    r.1@,
                ),
    {
        let one = parse_rdb_bulk(slice_subrange(self.buffer.as_slice(), at, self.buffer.len()));
        proof {
            reveal(link_step);
        }
        proof {
            assert(self.buffer@.subrange(at as int, self.buffer@.len() as int)
                =~= self.buffer@.skip(at as int));
        }
        match one {
            Ok(used) => {
                self.state = LinkState::Applying;
                (Some(used), Vec::new())
            },
            Err(ParseError::NeedMore) => (None, Vec::new()),
            Err(ParseError::Protocol) => {
                self.state = LinkState::Closed;
                (None, Vec::new())
            },
        }
    }

    /// The step that applies one command of the master, on the bytes from
    /// `at` on.
    fn step_apply(&mut self, srv: &mut ServerState, at: usize, now: u64) -> (r: (
        Option<usize>,
        Vec<u8>,
    ))
        requires
            old(srv).wf(),
            at <= old(self)@.buffer.len(),
            old(self)@.state is Applying,
        ensures
            final(srv).wf(),
            final(self)@.buffer == old(self)@.buffer,
            final(self)@.port == old(self)@.port,
            Self::stepped(
                link_step(
                    old(srv)@,
                    old(self)@.state,
                    old(self)@.port,
                    old(self)@.buffer.skip(at as int),
                    now,
                ),
                old(self)@.buffer.skip(at as int),
                r.0,
                final(srv)@,
                final(self)@.state,
                r.1@,
            ),
    {
        let one = parse_value(slice_subrange(self.buffer.as_slice(), at, self.buffer.len()));
        proof {
            reveal(link_step);
        }
        proof {
            assert(self.buffer@.subrange(at as int, self.buffer@.len() as int)
                =~= self.buffer@.skip(at as int));
        }
        match one {
            Ok((frame, used)) => {
                let effect = srv.execute_frame(&frame, now);
                let out: Vec<u8> = if is_getack(&frame) {
                    effect.reply.to_resp_string()
                } else {
                    Vec::new()
                };
                if srv.advance_offset(used) {
                    (Some(used), out)
                } else {
                    self.state = LinkState::Closed;
                    (None, out)
                }
            },
            Err(ParseError::NeedMore) => (None, Vec::new()),
            Err(ParseError::Protocol) => {
                self.state = LinkState::Closed;
                (None, Vec::new())
            },
        }
    }

    /// One step on the bytes from `at` on. See `link_step`.
    fn step(&mut self, srv: &mut ServerState, at: usize, now: u64) -> (r: (Option<usize>, Vec<u8>))
        requires
            old(srv).wf(),
            at <= old(self)@.buffer.len(),
        ensures
            final(srv).wf(),
            final(self)@.buffer == old(self)@.buffer,
            final(self)@.port == old(self)@.port,
            Self::stepped(
                link_step(
                    old(srv)@,
                    old(self)@.state,
                    old(self)@.port,
                    old(self)@.buffer.skip(at as int),
                    now,
                ),
                old(self)@.buffer.skip(at as int),
                r.0,
                final(srv)@,
                final(self)@.state,
                r.1@,
            ),
    {
        proof {
            reveal(link_step);
        }
        match self.state {
            LinkState::Connecting | LinkState::Closed => (None, Vec::new()),
            LinkState::ReceivingSnapshot => self.step_snapshot(srv, at),
            LinkState::Applying => self.step_apply(srv, at, now),
            _ => self.step_handshake(srv, at),
        }
    }

    /// Takes the bytes that came from the master at the instant `now`, and
    /// gives the bytes to send to it. See `link_run`.
    pub fn continuous_replication(&mut self, srv: &mut ServerState, data: &[u8], now: u64) -> (send:
        Vec<u8>)
        requires
            old(srv).wf(),
        ensures
            final(srv).wf(),
            ({
                let r = link_run(
                    old(srv)@,
                    old(self)@.state,
                    old(self)@.port,
                    old(self)@.buffer + data@,
                    now,
                );
                &&& final(srv)@ == r.state
                &&& final(self)@ == (LinkModel {
                    state: r.link,
                    buffer: r.rest,
                    port: old(self)@.port,
                })
                &&& send@ == r.send
            }),
    {
        push_bytes(&mut self.buffer, data);
        let ghost all = self.buffer@;
        let mut send: Vec<u8> = Vec::new();
        let mut at: usize = 0;
        let mut done: bool = false;
        let held: usize = self.buffer.len();
        proof {
            assert(all.len() == held);
            assert(all.skip(0) =~= all);
            let r = link_run(srv@, self.state, self.port, all, now);
            assert(send@ + r.send =~= r.send);
        }
        while !done
            invariant
                srv.wf(),
                self.buffer@ == all,
                self.port == old(self).port,
                at <= all.len() <= usize::MAX,
                link_run(old(srv)@, old(self).state, self.port, all, now) == prepend(
                    send@,
                    link_run(srv@, self.state, self.port, all.skip(at as int), now),
                ),
                done ==> link_run(srv@, self.state, self.port, all.skip(at as int), now)
                    == stopped(srv@, self.state, all.skip(at as int)),
            decreases all.len() - at, if done { 0int } else { 1int },
        {
            let ghost b = all.skip(at as int);
            let ghost before = srv@;
            let ghost state_before = self.state;
            let ghost sent_before = send@;
            let (went, out) = self.step(srv, at, now);
            push_bytes(&mut send, out.as_slice());
            proof {
                lemma_advance(before, state_before, self.port, b, now, went, srv@, self.state, out@);
            }
            match went {
                Some(used) => {
                    proof {
                        assert(b.len() == all.len() - at);
                        assert(b.skip(used as int) =~= all.skip(at + used));
                        let r = link_run(srv@, self.state, self.port, b.skip(used as int), now);
                        assert(sent_before + (out@ + r.send) =~= send@ + r.send);
                    }
                    at = at + used;
                },
                None => {
                    proof {
                        let r = link_run(srv@, self.state, self.port, b, now);
                        assert(sent_before + (out@ + r.send) =~= send@ + r.send);
                    }
                    done = true;
                },
            }
        }
        let rest: Vec<u8> = match self.state {
            LinkState::Closed => Vec::new(),
            _ => copy_bytes(slice_subrange(self.buffer.as_slice(), at, self.buffer.len())),
        };
        proof {
            assert(self.buffer@.subrange(at as int, all.len() as int) =~= all.skip(at as int));
            assert(send@ + Seq::<u8>::empty() =~= send@);
        }
        self.buffer = rest;
        send
    }
}

/// A run with `out` sent before it.
pub open spec fn prepend(out: Seq<u8>, r: LinkRun) -> LinkRun {
    LinkRun { send: out + r.send, ..r }
}

/// The run of a link that has nothing to do with the bytes `b`: a closed
/// link drops them, a waiting link keeps them.
pub open spec fn stopped(m: ServerModel, state: LinkState, b: Seq<u8>) -> LinkRun {
    LinkRun {
        state: m,
        link: state,
        rest: if state is Closed {
            Seq::empty()
        } else {
            b
        },
        send: Seq::empty(),
    }
}

/// A run is its first step and then the run of what is left; and where
/// the first step stops, the run from there stops in the same place.
pub proof fn lemma_advance(
    m: ServerModel,
    state: LinkState,
    port: u16,
    b: Seq<u8>,
    now: u64,
    r: Option<usize>,
    next: ServerModel,
    link: LinkState,
    out: Seq<u8>,
)
    requires
        ReplicaLink::stepped(link_step(m, state, port, b, now), b, r, next, link, out),
    ensures
        r matches Some(used) ==> 0 < used <= b.len() && link_run(m, state, port, b, now)
            == prepend(out, link_run(next, link, port, b.skip(used as int), now)),
        r is None ==> link_run(m, state, port, b, now) == prepend(
            out,
            link_run(next, link, port, b, now),
        ) && link_run(next, link, port, b, now) == stopped(next, link, b),
{
    lemma_step_used(m, state, port, b, now);
    match link_step(m, state, port, b, now) {
        Step::Go { .. } => {},
        Step::Stop(run) => {
            assert(link_run(next, link, port, b, now) == stopped(next, link, b)) by {
                reveal(link_step);
            }
            assert(run.send + Seq::<u8>::empty() =~= run.send);
        },
    }
}

} // verus!
