//! One client connection of a server: the bytes that came in and are not
//! yet a whole frame, and what the server does with each frame that is.
//! The caller reads and writes the socket and holds the lock; this module
//! decides.

use crate::command::{apply, classify, ServerModel};
use crate::frame::Frame;
use crate::parser::{
    copy_bytes, lemma_models, models, parse_retain_cmd, push_bytes, ParseError, RespType,
};
use crate::server::{targets, with_attached, with_candidate, ServerState};
use crate::snapshot::{snapshot_header, snapshot_payload};
use crate::stream::{decode_run, parse_frames};
use crate::text::{bytes_of, starts_with, word_bytes};
use vstd::prelude::*;
use vstd::slice::slice_subrange;

verus! {

/// Where a connection stands.
#[derive(Debug, Clone, Copy, PartialEq, Eq, Structural)]
pub enum Phase {
    /// Requests are read from it and answered.
    Client,
    /// It was sent the snapshot: the master writes propagated commands to
    /// it and reads no request from it any more.
    Attached,
    /// It sent bytes that start no frame, and is to be closed.
    Closed,
}

/// A connection as a mathematical value.
pub struct ConnModel {
    pub id: u64,
    /// The bytes that came in and are not yet a whole frame.
    pub buffer: Seq<u8>,
    pub phase: Phase,
}

/// What serving frames comes to: the server's next state, where the
/// connection stands, the bytes to write back, and the bytes to write to
/// the replicas.
pub struct Served {
    pub state: ServerModel,
    pub phase: Phase,
    pub reply: Seq<u8>,
    pub propagate: Seq<u8>,
}

/// The reply by which a master starts a full resynchronization.
pub open spec fn is_fullresync(reply: Frame) -> bool {
    reply matches Frame::Simple(s) && bytes_of("FULLRESYNC "@).is_prefix_of(s)
}

/// The bytes of an optional byte string, none for none.
pub open spec fn sent(o: Option<Seq<u8>>) -> Seq<u8> {
    match o {
        Some(b) => b,
        None => Seq::empty(),
    }
}

/// One frame served: the command runs and its reply goes back. After
/// `REPLCONF listening-port` the connection is kept as a candidate
/// replica. After a `FULLRESYNC` reply the snapshot follows at once, its
/// header line and its bytes without a CRLF behind them, and the
/// connection is attached.
pub open spec fn serve_frame(m: ServerModel, id: u64, f: Frame, now: u64) -> Served {
    let a = apply(m, classify(f), now);
    let kept = if classify(f) is ListeningPort {
        ServerModel { replicas: with_candidate(a.state.replicas, id), ..a.state }
    } else {
        a.state
    };
    if is_fullresync(a.reply) {
        Served {
            state: ServerModel {
                replicas: with_attached(with_candidate(kept.replicas, id), id),
                ..kept
            },
            phase: Phase::Attached,
            reply: a.reply.wire() + snapshot_header(snapshot_payload().len())
                + snapshot_payload(),
            propagate: sent(a.propagate),
        }
    } else {
        Served {
            state: kept,
            phase: Phase::Client,
            reply: a.reply.wire(),
            propagate: sent(a.propagate),
        }
    }
}

/// Frames served in order, up to and with the one that attaches the
/// connection: no request is taken from an attached replica.
pub open spec fn serve_frames(m: ServerModel, id: u64, fs: Seq<Frame>, now: u64) -> Served
    decreases fs.len(),
{
    if fs.len() == 0 {
        Served { state: m, phase: Phase::Client, reply: Seq::empty(), propagate: Seq::empty() }
    } else {
        let first = serve_frame(m, id, fs[0], now);
        if first.phase is Attached {
            first
        } else {
            let rest = serve_frames(first.state, id, fs.drop_first(), now);
            Served {
                state: rest.state,
                phase: rest.phase,
                reply: first.reply + rest.reply,
                propagate: first.propagate + rest.propagate,
            }
        }
    }
}

/// What a connection in the client phase does with new bytes: every whole
/// frame in its buffer is served, and bytes that start no frame close it.
pub open spec fn serve(m: ServerModel, c: ConnModel, data: Seq<u8>, now: u64) -> Served {
    let run = decode_run(c.buffer + data);
    let served = serve_frames(m, c.id, run.frames, now);
    Served {
        phase: if served.phase is Attached {
            Phase::Attached
        } else if run.broken {
            Phase::Closed
        } else {
            Phase::Client
        },
        ..served
    }
}

/// What is left in the buffer: the start of the next frame while the
/// connection is a client, nothing once it is attached or closed.
pub open spec fn leftover(c: ConnModel, data: Seq<u8>, phase: Phase) -> Seq<u8> {
    if phase is Client {
        (c.buffer + data).skip(decode_run(c.buffer + data).used as int)
    } else {
        Seq::empty()
    }
}

/// What the caller is to do after new bytes were handled.
pub struct Output {
    /// To write back on the connection.
    pub reply: Vec<u8>,
    /// To write to each of `targets`, in that order.
    pub propagate: Vec<u8>,
    /// The connections of the replicas that were attached when the bytes
    /// came in.
    pub targets: Vec<u64>,
    /// The connection is to be closed.
    pub close: bool,
}

/// One client connection.
pub struct Connection {
    id: u64,
    buffer: Vec<u8>,
    phase: Phase,
}

impl View for Connection {
    type V = ConnModel;

    closed spec fn view(&self) -> ConnModel {
        ConnModel { id: self.id, buffer: self.buffer@, phase: self.phase }
    }
}

impl Connection {
    /// A connection on which nothing has come in yet. The caller gives
    /// each connection an id of its own.
    pub fn new(id: u64) -> (c: Connection)
        ensures
            c@ == (ConnModel { id, buffer: Seq::empty(), phase: Phase::Client }),
    {
        Connection { id, buffer: Vec::new(), phase: Phase::Client }
    }

    /// Where the connection stands.
    pub fn phase(&self) -> (p: Phase)
        ensures
            p == self@.phase,
    {
        self.phase
    }

    /// The connection's id.
    pub fn id(&self) -> (id: u64)
        ensures
            id == self@.id,
    {
        self.id
    }

    /// The other side has closed the connection. It is a protocol error
    /// where a client stopped inside a frame. The connection is closed
    /// either way, and its buffer dropped.
    pub fn handle_eof(&mut self) -> (r: Result<(), ParseError>)
        ensures
            final(self)@ == (ConnModel {
                id: old(self)@.id,
                buffer: Seq::empty(),
                phase: Phase::Closed,
            }),
            r is Err <==> old(self)@.phase is Client && old(self)@.buffer.len() > 0,
            r is Err ==> r == Err::<(), ParseError>(ParseError::Protocol),
    {
        let cut_short = matches!(self.phase, Phase::Client) && self.buffer.len() > 0;
        self.buffer = Vec::new();
        self.phase = Phase::Closed;
        if cut_short {
            Err(ParseError::Protocol)
        } else {
            Ok(())
        }
    }

    /// Serves one frame. See `serve_frame`.
    pub fn handle_frame(&self, srv: &mut ServerState, frame: &RespType, now: u64) -> (r: (
        Vec<u8>,
        Vec<u8>,
        Phase,
    ))
        requires
            old(srv).wf(),
        ensures
            final(srv).wf(),
            ({
                let s = serve_frame(old(srv)@, self@.id, frame@, now);
                &&& final(srv)@ == s.state
                &&& r.0@ == s.reply
                &&& r.1@ == s.propagate
                &&& r.2 == s.phase
            }),
    {
        proof {
            reveal_strlit("FULLRESYNC ");
        }
        let effect = srv.execute_frame(frame, now);
        if parse_retain_cmd(frame) {
            srv.retain_slave(self.id);
        }
        let mut reply: Vec<u8> = effect.reply.to_resp_string();
        let propagate: Vec<u8> = match effect.propagate {
            Some(bytes) => bytes,
            None => Vec::new(),
        };
        let resync: bool = match &effect.reply {
            RespType::SimpleString(line) => starts_with(
                line.as_slice(),
                word_bytes("FULLRESYNC "),
            ),
            _ => false,
        };
        if resync {
            let (header, rdb) = srv.full_resync();
            push_bytes(&mut reply, header.as_slice());
            push_bytes(&mut reply, rdb.as_slice());
            srv.retain_slave(self.id);
            srv.attach_slave(self.id);
            (reply, propagate, Phase::Attached)
        } else {
            (reply, propagate, Phase::Client)
        }
    }

    /// Takes the bytes that came in on the connection at the instant
    /// `now`. While the connection is a client, every whole frame that the
    /// buffer now holds is served in order, and what is left stays in the
    /// buffer for the next time; bytes that start no frame close the
    /// connection, after the frames before them were served. An attached
    /// or closed connection takes no bytes.
    pub fn handle_client(&mut self, srv: &mut ServerState, data: &[u8], now: u64) -> (out: Output)
        requires
            old(srv).wf(),
        ensures
            final(srv).wf(),
            final(self)@.id == old(self)@.id,
            out.targets@ == targets(old(srv)@.replicas),
            out.close == (final(self)@.phase is Closed),
            old(self)@.phase is Client ==> {
                let s = serve(old(srv)@, old(self)@, data@, now);
                &&& final(srv)@ == s.state
                &&& final(self)@.phase == s.phase
                &&& final(self)@.buffer == leftover(old(self)@, data@, s.phase)
                &&& out.reply@ == s.reply
                &&& out.propagate@ == s.propagate
            },
            !(old(self)@.phase is Client) ==> {
                &&& final(srv)@ == old(srv)@
                &&& final(self)@ == old(self)@
                &&& out.reply@ == Seq::<u8>::empty()
                &&& out.propagate@ == Seq::<u8>::empty()
            },
    {
        let targets = srv.attached_slaves();
        let mut reply: Vec<u8> = Vec::new();
        let mut propagate: Vec<u8> = Vec::new();
        match self.phase {
            Phase::Client => {},
            _ => {
                let close = matches!(self.phase, Phase::Closed);
                return Output { reply, propagate, targets, close };
            },
        }
        push_bytes(&mut self.buffer, data);
        let read = parse_frames(self.buffer.as_slice());
        let ghost fs = models(read.frames@);
        let mut phase = Phase::Client;
        let mut i: usize = 0;
        proof {
            lemma_models(read.frames@);
            assert(fs.skip(0) =~= fs);
        }
        while i < read.frames.len() && matches!(phase, Phase::Client)
            invariant
                srv.wf(),
                i <= read.frames@.len(),
                fs == models(read.frames@),
                fs.len() == read.frames@.len(),
                forall|k: int| 0 <= k < fs.len() ==> fs[k] == read.frames@[k]@,
                self.id == old(self).id,
                phase is Client || phase is Attached,
                phase is Client ==> ({
                    let rest = serve_frames(srv@, self.id, fs.skip(i as int), now);
                    let all = serve_frames(old(srv)@, self.id, fs, now);
                    &&& all.state == rest.state
                    &&& all.phase == rest.phase
                    &&& all.reply == reply@ + rest.reply
                    &&& all.propagate == propagate@ + rest.propagate
                }),
                phase is Attached ==> ({
                    let all = serve_frames(old(srv)@, self.id, fs, now);
                    &&& all.state == srv@
                    &&& all.phase is Attached
                    &&& all.reply == reply@
                    &&& all.propagate == propagate@
                }),
            decreases read.frames@.len() - i, if phase is Client { 1int } else { 0int },
        {
            let ghost before = srv@;
            let ghost todo = fs.skip(i as int);
            let (answer, forward, next) = self.handle_frame(srv, &read.frames[i], now);
            proof {
                assert(todo[0] == fs[i as int]);
                assert(todo.drop_first() =~= fs.skip(i + 1));
                let first = serve_frame(before, self.id, todo[0], now);
                let rest = serve_frames(first.state, self.id, todo.drop_first(), now);
                assert(reply@ + (first.reply + rest.reply) =~= (reply@ + first.reply)
                    + rest.reply);
                assert(propagate@ + (first.propagate + rest.propagate) =~= (propagate@
                    + first.propagate) + rest.propagate);
            }
            push_bytes(&mut reply, answer.as_slice());
            push_bytes(&mut propagate, forward.as_slice());
            phase = next;
            i = i + 1;
        }
        proof {
            if phase is Client {
                assert(fs.skip(i as int) =~= Seq::<Frame>::empty());
                assert(reply@ + Seq::<u8>::empty() =~= reply@);
                assert(propagate@ + Seq::<u8>::empty() =~= propagate@);
            }
        }
        if matches!(phase, Phase::Client) && read.broken {
            phase = Phase::Closed;
        }
        let rest: Vec<u8> = match phase {
            Phase::Client => copy_bytes(
                slice_subrange(self.buffer.as_slice(), read.used, self.buffer.len()),
            ),
            _ => Vec::new(),
        };
        proof {
            assert(self.buffer@.subrange(read.used as int, self.buffer@.len() as int)
                =~= self.buffer@.skip(read.used as int));
        }
        self.buffer = rest;
        self.phase = phase;
        let close = matches!(phase, Phase::Closed);
        Output { reply, propagate, targets, close }
    }
}

} // verus!
