//! Frames one after the other: reading every complete frame off the front
//! of a buffer, and the two laws of the codec.

use crate::decode::{decode, lemma_decode_complete, lemma_wire_shape, Decoded};
use crate::frame::{all_wf, lemma_wire_all_first, wire_all, Frame};
use crate::parser::{lemma_models_push, models, parse_value, ParseError, RespType};
use crate::reading::{lemma_complete_decodes, lemma_decode_empty};
use vstd::prelude::*;
use vstd::slice::slice_subrange;

verus! {

/// What reading frame after frame yields: the frames, the number of bytes
/// they took, and whether reading ended on a protocol error rather than on
/// the want of more bytes.
pub struct Run {
    pub frames: Seq<Frame>,
    pub used: nat,
    pub broken: bool,
}

/// Reads frames off the front of `b` for as long as a whole frame is
/// there.
pub open spec fn decode_run(b: Seq<u8>) -> Run
    decreases b.len(),
{
    match decode(b) {
        Decoded::Complete(f) => {
            proof {
                lemma_complete_decodes(b, f);
                lemma_wire_shape(f);
            }
            let rest = decode_run(b.skip(f.wire().len() as int));
            Run {
                frames: seq![f] + rest.frames,
                used: f.wire().len() + rest.used,
                broken: rest.broken,
            }
        },
        Decoded::NeedMore => Run { frames: Seq::empty(), used: 0, broken: false },
        Decoded::ProtocolError => Run { frames: Seq::empty(), used: 0, broken: true },
    }
}

/// A frame's own bytes read back as that frame, whatever follows them.
pub proof fn lemma_round_trip(f: Frame, rest: Seq<u8>)
    requires
        f.wf(),
    ensures
        decode(f.wire()) == Decoded::Complete(f),
        decode(f.wire() + rest) == Decoded::Complete(f),
{
    let w = f.wire();
    assert(w =~= w.subrange(0, w.len() as int));
    assert(w =~= (w + rest).subrange(0, w.len() as int));
    lemma_decode_complete(w, f);
    lemma_decode_complete(w + rest, f);
}

/// The bytes of well-formed frames, one after the other, read back as
/// exactly those frames, and no byte is left.
pub proof fn lemma_concatenation(fs: Seq<Frame>)
    requires
        all_wf(fs),
    ensures
        decode_run(wire_all(fs)) == (Run { frames: fs, used: wire_all(fs).len(), broken: false }),
    decreases fs.len(),
{
    let b = wire_all(fs);
    if fs.len() == 0 {
        lemma_decode_empty(b);
        assert(fs =~= Seq::<Frame>::empty());
    } else {
        let f = fs[0];
        let tail = fs.drop_first();
        lemma_wire_all_first(fs);
        lemma_round_trip(f, wire_all(tail));
        lemma_wire_shape(f);
        assert(b.skip(f.wire().len() as int) =~= wire_all(tail));
        assert(all_wf(tail)) by {
            assert forall|i: int| 0 <= i < tail.len() implies (#[trigger] tail[i]).wf() by {
                assert(tail[i] == fs[i + 1]);
            }
        }
        lemma_concatenation(tail);
        assert(seq![f] + tail =~= fs);
    }
}

/// The frames read off the front of a buffer.
pub struct Frames {
    pub frames: Vec<RespType>,
    /// The number of bytes that the frames took.
    pub used: usize,
    /// Reading ended on a protocol error.
    pub broken: bool,
}

/// Reads every complete frame off the front of `input`. What is left
/// behind them is the start of a frame that needs more bytes, or, where
/// `broken` is set, bytes that start no frame.
pub fn parse_frames(input: &[u8]) -> (r: Frames)
    ensures
        models(r.frames@) == decode_run(input@).frames,
        r.used == decode_run(input@).used,
        r.broken == decode_run(input@).broken,
        r.used <= input@.len(),
{
    let mut frames: Vec<RespType> = Vec::new();
    let mut at: usize = 0;
    let mut broken: bool = false;
    proof {
        assert(input@.skip(0) =~= input@);
    }
    loop
        invariant_except_break
            !broken,
        invariant
            at <= input@.len(),
            decode_run(input@) == (Run {
                frames: models(frames@) + decode_run(input@.skip(at as int)).frames,
                used: (at + decode_run(input@.skip(at as int)).used) as nat,
                broken: decode_run(input@.skip(at as int)).broken,
            }),
        ensures
            decode_run(input@.skip(at as int)).frames == Seq::<Frame>::empty(),
            decode_run(input@.skip(at as int)).used == 0,
            decode_run(input@.skip(at as int)).broken == broken,
        decreases input@.len() - at,
    {
        let ghost rest = input@.skip(at as int);
        let one = parse_value(slice_subrange(input, at, input.len()));
        proof {
            assert(input@.subrange(at as int, input@.len() as int) =~= rest);
        }
        match one {
            Ok((frame, used)) => {
                proof {
                    lemma_complete_decodes(rest, frame@);
                    lemma_wire_shape(frame@);
                    lemma_models_push(frames@, frame);
                    assert(rest.skip(used as int) =~= input@.skip(at + used));
                    let next = decode_run(rest.skip(used as int));
                    assert(models(frames@).push(frame@) + next.frames =~= models(frames@) + (
                    seq![frame@] + next.frames));
                }
                frames.push(frame);
                at = at + used;
            },
            Err(ParseError::NeedMore) => {
                break ;
            },
            Err(ParseError::Protocol) => {
                broken = true;
                break ;
            },
        }
    }
    proof {
        assert(models(frames@) + Seq::<Frame>::empty() =~= models(frames@));
    }
    Frames { frames, used: at, broken }
}

} // verus!
