//! What it means to read a frame off the front of a byte string, stated
//! against the wire form alone, and the facts that make that reading unique.

use crate::decimal::{lemma_signed_digits_bytes, lemma_signed_digits_injective};
use crate::frame::{all_wf, is_line, is_tag, lemma_wire_all_first, wire_all, Frame};
use vstd::prelude::*;

verus! {

/// `b` starts with the whole wire form of the well-formed frame `f`.
pub open spec fn decodes(b: Seq<u8>, f: Frame) -> bool {
    f.wf() && f.wire().is_prefix_of(b)
}

/// `b` is a start of the wire form of the well-formed frame `f`, and stops
/// short of its end.
pub open spec fn truncates(b: Seq<u8>, f: Frame) -> bool {
    f.wf() && b.len() < f.wire().len() && b.is_prefix_of(f.wire())
}

/// `b` starts with `f`, or is a start of `f`.
pub open spec fn fits(b: Seq<u8>, f: Frame) -> bool {
    f.wf() && (f.wire().is_prefix_of(b) || b.is_prefix_of(f.wire()))
}

/// The three ways in which reading one frame can end.
pub enum Decoded {
    /// The bytes start with this frame.
    Complete(Frame),
    /// The bytes are the start of a frame; more of them may complete it.
    NeedMore,
    /// No frame starts like this, whatever follows.
    ProtocolError,
}

/// The reading of the front of `b`: the frame whose wire form `b` starts
/// with; failing that, whether `b` could still grow into a frame.
pub open spec fn decode(b: Seq<u8>) -> Decoded {
    if exists|f: Frame| decodes(b, f) {
        Decoded::Complete(choose|f: Frame| decodes(b, f))
    } else if exists|f: Frame| truncates(b, f) {
        Decoded::NeedMore
    } else {
        Decoded::ProtocolError
    }
}

/// The layout of a well-formed frame's bytes: type byte, header line
/// without CR or LF, CRLF, body.
pub proof fn lemma_wire_shape(f: Frame)
    requires
        f.wf(),
    ensures
        f.wire().len() == 3 + f.hlen() + f.body().len(),
        f.wire()[0] == f.tag(),
        is_tag(f.tag()),
        is_line(f.header()),
        forall|k: int| 0 <= k < f.hlen() ==> #[trigger] f.wire()[k + 1] == f.header()[k],
        f.wire()[f.hlen() + 1] == 13,
        f.wire()[f.hlen() + 2] == 10,
        f.wire().skip(3 + f.hlen()) == f.body(),
{
    let h = f.header();
    match f {
        Frame::Simple(_) | Frame::Error(_) => {},
        Frame::Integer(i) => {
            lemma_signed_digits_bytes(i);
        },
        Frame::Bulk(s) => {
            lemma_signed_digits_bytes(s.len() as int);
        },
        Frame::Array(fs) => {
            lemma_signed_digits_bytes(fs.len() as int);
        },
        Frame::NullBulk | Frame::NullArray => {
            lemma_signed_digits_bytes(-1);
        },
    }
    assert(is_line(h));
    assert(f.wire().skip(3 + f.hlen()) =~= f.body());
}

/// Where a frame fits the bytes, the bytes show its type byte, its header
/// line as far as they reach, and after the line's CRLF its body.
pub proof fn lemma_fits_shape(b: Seq<u8>, f: Frame)
    requires
        fits(b, f),
        b.len() > 0,
    ensures
        b[0] == f.tag(),
        forall|k: int|
            0 <= k < f.hlen() && k + 1 < b.len() ==> #[trigger] b[k + 1] == f.header()[k],
        b.len() > f.hlen() + 1 ==> b[f.hlen() + 1] == 13,
        b.len() > f.hlen() + 2 ==> b[f.hlen() + 2] == 10,
        b.len() >= f.hlen() + 3 ==> {
            let rest = b.skip(3 + f.hlen());
            f.body().is_prefix_of(rest) || rest.is_prefix_of(f.body())
        },
        f.wire().is_prefix_of(b) <==> f.wire().len() <= b.len(),
{
    lemma_wire_shape(f);
    let w = f.wire();
    let h = f.header();
    assert forall|k: int| 0 <= k < b.len() && k < w.len() implies b[k] == w[k] by {
        if w.is_prefix_of(b) {
            assert(w == b.subrange(0, w.len() as int));
        } else {
            assert(b == w.subrange(0, b.len() as int));
        }
    }
    assert forall|k: int| 0 <= k < f.hlen() && k + 1 < b.len() implies #[trigger] b[k + 1]
        == h[k] by {
        assert(w[k + 1] == h[k]);
    }
    if b.len() >= f.hlen() + 3 {
        let rest = b.skip(3 + f.hlen());
        if w.is_prefix_of(b) {
            assert(f.body() =~= rest.subrange(0, f.body().len() as int));
        } else {
            assert(rest =~= f.body().subrange(0, rest.len() as int));
        }
    }
    if w.len() <= b.len() && !w.is_prefix_of(b) {
        assert(b =~= w);
    }
}

/// Two frames that fit the same bytes have the same header line, if the
/// bytes reach the end of either.
pub proof fn lemma_same_header(b: Seq<u8>, f: Frame, g: Frame)
    requires
        fits(b, f),
        fits(b, g),
        b.len() >= f.hlen() + 2,
    ensures
        f.tag() == g.tag(),
        f.header() == g.header(),
{
    lemma_fits_shape(b, f);
    lemma_fits_shape(b, g);
    lemma_wire_shape(f);
    lemma_wire_shape(g);
    let hf = f.header();
    let hg = g.header();
    if g.hlen() < f.hlen() {
        assert(b[g.hlen() + 1] == hf[g.hlen()]);
    }
    if f.hlen() < g.hlen() {
        assert(b[f.hlen() + 1] == hg[f.hlen()]);
    }
    assert forall|k: int| 0 <= k < f.hlen() implies hf[k] == hg[k] by {
        assert(b[k + 1] == hf[k]);
        assert(b[k + 1] == hg[k]);
    }
    assert(hf =~= hg);
}

/// The wire form has one reading: two well-formed frames whose wire forms
/// both start the same bytes are the same frame.
pub proof fn lemma_unique(b: Seq<u8>, f: Frame, g: Frame)
    requires
        decodes(b, f),
        decodes(b, g),
    ensures
        f == g,
    decreases f,
{
    lemma_wire_shape(f);
    lemma_wire_shape(g);
    lemma_same_header(b, f, g);
    lemma_fits_shape(b, f);
    lemma_fits_shape(b, g);
    let h = f.header();
    let rest = b.skip(3 + f.hlen());
    assert(f.body().is_prefix_of(rest));
    assert(g.body().is_prefix_of(rest));
    match (f, g) {
        (Frame::Integer(i), Frame::Integer(j)) => {
            lemma_signed_digits_injective(i, j);
        },
        (Frame::Bulk(s), Frame::Bulk(t)) => {
            lemma_signed_digits_injective(s.len() as int, t.len() as int);
            assert(s =~= rest.subrange(0, s.len() as int)) by {
                assert(f.body() == rest.subrange(0, f.body().len() as int));
                assert forall|k: int| 0 <= k < s.len() implies s[k] == rest[k] by {
                    assert(f.body()[k] == s[k]);
                }
            }
            assert(t =~= rest.subrange(0, t.len() as int)) by {
                assert(g.body() == rest.subrange(0, g.body().len() as int));
                assert forall|k: int| 0 <= k < t.len() implies t[k] == rest[k] by {
                    assert(g.body()[k] == t[k]);
                }
            }
        },
        (Frame::Bulk(s), Frame::NullBulk) => {
            lemma_signed_digits_injective(s.len() as int, -1);
        },
        (Frame::NullBulk, Frame::Bulk(t)) => {
            lemma_signed_digits_injective(t.len() as int, -1);
        },
        (Frame::Array(fs), Frame::Array(gs)) => {
            lemma_signed_digits_injective(fs.len() as int, gs.len() as int);
            lemma_unique_all(rest, fs, gs);
        },
        (Frame::Array(fs), Frame::NullArray) => {
            lemma_signed_digits_injective(fs.len() as int, -1);
        },
        (Frame::NullArray, Frame::Array(gs)) => {
            lemma_signed_digits_injective(gs.len() as int, -1);
        },
        _ => {},
    }
}

/// Two runs of as many well-formed frames whose bytes both start the same
/// bytes are the same run.
pub proof fn lemma_unique_all(b: Seq<u8>, fs: Seq<Frame>, gs: Seq<Frame>)
    requires
        fs.len() == gs.len(),
        all_wf(fs),
        all_wf(gs),
        wire_all(fs).is_prefix_of(b),
        wire_all(gs).is_prefix_of(b),
    ensures
        fs == gs,
    decreases fs,
{
    if fs.len() == 0 {
        assert(fs =~= gs);
    } else {
        lemma_wire_all_first(fs);
        lemma_wire_all_first(gs);
        let f = fs[0];
        let g = gs[0];
        let wf = wire_all(fs);
        let wg = wire_all(gs);
        assert(wf == b.subrange(0, wf.len() as int));
        assert(wg == b.subrange(0, wg.len() as int));
        assert(f.wire() =~= b.subrange(0, f.wire().len() as int)) by {
            assert forall|k: int| 0 <= k < f.wire().len() implies f.wire()[k] == b[k] by {
                assert(wf[k] == f.wire()[k]);
            }
        }
        assert(g.wire() =~= b.subrange(0, g.wire().len() as int)) by {
            assert forall|k: int| 0 <= k < g.wire().len() implies g.wire()[k] == b[k] by {
                assert(wg[k] == g.wire()[k]);
            }
        }
        lemma_unique(b, f, g);
        let n = f.wire().len() as int;
        let tail = b.skip(n);
        let ft = fs.drop_first();
        let gt = gs.drop_first();
        assert(wire_all(ft) =~= tail.subrange(0, wire_all(ft).len() as int)) by {
            assert forall|k: int| 0 <= k < wire_all(ft).len() implies wire_all(ft)[k]
                == tail[k] by {
                assert(wf[n + k] == wire_all(ft)[k]);
            }
        }
        assert(wire_all(gt) =~= tail.subrange(0, wire_all(gt).len() as int)) by {
            assert forall|k: int| 0 <= k < wire_all(gt).len() implies wire_all(gt)[k]
                == tail[k] by {
                assert(wg[n + k] == wire_all(gt)[k]);
            }
        }
        assert(all_wf(ft)) by {
            assert forall|i: int| 0 <= i < ft.len() implies (#[trigger] ft[i]).wf() by {
                assert(ft[i] == fs[i + 1]);
            }
        }
        assert(all_wf(gt)) by {
            assert forall|i: int| 0 <= i < gt.len() implies (#[trigger] gt[i]).wf() by {
                assert(gt[i] == gs[i + 1]);
            }
        }
        lemma_unique_all(tail, ft, gt);
        assert(fs =~= gs) by {
            assert forall|i: int| 0 <= i < fs.len() implies fs[i] == gs[i] by {
                if i > 0 {
                    assert(ft[i - 1] == fs[i]);
                    assert(gt[i - 1] == gs[i]);
                }
            }
        }
    }
}

/// Bytes that start with a well-formed frame read as that frame.
pub proof fn lemma_decode_complete(b: Seq<u8>, f: Frame)
    requires
        decodes(b, f),
    ensures
        decode(b) == Decoded::Complete(f),
{
    let g = choose|g: Frame| decodes(b, g);
    lemma_unique(b, f, g);
}

/// Bytes that stop short inside a well-formed frame need more.
pub proof fn lemma_decode_truncated(b: Seq<u8>, f: Frame)
    requires
        truncates(b, f),
    ensures
        decode(b) == Decoded::NeedMore,
{
    assert forall|g: Frame| !decodes(b, g) by {
        if decodes(b, g) {
            let w = f.wire();
            assert(g.wire() =~= w.subrange(0, g.wire().len() as int)) by {
                assert(g.wire() == b.subrange(0, g.wire().len() as int));
                assert(b == w.subrange(0, b.len() as int));
            }
            assert(w.is_prefix_of(w)) by {
                assert(w =~= w.subrange(0, w.len() as int));
            }
            lemma_unique(w, f, g);
        }
    }
}

/// Bytes that no well-formed frame fits are a protocol error.
pub proof fn lemma_decode_malformed(b: Seq<u8>)
    requires
        forall|f: Frame| !fits(b, f),
    ensures
        decode(b) == Decoded::ProtocolError,
{
    assert forall|f: Frame| !decodes(b, f) && !truncates(b, f) by {
        assert(!fits(b, f));
    }
}

} // verus!
