//! From what the bytes show (type byte, header line, body) to the reading
//! of the frame: the steps a parser takes, each as a proved fact.

use crate::decode::{
    decode, decodes, fits, lemma_decode_complete, lemma_decode_malformed, lemma_decode_truncated,
    lemma_fits_shape, lemma_unique, lemma_wire_shape, truncates, Decoded,
};
use crate::frame::{crlf, is_line, is_tag, Frame};
use vstd::prelude::*;

verus! {

/// `a` is a start of `b` and shorter than `b`.
pub open spec fn precedes(a: Seq<u8>, b: Seq<u8>) -> bool {
    a.len() < b.len() && a.is_prefix_of(b)
}

/// The header line `h` and its CRLF start `p`, or `p` is a start of them.
pub open spec fn header_fits(p: Seq<u8>, h: Seq<u8>) -> bool {
    (h + crlf()).is_prefix_of(p) || p.is_prefix_of(h + crlf())
}

/// `count` null bulk strings: the shortest frames there are to fill a run.
pub open spec fn padding(count: nat) -> Seq<Frame> {
    Seq::new(count, |i: int| Frame::NullBulk)
}

/// `count` zero bytes.
pub open spec fn zeros(count: nat) -> Seq<u8> {
    Seq::new(count, |i: int| 0u8)
}

/// Where `a` and then `x` start `r`: `a` starts `r`, and `x` starts what
/// follows `a` in `r`.
pub proof fn lemma_prefix_split(a: Seq<u8>, x: Seq<u8>, r: Seq<u8>)
    requires
        (a + x).is_prefix_of(r),
    ensures
        a.is_prefix_of(r),
        x.is_prefix_of(r.skip(a.len() as int)),
{
    let ax = a + x;
    assert(ax == r.subrange(0, ax.len() as int));
    assert(a =~= r.subrange(0, a.len() as int)) by {
        assert forall|k: int| 0 <= k < a.len() implies a[k] == r[k] by {
            assert(ax[k] == a[k]);
        }
    }
    let t = r.skip(a.len() as int);
    assert(x =~= t.subrange(0, x.len() as int)) by {
        assert forall|k: int| 0 <= k < x.len() implies x[k] == t[k] by {
            assert(ax[a.len() + k] == x[k]);
        }
    }
}

/// Where `a` starts `r` and `x` starts what follows: `a` and then `x`
/// start `r`.
pub proof fn lemma_prefix_join(a: Seq<u8>, x: Seq<u8>, r: Seq<u8>)
    requires
        a.is_prefix_of(r),
        x.is_prefix_of(r.skip(a.len() as int)),
    ensures
        (a + x).is_prefix_of(r),
{
    let t = r.skip(a.len() as int);
    assert(a == r.subrange(0, a.len() as int));
    assert(x == t.subrange(0, x.len() as int));
    assert(a + x =~= r.subrange(0, (a + x).len() as int)) by {
        assert forall|k: int| 0 <= k < (a + x).len() implies (a + x)[k] == r[k] by {
            if k >= a.len() {
                assert(x[k - a.len()] == t[k - a.len()]);
            }
        }
    }
}

/// Where `a` starts `r` and `r` is a start of `a` and then `x`: what
/// follows `a` in `r` is a start of `x`.
pub proof fn lemma_rest_prefix(a: Seq<u8>, x: Seq<u8>, r: Seq<u8>)
    requires
        a.is_prefix_of(r),
        r.is_prefix_of(a + x),
    ensures
        r.skip(a.len() as int).is_prefix_of(x),
{
    let t = r.skip(a.len() as int);
    assert(r == (a + x).subrange(0, r.len() as int));
    assert(t =~= x.subrange(0, t.len() as int)) by {
        assert forall|k: int| 0 <= k < t.len() implies t[k] == x[k] by {
            assert(r[a.len() + k] == (a + x)[a.len() + k]);
        }
    }
}

/// Where `a` starts `r` and what follows is a start of `x`: `r` is a
/// start of `a` and then `x`.
pub proof fn lemma_rest_join(a: Seq<u8>, x: Seq<u8>, r: Seq<u8>)
    requires
        a.is_prefix_of(r),
        r.skip(a.len() as int).is_prefix_of(x),
    ensures
        r.is_prefix_of(a + x),
{
    let t = r.skip(a.len() as int);
    assert(a == r.subrange(0, a.len() as int));
    assert(t == x.subrange(0, t.len() as int));
    assert(r =~= (a + x).subrange(0, r.len() as int)) by {
        assert forall|k: int| 0 <= k < r.len() implies r[k] == (a + x)[k] by {
            if k >= a.len() {
                assert(t[k - a.len()] == x[k - a.len()]);
            } else {
                assert(a[k] == r[k]);
            }
        }
    }
}

/// Whatever fits the bytes shows in them: its type byte first, then its
/// header line as far as the bytes go.
pub proof fn lemma_fits_header(b: Seq<u8>, f: Frame)
    requires
        fits(b, f),
        b.len() > 0,
    ensures
        b[0] == f.tag(),
        is_line(f.header()),
        header_fits(b.skip(1), f.header()),
{
    lemma_fits_shape(b, f);
    lemma_wire_shape(f);
    let p = b.skip(1);
    let h = f.header();
    let line = h + crlf();
    if p.len() >= line.len() {
        assert(line =~= p.subrange(0, line.len() as int)) by {
            assert forall|k: int| 0 <= k < line.len() implies line[k] == p[k] by {
                if k < h.len() {
                    assert(b[k + 1] == h[k]);
                }
            }
        }
    } else {
        assert(p =~= line.subrange(0, p.len() as int)) by {
            assert forall|k: int| 0 <= k < p.len() implies line[k] == p[k] by {
                if k < h.len() {
                    assert(b[k + 1] == h[k]);
                }
            }
        }
    }
}

/// Two header lines that fit the same bytes are the same line, once the
/// bytes go past the end of one of them.
pub proof fn lemma_line_unique(p: Seq<u8>, h1: Seq<u8>, h2: Seq<u8>)
    requires
        is_line(h1),
        is_line(h2),
        header_fits(p, h1),
        header_fits(p, h2),
        p.len() > h1.len(),
    ensures
        h1 == h2,
{
    let l1 = h1 + crlf();
    let l2 = h2 + crlf();
    assert forall|k: int| 0 <= k < p.len() && k < l1.len() implies p[k] == l1[k] by {
        if l1.is_prefix_of(p) {
            assert(l1 == p.subrange(0, l1.len() as int));
        } else {
            assert(p == l1.subrange(0, p.len() as int));
        }
    }
    assert forall|k: int| 0 <= k < p.len() && k < l2.len() implies p[k] == l2[k] by {
        if l2.is_prefix_of(p) {
            assert(l2 == p.subrange(0, l2.len() as int));
        } else {
            assert(p == l2.subrange(0, p.len() as int));
        }
    }
    let n1 = h1.len() as int;
    let n2 = h2.len() as int;
    if n2 < n1 {
        assert(l2[n2] == 13);
        assert(l1[n2] == h1[n2]);
    }
    if n1 < n2 {
        assert(l1[n1] == 13);
        assert(l2[n1] == h2[n1]);
    }
    assert(h1 =~= h2) by {
        assert forall|k: int| 0 <= k < n1 implies h1[k] == h2[k] by {
            assert(l1[k] == h1[k]);
            assert(l2[k] == h2[k]);
        }
    }
}

/// Bytes that stop inside a frame's header line, or between its CR and
/// LF, stop short of the frame.
pub proof fn lemma_truncated_header(b: Seq<u8>, f: Frame)
    requires
        b.len() > 0,
        f.wf(),
        b[0] == f.tag(),
        precedes(b.skip(1), f.header() + crlf()),
    ensures
        truncates(b, f),
{
    lemma_wire_shape(f);
    let w = f.wire();
    let p = b.skip(1);
    let line = f.header() + crlf();
    assert(p == line.subrange(0, p.len() as int));
    assert(b =~= w.subrange(0, b.len() as int)) by {
        assert forall|k: int| 0 <= k < b.len() implies b[k] == w[k] by {
            if k > 0 {
                assert(p[k - 1] == line[k - 1]);
                if k - 1 < f.hlen() {
                    assert(w[(k - 1) + 1] == f.header()[k - 1]);
                }
            }
        }
    }
}

/// Once the type byte and the header line are those of `f`, the body
/// decides: all of it there, or the bytes stop inside it.
pub proof fn lemma_body_decides(b: Seq<u8>, f: Frame)
    requires
        b.len() > 0,
        f.wf(),
        b[0] == f.tag(),
        (f.header() + crlf()).is_prefix_of(b.skip(1)),
    ensures
        f.body().is_prefix_of(b.skip(3 + f.hlen())) ==> decodes(b, f),
        precedes(b.skip(3 + f.hlen()), f.body()) ==> truncates(b, f),
{
    lemma_wire_shape(f);
    let w = f.wire();
    let p = b.skip(1);
    let line = f.header() + crlf();
    let rest = b.skip(3 + f.hlen());
    let front = seq![f.tag()] + line;
    assert(line == p.subrange(0, line.len() as int));
    assert(front =~= b.subrange(0, front.len() as int)) by {
        assert forall|k: int| 0 <= k < front.len() implies front[k] == b[k] by {
            if k > 0 {
                assert(line[k - 1] == p[k - 1]);
            }
        }
    }
    assert(w =~= front + f.body());
    assert(b.skip(front.len() as int) =~= rest);
    if f.body().is_prefix_of(rest) {
        lemma_prefix_join(front, f.body(), b);
    }
    if precedes(rest, f.body()) {
        lemma_rest_join(front, f.body(), b);
    }
}

/// Whatever fits bytes that hold a whole header line has that line for
/// its header, and its body fits what follows.
pub proof fn lemma_fits_body(b: Seq<u8>, f: Frame, h: Seq<u8>)
    requires
        fits(b, f),
        b.len() > 0,
        is_line(h),
        (h + crlf()).is_prefix_of(b.skip(1)),
    ensures
        f.header() == h,
        f.body().is_prefix_of(b.skip(3 + f.hlen())) || b.skip(3 + f.hlen()).is_prefix_of(
            f.body(),
        ),
        f.body().is_prefix_of(b.skip(3 + f.hlen())) <==> decodes(b, f),
{
    lemma_fits_header(b, f);
    lemma_line_unique(b.skip(1), h, f.header());
    lemma_fits_shape(b, f);
    lemma_body_decides(b, f);
    lemma_wire_shape(f);
    if decodes(b, f) {
        assert(f.body().len() + 3 + f.hlen() <= b.len());
    }
}

/// No bytes at all: a frame may still come.
pub proof fn lemma_decode_empty(b: Seq<u8>)
    requires
        b.len() == 0,
    ensures
        decode(b) == Decoded::NeedMore,
{
    let f = Frame::NullBulk;
    lemma_wire_shape(f);
    assert(b =~= f.wire().subrange(0, 0));
    lemma_decode_truncated(b, f);
}

/// A first byte that is no type byte is a protocol error.
pub proof fn lemma_decode_bad_tag(b: Seq<u8>)
    requires
        b.len() > 0,
        !is_tag(b[0]),
    ensures
        decode(b) == Decoded::ProtocolError,
{
    assert forall|f: Frame| !fits(b, f) by {
        if fits(b, f) {
            lemma_fits_shape(b, f);
            lemma_wire_shape(f);
        }
    }
    lemma_decode_malformed(b);
}

/// Where reading is a protocol error, no frame fits.
pub proof fn lemma_malformed_fits(b: Seq<u8>, f: Frame)
    requires
        decode(b) == Decoded::ProtocolError,
    ensures
        !fits(b, f),
{
    if fits(b, f) {
        if f.wire().is_prefix_of(b) {
            assert(decodes(b, f));
        } else {
            if b.len() >= f.wire().len() {
                assert(b =~= f.wire());
                assert(f.wire() =~= b.subrange(0, f.wire().len() as int));
            }
            assert(truncates(b, f));
        }
    }
}

/// Where the bytes start with a frame, that frame is the only one to fit.
pub proof fn lemma_fits_unique(b: Seq<u8>, d: Frame, f: Frame)
    requires
        decodes(b, d),
        fits(b, f),
    ensures
        f == d,
{
    if f.wire().is_prefix_of(b) {
        lemma_unique(b, f, d);
    } else {
        if b.len() >= f.wire().len() {
            assert(b =~= f.wire());
            assert(f.wire() =~= b.subrange(0, f.wire().len() as int));
        }
        lemma_decode_truncated(b, f);
        lemma_decode_complete(b, d);
    }
}

/// Where the bytes hold no CR or LF before `j`, a header line that fits
/// them starts with those bytes; and where a CR or LF stands at `j`, the
/// line ends there and the bytes go on as CRLF does.
pub proof fn lemma_line_at(p: Seq<u8>, j: int, h: Seq<u8>)
    requires
        is_line(h),
        header_fits(p, h),
        0 <= j <= p.len(),
        is_line(p.take(j)),
        j < p.len() ==> p[j] == 13 || p[j] == 10,
    ensures
        p.take(j).is_prefix_of(h),
        j < p.len() ==> h == p.take(j) && (crlf().is_prefix_of(p.skip(j)) || p.skip(
            j,
        ).is_prefix_of(crlf())),
{
    let l = h + crlf();
    let n = h.len() as int;
    assert forall|k: int| 0 <= k < p.len() && k < l.len() implies p[k] == l[k] by {
        if l.is_prefix_of(p) {
            assert(l == p.subrange(0, l.len() as int));
        } else {
            assert(p == l.subrange(0, p.len() as int));
        }
    }
    if n < j {
        assert(l[n] == 13);
        assert(p.take(j)[n] == p[n]);
    }
    assert(p.take(j) =~= h.subrange(0, j)) by {
        assert forall|k: int| 0 <= k < j implies p.take(j)[k] == h[k] by {
            assert(l[k] == h[k]);
        }
    }
    if j < p.len() {
        if j < n {
            assert(l[j] == h[j]);
        }
        assert(h =~= p.take(j));
        let t = p.skip(j);
        if l.is_prefix_of(p) {
            assert(crlf() =~= t.subrange(0, 2)) by {
                assert(l == p.subrange(0, l.len() as int));
                assert forall|k: int| 0 <= k < 2 implies crlf()[k] == t[k] by {
                    assert(l[n + k] == crlf()[k]);
                }
            }
        } else {
            assert(t =~= crlf().subrange(0, t.len() as int)) by {
                assert(p == l.subrange(0, p.len() as int));
                assert forall|k: int| 0 <= k < t.len() implies crlf()[k] == t[k] by {
                    assert(l[n + k] == crlf()[k]);
                }
            }
        }
    }
}

/// Bytes whose line is still open at `j`, or closed by a start of CRLF,
/// stop short of that line and its CRLF.
pub proof fn lemma_line_closing(p: Seq<u8>, j: int)
    requires
        0 <= j <= p.len(),
        precedes(p.skip(j), crlf()),
    ensures
        precedes(p, p.take(j) + crlf()),
{
    let h = p.take(j);
    assert(h.is_prefix_of(p)) by {
        assert(h =~= p.subrange(0, j));
    }
    lemma_rest_join(h, crlf(), p);
}

/// Bytes whose line is closed by CRLF at `j` start with that line and its
/// CRLF.
pub proof fn lemma_line_closed(p: Seq<u8>, j: int)
    requires
        0 <= j <= p.len(),
        crlf().is_prefix_of(p.skip(j)),
    ensures
        (p.take(j) + crlf()).is_prefix_of(p),
{
    let h = p.take(j);
    assert(h.is_prefix_of(p)) by {
        assert(h =~= p.subrange(0, j));
    }
    lemma_prefix_join(h, crlf(), p);
}

/// Bytes that read as a frame start with that frame.
pub proof fn lemma_complete_decodes(b: Seq<u8>, f: Frame)
    requires
        decode(b) == Decoded::Complete(f),
    ensures
        decodes(b, f),
{
}

} // verus!
