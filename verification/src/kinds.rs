//! The reading of each kind of frame, once its type byte has been seen:
//! text lines, numbers, bulk strings and arrays.

use crate::decimal::{lemma_signed_digits_bytes, lemma_signed_digits_injective, signed_digits};
use crate::decode::{
    decode, decodes, fits, lemma_decode_complete, lemma_decode_malformed, lemma_decode_truncated,
    lemma_wire_shape, truncates, Decoded,
};
use crate::frame::{
    all_wf, crlf, is_line, lemma_wire_all_concat, lemma_wire_all_first, lemma_wire_all_push,
    wire_all, Frame,
};
use crate::reading::{
    header_fits, lemma_body_decides, lemma_fits_body, lemma_fits_header, lemma_fits_unique,
    lemma_malformed_fits, lemma_prefix_join, lemma_prefix_split, lemma_rest_join,
    lemma_rest_prefix, lemma_truncated_header, padding, precedes, zeros,
};
use vstd::prelude::*;

verus! {

/// The least and the greatest number that the header line of a frame with
/// this type byte can hold: any 64-bit integer after `:`, a length or `-1`
/// after `$` and `*`.
pub open spec fn header_range(tag: u8) -> (int, int) {
    if tag == 58 {
        (i64::MIN as int, i64::MAX as int)
    } else {
        (-1, u64::MAX as int)
    }
}

/// The type bytes whose header line is a number.
pub open spec fn is_number_tag(tag: u8) -> bool {
    tag == 58 || tag == 36 || tag == 42
}

/// The type bytes whose header line is free text.
pub open spec fn is_text_tag(tag: u8) -> bool {
    tag == 43 || tag == 45
}

/// The text frame with this type byte and this line.
pub open spec fn text_frame(tag: u8, h: Seq<u8>) -> Frame {
    if tag == 43 {
        Frame::Simple(h)
    } else {
        Frame::Error(h)
    }
}

/// A frame with this type byte and this number in its header line; its
/// body is as short as can be.
pub open spec fn number_frame(tag: u8, i: int) -> Frame {
    if tag == 58 {
        Frame::Integer(i)
    } else if tag == 36 {
        if i < 0 {
            Frame::NullBulk
        } else {
            Frame::Bulk(zeros(i as nat))
        }
    } else {
        if i < 0 {
            Frame::NullArray
        } else {
            Frame::Array(padding(i as nat))
        }
    }
}

/// That frame is well formed, and has that type byte and that number.
pub proof fn lemma_number_frame(tag: u8, i: int)
    requires
        is_number_tag(tag),
        header_range(tag).0 <= i <= header_range(tag).1,
    ensures
        number_frame(tag, i).wf(),
        number_frame(tag, i).tag() == tag,
        number_frame(tag, i).header() == signed_digits(i),
{
    if tag == 42 && i >= 0 {
        let fs = padding(i as nat);
        assert forall|k: int| 0 <= k < fs.len() implies (#[trigger] fs[k]).wf() by {
            assert(fs[k] == Frame::NullBulk);
        }
    }
}

/// A frame whose header line is a number holds one of its range.
pub proof fn lemma_header_number(f: Frame) -> (i: int)
    requires
        f.wf(),
        is_number_tag(f.tag()),
    ensures
        header_range(f.tag()).0 <= i <= header_range(f.tag()).1,
        f.header() == signed_digits(i),
{
    match f {
        Frame::Integer(i) => i,
        Frame::Bulk(s) => s.len() as int,
        Frame::Array(fs) => fs.len() as int,
        _ => -1,
    }
}

/// A text frame's line is not yet at its end: more is needed.
pub proof fn lemma_text_short(b: Seq<u8>, h: Seq<u8>)
    requires
        b.len() > 0,
        is_text_tag(b[0]),
        is_line(h),
        precedes(b.skip(1), h + crlf()),
    ensures
        decode(b) == Decoded::NeedMore,
{
    let f = text_frame(b[0], h);
    lemma_truncated_header(b, f);
    lemma_decode_truncated(b, f);
}

/// A text frame is complete with its line.
pub proof fn lemma_text_complete(b: Seq<u8>, h: Seq<u8>)
    requires
        b.len() > 0,
        is_text_tag(b[0]),
        is_line(h),
        (h + crlf()).is_prefix_of(b.skip(1)),
    ensures
        decode(b) == Decoded::Complete(text_frame(b[0], h)),
        text_frame(b[0], h).wire().len() == h.len() + 3,
{
    let f = text_frame(b[0], h);
    lemma_wire_shape(f);
    assert(f.body() =~= Seq::<u8>::empty());
    assert(f.body() =~= b.skip(3 + f.hlen()).subrange(0, 0));
    lemma_body_decides(b, f);
    lemma_decode_complete(b, f);
}

/// No line fits what follows the type byte: a protocol error.
pub proof fn lemma_line_malformed(b: Seq<u8>)
    requires
        b.len() > 0,
        forall|h: Seq<u8>| is_line(h) ==> !header_fits(b.skip(1), h),
    ensures
        decode(b) == Decoded::ProtocolError,
{
    assert forall|f: Frame| !fits(b, f) by {
        if fits(b, f) {
            lemma_fits_header(b, f);
        }
    }
    lemma_decode_malformed(b);
}

/// The number in the header line is not yet at its end: more is needed.
pub proof fn lemma_number_short(b: Seq<u8>, i: int)
    requires
        b.len() > 0,
        is_number_tag(b[0]),
        header_range(b[0]).0 <= i <= header_range(b[0]).1,
        precedes(b.skip(1), signed_digits(i) + crlf()),
    ensures
        decode(b) == Decoded::NeedMore,
{
    let f = number_frame(b[0], i);
    lemma_number_frame(b[0], i);
    lemma_truncated_header(b, f);
    lemma_decode_truncated(b, f);
}

/// No number of the range fits the header line: a protocol error.
pub proof fn lemma_number_malformed(b: Seq<u8>)
    requires
        b.len() > 0,
        is_number_tag(b[0]),
        forall|i: int|
            header_range(b[0]).0 <= i <= header_range(b[0]).1 ==> !header_fits(
                b.skip(1),
                #[trigger] signed_digits(i),
            ),
    ensures
        decode(b) == Decoded::ProtocolError,
{
    assert forall|f: Frame| !fits(b, f) by {
        if fits(b, f) {
            lemma_fits_header(b, f);
            let i = lemma_header_number(f);
            assert(header_fits(b.skip(1), signed_digits(i)));
        }
    }
    lemma_decode_malformed(b);
}

/// A number frame without a body is complete with its header line: an
/// integer, a null bulk string, a null array.
pub proof fn lemma_number_complete(b: Seq<u8>, i: int)
    requires
        b.len() > 0,
        is_number_tag(b[0]),
        header_range(b[0]).0 <= i <= header_range(b[0]).1,
        b[0] == 58 || i == -1,
        (signed_digits(i) + crlf()).is_prefix_of(b.skip(1)),
    ensures
        decode(b) == Decoded::Complete(number_frame(b[0], i)),
        number_frame(b[0], i).wire().len() == signed_digits(i).len() + 3,
{
    let f = number_frame(b[0], i);
    lemma_number_frame(b[0], i);
    lemma_wire_shape(f);
    assert(f.body() =~= Seq::<u8>::empty());
    assert(f.body() =~= b.skip(3 + f.hlen()).subrange(0, 0));
    lemma_body_decides(b, f);
    lemma_decode_complete(b, f);
}

/// What is known once the header line of a bulk string or an array has
/// been read: the type byte, the length `n`, and the line in the bytes.
pub open spec fn sized(b: Seq<u8>, tag: u8, n: int) -> bool {
    &&& b.len() > 0
    &&& b[0] == tag
    &&& (tag == 36 || tag == 42)
    &&& 0 <= n <= u64::MAX
    &&& (signed_digits(n) + crlf()).is_prefix_of(b.skip(1))
}

/// What follows the header line of such a frame.
pub open spec fn after_header(b: Seq<u8>, n: int) -> Seq<u8> {
    b.skip(3 + signed_digits(n).len() as int)
}

/// Fewer bytes than the bulk string's length announces: more is needed.
pub proof fn lemma_bulk_short(b: Seq<u8>, n: int)
    requires
        sized(b, 36, n),
        after_header(b, n).len() < n,
    ensures
        decode(b) == Decoded::NeedMore,
{
    let rest = after_header(b, n);
    let s = rest + zeros((n - rest.len()) as nat);
    let f = Frame::Bulk(s);
    assert(rest =~= f.body().subrange(0, rest.len() as int));
    lemma_body_decides(b, f);
    lemma_decode_truncated(b, f);
}

/// The bulk string's bytes are there; the CRLF behind them decides.
pub proof fn lemma_bulk_payload(b: Seq<u8>, n: int)
    requires
        sized(b, 36, n),
        after_header(b, n).len() >= n,
    ensures
        ({
            let s = after_header(b, n).take(n);
            let tail = after_header(b, n).skip(n);
            &&& crlf().is_prefix_of(tail) ==> decode(b) == Decoded::Complete(Frame::Bulk(s))
                && Frame::Bulk(s).wire().len() == signed_digits(n).len() + n + 5
            &&& precedes(tail, crlf()) ==> decode(b) == Decoded::NeedMore
            &&& !crlf().is_prefix_of(tail) && !tail.is_prefix_of(crlf()) ==> decode(b)
                == Decoded::ProtocolError
        }),
{
    let rest = after_header(b, n);
    let s = rest.take(n);
    let tail = rest.skip(n);
    let f = Frame::Bulk(s);
    lemma_wire_shape(f);
    assert(s.is_prefix_of(rest)) by {
        assert(s =~= rest.subrange(0, s.len() as int));
    }
    if crlf().is_prefix_of(tail) {
        lemma_prefix_join(s, crlf(), rest);
        lemma_body_decides(b, f);
        lemma_decode_complete(b, f);
    }
    if precedes(tail, crlf()) {
        lemma_rest_join(s, crlf(), rest);
        lemma_body_decides(b, f);
        lemma_decode_truncated(b, f);
    }
    if !crlf().is_prefix_of(tail) && !tail.is_prefix_of(crlf()) {
        assert forall|g: Frame| !fits(b, g) by {
            if fits(b, g) {
                lemma_signed_digits_bytes(n);
                lemma_fits_header(b, g);
                lemma_fits_body(b, g, signed_digits(n));
                match g {
                    Frame::Bulk(t) => {
                        lemma_signed_digits_injective(t.len() as int, n);
                        if g.body().is_prefix_of(rest) {
                            lemma_prefix_split(t, crlf(), rest);
                        } else {
                            assert(t =~= rest.subrange(0, n)) by {
                                assert(rest == g.body().subrange(0, rest.len() as int));
                                assert forall|k: int| 0 <= k < n implies t[k] == rest[k] by {
                                    assert(g.body()[k] == t[k]);
                                }
                            }
                            lemma_rest_prefix(t, crlf(), rest);
                        }
                    },
                    _ => {
                        lemma_signed_digits_injective(-1, n);
                    },
                }
            }
        }
        lemma_decode_malformed(b);
    }
}

/// What is known while an array's elements are read: `done` are the ones
/// read so far, and their bytes are what follows the header line.
pub open spec fn elements_read(b: Seq<u8>, n: int, done: Seq<Frame>) -> bool {
    &&& sized(b, 42, n)
    &&& all_wf(done)
    &&& done.len() <= n
    &&& wire_all(done).is_prefix_of(after_header(b, n))
}

/// The bytes behind the elements read so far.
pub open spec fn next_element(b: Seq<u8>, n: int, done: Seq<Frame>) -> Seq<u8> {
    after_header(b, n).skip(wire_all(done).len() as int)
}

/// All elements read: the array is complete.
pub proof fn lemma_array_complete(b: Seq<u8>, n: int, done: Seq<Frame>)
    requires
        elements_read(b, n, done),
        done.len() == n,
    ensures
        decode(b) == Decoded::Complete(Frame::Array(done)),
        Frame::Array(done).wire().len() == signed_digits(n).len() + 3 + wire_all(done).len(),
{
    let f = Frame::Array(done);
    lemma_wire_shape(f);
    lemma_body_decides(b, f);
    lemma_decode_complete(b, f);
}

/// One more element read.
pub proof fn lemma_array_step(b: Seq<u8>, n: int, done: Seq<Frame>, f: Frame)
    requires
        elements_read(b, n, done),
        done.len() < n,
        decodes(next_element(b, n, done), f),
    ensures
        elements_read(b, n, done.push(f)),
        wire_all(done.push(f)).len() == wire_all(done).len() + f.wire().len(),
        next_element(b, n, done.push(f)) == next_element(b, n, done).skip(f.wire().len() as int),
{
    lemma_wire_all_push(done, f);
    lemma_prefix_join(wire_all(done), f.wire(), after_header(b, n));
    assert(next_element(b, n, done.push(f)) =~= next_element(b, n, done).skip(
        f.wire().len() as int,
    ));
}

/// The next element stops short: so does the array.
pub proof fn lemma_array_short(b: Seq<u8>, n: int, done: Seq<Frame>)
    requires
        elements_read(b, n, done),
        done.len() < n,
        decode(next_element(b, n, done)) == Decoded::NeedMore,
    ensures
        decode(b) == Decoded::NeedMore,
{
    let e = next_element(b, n, done);
    let rest = after_header(b, n);
    let w = choose|w: Frame| truncates(e, w);
    let pad = padding((n - done.len() - 1) as nat);
    let fs = done.push(w) + pad;
    let f = Frame::Array(fs);
    assert(all_wf(fs)) by {
        assert forall|i: int| 0 <= i < fs.len() implies (#[trigger] fs[i]).wf() by {
            if i < done.len() {
                assert(fs[i] == done[i]);
            }
        }
    }
    lemma_wire_all_concat(done.push(w), pad);
    lemma_wire_all_push(done, w);
    let more = w.wire() + wire_all(pad);
    assert(f.body() =~= wire_all(done) + more);
    assert(e.is_prefix_of(more)) by {
        assert(e == w.wire().subrange(0, e.len() as int));
        assert(e =~= more.subrange(0, e.len() as int));
    }
    lemma_rest_join(wire_all(done), more, rest);
    assert(wire_all(done) == rest.subrange(0, wire_all(done).len() as int));
    lemma_body_decides(b, f);
    lemma_decode_truncated(b, f);
}

/// Of a run of frames that fits the bytes, the frame behind the ones
/// already read fits the bytes behind them.
pub proof fn lemma_fits_all(rest: Seq<u8>, done: Seq<Frame>, fs: Seq<Frame>)
    requires
        all_wf(done),
        all_wf(fs),
        done.len() < fs.len(),
        wire_all(done).is_prefix_of(rest),
        wire_all(fs).is_prefix_of(rest) || rest.is_prefix_of(wire_all(fs)),
    ensures
        fits(rest.skip(wire_all(done).len() as int), fs[done.len() as int]),
    decreases done.len(),
{
    lemma_wire_all_first(fs);
    let f0 = fs[0];
    let ft = fs.drop_first();
    let w0 = f0.wire();
    assert(w0.is_prefix_of(w0 + wire_all(ft))) by {
        assert(w0 =~= (w0 + wire_all(ft)).subrange(0, w0.len() as int));
    }
    assert(fits(rest, f0)) by {
        if wire_all(fs).is_prefix_of(rest) {
            lemma_prefix_split(w0, wire_all(ft), rest);
        } else {
            assert(rest == wire_all(fs).subrange(0, rest.len() as int));
            if rest.len() >= w0.len() {
                assert(w0 =~= rest.subrange(0, w0.len() as int));
            } else {
                assert(rest =~= w0.subrange(0, rest.len() as int));
            }
        }
    }
    if done.len() == 0 {
        assert(wire_all(done) =~= Seq::<u8>::empty());
        assert(rest.skip(0) =~= rest);
    } else {
        lemma_wire_all_first(done);
        let d0 = done[0];
        let dt = done.drop_first();
        lemma_prefix_split(d0.wire(), wire_all(dt), rest);
        lemma_fits_unique(rest, d0, f0);
        let tail = rest.skip(w0.len() as int);
        assert(wire_all(ft).is_prefix_of(tail) || tail.is_prefix_of(wire_all(ft))) by {
            if wire_all(fs).is_prefix_of(rest) {
                lemma_prefix_split(w0, wire_all(ft), rest);
            } else {
                lemma_rest_prefix(w0, wire_all(ft), rest);
            }
        }
        assert(all_wf(dt)) by {
            assert forall|i: int| 0 <= i < dt.len() implies (#[trigger] dt[i]).wf() by {
                assert(dt[i] == done[i + 1]);
            }
        }
        assert(all_wf(ft)) by {
            assert forall|i: int| 0 <= i < ft.len() implies (#[trigger] ft[i]).wf() by {
                assert(ft[i] == fs[i + 1]);
            }
        }
        lemma_fits_all(tail, dt, ft);
        assert(tail.skip(wire_all(dt).len() as int) =~= rest.skip(wire_all(done).len() as int));
        assert(ft[dt.len() as int] == fs[done.len() as int]);
    }
}

/// The next element is a protocol error: so is the array.
pub proof fn lemma_array_malformed(b: Seq<u8>, n: int, done: Seq<Frame>)
    requires
        elements_read(b, n, done),
        done.len() < n,
        decode(next_element(b, n, done)) == Decoded::ProtocolError,
    ensures
        decode(b) == Decoded::ProtocolError,
{
    let rest = after_header(b, n);
    assert forall|g: Frame| !fits(b, g) by {
        if fits(b, g) {
            lemma_signed_digits_bytes(n);
            lemma_fits_header(b, g);
            lemma_fits_body(b, g, signed_digits(n));
            match g {
                Frame::Array(fs) => {
                    lemma_signed_digits_injective(fs.len() as int, n);
                    lemma_fits_all(rest, done, fs);
                    lemma_malformed_fits(next_element(b, n, done), fs[done.len() as int]);
                },
                _ => {
                    lemma_signed_digits_injective(-1, n);
                },
            }
        }
    }
    lemma_decode_malformed(b);
}

} // verus!
