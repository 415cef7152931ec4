//! The executable frame codec: `RespType`, its serializer, and the reader
//! that takes one frame off the front of a byte buffer.

use crate::command::classify;
use crate::decimal::{
    is_digit, lemma_digits_value, lemma_signed_digits_bytes, lemma_signed_prefix, push_decimal,
    read_number, read_u64, signed_digits,
};
use crate::decode::{decode, Decoded};
use crate::frame::{crlf, is_line, lemma_wire_all_push, wire_all, Frame};
use crate::kinds::{
    after_header, elements_read, header_range, is_text_tag, lemma_array_complete,
    lemma_array_malformed, lemma_array_short, lemma_array_step, lemma_bulk_payload,
    lemma_bulk_short, lemma_line_malformed, lemma_number_complete, lemma_number_malformed,
    lemma_number_short, lemma_text_complete, lemma_text_short, next_element, sized,
};
use crate::reading::{
    header_fits, lemma_complete_decodes, lemma_decode_bad_tag, lemma_decode_empty, lemma_line_at,
    lemma_line_closed, lemma_line_closing, precedes,
};
use crate::text::{bytes_of, is_word, lemma_same_word_len};
use vstd::prelude::*;
use vstd::slice::slice_subrange;

verus! {

/// One frame of the protocol. Text and bulk payloads are held as the bytes
/// that stand on the wire.
#[derive(Debug, PartialEq, Eq)]
pub enum RespType {
    Array(Vec<RespType>),
    BulkString(Vec<u8>),
    SimpleString(Vec<u8>),
    Error(Vec<u8>),
    Integer(i64),
    NullBulkString,
    NullArray,
}

impl RespType {
    /// The frame as a mathematical value.
    pub open spec fn model(self) -> Frame
        decreases self,
    {
        match self {
            RespType::Array(v) => Frame::Array(models(v@)),
            RespType::BulkString(s) => Frame::Bulk(s@),
            RespType::SimpleString(s) => Frame::Simple(s@),
            RespType::Error(s) => Frame::Error(s@),
            RespType::Integer(i) => Frame::Integer(i as int),
            RespType::NullBulkString => Frame::NullBulk,
            RespType::NullArray => Frame::NullArray,
        }
    }
}

/// The mathematical values of a run of frames.
pub open spec fn models(v: Seq<RespType>) -> Seq<Frame>
    decreases v,
{
    if v.len() == 0 {
        Seq::empty()
    } else {
        models(v.drop_last()).push(v.last().model())
    }
}

impl View for RespType {
    type V = Frame;

    open spec fn view(&self) -> Frame {
        self.model()
    }
}

/// The values of a run are the values of its frames, in order.
pub proof fn lemma_models(v: Seq<RespType>)
    ensures
        models(v).len() == v.len(),
        forall|i: int| 0 <= i < v.len() ==> #[trigger] models(v)[i] == v[i]@,
    decreases v.len(),
{
    if v.len() > 0 {
        lemma_models(v.drop_last());
        assert forall|i: int| 0 <= i < v.len() implies #[trigger] models(v)[i] == v[i]@ by {
            if i < v.len() - 1 {
                assert(v.drop_last()[i] == v[i]);
            }
        }
    }
}

/// The values of a run with one more frame.
pub proof fn lemma_models_push(v: Seq<RespType>, x: RespType)
    ensures
        models(v.push(x)) == models(v).push(x@),
{
    assert(v.push(x).drop_last() =~= v);
}

/// Appends the bytes of `s`.
pub fn push_bytes(out: &mut Vec<u8>, s: &[u8])
    ensures
        final(out)@ == old(out)@ + s@,
{
    let mut i: usize = 0;
    while i < s.len()
        invariant
            i <= s.len(),
            out@ == old(out)@ + s@.take(i as int),
        decreases s.len() - i,
    {
        out.push(s[i]);
        i = i + 1;
        proof {
            assert(s@.take(i as int) =~= s@.take(i - 1).push(s@[i - 1]));
            assert(out@ =~= old(out)@ + s@.take(i as int));
        }
    }
    proof {
        assert(s@.take(i as int) =~= s@);
    }
}

/// Appends CR and LF.
pub fn push_crlf(out: &mut Vec<u8>)
    ensures
        final(out)@ == old(out)@ + crlf(),
{
    out.push(13);
    out.push(10);
    proof {
        assert(final(out)@ =~= old(out)@ + crlf());
    }
}

/// Appends the decimal text of a signed number.
pub fn push_signed(out: &mut Vec<u8>, i: i64)
    ensures
        final(out)@ == old(out)@ + signed_digits(i as int),
{
    if i < 0 {
        out.push(45);
        let m: u64 = if i == i64::MIN {
            9223372036854775808u64
        } else {
            (-i) as u64
        };
        push_decimal(out, m);
        proof {
            assert(final(out)@ =~= old(out)@ + signed_digits(i as int));
        }
    } else {
        push_decimal(out, i as u64);
    }
}

/// A copy of the bytes of `s`.
pub fn copy_bytes(s: &[u8]) -> (out: Vec<u8>)
    ensures
        out@ == s@,
{
    let mut out: Vec<u8> = Vec::new();
    push_bytes(&mut out, s);
    proof {
        assert(out@ =~= s@);
    }
    out
}

impl Clone for RespType {
    fn clone(&self) -> (out: Self)
        ensures
            out@ == self@,
    {
        self.duplicate()
    }
}

impl RespType {
    /// A copy of the frame.
    #[verifier::loop_isolation(false)]
    pub fn duplicate(&self) -> (out: RespType)
        ensures
            out@ == self@,
        decreases self,
    {
        match self {
            RespType::SimpleString(s) => RespType::SimpleString(copy_bytes(s.as_slice())),
            RespType::Error(s) => RespType::Error(copy_bytes(s.as_slice())),
            RespType::BulkString(s) => RespType::BulkString(copy_bytes(s.as_slice())),
            RespType::Integer(i) => RespType::Integer(*i),
            RespType::NullBulkString => RespType::NullBulkString,
            RespType::NullArray => RespType::NullArray,
            RespType::Array(v) => {
                let mut items: Vec<RespType> = Vec::new();
                let mut i: usize = 0;
                while i < v.len()
                    invariant
                        i <= v.len(),
                        models(items@) == models(v@.take(i as int)),
                    decreases v.len() - i,
                {
                    let item = v[i].duplicate();
                    proof {
                        assert(v@.take(i + 1) =~= v@.take(i as int).push(v@[i as int]));
                        lemma_models_push(v@.take(i as int), v@[i as int]);
                        lemma_models_push(items@, item);
                    }
                    items.push(item);
                    i = i + 1;
                }
                proof {
                    assert(v@.take(i as int) =~= v@);
                }
                RespType::Array(items)
            },
        }
    }

    /// The frame's bytes on the wire.
    pub fn to_resp_string(&self) -> (out: Vec<u8>)
        ensures
            out@ == self@.wire(),
    {
        let mut out: Vec<u8> = Vec::new();
        self.write_to(&mut out);
        proof {
            assert(out@ =~= self@.wire());
        }
        out
    }

    /// Appends the frame's bytes on the wire.
    #[verifier::loop_isolation(false)]
    pub fn write_to(&self, out: &mut Vec<u8>)
        ensures
            final(out)@ == old(out)@ + self@.wire(),
        decreases self,
    {
        let ghost before = out@;
        match self {
            RespType::SimpleString(s) => {
                out.push(43);
                push_bytes(out, s.as_slice());
                push_crlf(out);
                proof {
                    assert(self@.body() =~= Seq::<u8>::empty());
                    assert(out@ =~= before + self@.wire());
                }
            },
            RespType::Error(s) => {
                out.push(45);
                push_bytes(out, s.as_slice());
                push_crlf(out);
                proof {
                    assert(self@.body() =~= Seq::<u8>::empty());
                    assert(out@ =~= before + self@.wire());
                }
            },
            RespType::Integer(i) => {
                out.push(58);
                push_signed(out, *i);
                push_crlf(out);
                proof {
                    assert(self@.body() =~= Seq::<u8>::empty());
                    assert(out@ =~= before + self@.wire());
                }
            },
            RespType::BulkString(s) => {
                out.push(36);
                push_decimal(out, s.len() as u64);
                push_crlf(out);
                push_bytes(out, s.as_slice());
                push_crlf(out);
                proof {
                    assert(out@ =~= before + self@.wire());
                }
            },
            RespType::NullBulkString => {
                out.push(36);
                push_signed(out, -1);
                push_crlf(out);
                proof {
                    assert(self@.body() =~= Seq::<u8>::empty());
                    assert(out@ =~= before + self@.wire());
                }
            },
            RespType::NullArray => {
                out.push(42);
                push_signed(out, -1);
                push_crlf(out);
                proof {
                    assert(self@.body() =~= Seq::<u8>::empty());
                    assert(out@ =~= before + self@.wire());
                }
            },
            RespType::Array(v) => {
                out.push(42);
                push_decimal(out, v.len() as u64);
                push_crlf(out);
                let ghost head = out@;
                proof {
                    lemma_models(v@);
                    assert(head =~= before + seq![42u8] + signed_digits(v.len() as int) + crlf());
                    assert(wire_all(models(v@.take(0))) =~= Seq::<u8>::empty());
                }
                let mut i: usize = 0;
                while i < v.len()
                    invariant
                        i <= v.len(),
                        out@ == head + wire_all(models(v@.take(i as int))),
                    decreases v.len() - i,
                {
                    v[i].write_to(out);
                    proof {
                        assert(v@.take(i + 1) =~= v@.take(i as int).push(v@[i as int]));
                        lemma_models_push(v@.take(i as int), v@[i as int]);
                        lemma_wire_all_push(models(v@.take(i as int)), v@[i as int]@);
                        assert(out@ =~= head + wire_all(models(v@.take(i + 1))));
                    }
                    i = i + 1;
                }
                proof {
                    assert(v@.take(i as int) =~= v@);
                    assert(out@ =~= before + self@.wire());
                }
            },
        }
    }
}

/// Why no frame was read.
#[derive(Debug, Clone, Copy, PartialEq, Eq, Structural)]
pub enum ParseError {
    /// The bytes are the start of a frame and stop short of its end.
    NeedMore,
    /// The bytes are the start of no frame: the connection is to be closed.
    Protocol,
}

/// A reader's result as a reading.
pub open spec fn outcome(r: Result<(RespType, usize), ParseError>) -> Decoded {
    match r {
        Ok((v, _)) => Decoded::Complete(v@),
        Err(ParseError::NeedMore) => Decoded::NeedMore,
        Err(ParseError::Protocol) => Decoded::ProtocolError,
    }
}

/// `r` is the reading of the front of `input`; with a frame comes the
/// number of bytes it took, which is the length of its wire form.
pub open spec fn reads(input: Seq<u8>, r: Result<(RespType, usize), ParseError>) -> bool {
    &&& outcome(r) == decode(input)
    &&& r matches Ok((v, used)) ==> used == v@.wire().len() && used <= input.len()
}

/// The reading of the front of `b` by a reader that takes frames with one
/// type byte only: any other first byte is a protocol error to it.
pub open spec fn decode_tagged(b: Seq<u8>, tag: u8) -> Decoded {
    if b.len() == 0 {
        Decoded::NeedMore
    } else if b[0] != tag {
        Decoded::ProtocolError
    } else {
        decode(b)
    }
}

/// As `reads`, for a reader of one type byte.
pub open spec fn reads_tagged(
    input: Seq<u8>,
    tag: u8,
    r: Result<(RespType, usize), ParseError>,
) -> bool {
    &&& outcome(r) == decode_tagged(input, tag)
    &&& r matches Ok((v, used)) ==> used == v@.wire().len() && used <= input.len()
}

/// The index of the first CR or LF, or the length where there is none.
fn scan_line(input: &[u8]) -> (j: usize)
    ensures
        j <= input.len(),
        is_line(input@.take(j as int)),
        j < input.len() ==> input@[j as int] == 13 || input@[j as int] == 10,
{
    let mut j: usize = 0;
    while j < input.len() && input[j] != 13 && input[j] != 10
        invariant
            j <= input.len(),
            is_line(input@.take(j as int)),
        decreases input.len() - j,
    {
        j = j + 1;
    }
    j
}

/// Takes CR and LF off the front of `input`: `Ok` where it starts with
/// them, `NeedMore` where it is empty or a lone CR, a protocol error for
/// anything else.
pub fn consume_crlf(input: &[u8]) -> (r: Result<(), ParseError>)
    ensures
        match r {
            Ok(()) => crlf().is_prefix_of(input@),
            Err(ParseError::NeedMore) => precedes(input@, crlf()),
            Err(ParseError::Protocol) => !crlf().is_prefix_of(input@) && !input@.is_prefix_of(
                crlf(),
            ),
        },
{
    if input.len() == 0 {
        proof {
            assert(input@ =~= crlf().subrange(0, 0));
        }
        return Err(ParseError::NeedMore);
    }
    if input[0] != 13 {
        proof {
            if crlf().is_prefix_of(input@) {
                assert(crlf() == input@.subrange(0, 2));
                assert(crlf()[0] == input@[0]);
            }
            if input@.is_prefix_of(crlf()) {
                assert(input@ == crlf().subrange(0, input@.len() as int));
                assert(crlf()[0] == input@[0]);
            }
        }
        return Err(ParseError::Protocol);
    }
    if input.len() == 1 {
        proof {
            assert(input@ =~= crlf().subrange(0, 1));
        }
        return Err(ParseError::NeedMore);
    }
    if input[1] != 10 {
        proof {
            if crlf().is_prefix_of(input@) {
                assert(crlf() == input@.subrange(0, 2));
                assert(crlf()[1] == input@[1]);
            }
            if input@.is_prefix_of(crlf()) {
                assert(input@ == crlf().subrange(0, input@.len() as int));
                assert(crlf()[1] == input@[1]);
            }
        }
        return Err(ParseError::Protocol);
    }
    proof {
        assert(crlf() =~= input@.subrange(0, 2));
    }
    Ok(())
}

/// Reads a header line off the front of `input`: the bytes before the
/// first CRLF, none of them CR or LF, and the number of bytes taken with
/// the CRLF. `NeedMore` where the input stops inside such a line or
/// between its CR and LF; a protocol error where no line starts like this
/// (a bare LF, or a CR with anything but LF behind it).
pub fn parse_until_crlf(input: &[u8]) -> (r: Result<(Vec<u8>, usize), ParseError>)
    ensures
        match r {
            Ok((line, used)) => is_line(line@) && (line@ + crlf()).is_prefix_of(input@) && used
                == line@.len() + 2,
            Err(ParseError::NeedMore) => exists|h: Seq<u8>|
                is_line(h) && precedes(input@, h + crlf()),
            Err(ParseError::Protocol) => forall|h: Seq<u8>|
                is_line(h) ==> !header_fits(input@, h),
        },
{
    let j = scan_line(input);
    let closing = consume_crlf(slice_subrange(input, j, input.len()));
    proof {
        assert(input@.subrange(j as int, input@.len() as int) =~= input@.skip(j as int));
    }
    match closing {
        Ok(()) => {
            let line = copy_bytes(slice_subrange(input, 0, j));
            proof {
                assert(line@ =~= input@.take(j as int));
                lemma_line_closed(input@, j as int);
            }
            Ok((line, j + 2))
        },
        Err(ParseError::NeedMore) => {
            proof {
                lemma_line_closing(input@, j as int);
                assert(is_line(input@.take(j as int)));
            }
            Err(ParseError::NeedMore)
        },
        Err(ParseError::Protocol) => {
            proof {
                assert forall|h: Seq<u8>| is_line(h) implies !header_fits(input@, h) by {
                    if header_fits(input@, h) {
                        lemma_line_at(input@, j as int, h);
                        if j == input@.len() {
                            assert(input@.skip(j as int) =~= crlf().subrange(0, 0));
                        }
                    }
                }
            }
            Err(ParseError::Protocol)
        },
    }
}

/// Reads a header line that holds a number between `lo` and `hi` off the
/// front of `p`: the number and the bytes taken with the CRLF.
pub fn read_number_line(p: &[u8], lo: i128, hi: i128) -> (r: Result<(i128, usize), ParseError>)
    requires
        -(u64::MAX as int) <= lo <= 0,
        0 <= hi <= u64::MAX as int,
    ensures
        match r {
            Ok((i, used)) => lo <= i <= hi && (signed_digits(i as int) + crlf()).is_prefix_of(p@)
                && used == signed_digits(i as int).len() + 2,
            Err(ParseError::NeedMore) => exists|i: int|
                lo <= i <= hi && precedes(p@, #[trigger] signed_digits(i) + crlf()),
            Err(ParseError::Protocol) => forall|i: int|
                lo <= i <= hi ==> !header_fits(p@, #[trigger] signed_digits(i)),
        },
{
    let j = scan_line(p);
    let closing = consume_crlf(slice_subrange(p, j, p.len()));
    let ghost q = p@.take(j as int);
    proof {
        assert(p@.subrange(j as int, p@.len() as int) =~= p@.skip(j as int));
        assert(p@.subrange(0, j as int) =~= q);
        assert forall|i: int| header_fits(p@, #[trigger] signed_digits(i)) implies q.is_prefix_of(
            signed_digits(i),
        ) && (j < p@.len() ==> signed_digits(i) == q && !(closing is Err && closing->Err_0
            == ParseError::Protocol)) by {
            lemma_signed_digits_bytes(i);
            lemma_line_at(p@, j as int, signed_digits(i));
        }
    }
    if matches!(closing, Err(ParseError::Protocol)) {
        proof {
            if j == p@.len() {
                assert(p@.skip(j as int) =~= crlf().subrange(0, 0));
            }
        }
        return Err(ParseError::Protocol);
    }
    if j == p.len() {
        if j == 0 {
            proof {
                lemma_signed_digits_bytes(0);
                assert(p@ =~= (signed_digits(0) + crlf()).subrange(0, 0));
            }
            return Err(ParseError::NeedMore);
        }
        if j == 1 && p[0] == 45 && lo < 0 {
            proof {
                lemma_signed_digits_bytes(-1);
                assert(signed_digits(-1)[0] == 45);
                assert(p@ =~= (signed_digits(-1) + crlf()).subrange(0, 1));
            }
            return Err(ParseError::NeedMore);
        }
    }
    let number = read_number(slice_subrange(p, 0, j), lo, hi);
    match number {
        None => {
            proof {
                assert forall|i: int| lo <= i <= hi implies !header_fits(
                    p@,
                    #[trigger] signed_digits(i),
                ) by {
                    if header_fits(p@, signed_digits(i)) {
                        if j == p@.len() {
                            assert(q =~= p@);
                            if q =~= seq![45u8] {
                                assert(q[0] == 45);
                                assert(q[0] == signed_digits(i)[0]) by {
                                    assert(q == signed_digits(i).subrange(0, 1));
                                }
                                if i >= 0 {
                                    lemma_digits_value(i as nat);
                                    assert(is_digit(signed_digits(i)[0]));
                                }
                            } else {
                                let k = lemma_signed_prefix(q, i);
                                assert(lo <= k <= hi);
                            }
                        }
                    }
                }
            }
            Err(ParseError::Protocol)
        },
        Some(i) => {
            match closing {
                Ok(()) => {
                    proof {
                        lemma_line_closed(p@, j as int);
                    }
                    Ok((i, j + 2))
                },
                _ => {
                    proof {
                        lemma_line_closing(p@, j as int);
                    }
                    Err(ParseError::NeedMore)
                },
            }
        },
    }
}

/// Reads a text frame with the type byte `tag`.
fn parse_text(input: &[u8], tag: u8) -> (r: Result<(RespType, usize), ParseError>)
    requires
        is_text_tag(tag),
    ensures
        reads_tagged(input@, tag, r),
{
    if input.len() == 0 {
        return Err(ParseError::NeedMore);
    }
    if input[0] != tag {
        return Err(ParseError::Protocol);
    }
    let line = parse_until_crlf(slice_subrange(input, 1, input.len()));
    proof {
        assert(input@.subrange(1, input@.len() as int) =~= input@.skip(1));
    }
    match line {
        Ok((text, used)) => {
            proof {
                lemma_text_complete(input@, text@);
                assert((text@ + crlf()).len() <= input@.skip(1).len());
            }
            if tag == 43 {
                Ok((RespType::SimpleString(text), used + 1))
            } else {
                Ok((RespType::Error(text), used + 1))
            }
        },
        Err(ParseError::NeedMore) => {
            proof {
                let h = choose|h: Seq<u8>| is_line(h) && precedes(input@.skip(1), h + crlf());
                lemma_text_short(input@, h);
            }
            Err(ParseError::NeedMore)
        },
        Err(ParseError::Protocol) => {
            proof {
                lemma_line_malformed(input@);
            }
            Err(ParseError::Protocol)
        },
    }
}

/// Reads a simple string (`+`, a line, CRLF) off the front of `input`.
pub fn parse_simple_string(input: &[u8]) -> (r: Result<(RespType, usize), ParseError>)
    ensures
        reads_tagged(input@, 43, r),
{
    parse_text(input, 43)
}

/// Reads an error (`-`, a line, CRLF) off the front of `input`.
pub fn parse_error(input: &[u8]) -> (r: Result<(RespType, usize), ParseError>)
    ensures
        reads_tagged(input@, 45, r),
{
    parse_text(input, 45)
}

/// Reads the header line of a frame whose header is a number: the number
/// and the index behind the line's CRLF.
fn read_sized_header(input: &[u8], tag: u8) -> (r: Result<(i128, usize), ParseError>)
    requires
        tag == 58 || tag == 36 || tag == 42,
    ensures
        match r {
            Ok((i, start)) => {
                &&& input@.len() > 0
                &&& input@[0] == tag
                &&& header_range(tag).0 <= i <= header_range(tag).1
                &&& (signed_digits(i as int) + crlf()).is_prefix_of(input@.skip(1))
                &&& start == signed_digits(i as int).len() + 3
                &&& start <= input@.len()
            },
            Err(ParseError::NeedMore) => decode_tagged(input@, tag) == Decoded::NeedMore,
            Err(ParseError::Protocol) => decode_tagged(input@, tag) == Decoded::ProtocolError,
        },
{
    if input.len() == 0 {
        return Err(ParseError::NeedMore);
    }
    if input[0] != tag {
        return Err(ParseError::Protocol);
    }
    let lo: i128 = if tag == 58 { -9223372036854775808i128 } else { -1i128 };
    let hi: i128 = if tag == 58 { 9223372036854775807i128 } else { 18446744073709551615i128 };
    let line = read_number_line(slice_subrange(input, 1, input.len()), lo, hi);
    proof {
        assert(input@.subrange(1, input@.len() as int) =~= input@.skip(1));
    }
    match line {
        Ok((i, used)) => {
            proof {
                assert((signed_digits(i as int) + crlf()).len() <= input@.skip(1).len());
            }
            Ok((i, used + 1))
        },
        Err(ParseError::NeedMore) => {
            proof {
                let i = choose|i: int|
                    lo <= i <= hi && precedes(input@.skip(1), #[trigger] signed_digits(i) + crlf());
                lemma_number_short(input@, i);
            }
            Err(ParseError::NeedMore)
        },
        Err(ParseError::Protocol) => {
            proof {
                lemma_number_malformed(input@);
            }
            Err(ParseError::Protocol)
        },
    }
}

/// Reads an integer (`:`, a decimal number of 64 bits, CRLF) off the front
/// of `input`.
pub fn parse_integer(input: &[u8]) -> (r: Result<(RespType, usize), ParseError>)
    ensures
        reads_tagged(input@, 58, r),
{
    match read_sized_header(input, 58) {
        Ok((i, start)) => {
            proof {
                lemma_number_complete(input@, i as int);
            }
            Ok((RespType::Integer(i as i64), start))
        },
        Err(e) => Err(e),
    }
}

/// Reads a bulk string off the front of `input`: `$`, the length, CRLF,
/// that many bytes taken as they are, CRLF; or the null bulk string
/// `$-1` CRLF.
pub fn parse_bulk_string(input: &[u8]) -> (r: Result<(RespType, usize), ParseError>)
    ensures
        reads_tagged(input@, 36, r),
{
    match read_sized_header(input, 36) {
        Ok((n, start)) => {
            if n < 0 {
                proof {
                    lemma_number_complete(input@, n as int);
                }
                return Ok((RespType::NullBulkString, start));
            }
            let available: usize = input.len() - start;
            proof {
                assert(sized(input@, 36, n as int));
                assert(after_header(input@, n as int) =~= input@.skip(start as int));
            }
            if (available as i128) < n {
                proof {
                    lemma_bulk_short(input@, n as int);
                }
                return Err(ParseError::NeedMore);
            }
            let len: usize = n as usize;
            let end: usize = start + len;
            let closing = consume_crlf(slice_subrange(input, end, input.len()));
            proof {
                lemma_bulk_payload(input@, n as int);
                assert(input@.subrange(end as int, input@.len() as int) =~= after_header(
                    input@,
                    n as int,
                ).skip(n as int));
                assert(input@.subrange(start as int, end as int) =~= after_header(
                    input@,
                    n as int,
                ).take(n as int));
            }
            match closing {
                Ok(()) => {
                    let value = copy_bytes(slice_subrange(input, start, end));
                    proof {
                        assert(crlf().len() <= input@.len() - end);
                    }
                    Ok((RespType::BulkString(value), end + 2))
                },
                Err(e) => Err(e),
            }
        },
        Err(e) => Err(e),
    }
}

/// Reads an array off the front of `input`: `*`, the number of elements,
/// CRLF, then that many frames of any kind; or the null array `*-1` CRLF.
#[verifier::loop_isolation(false)]
pub fn parse_array(input: &[u8]) -> (r: Result<(RespType, usize), ParseError>)
    ensures
        reads_tagged(input@, 42, r),
    decreases input@.len(), 0int,
{
    match read_sized_header(input, 42) {
        Ok((n, start)) => {
            if n < 0 {
                proof {
                    lemma_number_complete(input@, n as int);
                }
                return Ok((RespType::NullArray, start));
            }
            let count: u64 = n as u64;
            let mut items: Vec<RespType> = Vec::new();
            let mut at: usize = start;
            let mut k: u64 = 0;
            proof {
                assert(sized(input@, 42, n as int));
                assert(after_header(input@, n as int) =~= input@.skip(start as int));
                assert(wire_all(models(items@)) =~= Seq::<u8>::empty());
                assert(Seq::<u8>::empty() =~= after_header(input@, n as int).subrange(0, 0));
            }
            while k < count
                invariant
                    elements_read(input@, n as int, models(items@)),
                    models(items@).len() == k,
                    k <= count,
                    start <= at <= input@.len(),
                    at == start + wire_all(models(items@)).len(),
                decreases count - k,
            {
                let ghost done = models(items@);
                let element = parse_value(slice_subrange(input, at, input.len()));
                proof {
                    assert(input@.subrange(at as int, input@.len() as int) =~= next_element(
                        input@,
                        n as int,
                        done,
                    ));
                }
                match element {
                    Ok((item, used)) => {
                        proof {
                            lemma_complete_decodes(next_element(input@, n as int, done), item@);
                            lemma_array_step(input@, n as int, done, item@);
                            lemma_models_push(items@, item);
                        }
                        items.push(item);
                        at = at + used;
                        k = k + 1;
                    },
                    Err(ParseError::NeedMore) => {
                        proof {
                            lemma_array_short(input@, n as int, done);
                        }
                        return Err(ParseError::NeedMore);
                    },
                    Err(ParseError::Protocol) => {
                        proof {
                            lemma_array_malformed(input@, n as int, done);
                        }
                        return Err(ParseError::Protocol);
                    },
                }
            }
            proof {
                lemma_array_complete(input@, n as int, models(items@));
            }
            Ok((RespType::Array(items), at))
        },
        Err(e) => Err(e),
    }
}

/// Reads one frame off the front of `input`, its kind told by the first
/// byte: the frame and the number of bytes it took, `NeedMore` where the
/// input stops short inside a frame, a protocol error where no frame
/// starts like this. Bytes behind the frame are not looked at.
pub fn parse_value(input: &[u8]) -> (r: Result<(RespType, usize), ParseError>)
    ensures
        reads(input@, r),
    decreases input@.len(), 1int,
{
    if input.len() == 0 {
        proof {
            lemma_decode_empty(input@);
        }
        return Err(ParseError::NeedMore);
    }
    let tag: u8 = input[0];
    if tag == 43 {
        parse_simple_string(input)
    } else if tag == 45 {
        parse_error(input)
    } else if tag == 58 {
        parse_integer(input)
    } else if tag == 36 {
        parse_bulk_string(input)
    } else if tag == 42 {
        parse_array(input)
    } else {
        proof {
            lemma_decode_bad_tag(input@);
        }
        Err(ParseError::Protocol)
    }
}

/// Reads one frame off the front of `input`. See `parse_value`.
pub fn parse_resp(input: &[u8]) -> (r: Result<(RespType, usize), ParseError>)
    ensures
        reads(input@, r),
{
    parse_value(input)
}

/// Whether the frame is the command `REPLCONF listening-port <port>`, by
/// which a connection presents itself as a replica.
pub fn parse_retain_cmd(resp: &RespType) -> (r: bool)
    ensures
        r == (classify(resp@) is ListeningPort),
{
    proof {
        reveal_strlit("ping");
        reveal_strlit("echo");
        reveal_strlit("set");
        reveal_strlit("get");
        reveal_strlit("info");
        reveal_strlit("replconf");
        reveal_strlit("psync");
        reveal_strlit("command");
        reveal_strlit("listening-port");
        reveal_strlit("capa");
        reveal_strlit("getack");
    }
    if let RespType::Array(vec) = resp {
        proof {
            lemma_models(vec@);
        }
        if vec.len() == 3 {
            match (&vec[0], &vec[1], &vec[2]) {
                (
                    RespType::BulkString(cmd),
                    RespType::BulkString(arg),
                    RespType::BulkString(port),
                ) => {
                    if is_word(cmd.as_slice(), "replconf") && is_word(
                        arg.as_slice(),
                        "listening-port",
                    ) {
                        proof {
                            lemma_same_word_len(cmd@, bytes_of("replconf"@));
                            lemma_same_word_len(cmd@, bytes_of("ping"@));
                            lemma_same_word_len(cmd@, bytes_of("echo"@));
                            lemma_same_word_len(cmd@, bytes_of("set"@));
                            lemma_same_word_len(cmd@, bytes_of("get"@));
                            lemma_same_word_len(cmd@, bytes_of("info"@));
                        }
                        return match read_u64(port.as_slice()) {
                            Some(p) => p <= 65535,
                            None => false,
                        };
                    }
                },
                _ => {},
            }
        }
    }
    false
}

} // verus!
