//! The mathematical model of a RESP frame and of its bytes on the wire.

use crate::decimal::signed_digits;
use vstd::prelude::*;

verus! {

/// A frame as a mathematical value: the view of a `RespType`.
pub enum Frame {
    Simple(Seq<u8>),
    Error(Seq<u8>),
    Integer(int),
    Bulk(Seq<u8>),
    NullBulk,
    Array(Seq<Frame>),
    NullArray,
}

/// Carriage return and line feed, the end of every header line.
pub open spec fn crlf() -> Seq<u8> {
    seq![13u8, 10u8]
}

/// Bytes that can stand in a header line: neither CR nor LF among them.
pub open spec fn is_line(s: Seq<u8>) -> bool {
    forall|i: int| 0 <= i < s.len() ==> #[trigger] s[i] != 13 && s[i] != 10
}

/// The five type bytes `+ - : $ *`.
pub open spec fn is_tag(b: u8) -> bool {
    b == 43 || b == 45 || b == 58 || b == 36 || b == 42
}

impl Frame {
    /// The type byte that opens the frame.
    pub open spec fn tag(self) -> u8 {
        match self {
            Frame::Simple(_) => 43,
            Frame::Error(_) => 45,
            Frame::Integer(_) => 58,
            Frame::Bulk(_) | Frame::NullBulk => 36,
            Frame::Array(_) | Frame::NullArray => 42,
        }
    }

    /// The header line between the type byte and the first CRLF: the text
    /// itself, the number, or the length (`-1` for the two null frames).
    pub open spec fn header(self) -> Seq<u8> {
        match self {
            Frame::Simple(s) => s,
            Frame::Error(s) => s,
            Frame::Integer(i) => signed_digits(i),
            Frame::Bulk(s) => signed_digits(s.len() as int),
            Frame::Array(fs) => signed_digits(fs.len() as int),
            Frame::NullBulk | Frame::NullArray => signed_digits(-1),
        }
    }

    /// The length of the header line.
    pub open spec fn hlen(self) -> int {
        self.header().len() as int
    }

    /// What follows the header line: a bulk string's bytes and their CRLF,
    /// an array's elements one after the other, nothing for the rest.
    pub open spec fn body(self) -> Seq<u8>
        decreases self, 0int,
    {
        match self {
            Frame::Bulk(s) => s + crlf(),
            Frame::Array(fs) => wire_all(fs),
            _ => Seq::empty(),
        }
    }

    /// The frame's bytes on the wire.
    pub open spec fn wire(self) -> Seq<u8>
        decreases self, 1int,
    {
        seq![self.tag()] + self.header() + crlf() + self.body()
    }

    /// What a frame must meet to have one reading on the wire: text lines
    /// without CR or LF, a number of 64 bits, lengths of 64 bits, and the
    /// same of every element.
    pub open spec fn wf(self) -> bool
        decreases self,
    {
        match self {
            Frame::Simple(s) => is_line(s),
            Frame::Error(s) => is_line(s),
            Frame::Integer(i) => i64::MIN <= i <= i64::MAX,
            Frame::Bulk(s) => s.len() <= u64::MAX,
            Frame::Array(fs) => fs.len() <= u64::MAX && forall|i: int|
                0 <= i < fs.len() ==> (#[trigger] fs[i]).wf(),
            Frame::NullBulk | Frame::NullArray => true,
        }
    }
}

/// The wire bytes of a run of frames, one after the other.
pub open spec fn wire_all(fs: Seq<Frame>) -> Seq<u8>
    decreases fs, 2int,
{
    if fs.len() == 0 {
        Seq::empty()
    } else {
        wire_all(fs.drop_last()) + fs.last().wire()
    }
}

/// Every frame of the run is well formed.
pub open spec fn all_wf(fs: Seq<Frame>) -> bool {
    forall|i: int| 0 <= i < fs.len() ==> (#[trigger] fs[i]).wf()
}

/// One more frame adds its bytes at the end.
pub proof fn lemma_wire_all_push(fs: Seq<Frame>, f: Frame)
    ensures
        wire_all(fs.push(f)) == wire_all(fs) + f.wire(),
{
    assert(fs.push(f).drop_last() =~= fs);
}

/// The bytes of two runs, one after the other.
pub proof fn lemma_wire_all_concat(a: Seq<Frame>, b: Seq<Frame>)
    ensures
        wire_all(a + b) == wire_all(a) + wire_all(b),
    decreases b.len(),
{
    if b.len() == 0 {
        assert(a + b =~= a);
        assert(wire_all(a) + wire_all(b) =~= wire_all(a));
    } else {
        lemma_wire_all_concat(a, b.drop_last());
        assert((a + b).drop_last() =~= a + b.drop_last());
        assert((a + b).last() == b.last());
        assert(wire_all(a + b) =~= wire_all(a) + wire_all(b));
    }
}

/// The bytes of a nonempty run: those of its first frame, then the rest's.
pub proof fn lemma_wire_all_first(fs: Seq<Frame>)
    requires
        fs.len() > 0,
    ensures
        wire_all(fs) == fs[0].wire() + wire_all(fs.drop_first()),
{
    let head = seq![fs[0]];
    assert(head.drop_last() =~= Seq::<Frame>::empty());
    assert(wire_all(Seq::<Frame>::empty()) =~= Seq::<u8>::empty());
    assert(head.last() == fs[0]);
    assert(wire_all(head) =~= fs[0].wire());
    assert(head + fs.drop_first() =~= fs);
    lemma_wire_all_concat(head, fs.drop_first());
}

} // verus!
