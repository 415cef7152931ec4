//! Words of the protocol as bytes, and their comparison without regard to
//! ASCII case.

use vstd::prelude::*;
use vstd::string::{is_ascii, StringSliceAdditionalSpecFns};

verus! {

/// The byte with an ASCII capital letter turned into its small letter.
pub open spec fn lower_byte(b: u8) -> u8 {
    if 65 <= b <= 90 {
        (b + 32) as u8
    } else {
        b
    }
}

/// The bytes with every ASCII capital letter turned into its small letter.
pub open spec fn lower(s: Seq<u8>) -> Seq<u8> {
    Seq::new(s.len(), |i: int| lower_byte(s[i]))
}

/// The two byte strings are the same word, ASCII case aside.
pub open spec fn same_word(a: Seq<u8>, b: Seq<u8>) -> bool {
    lower(a) == lower(b)
}

/// The bytes of a text of ASCII characters, one byte for each.
pub open spec fn bytes_of(s: Seq<char>) -> Seq<u8> {
    Seq::new(s.len(), |i: int| s[i] as u8)
}

/// Whether the two byte strings are the same, byte for byte.
pub fn eq_bytes(a: &[u8], b: &[u8]) -> (r: bool)
    ensures
        r == (a@ == b@),
{
    if a.len() != b.len() {
        return false;
    }
    let mut i: usize = 0;
    while i < a.len()
        invariant
            i <= a.len(),
            a.len() == b.len(),
            forall|k: int| 0 <= k < i ==> a@[k] == b@[k],
        decreases a.len() - i,
    {
        if a[i] != b[i] {
            return false;
        }
        i = i + 1;
    }
    proof {
        assert(a@ =~= b@);
    }
    true
}

/// The byte with an ASCII capital letter turned into its small letter.
pub fn to_lower(b: u8) -> (r: u8)
    ensures
        r == lower_byte(b),
{
    if 65 <= b && b <= 90 {
        b + 32
    } else {
        b
    }
}

/// Whether the two byte strings are the same word, ASCII case aside.
pub fn eq_ignore_case(a: &[u8], b: &[u8]) -> (r: bool)
    ensures
        r == same_word(a@, b@),
{
    if a.len() != b.len() {
        proof {
            assert(lower(a@).len() != lower(b@).len());
        }
        return false;
    }
    let mut i: usize = 0;
    while i < a.len()
        invariant
            i <= a.len(),
            a.len() == b.len(),
            forall|k: int| 0 <= k < i ==> lower_byte(a@[k]) == lower_byte(b@[k]),
        decreases a.len() - i,
    {
        if to_lower(a[i]) != to_lower(b[i]) {
            proof {
                assert(lower(a@)[i as int] != lower(b@)[i as int]);
            }
            return false;
        }
        i = i + 1;
    }
    proof {
        assert(lower(a@) =~= lower(b@));
    }
    true
}

/// The bytes of a text: for an ASCII text, one for each character.
pub fn word_bytes(word: &str) -> (r: &[u8])
    ensures
        r@ == word.spec_bytes(),
        is_ascii(word) ==> r@ == bytes_of(word@),
{
    let r = word.as_bytes();
    proof {
        if is_ascii(word) {
            vstd::string::is_ascii_spec_bytes(word);
            assert(r@ =~= bytes_of(word@));
        }
    }
    r
}

/// Whether `bytes` is the text `word`, ASCII case aside.
pub fn is_word(bytes: &[u8], word: &str) -> (r: bool)
    ensures
        r == same_word(bytes@, word.spec_bytes()),
        is_ascii(word) ==> r == same_word(bytes@, bytes_of(word@)),
{
    eq_ignore_case(bytes, word_bytes(word))
}

/// Whether `bytes` is the text `word`, byte for byte.
pub fn is_text(bytes: &[u8], word: &str) -> (r: bool)
    ensures
        r == (bytes@ == word.spec_bytes()),
        is_ascii(word) ==> r == (bytes@ == bytes_of(word@)),
{
    eq_bytes(bytes, word_bytes(word))
}

/// A copy of the bytes of a text.
pub fn literal_bytes(word: &str) -> (r: Vec<u8>)
    ensures
        r@ == word.spec_bytes(),
        is_ascii(word) ==> r@ == bytes_of(word@),
{
    let bytes = word_bytes(word);
    let mut out: Vec<u8> = Vec::new();
    let mut i: usize = 0;
    while i < bytes.len()
        invariant
            i <= bytes.len(),
            out@ == bytes@.take(i as int),
        decreases bytes.len() - i,
    {
        out.push(bytes[i]);
        i = i + 1;
        proof {
            assert(out@ =~= bytes@.take(i as int));
        }
    }
    proof {
        assert(bytes@.take(i as int) =~= bytes@);
    }
    out
}

/// Whether `s` starts with `prefix`.
pub fn starts_with(s: &[u8], prefix: &[u8]) -> (r: bool)
    ensures
        r == prefix@.is_prefix_of(s@),
{
    if prefix.len() > s.len() {
        return false;
    }
    let mut i: usize = 0;
    while i < prefix.len()
        invariant
            i <= prefix.len() <= s.len(),
            forall|k: int| 0 <= k < i ==> s@[k] == prefix@[k],
        decreases prefix.len() - i,
    {
        if s[i] != prefix[i] {
            proof {
                if prefix@.is_prefix_of(s@) {
                    assert(prefix@ == s@.subrange(0, prefix@.len() as int));
                    assert(prefix@[i as int] == s@[i as int]);
                }
            }
            return false;
        }
        i = i + 1;
    }
    proof {
        assert(prefix@ =~= s@.subrange(0, prefix@.len() as int));
    }
    true
}

/// Words that are the same, case aside, are of one length.
pub proof fn lemma_same_word_len(a: Seq<u8>, b: Seq<u8>)
    ensures
        same_word(a, b) ==> a.len() == b.len(),
{
    assert(lower(a).len() == a.len());
    assert(lower(b).len() == b.len());
}

} // verus!
