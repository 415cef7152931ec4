//! The snapshot that a master hands to a replica at attach time: a fixed,
//! empty database file, kept as hexadecimal text.

use crate::decimal::{digits, push_decimal};
use crate::frame::crlf;
use crate::parser::push_crlf;
use crate::server::ServerState;
use crate::text::{bytes_of, word_bytes};
use vstd::prelude::*;

verus! {

/// The error of `hex::decode`. Nothing is said of what it holds; it is
/// only told from success.
#[verifier::external_type_specification]
#[verifier::external_body]
pub struct ExFromHexError(hex::FromHexError);

/// The value of a hexadecimal digit, capital or small.
pub open spec fn hex_value(c: u8) -> Option<u8> {
    if 48 <= c <= 57 {
        Some((c - 48) as u8)
    } else if 97 <= c <= 102 {
        Some((c - 87) as u8)
    } else if 65 <= c <= 70 {
        Some((c - 55) as u8)
    } else {
        None
    }
}

/// An even number of hexadecimal digits.
pub open spec fn is_hex(text: Seq<u8>) -> bool {
    text.len() % 2 == 0 && forall|i: int| 0 <= i < text.len() ==> hex_value(#[trigger] text[i]) is Some
}

/// The bytes that hexadecimal text stands for: one for each two digits,
/// the first digit the high half.
pub open spec fn hex_bytes(text: Seq<u8>) -> Seq<u8> {
    Seq::new(
        text.len() / 2,
        |i: int| (hex_value(text[2 * i])->0 * 16 + hex_value(text[2 * i + 1])->0) as u8,
    )
}

/// The empty database file, as hexadecimal text.
pub open spec fn empty_rdb_text() -> Seq<u8> {
    bytes_of(
        "524544495330303131fa0972656469732d76657205372e322e30fa0a72656469732d62697473c040fa056374696d65c26d08bc65fa08757365642d6d656dc2b0c41000fa08616f662d62617365c000fff06e3bfec0ff5aa2"@,
    )
}

/// The snapshot's bytes.
pub open spec fn snapshot_payload() -> Seq<u8> {
    hex_bytes(empty_rdb_text())
}

/// The line that announces a snapshot of `n` bytes: `$`, the length, CRLF.
pub open spec fn snapshot_header(n: nat) -> Seq<u8> {
    seq![36u8] + digits(n) + crlf()
}

/// `hex::decode` on a byte string. It succeeds exactly on an even number of
/// hexadecimal digits, of either case, and then gives one byte for each two
/// digits, the first digit the high half.
#[verifier::external_body]
fn hex_decode(text: &[u8]) -> (r: Result<Vec<u8>, hex::FromHexError>)
    ensures
        r is Ok <==> is_hex(text@),
        r matches Ok(v) ==> v@ == hex_bytes(text@),
{
    hex::decode(text)
}

/// The bytes that hexadecimal text stands for, where it is such text.
pub fn decode_hex(text: &[u8]) -> (r: Option<Vec<u8>>)
    ensures
        r is Some <==> is_hex(text@),
        r matches Some(v) ==> v@ == hex_bytes(text@),
{
    match hex_decode(text) {
        Ok(v) => Some(v),
        Err(_) => None,
    }
}

impl ServerState {
    /// The snapshot as it goes to a replica: the line that announces it,
    /// and its bytes. No CRLF follows the bytes.
    pub fn full_resync(&self) -> (r: (Vec<u8>, Vec<u8>))
        ensures
            r.1@ == snapshot_payload(),
            r.0@ == snapshot_header(r.1@.len()),
    {
        proof {
            reveal_strlit(
                "524544495330303131fa0972656469732d76657205372e322e30fa0a72656469732d62697473c040fa056374696d65c26d08bc65fa08757365642d6d656dc2b0c41000fa08616f662d62617365c000fff06e3bfec0ff5aa2",
            );
        }
        let text = word_bytes(
            "524544495330303131fa0972656469732d76657205372e322e30fa0a72656469732d62697473c040fa056374696d65c26d08bc65fa08757365642d6d656dc2b0c41000fa08616f662d62617365c000fff06e3bfec0ff5aa2",
        );
        proof {
            lemma_snapshot_is_hex();
        }
        let rdb_bytes: Vec<u8> = decode_hex(text).unwrap();
        let mut header: Vec<u8> = Vec::new();
        header.push(36);
        push_decimal(&mut header, rdb_bytes.len() as u64);
        push_crlf(&mut header);
        proof {
            assert(header@ =~= snapshot_header(rdb_bytes@.len()));
        }
        (header, rdb_bytes)
    }
}

/// The text of the empty database file is hexadecimal, and stands for 88
/// bytes.
pub proof fn lemma_snapshot_is_hex()
    ensures
        is_hex(empty_rdb_text()),
        snapshot_payload().len() == 88,
{
    reveal_strlit(
        "524544495330303131fa0972656469732d76657205372e322e30fa0a72656469732d62697473c040fa056374696d65c26d08bc65fa08757365642d6d656dc2b0c41000fa08616f662d62617365c000fff06e3bfec0ff5aa2",
    );
}

} // verus!
