//! Hexadecimal text: pairs of digits, each pair one byte.

use crate::error::ShareError;
use vstd::prelude::*;

verus! {

/// The digits `0-9`, `a-f` and `A-F`.
pub open spec fn is_hex_digit(c: u8) -> bool {
    (0x30 <= c <= 0x39) || (0x41 <= c <= 0x46) || (0x61 <= c <= 0x66)
}

/// The number that a hexadecimal digit stands for.
pub open spec fn hex_value(c: u8) -> int {
    if 0x30 <= c <= 0x39 {
        c - 0x30
    } else if 0x41 <= c <= 0x46 {
        c - 0x41 + 10
    } else {
        c - 0x61 + 10
    }
}

/// Whether `s` is an even number of hexadecimal digits.
pub open spec fn is_hex(s: Seq<u8>) -> bool {
    s.len() % 2 == 0 && forall|i: int| 0 <= i < s.len() ==> is_hex_digit(#[trigger] s[i])
}

/// The bytes that the digit pairs of `s` stand for, the first digit of a pair being the high half.
pub open spec fn hex_bytes(s: Seq<u8>) -> Seq<u8> {
    Seq::new(s.len() / 2, |i: int| (16 * hex_value(s[2 * i]) + hex_value(s[2 * i + 1])) as u8)
}

#[verifier::external_type_specification]
#[verifier::external_body]
pub struct ExFromHexError(hex::FromHexError);

/// Calls `hex::decode`. It succeeds exactly on an even number of digits `0-9`, `a-f`, `A-F`,
/// and then returns one byte for each pair, the first digit shifted left by four bits and
/// combined with the second.
#[verifier::external_body]
fn hex_decode(data: &[u8]) -> (r: Result<Vec<u8>, hex::FromHexError>)
    ensures
        r is Ok <==> is_hex(data@),
        r is Ok ==> r->Ok_0@ == hex_bytes(data@),
{
    hex::decode(data)
}

/// Decodes hexadecimal text into bytes, or fails with `InvalidHex` where the text is not an
/// even number of hexadecimal digits.
pub fn decode_hex(data: &[u8]) -> (r: Result<Vec<u8>, ShareError>)
    ensures
        is_hex(data@) ==> r is Ok && r->Ok_0@ == hex_bytes(data@),
        !is_hex(data@) ==> r == Err::<Vec<u8>, ShareError>(ShareError::InvalidHex),
{
    match hex_decode(data) {
        Ok(bytes) => Ok(bytes),
        Err(_) => Err(ShareError::InvalidHex),
    }
}

} // verus!
