//! Bytes as printable text.
use base64::Engine as _;
use vstd::prelude::*;

verus! {

/// The character that stands for six bits.
pub open spec fn symbol(bits: int) -> char {
    if bits < 26 {
        ('A' as u32 + bits) as char
    } else if bits < 52 {
        ('a' as u32 + (bits - 26)) as char
    } else if bits < 62 {
        ('0' as u32 + (bits - 52)) as char
    } else if bits == 62 {
        '+'
    } else {
        '/'
    }
}

/// The byte at `i`, and zero past the last one.
pub open spec fn byte_at(bytes: Seq<u8>, i: int) -> int {
    if i < bytes.len() {
        bytes[i] as int
    } else {
        0
    }
}

/// The character at `i` of some bytes in base64: each three bytes are four times
/// six bits, and `=` stands where there are no more bytes to write.
pub open spec fn symbol_at(bytes: Seq<u8>, i: int) -> char {
    let at = 3 * (i / 4);
    let a = byte_at(bytes, at);
    let b = byte_at(bytes, at + 1);
    let c = byte_at(bytes, at + 2);
    if i % 4 == 0 {
        symbol(a / 4)
    } else if i % 4 == 1 {
        symbol((a % 4) * 16 + b / 16)
    } else if i % 4 == 2 {
        if at + 1 < bytes.len() {
            symbol((b % 16) * 4 + c / 64)
        } else {
            '='
        }
    } else {
        if at + 2 < bytes.len() {
            symbol(c % 64)
        } else {
            '='
        }
    }
}

/// How many characters some bytes come to in base64.
pub open spec fn armored_len(count: nat) -> nat {
    4 * ((count + 2) / 3)
}

/// Some bytes in base64.
pub open spec fn armored(bytes: Seq<u8>) -> Seq<char> {
    Seq::new(armored_len(bytes.len()), |i: int| symbol_at(bytes, i))
}

/// Some bytes in base64.
///
/// `base64::Engine::encode` of the crate's `STANDARD` engine: the alphabet of
/// RFC 4648 with `+` and `/`, padded with `=` to a multiple of four. It panics
/// where the result would not fit in memory.
#[verifier::external_body]
pub(crate) fn to_base64(bytes: &[u8]) -> (out: String)
    requires
        armored_len(bytes@.len()) <= isize::MAX,
    ensures
        out@ == armored(bytes@),
{
    base64::engine::general_purpose::STANDARD.encode(bytes)
}

} // verus!
