//! Lower-case hexadecimal rendering of byte buffers.

use rustc_serialize::hex::ToHex;
use vstd::prelude::*;

verus! {

/// The sixteen hexadecimal digits, in order of value.
pub open spec fn hex_digits() -> Seq<char> {
    "0123456789abcdef"@
}

/// The two digits of every byte of `bytes`, high nibble first.
pub open spec fn hex_of(bytes: Seq<u8>) -> Seq<char> {
    Seq::new(
        2 * bytes.len(),
        |i: int|
            if i % 2 == 0 {
                hex_digits()[bytes[i / 2] as int / 16]
            } else {
                hex_digits()[bytes[i / 2] as int % 16]
            },
    )
}

/// Rendering distributes over concatenation, so the rendering of a buffer's
/// head is a prefix of the rendering of the whole buffer.
pub proof fn lemma_hex_of_concat(head: Seq<u8>, tail: Seq<u8>)
    ensures
        hex_of(head + tail) == hex_of(head) + hex_of(tail),
        hex_of(head).is_prefix_of(hex_of(head + tail)),
{
    assert(hex_of(head + tail) =~= hex_of(head) + hex_of(tail));
}

/// Calls `rustc_serialize::hex::ToHex::to_hex` on a byte slice. That function
/// writes, for each byte in order, the digit of its high nibble and then the
/// digit of its low nibble, taken from `0123456789abcdef`.
#[verifier::external_body]
pub(crate) fn to_hex(bytes: &[u8]) -> (hex: String)
    ensures
        hex@ == hex_of(bytes@),
{
    bytes.to_hex()
}

} // verus!
