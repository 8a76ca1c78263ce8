//! Standard base64 text as a function of the bytes it encodes, and the two
//! outside functions that produce and consume it.

use rustc_serialize::base64::{ToBase64, MIME};
use vstd::prelude::*;

verus! {

/// The sixty-four symbols of the standard alphabet, in order of value.
pub open spec fn alphabet() -> Seq<char> {
    "ABCDEFGHIJKLMNOPQRSTUVWXYZabcdefghijklmnopqrstuvwxyz0123456789+/"@
}

/// The character that fills up the last group of an encoding.
pub const PAD: char = '=';

/// The number of characters after which the MIME variant breaks a line.
pub const MIME_LINE_LEN: usize = 76;

/// The four characters for a group of one, two or three bytes: the bits of
/// the bytes in groups of six, most significant first, each as its symbol,
/// then padding where the group falls short of three bytes.
pub open spec fn group_text(group: Seq<u8>) -> Seq<char>
    recommends
        1 <= group.len() <= 3,
{
    let b0 = group[0] as int;
    let b1 = if group.len() > 1 {
        group[1] as int
    } else {
        0
    };
    let b2 = if group.len() > 2 {
        group[2] as int
    } else {
        0
    };
    seq![
        alphabet()[b0 / 4],
        alphabet()[(b0 % 4) * 16 + b1 / 16],
        if group.len() > 1 {
            alphabet()[(b1 % 16) * 4 + b2 / 64]
        } else {
            PAD
        },
        if group.len() > 2 {
            alphabet()[b2 % 64]
        } else {
            PAD
        },
    ]
}

/// The standard base64 encoding of `bytes`, padded, without line breaks.
pub open spec fn base64_text(bytes: Seq<u8>) -> Seq<char>
    decreases bytes.len(),
{
    if bytes.len() == 0 {
        Seq::empty()
    } else if bytes.len() <= 3 {
        group_text(bytes)
    } else {
        group_text(bytes.take(3)) + base64_text(bytes.skip(3))
    }
}

/// `text` cut into lines of `MIME_LINE_LEN` characters, with a carriage
/// return and a line feed between each line and the next.
pub open spec fn mime_lines(text: Seq<char>) -> Seq<char>
    decreases text.len(),
{
    if text.len() <= MIME_LINE_LEN {
        text
    } else {
        text.take(MIME_LINE_LEN as int) + seq!['\r', '\n'] + mime_lines(
            text.skip(MIME_LINE_LEN as int),
        )
    }
}

/// `text` is the encoding of `bytes`, complete or with some of its trailing
/// padding left off.
pub open spec fn is_base64_of(text: Seq<char>, bytes: Seq<u8>) -> bool {
    let full = base64_text(bytes);
    &&& text.is_prefix_of(full)
    &&& forall|i: int| text.len() <= i < full.len() ==> full[i] == PAD
}

/// Calls `rustc_serialize::base64::ToBase64::to_base64` on a byte slice with
/// the crate's `MIME` configuration: the standard alphabet, padding, and a
/// carriage return and line feed after every 76 characters that more
/// characters follow.
#[verifier::external_body]
pub(crate) fn to_mime_base64(bytes: &[u8]) -> (text: String)
    ensures
        text@ == mime_lines(base64_text(bytes@)),
{
    bytes.to_base64(MIME)
}

#[verifier::external_type_specification]
#[verifier::external_body]
pub struct ExDecodeError(base64::DecodeError);

/// Calls `base64::decode`, which decodes with the crate's `STANDARD`
/// configuration. It accepts the padded encoding of a buffer, and the same
/// text with one or both padding characters left off, and returns that
/// buffer. Everything else is an error: a character outside the alphabet
/// (white space included), padding anywhere but at the end of the last
/// group, a length that no encoding has, and a last symbol with bits set
/// that belong to no byte.
#[verifier::external_body]
pub(crate) fn decode_standard(payload: &str) -> (decoded: Result<Vec<u8>, base64::DecodeError>)
    ensures
        match decoded {
            Ok(bytes) => is_base64_of(payload@, bytes@),
            Err(_) => forall|bytes: Seq<u8>| !is_base64_of(payload@, bytes),
        },
{
    base64::decode(payload)
}

} // verus!
