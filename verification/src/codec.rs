//! Encoding a buffer as `data:image/<tag>;base64,<payload>` and decoding
//! such a text back into the buffer.

use crate::encoding::{base64_text, decode_standard, is_base64_of, to_mime_base64, PAD};
use crate::encoding_laws::{is_symbol, lemma_base64_text_chars, lemma_decoding_unique};
use crate::hex::hex_of;
use crate::signature::{
    detect, detected_format, lemma_first_match_tag, lemma_tags_plain, signatures,
};
use crate::text::{
    has_line_break, is_line_break_at, lemma_mime_lines_chars, lemma_mime_lines_undone,
    lemma_payload_after_comma, lemma_payload_without_comma, payload, payload_of,
    strip_line_breaks,
};
use vstd::prelude::*;
use vstd::string::*;
use vstd::utf8::is_ascii_chars;

verus! {

/// The payload of a text was not the base64 encoding of any buffer.
#[derive(Debug)]
pub struct DecodeFailure {
    /// What the decoder found wrong, with offsets counted from the start of
    /// the payload.
    pub cause: base64::DecodeError,
}

/// The encoded text for a buffer `bytes` of format `tag`.
pub open spec fn data_uri(tag: Seq<char>, bytes: Seq<u8>) -> Seq<char> {
    "data:image/"@ + tag + ";base64,"@ + base64_text(bytes)
}

/// The buffer that `payload` encodes, if it encodes one.
pub open spec fn base64_decoding(payload: Seq<char>) -> Option<Seq<u8>> {
    if exists|bytes: Seq<u8>| is_base64_of(payload, bytes) {
        Some(choose|bytes: Seq<u8>| is_base64_of(payload, bytes))
    } else {
        None
    }
}

/// The buffer that the payload of `text` encodes, if it encodes one.
pub open spec fn decoded(text: Seq<char>) -> Option<Seq<u8>> {
    base64_decoding(payload_of(text))
}

/// The buffer that a payload encodes is the only one that it is an
/// encoding of.
pub proof fn lemma_base64_decoding(payload: Seq<char>, bytes: Seq<u8>)
    ensures
        is_base64_of(payload, bytes) <==> base64_decoding(payload) == Some(bytes),
{
    if is_base64_of(payload, bytes) {
        let chosen = choose|bytes: Seq<u8>| is_base64_of(payload, bytes);
        lemma_decoding_unique(payload, chosen, bytes);
    }
}

/// The standard base64 text of a buffer holds no comma, no carriage return
/// and no line feed, and only ASCII characters.
pub proof fn lemma_base64_text_plain(bytes: Seq<u8>)
    ensures
        !base64_text(bytes).contains(','),
        !base64_text(bytes).contains('\r'),
        !base64_text(bytes).contains('\n'),
        is_ascii_chars(base64_text(bytes)),
{
    lemma_base64_text_chars(bytes);
}

/// The parts of an encoded text around the tag and the payload.
proof fn reveal_frame()
    ensures
        "data:image/"@ == seq!['d', 'a', 't', 'a', ':', 'i', 'm', 'a', 'g', 'e', '/'],
        ";base64,"@ == seq![';', 'b', 'a', 's', 'e', '6', '4', ','],
{
    reveal_strlit("data:image/");
    reveal_strlit(";base64,");
    assert("data:image/"@ =~= seq!['d', 'a', 't', 'a', ':', 'i', 'm', 'a', 'g', 'e', '/']);
    assert(";base64,"@ =~= seq![';', 'b', 'a', 's', 'e', '6', '4', ',']);
}

/// Decoding what was encoded under a tag without a comma gives the buffer
/// back.
pub proof fn lemma_round_trip(tag: Seq<char>, bytes: Seq<u8>)
    requires
        !tag.contains(','),
    ensures
        payload_of(data_uri(tag, bytes)) == base64_text(bytes),
        decoded(data_uri(tag, bytes)) == Some(bytes),
{
    reveal_frame();
    let text = data_uri(tag, bytes);
    let at = tag.len() as int + 18;
    assert(text[at] == ',');
    assert forall|j: int| 0 <= j < at implies text[j] != ',' by {
        if 11 <= j < 11 + tag.len() {
            assert(tag.contains(tag[j - 11]));
        }
    }
    lemma_payload_after_comma(text, at);
    assert(text.skip(at + 1) =~= base64_text(bytes));
    assert(is_base64_of(base64_text(bytes), bytes));
    lemma_base64_decoding(base64_text(bytes), bytes);
}

/// Decoding what was encoded under the detected format of a buffer gives the
/// buffer back.
pub proof fn lemma_round_trip_detected(bytes: Seq<u8>)
    requires
        detected_format(bytes) is Some,
    ensures
        decoded(data_uri(detected_format(bytes).unwrap(), bytes)) == Some(bytes),
{
    lemma_first_match_tag(signatures(), hex_of(bytes));
    lemma_tags_plain();
    lemma_round_trip(detected_format(bytes).unwrap(), bytes);
}

/// An encoded text holds no line break unless its tag holds one.
pub proof fn lemma_single_line(tag: Seq<char>, bytes: Seq<u8>)
    requires
        !has_line_break(tag),
    ensures
        !has_line_break(data_uri(tag, bytes)),
{
    reveal_frame();
    lemma_base64_text_plain(bytes);
    let text = data_uri(tag, bytes);
    let payload = base64_text(bytes);
    assert forall|at: int| !is_line_break_at(text, at) by {
        if is_line_break_at(text, at) {
            let from = tag.len() as int + 19;
            if at >= from {
                assert(payload.contains(payload[at - from]));
            } else if at + 1 >= from {
                assert(payload.contains(payload[at + 1 - from]));
            } else if 11 <= at && at + 1 < 11 + tag.len() {
                assert(is_line_break_at(tag, at - 11));
            }
        }
    }
}

/// A prefix without a comma, set before a payload without a comma and
/// parted from it by a comma, does not change what the payload decodes to.
pub proof fn lemma_prefix_ignored(prefix: Seq<char>, payload: Seq<char>)
    requires
        !prefix.contains(','),
        !payload.contains(','),
    ensures
        payload_of(prefix + seq![','] + payload) == payload,
        payload_of(payload) == payload,
        decoded(prefix + seq![','] + payload) == decoded(payload),
{
    let text = prefix + seq![','] + payload;
    let at = prefix.len() as int;
    assert forall|j: int| 0 <= j < at implies text[j] != ',' by {
        assert(prefix.contains(prefix[j]));
    }
    lemma_payload_after_comma(text, at);
    assert(text.skip(at + 1) =~= payload);
    lemma_payload_without_comma(payload);
}

/// A payload with a character that is neither a symbol of the alphabet nor
/// padding decodes to nothing.
pub proof fn lemma_invalid_character(text: Seq<char>, at: int)
    requires
        0 <= at < payload_of(text).len(),
        !is_symbol(payload_of(text)[at]),
        payload_of(text)[at] != PAD,
    ensures
        decoded(text) is None,
{
    let payload = payload_of(text);
    assert forall|bytes: Seq<u8>| !is_base64_of(payload, bytes) by {
        if is_base64_of(payload, bytes) {
            lemma_base64_text_chars(bytes);
            assert(base64_text(bytes)[at] == payload[at]);
        }
    }
}

/// Converts an image buffer to an encoded text of the form
/// `data:image/<extension>;base64,<payload>`, where the payload is the
/// standard base64 text of the buffer on a single line. The extension is
/// taken as it is.
pub fn to_base64_from_memory_with_extension(vec: &[u8], extension: &str) -> (text: String)
    ensures
        text@ == data_uri(extension@, vec@),
        !has_line_break(extension@) ==> !has_line_break(text@),
{
    let base64 = to_mime_base64(vec);
    proof {
        lemma_base64_text_plain(vec@);
        lemma_mime_lines_chars(base64_text(vec@));
        lemma_mime_lines_undone(base64_text(vec@));
        assert(is_ascii_chars(base64@));
    }
    let payload = strip_line_breaks(base64.as_str());
    let mut text = String::from_str("data:image/");
    text.append(extension);
    text.append(";base64,");
    text.append(payload.as_str());
    proof {
        if !has_line_break(extension@) {
            lemma_single_line(extension@, vec@);
        }
    }
    text
}

/// Converts an image buffer to an encoded text under the format detected
/// from its leading bytes. `None` if the buffer starts with no known
/// signature.
pub fn to_base64_from_memory(vec: &[u8]) -> (text: Option<String>)
    ensures
        match text {
            Some(t) => detected_format(vec@) is Some && t@ == data_uri(
                detected_format(vec@).unwrap(),
                vec@,
            ),
            None => detected_format(vec@) is None,
        },
        text matches Some(t) ==> !has_line_break(t@),
{
    match detect(vec) {
        Some(file_type) => {
            proof {
                lemma_first_match_tag(signatures(), hex_of(vec@));
                lemma_tags_plain();
                assert forall|at: int| !is_line_break_at(file_type@, at) by {
                    if is_line_break_at(file_type@, at) {
                        assert(file_type@.contains(file_type@[at]));
                    }
                }
            }
            Some(to_base64_from_memory_with_extension(vec, file_type))
        },
        None => None,
    }
}

/// Converts an encoded text back to the image buffer. The payload is what
/// follows the first comma of the text, or the whole text if it has no
/// comma; it has to be the standard base64 text of a buffer, with or without
/// its trailing padding.
pub fn from_base64(base64: String) -> (bytes: Result<Vec<u8>, DecodeFailure>)
    ensures
        match bytes {
            Ok(b) => decoded(base64@) == Some(b@),
            Err(_) => decoded(base64@) is None,
        },
{
    let value = payload(base64.as_str());
    match decode_standard(value) {
        Ok(b) => {
            proof {
                lemma_base64_decoding(value@, b@);
            }
            Ok(b)
        },
        Err(cause) => Err(DecodeFailure { cause }),
    }
}

} // verus!
