//! The two passes over encoded text: taking line breaks out of a payload,
//! and cutting the payload out of a text that carries a prefix.

use crate::encoding::{mime_lines, MIME_LINE_LEN};
use vstd::prelude::*;
use vstd::std_specs::iter::IteratorSpec;
use vstd::string::*;
use vstd::utf8::is_ascii_chars;

verus! {

/// A carriage return at `at`, directly followed by a line feed.
pub open spec fn is_line_break_at(text: Seq<char>, at: int) -> bool {
    0 <= at && at + 1 < text.len() && text[at] == '\r' && text[at + 1] == '\n'
}

/// `text` holds a carriage return directly followed by a line feed.
pub open spec fn has_line_break(text: Seq<char>) -> bool {
    exists|at: int| is_line_break_at(text, at)
}

/// `text` read from left to right, with every carriage return that a line
/// feed follows left out together with that line feed.
pub open spec fn without_line_breaks(text: Seq<char>) -> Seq<char>
    decreases text.len(),
{
    if text.len() == 0 {
        text
    } else if is_line_break_at(text, 0) {
        without_line_breaks(text.skip(2))
    } else {
        seq![text[0]] + without_line_breaks(text.skip(1))
    }
}

/// What of `text` is payload: everything after its first comma, or all of
/// it if it has no comma.
pub open spec fn payload_of(text: Seq<char>) -> Seq<char> {
    match text.index_of_first(',') {
        Some(at) => text.skip(at + 1),
        None => text,
    }
}

/// A stretch at the start of a text in which no line break begins is kept
/// as it is.
pub proof fn lemma_unbroken_start(text: Seq<char>, k: int)
    requires
        0 <= k <= text.len(),
        forall|j: int| 0 <= j < k ==> !is_line_break_at(text, j),
    ensures
        without_line_breaks(text) == text.take(k) + without_line_breaks(text.skip(k)),
    decreases k,
{
    if k == 0 {
        assert(text.skip(0) =~= text);
        assert(text.take(0) + without_line_breaks(text) =~= without_line_breaks(text));
    } else {
        let rest = text.skip(1);
        assert(!is_line_break_at(text, 0));
        assert forall|j: int| 0 <= j < k - 1 implies !is_line_break_at(rest, j) by {
            assert(!is_line_break_at(text, j + 1));
        }
        lemma_unbroken_start(rest, k - 1);
        assert(rest.skip(k - 1) =~= text.skip(k));
        assert(seq![text[0]] + (rest.take(k - 1) + without_line_breaks(text.skip(k)))
            =~= text.take(k) + without_line_breaks(text.skip(k)));
    }
}

/// Taking the line breaks out of a text that was cut into lines gives the
/// text back, if it held no carriage return before.
pub proof fn lemma_mime_lines_undone(text: Seq<char>)
    requires
        !text.contains('\r'),
    ensures
        without_line_breaks(mime_lines(text)) == text,
    decreases text.len(),
{
    if text.len() <= MIME_LINE_LEN {
        assert forall|j: int| 0 <= j < text.len() implies !is_line_break_at(text, j) by {
            assert(text.contains(text[j]));
        }
        lemma_unbroken_start(text, text.len() as int);
        assert(text.take(text.len() as int) =~= text);
        assert(text.skip(text.len() as int) =~= Seq::<char>::empty());
        assert(text + Seq::<char>::empty() =~= text);
    } else {
        let line = text.take(MIME_LINE_LEN as int);
        let rest = text.skip(MIME_LINE_LEN as int);
        let wrapped = mime_lines(text);
        let after = seq!['\r', '\n'] + mime_lines(rest);
        assert(wrapped =~= line + after);
        assert forall|j: int| 0 <= j < MIME_LINE_LEN implies !is_line_break_at(wrapped, j) by {
            assert(wrapped[j] == text[j]);
            assert(text.contains(text[j]));
        }
        lemma_unbroken_start(wrapped, MIME_LINE_LEN as int);
        assert(wrapped.take(MIME_LINE_LEN as int) =~= line);
        assert(wrapped.skip(MIME_LINE_LEN as int) =~= after);
        assert(is_line_break_at(after, 0));
        assert(after.skip(2) =~= mime_lines(rest));
        assert(!rest.contains('\r')) by {
            if rest.contains('\r') {
                let j = choose|j: int| 0 <= j < rest.len() && rest[j] == '\r';
                assert(text[j + MIME_LINE_LEN] == '\r');
            }
        }
        lemma_mime_lines_undone(rest);
        assert(line + rest =~= text);
    }
}

/// Cutting a text into lines adds carriage returns and line feeds and
/// nothing else.
pub proof fn lemma_mime_lines_chars(text: Seq<char>)
    ensures
        forall|i: int|
            0 <= i < mime_lines(text).len() ==> {
                let c = #[trigger] mime_lines(text)[i];
                c == '\r' || c == '\n' || text.contains(c)
            },
    decreases text.len(),
{
    if text.len() > MIME_LINE_LEN {
        let line = text.take(MIME_LINE_LEN as int);
        let rest = text.skip(MIME_LINE_LEN as int);
        let wrapped = mime_lines(text);
        lemma_mime_lines_chars(rest);
        assert forall|i: int| 0 <= i < wrapped.len() implies {
            let c = #[trigger] wrapped[i];
            c == '\r' || c == '\n' || text.contains(c)
        } by {
            let c = wrapped[i];
            if i < MIME_LINE_LEN {
                assert(c == text[i]);
            } else if i >= MIME_LINE_LEN + 2 {
                let d = mime_lines(rest)[i - MIME_LINE_LEN - 2];
                assert(c == d);
                if rest.contains(d) {
                    let j = choose|j: int| 0 <= j < rest.len() && rest[j] == d;
                    assert(text[j + MIME_LINE_LEN] == d);
                }
            }
        }
    }
}

/// A comma with no comma before it is where the payload begins.
pub proof fn lemma_payload_after_comma(text: Seq<char>, at: int)
    requires
        0 <= at < text.len(),
        text[at] == ',',
        forall|j: int| 0 <= j < at ==> text[j] != ',',
    ensures
        payload_of(text) == text.skip(at + 1),
{
    text.index_of_first_ensures(',');
}

/// A text without a comma is payload as a whole.
pub proof fn lemma_payload_without_comma(text: Seq<char>)
    requires
        !text.contains(','),
    ensures
        payload_of(text) == text,
{
    text.index_of_first_ensures(',');
}

/// Takes the line breaks out of an ASCII text: every carriage return that a
/// line feed follows goes, with that line feed.
pub(crate) fn strip_line_breaks(text: &str) -> (stripped: String)
    requires
        is_ascii_chars(text@),
    ensures
        stripped@ == without_line_breaks(text@),
{
    let len = text.unicode_len();
    let mut stripped = String::new();
    let mut start: usize = 0;
    let mut at: usize = 0;
    assert(text@.skip(0) =~= text@);
    while at < len
        invariant
            len == text@.len(),
            start <= at <= len,
            is_ascii_chars(text@),
            forall|j: int| start <= j < at ==> !is_line_break_at(text@, j),
            stripped@ + without_line_breaks(text@.skip(start as int)) == without_line_breaks(
                text@,
            ),
        decreases len - at,
    {
        if at + 1 < len && text.get_ascii(at) == 13 && text.get_ascii(at + 1) == 10 {
            let kept = text.substring_ascii(start, at);
            proof {
                let tail = text@.skip(start as int);
                assert forall|j: int| 0 <= j < at - start implies !is_line_break_at(tail, j) by {
                    assert(!is_line_break_at(text@, start + j));
                }
                lemma_unbroken_start(tail, at - start);
                assert(tail.take(at - start) =~= kept@);
                assert(tail.skip(at - start) =~= text@.skip(at as int));
                assert(text@[at as int] == '\r' && text@[at + 1] == '\n');
                assert(is_line_break_at(text@.skip(at as int), 0));
                assert(text@.skip(at as int).skip(2) =~= text@.skip(at + 2));
                assert(stripped@ + (kept@ + without_line_breaks(text@.skip(at + 2)))
                    =~= (stripped@ + kept@) + without_line_breaks(text@.skip(at + 2)));
            }
            stripped.append(kept);
            at += 2;
            start = at;
        } else {
            proof {
                if at + 1 < len {
                    assert(!(text@[at as int] == '\r' && text@[at + 1] == '\n'));
                }
            }
            at += 1;
        }
    }
    let kept = text.substring_ascii(start, len);
    proof {
        let tail = text@.skip(start as int);
        assert forall|j: int| 0 <= j < len - start implies !is_line_break_at(tail, j) by {
            assert(!is_line_break_at(text@, start + j));
        }
        lemma_unbroken_start(tail, len - start);
        assert(tail.take(len - start) =~= kept@);
        assert(tail.skip(len - start) =~= Seq::<char>::empty());
        assert(stripped@ + (kept@ + Seq::<char>::empty()) =~= stripped@ + kept@);
    }
    stripped.append(kept);
    stripped
}

/// The payload of `text`: what follows its first comma, or all of it if it
/// has no comma.
pub fn payload(text: &str) -> (payload: &str)
    ensures
        payload@ == payload_of(text@),
{
    let len = text.unicode_len();
    let mut chars = text.chars();
    let mut at: usize = 0;
    assert(text@.skip(0) =~= text@);
    while at < len
        invariant
            len == text@.len(),
            at <= len,
            chars.remaining() == text@.skip(at as int),
            forall|j: int| 0 <= j < at ==> text@[j] != ',',
        decreases len - at,
    {
        let next = chars.next();
        proof {
            assert(text@.skip(at as int).drop_first() =~= text@.skip(at + 1));
        }
        match next {
            Some(c) => {
                if c == ',' {
                    proof {
                        lemma_payload_after_comma(text@, at as int);
                    }
                    return text.substring_char(at + 1, len);
                }
            },
            None => {},
        }
        at += 1;
    }
    proof {
        assert(!text@.contains(','));
        lemma_payload_without_comma(text@);
    }
    text
}

} // verus!
