//! What follows from the definition of the standard base64 text.

use crate::encoding::{alphabet, base64_text, group_text, is_base64_of, PAD};
use vstd::prelude::*;

verus! {

/// A character of the standard alphabet.
pub open spec fn is_symbol(c: char) -> bool {
    ('A' <= c && c <= 'Z') || ('a' <= c && c <= 'z') || ('0' <= c && c <= '9') || c == '+' || c
        == '/'
}

/// The six-bit value that a symbol of the alphabet stands for.
pub open spec fn symbol_value(c: char) -> int {
    if 'A' <= c && c <= 'Z' {
        c as int - 'A' as int
    } else if 'a' <= c && c <= 'z' {
        c as int - 'a' as int + 26
    } else if '0' <= c && c <= '9' {
        c as int - '0' as int + 52
    } else if c == '+' {
        62
    } else {
        63
    }
}

/// The alphabet has sixty-four symbols, and each stands at the place of its
/// value.
pub proof fn lemma_alphabet()
    ensures
        alphabet().len() == 64,
        forall|v: int|
            0 <= v < 64 ==> is_symbol(#[trigger] alphabet()[v]) && symbol_value(alphabet()[v])
                == v,
{
    reveal_strlit("ABCDEFGHIJKLMNOPQRSTUVWXYZabcdefghijklmnopqrstuvwxyz0123456789+/");
}

/// A group's text has four characters: symbols for the bits of its bytes,
/// then padding, one character for every byte short of three.
pub proof fn lemma_group_text(group: Seq<u8>)
    requires
        1 <= group.len() <= 3,
    ensures
        group_text(group).len() == 4,
        forall|i: int| 0 <= i <= group.len() ==> is_symbol(#[trigger] group_text(group)[i]),
        forall|i: int| group.len() < i < 4 ==> #[trigger] group_text(group)[i] == PAD,
{
    lemma_alphabet();
}

/// Two groups with the same text are the same group.
pub proof fn lemma_group_text_injective(a: Seq<u8>, b: Seq<u8>)
    requires
        1 <= a.len() <= 3,
        1 <= b.len() <= 3,
        group_text(a) == group_text(b),
    ensures
        a == b,
{
    lemma_alphabet();
    lemma_group_text(a);
    lemma_group_text(b);
    let text = group_text(a);
    assert(a.len() == b.len()) by {
        assert(text[2] == group_text(b)[2]);
        assert(text[3] == group_text(b)[3]);
    }
    let a0 = a[0] as int;
    let b0 = b[0] as int;
    assert(a0 / 4 == b0 / 4 && a0 % 4 == b0 % 4) by {
        assert(symbol_value(text[0]) == symbol_value(group_text(b)[0]));
        assert(symbol_value(text[1]) == symbol_value(group_text(b)[1]));
    }
    if a.len() > 1 {
        let a1 = a[1] as int;
        let b1 = b[1] as int;
        assert(a1 / 16 == b1 / 16 && a1 % 16 == b1 % 16) by {
            assert(symbol_value(text[1]) == symbol_value(group_text(b)[1]));
            assert(symbol_value(text[2]) == symbol_value(group_text(b)[2]));
        }
    }
    if a.len() > 2 {
        let a2 = a[2] as int;
        let b2 = b[2] as int;
        assert(a2 / 64 == b2 / 64 && a2 % 64 == b2 % 64) by {
            assert(symbol_value(text[2]) == symbol_value(group_text(b)[2]));
            assert(symbol_value(text[3]) == symbol_value(group_text(b)[3]));
        }
    }
    assert(a =~= b);
}

/// The text has four characters for every three bytes, the last group
/// counted in full.
pub proof fn lemma_base64_text_len(bytes: Seq<u8>)
    ensures
        base64_text(bytes).len() == 4 * ((bytes.len() + 2) / 3),
    decreases bytes.len(),
{
    if bytes.len() == 0 {
    } else if bytes.len() <= 3 {
        lemma_group_text(bytes);
    } else {
        lemma_group_text(bytes.take(3));
        lemma_base64_text_len(bytes.skip(3));
    }
}

/// The text is made of symbols of the alphabet, but for at most two
/// padding characters at its end.
pub proof fn lemma_base64_text_chars(bytes: Seq<u8>)
    ensures
        forall|i: int|
            0 <= i < base64_text(bytes).len() ==> is_symbol(#[trigger] base64_text(bytes)[i])
                || (base64_text(bytes)[i] == PAD && i >= base64_text(bytes).len() - 2),
    decreases bytes.len(),
{
    if bytes.len() == 0 {
    } else if bytes.len() <= 3 {
        lemma_group_text(bytes);
    } else {
        let head = group_text(bytes.take(3));
        let tail = base64_text(bytes.skip(3));
        lemma_group_text(bytes.take(3));
        lemma_base64_text_chars(bytes.skip(3));
        lemma_base64_text_len(bytes.skip(3));
        assert forall|i: int| 0 <= i < base64_text(bytes).len() implies is_symbol(
            #[trigger] base64_text(bytes)[i],
        ) || (base64_text(bytes)[i] == PAD && i >= base64_text(bytes).len() - 2) by {
            if i < 4 {
                assert(base64_text(bytes)[i] == head[i]);
            } else {
                assert(base64_text(bytes)[i] == tail[i - 4]);
            }
        }
    }
}

/// Two buffers with the same text are the same buffer.
pub proof fn lemma_base64_text_injective(a: Seq<u8>, b: Seq<u8>)
    requires
        base64_text(a) == base64_text(b),
    ensures
        a == b,
    decreases a.len(),
{
    lemma_base64_text_len(a);
    lemma_base64_text_len(b);
    if a.len() == 0 {
        assert(a =~= b);
    } else if a.len() <= 3 {
        lemma_group_text_injective(a, b);
    } else {
        let text = base64_text(a);
        lemma_group_text(a.take(3));
        lemma_group_text(b.take(3));
        assert(group_text(a.take(3)) =~= text.take(4));
        assert(group_text(b.take(3)) =~= text.take(4));
        assert(base64_text(a.skip(3)) =~= text.skip(4));
        assert(base64_text(b.skip(3)) =~= text.skip(4));
        lemma_group_text_injective(a.take(3), b.take(3));
        lemma_base64_text_injective(a.skip(3), b.skip(3));
        assert(a =~= a.take(3) + a.skip(3));
        assert(b =~= b.take(3) + b.skip(3));
    }
}

/// A text is the encoding of at most one buffer, also where padding was
/// left off.
pub proof fn lemma_decoding_unique(text: Seq<char>, a: Seq<u8>, b: Seq<u8>)
    requires
        is_base64_of(text, a),
        is_base64_of(text, b),
    ensures
        a == b,
{
    let full_a = base64_text(a);
    let full_b = base64_text(b);
    lemma_base64_text_len(a);
    lemma_base64_text_len(b);
    lemma_base64_text_chars(a);
    lemma_base64_text_chars(b);
    assert(full_a.len() == full_b.len()) by {
        if full_a.len() > text.len() {
            assert(full_a[text.len() as int] == PAD);
        }
        if full_b.len() > text.len() {
            assert(full_b[text.len() as int] == PAD);
        }
    }
    assert(full_a =~= full_b) by {
        assert forall|i: int| 0 <= i < full_a.len() implies full_a[i] == full_b[i] by {
            if i < text.len() {
                assert(full_a[i] == text[i]);
                assert(full_b[i] == text[i]);
            }
        }
    }
    lemma_base64_text_injective(a, b);
}

} // verus!
