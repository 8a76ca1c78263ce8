//! The table of magic-number signatures and the first-match scan over it.

use crate::hex::{hex_of, lemma_hex_of_concat, to_hex};
use regex::Regex;
use vstd::prelude::*;
use vstd::slice::slice_subrange;
use vstd::string::*;

verus! {

/// One row of the signature table: the hexadecimal digits a buffer's
/// rendering has to start with, and the format tag it then gets.
#[derive(Clone, Copy, Debug)]
pub struct Signature {
    pub prefix: &'static str,
    pub tag: &'static str,
}

/// A row of the table as a pair of character sequences.
pub ghost struct SignatureRow {
    pub prefix: Seq<char>,
    pub tag: Seq<char>,
}

impl View for Signature {
    type V = SignatureRow;

    open spec fn view(&self) -> SignatureRow {
        SignatureRow { prefix: self.prefix@, tag: self.tag@ }
    }
}

/// The longest prefix a signature may have, in hexadecimal digits.
pub const MAX_PREFIX_LEN: usize = 8;

/// The number of leading bytes that are rendered for the scan: as many as
/// the longest prefix has pairs of digits.
pub const HEAD_LEN: usize = 4;

/// The signature table. Its order is part of its meaning: the scan returns
/// the tag of the first row that matches.
pub open spec fn signatures() -> Seq<SignatureRow> {
    seq![
        SignatureRow { prefix: "ffd8ffe"@, tag: "jpeg"@ },
        SignatureRow { prefix: "49492a00"@, tag: "tiff"@ },
        SignatureRow { prefix: "4d4d002a"@, tag: "tiff"@ },
        SignatureRow { prefix: "424d"@, tag: "bmp"@ },
        SignatureRow { prefix: "89504e47"@, tag: "png"@ },
        SignatureRow { prefix: "47494638"@, tag: "gif"@ },
        SignatureRow { prefix: "00000100"@, tag: "ico"@ },
        SignatureRow { prefix: "52494646"@, tag: "webp"@ },
    ]
}

/// A lower-case hexadecimal digit.
pub open spec fn is_hex_digit(c: char) -> bool {
    ('0' <= c && c <= '9') || ('a' <= c && c <= 'f')
}

/// A string of at most `MAX_PREFIX_LEN` hexadecimal digits.
pub open spec fn is_hex_prefix(prefix: Seq<char>) -> bool {
    &&& prefix.len() <= MAX_PREFIX_LEN
    &&& forall|i: int| 0 <= i < prefix.len() ==> is_hex_digit(#[trigger] prefix[i])
}

/// The tag of the first row of `table` whose prefix `hex` starts with.
pub open spec fn first_match(table: Seq<SignatureRow>, hex: Seq<char>) -> Option<Seq<char>>
    decreases table.len(),
{
    if table.len() == 0 {
        None
    } else if table[0].prefix.is_prefix_of(hex) {
        Some(table[0].tag)
    } else {
        first_match(table.drop_first(), hex)
    }
}

/// The format tag of a buffer whose hexadecimal rendering is `hex`.
pub open spec fn file_type_of(hex: Seq<char>) -> Option<Seq<char>> {
    first_match(signatures(), hex)
}

/// The format tag of the buffer `bytes`.
pub open spec fn detected_format(bytes: Seq<u8>) -> Option<Seq<char>> {
    file_type_of(hex_of(bytes))
}

/// The leading bytes of a buffer that the scan looks at.
pub open spec fn head_of(bytes: Seq<u8>) -> Seq<u8> {
    if bytes.len() > HEAD_LEN {
        bytes.take(HEAD_LEN as int)
    } else {
        bytes
    }
}

/// The views of the rows of an executable table.
pub open spec fn table_view(table: Seq<Signature>) -> Seq<SignatureRow> {
    table.map_values(|row: Signature| row@)
}

/// Reveals the digits of the eight prefixes of the table.
proof fn reveal_prefixes()
    ensures
        signatures().len() == 8,
        signatures()[0].prefix == seq!['f', 'f', 'd', '8', 'f', 'f', 'e'],
        signatures()[1].prefix == seq!['4', '9', '4', '9', '2', 'a', '0', '0'],
        signatures()[2].prefix == seq!['4', 'd', '4', 'd', '0', '0', '2', 'a'],
        signatures()[3].prefix == seq!['4', '2', '4', 'd'],
        signatures()[4].prefix == seq!['8', '9', '5', '0', '4', 'e', '4', '7'],
        signatures()[5].prefix == seq!['4', '7', '4', '9', '4', '6', '3', '8'],
        signatures()[6].prefix == seq!['0', '0', '0', '0', '0', '1', '0', '0'],
        signatures()[7].prefix == seq!['5', '2', '4', '9', '4', '6', '4', '6'],
{
    reveal_strlit("ffd8ffe");
    reveal_strlit("49492a00");
    reveal_strlit("4d4d002a");
    reveal_strlit("424d");
    reveal_strlit("89504e47");
    reveal_strlit("47494638");
    reveal_strlit("00000100");
    reveal_strlit("52494646");
    assert(signatures()[0].prefix =~= seq!['f', 'f', 'd', '8', 'f', 'f', 'e']);
    assert(signatures()[1].prefix =~= seq!['4', '9', '4', '9', '2', 'a', '0', '0']);
    assert(signatures()[2].prefix =~= seq!['4', 'd', '4', 'd', '0', '0', '2', 'a']);
    assert(signatures()[3].prefix =~= seq!['4', '2', '4', 'd']);
    assert(signatures()[4].prefix =~= seq!['8', '9', '5', '0', '4', 'e', '4', '7']);
    assert(signatures()[5].prefix =~= seq!['4', '7', '4', '9', '4', '6', '3', '8']);
    assert(signatures()[6].prefix =~= seq!['0', '0', '0', '0', '0', '1', '0', '0']);
    assert(signatures()[7].prefix =~= seq!['5', '2', '4', '9', '4', '6', '4', '6']);
}

/// Every prefix of the table is between four and `MAX_PREFIX_LEN`
/// hexadecimal digits long.
pub proof fn lemma_signatures_well_formed()
    ensures
        signatures().len() == 8,
        forall|k: int|
            0 <= k < signatures().len() ==> is_hex_prefix(#[trigger] signatures()[k].prefix)
                && signatures()[k].prefix.len() >= 4,
{
    reveal_prefixes();
}

/// A row that matches, with no matching row above it, decides the scan.
pub proof fn lemma_first_match_at(table: Seq<SignatureRow>, hex: Seq<char>, k: int)
    requires
        0 <= k < table.len(),
        table[k].prefix.is_prefix_of(hex),
        forall|j: int| 0 <= j < k ==> !(#[trigger] table[j]).prefix.is_prefix_of(hex),
    ensures
        first_match(table, hex) == Some(table[k].tag),
    decreases k,
{
    if k > 0 {
        let rest = table.drop_first();
        assert(forall|j: int| 0 <= j < k - 1 ==> rest[j] == table[j + 1]);
        lemma_first_match_at(rest, hex, k - 1);
    }
}

/// The scan finds nothing exactly when no row matches.
pub proof fn lemma_first_match_none(table: Seq<SignatureRow>, hex: Seq<char>)
    ensures
        first_match(table, hex) is None <==> forall|k: int|
            0 <= k < table.len() ==> !(#[trigger] table[k]).prefix.is_prefix_of(hex),
    decreases table.len(),
{
    if table.len() > 0 {
        let rest = table.drop_first();
        lemma_first_match_none(rest, hex);
        if !table[0].prefix.is_prefix_of(hex) {
            if first_match(rest, hex) is None {
                assert forall|k: int| 0 <= k < table.len() implies !(#[trigger] table[k]).prefix.is_prefix_of(
                    hex,
                ) by {
                    if k > 0 {
                        assert(table[k] == rest[k - 1]);
                    }
                }
            } else {
                let k = choose|k: int| 0 <= k < rest.len() && (#[trigger] rest[k]).prefix.is_prefix_of(hex);
                assert(table[k + 1] == rest[k]);
            }
        }
    }
}

/// The tag that the scan of a table returns is the tag of one of its rows.
pub proof fn lemma_first_match_tag(table: Seq<SignatureRow>, hex: Seq<char>)
    requires
        first_match(table, hex) is Some,
    ensures
        exists|k: int| 0 <= k < table.len() && first_match(table, hex) == Some((#[trigger] table[k]).tag),
    decreases table.len(),
{
    if !table[0].prefix.is_prefix_of(hex) {
        let rest = table.drop_first();
        lemma_first_match_tag(rest, hex);
        let k = choose|k: int| 0 <= k < rest.len() && first_match(rest, hex) == Some((#[trigger] rest[k]).tag);
        assert(table[k + 1] == rest[k]);
    }
}

/// No tag of the signature table holds a comma or a carriage return.
pub proof fn lemma_tags_plain()
    ensures
        forall|k: int|
            0 <= k < signatures().len() ==> !(#[trigger] signatures()[k]).tag.contains(',')
                && !signatures()[k].tag.contains('\r'),
{
    reveal_strlit("jpeg");
    reveal_strlit("tiff");
    reveal_strlit("bmp");
    reveal_strlit("png");
    reveal_strlit("gif");
    reveal_strlit("ico");
    reveal_strlit("webp");
}

/// No text starts with two different prefixes of the table: of any two rows
/// one differs from the other among the first two digits.
pub proof fn lemma_prefixes_exclusive(hex: Seq<char>, j: int, k: int)
    requires
        0 <= j < signatures().len(),
        0 <= k < signatures().len(),
        signatures()[j].prefix.is_prefix_of(hex),
        signatures()[k].prefix.is_prefix_of(hex),
    ensures
        j == k,
{
    reveal_prefixes();
    let a = signatures()[j].prefix;
    let b = signatures()[k].prefix;
    assert(a[0] == hex[0] && a[1] == hex[1]);
    assert(b[0] == hex[0] && b[1] == hex[1]);
}

/// A buffer that begins with a header matching row `k` is detected as that
/// row's format, whatever follows the header.
pub proof fn lemma_header_decides(header: Seq<u8>, suffix: Seq<u8>, k: int)
    requires
        0 <= k < signatures().len(),
        signatures()[k].prefix.is_prefix_of(hex_of(header)),
    ensures
        detected_format(header + suffix) == Some(signatures()[k].tag),
{
    let hex = hex_of(header + suffix);
    let prefix = signatures()[k].prefix;
    lemma_hex_of_concat(header, suffix);
    assert(prefix.is_prefix_of(hex)) by {
        assert(prefix =~= hex_of(header).subrange(0, prefix.len() as int));
        assert(hex_of(header) =~= hex.subrange(0, hex_of(header).len() as int));
        assert(prefix =~= hex.subrange(0, prefix.len() as int));
    }
    assert forall|j: int| 0 <= j < k implies !(#[trigger] signatures()[j]).prefix.is_prefix_of(hex) by {
        if signatures()[j].prefix.is_prefix_of(hex) {
            lemma_prefixes_exclusive(hex, j, k);
        }
    }
    lemma_first_match_at(signatures(), hex, k);
}

/// Two texts that start with the same prefixes of a table get the same tag.
pub proof fn lemma_first_match_same(table: Seq<SignatureRow>, a: Seq<char>, b: Seq<char>)
    requires
        forall|k: int|
            0 <= k < table.len() ==> ((#[trigger] table[k]).prefix.is_prefix_of(a)
                <==> table[k].prefix.is_prefix_of(b)),
    ensures
        first_match(table, a) == first_match(table, b),
    decreases table.len(),
{
    if table.len() > 0 {
        let rest = table.drop_first();
        assert(table[0].prefix.is_prefix_of(a) <==> table[0].prefix.is_prefix_of(b));
        assert forall|k: int| 0 <= k < rest.len() implies ((#[trigger] rest[k]).prefix.is_prefix_of(a)
            <==> rest[k].prefix.is_prefix_of(b)) by {
            assert(rest[k] == table[k + 1]);
        }
        lemma_first_match_same(rest, a, b);
    }
}

/// The format of a buffer is the format of its leading bytes.
pub proof fn lemma_format_of_head(bytes: Seq<u8>)
    ensures
        detected_format(head_of(bytes)) == detected_format(bytes),
{
    if bytes.len() > HEAD_LEN {
        let whole = hex_of(bytes);
        let head = hex_of(head_of(bytes));
        lemma_signatures_well_formed();
        assert(head =~= whole.take(MAX_PREFIX_LEN as int));
        assert forall|k: int| 0 <= k < signatures().len() implies ((#[trigger] signatures()[k]).prefix.is_prefix_of(
            head,
        ) <==> signatures()[k].prefix.is_prefix_of(whole)) by {
            let prefix = signatures()[k].prefix;
            assert(is_hex_prefix(prefix));
            assert(head.subrange(0, prefix.len() as int) =~= whole.subrange(
                0,
                prefix.len() as int,
            ));
        }
        lemma_first_match_same(signatures(), head, whole);
    }
}

/// A buffer has no format exactly when its rendering starts with no prefix
/// of the table.
pub proof fn lemma_unrecognized(bytes: Seq<u8>)
    ensures
        detected_format(bytes) is None <==> forall|k: int|
            0 <= k < signatures().len() ==> !(#[trigger] signatures()[k]).prefix.is_prefix_of(
                hex_of(bytes),
            ),
{
    lemma_first_match_none(signatures(), hex_of(bytes));
}

/// A buffer of fewer than two bytes is shorter than every signature and has
/// no format.
pub proof fn lemma_short_buffer_unrecognized(bytes: Seq<u8>)
    requires
        bytes.len() < 2,
    ensures
        detected_format(bytes) is None,
{
    lemma_signatures_well_formed();
    lemma_first_match_none(signatures(), hex_of(bytes));
}

/// The signature table, in scan order.
pub fn signature_table() -> (table: Vec<Signature>)
    ensures
        table_view(table@) == signatures(),
{
    let table = vec![
        Signature { prefix: "ffd8ffe", tag: "jpeg" },
        Signature { prefix: "49492a00", tag: "tiff" },
        Signature { prefix: "4d4d002a", tag: "tiff" },
        Signature { prefix: "424d", tag: "bmp" },
        Signature { prefix: "89504e47", tag: "png" },
        Signature { prefix: "47494638", tag: "gif" },
        Signature { prefix: "00000100", tag: "ico" },
        Signature { prefix: "52494646", tag: "webp" },
    ];
    assert(table_view(table@) =~= signatures());
    table
}

/// The patterns that `anchored_match` is specified for: a `^` followed by at
/// most `MAX_PREFIX_LEN` hexadecimal digits.
pub open spec fn is_anchored_prefix(pattern: Seq<char>) -> bool {
    &&& pattern.len() >= 1
    &&& pattern[0] == '^'
    &&& is_hex_prefix(pattern.skip(1))
}

/// Compiles `pattern` with `regex::Regex::new` and searches `hex` with
/// `regex::Regex::is_match`.
///
/// A `^` followed by a few digits and lower-case letters is a valid pattern
/// far below the default size limit, so compiling it succeeds. In it `^`
/// stands for the beginning of the haystack and every other character for
/// itself, so there is a match exactly when the haystack starts with the
/// characters after the `^`.
#[verifier::external_body]
fn anchored_match(pattern: &str, hex: &str) -> (found: Option<bool>)
    requires
        is_anchored_prefix(pattern@),
    ensures
        found == Some(pattern@.skip(1).is_prefix_of(hex@)),
{
    match Regex::new(pattern) {
        Ok(regex) => Some(regex.is_match(hex)),
        Err(_) => None,
    }
}

/// Whether `hex` starts with `prefix`, decided by a regular expression
/// anchored at the start of `hex`. `None` if the expression cannot be built,
/// which does not happen for a string of hexadecimal digits.
fn starts_with_prefix(hex: &str, prefix: &str) -> (found: Option<bool>)
    requires
        is_hex_prefix(prefix@),
    ensures
        found == Some(prefix@.is_prefix_of(hex@)),
{
    let pattern = String::from_str("^").concat(prefix);
    proof {
        reveal_strlit("^");
        assert(pattern@.skip(1) =~= prefix@);
    }
    anchored_match(pattern.as_str(), hex)
}

/// Scans the signature table for the first prefix that `hex`, the lower-case
/// hexadecimal rendering of a buffer, starts with, and returns its tag.
pub fn get_file_type(hex: &str) -> (tag: Option<&'static str>)
    ensures
        match tag {
            Some(t) => file_type_of(hex@) == Some(t@),
            None => file_type_of(hex@) is None,
        },
{
    let table = signature_table();
    let mut i: usize = 0;
    assert(signatures().skip(0) =~= signatures());
    while i < table.len()
        invariant
            i <= table.len(),
            table_view(table@) == signatures(),
            file_type_of(hex@) == first_match(signatures().skip(i as int), hex@),
        decreases table.len() - i,
    {
        let row = table[i];
        proof {
            lemma_signatures_well_formed();
            assert(row@ == signatures()[i as int]);
            assert(signatures().skip(i as int).drop_first() =~= signatures().skip(i + 1));
        }
        match starts_with_prefix(hex, row.prefix) {
            Some(true) => {
                return Some(row.tag);
            },
            Some(false) => {},
            None => {
                return None;
            },
        }
        i += 1;
    }
    None
}

/// The image format of a buffer, from its leading bytes: the tag of the
/// first signature that the buffer starts with, or `None` if it starts with
/// none of them.
pub fn detect(vec: &[u8]) -> (tag: Option<&'static str>)
    ensures
        match tag {
            Some(t) => detected_format(vec@) == Some(t@),
            None => detected_format(vec@) is None,
        },
        vec@.len() < 2 ==> tag is None,
{
    let head = if vec.len() > HEAD_LEN {
        slice_subrange(vec, 0, HEAD_LEN)
    } else {
        vec
    };
    let hex = to_hex(head);
    proof {
        lemma_format_of_head(vec@);
        if vec@.len() < 2 {
            lemma_short_buffer_unrecognized(vec@);
        }
    }
    get_file_type(hex.as_str())
}

} // verus!
