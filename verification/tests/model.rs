//! The library and the crates it calls, held against a plain model of the
//! hexadecimal rendering, of the standard base64 text and of its lines.

use image_base64::{from_base64, get_file_type, signature_table, to_base64_from_memory_with_extension};
use regex::Regex;
use rustc_serialize::base64::{ToBase64, MIME};
use rustc_serialize::hex::ToHex;

const ALPHABET: &[u8; 64] = b"ABCDEFGHIJKLMNOPQRSTUVWXYZabcdefghijklmnopqrstuvwxyz0123456789+/";

fn sample(len: usize, seed: usize) -> Vec<u8> {
    (0..len).map(|i| ((i * 131 + seed * 29 + 7) % 256) as u8).collect()
}

/// Four characters for one, two or three bytes.
fn group(bytes: &[u8]) -> String {
    let b0 = bytes[0] as usize;
    let b1 = if bytes.len() > 1 { bytes[1] as usize } else { 0 };
    let b2 = if bytes.len() > 2 { bytes[2] as usize } else { 0 };
    let mut text = String::new();
    text.push(ALPHABET[b0 / 4] as char);
    text.push(ALPHABET[(b0 % 4) * 16 + b1 / 16] as char);
    text.push(if bytes.len() > 1 { ALPHABET[(b1 % 16) * 4 + b2 / 64] as char } else { '=' });
    text.push(if bytes.len() > 2 { ALPHABET[b2 % 64] as char } else { '=' });
    text
}

fn standard(bytes: &[u8]) -> String {
    bytes.chunks(3).map(group).collect()
}

fn lines(text: &str) -> String {
    if text.len() <= 76 {
        String::from(text)
    } else {
        format!("{}\r\n{}", &text[..76], lines(&text[76..]))
    }
}

/// The buffer that `text` is the standard text of, whole or with padding
/// left off at its end.
fn decoding(text: &str) -> Option<Vec<u8>> {
    let core = text.trim_end_matches('=');
    let given = text.len() - core.len();
    let mut values = Vec::new();
    for c in core.bytes() {
        values.push(ALPHABET.iter().position(|&symbol| symbol == c)?);
    }
    if values.len() % 4 == 1 {
        return None;
    }
    let owed = (4 - values.len() % 4) % 4;
    if given > owed {
        return None;
    }
    let mut bytes = Vec::new();
    for quad in values.chunks(4) {
        let v1 = quad[1];
        bytes.push((quad[0] * 4 + v1 / 16) as u8);
        if quad.len() > 2 {
            bytes.push(((v1 % 16) * 16 + quad[2] / 4) as u8);
        }
        if quad.len() > 3 {
            bytes.push(((quad[2] % 4) * 64 + quad[3]) as u8);
        }
    }
    if standard(&bytes) == format!("{}{}", core, "=".repeat(owed)) {
        Some(bytes)
    } else {
        None
    }
}

fn texts_over(symbols: &[char], max_len: usize) -> Vec<String> {
    let mut all = vec![String::new()];
    let mut last = vec![String::new()];
    for _ in 0..max_len {
        let mut next = Vec::new();
        for text in &last {
            for &symbol in symbols {
                let mut longer = text.clone();
                longer.push(symbol);
                next.push(longer);
            }
        }
        all.extend(next.iter().cloned());
        last = next;
    }
    all
}

fn assert_decodes_as_modelled(payload: &str) {
    let found = from_base64(format!("x,{}", payload)).ok();
    assert_eq!(found, decoding(payload), "payload {:?}", payload);
}

#[test]
fn model_gives_the_known_texts() {
    assert_eq!(standard(b""), "");
    assert_eq!(standard(b"f"), "Zg==");
    assert_eq!(standard(b"fo"), "Zm8=");
    assert_eq!(standard(b"foo"), "Zm9v");
    assert_eq!(standard(b"hello"), "aGVsbG8=");
    assert_eq!(standard(&[0x89, 0x50, 0x4e, 0x47]), "iVBORw==");
    assert_eq!(decoding("aGVsbG8="), Some(b"hello".to_vec()));
    assert_eq!(decoding("aGVsbG8"), Some(b"hello".to_vec()));
    assert_eq!(decoding("aGVsbG9="), None);
    assert_eq!(decoding("aGVsb"), None);
}

#[test]
fn rendering_is_two_digits_a_byte_high_nibble_first() {
    let digits: Vec<char> = "0123456789abcdef".chars().collect();
    for byte in 0u8..=255 {
        let expected: String =
            [digits[(byte / 16) as usize], digits[(byte % 16) as usize]].iter().collect();
        assert_eq!([byte].to_hex(), expected);
    }
    assert_eq!([0x89u8, 0x50, 0x4e, 0x47].to_hex(), "89504e47");
    assert_eq!(b"".to_hex(), "");
}

#[test]
fn anchored_pattern_is_a_prefix_test() {
    let mut haystacks: Vec<String> = vec![
        String::new(),
        String::from("f"),
        String::from("^"),
        String::from("é424d"),
        String::from("424dé"),
        String::from("\n424d"),
        String::from("424D"),
    ];
    for row in signature_table() {
        for cut in 0..=row.prefix.len() {
            haystacks.push(String::from(&row.prefix[..cut]));
            haystacks.push(format!("{}0", &row.prefix[..cut]));
            haystacks.push(format!("0{}", &row.prefix[cut..]));
        }
        haystacks.push(format!("{}{}", row.prefix, row.prefix));
    }
    for row in signature_table() {
        let pattern = Regex::new(&format!("^{}", row.prefix)).unwrap();
        for haystack in &haystacks {
            assert_eq!(pattern.is_match(haystack), haystack.starts_with(row.prefix));
        }
    }
}

#[test]
fn anchored_pattern_of_any_few_digits_compiles() {
    for half in texts_over(&['0', '9', 'a', 'f'], 4) {
        for text in [half.clone(), format!("{}{}", half, half)] {
            let pattern = Regex::new(&format!("^{}", text)).unwrap();
            assert!(pattern.is_match(&text));
            assert!(pattern.is_match(&format!("{}f", text)));
            assert_eq!(pattern.is_match(&format!("e{}", text)), text.is_empty());
        }
    }
}

#[test]
fn scan_is_a_prefix_test_in_table_order() {
    for text in texts_over(&['4', '2', 'd', 'f', '8', 'e'], 4) {
        let expected = signature_table()
            .into_iter()
            .find(|row| text.starts_with(row.prefix))
            .map(|row| row.tag);
        assert_eq!(get_file_type(&text), expected);
    }
}

#[test]
fn encoder_gives_the_standard_text_in_lines() {
    for len in 0..400 {
        let bytes = sample(len, len);
        assert_eq!(bytes.to_base64(MIME), lines(&standard(&bytes)));
    }
}

#[test]
fn encoded_payload_is_the_standard_text() {
    for len in 0..400 {
        let bytes = sample(len, 3);
        assert_eq!(
            to_base64_from_memory_with_extension(&bytes, "t"),
            format!("data:image/t;base64,{}", standard(&bytes))
        );
    }
}

#[test]
fn decoder_gives_the_buffer_of_every_standard_text() {
    for len in 0..200 {
        let bytes = sample(len, 5);
        let text = standard(&bytes);
        assert_eq!(from_base64(text.clone()).unwrap(), bytes);
        let bare = text.trim_end_matches('=');
        assert_eq!(from_base64(String::from(bare)).unwrap(), bytes);
        if text.ends_with("==") {
            assert_eq!(from_base64(format!("{}=", bare)).unwrap(), bytes);
        }
    }
}

#[test]
fn decoder_takes_short_texts_as_modelled() {
    for text in texts_over(&['A', 'Q', 'w', '/', '=', '*'], 6) {
        assert_decodes_as_modelled(&text);
    }
}

#[test]
fn decoder_takes_texts_of_one_chunk_as_modelled() {
    for text in texts_over(&['Q', 'g', '=', ' '], 8) {
        if text.len() >= 7 {
            assert_decodes_as_modelled(&text);
        }
    }
}

#[test]
fn decoder_takes_ends_of_long_texts_as_modelled() {
    let ends = texts_over(&['A', 'Q', 'w', '=', '\n'], 5);
    for groups in [2usize, 3, 8, 9, 10, 16, 17] {
        let start = "QUJD".repeat(groups);
        for end in &ends {
            assert_decodes_as_modelled(&format!("{}{}", start, end));
        }
    }
}

#[test]
fn decoder_refuses_a_wrong_character_anywhere() {
    let text = standard(&sample(90, 1));
    for at in 0..text.len() {
        for wrong in ['=', '-', '_', ' ', '\n', '\r', ',', 'é'] {
            let mut changed: Vec<char> = text.chars().collect();
            changed[at] = wrong;
            let changed: String = changed.into_iter().collect();
            assert_decodes_as_modelled(&changed);
        }
    }
}
