use utf8_lossy::lossy::Utf8Lossy;
use utf8_lossy::render::{
    hex_digit_of, push_escaped_text, push_hex_escape, push_hex_escapes, push_shown_char,
};

fn lossy(bytes: &[u8]) -> String {
    Utf8Lossy::from_bytes(bytes).to_string()
}

fn quoted(bytes: &[u8]) -> String {
    Utf8Lossy::from_bytes(bytes).debug_string()
}

fn mixed_buffers() -> Vec<Vec<u8>> {
    let mut all: Vec<Vec<u8>> = vec![
        vec![],
        b"hello".to_vec(),
        vec![0xFF],
        vec![0x61, 0xE2, 0x28, 0xA1],
        vec![0xF0, 0x9F, 0x98, 0x80, 0xF0, 0x9F, 0x98],
        vec![0xED, 0xA0, 0x80, 0x41],
        vec![0xE0, 0x80, 0x80],
        vec![0xF4, 0x90, 0x80, 0x80],
        vec![0xC0, 0xAF],
        vec![0x41, 0xC2],
        "\u{FFFD}".as_bytes().to_vec(),
    ];
    let mut seed: u32 = 987654321;
    for len in 0..48usize {
        let mut buf = Vec::new();
        for _ in 0..len {
            seed = seed.wrapping_mul(1103515245).wrapping_add(12345);
            let pick = (seed >> 16) as u8;
            seed = seed.wrapping_mul(1103515245).wrapping_add(12345);
            let kind = (seed >> 28) as u8;
            buf.push(match kind {
                0..=3 => pick & 0x7F,
                4..=7 => 0x80 | (pick & 0x3F),
                8..=10 => 0xC0 | (pick & 0x1F),
                11..=13 => 0xE0 | (pick & 0x0F),
                14 => 0xF0 | (pick & 0x07),
                _ => pick,
            });
        }
        all.push(buf);
    }
    all
}

#[test]
fn empty_buffer_renders() {
    assert_eq!(lossy(&[]), "");
    assert_eq!(quoted(&[]), "\"\"");
}

#[test]
fn ascii_renders_unchanged() {
    assert_eq!(lossy(&[0x68, 0x65, 0x6C, 0x6C, 0x6F]), "hello");
    assert_eq!(quoted(b"hello"), "\"hello\"");
}

#[test]
fn invalid_lead_byte_renders() {
    assert_eq!(lossy(&[0xFF]), "\u{FFFD}");
    assert_eq!(quoted(&[0xFF]), "\"\\xff\"");
}

#[test]
fn bad_second_byte_renders() {
    assert_eq!(lossy(&[0x61, 0xE2, 0x28, 0xA1]), "a\u{FFFD}(\u{FFFD}");
    assert_eq!(quoted(&[0x61, 0xE2, 0x28, 0xA1]), "\"a\\xe2(\\xa1\"");
}

#[test]
fn truncated_sequence_is_one_replacement() {
    assert_eq!(lossy(&[0xF0, 0x9F, 0x98, 0x80, 0xF0, 0x9F, 0x98]), "\u{1F600}\u{FFFD}");
    assert_eq!(
        quoted(&[0xF0, 0x9F, 0x98, 0x80, 0xF0, 0x9F, 0x98]),
        "\"\u{1F600}\\xf0\\x9f\\x98\""
    );
    assert_eq!(lossy(&[0xE2, 0x82, 0x41]), "\u{FFFD}A");
}

#[test]
fn well_formed_text_passes_through() {
    let text = "caf\u{e9} \u{20ac} \u{1F600}";
    assert_eq!(lossy(text.as_bytes()), text);
}

#[test]
fn lossy_agrees_with_the_standard_decoder() {
    for buf in mixed_buffers() {
        assert_eq!(lossy(&buf), String::from_utf8_lossy(&buf));
    }
    for a in 0..=255u8 {
        for b in [0x00u8, 0x41, 0x7F, 0x80, 0x8F, 0x90, 0x9F, 0xA0, 0xBF, 0xC0, 0xC2, 0xE0, 0xFF] {
            for c in [0x41u8, 0x80, 0xBF, 0xC3] {
                let buf = [a, b, c, 0x80];
                assert_eq!(lossy(&buf), String::from_utf8_lossy(&buf));
            }
        }
    }
}

#[test]
fn lossy_is_idempotent() {
    for buf in mixed_buffers() {
        let once = lossy(&buf);
        let twice = lossy(once.as_bytes());
        assert_eq!(twice, once);
    }
}

#[test]
fn debug_escapes_text() {
    assert_eq!(quoted(b"a\nb"), "\"a\\nb\"");
    assert_eq!(quoted(b"\t\r\n"), "\"\\t\\r\\n\"");
    assert_eq!(quoted(b"say \"hi\""), "\"say \\\"hi\\\"\"");
    assert_eq!(quoted(b"it's"), "\"it\\'s\"");
    assert_eq!(quoted(b"a\\b"), "\"a\\\\b\"");
    assert_eq!(quoted(&[0x00]), "\"\\0\"");
    assert_eq!(quoted(&[0x01, 0x7F]), "\"\\u{1}\\u{7f}\"");
    assert_eq!(quoted("caf\u{e9}".as_bytes()), "\"caf\u{e9}\"");
}

#[test]
fn debug_escapes_every_broken_byte() {
    assert_eq!(quoted(&[0x80, 0x0A, 0xE2, 0x82]), "\"\\x80\\n\\xe2\\x82\"");
    assert_eq!(quoted(&[0xC0, 0xAF]), "\"\\xc0\\xaf\"");
    assert_eq!(quoted(&[0xF5, 0x41]), "\"\\xf5A\"");
}

#[test]
fn debug_of_text_matches_per_character_escapes() {
    for buf in mixed_buffers() {
        let mut expected = String::from("\"");
        let view = Utf8Lossy::from_bytes(&buf);
        let mut iter = view.chunks();
        while let Some(chunk) = iter.next() {
            for c in chunk.valid.chars() {
                let escaped: String = c.escape_debug().collect();
                if escaped.chars().count() != 1 {
                    expected.push_str(&escaped);
                } else {
                    expected.push(c);
                }
            }
            for b in chunk.broken {
                expected.push_str(&format!("\\x{:02x}", b));
            }
        }
        expected.push('"');
        assert_eq!(quoted(&buf), expected);
    }
}

#[test]
fn hex_digits() {
    let expected = "0123456789abcdef";
    for (n, c) in expected.chars().enumerate() {
        assert_eq!(hex_digit_of(n as u8), c);
    }
}

#[test]
fn hex_escape_has_two_digits() {
    for b in 0..=255u8 {
        let mut out = String::from("k");
        push_hex_escape(&mut out, b);
        assert_eq!(out, format!("k\\x{:02x}", b));
    }
    let mut out = String::new();
    push_hex_escapes(&mut out, &[0x00, 0x0A, 0xFF]);
    assert_eq!(out, "\\x00\\x0a\\xff");
    push_hex_escapes(&mut out, &[]);
    assert_eq!(out, "\\x00\\x0a\\xff");
}

#[test]
fn shown_char_takes_the_escape_unless_it_is_one_character() {
    let mut out = String::from(">");
    push_shown_char(&mut out, 'a', "a");
    assert_eq!(out, ">a");
    push_shown_char(&mut out, 'a', "b");
    assert_eq!(out, ">aa");
    push_shown_char(&mut out, '\n', "\\n");
    assert_eq!(out, ">aa\\n");
    push_shown_char(&mut out, 'x', "");
    assert_eq!(out, ">aa\\n");
    push_shown_char(&mut out, '\u{e9}', "\u{e9}");
    assert_eq!(out, ">aa\\n\u{e9}");
}

#[test]
fn escaped_text_is_appended() {
    let mut out = String::from("[");
    push_escaped_text(&mut out, "a\tb\u{1F600}");
    assert_eq!(out, "[a\\tb\u{1F600}");
    push_escaped_text(&mut out, "");
    assert_eq!(out, "[a\\tb\u{1F600}");
}
