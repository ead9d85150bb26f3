use ir_convert::common::CodecError;
use ir_convert::escape::{EscapeSequence, EscapedStringIterator, Variant};

#[test]
fn c_hex_escape_decodes_one_byte() {
    assert_eq!(EscapeSequence::decode("\\x41", Variant::C), Ok(vec![0x41]));
}

#[test]
fn c_hex_escape_takes_a_single_odd_digit() {
    assert_eq!(EscapeSequence::decode("\\x4", Variant::C), Ok(vec![0x04]));
}

#[test]
fn c_hex_escape_consumes_a_whole_run() {
    // three digits round up to two bytes, the run zero-padded on the left
    assert_eq!(EscapeSequence::decode("\\x041", Variant::C), Ok(vec![0x00, 0x41]));
    assert_eq!(EscapeSequence::decode("\\x0041", Variant::C), Ok(vec![0x00, 0x41]));
}

#[test]
fn python_hex_escape_needs_two_digits() {
    assert_eq!(EscapeSequence::decode("\\x4", Variant::Python), Err(CodecError::Lex));
}

#[test]
fn python_hex_escape_takes_exactly_two_digits() {
    assert_eq!(EscapeSequence::decode("\\x418", Variant::Python), Ok(vec![0x41, 0x38]));
}

#[test]
fn unknown_escape_is_an_error_in_both_dialects() {
    assert_eq!(EscapeSequence::decode("\\q", Variant::C), Err(CodecError::Lex));
    assert_eq!(EscapeSequence::decode("\\q", Variant::Python), Err(CodecError::Lex));
}

#[test]
fn lexer_consumes_nothing_after_an_error() {
    let mut it = EscapedStringIterator::new("\\qabcdef", Variant::C);
    match it.next() {
        Some(Err(e)) => assert_eq!(e, CodecError::Lex),
        other => panic!("expected a lexing error, got {:?}", other.is_some()),
    }
    assert!(it.next().is_none());
    assert!(it.next().is_none());
}

#[test]
fn encode_renders_the_default_forms() {
    assert_eq!(EscapeSequence::encode(&[0x00]), "\\x00");
    assert_eq!(EscapeSequence::encode(&[0x0A]), "\\n");
    assert_eq!(EscapeSequence::encode(&[0x41]), "A");
    assert_eq!(EscapeSequence::encode(&[0xFF]), "\\xFF");
    assert_eq!(EscapeSequence::encode(&[0x5C]), "\\\\");
    assert_eq!(EscapeSequence::encode(&[0x27]), "\\'");
    assert_eq!(EscapeSequence::encode(&[0x22]), "\\\"");
}

#[test]
fn octal_escape_caps_at_three_digits() {
    assert_eq!(EscapeSequence::decode("\\101", Variant::C), Ok(vec![0x41]));
    assert_eq!(EscapeSequence::decode("\\1011", Variant::C), Ok(vec![0x41, 0x31]));
}

#[test]
fn octal_escape_value_wraps_to_a_byte() {
    assert_eq!(EscapeSequence::decode("\\777", Variant::C), Ok(vec![0xFF]));
    assert_eq!(EscapeSequence::decode("\\400", Variant::C), Ok(vec![0x00]));
}

#[test]
fn unicode_escapes_decode_to_utf8() {
    assert_eq!(EscapeSequence::decode("\\u0041", Variant::C), Ok(vec![0x41]));
    assert_eq!(EscapeSequence::decode("\\u00E9", Variant::C), Ok(vec![0xC3, 0xA9]));
    assert_eq!(EscapeSequence::decode("\\U0001F600", Variant::C), Ok(vec![0xF0, 0x9F, 0x98, 0x80]));
}

#[test]
fn unicode_escape_rejects_surrogates_and_bad_runs() {
    assert_eq!(EscapeSequence::decode("\\uD800", Variant::C), Err(CodecError::Lex));
    // the digit run must be exactly four long
    assert_eq!(EscapeSequence::decode("\\u00410", Variant::C), Err(CodecError::Lex));
}

#[test]
fn named_escape_is_python_only() {
    assert_eq!(
        EscapeSequence::decode("\\N{LATIN SMALL LETTER A}", Variant::Python),
        Ok(vec![b'a'])
    );
    assert_eq!(
        EscapeSequence::decode("\\N{LATIN SMALL LETTER A}", Variant::C),
        Err(CodecError::Lex)
    );
    assert_eq!(
        EscapeSequence::decode("\\N{NO SUCH CHARACTER NAME}", Variant::Python),
        Err(CodecError::Lex)
    );
    assert_eq!(EscapeSequence::decode("\\N{unterminated", Variant::Python), Err(CodecError::Lex));
}

#[test]
fn python_round_trip_covers_every_byte() {
    let mut bytes: Vec<u8> = Vec::new();
    for b in 0..=255u8 {
        bytes.push(b);
    }
    let text = EscapeSequence::encode(&bytes);
    assert_eq!(EscapeSequence::decode(&text, Variant::Python), Ok(bytes));
}

#[test]
fn c_round_trip_holds_without_hex_digit_adjacency() {
    let bytes = vec![0x00, b'\n', b'z', 0x01, b'!', b'A', 0x7F, b'\\', 0xFE];
    let text = EscapeSequence::encode(&bytes);
    assert_eq!(EscapeSequence::decode(&text, Variant::C), Ok(bytes));
}

#[test]
fn c_greedy_hex_run_breaks_adjacent_round_trips() {
    // a hex escape followed by a printable digit character is re-lexed as
    // one longer run in the C dialect, but not in the Python dialect
    let bytes = vec![0x01, b'A'];
    let text = EscapeSequence::encode(&bytes);
    assert_eq!(text, "\\x01A");
    assert_eq!(EscapeSequence::decode(&text, Variant::C), Ok(vec![0x00, 0x1A]));
    assert_eq!(EscapeSequence::decode(&text, Variant::Python), Ok(vec![0x01, b'A']));
}

#[test]
fn literal_text_passes_through() {
    assert_eq!(EscapeSequence::decode("hi there", Variant::C), Ok(b"hi there".to_vec()));
    assert_eq!(EscapeSequence::decode("", Variant::Python), Ok(vec![]));
}

#[test]
fn lone_backslash_is_an_error() {
    assert_eq!(EscapeSequence::decode("\\", Variant::C), Err(CodecError::Lex));
}
