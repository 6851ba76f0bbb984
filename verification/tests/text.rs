use revwalk::read::read_to_string_until;
use revwalk::read::DecodeError;
use revwalk::read::Reader;
use revwalk::text::char_is_whitespace;
use revwalk::text::find_byte;
use revwalk::text::find_char;
use revwalk::text::parse_digits;
use revwalk::text::trim;

#[test]
fn whitespace_follows_the_unicode_property() {
    for c in ['\t', '\n', '\u{b}', '\u{c}', '\r', ' ', '\u{85}', '\u{a0}', '\u{1680}', '\u{2000}',
        '\u{200a}', '\u{2028}', '\u{2029}', '\u{202f}', '\u{205f}', '\u{3000}']
    {
        assert!(char_is_whitespace(c));
        assert!(c.is_whitespace());
    }
    for c in ['a', '0', '\u{8}', '\u{e}', '\u{200b}', '\u{feff}', '\u{180e}', '\u{2060}'] {
        assert!(!char_is_whitespace(c));
        assert!(!c.is_whitespace());
    }
}

#[test]
fn whitespace_agrees_with_std_on_every_char() {
    let mut code: u32 = 0;
    while code <= 0x10ffff {
        if let Some(c) = char::from_u32(code) {
            assert_eq!(char_is_whitespace(c), c.is_whitespace());
        }
        code += 1;
    }
}

#[test]
fn trim_removes_both_ends_only() {
    assert_eq!(trim("  a b \n"), "a b");
    assert_eq!(trim("\u{2003}x\u{a0}"), "x");
    assert_eq!(trim(""), "");
    assert_eq!(trim(" \t\r\n"), "");
    assert_eq!(trim("abc"), "abc");
}

#[test]
fn find_char_gives_first_position_or_length() {
    assert_eq!(find_char("a b c", ' '), 1);
    assert_eq!(find_char("abc", ' '), 3);
    assert_eq!(find_char("", ' '), 0);
    assert_eq!(find_char("\u{e9}t\u{e9} x", ' '), 3);
}

#[test]
fn find_byte_is_relative_to_the_start() {
    let bytes = [1u8, 2, 3, 2, 5];
    assert_eq!(find_byte(&bytes, 0, 2), 1);
    assert_eq!(find_byte(&bytes, 2, 2), 1);
    assert_eq!(find_byte(&bytes, 4, 2), 1);
    assert_eq!(find_byte(&bytes, 5, 2), 0);
}

#[test]
fn parse_digits_reads_decimal_and_octal() {
    assert_eq!(parse_digits("0", 10, u64::MAX), Some(0));
    assert_eq!(parse_digits("0042", 10, u64::MAX), Some(42));
    assert_eq!(parse_digits("18446744073709551615", 10, u64::MAX), Some(u64::MAX));
    assert_eq!(parse_digits("18446744073709551616", 10, u64::MAX), None);
    assert_eq!(parse_digits("777", 8, 0xffff_ffff), Some(0o777));
    assert_eq!(parse_digits("8", 8, 0xffff_ffff), None);
    assert_eq!(parse_digits("", 10, u64::MAX), None);
    assert_eq!(parse_digits("12a", 10, u64::MAX), None);
    assert_eq!(parse_digits("-1", 10, u64::MAX), None);
    assert_eq!(parse_digits("256", 10, 255), None);
    assert_eq!(parse_digits("255", 10, 255), Some(255));
}

#[test]
fn reader_reads_chunks_in_order() {
    let mut reader = Reader::new(b"ab cd\0rest".to_vec());
    assert_eq!(reader.read_until(b' '), b"ab ".to_vec());
    assert_eq!(reader.read_until(0), b"cd\0".to_vec());
    assert_eq!(reader.read_exact(5), None);
    assert_eq!(reader.read_exact(2), Some(b"re".to_vec()));
    assert!(!reader.is_empty());
    assert_eq!(reader.read_to_end(), b"st".to_vec());
    assert!(reader.is_empty());
    assert_eq!(reader.read_until(b' '), Vec::<u8>::new());
}

#[test]
fn read_to_string_until_trims_the_text_before_the_separator() {
    let mut reader = Reader::new(b" 100644 name\0".to_vec());
    assert_eq!(read_to_string_until(&mut reader, b' '), Ok(Some(String::new())));
    assert_eq!(read_to_string_until(&mut reader, b' '), Ok(Some(String::from("100644"))));
    assert_eq!(read_to_string_until(&mut reader, 0), Ok(Some(String::from("name"))));
    assert_eq!(read_to_string_until(&mut reader, 0), Ok(None));
}

#[test]
fn read_to_string_until_drops_the_last_byte_at_the_end_of_the_stream() {
    let mut reader = Reader::new(b"abc".to_vec());
    assert_eq!(read_to_string_until(&mut reader, b' '), Ok(Some(String::from("ab"))));
    assert_eq!(read_to_string_until(&mut reader, b' '), Ok(None));
}

#[test]
fn read_to_string_until_rejects_bytes_that_are_not_utf8() {
    let mut reader = Reader::new(vec![0xff, 0xfe, b' ']);
    assert_eq!(read_to_string_until(&mut reader, b' '), Err(DecodeError::InvalidUtf8));
    let mut cut = Reader::new(vec![b'a', 0xc3, 0xa9]);
    assert_eq!(read_to_string_until(&mut cut, b' '), Err(DecodeError::InvalidUtf8));
}
