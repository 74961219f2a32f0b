use json_ink::json_reader::JsonReader;
use json_ink::parsers::number::JsonNumber;
use json_ink::string_reader::{CharWithIndex, StrCompareIsMatch, StringReader};

#[test]
fn next_peek_and_previous() {
    let mut sr = StringReader::new("ab");
    assert_eq!(sr.peek(), Some(CharWithIndex { index: 0, char: b'a' }));
    assert_eq!(sr.previous(), None);
    assert_eq!(sr.next(), Some(CharWithIndex { index: 0, char: b'a' }));
    assert_eq!(sr.next(), Some(CharWithIndex { index: 1, char: b'b' }));
    assert_eq!(sr.previous(), Some(CharWithIndex { index: 0, char: b'a' }));
    assert_eq!(sr.next(), None);
    assert_eq!(sr.peek(), None);
    assert_eq!(sr.curr_index, 2);
}

#[test]
fn str_compare_counts_what_matched() {
    let mut sr = StringReader::new("trux");
    sr.curr_index = 1;
    assert_eq!(sr.str_compare("ru"), StrCompareIsMatch::True(2));
    assert_eq!(sr.str_compare("rue"), StrCompareIsMatch::False);
    assert_eq!(sr.str_compare("rux!!"), StrCompareIsMatch::True(3));
    assert_eq!(sr.str_compare(""), StrCompareIsMatch::True(0));
}

#[test]
fn skip_whitespace_knows_the_latin1_spaces() {
    let bytes = [0x85u8, 0xa0, 0x0b, b' ', b'x'];
    let mut sr = StringReader { bytes: &bytes, curr_index: 0 };
    sr.skip_whitespace();
    assert_eq!(sr.curr_index, 4);
    let bytes = [0xc3u8, 0xa0];
    let mut sr = StringReader { bytes: &bytes, curr_index: 0 };
    sr.skip_whitespace();
    assert_eq!(sr.curr_index, 0);
}

#[test]
fn goto_after_and_find_byte() {
    let mut sr = StringReader::new("ab:cd:");
    sr.goto_after(':');
    assert_eq!(sr.curr_index, 3);
    assert_eq!(sr.find_byte(b':'), Some(CharWithIndex { index: 5, char: b':' }));
    assert_eq!(sr.find_byte(b':'), None);
    assert_eq!(sr.curr_index, 6);
    let mut sr = StringReader::new("xyz");
    sr.goto_after('q');
    assert_eq!(sr.curr_index, 3);
}

#[test]
fn get_str_and_get_string() {
    let sr = StringReader::new("h\u{e9}llo");
    assert_eq!(sr.get_str(0..3), Ok("h\u{e9}"));
    assert_eq!(sr.get_string(3..6), Ok("llo".to_string()));
    assert_eq!(sr.get_str(0..2), Err("incomplete utf-8 byte sequence from index 1".to_string()));
    assert_eq!(sr.get_string(2..3), Err("invalid utf-8 sequence of 1 bytes from index 0".to_string()));
}

#[test]
fn goto_safe_stops_at_closers_and_after_commas() {
    let mut sr = StringReader::new("  ab ]x");
    sr.goto_safe();
    assert_eq!(sr.curr_index, 5);
    let mut sr = StringReader::new(" a, \t b");
    sr.goto_safe();
    assert_eq!(sr.curr_index, 6);
    let mut sr = StringReader::new("abc");
    sr.goto_safe();
    assert_eq!(sr.curr_index, 3);
}

#[test]
fn next_is_separator_sees_four_bytes() {
    for (s, expected) in [("}", true), ("]", true), (",", true), ("\n", true), (" ", false), ("", false)] {
        let sr = StringReader::new(s);
        assert_eq!(sr.next_is_separator(), expected, "{:?}", s);
    }
}

#[test]
fn find_quote_skips_escaped_quotes() {
    let mut sr = StringReader::new(r#"ab\"cd"ef"#);
    assert_eq!(sr.find_quote(), Some(CharWithIndex { index: 6, char: b'"' }));
    assert_eq!(sr.curr_index, 7);
    let mut sr = StringReader::new(r#"\"x"#);
    assert_eq!(sr.find_quote(), None);
    assert_eq!(sr.curr_index, 3);
    let mut sr = StringReader::new(r#""x"#);
    assert_eq!(sr.find_quote(), Some(CharWithIndex { index: 0, char: b'"' }));
}

#[test]
fn valid_number_chars() {
    assert!(JsonNumber::is_valid_char('0'));
    assert!(JsonNumber::is_valid_char('9'));
    assert!(JsonNumber::is_valid_char('-'));
    assert!(JsonNumber::is_valid_char('.'));
    assert!(!JsonNumber::is_valid_char('a'));
    assert!(!JsonNumber::is_valid_char('+'));
    assert!(JsonNumber::is_valid_char('\u{131}'));
}

#[test]
fn reader_past_the_end_stays_there() {
    let mut sr = StringReader::new("a b");
    sr.curr_index = 7;
    sr.skip_whitespace();
    assert_eq!(sr.curr_index, 7);
    assert_eq!(sr.find_byte(b'b'), None);
    assert_eq!(sr.curr_index, 7);
    assert_eq!(sr.find_quote(), None);
    sr.goto_safe();
    assert_eq!(sr.curr_index, 7);
    assert_eq!(sr.next(), None);
    assert_eq!(sr.previous(), None);
}
