use eight_deep_parser::parser::{
    comment, handle_key, handle_key_name, key_name, key_value, multi_line_single, multi_package,
    separator, single_line, single_package, value_field,
};
use eight_deep_parser::{parse_multi, parse_one, ErrorKind, NomErrorWrap, ParseError};

fn error(input: &[u8], code: ErrorKind) -> NomErrorWrap {
    NomErrorWrap { input: input.to_vec(), code }
}

fn syntax(input: &[u8], code: ErrorKind) -> ParseError {
    ParseError::Syntax(error(input, code))
}

#[test]
fn line_without_line_feed_fails() {
    assert_eq!(single_line(b"zsync"), Err(error(b"zsync", ErrorKind::TakeUntil)));
    assert_eq!(single_line(b""), Err(error(b"", ErrorKind::TakeUntil)));
}

#[test]
fn empty_line_is_a_line() {
    assert_eq!(single_line(b"\nrest"), Ok((&b"rest"[..], &b""[..])));
}

#[test]
fn continuation_line_begins_with_a_space() {
    assert_eq!(multi_line_single(b" a\nb"), Ok((&b"b"[..], &b"a"[..])));
    assert_eq!(multi_line_single(b"  a\n"), Ok((&b""[..], &b" a"[..])));
    assert_eq!(multi_line_single(b"a\n"), Err(error(b"a\n", ErrorKind::Tag)));
    assert_eq!(multi_line_single(b"\ta\n"), Err(error(b"\ta\n", ErrorKind::Tag)));
    assert_eq!(multi_line_single(b""), Err(error(b"", ErrorKind::Tag)));
    assert_eq!(multi_line_single(b" a"), Err(error(b"a", ErrorKind::TakeUntil)));
}

#[test]
fn separator_is_a_colon_and_blanks() {
    assert_eq!(separator(b": \t x"), Ok((&b"x"[..], ())));
    assert_eq!(separator(b":\n"), Ok((&b"\n"[..], ())));
    assert_eq!(separator(b":"), Ok((&b""[..], ())));
    assert_eq!(separator(b" :"), Err(error(b" :", ErrorKind::Char)));
    assert_eq!(separator(b""), Err(error(b"", ErrorKind::Char)));
}

#[test]
fn name_without_colon_fails() {
    assert_eq!(handle_key(b"Package"), Err(error(b"Package", ErrorKind::TakeUntil)));
    assert_eq!(key_name(b"Package\n"), Err(error(b"Package\n", ErrorKind::TakeUntil)));
    // the error holds what is left after the continuation lines
    assert_eq!(handle_key(b" a\n b\nrest"), Err(error(b"rest", ErrorKind::TakeUntil)));
}

#[test]
fn empty_name_fails() {
    assert_eq!(handle_key(b": x\n"), Ok((&b": x\n"[..], &b""[..])));
    assert_eq!(key_name(b": x\n"), Err(error(b": x\n", ErrorKind::Verify)));
}

#[test]
fn name_that_begins_with_a_line_feed_fails() {
    assert_eq!(key_name(b"\na: x\n"), Err(error(b"\na: x\n", ErrorKind::Verify)));
    // the error holds the whole input, continuation lines included
    assert_eq!(key_name(b" o\n\na: x\n"), Err(error(b" o\n\na: x\n", ErrorKind::Verify)));
}

#[test]
fn continuation_lines_before_a_name_are_skipped() {
    assert_eq!(handle_key_name(b" a\n b\nC: d\n"), Ok((&b"C: d\n"[..], ())));
    assert_eq!(handle_key_name(b"C: d\n"), Ok((&b"C: d\n"[..], ())));
    assert_eq!(handle_key_name(b" a"), Ok((&b" a"[..], ())));
    assert_eq!(key_name(b" a\n b\nC: d\n"), Ok((&b": d\n"[..], &b"C"[..])));
}

#[test]
fn value_without_line_feed_fails() {
    assert_eq!(value_field(b"abc"), Err(error(b"abc", ErrorKind::TakeUntil)));
    assert_eq!(key_value(b"a: bc"), Err(error(b"bc", ErrorKind::TakeUntil)));
}

#[test]
fn stanza_without_field_fails() {
    assert_eq!(single_package(b""), Err(error(b"", ErrorKind::TakeUntil)));
    assert_eq!(single_package(b"\n\n"), Err(error(b"\n\n", ErrorKind::TakeUntil)));
    assert_eq!(single_package(b"\na: b\n"), Err(error(b"\na: b\n", ErrorKind::Verify)));
    assert_eq!(multi_package(b""), Err(error(b"", ErrorKind::TakeUntil)));
}

#[test]
fn stanza_stops_before_what_is_no_field() {
    let (rest, fields) = single_package(b"a: b\n\nc: d\n").unwrap();
    assert_eq!(rest, &b"c: d\n"[..]);
    assert_eq!(fields, vec![(&b"a"[..], (&b"b"[..], b"".to_vec()))]);
    let (rest, fields) = single_package(b"a: b\nc\n").unwrap();
    assert_eq!(rest, &b"c\n"[..]);
    assert_eq!(fields.len(), 1);
}

#[test]
fn stanza_consumes_the_lines_of_its_last_field() {
    let (rest, fields) = single_package(b"a:\n x\n y\n\nb: c\n").unwrap();
    assert_eq!(rest, &b"b: c\n"[..]);
    assert_eq!(fields, vec![(&b"a"[..], (&b""[..], b"x\ny".to_vec()))]);
}

#[test]
fn document_stops_before_what_is_no_stanza() {
    let (rest, stanzas) = multi_package(b"a: b\n\nc: d\n\nrest").unwrap();
    assert_eq!(rest, &b"rest"[..]);
    assert_eq!(
        stanzas,
        vec![
            vec![(&b"a"[..], (&b"b"[..], b"".to_vec()))],
            vec![(&b"c"[..], (&b"d"[..], b"".to_vec()))],
        ]
    );
    // a comment that no stanza follows is not consumed
    let (rest, stanzas) = multi_package(b"a: b\n\n--x-\n").unwrap();
    assert_eq!(rest, &b"--x-\n"[..]);
    assert_eq!(stanzas.len(), 1);
}

#[test]
fn comment_needs_both_delimiters() {
    assert_eq!(comment(b"--abc-\nrest"), Ok((&b"rest"[..], ())));
    assert_eq!(comment(b"--a-\n--b-\nrest"), Ok((&b"rest"[..], ())));
    assert_eq!(comment(b"---\n"), Ok((&b""[..], ())));
    assert_eq!(comment(b"--\n"), Ok((&b"--\n"[..], ())));
    assert_eq!(comment(b"--abc\nrest"), Ok((&b"--abc\nrest"[..], ())));
    assert_eq!(comment(b"-abc-\nrest"), Ok((&b"-abc-\nrest"[..], ())));
    assert_eq!(comment(b""), Ok((&b""[..], ())));
}

#[test]
fn two_stanzas_are_not_one() {
    assert_eq!(parse_one("a: b\n\nc: d\n"), Err(syntax(b"c: d\n", ErrorKind::Eof)));
    assert_eq!(parse_one("a:\n b\n\nc:\n d\n\n"), Err(syntax(b"c:\n d\n\n", ErrorKind::Eof)));
    // whitespace before the second stanza is not part of what is left
    assert_eq!(parse_one("a: b\n\n\tc: d\n"), Err(syntax(b"c: d\n", ErrorKind::Eof)));
}

#[test]
fn text_after_the_stanza_is_an_error() {
    assert_eq!(parse_one("a: b\nrest"), Err(syntax(b"rest", ErrorKind::Eof)));
    assert_eq!(parse_one("a: b\n\n---c---\n"), Err(syntax(b"---c---\n", ErrorKind::Eof)));
}

#[test]
fn text_after_the_document_is_an_error() {
    assert_eq!(parse_multi("a: b\n\nrest"), Err(syntax(b"rest", ErrorKind::Eof)));
    assert_eq!(parse_multi("a: b\n\nc: d"), Err(syntax(b"c: d", ErrorKind::Eof)));
    assert_eq!(parse_multi("a: b\n\n--x-\n"), Err(syntax(b"--x-\n", ErrorKind::Eof)));
}

#[test]
fn first_field_decides_the_error() {
    assert_eq!(parse_one("rest"), Err(syntax(b"rest", ErrorKind::TakeUntil)));
    assert_eq!(parse_one("a: b"), Err(syntax(b"b", ErrorKind::TakeUntil)));
    assert_eq!(parse_one(": b\n"), Err(syntax(b": b\n", ErrorKind::Verify)));
    assert_eq!(parse_one("\na: b\n"), Err(syntax(b"\na: b\n", ErrorKind::Verify)));
    assert_eq!(parse_multi("rest"), Err(syntax(b"rest", ErrorKind::TakeUntil)));
    assert_eq!(parse_multi("\na: b\n"), Err(syntax(b"\na: b\n", ErrorKind::Verify)));
    // the error holds what is left after the comment
    assert_eq!(parse_multi("--c-\nrest"), Err(syntax(b"rest", ErrorKind::TakeUntil)));
}
