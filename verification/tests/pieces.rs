use eight_deep_parser::scan::{find_byte, find_pair};
use eight_deep_parser::text::{decode, decode_lines};
use eight_deep_parser::{parse_multi, parse_one, ParseError};

#[test]
fn first_byte_is_found() {
    assert_eq!(find_byte(b"a:b:c", b':'), 1);
    assert_eq!(find_byte(b":", b':'), 0);
    assert_eq!(find_byte(b"abc", b':'), 3);
    assert_eq!(find_byte(b"", b':'), 0);
}

#[test]
fn first_pair_is_found() {
    assert_eq!(find_pair(b"a-b-\nc-\n", b'-', b'\n'), 3);
    assert_eq!(find_pair(b"-\n", b'-', b'\n'), 0);
    assert_eq!(find_pair(b"--\n", b'-', b'\n'), 1);
    assert_eq!(find_pair(b"a-", b'-', b'\n'), 2);
    assert_eq!(find_pair(b"\n-", b'-', b'\n'), 2);
    assert_eq!(find_pair(b"", b'-', b'\n'), 0);
}

#[test]
fn valid_bytes_are_decoded() {
    assert_eq!(decode(b""), Some(String::new()));
    assert_eq!(decode(b"abc"), Some("abc".to_string()));
    assert_eq!(decode("é€𝄞".as_bytes()), Some("é€𝄞".to_string()));
    assert_eq!(decode(b"a\nb"), Some("a\nb".to_string()));
}

#[test]
fn invalid_bytes_are_not_decoded() {
    assert_eq!(decode(b"\xff"), None);
    assert_eq!(decode(b"a\x80"), None);
    assert_eq!(decode(b"\xc3"), None);
    assert_eq!(decode(b"\xe2\x82"), None);
    assert_eq!(decode(b"\xc0\x80"), None);
    assert_eq!(decode(b"\xed\xa0\x80"), None);
    assert_eq!(decode(b"\xf4\x90\x80\x80"), None);
}

#[test]
fn block_is_decoded_line_by_line() {
    assert_eq!(decode_lines(b""), Some(vec![String::new()]));
    assert_eq!(decode_lines(b"a"), Some(vec!["a".to_string()]));
    assert_eq!(
        decode_lines("é\n\n€".as_bytes()),
        Some(vec!["é".to_string(), String::new(), "€".to_string()])
    );
    assert_eq!(decode_lines(b"a\n"), Some(vec!["a".to_string(), String::new()]));
    assert_eq!(decode_lines(b"a\n\xff\nb"), None);
    assert_eq!(decode_lines(b"\xe2\n\x82\xac"), None);
}

#[test]
fn text_never_fails_to_decode() {
    let alphabet: Vec<char> = " \n:-a\t\ré€𝄞".chars().collect();
    let mut state: u64 = 5;
    let mut next = move || {
        state = state.wrapping_mul(6364136223846793005).wrapping_add(1442695040888963407);
        (state >> 33) as usize
    };
    let mut parsed = 0;
    for _ in 0..60000 {
        let len = next() % 14;
        let text: String = (0..len).map(|_| alphabet[next() % alphabet.len()]).collect();
        let one = parse_one(&text);
        let multi = parse_multi(&text);
        assert!(!matches!(one, Err(ParseError::Encoding)), "{:?}", text);
        assert!(!matches!(multi, Err(ParseError::Encoding)), "{:?}", text);
        if one.is_ok() {
            parsed += 1;
        }
    }
    assert!(parsed > 100);
}
