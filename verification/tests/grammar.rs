use eight_deep_parser::parser::{
    comment, handle_key, key_name, key_value, multi_line, multi_to_one, single_line,
    single_package, value_field,
};

#[test]
fn test_single_line() {
    let test = b"zsync\n";

    let r = single_line(test);

    assert_eq!(r, Ok((&b""[..], &b"zsync"[..])));
}

#[test]
fn test_value_field() {
    let test = b"zsync\n";
    let r = value_field(test);

    assert_eq!(r, Ok((&b""[..], (&b"zsync"[..], b"".to_vec()))));

    let test = b"\n a\n b\n c\n";
    let r = value_field(test);

    assert_eq!(
        r,
        Ok((&b" a\n b\n c\n"[..], (&b""[..], b"a\nb\nc".to_vec())))
    );
}

#[test]
fn test_multi_line() {
    let test = b" a\n b\n c\nD: E";
    let r = multi_line(test);

    assert_eq!(r, Ok((&b"D: E"[..], vec![&b"a"[..], &b"b"[..], &b"c"[..]])))
}

#[test]
fn test_multi_line_to_one() {
    let test = b" c\n d\n e\n";

    let r = multi_to_one(test);

    assert_eq!(r, Ok((&b" c\n d\n e\n"[..], b"c\nd\ne".to_vec())))
}

#[test]
fn test_handle_key() {
    let test = b" b\n c\nD: E";

    let r = handle_key(test);

    assert_eq!(r, Ok((&b": E"[..], &b"D"[..])))
}

#[test]
fn test_key_name() {
    let test = b"Package: zsync\n";

    let r = key_name(test);

    assert_eq!(r, Ok((&b": zsync\n"[..], &b"Package"[..])))
}

#[test]
fn test_key_value() {
    let test = b"Package: zsync\n";
    let r = key_value(test);

    assert_eq!(
        r,
        Ok((&b""[..], (&b"Package"[..], (&b"zsync"[..], b"".to_vec()))))
    );

    let test = b"c:\n d\n e\n";

    let r = key_value(test);

    assert_eq!(
        r,
        Ok((&b" d\n e\n"[..], (&b"c"[..], (&b""[..], b"d\ne".to_vec()))))
    );
}

#[test]
fn test_single_package() {
    let test = b"Package: a\nMulti:\n a\n b\n c\nD: E\n";

    let r = single_package(test);

    assert_eq!(
        r,
        Ok((
            &b""[..],
            vec![
                (&b"Package"[..], (&b"a"[..], b"".to_vec())),
                (&b"Multi"[..], (&b""[..], b"a\nb\nc".to_vec())),
                (&b"D"[..], (&b"E"[..], b"".to_vec())),
            ]
        ))
    )
}

#[test]
fn test_comment() {
    let test = b"---abc---\n";

    let c = comment(test);

    assert!(c.is_ok())
}
