use eight_deep_parser::{parse_back, parse_multi, parse_one, to_map, IndexMap, Item, ParseError};

fn one(text: &str) -> Item {
    Item::OneLine(text.to_string())
}

fn multi(lines: &[&str]) -> Item {
    Item::MultiLine(lines.iter().map(|x| x.to_string()).collect())
}

fn stanza(fields: &[(&str, Item)]) -> IndexMap<String, Item> {
    let mut map = IndexMap::new();
    for (key, value) in fields {
        map.insert(key.to_string(), value.clone());
    }
    map
}

fn fields_of(map: &IndexMap<String, Item>) -> Vec<(String, Item)> {
    map.iter().map(|(k, v)| (k.clone(), v.clone())).collect()
}

const STATUS_RECORD: &str = "Package: plasma-workspace
Status: install ok installed
Priority: optional
Section: kde
Installed-Size: 19451
Maintainer: Debian Qt/KDE Maintainers <debian-qt-kde@lists.debian.org>
Architecture: amd64
Version: 4:5.27.5-2
Depends: dbus-user-session, kio, libc6 (>= 2.34)
Conffiles:
 /etc/pam.d/kde a33459447160292012baca99cb9820b3
 /etc/xdg/autostart/gmenudbusmenuproxy.desktop 4bf33ab6a937c4991c0ec418bfff11a0
 /etc/xdg/autostart/klipper.desktop cc58958cfa37d7f4001e24e3de34abbd
 /etc/xdg/autostart/org.kde.plasmashell.desktop 9552c32cf4e0c3a56b2884f6b08d7c72
 /etc/xdg/autostart/xembedsniproxy.desktop 76011e12682833a1b4b3a01c7faac001
 /etc/xdg/plasmanotifyrc f9713a8fb2a4abb43e592f0c12f3fab5
 /etc/xdg/taskmanagerrulesrc 9df6c5d4530892fac71c219f27892f5b
Description: The KDE Plasma Workspace, API and runtime libraries
 Plasma Workspace is a collection of components needed to run a desktop
 shell and its session.
 .
 This package is part of the KDE Plasma module.
Homepage: https://invent.kde.org/plasma/plasma-workspace
";

const PACKAGE_INDEX: &str = "Package: zsync
Version: 0.6.2-3
Architecture: amd64
Depends: libc6 (>= 2.15), libcurl3-gnutls
Description: client-side implementation of the rsync algorithm
Description-md5: 7ee0b4a2dbd0d3c1e3ea4e3b3b7e3b3b
Filename: pool/main/z/zsync/zsync_0.6.2-3_amd64.deb
Size: 105132

Package: zutils
Version: 1.12-3
Architecture: amd64
Description: utilities for dealing with compressed files transparently
Tag: role::program,
 scope::utility,
 use::compressing

Package: zzuf
Version: 0.15-2
Architecture: amd64
Description: transparent application fuzzer
";

#[test]
fn parse_one_it_works() {
    let r = parse_one(STATUS_RECORD).unwrap();

    assert_eq!(
        r.get("Package").unwrap(),
        &Item::OneLine("plasma-workspace".to_string())
    );

    let right = vec![
        "/etc/pam.d/kde a33459447160292012baca99cb9820b3",
        "/etc/xdg/autostart/gmenudbusmenuproxy.desktop 4bf33ab6a937c4991c0ec418bfff11a0",
        "/etc/xdg/autostart/klipper.desktop cc58958cfa37d7f4001e24e3de34abbd",
        "/etc/xdg/autostart/org.kde.plasmashell.desktop 9552c32cf4e0c3a56b2884f6b08d7c72",
        "/etc/xdg/autostart/xembedsniproxy.desktop 76011e12682833a1b4b3a01c7faac001",
        "/etc/xdg/plasmanotifyrc f9713a8fb2a4abb43e592f0c12f3fab5",
        "/etc/xdg/taskmanagerrulesrc 9df6c5d4530892fac71c219f27892f5b",
    ];

    let right = right.iter().map(|x| x.to_string()).collect::<Vec<_>>();

    assert_eq!(r.get("Conffiles").unwrap(), &Item::MultiLine(right));

    assert_eq!(
        r.get("Description").unwrap(),
        &Item::OneLine("The KDE Plasma Workspace, API and runtime libraries".to_string())
    );
}

#[test]
fn parse_multi_it_works() {
    let r = parse_multi(PACKAGE_INDEX);

    assert!(r.is_ok())
}

#[test]
fn test_parse_back() {
    let mut map = vec![];

    let mut item1 = IndexMap::new();
    item1.insert("a".to_string(), Item::OneLine("b".to_string()));
    item1.insert(
        "c".to_string(),
        Item::MultiLine(vec!["a".to_string(), "b".to_string()]),
    );
    item1.insert("d".to_string(), Item::OneLine("e".to_string()));
    map.push(item1);

    let mut item2 = IndexMap::new();
    item2.insert("a".to_string(), Item::OneLine("b".to_string()));
    map.push(item2);

    let s = parse_back(&map);

    assert_eq!(
        s,
        r#"a: b
c:
  a
  b
d: e

a: b

"#
    )
}

#[test]
fn status_record_keeps_the_order_of_its_fields() {
    let r = parse_one(STATUS_RECORD).unwrap();
    let names: Vec<&str> = r.keys().map(|k| k.as_str()).collect();
    assert_eq!(
        names,
        vec![
            "Package",
            "Status",
            "Priority",
            "Section",
            "Installed-Size",
            "Maintainer",
            "Architecture",
            "Version",
            "Depends",
            "Conffiles",
            "Description",
            "Homepage",
        ]
    );
}

#[test]
fn package_index_has_three_stanzas() {
    let r = parse_multi(PACKAGE_INDEX).unwrap();
    assert_eq!(r.len(), 3);
    assert_eq!(r[0].get("Package").unwrap(), &one("zsync"));
    assert_eq!(r[0].len(), 8);
    assert_eq!(r[1].get("Tag").unwrap(), &one("role::program,"));
    assert_eq!(r[1].len(), 5);
    assert_eq!(
        fields_of(&r[2]),
        vec![
            ("Package".to_string(), one("zzuf")),
            ("Version".to_string(), one("0.15-2")),
            ("Architecture".to_string(), one("amd64")),
            ("Description".to_string(), one("transparent application fuzzer")),
        ]
    );
}

#[test]
fn empty_text_is_the_empty_document() {
    assert_eq!(parse_multi(""), Ok(vec![]));
}

#[test]
fn empty_text_is_no_stanza() {
    assert!(matches!(parse_one(""), Err(ParseError::Syntax(_))));
}

#[test]
fn blank_text_is_no_document() {
    assert!(matches!(parse_multi("\n"), Err(ParseError::Syntax(_))));
    assert!(matches!(parse_multi("\n\n\n"), Err(ParseError::Syntax(_))));
    assert!(matches!(parse_one("\n"), Err(ParseError::Syntax(_))));
}

#[test]
fn field_with_continuation_lines_is_multi_line() {
    let r = parse_one("Key:\n a\n b\n c\n").unwrap();
    assert_eq!(fields_of(&r), vec![("Key".to_string(), multi(&["a", "b", "c"]))]);
}

#[test]
fn field_with_a_value_is_one_line() {
    let r = parse_one("Key: value\n").unwrap();
    assert_eq!(fields_of(&r), vec![("Key".to_string(), one("value"))]);
}

#[test]
fn comment_block_before_a_stanza_is_skipped() {
    let plain = parse_multi("a: b\nc:\n d\n").unwrap();
    let commented = parse_multi("---text---\na: b\nc:\n d\n").unwrap();
    assert_eq!(plain, commented);
    assert_eq!(plain, vec![stanza(&[("a", one("b")), ("c", multi(&["d"]))])]);
}

#[test]
fn comment_blocks_before_each_stanza_are_skipped() {
    let r = parse_multi("--one-\n--two-\na: b\n\n---three---\nc: d\n").unwrap();
    assert_eq!(r, vec![stanza(&[("a", one("b"))]), stanza(&[("c", one("d"))])]);
}

#[test]
fn comment_may_span_lines() {
    let r = parse_multi("--first\nsecond-\na: b\n").unwrap();
    assert_eq!(r, vec![stanza(&[("a", one("b"))])]);
}

#[test]
fn parse_one_knows_no_comment() {
    // without the closing delimiter the dashes are part of the name
    let r = parse_one("--a: b\n").unwrap();
    assert_eq!(fields_of(&r), vec![("--a".to_string(), one("b"))]);
    let r = parse_multi("--a: b\n").unwrap();
    assert_eq!(r, vec![stanza(&[("--a", one("b"))])]);
}

#[test]
fn empty_value_is_multi_line() {
    let r = parse_one("Key: \n").unwrap();
    assert_eq!(fields_of(&r), vec![("Key".to_string(), multi(&[""]))]);
    let r = parse_one("Key:\n").unwrap();
    assert_eq!(fields_of(&r), vec![("Key".to_string(), multi(&[""]))]);
}

#[test]
fn continuation_lines_after_a_value_are_ignored() {
    let r = parse_one("Description: short\n long one\n long two\nNext: x\n").unwrap();
    assert_eq!(
        fields_of(&r),
        vec![
            ("Description".to_string(), one("short")),
            ("Next".to_string(), one("x")),
        ]
    );
}

#[test]
fn continuation_lines_after_the_last_field_end_the_stanza() {
    let r = parse_multi("a: b\nd: short\n long\n .\n\nc:\n x\n y\n\ne: f\n").unwrap();
    assert_eq!(
        r,
        vec![
            stanza(&[("a", one("b")), ("d", one("short"))]),
            stanza(&[("c", multi(&["x", "y"]))]),
            stanza(&[("e", one("f"))]),
        ]
    );
}

#[test]
fn blanks_after_the_colon_are_dropped() {
    let r = parse_one("a:\t \tb c \n").unwrap();
    assert_eq!(fields_of(&r), vec![("a".to_string(), one("b c "))]);
    let r = parse_one("a:b\n").unwrap();
    assert_eq!(fields_of(&r), vec![("a".to_string(), one("b"))]);
}

#[test]
fn carriage_return_stays_in_the_value() {
    let r = parse_one("a: b\r\n").unwrap();
    assert_eq!(fields_of(&r), vec![("a".to_string(), one("b\r"))]);
}

#[test]
fn only_one_space_is_taken_off_a_continuation_line() {
    let r = parse_one("k:\n   deep\n\tno\n").unwrap_err();
    assert!(matches!(r, ParseError::Syntax(_)));
    let r = parse_one("k:\n   deep\n shallow\n").unwrap();
    assert_eq!(fields_of(&r), vec![("k".to_string(), multi(&["  deep", "shallow"]))]);
}

#[test]
fn repeated_name_keeps_its_place_and_gets_the_last_value() {
    let r = parse_one("a: 1\nb: 2\na: 3\nc: 4\nb:\n x\n").unwrap();
    assert_eq!(
        fields_of(&r),
        vec![
            ("a".to_string(), one("3")),
            ("b".to_string(), multi(&["x"])),
            ("c".to_string(), one("4")),
        ]
    );
}

#[test]
fn name_may_hold_spaces_and_line_feeds() {
    let r = parse_one("a b\nc: d\n").unwrap();
    assert_eq!(fields_of(&r), vec![("a b\nc".to_string(), one("d"))]);
}

#[test]
fn text_beyond_ascii_is_kept() {
    let r = parse_one("Clé: valeur é\nМного:\n один\n два — три\n").unwrap();
    assert_eq!(
        fields_of(&r),
        vec![
            ("Clé".to_string(), one("valeur é")),
            ("Много".to_string(), multi(&["один", "два — три"])),
        ]
    );
}

#[test]
fn whitespace_after_the_stanza_is_dropped() {
    let r = parse_one("a: b\n\n \t\r\n\n").unwrap();
    assert_eq!(fields_of(&r), vec![("a".to_string(), one("b"))]);
    let r = parse_multi("a: b\n\n\n\nc: d\n\n\n").unwrap();
    assert_eq!(r.len(), 2);
}

#[test]
fn document_without_stanzas_is_written_as_nothing() {
    assert_eq!(parse_back(&[]), "");
}

#[test]
fn stanza_without_fields_is_written_as_a_blank_line() {
    assert_eq!(parse_back(&[IndexMap::new()]), "\n");
}

#[test]
fn multi_line_value_without_lines_is_written_as_the_name() {
    assert_eq!(parse_back(&[stanza(&[("k", multi(&[]))])]), "k:\n\n");
}

#[test]
fn values_are_written_as_they_are() {
    let doc = vec![stanza(&[("k", one("")), ("l", multi(&["", " x"])), ("é", one(" ü"))])];
    assert_eq!(parse_back(&doc), "k: \nl:\n  \n   x\né:  ü\n\n");
}

#[test]
fn fields_are_written_in_the_order_of_the_map() {
    let mut map = IndexMap::new();
    map.insert("z".to_string(), one("1"));
    map.insert("a".to_string(), one("2"));
    map.insert("m".to_string(), one("3"));
    map.insert("z".to_string(), one("4"));
    assert_eq!(parse_back(&[map]), "z: 4\na: 2\nm: 3\n\n");
}

#[test]
fn to_map_decodes_and_classifies() {
    let r = to_map(vec![
        (&b"Package"[..], (&b"a"[..], b"".to_vec())),
        (&b"Multi"[..], (&b""[..], b"a\nb\nc".to_vec())),
        (&b"Both"[..], (&b"x"[..], b"y\nz".to_vec())),
        (&b"None"[..], (&b""[..], b"".to_vec())),
    ])
    .unwrap();
    assert_eq!(
        fields_of(&r),
        vec![
            ("Package".to_string(), one("a")),
            ("Multi".to_string(), multi(&["a", "b", "c"])),
            ("Both".to_string(), one("x")),
            ("None".to_string(), multi(&[""])),
        ]
    );
}

#[test]
fn to_map_of_nothing_is_the_empty_stanza() {
    assert_eq!(to_map(vec![]), Ok(IndexMap::new()));
}

#[test]
fn block_is_cut_at_every_line_feed() {
    let r = to_map(vec![(&b"k"[..], (&b""[..], b"\na\n\nb\n".to_vec()))]).unwrap();
    assert_eq!(fields_of(&r), vec![("k".to_string(), multi(&["", "a", "", "b", ""]))]);
}

#[test]
fn invalid_utf8_in_a_name_is_an_encoding_error() {
    let r = to_map(vec![(&b"k\xff"[..], (&b"v"[..], b"".to_vec()))]);
    assert_eq!(r, Err(ParseError::Encoding));
}

#[test]
fn invalid_utf8_in_a_value_is_an_encoding_error() {
    let r = to_map(vec![
        (&b"a"[..], (&b"fine"[..], b"".to_vec())),
        (&b"k"[..], (&b"v\xc3"[..], b"".to_vec())),
    ]);
    assert_eq!(r, Err(ParseError::Encoding));
}

#[test]
fn invalid_utf8_in_a_block_is_an_encoding_error() {
    let r = to_map(vec![(&b"k"[..], (&b""[..], b"a\n\xe2\x82\nb".to_vec()))]);
    assert_eq!(r, Err(ParseError::Encoding));
    let r = to_map(vec![(&b"k"[..], (&b""[..], b"a\nb\xf0".to_vec()))]);
    assert_eq!(r, Err(ParseError::Encoding));
}

#[test]
fn block_that_is_not_used_is_not_decoded() {
    let r = to_map(vec![(&b"k"[..], (&b"v"[..], b"\xff".to_vec()))]).unwrap();
    assert_eq!(fields_of(&r), vec![("k".to_string(), one("v"))]);
}

#[test]
fn overlong_and_surrogate_encodings_are_invalid() {
    assert_eq!(
        to_map(vec![(&b"k"[..], (&b"\xc0\x8a"[..], b"".to_vec()))]),
        Err(ParseError::Encoding)
    );
    assert_eq!(
        to_map(vec![(&b"k"[..], (&b"\xed\xa0\x80"[..], b"".to_vec()))]),
        Err(ParseError::Encoding)
    );
}
