use eight_deep_parser::{parse_back, parse_multi, parse_one, IndexMap, Item};

fn one(text: &str) -> Item {
    Item::OneLine(text.to_string())
}

fn multi(lines: &[&str]) -> Item {
    Item::MultiLine(lines.iter().map(|x| x.to_string()).collect())
}

fn stanza(fields: &[(&str, Item)]) -> IndexMap<String, Item> {
    let mut map = IndexMap::new();
    for (key, value) in fields {
        map.insert(key.to_string(), value.clone());
    }
    map
}

fn fields_of(map: &IndexMap<String, Item>) -> Vec<(String, Item)> {
    map.iter().map(|(k, v)| (k.clone(), v.clone())).collect()
}

#[test]
fn one_line_stanza_comes_back() {
    let d = stanza(&[
        ("Package", one("zsync")),
        ("Version", one("0.6.2-3")),
        ("Depends", one("libc6 (>= 2.15), libcurl3-gnutls")),
        ("Ключ", one("значение: с двоеточием")),
        ("x\ty", one("-")),
    ]);
    let text = parse_back(&[d.clone()]);
    let back = parse_multi(&text).unwrap();
    assert_eq!(back.len(), 1);
    assert_eq!(fields_of(&back[0]), fields_of(&d));
    assert_eq!(fields_of(&parse_one(&text).unwrap()), fields_of(&d));
}

#[test]
fn lines_come_back_with_one_space_before_each() {
    let d = stanza(&[("a", one("b")), ("c", multi(&["x", "", " y", "ü"])), ("d", one("e"))]);
    let text = parse_back(&[d]);
    assert_eq!(text, "a: b\nc:\n  x\n  \n   y\n  ü\nd: e\n\n");
    let back = parse_multi(&text).unwrap();
    assert_eq!(
        back,
        vec![stanza(&[("a", one("b")), ("c", multi(&[" x", " ", "  y", " ü"])), ("d", one("e"))])]
    );
}

#[test]
fn lines_of_the_last_field_come_back() {
    let d = stanza(&[("a", one("b")), ("c", multi(&["x", "y"]))]);
    let text = parse_back(&[d]);
    let back = parse_one(&text).unwrap();
    assert_eq!(
        fields_of(&back),
        vec![("a".to_string(), one("b")), ("c".to_string(), multi(&[" x", " y"]))]
    );
}

#[test]
fn document_of_several_stanzas_comes_back() {
    let doc = vec![
        stanza(&[("a", one("b")), ("c", multi(&["a", "b"])), ("d", one("e"))]),
        stanza(&[("a", one("b"))]),
        stanza(&[("k", multi(&["only"]))]),
        stanza(&[("z", one("last"))]),
    ];
    let text = parse_back(&doc);
    let back = parse_multi(&text).unwrap();
    assert_eq!(back.len(), 4);
    assert_eq!(
        back,
        vec![
            stanza(&[("a", one("b")), ("c", multi(&[" a", " b"])), ("d", one("e"))]),
            stanza(&[("a", one("b"))]),
            stanza(&[("k", multi(&[" only"]))]),
            stanza(&[("z", one("last"))]),
        ]
    );
}

#[test]
fn parsed_text_written_and_parsed_again_keeps_its_lines() {
    let first = parse_one("Tag:\n one\n two\n three\nName: n\n").unwrap();
    let second = parse_one(&parse_back(&[first.clone()])).unwrap();
    assert_eq!(first.get("Tag").unwrap(), &multi(&["one", "two", "three"]));
    assert_eq!(second.get("Tag").unwrap(), &multi(&[" one", " two", " three"]));
    assert_eq!(second.get("Name").unwrap(), &one("n"));
    let names: Vec<&String> = second.keys().collect();
    assert_eq!(names, vec!["Tag", "Name"]);
}

#[test]
fn what_cannot_be_written_does_not_come_back() {
    // an empty value comes back as a multi-line value
    let back = parse_multi(&parse_back(&[stanza(&[("k", one(""))])])).unwrap();
    assert_eq!(back, vec![stanza(&[("k", multi(&[""]))])]);
    // blanks at the start of a value are dropped
    let back = parse_multi(&parse_back(&[stanza(&[("k", one(" \tv"))])])).unwrap();
    assert_eq!(back, vec![stanza(&[("k", one("v"))])]);
    // a multi-line value without lines comes back with one empty line
    let back = parse_multi(&parse_back(&[stanza(&[("k", multi(&[]))])])).unwrap();
    assert_eq!(back, vec![stanza(&[("k", multi(&[""]))])]);
    // a name with a colon is cut there
    let back = parse_multi(&parse_back(&[stanza(&[("k:l", one("v"))])])).unwrap();
    assert_eq!(back, vec![stanza(&[("k", one("l: v"))])]);
    // a stanza without fields is no stanza
    assert!(parse_multi(&parse_back(&[IndexMap::new()])).is_err());
    // a name that begins with a space is taken for a continuation line
    assert!(parse_multi(&parse_back(&[stanza(&[(" k", one("v"))])])).is_err());
    // a first name that opens a comment block is taken for one
    assert!(parse_multi(&parse_back(&[stanza(&[("--k", one("v-"))])])).is_err());
    // the same name where the block is not closed comes back
    let d = stanza(&[("--k", one("v"))]);
    assert_eq!(parse_multi(&parse_back(&[d.clone()])).unwrap(), vec![d]);
    // a tab before the name of a later stanza belongs to the blank line
    let doc = vec![stanza(&[("a", one("b"))]), stanza(&[("\tc", one("d"))])];
    assert_eq!(
        parse_multi(&parse_back(&doc)).unwrap(),
        vec![stanza(&[("a", one("b"))]), stanza(&[("c", one("d"))])]
    );
}

fn writable_key(key: &str) -> bool {
    let b = key.as_bytes();
    !b.is_empty() && b[0] != b' ' && b[0] != b'\n' && !b.contains(&b':')
}

fn writable_value(value: &Item) -> bool {
    match value {
        Item::OneLine(text) => {
            let b = text.as_bytes();
            !b.is_empty() && b[0] != b' ' && b[0] != b'\t' && !b.contains(&b'\n')
        }
        Item::MultiLine(lines) => !lines.is_empty() && lines.iter().all(|l| !l.contains('\n')),
    }
}

fn writable_stanza(m: &IndexMap<String, Item>) -> bool {
    !m.is_empty() && m.iter().all(|(k, v)| writable_key(k) && writable_value(v))
}

fn begins_with_comment(text: &[u8]) -> bool {
    text.len() >= 2
        && text[0] == b'-'
        && text[1] == b'-'
        && text[2..].windows(2).any(|w| w == b"-\n")
}

fn writable_document(doc: &[IndexMap<String, Item>]) -> bool {
    for i in 0..doc.len() {
        if !writable_stanza(&doc[i]) {
            return false;
        }
        if begins_with_comment(parse_back(&doc[i..]).as_bytes()) {
            return false;
        }
        if i > 0 {
            let first = doc[i].keys().next().unwrap().as_bytes()[0];
            if first == b'\t' || first == b'\r' {
                return false;
            }
        }
    }
    true
}

fn reread(doc: &[IndexMap<String, Item>]) -> Vec<IndexMap<String, Item>> {
    doc.iter()
        .map(|m| {
            m.iter()
                .map(|(k, v)| {
                    let value = match v {
                        Item::OneLine(text) => Item::OneLine(text.clone()),
                        Item::MultiLine(lines) => {
                            Item::MultiLine(lines.iter().map(|l| format!(" {}", l)).collect())
                        }
                    };
                    (k.clone(), value)
                })
                .collect()
        })
        .collect()
}

fn same(a: &[IndexMap<String, Item>], b: &[IndexMap<String, Item>]) -> bool {
    a.len() == b.len() && a.iter().zip(b.iter()).all(|(x, y)| fields_of(x) == fields_of(y))
}

const ALPHABET: [char; 9] = [' ', '\n', ':', '-', 'a', '\t', '\r', 'b', 'é'];

/// Writes and reads `rounds` small documents drawn from `symbols` characters, and
/// holds the outcome against the condition under which a document comes back.
fn comes_back_exactly_when_writable(seed: u64, rounds: usize, symbols: usize, stanzas: usize) {
    let mut state = seed;
    let mut next = move || {
        state = state.wrapping_mul(6364136223846793005).wrapping_add(1442695040888963407);
        (state >> 33) as usize
    };
    let mut came_back = 0;
    for _ in 0..rounds {
        let count = 1 + next() % stanzas;
        let mut doc = Vec::new();
        for _ in 0..count {
            let fields = next() % 3;
            let mut m = IndexMap::new();
            for _ in 0..fields {
                let multi_line = next() % 3 == 0;
                let lines = next() % 3;
                let mut piece = |max: usize| -> String {
                    let len = next() % max;
                    (0..len).map(|_| ALPHABET[next() % symbols]).collect()
                };
                let key = piece(4);
                let value = if multi_line {
                    Item::MultiLine((0..lines).map(|_| piece(3)).collect())
                } else {
                    Item::OneLine(piece(4))
                };
                m.insert(key, value);
            }
            doc.push(m);
        }
        let text = parse_back(&doc);
        let back = parse_multi(&text);
        let comes_back = match &back {
            Ok(read) => same(read, &reread(&doc)),
            Err(_) => false,
        };
        assert_eq!(comes_back, writable_document(&doc), "{:?} as {:?} gave {:?}", doc, text, back);
        if comes_back {
            came_back += 1;
        }
    }
    assert!(came_back > rounds / 1000, "only {} documents came back", came_back);
}

#[test]
fn stanza_comes_back_exactly_when_it_can_be_written() {
    comes_back_exactly_when_writable(11, 60000, 9, 1);
}

#[test]
fn stanza_of_few_characters_comes_back_exactly_when_it_can_be_written() {
    comes_back_exactly_when_writable(12, 60000, 5, 1);
}

#[test]
fn document_comes_back_exactly_when_it_can_be_written() {
    comes_back_exactly_when_writable(13, 60000, 9, 3);
}

#[test]
fn document_of_few_characters_comes_back_exactly_when_it_can_be_written() {
    comes_back_exactly_when_writable(14, 60000, 5, 2);
}
