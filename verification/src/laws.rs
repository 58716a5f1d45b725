//! How writing and reading relate.
//!
//! The text that [`crate::parse_back`] writes for a document is read back by
//! [`crate::parse_multi`], provided the document can be written without changing
//! its meaning: [`writable_document`] says when. One-line values come back as they
//! are. The lines of a multi-line value come back in their order, each with one
//! space before it: the writer indents by two spaces and the grammar takes off one.

use vstd::prelude::*;
use vstd::utf8::{
    decode_utf8, decode_utf8_encode_utf8, encode_utf8, encode_utf8_decode_utf8,
    encode_utf8_valid_utf8, valid_utf8,
};
use crate::grammar;
use crate::grammar::{plain_key, plain_line, plain_names_and_lines, reads, RawField};
use crate::model::{
    build_map, build_maps, decode_field, gives, parsed_multi, parsed_one, refuses, rendered,
    rendered_field, rendered_fields, rendered_line, rendered_lines, rendered_stanza, trailing,
};
use crate::scan::{
    first_index, is_whitespace, join, lemma_first_index, lemma_first_pair_is,
    lemma_flat_map_front, lemma_run_len, lemma_split, lemma_split_join, pair_at, split, COLON,
    DASH, NEWLINE, RETURN, SPACE, TAB,
};
use crate::stanza::{distinct_keys, insert, keys, Stanza};
use crate::text::{
    lemma_ascii_absent, lemma_decode_first, lemma_encode_ascii_absent, lemma_encode_ascii_char,
    lemma_encode_concat, lemma_encode_first,
};
use crate::written::{
    lemma_packages_written, lemma_single_package_written, lines_of, plain_document, plain_field,
    plain_fields, single_lines, written_document, written_field, written_fields, written_lines,
    written_stanza,
};
use crate::ItemView;

verus! {

/// A name that can be written: not empty, not beginning with a space or a line
/// feed, and without `:`.
pub open spec fn writable_key(key: Seq<char>) -> bool {
    &&& key.len() > 0
    &&& key[0] != ' '
    &&& key[0] != '\n'
    &&& !key.contains(':')
}

/// A value that can be written. A one-line value is not empty, does not begin with a
/// space or a tab and holds no line feed. A multi-line value has at least one line,
/// and no line holds a line feed.
pub open spec fn writable_value(value: ItemView) -> bool {
    match value {
        ItemView::OneLine(text) => {
            &&& text.len() > 0
            &&& text[0] != ' '
            &&& text[0] != '\t'
            &&& !text.contains('\n')
        },
        ItemView::MultiLine(lines) => {
            &&& lines.len() > 0
            &&& forall|i: int| 0 <= i < lines.len() ==> !(#[trigger] lines[i]).contains('\n')
        },
    }
}

/// Each field of the stanza can be written.
pub open spec fn writable_fields(m: Stanza) -> bool {
    forall|i: int| 0 <= i < m.len() ==> writable_key((#[trigger] m[i]).0) && writable_value(m[i].1)
}

/// A stanza that can be written: it has a field, no name occurs twice, and each
/// name and value can be written.
pub open spec fn writable_stanza(m: Stanza) -> bool {
    &&& m.len() > 0
    &&& distinct_keys(m)
    &&& writable_fields(m)
}

/// A document that can be written. Each stanza can be written; the text from a
/// stanza on does not begin with a comment block; and no stanza but the first
/// begins with a tab or a carriage return, which would belong to the blank line
/// before it.
pub open spec fn writable_document(doc: Seq<Stanza>) -> bool
    decreases doc.len(),
{
    doc.len() > 0 ==> {
        &&& writable_stanza(doc[0])
        &&& grammar::comment_block(encode_utf8(rendered(doc))) is Err
        &&& doc.len() > 1 && doc[1].len() > 0 ==> doc[1][0].0[0] != '\t' && doc[1][0].0[0] != '\r'
        &&& writable_document(doc.drop_first())
    }
}

/// Every value of the stanza is a one-line value.
pub open spec fn only_one_line(m: Stanza) -> bool {
    forall|i: int| 0 <= i < m.len() ==> (#[trigger] m[i]).1 is OneLine
}

/// A line as it is read back: with one space before it.
pub open spec fn reread_line(line: Seq<char>) -> Seq<char> {
    seq![' '] + line
}

/// Lines as they are read back.
pub open spec fn reread_lines(lines: Seq<Seq<char>>) -> Seq<Seq<char>> {
    lines.map_values(|line: Seq<char>| reread_line(line))
}

/// A value as it is read back: a one-line value as it is, a multi-line value with
/// one space before each line.
pub open spec fn reread_value(value: ItemView) -> ItemView {
    match value {
        ItemView::OneLine(text) => ItemView::OneLine(text),
        ItemView::MultiLine(lines) => ItemView::MultiLine(reread_lines(lines)),
    }
}

/// A stanza as it is read back.
pub open spec fn reread_stanza(m: Stanza) -> Stanza {
    m.map_values(|field: (Seq<char>, ItemView)| (field.0, reread_value(field.1)))
}

/// A document as it is read back.
pub open spec fn reread(doc: Seq<Stanza>) -> Seq<Stanza> {
    doc.map_values(|m: Stanza| reread_stanza(m))
}

/// Writing and reading: the text of a document that can be written parses to the
/// document as it is read back. Everything comes back in its order; one-line
/// values come back as they are, and each line of a multi-line value comes back
/// with one space before it.
pub proof fn law_round_trip(doc: Seq<Stanza>)
    requires
        writable_document(doc),
    ensures
        gives(parsed_multi(encode_utf8(rendered(doc))), reread(doc)),
{
    let text = encode_utf8(rendered(doc));
    let raw = raw_document(doc);
    lemma_encode_rendered(doc);
    lemma_packages_written(raw);
    lemma_writable_stanzas(doc);
    lemma_build_maps_raw(doc);
    if doc.len() == 0 {
        assert(rendered(doc) =~= Seq::<char>::empty());
        assert(reread(doc) =~= Seq::<Stanza>::empty());
    } else {
        assert(text.len() > 0) by {
            grammar::lemma_packages(text);
            grammar::lemma_commented_package(text);
        }
    }
}

/// Writing and reading one stanza: the text of a stanza that can be written
/// parses, as exactly one stanza, to the stanza as it is read back.
pub proof fn law_round_trip_one(m: Stanza)
    requires
        writable_stanza(m),
    ensures
        gives(parsed_one(encode_utf8(rendered(seq![m]))), reread_stanza(m)),
{
    let doc = seq![m];
    let raw = raw_stanza(m);
    lemma_flat_map_front(doc, |m: Stanza| rendered_stanza(m));
    assert(doc.drop_first().flat_map(|m: Stanza| rendered_stanza(m)) =~= Seq::<char>::empty());
    assert(rendered(doc) =~= rendered_stanza(m));
    lemma_encode_concat(rendered_fields(m), seq!['\n']);
    lemma_encode_ascii_char('\n');
    lemma_encode_rendered_fields(m);
    let none = Seq::<u8>::empty();
    assert(written_stanza(raw) + none =~= written_stanza(raw));
    lemma_single_package_written(raw, none);
    lemma_build_map_raw(m);
}

/// Writing and reading a stanza of one-line values gives the stanza back: the
/// same fields with the same values, in the same order.
pub proof fn law_round_trip_one_line(m: Stanza)
    requires
        writable_document(seq![m]),
        only_one_line(m),
    ensures
        gives(parsed_multi(encode_utf8(rendered(seq![m]))), seq![m]),
        gives(parsed_one(encode_utf8(rendered(seq![m]))), m),
{
    let doc = seq![m];
    assert(doc[0] == m);
    law_round_trip(doc);
    law_round_trip_one(m);
    lemma_reread_one_line(m);
    assert(reread(doc) =~= seq![m]);
}

/// Writing and reading keeps the lines of every multi-line value: as many lines,
/// in the same order, each with one space before it.
pub proof fn law_round_trip_lines(doc: Seq<Stanza>, i: int, j: int)
    requires
        writable_document(doc),
        0 <= i < doc.len(),
        0 <= j < doc[i].len(),
        doc[i][j].1 is MultiLine,
    ensures
        parsed_multi(encode_utf8(rendered(doc))) matches Ok(back) && {
            &&& back.len() == doc.len()
            &&& back[i].len() == doc[i].len()
            &&& back[i][j].0 == doc[i][j].0
            &&& back[i][j].1 matches ItemView::MultiLine(read) && {
                &&& read.len() == doc[i][j].1->MultiLine_0.len()
                &&& forall|k: int|
                    0 <= k < read.len() ==> #[trigger] read[k] == seq![' ']
                        + doc[i][j].1->MultiLine_0[k]
            }
        },
{
    law_round_trip(doc);
}

/// What parses as one stanza can be written.
pub proof fn law_parsed_one_writable(text: Seq<u8>)
    ensures
        parsed_one(text) matches Ok(m) ==> writable_stanza(m),
{
    grammar::lemma_single_package(text);
    if let Ok((_, fields)) = grammar::single_package(text) {
        lemma_build_map_writable(fields);
    }
}

/// Every stanza of what parses as a document can be written.
pub proof fn law_parsed_multi_writable(text: Seq<u8>)
    ensures
        parsed_multi(text) matches Ok(doc) ==> forall|i: int|
            0 <= i < doc.len() ==> writable_stanza(#[trigger] doc[i]),
{
    if text.len() > 0 {
        grammar::lemma_packages(text);
        if let Ok((_, stanzas)) = grammar::multi_package(text) {
            lemma_build_maps_writable(stanzas);
        }
    }
}

/// Reading, writing and reading again: where a text parses as one stanza, the
/// text that is written for that stanza parses too, to the same names in the
/// same order, the same one-line values, and the same lines with one space
/// before each.
pub proof fn law_read_write_read(text: Seq<u8>)
    ensures
        parsed_one(text) matches Ok(m) ==> gives(
            parsed_one(encode_utf8(rendered(seq![m]))),
            reread_stanza(m),
        ),
{
    law_parsed_one_writable(text);
    if let Ok(m) = parsed_one(text) {
        law_round_trip_one(m);
    }
}

/// A condition that is easy to check: a document whose stanzas can be written, none
/// of them beginning with `-`, a tab or a carriage return, can be written.
pub proof fn law_writable_document(doc: Seq<Stanza>)
    requires
        forall|i: int|
            0 <= i < doc.len() ==> writable_stanza(#[trigger] doc[i]) && doc[i][0].0[0] != '-'
                && doc[i][0].0[0] != '\t' && doc[i][0].0[0] != '\r',
    ensures
        writable_document(doc),
    decreases doc.len(),
{
    if doc.len() > 0 {
        let rest = doc.drop_first();
        let first = doc[0];
        assert forall|i: int| 0 <= i < rest.len() implies writable_stanza(#[trigger] rest[i])
            && rest[i][0].0[0] != '-' && rest[i][0].0[0] != '\t' && rest[i][0].0[0] != '\r' by {
            assert(rest[i] == doc[i + 1]);
        }
        law_writable_document(rest);
        if doc.len() > 1 {
            assert(doc[1] == rest[0]);
        }
        // the text begins with the first name, which does not begin with `-`
        let name = first[0].0;
        let text = rendered(doc);
        lemma_flat_map_front(doc, |m: Stanza| rendered_stanza(m));
        lemma_flat_map_front(first, |field: (Seq<char>, ItemView)| rendered_field(field));
        assert(rendered_field(first[0])[0] == name[0]);
        assert(text[0] == name[0]);
        lemma_encode_first(text, DASH);
    }
}

/// Two stanzas where one is expected: the text of two stanzas that can be
/// written does not parse as one stanza. The error holds what is left after the
/// first: the text of the second, without the whitespace at its start.
pub proof fn law_two_stanzas_rejected(first: Stanza, second: Stanza)
    requires
        writable_stanza(first),
        writable_stanza(second),
    ensures
        refuses(
            parsed_one(encode_utf8(rendered(seq![first, second]))),
            trailing(grammar::skip_whitespace(encode_utf8(rendered_stanza(second)))),
        ),
        grammar::skip_whitespace(encode_utf8(rendered_stanza(second))).len() > 0,
{
    let doc = seq![first, second];
    lemma_flat_map_front(doc, |m: Stanza| rendered_stanza(m));
    let rest = doc.drop_first();
    lemma_flat_map_front(rest, |m: Stanza| rendered_stanza(m));
    assert(rest.drop_first().flat_map(|m: Stanza| rendered_stanza(m)) =~= Seq::<char>::empty());
    assert(rest[0] == second);
    assert(rendered(doc) =~= rendered_stanza(first) + rendered_stanza(second));
    lemma_encode_concat(rendered_stanza(first), rendered_stanza(second));
    lemma_encode_concat(rendered_fields(first), seq!['\n']);
    lemma_encode_ascii_char('\n');
    lemma_encode_rendered_fields(first);
    let after = encode_utf8(rendered_stanza(second));
    lemma_single_package_written(raw_stanza(first), after);
    // the `:` after the first name of the second stanza is no whitespace
    let name = second[0].0;
    let field = rendered_field(second[0]);
    let others = rendered_fields(second.drop_first()) + seq!['\n'];
    lemma_flat_map_front(second, |field: (Seq<char>, ItemView)| rendered_field(field));
    assert(rendered_stanza(second) =~= field + others);
    let value = field.skip(name.len() as int + 1);
    assert(field =~= name + seq![':'] + value);
    lemma_encode_concat(name + seq![':'] + value, others);
    lemma_encode_concat(name + seq![':'], value);
    lemma_encode_concat(name, seq![':']);
    lemma_encode_ascii_char(':');
    let at = encode_utf8(name).len() as int;
    assert(after[at] == COLON);
    lemma_run_len(after, |b: u8| is_whitespace(b));
}

/// A comment block before a text changes nothing: the text parses to the same
/// document, or fails with the same error, with the block and without it. The block
/// is `--`, a body and `-` with a line feed, where no `-` inside the body stands
/// before a line feed.
pub proof fn law_comment_ignored(body: Seq<char>, text: Seq<char>)
    requires
        forall|k: int| !#[trigger] pair_at(body, k, '-', '\n'),
        text.len() > 0,
    ensures
        parsed_multi(encode_utf8(seq!['-', '-'] + body + seq!['-', '\n'] + text)) == parsed_multi(
            encode_utf8(text),
        ),
{
    let whole = seq!['-', '-'] + body + seq!['-', '\n'] + text;
    let after = encode_utf8(text);
    lemma_encode_concat(seq!['-', '-'] + body + seq!['-', '\n'], text);
    lemma_encode_concat(seq!['-', '-'] + body, seq!['-', '\n']);
    lemma_encode_concat(seq!['-', '-'], body);
    lemma_encode_two('-', '-');
    lemma_encode_two('-', '\n');
    lemma_encode_pair_absent(body);
    lemma_comment_block_written(encode_utf8(body), after);
    crate::text::lemma_encode_empty(text);
    let with = encode_utf8(whole);
    assert(with.len() > 0);
    assert(grammar::commented_package(with) == grammar::commented_package(after));
}

/// Decoding neither cuts nor replaces anything: where a field decodes, the name
/// and the value are encoded by the very bytes of the field. Where it does not
/// decode, the name or the part of the value that is used is not valid UTF-8.
pub proof fn law_decoded_as_it_is(field: RawField)
    ensures
        decode_field(field) matches Some((key, value)) ==> {
            &&& encode_utf8(key) == field.key
            &&& value is OneLine <==> field.line.len() > 0
            &&& value matches ItemView::OneLine(text) ==> encode_utf8(text) == field.line
            &&& value matches ItemView::MultiLine(lines) ==> encode_utf8(join(lines, '\n'))
                == field.block
        },
        decode_field(field) is None ==> !valid_utf8(field.key) || !valid_utf8(
            if field.line.len() > 0 {
                field.line
            } else {
                field.block
            },
        ),
{
    if decode_field(field) is Some {
        decode_utf8_encode_utf8(field.key);
        if field.line.len() > 0 {
            decode_utf8_encode_utf8(field.line);
        } else {
            decode_utf8_encode_utf8(field.block);
            lemma_split(decode_utf8(field.block), '\n');
        }
    }
}

/// The lines of a block as the grammar reads them from written lines.
spec fn raw_lines(lines: Seq<Seq<char>>) -> Seq<Seq<u8>> {
    lines.map_values(|line: Seq<char>| encode_utf8(reread_line(line)))
}

/// The raw field that the grammar reads from a written field.
spec fn raw_field(field: (Seq<char>, ItemView)) -> RawField {
    match field.1 {
        ItemView::OneLine(text) => RawField {
            key: encode_utf8(field.0),
            line: encode_utf8(text),
            block: Seq::empty(),
        },
        ItemView::MultiLine(lines) => RawField {
            key: encode_utf8(field.0),
            line: Seq::empty(),
            block: join(raw_lines(lines), NEWLINE),
        },
    }
}

/// The raw fields that the grammar reads from a written stanza.
spec fn raw_stanza(m: Stanza) -> Seq<RawField> {
    m.map_values(|field: (Seq<char>, ItemView)| raw_field(field))
}

/// The raw stanzas that the grammar reads from a written document.
spec fn raw_document(doc: Seq<Stanza>) -> Seq<Seq<RawField>> {
    doc.map_values(|m: Stanza| raw_stanza(m))
}

/// Two ASCII characters are encoded by their two bytes.
proof fn lemma_encode_two(a: char, b: char)
    requires
        a as u32 <= 0x7f,
        b as u32 <= 0x7f,
    ensures
        encode_utf8(seq![a, b]) == seq![a as u8, b as u8],
{
    lemma_encode_ascii_char(a);
    lemma_encode_ascii_char(b);
    lemma_encode_concat(seq![a], seq![b]);
    assert(seq![a] + seq![b] =~= seq![a, b]);
    assert(seq![a as u8] + seq![b as u8] =~= seq![a as u8, b as u8]);
}

/// A written name is a plain name in bytes.
proof fn lemma_plain_key(key: Seq<char>)
    requires
        writable_key(key),
    ensures
        plain_key(encode_utf8(key)),
{
    lemma_encode_first(key, SPACE);
    lemma_encode_first(key, NEWLINE);
    lemma_encode_ascii_absent(key, COLON);
}

/// A written line is encoded as a space, the line that is read back and a line feed.
proof fn lemma_encode_rendered_line(line: Seq<char>)
    requires
        !line.contains('\n'),
    ensures
        encode_utf8(rendered_line(line)) == seq![SPACE] + encode_utf8(reread_line(line)) + seq![
            NEWLINE,
        ],
        !encode_utf8(reread_line(line)).contains(NEWLINE),
        !reread_line(line).contains('\n'),
{
    let inner = reread_line(line);
    assert(rendered_line(line) =~= seq![' '] + inner + seq!['\n']);
    lemma_encode_ascii_char(' ');
    lemma_encode_ascii_char('\n');
    lemma_encode_concat(seq![' '] + inner, seq!['\n']);
    lemma_encode_concat(seq![' '], inner);
    assert forall|j: int| 0 <= j < inner.len() implies inner[j] != '\n' by {
        if j > 0 {
            assert(inner[j] == line[j - 1]);
        }
    }
    lemma_encode_ascii_absent(inner, NEWLINE);
}

/// Written lines are encoded as the continuation lines that are read back.
proof fn lemma_encode_rendered_lines(lines: Seq<Seq<char>>)
    requires
        forall|i: int| 0 <= i < lines.len() ==> !(#[trigger] lines[i]).contains('\n'),
    ensures
        encode_utf8(rendered_lines(lines)) == written_lines(raw_lines(lines)),
        single_lines(raw_lines(lines)),
    decreases lines.len(),
{
    let raw = raw_lines(lines);
    if lines.len() == 0 {
        assert(rendered_lines(lines) =~= Seq::<char>::empty());
    } else {
        let rest = lines.drop_first();
        lemma_flat_map_front(lines, |line: Seq<char>| rendered_line(line));
        assert(rendered_lines(lines) == rendered_line(lines[0]) + rendered_lines(rest));
        lemma_encode_concat(rendered_line(lines[0]), rendered_lines(rest));
        lemma_encode_rendered_line(lines[0]);
        assert forall|i: int| 0 <= i < rest.len() implies !(#[trigger] rest[i]).contains('\n') by {
            assert(rest[i] == lines[i + 1]);
        }
        lemma_encode_rendered_lines(rest);
        assert(raw.drop_first() =~= raw_lines(rest));
        assert(raw[0] == encode_utf8(reread_line(lines[0])));
        assert forall|i: int| 0 <= i < raw.len() implies !(#[trigger] raw[i]).contains(NEWLINE) by {
            if i > 0 {
                assert(raw[i] == raw_lines(rest)[i - 1]);
            }
        }
    }
}

/// Joined texts are encoded as their encodings joined.
proof fn lemma_encode_join(parts: Seq<Seq<char>>)
    ensures
        encode_utf8(join(parts, '\n')) == join(
            parts.map_values(|part: Seq<char>| encode_utf8(part)),
            NEWLINE,
        ),
    decreases parts.len(),
{
    let encoded = parts.map_values(|part: Seq<char>| encode_utf8(part));
    if parts.len() == 0 {
        assert(join(parts, '\n') =~= Seq::<char>::empty());
    } else if parts.len() == 1 {
    } else {
        let front = parts.drop_last();
        lemma_encode_join(front);
        assert(encoded.drop_last() =~= front.map_values(|part: Seq<char>| encode_utf8(part)));
        lemma_encode_ascii_char('\n');
        lemma_encode_concat(join(front, '\n') + seq!['\n'], parts.last());
        lemma_encode_concat(join(front, '\n'), seq!['\n']);
    }
}

/// The block of written lines decodes to the lines that are read back.
proof fn lemma_decode_block(lines: Seq<Seq<char>>)
    requires
        lines.len() > 0,
        forall|i: int| 0 <= i < lines.len() ==> !(#[trigger] lines[i]).contains('\n'),
    ensures
        valid_utf8(join(raw_lines(lines), NEWLINE)),
        split(decode_utf8(join(raw_lines(lines), NEWLINE)), '\n') == reread_lines(lines),
        split(join(raw_lines(lines), NEWLINE), NEWLINE) == raw_lines(lines),
{
    let back = reread_lines(lines);
    let text = join(back, '\n');
    lemma_encode_join(back);
    assert(back.map_values(|part: Seq<char>| encode_utf8(part)) =~= raw_lines(lines));
    encode_utf8_valid_utf8(text);
    encode_utf8_decode_utf8(text);
    assert forall|i: int| 0 <= i < back.len() implies !(#[trigger] back[i]).contains('\n') by {
        lemma_encode_rendered_line(lines[i]);
    }
    lemma_split_join(back, '\n');
    lemma_encode_rendered_lines(lines);
    lemma_split_join(raw_lines(lines), NEWLINE);
}

/// A written field is encoded as the text of the raw field that is read from it.
/// That raw field is plain, and it decodes to the field as it is read back.
proof fn lemma_raw_field(field: (Seq<char>, ItemView))
    requires
        writable_key(field.0),
        writable_value(field.1),
    ensures
        encode_utf8(rendered_field(field)) == written_field(raw_field(field)),
        plain_field(raw_field(field)),
        decode_field(raw_field(field)) == Some((field.0, reread_value(field.1))),
{
    let key = field.0;
    let raw = raw_field(field);
    lemma_plain_key(key);
    encode_utf8_valid_utf8(key);
    encode_utf8_decode_utf8(key);
    match field.1 {
        ItemView::OneLine(text) => {
            lemma_encode_first(text, SPACE);
            lemma_encode_first(text, TAB);
            lemma_encode_ascii_absent(text, NEWLINE);
            encode_utf8_valid_utf8(text);
            encode_utf8_decode_utf8(text);
            lemma_encode_two(':', ' ');
            lemma_encode_ascii_char('\n');
            lemma_encode_concat(key + seq![':', ' '] + text, seq!['\n']);
            lemma_encode_concat(key + seq![':', ' '], text);
            lemma_encode_concat(key, seq![':', ' ']);
        },
        ItemView::MultiLine(lines) => {
            lemma_decode_block(lines);
            lemma_encode_rendered_lines(lines);
            lemma_encode_two(':', '\n');
            lemma_encode_concat(key + seq![':', '\n'], rendered_lines(lines));
            lemma_encode_concat(key, seq![':', '\n']);
            assert(lines_of(raw) == raw_lines(lines));
        },
    }
}

/// Written fields are encoded as the text of the raw fields that are read from
/// them, and these are plain.
proof fn lemma_encode_rendered_fields(m: Stanza)
    requires
        writable_fields(m),
    ensures
        encode_utf8(rendered_fields(m)) == written_fields(raw_stanza(m)),
        plain_fields(raw_stanza(m)),
    decreases m.len(),
{
    let raw = raw_stanza(m);
    if m.len() == 0 {
        assert(rendered_fields(m) =~= Seq::<char>::empty());
    } else {
        let rest = m.drop_first();
        lemma_flat_map_front(m, |field: (Seq<char>, ItemView)| rendered_field(field));
        assert(rendered_fields(m) == rendered_field(m[0]) + rendered_fields(rest));
        lemma_encode_concat(rendered_field(m[0]), rendered_fields(rest));
        lemma_raw_field(m[0]);
        assert forall|i: int| 0 <= i < rest.len() implies writable_key((#[trigger] rest[i]).0)
            && writable_value(rest[i].1) by {
            assert(rest[i] == m[i + 1]);
        }
        lemma_encode_rendered_fields(rest);
        assert(raw.drop_first() =~= raw_stanza(rest));
        assert(raw[0] == raw_field(m[0]));
        assert forall|i: int| 0 <= i < raw.len() implies plain_field(#[trigger] raw[i]) by {
            if i > 0 {
                assert(raw[i] == raw_stanza(rest)[i - 1]);
            }
        }
    }
}

/// The raw fields that are read from a written stanza build the stanza as it is
/// read back.
proof fn lemma_build_map_raw(m: Stanza)
    requires
        writable_fields(m),
        distinct_keys(m),
    ensures
        build_map(raw_stanza(m)) == Some(reread_stanza(m)),
    decreases m.len(),
{
    let raw = raw_stanza(m);
    let back = reread_stanza(m);
    if m.len() == 0 {
        assert(back =~= Seq::<(Seq<char>, ItemView)>::empty());
    } else {
        let front = m.drop_last();
        let last = m.last();
        assert forall|i: int| 0 <= i < front.len() implies writable_key((#[trigger] front[i]).0)
            && writable_value(front[i].1) by {
            assert(front[i] == m[i]);
        }
        assert forall|i: int, j: int| 0 <= i < j < front.len() implies (#[trigger] front[i]).0 != (
        #[trigger] front[j]).0 by {
            assert(front[i] == m[i]);
            assert(front[j] == m[j]);
        }
        lemma_build_map_raw(front);
        assert(raw.drop_last() =~= raw_stanza(front));
        assert(raw.last() == raw_field(last));
        lemma_raw_field(last);
        let before = reread_stanza(front);
        let names = keys(before);
        lemma_first_index(names, last.0);
        let at = first_index(names, last.0);
        if at < names.len() {
            assert(names[at] == before[at].0);
            assert(before[at].0 == m[at].0);
            assert(m[m.len() - 1] == last);
        }
        assert(insert(before, last.0, reread_value(last.1)) == before.push(
            (last.0, reread_value(last.1)),
        ));
        assert(before.push((last.0, reread_value(last.1))) =~= back);
    }
}

/// Every stanza of a document that can be written can be written.
proof fn lemma_writable_stanzas(doc: Seq<Stanza>)
    requires
        writable_document(doc),
    ensures
        forall|i: int| 0 <= i < doc.len() ==> writable_stanza(#[trigger] doc[i]),
    decreases doc.len(),
{
    if doc.len() > 0 {
        let rest = doc.drop_first();
        lemma_writable_stanzas(rest);
        assert forall|i: int| 0 <= i < doc.len() implies writable_stanza(#[trigger] doc[i]) by {
            if i > 0 {
                assert(doc[i] == rest[i - 1]);
            }
        }
    }
}

/// The raw stanzas that are read from a written document build the document as it
/// is read back.
proof fn lemma_build_maps_raw(doc: Seq<Stanza>)
    requires
        forall|i: int| 0 <= i < doc.len() ==> writable_stanza(#[trigger] doc[i]),
    ensures
        build_maps(raw_document(doc)) == Some(reread(doc)),
    decreases doc.len(),
{
    let raw = raw_document(doc);
    if doc.len() == 0 {
        assert(reread(doc) =~= Seq::<Stanza>::empty());
    } else {
        let front = doc.drop_last();
        assert forall|i: int| 0 <= i < front.len() implies writable_stanza(#[trigger] front[i]) by {
            assert(front[i] == doc[i]);
        }
        lemma_build_maps_raw(front);
        assert(raw.drop_last() =~= raw_document(front));
        assert(raw.last() == raw_stanza(doc.last()));
        assert(writable_stanza(doc[doc.len() - 1]));
        lemma_build_map_raw(doc.last());
        assert(reread(front).push(reread_stanza(doc.last())) =~= reread(doc));
    }
}

/// A written document is encoded as the text of the raw stanzas that are read
/// from it, and these make a plain document.
proof fn lemma_encode_rendered(doc: Seq<Stanza>)
    requires
        writable_document(doc),
    ensures
        encode_utf8(rendered(doc)) == written_document(raw_document(doc)),
        plain_document(raw_document(doc)),
    decreases doc.len(),
{
    let raw = raw_document(doc);
    if doc.len() == 0 {
        assert(rendered(doc) =~= Seq::<char>::empty());
    } else {
        let rest = doc.drop_first();
        let first = doc[0];
        lemma_flat_map_front(doc, |m: Stanza| rendered_stanza(m));
        assert(rendered(doc) == rendered_stanza(first) + rendered(rest));
        lemma_encode_concat(rendered_stanza(first), rendered(rest));
        lemma_encode_concat(rendered_fields(first), seq!['\n']);
        lemma_encode_ascii_char('\n');
        lemma_encode_rendered_fields(first);
        lemma_encode_rendered(rest);
        assert(raw.drop_first() =~= raw_document(rest));
        assert(raw[0] == raw_stanza(first));
        if doc.len() > 1 {
            reveal_with_fuel(writable_document, 2);
            let next = doc[1];
            assert(rest[0] == next);
            assert(writable_stanza(next));
            let name = next[0].0;
            assert(writable_key(name));
            assert(raw[1][0].key == encode_utf8(name));
            lemma_encode_first(name, SPACE);
            lemma_encode_first(name, NEWLINE);
            lemma_encode_first(name, TAB);
            lemma_encode_first(name, RETURN);
        }
    }
}

/// A stanza of one-line values is read back as it is.
proof fn lemma_reread_one_line(m: Stanza)
    requires
        only_one_line(m),
    ensures
        reread_stanza(m) == m,
{
    assert(reread_stanza(m) =~= m);
}

/// A comment block is read up to its closing `-` and line feed, provided no `-`
/// inside it stands before a line feed.
proof fn lemma_comment_block_written(body: Seq<u8>, after: Seq<u8>)
    requires
        forall|i: int| !#[trigger] pair_at(body, i, DASH, NEWLINE),
    ensures
        reads(
            grammar::comment_block(seq![DASH, DASH] + body + seq![DASH, NEWLINE] + after),
            after,
            body,
        ),
        grammar::comment(seq![DASH, DASH] + body + seq![DASH, NEWLINE] + after)
            == grammar::comment(after),
{
    let s = seq![DASH, DASH] + body + seq![DASH, NEWLINE] + after;
    let inner = body + seq![DASH, NEWLINE] + after;
    assert(s.skip(2) =~= inner);
    let n = body.len() as int;
    assert forall|i: int| 0 <= i < n implies !#[trigger] pair_at(inner, i, DASH, NEWLINE) by {
        assert(!pair_at(body, i, DASH, NEWLINE));
        assert(inner[i] == body[i]);
        if i + 1 < n {
            assert(inner[i + 1] == body[i + 1]);
        } else {
            assert(inner[i + 1] == DASH);
        }
    }
    assert(inner[n] == DASH && inner[n + 1] == NEWLINE);
    assert(pair_at(inner, n, DASH, NEWLINE));
    lemma_first_pair_is(inner, DASH, NEWLINE, n);
    assert(s.skip(n + 4) =~= after);
    assert(s.subrange(2, n + 2) =~= body);
    grammar::lemma_comment_block(s);
}

/// Where no `-` stands before a line feed in a text, none does in its encoding.
proof fn lemma_encode_pair_absent(text: Seq<char>)
    requires
        forall|k: int| !#[trigger] pair_at(text, k, '-', '\n'),
    ensures
        forall|i: int| !#[trigger] pair_at(encode_utf8(text), i, DASH, NEWLINE),
{
    let bytes = encode_utf8(text);
    encode_utf8_valid_utf8(text);
    encode_utf8_decode_utf8(text);
    assert forall|i: int| !#[trigger] pair_at(bytes, i, DASH, NEWLINE) by {
        if pair_at(bytes, i, DASH, NEWLINE) {
            crate::text::lemma_cut_at_ascii(bytes, i);
            let head = decode_utf8(bytes.take(i));
            let tail = bytes.skip(i + 1);
            assert(tail[0] == NEWLINE);
            crate::text::lemma_cut_at_ascii(tail, 0);
            assert(tail.take(0) =~= Seq::<u8>::empty());
            assert(decode_utf8(tail.take(0)) =~= Seq::<char>::empty());
            let k = head.len() as int;
            assert(text[k] == '-');
            assert(text[k + 1] == '\n');
            assert(pair_at(text, k, '-', '\n'));
        }
    }
}

/// What a field with a plain name and a plain line decodes to can be written.
proof fn lemma_decode_field_writable(field: RawField)
    requires
        plain_key(field.key),
        plain_line(field.line),
    ensures
        decode_field(field) matches Some((key, value)) ==> writable_key(key) && writable_value(
            value,
        ),
{
    if let Some((key, value)) = decode_field(field) {
        lemma_decode_first(field.key, SPACE);
        lemma_decode_first(field.key, NEWLINE);
        lemma_ascii_absent(field.key, COLON);
        if field.line.len() > 0 {
            lemma_decode_first(field.line, SPACE);
            lemma_decode_first(field.line, TAB);
            lemma_ascii_absent(field.line, NEWLINE);
        } else {
            lemma_split(decode_utf8(field.block), '\n');
        }
    }
}

/// The stanza that is built from fields with plain names and lines can be
/// written, but for the one condition that it has a field.
proof fn lemma_build_map_writable(fields: Seq<RawField>)
    requires
        plain_names_and_lines(fields),
    ensures
        build_map(fields) matches Some(m) ==> {
            &&& writable_fields(m)
            &&& distinct_keys(m)
            &&& fields.len() > 0 ==> m.len() > 0
        },
    decreases fields.len(),
{
    if fields.len() > 0 {
        let front = fields.drop_last();
        assert forall|i: int| 0 <= i < front.len() implies plain_key((#[trigger] front[i]).key)
            && plain_line(front[i].line) by {
            assert(front[i] == fields[i]);
        }
        lemma_build_map_writable(front);
        crate::model::lemma_build_map_distinct(fields);
        if let (Some(before), Some((key, value))) = (
            build_map(front),
            decode_field(fields.last()),
        ) {
            assert(plain_key(fields[fields.len() - 1].key));
            lemma_decode_field_writable(fields.last());
            let m = insert(before, key, value);
            lemma_first_index(keys(before), key);
            assert forall|i: int| 0 <= i < m.len() implies writable_key((#[trigger] m[i]).0)
                && writable_value(m[i].1) by {
                if m[i] != (key, value) {
                    assert(m[i] == before[i]);
                }
            }
        }
    }
}

/// Every stanza that is built from fields with plain names and lines can be written.
proof fn lemma_build_maps_writable(stanzas: Seq<Seq<RawField>>)
    requires
        forall|i: int|
            0 <= i < stanzas.len() ==> (#[trigger] stanzas[i]).len() > 0 && plain_names_and_lines(
                stanzas[i],
            ),
    ensures
        build_maps(stanzas) matches Some(doc) ==> doc.len() == stanzas.len() && forall|i: int|
            0 <= i < doc.len() ==> writable_stanza(#[trigger] doc[i]),
    decreases stanzas.len(),
{
    if stanzas.len() > 0 {
        let front = stanzas.drop_last();
        assert forall|i: int| 0 <= i < front.len() implies (#[trigger] front[i]).len() > 0
            && plain_names_and_lines(front[i]) by {
            assert(front[i] == stanzas[i]);
        }
        lemma_build_maps_writable(front);
        assert(stanzas[stanzas.len() - 1].len() > 0);
        lemma_build_map_writable(stanzas.last());
        if let Some(doc) = build_maps(stanzas) {
            assert forall|i: int| 0 <= i < doc.len() implies writable_stanza(#[trigger] doc[i]) by {
                if i < front.len() {
                    assert(doc[i] == build_maps(front)->Some_0[i]);
                }
            }
        }
    }
}

} // verus!
