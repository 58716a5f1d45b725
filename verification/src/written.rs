//! The text of raw fields, and the proof that the grammar reads it back.
//!
//! [`written_stanza`] writes fields the way the grammar expects them: a name, `:`,
//! then one space and the line, or the continuation lines each after one space.
//! [`lemma_single_package_written`] shows that a stanza of plain fields is read back
//! from its text field by field.

use vstd::prelude::*;
use crate::grammar::{
    comment, comment_block, fields, handle_key_name, key_name, key_value, multi_line,
    multi_line_single, multi_package, packages, plain_key, plain_line, reads, separator,
    single_line,
    single_package, skip_whitespace, take_until, value_field, RawField,
};
use crate::scan::{
    is_blank, is_whitespace, join, lemma_first_index, lemma_first_index_after, lemma_run_len,
    lemma_run_len_is, run_len, split, lemma_split, COLON, NEWLINE, SPACE,
};

verus! {

/// Continuation lines as text: each line after one space and before a line feed.
pub open spec fn written_lines(lines: Seq<Seq<u8>>) -> Seq<u8>
    decreases lines.len(),
{
    if lines.len() == 0 {
        Seq::empty()
    } else {
        seq![SPACE] + lines[0] + seq![NEWLINE] + written_lines(lines.drop_first())
    }
}

/// The continuation lines of a field: the pieces of its block where its line is
/// empty, and none where it has a line.
pub open spec fn lines_of(field: RawField) -> Seq<Seq<u8>> {
    if field.line.len() > 0 {
        Seq::empty()
    } else {
        split(field.block, NEWLINE)
    }
}

/// A field as text: the name and `:`, then a space, the line and a line feed where
/// there is a line, and a line feed and the continuation lines where there is none.
pub open spec fn written_field(field: RawField) -> Seq<u8> {
    if field.line.len() > 0 {
        field.key + seq![COLON, SPACE] + field.line + seq![NEWLINE]
    } else {
        field.key + seq![COLON, NEWLINE] + written_lines(lines_of(field))
    }
}

/// Fields as text, one after the other.
pub open spec fn written_fields(fields: Seq<RawField>) -> Seq<u8>
    decreases fields.len(),
{
    if fields.len() == 0 {
        Seq::empty()
    } else {
        written_field(fields[0]) + written_fields(fields.drop_first())
    }
}

/// A stanza as text: its fields and a blank line.
pub open spec fn written_stanza(fields: Seq<RawField>) -> Seq<u8> {
    written_fields(fields) + seq![NEWLINE]
}

/// A field that the grammar reads back as it is: a name and a line as the grammar
/// gives them, and no block where there is a line.
pub open spec fn plain_field(field: RawField) -> bool {
    &&& plain_key(field.key)
    &&& plain_line(field.line)
    &&& field.line.len() > 0 ==> field.block.len() == 0
}

/// All fields are plain.
pub open spec fn plain_fields(fields: Seq<RawField>) -> bool {
    forall|i: int| 0 <= i < fields.len() ==> plain_field(#[trigger] fields[i])
}

/// No line holds a line feed.
pub open spec fn single_lines(lines: Seq<Seq<u8>>) -> bool {
    forall|i: int| 0 <= i < lines.len() ==> !(#[trigger] lines[i]).contains(NEWLINE)
}

/// The text is empty or does not begin with a space.
pub open spec fn no_indent(s: Seq<u8>) -> bool {
    s.len() == 0 || s[0] != SPACE
}

/// Text that does not begin with a space begins with no continuation line.
pub proof fn lemma_multi_line_none(s: Seq<u8>)
    requires
        no_indent(s),
    ensures
        multi_line(s) == (s, Seq::<Seq<u8>>::empty()),
{
    assert(multi_line_single(s) is Err);
}

/// Written continuation lines are read back, up to the text after them.
pub proof fn lemma_multi_line_written(lines: Seq<Seq<u8>>, after: Seq<u8>)
    requires
        single_lines(lines),
        no_indent(after),
    ensures
        multi_line(written_lines(lines) + after) == (after, lines),
    decreases lines.len(),
{
    let s = written_lines(lines) + after;
    if lines.len() == 0 {
        assert(s =~= after);
        lemma_multi_line_none(after);
        assert(lines =~= Seq::<Seq<u8>>::empty());
    } else {
        let rest = lines.drop_first();
        let tail = written_lines(rest) + after;
        assert(s =~= seq![SPACE] + (lines[0] + seq![NEWLINE] + tail));
        assert(s[0] == SPACE);
        assert(s.skip(1) =~= lines[0] + seq![NEWLINE] + tail);
        lemma_first_index_after(lines[0], NEWLINE, tail);
        assert(reads(multi_line_single(s), tail, lines[0]));
        assert forall|i: int| 0 <= i < rest.len() implies !(#[trigger] rest[i]).contains(
            NEWLINE,
        ) by {
            assert(rest[i] == lines[i + 1]);
        }
        lemma_multi_line_written(rest, after);
        assert(seq![lines[0]] + rest =~= lines);
    }
}

/// A written field is read back, whatever continuation lines stand before it. The
/// text that is left begins with the continuation lines of the field.
pub proof fn lemma_key_value_written(pending: Seq<Seq<u8>>, field: RawField, after: Seq<u8>)
    requires
        single_lines(pending),
        plain_field(field),
        no_indent(after),
    ensures
        reads(
            key_value(written_lines(pending) + written_field(field) + after),
            written_lines(lines_of(field)) + after,
            field,
        ),
{
    let key = field.key;
    let body = written_field(field) + after;
    let text = written_lines(pending) + written_field(field) + after;
    let own = lines_of(field);
    let left = written_lines(own) + after;
    assert(text =~= written_lines(pending) + body);
    assert(body[0] == key[0]);
    lemma_multi_line_written(pending, body);
    assert(handle_key_name(text) == body);
    // the name
    let value_text = if field.line.len() > 0 {
        seq![SPACE] + field.line + seq![NEWLINE] + after
    } else {
        seq![NEWLINE] + left
    };
    assert(body =~= key + seq![COLON] + value_text);
    lemma_first_index_after(key, COLON, value_text);
    let after_key = seq![COLON] + value_text;
    assert(body.skip(key.len() as int) =~= after_key);
    assert(reads(take_until(body, COLON), after_key, key));
    assert(reads(key_name(text), after_key, key));
    // the separator
    assert(after_key.skip(1) =~= value_text);
    let blanks: int = if field.line.len() > 0 {
        1
    } else {
        0
    };
    if field.line.len() > 0 {
        assert(value_text[0] == SPACE);
        assert(value_text[1] == field.line[0]);
    } else {
        assert(value_text[0] == NEWLINE);
    }
    lemma_run_len_is(value_text, |b: u8| is_blank(b), blanks);
    let after_separator = after_key.skip(1 + blanks);
    assert(reads(separator(after_key), after_separator, ()));
    // the line
    assert(after_separator =~= field.line + seq![NEWLINE] + left) by {
        if field.line.len() > 0 {
            assert(own =~= Seq::<Seq<u8>>::empty());
            assert(left =~= after);
        }
    }
    lemma_first_index_after(field.line, NEWLINE, left);
    assert(reads(single_line(after_separator), left, field.line));
    // the block
    if field.line.len() > 0 {
        assert(left =~= after);
        lemma_multi_line_none(after);
        assert(join(Seq::<Seq<u8>>::empty(), NEWLINE) =~= field.block);
    } else {
        lemma_split(field.block, NEWLINE);
        lemma_multi_line_written(own, after);
    }
    assert(reads(value_field(after_separator), left, (field.line, field.block)));
}

/// No field begins at a blank line, whatever continuation lines stand before it.
pub proof fn lemma_key_value_stops(pending: Seq<Seq<u8>>, after: Seq<u8>)
    requires
        single_lines(pending),
        after.len() > 0,
        after[0] == NEWLINE,
    ensures
        key_value(written_lines(pending) + after) is Err,
{
    let text = written_lines(pending) + after;
    lemma_multi_line_written(pending, after);
    assert(handle_key_name(text) == after);
    lemma_first_index(after, COLON);
    if let Ok((rest, key)) = take_until(after, COLON) {
        assert(key.len() > 0);
        assert(key[0] == after[0]);
    }
    assert(key_name(text) is Err);
}

/// The continuation lines that are left after the fields are read: those of the
/// last field, or those that stood before where there is no field.
pub open spec fn lines_left(pending: Seq<Seq<u8>>, fields: Seq<RawField>) -> Seq<Seq<u8>> {
    if fields.len() == 0 {
        pending
    } else {
        lines_of(fields.last())
    }
}

/// Written fields that a blank line follows are read back one by one, and reading
/// stops before the continuation lines of the last.
pub proof fn lemma_fields_written(pending: Seq<Seq<u8>>, written: Seq<RawField>, after: Seq<u8>)
    requires
        single_lines(pending),
        plain_fields(written),
        after.len() > 0,
        after[0] == NEWLINE,
    ensures
        fields(written_lines(pending) + written_fields(written) + after) == (
            written_lines(lines_left(pending, written)) + after,
            written,
        ),
    decreases written.len(),
{
    let text = written_lines(pending) + written_fields(written) + after;
    if written.len() == 0 {
        assert(text =~= written_lines(pending) + after);
        lemma_key_value_stops(pending, after);
        assert(written =~= Seq::<RawField>::empty());
    } else {
        let first = written[0];
        let others = written.drop_first();
        let tail = written_fields(others) + after;
        assert(plain_field(first));
        assert forall|i: int| 0 <= i < others.len() implies plain_field(#[trigger] others[i]) by {
            assert(others[i] == written[i + 1]);
        }
        if others.len() > 0 {
            assert(plain_field(others[0]));
            assert(written_field(others[0])[0] == others[0].key[0]);
            assert(tail[0] == others[0].key[0]);
            assert(others.last() == written.last());
        } else {
            assert(tail =~= after);
        }
        assert(text =~= written_lines(pending) + written_field(first) + tail);
        lemma_key_value_written(pending, first, tail);
        let own = lines_of(first);
        lemma_split(first.block, NEWLINE);
        let left = written_lines(own) + tail;
        assert(left =~= written_lines(own) + written_fields(others) + after);
        lemma_fields_written(own, others, after);
        assert(left.len() < text.len()) by {
            crate::grammar::lemma_key_value(text);
        }
        assert(seq![first] + others =~= written);
    }
}

/// A written stanza of plain fields is read back field by field. What is left is
/// the text after the stanza without the whitespace at its start.
pub proof fn lemma_single_package_written(written: Seq<RawField>, after: Seq<u8>)
    requires
        written.len() > 0,
        plain_fields(written),
    ensures
        reads(single_package(written_stanza(written) + after), skip_whitespace(after), written),
        after.len() == 0 || !is_whitespace(after[0]) ==> skip_whitespace(after) == after,
{
    let blank = seq![NEWLINE] + after;
    let text = written_stanza(written) + after;
    let none = Seq::<Seq<u8>>::empty();
    assert(written_lines(none) =~= Seq::<u8>::empty());
    assert(text =~= written_lines(none) + written_fields(written) + blank);
    lemma_fields_written(none, written, blank);
    let left = lines_of(written.last());
    assert(plain_field(written.last()));
    lemma_split(written.last().block, NEWLINE);
    lemma_multi_line_written(left, blank);
    // the blank line and the whitespace after it go together
    let white = |b: u8| is_whitespace(b);
    lemma_run_len(after, white);
    let n = run_len(after, white);
    assert(blank.skip(1) =~= after);
    assert forall|j: int| 0 <= j < n + 1 implies white(blank[j]) by {
        if j > 0 {
            assert(blank[j] == after[j - 1]);
        }
    }
    if n + 1 < blank.len() {
        assert(blank[n + 1] == after[n]);
    }
    lemma_run_len_is(blank, white, n + 1);
    assert(blank.skip(n + 1) =~= after.skip(n));
    if after.len() == 0 || !is_whitespace(after[0]) {
        lemma_run_len_is(after, white, 0);
        assert(after.skip(0) =~= after);
    }
}

/// A document as text: its stanzas, one after the other.
pub open spec fn written_document(stanzas: Seq<Seq<RawField>>) -> Seq<u8>
    decreases stanzas.len(),
{
    if stanzas.len() == 0 {
        Seq::empty()
    } else {
        written_stanza(stanzas[0]) + written_document(stanzas.drop_first())
    }
}

/// A document that the grammar reads back as it is. Each stanza has a field and
/// only plain fields; the text from a stanza on does not begin with a comment
/// block; and no stanza but the first begins with whitespace, which would belong
/// to the blank line before it.
pub open spec fn plain_document(stanzas: Seq<Seq<RawField>>) -> bool
    decreases stanzas.len(),
{
    stanzas.len() > 0 ==> {
        &&& stanzas[0].len() > 0
        &&& plain_fields(stanzas[0])
        &&& comment_block(written_document(stanzas)) is Err
        &&& stanzas.len() > 1 && stanzas[1].len() > 0 ==> !is_whitespace(stanzas[1][0].key[0])
        &&& plain_document(stanzas.drop_first())
    }
}

/// The text of a stanza begins with the name of its first field.
pub proof fn lemma_written_stanza_first(written: Seq<RawField>)
    requires
        written.len() > 0,
        written[0].key.len() > 0,
    ensures
        written_stanza(written).len() > 0,
        written_stanza(written)[0] == written[0].key[0],
{
    assert(written_field(written[0])[0] == written[0].key[0]);
    assert(written_fields(written)[0] == written[0].key[0]);
}

/// A written document of plain stanzas is read back stanza by stanza, and nothing
/// of it is left.
pub proof fn lemma_packages_written(written: Seq<Seq<RawField>>)
    requires
        plain_document(written),
    ensures
        packages(written_document(written)) == (Seq::<u8>::empty(), written),
        written.len() > 0 ==> reads(
            multi_package(written_document(written)),
            Seq::<u8>::empty(),
            written,
        ),
    decreases written.len(),
{
    let text = written_document(written);
    if written.len() == 0 {
        assert(comment_block(text) is Err);
        assert(comment(text) == text);
        assert(key_value(text) is Err) by {
            crate::grammar::lemma_key_value(text);
        }
        assert(written =~= Seq::<Seq<RawField>>::empty());
    } else {
        let first = written[0];
        let others = written.drop_first();
        let after = written_document(others);
        assert(comment(text) == text);
        if others.len() > 0 {
            reveal_with_fuel(plain_document, 2);
            assert(others[0] == written[1]);
            assert(plain_field(others[0][0]));
            lemma_written_stanza_first(others[0]);
            assert(after[0] == others[0][0].key[0]);
        } else {
            assert(after =~= Seq::<u8>::empty());
        }
        lemma_single_package_written(first, after);
        lemma_packages_written(others);
        assert(after.len() < text.len());
        assert(seq![first] + others =~= written);
    }
}

} // verus!
