//! What the three operations compute, stated on byte and character sequences.

use vstd::prelude::*;
use vstd::utf8::{decode_utf8, valid_utf8};
use crate::error::{ErrorKind, ParseErrorView, SyntaxError};
use crate::grammar;
use crate::grammar::RawField;
use crate::scan::{lemma_flat_map_push, split};
use crate::stanza::{collected, distinct_keys, insert, lemma_insert_distinct, Stanza};
use crate::ItemView;

verus! {

/// The value of a field. An empty line makes the field multi-line: its lines are
/// the block cut at every line feed. Any other line is the value, and the block is
/// not looked at. Nothing where what is used is not valid UTF-8.
pub open spec fn decode_value(line: Seq<u8>, block: Seq<u8>) -> Option<ItemView> {
    if line.len() == 0 {
        if valid_utf8(block) {
            Some(ItemView::MultiLine(split(decode_utf8(block), '\n')))
        } else {
            None
        }
    } else {
        if valid_utf8(line) {
            Some(ItemView::OneLine(decode_utf8(line)))
        } else {
            None
        }
    }
}

/// The name and the value of a field, or nothing where one of them is not valid
/// UTF-8.
pub open spec fn decode_field(field: RawField) -> Option<(Seq<char>, ItemView)> {
    if valid_utf8(field.key) {
        match decode_value(field.line, field.block) {
            Some(value) => Some((decode_utf8(field.key), value)),
            None => None,
        }
    } else {
        None
    }
}

/// The stanza that the fields make when they are inserted one after the other,
/// or nothing where one of them does not decode.
pub open spec fn build_map(fields: Seq<RawField>) -> Option<Stanza>
    decreases fields.len(),
{
    if fields.len() == 0 {
        Some(Seq::empty())
    } else {
        match (build_map(fields.drop_last()), decode_field(fields.last())) {
            (Some(m), Some((key, value))) => Some(insert(m, key, value)),
            _ => None,
        }
    }
}

/// The stanzas of a document, or nothing where one of them does not decode.
pub open spec fn build_maps(stanzas: Seq<Seq<RawField>>) -> Option<Seq<Stanza>>
    decreases stanzas.len(),
{
    if stanzas.len() == 0 {
        Some(Seq::empty())
    } else {
        match (build_maps(stanzas.drop_last()), build_map(stanzas.last())) {
            (Some(done), Some(m)) => Some(done.push(m)),
            _ => None,
        }
    }
}

/// The fields decoded, each a name and a value, where each of them decodes.
pub open spec fn decoded(fields: Seq<RawField>) -> Stanza {
    fields.map_values(|field: RawField| decode_field(field).unwrap())
}

/// A stanza is built by inserting the decoded fields one after the other, so
/// that [`law_insertion_order`](crate::stanza::law_insertion_order) says in which
/// order it holds them and with which values.
pub proof fn lemma_build_map_collected(fields: Seq<RawField>)
    ensures
        build_map(fields) matches Some(m) ==> m == collected(decoded(fields)),
    decreases fields.len(),
{
    if fields.len() > 0 {
        lemma_build_map_collected(fields.drop_last());
        assert(decoded(fields).drop_last() =~= decoded(fields.drop_last()));
    }
}

/// A stanza that stops decoding at some field does not decode as a whole.
pub proof fn lemma_build_map_prefix(fields: Seq<RawField>, n: int)
    requires
        0 <= n <= fields.len(),
        build_map(fields.take(n)) is None,
    ensures
        build_map(fields) is None,
    decreases fields.len(),
{
    if n == fields.len() {
        assert(fields.take(n) =~= fields);
    } else {
        assert(fields.drop_last().take(n) =~= fields.take(n));
        lemma_build_map_prefix(fields.drop_last(), n);
    }
}

/// A stanza decodes exactly when each of its fields does.
pub proof fn lemma_build_map_some(fields: Seq<RawField>)
    ensures
        build_map(fields) is Some <==> forall|i: int|
            0 <= i < fields.len() ==> (#[trigger] decode_field(fields[i])) is Some,
    decreases fields.len(),
{
    if fields.len() > 0 {
        let front = fields.drop_last();
        lemma_build_map_some(front);
        if build_map(fields) is Some {
            assert forall|i: int| 0 <= i < fields.len() implies (#[trigger] decode_field(
                fields[i],
            )) is Some by {
                if i < front.len() {
                    assert(front[i] == fields[i]);
                }
            }
        } else if build_map(front) is None {
            let i = choose|i: int|
                0 <= i < front.len() && !((#[trigger] decode_field(front[i])) is Some);
            assert(front[i] == fields[i]);
        } else {
            assert(decode_field(fields[fields.len() - 1]) is None);
        }
    }
}

/// A stanza that is built holds no name twice.
pub proof fn lemma_build_map_distinct(fields: Seq<RawField>)
    ensures
        build_map(fields) matches Some(m) ==> distinct_keys(m),
    decreases fields.len(),
{
    if fields.len() > 0 {
        lemma_build_map_distinct(fields.drop_last());
        if let (Some(m), Some((key, value))) = (
            build_map(fields.drop_last()),
            decode_field(fields.last()),
        ) {
            lemma_insert_distinct(m, key, value);
        }
    }
}

/// A document that stops decoding at some stanza does not decode as a whole.
pub proof fn lemma_build_maps_prefix(stanzas: Seq<Seq<RawField>>, n: int)
    requires
        0 <= n <= stanzas.len(),
        build_maps(stanzas.take(n)) is None,
    ensures
        build_maps(stanzas) is None,
    decreases stanzas.len(),
{
    if n == stanzas.len() {
        assert(stanzas.take(n) =~= stanzas);
    } else {
        assert(stanzas.drop_last().take(n) =~= stanzas.take(n));
        lemma_build_maps_prefix(stanzas.drop_last(), n);
    }
}

/// A document is built stanza by stanza: it has as many stanzas as there are lists
/// of fields, and each is the stanza that its fields make.
pub proof fn lemma_build_maps_each(stanzas: Seq<Seq<RawField>>)
    ensures
        build_maps(stanzas) matches Some(doc) ==> doc.len() == stanzas.len() && forall|i: int|
            0 <= i < doc.len() ==> build_map(#[trigger] stanzas[i]) == Some(doc[i]),
    decreases stanzas.len(),
{
    if stanzas.len() > 0 {
        let front = stanzas.drop_last();
        lemma_build_maps_each(front);
        if let Some(doc) = build_maps(stanzas) {
            assert forall|i: int| 0 <= i < doc.len() implies build_map(#[trigger] stanzas[i])
                == Some(doc[i]) by {
                if i < front.len() {
                    assert(front[i] == stanzas[i]);
                }
            }
        }
    }
}

/// A stanza that is built from at least one field has at least one field.
pub proof fn lemma_build_map_has_field(fields: Seq<RawField>)
    requires
        fields.len() > 0,
    ensures
        build_map(fields) matches Some(m) ==> m.len() > 0,
{
}

/// The parse gave `value`.
pub open spec fn gives<T>(result: Result<T, ParseErrorView>, value: T) -> bool {
    result == Ok::<T, ParseErrorView>(value)
}

/// The parse failed with `error`.
pub open spec fn refuses<T>(result: Result<T, ParseErrorView>, error: ParseErrorView) -> bool {
    result == Err::<T, ParseErrorView>(error)
}

/// The error for input that is left where the text should have ended.
pub open spec fn trailing(rest: Seq<u8>) -> ParseErrorView {
    ParseErrorView::Syntax(SyntaxError { input: rest, code: ErrorKind::Eof })
}

/// What parsing `text` as exactly one stanza gives.
pub open spec fn parsed_one(text: Seq<u8>) -> Result<Stanza, ParseErrorView> {
    match grammar::single_package(text) {
        Err(e) => Err(ParseErrorView::Syntax(e)),
        Ok((rest, fields)) => {
            if rest.len() > 0 {
                Err(trailing(rest))
            } else {
                match build_map(fields) {
                    Some(m) => Ok(m),
                    None => Err(ParseErrorView::Encoding),
                }
            }
        },
    }
}

/// What parsing `text` as a document gives. The empty text is the empty document.
pub open spec fn parsed_multi(text: Seq<u8>) -> Result<Seq<Stanza>, ParseErrorView> {
    if text.len() == 0 {
        Ok(Seq::empty())
    } else {
        match grammar::multi_package(text) {
            Err(e) => Err(ParseErrorView::Syntax(e)),
            Ok((rest, stanzas)) => {
                if rest.len() > 0 {
                    Err(trailing(rest))
                } else {
                    match build_maps(stanzas) {
                        Some(doc) => Ok(doc),
                        None => Err(ParseErrorView::Encoding),
                    }
                }
            },
        }
    }
}

/// A continuation line as text: two spaces, the line and a line feed.
pub open spec fn rendered_line(line: Seq<char>) -> Seq<char> {
    seq![' ', ' '] + line + seq!['\n']
}

/// The lines of a multi-line value as text, one after the other.
pub open spec fn rendered_lines(lines: Seq<Seq<char>>) -> Seq<char> {
    lines.flat_map(|line: Seq<char>| rendered_line(line))
}

/// A field as text: the name and `:`, then either a space, the value and a line
/// feed, or a line feed and the lines.
pub open spec fn rendered_field(field: (Seq<char>, ItemView)) -> Seq<char> {
    match field.1 {
        ItemView::OneLine(value) => field.0 + seq![':', ' '] + value + seq!['\n'],
        ItemView::MultiLine(lines) => field.0 + seq![':', '\n'] + rendered_lines(lines),
    }
}

/// The fields of a stanza as text, in their order.
pub open spec fn rendered_fields(m: Stanza) -> Seq<char> {
    m.flat_map(|field: (Seq<char>, ItemView)| rendered_field(field))
}

/// A stanza as text: its fields and a blank line after them.
pub open spec fn rendered_stanza(m: Stanza) -> Seq<char> {
    rendered_fields(m) + seq!['\n']
}

/// A document as text: its stanzas, in their order.
pub open spec fn rendered(doc: Seq<Stanza>) -> Seq<char> {
    doc.flat_map(|m: Stanza| rendered_stanza(m))
}

/// Writing one more line appends it.
pub proof fn lemma_rendered_lines_push(lines: Seq<Seq<char>>, line: Seq<char>)
    ensures
        rendered_lines(lines.push(line)) == rendered_lines(lines) + rendered_line(line),
{
    lemma_flat_map_push(lines, |line: Seq<char>| rendered_line(line), line);
}

/// Writing one more field appends it.
pub proof fn lemma_rendered_fields_push(m: Stanza, field: (Seq<char>, ItemView))
    ensures
        rendered_fields(m.push(field)) == rendered_fields(m) + rendered_field(field),
{
    lemma_flat_map_push(m, |field: (Seq<char>, ItemView)| rendered_field(field), field);
}

/// Writing one more stanza appends it.
pub proof fn lemma_rendered_push(doc: Seq<Stanza>, m: Stanza)
    ensures
        rendered(doc.push(m)) == rendered(doc) + rendered_stanza(m),
{
    lemma_flat_map_push(doc, |m: Stanza| rendered_stanza(m), m);
}

} // verus!
