//! Parser and serializer for stanza-based `Key: Value` text, the format of Debian
//! package metadata.
//!
//! A document is a list of stanzas separated by blank lines. A stanza is an ordered
//! map from field names to values, and a value is one line or a list of continuation
//! lines. [`parse_one`] and [`parse_multi`] read text, [`parse_back`] writes it.
//! What they compute is defined in [`model`] over the grammar of [`grammar`], and
//! [`laws`] proves how reading and writing relate.

use vstd::prelude::*;
use vstd::slice::slice_to_vec;
use vstd::string::{StringExecFns, StringSliceAdditionalSpecFns};

pub use indexmap::IndexMap;
pub use crate::error::{ErrorKind, ParseError, ParseErrorView, SyntaxError};

use crate::decoding::lemma_text_decodes;
use crate::model::{
    build_map, build_maps, decode_field, decoded, gives, lemma_build_map_collected,
    lemma_build_map_distinct, lemma_build_map_prefix,
    lemma_build_map_has_field, lemma_build_map_some, lemma_build_maps_each,
    lemma_build_maps_prefix, lemma_rendered_fields_push,
    lemma_rendered_lines_push, lemma_rendered_push, parsed_multi, parsed_one, refuses, rendered,
    rendered_field, rendered_fields, rendered_lines,
};
use crate::parser::{document_view, field_view, multi_package, single_package, stanza_view, Field};
use crate::stanza::{
    collected, distinct_keys, document, entries, insert_entry, list_entries, new_map, Stanza,
};
use crate::text::{decode, decode_lines, lemma_encode_empty, texts};

pub mod decoding;
pub mod error;
pub mod grammar;
pub mod laws;
pub mod model;
pub mod parser;
pub mod scan;
pub mod stanza;
pub mod text;
pub mod written;

verus! {

/// The value of one field.
#[derive(Debug, PartialEq, Eq, Clone)]
pub enum Item {
    /// A value that stands on the line of its name.
    OneLine(String),
    /// A value made of continuation lines, in their order.
    MultiLine(Vec<String>),
}

/// The mathematical value of an [`Item`].
pub enum ItemView {
    OneLine(Seq<char>),
    MultiLine(Seq<Seq<char>>),
}

impl View for Item {
    type V = ItemView;

    open spec fn view(&self) -> ItemView {
        match self {
            Item::OneLine(text) => ItemView::OneLine(text@),
            Item::MultiLine(lines) => ItemView::MultiLine(texts(lines@)),
        }
    }
}

/// A syntax error: the input that was left where the grammar could not match, and
/// the recognizer that gave up.
#[derive(Debug, PartialEq, Eq, Clone)]
pub struct NomErrorWrap {
    pub input: Vec<u8>,
    pub code: ErrorKind,
}

impl View for NomErrorWrap {
    type V = SyntaxError;

    open spec fn view(&self) -> SyntaxError {
        SyntaxError { input: self.input@, code: self.code }
    }
}

/// The stanza that `fields` make.
fn build(fields: &Vec<Field>) -> (r: Result<IndexMap<String, Item>, ParseError>)
    ensures
        match r {
            Ok(m) => build_map(stanza_view(fields@)) == Some(entries(m)),
            Err(e) => build_map(stanza_view(fields@)) is None && e@ == ParseErrorView::Encoding,
        },
{
    let ghost raw = stanza_view(fields@);
    let mut result = new_map();
    let mut i: usize = 0;
    while i < fields.len()
        invariant
            i <= fields@.len(),
            raw == stanza_view(fields@),
            build_map(raw.take(i as int)) == Some(entries(result)),
        decreases fields@.len() - i,
    {
        proof {
            assert(raw.take(i + 1).drop_last() =~= raw.take(i as int));
            assert(raw.take(i + 1).last() == field_view(fields@[i as int]));
            if decode_field(raw[i as int]) is None {
                lemma_build_map_prefix(raw, i + 1);
            }
        }
        let key = match decode(fields[i].0) {
            Some(key) => key,
            None => {
                return Err(ParseError::Encoding);
            },
        };
        let line = fields[i].1.0;
        let value = if line.len() == 0 {
            match decode_lines(fields[i].1.1.as_slice()) {
                Some(lines) => Item::MultiLine(lines),
                None => {
                    return Err(ParseError::Encoding);
                },
            }
        } else {
            match decode(line) {
                Some(text) => Item::OneLine(text),
                None => {
                    return Err(ParseError::Encoding);
                },
            }
        };
        insert_entry(&mut result, key, value);
        i += 1;
    }
    assert(raw.take(i as int) =~= raw);
    Ok(result)
}

/// Builds the stanza of the fields that the grammar has read: each name and value
/// is decoded as UTF-8 and inserted in order, so that a name that occurs again keeps
/// its first place and gets the last value. A field with an empty line is
/// multi-line. Fails with `Encoding` exactly where a name or a value that is used
/// is not valid UTF-8.
pub fn to_map(parse_v: Vec<Field>) -> (r: Result<IndexMap<String, Item>, ParseError>)
    ensures
        match r {
            Ok(m) => build_map(stanza_view(parse_v@)) == Some(entries(m)),
            Err(e) => build_map(stanza_view(parse_v@)) is None && e@ == ParseErrorView::Encoding,
        },
        r is Ok <==> forall|i: int|
            0 <= i < parse_v@.len() ==> (#[trigger] decode_field(stanza_view(parse_v@)[i])) is Some,
        r matches Ok(m) ==> distinct_keys(entries(m)) && entries(m) == collected(
            decoded(stanza_view(parse_v@)),
        ),
{
    proof {
        lemma_build_map_some(stanza_view(parse_v@));
        lemma_build_map_distinct(stanza_view(parse_v@));
        lemma_build_map_collected(stanza_view(parse_v@));
    }
    build(&parse_v)
}

/// The error for input that is left where the text should have ended.
fn trailing_input(rest: &[u8]) -> (e: ParseError)
    ensures
        e@ == model::trailing(rest@),
{
    ParseError::Syntax(NomErrorWrap { input: slice_to_vec(rest), code: ErrorKind::Eof })
}

/// Parses a text that holds exactly one stanza.
///
/// The fields are read by the grammar of a stanza, which also consumes the
/// whitespace after the last field, and the stanza is built as by [`to_map`].
/// Fails with the syntax error of the first field where the text does not begin
/// with a field, and with an `Eof` syntax error that holds the rest where anything
/// is left after the stanza. A text is valid UTF-8 and so are its names and values:
/// the error is never `Encoding`.
pub fn parse_one(s: &str) -> (r: Result<IndexMap<String, Item>, ParseError>)
    ensures
        match r {
            Ok(m) => gives(parsed_one(s.spec_bytes()), entries(m)),
            Err(e) => refuses(parsed_one(s.spec_bytes()), e@),
        },
        r matches Ok(m) ==> entries(m).len() > 0 && distinct_keys(entries(m)),
        r matches Err(e) ==> e is Syntax,
{
    proof {
        lemma_text_decodes(s@);
        grammar::lemma_single_package(s.spec_bytes());
        if let Ok((_, fields)) = grammar::single_package(s.spec_bytes()) {
            lemma_build_map_distinct(fields);
            lemma_build_map_some(fields);
        }
    }
    match single_package(s.as_bytes()) {
        Ok((rest, fields)) => {
            if rest.len() > 0 {
                Err(trailing_input(rest))
            } else {
                build(&fields)
            }
        },
        Err(e) => Err(ParseError::Syntax(e)),
    }
}

/// Parses a text that holds any number of stanzas.
///
/// The empty text gives the empty document. Any other text must be one stanza or
/// more, each with any comment blocks before it and the whitespace after it, up to
/// the end of the text. Fails with the syntax error of the first stanza where
/// the text does not begin with one, and with an `Eof` syntax error that holds the
/// rest where input is left that is no stanza. A text is valid UTF-8 and so are its
/// names and values: the error is never `Encoding`.
pub fn parse_multi(s: &str) -> (r: Result<Vec<IndexMap<String, Item>>, ParseError>)
    ensures
        match r {
            Ok(maps) => gives(parsed_multi(s.spec_bytes()), document(maps@)),
            Err(e) => refuses(parsed_multi(s.spec_bytes()), e@),
        },
        s@.len() == 0 ==> (r matches Ok(maps) && maps@.len() == 0),
        r matches Ok(maps) ==> forall|i: int|
            0 <= i < maps@.len() ==> (#[trigger] entries(maps@[i])).len() > 0 && distinct_keys(
                entries(maps@[i]),
            ),
        r matches Err(e) ==> e is Syntax,
{
    let mut result: Vec<IndexMap<String, Item>> = Vec::new();
    proof {
        lemma_encode_empty(s@);
        lemma_text_decodes(s@);
    }
    if s.is_empty() {
        assert(document(result@) =~= Seq::<Stanza>::empty());
        return Ok(result);
    }
    let stanzas = match multi_package(s.as_bytes()) {
        Ok((rest, stanzas)) => {
            if rest.len() > 0 {
                return Err(trailing_input(rest));
            }
            stanzas
        },
        Err(e) => {
            return Err(ParseError::Syntax(e));
        },
    };
    let ghost raw = document_view(stanzas@);
    let mut i: usize = 0;
    while i < stanzas.len()
        invariant
            i <= stanzas@.len(),
            raw == document_view(stanzas@),
            build_maps(raw.take(i as int)) == Some(document(result@)),
            s@.len() > 0,
            !refuses(parsed_multi(s.spec_bytes()), ParseErrorView::Encoding),
            match build_maps(raw) {
                Some(doc) => gives(parsed_multi(s.spec_bytes()), doc),
                None => refuses(parsed_multi(s.spec_bytes()), ParseErrorView::Encoding),
            },
        decreases stanzas@.len() - i,
    {
        proof {
            assert(raw.take(i + 1).drop_last() =~= raw.take(i as int));
            assert(raw.take(i + 1).last() == stanza_view(stanzas@[i as int]@));
            if build_map(raw[i as int]) is None {
                lemma_build_maps_prefix(raw, i + 1);
            }
        }
        match build(&stanzas[i]) {
            Ok(m) => {
                assert(document(result@.push(m)) =~= document(result@).push(entries(m)));
                result.push(m);
            },
            Err(e) => {
                return Err(e);
            },
        }
        i += 1;
    }
    proof {
        assert(raw.take(i as int) =~= raw);
        lemma_build_maps_each(raw);
        grammar::lemma_packages(s.spec_bytes());
        assert forall|k: int| 0 <= k < result@.len() implies (#[trigger] entries(
            result@[k],
        )).len() > 0 && distinct_keys(entries(result@[k])) by {
            assert(document(result@)[k] == entries(result@[k]));
            lemma_build_map_has_field(raw[k]);
            lemma_build_map_distinct(raw[k]);
        }
    }
    Ok(result)
}

/// Appends the lines of a multi-line value to `s`, each after two spaces and before
/// a line feed.
fn write_lines(s: &mut String, lines: &Vec<String>)
    ensures
        final(s)@ == old(s)@ + rendered_lines(texts(lines@)),
{
    let ghost all = texts(lines@);
    let mut i: usize = 0;
    while i < lines.len()
        invariant
            i <= lines@.len(),
            all == texts(lines@),
            s@ == old(s)@ + rendered_lines(all.take(i as int)),
        decreases lines@.len() - i,
    {
        proof {
            reveal_strlit("  ");
            reveal_strlit("\n");
            assert(all.take(i + 1) =~= all.take(i as int).push(lines@[i as int]@));
            lemma_rendered_lines_push(all.take(i as int), lines@[i as int]@);
            assert("  "@ =~= seq![' ', ' ']);
            assert("\n"@ =~= seq!['\n']);
        }
        s.append("  ");
        s.append(lines[i].as_str());
        s.append("\n");
        assert(s@ =~= old(s)@ + rendered_lines(all.take(i + 1)));
        i += 1;
    }
    assert(all.take(i as int) =~= all);
}

/// Appends one field to `s`.
fn write_field(s: &mut String, key: &String, value: &Item)
    ensures
        final(s)@ == old(s)@ + rendered_field((key@, value@)),
{
    proof {
        reveal_strlit(":");
        reveal_strlit(" ");
        reveal_strlit("\n");
        assert(":"@ =~= seq![':']);
        assert(" "@ =~= seq![' ']);
        assert("\n"@ =~= seq!['\n']);
    }
    s.append(key.as_str());
    s.append(":");
    match value {
        Item::OneLine(text) => {
            s.append(" ");
            s.append(text.as_str());
            s.append("\n");
            assert(s@ =~= old(s)@ + (key@ + seq![':', ' '] + text@ + seq!['\n']));
        },
        Item::MultiLine(lines) => {
            s.append("\n");
            write_lines(s, lines);
            assert(s@ =~= old(s)@ + (key@ + seq![':', '\n'] + rendered_lines(texts(lines@))));
        },
    }
}

/// Writes a document as text.
///
/// Each stanza is its fields in the order of the map and a blank line after them.
/// A field is its name and `:`, then for a one-line value a space, the value and a
/// line feed, and for a multi-line value a line feed and each line after two spaces
/// and before a line feed. The document without stanzas is the empty text.
pub fn parse_back(map: &[IndexMap<String, Item>]) -> (s: String)
    ensures
        s@ == rendered(document(map@)),
{
    let ghost doc = document(map@);
    let mut s = String::new();
    let mut i: usize = 0;
    while i < map.len()
        invariant
            i <= map@.len(),
            doc == document(map@),
            s@ == rendered(doc.take(i as int)),
        decreases map@.len() - i,
    {
        let fields = list_entries(&map[i]);
        let ghost stanza = entries(map@[i as int]);
        let ghost before = s@;
        let mut j: usize = 0;
        while j < fields.len()
            invariant
                j <= fields@.len(),
                fields@.len() == stanza.len(),
                forall|k: int|
                    0 <= k < fields@.len() ==> (#[trigger] fields@[k]).0@ == stanza[k].0
                        && fields@[k].1@ == stanza[k].1,
                s@ == before + rendered_fields(stanza.take(j as int)),
            decreases fields@.len() - j,
        {
            proof {
                let field = (fields@[j as int].0@, fields@[j as int].1@);
                assert(stanza.take(j + 1) =~= stanza.take(j as int).push(field));
                lemma_rendered_fields_push(stanza.take(j as int), field);
            }
            write_field(&mut s, fields[j].0, fields[j].1);
            assert(s@ =~= before + rendered_fields(stanza.take(j + 1)));
            j += 1;
        }
        proof {
            reveal_strlit("\n");
            assert("\n"@ =~= seq!['\n']);
            assert(stanza.take(j as int) =~= stanza);
            assert(doc.take(i + 1) =~= doc.take(i as int).push(stanza));
            lemma_rendered_push(doc.take(i as int), stanza);
        }
        s.append("\n");
        i += 1;
    }
    assert(doc.take(i as int) =~= doc);
    s
}

} // verus!
