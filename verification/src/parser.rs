//! The recognizers of the grammar, on byte slices.
//!
//! Each takes the input that is left and returns what it read with the input after
//! it, as [`crate::grammar`] defines it.

use vstd::prelude::*;
use vstd::slice::{slice_subrange, slice_to_vec};
use crate::error::{ErrorKind, SyntaxError};
use crate::grammar;
use crate::grammar::{fails, reads, RawField};
use crate::scan::{
    find_byte, find_pair, is_blank, is_whitespace, join, lemma_first_pair, lemma_run_len_is, skip,
    COLON, DASH, NEWLINE, RETURN, SPACE, TAB,
};
use crate::NomErrorWrap;

verus! {

/// One field as the recognizers hand it out: the name, then the line and the block.
pub type Field<'a> = (&'a [u8], (&'a [u8], Vec<u8>));

/// The byte sequences that a list of slices stands for.
pub open spec fn lines_view(lines: Seq<&[u8]>) -> Seq<Seq<u8>> {
    lines.map_values(|l: &[u8]| l@)
}

/// The raw field that a parsed field stands for.
pub open spec fn field_view(f: Field) -> RawField {
    RawField { key: f.0@, line: f.1.0@, block: f.1.1@ }
}

/// The raw fields that a parsed stanza stands for.
pub open spec fn stanza_view(fields: Seq<Field>) -> Seq<RawField> {
    fields.map_values(|f: Field| field_view(f))
}

/// The raw stanzas that a parsed document stands for.
pub open spec fn document_view(stanzas: Seq<Vec<Field>>) -> Seq<Seq<RawField>> {
    stanzas.map_values(|s: Vec<Field>| stanza_view(s@))
}

/// The error of the recognizer `code` on `input`.
fn failure(input: &[u8], code: ErrorKind) -> (e: NomErrorWrap)
    ensures
        e@ == (SyntaxError { input: input@, code }),
{
    NomErrorWrap { input: slice_to_vec(input), code }
}

/// The bytes before the first `b`, and the input from that `b` on.
fn take_until(input: &[u8], b: u8) -> (r: Result<(&[u8], &[u8]), NomErrorWrap>)
    ensures
        match r {
            Ok((rest, read)) => reads(grammar::take_until(input@, b), rest@, read@),
            Err(e) => fails(grammar::take_until(input@, b), e@),
        },
{
    let i = find_byte(input, b);
    if i < input.len() {
        Ok((skip(input, i), slice_subrange(input, 0, i)))
    } else {
        Err(failure(input, ErrorKind::TakeUntil))
    }
}

/// Reads one line: the bytes before the first line feed. The line feed is consumed
/// and not returned. Fails where the input holds no line feed.
pub fn single_line(input: &[u8]) -> (r: Result<(&[u8], &[u8]), NomErrorWrap>)
    ensures
        match r {
            Ok((rest, line)) => {
                &&& reads(grammar::single_line(input@), rest@, line@)
                &&& input@ == line@ + seq![NEWLINE] + rest@
                &&& !line@.contains(NEWLINE)
            },
            Err(e) => {
                &&& fails(grammar::single_line(input@), e@)
                &&& !input@.contains(NEWLINE)
                &&& e@ == (SyntaxError { input: input@, code: ErrorKind::TakeUntil })
            },
        },
{
    proof {
        grammar::lemma_single_line(input@);
    }
    let i = find_byte(input, NEWLINE);
    if i < input.len() {
        Ok((skip(input, i + 1), slice_subrange(input, 0, i)))
    } else {
        Err(failure(input, ErrorKind::TakeUntil))
    }
}

/// Reads one continuation line: a space, then a line. Neither the space nor the line
/// feed is returned. Fails where the input does not begin with a space, or holds no
/// line feed after it.
pub fn multi_line_single(input: &[u8]) -> (r: Result<(&[u8], &[u8]), NomErrorWrap>)
    ensures
        match r {
            Ok((rest, line)) => {
                &&& reads(grammar::multi_line_single(input@), rest@, line@)
                &&& input@ == seq![SPACE] + line@ + seq![NEWLINE] + rest@
                &&& !line@.contains(NEWLINE)
            },
            Err(e) => fails(grammar::multi_line_single(input@), e@),
        },
{
    proof {
        grammar::lemma_multi_line_single(input@);
    }
    if input.len() > 0 && input[0] == SPACE {
        single_line(skip(input, 1))
    } else {
        Err(failure(input, ErrorKind::Tag))
    }
}

/// Reads the continuation lines at the start of the input, as many as follow each
/// other. Never fails: where there is none, nothing is consumed.
pub fn multi_line(input: &[u8]) -> (r: Result<(&[u8], Vec<&[u8]>), NomErrorWrap>)
    ensures
        r matches Ok((rest, lines)) && rest@ == grammar::multi_line(input@).0 && lines_view(lines@)
            == grammar::multi_line(input@).1,
{
    let mut rest = input;
    let mut lines: Vec<&[u8]> = Vec::new();
    loop
        invariant
            grammar::multi_line(input@).0 == grammar::multi_line(rest@).0,
            grammar::multi_line(input@).1 == lines_view(lines@) + grammar::multi_line(rest@).1,
        decreases rest@.len(),
    {
        match multi_line_single(rest) {
            Ok((after, line)) => {
                proof {
                    grammar::lemma_multi_line_single(rest@);
                    assert(lines_view(lines@.push(line)) =~= lines_view(lines@) + seq![line@]);
                    assert(lines_view(lines@) + (seq![line@] + grammar::multi_line(after@).1)
                        =~= lines_view(lines@) + seq![line@] + grammar::multi_line(after@).1);
                }
                lines.push(line);
                rest = after;
            },
            Err(_) => {
                assert(lines_view(lines@) + Seq::<Seq<u8>>::empty() =~= lines_view(lines@));
                return Ok((rest, lines));
            },
        }
    }
}

/// Appends the bytes of `bytes` to `block`.
fn append_bytes(block: &mut Vec<u8>, bytes: &[u8])
    ensures
        final(block)@ == old(block)@ + bytes@,
{
    let mut i: usize = 0;
    while i < bytes.len()
        invariant
            i <= bytes@.len(),
            block@ == old(block)@ + bytes@.take(i as int),
        decreases bytes@.len() - i,
    {
        block.push(bytes[i]);
        assert(bytes@.take(i + 1) =~= bytes@.take(i as int).push(bytes@[i as int]));
        i += 1;
    }
    assert(bytes@.take(i as int) =~= bytes@);
}

/// Reads the continuation lines at the start of the input and joins them into one
/// block, with a line feed between each two. The lines are only looked at: the input
/// that is returned is the whole input. Never fails.
pub fn multi_to_one(input: &[u8]) -> (r: Result<(&[u8], Vec<u8>), NomErrorWrap>)
    ensures
        r matches Ok((rest, block)) && rest@ == input@ && block@ == join(
            grammar::multi_line(input@).1,
            NEWLINE,
        ),
{
    let lines = match multi_line(input) {
        Ok((_, lines)) => lines,
        Err(e) => {
            return Err(e);
        },
    };
    let mut block: Vec<u8> = Vec::new();
    let mut i: usize = 0;
    while i < lines.len()
        invariant
            i <= lines@.len(),
            block@ == join(lines_view(lines@).take(i as int), NEWLINE),
        decreases lines@.len() - i,
    {
        if i > 0 {
            block.push(NEWLINE);
        }
        append_bytes(&mut block, lines[i]);
        proof {
            let done = lines_view(lines@).take(i as int);
            let next = lines_view(lines@).take(i + 1);
            assert(next.drop_last() =~= done);
            assert(next.last() == lines@[i as int]@);
            if i == 0 {
                assert(block@ =~= lines@[i as int]@);
            }
        }
        i += 1;
    }
    assert(lines_view(lines@).take(i as int) =~= lines_view(lines@));
    Ok((input, block))
}

/// Skips the continuation lines that stand before a field name. Never fails.
pub fn handle_key_name(input: &[u8]) -> (r: Result<(&[u8], ()), NomErrorWrap>)
    ensures
        r matches Ok((rest, _)) && rest@ == grammar::handle_key_name(input@),
{
    match multi_line(input) {
        Ok((rest, _)) => Ok((rest, ())),
        Err(e) => Err(e),
    }
}

/// Reads a field name that may be empty: skips the continuation lines before it and
/// returns the bytes up to the first `:`, which is not consumed. Fails where no `:`
/// follows.
pub fn handle_key(input: &[u8]) -> (r: Result<(&[u8], &[u8]), NomErrorWrap>)
    ensures
        match r {
            Ok((rest, key)) => reads(grammar::handle_key(input@), rest@, key@),
            Err(e) => fails(grammar::handle_key(input@), e@),
        },
{
    match handle_key_name(input) {
        Ok((rest, _)) => take_until(rest, COLON),
        Err(e) => Err(e),
    }
}

/// Reads a field name: as `handle_key`, and fails where the name is empty or begins
/// with a line feed. That error holds the whole input.
pub fn key_name(input: &[u8]) -> (r: Result<(&[u8], &[u8]), NomErrorWrap>)
    ensures
        match r {
            Ok((rest, key)) => {
                &&& reads(grammar::key_name(input@), rest@, key@)
                &&& key@.len() > 0
                &&& key@[0] != NEWLINE
                &&& !key@.contains(COLON)
            },
            Err(e) => fails(grammar::key_name(input@), e@),
        },
{
    proof {
        grammar::lemma_key_name(input@);
    }
    match handle_key(input) {
        Ok((rest, key)) => {
            if key.len() > 0 && key[0] != NEWLINE {
                Ok((rest, key))
            } else {
                Err(failure(input, ErrorKind::Verify))
            }
        },
        Err(e) => Err(e),
    }
}

/// Reads the separator: a `:` and the spaces and tabs after it. Fails where the
/// input does not begin with `:`.
pub fn separator(input: &[u8]) -> (r: Result<(&[u8], ()), NomErrorWrap>)
    ensures
        match r {
            Ok((rest, _)) => reads(grammar::separator(input@), rest@, ()),
            Err(e) => fails(grammar::separator(input@), e@),
        },
{
    if input.len() > 0 && input[0] == COLON {
        let mut i: usize = 1;
        while i < input.len() && (input[i] == SPACE || input[i] == TAB)
            invariant
                1 <= i <= input@.len(),
                forall|j: int| 1 <= j < i ==> is_blank(input@[j]),
            decreases input@.len() - i,
        {
            i += 1;
        }
        proof {
            lemma_run_len_is(input@.skip(1), |b: u8| is_blank(b), i - 1);
        }
        Ok((skip(input, i), ()))
    } else {
        Err(failure(input, ErrorKind::Char))
    }
}

/// Reads the value of a field: the rest of the line, and the block of the continuation
/// lines after it. Only the line is consumed. Fails where the line does not end.
pub fn value_field(input: &[u8]) -> (r: Result<(&[u8], (&[u8], Vec<u8>)), NomErrorWrap>)
    ensures
        match r {
            Ok((rest, (line, block))) => reads(
                grammar::value_field(input@),
                rest@,
                (line@, block@),
            ),
            Err(e) => fails(grammar::value_field(input@), e@),
        },
{
    match single_line(input) {
        Ok((rest, line)) => match multi_to_one(rest) {
            Ok((_, block)) => Ok((rest, (line, block))),
            Err(e) => Err(e),
        },
        Err(e) => Err(e),
    }
}

/// Reads one field: name, separator, value.
pub fn key_value(input: &[u8]) -> (r: Result<(&[u8], Field), NomErrorWrap>)
    ensures
        match r {
            Ok((rest, field)) => reads(grammar::key_value(input@), rest@, field_view(field)),
            Err(e) => fails(grammar::key_value(input@), e@),
        },
{
    let (after_key, key) = match key_name(input) {
        Ok(read) => read,
        Err(e) => {
            return Err(e);
        },
    };
    let (after_separator, _) = match separator(after_key) {
        Ok(read) => read,
        Err(e) => {
            return Err(e);
        },
    };
    match value_field(after_separator) {
        Ok((rest, value)) => Ok((rest, (key, value))),
        Err(e) => Err(e),
    }
}

/// Reads one comment block: `--`, then anything up to the first `-` that a line feed
/// follows, and these two bytes. Returns what stands between the delimiters.
fn comment_block(input: &[u8]) -> (r: Result<(&[u8], &[u8]), NomErrorWrap>)
    ensures
        match r {
            Ok((rest, body)) => reads(grammar::comment_block(input@), rest@, body@),
            Err(e) => fails(grammar::comment_block(input@), e@),
        },
{
    if input.len() >= 2 && input[0] == DASH && input[1] == DASH {
        let inner = skip(input, 2);
        let i = find_pair(inner, DASH, NEWLINE);
        if i < inner.len() {
            proof {
                lemma_first_pair(inner@, DASH, NEWLINE);
            }
            Ok((skip(input, i + 4), slice_subrange(input, 2, i + 2)))
        } else {
            Err(failure(inner, ErrorKind::TakeUntil))
        }
    } else {
        Err(failure(input, ErrorKind::Tag))
    }
}

/// Skips the comment blocks at the start of the input, as many as follow each other.
/// Never fails: where there is none, nothing is consumed.
pub fn comment(input: &[u8]) -> (r: Result<(&[u8], ()), NomErrorWrap>)
    ensures
        r matches Ok((rest, _)) && rest@ == grammar::comment(input@),
{
    let mut rest = input;
    loop
        invariant
            grammar::comment(input@) == grammar::comment(rest@),
        decreases rest@.len(),
    {
        match comment_block(rest) {
            Ok((after, _)) => {
                proof {
                    grammar::lemma_comment_block(rest@);
                }
                rest = after;
            },
            Err(_) => {
                return Ok((rest, ()));
            },
        }
    }
}

/// Skips the whitespace at the start of the input.
fn skip_whitespace(input: &[u8]) -> (rest: &[u8])
    ensures
        rest@ == grammar::skip_whitespace(input@),
{
    let mut i: usize = 0;
    while i < input.len() && (input[i] == SPACE || input[i] == TAB || input[i] == RETURN
        || input[i] == NEWLINE)
        invariant
            i <= input@.len(),
            forall|j: int| 0 <= j < i ==> is_whitespace(input@[j]),
        decreases input@.len() - i,
    {
        i += 1;
    }
    proof {
        lemma_run_len_is(input@, |b: u8| is_whitespace(b), i as int);
    }
    skip(input, i)
}

/// Reads one stanza: one field or more, in their order. The continuation lines of
/// the last field and all whitespace after them are consumed. Fails where the input
/// does not begin with a field, with the error of that field.
pub fn single_package(input: &[u8]) -> (r: Result<(&[u8], Vec<Field>), NomErrorWrap>)
    ensures
        match r {
            Ok((rest, fields)) => {
                &&& reads(grammar::single_package(input@), rest@, stanza_view(fields@))
                &&& fields@.len() > 0
            },
            Err(e) => fails(grammar::single_package(input@), e@),
        },
{
    let mut fields: Vec<Field> = Vec::new();
    let mut rest = match key_value(input) {
        Ok((after, field)) => {
            fields.push(field);
            after
        },
        Err(e) => {
            return Err(e);
        },
    };
    proof {
        grammar::lemma_key_value(input@);
        assert(stanza_view(fields@) =~= seq![grammar::key_value(input@)->Ok_0.1]);
    }
    loop
        invariant
            fields@.len() > 0,
            grammar::fields(input@).0 == grammar::fields(rest@).0,
            grammar::fields(input@).1 == stanza_view(fields@) + grammar::fields(rest@).1,
        decreases rest@.len(),
    {
        match key_value(rest) {
            Ok((after, field)) => {
                proof {
                    grammar::lemma_key_value(rest@);
                    let more = grammar::fields(after@).1;
                    assert(stanza_view(fields@.push(field)) =~= stanza_view(fields@) + seq![
                        field_view(field),
                    ]);
                    assert(stanza_view(fields@) + (seq![field_view(field)] + more) =~= stanza_view(
                        fields@,
                    ) + seq![field_view(field)] + more);
                }
                fields.push(field);
                rest = after;
            },
            Err(_) => {
                assert(stanza_view(fields@) + Seq::<RawField>::empty() =~= stanza_view(fields@));
                return match handle_key_name(rest) {
                    Ok((after, _)) => Ok((skip_whitespace(after), fields)),
                    Err(e) => Err(e),
                };
            },
        }
    }
}

/// Reads one stanza with the comment blocks before it.
fn commented_package(input: &[u8]) -> (r: Result<(&[u8], Vec<Field>), NomErrorWrap>)
    ensures
        match r {
            Ok((rest, fields)) => reads(
                grammar::commented_package(input@),
                rest@,
                stanza_view(fields@),
            ),
            Err(e) => fails(grammar::commented_package(input@), e@),
        },
{
    match comment(input) {
        Ok((rest, _)) => single_package(rest),
        Err(e) => Err(e),
    }
}

/// Reads a document: one stanza or more, each with the comment blocks before it, in
/// their order. It stops before the first input that is no stanza, which it returns.
/// Fails where the input does not begin with a stanza, with the error of that stanza.
pub fn multi_package(input: &[u8]) -> (r: Result<(&[u8], Vec<Vec<Field>>), NomErrorWrap>)
    ensures
        match r {
            Ok((rest, stanzas)) => {
                &&& reads(grammar::multi_package(input@), rest@, document_view(stanzas@))
                &&& stanzas@.len() > 0
            },
            Err(e) => fails(grammar::multi_package(input@), e@),
        },
{
    let mut stanzas: Vec<Vec<Field>> = Vec::new();
    let mut rest = match commented_package(input) {
        Ok((after, stanza)) => {
            stanzas.push(stanza);
            after
        },
        Err(e) => {
            return Err(e);
        },
    };
    proof {
        grammar::lemma_commented_package(input@);
        assert(document_view(stanzas@) =~= seq![grammar::commented_package(input@)->Ok_0.1]);
    }
    loop
        invariant
            stanzas@.len() > 0,
            grammar::packages(input@).0 == grammar::packages(rest@).0,
            grammar::packages(input@).1 == document_view(stanzas@) + grammar::packages(rest@).1,
        decreases rest@.len(),
    {
        match commented_package(rest) {
            Ok((after, stanza)) => {
                proof {
                    grammar::lemma_commented_package(rest@);
                    let more = grammar::packages(after@).1;
                    assert(document_view(stanzas@.push(stanza)) =~= document_view(stanzas@) + seq![
                        stanza_view(stanza@),
                    ]);
                    assert(document_view(stanzas@) + (seq![stanza_view(stanza@)] + more)
                        =~= document_view(stanzas@) + seq![stanza_view(stanza@)] + more);
                }
                stanzas.push(stanza);
                rest = after;
            },
            Err(_) => {
                assert(document_view(stanzas@) + Seq::<Seq<RawField>>::empty() =~= document_view(
                    stanzas@,
                ));
                return Ok((rest, stanzas));
            },
        }
    }
}

} // verus!
