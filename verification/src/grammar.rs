//! The grammar, as functions on byte sequences.
//!
//! A recognizer takes the input that is left and gives either what it read
//! together with the input after it, or the error. Nothing here is executable:
//! the functions of [`crate::parser`] are proved to compute these.

use vstd::prelude::*;
use crate::error::{ErrorKind, SyntaxError};
use crate::scan::{
    first_index, first_pair, is_blank, is_whitespace, join, lemma_first_index, lemma_first_pair,
    lemma_run_len, run_len, COLON, DASH, NEWLINE, SPACE,
};

verus! {

/// What a recognizer gives: the input that is left and the value read, or the error.
pub type Parsed<T> = Result<(Seq<u8>, T), SyntaxError>;

/// One field as the grammar reads it, before any decoding.
pub struct RawField {
    /// The name, up to the `:`.
    pub key: Seq<u8>,
    /// What stands after the separator on the line of the name.
    pub line: Seq<u8>,
    /// The continuation lines that follow, joined by line feeds.
    pub block: Seq<u8>,
}

/// A name as the grammar gives it: not empty, not beginning with a space or a line
/// feed, and without `:`.
pub open spec fn plain_key(key: Seq<u8>) -> bool {
    &&& key.len() > 0
    &&& key[0] != SPACE
    &&& key[0] != NEWLINE
    &&& !key.contains(COLON)
}

/// A line as the grammar gives it: without a line feed, and not beginning with a
/// blank.
pub open spec fn plain_line(line: Seq<u8>) -> bool {
    &&& !line.contains(NEWLINE)
    &&& line.len() > 0 ==> !is_blank(line[0])
}

/// The recognizer read `value` and left `rest`.
pub open spec fn reads<T>(result: Parsed<T>, rest: Seq<u8>, value: T) -> bool {
    result == Ok::<(Seq<u8>, T), SyntaxError>((rest, value))
}

/// The recognizer failed with `error`.
pub open spec fn fails<T>(result: Parsed<T>, error: SyntaxError) -> bool {
    result == Err::<(Seq<u8>, T), SyntaxError>(error)
}

/// The failure of the recognizer `code` on `input`.
pub open spec fn fail<T>(input: Seq<u8>, code: ErrorKind) -> Parsed<T> {
    Err(SyntaxError { input, code })
}

/// The bytes before the first `b`; the input that is left begins with that `b`.
pub open spec fn take_until(s: Seq<u8>, b: u8) -> Parsed<Seq<u8>> {
    let i = first_index(s, b);
    if 0 <= i < s.len() {
        Ok((s.skip(i), s.take(i)))
    } else {
        fail(s, ErrorKind::TakeUntil)
    }
}

/// A line: the bytes before the first line feed, which is consumed with them.
pub open spec fn single_line(s: Seq<u8>) -> Parsed<Seq<u8>> {
    let i = first_index(s, NEWLINE);
    if 0 <= i < s.len() {
        Ok((s.skip(i + 1), s.take(i)))
    } else {
        fail(s, ErrorKind::TakeUntil)
    }
}

/// A continuation line: one space, then a line. The space is not part of what is read.
pub open spec fn multi_line_single(s: Seq<u8>) -> Parsed<Seq<u8>> {
    if s.len() > 0 && s[0] == SPACE {
        single_line(s.skip(1))
    } else {
        fail(s, ErrorKind::Tag)
    }
}

/// As many continuation lines as follow each other, and the input after the last.
pub open spec fn multi_line(s: Seq<u8>) -> (Seq<u8>, Seq<Seq<u8>>)
    decreases s.len(),
    via multi_line_terminates
{
    match multi_line_single(s) {
        Ok((rest, line)) => (multi_line(rest).0, seq![line] + multi_line(rest).1),
        Err(_) => (s, Seq::empty()),
    }
}

#[via_fn]
proof fn multi_line_terminates(s: Seq<u8>) {
    lemma_multi_line_single(s);
}

/// The continuation lines at the start of the input as one block, joined by line
/// feeds. The lines are only looked at: the input that is left is the whole input.
pub open spec fn multi_to_one(s: Seq<u8>) -> (Seq<u8>, Seq<u8>) {
    (s, join(multi_line(s).1, NEWLINE))
}

/// The input after the continuation lines that stand before a field name.
pub open spec fn handle_key_name(s: Seq<u8>) -> Seq<u8> {
    multi_line(s).0
}

/// A field name that may be empty: after any continuation lines, the bytes up to the
/// first `:`.
pub open spec fn handle_key(s: Seq<u8>) -> Parsed<Seq<u8>> {
    take_until(handle_key_name(s), COLON)
}

/// A field name: as `handle_key`, but not empty and not beginning with a line feed.
pub open spec fn key_name(s: Seq<u8>) -> Parsed<Seq<u8>> {
    match handle_key(s) {
        Ok((rest, key)) => {
            if key.len() > 0 && key[0] != NEWLINE {
                Ok((rest, key))
            } else {
                fail(s, ErrorKind::Verify)
            }
        },
        Err(e) => Err(e),
    }
}

/// The separator: a `:` and the spaces and tabs that follow it.
pub open spec fn separator(s: Seq<u8>) -> Parsed<()> {
    if s.len() > 0 && s[0] == COLON {
        Ok((s.skip(1 + run_len(s.skip(1), |b: u8| is_blank(b))), ()))
    } else {
        fail(s, ErrorKind::Char)
    }
}

/// The value of a field: the rest of the line, and the block of continuation lines
/// that follow it. Only the line is consumed.
pub open spec fn value_field(s: Seq<u8>) -> Parsed<(Seq<u8>, Seq<u8>)> {
    match single_line(s) {
        Ok((rest, line)) => Ok((rest, (line, multi_to_one(rest).1))),
        Err(e) => Err(e),
    }
}

/// One field: name, separator, value.
pub open spec fn key_value(s: Seq<u8>) -> Parsed<RawField> {
    match key_name(s) {
        Ok((after_key, key)) => match separator(after_key) {
            Ok((after_separator, _)) => match value_field(after_separator) {
                Ok((rest, (line, block))) => Ok((rest, RawField { key, line, block })),
                Err(e) => Err(e),
            },
            Err(e) => Err(e),
        },
        Err(e) => Err(e),
    }
}

/// As many fields as follow each other, and the input after the last.
pub open spec fn fields(s: Seq<u8>) -> (Seq<u8>, Seq<RawField>)
    decreases s.len(),
    via fields_terminates
{
    match key_value(s) {
        Ok((rest, field)) => (fields(rest).0, seq![field] + fields(rest).1),
        Err(_) => (s, Seq::empty()),
    }
}

#[via_fn]
proof fn fields_terminates(s: Seq<u8>) {
    lemma_key_value(s);
}

/// The input after the whitespace at its start.
pub open spec fn skip_whitespace(s: Seq<u8>) -> Seq<u8> {
    s.skip(run_len(s, |b: u8| is_whitespace(b)))
}

/// One stanza: one field or more, then the continuation lines of the last field
/// and all whitespace after them.
pub open spec fn single_package(s: Seq<u8>) -> Parsed<Seq<RawField>> {
    match key_value(s) {
        Ok(_) => Ok((skip_whitespace(handle_key_name(fields(s).0)), fields(s).1)),
        Err(e) => Err(e),
    }
}

/// One comment block: `--`, then anything up to the first `-` that a line feed
/// follows, and these two bytes.
pub open spec fn comment_block(s: Seq<u8>) -> Parsed<Seq<u8>> {
    if s.len() >= 2 && s[0] == DASH && s[1] == DASH {
        let i = first_pair(s.skip(2), DASH, NEWLINE);
        if 0 <= i < s.len() - 2 {
            Ok((s.skip(i + 4), s.subrange(2, i + 2)))
        } else {
            fail(s.skip(2), ErrorKind::TakeUntil)
        }
    } else {
        fail(s, ErrorKind::Tag)
    }
}

/// The input after the comment blocks at its start.
pub open spec fn comment(s: Seq<u8>) -> Seq<u8>
    decreases s.len(),
    via comment_terminates
{
    match comment_block(s) {
        Ok((rest, _)) => comment(rest),
        Err(_) => s,
    }
}

#[via_fn]
proof fn comment_terminates(s: Seq<u8>) {
    lemma_comment_block(s);
}

/// One stanza with the comment blocks before it.
pub open spec fn commented_package(s: Seq<u8>) -> Parsed<Seq<RawField>> {
    single_package(comment(s))
}

/// As many stanzas as follow each other, each with the comment blocks before
/// it, and the input after the last.
pub open spec fn packages(s: Seq<u8>) -> (Seq<u8>, Seq<Seq<RawField>>)
    decreases s.len(),
    via packages_terminates
{
    match commented_package(s) {
        Ok((rest, stanza)) => (packages(rest).0, seq![stanza] + packages(rest).1),
        Err(_) => (s, Seq::empty()),
    }
}

#[via_fn]
proof fn packages_terminates(s: Seq<u8>) {
    lemma_commented_package(s);
}

/// A document: one stanza or more, each with the comment blocks before it.
pub open spec fn multi_package(s: Seq<u8>) -> Parsed<Seq<Seq<RawField>>> {
    match commented_package(s) {
        Ok(_) => Ok(packages(s)),
        Err(e) => Err(e),
    }
}

/// A line and the input that is left make up the input again, with the line feed
/// between them, and the line holds no line feed. Where there is no line feed in the
/// input, there is no line.
pub proof fn lemma_single_line(s: Seq<u8>)
    ensures
        match single_line(s) {
            Ok((rest, line)) => {
                &&& s == line + seq![NEWLINE] + rest
                &&& !line.contains(NEWLINE)
            },
            Err(e) => !s.contains(NEWLINE) && e == (SyntaxError {
                input: s,
                code: ErrorKind::TakeUntil,
            }),
        },
{
    lemma_first_index(s, NEWLINE);
    if let Ok((rest, line)) = single_line(s) {
        assert(s =~= line + seq![NEWLINE] + rest);
    }
}

/// A continuation line consumes at least two bytes, and the line and the input
/// that is left make up the input again.
pub proof fn lemma_multi_line_single(s: Seq<u8>)
    ensures
        match multi_line_single(s) {
            Ok((rest, line)) => {
                &&& s == seq![SPACE] + line + seq![NEWLINE] + rest
                &&& !line.contains(NEWLINE)
            },
            Err(e) => e.input.len() <= s.len(),
        },
{
    if s.len() > 0 && s[0] == SPACE {
        lemma_single_line(s.skip(1));
        if let Ok((rest, line)) = single_line(s.skip(1)) {
            assert(s =~= seq![SPACE] + s.skip(1));
            assert(seq![SPACE] + (line + seq![NEWLINE] + rest) =~= seq![SPACE] + line + seq![
                NEWLINE,
            ] + rest);
        }
    }
}

/// The bytes that `take_until` reads hold no `b`, and the input that is left
/// begins with `b`. It fails exactly where `b` does not occur.
pub proof fn lemma_take_until(s: Seq<u8>, b: u8)
    ensures
        match take_until(s, b) {
            Ok((rest, read)) => {
                &&& s == read + rest
                &&& !read.contains(b)
                &&& rest.len() > 0
                &&& rest[0] == b
            },
            Err(e) => !s.contains(b) && e == (SyntaxError {
                input: s,
                code: ErrorKind::TakeUntil,
            }),
        },
{
    lemma_first_index(s, b);
    if let Ok((rest, read)) = take_until(s, b) {
        assert(s =~= read + rest);
    }
}

/// The continuation lines at the start of the input leave no more than the input.
pub proof fn lemma_multi_line(s: Seq<u8>)
    ensures
        multi_line(s).0.len() <= s.len(),
    decreases s.len(),
{
    lemma_multi_line_single(s);
    if let Ok((rest, _)) = multi_line_single(s) {
        lemma_multi_line(rest);
    }
}

/// A field name is not empty, does not begin with a line feed and holds no `:`;
/// the input that is left begins with the `:`.
pub proof fn lemma_key_name(s: Seq<u8>)
    ensures
        key_name(s) matches Ok((rest, key)) ==> {
            &&& handle_key_name(s) == key + rest
            &&& key.len() > 0
            &&& key[0] != NEWLINE
            &&& !key.contains(COLON)
            &&& rest.len() > 0
            &&& rest[0] == COLON
            &&& key.len() + rest.len() <= s.len()
        },
{
    lemma_multi_line(s);
    lemma_take_until(handle_key_name(s), COLON);
}

/// The separator consumes the `:` and the blanks after it, and what is left
/// begins with no blank.
pub proof fn lemma_separator(s: Seq<u8>)
    ensures
        separator(s) matches Ok((rest, _)) ==> {
            &&& rest.len() < s.len()
            &&& rest.len() > 0 ==> !is_blank(rest[0])
        },
{
    if s.len() > 0 && s[0] == COLON {
        lemma_run_len(s.skip(1), |b: u8| is_blank(b));
    }
}

/// Where the continuation lines end, no continuation line begins.
pub proof fn lemma_multi_line_stops(s: Seq<u8>)
    ensures
        multi_line_single(multi_line(s).0) is Err,
    decreases s.len(),
{
    lemma_multi_line_single(s);
    if let Ok((rest, _)) = multi_line_single(s) {
        lemma_multi_line_stops(rest);
    }
}

/// A field takes at least three bytes: a name, the `:` and the line feed. Its name
/// and its line are plain.
pub proof fn lemma_key_value(s: Seq<u8>)
    ensures
        key_value(s) matches Ok((rest, field)) ==> {
            &&& rest.len() + 3 <= s.len()
            &&& plain_key(field.key)
            &&& plain_line(field.line)
        },
{
    lemma_key_name(s);
    if let Ok((after_key, key)) = key_name(s) {
        lemma_separator(after_key);
        if let Ok((after_separator, _)) = separator(after_key) {
            lemma_single_line(after_separator);
            if let Ok((rest, line)) = single_line(after_separator) {
                if line.len() > 0 {
                    assert(line[0] == after_separator[0]);
                }
                // a name that began with a space would have been a continuation line
                let start = handle_key_name(s);
                lemma_multi_line_stops(s);
                if key[0] == SPACE {
                    assert(start[0] == SPACE);
                    lemma_run_len(after_key.skip(1), |b: u8| is_blank(b));
                    let skipped = 1 + run_len(after_key.skip(1), |b: u8| is_blank(b));
                    let at = key.len() + skipped + line.len();
                    assert(after_separator == after_key.skip(skipped));
                    assert(after_separator[line.len() as int] == NEWLINE);
                    assert(start[at] == NEWLINE);
                    assert(start.skip(1)[at - 1] == NEWLINE);
                    lemma_first_index(start.skip(1), NEWLINE);
                }
            }
        }
    }
}

/// Each field has a plain name and a plain line.
pub open spec fn plain_names_and_lines(fields: Seq<RawField>) -> bool {
    forall|i: int|
        0 <= i < fields.len() ==> plain_key((#[trigger] fields[i]).key) && plain_line(
            fields[i].line,
        )
}

/// The fields at the start of the input leave no more than the input, and their
/// names and lines are plain.
pub proof fn lemma_fields(s: Seq<u8>)
    ensures
        fields(s).0.len() <= s.len(),
        key_value(s) is Ok ==> fields(s).1.len() > 0 && fields(s).0.len() + 3 <= s.len(),
        plain_names_and_lines(fields(s).1),
    decreases s.len(),
{
    lemma_key_value(s);
    if let Ok((rest, field)) = key_value(s) {
        lemma_fields(rest);
        let all = fields(s).1;
        assert forall|i: int| 0 <= i < all.len() implies plain_key((#[trigger] all[i]).key)
            && plain_line(all[i].line) by {
            if i > 0 {
                assert(all[i] == fields(rest).1[i - 1]);
            }
        }
    }
}

/// A stanza has at least one field and takes at least three bytes. The names and
/// lines of its fields are plain, and what is left does not begin with whitespace.
pub proof fn lemma_single_package(s: Seq<u8>)
    ensures
        single_package(s) matches Ok((rest, stanza)) ==> {
            &&& stanza.len() > 0
            &&& rest.len() + 3 <= s.len()
            &&& rest.len() > 0 ==> !is_whitespace(rest[0])
            &&& plain_names_and_lines(stanza)
        },
{
    lemma_fields(s);
    let after_fields = fields(s).0;
    lemma_multi_line(after_fields);
    lemma_run_len(handle_key_name(after_fields), |b: u8| is_whitespace(b));
}

/// A comment block takes at least four bytes.
pub proof fn lemma_comment_block(s: Seq<u8>)
    ensures
        comment_block(s) matches Ok((rest, _)) ==> rest.len() + 4 <= s.len(),
{
    if s.len() >= 2 {
        lemma_first_pair(s.skip(2), DASH, NEWLINE);
    }
}

/// The comment blocks at the start of the input leave no more than the input.
pub proof fn lemma_comment(s: Seq<u8>)
    ensures
        comment(s).len() <= s.len(),
    decreases s.len(),
{
    lemma_comment_block(s);
    if let Ok((rest, _)) = comment_block(s) {
        lemma_comment(rest);
    }
}

/// A stanza with its comment blocks takes at least three bytes, and the names and
/// lines of its fields are plain.
pub proof fn lemma_commented_package(s: Seq<u8>)
    ensures
        commented_package(s) matches Ok((rest, stanza)) ==> {
            &&& stanza.len() > 0
            &&& rest.len() + 3 <= s.len()
            &&& plain_names_and_lines(stanza)
        },
{
    lemma_comment(s);
    lemma_single_package(comment(s));
}

/// The stanzas at the start of the input leave no more than the input. Each has a
/// field, and the names and lines of its fields are plain.
pub proof fn lemma_packages(s: Seq<u8>)
    ensures
        packages(s).0.len() <= s.len(),
        commented_package(s) is Ok ==> packages(s).1.len() > 0,
        forall|i: int|
            0 <= i < packages(s).1.len() ==> (#[trigger] packages(s).1[i]).len() > 0
                && plain_names_and_lines(packages(s).1[i]),
    decreases s.len(),
{
    lemma_commented_package(s);
    if let Ok((rest, _)) = commented_package(s) {
        lemma_packages(rest);
        let all = packages(s).1;
        assert forall|i: int| 0 <= i < all.len() implies (#[trigger] all[i]).len() > 0
            && plain_names_and_lines(all[i]) by {
            if i > 0 {
                assert(all[i] == packages(rest).1[i - 1]);
            }
        }
    }
}

} // verus!
