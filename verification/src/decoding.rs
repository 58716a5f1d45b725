//! The grammar cuts valid UTF-8 into valid UTF-8.
//!
//! Every cut that the grammar makes is at an ASCII byte, so what it reads from
//! valid UTF-8 and what it leaves is valid UTF-8 again. A text therefore never
//! fails to decode: [`lemma_text_decodes`].

use vstd::prelude::*;
use vstd::utf8::{encode_utf8, encode_utf8_valid_utf8, valid_utf8, valid_utf8_concat};
use crate::error::ParseErrorView;
use crate::grammar::{
    comment, comment_block, commented_package, fields, handle_key_name, key_name, key_value,
    lemma_comment_block, lemma_key_value, lemma_commented_package, lemma_multi_line_single,
    multi_line, multi_line_single, multi_package, packages, separator, single_line,
    single_package, take_until, RawField,
};
use crate::model::{build_map, build_maps, decode_field, parsed_multi, parsed_one, refuses};
use crate::scan::{
    first_index, first_pair, is_blank, is_whitespace, join, lemma_first_index, lemma_first_pair,
    lemma_run_len, pair_at, run_len, COLON, DASH, NEWLINE,
};
use crate::text::{lemma_cut_at_ascii, lemma_decode_ascii_byte};

verus! {

/// The name, the line and the block of the field are valid UTF-8.
pub open spec fn valid_field(field: RawField) -> bool {
    valid_utf8(field.key) && valid_utf8(field.line) && valid_utf8(field.block)
}

/// All fields are valid UTF-8.
pub open spec fn valid_fields(fields: Seq<RawField>) -> bool {
    forall|i: int| 0 <= i < fields.len() ==> valid_field(#[trigger] fields[i])
}

/// All lines are valid UTF-8.
pub open spec fn valid_lines(lines: Seq<Seq<u8>>) -> bool {
    forall|i: int| 0 <= i < lines.len() ==> valid_utf8(#[trigger] lines[i])
}

/// Valid UTF-8 without some ASCII bytes at its start is valid UTF-8.
pub proof fn lemma_skip_ascii(s: Seq<u8>, n: int)
    requires
        valid_utf8(s),
        0 <= n <= s.len(),
        forall|j: int| 0 <= j < n ==> s[j] < 0x80,
    ensures
        valid_utf8(s.skip(n)),
{
    if n == 0 {
        assert(s.skip(0) =~= s);
    } else {
        lemma_cut_at_ascii(s, n - 1);
    }
}

/// What `take_until` reads from valid UTF-8 up to an ASCII byte, and what it leaves,
/// is valid UTF-8.
pub proof fn lemma_take_until_valid(s: Seq<u8>, b: u8)
    requires
        valid_utf8(s),
        b < 0x80,
    ensures
        take_until(s, b) matches Ok((rest, read)) ==> valid_utf8(rest) && valid_utf8(read),
{
    lemma_first_index(s, b);
    let i = first_index(s, b);
    if i < s.len() {
        lemma_cut_at_ascii(s, i);
        lemma_decode_ascii_byte(b);
        valid_utf8_concat(seq![b], s.skip(i + 1));
        assert(s.skip(i) =~= seq![b] + s.skip(i + 1));
    }
}

/// A line of valid UTF-8, and what is left after it, is valid UTF-8.
pub proof fn lemma_single_line_valid(s: Seq<u8>)
    requires
        valid_utf8(s),
    ensures
        single_line(s) matches Ok((rest, line)) ==> valid_utf8(rest) && valid_utf8(line),
{
    lemma_first_index(s, NEWLINE);
    let i = first_index(s, NEWLINE);
    if i < s.len() {
        lemma_cut_at_ascii(s, i);
    }
}

/// The continuation lines of valid UTF-8, and what is left after them, are valid
/// UTF-8.
pub proof fn lemma_multi_line_valid(s: Seq<u8>)
    requires
        valid_utf8(s),
    ensures
        valid_utf8(multi_line(s).0),
        valid_lines(multi_line(s).1),
    decreases s.len(),
{
    lemma_multi_line_single(s);
    if let Ok((rest, line)) = multi_line_single(s) {
        lemma_skip_ascii(s, 1);
        lemma_single_line_valid(s.skip(1));
        lemma_multi_line_valid(rest);
        let lines = multi_line(s).1;
        assert forall|i: int| 0 <= i < lines.len() implies valid_utf8(#[trigger] lines[i]) by {
            if i > 0 {
                assert(lines[i] == multi_line(rest).1[i - 1]);
            }
        }
    }
}

/// Valid lines joined by line feeds are valid UTF-8.
pub proof fn lemma_join_valid(lines: Seq<Seq<u8>>)
    requires
        valid_lines(lines),
    ensures
        valid_utf8(join(lines, NEWLINE)),
    decreases lines.len(),
{
    if lines.len() == 0 {
    } else if lines.len() == 1 {
        assert(valid_utf8(lines[0]));
    } else {
        let front = lines.drop_last();
        assert forall|i: int| 0 <= i < front.len() implies valid_utf8(#[trigger] front[i]) by {
            assert(front[i] == lines[i]);
        }
        lemma_join_valid(front);
        lemma_decode_ascii_byte(NEWLINE);
        valid_utf8_concat(join(front, NEWLINE), seq![NEWLINE]);
        assert(valid_utf8(lines[lines.len() - 1]));
        valid_utf8_concat(join(front, NEWLINE) + seq![NEWLINE], lines.last());
    }
}

/// A field that is read from valid UTF-8, and what is left after it, is valid UTF-8.
pub proof fn lemma_key_value_valid(s: Seq<u8>)
    requires
        valid_utf8(s),
    ensures
        key_value(s) matches Ok((rest, field)) ==> valid_utf8(rest) && valid_field(field),
{
    lemma_multi_line_valid(s);
    lemma_take_until_valid(handle_key_name(s), COLON);
    if let Ok((after_key, key)) = key_name(s) {
        if let Ok((after_separator, _)) = separator(after_key) {
            let blanks = run_len(after_key.skip(1), |b: u8| is_blank(b));
            lemma_run_len(after_key.skip(1), |b: u8| is_blank(b));
            assert forall|j: int| 0 <= j < 1 + blanks implies after_key[j] < 0x80 by {
                if j > 0 {
                    assert(after_key[j] == after_key.skip(1)[j - 1]);
                    assert(is_blank(after_key.skip(1)[j - 1]));
                }
            }
            lemma_skip_ascii(after_key, 1 + blanks);
            lemma_single_line_valid(after_separator);
            if let Ok((rest, _)) = single_line(after_separator) {
                lemma_multi_line_valid(rest);
                lemma_join_valid(multi_line(rest).1);
            }
        }
    }
}

/// The fields that are read from valid UTF-8, and what is left after them, are
/// valid UTF-8.
pub proof fn lemma_fields_valid(s: Seq<u8>)
    requires
        valid_utf8(s),
    ensures
        valid_utf8(fields(s).0),
        valid_fields(fields(s).1),
    decreases s.len(),
{
    lemma_key_value(s);
    lemma_key_value_valid(s);
    if let Ok((rest, _)) = key_value(s) {
        lemma_fields_valid(rest);
        let all = fields(s).1;
        assert forall|i: int| 0 <= i < all.len() implies valid_field(#[trigger] all[i]) by {
            if i > 0 {
                assert(all[i] == fields(rest).1[i - 1]);
            }
        }
    }
}

/// A stanza that is read from valid UTF-8, and what is left after it, is valid
/// UTF-8.
pub proof fn lemma_single_package_valid(s: Seq<u8>)
    requires
        valid_utf8(s),
    ensures
        single_package(s) matches Ok((rest, stanza)) ==> valid_utf8(rest) && valid_fields(stanza),
{
    lemma_fields_valid(s);
    let after_fields = fields(s).0;
    lemma_multi_line_valid(after_fields);
    let after_lines = handle_key_name(after_fields);
    lemma_run_len(after_lines, |b: u8| is_whitespace(b));
    lemma_skip_ascii(after_lines, run_len(after_lines, |b: u8| is_whitespace(b)));
}

/// What is left of valid UTF-8 after its comment blocks is valid UTF-8.
pub proof fn lemma_comment_valid(s: Seq<u8>)
    requires
        valid_utf8(s),
    ensures
        valid_utf8(comment(s)),
    decreases s.len(),
{
    lemma_comment_block(s);
    if let Ok((rest, _)) = comment_block(s) {
        let i = first_pair(s.skip(2), DASH, NEWLINE);
        lemma_first_pair(s.skip(2), DASH, NEWLINE);
        assert(pair_at(s.skip(2), i, DASH, NEWLINE));
        assert(s[i + 3] == s.skip(2)[i + 1]);
        lemma_cut_at_ascii(s, i + 3);
        lemma_comment_valid(rest);
    }
}

/// The stanzas that are read from valid UTF-8 are valid UTF-8.
pub proof fn lemma_packages_valid(s: Seq<u8>)
    requires
        valid_utf8(s),
    ensures
        forall|i: int| 0 <= i < packages(s).1.len() ==> valid_fields(#[trigger] packages(s).1[i]),
    decreases s.len(),
{
    lemma_commented_package(s);
    lemma_comment_valid(s);
    lemma_single_package_valid(comment(s));
    if let Ok((rest, _)) = commented_package(s) {
        lemma_packages_valid(rest);
        let all = packages(s).1;
        assert forall|i: int| 0 <= i < all.len() implies valid_fields(#[trigger] all[i]) by {
            if i > 0 {
                assert(all[i] == packages(rest).1[i - 1]);
            }
        }
    }
}

/// Fields that are valid UTF-8 build a stanza.
pub proof fn lemma_build_map_valid(fields: Seq<RawField>)
    requires
        valid_fields(fields),
    ensures
        build_map(fields) is Some,
{
    crate::model::lemma_build_map_some(fields);
    assert forall|i: int| 0 <= i < fields.len() implies (#[trigger] decode_field(
        fields[i],
    )) is Some by {
        assert(valid_field(fields[i]));
    }
}

/// Stanzas that are valid UTF-8 build a document.
pub proof fn lemma_build_maps_valid(stanzas: Seq<Seq<RawField>>)
    requires
        forall|i: int| 0 <= i < stanzas.len() ==> valid_fields(#[trigger] stanzas[i]),
    ensures
        build_maps(stanzas) is Some,
    decreases stanzas.len(),
{
    if stanzas.len() > 0 {
        let front = stanzas.drop_last();
        assert forall|i: int| 0 <= i < front.len() implies valid_fields(#[trigger] front[i]) by {
            assert(front[i] == stanzas[i]);
        }
        lemma_build_maps_valid(front);
        assert(valid_fields(stanzas[stanzas.len() - 1]));
        lemma_build_map_valid(stanzas.last());
    }
}

/// A text never fails to decode: parsing the bytes of a text gives a stanza, a
/// document or a syntax error.
pub proof fn lemma_text_decodes(text: Seq<char>)
    ensures
        !refuses(parsed_one(encode_utf8(text)), ParseErrorView::Encoding),
        !refuses(parsed_multi(encode_utf8(text)), ParseErrorView::Encoding),
{
    let bytes = encode_utf8(text);
    encode_utf8_valid_utf8(text);
    lemma_single_package_valid(bytes);
    if let Ok((_, stanza)) = single_package(bytes) {
        lemma_build_map_valid(stanza);
    }
    lemma_packages_valid(bytes);
    if let Ok((_, stanzas)) = multi_package(bytes) {
        lemma_build_maps_valid(stanzas);
    }
}

} // verus!
