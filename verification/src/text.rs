//! Decoding UTF-8: the step from the bytes of the grammar to the strings of a stanza.

use vstd::prelude::*;
use vstd::slice::slice_subrange;
use vstd::string::StringSliceAdditionalSpecFns;
use vstd::utf8::{
    decode_first_scalar, decode_utf8, decode_utf8_first_scalar, decode_utf8_split, encode_scalar,
    encode_utf8, encode_utf8_decode_utf8, encode_utf8_valid_utf8, is_ascii_chars,
    is_ascii_chars_encode_utf8, is_char_boundary_iff_not_is_continuation_byte,
    is_leading_byte_width_1, length_of_first_scalar, pop_first_scalar, take_first_scalar,
    valid_first_scalar, valid_utf8, valid_utf8_concat, valid_utf8_split,
};
use crate::scan::{find_byte, lemma_first_index, lemma_first_index_is, skip, split, NEWLINE};

verus! {

/// The texts that a list of strings stands for.
pub open spec fn texts(lines: Seq<String>) -> Seq<Seq<char>> {
    lines.map_values(|l: String| l@)
}

/// `std::str::from_utf8`: the bytes as a string slice where they are valid UTF-8,
/// and nothing where they are not. The string slice is made of the very same bytes.
/// This is taken from the documentation of the standard library and is not proved.
#[verifier::external_body]
pub(crate) fn from_utf8(bytes: &[u8]) -> (r: Option<&str>)
    ensures
        r is Some <==> valid_utf8(bytes@),
        r matches Some(s) ==> s.spec_bytes() == bytes@,
{
    match std::str::from_utf8(bytes) {
        Ok(s) => Some(s),
        Err(_) => None,
    }
}

/// The string that `bytes` encode, or nothing where they are not valid UTF-8.
pub fn decode(bytes: &[u8]) -> (r: Option<String>)
    ensures
        match r {
            Some(text) => valid_utf8(bytes@) && text@ == decode_utf8(bytes@),
            None => !valid_utf8(bytes@),
        },
{
    match from_utf8(bytes) {
        Some(s) => {
            proof {
                encode_utf8_decode_utf8(s@);
            }
            Some(s.to_owned())
        },
        None => None,
    }
}

/// The lines of a block: the block decoded and cut at every line feed. There is
/// always at least one line. Nothing where the block is not valid UTF-8.
pub fn decode_lines(block: &[u8]) -> (r: Option<Vec<String>>)
    ensures
        match r {
            Some(lines) => valid_utf8(block@) && texts(lines@) == split(
                decode_utf8(block@),
                '\n',
            ),
            None => !valid_utf8(block@),
        },
{
    let mut lines: Vec<String> = Vec::new();
    let mut rest = block;
    loop
        invariant
            valid_utf8(block@) <==> valid_utf8(rest@),
            valid_utf8(rest@) ==> split(decode_utf8(block@), '\n') == texts(lines@) + split(
                decode_utf8(rest@),
                '\n',
            ),
        decreases rest@.len(),
    {
        let i = find_byte(rest, NEWLINE);
        let piece = slice_subrange(rest, 0, i);
        let ghost after = rest@.skip(i + 1);
        proof {
            lemma_first_index(rest@, NEWLINE);
            assert(NEWLINE as char == '\n');
            if i < rest@.len() {
                lemma_cut_at_ascii(rest@, i as int);
            } else {
                assert(piece@ =~= rest@);
            }
            if valid_utf8(piece@) {
                assert(!piece@.contains(NEWLINE));
                lemma_ascii_absent(piece@, NEWLINE);
                if i < rest@.len() && valid_utf8(after) {
                    let text = decode_utf8(rest@);
                    let head = decode_utf8(piece@);
                    assert(text == head + seq!['\n'] + decode_utf8(after));
                    assert(text[head.len() as int] == '\n');
                    assert forall|j: int| 0 <= j < head.len() implies text[j] != '\n' by {
                        assert(text[j] == head[j]);
                    }
                    lemma_first_index_is(text, '\n', head.len() as int);
                    assert(text.take(head.len() as int) =~= head);
                    assert(text.skip(head.len() as int + 1) =~= decode_utf8(after));
                }
                if i == rest@.len() {
                    let text = decode_utf8(rest@);
                    lemma_first_index(text, '\n');
                }
            }
        }
        let line = match decode(piece) {
            Some(line) => line,
            None => {
                return None;
            },
        };
        proof {
            assert(texts(lines@.push(line)) =~= texts(lines@) + seq![line@]);
            if valid_utf8(after) {
                assert(texts(lines@) + (seq![line@] + split(decode_utf8(after), '\n')) =~= texts(
                    lines@,
                ) + seq![line@] + split(decode_utf8(after), '\n'));
            }
        }
        lines.push(line);
        if i < rest.len() {
            rest = skip(rest, i + 1);
        } else {
            return Some(lines);
        }
    }
}

/// A single ASCII byte is valid UTF-8 and decodes to the character of the same number.
pub proof fn lemma_decode_ascii_byte(b: u8)
    requires
        b < 0x80,
    ensures
        valid_utf8(seq![b]),
        decode_utf8(seq![b]) == seq![b as char],
{
    let s = seq![b];
    assert(s[0] == b);
    assert(is_leading_byte_width_1(b));
    assert(valid_first_scalar(s));
    assert(length_of_first_scalar(s) == 1);
    assert(pop_first_scalar(s) =~= Seq::<u8>::empty());
    assert(valid_utf8(pop_first_scalar(s)));
    assert(valid_utf8(s));
    assert(b & 0x7f == b) by (bit_vector)
        requires
            b < 0x80,
    ;
    assert(decode_first_scalar(s) == b as u32);
    assert(decode_utf8(pop_first_scalar(s)) =~= Seq::<char>::empty());
    assert(decode_utf8(s) =~= seq![b as char]);
}

/// Cutting at an ASCII byte: the whole is valid UTF-8 exactly when what stands
/// before the byte and what stands after it both are, and then the whole decodes
/// to the two decoded parts with the character of that byte between them.
pub proof fn lemma_cut_at_ascii(bytes: Seq<u8>, i: int)
    requires
        0 <= i < bytes.len(),
        bytes[i] < 0x80,
    ensures
        valid_utf8(bytes) <==> valid_utf8(bytes.take(i)) && valid_utf8(bytes.skip(i + 1)),
        valid_utf8(bytes) ==> decode_utf8(bytes) == decode_utf8(bytes.take(i)) + seq![
            bytes[i] as char,
        ] + decode_utf8(bytes.skip(i + 1)),
{
    let head = bytes.take(i);
    let tail = bytes.skip(i);
    let after = bytes.skip(i + 1);
    let b = bytes[i];
    lemma_decode_ascii_byte(b);
    assert(tail =~= seq![b] + after);
    assert(bytes =~= head + tail);
    if valid_utf8(head) && valid_utf8(after) {
        valid_utf8_concat(seq![b], after);
        valid_utf8_concat(head, tail);
    }
    if valid_utf8(bytes) {
        is_char_boundary_iff_not_is_continuation_byte(bytes, i);
        valid_utf8_split(bytes, i);
        decode_utf8_split(bytes, i);
        assert(tail[0] == b);
        assert(is_leading_byte_width_1(tail[0]));
        assert(length_of_first_scalar(tail) == 1);
        assert(pop_first_scalar(tail) =~= after);
        assert(b & 0x7f == b) by (bit_vector)
            requires
                b < 0x80,
        ;
        assert(decode_first_scalar(tail) == b as u32);
        assert(decode_utf8(tail) =~= seq![b as char] + decode_utf8(after));
        assert(decode_utf8(bytes) =~= decode_utf8(head) + seq![b as char] + decode_utf8(after));
    }
}

/// An ASCII character does not come out of bytes that do not hold its byte.
pub proof fn lemma_ascii_absent(bytes: Seq<u8>, b: u8)
    requires
        valid_utf8(bytes),
        b < 0x80,
        !bytes.contains(b),
    ensures
        !decode_utf8(bytes).contains(b as char),
    decreases bytes.len(),
{
    if bytes.len() > 0 {
        let rest = pop_first_scalar(bytes);
        let first = decode_first_scalar(bytes);
        assert(bytes[0] != b);
        assert forall|j: int| 0 <= j < rest.len() implies rest[j] != b by {
            assert(rest[j] == bytes[j + length_of_first_scalar(bytes)]);
        }
        lemma_ascii_absent(rest, b);
        lemma_first_scalar_not_ascii(bytes, b);
        let text = decode_utf8(bytes);
        assert(text =~= seq![first as char] + decode_utf8(rest));
        assert forall|j: int| 0 <= j < text.len() implies text[j] != b as char by {
            if j > 0 {
                assert(text[j] == decode_utf8(rest)[j - 1]);
            }
        }
    }
}

/// The first character of valid UTF-8 is not the ASCII character of `b` unless the
/// first byte is `b`.
proof fn lemma_first_scalar_not_ascii(bytes: Seq<u8>, b: u8)
    requires
        valid_utf8(bytes),
        bytes.len() > 0,
        b < 0x80,
        bytes[0] != b,
    ensures
        decode_first_scalar(bytes) as char != b as char,
{
    let first = decode_first_scalar(bytes) as char;
    if first == b as char {
        decode_utf8_first_scalar(bytes);
        let scalar = b as u32;
        assert(first as u32 == scalar);
        assert((scalar & 0x7f) as u8 == b) by (bit_vector)
            requires
                scalar == b as u32,
                b < 0x80,
        ;
        assert(encode_scalar(scalar) == seq![b]);
        assert(take_first_scalar(bytes)[0] == bytes[0]);
        assert(encode_scalar(scalar)[0] == b);
    }
}

/// Bytes that are not empty decode to a text that is not empty, and where the
/// first byte is not the ASCII byte `b`, the first character is not its character.
pub proof fn lemma_decode_first(bytes: Seq<u8>, b: u8)
    requires
        valid_utf8(bytes),
        bytes.len() > 0,
        b < 0x80,
    ensures
        decode_utf8(bytes).len() > 0,
        bytes[0] != b ==> decode_utf8(bytes)[0] != b as char,
{
    let text = decode_utf8(bytes);
    assert(text =~= seq![decode_first_scalar(bytes) as char] + decode_utf8(
        pop_first_scalar(bytes),
    ));
    if bytes[0] != b {
        lemma_first_scalar_not_ascii(bytes, b);
    }
}

/// Only the empty text is encoded by no bytes.
pub proof fn lemma_encode_empty(text: Seq<char>)
    ensures
        encode_utf8(text).len() == 0 <==> text.len() == 0,
{
    if text.len() > 0 {
        assert(encode_scalar(text[0] as u32).len() > 0);
    }
}

/// Encoding goes piece by piece.
pub proof fn lemma_encode_concat(a: Seq<char>, b: Seq<char>)
    ensures
        encode_utf8(a + b) == encode_utf8(a) + encode_utf8(b),
    decreases a.len(),
{
    if a.len() == 0 {
        assert(a + b =~= b);
        assert(encode_utf8(a) + encode_utf8(b) =~= encode_utf8(b));
    } else {
        assert((a + b).drop_first() =~= a.drop_first() + b);
        assert((a + b)[0] == a[0]);
        lemma_encode_concat(a.drop_first(), b);
        assert(encode_utf8(a + b) =~= encode_utf8(a) + encode_utf8(b));
    }
}

/// An ASCII character is encoded by the byte of the same number.
pub proof fn lemma_encode_ascii_char(c: char)
    requires
        c as u32 <= 0x7f,
    ensures
        encode_utf8(seq![c]) == seq![c as u8],
{
    let s = seq![c];
    assert(is_ascii_chars(s));
    is_ascii_chars_encode_utf8(s);
    assert(s[0] == c);
    assert(encode_utf8(s) =~= seq![c as u8]);
}

/// An ASCII byte occurs in the encoding of a text only where the text holds its
/// character.
pub proof fn lemma_encode_ascii_absent(text: Seq<char>, b: u8)
    requires
        b < 0x80,
        !text.contains(b as char),
    ensures
        !encode_utf8(text).contains(b),
{
    let bytes = encode_utf8(text);
    encode_utf8_valid_utf8(text);
    encode_utf8_decode_utf8(text);
    if bytes.contains(b) {
        let i = choose|i: int| 0 <= i < bytes.len() && bytes[i] == b;
        lemma_cut_at_ascii(bytes, i);
        let k = decode_utf8(bytes.take(i)).len() as int;
        assert(text[k] == b as char);
    }
}

/// A text that is not empty is encoded by at least one byte, and where the first
/// byte is an ASCII byte, the first character is its character.
pub proof fn lemma_encode_first(text: Seq<char>, b: u8)
    requires
        text.len() > 0,
        b < 0x80,
    ensures
        encode_utf8(text).len() > 0,
        encode_utf8(text)[0] == b ==> text[0] == b as char,
{
    let bytes = encode_utf8(text);
    assert(encode_scalar(text[0] as u32).len() > 0);
    encode_utf8_valid_utf8(text);
    encode_utf8_decode_utf8(text);
    if bytes[0] == b {
        lemma_cut_at_ascii(bytes, 0);
        assert(bytes.take(0) =~= Seq::<u8>::empty());
        assert(decode_utf8(bytes.take(0)) =~= Seq::<char>::empty());
    }
}

} // verus!
