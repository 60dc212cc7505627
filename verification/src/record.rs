//! One line of the tagged format.
//!
//! A line wraps one entry in markup of fixed width: 92 bytes in front of the
//! headword, the two characters `">` between headword and translation, and
//! 10 bytes behind the translation.

use vstd::prelude::*;
use vstd::string::StringSliceAdditionalSpecFns;
use vstd::utf8::{decode_utf8, encode_utf8, is_char_boundary, is_leading_byte_width_1, valid_utf8};
use crate::error::VocabError;

verus! {

/// The number of bytes in front of the headword.
pub const PREFIX_LEN: usize = 92;

/// The number of bytes behind the translation.
pub const SUFFIX_LEN: usize = 10;

/// The number of bytes between headword and translation.
pub const DELIMITER_LEN: usize = 2;

/// The first byte of the delimiter, a double quote.
pub const DELIMITER_QUOTE: u8 = 0x22;

/// The second byte of the delimiter, a closing angle bracket.
pub const DELIMITER_BRACKET: u8 = 0x3e;

/// Whether the delimiter stands at place `at` of `bytes`.
pub open spec fn delimiter_at(bytes: Seq<u8>, at: int) -> bool {
    &&& 0 <= at
    &&& at + 1 < bytes.len()
    &&& bytes[at] == DELIMITER_QUOTE
    &&& bytes[at + 1] == DELIMITER_BRACKET
}

/// Whether the delimiter stands at place `at` of `text`, as characters.
pub open spec fn delimiter_in_text_at(text: Seq<char>, at: int) -> bool {
    &&& 0 <= at
    &&& at + 1 < text.len()
    &&& text[at] == '"'
    &&& text[at + 1] == '>'
}

/// Whether `text` holds the delimiter anywhere.
pub open spec fn holds_delimiter(text: Seq<char>) -> bool {
    exists|at: int| delimiter_in_text_at(text, at)
}

/// The place of the first delimiter at or behind `from`, if there is one.
pub open spec fn first_delimiter(bytes: Seq<u8>, from: int) -> Option<int>
    decreases bytes.len() - from,
{
    if from < 0 || from + 1 >= bytes.len() {
        None
    } else if delimiter_at(bytes, from) {
        Some(from)
    } else {
        first_delimiter(bytes, from + 1)
    }
}

/// The headword and the translation in what follows the prefix of a line,
/// both as written: the headword is what stands in front of the first
/// delimiter, the translation what stands between that delimiter and the
/// suffix. `None` where there is no delimiter, where fewer than 10 bytes
/// follow it, or where the suffix would begin inside a character.
pub open spec fn body_fields(body: Seq<u8>) -> Option<(Seq<char>, Seq<char>)> {
    match first_delimiter(body, 0) {
        None => None,
        Some(at) => {
            let end = body.len() - SUFFIX_LEN;
            if at + DELIMITER_LEN > end || !is_char_boundary(body, end) {
                None
            } else {
                Some(
                    (
                        decode_utf8(body.subrange(0, at)),
                        decode_utf8(body.subrange(at + DELIMITER_LEN, end)),
                    ),
                )
            }
        },
    }
}

/// The headword and the translation that a line of the tagged format holds,
/// both as written, or `None` where the line does not have the layout: where
/// it is shorter than its prefix, where the prefix would end inside a
/// character, or where what follows the prefix holds no two fields.
pub open spec fn tagged_fields(line: Seq<char>) -> Option<(Seq<char>, Seq<char>)> {
    let bytes = encode_utf8(line);
    if bytes.len() < PREFIX_LEN || !is_char_boundary(bytes, PREFIX_LEN as int) {
        None
    } else {
        body_fields(bytes.subrange(PREFIX_LEN as int, bytes.len() as int))
    }
}

/// The first delimiter is a delimiter, and none stands between the start of
/// the search and it; where there is no first one, there is none at all.
pub proof fn lemma_first_delimiter(bytes: Seq<u8>, from: int)
    requires
        0 <= from,
    ensures
        match first_delimiter(bytes, from) {
            Some(at) => from <= at && delimiter_at(bytes, at) && forall|i: int|
                from <= i < at ==> !delimiter_at(bytes, i),
            None => forall|i: int| from <= i ==> !delimiter_at(bytes, i),
        },
    decreases bytes.len() - from,
{
    if from + 1 < bytes.len() && !delimiter_at(bytes, from) {
        lemma_first_delimiter(bytes, from + 1);
    }
}

/// In front of a character boundary the boundaries of the text are those of
/// what precedes the boundary.
proof fn lemma_boundary_prefix(bytes: Seq<u8>, end: int, at: int)
    requires
        valid_utf8(bytes),
        is_char_boundary(bytes, end),
        0 <= at <= end <= bytes.len(),
    ensures
        valid_utf8(bytes.subrange(0, end)),
        is_char_boundary(bytes, at) == is_char_boundary(bytes.subrange(0, end), at),
{
    let head = bytes.subrange(0, end);
    vstd::utf8::valid_utf8_split(bytes, end);
    if at < end {
        vstd::utf8::is_char_boundary_iff_not_is_continuation_byte(head, at);
        vstd::utf8::is_char_boundary_iff_not_is_continuation_byte(bytes, at);
        assert(head[at] == bytes[at]);
    } else {
        vstd::utf8::is_char_boundary_start_end_of_seq(head);
    }
}

/// In well-formed text a character of one byte begins and ends on a
/// character boundary.
proof fn lemma_boundary_around_ascii(bytes: Seq<u8>, at: int)
    requires
        valid_utf8(bytes),
        0 <= at < bytes.len(),
        is_leading_byte_width_1(bytes[at]),
    ensures
        is_char_boundary(bytes, at),
        is_char_boundary(bytes, at + 1),
{
    vstd::utf8::is_char_boundary_iff_is_leading_byte(bytes, at);
    vstd::utf8::valid_utf8_split(bytes, at);
    let tail = bytes.subrange(at, bytes.len() as int);
    assert(tail[0] == bytes[at]);
    assert(is_char_boundary(tail, 1)) by {
        reveal_with_fuel(is_char_boundary, 2);
        reveal_with_fuel(valid_utf8, 2);
    }
    if at + 1 < bytes.len() {
        vstd::utf8::is_char_boundary_iff_not_is_continuation_byte(tail, 1);
        vstd::utf8::is_char_boundary_iff_not_is_continuation_byte(bytes, at + 1);
        assert(tail[1] == bytes[at + 1]);
    } else {
        vstd::utf8::is_char_boundary_start_end_of_seq(bytes);
    }
}

/// The bytes of a text are the bytes of its parts, one after the other.
pub proof fn lemma_encode_concat(a: Seq<char>, b: Seq<char>)
    ensures
        encode_utf8(a + b) == encode_utf8(a) + encode_utf8(b),
    decreases a.len(),
{
    if a.len() == 0 {
        assert(a + b =~= b);
        assert(encode_utf8(a) + encode_utf8(b) =~= encode_utf8(b));
    } else {
        assert((a + b).drop_first() =~= a.drop_first() + b);
        lemma_encode_concat(a.drop_first(), b);
        assert(encode_utf8(a + b) =~= encode_utf8(a) + encode_utf8(b));
    }
}

/// Where two texts meet, their bytes meet on a character boundary.
pub proof fn lemma_boundary_between(a: Seq<char>, b: Seq<char>)
    ensures
        is_char_boundary(encode_utf8(a + b), encode_utf8(a).len() as int),
{
    let bytes = encode_utf8(a + b);
    let at = encode_utf8(a).len() as int;
    lemma_encode_concat(a, b);
    vstd::utf8::encode_utf8_valid_utf8(a + b);
    if b.len() == 0 {
        assert(encode_utf8(b) =~= Seq::<u8>::empty());
        vstd::utf8::is_char_boundary_start_end_of_seq(bytes);
    } else {
        vstd::utf8::encode_utf8_first_scalar(b);
        assert(bytes[at] == encode_utf8(b)[0]);
        vstd::utf8::is_char_boundary_iff_not_is_continuation_byte(bytes, at);
    }
}

/// A byte below 128 at the head of a text is the first character of the
/// text.
proof fn lemma_ascii_head(text: Seq<char>)
    requires
        text.len() > 0,
        encode_utf8(text)[0] < 0x80,
    ensures
        text[0] as u32 == encode_utf8(text)[0] as u32,
        encode_utf8(text) == seq![encode_utf8(text)[0]] + encode_utf8(text.drop_first()),
{
    let bytes = encode_utf8(text);
    let head = bytes[0];
    vstd::utf8::encode_utf8_first_scalar(text);
    assert(head & 0x7f == head) by (bit_vector)
        requires
            head < 0x80,
    ;
    assert(vstd::utf8::encode_scalar(text[0] as u32).len() == 1);
    assert(bytes =~= seq![head] + encode_utf8(text.drop_first()));
}

/// A text that holds no delimiter holds none in its bytes.
proof fn lemma_no_delimiter_in_bytes(text: Seq<char>, at: int)
    requires
        !holds_delimiter(text),
    ensures
        !delimiter_at(encode_utf8(text), at),
    decreases text.len(),
{
    let bytes = encode_utf8(text);
    if text.len() > 0 && delimiter_at(bytes, at) {
        let rest = text.drop_first();
        vstd::utf8::char_is_scalar(text[0]);
        let first = vstd::utf8::encode_scalar(text[0] as u32);
        vstd::utf8::encode_utf8_first_scalar(text);
        assert(bytes =~= first + encode_utf8(rest));
        if at >= first.len() {
            assert forall|i: int| !delimiter_in_text_at(rest, i) by {
                if delimiter_in_text_at(rest, i) {
                    assert(delimiter_in_text_at(text, i + 1));
                }
            }
            assert(encode_utf8(rest)[at - first.len()] == bytes[at]);
            assert(encode_utf8(rest)[at - first.len() + 1] == bytes[at + 1]);
            assert(delimiter_at(encode_utf8(rest), at - first.len()));
            lemma_no_delimiter_in_bytes(rest, at - first.len());
        } else if at == 0 {
            lemma_ascii_head(text);
            assert(first.len() == 1);
            assert(encode_utf8(rest)[0] == bytes[1]);
            lemma_ascii_head(rest);
            vstd::utf8::char_u32_cast(text[0], 0x22u32);
            vstd::utf8::char_u32_cast('"', 0x22u32);
            vstd::utf8::char_u32_cast(rest[0], 0x3eu32);
            vstd::utf8::char_u32_cast('>', 0x3eu32);
            assert(text[1] == rest[0]);
            assert(delimiter_in_text_at(text, 0));
        }
    }
}

/// A line without the delimiter behind its prefix is malformed.
pub proof fn lemma_no_delimiter_is_malformed(line: Seq<char>)
    requires
        forall|i: int| PREFIX_LEN <= i ==> !delimiter_at(encode_utf8(line), i),
    ensures
        tagged_fields(line) is None,
{
    let bytes = encode_utf8(line);
    if bytes.len() >= PREFIX_LEN {
        let body = bytes.subrange(PREFIX_LEN as int, bytes.len() as int);
        lemma_first_delimiter(body, 0);
        assert forall|i: int| 0 <= i implies !delimiter_at(body, i) by {
            if delimiter_at(body, i) {
                assert(body[i] == bytes[PREFIX_LEN + i]);
                assert(body[i + 1] == bytes[PREFIX_LEN + i + 1]);
                assert(delimiter_at(bytes, PREFIX_LEN + i));
            }
        }
    }
}

/// A line that holds no delimiter is malformed.
pub proof fn lemma_line_without_delimiter(line: Seq<char>)
    requires
        !holds_delimiter(line),
    ensures
        tagged_fields(line) is None,
{
    assert forall|i: int| PREFIX_LEN <= i implies !delimiter_at(encode_utf8(line), i) by {
        lemma_no_delimiter_in_bytes(line, i);
    }
    lemma_no_delimiter_is_malformed(line);
}

/// A line laid out as the format asks is taken apart into what it was made
/// of: behind a prefix of 92 bytes, a headword that holds no delimiter of
/// its own, the delimiter, a translation and a suffix of 10 bytes give back
/// the headword and the translation.
pub proof fn lemma_tagged_line(
    prefix: Seq<char>,
    word: Seq<char>,
    translation: Seq<char>,
    suffix: Seq<char>,
)
    requires
        encode_utf8(prefix).len() == PREFIX_LEN,
        encode_utf8(suffix).len() == SUFFIX_LEN,
        !holds_delimiter(word),
    ensures
        tagged_fields(prefix + word + seq!['"', '>'] + translation + suffix) == Some(
            (word, translation),
        ),
{
    let delimiter = seq!['"', '>'];
    let fields = word + delimiter + translation;
    let body = fields + suffix;
    let line = prefix + word + delimiter + translation + suffix;
    assert(line =~= prefix + body);
    lemma_encode_concat(prefix, body);
    lemma_boundary_between(prefix, body);
    let bytes = encode_utf8(line);
    let behind = bytes.subrange(PREFIX_LEN as int, bytes.len() as int);
    assert(behind =~= encode_utf8(body));

    lemma_encode_concat(fields, suffix);
    lemma_boundary_between(fields, suffix);
    lemma_encode_concat(word + delimiter, translation);
    lemma_encode_concat(word, delimiter);
    assert(encode_utf8(delimiter) =~= seq![DELIMITER_QUOTE, DELIMITER_BRACKET]) by {
        assert(vstd::utf8::is_ascii_chars(delimiter));
        vstd::utf8::is_ascii_chars_encode_utf8(delimiter);
    }
    let n = encode_utf8(word).len() as int;
    let end = behind.len() - SUFFIX_LEN;
    assert(end == n + DELIMITER_LEN + encode_utf8(translation).len());
    assert(behind =~= encode_utf8(word) + seq![DELIMITER_QUOTE, DELIMITER_BRACKET] + encode_utf8(
        translation,
    ) + encode_utf8(suffix));
    assert(delimiter_at(behind, n));
    assert forall|i: int| 0 <= i < n implies !delimiter_at(behind, i) by {
        if i + 1 < n {
            lemma_no_delimiter_in_bytes(word, i);
            assert(behind[i] == encode_utf8(word)[i]);
            assert(behind[i + 1] == encode_utf8(word)[i + 1]);
        } else {
            assert(behind[n] == DELIMITER_QUOTE);
        }
    }
    lemma_first_delimiter(behind, 0);
    assert(first_delimiter(behind, 0) == Some(n));
    assert(behind.subrange(0, n) =~= encode_utf8(word));
    assert(behind.subrange(n + DELIMITER_LEN, end) =~= encode_utf8(translation));
    vstd::utf8::encode_utf8_decode_utf8(word);
    vstd::utf8::encode_utf8_decode_utf8(translation);
}

/// Finds the first delimiter in `bytes`.
fn find_delimiter(bytes: &[u8]) -> (found: Option<usize>)
    ensures
        match found {
            Some(at) => first_delimiter(bytes@, 0) == Some(at as int),
            None => first_delimiter(bytes@, 0) is None,
        },
{
    let len = bytes.len();
    let mut at: usize = 0;
    while len - at > 1
        invariant
            at <= len,
            len == bytes@.len(),
            first_delimiter(bytes@, 0) == first_delimiter(bytes@, at as int),
        decreases len - at,
    {
        if bytes[at] == DELIMITER_QUOTE && bytes[at + 1] == DELIMITER_BRACKET {
            return Some(at);
        }
        at += 1;
    }
    None
}

/// Takes what follows the prefix of a line apart into headword and
/// translation.
fn parse_body(body: &str) -> (fields: Option<(String, String)>)
    ensures
        match fields {
            Some((word, translation)) => body_fields(body.spec_bytes()) == Some(
                (word@, translation@),
            ),
            None => body_fields(body.spec_bytes()) is None,
        },
{
    let bytes = body.as_bytes();
    let len = bytes.len();
    proof {
        vstd::utf8::encode_utf8_valid_utf8(body@);
        lemma_first_delimiter(bytes@, 0);
    }
    let at = match find_delimiter(bytes) {
        Some(at) => at,
        None => { return None; },
    };
    if len - at < DELIMITER_LEN + SUFFIX_LEN {
        return None;
    }
    let end = len - SUFFIX_LEN;
    if !body.is_char_boundary(end) {
        return None;
    }
    proof {
        lemma_boundary_around_ascii(bytes@, at as int);
        lemma_boundary_around_ascii(bytes@, at + 1);
        lemma_boundary_prefix(bytes@, end as int, at as int);
        lemma_boundary_prefix(bytes@, end as int, at + DELIMITER_LEN);
    }
    let (front, _) = body.split_at(end);
    let (word, _) = front.split_at(at);
    let (_, translation) = front.split_at(at + DELIMITER_LEN);
    proof {
        assert(word.spec_bytes() =~= bytes@.subrange(0, at as int));
        assert(translation.spec_bytes() =~= bytes@.subrange(at + DELIMITER_LEN, end as int));
        vstd::utf8::encode_utf8_decode_utf8(word@);
        vstd::utf8::encode_utf8_decode_utf8(translation@);
    }
    Some((word.to_owned(), translation.to_owned()))
}

/// Takes a line of the tagged format apart into headword and translation,
/// both as written.
pub fn parse_tagged(line: &str) -> (fields: Result<(String, String), VocabError>)
    ensures
        match fields {
            Ok((word, translation)) => tagged_fields(line@) == Some((word@, translation@)),
            Err(e) => e == VocabError::MalformedRecord && tagged_fields(line@) is None,
        },
{
    if line.as_bytes().len() < PREFIX_LEN || !line.is_char_boundary(PREFIX_LEN) {
        return Err(VocabError::MalformedRecord);
    }
    let (_, body) = line.split_at(PREFIX_LEN);
    match parse_body(body) {
        Some(fields) => Ok(fields),
        None => Err(VocabError::MalformedRecord),
    }
}

} // verus!
