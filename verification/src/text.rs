//! Building blocks for text: what is assumed of the standard library's
//! strings, where a run of bytes ends in an unfinished UTF-8 sequence, and
//! character classes.

use vstd::prelude::*;
use vstd::std_specs::iter::IteratorSpec;
use vstd::utf8::*;

verus! {

/// The text that `String::from_utf8_lossy` makes of a byte sequence. For
/// bytes that are not valid UTF-8 the text holds replacement characters in
/// places that this library does not describe.
pub uninterp spec fn utf8_lossy_text(bytes: Seq<u8>) -> Seq<char>;

/// Decodes bytes with `String::from_utf8_lossy`.
///
/// Assumed: the result depends on the bytes alone, and valid UTF-8 is decoded
/// as it stands.
#[verifier::external_body]
fn decode_lossy(bytes: &[u8]) -> (text: String)
    ensures
        text@ == utf8_lossy_text(bytes@),
        valid_utf8(bytes@) ==> text@ == decode_utf8(bytes@),
{
    String::from_utf8_lossy(bytes).into_owned()
}

/// The text that a chunk of bytes is read as: valid UTF-8 is decoded, and
/// anything else is decoded with losses.
pub open spec fn decoded_text(bytes: Seq<u8>) -> Seq<char> {
    if valid_utf8(bytes) {
        decode_utf8(bytes)
    } else {
        utf8_lossy_text(bytes)
    }
}

/// Reads a chunk of bytes as text.
pub fn decode(bytes: &[u8]) -> (text: String)
    ensures
        text@ == decoded_text(bytes@),
{
    decode_lossy(bytes)
}

/// How many bytes the UTF-8 sequence has that `lead` begins; 1 for a byte
/// that begins none.
pub open spec fn sequence_width(lead: u8) -> int {
    if is_leading_byte_width_2(lead) {
        2
    } else if is_leading_byte_width_3(lead) {
        3
    } else if is_leading_byte_width_4(lead) {
        4
    } else {
        1
    }
}

/// How many bytes at the end of `bytes` belong to a UTF-8 sequence that has
/// begun and is not complete: a leading byte, continuation bytes after it,
/// and fewer of both than the leading byte asks for.
pub open spec fn unfinished_len(bytes: Seq<u8>) -> int {
    let n = bytes.len() as int;
    if n >= 1 && sequence_width(bytes[n - 1]) > 1 {
        1
    } else if n >= 2 && is_continuation_byte(bytes[n - 1]) && sequence_width(bytes[n - 2]) > 2 {
        2
    } else if n >= 3 && is_continuation_byte(bytes[n - 1]) && is_continuation_byte(bytes[n - 2])
        && sequence_width(bytes[n - 3]) > 3 {
        3
    } else {
        0
    }
}

/// The length of `bytes` without what its end holds of an unfinished
/// sequence.
pub open spec fn finished_len(bytes: Seq<u8>) -> int {
    bytes.len() - unfinished_len(bytes)
}

/// Tells how many bytes the sequence has that `lead` begins.
fn width_of(lead: u8) -> (width: usize)
    ensures
        width == sequence_width(lead),
{
    if 0xc0 <= lead && lead <= 0xdf {
        2
    } else if 0xe0 <= lead && lead <= 0xef {
        3
    } else if 0xf0 <= lead && lead <= 0xf7 {
        4
    } else {
        1
    }
}

/// Tells whether `byte` is a continuation byte.
fn is_continuation(byte: u8) -> (b: bool)
    ensures
        b == is_continuation_byte(byte),
{
    0x80 <= byte && byte <= 0xbf
}

/// Counts the bytes of `bytes` up to the unfinished sequence at its end.
pub fn finished_length(bytes: &Vec<u8>) -> (complete: usize)
    ensures
        complete == finished_len(bytes@),
        complete <= bytes@.len(),
{
    let n = bytes.len();
    if n >= 1 && width_of(bytes[n - 1]) > 1 {
        n - 1
    } else if n >= 2 && is_continuation(bytes[n - 1]) && width_of(bytes[n - 2]) > 2 {
        n - 2
    } else if n >= 3 && is_continuation(bytes[n - 1]) && is_continuation(bytes[n - 2])
        && width_of(bytes[n - 3]) > 3 {
        n - 3
    } else {
        n
    }
}

/// In valid UTF-8 no character is cut where an unfinished sequence is cut
/// off a prefix: what stands before the cut is a character boundary.
pub proof fn lemma_finished_len_is_boundary(whole: Seq<u8>, m: int)
    requires
        valid_utf8(whole),
        0 <= m <= whole.len(),
    ensures
        is_char_boundary(whole, finished_len(whole.take(m))),
    decreases whole.len(),
{
    if m > 0 {
        let w = length_of_first_scalar(whole);
        let tail = pop_first_scalar(whole);
        assert(valid_first_scalar(whole));
        assert(valid_utf8(tail));
        assert(w <= whole.len());
        let front = whole.take(m);
        if m >= w {
            lemma_finished_len_is_boundary(tail, m - w);
            let rest = tail.take(m - w);
            assert(rest.len() == m - w);
            assert forall|i: int| 0 <= i < m - w implies rest[i] == front[i + w] by {}
            if m - w > 0 {
                assert(valid_first_scalar(tail));
                assert(!is_continuation_byte(tail[0]));
                assert(front[w] == tail[0]);
            }
            assert(unfinished_len(front) == unfinished_len(rest));
            assert(finished_len(front) == finished_len(rest) + w);
        } else {
            assert(unfinished_len(front) == m);
        }
    } else {
        assert(whole.take(0).len() == 0);
    }
}

/// Encoding a text piece by piece gives the encoding of the whole.
pub proof fn lemma_encode_utf8_concat(a: Seq<char>, b: Seq<char>)
    ensures
        encode_utf8(a + b) == encode_utf8(a) + encode_utf8(b),
    decreases a.len(),
{
    if a.len() == 0 {
        assert(a + b == b);
    } else {
        assert((a + b).drop_first() == a.drop_first() + b);
        lemma_encode_utf8_concat(a.drop_first(), b);
    }
}

/// Assumed of `String::push`: it appends the character to the end.
pub assume_specification[ String::push ](s: &mut String, ch: char)
    ensures
        final(s)@ == old(s)@.push(ch),
;

/// The characters with the Unicode property `White_Space`.
pub open spec fn is_whitespace(c: char) -> bool {
    ||| '\u{9}' <= c <= '\u{d}'
    ||| c == ' '
    ||| c == '\u{85}'
    ||| c == '\u{a0}'
    ||| c == '\u{1680}'
    ||| '\u{2000}' <= c <= '\u{200a}'
    ||| c == '\u{2028}'
    ||| c == '\u{2029}'
    ||| c == '\u{202f}'
    ||| c == '\u{205f}'
    ||| c == '\u{3000}'
}

/// Tells whether `c` is a whitespace character.
pub fn char_is_whitespace(c: char) -> (b: bool)
    ensures
        b == is_whitespace(c),
{
    ('\u{9}' <= c && c <= '\u{d}') || c == ' ' || c == '\u{85}' || c == '\u{a0}' || c == '\u{1680}'
        || ('\u{2000}' <= c && c <= '\u{200a}') || c == '\u{2028}' || c == '\u{2029}' || c
        == '\u{202f}' || c == '\u{205f}' || c == '\u{3000}'
}

/// The texts of a sequence of strings.
pub open spec fn texts(strings: Seq<String>) -> Seq<Seq<char>> {
    Seq::new(strings.len(), |i: int| strings[i]@)
}

/// The text of a string that may be missing.
pub open spec fn option_text(s: Option<String>) -> Option<Seq<char>> {
    match s {
        Some(s) => Some(s@),
        None => None,
    }
}

/// The characters of a string, one by one.
pub fn chars_of(s: &str) -> (chars: Vec<char>)
    ensures
        chars@ == s@,
{
    let mut iter = s.chars();
    let mut chars: Vec<char> = Vec::new();
    loop
        invariant
            iter.obeys_prophetic_iter_laws(),
            chars@.len() <= s@.len(),
            chars@ + iter.remaining() == s@,
        decreases s@.len() - chars@.len(),
    {
        let ghost before = iter.remaining();
        match iter.next() {
            Some(c) => {
                chars.push(c);
                assert(before == seq![c] + iter.remaining());
                assert(chars@.drop_last() + before == s@);
                assert(chars@ + iter.remaining() =~= chars@.drop_last() + before);
            },
            None => {
                assert(chars@ + iter.remaining() =~= chars@);
                return chars;
            },
        }
    }
}

/// Writes the UTF-8 encoding of `text` to the end of `writer`.
pub fn write_text(writer: &mut Vec<u8>, text: &str)
    ensures
        final(writer)@ == old(writer)@ + encode_utf8(text@),
{
    let mut bytes = text.as_bytes_vec();
    writer.append(&mut bytes);
}

} // verus!
