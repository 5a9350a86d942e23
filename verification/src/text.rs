//! Byte-offset views of source text: character boundaries, slicing,
//! decoding single characters and Unicode white space.

use vstd::prelude::*;
use vstd::string::*;
use vstd::utf8::*;
use vstd::std_specs::iter::IteratorSpec;

verus! {

broadcast use {encode_utf8_valid_utf8, encode_utf8_decode_utf8, decode_utf8_encode_utf8};

/// std's `Clone` for `Range` (derived there): each bound is cloned.  The
/// derived `Clone` of the library's types with range fields calls it.
pub assume_specification<Idx: Clone>[ <std::ops::Range<Idx> as Clone>::clone ](
    range: &std::ops::Range<Idx>,
) -> (copy: std::ops::Range<Idx>)
    ensures
        cloned::<Idx>(range.start, copy.start),
        cloned::<Idx>(range.end, copy.end),
;

/// The UTF-8 bytes of a string.
pub open spec fn bytes_of(s: &str) -> Seq<u8> {
    s.spec_bytes()
}

/// The characters encoded by the bytes `start..end` of a valid UTF-8 text.
pub open spec fn chars_between(bytes: Seq<u8>, start: int, end: int) -> Seq<char> {
    decode_utf8(bytes.subrange(start, end))
}

/// A valid UTF-8 text split at a boundary is valid on both sides, and a
/// boundary of the right-hand part is a boundary of the whole.
pub proof fn lemma_boundary_lift(bytes: Seq<u8>, p: int, k: int)
    requires
        valid_utf8(bytes),
        is_char_boundary(bytes, p),
        0 <= p <= bytes.len(),
        is_char_boundary(bytes.subrange(p, bytes.len() as int), k),
        0 <= k <= bytes.len() - p,
    ensures
        is_char_boundary(bytes, p + k),
{
    valid_utf8_split(bytes, p);
    let sub = bytes.subrange(p, bytes.len() as int);
    is_char_boundary_start_end_of_seq(bytes);
    if p + k < bytes.len() {
        is_char_boundary_iff_not_is_continuation_byte(bytes, p + k);
        is_char_boundary_iff_not_is_continuation_byte(sub, k);
        assert(sub[k] == bytes[p + k]);
    }
}

/// The valid suffix of a valid text at a boundary.
pub proof fn lemma_suffix_valid(bytes: Seq<u8>, p: int)
    requires
        valid_utf8(bytes),
        is_char_boundary(bytes, p),
        0 <= p <= bytes.len(),
    ensures
        valid_utf8(bytes.subrange(p, bytes.len() as int)),
        valid_utf8(bytes.subrange(0, p)),
{
    valid_utf8_split(bytes, p);
}

/// The end of the first encoded character of a valid non-empty text is a
/// boundary.
pub proof fn lemma_first_scalar_boundary(bytes: Seq<u8>)
    requires
        valid_utf8(bytes),
        bytes.len() > 0,
    ensures
        valid_first_scalar(bytes),
        1 <= length_of_first_scalar(bytes) <= 4,
        length_of_first_scalar(bytes) <= bytes.len(),
        is_char_boundary(bytes, length_of_first_scalar(bytes)),
        decode_utf8(bytes)[0] == decode_first_scalar(bytes) as char,
        decode_utf8(bytes).len() > 0,
{
    reveal_with_fuel(is_char_boundary, 2);
    is_char_boundary_start_end_of_seq(pop_first_scalar(bytes));
}

/// The width in bytes of the character whose encoding starts with `lead`.
pub fn lead_width(lead: u8) -> (width: usize)
    ensures
        1 <= width <= 4,
        valid_leading_and_continuation_bytes_first_codepoint(seq![lead]) ==> width == 1,
        is_leading_byte_width_1(lead) ==> width == 1,
        is_leading_byte_width_2(lead) ==> width == 2,
        is_leading_byte_width_3(lead) ==> width == 3,
        is_leading_byte_width_4(lead) ==> width == 4,
{
    if lead <= 0x7f {
        1
    } else if 0xc0 <= lead && lead <= 0xdf {
        2
    } else if 0xe0 <= lead && lead <= 0xef {
        3
    } else {
        4
    }
}

/// The length of a string in bytes.
pub fn byte_len(s: &str) -> (n: usize)
    ensures
        n == bytes_of(s).len(),
{
    s.as_bytes().len()
}

/// The bytes `start..end` of `source` as a string slice.
pub fn substring<'a>(source: &'a str, start: usize, end: usize) -> (part: &'a str)
    requires
        start <= end <= bytes_of(source).len(),
        is_char_boundary(bytes_of(source), start as int),
        is_char_boundary(bytes_of(source), end as int),
    ensures
        bytes_of(part) == bytes_of(source).subrange(start as int, end as int),
        part@ == chars_between(bytes_of(source), start as int, end as int),
{
    let ghost bytes = bytes_of(source);
    proof {
        lemma_suffix_valid(bytes, start as int);
        let sub = bytes.subrange(start as int, bytes.len() as int);
        valid_utf8_split(bytes, end as int);
        is_char_boundary_start_end_of_seq(sub);
        if end < bytes.len() {
            is_char_boundary_iff_not_is_continuation_byte(bytes, end as int);
            is_char_boundary_iff_not_is_continuation_byte(sub, end - start);
            assert(sub[end - start] == bytes[end as int]);
        } else {
            assert(end - start == sub.len());
        }
    }
    let (_, rest) = source.split_at(start);
    proof {
        assert(is_char_boundary(bytes_of(rest), (end - start) as int));
    }
    let (part, _) = rest.split_at(end - start);
    proof {
        assert(bytes_of(part) =~= bytes.subrange(start as int, end as int));
        assert(part@ == decode_utf8(encode_utf8(part@)));
    }
    part
}

/// The character encoded at byte offset `at`.
pub fn char_at(source: &str, at: usize) -> (c: char)
    requires
        at < bytes_of(source).len(),
        is_char_boundary(bytes_of(source), at as int),
    ensures
        c == decode_first_scalar(bytes_of(source).subrange(at as int, bytes_of(source).len() as int))
            as char,
{
    broadcast use vstd::string::group_string_axioms;

    let ghost bytes = bytes_of(source);
    proof {
        lemma_suffix_valid(bytes, at as int);
        lemma_first_scalar_boundary(bytes.subrange(at as int, bytes.len() as int));
    }
    let (_, rest) = source.split_at(at);
    proof {
        assert(rest@ == decode_utf8(encode_utf8(rest@)));
        assert(bytes_of(rest) =~= bytes.subrange(at as int, bytes.len() as int));
    }
    let mut chars = rest.chars();
    let next = chars.next();
    match next {
        Some(c) => c,
        None => ' ',
    }
}

/// Whether two strings are equal.
pub fn str_equal(left: &str, right: &str) -> (equal: bool)
    ensures
        equal == (left@ == right@),
{
    let a = left.as_bytes();
    let b = right.as_bytes();
    if a.len() != b.len() {
        proof {
            assert(a@ != b@);
        }
        return false;
    }
    let mut i: usize = 0;
    while i < a.len()
        invariant
            a@ == bytes_of(left),
            b@ == bytes_of(right),
            a@.len() == b@.len(),
            i <= a@.len(),
            forall|k: int| 0 <= k < i ==> a@[k] == b@[k],
        decreases a@.len() - i,
    {
        if a[i] != b[i] {
            proof {
                assert(a@ != b@);
            }
            return false;
        }
        i = i + 1;
    }
    proof {
        assert(a@ == b@);
        assert(left@ == decode_utf8(encode_utf8(left@)));
        assert(right@ == decode_utf8(encode_utf8(right@)));
    }
    true
}

/// Unicode `White_Space`, the property that `char::is_whitespace` tests.
pub open spec fn is_white_space(c: char) -> bool {
    let v = c as u32;
    (0x09 <= v <= 0x0d) || v == 0x20 || v == 0x85 || v == 0xa0 || v == 0x1680 || (0x2000 <= v
        <= 0x200a) || v == 0x2028 || v == 0x2029 || v == 0x202f || v == 0x205f || v == 0x3000
}

pub fn white_space(c: char) -> (ws: bool)
    ensures
        ws == is_white_space(c),
{
    let v = c as u32;
    (0x09 <= v && v <= 0x0d) || v == 0x20 || v == 0x85 || v == 0xa0 || v == 0x1680 || (0x2000
        <= v && v <= 0x200a) || v == 0x2028 || v == 0x2029 || v == 0x202f || v == 0x205f || v
        == 0x3000
}

/// Appends a character to a string: std's `String::push`, which extends
/// the string by exactly that character.
#[verifier::external_body]
pub(crate) fn push_char(text: &mut String, c: char)
    ensures
        final(text)@ == old(text)@.push(c),
{
    text.push(c);
}

/// The encoding of two texts one after the other is the concatenation of
/// their encodings.
pub proof fn lemma_encode_concat(a: Seq<char>, b: Seq<char>)
    ensures
        encode_utf8(a + b) == encode_utf8(a) + encode_utf8(b),
    decreases a.len(),
{
    if a.len() == 0 {
        assert(a + b =~= b);
        assert(encode_utf8(a) =~= Seq::<u8>::empty());
        assert(encode_utf8(a) + encode_utf8(b) =~= encode_utf8(b));
    } else {
        lemma_encode_concat(a.drop_first(), b);
        assert((a + b).drop_first() =~= a.drop_first() + b);
        assert((a + b)[0] == a[0]);
        assert(encode_utf8(a + b) =~= encode_scalar(a[0] as u32) + encode_utf8(a.drop_first() + b));
    }
}

/// Two valid texts that agree on their first `limit` bytes agree on which
/// offsets short of `limit` are character boundaries.
pub proof fn lemma_boundary_agrees(a: Seq<u8>, b: Seq<u8>, p: int, limit: int)
    requires
        valid_utf8(a),
        valid_utf8(b),
        0 <= p < limit,
        limit <= a.len(),
        limit <= b.len(),
        a.subrange(0, limit) == b.subrange(0, limit),
    ensures
        is_char_boundary(a, p) == is_char_boundary(b, p),
{
    assert(a[p] == a.subrange(0, limit)[p]);
    assert(b[p] == b.subrange(0, limit)[p]);
    is_char_boundary_iff_not_is_continuation_byte(a, p);
    is_char_boundary_iff_not_is_continuation_byte(b, p);
}

/// The end of the first of two valid texts is a boundary of their
/// concatenation.
pub proof fn lemma_concat_boundary(a: Seq<u8>, b: Seq<u8>)
    requires
        valid_utf8(a),
        valid_utf8(b),
    ensures
        valid_utf8(a + b),
        is_char_boundary(a + b, a.len() as int),
{
    valid_utf8_concat(a, b);
    if b.len() == 0 {
        assert(a + b =~= a);
        is_char_boundary_start_end_of_seq(a);
    } else {
        is_char_boundary_start_end_of_seq(b);
        is_char_boundary_iff_not_is_continuation_byte(b, 0);
        assert((a + b)[a.len() as int] == b[0]);
        is_char_boundary_iff_not_is_continuation_byte(a + b, a.len() as int);
    }
}

/// The characters of a string slice.
pub fn chars_of(s: &str) -> (chars: Vec<char>)
    ensures
        chars@ == s@,
{
    broadcast use vstd::string::group_string_axioms;

    let mut chars: Vec<char> = Vec::new();
    let mut iter = s.chars();
    let ghost total = iter.remaining();
    loop
        invariant
            total == s@,
            iter.obeys_prophetic_iter_laws(),
            total == chars@ + iter.remaining(),
            iter.decrease() is Some,
        decreases iter.decrease()->0,
    {
        let ghost before = iter.remaining();
        match iter.next() {
            Some(c) => {
                chars.push(c);
                assert(total == chars@ + iter.remaining());
            },
            None => {
                assert(chars@ == total);
                return chars;
            },
        }
    }
}

/// A string holding exactly the given characters.
pub fn string_from_chars(chars: &[char]) -> (text: String)
    ensures
        text@ == chars@,
{
    let mut text = String::new();
    let mut i: usize = 0;
    while i < chars.len()
        invariant
            i <= chars@.len(),
            text@ == chars@.subrange(0, i as int),
        decreases chars@.len() - i,
    {
        push_char(&mut text, chars[i]);
        i = i + 1;
        assert(text@ == chars@.subrange(0, i as int));
    }
    assert(chars@.subrange(0, chars@.len() as int) == chars@);
    text
}

/// The character the escape `\c` stands for: `\n`, `\r` and `\t` are the
/// control characters, any other escaped character stands for itself.
pub open spec fn unescaped(c: char) -> char {
    if c == 'n' {
        '\n'
    } else if c == 'r' {
        '\r'
    } else if c == 't' {
        '\t'
    } else {
        c
    }
}

/// `prefix` before the characters of `rest`, where there are any.
pub open spec fn prefixed(prefix: Seq<char>, rest: Option<Seq<char>>) -> Option<Seq<char>> {
    match rest {
        Some(tail) => Some(prefix + tail),
        None => None,
    }
}

/// The characters of a string literal's body `rest`, which follows the
/// opening `quote` and must end with the closing quote, which ends the text.
pub open spec fn string_body(rest: Seq<char>, quote: char) -> Option<Seq<char>>
    decreases rest.len(),
{
    if rest.len() == 0 {
        None
    } else if rest[0] == '\\' {
        if rest.len() < 2 {
            None
        } else {
            prefixed(seq![unescaped(rest[1])], string_body(rest.subrange(2, rest.len() as int), quote))
        }
    } else if rest[0] == quote {
        if rest.len() == 1 {
            Some(Seq::empty())
        } else {
            None
        }
    } else {
        prefixed(seq![rest[0]], string_body(rest.drop_first(), quote))
    }
}

/// The text a string literal written as `text` stands for: quoted with `'`
/// or `"`, escapes replaced; `None` for text that is no such literal.
pub open spec fn decoded_string(text: Seq<char>) -> Option<Seq<char>> {
    if text.len() > 0 && (text[0] == '\'' || text[0] == '"') {
        string_body(text.drop_first(), text[0])
    } else {
        None
    }
}

/// Decodes the spelling of a string literal into the text it stands for.
pub fn decode_string(value: &str) -> (decoded: Result<String, ()>)
    ensures
        match decoded {
            Ok(text) => decoded_string(value@) == Some(text@),
            Err(_) => decoded_string(value@) is None,
        },
{
    let chars = chars_of(value);
    let n = chars.len();
    if n == 0 || (chars[0] != '\'' && chars[0] != '"') {
        return Err(());
    }
    let quote = chars[0];
    let ghost whole = chars@.drop_first();
    let mut result: Vec<char> = Vec::new();
    let mut escaped = false;
    let mut i: usize = 1;
    proof {
        assert(chars@.subrange(1, n as int) =~= whole);
        assert(prefixed(Seq::empty(), string_body(whole, quote)) == string_body(whole, quote)) by {
            match string_body(whole, quote) {
                Some(tail) => assert(Seq::<char>::empty() + tail =~= tail),
                None => {},
            }
        }
    }
    while i < n
        invariant
            chars@ == value@,
            n == chars@.len(),
            1 <= i <= n,
            quote == chars@[0],
            whole == chars@.drop_first(),
            decoded_string(value@) == string_body(whole, quote),
            !escaped ==> string_body(whole, quote) == prefixed(result@, string_body(chars@.subrange(i as int, n as int), quote)),
            escaped ==> i >= 2 && chars@[i - 1] == '\\' && string_body(whole, quote) == prefixed(
                result@,
                string_body(chars@.subrange(i - 1, n as int), quote),
            ),
        decreases n - i,
    {
        let character = chars[i];
        let ghost before = result@;
        if escaped {
            let replaced = if character == 'n' {
                '\n'
            } else if character == 'r' {
                '\r'
            } else if character == 't' {
                '\t'
            } else {
                character
            };
            result.push(replaced);
            escaped = false;
            proof {
                let rest = chars@.subrange(i - 1, n as int);
                assert(rest[0] == '\\' && rest[1] == character);
                assert(rest.subrange(2, rest.len() as int) =~= chars@.subrange(i + 1, n as int));
                match string_body(chars@.subrange(i + 1, n as int), quote) {
                    Some(tail) => assert(before + (seq![replaced] + tail) =~= result@ + tail),
                    None => {},
                }
            }
        } else if character == '\\' {
            escaped = true;
        } else if character == quote {
            proof {
                let rest = chars@.subrange(i as int, n as int);
                assert(rest[0] == quote);
                assert(before + Seq::<char>::empty() =~= before);
            }
            if i + 1 == n {
                return Ok(string_from_chars(result.as_slice()));
            } else {
                return Err(());
            }
        } else {
            result.push(character);
            proof {
                let rest = chars@.subrange(i as int, n as int);
                assert(rest.drop_first() =~= chars@.subrange(i + 1, n as int));
                match string_body(chars@.subrange(i + 1, n as int), quote) {
                    Some(tail) => assert(before + (seq![character] + tail) =~= result@ + tail),
                    None => {},
                }
            }
        }
        i += 1;
    }
    proof {
        if escaped {
            assert(chars@.subrange(n - 1, n as int).len() == 1);
        } else {
            assert(chars@.subrange(n as int, n as int).len() == 0);
        }
    }
    Err(())
}

} // verus!
