//! Bytes as base64 text.

use vstd::prelude::*;
use vstd::string::*;
use base64::Engine;
use crate::text::{chars_of, text_has_char};

verus! {

/// The character of the standard base64 alphabet that stands for six bits.
pub open spec fn sextet_char(n: int) -> char {
    if n < 26 {
        ('A' as int + n) as char
    } else if n < 52 {
        ('a' as int + n - 26) as char
    } else if n < 62 {
        ('0' as int + n - 52) as char
    } else if n == 62 {
        '+'
    } else {
        '/'
    }
}

/// Bytes in base64, with the standard alphabet and padding: four characters for three bytes.
pub open spec fn base64_text(b: Seq<u8>) -> Seq<char>
    decreases b.len(),
{
    if b.len() == 0 {
        seq![]
    } else if b.len() == 1 {
        seq![sextet_char(b[0] as int / 4), sextet_char(b[0] as int % 4 * 16), '=', '=']
    } else if b.len() == 2 {
        seq![
            sextet_char(b[0] as int / 4),
            sextet_char(b[0] as int % 4 * 16 + b[1] as int / 16),
            sextet_char(b[1] as int % 16 * 4),
            '=',
        ]
    } else {
        seq![
            sextet_char(b[0] as int / 4),
            sextet_char(b[0] as int % 4 * 16 + b[1] as int / 16),
            sextet_char(b[1] as int % 16 * 4 + b[2] as int / 64),
            sextet_char(b[2] as int % 64),
        ] + base64_text(b.skip(3))
    }
}

/// The URL-safe alphabet has `-` and `_` in place of `+` and `/`.
pub open spec fn url_safe_char(c: char) -> char {
    if c == '+' {
        '-'
    } else if c == '/' {
        '_'
    } else {
        c
    }
}

/// Bytes in base64, with the URL-safe alphabet and padding.
pub open spec fn url_safe_text(b: Seq<u8>) -> Seq<char> {
    base64_text(b).map_values(|c: char| url_safe_char(c))
}

/// The six bits that a character of the standard or the URL-safe alphabet stands for.
pub open spec fn sextet(c: char, url_safe: bool) -> Option<int> {
    if 'A' <= c <= 'Z' {
        Some(c as int - 'A' as int)
    } else if 'a' <= c <= 'z' {
        Some(c as int - 'a' as int + 26)
    } else if '0' <= c <= '9' {
        Some(c as int - '0' as int + 52)
    } else if c == if url_safe { '-' } else { '+' } {
        Some(62)
    } else if c == if url_safe { '_' } else { '/' } {
        Some(63)
    } else {
        None
    }
}

/// The bytes that sextets make up: three for four. Bits that fill no byte at the end are dropped.
pub open spec fn sextet_bytes(s: Seq<int>) -> Seq<u8>
    decreases s.len(),
{
    if s.len() < 2 {
        seq![]
    } else if s.len() == 2 {
        seq![(s[0] * 4 + s[1] / 16) as u8]
    } else if s.len() == 3 {
        seq![(s[0] * 4 + s[1] / 16) as u8, (s[1] % 16 * 16 + s[2] / 4) as u8]
    } else {
        seq![
            (s[0] * 4 + s[1] / 16) as u8,
            (s[1] % 16 * 16 + s[2] / 4) as u8,
            (s[2] % 4 * 64 + s[3]) as u8,
        ] + sextet_bytes(s.skip(4))
    }
}

/// A text without the padding at its end.
pub open spec fn unpadded(text: Seq<char>) -> Seq<char>
    decreases text.len(),
{
    if text.len() > 0 && text.last() == '=' {
        unpadded(text.drop_last())
    } else {
        text
    }
}

/// The bytes that a text in one of the alphabets stands for. Padding may be left out in part or
/// altogether, but it goes no further than the four characters that it fills up, two of which at
/// least are not padding.
pub open spec fn decoded_with(text: Seq<char>, url_safe: bool) -> Option<Seq<u8>> {
    let body = unpadded(text);
    let last = (text.len() + 3) % 4 + 1;
    if text.len() == 0 {
        Some(seq![])
    } else if last < 2 + (text.len() - body.len()) {
        None
    } else if exists|i: int| 0 <= i < body.len() && sextet(#[trigger] body[i], url_safe) is None {
        None
    } else {
        Some(sextet_bytes(body.map_values(|c: char| sextet(c, url_safe)->0)))
    }
}

/// `Engine::encode` of the standard engine writes bytes in base64 with the standard alphabet
/// and padding.
#[verifier::external_body]
fn encode_standard(bytes: &Vec<u8>) -> (r: String)
    ensures
        r@ == base64_text(bytes@),
{
    base64::engine::general_purpose::STANDARD.encode(bytes)
}

/// `Engine::decode` with the standard alphabet, told to accept any padding and any unused bits: the
/// bytes that the text stands for, or none if it is no base64.
#[verifier::external_body]
fn decode_standard(text: &str) -> (r: Option<Vec<u8>>)
    ensures
        match decoded_with(text@, false) {
            Some(b) => r is Some && r->0@ == b,
            None => r is None,
        },
{
    base64::engine::GeneralPurpose::new(
        &base64::alphabet::STANDARD,
        base64::engine::GeneralPurposeConfig::new().with_decode_allow_trailing_bits(
            true,
        ).with_decode_padding_mode(base64::engine::DecodePaddingMode::Indifferent),
    ).decode(text).ok()
}

/// `Engine::decode` with the URL-safe alphabet, told to accept any padding and any unused bits: the
/// bytes that the text stands for, or none if it is no base64.
#[verifier::external_body]
fn decode_url_safe(text: &str) -> (r: Option<Vec<u8>>)
    ensures
        match decoded_with(text@, true) {
            Some(b) => r is Some && r->0@ == b,
            None => r is None,
        },
{
    base64::engine::GeneralPurpose::new(
        &base64::alphabet::URL_SAFE,
        base64::engine::GeneralPurposeConfig::new().with_decode_allow_trailing_bits(
            true,
        ).with_decode_padding_mode(base64::engine::DecodePaddingMode::Indifferent),
    ).decode(text).ok()
}

/// The bytes that a base64 text stands for. A text with `-` or `_` is in the URL-safe alphabet.
pub open spec fn decoded(text: Seq<char>) -> Option<Seq<u8>> {
    if text.contains('-') || text.contains('_') {
        decoded_with(text, true)
    } else {
        decoded_with(text, false)
    }
}

/// Base64 in the standard alphabet has no character of the URL-safe one alone.
pub proof fn lemma_base64_text(b: Seq<u8>)
    ensures
        !base64_text(b).contains('-'),
        !base64_text(b).contains('_'),
    decreases b.len(),
{
    let s = base64_text(b);
    if b.len() > 2 {
        lemma_base64_text(b.skip(3));
    }
    assert forall|i: int| 0 <= i < s.len() implies #[trigger] s[i] != '-' && s[i] != '_' by {
        if b.len() > 2 && i >= 4 {
            let t = base64_text(b.skip(3));
            assert(s[i] == t[i - 4]);
            assert(t.contains(t[i - 4]));
        }
    }
}

/// The base64 form of bytes, in one of the alphabets.
spec fn form(b: Seq<u8>, url_safe: bool) -> Seq<char> {
    if url_safe {
        url_safe_text(b)
    } else {
        base64_text(b)
    }
}

/// The character of a sextet, in one of the alphabets, stands for the sextet.
proof fn lemma_sextet(n: int, url_safe: bool)
    requires
        0 <= n < 64,
    ensures
        sextet(
            if url_safe {
                url_safe_char(sextet_char(n))
            } else {
                sextet_char(n)
            },
            url_safe,
        ) == Some(n),
        sextet_char(n) != '=',
        url_safe_char(sextet_char(n)) != '=',
{
}

/// How many of the characters of a base64 form are no padding.
spec fn body_len(b: Seq<u8>) -> int {
    b.len() as int / 3 * 4 + if b.len() % 3 == 0 {
        0int
    } else {
        b.len() as int % 3 + 1
    }
}

/// A base64 form consists of whole groups of four characters, the last of which is padded to its
/// length. What is no padding stands for the bytes.
#[verifier::spinoff_prover]
#[verifier::rlimit(60)]
proof fn lemma_form(b: Seq<u8>, url_safe: bool)
    ensures
        ({
            let s = form(b, url_safe);
            let n = body_len(b);
            &&& s.len() == (b.len() as int + 2) / 3 * 4
            &&& n <= s.len()
            &&& forall|i: int|
                0 <= i < n ==> sextet(#[trigger] s[i], url_safe) is Some && s[i] != '='
            &&& forall|i: int| n <= i < s.len() ==> #[trigger] s[i] == '='
            &&& sextet_bytes(s.take(n).map_values(|c: char| sextet(c, url_safe)->0)) == b
        }),
    decreases b.len(),
{
    let s = form(b, url_safe);
    let n = body_len(b);
    let f = |c: char| sextet(c, url_safe)->0;
    let six = s.take(n).map_values(f);
    if b.len() > 0 {
        let b0 = b[0] as int;
        let b1 = if b.len() > 1 {
            b[1] as int
        } else {
            0
        };
        let b2 = if b.len() > 2 {
            b[2] as int
        } else {
            0
        };
        lemma_sextet(b0 / 4, url_safe);
        lemma_sextet(b0 % 4 * 16 + b1 / 16, url_safe);
        lemma_sextet(b1 % 16 * 4 + b2 / 64, url_safe);
        lemma_sextet(b2 % 64, url_safe);
        if b.len() > 2 {
            let rest = b.skip(3);
            lemma_form(rest, url_safe);
            let t = form(rest, url_safe);
            assert(s.skip(4) =~= t);
            assert(n == body_len(rest) + 4);
            assert forall|i: int| 0 <= i < n implies sextet(#[trigger] s[i], url_safe) is Some
                && s[i] != '=' by {
                if i >= 4 {
                    assert(s[i] == t[i - 4]);
                }
            }
            assert forall|i: int| n <= i < s.len() implies #[trigger] s[i] == '=' by {
                assert(s[i] == t[i - 4]);
            }
            assert(six.skip(4) =~= t.take(body_len(rest)).map_values(f));
            assert(six[0] == b0 / 4 && six[1] == b0 % 4 * 16 + b1 / 16 && six[2] == b1 % 16 * 4 + b2
                / 64 && six[3] == b2 % 64);
            assert(sextet_bytes(six) =~= seq![b[0], b[1], b[2]] + rest);
            assert(seq![b[0], b[1], b[2]] + rest =~= b);
        } else if b.len() == 2 {
            assert(six.len() == 3);
            assert(six[0] == b0 / 4 && six[1] == b0 % 4 * 16 + b1 / 16 && six[2] == b1 % 16 * 4);
            assert(sextet_bytes(six) =~= b);
        } else {
            assert(six.len() == 2);
            assert(six[0] == b0 / 4 && six[1] == b0 % 4 * 16);
            assert(sextet_bytes(six) =~= b);
        }
    } else {
        assert(sextet_bytes(six) =~= b);
    }
}

/// The text in front of padding, if it does not end in padding itself.
proof fn lemma_unpadded(text: Seq<char>, n: int)
    requires
        0 <= n <= text.len(),
        n > 0 ==> text[n - 1] != '=',
        forall|i: int| n <= i < text.len() ==> #[trigger] text[i] == '=',
    ensures
        unpadded(text) == text.take(n),
    decreases text.len(),
{
    if text.len() > n {
        let head = text.drop_last();
        assert forall|i: int| n <= i < head.len() implies #[trigger] head[i] == '=' by {
            assert(head[i] == text[i]);
        }
        assert(text.last() == '=');
        lemma_unpadded(head, n);
        assert(head.take(n) =~= text.take(n));
    } else {
        assert(text.take(n) =~= text);
    }
}

/// The base64 form of bytes stands for them, whether all of the padding is there, some, or none.
proof fn lemma_form_decoded(b: Seq<u8>, url_safe: bool, k: int)
    requires
        body_len(b) <= k <= form(b, url_safe).len(),
    ensures
        decoded_with(form(b, url_safe).take(k), url_safe) == Some(b),
{
    let s = form(b, url_safe);
    let n = body_len(b);
    lemma_form(b, url_safe);
    let t = s.take(k);
    lemma_unpadded(t, n);
    assert(t.take(n) =~= s.take(n));
    let body = unpadded(t);
    assert forall|i: int| 0 <= i < body.len() implies sextet(#[trigger] body[i], url_safe) is Some by {
        assert(body[i] == s[i]);
    }
    if b.len() == 0 {
        assert(b =~= seq![]);
    }
}

/// The alphabet of a base64 form, or of a part of it, can be told from it, or makes no difference.
proof fn lemma_form_alphabet(b: Seq<u8>, url_safe: bool, k: int)
    requires
        body_len(b) <= k <= form(b, url_safe).len(),
    ensures
        decoded(form(b, url_safe).take(k)) == Some(b),
{
    let s = base64_text(b);
    let t = form(b, url_safe).take(k);
    lemma_base64_text(b);
    lemma_form(b, false);
    lemma_form(b, url_safe);
    if url_safe && (t.contains('-') || t.contains('_')) {
        lemma_form_decoded(b, true, k);
    } else {
        assert forall|i: int| 0 <= i < k implies s[i] == t[i] by {
            assert(s.contains(s[i]) && t.contains(t[i]));
            if url_safe {
                assert(url_safe_text(b)[i] == url_safe_char(s[i]));
            }
        }
        assert(s.take(k) =~= t);
        assert(!t.contains('-') && !t.contains('_')) by {
            assert forall|i: int| 0 <= i < t.len() implies #[trigger] t[i] != '-' && t[i] != '_' by {
                assert(s.contains(s[i]));
                assert(t[i] == s[i]);
            }
        }
        lemma_form_decoded(b, false, k);
    }
}

/// Bytes are read back from their base64 form.
pub proof fn lemma_base64_read_back(b: Seq<u8>)
    ensures
        decoded(base64_text(b)) == Some(b),
{
    lemma_form(b, false);
    lemma_form_alphabet(b, false, base64_text(b).len() as int);
    assert(base64_text(b).take(base64_text(b).len() as int) =~= base64_text(b));
}

/// Bytes are read back from their base64 form in the URL-safe alphabet.
pub proof fn lemma_url_safe_read_back(b: Seq<u8>)
    ensures
        decoded(url_safe_text(b)) == Some(b),
{
    lemma_form(b, true);
    lemma_form_alphabet(b, true, url_safe_text(b).len() as int);
    assert(url_safe_text(b).take(url_safe_text(b).len() as int) =~= url_safe_text(b));
}

/// Bytes are read back from their base64 form without its padding, in either alphabet.
pub proof fn lemma_unpadded_read_back(b: Seq<u8>)
    ensures
        decoded(unpadded(base64_text(b))) == Some(b),
        decoded(unpadded(url_safe_text(b))) == Some(b),
{
    lemma_form(b, false);
    lemma_form(b, true);
    lemma_unpadded(base64_text(b), body_len(b));
    lemma_unpadded(url_safe_text(b), body_len(b));
    lemma_form_alphabet(b, false, body_len(b));
    lemma_form_alphabet(b, true, body_len(b));
}

/// Bits of the last character that fill no byte make no difference: with another character in its
/// place that has the same bits for bytes, a text without padding stands for the same bytes.
pub proof fn lemma_unused_bits(text: Seq<char>, c: char, url_safe: bool)
    requires
        text.len() > 0,
        text.last() != '=',
        c != '=',
        sextet(text.last(), url_safe) matches Some(x) && sextet(c, url_safe) matches Some(y) && (
        text.len() % 4 == 2 && x / 16 == y / 16 || text.len() % 4 == 3 && x / 4 == y / 4),
    ensures
        decoded_with(text.drop_last().push(c), url_safe) == decoded_with(text, url_safe),
{
    let other = text.drop_last().push(c);
    let n = text.len() - 1;
    assert(unpadded(text) == text && unpadded(other) == other);
    let f = |c: char| sextet(c, url_safe)->0;
    assert forall|i: int| 0 <= i < text.len() implies sextet(#[trigger] text[i], url_safe) is None
        == (sextet(other[i], url_safe) is None) by {}
    if forall|i: int| 0 <= i < text.len() ==> sextet(#[trigger] text[i], url_safe) is Some {
        assert forall|i: int| 0 <= i < other.len() implies sextet(#[trigger] other[i], url_safe)
            is Some by {
            assert(sextet(text[i], url_safe) is Some);
        }
        let a = text.map_values(f);
        let b = other.map_values(f);
        assert(b =~= a.update(n, f(c)));
        lemma_last_sextet(a, f(c));
    } else {
        let i = choose|i: int| 0 <= i < text.len() && sextet(#[trigger] text[i], url_safe) is None;
        assert(sextet(other[i], url_safe) is None);
    }
}

/// The same for sextets.
proof fn lemma_last_sextet(s: Seq<int>, x: int)
    requires
        s.len() % 4 == 2 && x / 16 == s.last() / 16 || s.len() % 4 == 3 && x / 4 == s.last() / 4,
    ensures
        sextet_bytes(s.update(s.len() - 1, x)) == sextet_bytes(s),
    decreases s.len(),
{
    let t = s.update(s.len() - 1, x);
    if s.len() > 4 {
        lemma_last_sextet(s.skip(4), x);
        assert(t.skip(4) =~= s.skip(4).update(s.skip(4).len() - 1, x));
    }
}

/// The base64 text of bytes. Reading it gives the bytes back.
pub fn bytes_to_text(bytes: &Vec<u8>) -> (r: String)
    ensures
        r@ == base64_text(bytes@),
        decoded(r@) == Some(bytes@),
{
    proof {
        lemma_base64_read_back(bytes@);
    }
    encode_standard(bytes)
}

/// The bytes that a base64 text stands for.
pub fn bytes_of_text(text: &str) -> (r: Option<Vec<u8>>)
    ensures
        match decoded(text@) {
            Some(b) => r is Some && r->0@ == b,
            None => r is None,
        },
{
    let chars: Vec<char> = chars_of(text);
    if text_has_char(&chars, '-') || text_has_char(&chars, '_') {
        decode_url_safe(text)
    } else {
        decode_standard(text)
    }
}

} // verus!
