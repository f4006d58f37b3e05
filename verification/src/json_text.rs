//! JSON text, token by token, as the `jiter` pull parser reads it.
//!
//! Each function reads one token from the start of the given bytes and says where the token
//! ends. White space before a token belongs to it.

use vstd::prelude::*;
use vstd::string::*;
use vstd::utf8;
use jiter::{Jiter, NumberAny, NumberInt};
use crate::double;
use crate::json_shown;
use crate::json_sink;
use crate::json_sink::Json;
use crate::json_source::SrcState;
use crate::text;

verus! {

/// Why a text is not JSON, and at which byte that shows.
pub struct JsonFail {
    pub message: String,
    pub index: usize,
}

/// A number of a JSON text.
pub enum JsonNumber {
    Int(i64),
    /// An integer in decimal that is no `i64`.
    Big(String),
    /// A double, as its bits.
    Float(u64),
}

/// What a number of a JSON text stands for.
pub enum NumberVal {
    Int(int),
    Float(u64),
}

/// A message and an index: what a [`JsonFail`] stands for.
pub type FailVal = (Seq<char>, usize);

pub open spec fn fail_view(f: JsonFail) -> FailVal {
    (f.message@, f.index)
}

pub open spec fn is_space(b: u8) -> bool {
    b == 0x20 || b == 0x0d || b == 0x09 || b == 0x0a
}

/// The number of white space bytes at the start.
pub open spec fn spaces(data: Seq<u8>) -> nat
    decreases data.len(),
{
    if data.len() == 0 || !is_space(data[0]) {
        0
    } else {
        1 + spaces(data.skip(1))
    }
}

/// The index of the first byte from `from` on that is no white space.
pub open spec fn token_start(data: Seq<u8>, from: nat) -> nat {
    from + spaces(data.skip(from as int))
}

/// Whether the bytes from `from` on start with a word.
pub open spec fn has_word(data: Seq<u8>, from: nat, word: Seq<u8>) -> bool {
    from + word.len() <= data.len() && data.subrange(from as int, (from + word.len()) as int)
        == word
}

pub open spec fn null_word() -> Seq<u8> {
    seq![0x6e, 0x75, 0x6c, 0x6c]
}

pub open spec fn true_word() -> Seq<u8> {
    seq![0x74, 0x72, 0x75, 0x65]
}

pub open spec fn false_word() -> Seq<u8> {
    seq![0x66, 0x61, 0x6c, 0x73, 0x65]
}

/// The error of `Jiter::next_null`.
pub uninterp spec fn null_error(data: Seq<u8>) -> FailVal;

/// The error of `Jiter::next_bool`.
pub uninterp spec fn bool_error(data: Seq<u8>) -> FailVal;

/// The number that `Jiter::next_number` reads and the index behind it, or its error.
pub uninterp spec fn number_token(data: Seq<u8>) -> Result<(NumberVal, nat), FailVal>;

/// The double that `Jiter::next_float` reads and the index behind it, or its error.
pub uninterp spec fn float_token(data: Seq<u8>) -> Result<(u64, nat), FailVal>;

/// The string that `Jiter::next_str` reads and the index behind it, or its error.
pub uninterp spec fn string_token(data: Seq<u8>) -> Result<(Seq<char>, nat), FailVal>;

/// The error of `Jiter::next_array`.
pub uninterp spec fn array_error(data: Seq<u8>) -> FailVal;

/// The error of `Jiter::array_step`.
pub uninterp spec fn array_step_error(data: Seq<u8>) -> FailVal;

/// The error of `Jiter::next_object`.
pub uninterp spec fn object_error(data: Seq<u8>) -> FailVal;

/// The error of `Jiter::next_key`.
pub uninterp spec fn key_error(data: Seq<u8>) -> FailVal;

/// The index behind what `Jiter::next_skip` skips where it skips no JSON value that is nested
/// within the limit, or its error.
pub uninterp spec fn skip_token(data: Seq<u8>) -> Result<nat, FailVal>;

/// How deep a value may be nested that `Jiter::next_skip` skips.
pub const SKIP_LIMIT: usize = 200;

/// Whether a text starts with a JSON value that is nested within the limit.
pub open spec fn skippable(data: Seq<u8>, j: Json) -> bool {
    json_shown::shows(SrcState::Text { data, pos: 0 }, j) && json_sink::nested_within(
        j,
        SKIP_LIMIT as nat,
    )
}

/// The index behind the value at the start: where reading the value ends.
pub open spec fn skip_at(data: Seq<u8>) -> Result<nat, FailVal> {
    if exists|j: Json| skippable(data, j) {
        let j = choose|j: Json| skippable(data, j);
        Ok(json_shown::behind(SrcState::Text { data, pos: 0 }, j)->pos)
    } else {
        skip_token(data)
    }
}

/// Whether a byte can stand in a number.
pub open spec fn is_number_byte(b: u8) -> bool {
    0x30 <= b <= 0x39 || b == 0x2b || b == 0x2d || b == 0x2e || b == 0x45 || b == 0x65
}

/// The longest text of number bytes at the start.
pub open spec fn number_word(data: Seq<u8>) -> Seq<char>
    decreases data.len(),
{
    if data.len() == 0 || !is_number_byte(data[0]) {
        seq![]
    } else {
        seq![data[0] as char] + number_word(data.skip(1))
    }
}

/// How many characters a number may have that the contracts below tell the value of.
pub const NUMBER_LIMIT: usize = 4300;

/// Whether a text is the decimal text of an integer.
pub open spec fn is_int(t: Seq<char>) -> bool {
    t.len() <= NUMBER_LIMIT && exists|n: int| t == #[trigger] text::int_text(n)
}

/// Whether a text is a number with a fraction, an exponent or both.
pub open spec fn is_float(t: Seq<char>) -> bool {
    t.len() <= NUMBER_LIMIT && text::is_float(t)
}

/// Zero with a sign.
pub open spec fn minus_zero() -> Seq<char> {
    seq!['-', '0']
}

/// The text of number bytes behind the white space at the start.
pub open spec fn number_text(data: Seq<u8>) -> Seq<char> {
    number_word(data.skip(token_start(data, 0) as int))
}

/// The number behind the white space at the start, and the index behind it.
pub open spec fn number_at(data: Seq<u8>) -> Result<(NumberVal, nat), FailVal> {
    let w = token_start(data, 0);
    let t = number_text(data);
    if is_int(t) {
        Ok((NumberVal::Int(choose|n: int| t == #[trigger] text::int_text(n)), w + t.len()))
    } else if t == minus_zero() {
        Ok((NumberVal::Int(0), w + t.len()))
    } else if is_float(t) {
        Ok((NumberVal::Float(double::parsed_double(t)->0), w + t.len()))
    } else {
        number_token(data)
    }
}

/// The double behind the white space at the start, and the index behind it.
pub open spec fn float_at(data: Seq<u8>) -> Result<(u64, nat), FailVal> {
    let w = token_start(data, 0);
    let t = number_text(data);
    if is_int(t) || t == minus_zero() || is_float(t) {
        Ok((double::parsed_double(t)->0, w + t.len()))
    } else {
        float_token(data)
    }
}

/// What a hexadecimal digit counts.
pub open spec fn hex_digit(c: char) -> Option<int> {
    if '0' <= c <= '9' {
        Some(c as int - '0' as int)
    } else if 'a' <= c <= 'f' {
        Some(c as int - 'a' as int + 10)
    } else if 'A' <= c <= 'F' {
        Some(c as int - 'A' as int + 10)
    } else {
        None
    }
}

/// The number that four hexadecimal digits stand for.
pub open spec fn hex_at(s: Seq<char>, i: int) -> Option<int> {
    if i + 4 <= s.len() {
        match (hex_digit(s[i]), hex_digit(s[i + 1]), hex_digit(s[i + 2]), hex_digit(s[i + 3])) {
            (Some(a), Some(b), Some(c), Some(d)) => Some(((a * 16 + b) * 16 + c) * 16 + d),
            _ => None,
        }
    } else {
        None
    }
}

/// The character that an escape with hexadecimal digits stands for, and its length. One outside
/// of the basic plane is written as two surrogates.
pub open spec fn spelled_in_hex(s: Seq<char>) -> Option<(char, nat)> {
    match (hex_at(s, 2), hex_at(s, 8)) {
        (Some(high), Some(low)) => if !(0xd800 <= high < 0xe000) {
            Some((high as char, 6))
        } else if high < 0xdc00 && s[6] == '\\' && s[7] == 'u' && 0xdc00 <= low < 0xe000 {
            Some((((high - 0xd800) * 0x400 + (low - 0xdc00) + 0x10000) as char, 12))
        } else {
            None
        },
        (Some(n), None) => if !(0xd800 <= n < 0xe000) {
            Some((n as char, 6))
        } else {
            None
        },
        (None, _) => None,
    }
}

/// The character at the start of the inside of a string, and the length of its spelling.
pub open spec fn spelled_char(s: Seq<char>) -> Option<(char, nat)> {
    if s.len() == 0 || '\u{0}' <= s[0] <= '\u{1f}' {
        None
    } else if s[0] != '\\' {
        Some((s[0], 1))
    } else if s.len() < 2 {
        None
    } else if s[1] == '"' || s[1] == '\\' || s[1] == '/' {
        Some((s[1], 2))
    } else if s[1] == 'b' {
        Some(('\u{8}', 2))
    } else if s[1] == 'f' {
        Some(('\u{c}', 2))
    } else if s[1] == 'n' {
        Some(('\n', 2))
    } else if s[1] == 'r' {
        Some(('\r', 2))
    } else if s[1] == 't' {
        Some(('\t', 2))
    } else if s[1] == 'u' {
        spelled_in_hex(s)
    } else {
        None
    }
}

/// The text up to the quote that ends a string, and the length of its spelling with that quote.
pub open spec fn spelled(s: Seq<char>) -> Option<(Seq<char>, nat)>
    decreases s.len(),
{
    if s.len() > 0 && s[0] == '"' {
        Some((seq![], 1))
    } else {
        match spelled_char(s) {
            Some((c, n)) => if 0 < n <= s.len() {
                match spelled(s.skip(n as int)) {
                    Some((t, k)) => Some((seq![c] + t, n + k)),
                    None => None,
                }
            } else {
                None
            },
            None => None,
        }
    }
}

/// Whether a string stands behind the white space at the start, and all from there on is UTF-8.
pub open spec fn starts_string(data: Seq<u8>) -> bool {
    let rest = data.skip(token_start(data, 0) as int);
    let s = utf8::decode_utf8(rest);
    utf8::valid_utf8(rest) && s.len() > 0 && s[0] == '"' && spelled(s.skip(1)) is Some
}

/// The string behind the white space at the start, and the index behind it.
pub open spec fn string_at(data: Seq<u8>) -> Result<(Seq<char>, nat), FailVal> {
    if starts_string(data) {
        let w = token_start(data, 0);
        let s = utf8::decode_utf8(data.skip(w as int));
        let (t, k) = spelled(s.skip(1))->Some_0;
        Ok((t, w + utf8::encode_utf8(s.take((k + 1) as int)).len()))
    } else {
        string_token(data)
    }
}

/// The first byte of the next token and its index.
pub open spec fn peek_at(data: Seq<u8>) -> Result<(u8, nat), FailVal> {
    let w = token_start(data, 0);
    if w < data.len() {
        Ok((data[w as int], w))
    } else {
        Err(("EOF while parsing a value"@, data.len() as usize))
    }
}

/// The index behind `null`.
pub open spec fn null_at(data: Seq<u8>) -> Result<nat, FailVal> {
    let w = token_start(data, 0);
    if has_word(data, w, null_word()) {
        Ok(w + 4)
    } else {
        Err(null_error(data))
    }
}

/// A boolean and the index behind it.
pub open spec fn bool_at(data: Seq<u8>) -> Result<(bool, nat), FailVal> {
    let w = token_start(data, 0);
    if has_word(data, w, true_word()) {
        Ok((true, w + 4))
    } else if has_word(data, w, false_word()) {
        Ok((false, w + 5))
    } else {
        Err(bool_error(data))
    }
}

/// Whether an array has an element, and the index of the element or behind the array.
pub open spec fn array_at(data: Seq<u8>) -> Result<(bool, nat), FailVal> {
    let w = token_start(data, 0);
    let x = token_start(data, w + 1);
    if w < data.len() && data[w as int] == 0x5b && x < data.len() {
        if data[x as int] == 0x5d {
            Ok((false, x + 1))
        } else {
            Ok((true, x))
        }
    } else {
        Err(array_error(data))
    }
}

/// Behind an element of an array: whether there is another, and the index of that one or
/// behind the array.
pub open spec fn array_step_at(data: Seq<u8>) -> Result<(bool, nat), FailVal> {
    let w = token_start(data, 0);
    let x = token_start(data, w + 1);
    if w < data.len() && data[w as int] == 0x5d {
        Ok((false, w + 1))
    } else if w < data.len() && data[w as int] == 0x2c && x < data.len() && data[x as int]
        != 0x5d {
        Ok((true, x))
    } else {
        Err(array_step_error(data))
    }
}

/// A key at `from`, where its quote stands, and the index behind its colon.
pub open spec fn member_at(data: Seq<u8>, from: nat) -> Option<(Seq<char>, nat)> {
    match string_at(data.skip(from as int)) {
        Ok((key, n)) => {
            let colon = token_start(data, from + n);
            if colon < data.len() && data[colon as int] == 0x3a {
                Some((key, colon + 1))
            } else {
                None
            }
        },
        Err(_) => None,
    }
}

/// The first key of an object, if it has one, and the index behind the key's colon or behind
/// the object.
pub open spec fn object_at(data: Seq<u8>) -> Result<(Option<Seq<char>>, nat), FailVal> {
    let w = token_start(data, 0);
    let x = token_start(data, w + 1);
    if w < data.len() && data[w as int] == 0x7b && x < data.len() {
        if data[x as int] == 0x7d {
            Ok((None, x + 1))
        } else if data[x as int] == 0x22 {
            match member_at(data, x) {
                Some((key, n)) => Ok((Some(key), n)),
                None => Err(object_error(data)),
            }
        } else {
            Err(object_error(data))
        }
    } else {
        Err(object_error(data))
    }
}

/// Behind a value of an object: the next key, if there is one, and the index behind the key's
/// colon or behind the object.
pub open spec fn key_at(data: Seq<u8>) -> Result<(Option<Seq<char>>, nat), FailVal> {
    let w = token_start(data, 0);
    let x = token_start(data, w + 1);
    if w < data.len() && data[w as int] == 0x7d {
        Ok((None, w + 1))
    } else if w < data.len() && data[w as int] == 0x2c && x < data.len() && data[x as int] == 0x22 {
        match member_at(data, x) {
            Some((key, n)) => Ok((Some(key), n)),
            None => Err(key_error(data)),
        }
    } else {
        Err(key_error(data))
    }
}

/// Whether nothing but white space is left.
pub open spec fn finish_at(data: Seq<u8>) -> Result<(), FailVal> {
    let w = token_start(data, 0);
    if w < data.len() {
        Err(("trailing characters"@, w as usize))
    } else {
        Ok(())
    }
}

/// `Jiter::peek`: skips white space and hands out the byte behind it.
#[verifier::external_body]
pub(crate) fn jiter_peek(data: &[u8]) -> (r: Result<u8, JsonFail>)
    ensures
        match peek_at(data@) {
            Ok((b, _)) => r is Ok && r->Ok_0 == b,
            Err(f) => r is Err && fail_view(r->Err_0) == f,
        },
{
    Jiter::new(data).peek().map(|p| p.into_inner()).map_err(
        |e| JsonFail { message: e.error_type.to_string(), index: e.index },
    )
}

/// `Jiter::next_null`: reads `null`.
#[verifier::external_body]
pub(crate) fn jiter_null(data: &[u8]) -> (r: Result<usize, JsonFail>)
    ensures
        match null_at(data@) {
            Ok(n) => r is Ok && r->Ok_0 == n,
            Err(_) => r is Err && fail_view(r->Err_0) == null_error(data@),
        },
{
    let mut jiter = Jiter::new(data);
    jiter.next_null().map_err(
        |e| JsonFail { message: e.error_type.to_string(), index: e.index },
    )?;
    Ok(jiter.current_index())
}

/// `Jiter::next_bool`: reads `true` or `false`.
#[verifier::external_body]
pub(crate) fn jiter_bool(data: &[u8]) -> (r: Result<(bool, usize), JsonFail>)
    ensures
        match bool_at(data@) {
            Ok((b, n)) => r is Ok && r->Ok_0.0 == b && r->Ok_0.1 == n,
            Err(_) => r is Err && fail_view(r->Err_0) == bool_error(data@),
        },
{
    let mut jiter = Jiter::new(data);
    let value = jiter.next_bool().map_err(
        |e| JsonFail { message: e.error_type.to_string(), index: e.index },
    )?;
    Ok((value, jiter.current_index()))
}

/// `Jiter::next_number`: skips white space and reads an integer of any size or a double. The
/// decimal text of an integer is read as the integer, zero with a sign as zero, and a number with a
/// fraction or an exponent as the double that `str::parse` reads from it: both round to the nearest
/// double. What is read from other texts, and from very long ones, has a name. A number takes at
/// least one byte. An integer that is no `i64` comes as a `BigInt`, which prints in decimal.
#[verifier::external_body]
pub(crate) fn jiter_number(data: &[u8]) -> (r: Result<(JsonNumber, usize), JsonFail>)
    ensures
        is_int(number_text(data@)) ==> r is Ok && r->Ok_0.1 == token_start(data@, 0)
            + number_text(data@).len() && match r->Ok_0.0 {
            JsonNumber::Int(small) => number_text(data@) == text::int_text(small as int),
            JsonNumber::Big(digits) => digits@ == number_text(data@),
            JsonNumber::Float(_) => false,
        },
        number_text(data@) == minus_zero() ==> r is Ok && r->Ok_0.0 == JsonNumber::Int(0)
            && r->Ok_0.1 == token_start(data@, 0) + 2,
        is_float(number_text(data@)) ==> r is Ok && r->Ok_0.1 == token_start(data@, 0)
            + number_text(data@).len() && r->Ok_0.0 == JsonNumber::Float(
            double::parsed_double(number_text(data@))->0,
        ),
        !is_int(number_text(data@)) && number_text(data@) != minus_zero() && !is_float(
            number_text(data@),
        ) ==> match number_token(data@) {
            Ok((v, n)) => {
                &&& r is Ok
                &&& r->Ok_0.1 == n
                &&& match v {
                    NumberVal::Int(i) => match r->Ok_0.0 {
                        JsonNumber::Int(small) => small == i,
                        JsonNumber::Big(digits) => digits@ == text::int_text(i),
                        JsonNumber::Float(_) => false,
                    },
                    NumberVal::Float(bits) => r->Ok_0.0 == JsonNumber::Float(bits),
                }
            },
            Err(f) => r is Err && fail_view(r->Err_0) == f,
        },
        r is Ok ==> 1 <= r->Ok_0.1 <= data@.len(),
{
    let mut jiter = Jiter::new(data);
    let number = match jiter.next_number().map_err(
        |e| JsonFail { message: e.error_type.to_string(), index: e.index },
    )? {
        NumberAny::Int(NumberInt::Int(v)) => JsonNumber::Int(v),
        NumberAny::Int(NumberInt::BigInt(v)) => JsonNumber::Big(v.to_string()),
        NumberAny::Float(v) => JsonNumber::Float(v.to_bits()),
    };
    Ok((number, jiter.current_index()))
}

/// `Jiter::next_float`: skips white space and reads a number as the double that `str::parse` reads
/// from its text: both round to the nearest double. What is read from other texts, and from very
/// long ones, has a name. A number takes at least one byte.
#[verifier::external_body]
pub(crate) fn jiter_float(data: &[u8]) -> (r: Result<(u64, usize), JsonFail>)
    ensures
        is_int(number_text(data@)) || number_text(data@) == minus_zero() || is_float(
            number_text(data@),
        ) ==> r is Ok && r->Ok_0.1 == token_start(data@, 0) + number_text(data@).len() && r->Ok_0.0
            == double::parsed_double(number_text(data@))->0,
        !is_int(number_text(data@)) && number_text(data@) != minus_zero() && !is_float(
            number_text(data@),
        ) ==> match float_token(data@) {
            Ok((bits, n)) => r is Ok && r->Ok_0.0 == bits && r->Ok_0.1 == n,
            Err(f) => r is Err && fail_view(r->Err_0) == f,
        },
        r is Ok ==> 1 <= r->Ok_0.1 <= data@.len(),
{
    let mut jiter = Jiter::new(data);
    let value = jiter.next_float().map_err(
        |e| JsonFail { message: e.error_type.to_string(), index: e.index },
    )?;
    Ok((value.to_bits(), jiter.current_index()))
}

/// `Jiter::next_str`: skips white space and reads a string, with the escapes of JSON. What is read
/// where no string stands, or what follows is not all UTF-8, has a name. The quotes take at least
/// one byte.
#[verifier::external_body]
pub(crate) fn jiter_str(data: &[u8]) -> (r: Result<(String, usize), JsonFail>)
    ensures
        starts_string(data@) ==> r is Ok && r->Ok_0.0@ == string_at(data@)->Ok_0.0 && r->Ok_0.1
            == string_at(data@)->Ok_0.1,
        !starts_string(data@) ==> match string_token(data@) {
            Ok((s, n)) => r is Ok && r->Ok_0.0@ == s && r->Ok_0.1 == n,
            Err(f) => r is Err && fail_view(r->Err_0) == f,
        },
        r is Ok ==> 1 <= r->Ok_0.1 <= data@.len(),
{
    let mut jiter = Jiter::new(data);
    let value = jiter.next_str().map_err(
        |e| JsonFail { message: e.error_type.to_string(), index: e.index },
    )?.to_owned();
    Ok((value, jiter.current_index()))
}

/// `Jiter::next_array`: reads the start of an array, up to its first element or its end.
#[verifier::external_body]
pub(crate) fn jiter_array(data: &[u8]) -> (r: Result<(bool, usize), JsonFail>)
    ensures
        match array_at(data@) {
            Ok((more, n)) => r is Ok && r->Ok_0.0 == more && r->Ok_0.1 == n,
            Err(_) => r is Err && fail_view(r->Err_0) == array_error(data@),
        },
{
    let mut jiter = Jiter::new(data);
    let more = jiter.next_array().map_err(
        |e| JsonFail { message: e.error_type.to_string(), index: e.index },
    )?.is_some();
    Ok((more, jiter.current_index()))
}

/// `Jiter::array_step`: reads what stands behind an element of an array, up to the next element
/// or the end.
#[verifier::external_body]
pub(crate) fn jiter_array_step(data: &[u8]) -> (r: Result<(bool, usize), JsonFail>)
    ensures
        match array_step_at(data@) {
            Ok((more, n)) => r is Ok && r->Ok_0.0 == more && r->Ok_0.1 == n,
            Err(_) => r is Err && fail_view(r->Err_0) == array_step_error(data@),
        },
{
    let mut jiter = Jiter::new(data);
    let more = jiter.array_step().map_err(
        |e| JsonFail { message: e.error_type.to_string(), index: e.index },
    )?.is_some();
    Ok((more, jiter.current_index()))
}

/// `Jiter::next_object`: reads the start of an object, up to its first value or its end. A key
/// is read as `Jiter::next_str` reads a string.
#[verifier::external_body]
pub(crate) fn jiter_object(data: &[u8]) -> (r: Result<(Option<String>, usize), JsonFail>)
    ensures
        match object_at(data@) {
            Ok((key, n)) => r is Ok && key_view(r->Ok_0.0) == key && r->Ok_0.1 == n && n
                <= data@.len(),
            Err(_) => r is Err && fail_view(r->Err_0) == object_error(data@),
        },
{
    let mut jiter = Jiter::new(data);
    let key = jiter.next_object().map_err(
        |e| JsonFail { message: e.error_type.to_string(), index: e.index },
    )?.map(|k| k.to_owned());
    Ok((key, jiter.current_index()))
}

/// `Jiter::next_key`: reads what stands behind a value of an object, up to the next value or the
/// end. A key is read as `Jiter::next_str` reads a string.
#[verifier::external_body]
pub(crate) fn jiter_key(data: &[u8]) -> (r: Result<(Option<String>, usize), JsonFail>)
    ensures
        match key_at(data@) {
            Ok((key, n)) => r is Ok && key_view(r->Ok_0.0) == key && r->Ok_0.1 == n && n
                <= data@.len(),
            Err(_) => r is Err && fail_view(r->Err_0) == key_error(data@),
        },
{
    let mut jiter = Jiter::new(data);
    let key = jiter.next_key().map_err(
        |e| JsonFail { message: e.error_type.to_string(), index: e.index },
    )?.map(|k| k.to_owned());
    Ok((key, jiter.current_index()))
}

/// `Jiter::next_skip`: skips a value. A JSON value that is nested within the limit is skipped to
/// where reading it token by token ends; what else is skipped has a name. A value takes at least
/// one byte.
#[verifier::external_body]
pub(crate) fn jiter_skip(data: &[u8]) -> (r: Result<usize, JsonFail>)
    ensures
        forall|j: Json| #[trigger]
            skippable(data@, j) ==> r is Ok && (SrcState::Text {
                data: data@,
                pos: r->Ok_0 as nat,
            }) == json_shown::behind(SrcState::Text { data: data@, pos: 0 }, j),
        !(exists|j: Json| skippable(data@, j)) ==> match skip_token(data@) {
            Ok(n) => r is Ok && r->Ok_0 == n,
            Err(f) => r is Err && fail_view(r->Err_0) == f,
        },
        r is Ok ==> 1 <= r->Ok_0 <= data@.len(),
{
    let mut jiter = Jiter::new(data);
    jiter.next_skip().map_err(
        |e| JsonFail { message: e.error_type.to_string(), index: e.index },
    )?;
    Ok(jiter.current_index())
}

/// `Jiter::finish`: accepts white space up to the end.
#[verifier::external_body]
pub(crate) fn jiter_finish(data: &[u8]) -> (r: Result<(), JsonFail>)
    ensures
        match finish_at(data@) {
            Ok(_) => r is Ok,
            Err(f) => r is Err && fail_view(r->Err_0) == f,
        },
{
    Jiter::new(data).finish().map_err(
        |e| JsonFail { message: e.error_type.to_string(), index: e.index },
    )
}

pub open spec fn key_view(key: Option<String>) -> Option<Seq<char>> {
    match key {
        Some(k) => Some(k@),
        None => None,
    }
}

} // verus!
