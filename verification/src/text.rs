//! Characters, digits and decimal texts.

use vstd::prelude::*;
use vstd::arithmetic::power;
use vstd::string::*;

verus! {

/// `String::push` appends one character.
pub assume_specification[ std::string::String::push ](s: &mut std::string::String, c: char)
    ensures
        final(s)@ == old(s)@.push(c),
;

/// The characters of a text, in order.
pub fn chars_of(s: &str) -> (r: Vec<char>)
    ensures
        r@ == s@,
{
    let mut r: Vec<char> = Vec::new();
    for c in it: s.chars()
        invariant
            it.seq() == s@,
            r@ == it.seq().take(it.index() as int),
    {
        r.push(c);
    }
    r
}

/// Whether two texts hold the same characters.
pub fn same_text(a: &str, b: &str) -> (r: bool)
    ensures
        r == (a@ == b@),
{
    let left: Vec<char> = chars_of(a);
    let right: Vec<char> = chars_of(b);
    if left.len() != right.len() {
        return false;
    }
    let mut i: usize = 0;
    while i < left.len()
        invariant
            i <= left@.len(),
            left@ == a@,
            right@ == b@,
            left@.len() == right@.len(),
            left@.take(i as int) == right@.take(i as int),
        decreases left@.len() - i,
    {
        if left[i] != right[i] {
            return false;
        }
        i = i + 1;
        assert(left@.take(i as int) =~= left@.take(i - 1).push(left@[i - 1]));
        assert(right@.take(i as int) =~= right@.take(i - 1).push(right@[i - 1]));
    }
    assert(left@.take(i as int) =~= left@);
    assert(right@.take(i as int) =~= right@);
    true
}

/// The text made of the characters `chars[from..to]`.
pub fn text_between(chars: &Vec<char>, from: usize, to: usize) -> (r: String)
    requires
        from <= to <= chars@.len(),
    ensures
        r@ == chars@.subrange(from as int, to as int),
{
    let mut r: String = String::new();
    let mut i: usize = from;
    while i < to
        invariant
            from <= i <= to <= chars@.len(),
            r@ == chars@.subrange(from as int, i as int),
        decreases to - i,
    {
        r.push(chars[i]);
        i = i + 1;
        assert(r@ =~= chars@.subrange(from as int, i as int));
    }
    r
}

/// The text made of the given characters.
pub fn text_of(chars: &Vec<char>) -> (r: String)
    ensures
        r@ == chars@,
{
    let r: String = text_between(chars, 0, chars.len());
    assert(chars@.subrange(0, chars@.len() as int) =~= chars@);
    r
}

/// Whether `c` is one of `0` to `9`.
pub open spec fn is_digit(c: char) -> bool {
    '0' <= c <= '9'
}

/// The number a digit stands for.
pub open spec fn digit_value(c: char) -> nat {
    (c as nat - '0' as nat) as nat
}

/// The digit that stands for `d`, for `d` below ten.
pub open spec fn digit_char(d: nat) -> char {
    ('0' as nat + d) as char
}

pub open spec fn all_digits(s: Seq<char>) -> bool {
    forall|i: int| 0 <= i < s.len() ==> is_digit(#[trigger] s[i])
}

/// The number that a text of digits stands for, most significant digit first.
pub open spec fn digits_value(s: Seq<char>) -> nat
    decreases s.len(),
{
    if s.len() == 0 {
        0
    } else {
        digits_value(s.drop_last()) * 10 + digit_value(s.last())
    }
}

/// The decimal text of `n`, without leading zeros.
pub open spec fn nat_text(n: nat) -> Seq<char>
    decreases n,
{
    if n < 10 {
        seq![digit_char(n)]
    } else {
        nat_text(n / 10).push(digit_char(n % 10))
    }
}

/// The decimal text of `n`, with a leading `-` when `n` is negative.
pub open spec fn int_text(n: int) -> Seq<char> {
    if n < 0 {
        seq!['-'] + nat_text((-n) as nat)
    } else {
        nat_text(n as nat)
    }
}

/// A decimal fraction: a number without leading zeros, a point and digits behind it.
pub open spec fn fraction_text(minus: bool, n: nat, digits: Seq<char>) -> Seq<char> {
    (if minus {
        seq!['-']
    } else {
        seq![]
    }) + nat_text(n) + seq!['.'] + digits
}

/// Whether a text is a decimal fraction.
pub open spec fn is_fraction(s: Seq<char>) -> bool {
    exists|minus: bool, n: nat, digits: Seq<char>|
        digits.len() > 0 && all_digits(digits) && s == #[trigger] fraction_text(minus, n, digits)
}

/// Whether a text is the fraction of a number: nothing, or a point and digits.
pub open spec fn is_fraction_part(s: Seq<char>) -> bool {
    s.len() == 0 || s[0] == '.' && s.len() > 1 && all_digits(s.skip(1))
}

/// Whether a text is the exponent of a number: nothing, or an `e`, a sign or none, and digits.
pub open spec fn is_exponent_part(s: Seq<char>) -> bool {
    let digits = if s.len() > 1 && (s[1] == '+' || s[1] == '-') {
        s.skip(2)
    } else {
        s.skip(1)
    };
    s.len() == 0 || (s[0] == 'e' || s[0] == 'E') && digits.len() > 0 && all_digits(digits)
}

/// A number: a whole number without leading zeros, a fraction and an exponent.
pub open spec fn number_text(
    minus: bool,
    n: nat,
    fraction: Seq<char>,
    exponent: Seq<char>,
) -> Seq<char> {
    (if minus {
        seq!['-']
    } else {
        seq![]
    }) + nat_text(n) + fraction + exponent
}

/// Whether a text is a number with a fraction, an exponent or both.
pub open spec fn is_float(s: Seq<char>) -> bool {
    exists|minus: bool, n: nat, fraction: Seq<char>, exponent: Seq<char>|
        is_fraction_part(fraction) && is_exponent_part(exponent) && fraction.len() + exponent.len()
            > 0 && s == #[trigger] number_text(minus, n, fraction, exponent)
}

/// A decimal fraction is a number with a fraction.
pub proof fn lemma_fraction_is_float(s: Seq<char>)
    requires
        is_fraction(s),
    ensures
        is_float(s),
{
    let (minus, n, digits) = choose|minus: bool, n: nat, digits: Seq<char>|
        digits.len() > 0 && all_digits(digits) && s == #[trigger] fraction_text(minus, n, digits);
    let fraction = seq!['.'] + digits;
    assert(fraction.skip(1) =~= digits);
    assert(s =~= number_text(minus, n, fraction, seq![]));
}

/// The last `width` decimal digits of `n`, padded with leading zeros.
pub open spec fn padded(n: nat, width: nat) -> Seq<char>
    decreases width,
{
    if width == 0 {
        seq![]
    } else {
        padded(n / 10, (width - 1) as nat).push(digit_char(n % 10))
    }
}

/// A digit's character and value undo each other.
pub proof fn lemma_digit_char(d: nat)
    requires
        d < 10,
    ensures
        is_digit(digit_char(d)),
        digit_value(digit_char(d)) == d,
{
}

/// A decimal text consists of digits, stands for the number it was made from, and has no
/// leading zero unless it is `0`.
pub proof fn lemma_nat_text(n: nat)
    ensures
        all_digits(nat_text(n)),
        digits_value(nat_text(n)) == n,
        nat_text(n).len() >= 1,
        n != 0 ==> nat_text(n)[0] != '0',
    decreases n,
{
    if n < 10 {
        lemma_digit_char(n);
        let s = nat_text(n);
        assert(s.drop_last() =~= Seq::<char>::empty());
        reveal_with_fuel(digits_value, 2);
    } else {
        lemma_nat_text(n / 10);
        lemma_digit_char(n % 10);
        let s = nat_text(n);
        assert(s.drop_last() =~= nat_text(n / 10));
        assert(s[0] == nat_text(n / 10)[0]);
    }
}

/// A padded text has the asked width, consists of digits, and stands for the number whenever
/// the number fits the width.
pub proof fn lemma_padded(n: nat, width: nat)
    ensures
        padded(n, width).len() == width,
        all_digits(padded(n, width)),
        n < power::pow(10, width) ==> digits_value(padded(n, width)) == n,
    decreases width,
{
    reveal(power::pow);
    if width > 0 {
        lemma_padded(n / 10, (width - 1) as nat);
        lemma_digit_char(n % 10);
        let s = padded(n, width);
        assert(s.drop_last() =~= padded(n / 10, (width - 1) as nat));
    }
}

/// The value of a text of digits is below the power of ten of its length.
pub proof fn lemma_digits_value_bound(s: Seq<char>)
    requires
        all_digits(s),
    ensures
        digits_value(s) < power::pow(10, s.len()),
    decreases s.len(),
{
    reveal(power::pow);
    if s.len() > 0 {
        let t = s.drop_last();
        assert forall|i: int| 0 <= i < t.len() implies is_digit(#[trigger] t[i]) by {
            assert(t[i] == s[i]);
        }
        lemma_digits_value_bound(t);
        assert(is_digit(s[s.len() - 1]));
    }
}

/// Reading one digit more multiplies the value by ten and adds the digit.
pub proof fn lemma_digits_value_step(s: Seq<char>, i: int)
    requires
        0 <= i < s.len(),
    ensures
        digits_value(s.take(i + 1)) == digits_value(s.take(i)) * 10 + digit_value(s[i]),
{
    assert(s.take(i + 1).drop_last() =~= s.take(i));
}

/// Texts of digits with the same value and length are the same text.
pub proof fn lemma_digits_injective(a: Seq<char>, b: Seq<char>)
    requires
        all_digits(a),
        all_digits(b),
        a.len() == b.len(),
        digits_value(a) == digits_value(b),
    ensures
        a == b,
    decreases a.len(),
{
    if a.len() > 0 {
        let x = a.drop_last();
        let y = b.drop_last();
        assert forall|i: int| 0 <= i < x.len() implies is_digit(#[trigger] x[i]) by {
            assert(x[i] == a[i]);
        }
        assert forall|i: int| 0 <= i < y.len() implies is_digit(#[trigger] y[i]) by {
            assert(y[i] == b[i]);
        }
        assert(is_digit(a[a.len() - 1]) && is_digit(b[b.len() - 1]));
        lemma_digits_injective(x, y);
        assert(a =~= x.push(a.last()));
        assert(b =~= y.push(b.last()));
    } else {
        assert(a =~= b);
    }
}

/// Whether `c` is a digit.
pub fn char_is_digit(c: char) -> (r: bool)
    ensures
        r == is_digit(c),
{
    '0' <= c && c <= '9'
}

/// The number a digit stands for.
pub fn char_digit_value(c: char) -> (r: u8)
    requires
        is_digit(c),
    ensures
        r == digit_value(c),
        r < 10,
{
    (c as u32 - '0' as u32) as u8
}

/// The digit that stands for `d`.
pub fn char_of_digit(d: u8) -> (r: char)
    requires
        d < 10,
    ensures
        r == digit_char(d as nat),
        is_digit(r),
{
    (48 + d) as char
}

/// Whether all characters of `chars[from..to]` are digits.
pub fn digits_between(chars: &Vec<char>, from: usize, to: usize) -> (r: bool)
    requires
        from <= to <= chars@.len(),
    ensures
        r == all_digits(chars@.subrange(from as int, to as int)),
{
    let ghost part = chars@.subrange(from as int, to as int);
    let mut i: usize = from;
    while i < to
        invariant
            from <= i <= to <= chars@.len(),
            part == chars@.subrange(from as int, to as int),
            forall|j: int| 0 <= j < i - from ==> is_digit(#[trigger] part[j]),
        decreases to - i,
    {
        if !char_is_digit(chars[i]) {
            assert(!is_digit(part[i - from]));
            return false;
        }
        i = i + 1;
    }
    true
}

/// The value of the digits `chars[from..to]`, of which there are at most eighteen.
pub fn digits_value_between(chars: &Vec<char>, from: usize, to: usize) -> (r: u64)
    requires
        from <= to <= chars@.len(),
        to - from <= 18,
        all_digits(chars@.subrange(from as int, to as int)),
    ensures
        r == digits_value(chars@.subrange(from as int, to as int)),
        r < power::pow(10, (to - from) as nat),
{
    let ghost part = chars@.subrange(from as int, to as int);
    let mut i: usize = from;
    let mut v: u64 = 0;
    proof {
        reveal(power::pow);
    }
    while i < to
        invariant
            from <= i <= to <= chars@.len(),
            to - from <= 18,
            part == chars@.subrange(from as int, to as int),
            all_digits(part),
            v == digits_value(part.take(i - from)),
            v < power::pow(10, (i - from) as nat),
        decreases to - i,
    {
        proof {
            lemma_digits_value_step(part, i - from);
            assert(is_digit(part[i - from]));
            lemma_pow_ten_below((i - from) as nat);
            reveal(power::pow);
            assert(power::pow(10, (i - from + 1) as nat) == 10 * power::pow(10, (i - from) as nat));
        }
        v = v * 10 + char_digit_value(chars[i]) as u64;
        i = i + 1;
    }
    proof {
        assert(part.take(to - from) =~= part);
    }
    v
}

/// The powers of ten below the eighteenth fit a `u64` with a digit to spare.
pub proof fn lemma_pow_ten_below(n: nat)
    requires
        n <= 18,
    ensures
        1 <= power::pow(10, n) <= 1_000_000_000_000_000_000,
    decreases 18 - n,
{
    reveal(power::pow);
    power::lemma_pow_positive(10, n);
    if n < 18 {
        lemma_pow_ten_below(n + 1);
        assert(power::pow(10, n + 1) == 10 * power::pow(10, n));
    } else {
        assert(power::pow(10, 18) == 1_000_000_000_000_000_000) by {
            reveal_with_fuel(power::pow, 19);
        }
    }
}

/// Appends the last `width` digits of `n`, padded with leading zeros.
pub fn push_padded(out: &mut String, n: u64, width: usize)
    ensures
        final(out)@ == old(out)@ + padded(n as nat, width as nat),
    decreases width,
{
    if width > 0 {
        push_padded(out, n / 10, width - 1);
        out.push(char_of_digit((n % 10) as u8));
        assert(out@ =~= old(out)@ + padded(n as nat, width as nat));
    } else {
        assert(out@ =~= old(out)@ + padded(n as nat, width as nat));
    }
}

/// `itoa::Buffer::format` writes an `i64` in decimal, with a leading `-` for a negative number.
#[verifier::external_body]
pub(crate) fn format_i64(v: i64) -> (r: String)
    ensures
        r@ == int_text(v as int),
{
    itoa::Buffer::new().format(v).to_owned()
}

/// `itoa::Buffer::format` writes a `u64` in decimal.
#[verifier::external_body]
pub(crate) fn format_u64(v: u64) -> (r: String)
    ensures
        r@ == int_text(v as int),
{
    itoa::Buffer::new().format(v).to_owned()
}

/// The characters with Unicode's `White_Space` property.
pub open spec fn is_white(c: char) -> bool {
    ||| '\u{9}' <= c <= '\u{d}'
    ||| c == ' '
    ||| c == '\u{85}'
    ||| c == '\u{a0}'
    ||| c == '\u{1680}'
    ||| '\u{2000}' <= c <= '\u{200a}'
    ||| c == '\u{2028}'
    ||| c == '\u{2029}'
    ||| c == '\u{202f}'
    ||| c == '\u{205f}'
    ||| c == '\u{3000}'
}

/// Whether a text is non-empty and neither starts nor ends with white space.
pub open spec fn is_trimmed(s: Seq<char>) -> bool {
    s.len() > 0 && !is_white(s[0]) && !is_white(s.last())
}

pub fn char_is_white(c: char) -> (r: bool)
    ensures
        r == is_white(c),
{
    ('\u{9}' <= c && c <= '\u{d}') || c == ' ' || c == '\u{85}' || c == '\u{a0}'
        || c == '\u{1680}' || ('\u{2000}' <= c && c <= '\u{200a}') || c == '\u{2028}'
        || c == '\u{2029}' || c == '\u{202f}' || c == '\u{205f}' || c == '\u{3000}'
}

pub fn chars_are_trimmed(chars: &Vec<char>) -> (r: bool)
    ensures
        r == is_trimmed(chars@),
{
    chars.len() > 0 && !char_is_white(chars[0]) && !char_is_white(chars[chars.len() - 1])
}

/// Whether `c` occurs in the text.
pub fn text_has_char(chars: &Vec<char>, c: char) -> (r: bool)
    ensures
        r == chars@.contains(c),
{
    let mut i: usize = 0;
    while i < chars.len()
        invariant
            i <= chars@.len(),
            forall|j: int| 0 <= j < i ==> chars@[j] != c,
        decreases chars@.len() - i,
    {
        if chars[i] == c {
            return true;
        }
        i = i + 1;
    }
    false
}

/// Whether `s` starts with `prefix`.
pub open spec fn starts_with(s: Seq<char>, prefix: Seq<char>) -> bool {
    prefix.len() <= s.len() && s.take(prefix.len() as int) == prefix
}

/// Whether `s` starts with `prefix`.
pub fn text_starts_with(s: &str, prefix: &str) -> (r: bool)
    ensures
        r == starts_with(s@, prefix@),
{
    let chars: Vec<char> = chars_of(s);
    let want: Vec<char> = chars_of(prefix);
    if want.len() > chars.len() {
        return false;
    }
    let mut i: usize = 0;
    while i < want.len()
        invariant
            i <= want@.len() <= chars@.len(),
            chars@ == s@,
            want@ == prefix@,
            forall|j: int| 0 <= j < i ==> chars@[j] == want@[j],
        decreases want@.len() - i,
    {
        if chars[i] != want[i] {
            assert(s@.take(prefix@.len() as int)[i as int] != prefix@[i as int]);
            return false;
        }
        i = i + 1;
    }
    assert(s@.take(prefix@.len() as int) =~= prefix@);
    true
}

} // verus!
