//! Integers of any size, held as a sign and decimal digits.

use vstd::prelude::*;
use vstd::string::*;
use crate::text;
use crate::text::{char_digit_value, char_is_digit, char_of_digit, chars_of, format_i64, text_of};

verus! {

/// An integer of any size. Its digits carry no leading zeros, and zero has no sign.
pub struct Integer {
    negative: bool,
    digits: Vec<char>,
}

/// Whether a text is the decimal text of some natural number: digits without leading zeros.
pub open spec fn is_canonical(s: Seq<char>) -> bool {
    &&& s.len() >= 1
    &&& text::all_digits(s)
    &&& s.len() > 1 ==> s[0] != '0'
}

/// A canonical text whose first digit is not zero stands for a positive number.
proof fn lemma_leading_digit(s: Seq<char>)
    requires
        text::all_digits(s),
        s.len() >= 1,
        s[0] != '0',
    ensures
        text::digits_value(s) >= 1,
    decreases s.len(),
{
    assert(text::is_digit(s[0]));
    if s.len() > 1 {
        let t = s.drop_last();
        assert(t[0] == s[0]);
        assert forall|i: int| 0 <= i < t.len() implies text::is_digit(#[trigger] t[i]) by {
            assert(t[i] == s[i]);
        }
        lemma_leading_digit(t);
    } else {
        assert(s.last() == s[0]);
    }
}

/// A canonical text is the decimal text of the number it stands for.
pub proof fn lemma_canonical_text(s: Seq<char>)
    requires
        is_canonical(s),
    ensures
        s == text::nat_text(text::digits_value(s)),
    decreases s.len(),
{
    let v = text::digits_value(s);
    assert(text::is_digit(s[s.len() - 1]));
    if s.len() == 1 {
        assert(s.drop_last() =~= Seq::<char>::empty());
        assert(text::digits_value(s.drop_last()) == 0);
        assert(v == text::digit_value(s[0]));
        assert(s =~= seq![text::digit_char(v)]);
    } else {
        let t = s.drop_last();
        assert(t[0] == s[0]);
        assert forall|i: int| 0 <= i < t.len() implies text::is_digit(#[trigger] t[i]) by {
            assert(t[i] == s[i]);
        }
        lemma_leading_digit(t);
        lemma_canonical_text(t);
        assert(v / 10 == text::digits_value(t) && v % 10 == text::digit_value(s.last()));
        assert(v >= 10);
        assert(s =~= t.push(s.last()));
    }
}

/// Dropping a leading zero does not change the value.
proof fn lemma_drop_leading_zero(s: Seq<char>)
    requires
        s.len() >= 1,
        s[0] == '0',
    ensures
        text::digits_value(s.skip(1)) == text::digits_value(s),
    decreases s.len(),
{
    if s.len() == 1 {
        assert(s.skip(1) =~= Seq::<char>::empty());
        assert(s.drop_last() =~= Seq::<char>::empty());
        reveal_with_fuel(text::digits_value, 2);
    } else {
        lemma_drop_leading_zero(s.drop_last());
        assert(s.drop_last().skip(1) =~= s.skip(1).drop_last());
    }
}

/// A prefix of a text of digits has no greater value.
proof fn lemma_prefix_value(s: Seq<char>, n: int)
    requires
        0 <= n <= s.len(),
        text::all_digits(s),
    ensures
        text::digits_value(s.take(n)) <= text::digits_value(s),
    decreases s.len() - n,
{
    if n < s.len() {
        lemma_prefix_value(s, n + 1);
        text::lemma_digits_value_step(s, n);
        assert(text::is_digit(s[n]));
    } else {
        assert(s.take(n) =~= s);
    }
}

impl Integer {
    #[verifier::type_invariant]
    spec fn canonical(self) -> bool {
        &&& is_canonical(self.digits@)
        &&& self.negative ==> text::digits_value(self.digits@) > 0
    }

    /// The number.
    pub closed spec fn view(&self) -> int {
        if self.negative {
            -(text::digits_value(self.digits@) as int)
        } else {
            text::digits_value(self.digits@) as int
        }
    }

    /// The integer with the given sign and the magnitude that `chars[from..to]` stand for.
    pub fn from_digits(negative: bool, chars: &Vec<char>, from: usize, to: usize) -> (r: Integer)
        requires
            from < to <= chars@.len(),
            text::all_digits(chars@.subrange(from as int, to as int)),
        ensures
            r@ == if negative {
                -(text::digits_value(chars@.subrange(from as int, to as int)) as int)
            } else {
                text::digits_value(chars@.subrange(from as int, to as int)) as int
            },
    {
        let ghost all = chars@.subrange(from as int, to as int);
        let mut start: usize = from;
        while start + 1 < to && chars[start] == '0'
            invariant
                from <= start < to <= chars@.len(),
                all == chars@.subrange(from as int, to as int),
                text::all_digits(all),
                text::digits_value(chars@.subrange(start as int, to as int)) == text::digits_value(all),
            decreases to - start,
        {
            proof {
                let s = chars@.subrange(start as int, to as int);
                lemma_drop_leading_zero(s);
                assert(s.skip(1) =~= chars@.subrange(start + 1, to as int));
            }
            start = start + 1;
        }
        let ghost rest = chars@.subrange(start as int, to as int);
        let mut digits: Vec<char> = Vec::new();
        let mut i: usize = start;
        while i < to
            invariant
                start <= i <= to <= chars@.len(),
                digits@ == chars@.subrange(start as int, i as int),
            decreases to - i,
        {
            digits.push(chars[i]);
            i = i + 1;
            assert(digits@ =~= chars@.subrange(start as int, i as int));
        }
        proof {
            assert forall|j: int| 0 <= j < rest.len() implies text::is_digit(#[trigger] rest[j]) by {
                assert(rest[j] == all[j + start - from]);
            }
            if rest.len() == 1 {
                assert(rest.drop_last() =~= Seq::<char>::empty());
                reveal_with_fuel(text::digits_value, 2);
                assert(text::is_digit(rest[0]));
            } else {
                lemma_leading_digit(rest);
            }
        }
        let zero: bool = digits.len() == 1 && digits[0] == '0';
        Integer { negative: negative && !zero, digits }
    }

    /// The integer with a machine integer's value.
    pub fn from_i64(v: i64) -> (r: Integer)
        ensures
            r@ == v,
    {
        let text: String = format_i64(v);
        let chars: Vec<char> = chars_of(text.as_str());
        proof {
            text::lemma_nat_text(if v < 0 {
                (-v) as nat
            } else {
                v as nat
            });
        }
        if v < 0 {
            assert(chars@.subrange(1, chars@.len() as int) =~= text::nat_text((-v) as nat));
            Integer::from_digits(true, &chars, 1, chars.len())
        } else {
            assert(chars@.subrange(0, chars@.len() as int) =~= text::nat_text(v as nat));
            Integer::from_digits(false, &chars, 0, chars.len())
        }
    }

    /// The decimal text.
    pub fn text(&self) -> (r: String)
        ensures
            r@ == text::int_text(self@),
    {
        proof {
            use_type_invariant(self);
            lemma_canonical_text(self.digits@);
        }
        if self.negative {
            let mut r: String = String::new();
            r.push('-');
            let digits: String = text_of(&self.digits);
            r.append(digits.as_str());
            assert(r@ =~= text::int_text(self@));
            r
        } else {
            text_of(&self.digits)
        }
    }

    /// A copy.
    pub fn copy(&self) -> (r: Integer)
        ensures
            r@ == self@,
    {
        proof {
            use_type_invariant(self);
            assert(self.digits@.subrange(0, self.digits@.len() as int) =~= self.digits@);
        }
        Integer::from_digits(self.negative, &self.digits, 0, self.digits.len())
    }

    /// Whether two integers are equal.
    pub fn same(&self, other: &Integer) -> (r: bool)
        ensures
            r == (self@ == other@),
    {
        proof {
            use_type_invariant(self);
            use_type_invariant(other);
            lemma_canonical_text(self.digits@);
            lemma_canonical_text(other.digits@);
        }
        if self.negative != other.negative || self.digits.len() != other.digits.len() {
            return false;
        }
        let mut i: usize = 0;
        while i < self.digits.len()
            invariant
                i <= self.digits@.len() == other.digits@.len(),
                forall|j: int| 0 <= j < i ==> self.digits@[j] == other.digits@[j],
                self.negative == other.negative,
                self.digits@ == text::nat_text(text::digits_value(self.digits@)),
                other.digits@ == text::nat_text(text::digits_value(other.digits@)),
            decreases self.digits@.len() - i,
        {
            if self.digits[i] != other.digits[i] {
                return false;
            }
            i = i + 1;
        }
        assert(self.digits@ =~= other.digits@);
        true
    }

    /// The magnitude, if a `u64` can hold it.
    fn magnitude(&self) -> (r: Option<u64>)
        ensures
            r is Some <==> -u64::MAX <= self@ <= u64::MAX,
            r is Some ==> r->0 == if self@ < 0 {
                -self@
            } else {
                self@
            },
    {
        proof {
            use_type_invariant(self);
        }
        let ghost s = self.digits@;
        let mut v: u64 = 0;
        let mut i: usize = 0;
        while i < self.digits.len()
            invariant
                i <= s.len(),
                s == self.digits@,
                text::all_digits(s),
                v == text::digits_value(s.take(i as int)),
                self@ == text::digits_value(s) || self@ == -(text::digits_value(s) as int),
            decreases s.len() - i,
        {
            proof {
                text::lemma_digits_value_step(s, i as int);
                lemma_prefix_value(s, i + 1);
                assert(text::is_digit(s[i as int]));
            }
            let d: u64 = char_digit_value(self.digits[i]) as u64;
            if v > (u64::MAX - d) / 10 {
                return None;
            }
            v = v * 10 + d;
            i = i + 1;
        }
        assert(s.take(i as int) =~= s);
        Some(v)
    }

    /// The value as an `i64`, if it fits.
    pub fn to_i64(&self) -> (r: Option<i64>)
        ensures
            r is Some <==> i64::MIN <= self@ <= i64::MAX,
            r is Some ==> r->0 == self@,
    {
        proof {
            use_type_invariant(self);
        }
        match self.magnitude() {
            None => None,
            Some(m) => {
                if self.negative {
                    if m <= 0x7fff_ffff_ffff_ffff {
                        Some(-(m as i64))
                    } else if m == 0x8000_0000_0000_0000 {
                        Some(i64::MIN)
                    } else {
                        None
                    }
                } else if m <= 0x7fff_ffff_ffff_ffff {
                    Some(m as i64)
                } else {
                    None
                }
            },
        }
    }

    /// The value as a `u64`, if it fits.
    pub fn to_u64(&self) -> (r: Option<u64>)
        ensures
            r is Some <==> 0 <= self@ <= u64::MAX,
            r is Some ==> r->0 == self@,
    {
        proof {
            use_type_invariant(self);
        }
        if self.negative {
            None
        } else {
            self.magnitude()
        }
    }

    /// The value as an `i32`, if it fits.
    pub fn to_i32(&self) -> (r: Option<i32>)
        ensures
            r is Some <==> i32::MIN <= self@ <= i32::MAX,
            r is Some ==> r->0 == self@,
    {
        match self.to_i64() {
            Some(v) => {
                if -0x8000_0000 <= v && v <= 0x7fff_ffff {
                    Some(v as i32)
                } else {
                    None
                }
            },
            None => None,
        }
    }

    /// Twice the integer.
    pub fn twice(&self) -> (r: Integer)
        ensures
            r@ == 2 * self@,
    {
        proof {
            use_type_invariant(self);
        }
        let digits: Vec<char> = twice_plus(&self.digits, self.digits.len(), 0);
        proof {
            assert(self.digits@.take(self.digits@.len() as int) =~= self.digits@);
            assert(digits@.subrange(0, digits@.len() as int) =~= digits@);
        }
        Integer::from_digits(self.negative, &digits, 0, digits.len())
    }
}

/// The digits of twice the number that the first `n` digits stand for, plus a carry.
fn twice_plus(digits: &Vec<char>, n: usize, carry: u8) -> (r: Vec<char>)
    requires
        n <= digits@.len(),
        text::all_digits(digits@),
        carry <= 1,
    ensures
        text::all_digits(r@),
        text::digits_value(r@) == 2 * text::digits_value(digits@.take(n as int)) + carry,
        n > 0 ==> r@.len() > 0,
    decreases n,
{
    if n == 0 {
        let mut r: Vec<char> = Vec::new();
        if carry == 1 {
            r.push('1');
            assert(r@.drop_last() =~= Seq::<char>::empty());
            reveal_with_fuel(text::digits_value, 2);
        }
        r
    } else {
        proof {
            text::lemma_digits_value_step(digits@, n - 1);
            assert(text::is_digit(digits@[n - 1]));
        }
        let t: u8 = 2 * char_digit_value(digits[n - 1]) + carry;
        let mut r: Vec<char> = twice_plus(digits, n - 1, t / 10);
        let ghost high = r@;
        let c: char = char_of_digit(t % 10);
        r.push(c);
        proof {
            text::lemma_digit_char((t % 10) as nat);
            assert(r@.drop_last() =~= high);
        }
        r
    }
}

/// The digits of a text in which single underscores may separate digits; nothing if the text
/// is no such text.
pub open spec fn grouped_digits(s: Seq<char>) -> Option<Seq<char>>
    decreases s.len(),
{
    if s.len() == 0 || !text::is_digit(s.last()) {
        None
    } else if s.len() == 1 {
        Some(s)
    } else {
        let head = s.drop_last();
        match grouped_digits(if head.last() == '_' {
            head.drop_last()
        } else {
            head
        }) {
            Some(d) => Some(d.push(s.last())),
            None => None,
        }
    }
}

/// The integer that a text of an optional sign and grouped digits stands for.
pub open spec fn int_literal(s: Seq<char>) -> Option<int> {
    if s.len() == 0 {
        None
    } else if s[0] == '-' {
        match grouped_digits(s.skip(1)) {
            Some(d) => Some(-(text::digits_value(d) as int)),
            None => None,
        }
    } else {
        match grouped_digits(if s[0] == '+' {
            s.skip(1)
        } else {
            s
        }) {
            Some(d) => Some(text::digits_value(d) as int),
            None => None,
        }
    }
}

fn grouped_digits_between(chars: &Vec<char>, from: usize, to: usize) -> (r: Option<Vec<char>>)
    requires
        from <= to <= chars@.len(),
    ensures
        r is Some <==> grouped_digits(chars@.subrange(from as int, to as int)) is Some,
        r is Some ==> {
            &&& r->0@ == grouped_digits(chars@.subrange(from as int, to as int))->0
            &&& text::all_digits(r->0@)
            &&& r->0@.len() > 0
        },
    decreases to,
{
    let ghost s = chars@.subrange(from as int, to as int);
    if from == to || !char_is_digit(chars[to - 1]) {
        return None;
    }
    if to - from == 1 {
        let mut r: Vec<char> = Vec::new();
        r.push(chars[from]);
        assert(r@ =~= s);
        return Some(r);
    }
    let end: usize = if chars[to - 2] == '_' { to - 2 } else { to - 1 };
    proof {
        let head = s.drop_last();
        assert(head.last() == chars@[to - 2]);
        assert(head =~= chars@.subrange(from as int, to - 1));
        assert(head.drop_last() =~= chars@.subrange(from as int, to - 2));
    }
    match grouped_digits_between(chars, from, end) {
        Some(mut r) => {
            r.push(chars[to - 1]);
            Some(r)
        },
        None => None,
    }
}

/// Reads an optional sign and grouped digits.
pub fn parse_int_literal(chars: &Vec<char>) -> (r: Option<Integer>)
    ensures
        r is Some <==> int_literal(chars@) is Some,
        r is Some ==> r->0@ == int_literal(chars@)->0,
{
    if chars.len() == 0 {
        return None;
    }
    let negative: bool = chars[0] == '-';
    let start: usize = if negative || chars[0] == '+' { 1 } else { 0 };
    proof {
        assert(chars@.subrange(0, chars@.len() as int) =~= chars@);
        assert(chars@.subrange(1, chars@.len() as int) =~= chars@.skip(1));
    }
    match grouped_digits_between(chars, start, chars.len()) {
        Some(digits) => {
            assert(digits@.subrange(0, digits@.len() as int) =~= digits@);
            Some(Integer::from_digits(negative, &digits, 0, digits.len()))
        },
        None => None,
    }
}

/// A text of digits is its own group of digits.
proof fn lemma_grouped_plain(s: Seq<char>)
    requires
        text::all_digits(s),
        s.len() > 0,
    ensures
        grouped_digits(s) == Some(s),
    decreases s.len(),
{
    assert(text::is_digit(s[s.len() - 1]));
    if s.len() > 1 {
        let head = s.drop_last();
        assert forall|i: int| 0 <= i < head.len() implies text::is_digit(#[trigger] head[i]) by {
            assert(head[i] == s[i]);
        }
        assert(text::is_digit(head[head.len() - 1]));
        lemma_grouped_plain(head);
        assert(head.push(s.last()) =~= s);
    }
}

/// Reading the decimal text of an integer gives the integer back.
pub proof fn lemma_int_text_read_back(n: int)
    ensures
        int_literal(text::int_text(n)) == Some(n),
{
    let m = if n < 0 {
        (-n) as nat
    } else {
        n as nat
    };
    text::lemma_nat_text(m);
    lemma_grouped_plain(text::nat_text(m));
    let s = text::int_text(n);
    if n < 0 {
        assert(s.skip(1) =~= text::nat_text(m));
    } else {
        assert(text::is_digit(s[0]));
    }
}

/// Digits may stand in groups with an underscore between them, which makes no difference to the
/// integer. A sign may stand in front.
pub proof fn lemma_groups_of_digits(a: Seq<char>, b: Seq<char>)
    requires
        text::all_digits(a),
        a.len() > 0,
        text::all_digits(b),
        b.len() > 0,
    ensures
        int_literal(a + seq!['_'] + b) == Some(text::digits_value(a + b) as int),
        int_literal(seq!['+'] + (a + seq!['_'] + b)) == Some(text::digits_value(a + b) as int),
        int_literal(seq!['-'] + (a + seq!['_'] + b)) == Some(-(text::digits_value(a + b) as int)),
        int_literal(seq!['+'] + a) == Some(text::digits_value(a) as int),
        int_literal(seq!['-'] + a) == Some(-(text::digits_value(a) as int)),
{
    let s = a + seq!['_'] + b;
    lemma_grouped(a, b);
    lemma_grouped_plain(a);
    assert(text::is_digit(s[0])) by {
        assert(s[0] == a[0]);
        assert(text::is_digit(a[0]));
    }
    assert((seq!['+'] + s).skip(1) =~= s);
    assert((seq!['-'] + s).skip(1) =~= s);
    assert((seq!['+'] + a).skip(1) =~= a);
    assert((seq!['-'] + a).skip(1) =~= a);
}

proof fn lemma_grouped(a: Seq<char>, b: Seq<char>)
    requires
        text::all_digits(a),
        a.len() > 0,
        text::all_digits(b),
        b.len() > 0,
    ensures
        grouped_digits(a + seq!['_'] + b) == Some(a + b),
    decreases b.len(),
{
    let s = a + seq!['_'] + b;
    let head = s.drop_last();
    assert(text::is_digit(b[b.len() - 1]));
    assert(s.last() == b.last());
    if b.len() == 1 {
        assert(head =~= a.push('_'));
        assert(head.drop_last() =~= a);
        lemma_grouped_plain(a);
        assert(a.push(b.last()) =~= a + b);
    } else {
        let c = b.drop_last();
        assert forall|i: int| 0 <= i < c.len() implies text::is_digit(#[trigger] c[i]) by {
            assert(c[i] == b[i]);
        }
        lemma_grouped(a, c);
        assert(head =~= a + seq!['_'] + c);
        assert(text::is_digit(c[c.len() - 1]));
        assert(head.last() == c.last());
        assert((a + c).push(b.last()) =~= a + b);
    }
}

/// An integer is read from nothing but digits and underscores behind an optional sign. No underscore
/// stands at an end or next to another.
pub proof fn lemma_only_digits_are_integers(s: Seq<char>)
    requires
        int_literal(s) is Some,
    ensures
        ({
            let from = if s[0] == '-' || s[0] == '+' {
                1int
            } else {
                0
            };
            &&& from < s.len()
            &&& text::is_digit(s[from])
            &&& text::is_digit(s.last())
            &&& forall|i: int|
                from <= i < s.len() ==> text::is_digit(#[trigger] s[i]) || s[i] == '_'
                    && text::is_digit(s[i - 1]) && text::is_digit(s[i + 1])
        }),
{
    let from = if s[0] == '-' || s[0] == '+' {
        1int
    } else {
        0
    };
    let body = s.skip(from);
    assert(s.skip(0) =~= s);
    lemma_grouped_form(body);
    assert forall|i: int| from <= i < s.len() implies text::is_digit(#[trigger] s[i]) || s[i] == '_'
        && text::is_digit(s[i - 1]) && text::is_digit(s[i + 1]) by {
        assert(s[i] == body[i - from]);
        if !text::is_digit(s[i]) {
            assert(body[i - from - 1] == s[i - 1]);
            assert(body[i - from + 1] == s[i + 1]);
        }
    }
    assert(s.last() == body.last());
}

proof fn lemma_grouped_form(s: Seq<char>)
    requires
        grouped_digits(s) is Some,
    ensures
        s.len() > 0,
        text::is_digit(s[0]),
        text::is_digit(s.last()),
        forall|i: int|
            0 <= i < s.len() ==> text::is_digit(#[trigger] s[i]) || s[i] == '_' && i > 0 && i + 1
                < s.len() && text::is_digit(s[i - 1]) && text::is_digit(s[i + 1]),
    decreases s.len(),
{
    if s.len() > 1 {
        let head = s.drop_last();
        let rest = if head.last() == '_' {
            head.drop_last()
        } else {
            head
        };
        lemma_grouped_form(rest);
        assert(rest[0] == s[0]);
        assert forall|i: int| 0 <= i < s.len() implies text::is_digit(#[trigger] s[i]) || s[i] == '_'
            && i > 0 && i + 1 < s.len() && text::is_digit(s[i - 1]) && text::is_digit(s[i + 1]) by {
            if i < rest.len() {
                assert(rest[i] == s[i]);
                if !text::is_digit(s[i]) {
                    assert(rest[i - 1] == s[i - 1]);
                    assert(rest[i + 1] == s[i + 1]);
                }
            } else if i < s.len() - 1 {
                assert(head.last() == '_');
                assert(s[i] == head.last());
                assert(s[i - 1] == rest.last());
            }
        }
    }
}

} // verus!
