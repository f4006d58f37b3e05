//! The JSON texts of timestamps and durations.

use vstd::prelude::*;
use vstd::arithmetic::power;
use vstd::string::*;
use crate::civil;
use crate::civil::{civil_from_days, days_from_civil};
use crate::error;
use crate::error::{Error, ErrorOf, Fault, Fixed};
use crate::text;
use crate::text::{
    char_digit_value, char_is_digit, chars_of, digits_between, digits_value_between, format_i64, format_u64,
    push_padded,
};

verus! {

pub const NANOS_PER_SECOND_MAX: i32 = 999_999_999;

pub const DURATION_SECONDS_MAX: i64 = 315_576_000_000;

/// 0001-01-01T00:00:00Z.
pub const TIMESTAMP_SECONDS_MIN: i64 = -62_135_596_800;

/// 9999-12-31T23:59:59Z.
pub const TIMESTAMP_SECONDS_MAX: i64 = 253_402_300_799;

pub const SECONDS_PER_DAY: i64 = 86_400;

/// The parts of an RFC 3339 timestamp.
#[derive(Clone, Copy, Debug, PartialEq, Eq, Structural)]
pub struct Rfc3339 {
    pub year: i64,
    pub month: i64,
    pub day: i64,
    pub hour: u32,
    pub minute: u32,
    pub second: u32,
    pub nanos: i32,
    pub offset_seconds: i64,
}

/// The number that the digits `s[from..to]` stand for.
pub open spec fn number_at(s: Seq<char>, from: int, to: int) -> nat {
    text::digits_value(s.subrange(from, to))
}

pub open spec fn digits_at(s: Seq<char>, from: int, to: int) -> bool {
    text::all_digits(s.subrange(from, to))
}

/// The number of digits that a text starts with.
pub open spec fn digit_run(s: Seq<char>) -> nat
    decreases s.len(),
{
    if s.len() == 0 || !text::is_digit(s[0]) {
        0
    } else {
        1 + digit_run(s.skip(1))
    }
}

/// The nanoseconds that one to nine digits behind the decimal point stand for.
pub open spec fn fraction_nanos(digits: Seq<char>) -> int {
    text::digits_value(digits) * power::pow(10, (9 - digits.len()) as nat)
}

/// Whether a text starts with `YYYY-MM-DDTHH:MM:SS` and goes on.
pub open spec fn has_date_time(s: Seq<char>) -> bool {
    &&& s.len() >= 20
    &&& s[4] == '-' && s[7] == '-' && s[10] == 'T' && s[13] == ':' && s[16] == ':'
    &&& digits_at(s, 0, 4) && digits_at(s, 5, 7) && digits_at(s, 8, 10)
    &&& digits_at(s, 11, 13) && digits_at(s, 14, 16) && digits_at(s, 17, 19)
}

/// Whether the numbers of the date and the time are in range. Any month may have 31 days.
pub open spec fn date_time_in_range(s: Seq<char>) -> bool {
    &&& 1 <= number_at(s, 5, 7) <= 12
    &&& 1 <= number_at(s, 8, 10) <= 31
    &&& number_at(s, 11, 13) <= 23
    &&& number_at(s, 14, 16) <= 59
    &&& number_at(s, 17, 19) <= 59
}

/// The seconds east of UTC that `Z` or `±HH:MM` stands for.
pub open spec fn zone_offset(z: Seq<char>) -> Option<int> {
    if z == seq!['Z'] {
        Some(0)
    } else if z.len() == 6 && (z[0] == '+' || z[0] == '-') && z[3] == ':' && digits_at(z, 1, 3)
        && digits_at(z, 4, 6) && number_at(z, 1, 3) <= 23 && number_at(z, 4, 6) <= 59 {
        let seconds = number_at(z, 1, 3) * 3600 + number_at(z, 4, 6) * 60;
        Some(if z[0] == '+' { seconds as int } else { -(seconds as int) })
    } else {
        None
    }
}

/// The nanoseconds and the zone at the end of a timestamp.
pub open spec fn nanos_and_offset(rest: Seq<char>) -> Option<(int, int)> {
    let run = digit_run(rest.skip(1)) as int;
    if rest.len() > 0 && rest[0] == '.' {
        if 1 <= run <= 9 {
            match zone_offset(rest.skip(1 + run)) {
                Some(offset) => Some((fraction_nanos(rest.subrange(1, 1 + run)), offset)),
                None => None,
            }
        } else {
            None
        }
    } else {
        match zone_offset(rest) {
            Some(offset) => Some((0, offset)),
            None => None,
        }
    }
}

/// The parts of a text of the form `YYYY-MM-DDTHH:MM:SS(.fffffffff)?(Z|±HH:MM)`.
pub open spec fn rfc3339(s: Seq<char>) -> Option<Rfc3339> {
    if has_date_time(s) && date_time_in_range(s) {
        match nanos_and_offset(s.skip(19)) {
            Some((nanos, offset)) => Some(
                Rfc3339 {
                    year: number_at(s, 0, 4) as i64,
                    month: number_at(s, 5, 7) as i64,
                    day: number_at(s, 8, 10) as i64,
                    hour: number_at(s, 11, 13) as u32,
                    minute: number_at(s, 14, 16) as u32,
                    second: number_at(s, 17, 19) as u32,
                    nanos: nanos as i32,
                    offset_seconds: offset as i64,
                },
            ),
            None => None,
        }
    } else {
        None
    }
}

/// The seconds from 1970-01-01T00:00:00Z to a timestamp.
pub open spec fn epoch_seconds(t: Rfc3339) -> int {
    civil::day_number(t.year as int, t.month as int, t.day as int) * 86_400 + t.hour * 3600
        + t.minute * 60 + t.second - t.offset_seconds
}

/// What a timestamp's text stands for, as seconds and nanoseconds.
pub open spec fn timestamp_value(name: Seq<char>, s: Seq<char>) -> Result<(i64, i32), Fault> {
    match rfc3339(s) {
        None => Err(Fault::InvalidTimestamp { name }),
        Some(t) => if TIMESTAMP_SECONDS_MIN <= epoch_seconds(t) <= TIMESTAMP_SECONDS_MAX {
            Ok((epoch_seconds(t) as i64, t.nanos))
        } else {
            Err(Fault::TimestampRange { name })
        },
    }
}

/// The index of the first point of a text.
pub open spec fn point_index(s: Seq<char>) -> Option<int>
    decreases s.len(),
{
    if s.len() == 0 {
        None
    } else if s[0] == '.' {
        Some(0)
    } else {
        match point_index(s.skip(1)) {
            Some(i) => Some(i + 1),
            None => None,
        }
    }
}

/// The seconds and nanoseconds of a text of the form `-?[0-9]+(\.[0-9]{1,9})?s`, in range.
pub open spec fn duration_parts(s: Seq<char>) -> Option<(int, int)> {
    if s.len() == 0 || s.last() != 's' {
        None
    } else {
        let body = s.drop_last();
        let end = match point_index(body) {
            Some(i) => i,
            None => body.len() as int,
        };
        let whole = body.take(end);
        let negative = whole.len() > 0 && whole[0] == '-';
        let digits = if negative { whole.skip(1) } else { whole };
        let fraction = body.skip(end + 1);
        let has_fraction = point_index(body) is Some;
        if digits.len() > 0 && text::all_digits(digits) && text::digits_value(digits)
            <= DURATION_SECONDS_MAX && (has_fraction ==> 1 <= fraction.len() <= 9
            && text::all_digits(fraction)) {
            let seconds = text::digits_value(digits) as int;
            let nanos = if has_fraction { fraction_nanos(fraction) } else { 0 };
            Some(if negative { (-seconds, -nanos) } else { (seconds, nanos) })
        } else {
            None
        }
    }
}

/// What a duration's text stands for, as seconds and nanoseconds.
pub open spec fn duration_value(name: Seq<char>, s: Seq<char>) -> Result<(i64, i32), Fault> {
    match duration_parts(s) {
        None => Err(Fault::InvalidDuration { name, text: s }),
        Some((seconds, nanos)) => Ok((seconds as i64, nanos as i32)),
    }
}

/// Nanoseconds as three, six or nine digits, as few as keep them all. More than nine digits
/// are printed as they are.
pub open spec fn nanos_text(n: nat) -> Seq<char> {
    if n > 999_999_999 {
        text::nat_text(n)
    } else if n % 1_000_000 == 0 {
        text::padded(n / 1_000_000, 3)
    } else if n % 1_000 == 0 {
        text::padded(n / 1_000, 6)
    } else {
        text::padded(n, 9)
    }
}

pub open spec fn is_date_of(days: int, date: (int, int, int)) -> bool {
    civil::is_date(date.0, date.1, date.2) && civil::day_number(date.0, date.1, date.2) == days
}

/// The date of a day number.
pub open spec fn date_of(days: int) -> (int, int, int) {
    choose|date: (int, int, int)| is_date_of(days, date)
}

/// `YYYY-MM-DDTHH:MM:SS`.
pub open spec fn date_time_text(date: (int, int, int), second_of_day: int) -> Seq<char> {
    text::padded(date.0 as nat, 4) + seq!['-'] + text::padded(date.1 as nat, 2) + seq!['-']
        + text::padded(date.2 as nat, 2) + seq!['T'] + text::padded(
        (second_of_day / 3600) as nat,
        2,
    ) + seq![':'] + text::padded(((second_of_day % 3600) / 60) as nat, 2) + seq![':']
        + text::padded((second_of_day % 60) as nat, 2)
}

/// The RFC 3339 text of a time in UTC.
pub open spec fn timestamp_text(seconds: int, nanos: int) -> Seq<char> {
    date_time_text(date_of(seconds / 86_400), seconds % 86_400) + if nanos == 0 {
        seq!['Z']
    } else {
        seq!['.'] + nanos_text(nanos as nat) + seq!['Z']
    }
}

/// The text of a timestamp, or why it has none.
pub open spec fn timestamp_json(seconds: i64, nanos: i32) -> Result<Seq<char>, Fault> {
    if !(TIMESTAMP_SECONDS_MIN <= seconds <= TIMESTAMP_SECONDS_MAX) {
        Err(Fault::Fixed(Fixed::TimestampSeconds))
    } else if !(0 <= nanos <= NANOS_PER_SECOND_MAX) {
        Err(Fault::Fixed(Fixed::TimestampNanos))
    } else {
        Ok(timestamp_text(seconds as int, nanos as int))
    }
}

/// Seconds and nanoseconds of the same sign as a decimal number, and an `s`.
pub open spec fn duration_text(seconds: int, nanos: int) -> Seq<char> {
    (if nanos < 0 && seconds == 0 { seq!['-'] } else { seq![] }) + text::int_text(seconds)
        + if nanos == 0 {
        seq!['s']
    } else {
        seq!['.'] + nanos_text((if nanos < 0 { -nanos } else { nanos }) as nat) + seq!['s']
    }
}

/// The text of a duration, or why it has none.
pub open spec fn duration_json(seconds: i64, nanos: i32) -> Result<Seq<char>, Fault> {
    if !(-DURATION_SECONDS_MAX <= seconds <= DURATION_SECONDS_MAX) {
        Err(Fault::Fixed(Fixed::DurationSeconds))
    } else if !(-NANOS_PER_SECOND_MAX <= nanos <= NANOS_PER_SECOND_MAX) {
        Err(Fault::Fixed(Fixed::DurationNanos))
    } else if (seconds > 0 && nanos < 0) || (seconds < 0 && nanos > 0) {
        Err(Fault::Fixed(Fixed::DurationSigns))
    } else {
        Ok(duration_text(seconds as int, nanos as int))
    }
}

/// The nanoseconds of one to nine fraction digits `chars[from..to]`.
fn read_fraction(chars: &Vec<char>, from: usize, to: usize) -> (r: i32)
    requires
        from < to <= chars@.len(),
        to - from <= 9,
        digits_at(chars@, from as int, to as int),
    ensures
        r == fraction_nanos(chars@.subrange(from as int, to as int)),
        0 <= r <= NANOS_PER_SECOND_MAX,
{
    let ghost digits = chars@.subrange(from as int, to as int);
    let mut value: u64 = digits_value_between(chars, from, to);
    let mut width: usize = to - from;
    proof {
        assert(digits.len() == width);
        assert(text::digits_value(digits) * power::pow(10, 0) == text::digits_value(digits)) by {
            reveal(power::pow);
        }
    }
    let ghost start: nat = width as nat;
    while width < 9
        invariant
            start <= width <= 9,
            1 <= start,
            value == text::digits_value(digits) * power::pow(10, (width - start) as nat),
            value < power::pow(10, width as nat),
        decreases 9 - width,
    {
        proof {
            text::lemma_pow_ten_below(width as nat);
            reveal(power::pow);
            let p = power::pow(10, (width - start) as nat);
            assert(power::pow(10, (width - start + 1) as nat) == 10 * p);
            assert(power::pow(10, (width + 1) as nat) == 10 * power::pow(10, width as nat));
            let d = text::digits_value(digits) as int;
            assert(d * (10 * p) == (d * p) * 10) by (nonlinear_arith);
        }
        value = value * 10;
        width = width + 1;
    }
    proof {
        assert(power::pow(10, 9) == 1_000_000_000) by {
            reveal_with_fuel(power::pow, 10);
        }
    }
    value as i32
}

fn read_zone(chars: &Vec<char>, from: usize) -> (r: Option<i64>)
    requires
        from <= chars@.len(),
    ensures
        match zone_offset(chars@.skip(from as int)) {
            Some(offset) => r is Some && r->0 == offset && -86_400 < offset < 86_400,
            None => r is None,
        },
{
    let ghost z = chars@.skip(from as int);
    let n: usize = chars.len() - from;
    if n == 1 && chars[from] == 'Z' {
        assert(z =~= seq!['Z']);
        return Some(0);
    }
    proof {
        if z == seq!['Z'] {
            assert(z.len() == 1);
            assert(z[0] == 'Z');
            assert(false);
        }
    }
    if n != 6 || (chars[from] != '+' && chars[from] != '-') || chars[from + 3] != ':' {
        return None;
    }
    assert(z.subrange(1, 3) =~= chars@.subrange(from + 1, from + 3));
    assert(z.subrange(4, 6) =~= chars@.subrange(from + 4, from + 6));
    if !digits_between(chars, from + 1, from + 3) || !digits_between(chars, from + 4, from + 6) {
        return None;
    }
    let hours: u64 = digits_value_between(chars, from + 1, from + 3);
    let minutes: u64 = digits_value_between(chars, from + 4, from + 6);
    if hours > 23 || minutes > 59 {
        return None;
    }
    let seconds: i64 = hours as i64 * 3600 + minutes as i64 * 60;
    if chars[from] == '+' {
        Some(seconds)
    } else {
        Some(-seconds)
    }
}

fn count_digits(chars: &Vec<char>, from: usize) -> (r: usize)
    requires
        from <= chars@.len(),
    ensures
        r == digit_run(chars@.skip(from as int)),
        from + r <= chars@.len(),
        digits_at(chars@, from as int, from + r),
{
    let mut i: usize = from;
    while i < chars.len() && char_is_digit(chars[i])
        invariant
            from <= i <= chars@.len(),
            digit_run(chars@.skip(from as int)) == (i - from) + digit_run(chars@.skip(i as int)),
            digits_at(chars@, from as int, i as int),
        decreases chars@.len() - i,
    {
        assert(chars@.skip(i as int).skip(1) =~= chars@.skip(i + 1));
        assert(chars@.skip(i as int)[0] == chars@[i as int]);
        proof {
            let part = chars@.subrange(from as int, i + 1);
            assert forall|j: int| 0 <= j < part.len() implies text::is_digit(#[trigger] part[j]) by {
                if j < i - from {
                    assert(part[j] == chars@.subrange(from as int, i as int)[j]);
                }
            }
        }
        i = i + 1;
    }
    proof {
        if i < chars@.len() {
            assert(chars@.skip(i as int)[0] == chars@[i as int]);
        }
    }
    i - from
}

/// Reads `YYYY-MM-DDTHH:MM:SS(.fffffffff)?(Z|±HH:MM)`.
#[verifier::rlimit(40)]
pub fn parse_rfc3339(text: &str) -> (r: Option<Rfc3339>)
    ensures
        r == rfc3339(text@),
        r is Some ==> {
            let t = r->0;
            &&& 0 <= t.year <= 9999
            &&& 1 <= t.month <= 12
            &&& 1 <= t.day <= 31
            &&& t.hour <= 23 && t.minute <= 59 && t.second <= 59
            &&& 0 <= t.nanos <= NANOS_PER_SECOND_MAX
            &&& -86_400 < t.offset_seconds < 86_400
        },
{
    let chars: Vec<char> = chars_of(text);
    let ghost s = text@;
    if chars.len() < 20 {
        return None;
    }
    if chars[4] != '-' || chars[7] != '-' || chars[10] != 'T' || chars[13] != ':' || chars[16]
        != ':' {
        return None;
    }
    if !digits_between(&chars, 0, 4) || !digits_between(&chars, 5, 7) || !digits_between(
        &chars,
        8,
        10,
    ) || !digits_between(&chars, 11, 13) || !digits_between(&chars, 14, 16) || !digits_between(
        &chars,
        17,
        19,
    ) {
        return None;
    }
    let year: u64 = digits_value_between(&chars, 0, 4);
    let month: u64 = digits_value_between(&chars, 5, 7);
    let day: u64 = digits_value_between(&chars, 8, 10);
    let hour: u64 = digits_value_between(&chars, 11, 13);
    let minute: u64 = digits_value_between(&chars, 14, 16);
    let second: u64 = digits_value_between(&chars, 17, 19);
    proof {
        assert(power::pow(10, 4) == 10_000) by {
            reveal_with_fuel(power::pow, 5);
        }
    }
    if month < 1 || month > 12 || day < 1 || day > 31 || hour > 23 || minute > 59 || second > 59 {
        return None;
    }
    let ghost rest = s.skip(19);
    let (nanos, offset_seconds): (i32, i64) = if chars[19] == '.' {
        let run: usize = count_digits(&chars, 20);
        assert(rest.skip(1) =~= s.skip(20));
        if run < 1 || run > 9 {
            return None;
        }
        assert(rest.skip(1 + run) =~= s.skip(20 + run));
        assert(rest.subrange(1, 1 + run) =~= s.subrange(20, 20 + run));
        match read_zone(&chars, 20 + run) {
            Some(offset) => (read_fraction(&chars, 20, 20 + run), offset),
            None => {
                return None;
            },
        }
    } else {
        match read_zone(&chars, 19) {
            Some(offset) => (0, offset),
            None => {
                return None;
            },
        }
    };
    Some(
        Rfc3339 {
            year: year as i64,
            month: month as i64,
            day: day as i64,
            hour: hour as u32,
            minute: minute as u32,
            second: second as u32,
            nanos,
            offset_seconds,
        },
    )
}

/// Reads a timestamp's text. `name` is the name of the message type, for the error.
pub fn parse_timestamp(name: &str, text: &str) -> (r: Result<(i64, i32), Error>)
    ensures
        error::outcome(r) == timestamp_value(name@, text@),
{
    let parsed: Rfc3339 = match parse_rfc3339(text) {
        Some(t) => t,
        None => {
            return Err(ErrorOf::InvalidTimestamp { name: name.to_owned() });
        },
    };
    let day_seconds: i64 = parsed.hour as i64 * 3600 + parsed.minute as i64 * 60
        + parsed.second as i64;
    let days: i64 = days_from_civil(parsed.year, parsed.month, parsed.day);
    let seconds: i64 = days * SECONDS_PER_DAY + day_seconds - parsed.offset_seconds;
    if seconds < TIMESTAMP_SECONDS_MIN || seconds > TIMESTAMP_SECONDS_MAX {
        return Err(ErrorOf::TimestampRange { name: name.to_owned() });
    }
    Ok((seconds, parsed.nanos))
}

/// The value of digits is no less than that of a part at their start.
proof fn lemma_digits_prefix(s: Seq<char>, i: int)
    requires
        0 <= i <= s.len(),
    ensures
        text::digits_value(s.take(i)) <= text::digits_value(s),
    decreases s.len() - i,
{
    if i < s.len() {
        text::lemma_digits_value_step(s, i);
        lemma_digits_prefix(s, i + 1);
    } else {
        assert(s.take(i) =~= s);
    }
}

/// The value of the digits `chars[from..to]`, if it is at most the longest duration.
fn read_duration_seconds(chars: &Vec<char>, from: usize, to: usize) -> (r: Option<i64>)
    requires
        from <= to <= chars@.len(),
        digits_at(chars@, from as int, to as int),
    ensures
        match r {
            Some(v) => v == number_at(chars@, from as int, to as int) && 0 <= v
                <= DURATION_SECONDS_MAX,
            None => number_at(chars@, from as int, to as int) > DURATION_SECONDS_MAX,
        },
{
    let ghost part = chars@.subrange(from as int, to as int);
    let mut v: i64 = 0;
    let mut i: usize = from;
    while i < to
        invariant
            from <= i <= to <= chars@.len(),
            part == chars@.subrange(from as int, to as int),
            text::all_digits(part),
            v == text::digits_value(part.take(i - from)),
            0 <= v <= DURATION_SECONDS_MAX,
        decreases to - i,
    {
        proof {
            text::lemma_digits_value_step(part, i - from);
            assert(text::is_digit(part[i - from]));
            lemma_digits_prefix(part, i - from + 1);
        }
        v = v * 10 + char_digit_value(chars[i]) as i64;
        i = i + 1;
        if v > DURATION_SECONDS_MAX {
            return None;
        }
    }
    assert(part.take(to - from) =~= part);
    Some(v)
}

fn find_point(chars: &Vec<char>, to: usize) -> (r: Option<usize>)
    requires
        to <= chars@.len(),
    ensures
        match point_index(chars@.take(to as int)) {
            Some(i) => r is Some && r->0 == i && i < to,
            None => r is None,
        },
{
    let ghost body = chars@.take(to as int);
    let mut i: usize = 0;
    assert(body.skip(0) =~= body);
    while i < to
        invariant
            i <= to <= chars@.len(),
            body == chars@.take(to as int),
            point_index(body) is Some <==> point_index(body.skip(i as int)) is Some,
            point_index(body) is Some ==> point_index(body)->0 == i + point_index(
                body.skip(i as int),
            )->0,
        decreases to - i,
    {
        if chars[i] == '.' {
            return Some(i);
        }
        assert(body.skip(i as int).skip(1) =~= body.skip(i + 1));
        i = i + 1;
    }
    None
}

/// Reads a duration's text. `name` is the name of the message type, for the error.
pub fn parse_duration(name: &str, text: &str) -> (r: Result<(i64, i32), Error>)
    ensures
        error::outcome(r) == duration_value(name@, text@),
        r is Ok ==> -DURATION_SECONDS_MAX <= r->Ok_0.0 <= DURATION_SECONDS_MAX
            && -NANOS_PER_SECOND_MAX <= r->Ok_0.1 <= NANOS_PER_SECOND_MAX,
{
    let chars: Vec<char> = chars_of(text);
    let invalid: Result<(i64, i32), Error> = Err(
        ErrorOf::InvalidDuration { name: name.to_owned(), text: text.to_owned() },
    );
    if chars.len() == 0 || chars[chars.len() - 1] != 's' {
        return invalid;
    }
    let to: usize = chars.len() - 1;
    let ghost body = text@.drop_last();
    assert(chars@.take(to as int) =~= body);
    let point: Option<usize> = find_point(&chars, to);
    let end: usize = match point {
        Some(i) => i,
        None => to,
    };
    let ghost whole = body.take(end as int);
    let negative: bool = end > 0 && chars[0] == '-';
    let from: usize = if negative { 1 } else { 0 };
    let ghost digits = if negative { whole.skip(1) } else { whole };
    assert(digits =~= chars@.subrange(from as int, end as int));
    if from == end || !digits_between(&chars, from, end) {
        return invalid;
    }
    let seconds: i64 = match read_duration_seconds(&chars, from, end) {
        Some(v) => v,
        None => {
            return invalid;
        },
    };
    let nanos: i32 = match point {
        Some(_) => {
            assert(body.skip(end + 1) =~= chars@.subrange(end + 1, to as int));
            if to - end - 1 < 1 || to - end - 1 > 9 || !digits_between(&chars, end + 1, to) {
                return invalid;
            }
            read_fraction(&chars, end + 1, to)
        },
        None => 0,
    };
    if negative {
        Ok((-seconds, -nanos))
    } else {
        Ok((seconds, nanos))
    }
}

/// Nanoseconds as three, six or nine digits.
pub fn trim_nanos(nanos: u32) -> (r: String)
    ensures
        r@ == nanos_text(nanos as nat),
{
    let mut out: String = String::new();
    if nanos > 999_999_999 {
        out = format_u64(nanos as u64);
    } else if nanos % 1_000_000 == 0 {
        push_padded(&mut out, (nanos / 1_000_000) as u64, 3);
    } else if nanos % 1_000 == 0 {
        push_padded(&mut out, (nanos / 1_000) as u64, 6);
    } else {
        push_padded(&mut out, nanos as u64, 9);
    }
    assert(out@ =~= nanos_text(nanos as nat));
    out
}

/// The days of the years 1 to 9999, and no others, are numbered from -719162 to 2932896.
proof fn lemma_year_bounds(year: int, month: int, day: int)
    requires
        civil::is_date(year, month, day),
    ensures
        -719_162 <= civil::day_number(year, month, day) <= 2_932_896 <==> 1 <= year <= 9999,
{
}

/// The date of a day number is the date that has the number.
proof fn lemma_date_of(days: int, date: (int, int, int))
    requires
        is_date_of(days, date),
    ensures
        date_of(days) == date,
{
    let other = date_of(days);
    assert(is_date_of(days, other));
    civil::lemma_day_number_injective(date.0, date.1, date.2, other.0, other.1, other.2);
}

/// Writes a timestamp in UTC.
#[verifier::rlimit(40)]
pub fn timestamp_to_rfc3339(seconds: i64, nanos: i32) -> (r: Result<String, Error>)
    ensures
        error::text_outcome(r) == timestamp_json(seconds, nanos),
{
    if seconds < TIMESTAMP_SECONDS_MIN || seconds > TIMESTAMP_SECONDS_MAX {
        return Err(ErrorOf::Fixed(Fixed::TimestampSeconds));
    }
    if nanos < 0 || nanos > NANOS_PER_SECOND_MAX {
        return Err(ErrorOf::Fixed(Fixed::TimestampNanos));
    }
    let days: i64 = if seconds >= 0 {
        seconds / SECONDS_PER_DAY
    } else {
        -((SECONDS_PER_DAY - 1 - seconds) / SECONDS_PER_DAY)
    };
    let second_of_day: i64 = seconds - days * SECONDS_PER_DAY;
    assert(days == seconds as int / 86_400 && second_of_day == seconds as int % 86_400);
    let (year, month, day): (i64, i64, i64) = civil_from_days(days);
    let ghost date = (year as int, month as int, day as int);
    proof {
        assert(is_date_of(days as int, date));
        lemma_date_of(days as int, date);
        lemma_year_bounds(year as int, month as int, day as int);
    }
    let mut out: String = String::new();
    push_padded(&mut out, year as u64, 4);
    out.push('-');
    push_padded(&mut out, month as u64, 2);
    out.push('-');
    push_padded(&mut out, day as u64, 2);
    out.push('T');
    push_padded(&mut out, (second_of_day / 3600) as u64, 2);
    out.push(':');
    push_padded(&mut out, ((second_of_day % 3600) / 60) as u64, 2);
    out.push(':');
    push_padded(&mut out, (second_of_day % 60) as u64, 2);
    assert(out@ =~= date_time_text(date, second_of_day as int));
    if nanos != 0 {
        out.push('.');
        let trimmed: String = trim_nanos(nanos as u32);
        out.append(trimmed.as_str());
    }
    out.push('Z');
    assert(out@ =~= timestamp_text(seconds as int, nanos as int));
    Ok(out)
}

/// Writes a duration.
pub fn duration_to_json(seconds: i64, nanos: i32) -> (r: Result<String, Error>)
    ensures
        error::text_outcome(r) == duration_json(seconds, nanos),
{
    if seconds < -DURATION_SECONDS_MAX || seconds > DURATION_SECONDS_MAX {
        return Err(ErrorOf::Fixed(Fixed::DurationSeconds));
    }
    if nanos < -NANOS_PER_SECOND_MAX || nanos > NANOS_PER_SECOND_MAX {
        return Err(ErrorOf::Fixed(Fixed::DurationNanos));
    }
    if (seconds > 0 && nanos < 0) || (seconds < 0 && nanos > 0) {
        return Err(ErrorOf::Fixed(Fixed::DurationSigns));
    }
    let mut out: String = String::new();
    if nanos < 0 && seconds == 0 {
        out.push('-');
    }
    let whole: String = format_i64(seconds);
    out.append(whole.as_str());
    if nanos != 0 {
        out.push('.');
        let size: u32 = if nanos < 0 { (-nanos) as u32 } else { nanos as u32 };
        let trimmed: String = trim_nanos(size);
        out.append(trimmed.as_str());
    }
    out.push('s');
    assert(out@ =~= duration_text(seconds as int, nanos as int));
    Ok(out)
}

/// The trimmed digits of nanoseconds stand for the nanoseconds.
pub proof fn lemma_nanos_text(n: nat)
    requires
        n <= 999_999_999,
    ensures
        text::all_digits(nanos_text(n)),
        1 <= nanos_text(n).len() <= 9,
        fraction_nanos(nanos_text(n)) == n,
{
    text::lemma_padded(n / 1_000_000, 3);
    text::lemma_padded(n / 1_000, 6);
    text::lemma_padded(n, 9);
    assert(power::pow(10, 0) == 1 && power::pow(10, 3) == 1_000 && power::pow(10, 6) == 1_000_000
        && power::pow(10, 9) == 1_000_000_000) by {
        reveal_with_fuel(power::pow, 10);
    }
    let d = text::digits_value(nanos_text(n)) as int;
    let p = power::pow(10, (9 - nanos_text(n).len()) as nat);
    assert(p == 1 ==> d * p == d) by (nonlinear_arith);
    assert(p == 1_000 ==> d * p == d * 1_000) by (nonlinear_arith);
    assert(p == 1_000_000 ==> d * p == d * 1_000_000) by (nonlinear_arith);
}

/// A run of digits ends at the first character that is no digit.
proof fn lemma_digit_run(digits: Seq<char>, rest: Seq<char>)
    requires
        text::all_digits(digits),
        rest.len() > 0 ==> !text::is_digit(rest[0]),
    ensures
        digit_run(digits + rest) == digits.len(),
    decreases digits.len(),
{
    let s = digits + rest;
    if digits.len() > 0 {
        assert(text::is_digit(digits[0]));
        let tail = digits.skip(1);
        assert forall|i: int| 0 <= i < tail.len() implies text::is_digit(#[trigger] tail[i]) by {
            assert(tail[i] == digits[i + 1]);
        }
        assert(s.skip(1) =~= tail + rest);
        lemma_digit_run(tail, rest);
    } else {
        assert(s =~= rest);
    }
}

/// The date and time of a timestamp's text read back.
proof fn lemma_date_time_text(date: (int, int, int), second_of_day: int, rest: Seq<char>)
    requires
        0 <= date.0 <= 9999,
        1 <= date.1 <= 12,
        1 <= date.2 <= 31,
        0 <= second_of_day < 86_400,
        rest.len() >= 1,
    ensures
        ({
            let s = date_time_text(date, second_of_day) + rest;
            &&& has_date_time(s)
            &&& date_time_in_range(s)
            &&& number_at(s, 0, 4) == date.0
            &&& number_at(s, 5, 7) == date.1
            &&& number_at(s, 8, 10) == date.2
            &&& number_at(s, 11, 13) * 3600 + number_at(s, 14, 16) * 60 + number_at(s, 17, 19)
                == second_of_day
            &&& s.skip(19) == rest
        }),
{
    let hour = second_of_day / 3600;
    let minute = (second_of_day % 3600) / 60;
    let second = second_of_day % 60;
    text::lemma_padded(date.0 as nat, 4);
    text::lemma_padded(date.1 as nat, 2);
    text::lemma_padded(date.2 as nat, 2);
    text::lemma_padded(hour as nat, 2);
    text::lemma_padded(minute as nat, 2);
    text::lemma_padded(second as nat, 2);
    assert(power::pow(10, 2) == 100 && power::pow(10, 4) == 10_000) by {
        reveal_with_fuel(power::pow, 5);
    }
    let s = date_time_text(date, second_of_day) + rest;
    assert(s.subrange(0, 4) =~= text::padded(date.0 as nat, 4));
    assert(s.subrange(5, 7) =~= text::padded(date.1 as nat, 2));
    assert(s.subrange(8, 10) =~= text::padded(date.2 as nat, 2));
    assert(s.subrange(11, 13) =~= text::padded(hour as nat, 2));
    assert(s.subrange(14, 16) =~= text::padded(minute as nat, 2));
    assert(s.subrange(17, 19) =~= text::padded(second as nat, 2));
    assert(s.skip(19) =~= rest);
}

/// Reading the text of a timestamp gives the timestamp back.
pub proof fn lemma_timestamp_read_back(name: Seq<char>, seconds: i64, nanos: i32)
    requires
        timestamp_json(seconds, nanos) is Ok,
    ensures
        timestamp_value(name, timestamp_json(seconds, nanos)->Ok_0) == Ok::<(i64, i32), Fault>(
            (seconds, nanos),
        ),
{
    let days = seconds as int / 86_400;
    let second_of_day = seconds as int % 86_400;
    let date = civil::lemma_day_has_date(days);
    assert(is_date_of(days, date));
    lemma_date_of(days, date);
    lemma_year_bounds(date.0, date.1, date.2);
    let rest = if nanos == 0 {
        seq!['Z']
    } else {
        seq!['.'] + nanos_text(nanos as nat) + seq!['Z']
    };
    lemma_date_time_text(date, second_of_day, rest);
    if nanos != 0 {
        let digits = nanos_text(nanos as nat);
        lemma_nanos_text(nanos as nat);
        assert(rest.skip(1) =~= digits + seq!['Z']);
        lemma_digit_run(digits, seq!['Z']);
        assert(rest.skip(1 + digits.len() as int) =~= seq!['Z']);
        assert(rest.subrange(1, 1 + digits.len() as int) =~= digits);
    }
    assert(nanos_and_offset(rest) == Some((nanos as int, 0int)));
}

/// The first point of a text stands behind the characters that are none.
proof fn lemma_point_index(head: Seq<char>, rest: Seq<char>)
    requires
        forall|i: int| 0 <= i < head.len() ==> #[trigger] head[i] != '.',
        rest.len() > 0 ==> rest[0] == '.',
    ensures
        point_index(head + rest) == if rest.len() > 0 {
            Some(head.len() as int)
        } else {
            None
        },
    decreases head.len(),
{
    let s = head + rest;
    if head.len() > 0 {
        assert(s[0] == head[0]);
        assert(head[0] != '.');
        let tail = head.skip(1);
        assert forall|i: int| 0 <= i < tail.len() implies #[trigger] tail[i] != '.' by {
            assert(tail[i] == head[i + 1]);
        }
        assert(s.skip(1) =~= tail + rest);
        lemma_point_index(tail, rest);
    } else {
        assert(s =~= rest);
    }
}

/// Reading the text of a duration gives the duration back.
#[verifier::spinoff_prover]
#[verifier::rlimit(60)]
pub proof fn lemma_duration_read_back(name: Seq<char>, seconds: i64, nanos: i32)
    requires
        duration_json(seconds, nanos) is Ok,
    ensures
        duration_value(name, duration_json(seconds, nanos)->Ok_0) == Ok::<(i64, i32), Fault>(
            (seconds, nanos),
        ),
{
    let size = (if seconds < 0 { -(seconds as int) } else { seconds as int }) as nat;
    let nano_size = (if nanos < 0 { -(nanos as int) } else { nanos as int }) as nat;
    let negative = seconds < 0 || nanos < 0;
    let digits = text::nat_text(size);
    text::lemma_nat_text(size);
    lemma_nanos_text(nano_size);
    let whole = if negative { seq!['-'] + digits } else { digits };
    let fraction = if nanos == 0 { seq![] } else { seq!['.'] + nanos_text(nano_size) };
    let s = duration_text(seconds as int, nanos as int);
    let body = s.drop_last();
    assert(s =~= whole + fraction + seq!['s']);
    assert(body =~= whole + fraction);
    assert forall|i: int| 0 <= i < whole.len() implies #[trigger] whole[i] != '.' by {
        if negative {
            if i > 0 {
                assert(text::is_digit(digits[i - 1]));
            }
        } else {
            assert(text::is_digit(digits[i]));
        }
    }
    lemma_point_index(whole, fraction);
    assert(body.take(whole.len() as int) =~= whole);
    assert(text::is_digit(digits[0]));
    if negative {
        assert(whole.skip(1) =~= digits);
    }
    if nanos != 0 {
        assert(body.skip(whole.len() as int + 1) =~= nanos_text(nano_size));
    }
}

/// The number that two digits stand for.
pub open spec fn two_digits(a: char, b: char) -> int {
    10 * (a as int - '0' as int) + (b as int - '0' as int)
}

/// The zone `+HH:MM` or `-HH:MM`.
pub open spec fn zone_text(ahead: bool, h1: char, h2: char, m1: char, m2: char) -> Seq<char> {
    seq![
        if ahead {
            '+'
        } else {
            '-'
        },
        h1,
        h2,
        ':',
        m1,
        m2,
    ]
}

/// Two digits at a place of a text.
proof fn lemma_two_digits(z: Seq<char>, i: int)
    requires
        0 <= i <= z.len() - 2,
        text::is_digit(z[i]) && text::is_digit(z[i + 1]),
    ensures
        digits_at(z, i, i + 2),
        number_at(z, i, i + 2) == two_digits(z[i], z[i + 1]),
{
    let part = z.subrange(i, i + 2);
    assert(part.drop_last() =~= seq![z[i]]);
    assert(seq![z[i]].drop_last() =~= Seq::<char>::empty());
    assert(text::digits_value(Seq::<char>::empty()) == 0);
    assert(text::digits_value(seq![z[i]]) == text::digit_value(z[i]));
    assert forall|k: int| 0 <= k < part.len() implies text::is_digit(#[trigger] part[k]) by {
        assert(part[k] == z[i + k]);
    }
}

/// A zone ends in `Z` only if it is `Z`.
proof fn lemma_zone_z(z: Seq<char>)
    requires
        z.len() > 0,
        z.last() == 'Z',
        zone_offset(z) is Some,
    ensures
        z == seq!['Z'],
        zone_offset(z) == Some(0int),
{
    if z != seq!['Z'] {
        assert(z.subrange(4, 6)[1] == z[5]);
        assert(text::is_digit(z.subrange(4, 6)[1]));
    }
}

/// The same date and time with another zone.
#[verifier::rlimit(40)]
proof fn lemma_zone_replaced(p: Seq<char>, z: Seq<char>, offset: int)
    requires
        rfc3339(p + seq!['Z']) is Some,
        z.len() > 0,
        z[0] != '.' && !text::is_digit(z[0]),
        zone_offset(z) == Some(offset),
        -86_400 < offset < 86_400,
    ensures
        rfc3339(p + z) == Some(
            Rfc3339 { offset_seconds: offset as i64, ..rfc3339(p + seq!['Z'])->0 },
        ),
        rfc3339(p + seq!['Z'])->0.offset_seconds == 0,
{
    let s0 = p + seq!['Z'];
    let s1 = p + z;
    let q = p.skip(19);
    assert(s0.subrange(0, 4) =~= s1.subrange(0, 4));
    assert(s0.subrange(5, 7) =~= s1.subrange(5, 7));
    assert(s0.subrange(8, 10) =~= s1.subrange(8, 10));
    assert(s0.subrange(11, 13) =~= s1.subrange(11, 13));
    assert(s0.subrange(14, 16) =~= s1.subrange(14, 16));
    assert(s0.subrange(17, 19) =~= s1.subrange(17, 19));
    assert(s0[4] == p[4] && s0[7] == p[7] && s0[10] == p[10] && s0[13] == p[13] && s0[16] == p[16]);
    assert(s1[4] == p[4] && s1[7] == p[7] && s1[10] == p[10] && s1[13] == p[13] && s1[16] == p[16]);
    assert(has_date_time(s1) && date_time_in_range(s1));
    let r0 = s0.skip(19);
    let r1 = s1.skip(19);
    assert(r0 =~= q + seq!['Z']);
    assert(r1 =~= q + z);
    assert(nanos_and_offset(r0) is Some);
    if r0[0] == '.' {
        let run = digit_run(r0.skip(1));
        lemma_run_length(r0.skip(1));
        let tail = r0.skip(1 + run as int);
        assert(r0.skip(1).last() == 'Z');
        if run == r0.skip(1).len() {
            assert(text::is_digit(r0.skip(1)[run - 1]));
        }
        assert(tail.last() == 'Z');
        lemma_zone_z(tail);
        let digits = q.skip(1);
        assert(r0.skip(1) =~= digits + seq!['Z']);
        assert(digits.len() == run);
        assert forall|k: int| 0 <= k < digits.len() implies text::is_digit(#[trigger] digits[k]) by {
            assert(digits[k] == r0.skip(1)[k]);
        }
        assert(q[0] == r0[0]);
        assert(r1.skip(1) =~= digits + z);
        lemma_digit_run(digits, z);
        assert(r1.skip(1 + run as int) =~= z);
        assert(r1.subrange(1, 1 + run as int) =~= r0.subrange(1, 1 + run as int));
        assert(r1[0] == '.');
    } else {
        assert(r0.last() == 'Z');
        lemma_zone_z(r0);
        assert(q.len() == 0);
        assert(r1 =~= z);
    }
}

/// A run of digits is made of digits and no longer than the text.
proof fn lemma_run_length(s: Seq<char>)
    ensures
        digit_run(s) <= s.len(),
        forall|k: int| 0 <= k < digit_run(s) ==> text::is_digit(#[trigger] s[k]),
    decreases s.len(),
{
    if s.len() > 0 && text::is_digit(s[0]) {
        let rest = s.skip(1);
        lemma_run_length(rest);
        assert forall|k: int| 0 <= k < digit_run(s) implies text::is_digit(#[trigger] s[k]) by {
            if k > 0 {
                assert(s[k] == rest[k - 1]);
            }
        }
    }
}

/// An offset shifts a time: the text `p` with the zone `+HH:MM` is the time of `p` in UTC, less
/// the hours and minutes; with `-HH:MM` it is that time and the hours and minutes more. What
/// leaves the range of timestamps is refused.
pub proof fn lemma_offsets_shift_timestamps(
    name: Seq<char>,
    p: Seq<char>,
    h1: char,
    h2: char,
    m1: char,
    m2: char,
)
    requires
        '0' <= h1 <= '9' && '0' <= h2 <= '9' && '0' <= m1 <= '9' && '0' <= m2 <= '9',
        two_digits(h1, h2) <= 23,
        two_digits(m1, m2) <= 59,
        timestamp_value(name, p + seq!['Z']) is Ok,
    ensures
        ({
            let (t, n) = timestamp_value(name, p + seq!['Z'])->Ok_0;
            let shift = 60 * (60 * two_digits(h1, h2) + two_digits(m1, m2));
            let shifted = |u: int| if -62_135_596_800 <= u <= 253_402_300_799 {
                Ok::<(i64, i32), Fault>((u as i64, n))
            } else {
                Err(Fault::TimestampRange { name })
            };
            &&& timestamp_value(name, p + zone_text(true, h1, h2, m1, m2)) == shifted(t - shift)
            &&& timestamp_value(name, p + zone_text(false, h1, h2, m1, m2)) == shifted(t + shift)
        }),
{
    let east = zone_text(true, h1, h2, m1, m2);
    let west = zone_text(false, h1, h2, m1, m2);
    let shift = 60 * (60 * two_digits(h1, h2) + two_digits(m1, m2));
    lemma_two_digits(east, 1);
    lemma_two_digits(east, 4);
    lemma_two_digits(west, 1);
    lemma_two_digits(west, 4);
    lemma_zone_replaced(p, east, shift);
    lemma_zone_replaced(p, west, -shift);
}

/// A text that ends in `Z` is so many seconds behind the start of its day in UTC, and the days are
/// counted by the calendar. The hour is at most 23, and the minute and the second are at most 59.
pub proof fn lemma_utc_seconds(name: Seq<char>, s: Seq<char>)
    requires
        timestamp_value(name, s) is Ok,
        s.last() == 'Z',
    ensures
        ({
            let (t, _) = timestamp_value(name, s)->Ok_0;
            let part = |a: int, b: int| text::digits_value(s.subrange(a, b)) as int;
            &&& s.len() >= 20
            &&& 1 <= part(5, 7) <= 12 && 1 <= part(8, 10) <= 31
            &&& part(11, 13) <= 23 && part(14, 16) <= 59 && part(17, 19) <= 59
            &&& t == 86_400 * civil::day_number(part(0, 4), part(5, 7), part(8, 10)) + 3600 * part(
                11,
                13,
            ) + 60 * part(14, 16) + part(17, 19)
        }),
{
    let rest = s.skip(19);
    assert(rest.last() == 'Z');
    let run = digit_run(rest.skip(1));
    lemma_run_length(rest.skip(1));
    if rest[0] == '.' {
        if run == rest.skip(1).len() {
            assert(rest.skip(1).last() == 'Z');
            assert(text::is_digit(rest.skip(1)[run - 1]));
        }
        assert(rest.skip(1 + run as int).last() == 'Z');
        lemma_zone_z(rest.skip(1 + run as int));
    } else {
        lemma_zone_z(rest);
    }
    assert(text::all_digits(s.subrange(0, 4)));
    lemma_number_bound(s.subrange(0, 4), 4);
    lemma_number_bound(s.subrange(5, 7), 2);
}

/// A number has as many digits as it is written with.
proof fn lemma_number_bound(digits: Seq<char>, n: nat)
    requires
        digits.len() == n <= 4,
        text::all_digits(digits),
    ensures
        text::digits_value(digits) < 10_000,
{
    text::lemma_digits_value_bound(digits);
    assert(power::pow(10, 4) == 10_000 && power::pow(10, 2) == 100 && power::pow(10, 0) == 1
        && power::pow(10, 1) == 10 && power::pow(10, 3) == 1000) by {
        reveal_with_fuel(power::pow, 5);
    }
}

/// The digits behind the point of a time are a decimal fraction of a second: `n` nanoseconds with
/// `n / 10^9` the fraction that the digits stand for. One to nine digits are read, and the time
/// is otherwise that of the text without them.
pub proof fn lemma_fractions_of_timestamps(name: Seq<char>, p: Seq<char>, digits: Seq<char>)
    requires
        p.len() == 19,
        text::all_digits(digits),
        timestamp_value(name, p + seq!['Z']) is Ok,
    ensures
        ({
            let (t, n0) = timestamp_value(name, p + seq!['Z'])->Ok_0;
            let read = timestamp_value(name, p + seq!['.'] + digits + seq!['Z']);
            &&& n0 == 0
            &&& 1 <= digits.len() <= 9 ==> read is Ok && read->Ok_0.0 == t && 0 <= read->Ok_0.1
                <= 999_999_999 && read->Ok_0.1 * power::pow(10, digits.len()) == text::digits_value(
                digits,
            ) * 1_000_000_000
            &&& !(1 <= digits.len() <= 9) ==> read == Err::<(i64, i32), Fault>(
                Fault::InvalidTimestamp { name },
            )
        }),
{
    let s0 = p + seq!['Z'];
    let s1 = p + seq!['.'] + digits + seq!['Z'];
    assert(s0.subrange(0, 4) =~= s1.subrange(0, 4));
    assert(s0.subrange(5, 7) =~= s1.subrange(5, 7));
    assert(s0.subrange(8, 10) =~= s1.subrange(8, 10));
    assert(s0.subrange(11, 13) =~= s1.subrange(11, 13));
    assert(s0.subrange(14, 16) =~= s1.subrange(14, 16));
    assert(s0.subrange(17, 19) =~= s1.subrange(17, 19));
    assert(s0[4] == p[4] && s0[7] == p[7] && s0[10] == p[10] && s0[13] == p[13] && s0[16] == p[16]);
    assert(s1[4] == p[4] && s1[7] == p[7] && s1[10] == p[10] && s1[13] == p[13] && s1[16] == p[16]);
    assert(s0.skip(19) =~= seq!['Z']);
    let r1 = s1.skip(19);
    assert(r1.skip(1) =~= digits + seq!['Z']);
    lemma_digit_run(digits, seq!['Z']);
    assert(r1.skip(1 + digits.len() as int) =~= seq!['Z']);
    assert(r1.subrange(1, 1 + digits.len() as int) =~= digits);
    assert(r1[0] == '.');
    if 1 <= digits.len() <= 9 {
        lemma_fraction(digits);
    }
}

/// The nanoseconds of a decimal fraction.
proof fn lemma_fraction(digits: Seq<char>)
    requires
        text::all_digits(digits),
        1 <= digits.len() <= 9,
    ensures
        0 <= fraction_nanos(digits) <= 999_999_999,
        fraction_nanos(digits) * power::pow(10, digits.len()) == text::digits_value(digits)
            * 1_000_000_000,
{
    let k = digits.len();
    let v = text::digits_value(digits) as int;
    let a = power::pow(10, (9 - k) as nat);
    let b = power::pow(10, k);
    text::lemma_digits_value_bound(digits);
    power::lemma_pow_adds(10, (9 - k) as nat, k);
    power::lemma_pow_positive(10, (9 - k) as nat);
    assert(power::pow(10, 9) == 1_000_000_000) by {
        reveal_with_fuel(power::pow, 10);
    }
    assert((v * a) * b == v * (a * b)) by (nonlinear_arith);
    assert(v * a < b * a) by (nonlinear_arith)
        requires
            v < b,
            a > 0,
    ;
    assert(0 <= v * a) by (nonlinear_arith)
        requires
            v >= 0,
            a > 0,
    ;
    assert(b * a == a * b) by (nonlinear_arith);
}

/// The fraction of a second is written with three, six or nine digits, as few as hold it.
pub proof fn lemma_nanos_are_trimmed(n: nat)
    requires
        n <= 999_999_999,
    ensures
        ({
            let t = nanos_text(n);
            &&& t.len() == 3 <==> n % 1_000_000 == 0
            &&& t.len() == 6 <==> n % 1_000 == 0 && n % 1_000_000 != 0
            &&& t.len() == 9 <==> n % 1_000 != 0
            &&& text::digits_value(t) * power::pow(10, (9 - t.len()) as nat) == n
        }),
{
    lemma_nanos_text(n);
    text::lemma_padded(n / 1_000_000, 3);
    text::lemma_padded(n / 1_000, 6);
    text::lemma_padded(n, 9);
}

/// A timestamp of the years 1 to 9999 is written as a date of the calendar and a time of day in
/// UTC, with a fraction only where there are nanoseconds. Every other one is refused.
pub proof fn lemma_timestamp_form(seconds: i64, nanos: i32)
    ensures
        ({
            let written = timestamp_json(seconds, nanos);
            let s = written->Ok_0;
            let part = |a: int, b: int| text::digits_value(s.subrange(a, b)) as int;
            &&& written is Ok <==> -62_135_596_800 <= seconds <= 253_402_300_799 && 0 <= nanos
                <= 999_999_999
            &&& written is Ok ==> {
                &&& s.last() == 'Z'
                &&& s.len() == if nanos == 0 {
                    20
                } else if nanos % 1_000_000 == 0 {
                    24
                } else if nanos % 1_000 == 0 {
                    27
                } else {
                    30int
                }
                &&& s[4] == '-' && s[7] == '-' && s[10] == 'T' && s[13] == ':' && s[16] == ':'
                &&& nanos != 0 ==> s[19] == '.'
                &&& civil::is_date(part(0, 4), part(5, 7), part(8, 10))
                &&& civil::day_number(part(0, 4), part(5, 7), part(8, 10)) == seconds as int / 86_400
                &&& 3600 * part(11, 13) + 60 * part(14, 16) + part(17, 19) == seconds as int % 86_400
                &&& part(14, 16) <= 59 && part(17, 19) <= 59
            }
        }),
{
    if timestamp_json(seconds, nanos) is Ok {
        let days = seconds as int / 86_400;
        let second_of_day = seconds as int % 86_400;
        let date = civil::lemma_day_has_date(days);
        assert(is_date_of(days, date));
        lemma_date_of(days, date);
        lemma_year_bounds(date.0, date.1, date.2);
        let rest = if nanos == 0 {
            seq!['Z']
        } else {
            seq!['.'] + nanos_text(nanos as nat) + seq!['Z']
        };
        lemma_date_time_text(date, second_of_day, rest);
        lemma_nanos_are_trimmed(nanos as nat);
        let s = timestamp_text(seconds as int, nanos as int);
        assert(s == date_time_text(date, second_of_day) + rest);
        text::lemma_padded(date.0 as nat, 4);
        text::lemma_padded(date.1 as nat, 2);
        text::lemma_padded(date.2 as nat, 2);
        text::lemma_padded((second_of_day / 3600) as nat, 2);
        text::lemma_padded(((second_of_day % 3600) / 60) as nat, 2);
        text::lemma_padded((second_of_day % 60) as nat, 2);
        assert(date_time_text(date, second_of_day).len() == 19);
        assert(s.last() == rest.last());
        assert(s[19] == rest[0]);
    }
}

/// The text of a duration with the given digits.
pub open spec fn decimal_seconds(whole: Seq<char>, fraction: Seq<char>) -> Seq<char> {
    if fraction.len() == 0 {
        whole + seq!['s']
    } else {
        whole + seq!['.'] + fraction + seq!['s']
    }
}

/// A duration is a decimal number of seconds: whole seconds up to 10000 years, and a fraction of
/// up to nine digits. A sign in front of it makes both parts negative.
pub proof fn lemma_durations_are_decimal(name: Seq<char>, whole: Seq<char>, fraction: Seq<char>)
    requires
        whole.len() > 0,
        text::all_digits(whole),
        text::all_digits(fraction),
    ensures
        ({
            let s = decimal_seconds(whole, fraction);
            let ahead = duration_value(name, s);
            let back = duration_value(name, seq!['-'] + s);
            let fits = text::digits_value(whole) <= 315_576_000_000 && fraction.len() <= 9;
            &&& ahead is Ok <==> fits
            &&& back is Ok <==> fits
            &&& fits ==> {
                let (seconds, nanos) = ahead->Ok_0;
                &&& seconds == text::digits_value(whole)
                &&& 0 <= nanos <= 999_999_999
                &&& nanos * power::pow(10, fraction.len()) == text::digits_value(fraction)
                    * 1_000_000_000
                &&& back->Ok_0.0 == -seconds
                &&& back->Ok_0.1 == -nanos
            }
        }),
{
    lemma_duration_parts(whole, fraction, false);
    lemma_duration_parts(whole, fraction, true);
    if fraction.len() == 0 {
        assert(text::digits_value(fraction) == 0);
        assert(power::pow(10, 0) == 1) by {
            reveal(power::pow);
        }
    } else if fraction.len() <= 9 {
        lemma_fraction(fraction);
    }
    assert(seq!['-'] + decimal_seconds(whole, fraction) =~= decimal_seconds(
        seq!['-'] + whole,
        fraction,
    ));
}

#[verifier::rlimit(40)]
proof fn lemma_duration_parts(whole: Seq<char>, fraction: Seq<char>, negative: bool)
    requires
        whole.len() > 0,
        text::all_digits(whole),
        text::all_digits(fraction),
    ensures
        ({
            let signed = if negative {
                seq!['-'] + whole
            } else {
                whole
            };
            let nanos = if fraction.len() == 0 {
                0
            } else {
                fraction_nanos(fraction)
            };
            let seconds = text::digits_value(whole) as int;
            duration_parts(decimal_seconds(signed, fraction)) == if seconds <= DURATION_SECONDS_MAX
                && fraction.len() <= 9 {
                Some(
                    if negative {
                        (-seconds, -nanos)
                    } else {
                        (seconds, nanos)
                    },
                )
            } else {
                None
            }
        }),
{
    let signed = if negative {
        seq!['-'] + whole
    } else {
        whole
    };
    let s = decimal_seconds(signed, fraction);
    let tail = if fraction.len() == 0 {
        seq![]
    } else {
        seq!['.'] + fraction
    };
    let body = s.drop_last();
    assert(body =~= signed + tail);
    assert(s.last() == 's');
    assert forall|i: int| 0 <= i < signed.len() implies #[trigger] signed[i] != '.' by {
        if negative {
            if i > 0 {
                assert(text::is_digit(whole[i - 1]));
            }
        } else {
            assert(text::is_digit(whole[i]));
        }
    }
    lemma_point_index(signed, tail);
    assert(body.take(signed.len() as int) =~= signed);
    assert(text::is_digit(whole[0]));
    if negative {
        assert(signed.skip(1) =~= whole);
    }
    if fraction.len() > 0 {
        assert(body.skip(signed.len() as int + 1) =~= fraction);
    }
}

/// A duration is read from nothing but a decimal number of seconds, with digits in front of the
/// point and, if there is a point, one to nine digits behind it.
pub proof fn lemma_only_decimals_are_durations(name: Seq<char>, s: Seq<char>)
    requires
        duration_value(name, s) is Ok,
    ensures
        s.len() >= 2,
        s.last() == 's',
        forall|i: int|
            0 <= i < s.len() - 1 ==> text::is_digit(#[trigger] s[i]) || s[i] == '.' || i == 0 && s[i]
                == '-',
        forall|i: int, j: int| 0 <= i < j < s.len() && s[i] == '.' ==> #[trigger] s[j] != '.'
            && #[trigger] s[i] == '.',
        text::is_digit(s[0]) || s[0] == '-' && text::is_digit(s[1]),
        forall|i: int|
            0 <= i < s.len() && #[trigger] s[i] == '.' ==> 1 <= i && text::is_digit(s[i - 1]) && 1
                <= s.len() - 2 - i <= 9,
{
    let body = s.drop_last();
    lemma_point_found(body);
    let end = match point_index(body) {
        Some(i) => i,
        None => body.len() as int,
    };
    let whole = body.take(end);
    let negative = whole.len() > 0 && whole[0] == '-';
    let digits = if negative {
        whole.skip(1)
    } else {
        whole
    };
    let fraction = body.skip(end + 1);
    assert forall|i: int| 0 <= i < s.len() - 1 implies text::is_digit(#[trigger] s[i]) || s[i] == '.'
        || i == 0 && s[i] == '-' by {
        if i < end {
            assert(s[i] == whole[i]);
            if negative {
                if i > 0 {
                    assert(text::is_digit(digits[i - 1]));
                }
            } else {
                assert(text::is_digit(digits[i]));
            }
        } else if i > end {
            assert(s[i] == fraction[i - end - 1]);
            assert(text::is_digit(fraction[i - end - 1]));
        }
    }
    assert forall|i: int, j: int| 0 <= i < j < s.len() && s[i] == '.' implies #[trigger] s[j] != '.'
        && #[trigger] s[i] == '.' by {
        if i < end {
            assert(body[i] == s[i]);
        }
        if j < s.len() - 1 && j > end {
            assert(s[j] == fraction[j - end - 1]);
            assert(text::is_digit(fraction[j - end - 1]));
        }
    }
    assert(text::is_digit(digits[0]) && text::is_digit(digits[digits.len() - 1]));
    assert(s[0] == whole[0]);
    assert(s[end - 1] == whole.last() && whole.last() == digits.last());
    if negative {
        assert(s[1] == digits[0]);
    }
    assert forall|i: int| 0 <= i < s.len() && #[trigger] s[i] == '.' implies 1 <= i && text::is_digit(
        s[i - 1],
    ) && 1 <= s.len() - 2 - i <= 9 by {
        if i < end {
            assert(body[i] == s[i]);
        } else if i > end && i < s.len() - 1 {
            assert(s[i] == fraction[i - end - 1]);
            assert(text::is_digit(fraction[i - end - 1]));
        }
    }
}

/// The first point of a text is a point, and none stands before it.
proof fn lemma_point_found(s: Seq<char>)
    ensures
        match point_index(s) {
            Some(i) => 0 <= i < s.len() && s[i] == '.' && forall|k: int|
                0 <= k < i ==> #[trigger] s[k] != '.',
            None => forall|k: int| 0 <= k < s.len() ==> #[trigger] s[k] != '.',
        },
    decreases s.len(),
{
    if s.len() > 0 && s[0] != '.' {
        let rest = s.skip(1);
        lemma_point_found(rest);
        assert forall|k: int| 0 < k < s.len() implies #[trigger] s[k] == rest[k - 1] by {}
    }
}

/// A duration of up to 10000 years whose parts agree in sign is written as a decimal number of
/// seconds, with a fraction only where there are nanoseconds. Every other one is refused.
pub proof fn lemma_duration_form(seconds: i64, nanos: i32)
    ensures
        ({
            let written = duration_json(seconds, nanos);
            let size = (if nanos < 0 {
                -nanos
            } else {
                nanos as int
            }) as nat;
            let whole = text::nat_text(
                (if seconds < 0 {
                    -seconds
                } else {
                    seconds as int
                }) as nat,
            );
            let fraction = if nanos == 0 {
                seq![]
            } else {
                nanos_text(size)
            };
            &&& written is Ok <==> -315_576_000_000 <= seconds <= 315_576_000_000 && -999_999_999
                <= nanos <= 999_999_999 && !(seconds > 0 && nanos < 0) && !(seconds < 0 && nanos > 0)
            &&& written is Ok ==> written->Ok_0 == if seconds < 0 || nanos < 0 {
                seq!['-'] + decimal_seconds(whole, fraction)
            } else {
                decimal_seconds(whole, fraction)
            }
        }),
{
    if duration_json(seconds, nanos) is Ok {
        let size = (if nanos < 0 {
            -nanos
        } else {
            nanos as int
        }) as nat;
        lemma_nanos_text(size);
        let whole = text::nat_text(
            (if seconds < 0 {
                -seconds
            } else {
                seconds as int
            }) as nat,
        );
        let fraction = if nanos == 0 {
            seq![]
        } else {
            nanos_text(size)
        };
        let plain = decimal_seconds(whole, fraction);
        let s = duration_text(seconds as int, nanos as int);
        if seconds < 0 || nanos < 0 {
            assert(s =~= seq!['-'] + plain);
        } else {
            assert(s =~= plain);
        }
    }
}

/// Whether a text has digits where a date and a time of day have them, and the separators between.
pub open spec fn is_date_time(s: Seq<char>) -> bool {
    &&& s.len() >= 19
    &&& text::is_digit(s[0]) && text::is_digit(s[1]) && text::is_digit(s[2]) && text::is_digit(s[3])
    &&& s[4] == '-' && text::is_digit(s[5]) && text::is_digit(s[6])
    &&& s[7] == '-' && text::is_digit(s[8]) && text::is_digit(s[9])
    &&& s[10] == 'T' && text::is_digit(s[11]) && text::is_digit(s[12])
    &&& s[13] == ':' && text::is_digit(s[14]) && text::is_digit(s[15])
    &&& s[16] == ':' && text::is_digit(s[17]) && text::is_digit(s[18])
}

/// A timestamp is read from nothing but a date and a time of day, an optional fraction, and `Z` or
/// an offset of at most 23 hours and 59 minutes. It lies in the years 1 to 9999.
pub proof fn lemma_timestamps_have_their_form(name: Seq<char>, s: Seq<char>)
    requires
        timestamp_value(name, s) is Ok,
    ensures
        ({
            let (t, nanos) = timestamp_value(name, s)->Ok_0;
            let n = s.len() as int;
            &&& -62_135_596_800 <= t <= 253_402_300_799
            &&& 0 <= nanos <= 999_999_999
            &&& n >= 20
            &&& is_date_time(s)
            &&& 1 <= two_digits(s[5], s[6]) <= 12
            &&& 1 <= two_digits(s[8], s[9]) <= 31
            &&& two_digits(s[11], s[12]) <= 23
            &&& two_digits(s[14], s[15]) <= 59
            &&& two_digits(s[17], s[18]) <= 59
            &&& s[19] == '.' || n == 20 || n == 25
            &&& s.last() == 'Z' || {
                &&& n >= 25
                &&& s[n - 6] == '+' || s[n - 6] == '-'
                &&& text::is_digit(s[n - 5]) && text::is_digit(s[n - 4])
                &&& s[n - 3] == ':'
                &&& text::is_digit(s[n - 2]) && text::is_digit(s[n - 1])
                &&& two_digits(s[n - 5], s[n - 4]) <= 23
                &&& two_digits(s[n - 2], s[n - 1]) <= 59
            }
        }),
{
    let n = s.len() as int;
    lemma_date_time_digits(s);
    let rest = s.skip(19);
    let run = digit_run(rest.skip(1)) as int;
    let zone = if rest[0] == '.' {
        rest.skip(1 + run)
    } else {
        rest
    };
    lemma_run_length(rest.skip(1));
    assert(zone_offset(zone) is Some);
    if zone != seq!['Z'] {
        assert(zone.len() == 6);
        assert forall|k: int| 0 <= k < 6 implies #[trigger] zone[k] == s[n - 6 + k] by {}
        assert(zone.subrange(1, 3)[0] == zone[1] && zone.subrange(1, 3)[1] == zone[2]);
        assert(zone.subrange(4, 6)[0] == zone[4] && zone.subrange(4, 6)[1] == zone[5]);
        lemma_two_digits(zone, 1);
        lemma_two_digits(zone, 4);
        assert(zone[0] == s[n - 6] && zone[1] == s[n - 5] && zone[2] == s[n - 4] && zone[3]
            == s[n - 3] && zone[4] == s[n - 2] && zone[5] == s[n - 1]);
    } else {
        assert(zone[0] == 'Z');
        assert(s.last() == zone.last());
    }
    if rest[0] == '.' {
        let digits = rest.subrange(1, 1 + run);
        assert(text::all_digits(digits)) by {
            assert forall|k: int| 0 <= k < digits.len() implies text::is_digit(
                #[trigger] digits[k],
            ) by {
                assert(digits[k] == rest.skip(1)[k]);
            }
        }
        lemma_fraction(digits);
    }
}

/// The digits of a date and a time of day, and the numbers that they stand for.
proof fn lemma_date_time_digits(s: Seq<char>)
    requires
        s.len() >= 20,
    ensures
        has_date_time(s) == is_date_time(s),
        is_date_time(s) ==> {
            &&& number_at(s, 5, 7) == two_digits(s[5], s[6])
            &&& number_at(s, 8, 10) == two_digits(s[8], s[9])
            &&& number_at(s, 11, 13) == two_digits(s[11], s[12])
            &&& number_at(s, 14, 16) == two_digits(s[14], s[15])
            &&& number_at(s, 17, 19) == two_digits(s[17], s[18])
        },
{
    let y = s.subrange(0, 4);
    assert(y[0] == s[0] && y[1] == s[1] && y[2] == s[2] && y[3] == s[3]);
    assert(s.subrange(5, 7)[0] == s[5] && s.subrange(5, 7)[1] == s[6]);
    assert(s.subrange(8, 10)[0] == s[8] && s.subrange(8, 10)[1] == s[9]);
    assert(s.subrange(11, 13)[0] == s[11] && s.subrange(11, 13)[1] == s[12]);
    assert(s.subrange(14, 16)[0] == s[14] && s.subrange(14, 16)[1] == s[15]);
    assert(s.subrange(17, 19)[0] == s[17] && s.subrange(17, 19)[1] == s[18]);
    if is_date_time(s) {
        lemma_two_digits(s, 5);
        lemma_two_digits(s, 8);
        lemma_two_digits(s, 11);
        lemma_two_digits(s, 14);
        lemma_two_digits(s, 17);
    }
}

/// Every time of day in UTC, on every day of the years 1 to 9999, is read, and no other.
/// Each month counts 31 days here.
pub proof fn lemma_times_are_read(name: Seq<char>, s: Seq<char>)
    requires
        s.len() == 20,
        s[19] == 'Z',
        is_date_time(s),
    ensures
        ({
            let year = text::digits_value(s.take(4)) as int;
            timestamp_value(name, s) is Ok <==> 1 <= year && 1 <= two_digits(s[5], s[6]) <= 12 && 1
                <= two_digits(s[8], s[9]) <= 31 && two_digits(s[11], s[12]) <= 23 && two_digits(
                s[14],
                s[15],
            ) <= 59 && two_digits(s[17], s[18]) <= 59
        }),
{
    lemma_date_time_digits(s);
    assert(s.skip(19) =~= seq!['Z']);
    assert(s.take(4) =~= s.subrange(0, 4));
    lemma_number_bound(s.subrange(0, 4), 4);
    let year = text::digits_value(s.take(4)) as int;
    let month = two_digits(s[5], s[6]);
    let day = two_digits(s[8], s[9]);
    if 1 <= month <= 12 && 1 <= day <= 31 {
        assert(0 <= civil::days_before_month(year, month) + day - 1 <= if civil::is_leap(year) {
            365int
        } else {
            364
        });
        assert(1 <= year ==> 0 <= civil::days_before_year(year) <= 3_651_694);
        assert(year == 9999 ==> civil::days_before_year(year) == 3_651_694);
        assert(year == 9999 ==> !civil::is_leap(year));
        assert(year < 9999 ==> civil::days_before_year(year) <= 3_651_329);
        assert(year == 0 ==> civil::days_before_year(year) == -366);
    }
}

} // verus!
