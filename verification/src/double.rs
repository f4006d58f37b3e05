//! IEEE 754 double-precision numbers, held as their 64 bits.

use vstd::prelude::*;
use vstd::arithmetic::power2;
use bytes::Buf;
use jiter::NumberAny;
use crate::integer::Integer;
use crate::text;
use crate::text::{chars_of, text_has_char};

verus! {

/// The biased exponent.
pub open spec fn exponent(bits: u64) -> nat {
    ((bits / 0x0010_0000_0000_0000) % 0x800) as nat
}

/// The stored part of the significand.
pub open spec fn fraction(bits: u64) -> nat {
    (bits % 0x0010_0000_0000_0000) as nat
}

pub open spec fn is_negative(bits: u64) -> bool {
    bits >= 0x8000_0000_0000_0000
}

/// The bits without the sign. Magnitudes of finite numbers are ordered as these are.
pub open spec fn magnitude(bits: u64) -> nat {
    (bits % 0x8000_0000_0000_0000) as nat
}

/// Whether the number is neither infinite nor not-a-number.
pub open spec fn is_finite(bits: u64) -> bool {
    exponent(bits) != 0x7ff
}

pub open spec fn is_nan(bits: u64) -> bool {
    exponent(bits) == 0x7ff && fraction(bits) != 0
}

/// Whether a finite number lies in the range of single precision: its magnitude is at most
/// `(2^24 - 1) * 2^104`.
pub open spec fn in_float_range(bits: u64) -> bool {
    magnitude(bits) <= 0x47ef_ffff_e000_0000
}

/// The significand as a whole number. The number's magnitude is this times two to the power
/// of [`scale`].
pub open spec fn significand(bits: u64) -> nat {
    if exponent(bits) == 0 {
        fraction(bits)
    } else {
        fraction(bits) + 0x0010_0000_0000_0000
    }
}

pub open spec fn scale(bits: u64) -> int {
    if exponent(bits) == 0 {
        -1074
    } else {
        exponent(bits) - 1075
    }
}

/// Whether a number is finite and has no fractional part.
pub open spec fn is_whole(bits: u64) -> bool {
    &&& is_finite(bits)
    &&& scale(bits) >= 0 || significand(bits) % power2::pow2((-scale(bits)) as nat) == 0
}

/// The integer that a whole number is.
pub open spec fn whole_value(bits: u64) -> int {
    let m = if scale(bits) >= 0 {
        significand(bits) * power2::pow2(scale(bits) as nat)
    } else {
        significand(bits) / power2::pow2((-scale(bits)) as nat)
    };
    if is_negative(bits) {
        -(m as int)
    } else {
        m as int
    }
}

pub fn double_is_finite(bits: u64) -> (r: bool)
    ensures
        r == is_finite(bits),
{
    (bits / 0x0010_0000_0000_0000) % 0x800 != 0x7ff
}

pub fn double_is_nan(bits: u64) -> (r: bool)
    ensures
        r == is_nan(bits),
{
    !double_is_finite(bits) && bits % 0x0010_0000_0000_0000 != 0
}

pub fn double_is_negative(bits: u64) -> (r: bool)
    ensures
        r == is_negative(bits),
{
    bits >= 0x8000_0000_0000_0000
}

/// Whether a finite number lies in the range of single precision.
pub fn double_in_float_range(bits: u64) -> (r: bool)
    ensures
        r == in_float_range(bits),
{
    bits % 0x8000_0000_0000_0000 <= 0x47ef_ffff_e000_0000
}

/// Halving once takes one factor of two off.
proof fn lemma_halve(m: nat, n: nat)
    requires
        n > 0,
    ensures
        m % power2::pow2(n) == 0 <==> m % 2 == 0 && (m / 2) % power2::pow2((n - 1) as nat) == 0,
        m / power2::pow2(n) == (m / 2) / power2::pow2((n - 1) as nat),
{
    let p = power2::pow2((n - 1) as nat) as int;
    power2::lemma_pow2_unfold(n);
    power2::lemma_pow2_pos((n - 1) as nat);
    vstd::arithmetic::div_mod::lemma_mod_breakdown(m as int, 2, p);
    vstd::arithmetic::div_mod::lemma_div_denominator(m as int, 2, p);
    vstd::arithmetic::div_mod::lemma_mod_bound(m as int / 2, p);
}

/// The quotient of `m` by two to the power of `n`, if the division leaves no remainder.
fn halved(m: u64, n: u64) -> (r: Option<u64>)
    ensures
        r is Some <==> m as nat % power2::pow2(n as nat) == 0,
        r is Some ==> r->0 == m as nat / power2::pow2(n as nat),
    decreases n,
{
    if n == 0 {
        proof {
            power2::lemma2_to64();
        }
        return Some(m);
    }
    proof {
        lemma_halve(m as nat, n as nat);
    }
    if m % 2 != 0 {
        None
    } else {
        halved(m / 2, n - 1)
    }
}

/// The integer that a number is, if it has no fractional part.
pub fn double_to_integer(bits: u64) -> (r: Option<Integer>)
    ensures
        r is Some <==> is_whole(bits),
        r is Some ==> r->0@ == whole_value(bits),
{
    let exp: u64 = (bits / 0x0010_0000_0000_0000) % 0x800;
    if exp == 0x7ff {
        return None;
    }
    let frac: u64 = bits % 0x0010_0000_0000_0000;
    let m: u64 = if exp == 0 { frac } else { frac + 0x0010_0000_0000_0000 };
    let e: u64 = if exp == 0 { 1 } else { exp };
    assert(m == significand(bits) && e == scale(bits) + 1075);
    let negative: bool = bits >= 0x8000_0000_0000_0000;
    if e < 1075 {
        match halved(m, 1075 - e) {
            None => None,
            Some(q) => {
                proof {
                    lemma_quotient_bound(m as nat, (1075 - e) as nat);
                }
                Some(Integer::from_i64(if negative { -(q as i64) } else { q as i64 }))
            },
        }
    } else {
        let mut n: Integer = Integer::from_i64(if negative { -(m as i64) } else { m as i64 });
        let ghost start = n@;
        let times: u64 = e - 1075;
        let mut k: u64 = 0;
        proof {
            power2::lemma2_to64();
        }
        while k < times
            invariant
                k <= times,
                n@ == start * power2::pow2(k as nat),
            decreases times - k,
        {
            n = n.twice();
            proof {
                power2::lemma_pow2_unfold((k + 1) as nat);
                let p = power2::pow2(k as nat);
                assert(2 * (start * p) == start * (2 * p)) by (nonlinear_arith);
            }
            k = k + 1;
        }
        proof {
            let p = power2::pow2(times as nat);
            assert((-(m as int)) * p == -(m * p)) by (nonlinear_arith);
        }
        Some(n)
    }
}

proof fn lemma_quotient_bound(m: nat, n: nat)
    ensures
        m / power2::pow2(n) <= m,
{
    power2::lemma_pow2_pos(n);
    vstd::arithmetic::div_mod::lemma_div_is_ordered_by_denominator(m as int, 1, power2::pow2(n) as int);
}

/// What `ryu::Buffer::format_finite` writes for the number with the given bits.
pub uninterp spec fn ryu_text(bits: u64) -> Seq<char>;

/// `ryu::Buffer::format_finite` writes a finite number in its shortest decimal form. It writes no
/// exponent for zero, nor where the magnitude lies from 1e-4 up to but without 1e16. A form without
/// an exponent is a decimal fraction from which `str::parse` reads the number again. `Buf::get_f64`
/// turns the bits into the number it takes.
#[verifier::external_body]
fn format_finite(bits: u64) -> (r: String)
    requires
        is_finite(bits),
    ensures
        r@ == ryu_text(bits),
        in_fixed_range(bits) ==> !r@.contains('e') && !r@.contains('E'),
        !r@.contains('e') && !r@.contains('E') ==> r@.len() <= 32 && text::is_fraction(r@)
            && parsed_double(r@) == Some(bits),
{
    ryu::Buffer::new().format_finite(bits.to_be_bytes().as_slice().get_f64()).to_owned()
}

/// What `Display` writes for the number with the given bits.
pub uninterp spec fn displayed(bits: u64) -> Seq<char>;

/// `to_string` at the float type, for the number with the given bits. `Buf::get_f64` turns the
/// bits into the number.
#[verifier::external_body]
pub(crate) fn display_double(bits: u64) -> (r: String)
    ensures
        r@ == displayed(bits),
{
    bits.to_be_bytes().as_slice().get_f64().to_string()
}

/// Whether a number is zero or its magnitude lies from 1e-4 up to but without 1e16. The two
/// bounds are the bits of these numbers.
pub open spec fn in_fixed_range(bits: u64) -> bool {
    magnitude(bits) == 0 || 0x3f1a_36e2_eb1c_432d <= magnitude(bits) < 0x4341_c379_37e0_8000
}

/// The text of a number in fixed notation: the shortest decimal form of a number in the fixed
/// range.
pub open spec fn fixed_text(bits: u64) -> Option<Seq<char>> {
    if in_fixed_range(bits) {
        Some(ryu_text(bits))
    } else {
        None
    }
}

/// Whether the text of a number in fixed notation, if it has one, is a short decimal fraction from
/// which the number is read again.
pub open spec fn reads_back(bits: u64) -> bool {
    fixed_text(bits) matches Some(t) ==> t.len() <= 32 && text::is_fraction(t) && parsed_double(t)
        == Some(bits)
}

/// The text of a number in fixed notation. Every number in the fixed range has one and no other
/// has, and the number is read again from it.
pub fn ryu_fixed_notation(bits: u64) -> (r: Option<String>)
    ensures
        r is Some <==> in_fixed_range(bits),
        r is Some <==> fixed_text(bits) is Some,
        r is Some ==> r->0@ == fixed_text(bits)->0,
        r is Some ==> !r->0@.contains('e') && !r->0@.contains('E'),
        reads_back(bits),
{
    let mag: u64 = bits % 0x8000_0000_0000_0000;
    if mag != 0 && !(0x3f1a_36e2_eb1c_432d <= mag && mag < 0x4341_c379_37e0_8000) {
        return None;
    }
    let formatted: String = format_finite(bits);
    keep_fixed(formatted)
}

/// Keeps a decimal form that has no exponent.
pub fn keep_fixed(formatted: String) -> (r: Option<String>)
    ensures
        r == if formatted@.contains('e') || formatted@.contains('E') {
            None
        } else {
            Some(formatted)
        },
{
    let chars: Vec<char> = chars_of(formatted.as_str());
    if text_has_char(&chars, 'e') || text_has_char(&chars, 'E') {
        None
    } else {
        Some(formatted)
    }
}

/// Whether two numbers are the same, up to the bits that tell one not-a-number from another.
pub open spec fn same_number(a: u64, b: u64) -> bool {
    a == b || is_nan(a) && is_nan(b)
}

/// The bits of the double that `str::parse` reads from a text, if it reads one.
pub uninterp spec fn parsed_double(text: Seq<char>) -> Option<u64>;

/// `str::parse` at the float type that [`NumberAny`] holds, as bits. It reads a number from a
/// text or refuses the text; the bits of a not-a-number are left open.
#[verifier::external_body]
pub(crate) fn parse_double(text: &str) -> (r: Option<u64>)
    ensures
        r is Some <==> parsed_double(text@) is Some,
        r is Some ==> same_number(r->0, parsed_double(text@)->0),
{
    match text.parse().map(NumberAny::Float) {
        Ok(NumberAny::Float(v)) => Some(v.to_bits()),
        _ => None,
    }
}

/// What the bits of a number tell: those without the sign, read as an integer, are below the bits of
/// infinity for a finite number and above them for not-a-number.
pub proof fn lemma_finite_numbers(bits: u64)
    ensures
        is_finite(bits) <==> bits % 0x8000_0000_0000_0000 < 0x7ff0_0000_0000_0000,
        is_nan(bits) <==> bits % 0x8000_0000_0000_0000 > 0x7ff0_0000_0000_0000,
        is_negative(bits) <==> bits / 0x8000_0000_0000_0000 == 1,
{
    assert((bits / 0x0010_0000_0000_0000) % 0x800 == 0x7ff <==> bits % 0x8000_0000_0000_0000
        >= 0x7ff0_0000_0000_0000) by (bit_vector);
    assert((bits / 0x0010_0000_0000_0000) % 0x800 == 0x7ff ==> bits % 0x8000_0000_0000_0000
        == 0x7ff0_0000_0000_0000 + bits % 0x0010_0000_0000_0000) by (bit_vector);
}

/// The magnitude of a finite number, counted in the smallest positive number, `2^-1074`.
pub open spec fn units(bits: u64) -> nat {
    significand(bits) * power2::pow2((scale(bits) + 1074) as nat)
}

/// Of two finite numbers, the one with the larger magnitude has the larger bits without the sign.
pub proof fn lemma_magnitudes_are_ordered(a: u64, b: u64)
    requires
        is_finite(a),
        is_finite(b),
    ensures
        magnitude(a) <= magnitude(b) <==> units(a) <= units(b),
{
    lemma_magnitude(a);
    lemma_magnitude(b);
    if magnitude(a) < magnitude(b) {
        lemma_larger(a, b);
    } else if magnitude(b) < magnitude(a) {
        lemma_larger(b, a);
    }
}

proof fn lemma_magnitude(bits: u64)
    ensures
        magnitude(bits) == exponent(bits) * 0x0010_0000_0000_0000 + fraction(bits),
{
    assert(bits % 0x8000_0000_0000_0000 == ((bits / 0x0010_0000_0000_0000) % 0x800)
        * 0x0010_0000_0000_0000 + bits % 0x0010_0000_0000_0000) by (bit_vector);
}

proof fn lemma_larger(a: u64, b: u64)
    requires
        is_finite(a),
        is_finite(b),
        magnitude(a) < magnitude(b),
    ensures
        units(a) < units(b),
{
    lemma_magnitude(a);
    lemma_magnitude(b);
    let ka = (scale(a) + 1074) as nat;
    let kb = (scale(b) + 1074) as nat;
    let pa = power2::pow2(ka) as int;
    let pb = power2::pow2(kb) as int;
    let sa = significand(a) as int;
    let sb = significand(b) as int;
    power2::lemma_pow2_pos(ka);
    power2::lemma_pow2_pos(kb);
    if ka == kb {
        assert(sa < sb);
        assert(sa * pa < sb * pa) by (nonlinear_arith)
            requires
                sa < sb,
                pa > 0,
        ;
    } else {
        assert(ka < kb);
        power2::lemma_pow2_adds(ka, (kb - ka) as nat);
        power2::lemma_pow2_unfold((kb - ka) as nat);
        power2::lemma_pow2_pos((kb - ka - 1) as nat);
        let r = power2::pow2((kb - ka) as nat) as int;
        assert(pb == pa * r);
        assert(r >= 2);
        assert(sa * pa < sb * pb) by (nonlinear_arith)
            requires
                pb == pa * r,
                r >= 2,
                pa > 0,
                0 <= sa < 0x0020_0000_0000_0000,
                sb >= 0x0010_0000_0000_0000,
        ;
    }
}

/// A finite number is in the range of single precision exactly when its magnitude is at most
/// `(2^24 - 1) * 2^104`.
pub proof fn lemma_float_range(bits: u64)
    requires
        is_finite(bits),
    ensures
        in_float_range(bits) <==> units(bits) <= 0xff_ffff * power2::pow2(1178),
{
    let top = 0x47ef_ffff_e000_0000u64;
    lemma_magnitudes_are_ordered(bits, top);
    power2::lemma2_to64();
    power2::lemma_pow2_adds(1149, 29);
    let q = power2::pow2(1149);
    assert(power2::pow2(29) == 0x2000_0000);
    assert(0xff_ffff * (q * 0x2000_0000) == 0x1f_ffff_e000_0000 * q) by (nonlinear_arith);
    assert(magnitude(top) == 0x47ef_ffff_e000_0000);
    assert(units(top) == 0x1f_ffff_e000_0000 * q);
}

/// A number has a fixed notation exactly when it is zero or its magnitude lies from `10^-4` up to but
/// without `10^16`.
pub proof fn lemma_fixed_range(bits: u64)
    requires
        is_finite(bits),
    ensures
        in_fixed_range(bits) <==> units(bits) == 0 || 10_000 * units(bits) >= power2::pow2(1074)
            && units(bits) < 10_000_000_000_000_000 * power2::pow2(1074),
{
    power2::lemma2_to64();
    power2::lemma2_to64_rest();
    let q = power2::pow2(1008);
    power2::lemma_pow2_adds(1008, 64);
    power2::lemma_pow2_adds(1072, 2);
    power2::lemma_pow2_adds(1074, 1);
    power2::lemma_pow2_pos(1008);
    let p = power2::pow2(1074);
    assert(p == q * 0x1_0000_0000_0000_0000 * 4);
    let low = 0x3f1a_36e2_eb1c_432du64;
    let below = 0x3f1a_36e2_eb1c_432cu64;
    let high = 0x4341_c379_37e0_8000u64;
    assert(units(low) == 0x1a_36e2_eb1c_432d * q);
    assert(units(below) == 0x1a_36e2_eb1c_432c * q);
    assert(10_000 * (0x1a_36e2_eb1c_432d * q) >= p) by (nonlinear_arith)
        requires
            p == q * 0x1_0000_0000_0000_0000 * 4,
    ;
    assert(10_000 * (0x1a_36e2_eb1c_432c * q) < p) by (nonlinear_arith)
        requires
            p == q * 0x1_0000_0000_0000_0000 * 4,
            q > 0,
    ;
    assert(power2::pow2(1075) == p * 2);
    assert(units(high) == 0x11_c379_37e0_8000 * power2::pow2(1075));
    assert(0x11_c379_37e0_8000 * (p * 2) == 10_000_000_000_000_000 * p) by (nonlinear_arith);
    assert(magnitude(low) == low && magnitude(below) == below && magnitude(high) == high);
    lemma_magnitudes_are_ordered(low, bits);
    lemma_magnitudes_are_ordered(bits, below);
    lemma_magnitudes_are_ordered(high, bits);
    lemma_magnitudes_are_ordered(bits, 0);
    lemma_magnitudes_are_ordered(0, bits);
    assert(units(0) == 0) by {
        let s = significand(0) as int;
        let r = power2::pow2((scale(0) + 1074) as nat) as int;
        assert(s * r == 0) by (nonlinear_arith)
            requires
                s == 0,
        ;
    }
}

/// A finite number is whole exactly when the smallest positive number goes into it a multiple of
/// `2^1074` times, and the integer is that multiple, with the number's sign.
pub proof fn lemma_whole_numbers_are_counted(bits: u64)
    requires
        is_finite(bits),
    ensures
        is_whole(bits) <==> units(bits) % power2::pow2(1074) == 0,
        is_whole(bits) ==> units(bits) == power2::pow2(1074) * (if is_negative(bits) {
            -whole_value(bits)
        } else {
            whole_value(bits)
        }),
{
    let s = significand(bits) as int;
    let k = scale(bits);
    let p = power2::pow2(1074) as int;
    power2::lemma_pow2_pos(1074);
    if k >= 0 {
        power2::lemma_pow2_adds(k as nat, 1074);
        let r = power2::pow2(k as nat) as int;
        assert(s * (r * p) == (s * r) * p) by (nonlinear_arith);
        assert((s * r) * p == p * (s * r)) by (nonlinear_arith);
        vstd::arithmetic::div_mod::lemma_mod_multiples_basic(s * r, p);
    } else {
        let n = (-k) as nat;
        let r = power2::pow2(n) as int;
        let c = power2::pow2((1074 - n) as nat) as int;
        power2::lemma_pow2_adds(n, (1074 - n) as nat);
        power2::lemma_pow2_pos(n);
        power2::lemma_pow2_pos((1074 - n) as nat);
        assert(p == r * c);
        vstd::arithmetic::div_mod::lemma_fundamental_div_mod(s, r);
        vstd::arithmetic::div_mod::lemma_mod_bound(s, r);
        let q = s / r;
        let m = s % r;
        assert(s * c == q * p + m * c) by (nonlinear_arith)
            requires
                s == r * q + m,
                p == r * c,
        ;
        assert(0 <= m * c < p) by (nonlinear_arith)
            requires
                0 <= m < r,
                c > 0,
                p == r * c,
        ;
        vstd::arithmetic::div_mod::lemma_fundamental_div_mod_converse(s * c, p, q, m * c);
        assert(m * c == 0 <==> m == 0) by (nonlinear_arith)
            requires
                c > 0,
                m >= 0,
        ;
        assert(m == 0 ==> s * c == p * q) by (nonlinear_arith)
            requires
                s * c == q * p + m * c,
        ;
    }
}

} // verus!
