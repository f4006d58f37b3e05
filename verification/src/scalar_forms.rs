//! In which forms scalars, map keys and enums are read.

use vstd::prelude::*;
use vstd::arithmetic::power2;
use crate::descriptor;
use crate::descriptor::{
    DescEnum, DescField, DescFieldValue, DescMessage, DescSingleValue, ScalarType, Schema,
};
use crate::double;
use crate::error;
use crate::error::{Fault, FieldFaultOf, RangeOf};
use crate::integer;
use crate::json_form;
use crate::json_parse;
use crate::json_parse::FromJsonOpts;
use crate::json_scalars;
use crate::json_scalars::St;
use crate::json_shown;
use crate::json_sink::Json;
use crate::json_source;
use crate::json_source::SrcState;
use crate::octets;
use crate::question::Ans;
use crate::round_trip;
use crate::text;
use crate::value::{Msg, Val};

verus! {

/// Whether a type is one of integers.
pub open spec fn is_integer_type(scalar: ScalarType) -> bool {
    match scalar {
        ScalarType::Bool
        | ScalarType::String
        | ScalarType::Bytes
        | ScalarType::Float
        | ScalarType::Double => false,
        _ => true,
    }
}

/// Whether a type of integers has room for a number.
pub open spec fn holds(scalar: ScalarType, n: int) -> bool {
    json_form::is_short(scalar, n) || json_form::is_long(scalar, n)
}

/// How the range of a type of integers is called.
pub open spec fn range_name(scalar: ScalarType) -> RangeOf {
    match scalar {
        ScalarType::Uint32 | ScalarType::Fixed32 => RangeOf::Uint32,
        ScalarType::Int64 | ScalarType::Sint64 | ScalarType::Sfixed64 => RangeOf::Int64,
        ScalarType::Uint64 | ScalarType::Fixed64 => RangeOf::Uint64,
        _ => RangeOf::Int32,
    }
}

/// What reading a field yields for a number: the number if its type has room for it, and else an
/// error that tells so.
pub open spec fn number_or_range(
    scalar: ScalarType,
    n: int,
    after: St,
    desc: DescMessage,
    field: DescField,
) -> Result<(Val, St), Fault> {
    if holds(scalar, n) {
        Ok((Val::Int(n), after))
    } else {
        Err(
            Fault::Field {
                fault: FieldFaultOf::OutOfRange(Val::Int(n), range_name(scalar)),
                name: desc.full_name@,
                field: field.name@,
            },
        )
    }
}

/// Integers of every type are read from numbers, also from those with a fraction of zero, and from
/// strings in decimal. The range of the type is kept.
pub proof fn lemma_integers_are_read(
    st: St,
    scalar: ScalarType,
    n: int,
    t: Seq<char>,
    bits: u64,
    desc: DescMessage,
    field: DescField,
)
    requires
        is_integer_type(scalar),
    ensures
        ({
            let read = json_scalars::scalar_reading(st, scalar, desc, field);
            let number = Json::Number(Val::Int(n), t);
            let string = Json::Str(text::int_text(n));
            let float = Json::Number(Val::Float(bits), t);
            let behind = |j: Json| round_trip::at(json_shown::behind(st.src, j), st.asks);
            &&& json_shown::shows(st.src, number) ==> read == number_or_range(
                scalar,
                n,
                behind(number),
                desc,
                field,
            )
            &&& json_shown::shows(st.src, string) && text::int_text(n).len() <= 640 ==> read
                == number_or_range(scalar, n, behind(string), desc, field)
            &&& json_shown::shows(st.src, float) && double::is_whole(bits) ==> read
                == number_or_range(scalar, double::whole_value(bits), behind(float), desc, field)
            &&& json_shown::shows(st.src, float) && !double::is_whole(bits) ==> read is Err
        }),
{
    if text::int_text(n).len() <= 640 {
        round_trip::lemma_int_of_text(n, st.asks, desc, field);
    }
}

/// The whole numbers among the doubles: a number of the same bits with the other sign is the
/// opposite, one with the next exponent is twice as large, and those from 2^52 to 2^53 are the
/// integers that their bits count.
pub proof fn lemma_whole_numbers(bits: u64)
    ensures
        bits < 0x8000_0000_0000_0000 ==> double::is_whole((bits + 0x8000_0000_0000_0000) as u64)
            == double::is_whole(bits) && double::whole_value((bits + 0x8000_0000_0000_0000) as u64)
            == -double::whole_value(bits),
        0x4330_0000_0000_0000 <= bits < 0x4340_0000_0000_0000 ==> double::is_whole(bits)
            && double::whole_value(bits) == 0x0010_0000_0000_0000 + (bits - 0x4330_0000_0000_0000),
        0x0010_0000_0000_0000 <= bits < 0x7fe0_0000_0000_0000 && double::is_whole(bits)
            ==> double::is_whole((bits + 0x0010_0000_0000_0000) as u64) && double::whole_value(
            (bits + 0x0010_0000_0000_0000) as u64,
        ) == 2 * double::whole_value(bits),
        double::is_whole(bits) ==> double::exponent(bits) != 0x7ff,
{
    power2::lemma2_to64();
    assert(power2::pow2(0) == 1);
    if 0x0010_0000_0000_0000 <= bits < 0x7fe0_0000_0000_0000 && double::is_whole(bits) {
        let next = (bits + 0x0010_0000_0000_0000) as u64;
        assert(double::fraction(next) == double::fraction(bits));
        assert(double::exponent(next) == double::exponent(bits) + 1);
        let m = double::significand(bits) as int;
        assert(double::significand(next) == m);
        let k = double::scale(bits);
        assert(double::scale(next) == k + 1);
        if k >= 0 {
            power2::lemma_pow2_unfold((k + 1) as nat);
            let p = power2::pow2(k as nat) as int;
            assert(m * (2 * p) == 2 * (m * p)) by (nonlinear_arith);
        } else {
            power2::lemma_pow2_unfold((-k) as nat);
            power2::lemma_pow2_pos((-k) as nat);
            power2::lemma_pow2_pos((-k - 1) as nat);
            let p = power2::pow2((-k - 1) as nat) as int;
            lemma_halved(m, p);
            if k == -1 {
                assert(p == 1);
                assert(m * 1 == m);
                assert(m / p == m) by {
                    vstd::arithmetic::div_mod::lemma_div_basics(m);
                }
            }
        }
    }
}

/// What twice a number divides, the number divides, twice as often.
proof fn lemma_halved(m: int, p: int)
    requires
        p > 0,
        m >= 0,
        m % (2 * p) == 0,
    ensures
        m % p == 0,
        m / p == 2 * (m / (2 * p)),
{
    let q = m / (2 * p);
    vstd::arithmetic::div_mod::lemma_fundamental_div_mod(m, 2 * p);
    assert(m == (2 * q) * p) by (nonlinear_arith)
        requires
            m == (2 * p) * q,
    ;
    vstd::arithmetic::div_mod::lemma_div_multiples_vanish(2 * q, p);
    vstd::arithmetic::div_mod::lemma_mod_multiples_basic(2 * q, p);
    assert((2 * q) * p == p * (2 * q)) by (nonlinear_arith);
}

/// Floats and doubles are read from numbers, and what is no finite number from the strings `NaN`,
/// `Infinity` and `-Infinity` alone. A float is no larger than single precision allows.
pub proof fn lemma_floats_are_read(
    st: St,
    scalar: ScalarType,
    t: Seq<char>,
    bits: u64,
    desc: DescMessage,
    field: DescField,
)
    requires
        scalar is Float || scalar is Double,
    ensures
        ({
            let read = json_scalars::scalar_reading(st, scalar, desc, field);
            let number = Json::Number(Val::Float(bits), t);
            let word = |w: Seq<char>| Json::Str(w);
            let fits = scalar is Double || (bits % 0x8000_0000_0000_0000) <= 0x47ef_ffff_e000_0000;
            let is = |j: Json, v: u64|
                read == Ok::<(Val, St), Fault>(
                    (Val::Float(v), round_trip::at(json_shown::behind(st.src, j), st.asks)),
                );
            &&& json_shown::shows(st.src, number) ==> if double::is_finite(bits) && fits {
                is(number, bits)
            } else {
                read is Err
            }
            &&& json_shown::shows(st.src, word("NaN"@)) ==> is(word("NaN"@), 0x7ff8_0000_0000_0000)
            &&& json_shown::shows(st.src, word("Infinity"@)) ==> is(
                word("Infinity"@),
                0x7ff0_0000_0000_0000,
            )
            &&& json_shown::shows(st.src, word("-Infinity"@)) ==> is(
                word("-Infinity"@),
                0xfff0_0000_0000_0000,
            )
            &&& read is Ok ==> read->Ok_0.0 is Float
            &&& read is Ok && !double::is_finite(read->Ok_0.0->Float_0) ==> (
            json_source::string_read(st.src) matches Ok((w, _)) && (w == "NaN"@ || w == "Infinity"@
                || w == "-Infinity"@))
            &&& read is Ok && double::is_finite(read->Ok_0.0->Float_0) && scalar is Float
                ==> read->Ok_0.0->Float_0 % 0x8000_0000_0000_0000 <= 0x47ef_ffff_e000_0000
        }),
{
    reveal_strlit("NaN");
    reveal_strlit("Infinity");
    reveal_strlit("-Infinity");
    assert("NaN"@.len() == 3 && "Infinity"@.len() == 8 && "-Infinity"@.len() == 9);
}

/// A double is read from the string of a number, as from the number, unless white space stands
/// around it.
pub proof fn lemma_float_strings(
    st: St,
    scalar: ScalarType,
    t: Seq<char>,
    desc: DescMessage,
    field: DescField,
)
    requires
        scalar is Double,
        t != "NaN"@ && t != "Infinity"@ && t != "-Infinity"@,
        json_shown::shows(st.src, Json::Str(t)),
    ensures
        ({
            let read = json_scalars::scalar_reading(st, scalar, desc, field);
            let known = text::is_trimmed(t) && (double::parsed_double(t) matches Some(bits)
                && double::is_finite(bits));
            &&& read is Ok <==> known
            &&& known ==> read->Ok_0.0 == Val::Float(double::parsed_double(t)->0)
        }),
{
}

/// Booleans are read from `true` and `false`, and strings from strings, as they are. Bytes are
/// read from base64 in either alphabet, with its padding or without.
pub proof fn lemma_plain_scalars_are_read(
    st: St,
    b: bool,
    t: Seq<char>,
    bytes: Seq<u8>,
    desc: DescMessage,
    field: DescField,
)
    ensures
        ({
            let behind = |j: Json| round_trip::at(json_shown::behind(st.src, j), st.asks);
            let read = |scalar: ScalarType| json_scalars::scalar_reading(st, scalar, desc, field);
            let blob = |s: Seq<char>|
                json_shown::shows(st.src, Json::Str(s)) ==> read(ScalarType::Bytes) == Ok::<
                    (Val, St),
                    Fault,
                >((Val::Bytes(bytes), behind(Json::Str(s))));
            &&& json_shown::shows(st.src, Json::Bool(b)) ==> read(ScalarType::Bool) == Ok::<
                (Val, St),
                Fault,
            >((Val::Bool(b), behind(Json::Bool(b))))
            &&& json_shown::shows(st.src, Json::Str(t)) ==> read(ScalarType::String) == Ok::<
                (Val, St),
                Fault,
            >((Val::Str(t), behind(Json::Str(t))))
            &&& blob(octets::base64_text(bytes))
            &&& blob(octets::url_safe_text(bytes))
            &&& blob(octets::unpadded(octets::base64_text(bytes)))
            &&& blob(octets::unpadded(octets::url_safe_text(bytes)))
        }),
{
    octets::lemma_base64_read_back(bytes);
    octets::lemma_url_safe_read_back(bytes);
    octets::lemma_unpadded_read_back(bytes);
}

/// A scalar is read from the kinds of JSON values that its type allows, and from no other:
/// booleans from booleans, strings and bytes from strings, numbers from numbers and strings.
pub proof fn lemma_scalars_refuse_other_kinds(
    st: St,
    scalar: ScalarType,
    desc: DescMessage,
    field: DescField,
)
    requires
        json_scalars::scalar_reading(st, scalar, desc, field) is Ok,
    ensures
        ({
            let kind = json_source::peeked(st.src)->Ok_0;
            let v = json_scalars::scalar_reading(st, scalar, desc, field)->Ok_0.0;
            &&& json_source::peeked(st.src) is Ok
            &&& match scalar {
                ScalarType::Bool => kind is Bool && v is Bool,
                ScalarType::String => kind is String && v is Str,
                ScalarType::Bytes => kind is String && v is Bytes,
                ScalarType::Float | ScalarType::Double => (kind is Number || kind is String)
                    && v is Float,
                _ => (kind is Number || kind is String) && v is Int && holds(scalar, v->Int_0),
            }
        }),
{
}

/// A key of a map is a string as it is, `true` or `false`, or an integer in decimal within the
/// range of its type.
pub proof fn lemma_map_keys_are_read(
    key_type: ScalarType,
    key: Seq<char>,
    n: int,
    asks: Seq<Ans>,
    desc: DescMessage,
    field: DescField,
)
    ensures
        ({
            let read = json_scalars::map_key_reading(key_type, key, asks, desc, field);
            &&& key_type is String ==> read == Ok::<(Val, Seq<Ans>), Fault>((Val::Str(key), asks))
            &&& key_type is Bool ==> read is Ok == (key == "true"@ || key == "false"@)
            &&& key_type is Bool && key == "true"@ ==> read == Ok::<(Val, Seq<Ans>), Fault>(
                (Val::Bool(true), asks),
            )
            &&& key_type is Bool && key == "false"@ ==> read == Ok::<(Val, Seq<Ans>), Fault>(
                (Val::Bool(false), asks),
            )
            &&& is_integer_type(key_type) && key == text::int_text(n) && key.len() <= 640 ==> (
            read is Ok <==> holds(key_type, n)) && (holds(key_type, n) ==> read == Ok::<
                (Val, Seq<Ans>),
                Fault,
            >((Val::Int(n), asks)))
            &&& is_integer_type(key_type) && read is Ok ==> read->Ok_0.0 is Int && holds(
                key_type,
                read->Ok_0.0->Int_0,
            )
        }),
{
    reveal_strlit("true");
    reveal_strlit("false");
    assert("true"@.len() == 4 && "false"@.len() == 5);
    if key == text::int_text(n) && key.len() <= 640 {
        round_trip::lemma_int_of_text(n, asks, desc, field);
    }
}

/// Whether a text is one of the names of an enum.
pub open spec fn is_enum_name(e: DescEnum, t: Seq<char>) -> bool {
    exists|k: int| 0 <= k < e.numbers_by_name@.len() && (#[trigger] e.numbers_by_name@[k]).0@ == t
}

/// Whether the table of names gives a number for a name.
pub open spec fn names_number(e: DescEnum, t: Seq<char>, n: i32) -> bool {
    exists|k: int|
        {
            &&& 0 <= k < e.numbers_by_name@.len()
            &&& (#[trigger] e.numbers_by_name@[k]).0@ == t
            &&& e.numbers_by_name@[k].1 == n
            &&& forall|j: int| 0 <= j < k ==> (#[trigger] e.numbers_by_name@[j]).0@ != t
        }
}

/// Whether an enum has a value with the given number.
pub open spec fn is_enum_number(e: DescEnum, n: int) -> bool {
    exists|k: int| 0 <= k < e.names_by_number@.len() && (#[trigger] e.names_by_number@[k]).0 == n
}

/// A name is found where it first stands in a table.
pub proof fn lemma_name_found<T>(table: Seq<(String, T)>, name: Seq<char>)
    ensures
        match descriptor::name_index(table, name) {
            Some(i) => 0 <= i < table.len() && table[i].0@ == name && forall|j: int|
                0 <= j < i ==> (#[trigger] table[j]).0@ != name,
            None => forall|j: int| 0 <= j < table.len() ==> (#[trigger] table[j]).0@ != name,
        },
    decreases table.len(),
{
    if table.len() > 0 && table[0].0@ != name {
        let rest = table.skip(1);
        lemma_name_found(rest, name);
        assert forall|j: int| 0 < j < table.len() implies #[trigger] table[j] == rest[j - 1] by {}
    }
}

/// A number is found where it first stands in a table.
pub proof fn lemma_number_found(table: Seq<(i32, String)>, number: i32)
    ensures
        match descriptor::number_index(table, number) {
            Some(i) => 0 <= i < table.len() && table[i].0 == number && forall|j: int|
                0 <= j < i ==> (#[trigger] table[j]).0 != number,
            None => forall|j: int| 0 <= j < table.len() ==> (#[trigger] table[j]).0 != number,
        },
    decreases table.len(),
{
    if table.len() > 0 && table[0].0 != number {
        let rest = table.skip(1);
        lemma_number_found(rest, number);
        assert forall|j: int| 0 < j < table.len() implies #[trigger] table[j] == rest[j - 1] by {}
    }
}

proof fn lemma_enum_tables(e: DescEnum, t: Seq<char>, n: int)
    ensures
        descriptor::name_index(e.numbers_by_name@, t) is Some <==> is_enum_name(e, t),
        descriptor::name_index(e.numbers_by_name@, t) matches Some(k) ==> names_number(
            e,
            t,
            e.numbers_by_name@[k].1,
        ),
        i32::MIN <= n <= i32::MAX && descriptor::number_index(e.names_by_number@, n as i32) is Some
            <==> is_enum_number(e, n),
{
    lemma_name_found(e.numbers_by_name@, t);
    lemma_number_found(e.names_by_number@, n as i32);
    if descriptor::name_index(e.numbers_by_name@, t) is Some {
        let k = descriptor::name_index(e.numbers_by_name@, t)->0;
        assert(e.numbers_by_name@[k].0@ == t);
    }
    if i32::MIN <= n <= i32::MAX && descriptor::number_index(e.names_by_number@, n as i32) is Some {
        let k = descriptor::number_index(e.names_by_number@, n as i32)->0;
        assert(e.names_by_number@[k].0 == n);
    }
    if is_enum_number(e, n) {
        let k = choose|k: int|
            0 <= k < e.names_by_number@.len() && (#[trigger] e.names_by_number@[k]).0 == n;
        assert(e.names_by_number@[k].0 == n);
    }
}

/// A name in the table stands for one number.
proof fn lemma_one_number(e: DescEnum, t: Seq<char>, n: i32)
    requires
        names_number(e, t, n),
    ensures
        descriptor::name_index(e.numbers_by_name@, t) matches Some(k) && e.numbers_by_name@[k].1 == n,
{
    lemma_name_found(e.numbers_by_name@, t);
    let k = choose|k: int|
        {
            &&& 0 <= k < e.numbers_by_name@.len()
            &&& (#[trigger] e.numbers_by_name@[k]).0@ == t
            &&& e.numbers_by_name@[k].1 == n
            &&& forall|j: int| 0 <= j < k ==> (#[trigger] e.numbers_by_name@[j]).0@ != t
        };
    match descriptor::name_index(e.numbers_by_name@, t) {
        Some(i) => {
            if i < k {
                assert(e.numbers_by_name@[i].0@ != t);
            } else if k < i {
                assert(e.numbers_by_name@[k].0@ != t);
            }
        },
        None => {
            assert(e.numbers_by_name@[k].0@ != t);
        },
    }
}

/// A value of an enum is read from its name as the number that the table of names gives for it. A
/// text that is no name is refused; where unknown values are ignored it is taken off the source,
/// and there is no value.
pub proof fn lemma_enums_are_read_by_name(
    src: SrcState,
    e: DescEnum,
    t: Seq<char>,
    n: i32,
    ignore: bool,
)
    requires
        json_shown::shows(src, Json::Str(t)),
    ensures
        ({
            let read = json_scalars::enum_reading(src, e, ignore);
            let after = json_shown::behind(src, Json::Str(t));
            &&& names_number(e, t, n) && is_enum_number(e, n as int) ==> read == Ok::<
                (Option<Val>, SrcState),
                Fault,
            >((Some(Val::Int(n as int)), after))
            &&& !is_enum_name(e, t) && ignore ==> read == Ok::<(Option<Val>, SrcState), Fault>(
                (None, after),
            )
            &&& !is_enum_name(e, t) && !ignore ==> read == Err::<(Option<Val>, SrcState), Fault>(
                Fault::CannotDecodeEnum { name: e.full_name@, value: Val::Str(t) },
            )
            &&& is_enum_name(e, t) ==> (read is Err || read->Ok_0.0 is Some)
            &&& read matches Ok((Some(v), _)) ==> v matches Val::Int(k) && i32::MIN <= k <= i32::MAX
                && names_number(e, t, k as i32)
        }),
{
    lemma_enum_tables(e, t, n as int);
    if names_number(e, t, n) {
        lemma_one_number(e, t, n);
    }
}

/// A value of an enum is read from its number. A number without a value is one of open enums alone;
/// where unknown values are ignored it is taken off the source, and there is no value. Null is the
/// first declared value, and no number with a point is a value.
pub proof fn lemma_enums_are_read_by_number(
    src: SrcState,
    e: DescEnum,
    n: int,
    bits: u64,
    t: Seq<char>,
    ignore: bool,
)
    ensures
        ({
            let read = json_scalars::enum_reading(src, e, ignore);
            let number = Json::Number(Val::Int(n), t);
            let after = json_shown::behind(src, number);
            &&& json_shown::shows(src, number) ==> read == if is_enum_number(e, n) || !ignore
                && e.open {
                Ok::<(Option<Val>, SrcState), Fault>((Some(Val::Int(n)), after))
            } else if ignore {
                Ok((None, after))
            } else {
                Err(Fault::NoEnumMember { name: e.full_name@, value: Val::Int(n) })
            }
            &&& json_shown::shows(src, Json::Number(Val::Float(bits), t)) ==> read is Err
            &&& json_shown::shows(src, Json::Null) ==> read == Ok::<(Option<Val>, SrcState), Fault>(
                (Some(Val::Int(e.zero as int)), json_shown::behind(src, Json::Null)),
            )
            &&& read is Ok ==> !(json_source::peeked(src)->Ok_0 is Bool || json_source::peeked(
                src,
            )->Ok_0 is Array || json_source::peeked(src)->Ok_0 is Object)
        }),
{
    lemma_enum_tables(e, t, n);
}

/// Whether a JSON value is none of the values of an enum, but a name or a number.
pub open spec fn is_unknown_value(e: DescEnum, j: Json) -> bool {
    match j {
        Json::Str(t) => !is_enum_name(e, t),
        Json::Number(Val::Int(n), _) => !is_enum_number(e, n),
        _ => false,
    }
}

/// An unknown value of an enum that is ignored changes nothing: a field keeps what it had, and
/// there is no item for a list and no value for a map.
pub proof fn lemma_ignored_enums_change_nothing(
    schema: Schema,
    opts: FromJsonOpts,
    m: Msg,
    desc: DescMessage,
    field: DescField,
    i: int,
    enum_: usize,
    is_map: bool,
    st: St,
    j: Json,
    depth: nat,
)
    requires
        depth <= json_parse::DEPTH_LIMIT,
        opts.ignore_unknown_fields,
        enum_ < schema.enums@.len(),
        json_shown::shows(st.src, j),
        is_unknown_value(schema.enums@[enum_ as int], j),
    ensures
        ({
            let after = round_trip::at(json_shown::behind(st.src, j), st.asks);
            &&& field.value == (DescFieldValue::Enum { enum_ }) ==> json_parse::field_reading(
                schema,
                opts,
                m,
                desc,
                field,
                i,
                st,
                depth,
            ) == (m, Ok::<St, Fault>(after))
            &&& json_parse::item_reading(
                schema,
                opts,
                desc,
                field,
                DescSingleValue::Enum(enum_),
                is_map,
                st,
                depth,
            ) == Ok::<(Option<Val>, St), Fault>((None, after))
        }),
{
    let e = schema.enums@[enum_ as int];
    match j {
        Json::Str(t) => lemma_enums_are_read_by_name(st.src, e, t, 0, true),
        Json::Number(Val::Int(n), t) => lemma_enums_are_read_by_number(st.src, e, n, 0, t, true),
        _ => {},
    }
}

/// A number that is too large for its type is an overflow, a JSON value of another kind is a type
/// error, and a text that stands for no such value is a value error.
#[verifier::spinoff_prover]
#[verifier::rlimit(60)]
pub proof fn lemma_kinds_of_scalar_errors(
    st: St,
    scalar: ScalarType,
    j: Json,
    desc: DescMessage,
    field: DescField,
)
    requires
        json_shown::shows(st.src, j),
        json_scalars::value_reading(st.src) is Ok,
        json_scalars::scalar_reading(st, scalar, desc, field) is Err,
        st.asks.len() > 0 ==> !(st.asks[0] is Raised),
    ensures
        ({
            let fault = json_scalars::scalar_reading(st, scalar, desc, field)->Err_0;
            let class = error::class_of(fault);
            let other_kind = match scalar {
                ScalarType::Bool => !(j is Bool),
                ScalarType::String | ScalarType::Bytes => !(j is Str),
                _ => !(j is Number) && !(j is Str),
            };
            &&& other_kind ==> class is Type
            &&& is_integer_type(scalar) && j is Number && j->Number_0 is Int ==> class is Overflow
            &&& is_integer_type(scalar) && j is Number && j->Number_0 is Float && !double::is_whole(
                j->Number_0->Float_0,
            ) ==> class is Value
            &&& is_integer_type(scalar) && j is Number && j->Number_0 is Float && double::is_whole(
                j->Number_0->Float_0,
            ) ==> class is Overflow
            &&& scalar is Bytes && j is Str ==> class is Value
            &&& scalar is Double && j is Str ==> class is Value
            &&& scalar is Float && j is Number && j->Number_0 is Float && double::is_finite(
                j->Number_0->Float_0,
            ) ==> class is Overflow
        }),
{
}

/// A plain string is read as an integer if it is one in decimal, or a number without a fraction; and
/// as nothing else. No white space may stand around it.
pub proof fn lemma_integer_strings(
    st: St,
    scalar: ScalarType,
    t: Seq<char>,
    desc: DescMessage,
    field: DescField,
)
    requires
        is_integer_type(scalar),
        json_shown::shows(st.src, Json::Str(t)),
        t.len() <= 640,
        forall|i: int| 0 <= i < t.len() ==> '!' <= #[trigger] t[i] <= '~',
    ensures
        ({
            let read = json_scalars::scalar_reading(st, scalar, desc, field);
            let after = round_trip::at(json_shown::behind(st.src, Json::Str(t)), st.asks);
            match integer::int_literal(t) {
                Some(n) => t.len() > 0 ==> read == number_or_range(scalar, n, after, desc, field),
                None => match double::parsed_double(t) {
                    Some(bits) => t.len() > 0 && double::is_whole(bits) ==> read == number_or_range(
                        scalar,
                        double::whole_value(bits),
                        after,
                        desc,
                        field,
                    ),
                    None => read is Err,
                },
            }
        }),
{
    if t.len() > 0 {
        assert('!' <= t[0] <= '~');
        assert('!' <= t[t.len() - 1] <= '~');
        assert(text::is_trimmed(t));
        assert(json_scalars::is_plain(t));
    }
}

/// A string with white space at an end is no number, and neither is the empty one.
pub proof fn lemma_numbers_are_trimmed(
    st: St,
    scalar: ScalarType,
    t: Seq<char>,
    desc: DescMessage,
    field: DescField,
)
    requires
        is_integer_type(scalar) || scalar is Float || scalar is Double,
        json_shown::shows(st.src, Json::Str(t)),
        t.len() == 0 || t[0] == ' ' || t[0] == '\t' || t[0] == '\n' || t[0] == '\u{a0}' || t.last() == ' '
            || t.last() == '\t' || t.last() == '\n' || t.last() == '\u{a0}',
    ensures
        json_scalars::scalar_reading(st, scalar, desc, field) is Err,
{
    reveal_strlit("NaN");
    reveal_strlit("Infinity");
    reveal_strlit("-Infinity");
    assert("NaN"@[0] == 'N' && "NaN"@.last() == 'N' && "NaN"@.len() == 3);
    assert("Infinity"@[0] == 'I' && "Infinity"@.last() == 'y' && "Infinity"@.len() == 8);
    assert("-Infinity"@[0] == '-' && "-Infinity"@.last() == 'y' && "-Infinity"@.len() == 9);
}

} // verus!
