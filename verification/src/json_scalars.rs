//! Reading JSON values, scalars and enums.

use vstd::prelude::*;
use vstd::string::*;
use crate::descriptor;
use crate::descriptor::{find_name, find_number, DescEnum, DescField, DescMessage, ScalarType};
use crate::double;
use crate::double::{
    double_in_float_range, double_is_finite, double_to_integer, parse_double,
};
use crate::error;
use crate::error::{Error, ErrorOf, Expected, Fault, FieldFault, FieldFaultOf, FieldFaultV, Fixed, RangeOf};
use crate::integer;
use crate::integer::{parse_int_literal, Integer};
use crate::json_source;
use crate::json_source::{Entries, Items, JsonKind, JsonSource, SrcState};
use crate::octets;
use crate::octets::bytes_of_text;
use crate::question;
use crate::question::{Ans, AnswerOf, Answers, QuestionOf};
use crate::text;
use crate::text::{chars_are_trimmed, chars_of, same_text};
use crate::value;
use crate::value::{set_entry, Val, Value};

verus! {

/// The next value and the state behind it. Later entries of an object replace earlier ones with
/// the same key.
pub open spec fn value_reading(s: SrcState) -> Result<(Val, SrcState), Fault>
    decreases json_source::left(s), 0nat,
{
    match json_source::peeked(s) {
        Err(f) => Err(f),
        Ok(JsonKind::Null) => match json_source::null_read(s) {
            Ok(s2) => Ok((Val::Null, s2)),
            Err(f) => Err(f),
        },
        Ok(JsonKind::Bool) => match json_source::bool_read(s) {
            Ok((b, s2)) => Ok((Val::Bool(b), s2)),
            Err(f) => Err(f),
        },
        Ok(JsonKind::Number) => json_source::number_read(s),
        Ok(JsonKind::String) => match json_source::string_read(s) {
            Ok((t, s2)) => Ok((Val::Str(t), s2)),
            Err(f) => Err(f),
        },
        Ok(JsonKind::Array) => match json_source::array_read(s) {
            Ok((items, more, s2)) => if !more {
                Ok((Val::List(seq![]), s2))
            } else if json_source::items_left(s2, items) < json_source::left(s) {
                match items_reading(s2, items, seq![]) {
                    Ok((list, s3)) => Ok((Val::List(list), s3)),
                    Err(f) => Err(f),
                }
            } else {
                arbitrary()
            },
            Err(f) => Err(f),
        },
        Ok(JsonKind::Object) => match json_source::object_read(s) {
            Ok((entries, None, s2)) => Ok((Val::Dict(seq![]), s2)),
            Ok((entries, Some(key), s2)) => if json_source::entries_left(s2, entries)
                < json_source::left(s) {
                match entries_reading(s2, entries, key, seq![]) {
                    Ok((dict, s3)) => Ok((Val::Dict(dict), s3)),
                    Err(f) => Err(f),
                }
            } else {
                arbitrary()
            },
            Err(f) => Err(f),
        },
    }
}

/// The values of an array from one of its elements on, behind those that were read before.
pub open spec fn items_reading(s: SrcState, items: Seq<Val>, before: Seq<Val>) -> Result<
    (Seq<Val>, SrcState),
    Fault,
>
    decreases json_source::items_left(s, items), 1nat,
{
    match value_reading(s) {
        Err(f) => Err(f),
        Ok((v, s2)) => match json_source::array_stepped(s2, items) {
            Err(f) => Err(f),
            Ok((rest, more, s3)) => if !more {
                Ok((before.push(v), s3))
            } else if json_source::items_left(s3, rest) < json_source::items_left(s, items) {
                items_reading(s3, rest, before.push(v))
            } else {
                arbitrary()
            },
        },
    }
}

/// The entries of an object from one of its values on, behind those that were read before.
pub open spec fn entries_reading(
    s: SrcState,
    entries: Seq<(Val, Val)>,
    key: Seq<char>,
    before: Seq<(Val, Val)>,
) -> Result<(Seq<(Val, Val)>, SrcState), Fault>
    decreases json_source::entries_left(s, entries), 1nat,
{
    match value_reading(s) {
        Err(f) => Err(f),
        Ok((v, s2)) => {
            let after = value::dict_set(before, Val::Str(key), v);
            match json_source::key_read(s2, entries) {
                Err(f) => Err(f),
                Ok((rest, None, s3)) => Ok((after, s3)),
                Ok((rest, Some(next), s3)) => if json_source::entries_left(s3, rest)
                    < json_source::entries_left(s, entries) {
                    entries_reading(s3, rest, next, after)
                } else {
                    arbitrary()
                },
            }
        },
    }
}

/// The size of a list with one item more.
pub proof fn lemma_items_push(items: Seq<Val>, v: Val)
    ensures
        value::items_size(items.push(v)) == value::items_size(items) + 1 + value::tree_size(v),
    decreases items.len(),
{
    let longer = items.push(v);
    if items.len() == 0 {
        assert(longer.skip(1) =~= seq![]);
        assert(value::items_size(seq![]) == 0);
    } else {
        lemma_items_push(items.skip(1), v);
        assert(longer.skip(1) =~= items.skip(1).push(v));
    }
}

/// The size of a dictionary with one entry more.
proof fn lemma_entries_push(entries: Seq<(Val, Val)>, k: Val, v: Val)
    ensures
        value::entries_size(entries.push((k, v))) == value::entries_size(entries) + 1
            + value::tree_size(v),
    decreases entries.len(),
{
    let longer = entries.push((k, v));
    if entries.len() == 0 {
        assert(longer.skip(1) =~= seq![]);
        assert(value::entries_size(seq![]) == 0);
    } else {
        lemma_entries_push(entries.skip(1), k, v);
        assert(longer.skip(1) =~= entries.skip(1).push((k, v)));
    }
}

/// The size of a dictionary with another value for an entry.
proof fn lemma_entries_update(entries: Seq<(Val, Val)>, i: int, k: Val, v: Val)
    requires
        0 <= i < entries.len(),
    ensures
        value::entries_size(entries.update(i, (k, v))) + value::tree_size(entries[i].1)
            == value::entries_size(entries) + value::tree_size(v),
    decreases entries.len(),
{
    let changed = entries.update(i, (k, v));
    if i == 0 {
        assert(changed.skip(1) =~= entries.skip(1));
    } else {
        lemma_entries_update(entries.skip(1), i - 1, k, v);
        assert(changed.skip(1) =~= entries.skip(1).update(i - 1, (k, v)));
    }
}

/// Setting an entry makes a dictionary larger by no more than the entry.
pub proof fn lemma_dict_set_size(entries: Seq<(Val, Val)>, k: Val, v: Val)
    ensures
        value::entries_size(value::dict_set(entries, k, v)) <= value::entries_size(entries) + 1
            + value::tree_size(v),
{
    value::lemma_dict_index(entries, k);
    match value::dict_index(entries, k) {
        Some(i) => lemma_entries_update(entries, i, entries[i].0, v),
        None => lemma_entries_push(entries, k, v),
    }
}

/// Reads the next value.
pub fn read_json_value<R: JsonSource>(src: &mut R) -> (r: Result<Value, Error>)
    ensures
        match value_reading(old(src).state()) {
            Ok((v, s)) => r is Ok && r->Ok_0@ == v && final(src).state() == s && value::tree_size(v)
                + json_source::left(s) <= json_source::left(old(src).state()),
            Err(f) => r is Err && error::fault_of(r->Err_0) == f,
        },
    decreases json_source::left(old(src).state()), 0nat,
{
    let ghost start = src.state();
    match src.peek()? {
        JsonKind::Null => {
            src.next_null()?;
            Ok(Value::Null)
        },
        JsonKind::Bool => Ok(Value::Bool(src.next_bool()?)),
        JsonKind::Number => src.next_number(),
        JsonKind::String => Ok(Value::Str(src.next_string()?)),
        JsonKind::Array => {
            let (mut items, more): (Items, bool) = src.next_array()?;
            if !more {
                let list: Vec<Value> = Vec::new();
                assert(value::list_view(list@) =~= seq![]);
                return Ok(Value::List(list));
            }
            Ok(Value::List(read_json_items(src, items)?))
        },
        JsonKind::Object => {
            let (mut entries, key): (Entries, Option<String>) = src.next_object()?;
            match key {
                None => {
                    let dict: Vec<(Value, Value)> = Vec::new();
                    assert(value::dict_view(dict@) =~= seq![]);
                    Ok(Value::Dict(dict))
                },
                Some(key) => Ok(Value::Dict(read_json_entries(src, entries, key)?)),
            }
        },
    }
}

/// Reads the elements of an array from one of them on.
fn read_json_items<R: JsonSource>(src: &mut R, start: Items) -> (r: Result<Vec<Value>, Error>)
    ensures
        match items_reading(old(src).state(), start@, seq![]) {
            Ok((list, s)) => r is Ok && value::list_view(r->Ok_0@) == list && final(src).state()
                == s && value::items_size(list) + json_source::left(s) <= 1
                + json_source::items_left(old(src).state(), start@),
            Err(f) => r is Err && error::fault_of(r->Err_0) == f,
        },
    decreases json_source::items_left(old(src).state(), start@), 1nat,
{
    let ghost first = (src.state(), start@);
    let mut items: Items = start;
    let mut list: Vec<Value> = Vec::new();
    assert(value::list_view(list@) =~= seq![]);
    loop
        invariant
            items_reading(first.0, first.1, seq![]) == items_reading(
                src.state(),
                items@,
                value::list_view(list@),
            ),
            value::items_size(value::list_view(list@)) + json_source::items_left(src.state(), items@)
                <= json_source::items_left(first.0, first.1),
            first == (old(src).state(), start@),
        decreases json_source::items_left(src.state(), items@),
    {
        let ghost before = value::list_view(list@);
        let value: Value = read_json_value(src)?;
        proof {
            lemma_items_push(before, value@);
        }
        list.push(value);
        assert(value::list_view(list@) =~= before.push(value@));
        let more: bool = src.array_step(&mut items)?;
        if !more {
            return Ok(list);
        }
    }
}

/// Reads the entries of an object from one of its values on.
fn read_json_entries<R: JsonSource>(src: &mut R, start: Entries, first_key: String) -> (r: Result<
    Vec<(Value, Value)>,
    Error,
>)
    ensures
        match entries_reading(old(src).state(), start@, first_key@, seq![]) {
            Ok((dict, s)) => r is Ok && value::dict_view(r->Ok_0@) == dict && final(src).state()
                == s && value::entries_size(dict) + json_source::left(s) <= 1
                + json_source::entries_left(old(src).state(), start@),
            Err(f) => r is Err && error::fault_of(r->Err_0) == f,
        },
    decreases json_source::entries_left(old(src).state(), start@), 1nat,
{
    let ghost first = (src.state(), start@);
    let mut entries: Entries = start;
    let mut key: String = first_key;
    let mut dict: Vec<(Value, Value)> = Vec::new();
    assert(value::dict_view(dict@) =~= seq![]);
    loop
        invariant
            entries_reading(first.0, first.1, first_key@, seq![]) == entries_reading(
                src.state(),
                entries@,
                key@,
                value::dict_view(dict@),
            ),
            value::entries_size(value::dict_view(dict@)) + json_source::entries_left(
                src.state(),
                entries@,
            ) <= json_source::entries_left(first.0, first.1),
            first == (old(src).state(), start@),
        decreases json_source::entries_left(src.state(), entries@),
    {
        let value: Value = read_json_value(src)?;
        proof {
            lemma_dict_set_size(value::dict_view(dict@), Val::Str(key@), value@);
        }
        set_entry(&mut dict, Value::Str(key), value);
        match src.next_key(&mut entries)? {
            Some(next) => {
                key = next;
            },
            None => {
                return Ok(dict);
            },
        }
    }
}

/// What is left to be read, and the host's answers that are still unused.
pub struct St {
    pub src: SrcState,
    pub asks: Seq<Ans>,
}

/// The error of a field's value.
pub open spec fn field_fault(fault: FieldFaultV, desc: DescMessage, field: DescField) -> Fault {
    Fault::Field { fault, name: desc.full_name@, field: field.name@ }
}

/// The error of a field's value.
pub(crate) fn field_error(fault: FieldFault, desc: &DescMessage, field: &DescField) -> (r: Error)
    ensures
        error::fault_of(r) == field_fault(error::field_fault_view(fault), *desc, *field),
{
    ErrorOf::Field { fault, name: desc.full_name.clone(), field: field.name.clone() }
}

/// The result of meeting a JSON value of a type that the field cannot hold.
pub open spec fn unexpected<T>(s: SrcState, desc: DescMessage, field: DescField) -> Result<T, Fault> {
    match value_reading(s) {
        Ok((v, _)) => Err(field_fault(FieldFaultOf::UnexpectedType(v), desc, field)),
        Err(f) => Err(f),
    }
}

/// The double that the text of a float field stands for.
pub open spec fn float_of_text(t: Seq<char>) -> Result<u64, FieldFaultV> {
    if t == "Infinity"@ {
        Ok(0x7ff0_0000_0000_0000)
    } else if t == "-Infinity"@ {
        Ok(0xfff0_0000_0000_0000)
    } else if t == "NaN"@ {
        Ok(0x7ff8_0000_0000_0000)
    } else if !text::is_trimmed(t) {
        Err(FieldFaultOf::InvalidFloat(t))
    } else {
        match double::parsed_double(t) {
            Some(bits) => if double::is_finite(bits) {
                Ok(bits)
            } else {
                Err(FieldFaultOf::NotFinite)
            },
            None => Err(FieldFaultOf::InvalidFloat(t)),
        }
    }
}

/// The double of a float field and the state behind it.
pub open spec fn float_reading(s: SrcState, desc: DescMessage, field: DescField) -> Result<
    (u64, SrcState),
    Fault,
> {
    match json_source::peeked(s) {
        Err(f) => Err(f),
        Ok(JsonKind::Number) => match json_source::float_read(s) {
            Ok((bits, s2)) => if double::is_finite(bits) {
                Ok((bits, s2))
            } else {
                Err(field_fault(FieldFaultOf::NotFinite, desc, field))
            },
            Err(f) => Err(f),
        },
        Ok(JsonKind::String) => match json_source::string_read(s) {
            Ok((t, s2)) => match float_of_text(t) {
                Ok(bits) => Ok((bits, s2)),
                Err(fault) => Err(field_fault(fault, desc, field)),
            },
            Err(f) => Err(f),
        },
        Ok(_) => unexpected(s, desc, field),
    }
}

/// Whether a text is short and plain enough that every host reads the same integer from it.
pub open spec fn is_plain(t: Seq<char>) -> bool {
    t.len() <= 640 && forall|i: int| 0 <= i < t.len() ==> '!' <= #[trigger] t[i] <= '~'
}

/// The integer that a whole number's text stands for.
pub open spec fn whole_of_text(t: Seq<char>) -> Option<int> {
    match double::parsed_double(t) {
        Some(bits) => if double::is_whole(bits) {
            Some(double::whole_value(bits))
        } else {
            None
        },
        None => None,
    }
}

/// The integer that the text of an integer field stands for: an integer in decimal, or a
/// number without a fractional part. The host reads texts that are not plain.
pub open spec fn int_of_text(
    t: Seq<char>,
    asks: Seq<Ans>,
    desc: DescMessage,
    field: DescField,
) -> Result<(int, Seq<Ans>), Fault> {
    if !text::is_trimmed(t) {
        Err(field_fault(FieldFaultOf::InvalidInteger(t), desc, field))
    } else {
        let (literal, rest) = if is_plain(t) {
            (Ok(integer::int_literal(t)), asks)
        } else {
            (
                match question::next_answer(asks, QuestionOf::ReadInt(t)) {
                    Ok(AnswerOf::Int(n)) => Ok(n),
                    Ok(_) => Err(Fault::Fixed(Fixed::Answer)),
                    Err(f) => Err(f),
                },
                question::after_answer(asks),
            )
        };
        match literal {
            Err(f) => Err(f),
            Ok(Some(n)) => Ok((n, rest)),
            Ok(None) => match whole_of_text(t) {
                Some(n) => Ok((n, rest)),
                None => Err(field_fault(FieldFaultOf::InvalidIntegerText(t), desc, field)),
            },
        }
    }
}

/// The range of an integer type: the least number, the number behind the greatest, and the name.
pub open spec fn int_range(scalar: ScalarType) -> Option<(int, int, RangeOf)> {
    match scalar {
        ScalarType::Int32 | ScalarType::Sint32 | ScalarType::Sfixed32 => Some(
            (-0x8000_0000, 0x8000_0000, RangeOf::Int32),
        ),
        ScalarType::Uint32 | ScalarType::Fixed32 => Some((0, 0x1_0000_0000, RangeOf::Uint32)),
        ScalarType::Int64 | ScalarType::Sint64 | ScalarType::Sfixed64 => Some(
            (-0x8000_0000_0000_0000, 0x8000_0000_0000_0000, RangeOf::Int64),
        ),
        ScalarType::Uint64 | ScalarType::Fixed64 => Some(
            (0, 0x1_0000_0000_0000_0000, RangeOf::Uint64),
        ),
        _ => None,
    }
}

/// An integer that is in the range of a type, or the error that says it is not.
pub open spec fn in_range(n: int, scalar: ScalarType, desc: DescMessage, field: DescField) -> Result<
    int,
    Fault,
> {
    match int_range(scalar) {
        Some((low, high, name)) => if low <= n < high {
            Ok(n)
        } else {
            Err(field_fault(FieldFaultOf::OutOfRange(Val::Int(n), name), desc, field))
        },
        None => Ok(n),
    }
}

/// The integer of an integer field and the state behind it.
pub open spec fn int_reading(st: St, scalar: ScalarType, desc: DescMessage, field: DescField) -> Result<
    (int, St),
    Fault,
> {
    match json_source::peeked(st.src) {
        Err(f) => Err(f),
        Ok(JsonKind::Number) => match json_source::number_read(st.src) {
            Err(f) => Err(f),
            Ok((v, src)) => {
                let whole = match v {
                    Val::Int(n) => Ok(n),
                    Val::Float(bits) => if double::is_whole(bits) {
                        Ok(double::whole_value(bits))
                    } else {
                        Err(field_fault(FieldFaultOf::NotInteger(v), desc, field))
                    },
                    _ => Err(Fault::Cast { value: v, to: Expected::Float }),
                };
                match whole {
                    Err(f) => Err(f),
                    Ok(n) => match in_range(n, scalar, desc, field) {
                        Ok(n) => Ok((n, St { src, asks: st.asks })),
                        Err(f) => Err(f),
                    },
                }
            },
        },
        Ok(JsonKind::String) => match json_source::string_read(st.src) {
            Err(f) => Err(f),
            Ok((t, src)) => match int_of_text(t, st.asks, desc, field) {
                Err(f) => Err(f),
                Ok((n, asks)) => match in_range(n, scalar, desc, field) {
                    Ok(n) => Ok((n, St { src, asks })),
                    Err(f) => Err(f),
                },
            },
        },
        Ok(_) => unexpected(st.src, desc, field),
    }
}

/// The string of a string field and the state behind it.
pub open spec fn string_reading(s: SrcState, desc: DescMessage, field: DescField) -> Result<
    (Seq<char>, SrcState),
    Fault,
> {
    match json_source::peeked(s) {
        Err(f) => Err(f),
        Ok(JsonKind::String) => json_source::string_read(s),
        Ok(_) => match value_reading(s) {
            Ok((v, _)) => Err(field_fault(FieldFaultOf::ExpectedString(v), desc, field)),
            Err(f) => Err(f),
        },
    }
}

/// The bytes of a bytes field and the state behind them.
pub open spec fn bytes_reading(s: SrcState, desc: DescMessage, field: DescField) -> Result<
    (Seq<u8>, SrcState),
    Fault,
> {
    match json_source::peeked(s) {
        Err(f) => Err(f),
        Ok(JsonKind::String) => match json_source::string_read(s) {
            Ok((t, s2)) => match octets::decoded(t) {
                Some(b) => Ok((b, s2)),
                None => Err(field_fault(FieldFaultOf::InvalidBase64, desc, field)),
            },
            Err(f) => Err(f),
        },
        Ok(_) => match value_reading(s) {
            Ok((v, _)) => Err(field_fault(FieldFaultOf::ExpectedBase64(v), desc, field)),
            Err(f) => Err(f),
        },
    }
}

/// The value of a scalar field and the state behind it.
pub open spec fn scalar_reading(
    st: St,
    scalar: ScalarType,
    desc: DescMessage,
    field: DescField,
) -> Result<(Val, St), Fault> {
    match scalar {
        ScalarType::Bool => match json_source::peeked(st.src) {
            Err(f) => Err(f),
            Ok(JsonKind::Bool) => match json_source::bool_read(st.src) {
                Ok((b, src)) => Ok((Val::Bool(b), St { src, asks: st.asks })),
                Err(f) => Err(f),
            },
            Ok(_) => unexpected(st.src, desc, field),
        },
        ScalarType::Float => match float_reading(st.src, desc, field) {
            Ok((bits, src)) => if double::is_finite(bits) && !double::in_float_range(bits) {
                Err(field_fault(FieldFaultOf::FloatRange(bits), desc, field))
            } else {
                Ok((Val::Float(bits), St { src, asks: st.asks }))
            },
            Err(f) => Err(f),
        },
        ScalarType::Double => match float_reading(st.src, desc, field) {
            Ok((bits, src)) => Ok((Val::Float(bits), St { src, asks: st.asks })),
            Err(f) => Err(f),
        },
        ScalarType::String => match string_reading(st.src, desc, field) {
            Ok((t, src)) => Ok((Val::Str(t), St { src, asks: st.asks })),
            Err(f) => Err(f),
        },
        ScalarType::Bytes => match bytes_reading(st.src, desc, field) {
            Ok((b, src)) => Ok((Val::Bytes(b), St { src, asks: st.asks })),
            Err(f) => Err(f),
        },
        _ => match int_reading(st, scalar, desc, field) {
            Ok((n, st2)) => Ok((Val::Int(n), st2)),
            Err(f) => Err(f),
        },
    }
}

/// The key of a map entry. An integer must be in the range of its type.
pub open spec fn map_key_reading(
    key_type: ScalarType,
    key: Seq<char>,
    asks: Seq<Ans>,
    desc: DescMessage,
    field: DescField,
) -> Result<(Val, Seq<Ans>), Fault> {
    match key_type {
        ScalarType::Bool => if key == "true"@ {
            Ok((Val::Bool(true), asks))
        } else if key == "false"@ {
            Ok((Val::Bool(false), asks))
        } else {
            Err(field_fault(FieldFaultOf::BoolMapKey(key), desc, field))
        },
        ScalarType::String => Ok((Val::Str(key), asks)),
        _ => match int_of_text(key, asks, desc, field) {
            Ok((n, rest)) => match in_range(n, key_type, desc, field) {
                Ok(n) => Ok((Val::Int(n), rest)),
                Err(f) => Err(f),
            },
            Err(f) => Err(f),
        },
    }
}

/// The value that a number has as a member of an enum, if it has one. A number without a name
/// is a member of open enums alone; it is passed over where unknown values are ignored.
pub open spec fn enum_member(e: DescEnum, n: int, ignore: bool) -> Result<Option<Val>, Fault> {
    if i32::MIN <= n <= i32::MAX && descriptor::number_index(e.names_by_number@, n as i32) is Some {
        Ok(Some(Val::Int(n)))
    } else if ignore {
        Ok(None)
    } else if e.open {
        Ok(Some(Val::Int(n)))
    } else {
        Err(Fault::NoEnumMember { name: e.full_name@, value: Val::Int(n) })
    }
}

/// The value that a name has as a member of an enum, if it has one.
pub open spec fn enum_named(e: DescEnum, name: Seq<char>, ignore: bool) -> Result<
    Option<Val>,
    Fault,
> {
    match descriptor::name_index(e.numbers_by_name@, name) {
        Some(i) => {
            let number = e.numbers_by_name@[i].1;
            if descriptor::number_index(e.names_by_number@, number) is Some {
                Ok(Some(Val::Int(number as int)))
            } else {
                Err(Fault::Fixed(Fixed::EnumLookup))
            }
        },
        None => if ignore {
            Ok(None)
        } else {
            Err(Fault::CannotDecodeEnum { name: e.full_name@, value: Val::Str(name) })
        },
    }
}

/// The value of an enum field, unless it is ignored, and the state behind it.
pub open spec fn enum_reading(s: SrcState, e: DescEnum, ignore: bool) -> Result<
    (Option<Val>, SrcState),
    Fault,
> {
    match json_source::peeked(s) {
        Err(f) => Err(f),
        Ok(JsonKind::Null) => match json_source::null_read(s) {
            Ok(s2) => Ok((Some(Val::Int(e.zero as int)), s2)),
            Err(f) => Err(f),
        },
        Ok(JsonKind::Number) => match json_source::number_read(s) {
            Err(f) => Err(f),
            Ok((v, s2)) => match v {
                Val::Int(n) => match enum_member(e, n, ignore) {
                    Ok(member) => Ok((member, s2)),
                    Err(f) => Err(f),
                },
                _ => Err(Fault::CannotDecodeEnum { name: e.full_name@, value: v }),
            },
        },
        Ok(JsonKind::String) => match json_source::string_read(s) {
            Err(f) => Err(f),
            Ok((t, s2)) => match enum_named(e, t, ignore) {
                Ok(member) => Ok((member, s2)),
                Err(f) => Err(f),
            },
        },
        Ok(_) => match value_reading(s) {
            Ok((v, _)) => Err(Fault::CannotDecodeEnum { name: e.full_name@, value: v }),
            Err(f) => Err(f),
        },
    }
}

/// The error of meeting a JSON value of a type that the field cannot hold.
fn unexpected_type<R: JsonSource>(src: &mut R, desc: &DescMessage, field: &DescField) -> (r: Error)
    ensures
        unexpected::<()>(old(src).state(), *desc, *field) == Err::<(), Fault>(error::fault_of(r)),
{
    match read_json_value(src) {
        Ok(v) => field_error(FieldFaultOf::UnexpectedType(v), desc, field),
        Err(e) => e,
    }
}

fn parse_float_text(t: String) -> (r: Result<u64, FieldFault>)
    ensures
        match float_of_text(t@) {
            Ok(bits) => r is Ok && r->Ok_0 == bits,
            Err(fault) => r is Err && error::field_fault_view(r->Err_0) == fault,
        },
{
    if same_text(t.as_str(), "Infinity") {
        return Ok(0x7ff0_0000_0000_0000);
    }
    if same_text(t.as_str(), "-Infinity") {
        return Ok(0xfff0_0000_0000_0000);
    }
    if same_text(t.as_str(), "NaN") {
        return Ok(0x7ff8_0000_0000_0000);
    }
    let chars: Vec<char> = chars_of(t.as_str());
    if !chars_are_trimmed(&chars) {
        return Err(FieldFaultOf::InvalidFloat(t));
    }
    match parse_double(t.as_str()) {
        Some(bits) => if double_is_finite(bits) {
            Ok(bits)
        } else {
            Err(FieldFaultOf::NotFinite)
        },
        None => Err(FieldFaultOf::InvalidFloat(t)),
    }
}

/// Reads a double.
pub fn parse_float<R: JsonSource>(src: &mut R, desc: &DescMessage, field: &DescField) -> (r: Result<
    u64,
    Error,
>)
    ensures
        match float_reading(old(src).state(), *desc, *field) {
            Ok((bits, s)) => r is Ok && r->Ok_0 == bits && final(src).state() == s
                && json_source::left(s) < json_source::left(old(src).state()),
            Err(f) => r is Err && error::fault_of(r->Err_0) == f,
        },
{
    match src.peek()? {
        JsonKind::Number => {
            let bits: u64 = src.next_float()?;
            if double_is_finite(bits) {
                Ok(bits)
            } else {
                Err(field_error(FieldFaultOf::NotFinite, desc, field))
            }
        },
        JsonKind::String => {
            let t: String = src.next_string()?;
            match parse_float_text(t) {
                Ok(bits) => Ok(bits),
                Err(fault) => Err(field_error(fault, desc, field)),
            }
        },
        _ => Err(unexpected_type(src, desc, field)),
    }
}

fn chars_are_plain(chars: &Vec<char>) -> (r: bool)
    ensures
        r == is_plain(chars@),
{
    if chars.len() > 640 {
        return false;
    }
    let mut i: usize = 0;
    while i < chars.len()
        invariant
            i <= chars@.len(),
            forall|j: int| 0 <= j < i ==> '!' <= #[trigger] chars@[j] <= '~',
        decreases chars@.len() - i,
    {
        if chars[i] < '!' || chars[i] > '~' {
            return false;
        }
        i = i + 1;
    }
    true
}

/// Reads an integer from a text.
pub fn parse_int_string(
    asks: &mut Answers,
    t: String,
    desc: &DescMessage,
    field: &DescField,
) -> (r: Result<Integer, Error>)
    ensures
        match int_of_text(t@, old(asks)@, *desc, *field) {
            Ok((n, rest)) => r is Ok && r->Ok_0@ == n && final(asks)@ == rest,
            Err(f) => r is Err && error::fault_of(r->Err_0) == f,
        },
{
    let chars: Vec<char> = chars_of(t.as_str());
    if !chars_are_trimmed(&chars) {
        return Err(field_error(FieldFaultOf::InvalidInteger(t), desc, field));
    }
    let literal: Option<Integer> = if chars_are_plain(&chars) {
        parse_int_literal(&chars)
    } else {
        match asks.take(QuestionOf::ReadInt(t.clone()))? {
            AnswerOf::Int(n) => n,
            _ => {
                return Err(ErrorOf::Fixed(Fixed::Answer));
            },
        }
    };
    match literal {
        Some(n) => Ok(n),
        None => {
            let whole: Option<Integer> = match parse_double(t.as_str()) {
                Some(bits) => double_to_integer(bits),
                None => None,
            };
            match whole {
                Some(n) => Ok(n),
                None => Err(field_error(FieldFaultOf::InvalidIntegerText(t), desc, field)),
            }
        },
    }
}

/// Checks that an integer is in the range of a type.
pub fn range_check_int(
    n: Integer,
    scalar: ScalarType,
    desc: &DescMessage,
    field: &DescField,
) -> (r: Result<Integer, Error>)
    ensures
        match in_range(n@, scalar, *desc, *field) {
            Ok(v) => r is Ok && r->Ok_0@ == v,
            Err(f) => r is Err && error::fault_of(r->Err_0) == f,
        },
{
    let (ok, range): (bool, RangeOf) = match scalar {
        ScalarType::Int32 | ScalarType::Sint32 | ScalarType::Sfixed32 => (
            n.to_i32().is_some(),
            RangeOf::Int32,
        ),
        ScalarType::Uint32 | ScalarType::Fixed32 => (
            match n.to_u64() {
                Some(v) => v < 0x1_0000_0000,
                None => false,
            },
            RangeOf::Uint32,
        ),
        ScalarType::Int64 | ScalarType::Sint64 | ScalarType::Sfixed64 => (
            n.to_i64().is_some(),
            RangeOf::Int64,
        ),
        ScalarType::Uint64 | ScalarType::Fixed64 => (n.to_u64().is_some(), RangeOf::Uint64),
        _ => {
            return Ok(n);
        },
    };
    if ok {
        Ok(n)
    } else {
        Err(field_error(FieldFaultOf::OutOfRange(Value::Int(n), range), desc, field))
    }
}

/// Reads an integer.
pub fn read_int<R: JsonSource>(
    src: &mut R,
    asks: &mut Answers,
    scalar: ScalarType,
    desc: &DescMessage,
    field: &DescField,
) -> (r: Result<Integer, Error>)
    ensures
        match int_reading(
            (St { src: old(src).state(), asks: old(asks)@ }),
            scalar,
            *desc,
            *field,
        ) {
            Ok((n, st)) => r is Ok && r->Ok_0@ == n && final(src).state() == st.src && final(asks)@
                == st.asks && json_source::left(st.src) < json_source::left(old(src).state()),
            Err(f) => r is Err && error::fault_of(r->Err_0) == f,
        },
{
    match src.peek()? {
        JsonKind::Number => {
            let number: Value = src.next_number()?;
            let n: Integer = match number {
                Value::Int(n) => n,
                Value::Float(bits) => match double_to_integer(bits) {
                    Some(n) => n,
                    None => {
                        return Err(field_error(FieldFaultOf::NotInteger(number), desc, field));
                    },
                },
                other => {
                    return Err(ErrorOf::Cast { value: other, to: Expected::Float });
                },
            };
            range_check_int(n, scalar, desc, field)
        },
        JsonKind::String => {
            let t: String = src.next_string()?;
            let n: Integer = parse_int_string(asks, t, desc, field)?;
            range_check_int(n, scalar, desc, field)
        },
        _ => Err(unexpected_type(src, desc, field)),
    }
}

/// Reads a string.
pub fn read_string<R: JsonSource>(src: &mut R, desc: &DescMessage, field: &DescField) -> (r: Result<
    String,
    Error,
>)
    ensures
        match string_reading(old(src).state(), *desc, *field) {
            Ok((t, s)) => r is Ok && r->Ok_0@ == t && final(src).state() == s && json_source::left(s)
                < json_source::left(old(src).state()),
            Err(f) => r is Err && error::fault_of(r->Err_0) == f,
        },
{
    match src.peek()? {
        JsonKind::String => src.next_string(),
        _ => {
            let v: Value = read_json_value(src)?;
            Err(field_error(FieldFaultOf::ExpectedString(v), desc, field))
        },
    }
}

/// Reads bytes from base64.
pub fn read_bytes<R: JsonSource>(src: &mut R, desc: &DescMessage, field: &DescField) -> (r: Result<
    Vec<u8>,
    Error,
>)
    ensures
        match bytes_reading(old(src).state(), *desc, *field) {
            Ok((b, s)) => r is Ok && r->Ok_0@ == b && final(src).state() == s && json_source::left(s)
                < json_source::left(old(src).state()),
            Err(f) => r is Err && error::fault_of(r->Err_0) == f,
        },
{
    match src.peek()? {
        JsonKind::String => {
            let t: String = src.next_string()?;
            match bytes_of_text(t.as_str()) {
                Some(b) => Ok(b),
                None => Err(field_error(FieldFaultOf::InvalidBase64, desc, field)),
            }
        },
        _ => {
            let v: Value = read_json_value(src)?;
            Err(field_error(FieldFaultOf::ExpectedBase64(v), desc, field))
        },
    }
}

/// Reads the value of a scalar field.
pub fn read_scalar<R: JsonSource>(
    src: &mut R,
    asks: &mut Answers,
    scalar: ScalarType,
    desc: &DescMessage,
    field: &DescField,
) -> (r: Result<Value, Error>)
    ensures
        match scalar_reading(
            (St { src: old(src).state(), asks: old(asks)@ }),
            scalar,
            *desc,
            *field,
        ) {
            Ok((v, st)) => r is Ok && r->Ok_0@ == v && final(src).state() == st.src && final(asks)@
                == st.asks && json_source::left(st.src) < json_source::left(old(src).state()),
            Err(f) => r is Err && error::fault_of(r->Err_0) == f,
        },
{
    match scalar {
        ScalarType::Bool => match src.peek()? {
            JsonKind::Bool => Ok(Value::Bool(src.next_bool()?)),
            _ => Err(unexpected_type(src, desc, field)),
        },
        ScalarType::Float => {
            let bits: u64 = parse_float(src, desc, field)?;
            if double_is_finite(bits) && !double_in_float_range(bits) {
                return Err(field_error(FieldFaultOf::FloatRange(bits), desc, field));
            }
            Ok(Value::Float(bits))
        },
        ScalarType::Double => Ok(Value::Float(parse_float(src, desc, field)?)),
        ScalarType::String => Ok(Value::Str(read_string(src, desc, field)?)),
        ScalarType::Bytes => Ok(Value::Bytes(read_bytes(src, desc, field)?)),
        _ => Ok(Value::Int(read_int(src, asks, scalar, desc, field)?)),
    }
}

/// Reads the key of a map entry.
pub fn read_map_key(
    asks: &mut Answers,
    key_type: ScalarType,
    key: String,
    desc: &DescMessage,
    field: &DescField,
) -> (r: Result<Value, Error>)
    ensures
        match map_key_reading(key_type, key@, old(asks)@, *desc, *field) {
            Ok((v, rest)) => r is Ok && r->Ok_0@ == v && final(asks)@ == rest,
            Err(f) => r is Err && error::fault_of(r->Err_0) == f,
        },
{
    match key_type {
        ScalarType::Bool => {
            if same_text(key.as_str(), "true") {
                Ok(Value::Bool(true))
            } else if same_text(key.as_str(), "false") {
                Ok(Value::Bool(false))
            } else {
                Err(field_error(FieldFaultOf::BoolMapKey(key), desc, field))
            }
        },
        ScalarType::String => Ok(Value::Str(key)),
        _ => {
            let n: Integer = parse_int_string(asks, key, desc, field)?;
            Ok(Value::Int(range_check_int(n, key_type, desc, field)?))
        },
    }
}

/// What the outcome of reading an optional value stands for.
pub open spec fn member_view(v: Option<Value>) -> Option<Val> {
    match v {
        Some(v) => Some(v@),
        None => None,
    }
}

/// Reads the value of an enum field. There is none if the value is unknown and ignored.
pub fn read_enum<R: JsonSource>(src: &mut R, e: &DescEnum, ignore: bool) -> (r: Result<
    Option<Value>,
    Error,
>)
    ensures
        match enum_reading(old(src).state(), *e, ignore) {
            Ok((v, s)) => r is Ok && member_view(r->Ok_0) == v && final(src).state() == s
                && json_source::left(s) < json_source::left(old(src).state()),
            Err(f) => r is Err && error::fault_of(r->Err_0) == f,
        },
{
    match src.peek()? {
        JsonKind::Null => {
            src.next_null()?;
            Ok(Some(Value::Int(Integer::from_i64(e.zero as i64))))
        },
        JsonKind::Number => {
            let number: Value = src.next_number()?;
            match number {
                Value::Int(n) => {
                    let known: bool = match n.to_i32() {
                        Some(v) => find_number(&e.names_by_number, v).is_some(),
                        None => false,
                    };
                    if known {
                        Ok(Some(Value::Int(n)))
                    } else if ignore {
                        Ok(None)
                    } else if e.open {
                        Ok(Some(Value::Int(n)))
                    } else {
                        Err(
                            ErrorOf::NoEnumMember {
                                name: e.full_name.clone(),
                                value: Value::Int(n),
                            },
                        )
                    }
                },
                other => Err(
                    ErrorOf::CannotDecodeEnum { name: e.full_name.clone(), value: other },
                ),
            }
        },
        JsonKind::String => {
            let name: String = src.next_string()?;
            match find_name(&e.numbers_by_name, name.as_str()) {
                Some(i) => {
                    let number: i32 = e.numbers_by_name[i].1;
                    if find_number(&e.names_by_number, number).is_some() {
                        Ok(Some(Value::Int(Integer::from_i64(number as i64))))
                    } else {
                        Err(ErrorOf::Fixed(Fixed::EnumLookup))
                    }
                },
                None => if ignore {
                    Ok(None)
                } else {
                    Err(
                        ErrorOf::CannotDecodeEnum {
                            name: e.full_name.clone(),
                            value: Value::Str(name),
                        },
                    )
                },
            }
        },
        _ => {
            let v: Value = read_json_value(src)?;
            Err(ErrorOf::CannotDecodeEnum { name: e.full_name.clone(), value: v })
        },
    }
}

} // verus!
