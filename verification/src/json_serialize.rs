//! Writing messages as JSON.

use vstd::prelude::*;
use vstd::string::*;
use vstd::utf8;
use crate::descriptor;
use crate::descriptor::{
    find_extension_for, find_number, DescEnum, DescField, DescFieldValue, DescMessage,
    DescSingleValue, Extension, Registry, ScalarType, Schema,
};
use crate::double;
use crate::double::{
    double_in_float_range, double_is_finite, double_is_nan, double_is_negative,
};
use crate::error;
use crate::error::{Error, ErrorOf, Expected, Fault, Fixed, RangeOf};
use crate::field_mask;
use crate::field_mask::write_mask;
use crate::integer::Integer;
use crate::json_parse;
use crate::json_parse::{default_value, find_registered, name_of_url, FromJsonOpts};
use crate::json_sink;
use crate::json_sink::{ask_text, Json, JsonSink, PyValueSink, SinkState, StringSink};
use crate::json_source;
use crate::json_source::double_of_value;
use crate::octets;
use crate::octets::bytes_to_text;
use crate::question;
use crate::question::{Ans, AnswerOf, Answers, QuestionOf};
use crate::replies;
use crate::round_trip;
use crate::text;
use crate::text::{chars_of, format_i64, format_u64, same_text};
use crate::value;
use crate::value::{copy_bytes, Message, Msg, Val, Value};
use crate::wkt::WktKind;
use crate::wkt_json;
use crate::wkt_json::{duration_to_json, timestamp_to_rfc3339};

verus! {

/// Options for writing JSON.
pub struct JsonOpts {
    /// Write fields without presence even where they hold their default.
    pub always_emit_implicit: bool,
    /// Write enum values as their numbers.
    pub print_enums_as_ints: bool,
    /// Use the names of the schema as keys.
    pub use_proto_field_name: bool,
    pub registry: Option<Registry>,
}

/// What is written, and how many of the host's answers that took.
pub type Written = Result<(Json, nat), Fault>;

pub open spec fn shape() -> Fault {
    Fault::Fixed(Fixed::Shape)
}

pub open spec fn int_json(n: int) -> Json {
    Json::Number(Val::Int(n), text::int_text(n))
}

/// The integer that a value is.
pub open spec fn required_int(v: Val) -> Result<int, Fault> {
    match v {
        Val::Int(n) => Ok(n),
        _ => Err(Fault::ValueType { want: Expected::Int, value: v }),
    }
}

/// The integer that a value is, if it is in the range of a type.
pub open spec fn ranged_int(v: Val, low: int, high: int, range: RangeOf) -> Result<int, Fault> {
    match required_int(v) {
        Ok(n) => if low <= n < high {
            Ok(n)
        } else {
            Err(Fault::ValueRange { value: v, range })
        },
        Err(f) => Err(f),
    }
}

pub open spec fn int32_of(v: Val) -> Result<int, Fault> {
    ranged_int(v, -0x8000_0000, 0x8000_0000, RangeOf::Int32)
}

pub open spec fn uint32_of(v: Val) -> Result<int, Fault> {
    ranged_int(v, 0, 0x1_0000_0000, RangeOf::Uint32)
}

pub open spec fn int64_of(v: Val) -> Result<int, Fault> {
    ranged_int(v, -0x8000_0000_0000_0000, 0x8000_0000_0000_0000, RangeOf::Int64)
}

pub open spec fn uint64_of(v: Val) -> Result<int, Fault> {
    ranged_int(v, 0, 0x1_0000_0000_0000_0000, RangeOf::Uint64)
}

/// The double that a value is.
pub open spec fn required_float(v: Val) -> Result<u64, Fault> {
    match (v, json_source::as_double(v)) {
        (Val::Bool(_), _) => Err(Fault::ValueType { want: Expected::Float, value: v }),
        (_, Ok(bits)) => Ok(bits),
        (_, Err(_)) => Err(Fault::ValueType { want: Expected::Float, value: v }),
    }
}

/// A double: a number if it is finite, and a string otherwise.
pub open spec fn double_json(is_text: bool, v: Val, bits: u64, asks: Seq<Ans>) -> Written {
    if double::is_nan(bits) {
        Ok((Json::Str("NaN"@), 0))
    } else if !double::is_finite(bits) {
        Ok(
            (
                Json::Str(
                    if double::is_negative(bits) {
                        "-Infinity"@
                    } else {
                        "Infinity"@
                    },
                ),
                0,
            ),
        )
    } else {
        json_sink::number_json(is_text, v, asks)
    }
}

/// An integer as a number, or as a string.
pub open spec fn int_written(n: Result<int, Fault>, as_string: bool) -> Written {
    match n {
        Ok(n) => Ok(
            (
                if as_string {
                    Json::Str(text::int_text(n))
                } else {
                    int_json(n)
                },
                0,
            ),
        ),
        Err(f) => Err(f),
    }
}

/// The boolean that a value is, or converts to as an object of another type.
pub open spec fn truth_of(v: Val) -> Option<bool> {
    match v {
        Val::Bool(b) => Some(b),
        Val::Foreign(f) => f.truth,
        _ => None,
    }
}

/// The bytes that a value is.
pub open spec fn bytes_of(v: Val) -> Option<Seq<u8>> {
    match v {
        Val::Bytes(b) => Some(b),
        Val::ByteArray(b) => Some(b),
        _ => None,
    }
}

/// The byte that an integer is.
pub open spec fn byte_of_int(n: int) -> Result<u8, Fault> {
    if 0 <= n <= 0xff {
        Ok(n as u8)
    } else if i64::MIN <= n <= i64::MAX {
        Err(Fault::Fixed(Fixed::ByteRange))
    } else {
        Err(Fault::Fixed(Fixed::WordRange))
    }
}

/// The byte that a value is. Booleans count as the numbers 0 and 1, and an object of another type
/// as the integer that it converts to.
pub open spec fn byte_of(v: Val) -> Result<u8, Fault> {
    match v {
        Val::Int(n) => byte_of_int(n),
        Val::Bool(b) => Ok(
            if b {
                1
            } else {
                0
            },
        ),
        Val::Foreign(f) => match f.whole {
            Some(n) => byte_of_int(n as int),
            None => Err(Fault::Cast { value: v, to: Expected::Int }),
        },
        _ => Err(Fault::Cast { value: v, to: Expected::Int }),
    }
}

/// The bytes that the elements of a list are, or the fault of the first that is none.
pub open spec fn list_bytes(items: Seq<Val>) -> Result<Seq<u8>, Fault>
    decreases items.len(),
{
    if items.len() == 0 {
        Ok(seq![])
    } else {
        match list_bytes(items.drop_last()) {
            Ok(b) => match byte_of(items.last()) {
                Ok(x) => Ok(b.push(x)),
                Err(f) => Err(f),
            },
            Err(f) => Err(f),
        }
    }
}

/// The bytes in an `Any`: bytes, or a sequence of integers that fit a byte each.
pub open spec fn any_bytes(v: Val) -> Result<Seq<u8>, Fault> {
    match v {
        Val::Bytes(b) => Ok(b),
        Val::ByteArray(b) => Ok(b),
        Val::List(items) => list_bytes(items),
        Val::Foreign(f) => match f.octets {
            Some(Ok(b)) => Ok(b),
            Some(Err(e)) => Err(Fault::Fixed(e)),
            None => Err(Fault::Cast { value: v, to: Expected::Bytes }),
        },
        _ => Err(Fault::Cast { value: v, to: Expected::Bytes }),
    }
}

/// The value of a scalar field. Integers of 64 bits are strings, and bytes are in base64.
pub open spec fn scalar_json(is_text: bool, scalar: ScalarType, v: Val, asks: Seq<Ans>) -> Written {
    match scalar {
        ScalarType::Bool => match v {
            Val::Bool(b) => Ok((Json::Bool(b), 0)),
            _ => Err(Fault::ValueType { want: Expected::Bool, value: v }),
        },
        ScalarType::Int32 | ScalarType::Sint32 | ScalarType::Sfixed32 => int_written(
            int32_of(v),
            false,
        ),
        ScalarType::Uint32 | ScalarType::Fixed32 => int_written(uint32_of(v), false),
        ScalarType::Int64 | ScalarType::Sint64 | ScalarType::Sfixed64 => int_written(
            int64_of(v),
            true,
        ),
        ScalarType::Uint64 | ScalarType::Fixed64 => int_written(uint64_of(v), true),
        ScalarType::Float => match required_float(v) {
            Ok(bits) => if double::is_finite(bits) && !double::in_float_range(bits) {
                Err(Fault::ValueRange { value: v, range: RangeOf::Float })
            } else {
                double_json(is_text, v, bits, asks)
            },
            Err(f) => Err(f),
        },
        ScalarType::Double => match required_float(v) {
            Ok(bits) => double_json(is_text, v, bits, asks),
            Err(f) => Err(f),
        },
        ScalarType::String => match v {
            Val::Str(s) => Ok((Json::Str(s), 0)),
            _ => Err(Fault::ValueType { want: Expected::Str, value: v }),
        },
        ScalarType::Bytes => match bytes_of(v) {
            Some(b) => Ok((Json::Str(octets::base64_text(b)), 0)),
            None => Err(Fault::ValueType { want: Expected::Bytes, value: v }),
        },
    }
}

/// The value of an enum field: its name, or its number if it has none.
pub open spec fn enum_json(opts: JsonOpts, is_text: bool, e: DescEnum, v: Val, asks: Seq<Ans>) -> Written {
    match v {
        Val::Int(n) => {
            let small = i32::MIN <= n <= i32::MAX;
            let at = if small {
                descriptor::number_index(e.names_by_number@, n as i32)
            } else {
                None
            };
            if !e.open && at is None {
                Err(Fault::EnumValue { name: e.full_name@, value: v })
            } else if !small {
                json_sink::number_json(is_text, v, asks)
            } else if e.is_null_value {
                Ok((Json::Null, 0))
            } else if opts.print_enums_as_ints || at is None {
                Ok((int_json(n), 0))
            } else {
                Ok((Json::Str(e.names_by_number@[at->Some_0].1@), 0))
            }
        },
        _ => Err(Fault::EnumType { name: e.full_name@, value: v }),
    }
}

/// The key of a map entry, and how many answers it took.
pub open spec fn map_key_text(key_type: ScalarType, key: Val, asks: Seq<Ans>) -> Result<
    (Seq<char>, nat),
    Fault,
> {
    match key_type {
        ScalarType::String => match key {
            Val::Str(s) => Ok((s, 0)),
            _ => Err(Fault::Cast { value: key, to: Expected::Str }),
        },
        ScalarType::Bool => match truth_of(key) {
            Some(b) => Ok((json_sink::bool_text(b), 0)),
            None => Err(Fault::Cast { value: key, to: Expected::Bool }),
        },
        _ => match key {
            Val::Int(n) => if text::int_text(n).len() <= 640 {
                Ok((text::int_text(n), 0))
            } else {
                asked_text(key, asks)
            },
            Val::Str(s) => Ok((s, 0)),
            _ => asked_text(key, asks),
        },
    }
}

pub open spec fn asked_text(v: Val, asks: Seq<Ans>) -> Result<(Seq<char>, nat), Fault> {
    match json_sink::host_text(v, asks) {
        Ok(t) => Ok((t, 1)),
        Err(f) => Err(f),
    }
}

/// The value of a field of a well-known type.
pub open spec fn attr_of(m: Msg, i: usize) -> Result<Val, Fault> {
    if i < m.attrs.len() {
        Ok(m.attrs[i as int])
    } else {
        Err(shape())
    }
}

pub open spec fn int64_attr(m: Msg, i: usize) -> Result<i64, Fault> {
    match attr_of(m, i) {
        Ok(v) => match int64_of(v) {
            Ok(n) => Ok(n as i64),
            Err(f) => Err(f),
        },
        Err(f) => Err(f),
    }
}

pub open spec fn int32_attr(m: Msg, i: usize) -> Result<i32, Fault> {
    match attr_of(m, i) {
        Ok(v) => match int32_of(v) {
            Ok(n) => Ok(n as i32),
            Err(f) => Err(f),
        },
        Err(f) => Err(f),
    }
}

pub open spec fn text_json(t: Result<Seq<char>, Fault>) -> Written {
    match t {
        Ok(t) => Ok((Json::Str(t), 0)),
        Err(f) => Err(f),
    }
}

pub open spec fn timestamp_written(m: Msg, seconds: usize, nanos: usize) -> Written {
    match (int64_attr(m, seconds), int32_attr(m, nanos)) {
        (Err(f), _) => Err(f),
        (_, Err(f)) => Err(f),
        (Ok(s), Ok(n)) => text_json(wkt_json::timestamp_json(s, n)),
    }
}

pub open spec fn duration_written(m: Msg, seconds: usize, nanos: usize) -> Written {
    match (int64_attr(m, seconds), int32_attr(m, nanos)) {
        (Err(f), _) => Err(f),
        (_, Err(f)) => Err(f),
        (Ok(s), Ok(n)) => text_json(wkt_json::duration_json(s, n)),
    }
}

pub open spec fn field_mask_written(m: Msg, paths: usize) -> Written {
    match json_parse::list_attr(m, paths as int) {
        Ok(items) => text_json(field_mask::mask_text(items)),
        Err(f) => Err(f),
    }
}

pub open spec fn wrapper_written(
    is_text: bool,
    m: Msg,
    field: usize,
    scalar: ScalarType,
    asks: Seq<Ans>,
) -> Written {
    match attr_of(m, field) {
        Ok(v) => scalar_json(is_text, scalar, v, asks),
        Err(f) => Err(f),
    }
}

/// Where the value of a field stands that is written.
pub enum Slot {
    Absent,
    Attr,
    Member(usize),
}

/// Where the value of a field stands, if the field is written: if it is set, or has no presence
/// and differs from its default.
pub open spec fn field_slot(schema: Schema, opts: JsonOpts, m: Msg, field: DescField, i: int) -> Result<
    Slot,
    Fault,
> {
    match field.oneof {
        Some(o) => if o >= m.oneofs.len() {
            Err(shape())
        } else {
            match m.oneofs[o as int] {
                Some((name, _)) => if name == field.local_name@ {
                    Ok(Slot::Member(o))
                } else {
                    Ok(Slot::Absent)
                },
                None => Ok(Slot::Absent),
            }
        },
        None => if i >= m.attrs.len() || i >= m.present.len() {
            Err(shape())
        } else {
            let v = m.attrs[i];
            let singular = field.value is Scalar || field.value is Enum;
            let is_set = if field.value is Message {
                !(v is Null)
            } else if singular && field.requires_presence {
                m.present[i]
            } else {
                opts.always_emit_implicit || v != json_parse::default_attr(schema, field)
            };
            if is_set {
                Ok(Slot::Attr)
            } else {
                Ok(Slot::Absent)
            }
        },
    }
}

/// The key of a field.
pub open spec fn field_key(opts: JsonOpts, field: DescField) -> Seq<char> {
    if opts.use_proto_field_name {
        field.name@
    } else {
        field.json_key@
    }
}

/// The type of the single values of a field that is no map.
pub open spec fn single_type(value: DescFieldValue) -> Option<DescSingleValue> {
    match value {
        DescFieldValue::Scalar { scalar_type } => Some(DescSingleValue::Scalar(scalar_type)),
        DescFieldValue::Enum { enum_ } => Some(DescSingleValue::Enum(enum_)),
        DescFieldValue::Message { message } => Some(DescSingleValue::Message(message)),
        DescFieldValue::List { element } => Some(element),
        DescFieldValue::MapOf { .. } => None,
    }
}

/// What several values or members are written as, and how many answers that took.
pub type WrittenItems = Result<(Seq<Json>, nat), Fault>;

pub type WrittenEntries = Result<(Seq<(Seq<char>, Json)>, nat), Fault>;

pub open spec fn array_of(items: WrittenItems) -> Written {
    match items {
        Ok((items, n)) => Ok((Json::Array(items), n)),
        Err(f) => Err(f),
    }
}

pub open spec fn object_of(entries: WrittenEntries) -> Written {
    match entries {
        Ok((entries, n)) => Ok((Json::Object(entries), n)),
        Err(f) => Err(f),
    }
}

/// The JSON value of a message.
pub open spec fn message_json(
    schema: Schema,
    opts: JsonOpts,
    is_text: bool,
    m: Msg,
    asks: Seq<Ans>,
) -> Written
    decreases asks.len(), m, 9nat, 0nat,
{
    if m.desc >= schema.messages@.len() {
        Err(shape())
    } else {
        let desc = schema.messages@[m.desc as int];
        match desc.wkt {
            WktKind::Ordinary | WktKind::FileDescriptorSet => object_of(
                members_json(schema, opts, is_text, m, desc, asks),
            ),
            WktKind::Timestamp { seconds, nanos } => timestamp_written(m, seconds, nanos),
            WktKind::Duration { seconds, nanos } => duration_written(m, seconds, nanos),
            WktKind::FieldMask { paths } => field_mask_written(m, paths),
            WktKind::Wrapper { field, scalar } => wrapper_written(is_text, m, field, scalar, asks),
            WktKind::Struct { fields } => if fields >= desc.fields@.len() {
                Err(shape())
            } else {
                match desc.fields@[fields as int].value {
                    DescFieldValue::MapOf { value, .. } => match attr_of(m, fields) {
                        Err(f) => Err(f),
                        Ok(_) => match m.attrs[fields as int] {
                            Val::Dict(entries) => object_of(
                                pairs_json(
                                    schema,
                                    opts,
                                    is_text,
                                    ScalarType::String,
                                    value,
                                    entries,
                                    0,
                                    asks,
                                ),
                            ),
                            v => Err(Fault::Cast { value: v, to: Expected::Dict }),
                        },
                    },
                    _ => Err(Fault::Fixed(Fixed::StructMap)),
                }
            },
            WktKind::ListValue { values } => if values >= desc.fields@.len() {
                Err(shape())
            } else {
                match (single_type(desc.fields@[values as int].value), attr_of(m, values)) {
                    (None, _) => Err(shape()),
                    (_, Err(f)) => Err(f),
                    (Some(element), Ok(_)) => match m.attrs[values as int] {
                        Val::List(items) => array_of(
                            items_json(schema, opts, is_text, element, items, 0, asks),
                        ),
                        v => Err(Fault::Cast { value: v, to: Expected::List }),
                    },
                }
            },
            WktKind::Value { struct_value, list_value, .. } => match json_parse::value_oneof(
                m,
                desc,
            ) {
                Err(f) => if f == Fault::Fixed(Fixed::ValueKindMissing) {
                    Err(Fault::Fixed(Fixed::ValueUnset))
                } else {
                    Err(f)
                },
                Ok(o) => match m.oneofs[o as int] {
                    None => Err(Fault::Fixed(Fixed::ValueUnset)),
                    Some((name, v)) => kind_json(
                        schema,
                        opts,
                        is_text,
                        desc,
                        name,
                        v,
                        struct_value,
                        list_value,
                        asks,
                    ),
                },
            },
            WktKind::Any { type_url, value } => any_json(
                schema,
                opts,
                is_text,
                m,
                type_url,
                value,
                asks,
            ),
        }
    }
}

/// The JSON value of what a `Value` holds.
pub open spec fn kind_json(
    schema: Schema,
    opts: JsonOpts,
    is_text: bool,
    desc: DescMessage,
    name: Seq<char>,
    v: Val,
    struct_value: usize,
    list_value: usize,
    asks: Seq<Ans>,
) -> Written
    decreases asks.len(), v, 7nat, 0nat,
{
    if name == "null_value"@ {
        Ok((Json::Null, 0))
    } else if name == "number_value"@ {
        match json_source::as_double(v) {
            Err(f) => Err(f),
            Ok(bits) => if double::is_finite(bits) {
                json_sink::number_json(is_text, v, asks)
            } else {
                Err(Fault::Fixed(Fixed::ValueNotFinite))
            },
        }
    } else if name == "string_value"@ {
        match v {
            Val::Str(s) => Ok((Json::Str(s), 0)),
            _ => Err(Fault::Cast { value: v, to: Expected::Str }),
        }
    } else if name == "bool_value"@ {
        match truth_of(v) {
            Some(b) => Ok((Json::Bool(b), 0)),
            None => Err(Fault::Cast { value: v, to: Expected::Bool }),
        }
    } else if name == "struct_value"@ || name == "list_value"@ {
        let i = if name == "struct_value"@ {
            struct_value
        } else {
            list_value
        };
        if i >= desc.fields@.len() {
            Err(shape())
        } else {
            match single_type(desc.fields@[i as int].value) {
                Some(ty) => single_json(schema, opts, is_text, ty, v, asks),
                None => Err(shape()),
            }
        }
    } else {
        Err(Fault::Fixed(Fixed::ValueUnset))
    }
}

/// The JSON value of an `Any`: that of the message in it, with its type. The host unpacks the
/// message.
pub open spec fn any_json(
    schema: Schema,
    opts: JsonOpts,
    is_text: bool,
    m: Msg,
    type_url: usize,
    value: usize,
    asks: Seq<Ans>,
) -> Written
    decreases asks.len(), m, 8nat, 0nat,
{
    match any_target(schema, opts, m, type_url) {
        Err(f) => Err(f),
        Ok(None) => Ok((Json::Object(seq![]), 0)),
        Ok(Some((url, inner))) => match attr_of(m, value) {
            Err(f) => Err(f),
            Ok(v) => match any_bytes(v) {
                Err(f) => Err(f),
                Ok(data) => match question::next_answer(
                    asks,
                    QuestionOf::Unpack { desc: inner, data },
                ) {
                    Err(f) => Err(f),
                    Ok(AnswerOf::Message(msg)) => if msg.desc == inner {
                        any_content_json(
                            schema,
                            opts,
                            is_text,
                            url,
                            msg,
                            json_sink::rest(asks, 1),
                        )
                    } else {
                        Err(Fault::Fixed(Fixed::Answer))
                    },
                    Ok(_) => Err(Fault::Fixed(Fixed::Answer)),
                },
            },
        },
    }
}

/// The type URL of an `Any` and the message type that it names; none if the URL is empty.
pub open spec fn any_target(schema: Schema, opts: JsonOpts, m: Msg, type_url: usize) -> Result<
    Option<(Seq<char>, usize)>,
    Fault,
> {
    match attr_of(m, type_url) {
        Err(f) => Err(f),
        Ok(Val::Str(url)) => if url.len() == 0 {
            Ok(None)
        } else if opts.registry is None {
            Err(Fault::AnyWithoutRegistry { url })
        } else if json_parse::url_name(url).len() == 0 {
            Err(Fault::InvalidTypeUrl { url })
        } else {
            match json_parse::registered(opts.registry, json_parse::url_name(url)) {
                None => Err(Fault::AnyNotRegistered { url }),
                Some(inner) => if inner < schema.messages@.len() {
                    Ok(Some((url, inner)))
                } else {
                    Err(shape())
                },
            }
        },
        Ok(v) => Err(Fault::Cast { value: v, to: Expected::Str }),
    }
}

/// The JSON value of an `Any` that holds a message. One answer was used to unpack it.
pub open spec fn any_content_json(
    schema: Schema,
    opts: JsonOpts,
    is_text: bool,
    url: Seq<char>,
    msg: Msg,
    asks: Seq<Ans>,
) -> Written
    decreases asks.len(), msg, 10nat, 0nat,
{
    let type_entry = ("@type"@, Json::Str(url));
    if msg.desc >= schema.messages@.len() {
        Err(shape())
    } else if schema.messages@[msg.desc as int].wkt is Ordinary {
        match members_json(
            schema,
            opts,
            is_text,
            msg,
            schema.messages@[msg.desc as int],
            asks,
        ) {
            Ok((entries, n)) => Ok((Json::Object(entries.push(type_entry)), n + 1)),
            Err(f) => Err(f),
        }
    } else {
        match message_json(schema, opts, is_text, msg, asks) {
            Ok((j, n)) => Ok((Json::Object(seq![type_entry, ("value"@, j)]), n + 1)),
            Err(f) => Err(f),
        }
    }
}

/// The members of a message without a JSON form of its own: its fields, and behind them its
/// extension fields if there is a registry.
pub open spec fn members_json(
    schema: Schema,
    opts: JsonOpts,
    is_text: bool,
    m: Msg,
    desc: DescMessage,
    asks: Seq<Ans>,
) -> WrittenEntries
    decreases asks.len(), m, 6nat, 0nat,
{
    match fields_json(schema, opts, is_text, m, desc, 0, asks) {
        Err(f) => Err(f),
        Ok((entries, n)) => if opts.registry is None {
            Ok((entries, n))
        } else {
            match extensions_json(schema, opts, is_text, m, desc, 0, json_sink::rest(asks, n)) {
                Err(f) => Err(f),
                Ok((more, k)) => Ok((entries + more, n + k)),
            }
        },
    }
}

/// The members of the fields from `i` on.
pub open spec fn fields_json(
    schema: Schema,
    opts: JsonOpts,
    is_text: bool,
    m: Msg,
    desc: DescMessage,
    i: nat,
    asks: Seq<Ans>,
) -> WrittenEntries
    decreases asks.len(), m, 5nat, desc.fields@.len() - i,
{
    if i >= desc.fields@.len() {
        Ok((seq![], 0))
    } else {
        let field = desc.fields@[i as int];
        match field_slot(schema, opts, m, field, i as int) {
            Err(f) => Err(f),
            Ok(Slot::Absent) => fields_json(schema, opts, is_text, m, desc, i + 1, asks),
            Ok(slot) => {
                let written = match slot {
                    Slot::Member(o) => match m.oneofs[o as int] {
                        Some((_, v)) => field_json(schema, opts, is_text, field.value, v, asks),
                        None => Err(shape()),
                    },
                    _ => field_json(
                        schema,
                        opts,
                        is_text,
                        field.value,
                        m.attrs[i as int],
                        asks,
                    ),
                };
                match written {
                    Err(f) => Err(f),
                    Ok((j, n)) => match fields_json(
                        schema,
                        opts,
                        is_text,
                        m,
                        desc,
                        i + 1,
                        json_sink::rest(asks, n),
                    ) {
                        Err(f) => Err(f),
                        Ok((entries, k)) => Ok(
                            (seq![(field_key(opts, field), j)] + entries, n + k),
                        ),
                    },
                }
            },
        }
    }
}

/// The members of the extension fields from `i` on. Fields that the registry does not know are
/// left out.
pub open spec fn extensions_json(
    schema: Schema,
    opts: JsonOpts,
    is_text: bool,
    m: Msg,
    desc: DescMessage,
    i: nat,
    asks: Seq<Ans>,
) -> WrittenEntries
    decreases asks.len(), m, 4nat, m.unknown.len() - i,
{
    if i >= m.unknown.len() {
        Ok((seq![], 0))
    } else {
        match extension_at(opts, desc, m.unknown[i as int].0) {
            None => extensions_json(schema, opts, is_text, m, desc, i + 1, asks),
            Some(ext) => {
                let written = if ext.value is MapOf {
                    Err(Fault::Fixed(Fixed::MapExtension))
                } else {
                    field_json(schema, opts, is_text, ext.value, m.unknown[i as int].1, asks)
                };
                match written {
                    Err(f) => Err(f),
                    Ok((j, n)) => match extensions_json(
                        schema,
                        opts,
                        is_text,
                        m,
                        desc,
                        i + 1,
                        json_sink::rest(asks, n),
                    ) {
                        Err(f) => Err(f),
                        Ok((entries, k)) => Ok(
                            (seq![(extension_key(ext), j)] + entries, n + k),
                        ),
                    },
                }
            },
        }
    }
}

/// The extension field of a message type with the given number.
pub open spec fn extension_at(opts: JsonOpts, desc: DescMessage, number: u32) -> Option<Extension> {
    match opts.registry {
        Some(r) => match descriptor::extension_for_index(
            r.extensions@,
            desc.full_name@,
            number,
        ) {
            Some(i) => Some(r.extensions@[i]),
            None => None,
        },
        None => None,
    }
}

/// The key of an extension field.
pub open spec fn extension_key(ext: Extension) -> Seq<char> {
    seq!['['] + ext.full_name@ + seq![']']
}

/// The JSON value of a field.
pub open spec fn field_json(
    schema: Schema,
    opts: JsonOpts,
    is_text: bool,
    ty: DescFieldValue,
    v: Val,
    asks: Seq<Ans>,
) -> Written
    decreases asks.len(), v, 7nat, 0nat,
{
    match ty {
        DescFieldValue::List { element } => match v {
            Val::List(items) => array_of(
                items_json(schema, opts, is_text, element, items, 0, asks),
            ),
            _ => Err(Fault::Cast { value: v, to: Expected::List }),
        },
        DescFieldValue::MapOf { key_type, value } => match v {
            Val::Dict(entries) => object_of(
                pairs_json(schema, opts, is_text, key_type, value, entries, 0, asks),
            ),
            _ => Err(Fault::Cast { value: v, to: Expected::Dict }),
        },
        DescFieldValue::Scalar { scalar_type } => scalar_json(is_text, scalar_type, v, asks),
        DescFieldValue::Enum { enum_ } => single_json(
            schema,
            opts,
            is_text,
            DescSingleValue::Enum(enum_),
            v,
            asks,
        ),
        DescFieldValue::Message { message } => single_json(
            schema,
            opts,
            is_text,
            DescSingleValue::Message(message),
            v,
            asks,
        ),
    }
}

/// The JSON value of a single value.
pub open spec fn single_json(
    schema: Schema,
    opts: JsonOpts,
    is_text: bool,
    ty: DescSingleValue,
    v: Val,
    asks: Seq<Ans>,
) -> Written
    decreases asks.len(), v, 6nat, 0nat,
{
    match ty {
        DescSingleValue::Scalar(scalar) => scalar_json(is_text, scalar, v, asks),
        DescSingleValue::Enum(enum_) => if enum_ < schema.enums@.len() {
            enum_json(opts, is_text, schema.enums@[enum_ as int], v, asks)
        } else {
            Err(shape())
        },
        DescSingleValue::Message(message) => if message >= schema.messages@.len() {
            Err(shape())
        } else {
            match v {
                Val::Message(m) => if m.desc == message {
                    message_json(schema, opts, is_text, m, asks)
                } else {
                    Err(wrong_message(schema, message, v))
                },
                _ => Err(wrong_message(schema, message, v)),
            }
        },
    }
}

/// The error of a value that is no message of the expected type.
pub open spec fn wrong_message(schema: Schema, message: usize, v: Val) -> Fault {
    let expected = schema.messages@[message as int].full_name@;
    match v {
        Val::Message(m) => if m.desc < schema.messages@.len() {
            Fault::MessageType { expected, actual: schema.messages@[m.desc as int].full_name@ }
        } else {
            shape()
        },
        _ => Fault::NotMessage { expected, value: v },
    }
}

/// The JSON values of the elements of a list from `i` on.
pub open spec fn items_json(
    schema: Schema,
    opts: JsonOpts,
    is_text: bool,
    element: DescSingleValue,
    items: Seq<Val>,
    i: nat,
    asks: Seq<Ans>,
) -> WrittenItems
    decreases asks.len(), items, 3nat, items.len() - i,
{
    if i >= items.len() {
        Ok((seq![], 0))
    } else {
        match single_json(schema, opts, is_text, element, items[i as int], asks) {
            Err(f) => Err(f),
            Ok((j, n)) => match items_json(
                schema,
                opts,
                is_text,
                element,
                items,
                i + 1,
                json_sink::rest(asks, n),
            ) {
                Err(f) => Err(f),
                Ok((more, k)) => Ok((seq![j] + more, n + k)),
            },
        }
    }
}

/// The members of the entries of a map from `i` on.
pub open spec fn pairs_json(
    schema: Schema,
    opts: JsonOpts,
    is_text: bool,
    key_type: ScalarType,
    value: DescSingleValue,
    entries: Seq<(Val, Val)>,
    i: nat,
    asks: Seq<Ans>,
) -> WrittenEntries
    decreases asks.len(), entries, 3nat, entries.len() - i,
{
    if i >= entries.len() {
        Ok((seq![], 0))
    } else {
        match map_key_text(key_type, entries[i as int].0, asks) {
            Err(f) => Err(f),
            Ok((key, a)) => match single_json(
                schema,
                opts,
                is_text,
                value,
                entries[i as int].1,
                json_sink::rest(asks, a),
            ) {
                Err(f) => Err(f),
                Ok((j, n)) => match pairs_json(
                    schema,
                    opts,
                    is_text,
                    key_type,
                    value,
                    entries,
                    i + 1,
                    json_sink::rest(asks, a + n),
                ) {
                    Err(f) => Err(f),
                    Ok((more, k)) => Ok((seq![(key, j)] + more, a + n + k)),
                },
            },
        }
    }
}

/// Whether writing a message begins an object or an array. Where it does not, nothing is written
/// before the message is found to be writable.
pub open spec fn message_opens(schema: Schema, opts: JsonOpts, m: Msg, asks: Seq<Ans>) -> bool
    decreases m, 2nat,
{
    if m.desc >= schema.messages@.len() {
        false
    } else {
        let desc = schema.messages@[m.desc as int];
        match desc.wkt {
            WktKind::Ordinary | WktKind::FileDescriptorSet => true,
            WktKind::Timestamp { .. } | WktKind::Duration { .. } => false,
            WktKind::FieldMask { .. } | WktKind::Wrapper { .. } => false,
            WktKind::Struct { fields } => fields < desc.fields@.len()
                && desc.fields@[fields as int].value is MapOf && (attr_of(m, fields) matches Ok(v)
                && v is Dict),
            WktKind::ListValue { values } => values < desc.fields@.len() && single_type(
                desc.fields@[values as int].value,
            ) is Some && (attr_of(m, values) matches Ok(v) && v is List),
            WktKind::Value { struct_value, list_value, .. } => match json_parse::value_oneof(
                m,
                desc,
            ) {
                Err(_) => false,
                Ok(o) => match m.oneofs[o as int] {
                    None => false,
                    Some((name, v)) => kind_opens(
                        schema,
                        opts,
                        desc,
                        name,
                        v,
                        struct_value,
                        list_value,
                        asks,
                    ),
                },
            },
            WktKind::Any { type_url, value } => any_opens(schema, opts, m, type_url, value, asks),
        }
    }
}

/// Whether writing what a `Value` holds begins an object or an array. Nulls, numbers, strings and
/// booleans do not.
pub open spec fn kind_opens(
    schema: Schema,
    opts: JsonOpts,
    desc: DescMessage,
    name: Seq<char>,
    v: Val,
    struct_value: usize,
    list_value: usize,
    asks: Seq<Ans>,
) -> bool
    decreases v, 1nat,
{
    let i = if name == "struct_value"@ {
        struct_value
    } else {
        list_value
    };
    (name == "struct_value"@ || name == "list_value"@) && i < desc.fields@.len() && match single_type(
        desc.fields@[i as int].value,
    ) {
        Some(ty) => single_opens(schema, opts, ty, v, asks),
        None => false,
    }
}

/// Whether writing a single value begins an object or an array.
pub open spec fn single_opens(
    schema: Schema,
    opts: JsonOpts,
    ty: DescSingleValue,
    v: Val,
    asks: Seq<Ans>,
) -> bool
    decreases v, 0nat,
{
    match (ty, v) {
        (DescSingleValue::Message(message), Val::Message(m)) => message < schema.messages@.len()
            && m.desc == message && message_opens(schema, opts, m, asks),
        _ => false,
    }
}

/// Whether writing the value of a field begins an object or an array.
pub open spec fn field_opens(
    schema: Schema,
    opts: JsonOpts,
    ty: DescFieldValue,
    v: Val,
    asks: Seq<Ans>,
) -> bool {
    match ty {
        DescFieldValue::List { .. } => v is List,
        DescFieldValue::MapOf { .. } => v is Dict,
        DescFieldValue::Scalar { .. } | DescFieldValue::Enum { .. } => false,
        DescFieldValue::Message { message } => single_opens(
            schema,
            opts,
            DescSingleValue::Message(message),
            v,
            asks,
        ),
    }
}

/// Whether writing an `Any` begins an object: its type is known, or its URL empty, and the host
/// has unpacked the message in it.
pub open spec fn any_opens(
    schema: Schema,
    opts: JsonOpts,
    m: Msg,
    type_url: usize,
    value: usize,
    asks: Seq<Ans>,
) -> bool {
    match any_target(schema, opts, m, type_url) {
        Err(_) => false,
        Ok(None) => true,
        Ok(Some((_, inner))) => match attr_of(m, value) {
            Err(_) => false,
            Ok(v) => match any_bytes(v) {
                Err(_) => false,
                Ok(data) => question::next_answer(
                    asks,
                    QuestionOf::Unpack { desc: inner, data },
                ) matches Ok(AnswerOf::Message(msg)) && msg.desc == inner,
            },
        },
    }
}

/// Whether a value was written as it should.
pub open spec fn wrote_json(
    written: Written,
    r: Result<(), Error>,
    before: SinkState,
    after: SinkState,
    asks_before: Seq<Ans>,
    asks_after: Seq<Ans>,
) -> bool {
    match written {
        Ok((j, n)) => r is Ok && after == json_sink::put(before, j) && asks_after
            == json_sink::rest(asks_before, n) && (json_sink::is_text(before)
            ==> json_sink::doubles_read_back(j)),
        Err(f) => r is Err && error::fault_of(r->Err_0) == f,
    }
}

/// Checks that a value is an integer in the range of a type.
fn extract_ranged(v: &Value, low: i64, high: i64, range: RangeOf) -> (r: Result<i64, Error>)
    ensures
        match ranged_int(v@, low as int, high as int, range) {
            Ok(n) => r is Ok && r->Ok_0 == n,
            Err(f) => r is Err && error::fault_of(r->Err_0) == f,
        },
{
    require_int(v)?;
    if let Value::Int(n) = v {
        if let Some(n) = n.to_i64() {
            if low <= n && n < high {
                return Ok(n);
            }
        }
    }
    Err(ErrorOf::ValueRange { value: v.copy(), range })
}

fn require_int(v: &Value) -> (r: Result<(), Error>)
    ensures
        match required_int(v@) {
            Ok(_) => r is Ok,
            Err(f) => r is Err && error::fault_of(r->Err_0) == f,
        },
{
    match v {
        Value::Int(_) => Ok(()),
        _ => Err(ErrorOf::ValueType { want: Expected::Int, value: v.copy() }),
    }
}

fn extract_i64(v: &Value) -> (r: Result<i64, Error>)
    ensures
        match int64_of(v@) {
            Ok(n) => r is Ok && r->Ok_0 == n,
            Err(f) => r is Err && error::fault_of(r->Err_0) == f,
        },
{
    require_int(v)?;
    if let Value::Int(n) = v {
        if let Some(n) = n.to_i64() {
            return Ok(n);
        }
    }
    Err(ErrorOf::ValueRange { value: v.copy(), range: RangeOf::Int64 })
}

fn extract_u64(v: &Value) -> (r: Result<u64, Error>)
    ensures
        match uint64_of(v@) {
            Ok(n) => r is Ok && r->Ok_0 == n,
            Err(f) => r is Err && error::fault_of(r->Err_0) == f,
        },
{
    require_int(v)?;
    if let Value::Int(n) = v {
        if let Some(n) = n.to_u64() {
            return Ok(n);
        }
    }
    Err(ErrorOf::ValueRange { value: v.copy(), range: RangeOf::Uint64 })
}

fn require_float(v: &Value) -> (r: Result<u64, Error>)
    ensures
        match required_float(v@) {
            Ok(bits) => r is Ok && r->Ok_0 == bits,
            Err(f) => r is Err && error::fault_of(r->Err_0) == f,
        },
{
    if let Value::Bool(_) = v {
        return Err(ErrorOf::ValueType { want: Expected::Float, value: v.copy() });
    }
    match double_of_value(v) {
        Ok(bits) => Ok(bits),
        Err(_) => Err(ErrorOf::ValueType { want: Expected::Float, value: v.copy() }),
    }
}

fn extract_truth(v: &Value) -> (r: Option<bool>)
    ensures
        r == truth_of(v@),
{
    match v {
        Value::Bool(b) => Some(*b),
        Value::Foreign(f) => f.truth,
        _ => None,
    }
}

fn extract_bytes(v: &Value) -> (r: Option<Vec<u8>>)
    ensures
        match bytes_of(v@) {
            Some(b) => r is Some && r->0@ == b,
            None => r is None,
        },
{
    match v {
        Value::Bytes(b) => Some(copy_bytes(b)),
        Value::ByteArray(b) => Some(copy_bytes(b)),
        _ => None,
    }
}

fn byte_of_integer(n: &Integer) -> (r: Result<u8, Error>)
    ensures
        error::outcome(r) == byte_of_int(n@),
{
    match n.to_i64() {
        Some(n) => byte_of_i64(n),
        None => Err(ErrorOf::Fixed(Fixed::WordRange)),
    }
}

fn byte_of_i64(n: i64) -> (r: Result<u8, Error>)
    ensures
        error::outcome(r) == byte_of_int(n as int),
{
    if 0 <= n && n <= 0xff {
        Ok(n as u8)
    } else {
        Err(ErrorOf::Fixed(Fixed::ByteRange))
    }
}

fn extract_byte(v: &Value) -> (r: Result<u8, Error>)
    ensures
        error::outcome(r) == byte_of(v@),
{
    match v {
        Value::Int(n) => byte_of_integer(n),
        Value::Bool(b) => Ok(
            if *b {
                1
            } else {
                0
            },
        ),
        Value::Foreign(f) => match f.whole {
            Some(n) => byte_of_i64(n),
            None => Err(ErrorOf::Cast { value: v.copy(), to: Expected::Int }),
        },
        _ => Err(ErrorOf::Cast { value: v.copy(), to: Expected::Int }),
    }
}

/// Every longer part of a list whose start has a fault has the same.
proof fn lemma_list_bytes_fault(items: Seq<Val>, i: int)
    requires
        0 <= i <= items.len(),
        list_bytes(items.take(i)) is Err,
    ensures
        list_bytes(items) == list_bytes(items.take(i)),
    decreases items.len() - i,
{
    if i < items.len() {
        assert(items.take(i + 1).drop_last() =~= items.take(i));
        lemma_list_bytes_fault(items, i + 1);
    } else {
        assert(items.take(i) =~= items);
    }
}

fn extract_list_bytes(items: &Vec<Value>) -> (r: Result<Vec<u8>, Error>)
    ensures
        match list_bytes(value::list_view(items@)) {
            Ok(b) => r is Ok && r->Ok_0@ == b,
            Err(f) => r is Err && error::fault_of(r->Err_0) == f,
        },
{
    let mut out: Vec<u8> = Vec::new();
    let ghost all = value::list_view(items@);
    let mut i: usize = 0;
    while i < items.len()
        invariant
            i <= items@.len(),
            all == value::list_view(items@),
            list_bytes(all.take(i as int)) == Ok::<Seq<u8>, Fault>(out@),
        decreases items@.len() - i,
    {
        assert(all.take(i + 1).drop_last() =~= all.take(i as int));
        assert(all.take(i + 1).last() == items@[i as int]@);
        match extract_byte(&items[i]) {
            Ok(x) => {
                out.push(x);
            },
            Err(e) => {
                proof {
                    lemma_list_bytes_fault(all, i + 1);
                }
                return Err(e);
            },
        }
        i = i + 1;
    }
    assert(all.take(i as int) =~= all);
    Ok(out)
}

/// The bytes in an `Any`.
fn extract_any_bytes(v: &Value) -> (r: Result<Vec<u8>, Error>)
    ensures
        match any_bytes(v@) {
            Ok(b) => r is Ok && r->Ok_0@ == b,
            Err(f) => r is Err && error::fault_of(r->Err_0) == f,
        },
{
    match v {
        Value::Bytes(b) => Ok(copy_bytes(b)),
        Value::ByteArray(b) => Ok(copy_bytes(b)),
        Value::List(items) => extract_list_bytes(items),
        Value::Foreign(f) => match &f.octets {
            Some(Ok(b)) => Ok(copy_bytes(b)),
            Some(Err(e)) => Err(ErrorOf::Fixed(*e)),
            None => Err(ErrorOf::Cast { value: v.copy(), to: Expected::Bytes }),
        },
        _ => Err(ErrorOf::Cast { value: v.copy(), to: Expected::Bytes }),
    }
}

/// Writes a double: a number if it is finite, and a string otherwise.
fn write_double<S: JsonSink>(sink: &mut S, asks: &mut Answers, v: &Value, bits: u64) -> (r: Result<
    (),
    Error,
>)
    requires
        json_sink::can_put(old(sink).state()),
    ensures
        wrote_json(
            double_json(json_sink::is_text(old(sink).state()), v@, bits, old(asks)@),
            r,
            old(sink).state(),
            final(sink).state(),
            old(asks)@,
            final(asks)@,
        ),
        r is Err ==> final(sink).state() == old(sink).state(),
{
    proof {
        json_sink::lemma_rest(asks@, 0, 0);
    }
    if double_is_nan(bits) {
        sink.str("NaN")
    } else if !double_is_finite(bits) {
        sink.str(
            if double_is_negative(bits) {
                "-Infinity"
            } else {
                "Infinity"
            },
        )
    } else {
        sink.py_number(v, asks)
    }
}

/// Writes the value of a scalar field.
fn write_scalar_json<S: JsonSink>(
    sink: &mut S,
    asks: &mut Answers,
    scalar: ScalarType,
    v: &Value,
) -> (r: Result<(), Error>)
    requires
        json_sink::can_put(old(sink).state()),
    ensures
        wrote_json(
            scalar_json(json_sink::is_text(old(sink).state()), scalar, v@, old(asks)@),
            r,
            old(sink).state(),
            final(sink).state(),
            old(asks)@,
            final(asks)@,
        ),
        r is Err ==> final(sink).state() == old(sink).state(),
{
    proof {
        json_sink::lemma_rest(asks@, 0, 0);
    }
    match scalar {
        ScalarType::Bool => match v {
            Value::Bool(b) => sink.bool(*b),
            _ => Err(ErrorOf::ValueType { want: Expected::Bool, value: v.copy() }),
        },
        ScalarType::Int32 | ScalarType::Sint32 | ScalarType::Sfixed32 => {
            let n: i64 = extract_ranged(v, -0x8000_0000, 0x8000_0000, RangeOf::Int32)?;
            sink.i64(n)
        },
        ScalarType::Uint32 | ScalarType::Fixed32 => {
            let n: i64 = extract_ranged(v, 0, 0x1_0000_0000, RangeOf::Uint32)?;
            sink.i64(n)
        },
        ScalarType::Int64 | ScalarType::Sint64 | ScalarType::Sfixed64 => {
            let n: i64 = extract_i64(v)?;
            let digits: String = format_i64(n);
            sink.str(digits.as_str())
        },
        ScalarType::Uint64 | ScalarType::Fixed64 => {
            let n: u64 = extract_u64(v)?;
            let digits: String = format_u64(n);
            sink.str(digits.as_str())
        },
        ScalarType::Float => {
            let bits: u64 = require_float(v)?;
            if double_is_finite(bits) && !double_in_float_range(bits) {
                return Err(ErrorOf::ValueRange { value: v.copy(), range: RangeOf::Float });
            }
            write_double(sink, asks, v, bits)
        },
        ScalarType::Double => {
            let bits: u64 = require_float(v)?;
            write_double(sink, asks, v, bits)
        },
        ScalarType::String => match v {
            Value::Str(s) => sink.str(s.as_str()),
            _ => Err(ErrorOf::ValueType { want: Expected::Str, value: v.copy() }),
        },
        ScalarType::Bytes => match extract_bytes(v) {
            Some(b) => {
                let encoded: String = bytes_to_text(&b);
                sink.str(encoded.as_str())
            },
            None => Err(ErrorOf::ValueType { want: Expected::Bytes, value: v.copy() }),
        },
    }
}

/// Writes the value of an enum field.
fn write_enum_json<S: JsonSink>(
    sink: &mut S,
    asks: &mut Answers,
    opts: &JsonOpts,
    e: &DescEnum,
    v: &Value,
) -> (r: Result<(), Error>)
    requires
        json_sink::can_put(old(sink).state()),
    ensures
        wrote_json(
            enum_json(*opts, json_sink::is_text(old(sink).state()), *e, v@, old(asks)@),
            r,
            old(sink).state(),
            final(sink).state(),
            old(asks)@,
            final(asks)@,
        ),
        r is Err ==> final(sink).state() == old(sink).state(),
{
    proof {
        json_sink::lemma_rest(asks@, 0, 0);
    }
    let n = match v {
        Value::Int(n) => n,
        _ => {
            return Err(ErrorOf::EnumType { name: e.full_name.clone(), value: v.copy() });
        },
    };
    match n.to_i32() {
        Some(number) => {
            let at: Option<usize> = find_number(&e.names_by_number, number);
            if !e.open && at.is_none() {
                return Err(ErrorOf::EnumValue { name: e.full_name.clone(), value: v.copy() });
            }
            if e.is_null_value {
                return sink.null();
            }
            if opts.print_enums_as_ints {
                return sink.i64(number as i64);
            }
            match at {
                Some(i) => sink.str(e.names_by_number[i].1.as_str()),
                None => sink.i64(number as i64),
            }
        },
        None => {
            if !e.open {
                return Err(ErrorOf::EnumValue { name: e.full_name.clone(), value: v.copy() });
            }
            sink.py_number(v, asks)
        },
    }
}

/// The key of a map entry.
fn map_key(asks: &mut Answers, key_type: ScalarType, key: &Value) -> (r: Result<String, Error>)
    ensures
        match map_key_text(key_type, key@, old(asks)@) {
            Ok((t, n)) => r is Ok && r->Ok_0@ == t && final(asks)@ == json_sink::rest(
                old(asks)@,
                n,
            ),
            Err(f) => r is Err && error::fault_of(r->Err_0) == f,
        },
{
    proof {
        json_sink::lemma_rest(asks@, 0, 0);
    }
    match key_type {
        ScalarType::String => match key {
            Value::Str(s) => Ok(s.clone()),
            _ => Err(ErrorOf::Cast { value: key.copy(), to: Expected::Str }),
        },
        ScalarType::Bool => match extract_truth(key) {
            Some(b) => Ok(
                if b {
                    "true".to_owned()
                } else {
                    "false".to_owned()
                },
            ),
            None => Err(ErrorOf::Cast { value: key.copy(), to: Expected::Bool }),
        },
        _ => match key {
            Value::Int(n) => {
                let digits: String = n.text();
                let chars: Vec<char> = chars_of(digits.as_str());
                if chars.len() <= 640 {
                    Ok(digits)
                } else {
                    ask_text(key.copy(), asks)
                }
            },
            Value::Str(s) => Ok(s.clone()),
            _ => ask_text(key.copy(), asks),
        },
    }
}

/// Writes the key of a map entry.
fn write_map_key<S: JsonSink>(
    sink: &mut S,
    asks: &mut Answers,
    key_type: ScalarType,
    key: &Value,
) -> (r: Result<(), Error>)
    requires
        json_sink::can_key(old(sink).state()),
    ensures
        match map_key_text(key_type, key@, old(asks)@) {
            Ok((t, n)) => r is Ok && final(sink).state() == json_sink::keyed(
                old(sink).state(),
                t,
            ) && final(asks)@ == json_sink::rest(old(asks)@, n),
            Err(f) => r is Err && error::fault_of(r->Err_0) == f,
        },
        r is Err ==> final(sink).state() == old(sink).state(),
{
    let t: String = map_key(asks, key_type, key)?;
    sink.key(t.as_str())
}

/// Reads the value of a 64-bit field of a well-known type.
fn read_int64_field(message: &Message, i: usize) -> (r: Result<i64, Error>)
    ensures
        error::outcome(r) == int64_attr(message@, i),
{
    if i >= message.attrs.len() {
        return Err(ErrorOf::Fixed(Fixed::Shape));
    }
    extract_i64(&message.attrs[i])
}

/// Reads the value of a 32-bit field of a well-known type.
fn read_int32_field(message: &Message, i: usize) -> (r: Result<i32, Error>)
    ensures
        error::outcome(r) == int32_attr(message@, i),
{
    if i >= message.attrs.len() {
        return Err(ErrorOf::Fixed(Fixed::Shape));
    }
    let n: i64 = extract_ranged(
        &message.attrs[i],
        -0x8000_0000,
        0x8000_0000,
        RangeOf::Int32,
    )?;
    Ok(n as i32)
}

/// Writes a field mask.
fn write_field_mask<S: JsonSink>(
    sink: &mut S,
    asks: &mut Answers,
    message: &Message,
    paths: usize,
) -> (r: Result<(), Error>)
    requires
        json_sink::can_put(old(sink).state()),
    ensures
        wrote_json(
            field_mask_written(message@, paths),
            r,
            old(sink).state(),
            final(sink).state(),
            old(asks)@,
            final(asks)@,
        ),
        r is Err ==> final(sink).state() == old(sink).state(),
{
    proof {
        json_sink::lemma_rest(asks@, 0, 0);
    }
    if paths >= message.attrs.len() {
        return Err(ErrorOf::Fixed(Fixed::Shape));
    }
    match &message.attrs[paths] {
        Value::List(items) => {
            let t: String = write_mask(items)?;
            sink.str(t.as_str())
        },
        other => Err(ErrorOf::Cast { value: other.copy(), to: Expected::List }),
    }
}

/// Whether members were written as they should.
pub open spec fn wrote_members(
    written: WrittenEntries,
    r: Result<(), Error>,
    before: SinkState,
    after: SinkState,
    asks_before: Seq<Ans>,
    asks_after: Seq<Ans>,
) -> bool {
    match written {
        Ok((entries, n)) => r is Ok && after == json_sink::put_entries(before, entries)
            && asks_after == json_sink::rest(asks_before, n) && (json_sink::is_text(before)
            ==> json_sink::entries_read_back(entries)),
        Err(f) => r is Err && error::fault_of(r->Err_0) == f,
    }
}

/// What was written before, and what is written then.
spec fn then_items(done: Seq<Json>, used: nat, more: WrittenItems) -> WrittenItems {
    match more {
        Ok((more, n)) => Ok((done + more, used + n)),
        Err(f) => Err(f),
    }
}

/// What was written before, and what is written then.
spec fn then_entries(done: Seq<(Seq<char>, Json)>, used: nat, more: WrittenEntries) -> WrittenEntries {
    match more {
        Ok((more, n)) => Ok((done + more, used + n)),
        Err(f) => Err(f),
    }
}

proof fn lemma_then_items(done: Seq<Json>, used: nat, j: Json, n: nat, more: WrittenItems)
    ensures
        then_items(
            done,
            used,
            match more {
                Ok((more, k)) => Ok((seq![j] + more, n + k)),
                Err(f) => Err(f),
            },
        ) == then_items(done.push(j), used + n, more),
{
    match more {
        Ok((more, k)) => {
            assert(done + (seq![j] + more) =~= done.push(j) + more);
        },
        Err(_) => {},
    }
}

proof fn lemma_then_entries(
    done: Seq<(Seq<char>, Json)>,
    used: nat,
    e: (Seq<char>, Json),
    n: nat,
    more: WrittenEntries,
)
    ensures
        then_entries(
            done,
            used,
            match more {
                Ok((more, k)) => Ok((seq![e] + more, n + k)),
                Err(f) => Err(f),
            },
        ) == then_entries(done.push(e), used + n, more),
{
    match more {
        Ok((more, k)) => {
            assert(done + (seq![e] + more) =~= done.push(e) + more);
        },
        Err(_) => {},
    }
}

/// Writes a message, in the way of its well-known type.
fn write_json<S: JsonSink>(
    sink: &mut S,
    asks: &mut Answers,
    schema: &Schema,
    opts: &JsonOpts,
    message: &Message,
) -> (r: Result<(), Error>)
    requires
        json_sink::can_put(old(sink).state()),
    ensures
        wrote_json(
            message_json(*schema, *opts, json_sink::is_text(old(sink).state()), message@, old(asks)@),
            r,
            old(sink).state(),
            final(sink).state(),
            old(asks)@,
            final(asks)@,
        ),
        r is Err && !message_opens(*schema, *opts, message@, old(asks)@)
            ==> final(sink).state() == old(sink).state(),
    decreases old(asks)@.len(), message, 9nat, 0nat,
{
    proof {
        json_sink::lemma_rest(asks@, 0, 0);
    }
    if message.desc >= schema.messages.len() {
        return Err(ErrorOf::Fixed(Fixed::Shape));
    }
    let desc: &DescMessage = &schema.messages[message.desc];
    match desc.wkt {
        WktKind::Ordinary | WktKind::FileDescriptorSet => write_message_object(
            sink,
            asks,
            schema,
            opts,
            message,
            desc,
        ),
        WktKind::Timestamp { seconds, nanos } => {
            let s: i64 = read_int64_field(message, seconds)?;
            let n: i32 = read_int32_field(message, nanos)?;
            let t: String = timestamp_to_rfc3339(s, n)?;
            sink.str(t.as_str())
        },
        WktKind::Duration { seconds, nanos } => {
            let s: i64 = read_int64_field(message, seconds)?;
            let n: i32 = read_int32_field(message, nanos)?;
            let t: String = duration_to_json(s, n)?;
            sink.str(t.as_str())
        },
        WktKind::FieldMask { paths } => write_field_mask(sink, asks, message, paths),
        WktKind::Wrapper { field, scalar } => {
            if field >= message.attrs.len() {
                return Err(ErrorOf::Fixed(Fixed::Shape));
            }
            write_scalar_json(sink, asks, scalar, &message.attrs[field])
        },
        WktKind::Struct { fields } => write_struct(sink, asks, schema, opts, message, desc, fields),
        WktKind::ListValue { values } => write_list_value(
            sink,
            asks,
            schema,
            opts,
            message,
            desc,
            values,
        ),
        WktKind::Value { .. } => write_value(sink, asks, schema, opts, message, desc),
        WktKind::Any { type_url, value } => write_any(
            sink,
            asks,
            schema,
            opts,
            message,
            type_url,
            value,
        ),
    }
}

/// Writes a message without a JSON form of its own.
fn write_message_object<S: JsonSink>(
    sink: &mut S,
    asks: &mut Answers,
    schema: &Schema,
    opts: &JsonOpts,
    message: &Message,
    desc: &DescMessage,
) -> (r: Result<(), Error>)
    requires
        json_sink::can_put(old(sink).state()),
    ensures
        wrote_json(
            object_of(
                members_json(
                    *schema,
                    *opts,
                    json_sink::is_text(old(sink).state()),
                    message@,
                    *desc,
                    old(asks)@,
                ),
            ),
            r,
            old(sink).state(),
            final(sink).state(),
            old(asks)@,
            final(asks)@,
        ),
    decreases old(asks)@.len(), message, 8nat, 0nat,
{
    let ghost start = sink.state();
    sink.begin_object()?;
    let ghost begun = sink.state();
    proof {
        json_sink::lemma_put_object(start, seq![]);
    }
    write_message_fields(sink, asks, schema, opts, message, desc)?;
    proof {
        let entries = members_json(
            *schema,
            *opts,
            json_sink::is_text(start),
            message@,
            *desc,
            old(asks)@,
        )->Ok_0.0;
        json_sink::lemma_put_object(start, entries);
    }
    sink.end_object();
    Ok(())
}

/// Writes the members of a message without a JSON form of its own.
fn write_message_fields<S: JsonSink>(
    sink: &mut S,
    asks: &mut Answers,
    schema: &Schema,
    opts: &JsonOpts,
    message: &Message,
    desc: &DescMessage,
) -> (r: Result<(), Error>)
    requires
        json_sink::can_key(old(sink).state()),
    ensures
        wrote_members(
            members_json(*schema, *opts, json_sink::is_text(old(sink).state()), message@, *desc, old(asks)@),
            r,
            old(sink).state(),
            final(sink).state(),
            old(asks)@,
            final(asks)@,
        ),
    decreases old(asks)@.len(), message, 6nat, 0nat,
{
    let ghost start = sink.state();
    let ghost is_text = json_sink::is_text(start);
    write_fields(sink, asks, schema, opts, message, desc)?;
    if opts.registry.is_some() {
        proof {
            let (entries, n) = fields_json(
                *schema,
                *opts,
                is_text,
                message@,
                *desc,
                0,
                old(asks)@,
            )->Ok_0;
            json_sink::lemma_entries_can_key(start, entries);
            json_sink::lemma_rest(old(asks)@, n, 0);
        }
        let ghost middle = asks@;
        write_extensions(sink, asks, schema, opts, message, desc)?;
        proof {
            let (entries, n) = fields_json(
                *schema,
                *opts,
                is_text,
                message@,
                *desc,
                0,
                old(asks)@,
            )->Ok_0;
            let (more, k) = extensions_json(
                *schema,
                *opts,
                is_text,
                message@,
                *desc,
                0,
                middle,
            )->Ok_0;
            json_sink::lemma_put_entries(start, entries, more);
            json_sink::lemma_rest(old(asks)@, n, k);
        }
    }
    Ok(())
}

fn is_default_value(schema: &Schema, field: &DescField, v: &Value) -> (r: bool)
    requires
        field.oneof is None,
    ensures
        r == (v@ == json_parse::default_attr(*schema, *field)),
{
    let default: Value = default_value(schema, field);
    match (v, &default) {
        (Value::Null, Value::Null) => true,
        (Value::Bool(a), Value::Bool(b)) => *a == *b,
        (Value::Int(a), Value::Int(b)) => a.same(b),
        (Value::Float(a), Value::Float(b)) => *a == *b,
        (Value::Str(a), Value::Str(b)) => same_text(a.as_str(), b.as_str()),
        (Value::Bytes(a), Value::Bytes(b)) => {
            assert(b@.len() == 0);
            if a.len() == 0 {
                assert(a@ =~= b@);
                true
            } else {
                false
            }
        },
        (Value::List(a), Value::List(b)) => {
            assert(value::list_view(b@).len() == 0);
            if a.len() == 0 {
                assert(value::list_view(a@) =~= value::list_view(b@));
                true
            } else {
                assert(value::list_view(a@).len() > 0);
                false
            }
        },
        (Value::Dict(a), Value::Dict(b)) => {
            assert(value::dict_view(b@).len() == 0);
            if a.len() == 0 {
                assert(value::dict_view(a@) =~= value::dict_view(b@));
                true
            } else {
                assert(value::dict_view(a@).len() > 0);
                false
            }
        },
        _ => false,
    }
}

/// Where the value of a field stands, if the field is written.
fn find_field_slot(
    schema: &Schema,
    opts: &JsonOpts,
    message: &Message,
    field: &DescField,
    i: usize,
) -> (r: Result<Slot, Error>)
    ensures
        error::outcome(r) == field_slot(*schema, *opts, message@, *field, i as int),
{
    match field.oneof {
        Some(o) => {
            if o >= message.oneofs.len() {
                return Err(ErrorOf::Fixed(Fixed::Shape));
            }
            match &message.oneofs[o] {
                Some(oneof) => if same_text(oneof.field.as_str(), field.local_name.as_str()) {
                    Ok(Slot::Member(o))
                } else {
                    Ok(Slot::Absent)
                },
                None => Ok(Slot::Absent),
            }
        },
        None => {
            if i >= message.attrs.len() || i >= message.present.len() {
                return Err(ErrorOf::Fixed(Fixed::Shape));
            }
            let v: &Value = &message.attrs[i];
            let is_set: bool = match field.value {
                DescFieldValue::Message { .. } => !matches!(v, Value::Null),
                DescFieldValue::Scalar { .. } | DescFieldValue::Enum { .. } => {
                    if field.requires_presence {
                        message.present[i]
                    } else {
                        opts.always_emit_implicit || !is_default_value(schema, field, v)
                    }
                },
                _ => opts.always_emit_implicit || !is_default_value(schema, field, v),
            };
            if is_set {
                Ok(Slot::Attr)
            } else {
                Ok(Slot::Absent)
            }
        },
    }
}

/// Writes the members of the fields.
fn write_fields<S: JsonSink>(
    sink: &mut S,
    asks: &mut Answers,
    schema: &Schema,
    opts: &JsonOpts,
    message: &Message,
    desc: &DescMessage,
) -> (r: Result<(), Error>)
    requires
        json_sink::can_key(old(sink).state()),
    ensures
        wrote_members(
            fields_json(
                *schema,
                *opts,
                json_sink::is_text(old(sink).state()),
                message@,
                *desc,
                0,
                old(asks)@,
            ),
            r,
            old(sink).state(),
            final(sink).state(),
            old(asks)@,
            final(asks)@,
        ),
    decreases old(asks)@.len(), message, 5nat, 0nat,
{
    let ghost start = sink.state();
    let ghost is_text = json_sink::is_text(start);
    let ghost asks0 = asks@;
    let ghost mut done: Seq<(Seq<char>, Json)> = seq![];
    let ghost mut used: nat = 0;
    let mut i: usize = 0;
    proof {
        json_sink::lemma_rest(asks0, 0, 0);
        let all = fields_json(*schema, *opts, is_text, message@, *desc, 0, asks0);
        if all is Ok {
            assert(done + all->Ok_0.0 =~= all->Ok_0.0);
        }
    }
    while i < desc.fields.len()
        invariant
            i <= desc.fields@.len(),
            asks0 == old(asks)@,
            start == old(sink).state(),
            is_text == json_sink::is_text(start),
            json_sink::can_key(start),
            sink.state() == json_sink::put_entries(start, done),
            is_text ==> json_sink::entries_read_back(done),
            asks@ == json_sink::rest(asks0, used),
            fields_json(*schema, *opts, is_text, message@, *desc, 0, asks0) == then_entries(
                done,
                used,
                fields_json(*schema, *opts, is_text, message@, *desc, i as nat, asks@),
            ),
        decreases desc.fields@.len() - i,
    {
        let field: &DescField = &desc.fields[i];
        proof {
            json_sink::lemma_rest(asks0, used, 0);
        }
        match find_field_slot(schema, opts, message, field, i)? {
            Slot::Absent => {},
            slot => {
                let ghost before = asks@;
                let ghost ghost_slot = slot;
                proof {
                    json_sink::lemma_entries_can_key(start, done);
                    json_sink::lemma_keyed(
                        json_sink::put_entries(start, done),
                        field_key(*opts, *field),
                    );
                }
                if opts.use_proto_field_name {
                    sink.key(field.name.as_str())?;
                } else {
                    sink.key(field.json_key.as_str())?;
                }
                let v: &Value = match slot {
                    Slot::Member(o) => match &message.oneofs[o] {
                        Some(oneof) => {
                            assert(decreases_to!(message => message.oneofs@[o as int]));
                            &oneof.value
                        },
                        None => {
                            return Err(ErrorOf::Fixed(Fixed::Shape));
                        },
                    },
                    _ => {
                        assert(decreases_to!(message => message.attrs@[i as int]));
                        &message.attrs[i]
                    },
                };
                write_json_value(sink, asks, schema, opts, field.value, v)?;
                proof {
                    let (j, n) = field_json(*schema, *opts, is_text, field.value, v@, before)->Ok_0;
                    let e = (field_key(*opts, *field), j);
                    lemma_then_entries(
                        done,
                        used,
                        e,
                        n,
                        fields_json(
                            *schema,
                            *opts,
                            is_text,
                            message@,
                            *desc,
                            (i + 1) as nat,
                            asks@,
                        ),
                    );
                    json_sink::lemma_rest(asks0, used, n);
                    assert(done.push(e).drop_last() =~= done);
                    done = done.push(e);
                    used = used + n;
                }
            },
        }
        i = i + 1;
    }
    proof {
        assert(done + seq![] =~= done);
    }
    Ok(())
}

/// Writes the members of the extension fields that the registry knows.
fn write_extensions<S: JsonSink>(
    sink: &mut S,
    asks: &mut Answers,
    schema: &Schema,
    opts: &JsonOpts,
    message: &Message,
    desc: &DescMessage,
) -> (r: Result<(), Error>)
    requires
        json_sink::can_key(old(sink).state()),
    ensures
        wrote_members(
            extensions_json(
                *schema,
                *opts,
                json_sink::is_text(old(sink).state()),
                message@,
                *desc,
                0,
                old(asks)@,
            ),
            r,
            old(sink).state(),
            final(sink).state(),
            old(asks)@,
            final(asks)@,
        ),
    decreases old(asks)@.len(), message, 4nat, 0nat,
{
    let ghost start = sink.state();
    let ghost is_text = json_sink::is_text(start);
    let ghost asks0 = asks@;
    let ghost mut done: Seq<(Seq<char>, Json)> = seq![];
    let ghost mut used: nat = 0;
    let mut i: usize = 0;
    proof {
        json_sink::lemma_rest(asks0, 0, 0);
        let all = extensions_json(*schema, *opts, is_text, message@, *desc, 0, asks0);
        if all is Ok {
            assert(done + all->Ok_0.0 =~= all->Ok_0.0);
        }
    }
    while i < message.unknown.len()
        invariant
            i <= message.unknown@.len(),
            asks0 == old(asks)@,
            start == old(sink).state(),
            is_text == json_sink::is_text(start),
            json_sink::can_key(start),
            sink.state() == json_sink::put_entries(start, done),
            is_text ==> json_sink::entries_read_back(done),
            asks@ == json_sink::rest(asks0, used),
            extensions_json(*schema, *opts, is_text, message@, *desc, 0, asks0) == then_entries(
                done,
                used,
                extensions_json(*schema, *opts, is_text, message@, *desc, i as nat, asks@),
            ),
        decreases message.unknown@.len() - i,
    {
        proof {
            json_sink::lemma_rest(asks0, used, 0);
        }
        let number: u32 = message.unknown[i].number;
        assert(message@.unknown[i as int] == (number, message.unknown@[i as int].value@));
        let at: Option<usize> = match &opts.registry {
            Some(registry) => find_extension_for(
                &registry.extensions,
                desc.full_name.as_str(),
                number,
            ),
            None => None,
        };
        match (&opts.registry, at) {
            (Some(registry), Some(at)) => {
                let ext: &Extension = &registry.extensions[at];
                let ghost before = asks@;
                proof {
                    json_sink::lemma_entries_can_key(start, done);
                    json_sink::lemma_keyed(
                        json_sink::put_entries(start, done),
                        extension_key(*ext),
                    );
                }
                let mut key: String = "[".to_owned();
                key.append(ext.full_name.as_str());
                key.push(']');
                proof {
                    reveal_strlit("[");
                    assert(key@ =~= extension_key(*ext));
                }
                sink.key(key.as_str())?;
                if let DescFieldValue::MapOf { .. } = ext.value {
                    return Err(ErrorOf::Fixed(Fixed::MapExtension));
                }
                assert(decreases_to!(message => message.unknown@[i as int]));
                let v: &Value = &message.unknown[i].value;
                write_json_value(sink, asks, schema, opts, ext.value, v)?;
                proof {
                    let (j, n) = field_json(*schema, *opts, is_text, ext.value, v@, before)->Ok_0;
                    let e = (extension_key(*ext), j);
                    lemma_then_entries(
                        done,
                        used,
                        e,
                        n,
                        extensions_json(
                            *schema,
                            *opts,
                            is_text,
                            message@,
                            *desc,
                            (i + 1) as nat,
                            asks@,
                        ),
                    );
                    json_sink::lemma_rest(asks0, used, n);
                    assert(done.push(e).drop_last() =~= done);
                    done = done.push(e);
                    used = used + n;
                }
            },
            _ => {},
        }
        i = i + 1;
    }
    proof {
        assert(done + seq![] =~= done);
    }
    Ok(())
}

/// Writes the value of a field.
fn write_json_value<S: JsonSink>(
    sink: &mut S,
    asks: &mut Answers,
    schema: &Schema,
    opts: &JsonOpts,
    ty: DescFieldValue,
    v: &Value,
) -> (r: Result<(), Error>)
    requires
        json_sink::can_put(old(sink).state()),
    ensures
        wrote_json(
            field_json(*schema, *opts, json_sink::is_text(old(sink).state()), ty, v@, old(asks)@),
            r,
            old(sink).state(),
            final(sink).state(),
            old(asks)@,
            final(asks)@,
        ),
        r is Err && !field_opens(*schema, *opts, ty, v@, old(asks)@)
            ==> final(sink).state() == old(sink).state(),
    decreases old(asks)@.len(), v, 7nat, 0nat,
{
    match ty {
        DescFieldValue::List { element } => match v {
            Value::List(items) => write_items(sink, asks, schema, opts, element, items),
            _ => Err(ErrorOf::Cast { value: v.copy(), to: Expected::List }),
        },
        DescFieldValue::MapOf { key_type, value } => match v {
            Value::Dict(entries) => write_pairs(
                sink,
                asks,
                schema,
                opts,
                key_type,
                value,
                entries,
            ),
            _ => Err(ErrorOf::Cast { value: v.copy(), to: Expected::Dict }),
        },
        DescFieldValue::Scalar { scalar_type } => write_scalar_json(sink, asks, scalar_type, v),
        DescFieldValue::Enum { enum_ } => write_single_json_value(
            sink,
            asks,
            schema,
            opts,
            DescSingleValue::Enum(enum_),
            v,
        ),
        DescFieldValue::Message { message } => write_single_json_value(
            sink,
            asks,
            schema,
            opts,
            DescSingleValue::Message(message),
            v,
        ),
    }
}

/// Writes a single value.
fn write_single_json_value<S: JsonSink>(
    sink: &mut S,
    asks: &mut Answers,
    schema: &Schema,
    opts: &JsonOpts,
    ty: DescSingleValue,
    v: &Value,
) -> (r: Result<(), Error>)
    requires
        json_sink::can_put(old(sink).state()),
    ensures
        wrote_json(
            single_json(*schema, *opts, json_sink::is_text(old(sink).state()), ty, v@, old(asks)@),
            r,
            old(sink).state(),
            final(sink).state(),
            old(asks)@,
            final(asks)@,
        ),
        r is Err && !single_opens(*schema, *opts, ty, v@, old(asks)@)
            ==> final(sink).state() == old(sink).state(),
    decreases old(asks)@.len(), v, 6nat, 0nat,
{
    match ty {
        DescSingleValue::Scalar(scalar) => write_scalar_json(sink, asks, scalar, v),
        DescSingleValue::Enum(enum_) => {
            if enum_ >= schema.enums.len() {
                return Err(ErrorOf::Fixed(Fixed::Shape));
            }
            write_enum_json(sink, asks, opts, &schema.enums[enum_], v)
        },
        DescSingleValue::Message(inner) => {
            if inner >= schema.messages.len() {
                return Err(ErrorOf::Fixed(Fixed::Shape));
            }
            match v {
                Value::Message(m) => {
                    if m.desc != inner {
                        return Err(message_value_type_error(schema, inner, v));
                    }
                    write_json(sink, asks, schema, opts, m)
                },
                _ => Err(message_value_type_error(schema, inner, v)),
            }
        },
    }
}

/// The error of a value that is no message of the expected type.
pub(crate) fn message_value_type_error(schema: &Schema, message: usize, v: &Value) -> (r: Error)
    requires
        message < schema.messages@.len(),
    ensures
        error::fault_of(r) == wrong_message(*schema, message, v@),
{
    let expected: String = schema.messages[message].full_name.clone();
    match v {
        Value::Message(m) => if m.desc < schema.messages.len() {
            ErrorOf::MessageType { expected, actual: schema.messages[m.desc].full_name.clone() }
        } else {
            ErrorOf::Fixed(Fixed::Shape)
        },
        _ => ErrorOf::NotMessage { expected, value: v.copy() },
    }
}

/// Writes a list as an array.
fn write_items<S: JsonSink>(
    sink: &mut S,
    asks: &mut Answers,
    schema: &Schema,
    opts: &JsonOpts,
    element: DescSingleValue,
    items: &Vec<Value>,
) -> (r: Result<(), Error>)
    requires
        json_sink::can_put(old(sink).state()),
    ensures
        wrote_json(
            array_of(
                items_json(
                    *schema,
                    *opts,
                    json_sink::is_text(old(sink).state()),
                    element,
                    value::list_view(items@),
                    0,
                    old(asks)@,
                ),
            ),
            r,
            old(sink).state(),
            final(sink).state(),
            old(asks)@,
            final(asks)@,
        ),
    decreases old(asks)@.len(), items, 3nat, 0nat,
{
    let ghost start = sink.state();
    let ghost is_text = json_sink::is_text(start);
    let ghost asks0 = asks@;
    let ghost all = value::list_view(items@);
    sink.begin_array()?;
    let ghost begun = sink.state();
    let ghost mut done: Seq<Json> = seq![];
    let ghost mut used: nat = 0;
    let mut i: usize = 0;
    proof {
        json_sink::lemma_rest(asks0, 0, 0);
        let written = items_json(*schema, *opts, is_text, element, all, 0, asks0);
        if written is Ok {
            assert(done + written->Ok_0.0 =~= written->Ok_0.0);
        }
    }
    while i < items.len()
        invariant
            i <= items@.len(),
            asks0 == old(asks)@,
            start == old(sink).state(),
            begun == json_sink::begun(start, true),
            is_text == json_sink::is_text(start),
            all == value::list_view(items@),
            sink.state() == json_sink::put_items(begun, done),
            is_text ==> json_sink::items_read_back(done),
            asks@ == json_sink::rest(asks0, used),
            items_json(*schema, *opts, is_text, element, all, 0, asks0) == then_items(
                done,
                used,
                items_json(*schema, *opts, is_text, element, all, i as nat, asks@),
            ),
        decreases items@.len() - i,
    {
        let ghost before = asks@;
        proof {
            json_sink::lemma_rest(asks0, used, 0);
            json_sink::lemma_put_array(start, done);
            assert(decreases_to!(items => items@[i as int]));
        }
        write_single_json_value(sink, asks, schema, opts, element, &items[i])?;
        proof {
            let (j, n) = single_json(*schema, *opts, is_text, element, all[i as int], before)->Ok_0;
            lemma_then_items(
                done,
                used,
                j,
                n,
                items_json(*schema, *opts, is_text, element, all, (i + 1) as nat, asks@),
            );
            json_sink::lemma_rest(asks0, used, n);
            assert(done.push(j).drop_last() =~= done);
            done = done.push(j);
            used = used + n;
        }
        i = i + 1;
    }
    proof {
        assert(done + seq![] =~= done);
        json_sink::lemma_put_array(start, done);
    }
    sink.end_array();
    Ok(())
}

/// Writes a dictionary as an object.
fn write_pairs<S: JsonSink>(
    sink: &mut S,
    asks: &mut Answers,
    schema: &Schema,
    opts: &JsonOpts,
    key_type: ScalarType,
    value: DescSingleValue,
    entries: &Vec<(Value, Value)>,
) -> (r: Result<(), Error>)
    requires
        json_sink::can_put(old(sink).state()),
    ensures
        wrote_json(
            object_of(
                pairs_json(
                    *schema,
                    *opts,
                    json_sink::is_text(old(sink).state()),
                    key_type,
                    value,
                    value::dict_view(entries@),
                    0,
                    old(asks)@,
                ),
            ),
            r,
            old(sink).state(),
            final(sink).state(),
            old(asks)@,
            final(asks)@,
        ),
    decreases old(asks)@.len(), entries, 3nat, 0nat,
{
    let ghost start = sink.state();
    let ghost is_text = json_sink::is_text(start);
    let ghost asks0 = asks@;
    let ghost all = value::dict_view(entries@);
    sink.begin_object()?;
    let ghost begun = sink.state();
    let ghost mut done: Seq<(Seq<char>, Json)> = seq![];
    let ghost mut used: nat = 0;
    let mut i: usize = 0;
    proof {
        json_sink::lemma_rest(asks0, 0, 0);
        let written = pairs_json(*schema, *opts, is_text, key_type, value, all, 0, asks0);
        if written is Ok {
            assert(done + written->Ok_0.0 =~= written->Ok_0.0);
        }
    }
    while i < entries.len()
        invariant
            i <= entries@.len(),
            asks0 == old(asks)@,
            start == old(sink).state(),
            begun == json_sink::begun(start, false),
            is_text == json_sink::is_text(start),
            all == value::dict_view(entries@),
            sink.state() == json_sink::put_entries(begun, done),
            is_text ==> json_sink::entries_read_back(done),
            asks@ == json_sink::rest(asks0, used),
            pairs_json(*schema, *opts, is_text, key_type, value, all, 0, asks0) == then_entries(
                done,
                used,
                pairs_json(*schema, *opts, is_text, key_type, value, all, i as nat, asks@),
            ),
        decreases entries@.len() - i,
    {
        let ghost before = asks@;
        proof {
            json_sink::lemma_rest(asks0, used, 0);
            json_sink::lemma_put_object(start, done);
            assert(decreases_to!(entries => entries@[i as int]));
            assert(all[i as int] == (entries@[i as int].0@, entries@[i as int].1@));
        }
        write_map_key(sink, asks, key_type, &entries[i].0)?;
        let ghost keyed = map_key_text(key_type, all[i as int].0, before)->Ok_0;
        proof {
            json_sink::lemma_keyed(json_sink::put_entries(begun, done), keyed.0);
            json_sink::lemma_rest(before, keyed.1, 0);
        }
        let ghost middle = asks@;
        write_single_json_value(sink, asks, schema, opts, value, &entries[i].1)?;
        proof {
            let (j, n) = single_json(*schema, *opts, is_text, value, all[i as int].1, middle)->Ok_0;
            let e = (keyed.0, j);
            json_sink::lemma_rest(before, keyed.1, n);
            lemma_then_entries(
                done,
                used,
                e,
                keyed.1 + n,
                pairs_json(
                    *schema,
                    *opts,
                    is_text,
                    key_type,
                    value,
                    all,
                    (i + 1) as nat,
                    asks@,
                ),
            );
            json_sink::lemma_rest(asks0, used, keyed.1 + n);
            assert(done.push(e).drop_last() =~= done);
            done = done.push(e);
            used = used + keyed.1 + n;
        }
        i = i + 1;
    }
    proof {
        assert(done + seq![] =~= done);
        json_sink::lemma_put_object(start, done);
    }
    sink.end_object();
    Ok(())
}

fn find_single_type(value: DescFieldValue) -> (r: Option<DescSingleValue>)
    ensures
        r == single_type(value),
{
    match value {
        DescFieldValue::Scalar { scalar_type } => Some(DescSingleValue::Scalar(scalar_type)),
        DescFieldValue::Enum { enum_ } => Some(DescSingleValue::Enum(enum_)),
        DescFieldValue::Message { message } => Some(DescSingleValue::Message(message)),
        DescFieldValue::List { element } => Some(element),
        DescFieldValue::MapOf { .. } => None,
    }
}

/// Writes a `Struct`.
fn write_struct<S: JsonSink>(
    sink: &mut S,
    asks: &mut Answers,
    schema: &Schema,
    opts: &JsonOpts,
    message: &Message,
    desc: &DescMessage,
    fields: usize,
) -> (r: Result<(), Error>)
    requires
        json_sink::can_put(old(sink).state()),
        message.desc < schema.messages@.len(),
        *desc == schema.messages@[message.desc as int],
        desc.wkt == (WktKind::Struct { fields }),
    ensures
        wrote_json(
            message_json(*schema, *opts, json_sink::is_text(old(sink).state()), message@, old(asks)@),
            r,
            old(sink).state(),
            final(sink).state(),
            old(asks)@,
            final(asks)@,
        ),
        r is Err && !message_opens(*schema, *opts, message@, old(asks)@)
            ==> final(sink).state() == old(sink).state(),
    decreases old(asks)@.len(), message, 8nat, 0nat,
{
    if fields >= desc.fields.len() {
        return Err(ErrorOf::Fixed(Fixed::Shape));
    }
    match desc.fields[fields].value {
        DescFieldValue::MapOf { value, .. } => {
            if fields >= message.attrs.len() {
                return Err(ErrorOf::Fixed(Fixed::Shape));
            }
            assert(decreases_to!(message => message.attrs@[fields as int]));
            match &message.attrs[fields] {
                Value::Dict(entries) => write_pairs(
                    sink,
                    asks,
                    schema,
                    opts,
                    ScalarType::String,
                    value,
                    entries,
                ),
                other => Err(ErrorOf::Cast { value: other.copy(), to: Expected::Dict }),
            }
        },
        _ => Err(ErrorOf::Fixed(Fixed::StructMap)),
    }
}

/// Writes a `ListValue`.
fn write_list_value<S: JsonSink>(
    sink: &mut S,
    asks: &mut Answers,
    schema: &Schema,
    opts: &JsonOpts,
    message: &Message,
    desc: &DescMessage,
    values: usize,
) -> (r: Result<(), Error>)
    requires
        json_sink::can_put(old(sink).state()),
        message.desc < schema.messages@.len(),
        *desc == schema.messages@[message.desc as int],
        desc.wkt == (WktKind::ListValue { values }),
    ensures
        wrote_json(
            message_json(*schema, *opts, json_sink::is_text(old(sink).state()), message@, old(asks)@),
            r,
            old(sink).state(),
            final(sink).state(),
            old(asks)@,
            final(asks)@,
        ),
        r is Err && !message_opens(*schema, *opts, message@, old(asks)@)
            ==> final(sink).state() == old(sink).state(),
    decreases old(asks)@.len(), message, 8nat, 0nat,
{
    if values >= desc.fields.len() {
        return Err(ErrorOf::Fixed(Fixed::Shape));
    }
    let element: DescSingleValue = match find_single_type(desc.fields[values].value) {
        Some(element) => element,
        None => {
            return Err(ErrorOf::Fixed(Fixed::Shape));
        },
    };
    if values >= message.attrs.len() {
        return Err(ErrorOf::Fixed(Fixed::Shape));
    }
    assert(decreases_to!(message => message.attrs@[values as int]));
    match &message.attrs[values] {
        Value::List(items) => write_items(sink, asks, schema, opts, element, items),
        other => Err(ErrorOf::Cast { value: other.copy(), to: Expected::List }),
    }
}

/// Writes a `Value`. One that holds nothing, or a number that is not finite, leaves the sink as it
/// was.
fn write_value<S: JsonSink>(
    sink: &mut S,
    asks: &mut Answers,
    schema: &Schema,
    opts: &JsonOpts,
    message: &Message,
    desc: &DescMessage,
) -> (r: Result<(), Error>)
    requires
        json_sink::can_put(old(sink).state()),
        message.desc < schema.messages@.len(),
        *desc == schema.messages@[message.desc as int],
        desc.wkt is Value,
    ensures
        wrote_json(
            message_json(*schema, *opts, json_sink::is_text(old(sink).state()), message@, old(asks)@),
            r,
            old(sink).state(),
            final(sink).state(),
            old(asks)@,
            final(asks)@,
        ),
        r is Err && !message_opens(*schema, *opts, message@, old(asks)@)
            ==> final(sink).state() == old(sink).state(),
    decreases old(asks)@.len(), message, 8nat, 0nat,
{
    let (null_value, struct_value, list_value): (usize, usize, usize) = match desc.wkt {
        WktKind::Value { null_value, struct_value, list_value, .. } => (
            null_value,
            struct_value,
            list_value,
        ),
        _ => {
            return Err(ErrorOf::Fixed(Fixed::ValueUnset));
        },
    };
    if null_value >= desc.fields.len() {
        return Err(ErrorOf::Fixed(Fixed::Shape));
    }
    let o: usize = match desc.fields[null_value].oneof {
        Some(o) => o,
        None => {
            return Err(ErrorOf::Fixed(Fixed::ValueUnset));
        },
    };
    if o >= message.oneofs.len() {
        return Err(ErrorOf::Fixed(Fixed::Shape));
    }
    match &message.oneofs[o] {
        None => Err(ErrorOf::Fixed(Fixed::ValueUnset)),
        Some(oneof) => {
            assert(decreases_to!(message => message.oneofs@[o as int]));
            write_kind(
                sink,
                asks,
                schema,
                opts,
                desc,
                oneof.field.as_str(),
                &oneof.value,
                struct_value,
                list_value,
            )
        },
    }
}

/// Writes what a `Value` holds.
fn write_kind<S: JsonSink>(
    sink: &mut S,
    asks: &mut Answers,
    schema: &Schema,
    opts: &JsonOpts,
    desc: &DescMessage,
    name: &str,
    v: &Value,
    struct_value: usize,
    list_value: usize,
) -> (r: Result<(), Error>)
    requires
        json_sink::can_put(old(sink).state()),
    ensures
        wrote_json(
            kind_json(
                *schema,
                *opts,
                json_sink::is_text(old(sink).state()),
                *desc,
                name@,
                v@,
                struct_value,
                list_value,
                old(asks)@,
            ),
            r,
            old(sink).state(),
            final(sink).state(),
            old(asks)@,
            final(asks)@,
        ),
        r is Err && !kind_opens(
            *schema,
            *opts,
            *desc,
            name@,
            v@,
            struct_value,
            list_value,
            old(asks)@,
        ) ==> final(sink).state() == old(sink).state(),
    decreases old(asks)@.len(), v, 7nat, 0nat,
{
    proof {
        json_sink::lemma_rest(asks@, 0, 0);
    }
    if same_text(name, "null_value") {
        return sink.null();
    }
    if same_text(name, "number_value") {
        let bits: u64 = double_of_value(v)?;
        if !double_is_finite(bits) {
            return Err(ErrorOf::Fixed(Fixed::ValueNotFinite));
        }
        return sink.py_number(v, asks);
    }
    if same_text(name, "string_value") {
        return match v {
            Value::Str(s) => sink.str(s.as_str()),
            _ => Err(ErrorOf::Cast { value: v.copy(), to: Expected::Str }),
        };
    }
    if same_text(name, "bool_value") {
        return match extract_truth(v) {
            Some(b) => sink.bool(b),
            None => Err(ErrorOf::Cast { value: v.copy(), to: Expected::Bool }),
        };
    }
    let i: usize = if same_text(name, "struct_value") {
        struct_value
    } else if same_text(name, "list_value") {
        list_value
    } else {
        return Err(ErrorOf::Fixed(Fixed::ValueUnset));
    };
    if i >= desc.fields.len() {
        return Err(ErrorOf::Fixed(Fixed::Shape));
    }
    match find_single_type(desc.fields[i].value) {
        Some(ty) => write_single_json_value(sink, asks, schema, opts, ty, v),
        None => Err(ErrorOf::Fixed(Fixed::Shape)),
    }
}

/// The type URL of an `Any` and the message type that it names; none if the URL is empty.
fn find_any_target(schema: &Schema, opts: &JsonOpts, message: &Message, type_url: usize) -> (r: Result<
    Option<(String, usize)>,
    Error,
>)
    ensures
        match any_target(*schema, *opts, message@, type_url) {
            Ok(Some((url, inner))) => r is Ok && r->Ok_0 is Some && r->Ok_0->Some_0.0@ == url
                && r->Ok_0->Some_0.1 == inner,
            Ok(None) => r is Ok && r->Ok_0 is None,
            Err(f) => r is Err && error::fault_of(r->Err_0) == f,
        },
{
    if type_url >= message.attrs.len() {
        return Err(ErrorOf::Fixed(Fixed::Shape));
    }
    let url: String = match &message.attrs[type_url] {
        Value::Str(url) => url.clone(),
        other => {
            return Err(ErrorOf::Cast { value: other.copy(), to: Expected::Str });
        },
    };
    let chars: Vec<char> = chars_of(url.as_str());
    if chars.len() == 0 {
        return Ok(None);
    }
    if opts.registry.is_none() {
        return Err(ErrorOf::AnyWithoutRegistry { url });
    }
    let name: String = type_url_to_name(url.as_str())?;
    match find_registered(&opts.registry, name.as_str()) {
        None => Err(ErrorOf::AnyNotRegistered { url }),
        Some(inner) => if inner < schema.messages.len() {
            Ok(Some((url, inner)))
        } else {
            Err(ErrorOf::Fixed(Fixed::Shape))
        },
    }
}

/// The name in a type URL.
pub fn type_url_to_name(url: &str) -> (r: Result<String, Error>)
    ensures
        error::text_outcome(r) == if json_parse::url_name(url@).len() == 0 {
            Err::<Seq<char>, Fault>(Fault::InvalidTypeUrl { url: url@ })
        } else {
            Ok(json_parse::url_name(url@))
        },
{
    let name: String = name_of_url(url);
    let chars: Vec<char> = chars_of(name.as_str());
    if chars.len() == 0 {
        return Err(ErrorOf::InvalidTypeUrl { url: url.to_owned() });
    }
    Ok(name)
}

/// Writes an `Any`. One whose type is not found, or whose message cannot be unpacked, leaves the
/// sink as it was.
fn write_any<S: JsonSink>(
    sink: &mut S,
    asks: &mut Answers,
    schema: &Schema,
    opts: &JsonOpts,
    message: &Message,
    type_url: usize,
    value: usize,
) -> (r: Result<(), Error>)
    requires
        json_sink::can_put(old(sink).state()),
    ensures
        wrote_json(
            any_json(
                *schema,
                *opts,
                json_sink::is_text(old(sink).state()),
                message@,
                type_url,
                value,
                old(asks)@,
            ),
            r,
            old(sink).state(),
            final(sink).state(),
            old(asks)@,
            final(asks)@,
        ),
        any_target(*schema, *opts, message@, type_url) is Err
            ==> final(sink).state() == old(sink).state(),
        r is Err && !any_opens(*schema, *opts, message@, type_url, value, old(asks)@)
            ==> final(sink).state() == old(sink).state(),
    decreases old(asks)@.len(), message, 8nat, 0nat,
{
    proof {
        json_sink::lemma_rest(asks@, 0, 0);
        json_sink::lemma_put_object(sink.state(), seq![]);
    }
    let (url, inner): (String, usize) = match find_any_target(schema, opts, message, type_url)? {
        Some(target) => target,
        None => {
            sink.begin_object()?;
            sink.end_object();
            return Ok(());
        },
    };
    if value >= message.attrs.len() {
        return Err(ErrorOf::Fixed(Fixed::Shape));
    }
    let data: Vec<u8> = extract_any_bytes(&message.attrs[value])?;
    let ghost asks0 = asks@;
    match asks.take(QuestionOf::Unpack { desc: inner, data })? {
        AnswerOf::Message(unpacked) => {
            if unpacked.desc != inner {
                return Err(ErrorOf::Fixed(Fixed::Answer));
            }
            assert(asks@ == json_sink::rest(asks0, 1));
            write_any_content(sink, asks, schema, opts, url.as_str(), &unpacked)?;
            proof {
                let n = any_content_json(
                    *schema,
                    *opts,
                    json_sink::is_text(old(sink).state()),
                    url@,
                    unpacked@,
                    json_sink::rest(asks0, 1),
                )->Ok_0.1;
                json_sink::lemma_rest(asks0, 1, (n - 1) as nat);
            }
            Ok(())
        },
        _ => Err(ErrorOf::Fixed(Fixed::Answer)),
    }
}

/// Writes the member with the type URL of an `Any`.
fn write_type_entry<S: JsonSink>(
    sink: &mut S,
    url: &str,
    Ghost(object): Ghost<SinkState>,
    Ghost(entries): Ghost<Seq<(Seq<char>, Json)>>,
) -> (r: Result<(), Error>)
    requires
        old(sink).state() == json_sink::put_entries(json_sink::begun(object, false), entries),
    ensures
        r is Ok,
        final(sink).state() == json_sink::put_entries(
            json_sink::begun(object, false),
            entries.push(("@type"@, Json::Str(url@))),
        ),
{
    proof {
        json_sink::lemma_put_object(object, entries);
        json_sink::lemma_keyed(sink.state(), "@type"@);
        json_sink::lemma_put_entry(
            json_sink::begun(object, false),
            entries,
            "@type"@,
            Json::Str(url@),
        );
    }
    sink.key("@type")?;
    sink.str(url)
}

/// Writes an `Any` whose message has no JSON form of its own: the members of the message, and
/// behind them the type URL.
fn write_inlined<S: JsonSink>(
    sink: &mut S,
    asks: &mut Answers,
    schema: &Schema,
    opts: &JsonOpts,
    url: &str,
    inner: &Message,
    desc: &DescMessage,
) -> (r: Result<(), Error>)
    requires
        json_sink::can_put(old(sink).state()),
    ensures
        match members_json(
            *schema,
            *opts,
            json_sink::is_text(old(sink).state()),
            inner@,
            *desc,
            old(asks)@,
        ) {
            Ok((entries, n)) => r is Ok && final(sink).state() == json_sink::put(
                old(sink).state(),
                Json::Object(entries.push(("@type"@, Json::Str(url@)))),
            ) && final(asks)@ == json_sink::rest(old(asks)@, n) && (json_sink::is_text(
                old(sink).state(),
            ) ==> json_sink::doubles_read_back(
                Json::Object(entries.push(("@type"@, Json::Str(url@)))),
            )),
            Err(f) => r is Err && error::fault_of(r->Err_0) == f,
        },
    decreases old(asks)@.len(), inner, 9nat, 0nat,
{
    let ghost start = sink.state();
    sink.begin_object()?;
    proof {
        json_sink::lemma_put_object(start, seq![]);
    }
    write_message_fields(sink, asks, schema, opts, inner, desc)?;
    let ghost entries = members_json(
        *schema,
        *opts,
        json_sink::is_text(start),
        inner@,
        *desc,
        old(asks)@,
    )->Ok_0.0;
    write_type_entry(sink, url, Ghost(start), Ghost(entries))?;
    proof {
        json_sink::lemma_put_object(start, entries.push(("@type"@, Json::Str(url@))));
        json_sink::lemma_entry_reads_back(entries, ("@type"@, Json::Str(url@)));
    }
    sink.end_object();
    Ok(())
}

/// Writes an `Any` whose message has a JSON form of its own: the type URL, and the form as the
/// member `value`.
fn write_wrapped<S: JsonSink>(
    sink: &mut S,
    asks: &mut Answers,
    schema: &Schema,
    opts: &JsonOpts,
    url: &str,
    inner: &Message,
) -> (r: Result<(), Error>)
    requires
        json_sink::can_put(old(sink).state()),
    ensures
        match message_json(
            *schema,
            *opts,
            json_sink::is_text(old(sink).state()),
            inner@,
            old(asks)@,
        ) {
            Ok((j, n)) => r is Ok && final(sink).state() == json_sink::put(
                old(sink).state(),
                Json::Object(seq![("@type"@, Json::Str(url@)), ("value"@, j)]),
            ) && final(asks)@ == json_sink::rest(old(asks)@, n) && (json_sink::is_text(
                old(sink).state(),
            ) ==> json_sink::doubles_read_back(
                Json::Object(seq![("@type"@, Json::Str(url@)), ("value"@, j)]),
            )),
            Err(f) => r is Err && error::fault_of(r->Err_0) == f,
        },
    decreases old(asks)@.len(), inner, 10nat, 0nat,
{
    let ghost start = sink.state();
    let ghost begun = json_sink::begun(start, false);
    let ghost none: Seq<(Seq<char>, Json)> = seq![];
    let ghost one = none.push(("@type"@, Json::Str(url@)));
    sink.begin_object()?;
    write_type_entry(sink, url, Ghost(start), Ghost(none))?;
    proof {
        json_sink::lemma_put_object(start, one);
        json_sink::lemma_keyed(sink.state(), "value"@);
    }
    sink.key("value")?;
    write_json(sink, asks, schema, opts, inner)?;
    proof {
        let j = message_json(
            *schema,
            *opts,
            json_sink::is_text(start),
            inner@,
            old(asks)@,
        )->Ok_0.0;
        let two = one.push(("value"@, j));
        json_sink::lemma_put_entry(begun, one, "value"@, j);
        json_sink::lemma_put_object(start, two);
        assert(two =~= seq![("@type"@, Json::Str(url@)), ("value"@, j)]);
        json_sink::lemma_entry_reads_back(none, ("@type"@, Json::Str(url@)));
        json_sink::lemma_entry_reads_back(one, ("value"@, j));
    }
    sink.end_object();
    Ok(())
}

/// Writes an `Any` that holds a message.
fn write_any_content<S: JsonSink>(
    sink: &mut S,
    asks: &mut Answers,
    schema: &Schema,
    opts: &JsonOpts,
    url: &str,
    inner: &Message,
) -> (r: Result<(), Error>)
    requires
        json_sink::can_put(old(sink).state()),
    ensures
        match any_content_json(
            *schema,
            *opts,
            json_sink::is_text(old(sink).state()),
            url@,
            inner@,
            old(asks)@,
        ) {
            Ok((j, n)) => r is Ok && final(sink).state() == json_sink::put(old(sink).state(), j) && n
                >= 1 && final(asks)@ == json_sink::rest(old(asks)@, (n - 1) as nat) && (
            json_sink::is_text(old(sink).state()) ==> json_sink::doubles_read_back(j)),
            Err(f) => r is Err && error::fault_of(r->Err_0) == f,
        },
    decreases old(asks)@.len(), inner, 11nat, 0nat,
{
    if inner.desc >= schema.messages.len() {
        return Err(ErrorOf::Fixed(Fixed::Shape));
    }
    let desc: &DescMessage = &schema.messages[inner.desc];
    if matches!(desc.wkt, WktKind::Ordinary) {
        write_inlined(sink, asks, schema, opts, url, inner, desc)
    } else {
        write_wrapped(sink, asks, schema, opts, url, inner)
    }
}

/// The JSON text of a message. A message that reading can yield is read back from it, by a host
/// that gives back what it was handed, if the texts that it gave for numbers are read again. A
/// message without extension fields, written without the host's help, is read back without it.
pub fn to_json_string(
    schema: &Schema,
    opts: &JsonOpts,
    message: &Message,
    asks: &mut Answers,
) -> (r: Result<String, Error>)
    ensures
        match message_json(*schema, *opts, true, message@, old(asks)@) {
            Ok((j, n)) => r is Ok && r->Ok_0@ == json_sink::json_text(j) && final(asks)@
                == json_sink::rest(old(asks)@, n) && json_sink::doubles_read_back(j),
            Err(f) => r is Err && error::fault_of(r->Err_0) == f,
        },
        r is Ok && round_trip::schema_ok(*schema) && (old(asks)@.len() > 0
            ==> json_sink::asked_read_back(
            message_json(*schema, *opts, true, message@, old(asks)@)->Ok_0.0,
        )) ==> forall|ropts: FromJsonOpts, more: Seq<Ans>|
            round_trip::readable(*schema, *opts, ropts, message@, 0) && round_trip::answers_ok(
                *schema,
                *opts,
                ropts,
                old(asks)@,
            ) ==> #[trigger] json_parse::text_merging(
                *schema,
                ropts,
                json_parse::empty_msg(*schema, message@.desc),
                utf8::encode_utf8(r->Ok_0@),
                replies::message_replies(*schema, *opts, true, message@, old(asks)@) + more,
            ) == (message@, Ok::<Seq<Ans>, Fault>(more)),
        r is Ok && round_trip::schema_ok(*schema) && old(asks)@.len() == 0 && replies::unextended(
            message@,
        ) ==> forall|ropts: FromJsonOpts|
            round_trip::readable(*schema, *opts, ropts, message@, 0)
                ==> #[trigger] json_parse::text_merging(
                *schema,
                ropts,
                json_parse::empty_msg(*schema, message@.desc),
                utf8::encode_utf8(r->Ok_0@),
                seq![],
            ) == (message@, Ok::<Seq<Ans>, Fault>(seq![])),
{
    let mut sink: StringSink = StringSink::new();
    write_json(&mut sink, asks, schema, opts, message)?;
    let text: String = sink.finish();
    proof {
        let j = message_json(*schema, *opts, true, message@, old(asks)@)->Ok_0.0;
        let given = replies::message_replies(*schema, *opts, true, message@, old(asks)@);
        assert(seq![] + json_sink::value_comma(seq![]) + json_sink::json_text(j)
            =~= json_sink::json_text(j));
        if round_trip::schema_ok(*schema) && (old(asks)@.len() > 0
            ==> json_sink::asked_read_back(j)) {
            assert forall|ropts: FromJsonOpts, more: Seq<Ans>|
                round_trip::readable(*schema, *opts, ropts, message@, 0) && round_trip::answers_ok(
                    *schema,
                    *opts,
                    ropts,
                    old(asks)@,
                ) implies #[trigger] json_parse::text_merging(
                *schema,
                ropts,
                json_parse::empty_msg(*schema, message@.desc),
                utf8::encode_utf8(text@),
                given + more,
            ) == (message@, Ok::<Seq<Ans>, Fault>(more)) by {
                round_trip::lemma_text_read_back(
                    *schema,
                    *opts,
                    ropts,
                    message@,
                    old(asks)@,
                    more,
                );
            }
        }
        if round_trip::schema_ok(*schema) && old(asks)@.len() == 0 && replies::unextended(message@) {
            assert forall|ropts: FromJsonOpts|
                round_trip::readable(
                    *schema,
                    *opts,
                    ropts,
                    message@,
                    0,
                ) implies #[trigger] json_parse::text_merging(
                *schema,
                ropts,
                json_parse::empty_msg(*schema, message@.desc),
                utf8::encode_utf8(text@),
                seq![],
            ) == (message@, Ok::<Seq<Ans>, Fault>(seq![])) by {
                round_trip::lemma_text_alone(*schema, *opts, ropts, message@, old(asks)@);
            }
        }
    }
    Ok(text)
}

/// The JSON tree of a message. A message that reading can yield is read back from it, by a host
/// that gives back what it was handed. A message without extension fields, written without the
/// host's help, is read back without it.
pub fn to_json_value(
    schema: &Schema,
    opts: &JsonOpts,
    message: &Message,
    asks: &mut Answers,
) -> (r: Result<Value, Error>)
    ensures
        match message_json(*schema, *opts, false, message@, old(asks)@) {
            Ok((j, n)) => r is Ok && r->Ok_0@ == json_sink::json_val(j) && final(asks)@
                == json_sink::rest(old(asks)@, n),
            Err(f) => r is Err && error::fault_of(r->Err_0) == f,
        },
        r is Ok && round_trip::schema_ok(*schema) ==> forall|
            ropts: FromJsonOpts,
            more: Seq<Ans>,
        |
            round_trip::readable(*schema, *opts, ropts, message@, 0) && round_trip::answers_ok(
                *schema,
                *opts,
                ropts,
                old(asks)@,
            ) ==> #[trigger] json_parse::tree_merging(
                *schema,
                ropts,
                json_parse::empty_msg(*schema, message@.desc),
                r->Ok_0@,
                replies::message_replies(*schema, *opts, false, message@, old(asks)@) + more,
            ) == (message@, Ok::<Seq<Ans>, Fault>(more)),
        r is Ok && round_trip::schema_ok(*schema) && old(asks)@.len() == 0 && replies::unextended(
            message@,
        ) ==> forall|ropts: FromJsonOpts|
            round_trip::readable(*schema, *opts, ropts, message@, 0)
                ==> #[trigger] json_parse::tree_merging(
                *schema,
                ropts,
                json_parse::empty_msg(*schema, message@.desc),
                r->Ok_0@,
                seq![],
            ) == (message@, Ok::<Seq<Ans>, Fault>(seq![])),
{
    let mut sink: PyValueSink = PyValueSink::new();
    write_json(&mut sink, asks, schema, opts, message)?;
    proof {
        if round_trip::schema_ok(*schema) {
            let j = message_json(*schema, *opts, false, message@, old(asks)@)->Ok_0.0;
            let given = replies::message_replies(*schema, *opts, false, message@, old(asks)@);
            assert forall|ropts: FromJsonOpts, more: Seq<Ans>|
                round_trip::readable(*schema, *opts, ropts, message@, 0) && round_trip::answers_ok(
                    *schema,
                    *opts,
                    ropts,
                    old(asks)@,
                ) implies #[trigger] json_parse::tree_merging(
                *schema,
                ropts,
                json_parse::empty_msg(*schema, message@.desc),
                json_sink::json_val(j),
                given + more,
            ) == (message@, Ok::<Seq<Ans>, Fault>(more)) by {
                round_trip::lemma_value_read_back(
                    *schema,
                    *opts,
                    ropts,
                    message@,
                    old(asks)@,
                    more,
                );
            }
            if old(asks)@.len() == 0 && replies::unextended(message@) {
                assert forall|ropts: FromJsonOpts|
                    round_trip::readable(
                        *schema,
                        *opts,
                        ropts,
                        message@,
                        0,
                    ) implies #[trigger] json_parse::tree_merging(
                    *schema,
                    ropts,
                    json_parse::empty_msg(*schema, message@.desc),
                    json_sink::json_val(j),
                    seq![],
                ) == (message@, Ok::<Seq<Ans>, Fault>(seq![])) by {
                    round_trip::lemma_value_alone(*schema, *opts, ropts, message@, old(asks)@);
                }
            }
        }
    }
    sink.finish()
}

} // verus!
