//! Reading messages from JSON.

use vstd::prelude::*;
use vstd::string::*;
use crate::descriptor;
use crate::descriptor::{
    find_extension, find_name, zero_value, DescEnum, DescField, DescFieldValue, DescMessage,
    DescSingleValue, Extension, Registry, ScalarType, Schema,
};
use crate::error;
use crate::error::{Error, ErrorOf, Expected, Fault, FieldFaultOf, Fixed};
use crate::field_mask;
use crate::field_mask::read_mask;
use crate::integer::Integer;
use crate::json_scalars;
use crate::json_scalars::{
    field_error, read_enum, read_json_value, read_map_key, read_scalar, St,
};
use crate::json_serialize;
use crate::json_serialize::message_value_type_error;
use crate::json_source;
use crate::json_source::{
    Entries, Items, JiterSource, JsonKind, JsonSource, PyTreeSource, Source, SrcState,
};
use crate::json_text;
use crate::question;
use crate::question::{Ans, Answer, AnswerOf, Answers, QuestionOf};
use crate::text::{chars_of, same_text, text_between};
use crate::value;
use crate::value::{find_key, set_entry, Message, Msg, Oneof, Unknown, Val, Value};
use crate::wkt::WktKind;
use crate::wkt_json;
use crate::wkt_json::{parse_duration, parse_timestamp};

verus! {

/// How deep messages may be nested.
pub const DEPTH_LIMIT: usize = 100;

/// Options for reading JSON.
pub struct FromJsonOpts {
    /// Pass over unknown keys and unknown enum values.
    pub ignore_unknown_fields: bool,
    pub registry: Option<Registry>,
}

pub open spec fn shape() -> Fault {
    Fault::Fixed(Fixed::Shape)
}

/// The value of a field that was never set.
pub open spec fn default_attr(schema: Schema, field: DescField) -> Val {
    if field.oneof is Some {
        Val::Null
    } else {
        match field.value {
            DescFieldValue::Scalar { scalar_type } => descriptor::zero_val(scalar_type),
            DescFieldValue::Enum { enum_ } => Val::Int(enum_zero(schema, enum_)),
            DescFieldValue::Message { .. } => Val::Null,
            DescFieldValue::List { .. } => Val::List(seq![]),
            DescFieldValue::MapOf { .. } => Val::Dict(seq![]),
        }
    }
}

/// The number of the first declared value of an enum.
pub open spec fn enum_zero(schema: Schema, enum_: usize) -> int {
    if enum_ < schema.enums@.len() {
        schema.enums@[enum_ as int].zero as int
    } else {
        0
    }
}

/// A message of the given type without any fields set.
pub open spec fn empty_msg(schema: Schema, desc: usize) -> Msg {
    let fields = schema.messages@[desc as int].fields@;
    Msg {
        desc,
        attrs: Seq::new(fields.len(), |i: int| default_attr(schema, fields[i])),
        present: Seq::new(fields.len(), |i: int| false),
        oneofs: Seq::new(schema.messages@[desc as int].oneof_count as nat, |i: int| None),
        unknown: seq![],
    }
}

pub open spec fn set_attr(m: Msg, i: int, v: Val) -> Msg {
    Msg { attrs: m.attrs.update(i, v), ..m }
}

/// A message with a singular field set.
pub open spec fn assigned(m: Msg, field: DescField, i: int, v: Val) -> Result<Msg, Fault> {
    match field.oneof {
        Some(o) => if o < m.oneofs.len() {
            Ok(Msg { oneofs: m.oneofs.update(o as int, Some((field.local_name@, v))), ..m })
        } else {
            Err(shape())
        },
        None => if i < m.attrs.len() && i < m.present.len() {
            Ok(
                Msg {
                    attrs: m.attrs.update(i, v),
                    present: if field.requires_presence {
                        m.present.update(i, true)
                    } else {
                        m.present
                    },
                    ..m
                },
            )
        } else {
            Err(shape())
        },
    }
}

/// A message with a singular field cleared. A oneof that holds another field stays as it is.
pub open spec fn cleared(m: Msg, field: DescField, i: int, default: Val) -> Result<Msg, Fault> {
    match field.oneof {
        Some(o) => if o < m.oneofs.len() {
            match m.oneofs[o as int] {
                Some((name, _)) => if name == field.local_name@ {
                    Ok(Msg { oneofs: m.oneofs.update(o as int, None), ..m })
                } else {
                    Ok(m)
                },
                None => Ok(m),
            }
        } else {
            Err(shape())
        },
        None => if i < m.attrs.len() && i < m.present.len() {
            Ok(
                Msg {
                    attrs: m.attrs.update(i, default),
                    present: m.present.update(i, false),
                    ..m
                },
            )
        } else {
            Err(shape())
        },
    }
}

/// The message that a singular field holds, if it holds one. Anything but a message of the field's
/// type is refused.
pub open spec fn held(schema: Schema, m: Msg, field: DescField, i: int, message: usize) -> Result<
    Option<Msg>,
    Fault,
> {
    let v = match field.oneof {
        Some(o) => if o < m.oneofs.len() {
            match m.oneofs[o as int] {
                Some((name, v)) => if name == field.local_name@ {
                    Ok(v)
                } else {
                    Ok(Val::Null)
                },
                None => Ok(Val::Null),
            }
        } else {
            Err(shape())
        },
        None => if i < m.attrs.len() {
            Ok(m.attrs[i])
        } else {
            Err(shape())
        },
    };
    match v {
        Ok(Val::Null) => Ok(None),
        Ok(v) => match v {
            Val::Message(inner) => if inner.desc == message {
                Ok(Some(inner))
            } else {
                Err(json_serialize::wrong_message(schema, message, v))
            },
            _ => Err(json_serialize::wrong_message(schema, message, v)),
        },
        Err(f) => Err(f),
    }
}

/// A message with another message in the place of the one that a field holds.
pub open spec fn held_put(m: Msg, field: DescField, i: int, inner: Msg) -> Msg {
    match field.oneof {
        Some(o) => Msg {
            oneofs: m.oneofs.update(
                o as int,
                Some((m.oneofs[o as int]->Some_0.0, Val::Message(inner))),
            ),
            ..m
        },
        None => set_attr(m, i, Val::Message(inner)),
    }
}

/// The string of a well-known type that is one in JSON.
pub open spec fn wkt_string(s: SrcState, desc: DescMessage) -> Result<(Seq<char>, SrcState), Fault> {
    match json_source::peeked(s) {
        Err(f) => Err(f),
        Ok(JsonKind::String) => json_source::string_read(s),
        Ok(_) => cannot_decode(s, desc.full_name@),
    }
}

/// The result of meeting a JSON value that a message type cannot be read from.
pub open spec fn cannot_decode<T>(s: SrcState, name: Seq<char>) -> Result<T, Fault> {
    match json_scalars::value_reading(s) {
        Ok((v, _)) => Err(Fault::CannotDecode { name, value: v }),
        Err(f) => Err(f),
    }
}

/// Sets the two fields of a timestamp or duration.
pub open spec fn seconds_nanos_set(m: Msg, seconds: usize, nanos: usize, at: (i64, i32)) -> Result<
    Msg,
    Fault,
> {
    if seconds < m.attrs.len() && nanos < m.attrs.len() {
        Ok(
            set_attr(
                set_attr(m, seconds as int, Val::Int(at.0 as int)),
                nanos as int,
                Val::Int(at.1 as int),
            ),
        )
    } else {
        Err(shape())
    }
}

/// A message and an outcome from the outcome of a change.
pub open spec fn changed(m: Msg, change: Result<Msg, Fault>, st: St) -> (Msg, Result<St, Fault>) {
    match change {
        Ok(m2) => (m2, Ok(st)),
        Err(f) => (m, Err(f)),
    }
}

pub open spec fn timestamp_reading(
    m: Msg,
    desc: DescMessage,
    seconds: usize,
    nanos: usize,
    st: St,
) -> (Msg, Result<St, Fault>) {
    match wkt_string(st.src, desc) {
        Err(f) => (m, Err(f)),
        Ok((t, src)) => match wkt_json::timestamp_value(desc.full_name@, t) {
            Err(f) => (m, Err(f)),
            Ok(at) => changed(
                m,
                seconds_nanos_set(m, seconds, nanos, at),
                St { src, asks: st.asks },
            ),
        },
    }
}

pub open spec fn duration_reading(
    m: Msg,
    desc: DescMessage,
    seconds: usize,
    nanos: usize,
    st: St,
) -> (Msg, Result<St, Fault>) {
    match wkt_string(st.src, desc) {
        Err(f) => (m, Err(f)),
        Ok((t, src)) => match wkt_json::duration_value(desc.full_name@, t) {
            Err(f) => (m, Err(f)),
            Ok(at) => changed(
                m,
                seconds_nanos_set(m, seconds, nanos, at),
                St { src, asks: st.asks },
            ),
        },
    }
}

/// The items of a list field.
pub open spec fn list_attr(m: Msg, i: int) -> Result<Seq<Val>, Fault> {
    if i < m.attrs.len() {
        match m.attrs[i] {
            Val::List(items) => Ok(items),
            v => Err(Fault::Cast { value: v, to: Expected::List }),
        }
    } else {
        Err(shape())
    }
}

/// The entries of a map field.
pub open spec fn dict_attr(m: Msg, i: int) -> Result<Seq<(Val, Val)>, Fault> {
    if i < m.attrs.len() {
        match m.attrs[i] {
            Val::Dict(entries) => Ok(entries),
            v => Err(Fault::Cast { value: v, to: Expected::Dict }),
        }
    } else {
        Err(shape())
    }
}

pub open spec fn field_mask_reading(m: Msg, desc: DescMessage, paths: usize, st: St) -> (
    Msg,
    Result<St, Fault>,
) {
    match wkt_string(st.src, desc) {
        Err(f) => (m, Err(f)),
        Ok((t, src)) => if t.len() == 0 {
            (m, Ok(St { src, asks: st.asks }))
        } else {
            match list_attr(m, paths as int) {
                Err(f) => (m, Err(f)),
                Ok(items) => {
                    let (added, fault) = field_mask::mask_paths(desc.full_name@, t);
                    (
                        set_attr(m, paths as int, Val::List(items + added)),
                        match fault {
                            Some(f) => Err(f),
                            None => Ok(St { src, asks: st.asks }),
                        },
                    )
                },
            }
        },
    }
}

pub open spec fn wrapper_reading(
    m: Msg,
    desc: DescMessage,
    field: usize,
    scalar: ScalarType,
    st: St,
) -> (Msg, Result<St, Fault>) {
    if field >= desc.fields@.len() || field >= m.attrs.len() {
        (m, Err(shape()))
    } else {
        match json_source::peeked(st.src) {
            Err(f) => (m, Err(f)),
            Ok(JsonKind::Null) => match json_source::null_read(st.src) {
                Ok(src) => (
                    set_attr(m, field as int, descriptor::zero_val(scalar)),
                    Ok(St { src, asks: st.asks }),
                ),
                Err(f) => (m, Err(f)),
            },
            Ok(_) => match json_scalars::scalar_reading(
                st,
                scalar,
                desc,
                desc.fields@[field as int],
            ) {
                Ok((v, st2)) => (set_attr(m, field as int, v), Ok(st2)),
                Err(f) => (m, Err(f)),
            },
        }
    }
}

/// The name in a type URL: what stands behind its last slash.
pub open spec fn url_name(url: Seq<char>) -> Seq<char>
    decreases url.len(),
{
    if url.len() == 0 || url.last() == '/' {
        seq![]
    } else {
        url_name(url.drop_last()).push(url.last())
    }
}

/// The type URL in the JSON form of an `Any`.
pub open spec fn any_url(name: Seq<char>, dict: Seq<(Val, Val)>) -> Result<Seq<char>, Fault> {
    match value::dict_index(dict, Val::Str("@type"@)) {
        Some(i) => match dict[i].1 {
            Val::Str(url) => if url.len() > 0 {
                Ok(url)
            } else {
                Err(Fault::AnyTypeInvalid { name, value: Val::Dict(dict) })
            },
            _ => Err(Fault::AnyTypeInvalid { name, value: Val::Dict(dict) }),
        },
        None => Err(Fault::AnyTypeInvalid { name, value: Val::Dict(dict) }),
    }
}

/// The message type of the registry with the given name.
pub open spec fn registered(registry: Option<Registry>, name: Seq<char>) -> Option<usize> {
    match registry {
        Some(r) => match descriptor::name_index(r.messages@, name) {
            Some(i) => Some(r.messages@[i].1),
            None => None,
        },
        None => None,
    }
}

/// The JSON value within the JSON form of an `Any`: its member `value` for well-known types, and
/// otherwise the members other than `@type`.
pub open spec fn any_content(dict: Seq<(Val, Val)>, ordinary: bool) -> Val {
    let at = value::dict_index(dict, Val::Str("value"@));
    if !ordinary && at is Some {
        dict[at->Some_0].1
    } else {
        Val::Dict(dict.remove(value::dict_index(dict, Val::Str("@type"@))->Some_0))
    }
}

/// The URL that a packed message of the given type has.
pub open spec fn packed_url(desc: DescMessage) -> Seq<char> {
    "type.googleapis.com/"@ + desc.full_name@
}

/// Takes an extension field out.
pub open spec fn unknown_removed(unknown: Seq<(u32, Val)>, number: u32) -> Seq<(u32, Val)>
    decreases unknown.len(),
{
    if unknown.len() == 0 {
        unknown
    } else {
        let head = unknown_removed(unknown.drop_last(), number);
        if unknown.last().0 == number {
            head
        } else {
            head.push(unknown.last())
        }
    }
}

/// Reads an extension field. The host turns the JSON value into the field's value. A null takes
/// the field out.
pub open spec fn extension_reading(m: Msg, ext: Extension, index: usize, st: St) -> (
    Msg,
    Result<St, Fault>,
) {
    match json_scalars::value_reading(st.src) {
        Err(f) => (m, Err(f)),
        Ok((v, src)) => if v is Null {
            (
                Msg { unknown: unknown_removed(m.unknown, ext.number), ..m },
                Ok(St { src, asks: st.asks }),
            )
        } else {
            match question::next_answer(
                st.asks,
                QuestionOf::ReadExtension { extension: index, value: v },
            ) {
                Err(f) => (m, Err(f)),
                Ok(AnswerOf::Value(w)) => (
                    Msg {
                        unknown: unknown_removed(m.unknown, ext.number).push((ext.number, w)),
                        ..m
                    },
                    Ok(St { src, asks: question::after_answer(st.asks) }),
                ),
                Ok(_) => (m, Err(Fault::Fixed(Fixed::Answer))),
            }
        },
    }
}

/// The name in a key of the form `[name]`.
pub open spec fn bracketed(key: Seq<char>) -> Option<Seq<char>> {
    if key.len() >= 2 && key[0] == '[' && key.last() == ']' {
        Some(key.subrange(1, key.len() - 1))
    } else {
        None
    }
}

/// The extension of the registry that a key names.
pub open spec fn extension_of_key(registry: Option<Registry>, key: Seq<char>) -> Option<int> {
    match (registry, bracketed(key)) {
        (Some(r), Some(name)) => descriptor::extension_index(r.extensions@, name),
        _ => None,
    }
}

/// Reads the value of a key that names no field.
pub open spec fn unknown_key_reading(
    opts: FromJsonOpts,
    m: Msg,
    desc: DescMessage,
    key: Seq<char>,
    st: St,
) -> (Msg, Result<St, Fault>) {
    let skip = match json_source::skipped(st.src) {
        Ok(src) => Ok(St { src, asks: st.asks }),
        Err(f) => Err(f),
    };
    match extension_of_key(opts.registry, key) {
        Some(i) => {
            let ext = opts.registry->Some_0.extensions@[i];
            if ext.extendee@ == desc.full_name@ {
                extension_reading(m, ext, i as usize, st)
            } else {
                (m, skip)
            }
        },
        None => if opts.ignore_unknown_fields {
            (m, skip)
        } else {
            (m, Err(Fault::UnknownKey { name: desc.full_name@, key }))
        },
    }
}

/// What was read of an object so far: its keys, the fields that were set with the keys that set
/// them, and the oneofs that were set with the names of the fields that set them.
pub struct SeenKeys {
    pub keys: Seq<Seq<char>>,
    pub fields: Seq<(usize, Seq<char>)>,
    pub oneofs: Seq<(usize, Seq<char>)>,
}

/// The text that a number was first seen with.
pub open spec fn seen_with(seen: Seq<(usize, Seq<char>)>, i: usize) -> Option<Seq<char>>
    decreases seen.len(),
{
    if seen.len() == 0 {
        None
    } else if seen[0].0 == i {
        Some(seen[0].1)
    } else {
        seen_with(seen.skip(1), i)
    }
}

/// A bound on how much deeper messages may be nested.
pub open spec fn depth_left(depth: nat) -> nat {
    if depth <= 101 {
        (102 - depth) as nat
    } else {
        0
    }
}

/// Reads a message: the message afterwards, and the state behind it or an error.
pub open spec fn message_reading(
    schema: Schema,
    opts: FromJsonOpts,
    m: Msg,
    st: St,
    depth: nat,
) -> (Msg, Result<St, Fault>)
    decreases json_source::left(st.src), depth_left(depth), 9nat,
{
    if depth > DEPTH_LIMIT {
        (m, Err(Fault::RecursionLimit))
    } else if m.desc >= schema.messages@.len() {
        (m, Err(shape()))
    } else {
        let desc = schema.messages@[m.desc as int];
        match desc.wkt {
            WktKind::Ordinary | WktKind::FileDescriptorSet => object_reading(
                schema,
                opts,
                m,
                desc,
                st,
                depth,
            ),
            WktKind::Timestamp { seconds, nanos } => timestamp_reading(m, desc, seconds, nanos, st),
            WktKind::Duration { seconds, nanos } => duration_reading(m, desc, seconds, nanos, st),
            WktKind::FieldMask { paths } => field_mask_reading(m, desc, paths, st),
            WktKind::Wrapper { field, scalar } => wrapper_reading(m, desc, field, scalar, st),
            WktKind::Struct { fields } => struct_reading(schema, opts, m, desc, fields, st, depth),
            WktKind::ListValue { values } => list_value_reading(
                schema,
                opts,
                m,
                desc,
                values,
                st,
                depth,
            ),
            WktKind::Value { .. } => value_message_reading(schema, opts, m, desc, st, depth),
            WktKind::Any { type_url, value } => any_reading(
                schema,
                opts,
                m,
                desc,
                type_url,
                value,
                st,
                depth,
            ),
        }
    }
}

/// Reads a message without a JSON form of its own from an object.
pub open spec fn object_reading(
    schema: Schema,
    opts: FromJsonOpts,
    m: Msg,
    desc: DescMessage,
    st: St,
    depth: nat,
) -> (Msg, Result<St, Fault>)
    decreases json_source::left(st.src), depth_left(depth), 8nat,
    when depth <= DEPTH_LIMIT
{
    match json_source::peeked(st.src) {
        Err(f) => (m, Err(f)),
        Ok(JsonKind::Object) => match json_source::object_read(st.src) {
            Err(f) => (m, Err(f)),
            Ok((entries, None, src)) => (m, Ok(St { src, asks: st.asks })),
            Ok((entries, Some(key), src)) => if json_source::entries_left(src, entries)
                < json_source::left(st.src) {
                members_reading(
                    schema,
                    opts,
                    m,
                    desc,
                    St { src, asks: st.asks },
                    entries,
                    key,
                    SeenKeys { keys: seq![], fields: seq![], oneofs: seq![] },
                    depth,
                )
            } else {
                arbitrary()
            },
        },
        Ok(_) => (m, cannot_decode(st.src, desc.qualname@)),
    }
}

/// Reads the members of an object from the value of a key on.
pub open spec fn members_reading(
    schema: Schema,
    opts: FromJsonOpts,
    m: Msg,
    desc: DescMessage,
    st: St,
    entries: Seq<(Val, Val)>,
    key: Seq<char>,
    seen: SeenKeys,
    depth: nat,
) -> (Msg, Result<St, Fault>)
    decreases json_source::entries_left(st.src, entries), depth_left(depth), 8nat,
    when depth <= DEPTH_LIMIT
{
    let (m2, seen2, out) = member_reading(schema, opts, m, desc, st, key, seen, depth);
    match out {
        Err(f) => (m2, Err(f)),
        Ok(st2) => match json_source::key_read(st2.src, entries) {
            Err(f) => (m2, Err(f)),
            Ok((rest, None, src)) => (m2, Ok(St { src, asks: st2.asks })),
            Ok((rest, Some(next), src)) => if json_source::entries_left(src, rest)
                < json_source::entries_left(st.src, entries) {
                members_reading(
                    schema,
                    opts,
                    m2,
                    desc,
                    St { src, asks: st2.asks },
                    rest,
                    next,
                    seen2,
                    depth,
                )
            } else {
                arbitrary()
            },
        },
    }
}

/// Reads the value of one key of an object. A key may occur once, and a field or a oneof may be
/// set by one key.
pub open spec fn member_reading(
    schema: Schema,
    opts: FromJsonOpts,
    m: Msg,
    desc: DescMessage,
    st: St,
    key: Seq<char>,
    seen: SeenKeys,
    depth: nat,
) -> (Msg, SeenKeys, Result<St, Fault>)
    decreases json_source::left(st.src), depth_left(depth), 7nat,
    when depth <= DEPTH_LIMIT
{
    let keyed = SeenKeys { keys: seen.keys.push(key), ..seen };
    if seen.keys.contains(key) {
        (m, seen, Err(Fault::DuplicateKey { key }))
    } else {
        match descriptor::name_index(desc.json_names@, key) {
            None => {
                let (m2, out) = unknown_key_reading(opts, m, desc, key, st);
                (m2, keyed, out)
            },
            Some(entry) => {
                let i = desc.json_names@[entry].1;
                if i >= desc.fields@.len() {
                    (m, keyed, Err(Fault::Fixed(Fixed::FieldLookup)))
                } else {
                    let field = desc.fields@[i as int];
                    let fielded = SeenKeys { fields: seen.fields.push((i, key)), ..keyed };
                    match (seen_with(seen.fields, i), field.oneof) {
                        (Some(first), _) => (m, keyed, Err(Fault::FieldTwice { first, second: key })),
                        (None, Some(o)) => oneof_member_reading(
                            schema,
                            opts,
                            m,
                            desc,
                            field,
                            i,
                            o,
                            st,
                            fielded,
                            depth,
                        ),
                        (None, None) => {
                            let (m2, out) = field_reading(
                                schema,
                                opts,
                                m,
                                desc,
                                field,
                                i as int,
                                st,
                                depth,
                            );
                            (m2, fielded, out)
                        },
                    }
                }
            },
        }
    }
}

/// Reads a field of a oneof. A null for a scalar field is passed over.
pub open spec fn oneof_member_reading(
    schema: Schema,
    opts: FromJsonOpts,
    m: Msg,
    desc: DescMessage,
    field: DescField,
    i: usize,
    o: usize,
    st: St,
    seen: SeenKeys,
    depth: nat,
) -> (Msg, SeenKeys, Result<St, Fault>)
    decreases json_source::left(st.src), depth_left(depth), 6nat,
    when depth <= DEPTH_LIMIT
{
    let kind = if field.value is Scalar {
        json_source::peeked(st.src)
    } else {
        Ok(JsonKind::Object)
    };
    match kind {
        Err(f) => (m, seen, Err(f)),
        Ok(JsonKind::Null) => (
            m,
            seen,
            match json_source::null_read(st.src) {
                Ok(src) => Ok(St { src, asks: st.asks }),
                Err(f) => Err(f),
            },
        ),
        Ok(_) => match seen_with(seen.oneofs, o) {
            Some(first) => (m, seen, Err(Fault::OneofTwice { first, second: field.name@ })),
            None => {
                let (m2, out) = field_reading(schema, opts, m, desc, field, i as int, st, depth);
                (m2, SeenKeys { oneofs: seen.oneofs.push((o, field.name@)), ..seen }, out)
            },
        },
    }
}

/// Reads the value of a field.
pub open spec fn field_reading(
    schema: Schema,
    opts: FromJsonOpts,
    m: Msg,
    desc: DescMessage,
    field: DescField,
    i: int,
    st: St,
    depth: nat,
) -> (Msg, Result<St, Fault>)
    decreases json_source::left(st.src), depth_left(depth), 5nat,
    when depth <= DEPTH_LIMIT
{
    match field.value {
        DescFieldValue::Scalar { scalar_type } => scalar_field_reading(
            m,
            desc,
            field,
            i,
            scalar_type,
            st,
        ),
        DescFieldValue::Enum { enum_ } => enum_field_reading(schema, opts, m, field, i, enum_, st),
        DescFieldValue::Message { message } => message_field_reading(
            schema,
            opts,
            m,
            field,
            i,
            message,
            st,
            depth,
        ),
        DescFieldValue::List { element } => list_field_reading(
            schema,
            opts,
            m,
            desc,
            field,
            i,
            element,
            st,
            depth,
        ),
        DescFieldValue::MapOf { key_type, value } => map_field_reading(
            schema,
            opts,
            m,
            desc,
            field,
            i,
            key_type,
            value,
            st,
            depth,
        ),
    }
}

/// Reads a null that clears a singular field.
pub open spec fn null_field_reading(m: Msg, field: DescField, i: int, default: Val, st: St) -> (
    Msg,
    Result<St, Fault>,
) {
    match json_source::null_read(st.src) {
        Ok(src) => changed(m, cleared(m, field, i, default), St { src, asks: st.asks }),
        Err(f) => (m, Err(f)),
    }
}

pub open spec fn scalar_field_reading(
    m: Msg,
    desc: DescMessage,
    field: DescField,
    i: int,
    scalar: ScalarType,
    st: St,
) -> (Msg, Result<St, Fault>) {
    match json_source::peeked(st.src) {
        Err(f) => (m, Err(f)),
        Ok(JsonKind::Null) => null_field_reading(
            m,
            field,
            i,
            descriptor::zero_val(scalar),
            st,
        ),
        Ok(_) => match json_scalars::scalar_reading(st, scalar, desc, field) {
            Ok((v, st2)) => changed(m, assigned(m, field, i, v), st2),
            Err(f) => (m, Err(f)),
        },
    }
}

pub open spec fn enum_field_reading(
    schema: Schema,
    opts: FromJsonOpts,
    m: Msg,
    field: DescField,
    i: int,
    enum_: usize,
    st: St,
) -> (Msg, Result<St, Fault>) {
    if enum_ >= schema.enums@.len() {
        (m, Err(shape()))
    } else {
        let e = schema.enums@[enum_ as int];
        match json_source::peeked(st.src) {
            Err(f) => (m, Err(f)),
            Ok(kind) => if kind == JsonKind::Null && !e.is_null_value {
                null_field_reading(m, field, i, Val::Int(e.zero as int), st)
            } else {
                match json_scalars::enum_reading(st.src, e, opts.ignore_unknown_fields) {
                    Ok((Some(v), src)) => changed(
                        m,
                        assigned(m, field, i, v),
                        St { src, asks: st.asks },
                    ),
                    Ok((None, src)) => (m, Ok(St { src, asks: st.asks })),
                    Err(f) => (m, Err(f)),
                }
            },
        }
    }
}

/// Reads a message field. A message that the field holds already is read into.
pub open spec fn message_field_reading(
    schema: Schema,
    opts: FromJsonOpts,
    m: Msg,
    field: DescField,
    i: int,
    message: usize,
    st: St,
    depth: nat,
) -> (Msg, Result<St, Fault>)
    decreases json_source::left(st.src), depth_left(depth), 4nat,
    when depth <= DEPTH_LIMIT
{
    if message >= schema.messages@.len() {
        (m, Err(shape()))
    } else {
        match json_source::peeked(st.src) {
            Err(f) => (m, Err(f)),
            Ok(kind) => if kind == JsonKind::Null && !(schema.messages@[message as int].wkt
                is Value) {
                null_field_reading(m, field, i, Val::Null, st)
            } else {
                match held(schema, m, field, i, message) {
                    Err(f) => (m, Err(f)),
                    Ok(Some(target)) => {
                        let (inner, out) = message_reading(schema, opts, target, st, depth + 1);
                        let m2 = held_put(m, field, i, inner);
                        match out {
                            Ok(st2) => changed(
                                m2,
                                assigned(m2, field, i, Val::Message(inner)),
                                st2,
                            ),
                            Err(f) => (m2, Err(f)),
                        }
                    },
                    Ok(None) => {
                        let (inner, out) = message_reading(
                            schema,
                            opts,
                            empty_msg(schema, message),
                            st,
                            depth + 1,
                        );
                        match out {
                            Ok(st2) => changed(m, assigned(m, field, i, Val::Message(inner)), st2),
                            Err(f) => (m, Err(f)),
                        }
                    },
                }
            },
        }
    }
}

/// Reads an element of a list or a value of a map. There is none if it is ignored.
pub open spec fn item_reading(
    schema: Schema,
    opts: FromJsonOpts,
    desc: DescMessage,
    field: DescField,
    element: DescSingleValue,
    is_map: bool,
    st: St,
    depth: nat,
) -> Result<(Option<Val>, St), Fault>
    decreases json_source::left(st.src), depth_left(depth), 1nat,
    when depth <= DEPTH_LIMIT
{
    let null = match json_source::null_read(st.src) {
        Ok(_) => Err(
            json_scalars::field_fault(
                if is_map {
                    FieldFaultOf::NullMapValue
                } else {
                    FieldFaultOf::NullListItem
                },
                desc,
                field,
            ),
        ),
        Err(f) => Err(f),
    };
    match json_source::peeked(st.src) {
        Err(f) => Err(f),
        Ok(kind) => match element {
            DescSingleValue::Scalar(scalar) => if kind == JsonKind::Null {
                null
            } else {
                match json_scalars::scalar_reading(st, scalar, desc, field) {
                    Ok((v, st2)) => Ok((Some(v), st2)),
                    Err(f) => Err(f),
                }
            },
            DescSingleValue::Enum(enum_) => if enum_ >= schema.enums@.len() {
                Err(shape())
            } else if kind == JsonKind::Null && !schema.enums@[enum_ as int].is_null_value {
                null
            } else {
                match json_scalars::enum_reading(
                    st.src,
                    schema.enums@[enum_ as int],
                    opts.ignore_unknown_fields,
                ) {
                    Ok((v, src)) => Ok((v, St { src, asks: st.asks })),
                    Err(f) => Err(f),
                }
            },
            DescSingleValue::Message(message) => if message >= schema.messages@.len() {
                Err(shape())
            } else if kind == JsonKind::Null && !(schema.messages@[message as int].wkt is Value) {
                null
            } else {
                let (inner, out) = message_reading(
                    schema,
                    opts,
                    empty_msg(schema, message),
                    st,
                    depth + 1,
                );
                match out {
                    Ok(st2) => Ok((Some(Val::Message(inner)), st2)),
                    Err(f) => Err(f),
                }
            },
        },
    }
}

/// Appends to a list the elements of an array from one of them on.
pub open spec fn elements_reading(
    schema: Schema,
    opts: FromJsonOpts,
    desc: DescMessage,
    field: DescField,
    element: DescSingleValue,
    st: St,
    items: Seq<Val>,
    list: Seq<Val>,
    depth: nat,
) -> (Seq<Val>, Result<St, Fault>)
    decreases json_source::items_left(st.src, items), depth_left(depth), 2nat,
    when depth <= DEPTH_LIMIT
{
    match item_reading(schema, opts, desc, field, element, false, st, depth) {
        Err(f) => (list, Err(f)),
        Ok((v, st2)) => {
            let longer = match v {
                Some(v) => list.push(v),
                None => list,
            };
            match json_source::array_stepped(st2.src, items) {
                Err(f) => (longer, Err(f)),
                Ok((rest, more, src)) => if !more {
                    (longer, Ok(St { src, asks: st2.asks }))
                } else if json_source::items_left(src, rest) < json_source::items_left(
                    st.src,
                    items,
                ) {
                    elements_reading(
                        schema,
                        opts,
                        desc,
                        field,
                        element,
                        St { src, asks: st2.asks },
                        rest,
                        longer,
                        depth,
                    )
                } else {
                    arbitrary()
                },
            }
        },
    }
}

pub open spec fn list_field_reading(
    schema: Schema,
    opts: FromJsonOpts,
    m: Msg,
    desc: DescMessage,
    field: DescField,
    i: int,
    element: DescSingleValue,
    st: St,
    depth: nat,
) -> (Msg, Result<St, Fault>)
    decreases json_source::left(st.src), depth_left(depth), 4nat,
    when depth <= DEPTH_LIMIT
{
    match json_source::peeked(st.src) {
        Err(f) => (m, Err(f)),
        Ok(JsonKind::Null) => (
            m,
            match json_source::null_read(st.src) {
                Ok(src) => Ok(St { src, asks: st.asks }),
                Err(f) => Err(f),
            },
        ),
        Ok(JsonKind::Array) => match list_attr(m, i) {
            Err(f) => (m, Err(f)),
            Ok(list) => match json_source::array_read(st.src) {
                Err(f) => (m, Err(f)),
                Ok((items, more, src)) => if !more {
                    (m, Ok(St { src, asks: st.asks }))
                } else if json_source::items_left(src, items) < json_source::left(st.src) {
                    let (longer, out) = elements_reading(
                        schema,
                        opts,
                        desc,
                        field,
                        element,
                        St { src, asks: st.asks },
                        items,
                        list,
                        depth,
                    );
                    (set_attr(m, i, Val::List(longer)), out)
                } else {
                    arbitrary()
                },
            },
        },
        Ok(_) => (
            m,
            match json_scalars::value_reading(st.src) {
                Ok((v, _)) => Err(
                    json_scalars::field_fault(FieldFaultOf::ExpectedList(v), desc, field),
                ),
                Err(f) => Err(f),
            },
        ),
    }
}

/// Sets in a dictionary the entries of an object from the value of a key on.
pub open spec fn pairs_reading(
    schema: Schema,
    opts: FromJsonOpts,
    desc: DescMessage,
    field: DescField,
    key_type: ScalarType,
    value: DescSingleValue,
    st: St,
    entries: Seq<(Val, Val)>,
    key: Seq<char>,
    dict: Seq<(Val, Val)>,
    depth: nat,
) -> (Seq<(Val, Val)>, Result<St, Fault>)
    decreases json_source::entries_left(st.src, entries), depth_left(depth), 2nat,
    when depth <= DEPTH_LIMIT
{
    match json_scalars::map_key_reading(key_type, key, st.asks, desc, field) {
        Err(f) => (dict, Err(f)),
        Ok((k, asks)) => match item_reading(
            schema,
            opts,
            desc,
            field,
            value,
            true,
            St { src: st.src, asks },
            depth,
        ) {
            Err(f) => (dict, Err(f)),
            Ok((v, st2)) => {
                let dict2 = match v {
                    Some(v) => value::dict_set(dict, k, v),
                    None => dict,
                };
                match json_source::key_read(st2.src, entries) {
                    Err(f) => (dict2, Err(f)),
                    Ok((rest, None, src)) => (dict2, Ok(St { src, asks: st2.asks })),
                    Ok((rest, Some(next), src)) => if json_source::entries_left(src, rest)
                        < json_source::entries_left(st.src, entries) {
                        pairs_reading(
                            schema,
                            opts,
                            desc,
                            field,
                            key_type,
                            value,
                            St { src, asks: st2.asks },
                            rest,
                            next,
                            dict2,
                            depth,
                        )
                    } else {
                        arbitrary()
                    },
                }
            },
        },
    }
}

pub open spec fn map_field_reading(
    schema: Schema,
    opts: FromJsonOpts,
    m: Msg,
    desc: DescMessage,
    field: DescField,
    i: int,
    key_type: ScalarType,
    value: DescSingleValue,
    st: St,
    depth: nat,
) -> (Msg, Result<St, Fault>)
    decreases json_source::left(st.src), depth_left(depth), 4nat,
    when depth <= DEPTH_LIMIT
{
    match json_source::peeked(st.src) {
        Err(f) => (m, Err(f)),
        Ok(JsonKind::Null) => (
            m,
            match json_source::null_read(st.src) {
                Ok(src) => Ok(St { src, asks: st.asks }),
                Err(f) => Err(f),
            },
        ),
        Ok(JsonKind::Object) => match dict_attr(m, i) {
            Err(f) => (m, Err(f)),
            Ok(dict) => match json_source::object_read(st.src) {
                Err(f) => (m, Err(f)),
                Ok((entries, None, src)) => (m, Ok(St { src, asks: st.asks })),
                Ok((entries, Some(key), src)) => if json_source::entries_left(src, entries)
                    < json_source::left(st.src) {
                    let (dict2, out) = pairs_reading(
                        schema,
                        opts,
                        desc,
                        field,
                        key_type,
                        value,
                        St { src, asks: st.asks },
                        entries,
                        key,
                        dict,
                        depth,
                    );
                    (set_attr(m, i, Val::Dict(dict2)), out)
                } else {
                    arbitrary()
                },
            },
        },
        Ok(_) => (
            m,
            match json_scalars::value_reading(st.src) {
                Ok((v, _)) => Err(
                    json_scalars::field_fault(FieldFaultOf::ExpectedDict(v), desc, field),
                ),
                Err(f) => Err(f),
            },
        ),
    }
}

/// Sets in a dictionary the messages of an object from the value of a key on.
pub open spec fn named_messages_reading(
    schema: Schema,
    opts: FromJsonOpts,
    message: usize,
    st: St,
    entries: Seq<(Val, Val)>,
    key: Seq<char>,
    dict: Seq<(Val, Val)>,
    depth: nat,
) -> (Seq<(Val, Val)>, Result<St, Fault>)
    decreases json_source::entries_left(st.src, entries), depth_left(depth), 2nat,
    when depth <= DEPTH_LIMIT
{
    let (inner, out) = message_reading(schema, opts, empty_msg(schema, message), st, depth + 1);
    match out {
        Err(f) => (dict, Err(f)),
        Ok(st2) => {
            let dict2 = value::dict_set(dict, Val::Str(key), Val::Message(inner));
            match json_source::key_read(st2.src, entries) {
                Err(f) => (dict2, Err(f)),
                Ok((rest, None, src)) => (dict2, Ok(St { src, asks: st2.asks })),
                Ok((rest, Some(next), src)) => if json_source::entries_left(src, rest)
                    < json_source::entries_left(st.src, entries) {
                    named_messages_reading(
                        schema,
                        opts,
                        message,
                        St { src, asks: st2.asks },
                        rest,
                        next,
                        dict2,
                        depth,
                    )
                } else {
                    arbitrary()
                },
            }
        },
    }
}

/// The message type of the values of a `Struct`.
pub open spec fn struct_value_type(schema: Schema, desc: DescMessage, fields: usize) -> Result<
    usize,
    Fault,
> {
    if fields >= desc.fields@.len() {
        Err(shape())
    } else {
        match desc.fields@[fields as int].value {
            DescFieldValue::MapOf { value: DescSingleValue::Message(message), .. } => if message
                < schema.messages@.len() {
                Ok(message)
            } else {
                Err(shape())
            },
            DescFieldValue::MapOf { .. } => Err(Fault::Fixed(Fixed::StructValue)),
            _ => Err(Fault::Fixed(Fixed::StructMap)),
        }
    }
}

pub open spec fn struct_reading(
    schema: Schema,
    opts: FromJsonOpts,
    m: Msg,
    desc: DescMessage,
    fields: usize,
    st: St,
    depth: nat,
) -> (Msg, Result<St, Fault>)
    decreases json_source::left(st.src), depth_left(depth), 8nat,
    when depth <= DEPTH_LIMIT
{
    match json_source::peeked(st.src) {
        Err(f) => (m, Err(f)),
        Ok(JsonKind::Object) => match (
            struct_value_type(schema, desc, fields),
            dict_attr(m, fields as int),
        ) {
            (Err(f), _) => (m, Err(f)),
            (_, Err(f)) => (m, Err(f)),
            (Ok(message), Ok(dict)) => match json_source::object_read(st.src) {
                Err(f) => (m, Err(f)),
                Ok((entries, None, src)) => (m, Ok(St { src, asks: st.asks })),
                Ok((entries, Some(key), src)) => if json_source::entries_left(src, entries)
                    < json_source::left(st.src) {
                    let (dict2, out) = named_messages_reading(
                        schema,
                        opts,
                        message,
                        St { src, asks: st.asks },
                        entries,
                        key,
                        dict,
                        depth,
                    );
                    (set_attr(m, fields as int, Val::Dict(dict2)), out)
                } else {
                    arbitrary()
                },
            },
        },
        Ok(_) => (m, cannot_decode(st.src, desc.full_name@)),
    }
}

/// Appends to a list the messages of an array from one of them on.
pub open spec fn messages_reading(
    schema: Schema,
    opts: FromJsonOpts,
    message: usize,
    st: St,
    items: Seq<Val>,
    list: Seq<Val>,
    depth: nat,
) -> (Seq<Val>, Result<St, Fault>)
    decreases json_source::items_left(st.src, items), depth_left(depth), 2nat,
    when depth <= DEPTH_LIMIT
{
    let (inner, out) = message_reading(schema, opts, empty_msg(schema, message), st, depth + 1);
    match out {
        Err(f) => (list, Err(f)),
        Ok(st2) => {
            let longer = list.push(Val::Message(inner));
            match json_source::array_stepped(st2.src, items) {
                Err(f) => (longer, Err(f)),
                Ok((rest, more, src)) => if !more {
                    (longer, Ok(St { src, asks: st2.asks }))
                } else if json_source::items_left(src, rest) < json_source::items_left(
                    st.src,
                    items,
                ) {
                    messages_reading(
                        schema,
                        opts,
                        message,
                        St { src, asks: st2.asks },
                        rest,
                        longer,
                        depth,
                    )
                } else {
                    arbitrary()
                },
            }
        },
    }
}

/// The message type of the elements of a `ListValue`.
pub open spec fn list_element_type(schema: Schema, desc: DescMessage, values: usize) -> Result<
    usize,
    Fault,
> {
    if values >= desc.fields@.len() {
        Err(shape())
    } else {
        match desc.fields@[values as int].value {
            DescFieldValue::List { element: DescSingleValue::Message(message) } => if message
                < schema.messages@.len() {
                Ok(message)
            } else {
                Err(shape())
            },
            _ => Err(Fault::Fixed(Fixed::ListValueElement)),
        }
    }
}

pub open spec fn list_value_reading(
    schema: Schema,
    opts: FromJsonOpts,
    m: Msg,
    desc: DescMessage,
    values: usize,
    st: St,
    depth: nat,
) -> (Msg, Result<St, Fault>)
    decreases json_source::left(st.src), depth_left(depth), 8nat,
    when depth <= DEPTH_LIMIT
{
    match json_source::peeked(st.src) {
        Err(f) => (m, Err(f)),
        Ok(JsonKind::Array) => match (
            list_element_type(schema, desc, values),
            list_attr(m, values as int),
        ) {
            (Err(f), _) => (m, Err(f)),
            (_, Err(f)) => (m, Err(f)),
            (Ok(message), Ok(list)) => match json_source::array_read(st.src) {
                Err(f) => (m, Err(f)),
                Ok((items, more, src)) => if !more {
                    (m, Ok(St { src, asks: st.asks }))
                } else if json_source::items_left(src, items) < json_source::left(st.src) {
                    let (longer, out) = messages_reading(
                        schema,
                        opts,
                        message,
                        St { src, asks: st.asks },
                        items,
                        list,
                        depth,
                    );
                    (set_attr(m, values as int, Val::List(longer)), out)
                } else {
                    arbitrary()
                },
            },
        },
        Ok(_) => (m, cannot_decode(st.src, desc.full_name@)),
    }
}

/// The field of a `Value` that holds JSON values of a kind.
pub open spec fn value_field(kind: JsonKind, wkt: WktKind) -> usize {
    match wkt {
        WktKind::Value {
            null_value,
            number_value,
            string_value,
            bool_value,
            struct_value,
            list_value,
        } => match kind {
            JsonKind::Null => null_value,
            JsonKind::Bool => bool_value,
            JsonKind::Number => number_value,
            JsonKind::String => string_value,
            JsonKind::Array => list_value,
            JsonKind::Object => struct_value,
        },
        _ => 0,
    }
}

/// The oneof of a `Value`.
pub open spec fn value_oneof(m: Msg, desc: DescMessage) -> Result<usize, Fault> {
    let i = value_field(JsonKind::Null, desc.wkt);
    if i >= desc.fields@.len() {
        Err(shape())
    } else {
        match desc.fields@[i as int].oneof {
            None => Err(Fault::Fixed(Fixed::ValueKindMissing)),
            Some(o) => if o < m.oneofs.len() {
                Ok(o)
            } else {
                Err(shape())
            },
        }
    }
}

/// A `Value` that holds the given value.
pub open spec fn kind_set(m: Msg, o: usize, field: DescField, v: Val) -> Msg {
    Msg { oneofs: m.oneofs.update(o as int, Some((field.name@, v))), ..m }
}

/// Reads the value that a `Value` holds.
pub open spec fn kind_reading(
    schema: Schema,
    opts: FromJsonOpts,
    kind: JsonKind,
    field: DescField,
    st: St,
    depth: nat,
) -> Result<(Val, St), Fault>
    decreases json_source::left(st.src), depth_left(depth), 7nat,
    when depth <= DEPTH_LIMIT
{
    match kind {
        JsonKind::Null => match json_source::null_read(st.src) {
            Ok(src) => match field.value {
                DescFieldValue::Enum { enum_ } => Ok(
                    (Val::Int(enum_zero(schema, enum_)), St { src, asks: st.asks }),
                ),
                _ => Err(Fault::Fixed(Fixed::ValueNullEnum)),
            },
            Err(f) => Err(f),
        },
        JsonKind::Bool => match json_source::bool_read(st.src) {
            Ok((b, src)) => Ok((Val::Bool(b), St { src, asks: st.asks })),
            Err(f) => Err(f),
        },
        JsonKind::Number => match json_source::float_read(st.src) {
            Ok((bits, src)) => Ok((Val::Float(bits), St { src, asks: st.asks })),
            Err(f) => Err(f),
        },
        JsonKind::String => match json_source::string_read(st.src) {
            Ok((t, src)) => Ok((Val::Str(t), St { src, asks: st.asks })),
            Err(f) => Err(f),
        },
        _ => match field.value {
            DescFieldValue::Message { message } => if message >= schema.messages@.len() {
                Err(shape())
            } else {
                let (inner, out) = message_reading(
                    schema,
                    opts,
                    empty_msg(schema, message),
                    st,
                    depth + 1,
                );
                match out {
                    Ok(st2) => Ok((Val::Message(inner), st2)),
                    Err(f) => Err(f),
                }
            },
            _ => Err(Fault::Fixed(Fixed::MessageField)),
        },
    }
}

/// Reads a `Value` from any JSON value.
pub open spec fn value_message_reading(
    schema: Schema,
    opts: FromJsonOpts,
    m: Msg,
    desc: DescMessage,
    st: St,
    depth: nat,
) -> (Msg, Result<St, Fault>)
    decreases json_source::left(st.src), depth_left(depth), 8nat,
    when depth <= DEPTH_LIMIT
{
    match value_oneof(m, desc) {
        Err(f) => (m, Err(f)),
        Ok(o) => match json_source::peeked(st.src) {
            Err(f) => (m, Err(f)),
            Ok(kind) => {
                let i = value_field(kind, desc.wkt);
                if i >= desc.fields@.len() {
                    (m, Err(shape()))
                } else {
                    let field = desc.fields@[i as int];
                    match kind_reading(schema, opts, kind, field, st, depth) {
                        Ok((v, st2)) => (kind_set(m, o, field, v), Ok(st2)),
                        Err(f) => (m, Err(f)),
                    }
                }
            },
        },
    }
}

/// Reads an `Any`. Its content is read as a message of the type that `@type` names, and packed
/// by the host.
pub open spec fn any_reading(
    schema: Schema,
    opts: FromJsonOpts,
    m: Msg,
    desc: DescMessage,
    type_url: usize,
    value: usize,
    st: St,
    depth: nat,
) -> (Msg, Result<St, Fault>)
    decreases json_source::left(st.src), depth_left(depth), 8nat,
    when depth <= DEPTH_LIMIT
{
    let name = desc.full_name@;
    match json_scalars::value_reading(st.src) {
        Err(f) => (m, Err(f)),
        Ok((Val::Dict(dict), src)) => if dict.len() == 0 {
            (m, Ok(St { src, asks: st.asks }))
        } else {
            match any_url(name, dict) {
                Err(f) => (m, Err(f)),
                Ok(url) => match registered(opts.registry, url_name(url)) {
                    None => (m, Err(Fault::AnyUnknownType { name, url })),
                    Some(message) => if message >= schema.messages@.len() {
                        (m, Err(shape()))
                    } else {
                        let inner_desc = schema.messages@[message as int];
                        let content = any_content(dict, inner_desc.wkt is Ordinary);
                        if value::tree_size(content) < json_source::left(st.src) {
                            let (inner, out) = message_reading(
                                schema,
                                opts,
                                empty_msg(schema, message),
                                St { src: SrcState::Tree(Some(content)), asks: st.asks },
                                1,
                            );
                            match out {
                                Err(f) => (m, Err(f)),
                                Ok(st2) => any_packing(
                                    m,
                                    inner_desc,
                                    inner,
                                    type_url,
                                    value,
                                    St { src, asks: st2.asks },
                                ),
                            }
                        } else {
                            arbitrary()
                        }
                    },
                },
            }
        },
        Ok((tree, src)) => (m, Err(Fault::CannotDecode { name, value: tree })),
    }
}

/// Packs a message into an `Any`.
pub open spec fn any_packing(
    m: Msg,
    inner_desc: DescMessage,
    inner: Msg,
    type_url: usize,
    value: usize,
    st: St,
) -> (Msg, Result<St, Fault>) {
    match question::next_answer(st.asks, QuestionOf::Pack(inner)) {
        Err(f) => (m, Err(f)),
        Ok(AnswerOf::Bytes(b)) => if type_url < m.attrs.len() && value < m.attrs.len() {
            (
                set_attr(
                    set_attr(m, type_url as int, Val::Str(packed_url(inner_desc))),
                    value as int,
                    Val::Bytes(b),
                ),
                Ok(St { src: st.src, asks: question::after_answer(st.asks) }),
            )
        } else {
            (m, Err(shape()))
        },
        Ok(_) => (m, Err(Fault::Fixed(Fixed::Answer))),
    }
}

/// Whether a step of reading ended as it should: with the message, and the state or error, that
/// `reading` tells.
pub open spec fn step_done(
    reading: (Msg, Result<St, Fault>),
    r: Result<(), Error>,
    after: Msg,
    src: SrcState,
    asks: Seq<Ans>,
    before: SrcState,
) -> bool {
    &&& after == reading.0
    &&& match reading.1 {
        Ok(st) => r is Ok && src == st.src && asks == st.asks && json_source::left(st.src)
            <= json_source::left(before),
        Err(f) => r is Err && error::fault_of(r->Err_0) == f,
    }
}

fn put_attr(message: &mut Message, i: usize, v: Value)
    requires
        i < old(message)@.attrs.len(),
    ensures
        final(message)@ == set_attr(old(message)@, i as int, v@),
{
    let mut place: Value = v;
    std::mem::swap(&mut message.attrs[i], &mut place);
    assert(value::list_view(message.attrs@) =~= value::list_view(old(message).attrs@).update(
        i as int,
        v@,
    ));
}

fn take_attr(message: &mut Message, i: usize) -> (r: Value)
    requires
        i < old(message)@.attrs.len(),
    ensures
        final(message)@ == set_attr(old(message)@, i as int, Val::Null),
        r@ == old(message)@.attrs[i as int],
{
    let mut place: Value = Value::Null;
    std::mem::swap(&mut message.attrs[i], &mut place);
    assert(value::list_view(message.attrs@) =~= value::list_view(old(message).attrs@).update(
        i as int,
        Val::Null,
    ));
    place
}

fn put_oneof(message: &mut Message, o: usize, oneof: Option<Oneof>)
    requires
        o < old(message)@.oneofs.len(),
    ensures
        final(message)@ == (Msg {
            oneofs: old(message)@.oneofs.update(
                o as int,
                match oneof {
                    Some(oneof) => Some((oneof.field@, oneof.value@)),
                    None => None,
                },
            ),
            ..old(message)@
        }),
{
    let mut place: Option<Oneof> = oneof;
    std::mem::swap(&mut message.oneofs[o], &mut place);
    assert(value::oneofs_view(message.oneofs@) =~= value::oneofs_view(
        old(message).oneofs@,
    ).update(
        o as int,
        match oneof {
            Some(oneof) => Some((oneof.field@, oneof.value@)),
            None => None,
        },
    ));
}

pub(crate) fn default_value(schema: &Schema, field: &DescField) -> (r: Value)
    ensures
        r@ == default_attr(*schema, *field),
{
    if field.oneof.is_some() {
        return Value::Null;
    }
    match field.value {
        DescFieldValue::Scalar { scalar_type } => zero_value(scalar_type),
        DescFieldValue::Enum { enum_ } => Value::Int(Integer::from_i64(first_number(schema, enum_))),
        DescFieldValue::Message { .. } => Value::Null,
        DescFieldValue::List { .. } => {
            let list: Vec<Value> = Vec::new();
            assert(value::list_view(list@) =~= seq![]);
            Value::List(list)
        },
        DescFieldValue::MapOf { .. } => {
            let dict: Vec<(Value, Value)> = Vec::new();
            assert(value::dict_view(dict@) =~= seq![]);
            Value::Dict(dict)
        },
    }
}

fn first_number(schema: &Schema, enum_: usize) -> (r: i64)
    ensures
        r == enum_zero(*schema, enum_),
{
    if enum_ < schema.enums.len() {
        schema.enums[enum_].zero as i64
    } else {
        0
    }
}

/// A message of the given type without any fields set.
pub fn new_empty_message(schema: &Schema, desc: usize) -> (r: Message)
    requires
        desc < schema.messages@.len(),
    ensures
        r@ == empty_msg(*schema, desc),
{
    let fields: &Vec<DescField> = &schema.messages[desc].fields;
    let mut attrs: Vec<Value> = Vec::new();
    let mut present: Vec<bool> = Vec::new();
    let mut i: usize = 0;
    while i < fields.len()
        invariant
            i <= fields@.len(),
            attrs@.len() == i,
            present@.len() == i,
            forall|j: int| 0 <= j < i ==> (#[trigger] attrs@[j])@ == default_attr(*schema, fields@[j]),
            forall|j: int| 0 <= j < i ==> !(#[trigger] present@[j]),
        decreases fields@.len() - i,
    {
        attrs.push(default_value(schema, &fields[i]));
        present.push(false);
        i = i + 1;
    }
    let count: usize = schema.messages[desc].oneof_count;
    let mut oneofs: Vec<Option<Oneof>> = Vec::new();
    let mut o: usize = 0;
    while o < count
        invariant
            o <= count,
            oneofs@.len() == o,
            forall|j: int| 0 <= j < o ==> (#[trigger] oneofs@[j]) is None,
        decreases count - o,
    {
        oneofs.push(None);
        o = o + 1;
    }
    let r = Message { desc, attrs, present, oneofs, unknown: Vec::new() };
    proof {
        let want = empty_msg(*schema, desc);
        assert(r@.attrs =~= want.attrs);
        assert(r@.present =~= want.present);
        assert(r@.oneofs =~= want.oneofs);
        assert(r@.unknown =~= want.unknown);
    }
    r
}

/// Sets a singular field.
fn assign_singular(message: &mut Message, field: &DescField, i: usize, v: Value) -> (r: Result<
    (),
    Error,
>)
    ensures
        match assigned(old(message)@, *field, i as int, v@) {
            Ok(m) => r is Ok && final(message)@ == m,
            Err(f) => r is Err && error::fault_of(r->Err_0) == f && final(message)@ == old(message)@,
        },
{
    match field.oneof {
        Some(o) => {
            if o >= message.oneofs.len() {
                return Err(ErrorOf::Fixed(Fixed::Shape));
            }
            put_oneof(message, o, Some(Oneof { field: field.local_name.clone(), value: v }));
        },
        None => {
            if i >= message.attrs.len() || i >= message.present.len() {
                return Err(ErrorOf::Fixed(Fixed::Shape));
            }
            put_attr(message, i, v);
            if field.requires_presence {
                message.present.set(i, true);
            }
        },
    }
    Ok(())
}

/// Clears a singular field.
fn del_singular(message: &mut Message, field: &DescField, i: usize, default: Value) -> (r: Result<
    (),
    Error,
>)
    ensures
        match cleared(old(message)@, *field, i as int, default@) {
            Ok(m) => r is Ok && final(message)@ == m,
            Err(f) => r is Err && error::fault_of(r->Err_0) == f && final(message)@ == old(message)@,
        },
{
    match field.oneof {
        Some(o) => {
            if o >= message.oneofs.len() {
                return Err(ErrorOf::Fixed(Fixed::Shape));
            }
            let holds: bool = match &message.oneofs[o] {
                Some(oneof) => same_text(oneof.field.as_str(), field.local_name.as_str()),
                None => false,
            };
            if holds {
                put_oneof(message, o, None);
            }
        },
        None => {
            if i >= message.attrs.len() || i >= message.present.len() {
                return Err(ErrorOf::Fixed(Fixed::Shape));
            }
            put_attr(message, i, default);
            message.present.set(i, false);
        },
    }
    Ok(())
}

/// Reads the string of a well-known type that is one in JSON.
fn expect_wkt_string<R: JsonSource>(src: &mut R, desc: &DescMessage) -> (r: Result<String, Error>)
    ensures
        match wkt_string(old(src).state(), *desc) {
            Ok((t, s)) => r is Ok && r->Ok_0@ == t && final(src).state() == s && json_source::left(s)
                <= json_source::left(old(src).state()),
            Err(f) => r is Err && error::fault_of(r->Err_0) == f,
        },
{
    match src.peek()? {
        JsonKind::String => src.next_string(),
        _ => {
            let v: Value = read_json_value(src)?;
            Err(ErrorOf::CannotDecode { name: desc.full_name.clone(), value: v })
        },
    }
}

fn set_seconds_nanos(message: &mut Message, seconds: usize, nanos: usize, at: (i64, i32)) -> (r:
    Result<(), Error>)
    ensures
        match seconds_nanos_set(old(message)@, seconds, nanos, at) {
            Ok(m) => r is Ok && final(message)@ == m,
            Err(f) => r is Err && error::fault_of(r->Err_0) == f && final(message)@ == old(message)@,
        },
{
    if seconds >= message.attrs.len() || nanos >= message.attrs.len() {
        return Err(ErrorOf::Fixed(Fixed::Shape));
    }
    put_attr(message, seconds, Value::Int(Integer::from_i64(at.0)));
    put_attr(message, nanos, Value::Int(Integer::from_i64(at.1 as i64)));
    Ok(())
}

fn list_ready(message: &Message, i: usize) -> (r: Result<(), Error>)
    ensures
        match list_attr(message@, i as int) {
            Ok(_) => r is Ok && i < message@.attrs.len(),
            Err(f) => r is Err && error::fault_of(r->Err_0) == f,
        },
{
    if i >= message.attrs.len() {
        return Err(ErrorOf::Fixed(Fixed::Shape));
    }
    match &message.attrs[i] {
        Value::List(_) => Ok(()),
        other => Err(ErrorOf::Cast { value: other.copy(), to: Expected::List }),
    }
}

fn dict_ready(message: &Message, i: usize) -> (r: Result<(), Error>)
    ensures
        match dict_attr(message@, i as int) {
            Ok(_) => r is Ok && i < message@.attrs.len(),
            Err(f) => r is Err && error::fault_of(r->Err_0) == f,
        },
{
    if i >= message.attrs.len() {
        return Err(ErrorOf::Fixed(Fixed::Shape));
    }
    match &message.attrs[i] {
        Value::Dict(_) => Ok(()),
        other => Err(ErrorOf::Cast { value: other.copy(), to: Expected::Dict }),
    }
}

/// Takes the list out of a field that holds one.
fn take_list(message: &mut Message, i: usize) -> (r: Vec<Value>)
    requires
        list_attr(old(message)@, i as int) is Ok,
    ensures
        list_attr(old(message)@, i as int) == Ok::<Seq<Val>, Fault>(value::list_view(r@)),
        final(message)@ == set_attr(old(message)@, i as int, Val::Null),
{
    match take_attr(message, i) {
        Value::List(list) => list,
        _ => Vec::new(),
    }
}

/// Takes the dictionary out of a field that holds one.
fn take_dict(message: &mut Message, i: usize) -> (r: Vec<(Value, Value)>)
    requires
        dict_attr(old(message)@, i as int) is Ok,
    ensures
        dict_attr(old(message)@, i as int) == Ok::<Seq<(Val, Val)>, Fault>(value::dict_view(r@)),
        final(message)@ == set_attr(old(message)@, i as int, Val::Null),
{
    match take_attr(message, i) {
        Value::Dict(dict) => dict,
        _ => Vec::new(),
    }
}

/// Putting a value where another was taken out is setting it.
proof fn lemma_set_twice(m: Msg, i: int, v: Val, w: Val)
    requires
        0 <= i < m.attrs.len(),
    ensures
        set_attr(set_attr(m, i, v), i, w) == set_attr(m, i, w),
{
    assert(m.attrs.update(i, v).update(i, w) =~= m.attrs.update(i, w));
}

fn read_field_mask<R: JsonSource>(
    src: &mut R,
    asks: &mut Answers,
    message: &mut Message,
    desc: &DescMessage,
    paths: usize,
) -> (r: Result<(), Error>)
    ensures
        step_done(
            field_mask_reading(
                old(message)@,
                *desc,
                paths,
                (St { src: old(src).state(), asks: old(asks)@ }),
            ),
            r,
            final(message)@,
            final(src).state(),
            final(asks)@,
            old(src).state(),
        ),
{
    let t: String = expect_wkt_string(src, desc)?;
    let chars: Vec<char> = chars_of(t.as_str());
    if chars.len() == 0 {
        return Ok(());
    }
    list_ready(message, paths)?;
    let mut list: Vec<Value> = take_list(message, paths);
    let r: Result<(), Error> = read_mask(desc.full_name.as_str(), t.as_str(), &mut list);
    put_attr(message, paths, Value::List(list));
    proof {
        lemma_set_twice(old(message)@, paths as int, Val::Null, Val::List(value::list_view(list@)));
    }
    r
}

fn read_wrapper<R: JsonSource>(
    src: &mut R,
    asks: &mut Answers,
    message: &mut Message,
    desc: &DescMessage,
    field: usize,
    scalar: ScalarType,
) -> (r: Result<(), Error>)
    ensures
        step_done(
            wrapper_reading(
                old(message)@,
                *desc,
                field,
                scalar,
                (St { src: old(src).state(), asks: old(asks)@ }),
            ),
            r,
            final(message)@,
            final(src).state(),
            final(asks)@,
            old(src).state(),
        ),
{
    if field >= desc.fields.len() || field >= message.attrs.len() {
        return Err(ErrorOf::Fixed(Fixed::Shape));
    }
    match src.peek()? {
        JsonKind::Null => {
            src.next_null()?;
            put_attr(message, field, zero_value(scalar));
        },
        _ => {
            let v: Value = read_scalar(src, asks, scalar, desc, &desc.fields[field])?;
            put_attr(message, field, v);
        },
    }
    Ok(())
}

fn remove_unknown(message: &mut Message, number: u32)
    ensures
        final(message)@ == (Msg {
            unknown: unknown_removed(old(message)@.unknown, number),
            ..old(message)@
        }),
{
    let mut kept: Vec<Unknown> = Vec::new();
    let mut rest: Vec<Unknown> = Vec::new();
    std::mem::swap(&mut message.unknown, &mut rest);
    let ghost all = value::unknown_view(old(message).unknown@);
    let mut i: usize = 0;
    assert(all.take(0) =~= seq![]);
    assert(value::unknown_view(kept@) =~= unknown_removed(all.take(0), number));
    while i < rest.len()
        invariant
            i <= rest@.len(),
            all.len() == rest@.len(),
            forall|j: int| i <= j < rest@.len() ==> all[j] == ((#[trigger] rest@[j]).number, rest@[j].value@),
            value::unknown_view(kept@) == unknown_removed(all.take(i as int), number),
        decreases rest@.len() - i,
    {
        assert(all.take(i + 1).drop_last() =~= all.take(i as int));
        let ghost before = value::unknown_view(kept@);
        let mut place: Unknown = Unknown { number: rest[i].number, value: Value::Null };
        std::mem::swap(&mut rest[i], &mut place);
        if place.number != number {
            kept.push(place);
            assert(value::unknown_view(kept@) =~= before.push(all[i as int]));
        }
        i = i + 1;
    }
    assert(all.take(i as int) =~= all);
    message.unknown = kept;
}

fn read_extension<R: JsonSource>(
    src: &mut R,
    asks: &mut Answers,
    message: &mut Message,
    ext: &Extension,
    index: usize,
) -> (r: Result<(), Error>)
    ensures
        step_done(
            extension_reading(
                old(message)@,
                *ext,
                index,
                (St { src: old(src).state(), asks: old(asks)@ }),
            ),
            r,
            final(message)@,
            final(src).state(),
            final(asks)@,
            old(src).state(),
        ),
{
    match read_json_value(src)? {
        Value::Null => {
            remove_unknown(message, ext.number);
            Ok(())
        },
        v => {
            let answer: Answer = asks.take(
                QuestionOf::ReadExtension { extension: index, value: v },
            )?;
            match answer {
                AnswerOf::Value(w) => {
                    remove_unknown(message, ext.number);
                    let ghost before = message@;
                    message.unknown.push(Unknown { number: ext.number, value: w });
                    assert(message@.unknown =~= before.unknown.push((ext.number, w@)));
                    Ok(())
                },
                _ => Err(ErrorOf::Fixed(Fixed::Answer)),
            }
        },
    }
}

/// Reads the value of a key that names no field.
fn handle_unknown_key<R: JsonSource>(
    src: &mut R,
    asks: &mut Answers,
    opts: &FromJsonOpts,
    message: &mut Message,
    desc: &DescMessage,
    key: &String,
) -> (r: Result<(), Error>)
    ensures
        step_done(
            unknown_key_reading(
                *opts,
                old(message)@,
                *desc,
                key@,
                (St { src: old(src).state(), asks: old(asks)@ }),
            ),
            r,
            final(message)@,
            final(src).state(),
            final(asks)@,
            old(src).state(),
        ),
{
    let chars: Vec<char> = chars_of(key.as_str());
    let n: usize = chars.len();
    if n >= 2 && chars[0] == '[' && chars[n - 1] == ']' {
        if let Some(registry) = &opts.registry {
            let name: String = text_between(&chars, 1, n - 1);
            if let Some(i) = find_extension(&registry.extensions, name.as_str()) {
                let ext: &Extension = &registry.extensions[i];
                if same_text(ext.extendee.as_str(), desc.full_name.as_str()) {
                    return read_extension(src, asks, message, ext, i);
                }
                return src.skip();
            }
        }
    }
    if opts.ignore_unknown_fields {
        src.skip()
    } else {
        Err(ErrorOf::UnknownKey { name: desc.full_name.clone(), key: key.clone() })
    }
}

/// Reads a message, in the way of its well-known type. Beyond the depth limit nothing is read and
/// the message stays as it was.
fn read_message(
    src: &mut Source<'_>,
    asks: &mut Answers,
    schema: &Schema,
    opts: &FromJsonOpts,
    message: &mut Message,
    depth: usize,
) -> (r: Result<(), Error>)
    ensures
        step_done(
            message_reading(
                *schema,
                *opts,
                old(message)@,
                (St { src: old(src).state(), asks: old(asks)@ }),
                depth as nat,
            ),
            r,
            final(message)@,
            final(src).state(),
            final(asks)@,
            old(src).state(),
        ),
        depth > DEPTH_LIMIT ==> r is Err && error::fault_of(r->Err_0) == Fault::RecursionLimit
            && final(src).state() == old(src).state() && final(asks)@ == old(asks)@
            && final(message)@ == old(message)@,
    decreases json_source::left(old(src).state()), depth_left(depth as nat), 9nat,
{
    if depth > DEPTH_LIMIT {
        return Err(ErrorOf::RecursionLimit);
    }
    if message.desc >= schema.messages.len() {
        return Err(ErrorOf::Fixed(Fixed::Shape));
    }
    let desc: &DescMessage = &schema.messages[message.desc];
    match desc.wkt {
        WktKind::Ordinary | WktKind::FileDescriptorSet => read_generic_object(
            src,
            asks,
            schema,
            opts,
            message,
            desc,
            depth,
        ),
        WktKind::Timestamp { seconds, nanos } => {
            let t: String = expect_wkt_string(src, desc)?;
            let at: (i64, i32) = parse_timestamp(desc.full_name.as_str(), t.as_str())?;
            set_seconds_nanos(message, seconds, nanos, at)
        },
        WktKind::Duration { seconds, nanos } => {
            let t: String = expect_wkt_string(src, desc)?;
            let at: (i64, i32) = parse_duration(desc.full_name.as_str(), t.as_str())?;
            set_seconds_nanos(message, seconds, nanos, at)
        },
        WktKind::FieldMask { paths } => read_field_mask(src, asks, message, desc, paths),
        WktKind::Wrapper { field, scalar } => read_wrapper(
            src,
            asks,
            message,
            desc,
            field,
            scalar,
        ),
        WktKind::Struct { fields } => read_struct(
            src,
            asks,
            schema,
            opts,
            message,
            desc,
            fields,
            depth,
        ),
        WktKind::ListValue { values } => read_list_value(
            src,
            asks,
            schema,
            opts,
            message,
            desc,
            values,
            depth,
        ),
        WktKind::Value { .. } => read_value(src, asks, schema, opts, message, desc, depth),
        WktKind::Any { type_url, value } => read_any(
            src,
            asks,
            schema,
            opts,
            message,
            desc,
            type_url,
            value,
            depth,
        ),
    }
}

/// Reads a message without a JSON form of its own.
fn read_generic_object(
    src: &mut Source<'_>,
    asks: &mut Answers,
    schema: &Schema,
    opts: &FromJsonOpts,
    message: &mut Message,
    desc: &DescMessage,
    depth: usize,
) -> (r: Result<(), Error>)
    requires
        depth <= DEPTH_LIMIT,
    ensures
        step_done(
            object_reading(
                *schema,
                *opts,
                old(message)@,
                *desc,
                (St { src: old(src).state(), asks: old(asks)@ }),
                depth as nat,
            ),
            r,
            final(message)@,
            final(src).state(),
            final(asks)@,
            old(src).state(),
        ),
    decreases json_source::left(old(src).state()), depth_left(depth as nat), 8nat,
{
    match src.peek()? {
        JsonKind::Object => {
            let (entries, key): (Entries, Option<String>) = src.next_object()?;
            match key {
                None => Ok(()),
                Some(key) => read_members(
                    src,
                    asks,
                    schema,
                    opts,
                    message,
                    desc,
                    entries,
                    key,
                    depth,
                ),
            }
        },
        _ => {
            let v: Value = read_json_value(src)?;
            Err(ErrorOf::CannotDecode { name: desc.qualname.clone(), value: v })
        },
    }
}

/// The keys, fields and oneofs of an object that were read so far.
struct Seen {
    keys: Vec<String>,
    fields: Vec<(usize, String)>,
    oneofs: Vec<(usize, String)>,
}

spec fn texts_view(texts: Seq<String>) -> Seq<Seq<char>> {
    texts.map_values(|t: String| t@)
}

spec fn numbered_view(texts: Seq<(usize, String)>) -> Seq<(usize, Seq<char>)> {
    texts.map_values(|t: (usize, String)| (t.0, t.1@))
}

impl Seen {
    spec fn view(&self) -> SeenKeys {
        SeenKeys {
            keys: texts_view(self.keys@),
            fields: numbered_view(self.fields@),
            oneofs: numbered_view(self.oneofs@),
        }
    }

    fn has_key(&self, key: &str) -> (r: bool)
        ensures
            r == self@.keys.contains(key@),
    {
        let mut i: usize = 0;
        while i < self.keys.len()
            invariant
                i <= self.keys@.len(),
                forall|j: int| 0 <= j < i ==> #[trigger] self@.keys[j] != key@,
            decreases self.keys@.len() - i,
        {
            if same_text(self.keys[i].as_str(), key) {
                assert(self@.keys[i as int] == key@);
                return true;
            }
            i = i + 1;
        }
        false
    }
}

/// The text that a number was first seen with.
fn find_seen(seen: &Vec<(usize, String)>, number: usize) -> (r: Option<String>)
    ensures
        json_text::key_view(r) == seen_with(numbered_view(seen@), number),
{
    let ghost all = numbered_view(seen@);
    let mut i: usize = 0;
    assert(all.skip(0) =~= all);
    while i < seen.len()
        invariant
            i <= seen@.len(),
            all == numbered_view(seen@),
            seen_with(all, number) == seen_with(all.skip(i as int), number),
        decreases seen@.len() - i,
    {
        if seen[i].0 == number {
            return Some(seen[i].1.clone());
        }
        assert(all.skip(i as int).skip(1) =~= all.skip(i + 1));
        i = i + 1;
    }
    None
}

/// Reads the members of an object from the value of a key on.
fn read_members(
    src: &mut Source<'_>,
    asks: &mut Answers,
    schema: &Schema,
    opts: &FromJsonOpts,
    message: &mut Message,
    desc: &DescMessage,
    start: Entries,
    first_key: String,
    depth: usize,
) -> (r: Result<(), Error>)
    requires
        depth <= DEPTH_LIMIT,
    ensures
        ({
            let reading = members_reading(
                *schema,
                *opts,
                old(message)@,
                *desc,
                (St { src: old(src).state(), asks: old(asks)@ }),
                start@,
                first_key@,
                SeenKeys { keys: seq![], fields: seq![], oneofs: seq![] },
                depth as nat,
            );
            &&& final(message)@ == reading.0
            &&& match reading.1 {
                Ok(st) => r is Ok && final(src).state() == st.src && final(asks)@ == st.asks
                    && json_source::left(st.src) <= json_source::entries_left(
                    old(src).state(),
                    start@,
                ),
                Err(f) => r is Err && error::fault_of(r->Err_0) == f,
            }
        }),
    decreases
            json_source::entries_left(old(src).state(), start@),
            depth_left(depth as nat),
            8nat,
{
    let ghost first = (message@, St { src: src.state(), asks: asks@ }, start@, first_key@);
    let mut entries: Entries = start;
    let mut key: String = first_key;
    let mut seen: Seen = Seen { keys: Vec::new(), fields: Vec::new(), oneofs: Vec::new() };
    proof {
        assert(seen@.keys =~= seq![]);
        assert(seen@.fields =~= seq![]);
        assert(seen@.oneofs =~= seq![]);
    }
    loop
        invariant
            depth <= DEPTH_LIMIT,
            first == (
                old(message)@,
                St { src: old(src).state(), asks: old(asks)@ },
                start@,
                first_key@,
            ),
            members_reading(
                *schema,
                *opts,
                first.0,
                *desc,
                first.1,
                first.2,
                first.3,
                SeenKeys { keys: seq![], fields: seq![], oneofs: seq![] },
                depth as nat,
            ) == members_reading(
                *schema,
                *opts,
                message@,
                *desc,
                (St { src: src.state(), asks: asks@ }),
                entries@,
                key@,
                seen@,
                depth as nat,
            ),
            json_source::entries_left(src.state(), entries@) <= json_source::entries_left(
                first.1.src,
                first.2,
            ),
        decreases json_source::entries_left(src.state(), entries@),
    {
        read_member(src, asks, schema, opts, message, desc, &key, &mut seen, depth)?;
        match src.next_key(&mut entries)? {
            Some(next) => {
                key = next;
            },
            None => {
                return Ok(());
            },
        }
    }
}

/// Reads the value of one key of an object.
fn read_member(
    src: &mut Source<'_>,
    asks: &mut Answers,
    schema: &Schema,
    opts: &FromJsonOpts,
    message: &mut Message,
    desc: &DescMessage,
    key: &String,
    seen: &mut Seen,
    depth: usize,
) -> (r: Result<(), Error>)
    requires
        depth <= DEPTH_LIMIT,
    ensures
        ({
            let reading = member_reading(
                *schema,
                *opts,
                old(message)@,
                *desc,
                (St { src: old(src).state(), asks: old(asks)@ }),
                key@,
                old(seen)@,
                depth as nat,
            );
            &&& step_done(
                (reading.0, reading.2),
                r,
                final(message)@,
                final(src).state(),
                final(asks)@,
                old(src).state(),
            )
            &&& r is Ok ==> final(seen)@ == reading.1
        }),
    decreases json_source::left(old(src).state()), depth_left(depth as nat), 7nat,
{
    if seen.has_key(key.as_str()) {
        return Err(ErrorOf::DuplicateKey { key: key.clone() });
    }
    seen.keys.push(key.clone());
    assert(seen@.keys =~= old(seen)@.keys.push(key@));
    let i: usize = match find_name(&desc.json_names, key.as_str()) {
        None => {
            return handle_unknown_key(src, asks, opts, message, desc, key);
        },
        Some(entry) => desc.json_names[entry].1,
    };
    if i >= desc.fields.len() {
        return Err(ErrorOf::Fixed(Fixed::FieldLookup));
    }
    let field: &DescField = &desc.fields[i];
    if let Some(first) = find_seen(&seen.fields, i) {
        return Err(ErrorOf::FieldTwice { first, second: key.clone() });
    }
    seen.fields.push((i, key.clone()));
    assert(seen@.fields =~= old(seen)@.fields.push((i, key@)));
    if let Some(o) = field.oneof {
        if let DescFieldValue::Scalar { .. } = field.value {
            if let JsonKind::Null = src.peek()? {
                src.next_null()?;
                return Ok(());
            }
        }
        if let Some(first) = find_seen(&seen.oneofs, o) {
            return Err(ErrorOf::OneofTwice { first, second: field.name.clone() });
        }
        seen.oneofs.push((o, field.name.clone()));
        assert(seen@.oneofs =~= old(seen)@.oneofs.push((o, field.name@)));
    }
    read_field(src, asks, schema, opts, message, desc, field, i, depth)
}

/// Reads the value of a field.
fn read_field(
    src: &mut Source<'_>,
    asks: &mut Answers,
    schema: &Schema,
    opts: &FromJsonOpts,
    message: &mut Message,
    desc: &DescMessage,
    field: &DescField,
    i: usize,
    depth: usize,
) -> (r: Result<(), Error>)
    requires
        depth <= DEPTH_LIMIT,
    ensures
        step_done(
            field_reading(
                *schema,
                *opts,
                old(message)@,
                *desc,
                *field,
                i as int,
                (St { src: old(src).state(), asks: old(asks)@ }),
                depth as nat,
            ),
            r,
            final(message)@,
            final(src).state(),
            final(asks)@,
            old(src).state(),
        ),
    decreases json_source::left(old(src).state()), depth_left(depth as nat), 5nat,
{
    match field.value {
        DescFieldValue::List { element } => read_list(
            src,
            asks,
            schema,
            opts,
            message,
            desc,
            field,
            i,
            element,
            depth,
        ),
        DescFieldValue::MapOf { key_type, value } => read_map(
            src,
            asks,
            schema,
            opts,
            message,
            desc,
            field,
            i,
            key_type,
            value,
            depth,
        ),
        _ => read_singular(src, asks, schema, opts, message, desc, field, i, depth),
    }
}

/// Reads the value of a field that is neither a list nor a map.
fn read_singular(
    src: &mut Source<'_>,
    asks: &mut Answers,
    schema: &Schema,
    opts: &FromJsonOpts,
    message: &mut Message,
    desc: &DescMessage,
    field: &DescField,
    i: usize,
    depth: usize,
) -> (r: Result<(), Error>)
    requires
        depth <= DEPTH_LIMIT,
        !(field.value is List) && !(field.value is MapOf),
    ensures
        step_done(
            field_reading(
                *schema,
                *opts,
                old(message)@,
                *desc,
                *field,
                i as int,
                (St { src: old(src).state(), asks: old(asks)@ }),
                depth as nat,
            ),
            r,
            final(message)@,
            final(src).state(),
            final(asks)@,
            old(src).state(),
        ),
    decreases json_source::left(old(src).state()), depth_left(depth as nat), 4nat,
{
    match field.value {
        DescFieldValue::Scalar { scalar_type } => {
            if let JsonKind::Null = src.peek()? {
                src.next_null()?;
                return del_singular(message, field, i, zero_value(scalar_type));
            }
            let v: Value = read_scalar(src, asks, scalar_type, desc, field)?;
            assign_singular(message, field, i, v)
        },
        DescFieldValue::Enum { enum_ } => {
            if enum_ >= schema.enums.len() {
                return Err(ErrorOf::Fixed(Fixed::Shape));
            }
            let e: &DescEnum = &schema.enums[enum_];
            let kind: JsonKind = src.peek()?;
            if kind == JsonKind::Null && !e.is_null_value {
                src.next_null()?;
                return del_singular(
                    message,
                    field,
                    i,
                    Value::Int(Integer::from_i64(e.zero as i64)),
                );
            }
            match read_enum(src, e, opts.ignore_unknown_fields)? {
                Some(v) => assign_singular(message, field, i, v),
                None => Ok(()),
            }
        },
        DescFieldValue::Message { message: inner } => read_message_field(
            src,
            asks,
            schema,
            opts,
            message,
            field,
            i,
            inner,
            depth,
        ),
        _ => Ok(()),
    }
}

/// Whether a value is a message of a type.
fn is_message_of(v: &Value, desc: usize) -> (r: bool)
    ensures
        r == (v@ matches Val::Message(m) && m.desc == desc),
{
    match v {
        Value::Message(m) => m.desc == desc,
        _ => false,
    }
}

/// Takes the message out of a field that holds one.
fn take_held(
    schema: &Schema,
    message: &mut Message,
    field: &DescField,
    i: usize,
    inner: usize,
) -> (r: Result<Option<Message>, Error>)
    requires
        inner < schema.messages@.len(),
    ensures
        match held(*schema, old(message)@, *field, i as int, inner) {
            Err(f) => r is Err && error::fault_of(r->Err_0) == f && final(message)@ == old(message)@,
            Ok(None) => r is Ok && r->Ok_0 is None && final(message)@ == old(message)@,
            Ok(Some(target)) => {
                &&& r is Ok
                &&& r->Ok_0 is Some
                &&& r->Ok_0->Some_0@ == target
                &&& final(message)@.desc == old(message)@.desc
                &&& forall|other: Msg|
                    #[trigger] held_put(final(message)@, *field, i as int, other) == held_put(
                        old(message)@,
                        *field,
                        i as int,
                        other,
                    )
                &&& held_at(final(message)@, *field, i as int)
            },
        },
{
    match field.oneof {
        Some(o) => {
            if o >= message.oneofs.len() {
                return Err(ErrorOf::Fixed(Fixed::Shape));
            }
            let mut taken: Option<Message> = None;
            match &message.oneofs[o] {
                Some(oneof) => {
                    if !same_text(oneof.field.as_str(), field.local_name.as_str()) {
                        return Ok(None);
                    }
                    match &oneof.value {
                        Value::Null => {
                            return Ok(None);
                        },
                        other => {
                            if !is_message_of(other, inner) {
                                return Err(message_value_type_error(schema, inner, other));
                            }
                        },
                    }
                },
                None => {
                    return Ok(None);
                },
            }
            let mut place: Option<Oneof> = None;
            std::mem::swap(&mut message.oneofs[o], &mut place);
            let ghost before = old(message)@;
            match place {
                Some(oneof) => {
                    match oneof.value {
                        Value::Message(target) => {
                            put_oneof(
                                message,
                                o,
                                Some(Oneof { field: oneof.field, value: Value::Null }),
                            );
                            proof {
                                assert forall|other: Msg| #[trigger]
                                    held_put(message@, *field, i as int, other) == held_put(
                                    before,
                                    *field,
                                    i as int,
                                    other,
                                ) by {
                                    assert(held_put(message@, *field, i as int, other).oneofs
                                        =~= held_put(before, *field, i as int, other).oneofs);
                                }
                            }
                            Ok(Some(target))
                        },
                        _ => Ok(None),
                    }
                },
                None => Ok(None),
            }
        },
        None => {
            if i >= message.attrs.len() {
                return Err(ErrorOf::Fixed(Fixed::Shape));
            }
            match &message.attrs[i] {
                Value::Null => {
                    return Ok(None);
                },
                other => {
                    if !is_message_of(other, inner) {
                        return Err(message_value_type_error(schema, inner, other));
                    }
                },
            }
            let ghost before = message@;
            match take_attr(message, i) {
                Value::Message(target) => {
                    proof {
                        assert forall|other: Msg| #[trigger]
                            held_put(message@, *field, i as int, other) == held_put(
                            before,
                            *field,
                            i as int,
                            other,
                        ) by {
                            lemma_set_twice(before, i as int, Val::Null, Val::Message(other));
                        }
                    }
                    Ok(Some(target))
                },
                _ => Ok(None),
            }
        },
    }
}

/// Whether a message has a place for the message that a field holds.
spec fn held_at(m: Msg, field: DescField, i: int) -> bool {
    match field.oneof {
        Some(o) => o < m.oneofs.len() && m.oneofs[o as int] is Some,
        None => 0 <= i < m.attrs.len(),
    }
}

/// Puts a message in the place of the one that a field held.
fn put_held(message: &mut Message, field: &DescField, i: usize, inner: Message)
    requires
        held_at(old(message)@, *field, i as int),
    ensures
        final(message)@ == held_put(old(message)@, *field, i as int, inner@),
{
    match field.oneof {
        Some(o) => {
            let name: String = match &message.oneofs[o] {
                Some(oneof) => oneof.field.clone(),
                None => String::new(),
            };
            put_oneof(message, o, Some(Oneof { field: name, value: Value::Message(inner) }));
        },
        None => {
            put_attr(message, i, Value::Message(inner));
        },
    }
}

/// Setting a field is the same whichever message it held before.
proof fn lemma_assign_over(m: Msg, field: DescField, i: int, inner: Msg, v: Val)
    requires
        held_at(m, field, i),
    ensures
        assigned(held_put(m, field, i, inner), field, i, v) == assigned(m, field, i, v) || assigned(
            held_put(m, field, i, inner),
            field,
            i,
            v,
        ) is Err,
        assigned(m, field, i, v) is Err <==> field.oneof is None && i >= m.present.len(),
        assigned(held_put(m, field, i, inner), field, i, v) is Err <==> field.oneof is None && i
            >= m.present.len(),
{
    let m2 = held_put(m, field, i, inner);
    match field.oneof {
        Some(o) => {
            assert(m2.oneofs.update(o as int, Some((field.local_name@, v))) =~= m.oneofs.update(
                o as int,
                Some((field.local_name@, v)),
            ));
        },
        None => {
            assert(m2.attrs.update(i, v) =~= m.attrs.update(i, v));
        },
    }
}

/// Reads a message field.
fn read_message_field(
    src: &mut Source<'_>,
    asks: &mut Answers,
    schema: &Schema,
    opts: &FromJsonOpts,
    message: &mut Message,
    field: &DescField,
    i: usize,
    inner: usize,
    depth: usize,
) -> (r: Result<(), Error>)
    requires
        depth <= DEPTH_LIMIT,
    ensures
        step_done(
            message_field_reading(
                *schema,
                *opts,
                old(message)@,
                *field,
                i as int,
                inner,
                (St { src: old(src).state(), asks: old(asks)@ }),
                depth as nat,
            ),
            r,
            final(message)@,
            final(src).state(),
            final(asks)@,
            old(src).state(),
        ),
    decreases json_source::left(old(src).state()), depth_left(depth as nat), 3nat,
{
    if inner >= schema.messages.len() {
        return Err(ErrorOf::Fixed(Fixed::Shape));
    }
    let is_value: bool = matches!(schema.messages[inner].wkt, WktKind::Value { .. });
    let kind: JsonKind = src.peek()?;
    if kind == JsonKind::Null && !is_value {
        src.next_null()?;
        return del_singular(message, field, i, Value::Null);
    }
    match take_held(schema, message, field, i, inner)? {
        Some(target) => {
            let mut target: Message = target;
            let out: Result<(), Error> = read_message(
                src,
                asks,
                schema,
                opts,
                &mut target,
                depth + 1,
            );
            let fits: bool = field.oneof.is_some() || i < message.present.len();
            proof {
                lemma_assign_over(message@, *field, i as int, target@, Val::Message(target@));
            }
            if out.is_ok() && fits {
                assign_singular(message, field, i, Value::Message(target))
            } else {
                put_held(message, field, i, target);
                out?;
                Err(ErrorOf::Fixed(Fixed::Shape))
            }
        },
        None => {
            let mut target: Message = new_empty_message(schema, inner);
            read_message(src, asks, schema, opts, &mut target, depth + 1)?;
            assign_singular(message, field, i, Value::Message(target))
        },
    }
}

/// Reads an element of a list or a value of a map. There is none if it is ignored.
fn read_container_item(
    src: &mut Source<'_>,
    asks: &mut Answers,
    schema: &Schema,
    opts: &FromJsonOpts,
    desc: &DescMessage,
    field: &DescField,
    element: DescSingleValue,
    is_map: bool,
    depth: usize,
) -> (r: Result<Option<Value>, Error>)
    requires
        depth <= DEPTH_LIMIT,
    ensures
        match item_reading(
            *schema,
            *opts,
            *desc,
            *field,
            element,
            is_map,
            (St { src: old(src).state(), asks: old(asks)@ }),
            depth as nat,
        ) {
            Ok((v, st)) => r is Ok && json_scalars::member_view(r->Ok_0) == v && final(src).state()
                == st.src && final(asks)@ == st.asks && json_source::left(st.src)
                <= json_source::left(old(src).state()),
            Err(f) => r is Err && error::fault_of(r->Err_0) == f,
        },
    decreases json_source::left(old(src).state()), depth_left(depth as nat), 1nat,
{
    let kind: JsonKind = src.peek()?;
    let is_null: bool = kind == JsonKind::Null;
    match element {
        DescSingleValue::Scalar(scalar) => {
            if !is_null {
                return Ok(Some(read_scalar(src, asks, scalar, desc, field)?));
            }
        },
        DescSingleValue::Enum(enum_) => {
            if enum_ >= schema.enums.len() {
                return Err(ErrorOf::Fixed(Fixed::Shape));
            }
            let e: &DescEnum = &schema.enums[enum_];
            if !is_null || e.is_null_value {
                return read_enum(src, e, opts.ignore_unknown_fields);
            }
        },
        DescSingleValue::Message(inner) => {
            if inner >= schema.messages.len() {
                return Err(ErrorOf::Fixed(Fixed::Shape));
            }
            let is_value: bool = matches!(schema.messages[inner].wkt, WktKind::Value { .. });
            if !is_null || is_value {
                let mut target: Message = new_empty_message(schema, inner);
                read_message(src, asks, schema, opts, &mut target, depth + 1)?;
                return Ok(Some(Value::Message(target)));
            }
        },
    }
    src.next_null()?;
    Err(container_null_error(desc, field, is_map))
}

fn container_null_error(desc: &DescMessage, field: &DescField, is_map: bool) -> (r: Error)
    ensures
        error::fault_of(r) == json_scalars::field_fault(
            if is_map {
                FieldFaultOf::NullMapValue
            } else {
                FieldFaultOf::NullListItem
            },
            *desc,
            *field,
        ),
{
    field_error(
        if is_map {
            FieldFaultOf::NullMapValue
        } else {
            FieldFaultOf::NullListItem
        },
        desc,
        field,
    )
}

/// Reads the elements of an array from one of them on.
fn read_elements(
    src: &mut Source<'_>,
    asks: &mut Answers,
    schema: &Schema,
    opts: &FromJsonOpts,
    desc: &DescMessage,
    field: &DescField,
    element: DescSingleValue,
    start: Items,
    list: &mut Vec<Value>,
    depth: usize,
) -> (r: Result<(), Error>)
    requires
        depth <= DEPTH_LIMIT,
    ensures
        ({
            let reading = elements_reading(
                *schema,
                *opts,
                *desc,
                *field,
                element,
                (St { src: old(src).state(), asks: old(asks)@ }),
                start@,
                value::list_view(old(list)@),
                depth as nat,
            );
            &&& value::list_view(final(list)@) == reading.0
            &&& match reading.1 {
                Ok(st) => r is Ok && final(src).state() == st.src && final(asks)@ == st.asks
                    && json_source::left(st.src) <= json_source::items_left(
                    old(src).state(),
                    start@,
                ),
                Err(f) => r is Err && error::fault_of(r->Err_0) == f,
            }
        }),
    decreases
            json_source::items_left(old(src).state(), start@),
            depth_left(depth as nat),
            2nat,
{
    let ghost first = (
        St { src: src.state(), asks: asks@ },
        start@,
        value::list_view(list@),
    );
    let mut items: Items = start;
    loop
        invariant
            depth <= DEPTH_LIMIT,
            first == (
                St { src: old(src).state(), asks: old(asks)@ },
                start@,
                value::list_view(old(list)@),
            ),
            elements_reading(
                *schema,
                *opts,
                *desc,
                *field,
                element,
                first.0,
                first.1,
                first.2,
                depth as nat,
            ) == elements_reading(
                *schema,
                *opts,
                *desc,
                *field,
                element,
                (St { src: src.state(), asks: asks@ }),
                items@,
                value::list_view(list@),
                depth as nat,
            ),
            json_source::items_left(src.state(), items@) <= json_source::items_left(
                first.0.src,
                first.1,
            ),
        decreases json_source::items_left(src.state(), items@),
    {
        let ghost before = value::list_view(list@);
        let item: Option<Value> = read_container_item(
            src,
            asks,
            schema,
            opts,
            desc,
            field,
            element,
            false,
            depth,
        )?;
        match item {
            Some(v) => {
                list.push(v);
                assert(value::list_view(list@) =~= before.push(v@));
            },
            None => {},
        }
        let more: bool = src.array_step(&mut items)?;
        if !more {
            return Ok(());
        }
    }
}

/// Reads a list field.
fn read_list(
    src: &mut Source<'_>,
    asks: &mut Answers,
    schema: &Schema,
    opts: &FromJsonOpts,
    message: &mut Message,
    desc: &DescMessage,
    field: &DescField,
    i: usize,
    element: DescSingleValue,
    depth: usize,
) -> (r: Result<(), Error>)
    requires
        depth <= DEPTH_LIMIT,
    ensures
        step_done(
            list_field_reading(
                *schema,
                *opts,
                old(message)@,
                *desc,
                *field,
                i as int,
                element,
                (St { src: old(src).state(), asks: old(asks)@ }),
                depth as nat,
            ),
            r,
            final(message)@,
            final(src).state(),
            final(asks)@,
            old(src).state(),
        ),
    decreases json_source::left(old(src).state()), depth_left(depth as nat), 4nat,
{
    match src.peek()? {
        JsonKind::Null => src.next_null(),
        JsonKind::Array => {
            list_ready(message, i)?;
            let (items, more): (Items, bool) = src.next_array()?;
            if !more {
                return Ok(());
            }
            let mut list: Vec<Value> = take_list(message, i);
            let out: Result<(), Error> = read_elements(
                src,
                asks,
                schema,
                opts,
                desc,
                field,
                element,
                items,
                &mut list,
                depth,
            );
            put_attr(message, i, Value::List(list));
            proof {
                lemma_set_twice(
                    old(message)@,
                    i as int,
                    Val::Null,
                    Val::List(value::list_view(list@)),
                );
            }
            out
        },
        _ => {
            let v: Value = read_json_value(src)?;
            Err(field_error(FieldFaultOf::ExpectedList(v), desc, field))
        },
    }
}

/// Reads the entries of a map from the value of a key on.
fn read_pairs(
    src: &mut Source<'_>,
    asks: &mut Answers,
    schema: &Schema,
    opts: &FromJsonOpts,
    desc: &DescMessage,
    field: &DescField,
    key_type: ScalarType,
    value: DescSingleValue,
    start: Entries,
    first_key: String,
    dict: &mut Vec<(Value, Value)>,
    depth: usize,
) -> (r: Result<(), Error>)
    requires
        depth <= DEPTH_LIMIT,
    ensures
        ({
            let reading = pairs_reading(
                *schema,
                *opts,
                *desc,
                *field,
                key_type,
                value,
                (St { src: old(src).state(), asks: old(asks)@ }),
                start@,
                first_key@,
                value::dict_view(old(dict)@),
                depth as nat,
            );
            &&& value::dict_view(final(dict)@) == reading.0
            &&& match reading.1 {
                Ok(st) => r is Ok && final(src).state() == st.src && final(asks)@ == st.asks
                    && json_source::left(st.src) <= json_source::entries_left(
                    old(src).state(),
                    start@,
                ),
                Err(f) => r is Err && error::fault_of(r->Err_0) == f,
            }
        }),
    decreases
            json_source::entries_left(old(src).state(), start@),
            depth_left(depth as nat),
            2nat,
{
    let ghost first = (
        St { src: src.state(), asks: asks@ },
        start@,
        first_key@,
        value::dict_view(dict@),
    );
    let mut entries: Entries = start;
    let mut key: String = first_key;
    loop
        invariant
            depth <= DEPTH_LIMIT,
            first == (
                St { src: old(src).state(), asks: old(asks)@ },
                start@,
                first_key@,
                value::dict_view(old(dict)@),
            ),
            pairs_reading(
                *schema,
                *opts,
                *desc,
                *field,
                key_type,
                value,
                first.0,
                first.1,
                first.2,
                first.3,
                depth as nat,
            ) == pairs_reading(
                *schema,
                *opts,
                *desc,
                *field,
                key_type,
                value,
                (St { src: src.state(), asks: asks@ }),
                entries@,
                key@,
                value::dict_view(dict@),
                depth as nat,
            ),
            json_source::entries_left(src.state(), entries@) <= json_source::entries_left(
                first.0.src,
                first.1,
            ),
        decreases json_source::entries_left(src.state(), entries@),
    {
        let k: Value = read_map_key(asks, key_type, key, desc, field)?;
        let item: Option<Value> = read_container_item(
            src,
            asks,
            schema,
            opts,
            desc,
            field,
            value,
            true,
            depth,
        )?;
        match item {
            Some(v) => {
                set_entry(dict, k, v);
            },
            None => {},
        }
        match src.next_key(&mut entries)? {
            Some(next) => {
                key = next;
            },
            None => {
                return Ok(());
            },
        }
    }
}

/// Reads a map field.
fn read_map(
    src: &mut Source<'_>,
    asks: &mut Answers,
    schema: &Schema,
    opts: &FromJsonOpts,
    message: &mut Message,
    desc: &DescMessage,
    field: &DescField,
    i: usize,
    key_type: ScalarType,
    value: DescSingleValue,
    depth: usize,
) -> (r: Result<(), Error>)
    requires
        depth <= DEPTH_LIMIT,
    ensures
        step_done(
            map_field_reading(
                *schema,
                *opts,
                old(message)@,
                *desc,
                *field,
                i as int,
                key_type,
                value,
                (St { src: old(src).state(), asks: old(asks)@ }),
                depth as nat,
            ),
            r,
            final(message)@,
            final(src).state(),
            final(asks)@,
            old(src).state(),
        ),
    decreases json_source::left(old(src).state()), depth_left(depth as nat), 4nat,
{
    match src.peek()? {
        JsonKind::Null => src.next_null(),
        JsonKind::Object => {
            dict_ready(message, i)?;
            let (entries, key): (Entries, Option<String>) = src.next_object()?;
            match key {
                None => Ok(()),
                Some(key) => {
                    let mut dict: Vec<(Value, Value)> = take_dict(message, i);
                    let out: Result<(), Error> = read_pairs(
                        src,
                        asks,
                        schema,
                        opts,
                        desc,
                        field,
                        key_type,
                        value,
                        entries,
                        key,
                        &mut dict,
                        depth,
                    );
                    put_attr(message, i, Value::Dict(dict));
                    proof {
                        lemma_set_twice(
                            old(message)@,
                            i as int,
                            Val::Null,
                            Val::Dict(value::dict_view(dict@)),
                        );
                    }
                    out
                },
            }
        },
        _ => {
            let v: Value = read_json_value(src)?;
            Err(field_error(FieldFaultOf::ExpectedDict(v), desc, field))
        },
    }
}

/// Reads the messages of an object from the value of a key on.
fn read_named_messages(
    src: &mut Source<'_>,
    asks: &mut Answers,
    schema: &Schema,
    opts: &FromJsonOpts,
    inner: usize,
    start: Entries,
    first_key: String,
    dict: &mut Vec<(Value, Value)>,
    depth: usize,
) -> (r: Result<(), Error>)
    requires
        depth <= DEPTH_LIMIT,
        inner < schema.messages@.len(),
    ensures
        ({
            let reading = named_messages_reading(
                *schema,
                *opts,
                inner,
                (St { src: old(src).state(), asks: old(asks)@ }),
                start@,
                first_key@,
                value::dict_view(old(dict)@),
                depth as nat,
            );
            &&& value::dict_view(final(dict)@) == reading.0
            &&& match reading.1 {
                Ok(st) => r is Ok && final(src).state() == st.src && final(asks)@ == st.asks
                    && json_source::left(st.src) <= json_source::entries_left(
                    old(src).state(),
                    start@,
                ),
                Err(f) => r is Err && error::fault_of(r->Err_0) == f,
            }
        }),
    decreases
            json_source::entries_left(old(src).state(), start@),
            depth_left(depth as nat),
            2nat,
{
    let ghost first = (
        St { src: src.state(), asks: asks@ },
        start@,
        first_key@,
        value::dict_view(dict@),
    );
    let mut entries: Entries = start;
    let mut key: String = first_key;
    loop
        invariant
            depth <= DEPTH_LIMIT,
            inner < schema.messages@.len(),
            first == (
                St { src: old(src).state(), asks: old(asks)@ },
                start@,
                first_key@,
                value::dict_view(old(dict)@),
            ),
            named_messages_reading(
                *schema,
                *opts,
                inner,
                first.0,
                first.1,
                first.2,
                first.3,
                depth as nat,
            ) == named_messages_reading(
                *schema,
                *opts,
                inner,
                (St { src: src.state(), asks: asks@ }),
                entries@,
                key@,
                value::dict_view(dict@),
                depth as nat,
            ),
            json_source::entries_left(src.state(), entries@) <= json_source::entries_left(
                first.0.src,
                first.1,
            ),
        decreases json_source::entries_left(src.state(), entries@),
    {
        let mut target: Message = new_empty_message(schema, inner);
        read_message(src, asks, schema, opts, &mut target, depth + 1)?;
        set_entry(dict, Value::Str(key), Value::Message(target));
        match src.next_key(&mut entries)? {
            Some(next) => {
                key = next;
            },
            None => {
                return Ok(());
            },
        }
    }
}

fn find_struct_value_type(schema: &Schema, desc: &DescMessage, fields: usize) -> (r: Result<
    usize,
    Error,
>)
    ensures
        error::outcome(r) == struct_value_type(*schema, *desc, fields),
{
    if fields >= desc.fields.len() {
        return Err(ErrorOf::Fixed(Fixed::Shape));
    }
    match desc.fields[fields].value {
        DescFieldValue::MapOf { value, .. } => match value {
            DescSingleValue::Message(inner) => if inner < schema.messages.len() {
                Ok(inner)
            } else {
                Err(ErrorOf::Fixed(Fixed::Shape))
            },
            _ => Err(ErrorOf::Fixed(Fixed::StructValue)),
        },
        _ => Err(ErrorOf::Fixed(Fixed::StructMap)),
    }
}

/// Reads a `Struct`.
fn read_struct(
    src: &mut Source<'_>,
    asks: &mut Answers,
    schema: &Schema,
    opts: &FromJsonOpts,
    message: &mut Message,
    desc: &DescMessage,
    fields: usize,
    depth: usize,
) -> (r: Result<(), Error>)
    requires
        depth <= DEPTH_LIMIT,
    ensures
        step_done(
            struct_reading(
                *schema,
                *opts,
                old(message)@,
                *desc,
                fields,
                (St { src: old(src).state(), asks: old(asks)@ }),
                depth as nat,
            ),
            r,
            final(message)@,
            final(src).state(),
            final(asks)@,
            old(src).state(),
        ),
    decreases json_source::left(old(src).state()), depth_left(depth as nat), 8nat,
{
    match src.peek()? {
        JsonKind::Object => {
            let inner: usize = find_struct_value_type(schema, desc, fields)?;
            dict_ready(message, fields)?;
            let (entries, key): (Entries, Option<String>) = src.next_object()?;
            match key {
                None => Ok(()),
                Some(key) => {
                    let mut dict: Vec<(Value, Value)> = take_dict(message, fields);
                    let out: Result<(), Error> = read_named_messages(
                        src,
                        asks,
                        schema,
                        opts,
                        inner,
                        entries,
                        key,
                        &mut dict,
                        depth,
                    );
                    put_attr(message, fields, Value::Dict(dict));
                    proof {
                        lemma_set_twice(
                            old(message)@,
                            fields as int,
                            Val::Null,
                            Val::Dict(value::dict_view(dict@)),
                        );
                    }
                    out
                },
            }
        },
        _ => {
            let v: Value = read_json_value(src)?;
            Err(ErrorOf::CannotDecode { name: desc.full_name.clone(), value: v })
        },
    }
}

/// Reads the messages of an array from one of them on.
fn read_messages(
    src: &mut Source<'_>,
    asks: &mut Answers,
    schema: &Schema,
    opts: &FromJsonOpts,
    inner: usize,
    start: Items,
    list: &mut Vec<Value>,
    depth: usize,
) -> (r: Result<(), Error>)
    requires
        depth <= DEPTH_LIMIT,
        inner < schema.messages@.len(),
    ensures
        ({
            let reading = messages_reading(
                *schema,
                *opts,
                inner,
                (St { src: old(src).state(), asks: old(asks)@ }),
                start@,
                value::list_view(old(list)@),
                depth as nat,
            );
            &&& value::list_view(final(list)@) == reading.0
            &&& match reading.1 {
                Ok(st) => r is Ok && final(src).state() == st.src && final(asks)@ == st.asks
                    && json_source::left(st.src) <= json_source::items_left(
                    old(src).state(),
                    start@,
                ),
                Err(f) => r is Err && error::fault_of(r->Err_0) == f,
            }
        }),
    decreases
            json_source::items_left(old(src).state(), start@),
            depth_left(depth as nat),
            2nat,
{
    let ghost first = (
        St { src: src.state(), asks: asks@ },
        start@,
        value::list_view(list@),
    );
    let mut items: Items = start;
    loop
        invariant
            depth <= DEPTH_LIMIT,
            inner < schema.messages@.len(),
            first == (
                St { src: old(src).state(), asks: old(asks)@ },
                start@,
                value::list_view(old(list)@),
            ),
            messages_reading(
                *schema,
                *opts,
                inner,
                first.0,
                first.1,
                first.2,
                depth as nat,
            ) == messages_reading(
                *schema,
                *opts,
                inner,
                (St { src: src.state(), asks: asks@ }),
                items@,
                value::list_view(list@),
                depth as nat,
            ),
            json_source::items_left(src.state(), items@) <= json_source::items_left(
                first.0.src,
                first.1,
            ),
        decreases json_source::items_left(src.state(), items@),
    {
        let ghost before = value::list_view(list@);
        let mut target: Message = new_empty_message(schema, inner);
        read_message(src, asks, schema, opts, &mut target, depth + 1)?;
        list.push(Value::Message(target));
        assert(value::list_view(list@) =~= before.push(Val::Message(target@)));
        let more: bool = src.array_step(&mut items)?;
        if !more {
            return Ok(());
        }
    }
}

fn find_list_element_type(schema: &Schema, desc: &DescMessage, values: usize) -> (r: Result<
    usize,
    Error,
>)
    ensures
        error::outcome(r) == list_element_type(*schema, *desc, values),
{
    if values >= desc.fields.len() {
        return Err(ErrorOf::Fixed(Fixed::Shape));
    }
    match desc.fields[values].value {
        DescFieldValue::List { element } => match element {
            DescSingleValue::Message(inner) => if inner < schema.messages.len() {
                Ok(inner)
            } else {
                Err(ErrorOf::Fixed(Fixed::Shape))
            },
            _ => Err(ErrorOf::Fixed(Fixed::ListValueElement)),
        },
        _ => Err(ErrorOf::Fixed(Fixed::ListValueElement)),
    }
}

/// Reads a `ListValue`.
fn read_list_value(
    src: &mut Source<'_>,
    asks: &mut Answers,
    schema: &Schema,
    opts: &FromJsonOpts,
    message: &mut Message,
    desc: &DescMessage,
    values: usize,
    depth: usize,
) -> (r: Result<(), Error>)
    requires
        depth <= DEPTH_LIMIT,
    ensures
        step_done(
            list_value_reading(
                *schema,
                *opts,
                old(message)@,
                *desc,
                values,
                (St { src: old(src).state(), asks: old(asks)@ }),
                depth as nat,
            ),
            r,
            final(message)@,
            final(src).state(),
            final(asks)@,
            old(src).state(),
        ),
    decreases json_source::left(old(src).state()), depth_left(depth as nat), 8nat,
{
    match src.peek()? {
        JsonKind::Array => {
            let inner: usize = find_list_element_type(schema, desc, values)?;
            list_ready(message, values)?;
            let (items, more): (Items, bool) = src.next_array()?;
            if !more {
                return Ok(());
            }
            let mut list: Vec<Value> = take_list(message, values);
            let out: Result<(), Error> = read_messages(
                src,
                asks,
                schema,
                opts,
                inner,
                items,
                &mut list,
                depth,
            );
            put_attr(message, values, Value::List(list));
            proof {
                lemma_set_twice(
                    old(message)@,
                    values as int,
                    Val::Null,
                    Val::List(value::list_view(list@)),
                );
            }
            out
        },
        _ => {
            let v: Value = read_json_value(src)?;
            Err(ErrorOf::CannotDecode { name: desc.full_name.clone(), value: v })
        },
    }
}

fn find_value_field(kind: JsonKind, wkt: WktKind) -> (r: usize)
    ensures
        r == value_field(kind, wkt),
{
    match wkt {
        WktKind::Value {
            null_value,
            number_value,
            string_value,
            bool_value,
            struct_value,
            list_value,
        } => match kind {
            JsonKind::Null => null_value,
            JsonKind::Bool => bool_value,
            JsonKind::Number => number_value,
            JsonKind::String => string_value,
            JsonKind::Array => list_value,
            JsonKind::Object => struct_value,
        },
        _ => 0,
    }
}

fn find_value_oneof(message: &Message, desc: &DescMessage) -> (r: Result<usize, Error>)
    ensures
        error::outcome(r) == value_oneof(message@, *desc),
{
    let i: usize = find_value_field(JsonKind::Null, desc.wkt);
    if i >= desc.fields.len() {
        return Err(ErrorOf::Fixed(Fixed::Shape));
    }
    match desc.fields[i].oneof {
        None => Err(ErrorOf::Fixed(Fixed::ValueKindMissing)),
        Some(o) => if o < message.oneofs.len() {
            Ok(o)
        } else {
            Err(ErrorOf::Fixed(Fixed::Shape))
        },
    }
}

/// Reads the value that a `Value` holds.
fn read_kind(
    src: &mut Source<'_>,
    asks: &mut Answers,
    schema: &Schema,
    opts: &FromJsonOpts,
    kind: JsonKind,
    field: &DescField,
    depth: usize,
) -> (r: Result<Value, Error>)
    requires
        depth <= DEPTH_LIMIT,
    ensures
        match kind_reading(
            *schema,
            *opts,
            kind,
            *field,
            (St { src: old(src).state(), asks: old(asks)@ }),
            depth as nat,
        ) {
            Ok((v, st)) => r is Ok && r->Ok_0@ == v && final(src).state() == st.src && final(asks)@
                == st.asks && json_source::left(st.src) <= json_source::left(old(src).state()),
            Err(f) => r is Err && error::fault_of(r->Err_0) == f,
        },
    decreases json_source::left(old(src).state()), depth_left(depth as nat), 7nat,
{
    match kind {
        JsonKind::Null => {
            src.next_null()?;
            match field.value {
                DescFieldValue::Enum { enum_ } => Ok(
                    Value::Int(Integer::from_i64(first_number(schema, enum_))),
                ),
                _ => Err(ErrorOf::Fixed(Fixed::ValueNullEnum)),
            }
        },
        JsonKind::Bool => Ok(Value::Bool(src.next_bool()?)),
        JsonKind::Number => Ok(Value::Float(src.next_float()?)),
        JsonKind::String => Ok(Value::Str(src.next_string()?)),
        _ => match field.value {
            DescFieldValue::Message { message: inner } => {
                if inner >= schema.messages.len() {
                    return Err(ErrorOf::Fixed(Fixed::Shape));
                }
                let mut target: Message = new_empty_message(schema, inner);
                read_message(src, asks, schema, opts, &mut target, depth + 1)?;
                Ok(Value::Message(target))
            },
            _ => Err(ErrorOf::Fixed(Fixed::MessageField)),
        },
    }
}

/// Reads a `Value`.
fn read_value(
    src: &mut Source<'_>,
    asks: &mut Answers,
    schema: &Schema,
    opts: &FromJsonOpts,
    message: &mut Message,
    desc: &DescMessage,
    depth: usize,
) -> (r: Result<(), Error>)
    requires
        depth <= DEPTH_LIMIT,
    ensures
        step_done(
            value_message_reading(
                *schema,
                *opts,
                old(message)@,
                *desc,
                (St { src: old(src).state(), asks: old(asks)@ }),
                depth as nat,
            ),
            r,
            final(message)@,
            final(src).state(),
            final(asks)@,
            old(src).state(),
        ),
    decreases json_source::left(old(src).state()), depth_left(depth as nat), 8nat,
{
    let o: usize = find_value_oneof(message, desc)?;
    let kind: JsonKind = src.peek()?;
    let i: usize = find_value_field(kind, desc.wkt);
    if i >= desc.fields.len() {
        return Err(ErrorOf::Fixed(Fixed::Shape));
    }
    let field: &DescField = &desc.fields[i];
    let v: Value = read_kind(src, asks, schema, opts, kind, field, depth)?;
    put_oneof(message, o, Some(Oneof { field: field.name.clone(), value: v }));
    Ok(())
}

/// The name in a type URL.
pub(crate) fn name_of_url(url: &str) -> (r: String)
    ensures
        r@ == url_name(url@),
{
    let chars: Vec<char> = chars_of(url);
    let mut from: usize = 0;
    let mut i: usize = 0;
    assert(chars@.subrange(0, 0) =~= seq![]);
    assert(chars@.take(0) =~= seq![]);
    while i < chars.len()
        invariant
            from <= i <= chars@.len(),
            url_name(chars@.take(i as int)) == chars@.subrange(from as int, i as int),
        decreases chars@.len() - i,
    {
        assert(chars@.take(i + 1).drop_last() =~= chars@.take(i as int));
        if chars[i] == '/' {
            from = i + 1;
            assert(chars@.subrange(from as int, i + 1) =~= seq![]);
        } else {
            assert(chars@.subrange(from as int, i + 1) =~= chars@.subrange(
                from as int,
                i as int,
            ).push(chars@[i as int]));
        }
        i = i + 1;
    }
    assert(chars@.take(i as int) =~= chars@);
    text_between(&chars, from, i)
}

/// The message type of the registry with the given name.
pub(crate) fn find_registered(registry: &Option<Registry>, name: &str) -> (r: Option<usize>)
    ensures
        r == registered(*registry, name@),
{
    match registry {
        Some(registry) => match find_name(&registry.messages, name) {
            Some(i) => Some(registry.messages[i].1),
            None => None,
        },
        None => None,
    }
}

/// A dictionary without an entry is smaller.
proof fn lemma_entries_remove(entries: Seq<(Val, Val)>, i: int)
    requires
        0 <= i < entries.len(),
    ensures
        value::entries_size(entries.remove(i)) + 1 + value::tree_size(entries[i].1)
            == value::entries_size(entries),
    decreases entries.len(),
{
    let shorter = entries.remove(i);
    if i == 0 {
        assert(shorter =~= entries.skip(1));
    } else {
        lemma_entries_remove(entries.skip(1), i - 1);
        assert(shorter.skip(1) =~= entries.skip(1).remove(i - 1));
    }
}

/// The content of an `Any` is smaller than its JSON form.
pub(crate) proof fn lemma_any_content(dict: Seq<(Val, Val)>, ordinary: bool)
    requires
        value::dict_index(dict, Val::Str("@type"@)) is Some,
    ensures
        value::tree_size(any_content(dict, ordinary)) < value::tree_size(Val::Dict(dict)),
{
    value::lemma_dict_index(dict, Val::Str("value"@));
    value::lemma_dict_index(dict, Val::Str("@type"@));
    match value::dict_index(dict, Val::Str("value"@)) {
        Some(i) => lemma_entries_remove(dict, i),
        None => {},
    }
    match value::dict_index(dict, Val::Str("@type"@)) {
        Some(i) => lemma_entries_remove(dict, i),
        None => {},
    }
}

/// The type URL in the JSON form of an `Any`, and the form itself.
fn find_any_url(name: &String, dict: Vec<(Value, Value)>) -> (r: Result<
    (String, Vec<(Value, Value)>, usize),
    Error,
>)
    ensures
        match any_url(name@, value::dict_view(dict@)) {
            Ok(url) => {
                &&& r is Ok
                &&& r->Ok_0.0@ == url
                &&& r->Ok_0.1 == dict
                &&& value::dict_index(value::dict_view(dict@), Val::Str("@type"@)) == Some(
                    r->Ok_0.2 as int,
                )
                &&& r->Ok_0.2 < dict@.len()
            },
            Err(f) => r is Err && error::fault_of(r->Err_0) == f,
        },
{
    match find_key(&dict, &Value::Str("@type".to_owned())) {
        Some(i) => {
            if let Value::Str(url) = &dict[i].1 {
                let chars: Vec<char> = chars_of(url.as_str());
                if chars.len() > 0 {
                    let url: String = url.clone();
                    return Ok((url, dict, i));
                }
            }
        },
        None => {},
    }
    Err(ErrorOf::AnyTypeInvalid { name: name.clone(), value: Value::Dict(dict) })
}

/// The JSON value within the JSON form of an `Any`, whose member `@type` has the given index.
fn take_any_content(dict: Vec<(Value, Value)>, type_at: usize, ordinary: bool) -> (r: Value)
    requires
        value::dict_index(value::dict_view(dict@), Val::Str("@type"@)) == Some(type_at as int),
        type_at < dict@.len(),
    ensures
        r@ == any_content(value::dict_view(dict@), ordinary),
{
    let mut dict: Vec<(Value, Value)> = dict;
    let ghost all = value::dict_view(dict@);
    if !ordinary {
        if let Some(i) = find_key(&dict, &Value::Str("value".to_owned())) {
            let mut place: Value = Value::Null;
            std::mem::swap(&mut dict[i].1, &mut place);
            return place;
        }
    }
    let _removed: (Value, Value) = dict.remove(type_at);
    assert(value::dict_view(dict@) =~= all.remove(type_at as int));
    Value::Dict(dict)
}

/// Packs a message into an `Any`.
fn pack_any(
    asks: &mut Answers,
    message: &mut Message,
    inner_desc: &DescMessage,
    inner: Message,
    type_url: usize,
    value: usize,
) -> (r: Result<(), Error>)
    ensures
        forall|src: SrcState|
            {
                let reading = #[trigger] any_packing(
                    old(message)@,
                    *inner_desc,
                    inner@,
                    type_url,
                    value,
                    (St { src, asks: old(asks)@ }),
                );
                &&& final(message)@ == reading.0
                &&& match reading.1 {
                    Ok(st) => r is Ok && st.src == src && final(asks)@ == st.asks,
                    Err(f) => r is Err && error::fault_of(r->Err_0) == f,
                }
            },
{
    let answer: Answer = asks.take(QuestionOf::Pack(inner))?;
    match answer {
        AnswerOf::Bytes(b) => {
            if type_url >= message.attrs.len() || value >= message.attrs.len() {
                return Err(ErrorOf::Fixed(Fixed::Shape));
            }
            let mut url: String = "type.googleapis.com/".to_owned();
            url.append(inner_desc.full_name.as_str());
            put_attr(message, type_url, Value::Str(url));
            put_attr(message, value, Value::Bytes(b));
            Ok(())
        },
        _ => Err(ErrorOf::Fixed(Fixed::Answer)),
    }
}

/// Reads an `Any`.
fn read_any(
    src: &mut Source<'_>,
    asks: &mut Answers,
    schema: &Schema,
    opts: &FromJsonOpts,
    message: &mut Message,
    desc: &DescMessage,
    type_url: usize,
    value: usize,
    depth: usize,
) -> (r: Result<(), Error>)
    requires
        depth <= DEPTH_LIMIT,
    ensures
        step_done(
            any_reading(
                *schema,
                *opts,
                old(message)@,
                *desc,
                type_url,
                value,
                (St { src: old(src).state(), asks: old(asks)@ }),
                depth as nat,
            ),
            r,
            final(message)@,
            final(src).state(),
            final(asks)@,
            old(src).state(),
        ),
    decreases json_source::left(old(src).state()), depth_left(depth as nat), 8nat,
{
    let tree: Value = read_json_value(src)?;
    let dict: Vec<(Value, Value)> = match tree {
        Value::Dict(dict) => dict,
        other => {
            return Err(ErrorOf::CannotDecode { name: desc.full_name.clone(), value: other });
        },
    };
    if dict.len() == 0 {
        return Ok(());
    }
    let (url, dict, type_at): (String, Vec<(Value, Value)>, usize) = find_any_url(
        &desc.full_name,
        dict,
    )?;
    let name: String = name_of_url(url.as_str());
    let inner: usize = match find_registered(&opts.registry, name.as_str()) {
        Some(inner) => inner,
        None => {
            return Err(ErrorOf::AnyUnknownType { name: desc.full_name.clone(), url });
        },
    };
    if inner >= schema.messages.len() {
        return Err(ErrorOf::Fixed(Fixed::Shape));
    }
    let inner_desc: &DescMessage = &schema.messages[inner];
    let ordinary: bool = matches!(inner_desc.wkt, WktKind::Ordinary);
    proof {
        lemma_any_content(value::dict_view(dict@), ordinary);
    }
    let content: Value = take_any_content(dict, type_at, ordinary);
    let mut target: Message = new_empty_message(schema, inner);
    let mut sub: Source<'_> = Source::Tree(PyTreeSource::new(content));
    read_message(&mut sub, asks, schema, opts, &mut target, 1)?;
    pack_any(asks, message, inner_desc, target, type_url, value)
}

/// What reading a JSON text into a message leaves: the message, and the answers that are left or
/// an error.
pub open spec fn text_merging(
    schema: Schema,
    opts: FromJsonOpts,
    m: Msg,
    data: Seq<u8>,
    asks: Seq<Ans>,
) -> (Msg, Result<Seq<Ans>, Fault>) {
    let (m2, out) = message_reading(
        schema,
        opts,
        m,
        St { src: SrcState::Text { data, pos: 0 }, asks },
        0,
    );
    (
        m2,
        match out {
            Ok(st) => match json_source::finished(st.src) {
                Ok(()) => Ok(st.asks),
                Err(f) => Err(f),
            },
            Err(f) => Err(f),
        },
    )
}

/// Whether a message was merged as it should.
pub open spec fn merge_done(
    merging: (Msg, Result<Seq<Ans>, Fault>),
    r: Result<(), Error>,
    after: Msg,
    asks: Seq<Ans>,
) -> bool {
    &&& after == merging.0
    &&& match merging.1 {
        Ok(left) => r is Ok && asks == left,
        Err(f) => r is Err && error::fault_of(r->Err_0) == f,
    }
}

/// Reads a JSON text into a message.
pub fn merge_from_json(
    schema: &Schema,
    opts: &FromJsonOpts,
    message: &mut Message,
    data: &[u8],
    asks: &mut Answers,
) -> (r: Result<(), Error>)
    ensures
        merge_done(
            text_merging(*schema, *opts, old(message)@, data@, old(asks)@),
            r,
            final(message)@,
            final(asks)@,
        ),
{
    let mut src: Source<'_> = Source::Text(JiterSource::new(data));
    read_message(&mut src, asks, schema, opts, message, 0)?;
    src.finish()
}

/// What reading a tree into a message leaves: the message, and the answers that are left or an
/// error.
pub open spec fn tree_merging(
    schema: Schema,
    opts: FromJsonOpts,
    m: Msg,
    tree: Val,
    asks: Seq<Ans>,
) -> (Msg, Result<Seq<Ans>, Fault>) {
    let (m2, out) = message_reading(
        schema,
        opts,
        m,
        St { src: SrcState::Tree(Some(tree)), asks },
        0,
    );
    (
        m2,
        match out {
            Ok(st) => Ok(st.asks),
            Err(f) => Err(f),
        },
    )
}

/// Reads a JSON tree into a message.
pub fn read_message_from_tree(
    schema: &Schema,
    opts: &FromJsonOpts,
    message: &mut Message,
    tree: Value,
    asks: &mut Answers,
) -> (r: Result<(), Error>)
    ensures
        merge_done(
            tree_merging(*schema, *opts, old(message)@, tree@, old(asks)@),
            r,
            final(message)@,
            final(asks)@,
        ),
{
    let mut src: Source<'_> = Source::Tree(PyTreeSource::new(tree));
    read_message(&mut src, asks, schema, opts, message, 0)
}

} // verus!
