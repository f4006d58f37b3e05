//! How well-known types are read and written, in terms of what they hold.

use vstd::prelude::*;
use crate::descriptor::{
    DescField, DescFieldValue, DescSingleValue, Registry, ScalarType, Schema,
};
use crate::double;
use crate::error::{Fault, Fixed};
use crate::field_mask;
use crate::json_parse;
use crate::json_parse::FromJsonOpts;
use crate::json_scalars;
use crate::json_scalars::St;
use crate::json_serialize;
use crate::json_serialize::JsonOpts;
use crate::json_shown;
use crate::json_sink;
use crate::json_sink::Json;
use crate::json_source;
use crate::json_source::{JsonKind, SrcState};
use crate::merging;
use crate::names;
use crate::question;
use crate::question::{Ans, AnswerOf, QuestionOf};
use crate::round_trip;
use crate::scalar_forms;
use crate::value;
use crate::value::{Msg, Val};
use crate::wkt::WktKind;
use crate::wkt_json;

verus! {

/// Whether reading left a message with one other value in a field, and nothing else changed.
pub open spec fn only_changes(m: Msg, m2: Msg, i: int, v: Val) -> bool {
    &&& m2.desc == m.desc && m2.present == m.present && m2.oneofs == m.oneofs && m2.unknown
        == m.unknown
    &&& m2.attrs.len() == m.attrs.len()
    &&& m2.attrs[i] == v
    &&& forall|k: int| 0 <= k < m.attrs.len() && k != i ==> #[trigger] m2.attrs[k] == m.attrs[k]
}

/// A wrapper is read from the bare value that it wraps, by the rules of its type. Null stands for
/// the default of that type.
pub proof fn lemma_wrappers_are_read_bare(
    schema: Schema,
    opts: FromJsonOpts,
    m: Msg,
    field: usize,
    scalar: ScalarType,
    st: St,
    depth: nat,
)
    requires
        depth <= json_parse::DEPTH_LIMIT,
        m.desc < schema.messages@.len(),
        schema.messages@[m.desc as int].wkt == (WktKind::Wrapper { field, scalar }),
        field < schema.messages@[m.desc as int].fields@.len(),
        field < m.attrs.len(),
    ensures
        ({
            let desc = schema.messages@[m.desc as int];
            let (m2, out) = json_parse::message_reading(schema, opts, m, st, depth);
            &&& json_shown::shows(st.src, Json::Null) ==> {
                &&& only_changes(
                    m,
                    m2,
                    field as int,
                    match scalar {
                        ScalarType::Bool => Val::Bool(false),
                        ScalarType::String => Val::Str(seq![]),
                        ScalarType::Bytes => Val::Bytes(seq![]),
                        ScalarType::Float | ScalarType::Double => Val::Float(0),
                        _ => Val::Int(0),
                    },
                )
                &&& out == Ok::<St, Fault>(
                    round_trip::at(json_shown::behind(st.src, Json::Null), st.asks),
                )
            }
            &&& json_source::peeked(st.src) matches Ok(kind) ==> (!(kind is Null) ==> match (
            json_scalars::scalar_reading(st, scalar, desc, desc.fields@[field as int])) {
                Ok((v, st2)) => only_changes(m, m2, field as int, v) && out == Ok::<St, Fault>(st2),
                Err(f) => m2 == m && out == Err::<St, Fault>(f),
            })
        }),
{
}

/// A wrapper is written as the bare value that it wraps, and nothing around it.
pub proof fn lemma_wrappers_are_written_bare(
    schema: Schema,
    opts: JsonOpts,
    is_text: bool,
    m: Msg,
    field: usize,
    scalar: ScalarType,
    asks: Seq<Ans>,
)
    requires
        m.desc < schema.messages@.len(),
        schema.messages@[m.desc as int].wkt == (WktKind::Wrapper { field, scalar }),
        field < m.attrs.len(),
    ensures
        json_serialize::message_json(schema, opts, is_text, m, asks) == json_serialize::scalar_json(
            is_text,
            scalar,
            m.attrs[field as int],
            asks,
        ),
{
}

/// Timestamps and durations are read from strings alone. The seconds and the nanoseconds that the
/// string stands for take the place of those that the message had. What is refused leaves the
/// message as it is.
pub proof fn lemma_moments_are_read(
    schema: Schema,
    opts: FromJsonOpts,
    m: Msg,
    seconds: usize,
    nanos: usize,
    t: Seq<char>,
    st: St,
    depth: nat,
)
    requires
        depth <= json_parse::DEPTH_LIMIT,
        m.desc < schema.messages@.len(),
        schema.messages@[m.desc as int].wkt == (WktKind::Timestamp { seconds, nanos })
            || schema.messages@[m.desc as int].wkt == (WktKind::Duration { seconds, nanos }),
        seconds < m.attrs.len(),
        nanos < m.attrs.len(),
        seconds != nanos,
    ensures
        ({
            let desc = schema.messages@[m.desc as int];
            let (m2, out) = json_parse::message_reading(schema, opts, m, st, depth);
            let parts = if desc.wkt is Timestamp {
                wkt_json::timestamp_value(desc.full_name@, t)
            } else {
                wkt_json::duration_value(desc.full_name@, t)
            };
            &&& json_shown::shows(st.src, Json::Str(t)) ==> match parts {
                Ok((s, n)) => {
                    &&& m2.attrs[seconds as int] == Val::Int(s as int)
                    &&& m2.attrs[nanos as int] == Val::Int(n as int)
                    &&& m2 == (Msg {
                        attrs: m.attrs.update(seconds as int, Val::Int(s as int)).update(
                            nanos as int,
                            Val::Int(n as int),
                        ),
                        ..m
                    })
                    &&& out == Ok::<St, Fault>(
                        round_trip::at(json_shown::behind(st.src, Json::Str(t)), st.asks),
                    )
                },
                Err(f) => m2 == m && out == Err::<St, Fault>(f),
            }
            &&& json_source::peeked(st.src) matches Ok(kind) ==> (!(kind is String) ==> m2 == m && out
                is Err)
        }),
{
}

/// Whether a part of a mask's text is that of one path.
pub open spec fn is_mask_part(part: Seq<char>) -> bool {
    !part.contains(',') && !part.contains('_')
}

/// The paths that parts stand for: each part in `snake_case`.
pub open spec fn paths_of(parts: Seq<Seq<char>>) -> Seq<Val> {
    Seq::new(parts.len(), |i: int| Val::Str(names::snake(parts[i])))
}

proof fn lemma_snake_paths(name: Seq<char>, parts: Seq<Seq<char>>)
    requires
        forall|i: int| 0 <= i < parts.len() ==> is_mask_part(#[trigger] parts[i]),
    ensures
        field_mask::snake_paths(name, parts) == (paths_of(parts), None::<Fault>),
    decreases parts.len(),
{
    if parts.len() > 0 {
        let head = parts.drop_last();
        assert forall|i: int| 0 <= i < head.len() implies is_mask_part(#[trigger] head[i]) by {
            assert(head[i] == parts[i]);
        }
        lemma_snake_paths(name, head);
        assert(is_mask_part(parts[parts.len() - 1]));
        assert(paths_of(parts) =~= paths_of(head).push(Val::Str(names::snake(parts.last()))));
    } else {
        assert(paths_of(parts) =~= seq![]);
    }
}

/// A field mask is read from a string. Each of its parts, between commas, adds a path behind those
/// that the mask had: the part in `snake_case`. The empty string adds none.
pub proof fn lemma_masks_are_read(
    schema: Schema,
    opts: FromJsonOpts,
    m: Msg,
    paths: usize,
    items: Seq<Val>,
    parts: Seq<Seq<char>>,
    st: St,
    depth: nat,
)
    requires
        depth <= json_parse::DEPTH_LIMIT,
        m.desc < schema.messages@.len(),
        schema.messages@[m.desc as int].wkt == (WktKind::FieldMask { paths }),
        paths < m.attrs.len(),
        m.attrs[paths as int] == Val::List(items),
        forall|i: int| 0 <= i < parts.len() ==> is_mask_part(#[trigger] parts[i]),
        parts.len() == 1 ==> parts[0].len() > 0,
    ensures
        ({
            let (m2, out) = json_parse::message_reading(schema, opts, m, st, depth);
            let t = names::join(parts, ',');
            &&& json_shown::shows(st.src, Json::Str(t)) ==> {
                &&& m2 == (Msg {
                    attrs: m.attrs.update(paths as int, Val::List(items + paths_of(parts))),
                    ..m
                })
                &&& out == Ok::<St, Fault>(
                    round_trip::at(json_shown::behind(st.src, Json::Str(t)), st.asks),
                )
            }
            &&& json_source::peeked(st.src) matches Ok(kind) ==> (!(kind is String) ==> m2 == m && out
                is Err)
        }),
{
    let t = names::join(parts, ',');
    lemma_snake_paths(schema.messages@[m.desc as int].full_name@, parts);
    if parts.len() > 0 {
        assert forall|i: int| 0 <= i < parts.len() implies !(#[trigger] parts[i]).contains(',') by {
            assert(is_mask_part(parts[i]));
        }
        names::lemma_split_join(parts, ',');
        if parts.len() > 1 {
            assert(t.len() >= 1);
        }
    } else {
        assert(items + paths_of(parts) =~= items);
        assert(m.attrs.update(paths as int, Val::List(items)) =~= m.attrs);
    }
}

/// The paths in front of a part with an underscore are added before that part is refused.
pub proof fn lemma_masks_are_read_in_order(
    schema: Schema,
    opts: FromJsonOpts,
    m: Msg,
    paths: usize,
    items: Seq<Val>,
    parts: Seq<Seq<char>>,
    k: int,
    st: St,
    depth: nat,
)
    requires
        depth <= json_parse::DEPTH_LIMIT,
        m.desc < schema.messages@.len(),
        schema.messages@[m.desc as int].wkt == (WktKind::FieldMask { paths }),
        paths < m.attrs.len(),
        m.attrs[paths as int] == Val::List(items),
        0 <= k < parts.len(),
        forall|i: int| 0 <= i < parts.len() ==> !(#[trigger] parts[i]).contains(','),
        forall|i: int| 0 <= i < k ==> !(#[trigger] parts[i]).contains('_'),
        parts[k].contains('_'),
        json_shown::shows(st.src, Json::Str(names::join(parts, ','))),
    ensures
        json_parse::message_reading(schema, opts, m, st, depth) == (
            Msg {
                attrs: m.attrs.update(paths as int, Val::List(items + paths_of(parts.take(k)))),
                ..m
            },
            Err::<St, Fault>(
                Fault::MaskNotCamel { name: schema.messages@[m.desc as int].full_name@ },
            ),
        ),
{
    let t = names::join(parts, ',');
    let name = schema.messages@[m.desc as int].full_name@;
    names::lemma_split_join(parts, ',');
    lemma_snake_stops(name, parts, k);
    if t.len() == 0 {
        if parts.len() > 1 {
            assert(t.len() >= 1);
        }
        let i = choose|i: int| 0 <= i < parts[k].len() && parts[k][i] == '_';
        assert(parts[0] == t);
    }
}

proof fn lemma_snake_stops(name: Seq<char>, parts: Seq<Seq<char>>, k: int)
    requires
        0 <= k < parts.len(),
        forall|i: int| 0 <= i < k ==> !(#[trigger] parts[i]).contains('_'),
        forall|i: int| 0 <= i < parts.len() ==> !(#[trigger] parts[i]).contains(','),
        parts[k].contains('_'),
    ensures
        field_mask::snake_paths(name, parts) == (
            paths_of(parts.take(k)),
            Some(Fault::MaskNotCamel { name }),
        ),
    decreases parts.len(),
{
    let head = parts.drop_last();
    if k < parts.len() - 1 {
        assert(head[k] == parts[k]);
        assert forall|i: int| 0 <= i < k implies !(#[trigger] head[i]).contains('_') by {
            assert(head[i] == parts[i]);
        }
        assert forall|i: int| 0 <= i < head.len() implies !(#[trigger] head[i]).contains(',') by {
            assert(head[i] == parts[i]);
        }
        lemma_snake_stops(name, head, k);
        assert(head.take(k) =~= parts.take(k));
    } else {
        assert forall|i: int| 0 <= i < head.len() implies is_mask_part(#[trigger] head[i]) by {
            assert(head[i] == parts[i]);
        }
        lemma_snake_paths(name, head);
        assert(head =~= parts.take(k));
    }
}

/// A field mask whose text has an underscore is refused.
pub proof fn lemma_masks_are_camel(
    schema: Schema,
    opts: FromJsonOpts,
    m: Msg,
    paths: usize,
    t: Seq<char>,
    st: St,
    depth: nat,
)
    requires
        depth <= json_parse::DEPTH_LIMIT,
        m.desc < schema.messages@.len(),
        schema.messages@[m.desc as int].wkt == (WktKind::FieldMask { paths }),
        json_shown::shows(st.src, Json::Str(t)),
        t.contains('_'),
    ensures
        json_parse::message_reading(schema, opts, m, st, depth).1 is Err,
{
    let parts = names::split(t, ',');
    let name = schema.messages@[m.desc as int].full_name@;
    let i = choose|i: int| 0 <= i < t.len() && t[i] == '_';
    lemma_split_keeps(t, ',', i);
    let k = choose|k: int| 0 <= k < parts.len() && (#[trigger] parts[k]).contains('_');
    lemma_snake_refused(name, parts, k);
}

/// A character other than the separator is in one of the parts.
proof fn lemma_split_keeps(s: Seq<char>, sep: char, i: int)
    requires
        0 <= i < s.len(),
        s[i] != sep,
    ensures
        exists|k: int|
            0 <= k < names::split(s, sep).len() && (#[trigger] names::split(s, sep)[k]).contains(
                s[i],
            ),
    decreases s.len(),
{
    let head = s.drop_last();
    let before = names::split(head, sep);
    let parts = names::split(s, sep);
    names::lemma_split_nonempty(head, sep);
    if i < head.len() {
        lemma_split_keeps(head, sep, i);
        let k = choose|k: int| 0 <= k < before.len() && (#[trigger] before[k]).contains(head[i]);
        let a = choose|a: int| 0 <= a < before[k].len() && before[k][a] == s[i];
        if s.last() == sep {
            assert(parts[k] == before[k]);
        } else if k == before.len() - 1 {
            assert(parts[k] == before[k].push(s.last()));
            assert(parts[k][a] == s[i]);
        } else {
            assert(parts[k] == before[k]);
        }
        assert(parts[k].contains(s[i]));
    } else {
        let k = before.len() - 1;
        assert(parts[k] == before[k].push(s.last()));
        assert(parts[k][before[k].len() as int] == s[i]);
        assert(parts[k].contains(s[i]));
    }
}

proof fn lemma_snake_refused(name: Seq<char>, parts: Seq<Seq<char>>, k: int)
    requires
        0 <= k < parts.len(),
        parts[k].contains('_'),
    ensures
        field_mask::snake_paths(name, parts).1 is Some,
    decreases parts.len(),
{
    if k < parts.len() - 1 {
        assert(parts.drop_last()[k] == parts[k]);
        lemma_snake_refused(name, parts.drop_last(), k);
    }
}

/// Whether a `Value` holds something in one of its fields, and nothing else of it changed.
pub open spec fn holds_kind(m: Msg, m2: Msg, o: int, field: DescField, v: Val) -> bool {
    merging::same_but_oneof(m, m2, o) && m2.oneofs[o] == Some((field.name@, v))
}

/// A `Value` holds the JSON value that it is read from: in the field for values of that kind, and
/// whatever it held before is gone.
pub proof fn lemma_values_are_read(
    schema: Schema,
    opts: FromJsonOpts,
    m: Msg,
    o: usize,
    null_value: usize,
    number_value: usize,
    string_value: usize,
    bool_value: usize,
    struct_value: usize,
    list_value: usize,
    st: St,
    depth: nat,
)
    requires
        depth <= json_parse::DEPTH_LIMIT,
        m.desc < schema.messages@.len(),
        schema.messages@[m.desc as int].wkt == (WktKind::Value {
            null_value,
            number_value,
            string_value,
            bool_value,
            struct_value,
            list_value,
        }),
        ({
            let fields = schema.messages@[m.desc as int].fields@;
            &&& null_value < fields.len() && number_value < fields.len() && string_value
                < fields.len() && bool_value < fields.len() && struct_value < fields.len()
                && list_value < fields.len()
            &&& fields[null_value as int].oneof == Some(o)
        }),
        o < m.oneofs.len(),
    ensures
        ({
            let fields = schema.messages@[m.desc as int].fields@;
            let (m2, out) = json_parse::message_reading(schema, opts, m, st, depth);
            let behind = |j: Json| Ok::<St, Fault>(
                round_trip::at(json_shown::behind(st.src, j), st.asks),
            );
            &&& json_shown::shows(st.src, Json::Null) ==> match fields[null_value as int].value {
                DescFieldValue::Enum { enum_ } => enum_ < schema.enums@.len() ==> holds_kind(
                    m,
                    m2,
                    o as int,
                    fields[null_value as int],
                    Val::Int(schema.enums@[enum_ as int].zero as int),
                ) && out == behind(Json::Null),
                _ => true,
            }
            &&& forall|b: bool|
                #[trigger] json_shown::shows(st.src, Json::Bool(b)) ==> holds_kind(
                    m,
                    m2,
                    o as int,
                    fields[bool_value as int],
                    Val::Bool(b),
                ) && out == behind(Json::Bool(b))
            &&& forall|bits: u64, t: Seq<char>|
                #[trigger] json_shown::shows(st.src, Json::Number(Val::Float(bits), t))
                    ==> holds_kind(
                    m,
                    m2,
                    o as int,
                    fields[number_value as int],
                    Val::Float(bits),
                ) && out == behind(Json::Number(Val::Float(bits), t))
            &&& json_source::peeked(st.src) == Ok::<JsonKind, Fault>(JsonKind::Number) ==> match (
            json_source::float_read(st.src)) {
                Ok((bits, src)) => holds_kind(
                    m,
                    m2,
                    o as int,
                    fields[number_value as int],
                    Val::Float(bits),
                ) && out == Ok::<St, Fault>(round_trip::at(src, st.asks)),
                Err(f) => m2 == m && out == Err::<St, Fault>(f),
            }
            &&& forall|t: Seq<char>|
                #[trigger] json_shown::shows(st.src, Json::Str(t)) ==> holds_kind(
                    m,
                    m2,
                    o as int,
                    fields[string_value as int],
                    Val::Str(t),
                ) && out == behind(Json::Str(t))
        }),
{
    let desc = schema.messages@[m.desc as int];
    let kind = json_source::peeked(st.src);
    assert(json_parse::message_reading(schema, opts, m, st, depth)
        == json_parse::value_message_reading(schema, opts, m, desc, st, depth));
    assert(json_parse::value_oneof(m, desc) == Ok::<usize, Fault>(o));
    if kind is Ok {
        let field = desc.fields@[json_parse::value_field(kind->Ok_0, desc.wkt) as int];
        let read = json_parse::kind_reading(schema, opts, kind->Ok_0, field, st, depth);
        assert(json_parse::value_message_reading(schema, opts, m, desc, st, depth) == match read {
            Ok((v, st2)) => (json_parse::kind_set(m, o, field, v), Ok::<St, Fault>(st2)),
            Err(f) => (m, Err::<St, Fault>(f)),
        });
    }
}

/// An object or an array makes a `Value` hold a new message of the type for such values, whatever
/// the `Value` held before.
pub proof fn lemma_values_hold_containers(
    schema: Schema,
    opts: FromJsonOpts,
    m: Msg,
    o: usize,
    i: usize,
    message: usize,
    st: St,
    depth: nat,
)
    requires
        depth <= json_parse::DEPTH_LIMIT,
        m.desc < schema.messages@.len(),
        ({
            let desc = schema.messages@[m.desc as int];
            &&& desc.wkt matches WktKind::Value { null_value, struct_value, list_value, .. } && {
                &&& null_value < desc.fields@.len()
                &&& desc.fields@[null_value as int].oneof == Some(o)
                &&& (json_source::peeked(st.src) == Ok::<JsonKind, Fault>(JsonKind::Object) && i
                    == struct_value) || (json_source::peeked(st.src) == Ok::<JsonKind, Fault>(
                    JsonKind::Array,
                ) && i == list_value)
            }
            &&& i < desc.fields@.len()
            &&& desc.fields@[i as int].value == (DescFieldValue::Message { message })
        }),
        message < schema.messages@.len(),
        o < m.oneofs.len(),
    ensures
        ({
            let field = schema.messages@[m.desc as int].fields@[i as int];
            let (m2, out) = json_parse::message_reading(schema, opts, m, st, depth);
            let (inner, out2) = json_parse::message_reading(
                schema,
                opts,
                json_parse::empty_msg(schema, message),
                st,
                depth + 1,
            );
            &&& out == out2
            &&& out is Ok ==> holds_kind(m, m2, o as int, field, Val::Message(inner))
            &&& out is Err ==> m2 == m
        }),
{
    let desc = schema.messages@[m.desc as int];
    let kind = json_source::peeked(st.src)->Ok_0;
    assert(json_parse::message_reading(schema, opts, m, st, depth)
        == json_parse::value_message_reading(schema, opts, m, desc, st, depth));
    assert(json_parse::value_oneof(m, desc) == Ok::<usize, Fault>(o));
    let read = json_parse::kind_reading(schema, opts, kind, desc.fields@[i as int], st, depth);
    assert(json_parse::value_message_reading(schema, opts, m, desc, st, depth) == match read {
        Ok((v, st2)) => (
            json_parse::kind_set(m, o, desc.fields@[i as int], v),
            Ok::<St, Fault>(st2),
        ),
        Err(f) => (m, Err::<St, Fault>(f)),
    });
}

/// The keys and messages that are read from the object of a `Struct`, and the state behind it.
pub open spec fn named_read(
    schema: Schema,
    opts: FromJsonOpts,
    message: usize,
    st: St,
    entries: Seq<(Val, Val)>,
    key: Seq<char>,
    depth: nat,
) -> Option<(Seq<(Val, Option<Val>)>, St)>
    decreases json_source::entries_left(st.src, entries),
{
    let (inner, out) = json_parse::message_reading(
        schema,
        opts,
        json_parse::empty_msg(schema, message),
        st,
        depth + 1,
    );
    match out {
        Err(_) => None,
        Ok(st2) => {
            let first = (Val::Str(key), Some(Val::Message(inner)));
            match json_source::key_read(st2.src, entries) {
                Err(_) => None,
                Ok((_, None, src)) => Some((seq![first], round_trip::at(src, st2.asks))),
                Ok((rest, Some(next), src)) => if json_source::entries_left(src, rest)
                    < json_source::entries_left(st.src, entries) {
                    match named_read(
                        schema,
                        opts,
                        message,
                        round_trip::at(src, st2.asks),
                        rest,
                        next,
                        depth,
                    ) {
                        Some((more, end)) => Some((seq![first] + more, end)),
                        None => None,
                    }
                } else {
                    None
                },
            }
        },
    }
}

#[verifier::rlimit(40)]
proof fn lemma_named_merge(
    schema: Schema,
    opts: FromJsonOpts,
    message: usize,
    st: St,
    entries: Seq<(Val, Val)>,
    key: Seq<char>,
    dict: Seq<(Val, Val)>,
    other: Val,
    depth: nat,
)
    requires
        depth <= json_parse::DEPTH_LIMIT,
        named_read(schema, opts, message, st, entries, key, depth) is Some,
    ensures
        ({
            let (read, end) = named_read(schema, opts, message, st, entries, key, depth)->Some_0;
            let (dict2, out) = json_parse::named_messages_reading(
                schema,
                opts,
                message,
                st,
                entries,
                key,
                dict,
                depth,
            );
            &&& out == Ok::<St, Fault>(end)
            &&& merging::entry_of(dict2, other) == match merging::last_read(read, other) {
                Some(v) => Some(v),
                None => merging::entry_of(dict, other),
            }
        }),
    decreases json_source::entries_left(st.src, entries),
{
    let (inner, out) = json_parse::message_reading(
        schema,
        opts,
        json_parse::empty_msg(schema, message),
        st,
        depth + 1,
    );
    let st2 = out->Ok_0;
    let first = (Val::Str(key), Some(Val::Message(inner)));
    let dict1 = value::dict_set(dict, Val::Str(key), Val::Message(inner));
    merging::lemma_entry_set(dict, Val::Str(key), Val::Message(inner), other);
    match json_source::key_read(st2.src, entries)->Ok_0 {
        (_, None, src) => {
            assert(seq![first].drop_last() =~= Seq::<(Val, Option<Val>)>::empty());
            assert(merging::last_read(Seq::<(Val, Option<Val>)>::empty(), other) is None);
        },
        (rest, Some(next), src) => {
            let st3 = round_trip::at(src, st2.asks);
            lemma_named_merge(schema, opts, message, st3, rest, next, dict1, other, depth);
            let more = named_read(schema, opts, message, st3, rest, next, depth)->Some_0.0;
            merging::lemma_last_read(first, more, other);
        },
    }
}

/// A `Struct` is merged: each key of the object that is read maps to the value that was read last
/// for it, each other key keeps its value, and no other key is there.
pub proof fn lemma_structs_are_merged(
    schema: Schema,
    opts: FromJsonOpts,
    m: Msg,
    fields: usize,
    message: usize,
    dict: Seq<(Val, Val)>,
    st: St,
    key: Val,
    depth: nat,
)
    requires
        depth <= json_parse::DEPTH_LIMIT,
        m.desc < schema.messages@.len(),
        schema.messages@[m.desc as int].wkt == (WktKind::Struct { fields }),
        fields < schema.messages@[m.desc as int].fields@.len(),
        schema.messages@[m.desc as int].fields@[fields as int].value matches DescFieldValue::MapOf {
            value,
            ..
        } && value == DescSingleValue::Message(message),
        message < schema.messages@.len(),
        fields < m.attrs.len(),
        m.attrs[fields as int] == Val::Dict(dict),
        json_source::peeked(st.src) == Ok::<JsonKind, Fault>(JsonKind::Object),
        json_source::object_read(st.src) matches Ok((entries, Some(first), src)) && {
            &&& json_source::entries_left(src, entries) < json_source::left(st.src)
            &&& named_read(
                schema,
                opts,
                message,
                round_trip::at(src, st.asks),
                entries,
                first,
                depth,
            ) is Some
        },
    ensures
        ({
            let (entries, first, src) = json_source::object_read(st.src)->Ok_0;
            let (read, end) = named_read(
                schema,
                opts,
                message,
                round_trip::at(src, st.asks),
                entries,
                first->0,
                depth,
            )->Some_0;
            let (m2, out) = json_parse::message_reading(schema, opts, m, st, depth);
            &&& out == Ok::<St, Fault>(end)
            &&& m2.attrs[fields as int] is Dict
            &&& only_changes(m, m2, fields as int, m2.attrs[fields as int])
            &&& merging::entry_of(m2.attrs[fields as int]->Dict_0, key) == match merging::last_read(
                read,
                key,
            ) {
                Some(v) => Some(v),
                None => merging::entry_of(dict, key),
            }
        }),
{
    let (entries, first, src) = json_source::object_read(st.src)->Ok_0;
    lemma_named_merge(
        schema,
        opts,
        message,
        round_trip::at(src, st.asks),
        entries,
        first->0,
        dict,
        key,
        depth,
    );
}

/// The messages that are read from the array of a `ListValue`, and the state behind it.
pub open spec fn messages_read(
    schema: Schema,
    opts: FromJsonOpts,
    message: usize,
    st: St,
    items: Seq<Val>,
    depth: nat,
) -> Option<(Seq<Val>, St)>
    decreases json_source::items_left(st.src, items),
{
    let (inner, out) = json_parse::message_reading(
        schema,
        opts,
        json_parse::empty_msg(schema, message),
        st,
        depth + 1,
    );
    match out {
        Err(_) => None,
        Ok(st2) => match json_source::array_stepped(st2.src, items) {
            Err(_) => None,
            Ok((rest, more, src)) => if !more {
                Some((seq![Val::Message(inner)], round_trip::at(src, st2.asks)))
            } else if json_source::items_left(src, rest) < json_source::items_left(st.src, items) {
                match messages_read(
                    schema,
                    opts,
                    message,
                    round_trip::at(src, st2.asks),
                    rest,
                    depth,
                ) {
                    Some((later, end)) => Some((seq![Val::Message(inner)] + later, end)),
                    None => None,
                }
            } else {
                None
            },
        },
    }
}

#[verifier::rlimit(40)]
proof fn lemma_messages_append(
    schema: Schema,
    opts: FromJsonOpts,
    message: usize,
    st: St,
    items: Seq<Val>,
    list: Seq<Val>,
    depth: nat,
)
    requires
        depth <= json_parse::DEPTH_LIMIT,
        messages_read(schema, opts, message, st, items, depth) is Some,
    ensures
        ({
            let (read, end) = messages_read(schema, opts, message, st, items, depth)->Some_0;
            json_parse::messages_reading(schema, opts, message, st, items, list, depth) == (
                list + read,
                Ok::<St, Fault>(end),
            )
        }),
    decreases json_source::items_left(st.src, items),
{
    let (inner, out) = json_parse::message_reading(
        schema,
        opts,
        json_parse::empty_msg(schema, message),
        st,
        depth + 1,
    );
    let st2 = out->Ok_0;
    let first = seq![Val::Message(inner)];
    let longer = list.push(Val::Message(inner));
    assert(longer =~= list + first);
    let (rest, more, src) = json_source::array_stepped(st2.src, items)->Ok_0;
    if more {
        let st3 = round_trip::at(src, st2.asks);
        lemma_messages_append(schema, opts, message, st3, rest, longer, depth);
        let later = messages_read(schema, opts, message, st3, rest, depth)->Some_0.0;
        assert(longer + later =~= list + (first + later));
    }
}

/// The values of an array that is read into a `ListValue` stand behind those that it had.
pub proof fn lemma_list_values_are_appended(
    schema: Schema,
    opts: FromJsonOpts,
    m: Msg,
    values: usize,
    message: usize,
    list: Seq<Val>,
    st: St,
    depth: nat,
)
    requires
        depth <= json_parse::DEPTH_LIMIT,
        m.desc < schema.messages@.len(),
        schema.messages@[m.desc as int].wkt == (WktKind::ListValue { values }),
        values < schema.messages@[m.desc as int].fields@.len(),
        schema.messages@[m.desc as int].fields@[values as int].value == (DescFieldValue::List {
            element: DescSingleValue::Message(message),
        }),
        message < schema.messages@.len(),
        values < m.attrs.len(),
        m.attrs[values as int] == Val::List(list),
        json_source::peeked(st.src) == Ok::<JsonKind, Fault>(JsonKind::Array),
        json_source::array_read(st.src) matches Ok((items, true, src)) && {
            &&& json_source::items_left(src, items) < json_source::left(st.src)
            &&& messages_read(
                schema,
                opts,
                message,
                round_trip::at(src, st.asks),
                items,
                depth,
            ) is Some
        },
    ensures
        ({
            let (items, _, src) = json_source::array_read(st.src)->Ok_0;
            let (read, end) = messages_read(
                schema,
                opts,
                message,
                round_trip::at(src, st.asks),
                items,
                depth,
            )->Some_0;
            let (m2, out) = json_parse::message_reading(schema, opts, m, st, depth);
            &&& out == Ok::<St, Fault>(end)
            &&& only_changes(m, m2, values as int, Val::List(list + read))
        }),
{
    let (items, _, src) = json_source::array_read(st.src)->Ok_0;
    lemma_messages_append(
        schema,
        opts,
        message,
        round_trip::at(src, st.asks),
        items,
        list,
        depth,
    );
}

/// A `Struct` is read from an object alone, and a `ListValue` from an array alone. An empty one adds
/// nothing, and any other kind of value is refused.
pub proof fn lemma_containers_are_read(
    schema: Schema,
    opts: FromJsonOpts,
    m: Msg,
    st: St,
    depth: nat,
)
    requires
        depth <= json_parse::DEPTH_LIMIT,
        m.desc < schema.messages@.len(),
    ensures
        ({
            let desc = schema.messages@[m.desc as int];
            let (m2, out) = json_parse::message_reading(schema, opts, m, st, depth);
            &&& desc.wkt is Struct && json_shown::shows(st.src, Json::Object(seq![])) ==> m2 == m && (
            out is Ok ==> out == Ok::<St, Fault>(
                round_trip::at(json_shown::behind(st.src, Json::Object(seq![])), st.asks),
            ))
            &&& desc.wkt is ListValue && json_shown::shows(st.src, Json::Array(seq![])) ==> m2 == m
                && (out is Ok ==> out == Ok::<St, Fault>(
                round_trip::at(json_shown::behind(st.src, Json::Array(seq![])), st.asks),
            ))
            &&& json_source::peeked(st.src) matches Ok(kind) ==> {
                &&& desc.wkt is Struct && !(kind is Object) ==> m2 == m && out is Err
                &&& desc.wkt is ListValue && !(kind is Array) ==> m2 == m && out is Err
                &&& desc.wkt is Ordinary && !(kind is Object) ==> m2 == m && out is Err
            }
        }),
{
}

/// A `Value` is written as the JSON value that it holds. A number that JSON cannot hold is refused,
/// and so is a `Value` that holds nothing.
pub proof fn lemma_values_are_written(
    schema: Schema,
    opts: JsonOpts,
    is_text: bool,
    m: Msg,
    o: usize,
    v: Val,
    asks: Seq<Ans>,
)
    requires
        m.desc < schema.messages@.len(),
        ({
            let desc = schema.messages@[m.desc as int];
            desc.wkt matches WktKind::Value { null_value, .. } && {
                &&& null_value < desc.fields@.len()
                &&& desc.fields@[null_value as int].oneof == Some(o)
            }
        }),
        o < m.oneofs.len(),
    ensures
        ({
            let written = json_serialize::message_json(schema, opts, is_text, m, asks);
            let is = |j: Json| written == Ok::<(Json, nat), Fault>((j, 0));
            let held = m.oneofs[o as int];
            &&& held is None ==> written == Err::<(Json, nat), Fault>(
                Fault::Fixed(Fixed::ValueUnset),
            )
            &&& held is Some && held->Some_0.0 != "null_value"@ && held->Some_0.0 != "number_value"@
                && held->Some_0.0 != "string_value"@ && held->Some_0.0 != "bool_value"@
                && held->Some_0.0 != "struct_value"@ && held->Some_0.0 != "list_value"@ ==> written
                == Err::<(Json, nat), Fault>(Fault::Fixed(Fixed::ValueUnset))
            &&& held == Some(("null_value"@, v)) ==> is(Json::Null)
            &&& held == Some(("string_value"@, v)) && v is Str ==> is(Json::Str(v->Str_0))
            &&& held == Some(("bool_value"@, v)) && v is Bool ==> is(Json::Bool(v->Bool_0))
            &&& held == Some(("number_value"@, v)) && v is Float && (0x7ff0_0000_0000_0000
                <= v->Float_0 < 0x8000_0000_0000_0000 || v->Float_0 >= 0xfff0_0000_0000_0000)
                ==> written == Err::<(Json, nat), Fault>(Fault::Fixed(Fixed::ValueNotFinite))
            &&& held == Some(("number_value"@, v)) && v is Float && !(0x7ff0_0000_0000_0000
                <= v->Float_0 < 0x8000_0000_0000_0000 || v->Float_0 >= 0xfff0_0000_0000_0000)
                && written is Ok ==> written->Ok_0.0 is Number && written->Ok_0.0->Number_0 == v
        }),
{
    reveal_strlit("null_value");
    reveal_strlit("number_value");
    reveal_strlit("string_value");
    reveal_strlit("bool_value");
    reveal_strlit("struct_value");
    reveal_strlit("list_value");
    assert("null_value"@.len() == 10 && "bool_value"@.len() == 10 && "null_value"@[0] == 'n'
        && "bool_value"@[0] == 'b');
    assert("number_value"@.len() == 12 && "string_value"@.len() == 12 && "struct_value"@.len() == 12
        && "number_value"@[0] == 'n' && "string_value"@[0] == 's');
    if v is Float {
        let bits = v->Float_0;
        assert(double::is_finite(bits) == !(0x7ff0_0000_0000_0000 <= bits < 0x8000_0000_0000_0000
            || bits >= 0xfff0_0000_0000_0000)) by {
            assert((bits / 0x0010_0000_0000_0000) % 0x800 == 0x7ff <==> (0x7ff0_0000_0000_0000u64
                <= bits && bits < 0x8000_0000_0000_0000u64 || bits >= 0xfff0_0000_0000_0000u64))
                by (bit_vector);
        }
    }
}

/// The name in a type URL is what stands behind its last slash, or all of it.
pub proof fn lemma_url_names(before: Seq<char>, name: Seq<char>)
    requires
        !name.contains('/'),
    ensures
        json_parse::url_name(before.push('/') + name) == name,
        json_parse::url_name(name) == name,
    decreases name.len(),
{
    let url = before.push('/') + name;
    if name.len() == 0 {
        assert(url =~= before.push('/'));
        assert(name =~= seq![]);
    } else {
        let head = name.drop_last();
        assert(name[name.len() - 1] != '/');
        assert(!head.contains('/')) by {
            if head.contains('/') {
                let i = choose|i: int| 0 <= i < head.len() && head[i] == '/';
                assert(name[i] == '/');
            }
        }
        lemma_url_names(before, head);
        assert(url.drop_last() =~= before.push('/') + head);
        assert(head.push(name.last()) =~= name);
    }
}

/// Whether a name is that in a type URL: what stands behind the last slash, or all of it.
pub open spec fn is_url_of(url: Seq<char>, name: Seq<char>) -> bool {
    &&& !name.contains('/')
    &&& url == name || exists|before: Seq<char>| url == #[trigger] before.push('/') + name
}

proof fn lemma_url_of(url: Seq<char>, name: Seq<char>)
    requires
        is_url_of(url, name),
    ensures
        json_parse::url_name(url) == name,
{
    lemma_url_names(seq![], name);
    if url != name {
        let before = choose|before: Seq<char>| url == #[trigger] before.push('/') + name;
        lemma_url_names(before, name);
    }
}

/// Whether a registry has a message type under a name. The first of more than one counts.
pub open spec fn has_type(registry: Option<Registry>, name: Seq<char>, message: usize) -> bool {
    registry matches Some(r) && exists|k: int|
        0 <= k < r.messages@.len() && (#[trigger] r.messages@[k]).0@ == name && r.messages@[k].1
            == message && forall|b: int| 0 <= b < k ==> (#[trigger] r.messages@[b]).0@ != name
}

/// Whether a registry has no message type under a name.
pub open spec fn lacks_type(registry: Option<Registry>, name: Seq<char>) -> bool {
    registry matches Some(r) ==> forall|k: int|
        0 <= k < r.messages@.len() ==> (#[trigger] r.messages@[k]).0@ != name
}

/// A registered type is found by its name.
proof fn lemma_types_are_found(registry: Option<Registry>, name: Seq<char>, message: usize)
    ensures
        has_type(registry, name, message) ==> json_parse::registered(registry, name) == Some(
            message,
        ),
        lacks_type(registry, name) ==> json_parse::registered(registry, name) is None,
{
    if registry is Some {
        let r = registry->0;
        if has_type(registry, name, message) {
            let k = choose|k: int|
                0 <= k < r.messages@.len() && (#[trigger] r.messages@[k]).0@ == name
                    && r.messages@[k].1 == message && forall|b: int|
                    0 <= b < k ==> (#[trigger] r.messages@[b]).0@ != name;
            scalar_forms::lemma_name_found(r.messages@, name);
        }
        scalar_forms::lemma_name_found(r.messages@, name);
    }
}

/// Whether the key of an entry is `@type`.
pub open spec fn is_type_entry(entry: (Val, Val)) -> bool {
    value::same_key(entry.0, Val::Str("@type"@))
}

/// The members of the JSON form of an `Any` other than its type.
pub open spec fn untyped(dict: Seq<(Val, Val)>) -> Seq<(Val, Val)> {
    dict.filter(|entry: (Val, Val)| !is_type_entry(entry))
}

/// Whether a dictionary has one entry for the type, at the given index.
pub open spec fn typed_at(dict: Seq<(Val, Val)>, i: int, url: Seq<char>) -> bool {
    &&& 0 <= i < dict.len()
    &&& is_type_entry(dict[i])
    &&& dict[i].1 == Val::Str(url)
    &&& forall|k: int| 0 <= k < dict.len() && k != i ==> !is_type_entry(#[trigger] dict[k])
}

/// Leaving one entry out leaves the others.
proof fn lemma_untyped(dict: Seq<(Val, Val)>, i: int, url: Seq<char>)
    requires
        typed_at(dict, i, url),
    ensures
        untyped(dict) == dict.remove(i),
        value::dict_index(dict, Val::Str("@type"@)) == Some(i),
{
    let keep = |entry: (Val, Val)| !is_type_entry(entry);
    let head = dict.take(i);
    let tail = dict.skip(i + 1);
    lemma_all_kept(head);
    lemma_all_kept(tail);
    assert(dict =~= head.push(dict[i]) + tail);
    Seq::filter_distributes_over_add(head.push(dict[i]), tail, keep);
    assert(head.push(dict[i]).drop_last() =~= head);
    assert(head.push(dict[i]).filter(keep) =~= head) by {
        reveal(Seq::filter);
    }
    assert(dict.remove(i) =~= head + tail);
    value::lemma_dict_index_is(dict, Val::Str("@type"@), i);
}

proof fn lemma_all_kept(entries: Seq<(Val, Val)>)
    requires
        forall|k: int| 0 <= k < entries.len() ==> !is_type_entry(#[trigger] entries[k]),
    ensures
        untyped(entries) == entries,
    decreases entries.len(),
{
    reveal(Seq::filter);
    if entries.len() > 0 {
        let head = entries.drop_last();
        assert forall|k: int| 0 <= k < head.len() implies !is_type_entry(#[trigger] head[k]) by {
            assert(head[k] == entries[k]);
        }
        lemma_all_kept(head);
        assert(!is_type_entry(entries[entries.len() - 1]));
        assert(head.push(entries.last()) =~= entries);
    }
}

/// An `Any` from an empty object stays as it is. A type that is missing or no string, or that the
/// registry does not know, is refused, and so is anything but an object. What is refused leaves the
/// `Any` as it is.
pub proof fn lemma_any_needs_a_type(
    schema: Schema,
    opts: FromJsonOpts,
    m: Msg,
    type_url: usize,
    value: usize,
    url: Seq<char>,
    name: Seq<char>,
    i: int,
    st: St,
    depth: nat,
)
    requires
        depth <= json_parse::DEPTH_LIMIT,
        m.desc < schema.messages@.len(),
        schema.messages@[m.desc as int].wkt == (WktKind::Any { type_url, value }),
        is_url_of(url, name),
    ensures
        ({
            let (m2, out) = json_parse::message_reading(schema, opts, m, st, depth);
            match json_scalars::value_reading(st.src) {
                Ok((Val::Dict(dict), src)) => {
                    &&& dict.len() == 0 ==> m2 == m && out == Ok::<St, Fault>(
                        round_trip::at(src, st.asks),
                    )
                    &&& dict.len() > 0 && (forall|k: int|
                        0 <= k < dict.len() ==> !is_type_entry(#[trigger] dict[k])) ==> m2 == m && out
                        is Err
                    &&& 0 <= i < dict.len() && is_type_entry(dict[i]) && (forall|k: int|
                        0 <= k < i ==> !is_type_entry(#[trigger] dict[k])) && (!(dict[i].1 is Str)
                        || dict[i].1 == Val::Str(seq![])) ==> m2 == m && out is Err
                    &&& typed_at(dict, i, url) && lacks_type(
                        opts.registry,
                        name,
                    ) ==> m2 == m && out is Err
                },
                Ok(_) => m2 == m && out is Err,
                Err(f) => m2 == m && out == Err::<St, Fault>(f),
            }
        }),
{
    let desc = schema.messages@[m.desc as int];
    assert(json_parse::message_reading(schema, opts, m, st, depth) == json_parse::any_reading(
        schema,
        opts,
        m,
        desc,
        type_url,
        value,
        st,
        depth,
    ));
    if json_scalars::value_reading(st.src) is Ok && json_scalars::value_reading(st.src)->Ok_0.0
        is Dict {
        let dict = json_scalars::value_reading(st.src)->Ok_0.0->Dict_0;
        let key = Val::Str("@type"@);
        value::lemma_dict_index(dict, key);
        if value::dict_index(dict, key) is Some {
            let k = value::dict_index(dict, key)->0;
            assert(is_type_entry(dict[k]));
        }
        if 0 <= i < dict.len() && is_type_entry(dict[i]) && (forall|k: int|
            0 <= k < i ==> !is_type_entry(#[trigger] dict[k])) {
            value::lemma_dict_index_is(dict, key, i);
        }
        if typed_at(dict, i, url) {
            lemma_untyped(dict, i, url);
            lemma_url_of(url, name);
            lemma_types_are_found(opts.registry, name, 0);
        }
    }
}

/// An `Any` holds a message of the type that `@type` names, packed by the host under the URL of that
/// type. The message is read from the other members, wherever `@type` stands among them, or from the
/// member `value`, if there is one, where the type has a JSON form of its own.
pub proof fn lemma_any_holds_its_content(
    schema: Schema,
    opts: FromJsonOpts,
    m: Msg,
    type_url: usize,
    value: usize,
    url: Seq<char>,
    name: Seq<char>,
    message: usize,
    dict: Seq<(Val, Val)>,
    i: int,
    at: int,
    b: Seq<u8>,
    src: SrcState,
    st: St,
    depth: nat,
)
    requires
        depth <= json_parse::DEPTH_LIMIT,
        m.desc < schema.messages@.len(),
        schema.messages@[m.desc as int].wkt == (WktKind::Any { type_url, value }),
        type_url < m.attrs.len(),
        value < m.attrs.len(),
        is_url_of(url, name),
        url.len() > 0,
        has_type(opts.registry, name, message),
        message < schema.messages@.len(),
        json_scalars::value_reading(st.src) == Ok::<(Val, SrcState), Fault>((Val::Dict(dict), src)),
        typed_at(dict, i, url),
        0 <= at <= dict.len(),
        at < dict.len() ==> dict[at].0 == Val::Str("value"@),
        forall|k: int| 0 <= k < at ==> (#[trigger] dict[k]).0 != Val::Str("value"@),
    ensures
        ({
            let inner_desc = schema.messages@[message as int];
            let content = if inner_desc.wkt is Ordinary || at == dict.len() {
                Val::Dict(untyped(dict))
            } else {
                dict[at].1
            };
            let (inner, read) = json_parse::message_reading(
                schema,
                opts,
                json_parse::empty_msg(schema, message),
                round_trip::at(SrcState::Tree(Some(content)), st.asks),
                1,
            );
            let (m2, out) = json_parse::message_reading(schema, opts, m, st, depth);
            value::tree_size(content) < json_source::left(st.src) ==> {
                &&& read is Err ==> m2 == m && out == read
                &&& read is Ok && question::next_answer(read->Ok_0.asks, QuestionOf::Pack(inner))
                    == Ok::<Ans, Fault>(AnswerOf::Bytes(b)) ==> {
                    &&& m2 == (Msg {
                        attrs: m.attrs.update(
                            type_url as int,
                            Val::Str("type.googleapis.com/"@ + inner_desc.full_name@),
                        ).update(value as int, Val::Bytes(b)),
                        ..m
                    })
                    &&& out == Ok::<St, Fault>(
                        round_trip::at(src, question::after_answer(read->Ok_0.asks)),
                    )
                }
            }
        }),
{
    let desc = schema.messages@[m.desc as int];
    assert(json_parse::message_reading(schema, opts, m, st, depth) == json_parse::any_reading(
        schema,
        opts,
        m,
        desc,
        type_url,
        value,
        st,
        depth,
    ));
    lemma_untyped(dict, i, url);
    lemma_url_of(url, name);
    lemma_types_are_found(opts.registry, name, message);
    assert(json_parse::any_url(desc.full_name@, dict) == Ok::<Seq<char>, Fault>(url));
    if at < dict.len() {
        value::lemma_dict_index_is(dict, Val::Str("value"@), at);
    } else {
        value::lemma_dict_index(dict, Val::Str("value"@));
    }
}

/// An `Any` without a type is an empty object. Without a registry, or with one that lacks the type,
/// any other `Any` is refused.
pub proof fn lemma_any_is_written_by_type(
    schema: Schema,
    opts: JsonOpts,
    is_text: bool,
    m: Msg,
    type_url: usize,
    value: usize,
    url: Seq<char>,
    name: Seq<char>,
    asks: Seq<Ans>,
)
    requires
        m.desc < schema.messages@.len(),
        schema.messages@[m.desc as int].wkt == (WktKind::Any { type_url, value }),
        type_url < m.attrs.len(),
        is_url_of(url, name),
        url.len() > 0,
    ensures
        ({
            let written = json_serialize::message_json(schema, opts, is_text, m, asks);
            &&& m.attrs[type_url as int] == Val::Str(seq![]) ==> written == Ok::<(Json, nat), Fault>(
                (Json::Object(seq![]), 0),
            )
            &&& m.attrs[type_url as int] == Val::Str(url) && opts.registry is None ==> written
                == Err::<(Json, nat), Fault>(Fault::AnyWithoutRegistry { url })
            &&& m.attrs[type_url as int] == Val::Str(url) && opts.registry is Some && name.len() == 0
                ==> written == Err::<(Json, nat), Fault>(Fault::InvalidTypeUrl { url })
            &&& m.attrs[type_url as int] == Val::Str(url) && opts.registry is Some && name.len() > 0
                && lacks_type(opts.registry, name) ==> written == Err::<(Json, nat), Fault>(
                Fault::AnyNotRegistered { url },
            )
        }),
{
    lemma_url_of(url, name);
    lemma_types_are_found(opts.registry, name, 0);
    assert(json_serialize::message_json(schema, opts, is_text, m, asks) == json_serialize::any_json(
        schema,
        opts,
        is_text,
        m,
        type_url,
        value,
        asks,
    ));
}

/// An `Any` is written as the message in it, which the host unpacks, with its type: behind the
/// message's own members, or in front of a member `value` where the type has a JSON form of its own.
pub proof fn lemma_any_is_written_as_its_content(
    schema: Schema,
    opts: JsonOpts,
    is_text: bool,
    m: Msg,
    type_url: usize,
    value: usize,
    url: Seq<char>,
    name: Seq<char>,
    message: usize,
    data: Seq<u8>,
    msg: Msg,
    asks: Seq<Ans>,
)
    requires
        m.desc < schema.messages@.len(),
        schema.messages@[m.desc as int].wkt == (WktKind::Any { type_url, value }),
        type_url < m.attrs.len(),
        value < m.attrs.len(),
        m.attrs[type_url as int] == Val::Str(url),
        m.attrs[value as int] == Val::Bytes(data),
        is_url_of(url, name),
        name.len() > 0,
        has_type(opts.registry, name, message),
        message < schema.messages@.len(),
        msg.desc == message,
        question::next_answer(asks, QuestionOf::Unpack { desc: message, data }) == Ok::<Ans, Fault>(
            AnswerOf::Message(msg),
        ),
    ensures
        ({
            let written = json_serialize::message_json(schema, opts, is_text, m, asks);
            let content = json_serialize::message_json(
                schema,
                opts,
                is_text,
                msg,
                json_sink::rest(asks, 1),
            );
            let typed = ("@type"@, Json::Str(url));
            match content {
                Err(f) => written == Err::<(Json, nat), Fault>(f),
                Ok((j, n)) => if schema.messages@[message as int].wkt is Ordinary {
                    j is Object && written == Ok::<(Json, nat), Fault>(
                        (Json::Object(j->Object_0.push(typed)), n + 1),
                    )
                } else {
                    written == Ok::<(Json, nat), Fault>(
                        (Json::Object(seq![typed, ("value"@, j)]), n + 1),
                    )
                },
            }
        }),
{
    lemma_url_of(url, name);
    lemma_types_are_found(opts.registry, name, message);
    assert(json_serialize::message_json(schema, opts, is_text, m, asks) == json_serialize::any_json(
        schema,
        opts,
        is_text,
        m,
        type_url,
        value,
        asks,
    ));
    assert(json_serialize::any_bytes(Val::Bytes(data)) == Ok::<Seq<u8>, Fault>(data));
    assert(json_serialize::any_json(schema, opts, is_text, m, type_url, value, asks)
        == json_serialize::any_content_json(
        schema,
        opts,
        is_text,
        url,
        msg,
        json_sink::rest(asks, 1),
    ));
    let content = json_serialize::message_json(schema, opts, is_text, msg, json_sink::rest(asks, 1));
    let members = json_serialize::members_json(
        schema,
        opts,
        is_text,
        msg,
        schema.messages@[message as int],
        json_sink::rest(asks, 1),
    );
}

/// A `Struct` is written as its map, and a `ListValue` as its list.
pub proof fn lemma_containers_are_written(
    schema: Schema,
    opts: JsonOpts,
    is_text: bool,
    m: Msg,
    i: usize,
    ty: DescSingleValue,
    asks: Seq<Ans>,
)
    requires
        m.desc < schema.messages@.len(),
        i < schema.messages@[m.desc as int].fields@.len(),
        i < m.attrs.len(),
    ensures
        ({
            let desc = schema.messages@[m.desc as int];
            let written = json_serialize::message_json(schema, opts, is_text, m, asks);
            let as_field = json_serialize::field_json(
                schema,
                opts,
                is_text,
                desc.fields@[i as int].value,
                m.attrs[i as int],
                asks,
            );
            &&& desc.wkt == (WktKind::Struct { fields: i }) && desc.fields@[i as int].value == (
            DescFieldValue::MapOf { key_type: ScalarType::String, value: ty }) ==> written == as_field
            &&& desc.wkt == (WktKind::ListValue { values: i }) && desc.fields@[i as int].value == (
            DescFieldValue::List { element: ty }) ==> written == as_field
        }),
{
}

/// Timestamps and durations are written as the text for their seconds and nanoseconds. Out of the
/// range of their types, these are refused.
pub proof fn lemma_moments_are_written(
    schema: Schema,
    opts: JsonOpts,
    is_text: bool,
    m: Msg,
    seconds: usize,
    nanos: usize,
    s: int,
    n: int,
    asks: Seq<Ans>,
)
    requires
        m.desc < schema.messages@.len(),
        schema.messages@[m.desc as int].wkt == (WktKind::Timestamp { seconds, nanos })
            || schema.messages@[m.desc as int].wkt == (WktKind::Duration { seconds, nanos }),
        seconds < m.attrs.len(),
        nanos < m.attrs.len(),
        m.attrs[seconds as int] == Val::Int(s),
        m.attrs[nanos as int] == Val::Int(n),
    ensures
        ({
            let written = json_serialize::message_json(schema, opts, is_text, m, asks);
            if i64::MIN <= s <= i64::MAX && i32::MIN <= n <= i32::MAX {
                let t = if schema.messages@[m.desc as int].wkt is Timestamp {
                    wkt_json::timestamp_json(s as i64, n as i32)
                } else {
                    wkt_json::duration_json(s as i64, n as i32)
                };
                match t {
                    Ok(t) => written == Ok::<(Json, nat), Fault>((Json::Str(t), 0)),
                    Err(f) => written == Err::<(Json, nat), Fault>(f),
                }
            } else {
                written is Err
            }
        }),
{
}

/// A `Value` that holds an object or an array is written as the `Struct` or the `ListValue` is that it
/// holds.
pub proof fn lemma_values_write_containers(
    schema: Schema,
    opts: JsonOpts,
    is_text: bool,
    m: Msg,
    o: usize,
    i: usize,
    message: usize,
    inner: Msg,
    asks: Seq<Ans>,
)
    requires
        m.desc < schema.messages@.len(),
        ({
            let desc = schema.messages@[m.desc as int];
            &&& desc.wkt matches WktKind::Value { null_value, struct_value, list_value, .. } && {
                &&& null_value < desc.fields@.len()
                &&& desc.fields@[null_value as int].oneof == Some(o)
                &&& o < m.oneofs.len()
                &&& (m.oneofs[o as int] == Some(("struct_value"@, Val::Message(inner))) && i
                    == struct_value) || (m.oneofs[o as int] == Some(
                    ("list_value"@, Val::Message(inner)),
                ) && i == list_value)
            }
            &&& i < desc.fields@.len()
            &&& desc.fields@[i as int].value == (DescFieldValue::Message { message })
        }),
        message < schema.messages@.len(),
        inner.desc == message,
    ensures
        json_serialize::message_json(schema, opts, is_text, m, asks) == json_serialize::message_json(
            schema,
            opts,
            is_text,
            inner,
            asks,
        ),
{
    reveal_strlit("null_value");
    reveal_strlit("number_value");
    reveal_strlit("string_value");
    reveal_strlit("bool_value");
    reveal_strlit("struct_value");
    reveal_strlit("list_value");
    let desc = schema.messages@[m.desc as int];
    let name = m.oneofs[o as int]->Some_0.0;
    assert("struct_value"@[3] == 'u' && "string_value"@[3] == 'i' && "number_value"@[0] == 'n'
        && "list_value"@[0] == 'l' && "null_value"@[0] == 'n' && "bool_value"@[0] == 'b');
    assert("struct_value"@.len() == 12 && "list_value"@.len() == 10 && "null_value"@.len() == 10
        && "bool_value"@.len() == 10 && "struct_value"@[0] == 's');
    assert(json_parse::value_oneof(m, desc) == Ok::<usize, Fault>(o));
    let v = Val::Message(inner);
    let ty = DescSingleValue::Message(message);
    assert(json_serialize::single_json(schema, opts, is_text, ty, v, asks)
        == json_serialize::message_json(schema, opts, is_text, inner, asks));
    match desc.wkt {
        WktKind::Value { struct_value, list_value, .. } => {
            assert(json_serialize::kind_json(
                schema,
                opts,
                is_text,
                desc,
                name,
                v,
                struct_value,
                list_value,
                asks,
            ) == json_serialize::single_json(schema, opts, is_text, ty, v, asks));
            assert(json_serialize::message_json(schema, opts, is_text, m, asks)
                == json_serialize::kind_json(
                schema,
                opts,
                is_text,
                desc,
                name,
                v,
                struct_value,
                list_value,
                asks,
            ));
        },
        _ => {},
    }
}

/// Whether a path can be told again from its `lowerCamelCase` form.
pub open spec fn is_reversible(path: Val) -> bool {
    path is Str && names::snake(names::camel(path->Str_0)) == path->Str_0
}

/// A field mask is written as its paths in `lowerCamelCase`, between commas, if each can be told
/// again from that form. Otherwise it is refused.
pub proof fn lemma_masks_are_written(
    schema: Schema,
    opts: JsonOpts,
    is_text: bool,
    m: Msg,
    paths: usize,
    items: Seq<Val>,
    asks: Seq<Ans>,
)
    requires
        m.desc < schema.messages@.len(),
        schema.messages@[m.desc as int].wkt == (WktKind::FieldMask { paths }),
        paths < m.attrs.len(),
        m.attrs[paths as int] == Val::List(items),
    ensures
        ({
            let written = json_serialize::message_json(schema, opts, is_text, m, asks);
            let all = forall|i: int| 0 <= i < items.len() ==> is_reversible(#[trigger] items[i]);
            &&& written is Ok <==> all
            &&& all ==> written == Ok::<(Json, nat), Fault>(
                (
                    Json::Str(
                        names::join(
                            Seq::new(items.len(), |i: int| names::camel(items[i]->Str_0)),
                            ',',
                        ),
                    ),
                    0,
                ),
            )
        }),
{
    lemma_camel_parts(items);
}

proof fn lemma_camel_parts(items: Seq<Val>)
    ensures
        ({
            let parts = field_mask::camel_parts(items);
            let all = forall|i: int| 0 <= i < items.len() ==> is_reversible(#[trigger] items[i]);
            &&& parts is Ok <==> all
            &&& all ==> parts->Ok_0 == Seq::new(items.len(), |i: int| names::camel(items[i]->Str_0))
        }),
    decreases items.len(),
{
    if items.len() == 0 {
        assert(Seq::new(items.len(), |i: int| names::camel(items[i]->Str_0)) =~= Seq::<
            Seq<char>,
        >::empty());
    } else {
        let head = items.drop_last();
        lemma_camel_parts(head);
        if forall|i: int| 0 <= i < items.len() ==> is_reversible(#[trigger] items[i]) {
            assert forall|i: int| 0 <= i < head.len() implies is_reversible(#[trigger] head[i]) by {
                assert(head[i] == items[i]);
            }
            assert(is_reversible(items[items.len() - 1]));
            assert(Seq::new(items.len(), |i: int| names::camel(items[i]->Str_0)) =~= Seq::new(
                head.len(),
                |i: int| names::camel(head[i]->Str_0),
            ).push(names::camel(items.last()->Str_0)));
        } else {
            let i = choose|i: int| 0 <= i < items.len() && !is_reversible(#[trigger] items[i]);
            if i < head.len() {
                assert(!is_reversible(head[i]));
            }
        }
    }
}

} // verus!
