//! What reading JSON into a message does to what the message held before.

use vstd::prelude::*;
use crate::descriptor;
use crate::descriptor::{
    DescField, DescFieldValue, DescMessage, DescSingleValue, Extension, ScalarType, Schema,
};
use crate::error;
use crate::error::Fault;
use crate::json_parse;
use crate::json_parse::{FromJsonOpts, SeenKeys};
use crate::json_scalars;
use crate::json_scalars::St;
use crate::json_shown;
use crate::json_sink::Json;
use crate::json_source;
use crate::json_source::{JsonKind, SrcState};
use crate::json_text;
use crate::question;
use crate::question::{Ans, AnswerOf, QuestionOf};
use crate::round_trip;
use crate::scalar_forms;
use crate::value;
use crate::value::{Msg, Val};

verus! {

/// What a dictionary has under a key.
pub open spec fn entry_of(dict: Seq<(Val, Val)>, key: Val) -> Option<Val>
    decreases dict.len(),
{
    if dict.len() == 0 {
        None
    } else if value::same_key(dict[0].0, key) {
        Some(dict[0].1)
    } else {
        entry_of(dict.skip(1), key)
    }
}

/// What was last read under a key.
pub open spec fn last_read(read: Seq<(Val, Option<Val>)>, key: Val) -> Option<Val>
    decreases read.len(),
{
    if read.len() == 0 {
        None
    } else if read.last().1 is Some && value::same_key(read.last().0, key) {
        read.last().1
    } else {
        last_read(read.drop_last(), key)
    }
}

/// The keys and values that are read from an object, one after the other, and the state behind
/// it. A value that is ignored is none.
pub open spec fn entries_read(
    schema: Schema,
    opts: FromJsonOpts,
    desc: DescMessage,
    field: DescField,
    key_type: ScalarType,
    ty: DescSingleValue,
    st: St,
    entries: Seq<(Val, Val)>,
    key: Seq<char>,
    depth: nat,
) -> Option<(Seq<(Val, Option<Val>)>, St)>
    decreases json_source::entries_left(st.src, entries),
{
    match json_scalars::map_key_reading(key_type, key, st.asks, desc, field) {
        Err(_) => None,
        Ok((k, asks)) => match json_parse::item_reading(
            schema,
            opts,
            desc,
            field,
            ty,
            true,
            round_trip::at(st.src, asks),
            depth,
        ) {
            Err(_) => None,
            Ok((v, st2)) => match json_source::key_read(st2.src, entries) {
                Err(_) => None,
                Ok((_, None, src)) => Some((seq![(k, v)], round_trip::at(src, st2.asks))),
                Ok((rest, Some(next), src)) => if json_source::entries_left(src, rest)
                    < json_source::entries_left(st.src, entries) {
                    match entries_read(
                        schema,
                        opts,
                        desc,
                        field,
                        key_type,
                        ty,
                        round_trip::at(src, st2.asks),
                        rest,
                        next,
                        depth,
                    ) {
                        Some((more, end)) => Some((seq![(k, v)] + more, end)),
                        None => None,
                    }
                } else {
                    None
                },
            },
        },
    }
}

/// Keys that name the same entry name the same entries as each other.
proof fn lemma_same_key(a: Val, b: Val, c: Val)
    ensures
        value::same_key(a, b) ==> value::same_key(b, a),
        value::same_key(a, b) && value::same_key(b, c) ==> value::same_key(a, c),
{
}

/// Setting an entry sets what the dictionary has under that key, and nothing else.
pub proof fn lemma_entry_set(dict: Seq<(Val, Val)>, key: Val, v: Val, other: Val)
    requires
        value::same_key(key, key),
    ensures
        entry_of(value::dict_set(dict, key, v), other) == if value::same_key(key, other) {
            Some(v)
        } else {
            entry_of(dict, other)
        },
    decreases dict.len(),
{
    let set = value::dict_set(dict, key, v);
    lemma_same_key(key, other, key);
    lemma_same_key(other, key, other);
    assert(entry_of(Seq::<(Val, Val)>::empty(), other) is None);
    if dict.len() == 0 {
        assert(set =~= seq![(key, v)]);
        assert(set.skip(1) =~= Seq::<(Val, Val)>::empty());
    } else {
        let rest = dict.skip(1);
        lemma_same_key(dict[0].0, key, other);
        lemma_same_key(dict[0].0, other, key);
        lemma_same_key(key, dict[0].0, other);
        if value::same_key(dict[0].0, key) {
            assert(value::dict_index(dict, key) == Some(0int));
            assert(set.skip(1) =~= rest);
        } else {
            lemma_entry_set(rest, key, v, other);
            match value::dict_index(rest, key) {
                Some(i) => {
                    value::lemma_dict_index(rest, key);
                    assert(rest[i] == dict[i + 1]);
                    assert(set.skip(1) =~= value::dict_set(rest, key, v));
                },
                None => {
                    assert(set.skip(1) =~= value::dict_set(rest, key, v));
                },
            }
            assert(set[0] == dict[0]);
        }
    }
}

/// Setting an entry leaves the order of the keys: a new key stands behind the others, and one that
/// was there keeps its place.
pub proof fn lemma_entries_keep_their_order(dict: Seq<(Val, Val)>, key: Val, v: Val)
    ensures
        ({
            let set = value::dict_set(dict, key, v);
            &&& set.len() == if entry_of(dict, key) is Some {
                dict.len()
            } else {
                dict.len() + 1
            }
            &&& forall|k: int| 0 <= k < dict.len() ==> (#[trigger] set[k]).0 == dict[k].0
            &&& entry_of(dict, key) is None ==> set.last() == (key, v)
        }),
{
    lemma_entry_found(dict, key);
    value::lemma_dict_index(dict, key);
}

/// A dictionary has something under the keys of its entries.
proof fn lemma_entry_found(dict: Seq<(Val, Val)>, key: Val)
    ensures
        entry_of(dict, key) is Some <==> value::dict_index(dict, key) is Some,
    decreases dict.len(),
{
    if dict.len() > 0 {
        lemma_entry_found(dict.skip(1), key);
    }
}

/// What was read first counts where nothing was read later.
pub proof fn lemma_last_read(first: (Val, Option<Val>), read: Seq<(Val, Option<Val>)>, key: Val)
    ensures
        last_read(seq![first] + read, key) == match last_read(read, key) {
            Some(v) => Some(v),
            None => if value::same_key(first.0, key) {
                first.1
            } else {
                None
            },
        },
    decreases read.len(),
{
    let all = seq![first] + read;
    if read.len() == 0 {
        assert(all =~= seq![first]);
        assert(all.drop_last() =~= Seq::<(Val, Option<Val>)>::empty());
    } else {
        assert(all.last() == read.last());
        assert(all.drop_last() =~= seq![first] + read.drop_last());
        lemma_last_read(first, read.drop_last(), key);
    }
}

/// A key that is read can be looked up.
proof fn lemma_key_is_key(
    key_type: ScalarType,
    key: Seq<char>,
    asks: Seq<Ans>,
    desc: DescMessage,
    field: DescField,
)
    ensures
        json_scalars::map_key_reading(key_type, key, asks, desc, field) matches Ok((k, _))
            ==> value::same_key(k, k),
{
}

#[verifier::rlimit(40)]
proof fn lemma_pairs_merge(
    schema: Schema,
    opts: FromJsonOpts,
    desc: DescMessage,
    field: DescField,
    key_type: ScalarType,
    ty: DescSingleValue,
    st: St,
    entries: Seq<(Val, Val)>,
    key: Seq<char>,
    dict: Seq<(Val, Val)>,
    other: Val,
    depth: nat,
)
    requires
        depth <= json_parse::DEPTH_LIMIT,
        entries_read(schema, opts, desc, field, key_type, ty, st, entries, key, depth) is Some,
    ensures
        ({
            let (read, end) = entries_read(
                schema,
                opts,
                desc,
                field,
                key_type,
                ty,
                st,
                entries,
                key,
                depth,
            )->0;
            let (dict2, out) = json_parse::pairs_reading(
                schema,
                opts,
                desc,
                field,
                key_type,
                ty,
                st,
                entries,
                key,
                dict,
                depth,
            );
            &&& out == Ok::<St, Fault>(end)
            &&& entry_of(dict2, other) == match last_read(read, other) {
                Some(v) => Some(v),
                None => entry_of(dict, other),
            }
        }),
    decreases json_source::entries_left(st.src, entries),
{
    let (k, asks) = json_scalars::map_key_reading(key_type, key, st.asks, desc, field)->Ok_0;
    lemma_key_is_key(key_type, key, st.asks, desc, field);
    let (v, st2) = json_parse::item_reading(
        schema,
        opts,
        desc,
        field,
        ty,
        true,
        round_trip::at(st.src, asks),
        depth,
    )->Ok_0;
    let dict1 = match v {
        Some(v) => value::dict_set(dict, k, v),
        None => dict,
    };
    if v is Some {
        lemma_entry_set(dict, k, v->0, other);
    }
    match json_source::key_read(st2.src, entries)->Ok_0 {
        (_, None, src) => {
            assert(seq![(k, v)].drop_last() =~= Seq::<(Val, Option<Val>)>::empty());
            assert(last_read(Seq::<(Val, Option<Val>)>::empty(), other) is None);
        },
        (rest, Some(next), src) => {
            let st3 = round_trip::at(src, st2.asks);
            lemma_pairs_merge(
                schema,
                opts,
                desc,
                field,
                key_type,
                ty,
                st3,
                rest,
                next,
                dict1,
                other,
                depth,
            );
            let more = entries_read(
                schema,
                opts,
                desc,
                field,
                key_type,
                ty,
                st3,
                rest,
                next,
                depth,
            )->Some_0.0;
            lemma_last_read((k, v), more, other);
        },
    }
}

/// A map field is merged: when an object is read into it, each key of the object maps to the value
/// that was read last for it, each other key that the map had keeps its value, and no other key is
/// there. The rest of the message stays as it is.
pub proof fn lemma_maps_are_merged(
    schema: Schema,
    opts: FromJsonOpts,
    m: Msg,
    desc: DescMessage,
    field: DescField,
    i: int,
    key_type: ScalarType,
    ty: DescSingleValue,
    dict: Seq<(Val, Val)>,
    st: St,
    key: Val,
    depth: nat,
)
    requires
        depth <= json_parse::DEPTH_LIMIT,
        field.value == (DescFieldValue::MapOf { key_type, value: ty }),
        0 <= i < m.attrs.len(),
        m.attrs[i] == Val::Dict(dict),
        json_source::peeked(st.src) == Ok::<JsonKind, Fault>(JsonKind::Object),
        json_source::object_read(st.src) matches Ok((entries, Some(first), src)) && {
            &&& json_source::entries_left(src, entries) < json_source::left(st.src)
            &&& entries_read(
                schema,
                opts,
                desc,
                field,
                key_type,
                ty,
                round_trip::at(src, st.asks),
                entries,
                first,
                depth,
            ) is Some
        },
    ensures
        ({
            let (entries, first, src) = json_source::object_read(st.src)->Ok_0;
            let (read, end) = entries_read(
                schema,
                opts,
                desc,
                field,
                key_type,
                ty,
                round_trip::at(src, st.asks),
                entries,
                first->0,
                depth,
            )->0;
            let (m2, out) = json_parse::field_reading(schema, opts, m, desc, field, i, st, depth);
            &&& out == Ok::<St, Fault>(end)
            &&& m2.attrs[i] is Dict
            &&& m2 == (Msg { attrs: m.attrs.update(i, m2.attrs[i]), ..m })
            &&& entry_of(m2.attrs[i]->Dict_0, key) == match last_read(read, key) {
                Some(v) => Some(v),
                None => entry_of(dict, key),
            }
        }),
{
    let (entries, first, src) = json_source::object_read(st.src)->Ok_0;
    lemma_pairs_merge(
        schema,
        opts,
        desc,
        field,
        key_type,
        ty,
        round_trip::at(src, st.asks),
        entries,
        first->0,
        dict,
        key,
        depth,
    );
}

/// The items that are read from an array, one after the other, and the state behind it. Nothing
/// stands for an item that is ignored.
pub open spec fn items_read(
    schema: Schema,
    opts: FromJsonOpts,
    desc: DescMessage,
    field: DescField,
    element: DescSingleValue,
    st: St,
    items: Seq<Val>,
    depth: nat,
) -> Option<(Seq<Val>, St)>
    decreases json_source::items_left(st.src, items),
{
    match json_parse::item_reading(schema, opts, desc, field, element, false, st, depth) {
        Err(_) => None,
        Ok((v, st2)) => {
            let first = match v {
                Some(v) => seq![v],
                None => seq![],
            };
            match json_source::array_stepped(st2.src, items) {
                Err(_) => None,
                Ok((rest, more, src)) => if !more {
                    Some((first, round_trip::at(src, st2.asks)))
                } else if json_source::items_left(src, rest) < json_source::items_left(
                    st.src,
                    items,
                ) {
                    match items_read(
                        schema,
                        opts,
                        desc,
                        field,
                        element,
                        round_trip::at(src, st2.asks),
                        rest,
                        depth,
                    ) {
                        Some((later, end)) => Some((first + later, end)),
                        None => None,
                    }
                } else {
                    None
                },
            }
        },
    }
}

#[verifier::rlimit(40)]
proof fn lemma_elements_append(
    schema: Schema,
    opts: FromJsonOpts,
    desc: DescMessage,
    field: DescField,
    element: DescSingleValue,
    st: St,
    items: Seq<Val>,
    list: Seq<Val>,
    depth: nat,
)
    requires
        depth <= json_parse::DEPTH_LIMIT,
        items_read(schema, opts, desc, field, element, st, items, depth) is Some,
    ensures
        ({
            let (read, end) = items_read(
                schema,
                opts,
                desc,
                field,
                element,
                st,
                items,
                depth,
            )->0;
            json_parse::elements_reading(
                schema,
                opts,
                desc,
                field,
                element,
                st,
                items,
                list,
                depth,
            ) == (list + read, Ok::<St, Fault>(end))
        }),
    decreases json_source::items_left(st.src, items),
{
    let (v, st2) = json_parse::item_reading(
        schema,
        opts,
        desc,
        field,
        element,
        false,
        st,
        depth,
    )->Ok_0;
    let first = match v {
        Some(v) => seq![v],
        None => seq![],
    };
    let longer = match v {
        Some(v) => list.push(v),
        None => list,
    };
    assert(longer =~= list + first);
    let (rest, more, src) = json_source::array_stepped(st2.src, items)->Ok_0;
    if more {
        let st3 = round_trip::at(src, st2.asks);
        lemma_elements_append(schema, opts, desc, field, element, st3, rest, longer, depth);
        let later = items_read(schema, opts, desc, field, element, st3, rest, depth)->Some_0.0;
        assert(longer + later =~= list + (first + later));
    }
}

/// A list field is merged: the items of an array that is read into it stand behind those that it
/// had, in the array's order. The rest of the message stays as it is.
pub proof fn lemma_lists_are_appended(
    schema: Schema,
    opts: FromJsonOpts,
    m: Msg,
    desc: DescMessage,
    field: DescField,
    i: int,
    element: DescSingleValue,
    list: Seq<Val>,
    st: St,
    depth: nat,
)
    requires
        depth <= json_parse::DEPTH_LIMIT,
        field.value == (DescFieldValue::List { element }),
        0 <= i < m.attrs.len(),
        m.attrs[i] == Val::List(list),
        json_source::peeked(st.src) == Ok::<JsonKind, Fault>(JsonKind::Array),
        json_source::array_read(st.src) matches Ok((items, true, src)) && {
            &&& json_source::items_left(src, items) < json_source::left(st.src)
            &&& items_read(
                schema,
                opts,
                desc,
                field,
                element,
                round_trip::at(src, st.asks),
                items,
                depth,
            ) is Some
        },
    ensures
        ({
            let (items, _, src) = json_source::array_read(st.src)->Ok_0;
            let (read, end) = items_read(
                schema,
                opts,
                desc,
                field,
                element,
                round_trip::at(src, st.asks),
                items,
                depth,
            )->0;
            json_parse::field_reading(schema, opts, m, desc, field, i, st, depth) == (
                Msg { attrs: m.attrs.update(i, Val::List(list + read)), ..m },
                Ok::<St, Fault>(end),
            )
        }),
{
    let (items, _, src) = json_source::array_read(st.src)->Ok_0;
    lemma_elements_append(
        schema,
        opts,
        desc,
        field,
        element,
        round_trip::at(src, st.asks),
        items,
        list,
        depth,
    );
}

/// An empty object or array, or a null, leaves a map or a list as it is; any other kind of JSON
/// value is refused, and leaves the message as it is.
pub proof fn lemma_containers_take_containers(
    schema: Schema,
    opts: FromJsonOpts,
    m: Msg,
    desc: DescMessage,
    field: DescField,
    i: int,
    st: St,
    depth: nat,
)
    requires
        depth <= json_parse::DEPTH_LIMIT,
        field.value is List || field.value is MapOf,
        0 <= i < m.attrs.len(),
        field.value is List ==> m.attrs[i] is List,
        field.value is MapOf ==> m.attrs[i] is Dict,
    ensures
        ({
            let (m2, out) = json_parse::field_reading(schema, opts, m, desc, field, i, st, depth);
            let empty = if field.value is List {
                Json::Array(seq![])
            } else {
                Json::Object(seq![])
            };
            let behind = |j: Json| Ok::<St, Fault>(
                round_trip::at(json_shown::behind(st.src, j), st.asks),
            );
            &&& json_shown::shows(st.src, Json::Null) ==> m2 == m && out == behind(Json::Null)
            &&& json_shown::shows(st.src, empty) ==> m2 == m && out == behind(empty)
            &&& json_source::peeked(st.src) matches Ok(kind) ==> (!(kind is Null) && (if field.value
                is List {
                !(kind is Array)
            } else {
                !(kind is Object)
            }) ==> m2 == m && out is Err)
        }),
{
}

/// Whether two messages are equal but for field `i` outside of oneofs.
pub open spec fn same_but_attr(m: Msg, m2: Msg, i: int) -> bool {
    &&& m2.desc == m.desc
    &&& m2.attrs.len() == m.attrs.len() && m2.present.len() == m.present.len()
    &&& forall|k: int| 0 <= k < m.attrs.len() && k != i ==> #[trigger] m2.attrs[k] == m.attrs[k]
    &&& forall|k: int| 0 <= k < m.present.len() && k != i ==> #[trigger] m2.present[k] == m.present[k]
    &&& m2.oneofs == m.oneofs
    &&& m2.unknown == m.unknown
}

/// Whether two messages are equal but for what oneof `o` holds.
pub open spec fn same_but_oneof(m: Msg, m2: Msg, o: int) -> bool {
    &&& m2.desc == m.desc
    &&& m2.attrs == m.attrs
    &&& m2.present == m.present
    &&& m2.oneofs.len() == m.oneofs.len()
    &&& forall|k: int| 0 <= k < m.oneofs.len() && k != o ==> #[trigger] m2.oneofs[k] == m.oneofs[k]
    &&& m2.unknown == m.unknown
}

/// Whether a message holds a value in a singular field: as the field's value, remembered where the
/// field remembers that, or as what its oneof holds.
pub open spec fn holds_value(m: Msg, m2: Msg, field: DescField, i: int, v: Val) -> bool {
    match field.oneof {
        None => same_but_attr(m, m2, i) && m2.attrs[i] == v && m2.present[i] == (
        field.requires_presence || m.present[i]),
        Some(o) => same_but_oneof(m, m2, o as int) && m2.oneofs[o as int] == Some(
            (field.local_name@, v),
        ),
    }
}

/// Whether a message has a place for a field.
pub open spec fn has_place(m: Msg, field: DescField, i: int) -> bool {
    match field.oneof {
        None => 0 <= i < m.attrs.len() && i < m.present.len(),
        Some(o) => o < m.oneofs.len(),
    }
}

/// A scalar or an enum value that is read is the value of its field from then on, whatever the field
/// or its oneof held before. The rest of the message stays as it is.
pub proof fn lemma_singular_fields_are_set(
    schema: Schema,
    opts: FromJsonOpts,
    m: Msg,
    desc: DescMessage,
    field: DescField,
    i: int,
    st: St,
    depth: nat,
)
    requires
        depth <= json_parse::DEPTH_LIMIT,
        has_place(m, field, i),
        json_source::peeked(st.src) is Ok && !(json_source::peeked(st.src)->Ok_0 is Null),
    ensures
        ({
            let (m2, out) = json_parse::field_reading(schema, opts, m, desc, field, i, st, depth);
            &&& field.value matches DescFieldValue::Scalar { scalar_type } ==> {
                match json_scalars::scalar_reading(st, scalar_type, desc, field) {
                    Ok((v, st2)) => holds_value(m, m2, field, i, v) && out == Ok::<St, Fault>(st2),
                    Err(f) => m2 == m && out == Err::<St, Fault>(f),
                }
            }
            &&& field.value matches DescFieldValue::Enum { enum_ } ==> (enum_ < schema.enums@.len()
                ==> match json_scalars::enum_reading(
                st.src,
                schema.enums@[enum_ as int],
                opts.ignore_unknown_fields,
            ) {
                Ok((Some(v), src)) => holds_value(m, m2, field, i, v) && out == Ok::<St, Fault>(
                    round_trip::at(src, st.asks),
                ),
                Ok((None, src)) => m2 == m && out == Ok::<St, Fault>(
                    round_trip::at(src, st.asks),
                ),
                Err(f) => m2 == m && out == Err::<St, Fault>(f),
            })
        }),
{
}

/// Whether a message has a singular field unset: it has its default and is not remembered. A oneof
/// that held it holds nothing, and one that holds another field keeps it.
pub open spec fn is_unset(m: Msg, m2: Msg, field: DescField, i: int, default: Val) -> bool {
    match field.oneof {
        None => same_but_attr(m, m2, i) && m2.attrs[i] == default && !m2.present[i],
        Some(o) => same_but_oneof(m, m2, o as int) && m2.oneofs[o as int] == match m.oneofs[o as int] {
            Some((name, v)) => if name == field.local_name@ {
                None
            } else {
                Some((name, v))
            },
            None => None,
        },
    }
}

/// A null unsets a scalar, an enum or a message field, except where null is a value of its type:
/// for `google.protobuf.NullValue` and `google.protobuf.Value`.
pub proof fn lemma_nulls_unset_fields(
    schema: Schema,
    opts: FromJsonOpts,
    m: Msg,
    desc: DescMessage,
    field: DescField,
    i: int,
    st: St,
    depth: nat,
)
    requires
        depth <= json_parse::DEPTH_LIMIT,
        has_place(m, field, i),
        json_shown::shows(st.src, Json::Null),
    ensures
        ({
            let (m2, out) = json_parse::field_reading(schema, opts, m, desc, field, i, st, depth);
            let done = out == Ok::<St, Fault>(
                round_trip::at(json_shown::behind(st.src, Json::Null), st.asks),
            );
            &&& field.value matches DescFieldValue::Scalar { scalar_type } ==> done && is_unset(
                m,
                m2,
                field,
                i,
                match scalar_type {
                    ScalarType::Bool => Val::Bool(false),
                    ScalarType::String => Val::Str(seq![]),
                    ScalarType::Bytes => Val::Bytes(seq![]),
                    ScalarType::Float | ScalarType::Double => Val::Float(0),
                    _ => Val::Int(0),
                },
            )
            &&& field.value matches DescFieldValue::Enum { enum_ } ==> (enum_ < schema.enums@.len()
                ==> done && if schema.enums@[enum_ as int].is_null_value {
                holds_value(m, m2, field, i, Val::Int(schema.enums@[enum_ as int].zero as int))
            } else {
                is_unset(m, m2, field, i, Val::Int(schema.enums@[enum_ as int].zero as int))
            })
            &&& field.value matches DescFieldValue::Message { message } ==> (message
                < schema.messages@.len() && !(schema.messages@[message as int].wkt is Value) ==> done
                && is_unset(m, m2, field, i, Val::Null))
        }),
{
}

/// A null for a scalar field of a oneof is passed over: the oneof keeps what it holds, and another
/// field of it may still be set.
pub proof fn lemma_nulls_in_oneofs(
    schema: Schema,
    opts: FromJsonOpts,
    m: Msg,
    desc: DescMessage,
    field: DescField,
    i: usize,
    o: usize,
    st: St,
    seen: SeenKeys,
    depth: nat,
)
    requires
        depth <= json_parse::DEPTH_LIMIT,
        field.value is Scalar,
        json_shown::shows(st.src, Json::Null),
    ensures
        json_parse::oneof_member_reading(schema, opts, m, desc, field, i, o, st, seen, depth) == (
            m,
            seen,
            Ok::<St, Fault>(round_trip::at(json_shown::behind(st.src, Json::Null), st.asks)),
        ),
{
}

/// A message field is merged: what is read goes into the message that the field holds, or into an
/// empty one of its type, and the field holds that message then. The rest stays as it is.
pub proof fn lemma_messages_are_merged(
    schema: Schema,
    opts: FromJsonOpts,
    m: Msg,
    desc: DescMessage,
    field: DescField,
    i: int,
    message: usize,
    held: Option<Msg>,
    st: St,
    depth: nat,
)
    requires
        depth <= json_parse::DEPTH_LIMIT,
        field.value == (DescFieldValue::Message { message }),
        message < schema.messages@.len(),
        has_place(m, field, i),
        json_source::peeked(st.src) is Ok,
        json_source::peeked(st.src)->Ok_0 is Null ==> schema.messages@[message as int].wkt is Value,
        held matches Some(inner) ==> inner.desc == message && match field.oneof {
            None => m.attrs[i] == Val::Message(inner),
            Some(o) => m.oneofs[o as int] == Some((field.local_name@, Val::Message(inner))),
        },
        held is None ==> match field.oneof {
            None => m.attrs[i] is Null,
            Some(o) => m.oneofs[o as int] is None || m.oneofs[o as int]->Some_0.0 != field.local_name@,
        },
    ensures
        ({
            let target = match held {
                Some(inner) => inner,
                None => json_parse::empty_msg(schema, message),
            };
            let (inner2, out2) = json_parse::message_reading(schema, opts, target, st, depth + 1);
            let (m2, out) = json_parse::field_reading(schema, opts, m, desc, field, i, st, depth);
            &&& out == out2
            &&& out is Ok ==> holds_value(m, m2, field, i, Val::Message(inner2))
            &&& out is Err && held is None ==> m2 == m
            &&& out is Err && held is Some ==> match field.oneof {
                None => m2 == (Msg { attrs: m.attrs.update(i, Val::Message(inner2)), ..m }),
                Some(o) => holds_value(m, m2, field, i, Val::Message(inner2)),
            }
        }),
{
}

/// A field that holds something other than a message of its type is not merged into.
pub proof fn lemma_other_values_are_not_merged(
    schema: Schema,
    opts: FromJsonOpts,
    m: Msg,
    desc: DescMessage,
    field: DescField,
    i: int,
    message: usize,
    st: St,
    depth: nat,
)
    requires
        depth <= json_parse::DEPTH_LIMIT,
        field.value == (DescFieldValue::Message { message }),
        message < schema.messages@.len(),
        field.oneof is None,
        0 <= i < m.attrs.len(),
        json_source::peeked(st.src) is Ok,
        !(json_source::peeked(st.src)->Ok_0 is Null),
        !(m.attrs[i] is Null),
        m.attrs[i] matches Val::Message(inner) ==> inner.desc != message,
    ensures
        ({
            let (m2, out) = json_parse::field_reading(schema, opts, m, desc, field, i, st, depth);
            m2 == m && out is Err
        }),
{
}

/// Messages are refused below the greatest depth wherever they stand: in a field, in a list, in a
/// map, in a `Struct`, a `ListValue` or a `Value`.
pub proof fn lemma_depth_is_counted_everywhere(
    schema: Schema,
    opts: FromJsonOpts,
    m: Msg,
    desc: DescMessage,
    field: DescField,
    i: int,
    message: usize,
    is_map: bool,
    st: St,
    items: Seq<Val>,
    entries: Seq<(Val, Val)>,
    key: Seq<char>,
    list: Seq<Val>,
    dict: Seq<(Val, Val)>,
)
    requires
        message < schema.messages@.len(),
        json_source::peeked(st.src) is Ok,
        !(json_source::peeked(st.src)->Ok_0 is Null),
        has_place(m, field, i),
        match field.oneof {
            None => m.attrs[i] is Null,
            Some(o) => m.oneofs[o as int] is None,
        },
    ensures
        ({
            let depth = 100nat;
            let refused = Err::<St, Fault>(Fault::RecursionLimit);
            &&& field.value == (DescFieldValue::Message { message }) ==> json_parse::field_reading(
                schema,
                opts,
                m,
                desc,
                field,
                i,
                st,
                depth,
            ).1 == refused
            &&& json_parse::item_reading(
                schema,
                opts,
                desc,
                field,
                DescSingleValue::Message(message),
                is_map,
                st,
                depth,
            ) == Err::<(Option<Val>, St), Fault>(Fault::RecursionLimit)
            &&& json_parse::messages_reading(schema, opts, message, st, items, list, depth).1
                == refused
            &&& json_parse::named_messages_reading(
                schema,
                opts,
                message,
                st,
                entries,
                key,
                dict,
                depth,
            ).1 == refused
            &&& (json_source::peeked(st.src)->Ok_0 is Object || json_source::peeked(st.src)->Ok_0
                is Array) && field.value == (DescFieldValue::Message { message })
                ==> json_parse::kind_reading(
                schema,
                opts,
                json_source::peeked(st.src)->Ok_0,
                field,
                st,
                depth,
            ) == Err::<(Val, St), Fault>(Fault::RecursionLimit)
        }),
{
}

/// Up to the greatest depth a message is never refused for its depth alone: an empty object is read
/// at any depth up to 100.
pub proof fn lemma_depth_is_not_cut_short(
    schema: Schema,
    opts: FromJsonOpts,
    m: Msg,
    st: St,
    depth: nat,
)
    requires
        depth <= 100,
        m.desc < schema.messages@.len(),
        schema.messages@[m.desc as int].wkt is Ordinary,
        json_shown::shows(st.src, Json::Object(seq![])),
    ensures
        json_parse::message_reading(schema, opts, m, st, depth) == (
            m,
            Ok::<St, Fault>(
                round_trip::at(json_shown::behind(st.src, Json::Object(seq![])), st.asks),
            ),
        ),
{
}

/// The index of the field that a key names, if it names one.
pub open spec fn named_field(desc: DescMessage, key: Seq<char>) -> Option<int> {
    match descriptor::name_index(desc.json_names@, key) {
        Some(entry) => Some(desc.json_names@[entry].1 as int),
        None => None,
    }
}

/// Whether a source goes on when an array or an object of it is entered.
pub open spec fn goes_on(src: SrcState) -> bool {
    &&& json_source::array_read(src) matches Ok((items, more, src2)) ==> (more
        ==> json_source::items_left(src2, items) < json_source::left(src))
    &&& json_source::object_read(src) matches Ok((entries, key, src2)) ==> (key is Some
        ==> json_source::entries_left(src2, entries) < json_source::left(src))
}

/// Reading a field changes that field or its oneof, and nothing else, whether it succeeds or not.
#[verifier::rlimit(40)]
pub proof fn lemma_fields_change_themselves(
    schema: Schema,
    opts: FromJsonOpts,
    m: Msg,
    desc: DescMessage,
    field: DescField,
    i: int,
    st: St,
    depth: nat,
)
    requires
        depth <= json_parse::DEPTH_LIMIT,
        has_place(m, field, i),
        0 <= i < m.attrs.len(),
        goes_on(st.src),
    ensures
        ({
            let m2 = json_parse::field_reading(schema, opts, m, desc, field, i, st, depth).0;
            &&& field.value is List || field.value is MapOf || field.oneof is None
                ==> same_but_attr(m, m2, i)
            &&& !(field.value is List) && !(field.value is MapOf) && field.oneof is Some
                ==> same_but_oneof(m, m2, field.oneof->0 as int)
        }),
{
}

/// Whether a message has a place for each field of its type.
pub open spec fn has_places(m: Msg, desc: DescMessage) -> bool {
    &&& m.attrs.len() == desc.fields@.len()
    &&& m.present.len() == desc.fields@.len()
    &&& forall|i: int| 0 <= i < desc.fields@.len() ==> has_place(m, #[trigger] desc.fields@[i], i)
}

/// Whether two messages agree in all fields, and in all oneofs, that none of some keys names.
pub open spec fn agree_elsewhere(desc: DescMessage, keys: Seq<Seq<char>>, m: Msg, m2: Msg) -> bool {
    &&& m2.desc == m.desc
    &&& m2.attrs.len() == m.attrs.len()
    &&& m2.present.len() == m.present.len()
    &&& m2.oneofs.len() == m.oneofs.len()
    &&& forall|k: int|
        #![trigger m2.attrs[k]]
        #![trigger m2.present[k]]
        0 <= k < m.attrs.len() && !is_named(desc, keys, k) ==> m2.attrs[k] == m.attrs[k]
            && m2.present[k] == m.present[k]
    &&& forall|o: int|
        0 <= o < m.oneofs.len() && !oneof_is_named(desc, keys, o) ==> #[trigger] m2.oneofs[o]
            == m.oneofs[o]
}

/// Whether one of some keys names a field.
pub open spec fn is_named(desc: DescMessage, keys: Seq<Seq<char>>, k: int) -> bool {
    exists|n: int| 0 <= n < keys.len() && #[trigger] named_field(desc, keys[n]) == Some(k)
}

/// Whether one of some keys names a field of a oneof.
pub open spec fn oneof_is_named(desc: DescMessage, keys: Seq<Seq<char>>, o: int) -> bool {
    exists|n: int|
        0 <= n < keys.len() && match #[trigger] named_field(desc, keys[n]) {
            Some(k) => 0 <= k < desc.fields@.len() && desc.fields@[k].oneof == Some(o as usize),
            None => false,
        }
}

/// A change of a field, or of its oneof, is a change of what a key names that names the field.
proof fn lemma_agree(desc: DescMessage, key: Seq<char>, m: Msg, m2: Msg, i: int)
    requires
        named_field(desc, key) == Some(i),
        0 <= i < desc.fields@.len(),
        same_but_attr(m, m2, i) || (desc.fields@[i].oneof is Some && same_but_oneof(
            m,
            m2,
            desc.fields@[i].oneof->0 as int,
        )),
        m.present.len() == m.attrs.len(),
    ensures
        agree_elsewhere(desc, seq![key], m, m2),
{
    assert(named_field(desc, seq![key][0]) == Some(i));
    assert(is_named(desc, seq![key], i));
    if desc.fields@[i].oneof is Some {
        assert(oneof_is_named(desc, seq![key], desc.fields@[i].oneof->0 as int));
    }
}

/// Reading a member of an object changes the field that its key names, or that field's oneof, and
/// nothing else. Only a key that names no field can change the extension fields.
#[verifier::spinoff_prover]
#[verifier::rlimit(100)]
pub proof fn lemma_members_change_their_field(
    schema: Schema,
    opts: FromJsonOpts,
    m: Msg,
    desc: DescMessage,
    st: St,
    key: Seq<char>,
    seen: SeenKeys,
    depth: nat,
)
    requires
        depth <= json_parse::DEPTH_LIMIT,
        has_places(m, desc),
        goes_on(st.src),
    ensures
        ({
            let m2 = json_parse::member_reading(schema, opts, m, desc, st, key, seen, depth).0;
            &&& agree_elsewhere(desc, seq![key], m, m2)
            &&& named_field(desc, key) is Some ==> m2.unknown == m.unknown
        }),
{
    let m2 = json_parse::member_reading(schema, opts, m, desc, st, key, seen, depth).0;
    if named_field(desc, key) is Some {
        let i = named_field(desc, key)->0;
        if i < desc.fields@.len() {
            let field = desc.fields@[i];
            assert(has_place(m, field, i));
            lemma_fields_change_themselves(schema, opts, m, desc, field, i, st, depth);
            let m3 = json_parse::field_reading(schema, opts, m, desc, field, i, st, depth).0;
            assert(m2 == m || m2 == m3);
            lemma_agree(desc, key, m, m3, i);
        }
    }
}

/// Whether a member that is read with a key sets the oneof of its field: all do but the null of a
/// scalar field.
pub open spec fn sets_oneof(desc: DescMessage, key: Seq<char>, is_null: bool, o: usize) -> bool {
    match named_field(desc, key) {
        Some(k) => 0 <= k < desc.fields@.len() && desc.fields@[k].oneof == Some(o) && !(is_null
            && desc.fields@[k].value is Scalar),
        None => false,
    }
}

/// The members of an object, read one after the other: their keys, each with whether its value is
/// null, the message behind the last one, and the state.
pub open spec fn keys_read(
    schema: Schema,
    opts: FromJsonOpts,
    m: Msg,
    desc: DescMessage,
    st: St,
    entries: Seq<(Val, Val)>,
    key: Seq<char>,
    seen: SeenKeys,
    depth: nat,
) -> Option<(Seq<(Seq<char>, bool)>, Msg, St)>
    decreases json_source::entries_left(st.src, entries),
{
    let (m2, seen2, out) = json_parse::member_reading(schema, opts, m, desc, st, key, seen, depth);
    let first = (key, json_source::peeked(st.src) == Ok::<JsonKind, Fault>(JsonKind::Null));
    match out {
        Err(_) => None,
        Ok(st2) => if goes_on(st.src) {
            match json_source::key_read(st2.src, entries) {
                Err(_) => None,
                Ok((_, None, src)) => Some((seq![first], m2, round_trip::at(src, st2.asks))),
                Ok((rest, Some(next), src)) => if json_source::entries_left(src, rest)
                    < json_source::entries_left(st.src, entries) {
                    match keys_read(
                        schema,
                        opts,
                        m2,
                        desc,
                        round_trip::at(src, st2.asks),
                        rest,
                        next,
                        seen2,
                        depth,
                    ) {
                        Some((more, last, end)) => Some((seq![first] + more, last, end)),
                        None => None,
                    }
                } else {
                    None
                },
            }
        } else {
            None
        },
    }
}

/// Whether keys, with whether their values are null, go with what was seen before: each is new, and
/// so are the fields that they name and the oneofs that they set.
pub open spec fn goes_with(
    desc: DescMessage,
    seen: SeenKeys,
    keys: Seq<(Seq<char>, bool)>,
) -> bool {
    &&& forall|a: int| 0 <= a < keys.len() ==> !seen.keys.contains((#[trigger] keys[a]).0)
    &&& forall|a: int, i: usize|
        0 <= a < keys.len() && named_field(desc, (#[trigger] keys[a]).0) == Some(i as int)
            ==> #[trigger] json_parse::seen_with(seen.fields, i) is None
    &&& forall|a: int, o: usize|
        0 <= a < keys.len() && #[trigger] sets_oneof(desc, keys[a].0, keys[a].1, o)
            ==> json_parse::seen_with(seen.oneofs, o) is None
}

/// Whether no two keys are equal, name the same field, or set the same oneof.
pub open spec fn are_apart(desc: DescMessage, keys: Seq<(Seq<char>, bool)>) -> bool {
    &&& forall|a: int, b: int|
        0 <= a < b < keys.len() ==> {
            &&& (#[trigger] keys[a]).0 != (#[trigger] keys[b]).0
            &&& named_field(desc, keys[a].0) is Some ==> named_field(desc, keys[a].0) != named_field(
                desc,
                keys[b].0,
            )
        }
    &&& forall|a: int, b: int, o: usize|
        0 <= a < b < keys.len() ==> !(#[trigger] sets_oneof(desc, keys[a].0, keys[a].1, o)
            && #[trigger] sets_oneof(desc, keys[b].0, keys[b].1, o))
}

/// A number that was added to those seen is seen.
proof fn lemma_seen_with(seen: Seq<(usize, Seq<char>)>, i: usize, t: Seq<char>, j: usize)
    ensures
        json_parse::seen_with(seen.push((i, t)), j) is Some <==> i == j || json_parse::seen_with(
            seen,
            j,
        ) is Some,
    decreases seen.len(),
{
    let all = seen.push((i, t));
    if seen.len() == 0 {
        assert(all.skip(1) =~= Seq::<(usize, Seq<char>)>::empty());
        assert(json_parse::seen_with(Seq::<(usize, Seq<char>)>::empty(), j) is None);
    } else {
        lemma_seen_with(seen.skip(1), i, t, j);
        assert(all.skip(1) =~= seen.skip(1).push((i, t)));
    }
}

/// What reading a member remembers.
proof fn lemma_member_seen(
    schema: Schema,
    opts: FromJsonOpts,
    m: Msg,
    desc: DescMessage,
    st: St,
    key: Seq<char>,
    seen: SeenKeys,
    depth: nat,
)
    requires
        depth <= json_parse::DEPTH_LIMIT,
        json_parse::member_reading(schema, opts, m, desc, st, key, seen, depth).2 is Ok,
    ensures
        ({
            let (m2, seen2, out) = json_parse::member_reading(
                schema,
                opts,
                m,
                desc,
                st,
                key,
                seen,
                depth,
            );
            let is_null = json_source::peeked(st.src) == Ok::<JsonKind, Fault>(JsonKind::Null);
            &&& !seen.keys.contains(key)
            &&& seen2.keys == seen.keys.push(key)
            &&& named_field(desc, key) is None ==> seen2.fields == seen.fields && seen2.oneofs
                == seen.oneofs
            &&& named_field(desc, key) matches Some(k) ==> {
                &&& 0 <= k < desc.fields@.len() && k <= usize::MAX
                &&& json_parse::seen_with(seen.fields, k as usize) is None
                &&& seen2.fields == seen.fields.push((k as usize, key))
                &&& match desc.fields@[k].oneof {
                    Some(o) => if sets_oneof(desc, key, is_null, o) {
                        json_parse::seen_with(seen.oneofs, o) is None && seen2.oneofs
                            == seen.oneofs.push((o, desc.fields@[k].name@))
                    } else {
                        seen2.oneofs == seen.oneofs
                    },
                    None => seen2.oneofs == seen.oneofs,
                }
            }
        }),
{
}

#[verifier::spinoff_prover]
#[verifier::rlimit(60)]
proof fn lemma_keys_from(
    schema: Schema,
    opts: FromJsonOpts,
    m: Msg,
    desc: DescMessage,
    st: St,
    entries: Seq<(Val, Val)>,
    key: Seq<char>,
    seen: SeenKeys,
    depth: nat,
)
    requires
        depth <= json_parse::DEPTH_LIMIT,
        has_places(m, desc),
        keys_read(schema, opts, m, desc, st, entries, key, seen, depth) is Some,
    ensures
        ({
            let (keys, last, end) = keys_read(
                schema,
                opts,
                m,
                desc,
                st,
                entries,
                key,
                seen,
                depth,
            )->0;
            let (m2, out) = json_parse::members_reading(
                schema,
                opts,
                m,
                desc,
                st,
                entries,
                key,
                seen,
                depth,
            );
            &&& m2 == last
            &&& out == Ok::<St, Fault>(end)
            &&& agree_elsewhere(desc, bare(keys), m, m2)
            &&& goes_with(desc, seen, keys)
            &&& are_apart(desc, keys)
        }),
    decreases json_source::entries_left(st.src, entries),
{
    let keys = keys_read(schema, opts, m, desc, st, entries, key, seen, depth)->Some_0.0;
    let (m1, seen1, out1) = json_parse::member_reading(
        schema,
        opts,
        m,
        desc,
        st,
        key,
        seen,
        depth,
    );
    let first = (key, json_source::peeked(st.src) == Ok::<JsonKind, Fault>(JsonKind::Null));
    lemma_member_seen(schema, opts, m, desc, st, key, seen, depth);
    lemma_members_change_their_field(schema, opts, m, desc, st, key, seen, depth);
    let st1 = out1->Ok_0;
    match json_source::key_read(st1.src, entries)->Ok_0 {
        (_, None, _) => {
            assert(keys =~= seq![first]);
            assert(bare(keys) =~= seq![key]);
            lemma_one_key(desc, seen, first);
        },
        (rest, Some(next), src) => {
            let st2 = round_trip::at(src, st1.asks);
            assert(has_places(m1, desc)) by {
                assert forall|i: int| 0 <= i < desc.fields@.len() implies has_place(
                    m1,
                    #[trigger] desc.fields@[i],
                    i,
                ) by {
                    assert(has_place(m, desc.fields@[i], i));
                }
            }
            lemma_keys_from(schema, opts, m1, desc, st2, rest, next, seen1, depth);
            let more = keys_read(schema, opts, m1, desc, st2, rest, next, seen1, depth)->Some_0.0;
            let m2 = json_parse::members_reading(
                schema,
                opts,
                m1,
                desc,
                st2,
                rest,
                next,
                seen1,
                depth,
            ).0;
            assert(keys =~= seq![first] + more);
            assert(bare(keys) =~= seq![key] + bare(more));
            lemma_one_key(desc, seen, first);
            lemma_keys_together(desc, seen, seen1, first, more);
            lemma_agree_twice(desc, seq![key], bare(more), m, m1, m2);
        },
    }
}

/// The keys alone.
pub open spec fn bare(keys: Seq<(Seq<char>, bool)>) -> Seq<Seq<char>> {
    Seq::new(keys.len(), |i: int| keys[i].0)
}

proof fn lemma_one_key(desc: DescMessage, seen: SeenKeys, first: (Seq<char>, bool))
    requires
        !seen.keys.contains(first.0),
        named_field(desc, first.0) matches Some(k) ==> {
            &&& 0 <= k < desc.fields@.len() && k <= usize::MAX
            &&& json_parse::seen_with(seen.fields, k as usize) is None
            &&& match desc.fields@[k].oneof {
                Some(o) => sets_oneof(desc, first.0, first.1, o) ==> json_parse::seen_with(
                    seen.oneofs,
                    o,
                ) is None,
                None => true,
            }
        },
    ensures
        goes_with(desc, seen, seq![first]),
        are_apart(desc, seq![first]),
{
    let keys = seq![first];
    assert(keys[0] == first);
}

/// Keys that go with what was seen up to and with a key go with that key.
proof fn lemma_keys_together(
    desc: DescMessage,
    seen: SeenKeys,
    seen1: SeenKeys,
    first: (Seq<char>, bool),
    more: Seq<(Seq<char>, bool)>,
)
    requires
        goes_with(desc, seen, seq![first]),
        goes_with(desc, seen1, more),
        are_apart(desc, more),
        seen1.keys == seen.keys.push(first.0),
        named_field(desc, first.0) is None ==> seen1.fields == seen.fields && seen1.oneofs
            == seen.oneofs,
        named_field(desc, first.0) matches Some(k) ==> {
            &&& 0 <= k < desc.fields@.len() && k <= usize::MAX
            &&& seen1.fields == seen.fields.push((k as usize, first.0))
            &&& match desc.fields@[k].oneof {
                Some(o) => if sets_oneof(desc, first.0, first.1, o) {
                    seen1.oneofs == seen.oneofs.push((o, desc.fields@[k].name@))
                } else {
                    seen1.oneofs == seen.oneofs
                },
                None => seen1.oneofs == seen.oneofs,
            }
        },
    ensures
        goes_with(desc, seen, seq![first] + more),
        are_apart(desc, seq![first] + more),
{
    let keys = seq![first] + more;
    let one = seq![first];
    assert(one[0] == first);
    assert forall|a: int| 1 <= a < keys.len() implies #[trigger] keys[a] == more[a - 1] by {}
    assert forall|t: Seq<char>| #[trigger] seen.keys.contains(t) implies seen1.keys.contains(t) by {
        let k = choose|k: int| 0 <= k < seen.keys.len() && seen.keys[k] == t;
        assert(seen1.keys[k] == t);
    }
    assert(seen1.keys.contains(first.0)) by {
        assert(seen1.keys[seen.keys.len() as int] == first.0);
    }
    let named = named_field(desc, first.0);
    if named is Some {
        let k = named->0;
        let field = desc.fields@[k];
        assert forall|j: usize| true implies (#[trigger] json_parse::seen_with(seen1.fields, j) is Some
            <==> j == k as usize || json_parse::seen_with(seen.fields, j) is Some) by {
            lemma_seen_with(seen.fields, k as usize, first.0, j);
        }
        if field.oneof is Some && sets_oneof(desc, first.0, first.1, field.oneof->0) {
            let o = field.oneof->0;
            assert forall|j: usize| true implies (#[trigger] json_parse::seen_with(seen1.oneofs, j)
                is Some <==> j == o || json_parse::seen_with(seen.oneofs, j) is Some) by {
                lemma_seen_with(seen.oneofs, o, field.name@, j);
            }
        }
    }
    assert forall|a: int| 0 <= a < keys.len() implies !seen.keys.contains((#[trigger] keys[a]).0) by {
        if a > 0 {
            assert(!seen1.keys.contains(more[a - 1].0));
        } else {
            assert(!seen.keys.contains(one[0].0));
        }
    }
    assert forall|a: int, i: usize|
        0 <= a < keys.len() && named_field(desc, (#[trigger] keys[a]).0) == Some(
            i as int,
        ) implies #[trigger] json_parse::seen_with(seen.fields, i) is None by {
        if a > 0 {
            assert(named_field(desc, more[a - 1].0) == Some(i as int));
            assert(json_parse::seen_with(seen1.fields, i) is None);
        } else {
            assert(named_field(desc, one[0].0) == Some(i as int));
        }
    }
    assert forall|a: int, o: usize|
        0 <= a < keys.len() && #[trigger] sets_oneof(
            desc,
            keys[a].0,
            keys[a].1,
            o,
        ) implies json_parse::seen_with(seen.oneofs, o) is None by {
        if a > 0 {
            assert(sets_oneof(desc, more[a - 1].0, more[a - 1].1, o));
            assert(json_parse::seen_with(seen1.oneofs, o) is None);
        } else {
            assert(sets_oneof(desc, one[0].0, one[0].1, o));
        }
    }
    assert forall|a: int, b: int| 0 <= a < b < keys.len() implies {
        &&& (#[trigger] keys[a]).0 != (#[trigger] keys[b]).0
        &&& named_field(desc, keys[a].0) is Some ==> named_field(desc, keys[a].0) != named_field(
            desc,
            keys[b].0,
        )
    } by {
        assert(keys[b] == more[b - 1]);
        if a > 0 {
            assert(keys[a] == more[a - 1]);
        } else {
            assert(!seen1.keys.contains(more[b - 1].0));
            if named is Some && named_field(desc, more[b - 1].0) == named {
                let i = named->0 as usize;
                assert(named_field(desc, more[b - 1].0) == Some(i as int));
                assert(json_parse::seen_with(seen1.fields, i) is None);
            }
        }
    }
    assert forall|a: int, b: int, o: usize| 0 <= a < b < keys.len() implies !(
    #[trigger] sets_oneof(desc, keys[a].0, keys[a].1, o) && #[trigger] sets_oneof(
        desc,
        keys[b].0,
        keys[b].1,
        o,
    )) by {
        assert(keys[b] == more[b - 1]);
        if a > 0 {
            assert(keys[a] == more[a - 1]);
            assert(!(sets_oneof(desc, more[a - 1].0, more[a - 1].1, o) && sets_oneof(
                desc,
                more[b - 1].0,
                more[b - 1].1,
                o,
            )));
        } else if sets_oneof(desc, keys[b].0, keys[b].1, o) && sets_oneof(
            desc,
            keys[a].0,
            keys[a].1,
            o,
        ) {
            assert(sets_oneof(desc, more[b - 1].0, more[b - 1].1, o));
            assert(json_parse::seen_with(seen1.oneofs, o) is None);
        }
    }
}

/// Messages that agree in what neither of two groups of keys names.
proof fn lemma_agree_twice(
    desc: DescMessage,
    a: Seq<Seq<char>>,
    b: Seq<Seq<char>>,
    m: Msg,
    m1: Msg,
    m2: Msg,
)
    requires
        agree_elsewhere(desc, a, m, m1),
        agree_elsewhere(desc, b, m1, m2),
    ensures
        agree_elsewhere(desc, a + b, m, m2),
{
    let all = a + b;
    assert forall|k: int| is_named(desc, a, k) || is_named(desc, b, k) implies #[trigger] is_named(
        desc,
        all,
        k,
    ) by {
        if is_named(desc, a, k) {
            let n = choose|n: int| 0 <= n < a.len() && #[trigger] named_field(desc, a[n]) == Some(k);
            assert(all[n] == a[n]);
            assert(named_field(desc, all[n]) == Some(k));
        } else {
            let n = choose|n: int| 0 <= n < b.len() && #[trigger] named_field(desc, b[n]) == Some(k);
            assert(all[a.len() + n] == b[n]);
            assert(named_field(desc, all[a.len() + n]) == Some(k));
        }
    }
    assert forall|o: int| oneof_is_named(desc, a, o) || oneof_is_named(
        desc,
        b,
        o,
    ) implies #[trigger] oneof_is_named(desc, all, o) by {
        if oneof_is_named(desc, a, o) {
            let n = choose|n: int|
                0 <= n < a.len() && match #[trigger] named_field(desc, a[n]) {
                    Some(k) => 0 <= k < desc.fields@.len() && desc.fields@[k].oneof == Some(
                        o as usize,
                    ),
                    None => false,
                };
            assert(all[n] == a[n]);
            assert(named_field(desc, all[n]) is Some);
        } else {
            let n = choose|n: int|
                0 <= n < b.len() && match #[trigger] named_field(desc, b[n]) {
                    Some(k) => 0 <= k < desc.fields@.len() && desc.fields@[k].oneof == Some(
                        o as usize,
                    ),
                    None => false,
                };
            assert(all[a.len() + n] == b[n]);
            assert(named_field(desc, all[a.len() + n]) is Some);
        }
    }
    assert forall|k: int| 0 <= k < m.attrs.len() && !is_named(desc, all, k) implies (
    #[trigger] m2.attrs[k]) == m.attrs[k] && m2.present[k] == m.present[k] by {
        assert(!is_named(desc, a, k) && !is_named(desc, b, k));
        assert(m1.attrs[k] == m.attrs[k]);
        assert(m1.present[k] == m.present[k]);
    }
    assert forall|k: int| 0 <= k < m.attrs.len() && !is_named(desc, all, k) implies (
    #[trigger] m2.present[k]) == m.present[k] by {
        assert(m2.attrs[k] == m.attrs[k]);
    }
    assert forall|o: int| 0 <= o < m.oneofs.len() && !oneof_is_named(desc, all, o) implies (
    #[trigger] m2.oneofs[o]) == m.oneofs[o] by {
        assert(!oneof_is_named(desc, a, o) && !oneof_is_named(desc, b, o));
        assert(m1.oneofs[o] == m.oneofs[o]);
    }
}

/// An object is read member by member, each into the message that those before it left. No key of
/// it occurs twice, no two keys name one field, and no two set one oneof; and the fields and oneofs
/// that no key names stay as they are.
pub proof fn lemma_objects_set_what_they_name(
    schema: Schema,
    opts: FromJsonOpts,
    m: Msg,
    st: St,
    depth: nat,
)
    requires
        depth <= json_parse::DEPTH_LIMIT,
        m.desc < schema.messages@.len(),
        schema.messages@[m.desc as int].wkt is Ordinary
            || schema.messages@[m.desc as int].wkt is FileDescriptorSet,
        has_places(m, schema.messages@[m.desc as int]),
        json_source::peeked(st.src) == Ok::<JsonKind, Fault>(JsonKind::Object),
        json_source::object_read(st.src) matches Ok((entries, Some(first), src)) && {
            &&& json_source::entries_left(src, entries) < json_source::left(st.src)
            &&& keys_read(
                schema,
                opts,
                m,
                schema.messages@[m.desc as int],
                round_trip::at(src, st.asks),
                entries,
                first,
                SeenKeys { keys: seq![], fields: seq![], oneofs: seq![] },
                depth,
            ) is Some
        },
    ensures
        ({
            let desc = schema.messages@[m.desc as int];
            let (entries, first, src) = json_source::object_read(st.src)->Ok_0;
            let (keys, last, end) = keys_read(
                schema,
                opts,
                m,
                desc,
                round_trip::at(src, st.asks),
                entries,
                first->0,
                SeenKeys { keys: seq![], fields: seq![], oneofs: seq![] },
                depth,
            )->0;
            let (m2, out) = json_parse::message_reading(schema, opts, m, st, depth);
            &&& m2 == last
            &&& out == Ok::<St, Fault>(end)
            &&& are_apart(desc, keys)
            &&& agree_elsewhere(desc, bare(keys), m, m2)
        }),
{
    let desc = schema.messages@[m.desc as int];
    let (entries, first, src) = json_source::object_read(st.src)->Ok_0;
    let none = SeenKeys { keys: seq![], fields: seq![], oneofs: seq![] };
    lemma_keys_from(
        schema,
        opts,
        m,
        desc,
        round_trip::at(src, st.asks),
        entries,
        first->0,
        none,
        depth,
    );
    assert(json_parse::message_reading(schema, opts, m, st, depth) == json_parse::object_reading(
        schema,
        opts,
        m,
        desc,
        st,
        depth,
    ));
    assert(json_parse::object_reading(schema, opts, m, desc, st, depth)
        == json_parse::members_reading(
        schema,
        opts,
        m,
        desc,
        round_trip::at(src, st.asks),
        entries,
        first->0,
        none,
        depth,
    ));
}

/// Whether an extension is the first of the registry with a name.
pub open spec fn has_extension(opts: FromJsonOpts, name: Seq<char>, k: int, ext: Extension) -> bool {
    opts.registry matches Some(r) && {
        &&& 0 <= k < r.extensions@.len()
        &&& r.extensions@[k] == ext
        &&& ext.full_name@ == name
        &&& forall|b: int| 0 <= b < k ==> (#[trigger] r.extensions@[b]).full_name@ != name
    }
}

proof fn lemma_extension_named(table: Seq<Extension>, name: Seq<char>, k: int)
    requires
        0 <= k < table.len(),
        table[k].full_name@ == name,
        forall|b: int| 0 <= b < k ==> (#[trigger] table[b]).full_name@ != name,
    ensures
        descriptor::extension_index(table, name) == Some(k),
    decreases table.len(),
{
    if k > 0 {
        let rest = table.skip(1);
        assert(table[0].full_name@ != name);
        assert forall|b: int| 0 <= b < k - 1 implies (#[trigger] rest[b]).full_name@ != name by {
            assert(rest[b] == table[b + 1]);
        }
        lemma_extension_named(rest, name, k - 1);
    }
}

/// The extension fields other than one.
pub open spec fn others(unknown: Seq<(u32, Val)>, number: u32) -> Seq<(u32, Val)> {
    unknown.filter(|entry: (u32, Val)| entry.0 != number)
}

proof fn lemma_others(unknown: Seq<(u32, Val)>, number: u32)
    ensures
        json_parse::unknown_removed(unknown, number) == others(unknown, number),
    decreases unknown.len(),
{
    reveal(Seq::filter);
    if unknown.len() > 0 {
        lemma_others(unknown.drop_last(), number);
    } else {
        assert(others(unknown, number) =~= unknown);
    }
}

/// A key in brackets sets the extension field of that name, whose value the host reads: it takes the
/// place of the one that the message had. A null takes the field out. The other extension fields,
/// and all of the fields, stay as they are. An extension of another message type is passed over.
pub proof fn lemma_extensions_are_set(
    schema: Schema,
    opts: FromJsonOpts,
    m: Msg,
    desc: DescMessage,
    name: Seq<char>,
    k: int,
    ext: Extension,
    w: Val,
    st: St,
    seen: SeenKeys,
    depth: nat,
)
    requires
        depth <= json_parse::DEPTH_LIMIT,
        has_extension(opts, name, k, ext),
        named_field(desc, seq!['['] + name + seq![']']) is None,
        !seen.keys.contains(seq!['['] + name + seq![']']),
    ensures
        ({
            let key = seq!['['] + name + seq![']'];
            let (m2, _, out) = json_parse::member_reading(
                schema,
                opts,
                m,
                desc,
                st,
                key,
                seen,
                depth,
            );
            if ext.extendee@ != desc.full_name@ {
                m2 == m && (json_source::skipped(st.src) matches Ok(src) ==> out == Ok::<St, Fault>(
                    round_trip::at(src, st.asks),
                ))
            } else {
                match json_scalars::value_reading(st.src) {
                    Err(f) => m2 == m && out == Err::<St, Fault>(f),
                    Ok((v, src)) => {
                        &&& v is Null ==> m2 == (Msg { unknown: others(m.unknown, ext.number), ..m })
                            && out == Ok::<St, Fault>(round_trip::at(src, st.asks))
                        &&& !(v is Null) && question::next_answer(
                            st.asks,
                            QuestionOf::ReadExtension { extension: k as usize, value: v },
                        ) == Ok::<Ans, Fault>(AnswerOf::Value(w)) ==> {
                            &&& m2 == (Msg {
                                unknown: others(m.unknown, ext.number).push((ext.number, w)),
                                ..m
                            })
                            &&& out == Ok::<St, Fault>(
                                round_trip::at(src, question::after_answer(st.asks)),
                            )
                        }
                        &&& out is Err ==> m2 == m
                    },
                }
            }
        }),
{
    let key = seq!['['] + name + seq![']'];
    assert(key.subrange(1, key.len() - 1) =~= name);
    lemma_extension_named(opts.registry->0.extensions@, name, k);
    lemma_others(m.unknown, ext.number);
}

/// Whether a byte is white space in JSON.
pub open spec fn is_blank(b: u8) -> bool {
    b == 0x20 || b == 0x09 || b == 0x0a || b == 0x0d
}

proof fn lemma_blanks(data: Seq<u8>)
    ensures
        json_text::finish_at(data) is Ok <==> forall|k: int|
            0 <= k < data.len() ==> is_blank(#[trigger] data[k]),
    decreases data.len(),
{
    assert(data.skip(0) =~= data);
    lemma_spaces(data);
}

proof fn lemma_spaces(data: Seq<u8>)
    ensures
        json_text::spaces(data) <= data.len(),
        json_text::spaces(data) == data.len() <==> forall|k: int|
            0 <= k < data.len() ==> is_blank(#[trigger] data[k]),
    decreases data.len(),
{
    if data.len() > 0 {
        let rest = data.skip(1);
        lemma_spaces(rest);
        assert forall|k: int| 0 < k < data.len() implies #[trigger] data[k] == rest[k - 1] by {}
        if is_blank(data[0]) {
            if forall|k: int| 0 <= k < rest.len() ==> is_blank(#[trigger] rest[k]) {
                assert forall|k: int| 0 <= k < data.len() implies is_blank(#[trigger] data[k]) by {
                    if k > 0 {
                        assert(is_blank(rest[k - 1]));
                    }
                }
            } else {
                let k = choose|k: int| 0 <= k < rest.len() && !is_blank(#[trigger] rest[k]);
                assert(data[k + 1] == rest[k]);
                assert(!is_blank(data[k + 1]));
            }
        } else {
            assert(!is_blank(data[0]));
        }
    }
}

/// A text is read if a message is, and nothing but white space stands behind it.
pub proof fn lemma_texts_hold_one_value(
    schema: Schema,
    opts: FromJsonOpts,
    m: Msg,
    data: Seq<u8>,
    asks: Seq<Ans>,
    end: St,
    pos: nat,
)
    requires
        json_parse::message_reading(
            schema,
            opts,
            m,
            round_trip::at(SrcState::Text { data, pos: 0 }, asks),
            0,
        ).1 == Ok::<St, Fault>(end),
        end.src == (SrcState::Text { data, pos }),
        pos <= data.len(),
    ensures
        json_parse::text_merging(schema, opts, m, data, asks).1 is Ok <==> forall|k: int|
            pos <= k < data.len() ==> is_blank(#[trigger] data[k]),
{
    let rest = data.skip(pos as int);
    lemma_blanks(rest);
    if forall|k: int| 0 <= k < rest.len() ==> is_blank(#[trigger] rest[k]) {
        assert forall|k: int| pos <= k < data.len() implies is_blank(#[trigger] data[k]) by {
            assert(data[k] == rest[k - pos]);
        }
    } else {
        let k = choose|k: int| 0 <= k < rest.len() && !is_blank(#[trigger] rest[k]);
        assert(data[k + pos] == rest[k]);
    }
}

/// Items of lists and values of maps are read as the fields of their types are: scalars and enums by
/// the same rules, and each message into an empty one. A null is refused, except where null is a
/// value of the type.
pub proof fn lemma_items_are_read(
    schema: Schema,
    opts: FromJsonOpts,
    desc: DescMessage,
    field: DescField,
    is_map: bool,
    scalar: ScalarType,
    enum_: usize,
    message: usize,
    st: St,
    depth: nat,
)
    requires
        depth <= json_parse::DEPTH_LIMIT,
        enum_ < schema.enums@.len(),
        message < schema.messages@.len(),
        json_source::peeked(st.src) is Ok,
    ensures
        ({
            let is_null = json_source::peeked(st.src)->Ok_0 is Null;
            let read = |element: DescSingleValue|
                json_parse::item_reading(
                    schema,
                    opts,
                    desc,
                    field,
                    element,
                    is_map,
                    st,
                    depth,
                );
            let e = schema.enums@[enum_ as int];
            &&& is_null ==> read(DescSingleValue::Scalar(scalar)) is Err
            &&& !is_null ==> read(DescSingleValue::Scalar(scalar)) == match (
            json_scalars::scalar_reading(st, scalar, desc, field)) {
                Ok((v, st2)) => Ok((Some(v), st2)),
                Err(f) => Err(f),
            }
            &&& is_null && !e.is_null_value ==> read(DescSingleValue::Enum(enum_)) is Err
            &&& !(is_null && !e.is_null_value) ==> read(DescSingleValue::Enum(enum_)) == match (
            json_scalars::enum_reading(st.src, e, opts.ignore_unknown_fields)) {
                Ok((v, src)) => Ok((v, round_trip::at(src, st.asks))),
                Err(f) => Err(f),
            }
            &&& is_null && !(schema.messages@[message as int].wkt is Value) ==> read(
                DescSingleValue::Message(message),
            ) is Err
            &&& !is_null || schema.messages@[message as int].wkt is Value ==> ({
                let (inner, out) = json_parse::message_reading(
                    schema,
                    opts,
                    json_parse::empty_msg(schema, message),
                    st,
                    depth + 1,
                );
                read(DescSingleValue::Message(message)) == match out {
                    Ok(st2) => Ok((Some(Val::Message(inner)), st2)),
                    Err(f) => Err(f),
                }
            })
        }),
{
}

/// A key that names no field is unknown unless it is the name of an extension of the registry, in
/// brackets. An unknown key is refused, unless such keys are ignored: then its value is passed over.
pub proof fn lemma_unknown_keys(
    schema: Schema,
    opts: FromJsonOpts,
    m: Msg,
    desc: DescMessage,
    key: Seq<char>,
    st: St,
    seen: SeenKeys,
    depth: nat,
)
    requires
        depth <= json_parse::DEPTH_LIMIT,
        named_field(desc, key) is None,
        !seen.keys.contains(key),
        opts.registry matches Some(r) ==> forall|k: int|
            0 <= k < r.extensions@.len() ==> key != seq!['[']
                + (#[trigger] r.extensions@[k]).full_name@ + seq![']'],
    ensures
        ({
            let (m2, _, out) = json_parse::member_reading(
                schema,
                opts,
                m,
                desc,
                st,
                key,
                seen,
                depth,
            );
            &&& m2 == m
            &&& !opts.ignore_unknown_fields ==> out == Err::<St, Fault>(
                Fault::UnknownKey { name: desc.full_name@, key },
            )
            &&& opts.ignore_unknown_fields ==> match json_source::skipped(st.src) {
                Ok(src) => out == Ok::<St, Fault>(round_trip::at(src, st.asks)),
                Err(f) => out == Err::<St, Fault>(f),
            }
        }),
{
    if opts.registry is Some && json_parse::bracketed(key) is Some {
        let table = opts.registry->0.extensions@;
        let name = json_parse::bracketed(key)->0;
        assert(key =~= seq!['['] + name + seq![']']);
        lemma_extension_unnamed(table, name);
    }
}

proof fn lemma_extension_unnamed(table: Seq<Extension>, name: Seq<char>)
    requires
        forall|k: int|
            0 <= k < table.len() ==> seq!['['] + name + seq![']'] != seq!['[']
                + (#[trigger] table[k]).full_name@ + seq![']'],
    ensures
        descriptor::extension_index(table, name) is None,
    decreases table.len(),
{
    if table.len() > 0 {
        assert(table[0].full_name@ != name);
        let rest = table.skip(1);
        assert forall|k: int| 0 <= k < rest.len() implies seq!['['] + name + seq![']'] != seq!['[']
            + (#[trigger] rest[k]).full_name@ + seq![']'] by {
            assert(rest[k] == table[k + 1]);
        }
        lemma_extension_unnamed(rest, name);
    }
}

/// A field is named by each of its keys: by which of them, makes no difference to what is read.
pub proof fn lemma_keys_of_a_field_are_alike(
    schema: Schema,
    opts: FromJsonOpts,
    m: Msg,
    desc: DescMessage,
    a: Seq<char>,
    b: Seq<char>,
    st: St,
    seen: SeenKeys,
    depth: nat,
)
    requires
        depth <= json_parse::DEPTH_LIMIT,
        named_field(desc, a) is Some,
        named_field(desc, a) == named_field(desc, b),
        !seen.keys.contains(a),
        !seen.keys.contains(b),
        json_parse::member_reading(schema, opts, m, desc, st, a, seen, depth).2 is Ok,
    ensures
        json_parse::member_reading(schema, opts, m, desc, st, a, seen, depth).0
            == json_parse::member_reading(schema, opts, m, desc, st, b, seen, depth).0,
        json_parse::member_reading(schema, opts, m, desc, st, a, seen, depth).2
            == json_parse::member_reading(schema, opts, m, desc, st, b, seen, depth).2,
{
    let i = named_field(desc, a)->0;
    let field = desc.fields@[i];
    let ka = SeenKeys {
        keys: seen.keys.push(a),
        fields: seen.fields.push((i as usize, a)),
        oneofs: seen.oneofs,
    };
    let kb = SeenKeys {
        keys: seen.keys.push(b),
        fields: seen.fields.push((i as usize, b)),
        oneofs: seen.oneofs,
    };
    if field.oneof is Some {
        let o = field.oneof->0;
        let ra = json_parse::oneof_member_reading(
            schema,
            opts,
            m,
            desc,
            field,
            i as usize,
            o,
            st,
            ka,
            depth,
        );
        let rb = json_parse::oneof_member_reading(
            schema,
            opts,
            m,
            desc,
            field,
            i as usize,
            o,
            st,
            kb,
            depth,
        );
        assert(ra.0 == rb.0 && ra.2 == rb.2);
    }
}

/// A tree is read as the value that it is, from the outermost depth on, and all of it.
pub proof fn lemma_trees_are_read(
    schema: Schema,
    opts: FromJsonOpts,
    m: Msg,
    tree: Val,
    asks: Seq<Ans>,
)
    ensures
        ({
            let (m2, out) = json_parse::message_reading(
                schema,
                opts,
                m,
                round_trip::at(SrcState::Tree(Some(tree)), asks),
                0,
            );
            let (m3, out3) = json_parse::tree_merging(schema, opts, m, tree, asks);
            &&& m3 == m2
            &&& out is Ok ==> out3 == Ok::<Seq<Ans>, Fault>(out->Ok_0.asks)
            &&& out is Err ==> out3 == Err::<Seq<Ans>, Fault>(out->Err_0)
        }),
{
}

/// Nothing is read from a tree that JSON has no kind of value for: bytes, messages and other objects
/// are refused, and so is a dictionary whose next key is no string.
pub proof fn lemma_trees_hold_json(v: Val, entries: Seq<(Val, Val)>)
    ensures
        json_source::peeked(SrcState::Tree(Some(v))) is Ok <==> v is Null || v is Bool || v is Int || v
            is Float || v is Str || v is List || v is Dict,
        entries.len() > 0 && !(entries[0].0 is Str) ==> json_source::object_read(
            SrcState::Tree(Some(Val::Dict(entries))),
        ) is Err && json_source::key_read(SrcState::Tree(None), entries) is Err,
{
}

/// A JSON value that a list or a map field cannot be read from is a type error.
pub proof fn lemma_kinds_of_container_errors(
    schema: Schema,
    opts: FromJsonOpts,
    m: Msg,
    desc: DescMessage,
    field: DescField,
    i: int,
    j: Json,
    st: St,
    depth: nat,
)
    requires
        depth <= json_parse::DEPTH_LIMIT,
        json_shown::shows(st.src, j),
        json_scalars::value_reading(st.src) is Ok,
        !(j is Null),
        field.value is List && !(j is Array) || field.value is MapOf && !(j is Object),
    ensures
        ({
            let read = json_parse::field_reading(schema, opts, m, desc, field, i, st, depth).1;
            read is Err && error::class_of(read->Err_0) is Type
        }),
{
    match field.value {
        DescFieldValue::List { element } => {
            assert(json_parse::list_field_reading(
                schema,
                opts,
                m,
                desc,
                field,
                i,
                element,
                st,
                depth,
            ).1 is Err);
        },
        DescFieldValue::MapOf { key_type, value } => {
            assert(json_parse::map_field_reading(
                schema,
                opts,
                m,
                desc,
                field,
                i,
                key_type,
                value,
                st,
                depth,
            ).1 is Err);
        },
        _ => {},
    }
}

/// A JSON value that is no object is a type error for an ordinary message. Nesting too deep is an
/// error of its own kind.
pub proof fn lemma_kinds_of_message_errors(
    schema: Schema,
    opts: FromJsonOpts,
    m: Msg,
    j: Json,
    st: St,
    depth: nat,
)
    requires
        m.desc < schema.messages@.len(),
        schema.messages@[m.desc as int].wkt is Ordinary,
        json_shown::shows(st.src, j),
        json_scalars::value_reading(st.src) is Ok,
        !(j is Object),
    ensures
        ({
            let out = json_parse::message_reading(schema, opts, m, st, depth).1;
            &&& out is Err
            &&& depth <= 100 ==> error::class_of(out->Err_0) is Type
            &&& depth > 100 ==> error::class_of(out->Err_0) is Recursion
        }),
{
    if depth <= 100 {
        assert(json_parse::message_reading(schema, opts, m, st, depth) == json_parse::object_reading(
            schema,
            opts,
            m,
            schema.messages@[m.desc as int],
            st,
            depth,
        ));
    }
}

/// A null in a list or a map, and a key that is repeated or unknown, are value errors.
pub proof fn lemma_kinds_of_member_errors(
    schema: Schema,
    opts: FromJsonOpts,
    m: Msg,
    desc: DescMessage,
    field: DescField,
    scalar: ScalarType,
    key: Seq<char>,
    seen: SeenKeys,
    is_map: bool,
    st: St,
    depth: nat,
)
    requires
        depth <= json_parse::DEPTH_LIMIT,
    ensures
        ({
            let item = json_parse::item_reading(
                schema,
                opts,
                desc,
                field,
                DescSingleValue::Scalar(scalar),
                is_map,
                st,
                depth,
            );
            let member = json_parse::member_reading(schema, opts, m, desc, st, key, seen, depth).2;
            &&& json_shown::shows(st.src, Json::Null) ==> item is Err && error::class_of(
                item->Err_0,
            ) is Value
            &&& seen.keys.contains(key) ==> member is Err && error::class_of(member->Err_0) is Value
            &&& !seen.keys.contains(key) && named_field(desc, key) is None && opts.registry is None
                && !opts.ignore_unknown_fields ==> member is Err && error::class_of(member->Err_0)
                is Value
        }),
{
}

/// A text key names an entry as that text does, a number as that number does, and a boolean as the
/// numbers 0 and 1 do. Nothing else is a key.
pub proof fn lemma_keys_are_compared(s: Seq<char>, t: Seq<char>, a: int, b: int, x: bool, v: Val)
    ensures
        value::same_key(Val::Str(s), Val::Str(t)) <==> s == t,
        value::same_key(Val::Int(a), Val::Int(b)) <==> a == b,
        value::same_key(Val::Bool(x), Val::Int(a)) <==> a == (if x {
            1int
        } else {
            0
        }),
        !value::same_key(Val::Str(s), Val::Int(a)) && !value::same_key(Val::Str(s), Val::Bool(x)),
        value::same_key(v, v) <==> v is Str || v is Int || v is Bool,
        value::same_key(v, Val::Str(s)) <==> v == Val::Str(s),
{
}

/// Whether all of some JSON values are unknown values of an enum.
pub open spec fn all_unknown(schema: Schema, enum_: usize, items: Seq<Json>) -> bool {
    forall|k: int|
        0 <= k < items.len() ==> scalar_forms::is_unknown_value(
            schema.enums@[enum_ as int],
            #[trigger] items[k],
        )
}

proof fn lemma_ignored_items(
    schema: Schema,
    opts: FromJsonOpts,
    m: Msg,
    desc: DescMessage,
    field: DescField,
    enum_: usize,
    st: St,
    rest: Seq<Val>,
    items: Seq<Json>,
    depth: nat,
)
    requires
        depth <= json_parse::DEPTH_LIMIT,
        opts.ignore_unknown_fields,
        enum_ < schema.enums@.len(),
        json_shown::shows_items(st.src, rest, items),
        all_unknown(schema, enum_, items),
    ensures
        items_read(
            schema,
            opts,
            desc,
            field,
            DescSingleValue::Enum(enum_),
            st,
            rest,
            depth,
        ) == Some(
            (
                Seq::<Val>::empty(),
                round_trip::at(json_shown::behind_items(st.src, rest, items), st.asks),
            ),
        ),
    decreases items.len(),
{
    assert(scalar_forms::is_unknown_value(schema.enums@[enum_ as int], items[0]));
    scalar_forms::lemma_ignored_enums_change_nothing(
        schema,
        opts,
        m,
        desc,
        field,
        0,
        enum_,
        false,
        st,
        items[0],
        depth,
    );
    let (rest2, more, at) = json_source::array_stepped(
        json_shown::behind(st.src, items[0]),
        rest,
    )->Ok_0;
    if more {
        let later = items.skip(1);
        assert forall|k: int| 0 <= k < later.len() implies scalar_forms::is_unknown_value(
            schema.enums@[enum_ as int],
            #[trigger] later[k],
        ) by {
            assert(later[k] == items[k + 1]);
        }
        lemma_ignored_items(
            schema,
            opts,
            m,
            desc,
            field,
            enum_,
            round_trip::at(at, st.asks),
            rest2,
            later,
            depth,
        );
        assert(Seq::<Val>::empty() + Seq::<Val>::empty() =~= Seq::<Val>::empty());
    }
}

/// Where unknown values are ignored, a list of an enum stays as it is when an array of values that
/// the enum does not have is read into it.
pub proof fn lemma_ignored_values_add_no_items(
    schema: Schema,
    opts: FromJsonOpts,
    m: Msg,
    desc: DescMessage,
    field: DescField,
    i: int,
    enum_: usize,
    list: Seq<Val>,
    items: Seq<Json>,
    st: St,
    depth: nat,
)
    requires
        depth <= json_parse::DEPTH_LIMIT,
        opts.ignore_unknown_fields,
        enum_ < schema.enums@.len(),
        field.value == (DescFieldValue::List { element: DescSingleValue::Enum(enum_) }),
        0 <= i < m.attrs.len(),
        m.attrs[i] == Val::List(list),
        json_shown::shows(st.src, Json::Array(items)),
        all_unknown(schema, enum_, items),
    ensures
        json_parse::field_reading(schema, opts, m, desc, field, i, st, depth) == (
            m,
            Ok::<St, Fault>(
                round_trip::at(json_shown::behind(st.src, Json::Array(items)), st.asks),
            ),
        ),
{
    let element = DescSingleValue::Enum(enum_);
    if items.len() > 0 {
        let (rest, _, at) = json_source::array_read(st.src)->Ok_0;
        lemma_ignored_items(
            schema,
            opts,
            m,
            desc,
            field,
            enum_,
            round_trip::at(at, st.asks),
            rest,
            items,
            depth,
        );
        lemma_lists_are_appended(schema, opts, m, desc, field, i, element, list, st, depth);
        assert(list + Seq::<Val>::empty() =~= list);
        assert(m.attrs.update(i, Val::List(list)) =~= m.attrs);
    } else {
        assert(items =~= seq![]);
        lemma_containers_take_containers(schema, opts, m, desc, field, i, st, depth);
    }
}

/// Whether all of some members are unknown values of an enum.
pub open spec fn all_members_unknown(
    schema: Schema,
    enum_: usize,
    members: Seq<(Seq<char>, Json)>,
) -> bool {
    forall|k: int|
        0 <= k < members.len() ==> scalar_forms::is_unknown_value(
            schema.enums@[enum_ as int],
            (#[trigger] members[k]).1,
        )
}

proof fn lemma_ignored_entries(
    schema: Schema,
    opts: FromJsonOpts,
    m: Msg,
    desc: DescMessage,
    field: DescField,
    enum_: usize,
    st: St,
    rest: Seq<(Val, Val)>,
    members: Seq<(Seq<char>, Json)>,
    key: Val,
    depth: nat,
)
    requires
        depth <= json_parse::DEPTH_LIMIT,
        opts.ignore_unknown_fields,
        enum_ < schema.enums@.len(),
        json_shown::shows_entries(st.src, rest, members),
        all_members_unknown(schema, enum_, members),
    ensures
        ({
            let read = entries_read(
                schema,
                opts,
                desc,
                field,
                ScalarType::String,
                DescSingleValue::Enum(enum_),
                st,
                rest,
                members[0].0,
                depth,
            );
            &&& read is Some
            &&& last_read(read->Some_0.0, key) is None
            &&& read->Some_0.1 == round_trip::at(
                json_shown::behind_entries(st.src, rest, members),
                st.asks,
            )
        }),
    decreases members.len(),
{
    assert(scalar_forms::is_unknown_value(schema.enums@[enum_ as int], members[0].1));
    scalar_forms::lemma_ignored_enums_change_nothing(
        schema,
        opts,
        m,
        desc,
        field,
        0,
        enum_,
        true,
        st,
        members[0].1,
        depth,
    );
    let first = (Val::Str(members[0].0), None::<Val>);
    assert(round_trip::at(st.src, st.asks) == st);
    let (rest2, next, at) = json_source::key_read(
        json_shown::behind(st.src, members[0].1),
        rest,
    )->Ok_0;
    if next is Some {
        let later = members.skip(1);
        assert forall|k: int| 0 <= k < later.len() implies scalar_forms::is_unknown_value(
            schema.enums@[enum_ as int],
            (#[trigger] later[k]).1,
        ) by {
            assert(later[k] == members[k + 1]);
        }
        lemma_ignored_entries(
            schema,
            opts,
            m,
            desc,
            field,
            enum_,
            round_trip::at(at, st.asks),
            rest2,
            later,
            key,
            depth,
        );
        assert(later[0] == members[1]);
        let more = entries_read(
            schema,
            opts,
            desc,
            field,
            ScalarType::String,
            DescSingleValue::Enum(enum_),
            round_trip::at(at, st.asks),
            rest2,
            later[0].0,
            depth,
        )->Some_0.0;
        lemma_last_read(first, more, key);
    } else {
        assert(seq![first].drop_last() =~= Seq::<(Val, Option<Val>)>::empty());
        assert(last_read(Seq::<(Val, Option<Val>)>::empty(), key) is None);
    }
}

/// Where unknown values are ignored, a map to an enum keeps what it has under every key, and gets no
/// other, when an object of values that the enum does not have is read into it.
pub proof fn lemma_ignored_values_add_no_entries(
    schema: Schema,
    opts: FromJsonOpts,
    m: Msg,
    desc: DescMessage,
    field: DescField,
    i: int,
    enum_: usize,
    dict: Seq<(Val, Val)>,
    members: Seq<(Seq<char>, Json)>,
    key: Val,
    st: St,
    depth: nat,
)
    requires
        depth <= json_parse::DEPTH_LIMIT,
        opts.ignore_unknown_fields,
        enum_ < schema.enums@.len(),
        field.value == (DescFieldValue::MapOf {
            key_type: ScalarType::String,
            value: DescSingleValue::Enum(enum_),
        }),
        0 <= i < m.attrs.len(),
        m.attrs[i] == Val::Dict(dict),
        members.len() > 0,
        json_shown::shows(st.src, Json::Object(members)),
        all_members_unknown(schema, enum_, members),
    ensures
        ({
            let (m2, out) = json_parse::field_reading(schema, opts, m, desc, field, i, st, depth);
            &&& out == Ok::<St, Fault>(
                round_trip::at(json_shown::behind(st.src, Json::Object(members)), st.asks),
            )
            &&& m2.attrs[i] is Dict
            &&& m2 == (Msg { attrs: m.attrs.update(i, m2.attrs[i]), ..m })
            &&& entry_of(m2.attrs[i]->Dict_0, key) == entry_of(dict, key)
        }),
{
    let ty = DescSingleValue::Enum(enum_);
    let (rest, first, at) = json_source::object_read(st.src)->Ok_0;
    lemma_ignored_entries(
        schema,
        opts,
        m,
        desc,
        field,
        enum_,
        round_trip::at(at, st.asks),
        rest,
        members,
        key,
        depth,
    );
    lemma_maps_are_merged(
        schema,
        opts,
        m,
        desc,
        field,
        i,
        ScalarType::String,
        ty,
        dict,
        st,
        key,
        depth,
    );
}

} // verus!
