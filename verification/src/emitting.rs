//! Which members an object has that a message is written as, and what they hold.

use vstd::prelude::*;
use crate::descriptor;
use crate::descriptor::{
    DescEnum, DescField, DescFieldValue, DescMessage, DescSingleValue, Extension, ScalarType, Schema,
};
use crate::double;
use crate::error;
use crate::error::{ErrorClass, Fault};
use crate::json_parse;
use crate::json_serialize;
use crate::json_serialize::{JsonOpts, Slot, Written};
use crate::json_sink;
use crate::json_sink::Json;
use crate::json_source;
use crate::octets;
use crate::question::Ans;
use crate::scalar_forms;
use crate::text;
use crate::value::{Msg, Val};

verus! {

/// Whether messages of a type have no JSON form of their own.
pub open spec fn is_ordinary(desc: DescMessage) -> bool {
    desc.wkt is Ordinary || desc.wkt is FileDescriptorSet
}

/// Whether a field does not remember that it was set: a list, a map, or a scalar or an enum
/// without presence, outside of oneofs.
pub open spec fn is_implicit(field: DescField) -> bool {
    field.oneof is None && match field.value {
        DescFieldValue::List { .. } => true,
        DescFieldValue::MapOf { .. } => true,
        DescFieldValue::Message { .. } => false,
        _ => !field.requires_presence,
    }
}

/// Whether a value is the default of a field.
pub open spec fn is_default(schema: Schema, field: DescField, v: Val) -> bool {
    match field.value {
        DescFieldValue::List { .. } => v == Val::List(seq![]),
        DescFieldValue::MapOf { .. } => v == Val::Dict(seq![]),
        DescFieldValue::Message { .. } => v == Val::Null,
        DescFieldValue::Enum { enum_ } => v == Val::Int(schema.enums@[enum_ as int].zero as int),
        DescFieldValue::Scalar { scalar_type } => match scalar_type {
            ScalarType::Bool => v == Val::Bool(false),
            ScalarType::String => v == Val::Str(seq![]),
            ScalarType::Bytes => v == Val::Bytes(seq![]),
            ScalarType::Float | ScalarType::Double => v == Val::Float(0),
            _ => v == Val::Int(0),
        },
    }
}

/// Whether the message has the places of its fields, and the schema the enums of the fields.
pub open spec fn is_sound(schema: Schema, m: Msg, desc: DescMessage) -> bool {
    &&& m.attrs.len() == desc.fields@.len()
    &&& m.present.len() == desc.fields@.len()
    &&& forall|i: int|
        0 <= i < desc.fields@.len() ==> match (#[trigger] desc.fields@[i]).oneof {
            Some(o) => o < m.oneofs.len(),
            None => true,
        }
    &&& forall|i: int|
        0 <= i < desc.fields@.len() ==> match (#[trigger] desc.fields@[i]).value {
            DescFieldValue::Enum { enum_ } => enum_ < schema.enums@.len(),
            _ => true,
        }
}

/// What a message holds in a field that is set: the oneof's value where the oneof holds that
/// field; the value of a field that remembers that it was set; a message; and the value of any
/// other field where it is not the default, or where such fields are always emitted.
pub open spec fn emitted(schema: Schema, opts: JsonOpts, m: Msg, field: DescField, i: int) -> Option<
    Val,
> {
    match field.oneof {
        Some(o) => match m.oneofs[o as int] {
            Some((name, v)) => if name == field.local_name@ {
                Some(v)
            } else {
                None
            },
            None => None,
        },
        None => {
            let v = m.attrs[i];
            let written = if is_implicit(field) {
                opts.always_emit_implicit || !is_default(schema, field, v)
            } else if field.value is Message {
                v != Val::Null
            } else {
                m.present[i]
            };
            if written {
                Some(v)
            } else {
                None
            }
        },
    }
}

/// The key that a field is written under.
pub open spec fn key_of(opts: JsonOpts, field: DescField) -> Seq<char> {
    if opts.use_proto_field_name {
        field.name@
    } else {
        field.json_key@
    }
}

/// The fields from `i` on that are written, by their indexes.
pub open spec fn emitted_fields(
    schema: Schema,
    opts: JsonOpts,
    m: Msg,
    desc: DescMessage,
    i: int,
) -> Seq<int>
    decreases desc.fields@.len() - i,
{
    if i < 0 || i >= desc.fields@.len() {
        seq![]
    } else {
        let later = emitted_fields(schema, opts, m, desc, i + 1);
        if emitted(schema, opts, m, desc.fields@[i], i) is Some {
            seq![i] + later
        } else {
            later
        }
    }
}

/// Whether a JSON value was written.
pub open spec fn is_written(written: Written, j: Json) -> bool {
    written is Ok && written->Ok_0.0 == j
}

/// Whether a member is that of a field: under the field's key, it holds the JSON value of what the
/// message has in the field.
pub open spec fn is_member_of(
    schema: Schema,
    opts: JsonOpts,
    is_text: bool,
    m: Msg,
    desc: DescMessage,
    member: (Seq<char>, Json),
    i: int,
) -> bool {
    let field = desc.fields@[i];
    let v = emitted(schema, opts, m, field, i);
    &&& v is Some
    &&& member.0 == key_of(opts, field)
    &&& exists|asks: Seq<Ans>|
        is_written(
            #[trigger] json_serialize::field_json(
                schema,
                opts,
                is_text,
                field.value,
                v->0,
                asks,
            ),
            member.1,
        )
}

/// The place of a field is used if and only if the field is emitted.
proof fn lemma_slot(schema: Schema, opts: JsonOpts, m: Msg, desc: DescMessage, i: int)
    requires
        is_sound(schema, m, desc),
        0 <= i < desc.fields@.len(),
    ensures
        json_serialize::field_slot(schema, opts, m, desc.fields@[i], i) == Ok::<Slot, Fault>(
            if emitted(schema, opts, m, desc.fields@[i], i) is None {
                Slot::Absent
            } else {
                match desc.fields@[i].oneof {
                    Some(o) => Slot::Member(o),
                    None => Slot::Attr,
                }
            },
        ),
{
    let field = desc.fields@[i];
    assert(is_default(schema, field, m.attrs[i]) == (m.attrs[i] == match field.value {
        DescFieldValue::Scalar { scalar_type } => descriptor::zero_val(scalar_type),
        DescFieldValue::Enum { enum_ } => Val::Int(json_parse::enum_zero(schema, enum_)),
        DescFieldValue::Message { .. } => Val::Null,
        DescFieldValue::List { .. } => Val::List(seq![]),
        DescFieldValue::MapOf { .. } => Val::Dict(seq![]),
    }));
}

proof fn lemma_fields_from(
    schema: Schema,
    opts: JsonOpts,
    is_text: bool,
    m: Msg,
    desc: DescMessage,
    i: nat,
    asks: Seq<Ans>,
)
    requires
        is_sound(schema, m, desc),
        json_serialize::fields_json(schema, opts, is_text, m, desc, i, asks) is Ok,
    ensures
        ({
            let es = json_serialize::fields_json(schema, opts, is_text, m, desc, i, asks)->Ok_0.0;
            let at = emitted_fields(schema, opts, m, desc, i as int);
            &&& es.len() == at.len()
            &&& forall|a: int|
                0 <= a < es.len() ==> is_member_of(
                    schema,
                    opts,
                    is_text,
                    m,
                    desc,
                    #[trigger] es[a],
                    at[a],
                )
        }),
    decreases desc.fields@.len() - i,
{
    let es = json_serialize::fields_json(schema, opts, is_text, m, desc, i, asks)->Ok_0.0;
    let at = emitted_fields(schema, opts, m, desc, i as int);
    if i < desc.fields@.len() {
        let field = desc.fields@[i as int];
        lemma_slot(schema, opts, m, desc, i as int);
        match emitted(schema, opts, m, field, i as int) {
            None => {
                lemma_fields_from(schema, opts, is_text, m, desc, i + 1, asks);
            },
            Some(v) => {
                let written = json_serialize::field_json(schema, opts, is_text, field.value, v, asks);
                let (j, n) = written->Ok_0;
                let later = json_sink::rest(asks, n);
                lemma_fields_from(schema, opts, is_text, m, desc, i + 1, later);
                let es1 = json_serialize::fields_json(
                    schema,
                    opts,
                    is_text,
                    m,
                    desc,
                    i + 1,
                    later,
                )->Ok_0.0;
                let at1 = emitted_fields(schema, opts, m, desc, (i + 1) as int);
                assert(es =~= seq![(key_of(opts, field), j)] + es1);
                assert(is_member_of(schema, opts, is_text, m, desc, es[0], i as int));
                assert forall|a: int| 0 <= a < es.len() implies is_member_of(
                    schema,
                    opts,
                    is_text,
                    m,
                    desc,
                    #[trigger] es[a],
                    at[a],
                ) by {
                    if a > 0 {
                        assert(es[a] == es1[a - 1]);
                        assert(at[a] == at1[a - 1]);
                    }
                }
            },
        }
    }
}

/// The emitted fields are those of which the message holds a value, in the order of declaration.
pub proof fn lemma_emitted_fields(schema: Schema, opts: JsonOpts, m: Msg, desc: DescMessage, i: int)
    requires
        0 <= i,
    ensures
        ({
            let at = emitted_fields(schema, opts, m, desc, i);
            &&& forall|a: int, b: int|
                0 <= a < b < at.len() ==> #[trigger] at[a] < #[trigger] at[b]
            &&& forall|a: int|
                0 <= a < at.len() ==> i <= #[trigger] at[a] < desc.fields@.len() && emitted(
                    schema,
                    opts,
                    m,
                    desc.fields@[at[a]],
                    at[a],
                ) is Some
            &&& forall|k: int|
                i <= k < desc.fields@.len() && emitted(
                    schema,
                    opts,
                    m,
                    #[trigger] desc.fields@[k],
                    k,
                ) is Some ==> at.contains(k)
        }),
    decreases desc.fields@.len() - i,
{
    let at = emitted_fields(schema, opts, m, desc, i);
    if i < desc.fields@.len() {
        lemma_emitted_fields(schema, opts, m, desc, i + 1);
        let at1 = emitted_fields(schema, opts, m, desc, i + 1);
        if emitted(schema, opts, m, desc.fields@[i], i) is Some {
            assert(at =~= seq![i] + at1);
            assert(at[0] == i);
            assert forall|k: int|
                i <= k < desc.fields@.len() && emitted(
                    schema,
                    opts,
                    m,
                    #[trigger] desc.fields@[k],
                    k,
                ) is Some implies at.contains(k) by {
                if k > i {
                    let a = choose|a: int| 0 <= a < at1.len() && at1[a] == k;
                    assert(at[a + 1] == k);
                }
            }
            assert forall|a: int, b: int| 0 <= a < b < at.len() implies #[trigger] at[a]
                < #[trigger] at[b] by {
                assert(at[b] == at1[b - 1]);
                if a > 0 {
                    assert(at[a] == at1[a - 1]);
                }
            }
            assert forall|a: int| 0 <= a < at.len() implies i <= #[trigger] at[a]
                < desc.fields@.len() && emitted(
                schema,
                opts,
                m,
                desc.fields@[at[a]],
                at[a],
            ) is Some by {
                if a > 0 {
                    assert(at[a] == at1[a - 1]);
                }
            }
        }
    }
}

/// An ordinary message is an object with a member for each field that is emitted, in the order of
/// declaration, and for no other field. Without a registry it has no more members; with one, only
/// extension fields stand behind these.
pub proof fn lemma_members_are_the_emitted_fields(
    schema: Schema,
    opts: JsonOpts,
    is_text: bool,
    m: Msg,
    asks: Seq<Ans>,
)
    requires
        m.desc < schema.messages@.len(),
        is_ordinary(schema.messages@[m.desc as int]),
        is_sound(schema, m, schema.messages@[m.desc as int]),
        json_serialize::message_json(schema, opts, is_text, m, asks) is Ok,
    ensures
        ({
            let desc = schema.messages@[m.desc as int];
            let j = json_serialize::message_json(schema, opts, is_text, m, asks)->Ok_0.0;
            let at = emitted_fields(schema, opts, m, desc, 0);
            &&& j is Object
            &&& j->Object_0.len() >= at.len()
            &&& opts.registry is None ==> j->Object_0.len() == at.len()
            &&& forall|a: int|
                0 <= a < at.len() ==> is_member_of(
                    schema,
                    opts,
                    is_text,
                    m,
                    desc,
                    #[trigger] j->Object_0[a],
                    at[a],
                )
        }),
{
    let desc = schema.messages@[m.desc as int];
    lemma_fields_from(schema, opts, is_text, m, desc, 0, asks);
    let j = json_serialize::message_json(schema, opts, is_text, m, asks)->Ok_0.0;
    let es = json_serialize::fields_json(schema, opts, is_text, m, desc, 0, asks)->Ok_0.0;
    assert forall|a: int| 0 <= a < es.len() implies #[trigger] j->Object_0[a] == es[a] by {}
}

/// Where fields without presence are always emitted, the object has a member under the key of each
/// of them, whatever its value.
pub proof fn lemma_implicit_fields_are_always_emitted(
    schema: Schema,
    opts: JsonOpts,
    is_text: bool,
    m: Msg,
    asks: Seq<Ans>,
    i: int,
)
    requires
        opts.always_emit_implicit,
        m.desc < schema.messages@.len(),
        is_ordinary(schema.messages@[m.desc as int]),
        is_sound(schema, m, schema.messages@[m.desc as int]),
        0 <= i < schema.messages@[m.desc as int].fields@.len(),
        is_implicit(schema.messages@[m.desc as int].fields@[i]),
        json_serialize::message_json(schema, opts, is_text, m, asks) is Ok,
    ensures
        ({
            let field = schema.messages@[m.desc as int].fields@[i];
            let j = json_serialize::message_json(schema, opts, is_text, m, asks)->Ok_0.0;
            j is Object && exists|a: int|
                0 <= a < j->Object_0.len() && (#[trigger] j->Object_0[a]).0
                    == if opts.use_proto_field_name {
                    field.name@
                } else {
                    field.json_key@
                }
        }),
{
    let desc = schema.messages@[m.desc as int];
    let field = desc.fields@[i];
    let at = emitted_fields(schema, opts, m, desc, 0);
    lemma_members_are_the_emitted_fields(schema, opts, is_text, m, asks);
    lemma_emitted_fields(schema, opts, m, desc, 0);
    assert(emitted(schema, opts, m, field, i) is Some);
    let a = choose|a: int| 0 <= a < at.len() && at[a] == i;
    let j = json_serialize::message_json(schema, opts, is_text, m, asks)->Ok_0.0;
    assert(is_member_of(schema, opts, is_text, m, desc, j->Object_0[a], at[a]));
}

/// Where they are not, the object has no member for a field without presence that holds its
/// default: without a registry, none under a key that is that field's alone.
pub proof fn lemma_defaults_are_left_out(
    schema: Schema,
    opts: JsonOpts,
    is_text: bool,
    m: Msg,
    asks: Seq<Ans>,
    i: int,
)
    requires
        !opts.always_emit_implicit,
        opts.registry is None,
        m.desc < schema.messages@.len(),
        is_ordinary(schema.messages@[m.desc as int]),
        is_sound(schema, m, schema.messages@[m.desc as int]),
        0 <= i < schema.messages@[m.desc as int].fields@.len(),
        is_implicit(schema.messages@[m.desc as int].fields@[i]),
        is_default(schema, schema.messages@[m.desc as int].fields@[i], m.attrs[i]),
        forall|k: int|
            0 <= k < schema.messages@[m.desc as int].fields@.len() && k != i ==> key_of(
                opts,
                #[trigger] schema.messages@[m.desc as int].fields@[k],
            ) != key_of(opts, schema.messages@[m.desc as int].fields@[i]),
        json_serialize::message_json(schema, opts, is_text, m, asks) is Ok,
    ensures
        ({
            let field = schema.messages@[m.desc as int].fields@[i];
            let j = json_serialize::message_json(schema, opts, is_text, m, asks)->Ok_0.0;
            j is Object && forall|a: int|
                0 <= a < j->Object_0.len() ==> (#[trigger] j->Object_0[a]).0
                    != if opts.use_proto_field_name {
                    field.name@
                } else {
                    field.json_key@
                }
        }),
{
    let desc = schema.messages@[m.desc as int];
    let at = emitted_fields(schema, opts, m, desc, 0);
    lemma_members_are_the_emitted_fields(schema, opts, is_text, m, asks);
    lemma_emitted_fields(schema, opts, m, desc, 0);
    assert(emitted(schema, opts, m, desc.fields@[i], i) is None);
    let j = json_serialize::message_json(schema, opts, is_text, m, asks)->Ok_0.0;
    assert forall|a: int| 0 <= a < j->Object_0.len() implies (#[trigger] j->Object_0[a]).0 != key_of(
        opts,
        desc.fields@[i],
    ) by {
        assert(is_member_of(schema, opts, is_text, m, desc, j->Object_0[a], at[a]));
        assert(at[a] != i);
    }
}

/// A message without any fields set is an empty object, unless fields without presence are always
/// emitted. No fields, and no extensions, are set in a new message.
pub proof fn lemma_empty_messages(
    schema: Schema,
    opts: JsonOpts,
    is_text: bool,
    desc: usize,
    asks: Seq<Ans>,
)
    requires
        !opts.always_emit_implicit,
        desc < schema.messages@.len(),
        is_ordinary(schema.messages@[desc as int]),
        is_sound(
            schema,
            json_parse::empty_msg(schema, desc),
            schema.messages@[desc as int],
        ),
    ensures
        json_serialize::message_json(
            schema,
            opts,
            is_text,
            json_parse::empty_msg(schema, desc),
            asks,
        ) == Ok::<(Json, nat), Fault>((Json::Object(seq![]), 0)),
{
    let m = json_parse::empty_msg(schema, desc);
    let d = schema.messages@[desc as int];
    lemma_empty_from(schema, opts, is_text, m, d, 0, asks);
    assert(json_sink::rest(asks, 0) =~= asks);
    assert(Seq::<(Seq<char>, Json)>::empty() + Seq::<(Seq<char>, Json)>::empty() =~= Seq::<
        (Seq<char>, Json),
    >::empty());
}

proof fn lemma_empty_from(
    schema: Schema,
    opts: JsonOpts,
    is_text: bool,
    m: Msg,
    desc: DescMessage,
    i: nat,
    asks: Seq<Ans>,
)
    requires
        !opts.always_emit_implicit,
        m.desc < schema.messages@.len(),
        desc == schema.messages@[m.desc as int],
        m == json_parse::empty_msg(schema, m.desc),
        is_sound(schema, m, desc),
    ensures
        json_serialize::fields_json(schema, opts, is_text, m, desc, i, asks) == Ok::<
            (Seq<(Seq<char>, Json)>, nat),
            Fault,
        >((seq![], 0)),
    decreases desc.fields@.len() - i,
{
    if i < desc.fields@.len() {
        lemma_slot(schema, opts, m, desc, i as int);
        lemma_empty_from(schema, opts, is_text, m, desc, i + 1, asks);
    }
}

/// A list is an array of its items' JSON values, in order.
pub proof fn lemma_lists_are_arrays(
    schema: Schema,
    opts: JsonOpts,
    is_text: bool,
    element: DescSingleValue,
    items: Seq<Val>,
    asks: Seq<Ans>,
)
    requires
        json_serialize::field_json(
            schema,
            opts,
            is_text,
            DescFieldValue::List { element },
            Val::List(items),
            asks,
        ) is Ok,
    ensures
        ({
            let j = json_serialize::field_json(
                schema,
                opts,
                is_text,
                DescFieldValue::List { element },
                Val::List(items),
                asks,
            )->Ok_0.0;
            &&& j is Array
            &&& j->Array_0.len() == items.len()
            &&& forall|k: int|
                0 <= k < items.len() ==> is_json_of(
                    schema,
                    opts,
                    is_text,
                    element,
                    items[k],
                    #[trigger] j->Array_0[k],
                )
        }),
{
    lemma_items_from(schema, opts, is_text, element, items, 0, asks);
}

/// Whether a JSON value is what a single value is written as.
pub open spec fn is_json_of(
    schema: Schema,
    opts: JsonOpts,
    is_text: bool,
    ty: DescSingleValue,
    v: Val,
    j: Json,
) -> bool {
    exists|asks: Seq<Ans>|
        is_written(
            #[trigger] json_serialize::single_json(schema, opts, is_text, ty, v, asks),
            j,
        )
}

proof fn lemma_items_from(
    schema: Schema,
    opts: JsonOpts,
    is_text: bool,
    element: DescSingleValue,
    items: Seq<Val>,
    i: nat,
    asks: Seq<Ans>,
)
    requires
        json_serialize::items_json(schema, opts, is_text, element, items, i, asks) is Ok,
        i <= items.len(),
    ensures
        ({
            let js = json_serialize::items_json(
                schema,
                opts,
                is_text,
                element,
                items,
                i,
                asks,
            )->Ok_0.0;
            &&& js.len() == items.len() - i
            &&& forall|k: int|
                0 <= k < js.len() ==> is_json_of(
                    schema,
                    opts,
                    is_text,
                    element,
                    items[k + i],
                    #[trigger] js[k],
                )
        }),
    decreases items.len() - i,
{
    if i < items.len() {
        let (j, n) = json_serialize::single_json(
            schema,
            opts,
            is_text,
            element,
            items[i as int],
            asks,
        )->Ok_0;
        let later = json_sink::rest(asks, n);
        lemma_items_from(schema, opts, is_text, element, items, i + 1, later);
        let js = json_serialize::items_json(schema, opts, is_text, element, items, i, asks)->Ok_0.0;
        let js1 = json_serialize::items_json(
            schema,
            opts,
            is_text,
            element,
            items,
            i + 1,
            later,
        )->Ok_0.0;
        assert forall|k: int| 0 <= k < js.len() implies is_json_of(
            schema,
            opts,
            is_text,
            element,
            items[k + i],
            #[trigger] js[k],
        ) by {
            if k > 0 {
                assert(js[k] == js1[k - 1]);
                assert(items[k + i] == items[(k - 1) + (i + 1)]);
            }
        }
    }
}

/// Whether a text is the key of a map entry: a string itself, a boolean by its word, and an integer
/// by its decimal digits.
pub open spec fn is_key_text(key: Val, t: Seq<char>) -> bool {
    match key {
        Val::Str(s) => t == s,
        Val::Bool(b) => t == if b {
            "true"@
        } else {
            "false"@
        },
        Val::Int(n) => t == text::int_text(n),
        _ => false,
    }
}

/// Whether a value is a key of a map with keys of the given type, and a short one if it is an
/// integer.
pub open spec fn is_key_of(key_type: ScalarType, key: Val) -> bool {
    match key_type {
        ScalarType::String => key is Str,
        ScalarType::Bool => key is Bool,
        _ => key is Int && text::int_text(key->Int_0).len() <= 640,
    }
}

/// A map is an object with a member for each of its entries, in order.
pub proof fn lemma_maps_are_objects(
    schema: Schema,
    opts: JsonOpts,
    is_text: bool,
    key_type: ScalarType,
    value: DescSingleValue,
    entries: Seq<(Val, Val)>,
    asks: Seq<Ans>,
)
    requires
        forall|k: int| 0 <= k < entries.len() ==> is_key_of(key_type, (#[trigger] entries[k]).0),
        json_serialize::field_json(
            schema,
            opts,
            is_text,
            DescFieldValue::MapOf { key_type, value },
            Val::Dict(entries),
            asks,
        ) is Ok,
    ensures
        ({
            let j = json_serialize::field_json(
                schema,
                opts,
                is_text,
                DescFieldValue::MapOf { key_type, value },
                Val::Dict(entries),
                asks,
            )->Ok_0.0;
            &&& j is Object
            &&& j->Object_0.len() == entries.len()
            &&& forall|k: int|
                0 <= k < entries.len() ==> is_key_text(
                    entries[k].0,
                    (#[trigger] j->Object_0[k]).0,
                ) && is_json_of(schema, opts, is_text, value, entries[k].1, j->Object_0[k].1)
        }),
{
    lemma_pairs_from(schema, opts, is_text, key_type, value, entries, 0, asks);
}

proof fn lemma_pairs_from(
    schema: Schema,
    opts: JsonOpts,
    is_text: bool,
    key_type: ScalarType,
    value: DescSingleValue,
    entries: Seq<(Val, Val)>,
    i: nat,
    asks: Seq<Ans>,
)
    requires
        forall|k: int| 0 <= k < entries.len() ==> is_key_of(key_type, (#[trigger] entries[k]).0),
        json_serialize::pairs_json(
            schema,
            opts,
            is_text,
            key_type,
            value,
            entries,
            i,
            asks,
        ) is Ok,
        i <= entries.len(),
    ensures
        ({
            let es = json_serialize::pairs_json(
                schema,
                opts,
                is_text,
                key_type,
                value,
                entries,
                i,
                asks,
            )->Ok_0.0;
            &&& es.len() == entries.len() - i
            &&& forall|k: int|
                0 <= k < es.len() ==> is_key_text(entries[k + i].0, (#[trigger] es[k]).0)
                    && is_json_of(schema, opts, is_text, value, entries[k + i].1, es[k].1)
        }),
    decreases entries.len() - i,
{
    if i < entries.len() {
        let key = entries[i as int].0;
        assert(is_key_of(key_type, key));
        let (t, a) = json_serialize::map_key_text(key_type, key, asks)->Ok_0;
        assert(is_key_text(key, t));
        let (j, n) = json_serialize::single_json(
            schema,
            opts,
            is_text,
            value,
            entries[i as int].1,
            json_sink::rest(asks, a),
        )->Ok_0;
        let later = json_sink::rest(asks, a + n);
        lemma_pairs_from(schema, opts, is_text, key_type, value, entries, i + 1, later);
        let es = json_serialize::pairs_json(
            schema,
            opts,
            is_text,
            key_type,
            value,
            entries,
            i,
            asks,
        )->Ok_0.0;
        let es1 = json_serialize::pairs_json(
            schema,
            opts,
            is_text,
            key_type,
            value,
            entries,
            i + 1,
            later,
        )->Ok_0.0;
        assert forall|k: int| 0 <= k < es.len() implies is_key_text(
            entries[k + i].0,
            (#[trigger] es[k]).0,
        ) && is_json_of(schema, opts, is_text, value, entries[k + i].1, es[k].1) by {
            if k > 0 {
                assert(es[k] == es1[k - 1]);
                assert(entries[k + i] == entries[(k - 1) + (i + 1)]);
            }
        }
    }
}

/// A field of a single value is written as that value, whether alone, in a list or in a map.
pub proof fn lemma_single_fields(
    schema: Schema,
    opts: JsonOpts,
    is_text: bool,
    v: Val,
    asks: Seq<Ans>,
    scalar_type: ScalarType,
    enum_: usize,
    message: usize,
)
    ensures
        json_serialize::field_json(
            schema,
            opts,
            is_text,
            DescFieldValue::Scalar { scalar_type },
            v,
            asks,
        ) == json_serialize::single_json(
            schema,
            opts,
            is_text,
            DescSingleValue::Scalar(scalar_type),
            v,
            asks,
        ),
        json_serialize::field_json(
            schema,
            opts,
            is_text,
            DescFieldValue::Enum { enum_ },
            v,
            asks,
        ) == json_serialize::single_json(
            schema,
            opts,
            is_text,
            DescSingleValue::Enum(enum_),
            v,
            asks,
        ),
        json_serialize::field_json(
            schema,
            opts,
            is_text,
            DescFieldValue::Message { message },
            v,
            asks,
        ) == json_serialize::single_json(
            schema,
            opts,
            is_text,
            DescSingleValue::Message(message),
            v,
            asks,
        ),
        message < schema.messages@.len() && v is Message && v->Message_0.desc == message
            ==> json_serialize::single_json(
            schema,
            opts,
            is_text,
            DescSingleValue::Message(message),
            v,
            asks,
        ) == json_serialize::message_json(schema, opts, is_text, v->Message_0, asks),
        !(v is Message && v->Message_0.desc == message) ==> json_serialize::single_json(
            schema,
            opts,
            is_text,
            DescSingleValue::Message(message),
            v,
            asks,
        ) is Err,
{
}

/// An enum value that has a name is written by that name; by its number where numbers are asked
/// for; and as null where the enum is that of null. One without a name is written by its number
/// where the enum is open, and refused where it is closed.
pub proof fn lemma_enums_are_written(
    schema: Schema,
    opts: JsonOpts,
    is_text: bool,
    enum_: usize,
    n: i32,
    name: Seq<char>,
    asks: Seq<Ans>,
)
    requires
        enum_ < schema.enums@.len(),
    ensures
        ({
            let e = schema.enums@[enum_ as int];
            let number = Json::Number(Val::Int(n as int), text::int_text(n as int));
            let written = json_serialize::single_json(
                schema,
                opts,
                is_text,
                DescSingleValue::Enum(enum_),
                Val::Int(n as int),
                asks,
            );
            let is = |j: Json| written == Ok::<(Json, nat), Fault>((j, 0));
            &&& is_name_of(e, n, name) ==> is(
                if e.is_null_value {
                    Json::Null
                } else if opts.print_enums_as_ints {
                    number
                } else {
                    Json::Str(name)
                },
            )
            &&& !has_name(e, n) && e.open ==> is(
                if e.is_null_value {
                    Json::Null
                } else {
                    number
                },
            )
            &&& !has_name(e, n) && !e.open ==> written == Err::<(Json, nat), Fault>(
                Fault::EnumValue { name: e.full_name@, value: Val::Int(n as int) },
            )
        }),
{
    let e = schema.enums@[enum_ as int];
    scalar_forms::lemma_number_found(e.names_by_number@, n);
    let at = descriptor::number_index(e.names_by_number@, n);
    if has_name(e, n) {
        let k = choose|k: int|
            0 <= k < e.names_by_number@.len() && (#[trigger] e.names_by_number@[k]).0 == n;
        assert(at is Some);
    }
    if is_name_of(e, n, name) {
        let k = choose|k: int|
            0 <= k < e.names_by_number@.len() && (#[trigger] e.names_by_number@[k]).0 == n
                && e.names_by_number@[k].1@ == name && forall|b: int|
                0 <= b < k ==> (#[trigger] e.names_by_number@[b]).0 != n;
        assert(at is Some);
        assert(at->0 == k);
    }
}

/// Whether a number has a name in an enum.
pub open spec fn has_name(e: DescEnum, n: i32) -> bool {
    exists|k: int| 0 <= k < e.names_by_number@.len() && (#[trigger] e.names_by_number@[k]).0 == n
}

/// Whether a name is the first that the enum has for a number.
pub open spec fn is_name_of(e: DescEnum, n: i32, name: Seq<char>) -> bool {
    exists|k: int|
        0 <= k < e.names_by_number@.len() && (#[trigger] e.names_by_number@[k]).0 == n
            && e.names_by_number@[k].1@ == name && forall|b: int|
            0 <= b < k ==> (#[trigger] e.names_by_number@[b]).0 != n
}

/// An integer is written if its type has room for it: as a string where the type has 64 bits, and as
/// a number where it has 32. Any other integer, and anything that is no integer, is refused.
pub proof fn lemma_integers_are_written(is_text: bool, scalar: ScalarType, v: Val, asks: Seq<Ans>)
    requires
        scalar_forms::is_integer_type(scalar),
    ensures
        ({
            let written = json_serialize::scalar_json(is_text, scalar, v, asks);
            let t = text::int_text(v->Int_0);
            &&& written is Ok <==> v is Int && scalar_forms::holds(scalar, v->Int_0)
            &&& written is Ok ==> written == Ok::<(Json, nat), Fault>(
                (
                    match scalar {
                        ScalarType::Int64
                        | ScalarType::Sint64
                        | ScalarType::Sfixed64
                        | ScalarType::Uint64
                        | ScalarType::Fixed64 => Json::Str(t),
                        _ => Json::Number(v, t),
                    },
                    0,
                ),
            )
        }),
{
}

/// A finite double is written as a number, and the others as the strings `NaN`, `Infinity` and
/// `-Infinity`. A float beyond single precision is refused.
pub proof fn lemma_doubles_are_written(
    is_text: bool,
    scalar: ScalarType,
    bits: u64,
    asks: Seq<Ans>,
)
    requires
        scalar is Float || scalar is Double,
    ensures
        ({
            let written = json_serialize::scalar_json(is_text, scalar, Val::Float(bits), asks);
            let size = bits % 0x8000_0000_0000_0000;
            let is = |t: Seq<char>| written == Ok::<(Json, nat), Fault>((Json::Str(t), 0));
            let fits = scalar is Double || size <= 0x47ef_ffff_e000_0000;
            &&& size > 0x7ff0_0000_0000_0000 ==> is("NaN"@)
            &&& bits == 0x7ff0_0000_0000_0000 ==> is("Infinity"@)
            &&& bits == 0xfff0_0000_0000_0000 ==> is("-Infinity"@)
            &&& size < 0x7ff0_0000_0000_0000 && !fits ==> written is Err
            &&& size < 0x7ff0_0000_0000_0000 && fits && !is_text ==> written == Ok::<
                (Json, nat),
                Fault,
            >((Json::Number(Val::Float(bits), seq![]), 0))
            &&& size < 0x7ff0_0000_0000_0000 && written is Ok ==> written->Ok_0.0 is Number
                && written->Ok_0.0->Number_0 == Val::Float(bits)
        }),
{
    double::lemma_finite_numbers(bits);
}

/// Booleans, strings and bytes are written as they are, bytes in base64, and refused where another
/// type is asked for.
pub proof fn lemma_plain_scalars_are_written(
    is_text: bool,
    b: bool,
    t: Seq<char>,
    bytes: Seq<u8>,
    v: Val,
    asks: Seq<Ans>,
)
    ensures
        ({
            let written = |scalar: ScalarType, v: Val|
                json_serialize::scalar_json(is_text, scalar, v, asks);
            &&& written(ScalarType::Bool, Val::Bool(b)) == Ok::<(Json, nat), Fault>((Json::Bool(b), 0))
            &&& written(ScalarType::String, Val::Str(t)) == Ok::<(Json, nat), Fault>((Json::Str(t), 0))
            &&& written(ScalarType::Bytes, Val::Bytes(bytes)) is Ok
            &&& octets::decoded(
                written(ScalarType::Bytes, Val::Bytes(bytes))->Ok_0.0->Str_0,
            ) == Some(bytes)
            &&& written(ScalarType::Bool, v) is Ok ==> v is Bool
            &&& written(ScalarType::String, v) is Ok ==> v is Str
            &&& written(ScalarType::Bytes, v) is Ok ==> v is Bytes || v is ByteArray
        }),
{
    octets::lemma_base64_read_back(bytes);
}

/// Whether an extension is the first that the registry has for a field number of a message type.
pub open spec fn is_extension(
    opts: JsonOpts,
    desc: DescMessage,
    number: u32,
    ext: Extension,
) -> bool {
    opts.registry matches Some(r) && exists|k: int|
        {
            &&& 0 <= k < r.extensions@.len()
            &&& #[trigger] r.extensions@[k] == ext
            &&& ext.extendee@ == desc.full_name@ && ext.number == number
            &&& forall|b: int|
                0 <= b < k ==> !((#[trigger] r.extensions@[b]).extendee@ == desc.full_name@
                    && r.extensions@[b].number == number)
        }
}

/// Whether the registry has an extension for a field number of a message type.
pub open spec fn is_known(opts: JsonOpts, desc: DescMessage, number: u32) -> bool {
    opts.registry matches Some(r) && exists|k: int|
        0 <= k < r.extensions@.len() && (#[trigger] r.extensions@[k]).extendee@ == desc.full_name@
            && r.extensions@[k].number == number
}

/// An extension is found where it first stands in the registry.
proof fn lemma_extension_found(table: Seq<Extension>, extendee: Seq<char>, number: u32)
    ensures
        match descriptor::extension_for_index(table, extendee, number) {
            Some(k) => 0 <= k < table.len() && table[k].extendee@ == extendee && table[k].number
                == number && forall|b: int|
                0 <= b < k ==> !((#[trigger] table[b]).extendee@ == extendee && table[b].number
                    == number),
            None => forall|b: int|
                0 <= b < table.len() ==> !((#[trigger] table[b]).extendee@ == extendee
                    && table[b].number == number),
        },
    decreases table.len(),
{
    if table.len() > 0 && !(table[0].extendee@ == extendee && table[0].number == number) {
        let rest = table.skip(1);
        lemma_extension_found(rest, extendee, number);
        assert forall|b: int| 0 < b < table.len() implies #[trigger] table[b] == rest[b - 1] by {}
    }
}

proof fn lemma_extension_at(opts: JsonOpts, desc: DescMessage, number: u32)
    ensures
        json_serialize::extension_at(opts, desc, number) is Some <==> is_known(opts, desc, number),
        json_serialize::extension_at(opts, desc, number) matches Some(ext) ==> is_extension(
            opts,
            desc,
            number,
            ext,
        ),
{
    if opts.registry is Some {
        let table = opts.registry->0.extensions@;
        lemma_extension_found(table, desc.full_name@, number);
        match descriptor::extension_for_index(table, desc.full_name@, number) {
            Some(k) => {
                assert(table[k] == table[k]);
            },
            None => {},
        }
    }
}

/// The extension fields from `i` on that the registry knows, by their indexes.
pub open spec fn emitted_extensions(opts: JsonOpts, m: Msg, desc: DescMessage, i: int) -> Seq<int>
    decreases m.unknown.len() - i,
{
    if i < 0 || i >= m.unknown.len() {
        seq![]
    } else {
        let later = emitted_extensions(opts, m, desc, i + 1);
        if is_known(opts, desc, m.unknown[i].0) {
            seq![i] + later
        } else {
            later
        }
    }
}

/// Whether a member is that of an extension field: under the extension's name in brackets, it holds
/// the JSON value of what the message has in the field.
pub open spec fn is_extension_member(
    schema: Schema,
    opts: JsonOpts,
    is_text: bool,
    m: Msg,
    desc: DescMessage,
    member: (Seq<char>, Json),
    i: int,
) -> bool {
    exists|ext: Extension, asks: Seq<Ans>|
        {
            &&& #[trigger] is_extension(opts, desc, m.unknown[i].0, ext)
            &&& !(ext.value is MapOf)
            &&& member.0 == seq!['['] + ext.full_name@ + seq![']']
            &&& is_written(
                #[trigger] json_serialize::field_json(
                    schema,
                    opts,
                    is_text,
                    ext.value,
                    m.unknown[i].1,
                    asks,
                ),
                member.1,
            )
        }
}

proof fn lemma_extensions_from(
    schema: Schema,
    opts: JsonOpts,
    is_text: bool,
    m: Msg,
    desc: DescMessage,
    i: nat,
    asks: Seq<Ans>,
)
    requires
        json_serialize::extensions_json(schema, opts, is_text, m, desc, i, asks) is Ok,
    ensures
        ({
            let es = json_serialize::extensions_json(
                schema,
                opts,
                is_text,
                m,
                desc,
                i,
                asks,
            )->Ok_0.0;
            let at = emitted_extensions(opts, m, desc, i as int);
            &&& es.len() == at.len()
            &&& forall|a: int|
                0 <= a < es.len() ==> is_extension_member(
                    schema,
                    opts,
                    is_text,
                    m,
                    desc,
                    #[trigger] es[a],
                    at[a],
                )
        }),
    decreases m.unknown.len() - i,
{
    let es = json_serialize::extensions_json(schema, opts, is_text, m, desc, i, asks)->Ok_0.0;
    let at = emitted_extensions(opts, m, desc, i as int);
    if i < m.unknown.len() {
        lemma_extension_at(opts, desc, m.unknown[i as int].0);
        match json_serialize::extension_at(opts, desc, m.unknown[i as int].0) {
            None => {
                lemma_extensions_from(schema, opts, is_text, m, desc, i + 1, asks);
            },
            Some(ext) => {
                let written = json_serialize::field_json(
                    schema,
                    opts,
                    is_text,
                    ext.value,
                    m.unknown[i as int].1,
                    asks,
                );
                let (j, n) = written->Ok_0;
                let later = json_sink::rest(asks, n);
                lemma_extensions_from(schema, opts, is_text, m, desc, i + 1, later);
                let es1 = json_serialize::extensions_json(
                    schema,
                    opts,
                    is_text,
                    m,
                    desc,
                    i + 1,
                    later,
                )->Ok_0.0;
                let at1 = emitted_extensions(opts, m, desc, (i + 1) as int);
                assert(es[0].1 == j);
                assert(is_extension(opts, desc, m.unknown[i as int].0, ext));
                assert(is_extension_member(schema, opts, is_text, m, desc, es[0], i as int));
                assert forall|a: int| 0 <= a < es.len() implies is_extension_member(
                    schema,
                    opts,
                    is_text,
                    m,
                    desc,
                    #[trigger] es[a],
                    at[a],
                ) by {
                    if a > 0 {
                        assert(es[a] == es1[a - 1]);
                        assert(at[a] == at1[a - 1]);
                    }
                }
            },
        }
    }
}

/// With a registry, the extension fields that it knows stand behind the fields, in the order that
/// the message has them, each under the extension's name in brackets. No other extension field is
/// written.
pub proof fn lemma_extensions_stand_behind(
    schema: Schema,
    opts: JsonOpts,
    is_text: bool,
    m: Msg,
    asks: Seq<Ans>,
)
    requires
        opts.registry is Some,
        m.desc < schema.messages@.len(),
        is_ordinary(schema.messages@[m.desc as int]),
        is_sound(schema, m, schema.messages@[m.desc as int]),
        json_serialize::message_json(schema, opts, is_text, m, asks) is Ok,
    ensures
        ({
            let desc = schema.messages@[m.desc as int];
            let j = json_serialize::message_json(schema, opts, is_text, m, asks)->Ok_0.0;
            let fields = emitted_fields(schema, opts, m, desc, 0);
            let at = emitted_extensions(opts, m, desc, 0);
            &&& j is Object
            &&& j->Object_0.len() == fields.len() + at.len()
            &&& forall|a: int|
                0 <= a < at.len() ==> is_extension_member(
                    schema,
                    opts,
                    is_text,
                    m,
                    desc,
                    #[trigger] j->Object_0[fields.len() + a],
                    at[a],
                )
        }),
{
    let desc = schema.messages@[m.desc as int];
    let (es, n) = json_serialize::fields_json(schema, opts, is_text, m, desc, 0, asks)->Ok_0;
    let later = json_sink::rest(asks, n);
    lemma_fields_from(schema, opts, is_text, m, desc, 0, asks);
    lemma_extensions_from(schema, opts, is_text, m, desc, 0, later);
    let more = json_serialize::extensions_json(schema, opts, is_text, m, desc, 0, later)->Ok_0.0;
    let j = json_serialize::message_json(schema, opts, is_text, m, asks)->Ok_0.0;
    let at = emitted_extensions(opts, m, desc, 0);
    assert forall|a: int| 0 <= a < at.len() implies is_extension_member(
        schema,
        opts,
        is_text,
        m,
        desc,
        #[trigger] j->Object_0[es.len() + a],
        at[a],
    ) by {
        assert(j->Object_0[es.len() + a] == more[a]);
    }
}

/// A new message has the default of its type in each field and nothing in its oneofs. No field is
/// remembered as set, and there are no extension fields.
pub proof fn lemma_new_messages_hold_defaults(schema: Schema, desc: usize, i: int)
    requires
        desc < schema.messages@.len(),
        0 <= i < schema.messages@[desc as int].fields@.len(),
        schema.messages@[desc as int].fields@[i].value matches DescFieldValue::Enum { enum_ } ==> enum_
            < schema.enums@.len(),
    ensures
        ({
            let m = json_parse::empty_msg(schema, desc);
            let d = schema.messages@[desc as int];
            &&& m.desc == desc
            &&& m.attrs.len() == d.fields@.len() && m.present.len() == d.fields@.len()
            &&& m.oneofs.len() == d.oneof_count
            &&& m.unknown.len() == 0
            &&& !m.present[i]
            &&& d.fields@[i].oneof is None ==> is_default(schema, d.fields@[i], m.attrs[i])
            &&& d.fields@[i].oneof is Some ==> m.attrs[i] is Null
            &&& forall|o: int| 0 <= o < m.oneofs.len() ==> #[trigger] m.oneofs[o] is None
        }),
{
}

/// Anything but an integer is refused as an enum value. Integers of more than 32 bits have no name:
/// they are refused where the enum is closed, and written as numbers where it is open.
pub proof fn lemma_enums_are_integers(
    schema: Schema,
    opts: JsonOpts,
    is_text: bool,
    enum_: usize,
    v: Val,
    asks: Seq<Ans>,
)
    requires
        enum_ < schema.enums@.len(),
    ensures
        ({
            let e = schema.enums@[enum_ as int];
            let written = json_serialize::single_json(
                schema,
                opts,
                is_text,
                DescSingleValue::Enum(enum_),
                v,
                asks,
            );
            &&& !(v is Int) ==> written is Err
            &&& v is Int && !(i32::MIN <= v->Int_0 <= i32::MAX) && !e.open ==> written is Err
            &&& v is Int && !(i32::MIN <= v->Int_0 <= i32::MAX) && written is Ok
                ==> written->Ok_0.0 is Number && written->Ok_0.0->Number_0 == v
        }),
{
}

/// A value of another type than the field's is a type error, and a number that is too large for its
/// type is an overflow.
pub proof fn lemma_kinds_of_writing_errors(is_text: bool, scalar: ScalarType, v: Val, asks: Seq<Ans>)
    requires
        json_serialize::scalar_json(is_text, scalar, v, asks) is Err,
    ensures
        ({
            let class = error::class_of(
                json_serialize::scalar_json(is_text, scalar, v, asks)->Err_0,
            );
            &&& scalar_forms::is_integer_type(scalar) ==> class == if v is Int {
                ErrorClass::Overflow
            } else {
                ErrorClass::Type
            }
            &&& scalar is Bool || scalar is String || scalar is Bytes ==> class is Type
            &&& scalar is Float && v is Float && !is_text ==> class is Overflow
        }),
{
}

/// An integer in a field of doubles is written as it is, if a finite double is nearest to it.
pub proof fn lemma_integers_in_float_fields(is_text: bool, n: int, asks: Seq<Ans>)
    ensures
        ({
            let written = json_serialize::scalar_json(
                is_text,
                ScalarType::Double,
                Val::Int(n),
                asks,
            );
            let near = double::parsed_double(text::int_text(n));
            &&& near is Some && double::is_finite(near->0) && !is_text ==> written == Ok::<
                (Json, nat),
                Fault,
            >((Json::Number(Val::Int(n), seq![]), 0))
            &&& near is Some && double::is_finite(near->0) && is_text && text::int_text(n).len() <= 640
                ==> written == Ok::<(Json, nat), Fault>(
                (Json::Number(Val::Int(n), text::int_text(n)), 0),
            )
            &&& near is None || !double::is_finite(near->0) ==> written is Err
        }),
{
    if json_source::int_double(n) is Some {
        double::lemma_finite_numbers(json_source::int_double(n)->0);
    }
}

/// A list of integers is bytes if each of them is one.
pub proof fn lemma_lists_of_bytes(items: Seq<Val>, b: Seq<u8>)
    ensures
        json_serialize::list_bytes(items) == Ok::<Seq<u8>, Fault>(b) ==> b.len() == items.len(),
        items.len() == b.len() && (forall|i: int|
            0 <= i < items.len() ==> #[trigger] items[i] == Val::Int(b[i] as int))
            ==> json_serialize::list_bytes(items) == Ok::<Seq<u8>, Fault>(b),
        (exists|i: int|
            0 <= i < items.len() && (#[trigger] items[i]) is Int && !(0 <= items[i]->Int_0 <= 255))
            ==> json_serialize::list_bytes(items) is Err,
    decreases items.len(),
{
    if items.len() > 0 {
        let head = items.drop_last();
        if b.len() == items.len() {
            lemma_lists_of_bytes(head, b.drop_last());
            if forall|i: int| 0 <= i < items.len() ==> #[trigger] items[i] == Val::Int(b[i] as int) {
                assert forall|i: int| 0 <= i < head.len() implies #[trigger] head[i] == Val::Int(
                    b.drop_last()[i] as int,
                ) by {
                    assert(head[i] == items[i]);
                }
                assert(items[items.len() - 1] == Val::Int(b.last() as int));
                assert(b.drop_last().push(b.last()) =~= b);
            }
        }
        match json_serialize::list_bytes(head) {
            Ok(c) => {
                lemma_lists_of_bytes(head, c);
            },
            Err(_) => {},
        }
        if exists|i: int|
            0 <= i < items.len() && (#[trigger] items[i]) is Int && !(0 <= items[i]->Int_0 <= 255) {
            let i = choose|i: int|
                0 <= i < items.len() && (#[trigger] items[i]) is Int && !(0 <= items[i]->Int_0
                    <= 255);
            lemma_lists_of_bytes(head, seq![]);
            if i < head.len() {
                assert(head[i] == items[i]);
            }
        }
    } else {
        assert(b.len() == 0 ==> b =~= seq![]);
    }
}

} // verus!
