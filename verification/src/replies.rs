//! What a faithful host answers while the JSON form of a message is read back: that a message
//! which it unpacked is packed into the bytes again, and that an extension field has the value
//! that it was written from.

use vstd::prelude::*;
use crate::descriptor::{DescFieldValue, DescMessage, DescSingleValue, ScalarType, Schema};
use crate::json_parse;
use crate::json_serialize;
use crate::json_serialize::JsonOpts;
use crate::json_sink;
use crate::question;
use crate::question::{Ans, AnswerOf, QuestionOf};
use crate::value::{Msg, Val};
use crate::wkt::WktKind;

verus! {

/// The answers for reading a message back that was written with the answers `asks`.
pub open spec fn message_replies(
    schema: Schema,
    opts: JsonOpts,
    is_text: bool,
    m: Msg,
    asks: Seq<Ans>,
) -> Seq<Ans>
    decreases asks.len(), m, 9nat, 0nat,
{
    if m.desc >= schema.messages@.len() {
        seq![]
    } else {
        let desc = schema.messages@[m.desc as int];
        match desc.wkt {
            WktKind::Ordinary | WktKind::FileDescriptorSet => fields_replies(
                schema,
                opts,
                is_text,
                m,
                desc,
                0,
                asks,
            ),
            WktKind::Struct { fields } => if fields < desc.fields@.len() && fields < m.attrs.len() {
                match desc.fields@[fields as int].value {
                    DescFieldValue::MapOf { value, .. } => match m.attrs[fields as int] {
                        Val::Dict(entries) => pairs_replies(
                            schema,
                            opts,
                            is_text,
                            ScalarType::String,
                            value,
                            entries,
                            0,
                            asks,
                        ),
                        _ => seq![],
                    },
                    _ => seq![],
                }
            } else {
                seq![]
            },
            WktKind::ListValue { values } => if values < desc.fields@.len() && values
                < m.attrs.len() {
                match json_serialize::single_type(desc.fields@[values as int].value) {
                    Some(element) => match m.attrs[values as int] {
                        Val::List(items) => items_replies(
                            schema,
                            opts,
                            is_text,
                            element,
                            items,
                            0,
                            asks,
                        ),
                        _ => seq![],
                    },
                    None => seq![],
                }
            } else {
                seq![]
            },
            WktKind::Value { struct_value, list_value, .. } => match json_parse::value_oneof(
                m,
                desc,
            ) {
                Err(_) => seq![],
                Ok(o) => match m.oneofs[o as int] {
                    None => seq![],
                    Some((name, v)) => kind_replies(
                        schema,
                        opts,
                        is_text,
                        desc,
                        name,
                        v,
                        struct_value,
                        list_value,
                        asks,
                    ),
                },
            },
            WktKind::Any { type_url, value } => any_replies(
                schema,
                opts,
                is_text,
                m,
                type_url,
                value,
                asks,
            ),
            _ => seq![],
        }
    }
}

/// [`message_replies`] for what a `Value` holds.
pub open spec fn kind_replies(
    schema: Schema,
    opts: JsonOpts,
    is_text: bool,
    desc: DescMessage,
    name: Seq<char>,
    v: Val,
    struct_value: usize,
    list_value: usize,
    asks: Seq<Ans>,
) -> Seq<Ans>
    decreases asks.len(), v, 7nat, 0nat,
{
    let i = if name == "struct_value"@ {
        struct_value
    } else {
        list_value
    };
    if (name == "struct_value"@ || name == "list_value"@) && i < desc.fields@.len() {
        match json_serialize::single_type(desc.fields@[i as int].value) {
            Some(ty) => single_replies(schema, opts, is_text, ty, v, asks),
            None => seq![],
        }
    } else {
        seq![]
    }
}

/// [`message_replies`] for an `Any`: what its message takes, and then the bytes of the message.
pub open spec fn any_replies(
    schema: Schema,
    opts: JsonOpts,
    is_text: bool,
    m: Msg,
    type_url: usize,
    value: usize,
    asks: Seq<Ans>,
) -> Seq<Ans>
    decreases asks.len(), m, 8nat, 0nat,
{
    match json_serialize::any_target(schema, opts, m, type_url) {
        Ok(Some((_, inner))) => match json_serialize::attr_of(m, value) {
            Ok(v) => match json_serialize::any_bytes(v) {
                Ok(data) => match question::next_answer(
                    asks,
                    QuestionOf::Unpack { desc: inner, data },
                ) {
                    Ok(AnswerOf::Message(msg)) => message_replies(
                        schema,
                        opts,
                        is_text,
                        msg,
                        json_sink::rest(asks, 1),
                    ).push(AnswerOf::Bytes(data)),
                    _ => seq![],
                },
                Err(_) => seq![],
            },
            Err(_) => seq![],
        },
        _ => seq![],
    }
}

/// [`message_replies`] for the fields from `i` on and the extension fields.
pub open spec fn fields_replies(
    schema: Schema,
    opts: JsonOpts,
    is_text: bool,
    m: Msg,
    desc: DescMessage,
    i: nat,
    asks: Seq<Ans>,
) -> Seq<Ans>
    decreases asks.len(), m, 5nat, desc.fields@.len() - i,
{
    if i >= desc.fields@.len() {
        extensions_replies(opts, m, desc, 0)
    } else {
        let field = desc.fields@[i as int];
        match json_serialize::field_slot(schema, opts, m, field, i as int) {
            Err(_) => seq![],
            Ok(json_serialize::Slot::Absent) => fields_replies(
                schema,
                opts,
                is_text,
                m,
                desc,
                i + 1,
                asks,
            ),
            Ok(json_serialize::Slot::Member(o)) => match m.oneofs[o as int] {
                Some((_, v)) => field_replies(schema, opts, is_text, field.value, v, asks)
                    + fields_replies(
                    schema,
                    opts,
                    is_text,
                    m,
                    desc,
                    i + 1,
                    json_sink::rest(
                        asks,
                        json_serialize::field_json(
                            schema,
                            opts,
                            is_text,
                            field.value,
                            v,
                            asks,
                        )->Ok_0.1,
                    ),
                ),
                None => seq![],
            },
            Ok(_) => field_replies(
                schema,
                opts,
                is_text,
                field.value,
                m.attrs[i as int],
                asks,
            ) + fields_replies(
                schema,
                opts,
                is_text,
                m,
                desc,
                i + 1,
                json_sink::rest(
                    asks,
                    json_serialize::field_json(
                        schema,
                        opts,
                        is_text,
                        field.value,
                        m.attrs[i as int],
                        asks,
                    )->Ok_0.1,
                ),
            ),
        }
    }
}

/// [`message_replies`] for the extension fields from `i` on: their values.
pub open spec fn extensions_replies(opts: JsonOpts, m: Msg, desc: DescMessage, i: nat) -> Seq<Ans>
    decreases m.unknown.len() - i,
{
    if i >= m.unknown.len() {
        seq![]
    } else {
        match json_serialize::extension_at(opts, desc, m.unknown[i as int].0) {
            Some(_) => seq![AnswerOf::Value(m.unknown[i as int].1)] + extensions_replies(
                opts,
                m,
                desc,
                i + 1,
            ),
            None => extensions_replies(opts, m, desc, i + 1),
        }
    }
}

/// [`message_replies`] for the value of a field.
pub open spec fn field_replies(
    schema: Schema,
    opts: JsonOpts,
    is_text: bool,
    ty: DescFieldValue,
    v: Val,
    asks: Seq<Ans>,
) -> Seq<Ans>
    decreases asks.len(), v, 7nat, 0nat,
{
    match ty {
        DescFieldValue::List { element } => match v {
            Val::List(items) => items_replies(schema, opts, is_text, element, items, 0, asks),
            _ => seq![],
        },
        DescFieldValue::MapOf { key_type, value } => match v {
            Val::Dict(entries) => pairs_replies(
                schema,
                opts,
                is_text,
                key_type,
                value,
                entries,
                0,
                asks,
            ),
            _ => seq![],
        },
        DescFieldValue::Message { message } => single_replies(
            schema,
            opts,
            is_text,
            DescSingleValue::Message(message),
            v,
            asks,
        ),
        _ => seq![],
    }
}

/// [`message_replies`] for a single value.
pub open spec fn single_replies(
    schema: Schema,
    opts: JsonOpts,
    is_text: bool,
    ty: DescSingleValue,
    v: Val,
    asks: Seq<Ans>,
) -> Seq<Ans>
    decreases asks.len(), v, 6nat, 0nat,
{
    match ty {
        DescSingleValue::Message(_) => match v {
            Val::Message(m) => message_replies(schema, opts, is_text, m, asks),
            _ => seq![],
        },
        _ => seq![],
    }
}

/// [`message_replies`] for the elements of a list from `i` on.
pub open spec fn items_replies(
    schema: Schema,
    opts: JsonOpts,
    is_text: bool,
    element: DescSingleValue,
    items: Seq<Val>,
    i: nat,
    asks: Seq<Ans>,
) -> Seq<Ans>
    decreases asks.len(), items, 3nat, items.len() - i,
{
    if i >= items.len() {
        seq![]
    } else {
        single_replies(schema, opts, is_text, element, items[i as int], asks) + items_replies(
            schema,
            opts,
            is_text,
            element,
            items,
            i + 1,
            json_sink::rest(
                asks,
                json_serialize::single_json(
                    schema,
                    opts,
                    is_text,
                    element,
                    items[i as int],
                    asks,
                )->Ok_0.1,
            ),
        )
    }
}

/// [`message_replies`] for the entries of a map from `i` on.
pub open spec fn pairs_replies(
    schema: Schema,
    opts: JsonOpts,
    is_text: bool,
    key_type: ScalarType,
    value: DescSingleValue,
    entries: Seq<(Val, Val)>,
    i: nat,
    asks: Seq<Ans>,
) -> Seq<Ans>
    decreases asks.len(), entries, 3nat, entries.len() - i,
{
    if i >= entries.len() {
        seq![]
    } else {
        let a = json_serialize::map_key_text(key_type, entries[i as int].0, asks)->Ok_0.1;
        let asks2 = json_sink::rest(asks, a);
        single_replies(schema, opts, is_text, value, entries[i as int].1, asks2) + pairs_replies(
            schema,
            opts,
            is_text,
            key_type,
            value,
            entries,
            i + 1,
            json_sink::rest(
                asks,
                a + json_serialize::single_json(
                    schema,
                    opts,
                    is_text,
                    value,
                    entries[i as int].1,
                    asks2,
                )->Ok_0.1,
            ),
        )
    }
}

/// Whether neither a message nor a message within it has extension fields.
pub open spec fn unextended(m: Msg) -> bool
    decreases m, 1nat,
{
    &&& m.unknown.len() == 0
    &&& forall|i: int| 0 <= i < m.attrs.len() ==> value_unextended(#[trigger] m.attrs[i])
    &&& forall|o: int| 0 <= o < m.oneofs.len() ==> held_unextended(#[trigger] m.oneofs[o])
}

/// [`unextended`] for what a oneof holds.
pub open spec fn held_unextended(held: Option<(Seq<char>, Val)>) -> bool
    decreases held, 0nat,
{
    match held {
        Some((_, v)) => value_unextended(v),
        None => true,
    }
}

/// [`unextended`] for the messages within a value.
pub open spec fn value_unextended(v: Val) -> bool
    decreases v, 0nat,
{
    match v {
        Val::Message(m) => unextended(m),
        Val::List(items) => forall|i: int|
            0 <= i < items.len() ==> value_unextended(#[trigger] items[i]),
        Val::Dict(entries) => forall|i: int|
            0 <= i < entries.len() ==> value_unextended((#[trigger] entries[i]).1),
        _ => true,
    }
}

/// A message without extension fields that was written without answers is read back without
/// answers.
pub proof fn lemma_no_replies(schema: Schema, opts: JsonOpts, is_text: bool, m: Msg, asks: Seq<Ans>)
    requires
        asks.len() == 0,
        unextended(m),
    ensures
        message_replies(schema, opts, is_text, m, asks) == Seq::<Ans>::empty(),
    decreases m, 9nat, 0nat,
{
    if m.desc < schema.messages@.len() {
        let desc = schema.messages@[m.desc as int];
        match desc.wkt {
            WktKind::Ordinary | WktKind::FileDescriptorSet => lemma_no_fields_replies(
                schema,
                opts,
                is_text,
                m,
                desc,
                0,
                asks,
            ),
            WktKind::Struct { fields } => if fields < desc.fields@.len() && fields < m.attrs.len() {
                match (desc.fields@[fields as int].value, m.attrs[fields as int]) {
                    (DescFieldValue::MapOf { value, .. }, Val::Dict(entries)) => {
                        assert(value_unextended(m.attrs[fields as int]));
                        lemma_no_pairs_replies(
                            schema,
                            opts,
                            is_text,
                            ScalarType::String,
                            value,
                            m.attrs[fields as int]->Dict_0,
                            0,
                            asks,
                        );
                    },
                    _ => {},
                }
            },
            WktKind::ListValue { values } => if values < desc.fields@.len() && values
                < m.attrs.len() {
                match (
                    json_serialize::single_type(desc.fields@[values as int].value),
                    m.attrs[values as int],
                ) {
                    (Some(element), Val::List(items)) => {
                        assert(value_unextended(m.attrs[values as int]));
                        lemma_no_items_replies(
                            schema,
                            opts,
                            is_text,
                            element,
                            m.attrs[values as int]->List_0,
                            0,
                            asks,
                        );
                    },
                    _ => {},
                }
            },
            WktKind::Value { struct_value, list_value, .. } => match json_parse::value_oneof(
                m,
                desc,
            ) {
                Ok(o) => match m.oneofs[o as int] {
                    Some((name, v)) => {
                        assert(held_unextended(m.oneofs[o as int]));
                        let i = if name == "struct_value"@ {
                            struct_value
                        } else {
                            list_value
                        };
                        match json_serialize::single_type(desc.fields@[i as int].value) {
                            Some(ty) => lemma_no_single_replies(
                                schema,
                                opts,
                                is_text,
                                ty,
                                m.oneofs[o as int]->Some_0.1,
                                asks,
                            ),
                            None => {},
                        }
                    },
                    None => {},
                },
                Err(_) => {},
            },
            _ => {},
        }
    }
}

proof fn lemma_no_fields_replies(
    schema: Schema,
    opts: JsonOpts,
    is_text: bool,
    m: Msg,
    desc: DescMessage,
    i: nat,
    asks: Seq<Ans>,
)
    requires
        asks.len() == 0,
        unextended(m),
    ensures
        fields_replies(schema, opts, is_text, m, desc, i, asks) == Seq::<Ans>::empty(),
    decreases m, 5nat, desc.fields@.len() - i,
{
    if i < desc.fields@.len() {
        let field = desc.fields@[i as int];
        match json_serialize::field_slot(schema, opts, m, field, i as int) {
            Err(_) => {},
            Ok(json_serialize::Slot::Absent) => lemma_no_fields_replies(
                schema,
                opts,
                is_text,
                m,
                desc,
                i + 1,
                asks,
            ),
            Ok(slot) => {
                let v = match slot {
                    json_serialize::Slot::Member(o) => m.oneofs[o as int]->Some_0.1,
                    _ => m.attrs[i as int],
                };
                match slot {
                    json_serialize::Slot::Member(o) => {
                        assert(held_unextended(m.oneofs[o as int]));
                        lemma_no_field_replies(
                            schema,
                            opts,
                            is_text,
                            field.value,
                            m.oneofs[o as int]->Some_0.1,
                            asks,
                        );
                    },
                    _ => {
                        assert(value_unextended(m.attrs[i as int]));
                        lemma_no_field_replies(
                            schema,
                            opts,
                            is_text,
                            field.value,
                            m.attrs[i as int],
                            asks,
                        );
                    },
                }
                let n = json_serialize::field_json(
                    schema,
                    opts,
                    is_text,
                    field.value,
                    v,
                    asks,
                )->Ok_0.1;
                let asks2 = json_sink::rest(asks, n);
                json_sink::lemma_rest(asks, n, 0);
                lemma_no_fields_replies(schema, opts, is_text, m, desc, i + 1, asks2);
                assert(Seq::<Ans>::empty() + Seq::<Ans>::empty() =~= Seq::<Ans>::empty());
            },
        }
    }
}

proof fn lemma_no_field_replies(
    schema: Schema,
    opts: JsonOpts,
    is_text: bool,
    ty: DescFieldValue,
    v: Val,
    asks: Seq<Ans>,
)
    requires
        asks.len() == 0,
        value_unextended(v),
    ensures
        field_replies(schema, opts, is_text, ty, v, asks) == Seq::<Ans>::empty(),
    decreases v, 7nat, 0nat,
{
    match (ty, v) {
        (DescFieldValue::List { element }, Val::List(items)) => lemma_no_items_replies(
            schema,
            opts,
            is_text,
            element,
            v->List_0,
            0,
            asks,
        ),
        (DescFieldValue::MapOf { key_type, value }, Val::Dict(entries)) => lemma_no_pairs_replies(
            schema,
            opts,
            is_text,
            key_type,
            value,
            v->Dict_0,
            0,
            asks,
        ),
        (DescFieldValue::Message { message }, _) => lemma_no_single_replies(
            schema,
            opts,
            is_text,
            DescSingleValue::Message(message),
            v,
            asks,
        ),
        _ => {},
    }
}

proof fn lemma_no_single_replies(
    schema: Schema,
    opts: JsonOpts,
    is_text: bool,
    ty: DescSingleValue,
    v: Val,
    asks: Seq<Ans>,
)
    requires
        asks.len() == 0,
        value_unextended(v),
    ensures
        single_replies(schema, opts, is_text, ty, v, asks) == Seq::<Ans>::empty(),
    decreases v, 6nat, 0nat,
{
    match (ty, v) {
        (DescSingleValue::Message(_), Val::Message(_)) => lemma_no_replies(
            schema,
            opts,
            is_text,
            v->Message_0,
            asks,
        ),
        _ => {},
    }
}

proof fn lemma_no_items_replies(
    schema: Schema,
    opts: JsonOpts,
    is_text: bool,
    element: DescSingleValue,
    items: Seq<Val>,
    i: nat,
    asks: Seq<Ans>,
)
    requires
        asks.len() == 0,
        forall|k: int| 0 <= k < items.len() ==> value_unextended(#[trigger] items[k]),
    ensures
        items_replies(schema, opts, is_text, element, items, i, asks) == Seq::<Ans>::empty(),
    decreases items, 3nat, items.len() - i,
{
    if i < items.len() {
        lemma_no_single_replies(schema, opts, is_text, element, items[i as int], asks);
        let n = json_serialize::single_json(
            schema,
            opts,
            is_text,
            element,
            items[i as int],
            asks,
        )->Ok_0.1;
        json_sink::lemma_rest(asks, n, 0);
        lemma_no_items_replies(
            schema,
            opts,
            is_text,
            element,
            items,
            i + 1,
            json_sink::rest(asks, n),
        );
        assert(Seq::<Ans>::empty() + Seq::<Ans>::empty() =~= Seq::<Ans>::empty());
    }
}

proof fn lemma_no_pairs_replies(
    schema: Schema,
    opts: JsonOpts,
    is_text: bool,
    key_type: ScalarType,
    value: DescSingleValue,
    entries: Seq<(Val, Val)>,
    i: nat,
    asks: Seq<Ans>,
)
    requires
        asks.len() == 0,
        forall|k: int| 0 <= k < entries.len() ==> value_unextended((#[trigger] entries[k]).1),
    ensures
        pairs_replies(schema, opts, is_text, key_type, value, entries, i, asks)
            == Seq::<Ans>::empty(),
    decreases entries, 3nat, entries.len() - i,
{
    if i < entries.len() {
        let a = json_serialize::map_key_text(key_type, entries[i as int].0, asks)->Ok_0.1;
        let asks2 = json_sink::rest(asks, a);
        json_sink::lemma_rest(asks, a, 0);
        lemma_no_single_replies(schema, opts, is_text, value, entries[i as int].1, asks2);
        let n = json_serialize::single_json(
            schema,
            opts,
            is_text,
            value,
            entries[i as int].1,
            asks2,
        )->Ok_0.1;
        json_sink::lemma_rest(asks, a + n, 0);
        lemma_no_pairs_replies(
            schema,
            opts,
            is_text,
            key_type,
            value,
            entries,
            i + 1,
            json_sink::rest(asks, a + n),
        );
        assert(Seq::<Ans>::empty() + Seq::<Ans>::empty() =~= Seq::<Ans>::empty());
    }
}

} // verus!
