//! What the JSON form of a message promises, beyond the contract of each function.

use vstd::prelude::*;
use crate::descriptor;
use crate::descriptor::{DescEnum, DescField, DescMessage, ScalarType, Schema};
use crate::error::Fault;
use crate::json_parse;
use crate::json_parse::{FromJsonOpts, SeenKeys};
use crate::json_scalars::St;
use crate::json_serialize;
use crate::json_serialize::JsonOpts;
use crate::json_sink::Json;
use crate::json_source;
use crate::octets;
use crate::question::Ans;
use crate::text;
use crate::value::{Msg, Val};

verus! {

/// Whether a number is what a 64-bit integer type holds.
pub open spec fn is_long(scalar: ScalarType, n: int) -> bool {
    match scalar {
        ScalarType::Int64 | ScalarType::Sint64 | ScalarType::Sfixed64 => i64::MIN <= n <= i64::MAX,
        ScalarType::Uint64 | ScalarType::Fixed64 => 0 <= n <= u64::MAX,
        _ => false,
    }
}

/// Whether a number is what a 32-bit integer type holds.
pub open spec fn is_short(scalar: ScalarType, n: int) -> bool {
    match scalar {
        ScalarType::Int32 | ScalarType::Sint32 | ScalarType::Sfixed32 => i32::MIN <= n <= i32::MAX,
        ScalarType::Uint32 | ScalarType::Fixed32 => 0 <= n <= u32::MAX,
        _ => false,
    }
}

/// 64-bit integers are strings, and 32-bit integers are numbers.
pub proof fn lemma_long_integers_are_strings(is_text: bool, scalar: ScalarType, n: int, asks: Seq<Ans>)
    ensures
        is_long(scalar, n) ==> json_serialize::scalar_json(is_text, scalar, Val::Int(n), asks) == Ok::<
            (Json, nat),
            Fault,
        >((Json::Str(text::int_text(n)), 0)),
        is_short(scalar, n) ==> json_serialize::scalar_json(is_text, scalar, Val::Int(n), asks)
            == Ok::<(Json, nat), Fault>((Json::Number(Val::Int(n), text::int_text(n)), 0)),
{
}

/// Bytes are strings in base64, from which the bytes are read back.
pub proof fn lemma_bytes_are_base64(is_text: bool, b: Seq<u8>, asks: Seq<Ans>)
    ensures
        json_serialize::scalar_json(is_text, ScalarType::Bytes, Val::Bytes(b), asks) == Ok::<
            (Json, nat),
            Fault,
        >((Json::Str(octets::base64_text(b)), 0)),
        octets::decoded(octets::base64_text(b)) == Some(b),
{
    octets::lemma_base64_read_back(b);
}

/// An enum value with a name is written by that name, unless numbers are asked for or the type is
/// that of null.
pub proof fn lemma_enums_are_names(opts: JsonOpts, is_text: bool, e: DescEnum, n: i32, asks: Seq<Ans>)
    requires
        !opts.print_enums_as_ints,
        !e.is_null_value,
        descriptor::number_index(e.names_by_number@, n) is Some,
    ensures
        json_serialize::enum_json(opts, is_text, e, Val::Int(n as int), asks) == Ok::<
            (Json, nat),
            Fault,
        >(
            (
                Json::Str(
                    e.names_by_number@[descriptor::number_index(
                        e.names_by_number@,
                        n,
                    )->Some_0].1@,
                ),
                0,
            ),
        ),
{
}

/// Whether a key is that of a field from `i` on.
pub open spec fn is_field_key(opts: JsonOpts, desc: DescMessage, key: Seq<char>, i: int) -> bool {
    exists|k: int|
        i <= k < desc.fields@.len() && key == json_serialize::field_key(
            opts,
            #[trigger] desc.fields@[k],
        )
}

proof fn lemma_field_keys_from(
    schema: Schema,
    opts: JsonOpts,
    is_text: bool,
    m: Msg,
    desc: DescMessage,
    i: nat,
    asks: Seq<Ans>,
)
    requires
        json_serialize::fields_json(schema, opts, is_text, m, desc, i, asks) is Ok,
    ensures
        ({
            let es = json_serialize::fields_json(schema, opts, is_text, m, desc, i, asks)->Ok_0.0;
            forall|a: int|
                0 <= a < es.len() ==> is_field_key(opts, desc, (#[trigger] es[a]).0, i as int)
        }),
    decreases desc.fields@.len() - i,
{
    let es = json_serialize::fields_json(schema, opts, is_text, m, desc, i, asks)->Ok_0.0;
    if i < desc.fields@.len() {
        let field = desc.fields@[i as int];
        let slot = json_serialize::field_slot(schema, opts, m, field, i as int)->Ok_0;
        let (later, absent) = match slot {
            json_serialize::Slot::Absent => (asks, true),
            json_serialize::Slot::Member(o) => (
                crate::json_sink::rest(
                    asks,
                    json_serialize::field_json(
                        schema,
                        opts,
                        is_text,
                        field.value,
                        m.oneofs[o as int]->Some_0.1,
                        asks,
                    )->Ok_0.1,
                ),
                false,
            ),
            json_serialize::Slot::Attr => (
                crate::json_sink::rest(
                    asks,
                    json_serialize::field_json(
                        schema,
                        opts,
                        is_text,
                        field.value,
                        m.attrs[i as int],
                        asks,
                    )->Ok_0.1,
                ),
                false,
            ),
        };
        lemma_field_keys_from(schema, opts, is_text, m, desc, i + 1, later);
        let es1 = json_serialize::fields_json(schema, opts, is_text, m, desc, i + 1, later)->Ok_0.0;
        assert forall|a: int| 0 <= a < es.len() implies is_field_key(
            opts,
            desc,
            (#[trigger] es[a]).0,
            i as int,
        ) by {
            let b = if absent {
                a
            } else {
                a - 1
            };
            if b >= 0 {
                assert(es[a] == es1[b]);
                assert(is_field_key(opts, desc, es1[b].0, (i + 1) as int));
            }
        }
    }
}

/// A message without a JSON form of its own is an object, whose keys are the JSON names of its
/// fields, or the names in the schema where those are asked for.
pub proof fn lemma_keys_are_field_names(
    schema: Schema,
    opts: JsonOpts,
    is_text: bool,
    m: Msg,
    asks: Seq<Ans>,
)
    requires
        m.desc < schema.messages@.len(),
        schema.messages@[m.desc as int].wkt is Ordinary,
        opts.registry is None,
        json_serialize::message_json(schema, opts, is_text, m, asks) is Ok,
    ensures
        ({
            let j = json_serialize::message_json(schema, opts, is_text, m, asks)->Ok_0.0;
            &&& j is Object
            &&& forall|a: int|
                0 <= a < j->Object_0.len() ==> is_field_key(
                    opts,
                    schema.messages@[m.desc as int],
                    (#[trigger] j->Object_0[a]).0,
                    0,
                )
        }),
{
    let desc = schema.messages@[m.desc as int];
    assert(json_serialize::members_json(schema, opts, is_text, m, desc, asks) is Ok);
    lemma_field_keys_from(schema, opts, is_text, m, desc, 0, asks);
}

/// Whether a key names no field of a message type, and no extension that is known.
pub open spec fn is_unknown(opts: FromJsonOpts, desc: DescMessage, key: Seq<char>) -> bool {
    descriptor::name_index(desc.json_names@, key) is None && json_parse::extension_of_key(
        opts.registry,
        key,
    ) is None
}

/// An unknown key, wherever it stands in an object, leaves the message as it is. Where unknown
/// fields are ignored its value is passed over, and else the key is refused.
pub proof fn lemma_unknown_fields(
    schema: Schema,
    opts: FromJsonOpts,
    m: Msg,
    desc: DescMessage,
    st: St,
    key: Seq<char>,
    seen: SeenKeys,
    depth: nat,
)
    requires
        depth <= json_parse::DEPTH_LIMIT,
        is_unknown(opts, desc, key),
        !seen.keys.contains(key),
    ensures
        ({
            let (m2, seen2, out) = json_parse::member_reading(
                schema,
                opts,
                m,
                desc,
                st,
                key,
                seen,
                depth,
            );
            &&& m2 == m
            &&& seen2 == (SeenKeys { keys: seen.keys.push(key), ..seen })
            &&& out == if !opts.ignore_unknown_fields {
                Err(Fault::UnknownKey { name: desc.full_name@, key })
            } else {
                match json_source::skipped(st.src) {
                    Ok(src) => Ok(St { src, asks: st.asks }),
                    Err(f) => Err(f),
                }
            }
        }),
{
}

/// A key that occurs twice in an object is refused, and so are two keys of one field.
pub proof fn lemma_keys_are_not_repeated(
    schema: Schema,
    opts: FromJsonOpts,
    m: Msg,
    desc: DescMessage,
    st: St,
    key: Seq<char>,
    seen: SeenKeys,
    depth: nat,
)
    requires
        depth <= json_parse::DEPTH_LIMIT,
    ensures
        ({
            let (m2, _, out) = json_parse::member_reading(
                schema,
                opts,
                m,
                desc,
                st,
                key,
                seen,
                depth,
            );
            let entry = descriptor::name_index(desc.json_names@, key);
            let i = desc.json_names@[entry->Some_0].1;
            let first = json_parse::seen_with(seen.fields, i);
            &&& seen.keys.contains(key) ==> m2 == m && out == Err::<St, Fault>(
                Fault::DuplicateKey { key },
            )
            &&& !seen.keys.contains(key) && entry is Some && i < desc.fields@.len() && first is Some
                ==> m2 == m && out == Err::<St, Fault>(
                Fault::FieldTwice { first: first->Some_0, second: key },
            )
        }),
{
}

/// A oneof is set by one key of an object: a second one is refused.
pub proof fn lemma_oneofs_are_not_repeated(
    schema: Schema,
    opts: FromJsonOpts,
    m: Msg,
    desc: DescMessage,
    field: DescField,
    i: usize,
    o: usize,
    st: St,
    seen: SeenKeys,
    depth: nat,
)
    requires
        depth <= json_parse::DEPTH_LIMIT,
        json_parse::seen_with(seen.oneofs, o) is Some,
        field.value is Scalar ==> json_source::peeked(st.src) is Ok && !(json_source::peeked(
            st.src,
        )->Ok_0 is Null),
    ensures
        ({
            let (m2, _, out) = json_parse::oneof_member_reading(
                schema,
                opts,
                m,
                desc,
                field,
                i,
                o,
                st,
                seen,
                depth,
            );
            m2 == m && out == Err::<St, Fault>(
                Fault::OneofTwice {
                    first: json_parse::seen_with(seen.oneofs, o)->Some_0,
                    second: field.name@,
                },
            )
        }),
{
}

/// Messages that are nested too deep are refused, whatever they hold.
pub proof fn lemma_nesting_is_bounded(
    schema: Schema,
    opts: FromJsonOpts,
    m: Msg,
    st: St,
    depth: nat,
)
    requires
        depth > json_parse::DEPTH_LIMIT,
    ensures
        json_parse::message_reading(schema, opts, m, st, depth) == (
            m,
            Err::<St, Fault>(Fault::RecursionLimit),
        ),
{
}

} // verus!
