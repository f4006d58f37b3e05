//! Reading what was written gives the message back.

use vstd::prelude::*;
use crate::descriptor;
use crate::descriptor::{
    DescEnum, DescField, DescFieldValue, DescMessage, DescSingleValue, ScalarType, Schema,
};
use crate::double;
use crate::error::Fault;
use crate::field_mask;
use crate::integer;
use crate::json_parse;
use crate::json_parse::{FromJsonOpts, SeenKeys};
use crate::json_printed;
use crate::json_scalars;
use crate::json_scalars::St;
use crate::json_serialize;
use crate::json_serialize::JsonOpts;
use crate::json_shown;
use crate::json_shown::NumberTexts;
use crate::json_sink;
use crate::json_sink::Json;
use crate::json_source;
use crate::json_source::{JsonKind, SrcState};
use crate::octets;
use crate::question::{Ans, AnswerOf};
use crate::replies;
use crate::text;
use crate::value;
use crate::value::{Msg, Val};
use crate::wkt::WktKind;
use crate::wkt_json;

verus! {

/// A source, with answers of the host.
pub open spec fn at(src: SrcState, asks: Seq<Ans>) -> St {
    St { src, asks }
}

/// Whether a value is of the kind that reading a scalar field yields.
pub open spec fn scalar_ok(scalar: ScalarType, v: Val) -> bool {
    match scalar {
        ScalarType::Bool => v is Bool,
        ScalarType::String => v is Str,
        ScalarType::Bytes => v is Bytes,
        ScalarType::Float | ScalarType::Double => v matches Val::Float(bits) && (double::is_nan(
            bits,
        ) ==> bits == 0x7ff8_0000_0000_0000),
        _ => v is Int,
    }
}

/// Integers in decimal are plain and trimmed.
proof fn lemma_int_text_plain(n: int)
    ensures
        text::is_trimmed(text::int_text(n)),
        text::int_text(n).len() <= 640 ==> json_scalars::is_plain(text::int_text(n)),
{
    let s = text::int_text(n);
    let digits = text::nat_text((if n < 0 { -n } else { n }) as nat);
    text::lemma_nat_text((if n < 0 { -n } else { n }) as nat);
    assert forall|i: int| 0 <= i < s.len() implies '!' <= #[trigger] s[i] <= '~'
        && !text::is_white(s[i]) by {
        if n < 0 {
            if i > 0 {
                assert(text::is_digit(digits[i - 1]));
            }
        } else {
            assert(text::is_digit(digits[i]));
        }
    }
    assert(!text::is_white(s[0]));
    assert(!text::is_white(s[s.len() - 1]));
}

/// An integer of at most 64 bits has a short text.
proof fn lemma_int_text_short(n: int)
    requires
        -0x8000_0000_0000_0000 <= n < 0x1_0000_0000_0000_0000,
    ensures
        text::int_text(n).len() <= 640,
{
    let m = (if n < 0 { -n } else { n }) as nat;
    assert(vstd::arithmetic::power::pow(10, 20) == 100_000_000_000_000_000_000) by {
        reveal_with_fuel(vstd::arithmetic::power::pow, 21);
    }
    lemma_nat_text_len(m, 20);
}

proof fn lemma_nat_text_len(n: nat, k: nat)
    requires
        1 <= k <= 20,
        n < vstd::arithmetic::power::pow(10, k),
    ensures
        text::nat_text(n).len() <= k,
    decreases k,
{
    reveal(vstd::arithmetic::power::pow);
    if n >= 10 {
        assert(k > 1) by {
            assert(vstd::arithmetic::power::pow(10, 1) == 10) by {
                reveal_with_fuel(vstd::arithmetic::power::pow, 2);
            }
        }
        lemma_nat_text_len(n / 10, (k - 1) as nat);
    }
}

/// Reading the text of an integer gives the integer back.
pub proof fn lemma_int_of_text(n: int, asks: Seq<Ans>, desc: DescMessage, field: DescField)
    requires
        text::int_text(n).len() <= 640,
    ensures
        json_scalars::int_of_text(text::int_text(n), asks, desc, field) == Ok::<
            (int, Seq<Ans>),
            Fault,
        >((n, asks)),
{
    lemma_int_text_plain(n);
    integer::lemma_int_text_read_back(n);
}

/// Reading the JSON form of a scalar gives the scalar back.
pub proof fn lemma_scalar_read_back(
    is_text: bool,
    texts: NumberTexts,
    scalar: ScalarType,
    v: Val,
    asks: Seq<Ans>,
    src: SrcState,
    more: Seq<Ans>,
    desc: DescMessage,
    field: DescField,
)
    requires
        json_serialize::scalar_json(is_text, scalar, v, asks) is Ok,
        scalar_ok(scalar, v),
        texts_fit(texts, is_text, asks),
    ensures
        ({
            let (j, n) = json_serialize::scalar_json(is_text, scalar, v, asks)->Ok_0;
            &&& n <= asks.len()
            &&& json_shown::well_written(texts, j)
            &&& !(j is Null)
            &&& json_shown::shows(src, j) ==> json_scalars::scalar_reading(
                at(src, more),
                scalar,
                desc,
                field,
            ) == Ok::<(Val, St), Fault>((v, at(json_shown::behind(src, j), more)))
        }),
{
    let j = json_serialize::scalar_json(is_text, scalar, v, asks)->Ok_0.0;
    match scalar {
        ScalarType::Float | ScalarType::Double => {
            let bits = v->Float_0;
            reveal_strlit("NaN");
            reveal_strlit("Infinity");
            reveal_strlit("-Infinity");
            assert("NaN"@.len() == 3 && "Infinity"@.len() == 8 && "-Infinity"@.len() == 9);
            if !double::is_nan(bits) && !double::is_finite(bits) {
                lemma_infinite(bits);
            }
        },
        ScalarType::Bool | ScalarType::String => {},
        ScalarType::Bytes => octets::lemma_base64_read_back(v->Bytes_0),
        _ => {
            let n = v->Int_0;
            lemma_int_text_short(n);
            lemma_int_of_text(n, more, desc, field);
        },
    }
}

/// There are two infinite numbers.
proof fn lemma_infinite(bits: u64)
    requires
        !double::is_nan(bits),
        !double::is_finite(bits),
    ensures
        bits == if double::is_negative(bits) {
            0xfff0_0000_0000_0000u64
        } else {
            0x7ff0_0000_0000_0000u64
        },
{
}

/// Whether each number's name names the number.
pub open spec fn enum_tables_ok(e: DescEnum) -> bool {
    forall|k: int|
        0 <= k < e.names_by_number@.len() ==> {
            let at = descriptor::name_index(
                e.numbers_by_name@,
                (#[trigger] e.names_by_number@[k]).1@,
            );
            at is Some && e.numbers_by_name@[at->Some_0].1 == e.names_by_number@[k].0
        }
}

/// Whether a value of an enum has a JSON form that is read as the value: it has a name or is not
/// passed over, and is the only one of `google.protobuf.NullValue`.
pub open spec fn enum_ok(e: DescEnum, v: Val, ignore: bool) -> bool {
    v matches Val::Int(n) && {
        let small = i32::MIN <= n <= i32::MAX;
        let known = small && descriptor::number_index(e.names_by_number@, n as i32) is Some;
        &&& enum_tables_ok(e)
        &&& e.is_null_value && small ==> n == e.zero
        &&& !known ==> !ignore
    }
}

/// A number's index lies in the table and holds the number.
proof fn lemma_number_index(table: Seq<(i32, String)>, number: i32)
    ensures
        descriptor::number_index(table, number) matches Some(i) ==> 0 <= i < table.len()
            && table[i].0 == number,
    decreases table.len(),
{
    if table.len() > 0 && table[0].0 != number {
        lemma_number_index(table.skip(1), number);
    }
}

/// Reading the JSON form of an enum value gives the value back.
pub proof fn lemma_enum_read_back(
    opts: JsonOpts,
    is_text: bool,
    texts: NumberTexts,
    e: DescEnum,
    v: Val,
    asks: Seq<Ans>,
    ignore: bool,
    src: SrcState,
)
    requires
        json_serialize::enum_json(opts, is_text, e, v, asks) is Ok,
        enum_ok(e, v, ignore),
        texts_fit(texts, is_text, asks),
    ensures
        ({
            let (j, n) = json_serialize::enum_json(opts, is_text, e, v, asks)->Ok_0;
            &&& n <= asks.len()
            &&& json_shown::well_written(texts, j)
            &&& j is Null ==> e.is_null_value
            &&& json_shown::shows(src, j) ==> json_scalars::enum_reading(src, e, ignore) == Ok::<
                (Option<Val>, SrcState),
                Fault,
            >((Some(v), json_shown::behind(src, j)))
        }),
{
    let n = v->Int_0;
    if i32::MIN <= n <= i32::MAX {
        lemma_int_text_short(n);
        lemma_number_index(e.names_by_number@, n as i32);
        match descriptor::number_index(e.names_by_number@, n as i32) {
            Some(k) => {
                assert(e.names_by_number@[k].0 == n);
            },
            None => {},
        }
    }
}

/// Whether a value is of the kind that reading a map key yields.
pub open spec fn key_ok(key_type: ScalarType, key: Val) -> bool {
    match key_type {
        ScalarType::Bool => key is Bool,
        ScalarType::String => key is Str,
        _ => key matches Val::Int(n) && match json_scalars::int_range(key_type) {
            Some((low, high, _)) => low <= n < high,
            None => text::int_text(n).len() <= 640,
        },
    }
}

/// Reading the JSON form of a map key gives the key back.
pub proof fn lemma_map_key_read_back(
    key_type: ScalarType,
    key: Val,
    asks: Seq<Ans>,
    more: Seq<Ans>,
    desc: DescMessage,
    field: DescField,
)
    requires
        key_ok(key_type, key),
    ensures
        ({
            let written = json_serialize::map_key_text(key_type, key, asks);
            &&& written is Ok
            &&& written == json_serialize::map_key_text(key_type, key, seq![])
            &&& written->Ok_0.1 == 0
            &&& json_scalars::map_key_reading(key_type, written->Ok_0.0, more, desc, field) == Ok::<
                (Val, Seq<Ans>),
                Fault,
            >((key, more))
        }),
{
    match key_type {
        ScalarType::Bool => {
            reveal_strlit("true");
            reveal_strlit("false");
            assert("true"@.len() == 4 && "false"@.len() == 5);
        },
        ScalarType::String => {},
        _ => {
            let n = key->Int_0;
            if json_scalars::int_range(key_type) is Some {
                lemma_int_text_short(n);
            }
            lemma_int_of_text(n, more, desc, field);
        },
    }
}

/// Whether a single value is one that reading yields, in a message at the given depth.
pub open spec fn single_ok(
    schema: Schema,
    wopts: JsonOpts,
    ropts: FromJsonOpts,
    ty: DescSingleValue,
    v: Val,
    depth: nat,
) -> bool
    decreases v, 2nat,
{
    match ty {
        DescSingleValue::Scalar(scalar) => scalar_ok(scalar, v),
        DescSingleValue::Enum(enum_) => enum_ < schema.enums@.len() && enum_ok(
            schema.enums@[enum_ as int],
            v,
            ropts.ignore_unknown_fields,
        ),
        DescSingleValue::Message(message) => match v {
            Val::Message(m) => m.desc == message && readable(schema, wopts, ropts, m, depth + 1),
            _ => false,
        },
    }
}

/// Whether the keys of a dictionary are distinct.
pub open spec fn distinct_entries(entries: Seq<(Val, Val)>) -> bool {
    forall|a: int, b: int|
        0 <= a < b < entries.len() ==> !value::same_key(
            (#[trigger] entries[a]).0,
            (#[trigger] entries[b]).0,
        )
}

/// Whether the value of a field is one that reading yields, in a message at the given depth.
pub open spec fn value_ok(
    schema: Schema,
    wopts: JsonOpts,
    ropts: FromJsonOpts,
    ty: DescFieldValue,
    v: Val,
    depth: nat,
) -> bool
    decreases v, 3nat,
{
    match ty {
        DescFieldValue::Scalar { scalar_type } => scalar_ok(scalar_type, v),
        DescFieldValue::Enum { enum_ } => single_ok(
            schema,
            wopts,
            ropts,
            DescSingleValue::Enum(enum_),
            v,
            depth,
        ),
        DescFieldValue::Message { message } => single_ok(
            schema,
            wopts,
            ropts,
            DescSingleValue::Message(message),
            v,
            depth,
        ),
        DescFieldValue::List { element } => match v {
            Val::List(items) => forall|i: int|
                0 <= i < items.len() ==> single_ok(
                    schema,
                    wopts,
                    ropts,
                    element,
                    #[trigger] items[i],
                    depth,
                ),
            _ => false,
        },
        DescFieldValue::MapOf { key_type, value } => match v {
            Val::Dict(entries) => {
                &&& distinct_entries(entries)
                &&& forall|i: int|
                    0 <= i < entries.len() ==> key_ok(key_type, (#[trigger] entries[i]).0)
                        && single_ok(schema, wopts, ropts, value, entries[i].1, depth)
            },
            _ => false,
        },
    }
}

/// Whether a field outside of oneofs is as reading leaves it.
pub open spec fn field_ok(
    schema: Schema,
    wopts: JsonOpts,
    ropts: FromJsonOpts,
    field: DescField,
    v: Val,
    present: bool,
    depth: nat,
) -> bool
    decreases v, 4nat,
{
    let default = json_parse::default_attr(schema, field);
    if field.oneof is Some {
        v == Val::Null && !present
    } else {
        match field.value {
            DescFieldValue::Scalar { .. } | DescFieldValue::Enum { .. } => {
                if field.requires_presence && !present {
                    v == default
                } else {
                    present == field.requires_presence && value_ok(
                        schema,
                        wopts,
                        ropts,
                        field.value,
                        v,
                        depth,
                    )
                }
            },
            DescFieldValue::Message { .. } => {
                if v is Null {
                    !present
                } else {
                    present == field.requires_presence && value_ok(
                        schema,
                        wopts,
                        ropts,
                        field.value,
                        v,
                        depth,
                    )
                }
            },
            _ => !present && value_ok(schema, wopts, ropts, field.value, v, depth),
        }
    }
}

/// Whether field `k` is the member of oneof `o` with the given name.
pub open spec fn is_member(desc: DescMessage, o: int, name: Seq<char>, k: int) -> bool {
    &&& 0 <= k < desc.fields@.len()
    &&& desc.fields@[k].oneof == Some(o as usize)
    &&& desc.fields@[k].local_name@ == name
}

/// Whether what a oneof holds is as reading leaves it.
pub open spec fn oneof_ok(
    schema: Schema,
    wopts: JsonOpts,
    ropts: FromJsonOpts,
    desc: DescMessage,
    o: int,
    held: Option<(Seq<char>, Val)>,
    depth: nat,
) -> bool
    decreases held, 4nat,
{
    match held {
        None => true,
        Some((name, v)) => exists|k: int|
            #[trigger] is_member(desc, o, name, k) && value_ok(
                schema,
                wopts,
                ropts,
                desc.fields@[k].value,
                v,
                depth,
            ),
    }
}

/// Whether a message is one that reading yields: its fields hold values of their types, what is
/// not set holds its default, and messages are not nested too deeply. Of what only the host can
/// read: an `Any` that is not empty has the URL that its type is packed with, and extension fields
/// are ones that writer and reader know by the same key.
pub open spec fn readable(schema: Schema, wopts: JsonOpts, ropts: FromJsonOpts, m: Msg, depth: nat) -> bool
    decreases m, 5nat,
{
    &&& depth <= json_parse::DEPTH_LIMIT
    &&& m.desc < schema.messages@.len()
    &&& {
        let desc = schema.messages@[m.desc as int];
        let empty = json_parse::empty_msg(schema, m.desc);
        match desc.wkt {
            WktKind::Ordinary | WktKind::FileDescriptorSet => {
                &&& m.attrs.len() == desc.fields@.len()
                &&& m.present.len() == desc.fields@.len()
                &&& m.oneofs.len() == desc.oneof_count
                &&& forall|a: int, b: int|
                    0 <= a < b < m.unknown.len() ==> (#[trigger] m.unknown[a]).0 != (
                    #[trigger] m.unknown[b]).0
                &&& forall|i: int|
                    0 <= i < m.unknown.len() ==> extension_ok(
                        schema,
                        wopts,
                        ropts,
                        desc,
                        #[trigger] m.unknown[i],
                        depth,
                    )
                &&& forall|i: int|
                    0 <= i < m.attrs.len() ==> field_ok(
                        schema,
                        wopts,
                        ropts,
                        desc.fields@[i],
                        #[trigger] m.attrs[i],
                        m.present[i],
                        depth,
                    )
                &&& forall|o: int|
                    0 <= o < m.oneofs.len() ==> oneof_ok(
                        schema,
                        wopts,
                        ropts,
                        desc,
                        o,
                        #[trigger] m.oneofs[o],
                        depth,
                    )
            },
            WktKind::Timestamp { seconds, nanos } | WktKind::Duration { seconds, nanos } => {
                let s = m.attrs[seconds as int];
                let n = m.attrs[nanos as int];
                s is Int && n is Int && m == json_parse::set_attr(
                    json_parse::set_attr(empty, seconds as int, s),
                    nanos as int,
                    n,
                )
            },
            WktKind::FieldMask { paths } => {
                let v = m.attrs[paths as int];
                &&& m == json_parse::set_attr(empty, paths as int, v)
                &&& match v {
                    Val::List(items) => {
                        &&& forall|i: int|
                            0 <= i < items.len() ==> field_mask::separable(#[trigger] items[i])
                        &&& items.len() == 1 ==> items[0] != Val::Str(seq![])
                    },
                    _ => false,
                }
            },
            WktKind::Wrapper { field, scalar } => {
                let v = m.attrs[field as int];
                m == json_parse::set_attr(empty, field as int, v) && scalar_ok(scalar, v)
            },
            WktKind::Struct { fields } => {
                let v = m.attrs[fields as int];
                &&& fields < m.attrs.len()
                &&& m == json_parse::set_attr(empty, fields as int, v)
                &&& value_ok(schema, wopts, ropts, desc.fields@[fields as int].value, v, depth)
            },
            WktKind::ListValue { values } => {
                let v = m.attrs[values as int];
                &&& values < m.attrs.len()
                &&& m == json_parse::set_attr(empty, values as int, v)
                &&& value_ok(schema, wopts, ropts, desc.fields@[values as int].value, v, depth)
            },
            WktKind::Value { .. } => match json_parse::value_oneof(empty, desc) {
                Ok(o) => {
                    &&& o < m.oneofs.len()
                    &&& m == (Msg { oneofs: empty.oneofs.update(o as int, m.oneofs[o as int]), ..empty })
                    &&& match m.oneofs[o as int] {
                        Some((name, v)) => kind_ok(schema, wopts, ropts, desc, name, v, depth),
                        None => false,
                    }
                },
                Err(_) => false,
            },
            WktKind::Any { type_url, value } => m == empty || {
                let u = m.attrs[type_url as int];
                let data = m.attrs[value as int];
                &&& m == json_parse::set_attr(
                    json_parse::set_attr(empty, type_url as int, u),
                    value as int,
                    data,
                )
                &&& u matches Val::Str(url) && url_ok(schema, wopts, ropts, url)
                &&& data is Bytes
            },
        }
    }
}

/// Whether a type URL names a message type, to the writer and to the reader, and is the one that
/// the type is packed with.
pub open spec fn url_ok(schema: Schema, wopts: JsonOpts, ropts: FromJsonOpts, url: Seq<char>) -> bool {
    let name = json_parse::url_name(url);
    match json_parse::registered(ropts.registry, name) {
        Some(message) => {
            let desc = schema.messages@[message as int];
            &&& json_parse::registered(wopts.registry, name) == Some(message)
            &&& message < schema.messages@.len()
            &&& url == json_parse::packed_url(desc)
            &&& desc.wkt is Ordinary ==> descriptor::name_index(desc.json_names@, "@type"@) is None
        },
        None => false,
    }
}

/// Whether an extension field is as reading leaves it: the key that the writer gives it names the
/// field to the reader, and its JSON form is no null, which would take it out.
pub open spec fn extension_ok(
    schema: Schema,
    wopts: JsonOpts,
    ropts: FromJsonOpts,
    desc: DescMessage,
    entry: (u32, Val),
    depth: nat,
) -> bool
    decreases entry, 4nat,
{
    match json_serialize::extension_at(wopts, desc, entry.0) {
        Some(ext) => {
            let key = json_serialize::extension_key(ext);
            &&& descriptor::name_index(desc.json_names@, key) is None
            &&& extension_keyed(ropts, desc, key, entry.0)
            &&& !nullable(schema, ext.value)
            &&& value_ok(schema, wopts, ropts, ext.value, entry.1, depth)
        },
        None => false,
    }
}

/// Whether a key names to the reader the extension field of a message type with the given number.
pub open spec fn extension_keyed(
    ropts: FromJsonOpts,
    desc: DescMessage,
    key: Seq<char>,
    number: u32,
) -> bool {
    match json_parse::extension_of_key(ropts.registry, key) {
        Some(i) => {
            let ext = ropts.registry->Some_0.extensions@[i];
            ext.extendee@ == desc.full_name@ && ext.number == number
        },
        None => false,
    }
}

/// Whether a value of a field can have the JSON form null.
pub open spec fn nullable(schema: Schema, ty: DescFieldValue) -> bool {
    match ty {
        DescFieldValue::Enum { enum_ } => schema.enums@[enum_ as int].is_null_value,
        DescFieldValue::Message { message } => schema.messages@[message as int].wkt is Value,
        _ => false,
    }
}

/// Whether the messages that the host unpacked are ones that reading yields.
pub open spec fn answers_ok(schema: Schema, wopts: JsonOpts, ropts: FromJsonOpts, asks: Seq<Ans>) -> bool {
    forall|k: int|
        0 <= k < asks.len() ==> (#[trigger] asks[k] matches AnswerOf::Message(m) ==> readable(
            schema,
            wopts,
            ropts,
            m,
            1,
        ))
}

/// The texts that numbers have in what is written with the given answers.
pub open spec fn texts_of(is_text: bool, asks: Seq<Ans>) -> NumberTexts {
    if !is_text {
        NumberTexts::Any
    } else if asks.len() == 0 {
        NumberTexts::Own
    } else {
        NumberTexts::OwnOrAsked
    }
}

/// Whether numbers have such texts in what is written with the given answers.
pub open spec fn texts_fit(texts: NumberTexts, is_text: bool, asks: Seq<Ans>) -> bool {
    match texts {
        NumberTexts::Any => true,
        NumberTexts::OwnOrAsked => is_text,
        NumberTexts::Own => is_text && asks.len() == 0,
    }
}

/// What the lemmas on reading back have in common: the schema is well formed, and so are the
/// messages among the answers, and numbers have the texts that they are written with.
#[verifier::opaque]
spec fn trip_ok(
    schema: Schema,
    wopts: JsonOpts,
    is_text: bool,
    ropts: FromJsonOpts,
    texts: NumberTexts,
    asks: Seq<Ans>,
) -> bool {
    &&& schema_ok(schema)
    &&& answers_ok(schema, wopts, ropts, asks)
    &&& texts_fit(texts, is_text, asks)
}

/// What is left of the answers is as good as all of them.
proof fn lemma_trip_rest(
    schema: Schema,
    wopts: JsonOpts,
    is_text: bool,
    ropts: FromJsonOpts,
    texts: NumberTexts,
    asks: Seq<Ans>,
    n: nat,
)
    requires
        trip_ok(schema, wopts, is_text, ropts, texts, asks),
    ensures
        trip_ok(schema, wopts, is_text, ropts, texts, json_sink::rest(asks, n)),
        json_sink::rest(asks, n).len() <= asks.len(),
        n <= asks.len() ==> json_sink::rest(asks, n).len() == asks.len() - n,
        json_sink::rest(asks, 0) == asks,
{
    reveal(trip_ok);
    json_sink::lemma_rest(asks, n, 0);
    let left = json_sink::rest(asks, n);
    assert forall|k: int| 0 <= k < left.len() implies (#[trigger] left[k] matches AnswerOf::Message(
        m,
    ) ==> readable(schema, wopts, ropts, m, 1)) by {
        assert(left[k] == asks[k + n]);
    }
}

/// Whether a `Value` that holds the given value is one that reading yields.
pub open spec fn kind_ok(
    schema: Schema,
    wopts: JsonOpts,
    ropts: FromJsonOpts,
    desc: DescMessage,
    name: Seq<char>,
    v: Val,
    depth: nat,
) -> bool
    decreases v, 4nat,
{
    let field = |kind: JsonKind| desc.fields@[json_parse::value_field(kind, desc.wkt) as int];
    ||| name == "null_value"@ && (field(JsonKind::Null).value matches DescFieldValue::Enum { enum_ }
        && v == Val::Int(json_parse::enum_zero(schema, enum_)))
    ||| name == "number_value"@ && v is Float
    ||| name == "string_value"@ && v is Str
    ||| name == "bool_value"@ && v is Bool
    ||| name == "struct_value"@ && value_ok(
        schema,
        wopts,
        ropts,
        field(JsonKind::Object).value,
        v,
        depth,
    )
    ||| name == "list_value"@ && value_ok(
        schema,
        wopts,
        ropts,
        field(JsonKind::Array).value,
        v,
        depth,
    )
}

/// Whether the JSON keys of a field name it.
pub open spec fn keys_ok(desc: DescMessage, i: int) -> bool {
    let by_name = descriptor::name_index(desc.json_names@, desc.fields@[i].name@);
    let by_key = descriptor::name_index(desc.json_names@, desc.fields@[i].json_key@);
    &&& by_name is Some && desc.json_names@[by_name->Some_0].1 == i
    &&& by_key is Some && desc.json_names@[by_key->Some_0].1 == i
}

/// Whether a message type without a JSON form of its own is well formed: its keys name its
/// fields, and the fields of a oneof are singular and have different names.
pub open spec fn plain_type_ok(desc: DescMessage) -> bool {
    &&& forall|i: int| 0 <= i < desc.fields@.len() ==> #[trigger] keys_ok(desc, i)
    &&& forall|i: int|
        0 <= i < desc.fields@.len() ==> ((#[trigger] desc.fields@[i]).oneof matches Some(o) ==> {
            &&& o < desc.oneof_count
            &&& !(desc.fields@[i].value is List)
            &&& !(desc.fields@[i].value is MapOf)
        })
    &&& forall|a: int, b: int, o: int, name: Seq<char>|
        #[trigger] is_member(desc, o, name, a) && #[trigger] is_member(desc, o, name, b) ==> a == b
}

/// Whether a message type of kind `Value` is well formed.
pub open spec fn value_type_ok(schema: Schema, desc: DescMessage) -> bool {
    match desc.wkt {
        WktKind::Value {
            null_value,
            number_value,
            string_value,
            bool_value,
            struct_value,
            list_value,
        } => {
            let n = desc.fields@.len();
            &&& null_value < n && number_value < n && string_value < n && bool_value < n
            &&& struct_value < n && list_value < n
            &&& desc.fields@[null_value as int].oneof matches Some(o) && o < desc.oneof_count
            &&& desc.fields@[null_value as int].name@ == "null_value"@
            &&& desc.fields@[number_value as int].name@ == "number_value"@
            &&& desc.fields@[string_value as int].name@ == "string_value"@
            &&& desc.fields@[bool_value as int].name@ == "bool_value"@
            &&& desc.fields@[struct_value as int].name@ == "struct_value"@
            &&& desc.fields@[list_value as int].name@ == "list_value"@
            &&& desc.fields@[struct_value as int].value matches DescFieldValue::Message { message }
                && message < schema.messages@.len() && schema.messages@[message as int].wkt is Struct
            &&& desc.fields@[list_value as int].value matches DescFieldValue::Message { message }
                && message < schema.messages@.len() && schema.messages@[message as int].wkt
                is ListValue
        },
        _ => false,
    }
}

/// Whether a message type is well formed.
pub open spec fn type_ok(schema: Schema, desc: DescMessage) -> bool {
    let n = desc.fields@.len();
    match desc.wkt {
        WktKind::Ordinary | WktKind::FileDescriptorSet => plain_type_ok(desc),
        WktKind::Timestamp { seconds, nanos } | WktKind::Duration { seconds, nanos } => seconds < n
            && nanos < n && seconds != nanos,
        WktKind::FieldMask { paths } => paths < n && desc.fields@[paths as int].oneof is None
            && desc.fields@[paths as int].value is List,
        WktKind::Wrapper { field, .. } => field < n,
        WktKind::Struct { fields } => {
            &&& json_parse::struct_value_type(schema, desc, fields) is Ok
            &&& desc.fields@[fields as int].oneof is None
            &&& desc.fields@[fields as int].value matches DescFieldValue::MapOf { key_type, .. }
                && key_type == ScalarType::String
        },
        WktKind::ListValue { values } => {
            &&& json_parse::list_element_type(schema, desc, values) is Ok
            &&& desc.fields@[values as int].oneof is None
        },
        WktKind::Value { .. } => value_type_ok(schema, desc),
        WktKind::Any { type_url, value } => type_url < n && value < n && type_url != value
            && desc.fields@[type_url as int].oneof is None && desc.fields@[type_url as int].value
            == (DescFieldValue::Scalar { scalar_type: ScalarType::String }),
    }
}

/// Whether the message types of a schema are well formed.
pub open spec fn schema_ok(schema: Schema) -> bool {
    forall|d: int|
        0 <= d < schema.messages@.len() ==> type_ok(schema, #[trigger] schema.messages@[d])
}

/// Whether a key is that of a field or of an extension field.
spec fn member_key(desc: DescMessage, key: Seq<char>) -> bool {
    descriptor::name_index(desc.json_names@, key) is Some || key.len() > 0 && key[0] == '['
}

/// What a message is written as.
#[verifier::opaque]
spec fn message_written(
    schema: Schema,
    wopts: JsonOpts,
    is_text: bool,
    m: Msg,
    asks: Seq<Ans>,
) -> json_serialize::Written {
    json_serialize::message_json(schema, wopts, is_text, m, asks)
}

/// The answers for reading a message back.
#[verifier::opaque]
spec fn message_given(
    schema: Schema,
    wopts: JsonOpts,
    is_text: bool,
    m: Msg,
    asks: Seq<Ans>,
) -> Seq<Ans> {
    replies::message_replies(schema, wopts, is_text, m, asks)
}

/// What a single value is written as.
#[verifier::opaque]
spec fn single_written(
    schema: Schema,
    wopts: JsonOpts,
    is_text: bool,
    ty: DescSingleValue,
    v: Val,
    asks: Seq<Ans>,
) -> json_serialize::Written {
    json_serialize::single_json(schema, wopts, is_text, ty, v, asks)
}

/// The answers for reading a single value back.
#[verifier::opaque]
spec fn single_given(
    schema: Schema,
    wopts: JsonOpts,
    is_text: bool,
    ty: DescSingleValue,
    v: Val,
    asks: Seq<Ans>,
) -> Seq<Ans> {
    replies::single_replies(schema, wopts, is_text, ty, v, asks)
}

/// What the value of a field is written as.
#[verifier::opaque]
spec fn field_written(
    schema: Schema,
    wopts: JsonOpts,
    is_text: bool,
    ty: DescFieldValue,
    v: Val,
    asks: Seq<Ans>,
) -> json_serialize::Written {
    json_serialize::field_json(schema, wopts, is_text, ty, v, asks)
}

/// The answers for reading the value of a field back.
#[verifier::opaque]
spec fn field_given(
    schema: Schema,
    wopts: JsonOpts,
    is_text: bool,
    ty: DescFieldValue,
    v: Val,
    asks: Seq<Ans>,
) -> Seq<Ans> {
    replies::field_replies(schema, wopts, is_text, ty, v, asks)
}

/// What the elements of a list from `i` on are written as.
#[verifier::opaque]
spec fn items_written(
    schema: Schema,
    wopts: JsonOpts,
    is_text: bool,
    element: DescSingleValue,
    items: Seq<Val>,
    i: int,
    asks: Seq<Ans>,
) -> json_serialize::WrittenItems {
    json_serialize::items_json(schema, wopts, is_text, element, items, i as nat, asks)
}

/// The answers for reading the elements of a list from `i` on back.
#[verifier::opaque]
spec fn items_given(
    schema: Schema,
    wopts: JsonOpts,
    is_text: bool,
    element: DescSingleValue,
    items: Seq<Val>,
    i: int,
    asks: Seq<Ans>,
) -> Seq<Ans> {
    replies::items_replies(schema, wopts, is_text, element, items, i as nat, asks)
}

/// What the entries of a map from `i` on are written as.
#[verifier::opaque]
spec fn pairs_written(
    schema: Schema,
    wopts: JsonOpts,
    is_text: bool,
    key_type: ScalarType,
    ty: DescSingleValue,
    entries: Seq<(Val, Val)>,
    i: int,
    asks: Seq<Ans>,
) -> json_serialize::WrittenEntries {
    json_serialize::pairs_json(schema, wopts, is_text, key_type, ty, entries, i as nat, asks)
}

/// The answers for reading the entries of a map from `i` on back.
#[verifier::opaque]
spec fn pairs_given(
    schema: Schema,
    wopts: JsonOpts,
    is_text: bool,
    key_type: ScalarType,
    ty: DescSingleValue,
    entries: Seq<(Val, Val)>,
    i: int,
    asks: Seq<Ans>,
) -> Seq<Ans> {
    replies::pairs_replies(schema, wopts, is_text, key_type, ty, entries, i as nat, asks)
}

/// The answers for reading the fields from `i` on and the extension fields back.
#[verifier::opaque]
spec fn fields_given(
    schema: Schema,
    wopts: JsonOpts,
    is_text: bool,
    m: Msg,
    desc: DescMessage,
    i: int,
    asks: Seq<Ans>,
) -> Seq<Ans> {
    replies::fields_replies(schema, wopts, is_text, m, desc, i as nat, asks)
}

/// [`readable`], for the lemmas that do not look into it.
#[verifier::opaque]
spec fn message_fine(schema: Schema, wopts: JsonOpts, ropts: FromJsonOpts, m: Msg, depth: nat) -> bool {
    readable(schema, wopts, ropts, m, depth)
}

/// [`single_ok`], for the lemmas that do not look into it.
#[verifier::opaque]
spec fn single_fine(
    schema: Schema,
    wopts: JsonOpts,
    ropts: FromJsonOpts,
    ty: DescSingleValue,
    v: Val,
    depth: nat,
) -> bool {
    single_ok(schema, wopts, ropts, ty, v, depth)
}

/// Whether the elements of a list are ones that reading yields.
spec fn items_fine(
    schema: Schema,
    wopts: JsonOpts,
    ropts: FromJsonOpts,
    element: DescSingleValue,
    items: Seq<Val>,
    depth: nat,
) -> bool {
    forall|k: int|
        0 <= k < items.len() ==> single_fine(
            schema,
            wopts,
            ropts,
            element,
            #[trigger] items[k],
            depth,
        )
}

/// Whether reading a message gives the given one back where a source presents its JSON form, and
/// leaves the answers `more` of the answers `asks`.
#[verifier::opaque]
spec fn message_shown(
    schema: Schema,
    ropts: FromJsonOpts,
    asks: Seq<Ans>,
    more: Seq<Ans>,
    m: Msg,
    j: Json,
    src: SrcState,
    depth: nat,
) -> bool {
    json_shown::shows(src, j) ==> json_parse::message_reading(
        schema,
        ropts,
        json_parse::empty_msg(schema, m.desc),
        at(src, asks),
        depth,
    ) == (m, Ok::<St, Fault>(at(json_shown::behind(src, j), more)))
}

/// [`message_shown`] for an element of a list or a value of a map.
#[verifier::opaque]
spec fn item_shown(
    schema: Schema,
    ropts: FromJsonOpts,
    asks: Seq<Ans>,
    more: Seq<Ans>,
    desc: DescMessage,
    field: DescField,
    ty: DescSingleValue,
    is_map: bool,
    v: Val,
    j: Json,
    src: SrcState,
    depth: nat,
) -> bool {
    json_shown::shows(src, j) ==> json_parse::item_reading(
        schema,
        ropts,
        desc,
        field,
        ty,
        is_map,
        at(src, asks),
        depth,
    ) == Ok::<(Option<Val>, St), Fault>((Some(v), at(json_shown::behind(src, j), more)))
}

/// [`message_shown`] for the messages of a list, behind those that were read before.
#[verifier::opaque]
spec fn messages_shown(
    schema: Schema,
    ropts: FromJsonOpts,
    asks: Seq<Ans>,
    more: Seq<Ans>,
    message: usize,
    before: Seq<Val>,
    items: Seq<Val>,
    js: Seq<Json>,
    src: SrcState,
    rest: Seq<Val>,
    depth: nat,
) -> bool {
    json_shown::shows_items(src, rest, js) ==> json_parse::messages_reading(
        schema,
        ropts,
        message,
        at(src, asks),
        rest,
        before,
        depth,
    ) == (items, Ok::<St, Fault>(at(json_shown::behind_items(src, rest, js), more)))
}

/// [`message_shown`] for the entries of a map, behind those that were read before.
#[verifier::opaque]
spec fn pairs_shown(
    schema: Schema,
    ropts: FromJsonOpts,
    asks: Seq<Ans>,
    more: Seq<Ans>,
    desc: DescMessage,
    field: DescField,
    key_type: ScalarType,
    ty: DescSingleValue,
    before: Seq<(Val, Val)>,
    entries: Seq<(Val, Val)>,
    es: Seq<(Seq<char>, Json)>,
    src: SrcState,
    rest: Seq<(Val, Val)>,
    depth: nat,
) -> bool {
    json_shown::shows_entries(src, rest, es) ==> json_parse::pairs_reading(
        schema,
        ropts,
        desc,
        field,
        key_type,
        ty,
        at(src, asks),
        rest,
        es[0].0,
        before,
        depth,
    ) == (entries, Ok::<St, Fault>(at(json_shown::behind_entries(src, rest, es), more)))
}

/// [`message_shown`] for the messages of a dictionary, behind those that were read before.
#[verifier::opaque]
spec fn named_shown(
    schema: Schema,
    ropts: FromJsonOpts,
    asks: Seq<Ans>,
    more: Seq<Ans>,
    message: usize,
    before: Seq<(Val, Val)>,
    entries: Seq<(Val, Val)>,
    es: Seq<(Seq<char>, Json)>,
    src: SrcState,
    rest: Seq<(Val, Val)>,
    depth: nat,
) -> bool {
    json_shown::shows_entries(src, rest, es) ==> json_parse::named_messages_reading(
        schema,
        ropts,
        message,
        at(src, asks),
        rest,
        es[0].0,
        before,
        depth,
    ) == (entries, Ok::<St, Fault>(at(json_shown::behind_entries(src, rest, es), more)))
}

/// [`message_shown`] for one member of an object.
#[verifier::opaque]
spec fn member_shown(
    schema: Schema,
    ropts: FromJsonOpts,
    asks: Seq<Ans>,
    more: Seq<Ans>,
    desc: DescMessage,
    seen: SeenKeys,
    seen2: SeenKeys,
    before: Msg,
    after: Msg,
    key: Seq<char>,
    j: Json,
    src: SrcState,
    depth: nat,
) -> bool {
    json_shown::shows(src, j) ==> json_parse::member_reading(
        schema,
        ropts,
        before,
        desc,
        at(src, asks),
        key,
        seen,
        depth,
    ) == (after, seen2, Ok::<St, Fault>(at(json_shown::behind(src, j), more)))
}

/// [`message_shown`] for the members of an object, behind those that were read before.
#[verifier::opaque]
spec fn members_shown(
    schema: Schema,
    ropts: FromJsonOpts,
    asks: Seq<Ans>,
    more: Seq<Ans>,
    desc: DescMessage,
    seen: SeenKeys,
    before: Msg,
    m: Msg,
    es: Seq<(Seq<char>, Json)>,
    src: SrcState,
    rest: Seq<(Val, Val)>,
    depth: nat,
) -> bool {
    json_shown::shows_entries(src, rest, es) ==> json_parse::members_reading(
        schema,
        ropts,
        before,
        desc,
        at(src, asks),
        rest,
        es[0].0,
        seen,
        depth,
    ) == (m, Ok::<St, Fault>(at(json_shown::behind_entries(src, rest, es), more)))
}

/// Whether reading the JSON form of a message gives the message back.
spec fn message_back(
    schema: Schema,
    wopts: JsonOpts,
    is_text: bool,
    ropts: FromJsonOpts,
    texts: NumberTexts,
    asks: Seq<Ans>,
    more: Seq<Ans>,
    m: Msg,
    src: SrcState,
    depth: nat,
) -> bool {
    let (j, n) = message_written(schema, wopts, is_text, m, asks)->Ok_0;
    let wkt = schema.messages@[m.desc as int].wkt;
    &&& n <= asks.len()
    &&& json_shown::well_written(texts, j)
    &&& message_shown(
        schema,
        ropts,
        message_given(schema, wopts, is_text, m, asks) + more,
        more,
        m,
        j,
        src,
        depth,
    )
    &&& j is Null ==> wkt is Value
    &&& wkt is Struct ==> j is Object
    &&& wkt is ListValue ==> j is Array
    &&& wkt is Ordinary ==> j is Object && forall|a: int|
        0 <= a < j->Object_0.len() ==> member_key(
            schema.messages@[m.desc as int],
            (#[trigger] j->Object_0[a]).0,
        )
}

/// Whether reading the JSON form of a single value gives the value back.
spec fn single_back(
    schema: Schema,
    wopts: JsonOpts,
    is_text: bool,
    ropts: FromJsonOpts,
    texts: NumberTexts,
    asks: Seq<Ans>,
    more: Seq<Ans>,
    desc: DescMessage,
    field: DescField,
    ty: DescSingleValue,
    v: Val,
    is_map: bool,
    src: SrcState,
    depth: nat,
) -> bool {
    let (j, n) = single_written(schema, wopts, is_text, ty, v, asks)->Ok_0;
    &&& n <= asks.len()
    &&& json_shown::well_written(texts, j)
    &&& item_shown(
        schema,
        ropts,
        single_given(schema, wopts, is_text, ty, v, asks) + more,
        more,
        desc,
        field,
        ty,
        is_map,
        v,
        j,
        src,
        depth,
    )
}

#[verifier::rlimit(40)]
proof fn lemma_single(
    schema: Schema,
    wopts: JsonOpts,
    is_text: bool,
    ropts: FromJsonOpts,
    texts: NumberTexts,
    asks: Seq<Ans>,
    more: Seq<Ans>,
    desc: DescMessage,
    field: DescField,
    ty: DescSingleValue,
    v: Val,
    is_map: bool,
    src: SrcState,
    depth: nat,
)
    requires
        trip_ok(schema, wopts, is_text, ropts, texts, asks),
        depth <= json_parse::DEPTH_LIMIT,
        single_fine(schema, wopts, ropts, ty, v, depth),
        single_written(schema, wopts, is_text, ty, v, asks) is Ok,
    ensures
        single_back(schema, wopts, is_text, ropts, texts, asks, more, desc, field, ty, v, is_map, src, depth),
    decreases asks.len(), v, 6nat, 0nat,
{
    reveal(single_fine);
    reveal(single_written);
    reveal(single_given);
    reveal(message_fine);
    reveal(message_written);
    reveal(message_given);
    reveal(trip_ok);
    reveal(item_shown);
    reveal(message_shown);
    match ty {
        DescSingleValue::Scalar(scalar) => {
            lemma_scalar_read_back(is_text, texts, scalar, v, asks, src, more, desc, field);
            assert(Seq::<Ans>::empty() + more =~= more);
        },
        DescSingleValue::Enum(enum_) => {
            lemma_enum_read_back(
                wopts,
                is_text,
                texts,
                schema.enums@[enum_ as int],
                v,
                asks,
                ropts.ignore_unknown_fields,
                src,
            );
            assert(Seq::<Ans>::empty() + more =~= more);
        },
        DescSingleValue::Message(message) => {
            lemma_message(schema, wopts, is_text, ropts, texts, asks, more, v->Message_0, src, depth + 1);
        },
    }
}

/// A single value that is written as a message is a message of the type.
proof fn lemma_written_message(
    schema: Schema,
    wopts: JsonOpts,
    is_text: bool,
    message: usize,
    v: Val,
    asks: Seq<Ans>,
)
    requires
        json_serialize::single_json(
            schema,
            wopts,
            is_text,
            DescSingleValue::Message(message),
            v,
            asks,
        ) is Ok,
    ensures
        message < schema.messages@.len(),
        v is Message,
        v->Message_0.desc == message,
        json_serialize::message_json(schema, wopts, is_text, v->Message_0, asks)
            == json_serialize::single_json(
            schema,
            wopts,
            is_text,
            DescSingleValue::Message(message),
            v,
            asks,
        ),
{
}

/// A single value of a message type is a message that reading yields.
proof fn lemma_single_message(
    schema: Schema,
    wopts: JsonOpts,
    is_text: bool,
    ropts: FromJsonOpts,
    message: usize,
    v: Val,
    asks: Seq<Ans>,
    depth: nat,
)
    requires
        single_fine(schema, wopts, ropts, DescSingleValue::Message(message), v, depth),
        single_written(schema, wopts, is_text, DescSingleValue::Message(message), v, asks) is Ok,
    ensures
        v is Message,
        v->Message_0.desc == message,
        message_fine(schema, wopts, ropts, v->Message_0, depth + 1),
        message_written(schema, wopts, is_text, v->Message_0, asks) == single_written(
            schema,
            wopts,
            is_text,
            DescSingleValue::Message(message),
            v,
            asks,
        ),
        message_given(schema, wopts, is_text, v->Message_0, asks) == single_given(
            schema,
            wopts,
            is_text,
            DescSingleValue::Message(message),
            v,
            asks,
        ),
{
    reveal(single_fine);
    reveal(single_written);
    reveal(single_given);
    reveal(message_fine);
    reveal(message_written);
    reveal(message_given);
    lemma_written_message(schema, wopts, is_text, message, v, asks);
}

/// The elements of a list from one on are written as that one and those behind it.
#[verifier::rlimit(40)]
proof fn lemma_items_written(
    schema: Schema,
    wopts: JsonOpts,
    is_text: bool,
    element: DescSingleValue,
    items: Seq<Val>,
    i: int,
    asks: Seq<Ans>,
)
    requires
        0 <= i <= items.len(),
        items_written(schema, wopts, is_text, element, items, i, asks) is Ok,
    ensures
        i == items.len() ==> items_written(schema, wopts, is_text, element, items, i, asks) == Ok::<
            (Seq<Json>, nat),
            Fault,
        >((seq![], 0)) && items_given(schema, wopts, is_text, element, items, i, asks) == Seq::<
            Ans,
        >::empty(),
        i < items.len() ==> {
            let first = single_written(schema, wopts, is_text, element, items[i], asks);
            let (j, n) = first->Ok_0;
            let asks2 = json_sink::rest(asks, n);
            let after = items_written(schema, wopts, is_text, element, items, i + 1, asks2);
            &&& first is Ok
            &&& after is Ok
            &&& items_written(schema, wopts, is_text, element, items, i, asks) == Ok::<
                (Seq<Json>, nat),
                Fault,
            >((seq![j] + after->Ok_0.0, n + after->Ok_0.1))
            &&& items_given(schema, wopts, is_text, element, items, i, asks) == single_given(
                schema,
                wopts,
                is_text,
                element,
                items[i],
                asks,
            ) + items_given(schema, wopts, is_text, element, items, i + 1, asks2)
        },
{
    reveal(items_written);
    reveal(items_given);
    reveal(single_written);
    reveal(single_given);
}

/// [`message_shown`] for the elements of a list, behind those that were read before.
#[verifier::opaque]
spec fn elements_shown(
    schema: Schema,
    ropts: FromJsonOpts,
    asks: Seq<Ans>,
    more: Seq<Ans>,
    desc: DescMessage,
    field: DescField,
    element: DescSingleValue,
    before: Seq<Val>,
    items: Seq<Val>,
    js: Seq<Json>,
    src: SrcState,
    rest: Seq<Val>,
    depth: nat,
) -> bool {
    json_shown::shows_items(src, rest, js) ==> json_parse::elements_reading(
        schema,
        ropts,
        desc,
        field,
        element,
        at(src, asks),
        rest,
        before,
        depth,
    ) == (items, Ok::<St, Fault>(at(json_shown::behind_items(src, rest, js), more)))
}

/// One step of reading the elements of a list.
#[verifier::rlimit(40)]
proof fn lemma_elements_step(
    schema: Schema,
    ropts: FromJsonOpts,
    asks: Seq<Ans>,
    asks2: Seq<Ans>,
    more: Seq<Ans>,
    desc: DescMessage,
    field: DescField,
    element: DescSingleValue,
    v: Val,
    before: Seq<Val>,
    items: Seq<Val>,
    j: Json,
    js: Seq<Json>,
    src: SrcState,
    rest: Seq<Val>,
    depth: nat,
)
    requires
        depth <= json_parse::DEPTH_LIMIT,
        item_shown(schema, ropts, asks, asks2, desc, field, element, false, v, j, src, depth),
        ({
            let (rest2, _, src2) = json_source::array_stepped(
                json_shown::behind(src, j),
                rest,
            )->Ok_0;
            elements_shown(
                schema,
                ropts,
                asks2,
                more,
                desc,
                field,
                element,
                before.push(v),
                items,
                js,
                src2,
                rest2,
                depth,
            )
        }),
        js.len() == 0 ==> before.push(v) == items && asks2 == more,
    ensures
        elements_shown(
            schema,
            ropts,
            asks,
            more,
            desc,
            field,
            element,
            before,
            items,
            seq![j] + js,
            src,
            rest,
            depth,
        ),
{
    reveal(item_shown);
    reveal(elements_shown);
    assert((seq![j] + js).skip(1) =~= js);
}

/// Reading the elements of a list from one on gives the list back.
#[verifier::spinoff_prover]
#[verifier::rlimit(40)]
proof fn lemma_items(
    schema: Schema,
    wopts: JsonOpts,
    is_text: bool,
    ropts: FromJsonOpts,
    texts: NumberTexts,
    asks: Seq<Ans>,
    more: Seq<Ans>,
    desc: DescMessage,
    field: DescField,
    element: DescSingleValue,
    items: Seq<Val>,
    i: int,
    src: SrcState,
    rest: Seq<Val>,
    depth: nat,
)
    requires
        trip_ok(schema, wopts, is_text, ropts, texts, asks),
        depth <= json_parse::DEPTH_LIMIT,
        0 <= i <= items.len(),
        items_fine(schema, wopts, ropts, element, items, depth),
        items_written(schema, wopts, is_text, element, items, i, asks) is Ok,
    ensures
        ({
            let (js, n) = items_written(
                schema,
                wopts,
                is_text,
                element,
                items,
                i,
                asks,
            )->Ok_0;
            &&& n <= asks.len()
            &&& js.len() == items.len() - i
            &&& forall|k: int| 0 <= k < js.len() ==> json_shown::well_written(texts, #[trigger] js[k])
            &&& elements_shown(
                schema,
                ropts,
                items_given(schema, wopts, is_text, element, items, i, asks) + more,
                more,
                desc,
                field,
                element,
                items.take(i),
                items,
                js,
                src,
                rest,
                depth,
            )
        }),
    decreases asks.len(), items, 3nat, items.len() - i,
{
    lemma_items_written(schema, wopts, is_text, element, items, i, asks);
    if i == items.len() {
        reveal(elements_shown);
    } else {
        let v = items[i];
        assert(single_fine(schema, wopts, ropts, element, items[i], depth));
        let (j, n) = single_written(schema, wopts, is_text, element, v, asks)->Ok_0;
        let asks2 = json_sink::rest(asks, n);
        lemma_trip_rest(schema, wopts, is_text, ropts, texts, asks, n);
        let given1 = single_given(schema, wopts, is_text, element, v, asks);
        let given2 = items_given(schema, wopts, is_text, element, items, i + 1, asks2);
        assert((given1 + given2) + more =~= given1 + (given2 + more));
        lemma_single(
            schema,
            wopts,
            is_text,
            ropts,
            texts,
            asks,
            given2 + more,
            desc,
            field,
            element,
            items[i],
            false,
            src,
            depth,
        );
        let (rest2, _, src2) = json_source::array_stepped(json_shown::behind(src, j), rest)->Ok_0;
        lemma_items(
            schema,
            wopts,
            is_text,
            ropts,
            texts,
            asks2,
            more,
            desc,
            field,
            element,
            items,
            i + 1,
            src2,
            rest2,
            depth,
        );
        lemma_items_written(schema, wopts, is_text, element, items, i + 1, asks2);
        let js1 = items_written(schema, wopts, is_text, element, items, i + 1, asks2)->Ok_0.0;
        lemma_prepended(texts, j, js1);
        assert(items.take(i).push(v) =~= items.take(i + 1));
        if js1.len() == 0 {
            assert(items.take(i + 1) =~= items);
            assert(given2 + more =~= more);
        }
        lemma_elements_step(
            schema,
            ropts,
            given1 + (given2 + more),
            given2 + more,
            more,
            desc,
            field,
            element,
            v,
            items.take(i),
            items,
            j,
            js1,
            src,
            rest,
            depth,
        );
    }
}

/// An element in front of well-written ones.
proof fn lemma_prepended(texts: NumberTexts, j: Json, js: Seq<Json>)
    requires
        json_shown::well_written(texts, j),
        forall|k: int| 0 <= k < js.len() ==> json_shown::well_written(texts, #[trigger] js[k]),
    ensures
        ({
            let all = seq![j] + js;
            &&& all.skip(1) == js
            &&& forall|k: int| 0 <= k < all.len() ==> json_shown::well_written(texts, #[trigger] all[k])
        }),
{
    let all = seq![j] + js;
    assert(all.skip(1) =~= js);
    assert forall|k: int| 0 <= k < all.len() implies json_shown::well_written(texts, #[trigger] all[k]) by {
        if k > 0 {
            assert(all[k] == js[k - 1]);
        }
    }
}

/// One step of reading the messages of a list.
#[verifier::rlimit(40)]
proof fn lemma_messages_step(
    schema: Schema,
    ropts: FromJsonOpts,
    asks: Seq<Ans>,
    asks2: Seq<Ans>,
    more: Seq<Ans>,
    m: Msg,
    before: Seq<Val>,
    items: Seq<Val>,
    j: Json,
    js: Seq<Json>,
    src: SrcState,
    rest: Seq<Val>,
    depth: nat,
)
    requires
        depth <= json_parse::DEPTH_LIMIT,
        message_shown(schema, ropts, asks, asks2, m, j, src, depth + 1),
        ({
            let (rest2, _, src2) = json_source::array_stepped(
                json_shown::behind(src, j),
                rest,
            )->Ok_0;
            messages_shown(
                schema,
                ropts,
                asks2,
                more,
                m.desc,
                before.push(Val::Message(m)),
                items,
                js,
                src2,
                rest2,
                depth,
            )
        }),
        js.len() == 0 ==> before.push(Val::Message(m)) == items && asks2 == more,
    ensures
        messages_shown(
            schema,
            ropts,
            asks,
            more,
            m.desc,
            before,
            items,
            seq![j] + js,
            src,
            rest,
            depth,
        ),
{
    reveal(message_shown);
    reveal(messages_shown);
    assert((seq![j] + js).skip(1) =~= js);
}

/// Reading the messages of a list from one on gives the list back.
#[verifier::spinoff_prover]
#[verifier::rlimit(40)]
proof fn lemma_messages(
    schema: Schema,
    wopts: JsonOpts,
    is_text: bool,
    ropts: FromJsonOpts,
    texts: NumberTexts,
    asks: Seq<Ans>,
    more: Seq<Ans>,
    message: usize,
    items: Seq<Val>,
    i: int,
    src: SrcState,
    rest: Seq<Val>,
    depth: nat,
)
    requires
        trip_ok(schema, wopts, is_text, ropts, texts, asks),
        depth <= json_parse::DEPTH_LIMIT,
        0 <= i <= items.len(),
        items_fine(schema, wopts, ropts, DescSingleValue::Message(message), items, depth),
        items_written(schema, wopts, is_text, DescSingleValue::Message(message), items, i, asks) is Ok,
    ensures
        ({
            let (js, n) = items_written(
                schema,
                wopts,
                is_text,
                DescSingleValue::Message(message),
                items,
                i,
                asks,
            )->Ok_0;
            &&& n <= asks.len()
            &&& js.len() == items.len() - i
            &&& forall|k: int| 0 <= k < js.len() ==> json_shown::well_written(texts, #[trigger] js[k])
            &&& messages_shown(
                schema,
                ropts,
                items_given(schema, wopts, is_text, DescSingleValue::Message(message), items, i, asks) + more,
                more,
                message,
                items.take(i),
                items,
                js,
                src,
                rest,
                depth,
            )
        }),
    decreases asks.len(), items, 3nat, items.len() - i,
{
    lemma_items_written(schema, wopts, is_text, DescSingleValue::Message(message), items, i, asks);
    if i == items.len() {
        reveal(messages_shown);
    } else {
        let v = items[i];
        assert(single_fine(schema, wopts, ropts, DescSingleValue::Message(message), items[i], depth));
        let (j, n) = single_written(schema, wopts, is_text, DescSingleValue::Message(message), v, asks)->Ok_0;
        let asks2 = json_sink::rest(asks, n);
        lemma_trip_rest(schema, wopts, is_text, ropts, texts, asks, n);
        let given1 = single_given(schema, wopts, is_text, DescSingleValue::Message(message), v, asks);
        let given2 = items_given(
            schema,
            wopts,
            is_text,
            DescSingleValue::Message(message),
            items,
            i + 1,
            asks2,
        );
        assert((given1 + given2) + more =~= given1 + (given2 + more));
        lemma_single_message(schema, wopts, is_text, ropts, message, v, asks, depth);
        lemma_message(
            schema,
            wopts,
            is_text,
            ropts,
            texts,
            asks,
            given2 + more,
            items[i]->Message_0,
            src,
            depth + 1,
        );
        let (rest2, _, src2) = json_source::array_stepped(json_shown::behind(src, j), rest)->Ok_0;
        lemma_messages(
            schema,
            wopts,
            is_text,
            ropts,
            texts,
            asks2,
            more,
            message,
            items,
            i + 1,
            src2,
            rest2,
            depth,
        );
        lemma_items_written(schema, wopts, is_text, DescSingleValue::Message(message), items, i + 1, asks2);
        let js1 = items_written(
            schema,
            wopts,
            is_text,
            DescSingleValue::Message(message),
            items,
            i + 1,
            asks2,
        )->Ok_0.0;
        lemma_prepended(texts, j, js1);
        assert(items.take(i).push(v) =~= items.take(i + 1));
        if js1.len() == 0 {
            assert(items.take(i + 1) =~= items);
            assert(given2 + more =~= more);
        }
        lemma_messages_step(
            schema,
            ropts,
            given1 + (given2 + more),
            given2 + more,
            more,
            v->Message_0,
            items.take(i),
            items,
            j,
            js1,
            src,
            rest,
            depth,
        );
    }
}

/// A new key adds an entry at the end.
proof fn lemma_dict_push(entries: Seq<(Val, Val)>, i: int)
    requires
        distinct_entries(entries),
        0 <= i < entries.len(),
    ensures
        value::dict_set(entries.take(i), entries[i].0, entries[i].1) == entries.take(i + 1),
{
    let head = entries.take(i);
    value::lemma_dict_index(head, entries[i].0);
    match value::dict_index(head, entries[i].0) {
        Some(k) => {
            assert(head[k] == entries[k]);
            assert(!value::same_key(entries[k].0, entries[i].0));
            assert(false);
        },
        None => {},
    }
    assert(head.push((entries[i].0, entries[i].1)) =~= entries.take(i + 1));
}

/// Whether the entries of a map are ones that reading yields.
#[verifier::opaque]
spec fn entries_ok(
    schema: Schema,
    wopts: JsonOpts,
    ropts: FromJsonOpts,
    key_type: ScalarType,
    ty: DescSingleValue,
    entries: Seq<(Val, Val)>,
    depth: nat,
) -> bool {
    &&& distinct_entries(entries)
    &&& forall|k: int|
        0 <= k < entries.len() ==> key_ok(key_type, (#[trigger] entries[k]).0) && single_ok(
            schema,
            wopts,
            ropts,
            ty,
            entries[k].1,
            depth,
        )
}

/// One of the entries of a map.
proof fn lemma_entry_ok(
    schema: Schema,
    wopts: JsonOpts,
    ropts: FromJsonOpts,
    key_type: ScalarType,
    ty: DescSingleValue,
    entries: Seq<(Val, Val)>,
    i: int,
    depth: nat,
)
    requires
        entries_ok(schema, wopts, ropts, key_type, ty, entries, depth),
        0 <= i < entries.len(),
    ensures
        single_fine(schema, wopts, ropts, ty, entries[i].1, depth),
        value::dict_set(entries.take(i), entries[i].0, entries[i].1) == entries.take(i + 1),
{
    reveal(entries_ok);
    reveal(single_fine);
    lemma_dict_push(entries, i);
}

/// The entries of a map from one on are written as its member and those behind it.
#[verifier::rlimit(40)]
proof fn lemma_pairs_written(
    schema: Schema,
    wopts: JsonOpts,
    is_text: bool,
    ropts: FromJsonOpts,
    key_type: ScalarType,
    ty: DescSingleValue,
    entries: Seq<(Val, Val)>,
    i: int,
    asks: Seq<Ans>,
    depth: nat,
)
    requires
        0 <= i < entries.len(),
        entries_ok(schema, wopts, ropts, key_type, ty, entries, depth),
        pairs_written(schema, wopts, is_text, key_type, ty, entries, i, asks) is Ok,
    ensures
        ({
            let t = key_text(key_type, entries[i].0);
            let first = single_written(schema, wopts, is_text, ty, entries[i].1, asks);
            let (j, n) = first->Ok_0;
            let asks2 = json_sink::rest(asks, n);
            let after = pairs_written(
                schema,
                wopts,
                is_text,
                key_type,
                ty,
                entries,
                i + 1,
                asks2,
            );
            &&& first is Ok
            &&& after is Ok
            &&& pairs_written(schema, wopts, is_text, key_type, ty, entries, i, asks) == Ok::<
                (Seq<(Seq<char>, Json)>, nat),
                Fault,
            >((seq![(t, j)] + after->Ok_0.0, n + after->Ok_0.1))
            &&& pairs_given(schema, wopts, is_text, key_type, ty, entries, i, asks) == single_given(
                schema,
                wopts,
                is_text,
                ty,
                entries[i].1,
                asks,
            ) + pairs_given(schema, wopts, is_text, key_type, ty, entries, i + 1, asks2)
        }),
{
    reveal(pairs_written);
    reveal(pairs_given);
    reveal(single_written);
    reveal(single_given);
    reveal(key_text);
    assert(key_ok(key_type, entries[i].0)) by {
        reveal(entries_ok);
    }
    json_sink::lemma_rest(asks, 0, 0);
    lemma_map_key_read_back(
        key_type,
        entries[i].0,
        asks,
        asks,
        arbitrary::<DescMessage>(),
        arbitrary::<DescField>(),
    );
}

/// Behind the last entry of a map nothing is written.
proof fn lemma_pairs_end(
    schema: Schema,
    wopts: JsonOpts,
    is_text: bool,
    key_type: ScalarType,
    ty: DescSingleValue,
    entries: Seq<(Val, Val)>,
    asks: Seq<Ans>,
)
    ensures
        pairs_given(schema, wopts, is_text, key_type, ty, entries, entries.len() as int, asks)
            == Seq::<Ans>::empty(),
{
    reveal(pairs_given);
}

/// The text of a key in a map is read as the key.
proof fn lemma_key_read(
    schema: Schema,
    wopts: JsonOpts,
    ropts: FromJsonOpts,
    key_type: ScalarType,
    ty: DescSingleValue,
    entries: Seq<(Val, Val)>,
    i: int,
    asks: Seq<Ans>,
    desc: DescMessage,
    field: DescField,
    depth: nat,
)
    requires
        0 <= i < entries.len(),
        entries_ok(schema, wopts, ropts, key_type, ty, entries, depth),
    ensures
        json_scalars::map_key_reading(
            key_type,
            key_text(key_type, entries[i].0),
            asks,
            desc,
            field,
        ) == Ok::<(Val, Seq<Ans>), Fault>((entries[i].0, asks)),
{
    reveal(entries_ok);
    reveal(key_text);
    lemma_map_key_read_back(key_type, entries[i].0, seq![], asks, desc, field);
}

/// A string key is its own text.
proof fn lemma_name_key(
    schema: Schema,
    wopts: JsonOpts,
    ropts: FromJsonOpts,
    ty: DescSingleValue,
    entries: Seq<(Val, Val)>,
    i: int,
    depth: nat,
)
    requires
        0 <= i < entries.len(),
        entries_ok(schema, wopts, ropts, ScalarType::String, ty, entries, depth),
    ensures
        entries[i].0 == Val::Str(key_text(ScalarType::String, entries[i].0)),
{
    reveal(entries_ok);
    reveal(key_text);
}

/// One step of reading the entries of a map.
#[verifier::rlimit(40)]
proof fn lemma_pairs_step(
    schema: Schema,
    ropts: FromJsonOpts,
    asks: Seq<Ans>,
    asks2: Seq<Ans>,
    more: Seq<Ans>,
    desc: DescMessage,
    field: DescField,
    key_type: ScalarType,
    ty: DescSingleValue,
    key: Val,
    v: Val,
    before: Seq<(Val, Val)>,
    entries: Seq<(Val, Val)>,
    t: Seq<char>,
    j: Json,
    es: Seq<(Seq<char>, Json)>,
    src: SrcState,
    rest: Seq<(Val, Val)>,
    depth: nat,
)
    requires
        depth <= json_parse::DEPTH_LIMIT,
        json_scalars::map_key_reading(key_type, t, asks, desc, field) == Ok::<
            (Val, Seq<Ans>),
            Fault,
        >((key, asks)),
        item_shown(schema, ropts, asks, asks2, desc, field, ty, true, v, j, src, depth),
        ({
            let (rest2, _, src2) = json_source::key_read(json_shown::behind(src, j), rest)->Ok_0;
            pairs_shown(
                schema,
                ropts,
                asks2,
                more,
                desc,
                field,
                key_type,
                ty,
                value::dict_set(before, key, v),
                entries,
                es,
                src2,
                rest2,
                depth,
            )
        }),
        es.len() == 0 ==> value::dict_set(before, key, v) == entries && asks2 == more,
    ensures
        pairs_shown(
            schema,
            ropts,
            asks,
            more,
            desc,
            field,
            key_type,
            ty,
            before,
            entries,
            seq![(t, j)] + es,
            src,
            rest,
            depth,
        ),
{
    reveal(item_shown);
    reveal(pairs_shown);
    assert((seq![(t, j)] + es).skip(1) =~= es);
}

/// The text of a map key.
#[verifier::opaque]
spec fn key_text(key_type: ScalarType, key: Val) -> Seq<char> {
    json_serialize::map_key_text(key_type, key, seq![])->Ok_0.0
}

/// Whether members have the keys of the entries of a map from `i` on, which are different.
#[verifier::opaque]
spec fn pairs_keyed(
    key_type: ScalarType,
    entries: Seq<(Val, Val)>,
    i: int,
    es: Seq<(Seq<char>, Json)>,
) -> bool {
    &&& json_shown::distinct_keys(es)
    &&& forall|k: int|
        0 <= k < es.len() ==> (#[trigger] es[k]).0 == key_text(key_type, entries[i + k].0)
}

/// The keys of the entries of a map from one on are different.
proof fn lemma_pair_keys(
    schema: Schema,
    wopts: JsonOpts,
    ropts: FromJsonOpts,
    key_type: ScalarType,
    ty: DescSingleValue,
    entries: Seq<(Val, Val)>,
    i: int,
    j: Json,
    es1: Seq<(Seq<char>, Json)>,
    depth: nat,
)
    requires
        0 <= i < entries.len(),
        entries_ok(schema, wopts, ropts, key_type, ty, entries, depth),
        es1.len() == entries.len() - i - 1,
        pairs_keyed(key_type, entries, i + 1, es1),
    ensures
        pairs_keyed(
            key_type,
            entries,
            i,
            seq![(key_text(key_type, entries[i].0), j)] + es1,
        ),
{
    reveal(pairs_keyed);
    reveal(entries_ok);
    let es = seq![(key_text(key_type, entries[i].0), j)] + es1;
    assert forall|k: int| 0 <= k < es.len() implies (#[trigger] es[k]).0 == key_text(
        key_type,
        entries[i + k].0,
    ) by {
        if k > 0 {
            assert(es[k] == es1[k - 1]);
            assert(entries[i + k] == entries[i + 1 + (k - 1)]);
        }
    }
    assert forall|a: int, b: int| 0 <= a < b < es.len() implies (#[trigger] es[a]).0 != (
    #[trigger] es[b]).0 by {
        if a > 0 {
            assert(es[a] == es1[a - 1] && es[b] == es1[b - 1]);
        } else if es[a].0 == es[b].0 {
            let key = entries[i].0;
            let other = entries[i + b].0;
            let desc = arbitrary::<DescMessage>();
            let field = arbitrary::<DescField>();
            assert(key_ok(key_type, entries[i].0) && key_ok(key_type, entries[i + b].0));
            reveal(key_text);
            lemma_map_key_read_back(key_type, key, seq![], seq![], desc, field);
            lemma_map_key_read_back(key_type, other, seq![], seq![], desc, field);
            assert(other == key);
            assert(!value::same_key(entries[i].0, entries[i + b].0));
            assert(value::same_key(key, other));
        }
    }
}

/// The entries of a map read back.
#[verifier::spinoff_prover]
#[verifier::rlimit(40)]
proof fn lemma_pairs(
    schema: Schema,
    wopts: JsonOpts,
    is_text: bool,
    ropts: FromJsonOpts,
    texts: NumberTexts,
    asks: Seq<Ans>,
    more: Seq<Ans>,
    desc: DescMessage,
    field: DescField,
    key_type: ScalarType,
    ty: DescSingleValue,
    entries: Seq<(Val, Val)>,
    i: int,
    src: SrcState,
    rest: Seq<(Val, Val)>,
    depth: nat,
)
    requires
        trip_ok(schema, wopts, is_text, ropts, texts, asks),
        depth <= json_parse::DEPTH_LIMIT,
        0 <= i <= entries.len(),
        entries_ok(schema, wopts, ropts, key_type, ty, entries, depth),
        pairs_written(schema, wopts, is_text, key_type, ty, entries, i, asks) is Ok,
    ensures
        ({
            let (es, n) = pairs_written(
                schema,
                wopts,
                is_text,
                key_type,
                ty,
                entries,
                i,
                asks,
            )->Ok_0;
            &&& n <= asks.len()
            &&& es.len() == entries.len() - i
            &&& pairs_keyed(key_type, entries, i, es)
            &&& forall|k: int| 0 <= k < es.len() ==> json_shown::well_written(texts, (#[trigger] es[k]).1)
            &&& pairs_shown(
                schema,
                ropts,
                pairs_given(schema, wopts, is_text, key_type, ty, entries, i, asks) + more,
                more,
                desc,
                field,
                key_type,
                ty,
                entries.take(i),
                entries,
                es,
                src,
                rest,
                depth,
            )
        }),
    decreases asks.len(), entries, 3nat, entries.len() - i,
{
    if i == entries.len() {
        reveal(pairs_written);
        reveal(pairs_keyed);
        reveal(pairs_shown);
    } else {
        let key = entries[i].0;
        let v = entries[i].1;
        let t = key_text(key_type, key);
        lemma_entry_ok(schema, wopts, ropts, key_type, ty, entries, i, depth);
        lemma_pairs_written(schema, wopts, is_text, ropts, key_type, ty, entries, i, asks, depth);
        let (j, n) = single_written(schema, wopts, is_text, ty, v, asks)->Ok_0;
        let asks2 = json_sink::rest(asks, n);
        lemma_trip_rest(schema, wopts, is_text, ropts, texts, asks, n);
        let given1 = single_given(schema, wopts, is_text, ty, v, asks);
        let given2 = pairs_given(schema, wopts, is_text, key_type, ty, entries, i + 1, asks2);
        assert((given1 + given2) + more =~= given1 + (given2 + more));
        lemma_key_read(
            schema,
            wopts,
            ropts,
            key_type,
            ty,
            entries,
            i,
            given1 + (given2 + more),
            desc,
            field,
            depth,
        );
        lemma_single(
            schema,
            wopts,
            is_text,
            ropts,
            texts,
            asks,
            given2 + more,
            desc,
            field,
            ty,
            entries[i].1,
            true,
            src,
            depth,
        );
        let (rest2, _, src2) = json_source::key_read(json_shown::behind(src, j), rest)->Ok_0;
        lemma_pairs(
            schema,
            wopts,
            is_text,
            ropts,
            texts,
            asks2,
            more,
            desc,
            field,
            key_type,
            ty,
            entries,
            i + 1,
            src2,
            rest2,
            depth,
        );
        let es1 = pairs_written(
            schema,
            wopts,
            is_text,
            key_type,
            ty,
            entries,
            i + 1,
            asks2,
        )->Ok_0.0;
        lemma_pair_keys(schema, wopts, ropts, key_type, ty, entries, i, j, es1, depth);
        lemma_entry_prepended(texts, t, j, es1);
        if es1.len() == 0 {
            assert(entries.take(i + 1) =~= entries);
            lemma_pairs_end(schema, wopts, is_text, key_type, ty, entries, asks2);
            assert(given2 + more =~= more);
        }
        lemma_pairs_step(
            schema,
            ropts,
            given1 + (given2 + more),
            given2 + more,
            more,
            desc,
            field,
            key_type,
            ty,
            key,
            v,
            entries.take(i),
            entries,
            t,
            j,
            es1,
            src,
            rest,
            depth,
        );
    }
}

/// A member in front of well-written ones.
proof fn lemma_entry_prepended(texts: NumberTexts, key: Seq<char>, j: Json, es: Seq<(Seq<char>, Json)>)
    requires
        json_shown::well_written(texts, j),
        forall|k: int| 0 <= k < es.len() ==> json_shown::well_written(texts, (#[trigger] es[k]).1),
    ensures
        ({
            let all = seq![(key, j)] + es;
            &&& all.skip(1) == es
            &&& es.len() > 0 ==> all[1] == es[0]
            &&& forall|k: int| 0 <= k < all.len() ==> json_shown::well_written(texts, (#[trigger] all[k]).1)
        }),
{
    let all = seq![(key, j)] + es;
    assert(all.skip(1) =~= es);
    assert forall|k: int| 0 <= k < all.len() implies json_shown::well_written(
        texts,
        (#[trigger] all[k]).1,
    ) by {
        if k > 0 {
            assert(all[k] == es[k - 1]);
        }
    }
}

/// One step of reading the messages of a dictionary.
#[verifier::rlimit(40)]
proof fn lemma_named_step(
    schema: Schema,
    ropts: FromJsonOpts,
    asks: Seq<Ans>,
    asks2: Seq<Ans>,
    more: Seq<Ans>,
    m: Msg,
    before: Seq<(Val, Val)>,
    entries: Seq<(Val, Val)>,
    t: Seq<char>,
    j: Json,
    es: Seq<(Seq<char>, Json)>,
    src: SrcState,
    rest: Seq<(Val, Val)>,
    depth: nat,
)
    requires
        depth <= json_parse::DEPTH_LIMIT,
        message_shown(schema, ropts, asks, asks2, m, j, src, depth + 1),
        ({
            let (rest2, _, src2) = json_source::key_read(json_shown::behind(src, j), rest)->Ok_0;
            named_shown(
                schema,
                ropts,
                asks2,
                more,
                m.desc,
                value::dict_set(before, Val::Str(t), Val::Message(m)),
                entries,
                es,
                src2,
                rest2,
                depth,
            )
        }),
        es.len() == 0 ==> value::dict_set(before, Val::Str(t), Val::Message(m)) == entries && asks2
            == more,
    ensures
        named_shown(
            schema,
            ropts,
            asks,
            more,
            m.desc,
            before,
            entries,
            seq![(t, j)] + es,
            src,
            rest,
            depth,
        ),
{
    reveal(message_shown);
    reveal(named_shown);
    assert((seq![(t, j)] + es).skip(1) =~= es);
}

/// The messages of a dictionary read back.
#[verifier::spinoff_prover]
#[verifier::rlimit(40)]
proof fn lemma_named_messages(
    schema: Schema,
    wopts: JsonOpts,
    is_text: bool,
    ropts: FromJsonOpts,
    texts: NumberTexts,
    asks: Seq<Ans>,
    more: Seq<Ans>,
    message: usize,
    entries: Seq<(Val, Val)>,
    i: int,
    src: SrcState,
    rest: Seq<(Val, Val)>,
    depth: nat,
)
    requires
        trip_ok(schema, wopts, is_text, ropts, texts, asks),
        depth <= json_parse::DEPTH_LIMIT,
        0 <= i <= entries.len(),
        entries_ok(
            schema,
            wopts,
            ropts,
            ScalarType::String,
            DescSingleValue::Message(message),
            entries,
            depth,
        ),
        pairs_written(
            schema,
            wopts,
            is_text,
            ScalarType::String,
            DescSingleValue::Message(message),
            entries,
            i,
            asks,
        ) is Ok,
    ensures
        ({
            let (es, n) = pairs_written(
                schema,
                wopts,
                is_text,
                ScalarType::String,
                DescSingleValue::Message(message),
                entries,
                i,
                asks,
            )->Ok_0;
            &&& n <= asks.len()
            &&& es.len() == entries.len() - i
            &&& pairs_keyed(ScalarType::String, entries, i, es)
            &&& forall|k: int| 0 <= k < es.len() ==> json_shown::well_written(texts, (#[trigger] es[k]).1)
            &&& named_shown(
                schema,
                ropts,
                pairs_given(
                    schema,
                    wopts,
                    is_text,
                    ScalarType::String,
                    DescSingleValue::Message(message),
                    entries,
                    i,
                    asks,
                ) + more,
                more,
                message,
                entries.take(i),
                entries,
                es,
                src,
                rest,
                depth,
            )
        }),
    decreases asks.len(), entries, 3nat, entries.len() - i,
{
    if i == entries.len() {
        reveal(pairs_written);
        reveal(pairs_keyed);
        reveal(named_shown);
    } else {
        let key = entries[i].0;
        let v = entries[i].1;
        let t = key_text(ScalarType::String, key);
        lemma_entry_ok(
            schema,
            wopts,
            ropts,
            ScalarType::String,
            DescSingleValue::Message(message),
            entries,
            i,
            depth,
        );
        lemma_pairs_written(
            schema,
            wopts,
            is_text,
            ropts,
            ScalarType::String,
            DescSingleValue::Message(message),
            entries,
            i,
            asks,
            depth,
        );
        let (j, n) = single_written(schema, wopts, is_text, DescSingleValue::Message(message), v, asks)->Ok_0;
        let asks2 = json_sink::rest(asks, n);
        lemma_trip_rest(schema, wopts, is_text, ropts, texts, asks, n);
        let given1 = single_given(schema, wopts, is_text, DescSingleValue::Message(message), v, asks);
        let given2 = pairs_given(
            schema,
            wopts,
            is_text,
            ScalarType::String,
            DescSingleValue::Message(message),
            entries,
            i + 1,
            asks2,
        );
        assert((given1 + given2) + more =~= given1 + (given2 + more));
        lemma_single_message(schema, wopts, is_text, ropts, message, v, asks, depth);
        lemma_message(
            schema,
            wopts,
            is_text,
            ropts,
            texts,
            asks,
            given2 + more,
            entries[i].1->Message_0,
            src,
            depth + 1,
        );
        lemma_name_key(
            schema,
            wopts,
            ropts,
            DescSingleValue::Message(message),
            entries,
            i,
            depth,
        );
        let (rest2, _, src2) = json_source::key_read(json_shown::behind(src, j), rest)->Ok_0;
        lemma_named_messages(
            schema,
            wopts,
            is_text,
            ropts,
            texts,
            asks2,
            more,
            message,
            entries,
            i + 1,
            src2,
            rest2,
            depth,
        );
        let es1 = pairs_written(
            schema,
            wopts,
            is_text,
            ScalarType::String,
            DescSingleValue::Message(message),
            entries,
            i + 1,
            asks2,
        )->Ok_0.0;
        lemma_pair_keys(
            schema,
            wopts,
            ropts,
            ScalarType::String,
            DescSingleValue::Message(message),
            entries,
            i,
            j,
            es1,
            depth,
        );
        lemma_entry_prepended(texts, t, j, es1);
        if es1.len() == 0 {
            assert(entries.take(i + 1) =~= entries);
            lemma_pairs_end(
                schema,
                wopts,
                is_text,
                ScalarType::String,
                DescSingleValue::Message(message),
                entries,
                asks2,
            );
            assert(given2 + more =~= more);
        }
        lemma_named_step(
            schema,
            ropts,
            given1 + (given2 + more),
            given2 + more,
            more,
            v->Message_0,
            entries.take(i),
            entries,
            t,
            j,
            es1,
            src,
            rest,
            depth,
        );
    }
}

/// Reading the JSON form of a message gives the message back.
#[verifier::rlimit(40)]
proof fn lemma_message(
    schema: Schema,
    wopts: JsonOpts,
    is_text: bool,
    ropts: FromJsonOpts,
    texts: NumberTexts,
    asks: Seq<Ans>,
    more: Seq<Ans>,
    m: Msg,
    src: SrcState,
    depth: nat,
)
    requires
        trip_ok(schema, wopts, is_text, ropts, texts, asks),
        message_fine(schema, wopts, ropts, m, depth),
        message_written(schema, wopts, is_text, m, asks) is Ok,
    ensures
        message_back(schema, wopts, is_text, ropts, texts, asks, more, m, src, depth),
    decreases asks.len(), m, 9nat, 0nat,
{
    reveal(message_fine);
    reveal(message_written);
    reveal(trip_ok);
    let desc = schema.messages@[m.desc as int];
    assert(type_ok(schema, desc));
    match desc.wkt {
        WktKind::Ordinary | WktKind::FileDescriptorSet => lemma_plain_message(
            schema,
            wopts,
            is_text,
            ropts,
            texts,
            asks,
            more,
            m,
            src,
            depth,
        ),
        WktKind::Timestamp { .. } => lemma_timestamp_message(
            schema,
            wopts,
            is_text,
            ropts,
            texts,
            asks,
            more,
            m,
            src,
            depth,
        ),
        WktKind::Duration { .. } => lemma_duration_message(
            schema,
            wopts,
            is_text,
            ropts,
            texts,
            asks,
            more,
            m,
            src,
            depth,
        ),
        WktKind::FieldMask { .. } => lemma_mask_message(
            schema,
            wopts,
            is_text,
            ropts,
            texts,
            asks,
            more,
            m,
            src,
            depth,
        ),
        WktKind::Wrapper { .. } => lemma_wrapper_message(
            schema,
            wopts,
            is_text,
            ropts,
            texts,
            asks,
            more,
            m,
            src,
            depth,
        ),
        WktKind::Struct { .. } => lemma_struct_message(
            schema,
            wopts,
            is_text,
            ropts,
            texts,
            asks,
            more,
            m,
            src,
            depth,
        ),
        WktKind::ListValue { .. } => lemma_list_message(
            schema,
            wopts,
            is_text,
            ropts,
            texts,
            asks,
            more,
            m,
            src,
            depth,
        ),
        WktKind::Value { .. } => lemma_value_message(
            schema,
            wopts,
            is_text,
            ropts,
            texts,
            asks,
            more,
            m,
            src,
            depth,
        ),
        WktKind::Any { .. } => lemma_any_message(
            schema,
            wopts,
            is_text,
            ropts,
            texts,
            asks,
            more,
            m,
            src,
            depth,
        ),
    }
}

#[verifier::spinoff_prover]
#[verifier::rlimit(40)]
proof fn lemma_timestamp_message(
    schema: Schema,
    wopts: JsonOpts,
    is_text: bool,
    ropts: FromJsonOpts,
    texts: NumberTexts,
    asks: Seq<Ans>,
    more: Seq<Ans>,
    m: Msg,
    src: SrcState,
    depth: nat,
)
    requires
        trip_ok(schema, wopts, is_text, ropts, texts, asks),
        readable(schema, wopts, ropts, m, depth),
        json_serialize::message_json(schema, wopts, is_text, m, asks) is Ok,
        schema.messages@[m.desc as int].wkt is Timestamp,
    ensures
        message_back(schema, wopts, is_text, ropts, texts, asks, more, m, src, depth),
{
    reveal(message_written);
    reveal(message_given);
    reveal(trip_ok);
    reveal(message_shown);
    assert(Seq::<Ans>::empty() + more =~= more);
    let desc = schema.messages@[m.desc as int];
    assert(type_ok(schema, desc));
    match desc.wkt {
        WktKind::Timestamp { seconds, nanos } => {
            let s = json_serialize::int64_attr(m, seconds)->Ok_0;
            let n = json_serialize::int32_attr(m, nanos)->Ok_0;
            wkt_json::lemma_timestamp_read_back(desc.full_name@, s, n);
        },
        _ => {},
    }
}

#[verifier::spinoff_prover]
#[verifier::rlimit(40)]
proof fn lemma_duration_message(
    schema: Schema,
    wopts: JsonOpts,
    is_text: bool,
    ropts: FromJsonOpts,
    texts: NumberTexts,
    asks: Seq<Ans>,
    more: Seq<Ans>,
    m: Msg,
    src: SrcState,
    depth: nat,
)
    requires
        trip_ok(schema, wopts, is_text, ropts, texts, asks),
        readable(schema, wopts, ropts, m, depth),
        json_serialize::message_json(schema, wopts, is_text, m, asks) is Ok,
        schema.messages@[m.desc as int].wkt is Duration,
    ensures
        message_back(schema, wopts, is_text, ropts, texts, asks, more, m, src, depth),
{
    reveal(message_written);
    reveal(message_given);
    reveal(trip_ok);
    reveal(message_shown);
    assert(Seq::<Ans>::empty() + more =~= more);
    let desc = schema.messages@[m.desc as int];
    assert(type_ok(schema, desc));
    match desc.wkt {
        WktKind::Duration { seconds, nanos } => {
            let s = json_serialize::int64_attr(m, seconds)->Ok_0;
            let n = json_serialize::int32_attr(m, nanos)->Ok_0;
            wkt_json::lemma_duration_read_back(desc.full_name@, s, n);
        },
        _ => {},
    }
}

#[verifier::rlimit(40)]
proof fn lemma_mask_message(
    schema: Schema,
    wopts: JsonOpts,
    is_text: bool,
    ropts: FromJsonOpts,
    texts: NumberTexts,
    asks: Seq<Ans>,
    more: Seq<Ans>,
    m: Msg,
    src: SrcState,
    depth: nat,
)
    requires
        trip_ok(schema, wopts, is_text, ropts, texts, asks),
        readable(schema, wopts, ropts, m, depth),
        json_serialize::message_json(schema, wopts, is_text, m, asks) is Ok,
        schema.messages@[m.desc as int].wkt is FieldMask,
    ensures
        message_back(schema, wopts, is_text, ropts, texts, asks, more, m, src, depth),
{
    reveal(message_written);
    reveal(message_given);
    reveal(trip_ok);
    reveal(message_shown);
    assert(Seq::<Ans>::empty() + more =~= more);
    let desc = schema.messages@[m.desc as int];
    let empty = json_parse::empty_msg(schema, m.desc);
    assert(type_ok(schema, desc));
    match desc.wkt {
        WktKind::FieldMask { paths } => {
            let items = m.attrs[paths as int]->List_0;
            assert(m.attrs.len() == empty.attrs.len());
            let t = field_mask::mask_text(items)->Ok_0;
            field_mask::lemma_mask_read_back(desc.full_name@, items);
            assert(empty.attrs[paths as int] == Val::List(seq![]));
            assert(seq![] + items =~= items);
            if t.len() == 0 {
                assert(items =~= seq![]);
                assert(m.attrs =~= empty.attrs);
            }
        },
        _ => {},
    }
}

#[verifier::rlimit(40)]
proof fn lemma_wrapper_message(
    schema: Schema,
    wopts: JsonOpts,
    is_text: bool,
    ropts: FromJsonOpts,
    texts: NumberTexts,
    asks: Seq<Ans>,
    more: Seq<Ans>,
    m: Msg,
    src: SrcState,
    depth: nat,
)
    requires
        trip_ok(schema, wopts, is_text, ropts, texts, asks),
        readable(schema, wopts, ropts, m, depth),
        json_serialize::message_json(schema, wopts, is_text, m, asks) is Ok,
        schema.messages@[m.desc as int].wkt is Wrapper,
    ensures
        message_back(schema, wopts, is_text, ropts, texts, asks, more, m, src, depth),
{
    reveal(message_written);
    reveal(message_given);
    reveal(trip_ok);
    reveal(message_shown);
    assert(Seq::<Ans>::empty() + more =~= more);
    let desc = schema.messages@[m.desc as int];
    let empty = json_parse::empty_msg(schema, m.desc);
    assert(type_ok(schema, desc));
    match desc.wkt {
        WktKind::Wrapper { field, scalar } => {
            assert(m.attrs.len() == empty.attrs.len());
            lemma_scalar_read_back(
                is_text,
                texts,
                scalar,
                m.attrs[field as int],
                asks,
                src,
                more,
                desc,
                desc.fields@[field as int],
            );
        },
        _ => {},
    }
}

/// The JSON form of an `Any` that holds a message with the given JSON form.
spec fn any_form(ordinary: bool, url: Seq<char>, j: Json) -> Json {
    let type_entry = ("@type"@, Json::Str(url));
    if ordinary {
        Json::Object(j->Object_0.push(type_entry))
    } else {
        Json::Object(seq![type_entry, ("value"@, j)])
    }
}

/// The JSON form of an `Any` shows its type and what it holds.
#[verifier::rlimit(40)]
proof fn lemma_any_form(ordinary: bool, url: Seq<char>, texts: NumberTexts, j: Json, name: Seq<char>)
    requires
        url.len() > 0,
        json_shown::well_written(texts, j),
        ordinary ==> j is Object && forall|a: int|
            0 <= a < j->Object_0.len() ==> (#[trigger] j->Object_0[a]).0 != "@type"@,
    ensures
        ({
            let form = any_form(ordinary, url, j);
            let dict = json_sink::json_val(form)->Dict_0;
            &&& json_shown::well_written(texts, form)
            &&& json_sink::json_val(form) is Dict
            &&& dict.len() > 0
            &&& value::dict_index(dict, Val::Str("@type"@)) is Some
            &&& json_parse::any_url(name, dict) == Ok::<Seq<char>, Fault>(url)
            &&& json_parse::any_content(dict, ordinary) == json_sink::json_val(j)
        }),
{
    let form = any_form(ordinary, url, j);
    let entries = form->Object_0;
    reveal_strlit("@type");
    reveal_strlit("value");
    assert("@type"@[0] == '@' && "value"@[0] == 'v');
    let key = Val::Str("@type"@);
    if ordinary {
        let es = j->Object_0;
        assert forall|a: int, b: int| 0 <= a < b < entries.len() implies (#[trigger] entries[a]).0
            != (#[trigger] entries[b]).0 by {
            assert(entries[a] == es[a]);
            if b < es.len() {
                assert(entries[b] == es[b]);
            }
        }
        assert forall|i: int| 0 <= i < entries.len() implies json_shown::well_written(
            texts,
            (#[trigger] entries[i]).1,
        ) by {
            if i < es.len() {
                assert(entries[i] == es[i]);
            }
        }
        json_shown::lemma_entries_vals(entries);
        json_shown::lemma_entries_vals(es);
        let dict = json_shown::entries_dict(entries);
        assert forall|i: int| 0 <= i < es.len() implies !value::same_key(
            (#[trigger] dict[i]).0,
            key,
        ) by {
            assert(entries[i] == es[i]);
        }
        value::lemma_dict_index_is(dict, key, es.len() as int);
        assert(dict.remove(es.len() as int) =~= json_shown::entries_dict(es));
        assert(json_sink::json_val(form) == Val::Dict(dict));
        assert(json_sink::json_val(j) == Val::Dict(json_shown::entries_dict(es)));
        assert(dict[es.len() as int].1 == Val::Str(url));
    } else {
        assert(json_shown::distinct_keys(entries));
        assert forall|i: int| 0 <= i < entries.len() implies json_shown::well_written(
            texts,
            (#[trigger] entries[i]).1,
        ) by {
            assert(i == 0 || i == 1);
        }
        json_shown::lemma_entries_vals(entries);
        let dict = json_shown::entries_dict(entries);
        assert(json_sink::json_val(form) == Val::Dict(dict));
        assert(dict[0] == (Val::Str("@type"@), Val::Str(url)));
        assert(dict[1] == (Val::Str("value"@), json_sink::json_val(j)));
        value::lemma_dict_index_is(dict, key, 0);
        value::lemma_dict_index_is(dict, Val::Str("value"@), 1);
    }
}

/// An `Any` that holds a message is written as the form of that message, which the host unpacks.
#[verifier::rlimit(40)]
proof fn lemma_any_written(schema: Schema, wopts: JsonOpts, is_text: bool, m: Msg, asks: Seq<Ans>)
    requires
        m.desc < schema.messages@.len(),
        json_serialize::message_json(schema, wopts, is_text, m, asks) is Ok,
        schema.messages@[m.desc as int].wkt matches WktKind::Any { type_url, value } && {
            &&& type_url < m.attrs.len()
            &&& value < m.attrs.len()
            &&& m.attrs[type_url as int] matches Val::Str(url) && url.len() > 0
            &&& m.attrs[value as int] is Bytes
        },
    ensures
        ({
            let type_url = schema.messages@[m.desc as int].wkt->Any_type_url;
            let data = m.attrs[schema.messages@[m.desc as int].wkt->Any_value as int]->Bytes_0;
            let url = m.attrs[type_url as int]->Str_0;
            let asks2 = json_sink::rest(asks, 1);
            let msg = asks[0]->Message_0;
            let written = json_serialize::message_json(schema, wopts, is_text, msg, asks2);
            &&& asks.len() > 0
            &&& asks[0] is Message
            &&& json_parse::registered(wopts.registry, json_parse::url_name(url)) == Some(msg.desc)
            &&& msg.desc < schema.messages@.len()
            &&& written is Ok
            &&& json_serialize::message_json(schema, wopts, is_text, m, asks) == Ok::<
                (Json, nat),
                Fault,
            >(
                (
                    any_form(
                        schema.messages@[msg.desc as int].wkt is Ordinary,
                        url,
                        written->Ok_0.0,
                    ),
                    written->Ok_0.1 + 1,
                ),
            )
            &&& replies::message_replies(schema, wopts, is_text, m, asks)
                == replies::message_replies(schema, wopts, is_text, msg, asks2).push(
                AnswerOf::Bytes(data),
            )
        }),
{
    match schema.messages@[m.desc as int].wkt {
        WktKind::Any { type_url, value } => {
            let url = m.attrs[type_url as int]->Str_0;
            let msg = asks[0]->Message_0;
            let asks2 = json_sink::rest(asks, 1);
            assert(json_serialize::any_json(schema, wopts, is_text, m, type_url, value, asks)
                == json_serialize::any_content_json(schema, wopts, is_text, url, msg, asks2));
        },
        _ => {},
    }
}

#[verifier::spinoff_prover]
#[verifier::rlimit(60)]
proof fn lemma_any_message(
    schema: Schema,
    wopts: JsonOpts,
    is_text: bool,
    ropts: FromJsonOpts,
    texts: NumberTexts,
    asks: Seq<Ans>,
    more: Seq<Ans>,
    m: Msg,
    src: SrcState,
    depth: nat,
)
    requires
        trip_ok(schema, wopts, is_text, ropts, texts, asks),
        readable(schema, wopts, ropts, m, depth),
        json_serialize::message_json(schema, wopts, is_text, m, asks) is Ok,
        schema.messages@[m.desc as int].wkt is Any,
    ensures
        message_back(schema, wopts, is_text, ropts, texts, asks, more, m, src, depth),
    decreases asks.len(), m, 8nat, 0nat,
{
    reveal(message_fine);
    reveal(message_written);
    reveal(message_given);
    reveal(trip_ok);
    reveal(message_shown);
    let desc = schema.messages@[m.desc as int];
    let empty = json_parse::empty_msg(schema, m.desc);
    assert(type_ok(schema, desc));
    match desc.wkt {
        WktKind::Any { type_url, value } => {
            if m == empty {
                assert(m.attrs[type_url as int] == Val::Str(seq![]));
                assert(Seq::<Ans>::empty() + more =~= more);
            } else {
                assert(m.attrs.len() == empty.attrs.len());
                let url = m.attrs[type_url as int]->Str_0;
                let data = m.attrs[value as int]->Bytes_0;
                assert(url.len() > 0) by {
                    reveal_strlit("type.googleapis.com/");
                }
                lemma_any_written(schema, wopts, is_text, m, asks);
                let msg = asks[0]->Message_0;
                let inner = schema.messages@[msg.desc as int];
                let ordinary = inner.wkt is Ordinary;
                let asks2 = json_sink::rest(asks, 1);
                let j1 = json_serialize::message_json(schema, wopts, is_text, msg, asks2)->Ok_0.0;
                let j = any_form(ordinary, url, j1);
                lemma_trip_rest(schema, wopts, is_text, ropts, texts, asks, 1);
                let packed = seq![AnswerOf::<Seq<char>, Val, Msg, Seq<u8>, int>::Bytes(data)];
                let content = SrcState::Tree(Some(json_sink::json_val(j1)));
                let given = replies::message_replies(schema, wopts, is_text, msg, asks2);
                assert(given.push(AnswerOf::Bytes(data)) + more =~= given + (packed + more));
                assert(readable(schema, wopts, ropts, msg, 1));
                lemma_message(
                    schema,
                    wopts,
                    is_text,
                    ropts,
                    texts,
                    asks2,
                    packed + more,
                    msg,
                    content,
                    1,
                );
                if ordinary {
                    let es = j1->Object_0;
                    assert forall|a: int| 0 <= a < es.len() implies (#[trigger] es[a]).0
                        != "@type"@ by {
                        assert(member_key(inner, es[a].0));
                        reveal_strlit("@type");
                        assert("@type"@[0] == '@');
                    }
                }
                lemma_any_form(ordinary, url, texts, j1, desc.full_name@);
                json_shown::lemma_well_written(texts, j);
                json_shown::lemma_tree_shows(texts, j1);
                if json_shown::shows(src, j) {
                    let dict = json_sink::json_val(j)->Dict_0;
                    json_shown::lemma_shown_value(src, j);
                    json_parse::lemma_any_content(dict, ordinary);
                    assert((packed + more)[0] == AnswerOf::<
                        Seq<char>,
                        Val,
                        Msg,
                        Seq<u8>,
                        int,
                    >::Bytes(data));
                    assert((packed + more).skip(1) =~= more);
                    assert(m == json_parse::set_attr(
                        json_parse::set_attr(empty, type_url as int, Val::Str(url)),
                        value as int,
                        Val::Bytes(data),
                    ));
                }
            }
        },
        _ => {},
    }
}

#[verifier::rlimit(40)]
proof fn lemma_struct_message(
    schema: Schema,
    wopts: JsonOpts,
    is_text: bool,
    ropts: FromJsonOpts,
    texts: NumberTexts,
    asks: Seq<Ans>,
    more: Seq<Ans>,
    m: Msg,
    src: SrcState,
    depth: nat,
)
    requires
        trip_ok(schema, wopts, is_text, ropts, texts, asks),
        readable(schema, wopts, ropts, m, depth),
        json_serialize::message_json(schema, wopts, is_text, m, asks) is Ok,
        schema.messages@[m.desc as int].wkt is Struct,
    ensures
        message_back(schema, wopts, is_text, ropts, texts, asks, more, m, src, depth),
    decreases asks.len(), m, 8nat, 0nat,
{
    reveal(pairs_written);
    reveal(pairs_given);
    reveal(pairs_keyed);
    reveal(message_written);
    reveal(message_given);
    reveal(entries_ok);
    reveal(trip_ok);
    reveal(message_shown);
    reveal(named_shown);
    let desc = schema.messages@[m.desc as int];
    let empty = json_parse::empty_msg(schema, m.desc);
    assert(type_ok(schema, desc));
    match desc.wkt {
        WktKind::Struct { fields } => {
            let message = json_parse::struct_value_type(schema, desc, fields)->Ok_0;
            let entries = m.attrs[fields as int]->Dict_0;
            assert(m.attrs.len() == empty.attrs.len());
            let (rest, _, inner) = json_source::object_read(src)->Ok_0;
            lemma_named_messages(
                schema,
                wopts,
                is_text,
                ropts,
                texts,
                asks,
                more,
                message,
                entries,
                0,
                inner,
                rest,
                depth,
            );
            let es = json_serialize::pairs_json(
                schema,
                wopts,
                is_text,
                ScalarType::String,
                DescSingleValue::Message(message),
                entries,
                0,
                asks,
            )->Ok_0.0;
            assert(empty.attrs[fields as int] == Val::Dict(seq![]));
            assert(entries.take(0) =~= seq![]);
            if es.len() == 0 {
                assert(entries =~= seq![]);
                assert(m.attrs =~= empty.attrs);
                assert(Seq::<Ans>::empty() + more =~= more);
            }
        },
        _ => {},
    }
}

#[verifier::rlimit(40)]
proof fn lemma_list_message(
    schema: Schema,
    wopts: JsonOpts,
    is_text: bool,
    ropts: FromJsonOpts,
    texts: NumberTexts,
    asks: Seq<Ans>,
    more: Seq<Ans>,
    m: Msg,
    src: SrcState,
    depth: nat,
)
    requires
        trip_ok(schema, wopts, is_text, ropts, texts, asks),
        readable(schema, wopts, ropts, m, depth),
        json_serialize::message_json(schema, wopts, is_text, m, asks) is Ok,
        schema.messages@[m.desc as int].wkt is ListValue,
    ensures
        message_back(schema, wopts, is_text, ropts, texts, asks, more, m, src, depth),
    decreases asks.len(), m, 8nat, 0nat,
{
    reveal(items_written);
    reveal(items_given);
    reveal(single_fine);
    reveal(message_written);
    reveal(message_given);
    reveal(trip_ok);
    reveal(message_shown);
    reveal(messages_shown);
    let desc = schema.messages@[m.desc as int];
    let empty = json_parse::empty_msg(schema, m.desc);
    assert(type_ok(schema, desc));
    match desc.wkt {
        WktKind::ListValue { values } => {
            let message = json_parse::list_element_type(schema, desc, values)->Ok_0;
            let items = m.attrs[values as int]->List_0;
            assert(m.attrs.len() == empty.attrs.len());
            let (rest, _, inner) = json_source::array_read(src)->Ok_0;
            lemma_messages(
                schema,
                wopts,
                is_text,
                ropts,
                texts,
                asks,
                more,
                message,
                items,
                0,
                inner,
                rest,
                depth,
            );
            let js = json_serialize::items_json(
                schema,
                wopts,
                is_text,
                DescSingleValue::Message(message),
                items,
                0,
                asks,
            )->Ok_0.0;
            assert(empty.attrs[values as int] == Val::List(seq![]));
            assert(items.take(0) =~= seq![]);
            if js.len() == 0 {
                assert(items =~= seq![]);
                assert(m.attrs =~= empty.attrs);
                assert(Seq::<Ans>::empty() + more =~= more);
            }
        },
        _ => {},
    }
}

/// The names of the fields of a `Value` are different.
proof fn lemma_value_names()
    ensures
        "null_value"@ != "number_value"@ && "null_value"@ != "string_value"@ && "null_value"@
            != "bool_value"@ && "null_value"@ != "struct_value"@ && "null_value"@ != "list_value"@,
        "number_value"@ != "string_value"@ && "number_value"@ != "bool_value"@ && "number_value"@
            != "struct_value"@ && "number_value"@ != "list_value"@,
        "string_value"@ != "bool_value"@ && "string_value"@ != "struct_value"@ && "string_value"@
            != "list_value"@,
        "bool_value"@ != "struct_value"@ && "bool_value"@ != "list_value"@,
        "struct_value"@ != "list_value"@,
{
    reveal_strlit("null_value");
    reveal_strlit("number_value");
    reveal_strlit("string_value");
    reveal_strlit("bool_value");
    reveal_strlit("struct_value");
    reveal_strlit("list_value");
    assert("null_value"@.len() == 10 && "bool_value"@.len() == 10 && "list_value"@.len() == 10);
    assert("number_value"@.len() == 12 && "string_value"@.len() == 12 && "struct_value"@.len()
        == 12);
    assert("null_value"@[0] == 'n' && "bool_value"@[0] == 'b' && "list_value"@[0] == 'l');
    assert("number_value"@[3] == 'b' && "string_value"@[3] == 'i' && "struct_value"@[3] == 'u');
}

/// Reading a `Value`, given how the value in it is read.
proof fn lemma_value_step(
    schema: Schema,
    ropts: FromJsonOpts,
    asks: Seq<Ans>,
    more: Seq<Ans>,
    m: Msg,
    kind: JsonKind,
    name: Seq<char>,
    v: Val,
    src: SrcState,
    after: SrcState,
    depth: nat,
)
    requires
        depth <= json_parse::DEPTH_LIMIT,
        m.desc < schema.messages@.len(),
        value_type_ok(schema, schema.messages@[m.desc as int]),
        json_source::peeked(src) == Ok::<JsonKind, Fault>(kind),
        ({
            let desc = schema.messages@[m.desc as int];
            let empty = json_parse::empty_msg(schema, m.desc);
            let o = json_parse::value_oneof(empty, desc)->Ok_0;
            let field = desc.fields@[json_parse::value_field(kind, desc.wkt) as int];
            &&& m == (Msg { oneofs: empty.oneofs.update(o as int, m.oneofs[o as int]), ..empty })
            &&& o < m.oneofs.len()
            &&& m.oneofs[o as int] == Some((name, v))
            &&& field.name@ == name
            &&& json_parse::kind_reading(schema, ropts, kind, field, at(src, asks), depth) == Ok::<
                (Val, St),
                Fault,
            >((v, at(after, more)))
        }),
    ensures
        json_parse::message_reading(
            schema,
            ropts,
            json_parse::empty_msg(schema, m.desc),
            at(src, asks),
            depth,
        ) == (m, Ok::<St, Fault>(at(after, more))),
{
    let desc = schema.messages@[m.desc as int];
    let empty = json_parse::empty_msg(schema, m.desc);
    let i = json_parse::value_field(kind, desc.wkt);
    assert(i < desc.fields@.len());
    assert(json_parse::value_oneof(empty, desc) is Ok);
    assert(json_parse::value_message_reading(schema, ropts, empty, desc, at(src, asks), depth) == (
        m,
        Ok::<St, Fault>(at(after, more)),
    ));
}

/// What a `Value` is written as.
proof fn lemma_value_written(schema: Schema, wopts: JsonOpts, is_text: bool, m: Msg, asks: Seq<Ans>)
    requires
        m.desc < schema.messages@.len(),
        schema.messages@[m.desc as int].wkt is Value,
        json_serialize::message_json(schema, wopts, is_text, m, asks) is Ok,
    ensures
        ({
            let desc = schema.messages@[m.desc as int];
            let o = json_parse::value_oneof(m, desc)->Ok_0;
            &&& json_parse::value_oneof(m, desc) is Ok
            &&& m.oneofs[o as int] is Some
            &&& json_serialize::message_json(schema, wopts, is_text, m, asks)
                == json_serialize::kind_json(
                schema,
                wopts,
                is_text,
                desc,
                m.oneofs[o as int]->Some_0.0,
                m.oneofs[o as int]->Some_0.1,
                json_parse::value_field(JsonKind::Object, desc.wkt),
                json_parse::value_field(JsonKind::Array, desc.wkt),
                asks,
            )
        }),
{
}

#[verifier::rlimit(40)]
proof fn lemma_value_message(
    schema: Schema,
    wopts: JsonOpts,
    is_text: bool,
    ropts: FromJsonOpts,
    texts: NumberTexts,
    asks: Seq<Ans>,
    more: Seq<Ans>,
    m: Msg,
    src: SrcState,
    depth: nat,
)
    requires
        trip_ok(schema, wopts, is_text, ropts, texts, asks),
        readable(schema, wopts, ropts, m, depth),
        json_serialize::message_json(schema, wopts, is_text, m, asks) is Ok,
        schema.messages@[m.desc as int].wkt is Value,
    ensures
        message_back(schema, wopts, is_text, ropts, texts, asks, more, m, src, depth),
    decreases asks.len(), m, 8nat, 0nat,
{
    reveal(message_fine);
    reveal(message_written);
    reveal(message_given);
    reveal(trip_ok);
    reveal(message_shown);
    let desc = schema.messages@[m.desc as int];
    let empty = json_parse::empty_msg(schema, m.desc);
    assert(type_ok(schema, desc));
    lemma_value_names();
    lemma_value_written(schema, wopts, is_text, m, asks);
    let o = json_parse::value_oneof(empty, desc)->Ok_0;
    assert(json_parse::value_oneof(m, desc) == json_parse::value_oneof(empty, desc));
    let (name, v) = m.oneofs[o as int]->Some_0;
    assert(kind_ok(schema, wopts, ropts, desc, name, v, depth));
    let j = json_serialize::message_json(schema, wopts, is_text, m, asks)->Ok_0.0;
    let after = json_shown::behind(src, j);
    let all = replies::message_replies(schema, wopts, is_text, m, asks) + more;
    if name != "struct_value"@ && name != "list_value"@ {
        assert(all =~= more);
    }
    if name == "null_value"@ {
        if json_shown::shows(src, j) {
            lemma_value_step(schema, ropts, all, more, m, JsonKind::Null, name, v, src, after, depth);
        }
    } else if name == "number_value"@ {
        if json_shown::shows(src, j) {
            lemma_value_step(schema, ropts, all, more, m, JsonKind::Number, name, v, src, after, depth);
        }
    } else if name == "string_value"@ {
        if json_shown::shows(src, j) {
            lemma_value_step(schema, ropts, all, more, m, JsonKind::String, name, v, src, after, depth);
        }
    } else if name == "bool_value"@ {
        if json_shown::shows(src, j) {
            lemma_value_step(schema, ropts, all, more, m, JsonKind::Bool, name, v, src, after, depth);
        }
    } else {
        let kind = if name == "struct_value"@ {
            JsonKind::Object
        } else {
            JsonKind::Array
        };
        let field = desc.fields@[json_parse::value_field(kind, desc.wkt) as int];
        let message = field.value->message;
        assert(value_ok(schema, wopts, ropts, field.value, v, depth));
        assert(single_ok(
            schema,
            wopts,
            ropts,
            DescSingleValue::Message(message),
            v,
            depth,
        ));
        assert(json_serialize::single_json(
            schema,
            wopts,
            is_text,
            DescSingleValue::Message(message),
            v,
            asks,
        ) is Ok);
        lemma_written_message(schema, wopts, is_text, message, v, asks);
        assert(all == replies::message_replies(schema, wopts, is_text, v->Message_0, asks) + more) by {
            assert(json_serialize::single_type(field.value) == Some(
                DescSingleValue::Message(message),
            ));
            assert(replies::message_replies(schema, wopts, is_text, m, asks)
                == replies::kind_replies(
                schema,
                wopts,
                is_text,
                desc,
                name,
                v,
                json_parse::value_field(JsonKind::Object, desc.wkt),
                json_parse::value_field(JsonKind::Array, desc.wkt),
                asks,
            ));
            assert(replies::kind_replies(
                schema,
                wopts,
                is_text,
                desc,
                name,
                v,
                json_parse::value_field(JsonKind::Object, desc.wkt),
                json_parse::value_field(JsonKind::Array, desc.wkt),
                asks,
            ) == replies::single_replies(
                schema,
                wopts,
                is_text,
                DescSingleValue::Message(message),
                v,
                asks,
            ));
        }
        lemma_message(schema, wopts, is_text, ropts, texts, asks, more, v->Message_0, src, depth + 1);
        assert(message_back(schema, wopts, is_text, ropts, texts, asks, more, v->Message_0, src, depth + 1));
        if json_shown::shows(src, j) {
            lemma_value_step(schema, ropts, all, more, m, kind, name, v, src, after, depth);
        }
    }
}

/// A message with a field set to a value that was read for it.
spec fn placed(m: Msg, field: DescField, i: int, v: Val) -> Msg {
    if field.value is List || field.value is MapOf {
        json_parse::set_attr(m, i, v)
    } else {
        json_parse::assigned(m, field, i, v)->Ok_0
    }
}

/// Whether a message has a place for a field that was not set yet.
spec fn unset(schema: Schema, m: Msg, field: DescField, i: int) -> bool {
    match field.oneof {
        Some(o) => o < m.oneofs.len() && m.oneofs[o as int] is None && !(field.value is List) && !(
        field.value is MapOf),
        None => 0 <= i < m.attrs.len() && i < m.present.len() && m.attrs[i]
            == json_parse::default_attr(schema, field),
    }
}

/// Whether reading the JSON form of a field sets the field.
spec fn field_back(
    schema: Schema,
    wopts: JsonOpts,
    is_text: bool,
    ropts: FromJsonOpts,
    texts: NumberTexts,
    asks: Seq<Ans>,
    more: Seq<Ans>,
    desc: DescMessage,
    field: DescField,
    i: int,
    cur: Msg,
    v: Val,
    src: SrcState,
    depth: nat,
) -> bool {
    let (j, n) = field_written(schema, wopts, is_text, field.value, v, asks)->Ok_0;
    &&& n <= asks.len()
    &&& json_shown::well_written(texts, j)
    &&& field.value is Scalar ==> !(j is Null)
    &&& json_shown::shows(src, j) ==> json_parse::field_reading(
        schema,
        ropts,
        cur,
        desc,
        field,
        i,
        at(src, field_given(schema, wopts, is_text, field.value, v, asks) + more),
        depth,
    ) == (placed(cur, field, i, v), Ok::<St, Fault>(at(json_shown::behind(src, j), more)))
}

#[verifier::rlimit(40)]
proof fn lemma_field_single(
    schema: Schema,
    wopts: JsonOpts,
    is_text: bool,
    ropts: FromJsonOpts,
    texts: NumberTexts,
    asks: Seq<Ans>,
    more: Seq<Ans>,
    desc: DescMessage,
    field: DescField,
    i: int,
    cur: Msg,
    v: Val,
    src: SrcState,
    depth: nat,
)
    requires
        trip_ok(schema, wopts, is_text, ropts, texts, asks),
        depth <= json_parse::DEPTH_LIMIT,
        !(field.value is List) && !(field.value is MapOf),
        unset(schema, cur, field, i),
        value_ok(schema, wopts, ropts, field.value, v, depth),
        field_written(schema, wopts, is_text, field.value, v, asks) is Ok,
    ensures
        field_back(schema, wopts, is_text, ropts, texts, asks, more, desc, field, i, cur, v, src, depth),
    decreases asks.len(), v, 7nat, 0nat,
{
    reveal(field_written);
    reveal(field_given);
    reveal(message_written);
    reveal(message_given);
    reveal(message_fine);
    reveal(trip_ok);
    reveal(message_shown);
    match field.value {
        DescFieldValue::Scalar { scalar_type } => {
            lemma_scalar_read_back(is_text, texts, scalar_type, v, asks, src, more, desc, field);
            assert(Seq::<Ans>::empty() + more =~= more);
        },
        DescFieldValue::Enum { enum_ } => {
            lemma_enum_read_back(
                wopts,
                is_text,
                texts,
                schema.enums@[enum_ as int],
                v,
                asks,
                ropts.ignore_unknown_fields,
                src,
            );
            assert(Seq::<Ans>::empty() + more =~= more);
        },
        DescFieldValue::Message { message } => {
            lemma_written_message(schema, wopts, is_text, message, v, asks);
            lemma_message(schema, wopts, is_text, ropts, texts, asks, more, v->Message_0, src, depth + 1);
            assert(json_parse::held(schema, cur, field, i, message) == Ok::<Option<Msg>, Fault>(None));
        },
        _ => {},
    }
}

#[verifier::rlimit(40)]
proof fn lemma_field_list(
    schema: Schema,
    wopts: JsonOpts,
    is_text: bool,
    ropts: FromJsonOpts,
    texts: NumberTexts,
    asks: Seq<Ans>,
    more: Seq<Ans>,
    desc: DescMessage,
    field: DescField,
    i: int,
    cur: Msg,
    v: Val,
    src: SrcState,
    depth: nat,
)
    requires
        trip_ok(schema, wopts, is_text, ropts, texts, asks),
        depth <= json_parse::DEPTH_LIMIT,
        field.value is List,
        unset(schema, cur, field, i),
        value_ok(schema, wopts, ropts, field.value, v, depth),
        field_written(schema, wopts, is_text, field.value, v, asks) is Ok,
    ensures
        field_back(schema, wopts, is_text, ropts, texts, asks, more, desc, field, i, cur, v, src, depth),
    decreases asks.len(), v, 7nat, 0nat,
{
    reveal(items_written);
    reveal(items_given);
    reveal(single_fine);
    reveal(elements_shown);
    reveal(field_written);
    reveal(field_given);
    let element = field.value->element;
    let items = v->List_0;
    let (rest, _, inner) = json_source::array_read(src)->Ok_0;
    lemma_items(
        schema,
        wopts,
        is_text,
        ropts,
        texts,
        asks,
        more,
        desc,
        field,
        element,
        items,
        0,
        inner,
        rest,
        depth,
    );
    let js = json_serialize::items_json(
        schema,
        wopts,
        is_text,
        element,
        items,
        0,
        asks,
    )->Ok_0.0;
    assert(items.take(0) =~= seq![]);
    if js.len() == 0 {
        assert(items =~= seq![]);
        assert(json_parse::set_attr(cur, i, v).attrs =~= cur.attrs);
        assert(Seq::<Ans>::empty() + more =~= more);
    }
}

#[verifier::rlimit(40)]
proof fn lemma_field_map(
    schema: Schema,
    wopts: JsonOpts,
    is_text: bool,
    ropts: FromJsonOpts,
    texts: NumberTexts,
    asks: Seq<Ans>,
    more: Seq<Ans>,
    desc: DescMessage,
    field: DescField,
    i: int,
    cur: Msg,
    v: Val,
    src: SrcState,
    depth: nat,
)
    requires
        trip_ok(schema, wopts, is_text, ropts, texts, asks),
        depth <= json_parse::DEPTH_LIMIT,
        field.value is MapOf,
        unset(schema, cur, field, i),
        value_ok(schema, wopts, ropts, field.value, v, depth),
        field_written(schema, wopts, is_text, field.value, v, asks) is Ok,
    ensures
        field_back(schema, wopts, is_text, ropts, texts, asks, more, desc, field, i, cur, v, src, depth),
    decreases asks.len(), v, 7nat, 0nat,
{
    reveal(pairs_written);
    reveal(pairs_given);
    reveal(pairs_keyed);
    reveal(field_written);
    reveal(field_given);
    reveal(entries_ok);
    reveal(pairs_shown);
    let key_type = field.value->key_type;
    let ty = field.value->value;
    let entries = v->Dict_0;
    let (rest, _, inner) = json_source::object_read(src)->Ok_0;
    lemma_pairs(
        schema,
        wopts,
        is_text,
        ropts,
        texts,
        asks,
        more,
        desc,
        field,
        key_type,
        ty,
        entries,
        0,
        inner,
        rest,
        depth,
    );
    let es = json_serialize::pairs_json(
        schema,
        wopts,
        is_text,
        key_type,
        ty,
        entries,
        0,
        asks,
    )->Ok_0.0;
    assert(entries.take(0) =~= seq![]);
    if es.len() == 0 {
        assert(entries =~= seq![]);
        assert(json_parse::set_attr(cur, i, v).attrs =~= cur.attrs);
        assert(Seq::<Ans>::empty() + more =~= more);
    }
}

/// Whether a field before `i` is what a oneof holds.
spec fn member_before(desc: DescMessage, m: Msg, o: int, i: int) -> bool {
    m.oneofs[o] is Some && exists|k: int|
        k < i && #[trigger] is_member(desc, o, m.oneofs[o]->Some_0.0, k)
}

/// A message with the fields before `i` only, and without extension fields.
spec fn merged(schema: Schema, desc: DescMessage, m: Msg, i: int) -> Msg {
    Msg {
        desc: m.desc,
        attrs: Seq::new(
            desc.fields@.len(),
            |k: int|
                if k < i {
                    m.attrs[k]
                } else {
                    json_parse::default_attr(schema, desc.fields@[k])
                },
        ),
        present: Seq::new(desc.fields@.len(), |k: int| k < i && m.present[k]),
        oneofs: Seq::new(
            desc.oneof_count as nat,
            |o: int|
                if member_before(desc, m, o, i) {
                    m.oneofs[o]
                } else {
                    None
                },
        ),
        unknown: seq![],
    }
}

/// Whether a message of a type without a JSON form of its own is readable, and the type well
/// formed.
spec fn plain_ok(
    schema: Schema,
    wopts: JsonOpts,
    ropts: FromJsonOpts,
    desc: DescMessage,
    m: Msg,
    depth: nat,
) -> bool {
    &&& schema_ok(schema)
    &&& readable(schema, wopts, ropts, m, depth)
    &&& desc == schema.messages@[m.desc as int]
    &&& desc.wkt is Ordinary || desc.wkt is FileDescriptorSet
    &&& plain_type_ok(desc)
}

/// A message with the extension fields before `k` only.
spec fn extended(m: Msg, k: int) -> Msg {
    Msg { unknown: m.unknown.take(k), ..m }
}

/// All fields together are the message without its extension fields.
proof fn lemma_merged_all(
    schema: Schema,
    wopts: JsonOpts,
    ropts: FromJsonOpts,
    desc: DescMessage,
    m: Msg,
    depth: nat,
)
    requires
        plain_ok(schema, wopts, ropts, desc, m, depth),
    ensures
        merged(schema, desc, m, desc.fields@.len() as int) == extended(m, 0),
        merged(schema, desc, m, 0) == json_parse::empty_msg(schema, m.desc),
{
    let all = merged(schema, desc, m, desc.fields@.len() as int);
    let empty = json_parse::empty_msg(schema, m.desc);
    assert(all.attrs =~= m.attrs);
    assert(all.present =~= m.present);
    assert forall|o: int| 0 <= o < m.oneofs.len() implies all.oneofs[o] == m.oneofs[o] by {
        assert(oneof_ok(schema, wopts, ropts, desc, o, m.oneofs[o], depth));
        if m.oneofs[o] is Some {
            let name = m.oneofs[o]->Some_0.0;
            let k = choose|k: int|
                #[trigger] is_member(desc, o, name, k) && value_ok(
                    schema,
                    wopts,
                    ropts,
                    desc.fields@[k].value,
                    m.oneofs[o]->Some_0.1,
                    depth,
                );
            assert(is_member(desc, o, name, k));
        }
    }
    assert(all.oneofs =~= m.oneofs);
    assert(all.unknown =~= m.unknown.take(0));
    let none = merged(schema, desc, m, 0);
    assert(none.attrs =~= empty.attrs);
    assert(none.present =~= empty.present);
    assert(none.oneofs =~= empty.oneofs);
    assert(none.unknown =~= empty.unknown);
}

/// The value of a field that is written.
spec fn slot_value(m: Msg, slot: json_serialize::Slot, i: int) -> Val {
    match slot {
        json_serialize::Slot::Member(o) => m.oneofs[o as int]->Some_0.1,
        _ => m.attrs[i],
    }
}

/// Setting a field that is written gives the message with one field more; a field that is not
/// written is one that was not set.
#[verifier::rlimit(40)]
proof fn lemma_merged_step(
    schema: Schema,
    wopts: JsonOpts,
    ropts: FromJsonOpts,
    desc: DescMessage,
    m: Msg,
    i: int,
    depth: nat,
)
    requires
        plain_ok(schema, wopts, ropts, desc, m, depth),
        0 <= i < desc.fields@.len(),
    ensures
        ({
            let field = desc.fields@[i];
            let slot = json_serialize::field_slot(schema, wopts, m, field, i);
            let cur = merged(schema, desc, m, i);
            &&& slot is Ok
            &&& slot->Ok_0 is Absent ==> merged(schema, desc, m, i + 1) == cur
            &&& !(slot->Ok_0 is Absent) ==> {
                let v = slot_value(m, slot->Ok_0, i);
                &&& unset(schema, cur, field, i)
                &&& value_ok(schema, wopts, ropts, field.value, v, depth)
                &&& merged(schema, desc, m, i + 1) == placed(cur, field, i, v)
            }
        }),
{
    let field = desc.fields@[i];
    let cur = merged(schema, desc, m, i);
    let next = merged(schema, desc, m, i + 1);
    assert(field_ok(schema, wopts, ropts, field, m.attrs[i], m.present[i], depth));
    match field.oneof {
        Some(o) => {
            let o = o as int;
            assert(oneof_ok(schema, wopts, ropts, desc, o, m.oneofs[o], depth));
            assert(cur.attrs =~= next.attrs);
            assert(cur.present =~= next.present);
            let held = m.oneofs[o];
            let here = held is Some && held->Some_0.0 == field.local_name@;
            if here {
                let name = held->Some_0.0;
                assert(is_member(desc, o, name, i));
                let k = choose|k: int|
                    #[trigger] is_member(desc, o, name, k) && value_ok(
                        schema,
                        wopts,
                        ropts,
                        desc.fields@[k].value,
                        held->Some_0.1,
                        depth,
                    );
                assert(is_member(desc, o, name, k));
                assert(k == i);
                assert(!member_before(desc, m, o, i));
                assert(member_before(desc, m, o, i + 1));
            }
            assert forall|p: int| 0 <= p < desc.oneof_count implies #[trigger] next.oneofs[p]
                == if here && p == o {
                held
            } else {
                cur.oneofs[p]
            } by {
                lemma_member_before(desc, m, p, i);
            }
            if here {
                assert(next.oneofs =~= cur.oneofs.update(o, held));
            } else {
                assert(next.oneofs =~= cur.oneofs);
            }
        },
        None => {
            assert forall|p: int| 0 <= p < desc.oneof_count implies #[trigger] next.oneofs[p]
                == cur.oneofs[p] by {
                lemma_member_before(desc, m, p, i);
            }
            assert(next.oneofs =~= cur.oneofs);
            let slot = json_serialize::field_slot(schema, wopts, m, field, i)->Ok_0;
            if slot is Absent {
                assert(next.attrs =~= cur.attrs);
                assert(next.present =~= cur.present);
            } else {
                assert(next.attrs =~= cur.attrs.update(i, m.attrs[i]));
                assert(next.present =~= if field.requires_presence && !(field.value is List) && !(
                field.value is MapOf) {
                    cur.present.update(i, true)
                } else {
                    cur.present
                });
            }
        },
    }
}

/// One field more can make a difference to its own oneof only.
proof fn lemma_member_before(desc: DescMessage, m: Msg, o: int, i: int)
    requires
        0 <= o < m.oneofs.len(),
        0 <= i < desc.fields@.len(),
        m.oneofs.len() <= usize::MAX,
    ensures
        member_before(desc, m, o, i + 1) == (member_before(desc, m, o, i) || m.oneofs[o] is Some
            && is_member(desc, o, m.oneofs[o]->Some_0.0, i)),
{
    if m.oneofs[o] is Some {
        let name = m.oneofs[o]->Some_0.0;
        if member_before(desc, m, o, i + 1) {
            let k = choose|k: int| k < i + 1 && #[trigger] is_member(desc, o, name, k);
            assert(k < i || k == i);
        }
        if member_before(desc, m, o, i) {
            let k = choose|k: int| k < i && #[trigger] is_member(desc, o, name, k);
            assert(k < i + 1 && is_member(desc, o, name, k));
        }
    }
}

/// Whether a key is that of a field before `i`.
spec fn key_before(wopts: JsonOpts, desc: DescMessage, key: Seq<char>, i: int) -> bool {
    exists|k: int|
        0 <= k < i && k < desc.fields@.len() && key == json_serialize::field_key(
            wopts,
            #[trigger] desc.fields@[k],
        )
}

/// Whether the keys that were seen are those of fields before `i`.
spec fn seen_ok(wopts: JsonOpts, desc: DescMessage, m: Msg, seen: SeenKeys, i: int) -> bool {
    &&& forall|a: int|
        0 <= a < seen.keys.len() ==> key_before(wopts, desc, #[trigger] seen.keys[a], i)
    &&& forall|a: int| 0 <= a < seen.fields.len() ==> (#[trigger] seen.fields[a]).0 < i
    &&& forall|a: int|
        0 <= a < seen.oneofs.len() ==> member_before(
            desc,
            m,
            (#[trigger] seen.oneofs[a]).0 as int,
            i,
        )
}

proof fn lemma_seen_with(seen: Seq<(usize, Seq<char>)>, i: usize)
    requires
        forall|a: int| 0 <= a < seen.len() ==> (#[trigger] seen[a]).0 != i,
    ensures
        json_parse::seen_with(seen, i) is None,
    decreases seen.len(),
{
    if seen.len() > 0 {
        let rest = seen.skip(1);
        assert forall|a: int| 0 <= a < rest.len() implies (#[trigger] rest[a]).0 != i by {
            assert(rest[a] == seen[a + 1]);
        }
        lemma_seen_with(rest, i);
    }
}

/// A key names one field.
proof fn lemma_key_field(wopts: JsonOpts, desc: DescMessage, i: int)
    requires
        plain_type_ok(desc),
        0 <= i < desc.fields@.len(),
    ensures
        ({
            let entry = descriptor::name_index(
                desc.json_names@,
                json_serialize::field_key(wopts, desc.fields@[i]),
            );
            entry is Some && desc.json_names@[entry->Some_0].1 == i
        }),
{
    assert(keys_ok(desc, i));
}

/// Later fields leave what was seen as it is.
proof fn lemma_seen_more(wopts: JsonOpts, desc: DescMessage, m: Msg, seen: SeenKeys, i: int)
    requires
        seen_ok(wopts, desc, m, seen, i),
    ensures
        seen_ok(wopts, desc, m, seen, i + 1),
{
    assert forall|a: int| 0 <= a < seen.keys.len() implies key_before(
        wopts,
        desc,
        #[trigger] seen.keys[a],
        i + 1,
    ) by {
        assert(key_before(wopts, desc, seen.keys[a], i));
    }
    assert forall|a: int| 0 <= a < seen.oneofs.len() implies member_before(
        desc,
        m,
        (#[trigger] seen.oneofs[a]).0 as int,
        i + 1,
    ) by {
        assert(member_before(desc, m, seen.oneofs[a].0 as int, i));
    }
}

/// Reading one member of the JSON object of a message.
#[verifier::rlimit(40)]
proof fn lemma_member(
    schema: Schema,
    wopts: JsonOpts,
    is_text: bool,
    ropts: FromJsonOpts,
    texts: NumberTexts,
    asks: Seq<Ans>,
    more: Seq<Ans>,
    desc: DescMessage,
    m: Msg,
    i: int,
    seen: SeenKeys,
    src: SrcState,
    depth: nat,
)
    requires
        plain_ok(schema, wopts, ropts, desc, m, depth),
        0 <= i < desc.fields@.len(),
        seen_ok(wopts, desc, m, seen, i),
        ({
            let field = desc.fields@[i];
            let slot = json_serialize::field_slot(schema, wopts, m, field, i)->Ok_0;
            &&& !(slot is Absent)
            &&& field_back(
                schema,
                wopts,
                is_text,
                ropts,
                texts,
                asks,
                more,
                desc,
                field,
                i,
                merged(schema, desc, m, i),
                slot_value(m, slot, i),
                src,
                depth,
            )
            &&& json_shown::shows(
                src,
                field_written(
                    schema,
                    wopts,
                    is_text,
                    field.value,
                    slot_value(m, slot, i),
                    asks,
                )->Ok_0.0,
            )
        }),
    ensures
        ({
            let field = desc.fields@[i];
            let slot = json_serialize::field_slot(schema, wopts, m, field, i)->Ok_0;
            let (j, n) = field_written(
                schema,
                wopts,
                is_text,
                field.value,
                slot_value(m, slot, i),
                asks,
            )->Ok_0;
            let (m2, seen2, out) = json_parse::member_reading(
                schema,
                ropts,
                merged(schema, desc, m, i),
                desc,
                at(
                    src,
                    field_given(
                        schema,
                        wopts,
                        is_text,
                        field.value,
                        slot_value(m, slot, i),
                        asks,
                    ) + more,
                ),
                json_serialize::field_key(wopts, field),
                seen,
                depth,
            );
            &&& m2 == merged(schema, desc, m, i + 1)
            &&& out == Ok::<St, Fault>(at(json_shown::behind(src, j), more))
            &&& seen_ok(wopts, desc, m, seen2, i + 1)
        }),
{
    let field = desc.fields@[i];
    let cur = merged(schema, desc, m, i);
    let slot = json_serialize::field_slot(schema, wopts, m, field, i)->Ok_0;
    let v = slot_value(m, slot, i);
    let j = field_written(schema, wopts, is_text, field.value, v, asks)->Ok_0.0;
    let key = json_serialize::field_key(wopts, field);
    lemma_merged_step(schema, wopts, ropts, desc, m, i, depth);
    lemma_key_field(wopts, desc, i);
    lemma_seen_more(wopts, desc, m, seen, i);
    assert(!seen.keys.contains(key)) by {
        if seen.keys.contains(key) {
            let a = choose|a: int| 0 <= a < seen.keys.len() && seen.keys[a] == key;
            assert(key_before(wopts, desc, seen.keys[a], i));
            let k = choose|k: int|
                0 <= k < i && k < desc.fields@.len() && key == json_serialize::field_key(
                    wopts,
                    #[trigger] desc.fields@[k],
                );
            lemma_key_field(wopts, desc, k);
        }
    }
    assert(key_before(wopts, desc, key, i + 1));
    lemma_seen_with(seen.fields, i as usize);
    if field.oneof is Some {
        let o = field.oneof->Some_0;
        assert forall|a: int| 0 <= a < seen.oneofs.len() implies (#[trigger] seen.oneofs[a]).0
            != o by {
            assert(member_before(desc, m, seen.oneofs[a].0 as int, i));
            assert(cur.oneofs[o as int] is None);
        }
        lemma_seen_with(seen.oneofs, o);
        lemma_member_before(desc, m, o as int, i);
        assert(is_member(desc, o as int, m.oneofs[o as int]->Some_0.0, i));
        if field.value is Scalar {
            assert(!(json_source::peeked(src)->Ok_0 is Null));
        }
    }
}

/// The members of the fields from `i` on, and of the extension fields behind them.
#[verifier::opaque]
spec fn members_from(
    schema: Schema,
    wopts: JsonOpts,
    is_text: bool,
    m: Msg,
    desc: DescMessage,
    i: int,
    asks: Seq<Ans>,
) -> json_serialize::WrittenEntries {
    match json_serialize::fields_json(schema, wopts, is_text, m, desc, i as nat, asks) {
        Err(f) => Err(f),
        Ok((entries, n)) => match json_serialize::extensions_json(
            schema,
            wopts,
            is_text,
            m,
            desc,
            0,
            json_sink::rest(asks, n),
        ) {
            Err(f) => Err(f),
            Ok((others, k)) => Ok((entries + others, n + k)),
        },
    }
}

/// The members from a field on that is written.
#[verifier::rlimit(40)]
proof fn lemma_members_from(
    schema: Schema,
    wopts: JsonOpts,
    is_text: bool,
    m: Msg,
    desc: DescMessage,
    i: int,
    asks: Seq<Ans>,
)
    requires
        0 <= i < desc.fields@.len(),
        members_from(schema, wopts, is_text, m, desc, i, asks) is Ok,
        json_serialize::field_slot(schema, wopts, m, desc.fields@[i], i) is Ok,
        !(json_serialize::field_slot(schema, wopts, m, desc.fields@[i], i)->Ok_0 is Absent),
    ensures
        ({
            let field = desc.fields@[i];
            let slot = json_serialize::field_slot(schema, wopts, m, field, i)->Ok_0;
            let written = field_written(
                schema,
                wopts,
                is_text,
                field.value,
                slot_value(m, slot, i),
                asks,
            );
            let (j, n) = written->Ok_0;
            let after = members_from(
                schema,
                wopts,
                is_text,
                m,
                desc,
                i + 1,
                json_sink::rest(asks, n),
            );
            &&& written is Ok
            &&& after is Ok
            &&& members_from(schema, wopts, is_text, m, desc, i, asks) == Ok::<
                (Seq<(Seq<char>, Json)>, nat),
                Fault,
            >((seq![(json_serialize::field_key(wopts, field), j)] + after->Ok_0.0, n + after->Ok_0.1))
            &&& fields_given(schema, wopts, is_text, m, desc, i, asks) == field_given(
                schema,
                wopts,
                is_text,
                field.value,
                slot_value(m, slot, i),
                asks,
            ) + fields_given(schema, wopts, is_text, m, desc, i + 1, json_sink::rest(asks, n))
        }),
{
    reveal(field_written);
    reveal(field_given);
    reveal(fields_given);
    reveal(members_from);
    let field = desc.fields@[i];
    let slot = json_serialize::field_slot(schema, wopts, m, field, i)->Ok_0;
    let (j, n) = field_written(
        schema,
        wopts,
        is_text,
        field.value,
        slot_value(m, slot, i),
        asks,
    )->Ok_0;
    let asks2 = json_sink::rest(asks, n);
    let (es, k) = json_serialize::fields_json(
        schema,
        wopts,
        is_text,
        m,
        desc,
        (i + 1) as nat,
        asks2,
    )->Ok_0;
    json_sink::lemma_rest(asks, n, k);
    let first = seq![(json_serialize::field_key(wopts, field), j)];
    let others = json_serialize::extensions_json(
        schema,
        wopts,
        is_text,
        m,
        desc,
        0,
        json_sink::rest(asks2, k),
    )->Ok_0.0;
    assert((first + es) + others =~= first + (es + others));
}

/// The key of an extension field that is written.
spec fn unknown_key(wopts: JsonOpts, desc: DescMessage, m: Msg, k: int) -> Seq<char> {
    json_serialize::extension_key(json_serialize::extension_at(wopts, desc, m.unknown[k].0)->Some_0)
}

/// The JSON form of an extension field is well written, and no null.
#[verifier::rlimit(40)]
proof fn lemma_extension_written(
    schema: Schema,
    wopts: JsonOpts,
    is_text: bool,
    ropts: FromJsonOpts,
    texts: NumberTexts,
    asks: Seq<Ans>,
    more: Seq<Ans>,
    desc: DescMessage,
    ty: DescFieldValue,
    v: Val,
    src: SrcState,
    depth: nat,
)
    requires
        trip_ok(schema, wopts, is_text, ropts, texts, asks),
        depth <= json_parse::DEPTH_LIMIT,
        !(ty is MapOf),
        !nullable(schema, ty),
        value_ok(schema, wopts, ropts, ty, v, depth),
        json_serialize::field_json(schema, wopts, is_text, ty, v, asks) is Ok,
    ensures
        ({
            let (j, n) = json_serialize::field_json(schema, wopts, is_text, ty, v, asks)->Ok_0;
            &&& n <= asks.len()
            &&& json_shown::well_written(texts, j)
            &&& !(j is Null)
        }),
    decreases asks.len(), v, 7nat, 0nat,
{
    reveal(items_written);
    reveal(items_given);
    reveal(single_fine);
    reveal(message_written);
    reveal(message_given);
    reveal(message_fine);
    reveal(trip_ok);
    let field = desc.fields@[0];
    match ty {
        DescFieldValue::Scalar { scalar_type } => lemma_scalar_read_back(
            is_text,
            texts,
            scalar_type,
            v,
            asks,
            src,
            more,
            desc,
            field,
        ),
        DescFieldValue::Enum { enum_ } => lemma_enum_read_back(
            wopts,
            is_text,
            texts,
            schema.enums@[enum_ as int],
            v,
            asks,
            ropts.ignore_unknown_fields,
            src,
        ),
        DescFieldValue::Message { message } => {
            lemma_written_message(schema, wopts, is_text, message, v, asks);
            lemma_message(
                schema,
                wopts,
                is_text,
                ropts,
                texts,
                asks,
                more,
                v->Message_0,
                src,
                depth + 1,
            );
        },
        DescFieldValue::List { element } => lemma_items(
            schema,
            wopts,
            is_text,
            ropts,
            texts,
            asks,
            more,
            desc,
            field,
            element,
            v->List_0,
            0,
            src,
            seq![],
            depth,
        ),
        _ => {},
    }
}

/// Taking out an extension field that is not there changes nothing.
proof fn lemma_not_removed(unknown: Seq<(u32, Val)>, number: u32)
    requires
        forall|a: int| 0 <= a < unknown.len() ==> (#[trigger] unknown[a]).0 != number,
    ensures
        json_parse::unknown_removed(unknown, number) == unknown,
    decreases unknown.len(),
{
    if unknown.len() > 0 {
        let head = unknown.drop_last();
        assert forall|a: int| 0 <= a < head.len() implies (#[trigger] head[a]).0 != number by {
            assert(head[a] == unknown[a]);
        }
        lemma_not_removed(head, number);
        assert(unknown.last() == unknown[unknown.len() - 1]);
        assert(head.push(unknown.last()) =~= unknown);
    }
}

/// Reading one extension field.
#[verifier::rlimit(40)]
proof fn lemma_extension_member(
    schema: Schema,
    wopts: JsonOpts,
    ropts: FromJsonOpts,
    more: Seq<Ans>,
    desc: DescMessage,
    m: Msg,
    k: int,
    seen: SeenKeys,
    j: Json,
    src: SrcState,
    depth: nat,
)
    requires
        plain_ok(schema, wopts, ropts, desc, m, depth),
        0 <= k < m.unknown.len(),
        !seen.keys.contains(unknown_key(wopts, desc, m, k)),
        json_shown::well_written(NumberTexts::Any, j),
        json_shown::shows(src, j),
        !(j is Null),
    ensures
        json_parse::member_reading(
            schema,
            ropts,
            extended(m, k),
            desc,
            at(src, seq![AnswerOf::Value(m.unknown[k].1)] + more),
            unknown_key(wopts, desc, m, k),
            seen,
            depth,
        ) == (
            extended(m, k + 1),
            (SeenKeys { keys: seen.keys.push(unknown_key(wopts, desc, m, k)), ..seen }),
            Ok::<St, Fault>(at(json_shown::behind(src, j), more)),
        ),
{
    let (number, v) = m.unknown[k];
    let cur = extended(m, k);
    assert(extension_ok(schema, wopts, ropts, desc, m.unknown[k], depth));
    json_shown::lemma_shown_value(src, j);
    assert(!(json_sink::json_val(j) is Null));
    assert forall|a: int| 0 <= a < cur.unknown.len() implies (#[trigger] cur.unknown[a]).0
        != number by {
        assert(cur.unknown[a] == m.unknown[a]);
        assert(m.unknown[a].0 != m.unknown[k].0);
    }
    lemma_not_removed(cur.unknown, number);
    assert(cur.unknown.push((number, v)) =~= extended(m, k + 1).unknown);
    let asks = seq![AnswerOf::Value(v)] + more;
    assert(asks[0] == AnswerOf::<Seq<char>, Val, Msg, Seq<u8>, int>::Value(v));
    assert(asks.skip(1) =~= more);
}

/// Different extension fields have different keys.
proof fn lemma_unknown_keys(
    schema: Schema,
    wopts: JsonOpts,
    ropts: FromJsonOpts,
    desc: DescMessage,
    m: Msg,
    a: int,
    b: int,
    depth: nat,
)
    requires
        plain_ok(schema, wopts, ropts, desc, m, depth),
        0 <= a < m.unknown.len(),
        0 <= b < m.unknown.len(),
        a != b,
    ensures
        unknown_key(wopts, desc, m, a) != unknown_key(wopts, desc, m, b),
{
    assert(extension_ok(schema, wopts, ropts, desc, m.unknown[a], depth));
    assert(extension_ok(schema, wopts, ropts, desc, m.unknown[b], depth));
    assert(m.unknown[a].0 != m.unknown[b].0);
}

/// Whether reading the extension fields from `k` on adds those fields.
spec fn extensions_back(
    schema: Schema,
    wopts: JsonOpts,
    is_text: bool,
    ropts: FromJsonOpts,
    texts: NumberTexts,
    asks: Seq<Ans>,
    more: Seq<Ans>,
    desc: DescMessage,
    m: Msg,
    k: int,
    seen: SeenKeys,
    src: SrcState,
    rest: Seq<(Val, Val)>,
    depth: nat,
) -> bool {
    let (es, n) = json_serialize::extensions_json(
        schema,
        wopts,
        is_text,
        m,
        desc,
        k as nat,
        asks,
    )->Ok_0;
    &&& n <= asks.len()
    &&& es.len() == m.unknown.len() - k
    &&& forall|a: int|
        0 <= a < es.len() ==> (#[trigger] es[a]).0 == unknown_key(wopts, desc, m, k + a)
            && json_shown::well_written(texts, es[a].1)
    &&& members_shown(
        schema,
        ropts,
        replies::extensions_replies(wopts, m, desc, k as nat) + more,
        more,
        desc,
        seen,
        extended(m, k),
        m,
        es,
        src,
        rest,
        depth,
    )
}

#[verifier::spinoff_prover]
#[verifier::rlimit(60)]
proof fn lemma_extensions(
    schema: Schema,
    wopts: JsonOpts,
    is_text: bool,
    ropts: FromJsonOpts,
    texts: NumberTexts,
    asks: Seq<Ans>,
    more: Seq<Ans>,
    desc: DescMessage,
    m: Msg,
    k: int,
    seen: SeenKeys,
    src: SrcState,
    rest: Seq<(Val, Val)>,
    depth: nat,
)
    requires
        trip_ok(schema, wopts, is_text, ropts, texts, asks),
        plain_ok(schema, wopts, ropts, desc, m, depth),
        0 <= k <= m.unknown.len(),
        forall|a: int, b: int|
            0 <= a < seen.keys.len() && k <= b < m.unknown.len() ==> #[trigger] seen.keys[a]
                != #[trigger] unknown_key(wopts, desc, m, b),
        json_serialize::extensions_json(schema, wopts, is_text, m, desc, k as nat, asks) is Ok,
    ensures
        extensions_back(
            schema,
            wopts,
            is_text,
            ropts,
            texts,
            asks,
            more,
            desc,
            m,
            k,
            seen,
            src,
            rest,
            depth,
        ),
    decreases asks.len(), m, 4nat, m.unknown.len() - k,
{
    reveal(members_shown);
    if k < m.unknown.len() {
        let v = m.unknown[k].1;
        assert(extension_ok(schema, wopts, ropts, desc, m.unknown[k], depth));
        let ext = json_serialize::extension_at(wopts, desc, m.unknown[k].0)->Some_0;
        let (j, n) = json_serialize::field_json(schema, wopts, is_text, ext.value, v, asks)->Ok_0;
        let asks2 = json_sink::rest(asks, n);
        lemma_trip_rest(schema, wopts, is_text, ropts, texts, asks, n);
        lemma_extension_written(
            schema,
            wopts,
            is_text,
            ropts,
            texts,
            asks,
            more,
            desc,
            ext.value,
            m.unknown[k].1,
            src,
            depth,
        );
        let key = unknown_key(wopts, desc, m, k);
        let seen2 = SeenKeys { keys: seen.keys.push(key), ..seen };
        assert forall|a: int, b: int|
            0 <= a < seen2.keys.len() && k + 1 <= b < m.unknown.len() implies #[trigger] seen2.keys[a]
            != #[trigger] unknown_key(wopts, desc, m, b) by {
            if a < seen.keys.len() {
                assert(seen2.keys[a] == seen.keys[a]);
            } else {
                lemma_unknown_keys(schema, wopts, ropts, desc, m, k, b, depth);
            }
        }
        let (rest2, _, src2) = json_source::key_read(json_shown::behind(src, j), rest)->Ok_0;
        lemma_extensions(
            schema,
            wopts,
            is_text,
            ropts,
            texts,
            asks2,
            more,
            desc,
            m,
            k + 1,
            seen2,
            src2,
            rest2,
            depth,
        );
        let es1 = json_serialize::extensions_json(
            schema,
            wopts,
            is_text,
            m,
            desc,
            (k + 1) as nat,
            asks2,
        )->Ok_0.0;
        let es = seq![(key, j)] + es1;
        assert(es == json_serialize::extensions_json(
            schema,
            wopts,
            is_text,
            m,
            desc,
            k as nat,
            asks,
        )->Ok_0.0);
        assert(es.skip(1) =~= es1);
        assert forall|a: int| 0 <= a < es.len() implies (#[trigger] es[a]).0 == unknown_key(
            wopts,
            desc,
            m,
            k + a,
        ) && json_shown::well_written(texts, es[a].1) by {
            if a > 0 {
                assert(es[a] == es1[a - 1]);
                assert(k + a == k + 1 + (a - 1));
            }
        }
        let after = replies::extensions_replies(wopts, m, desc, (k + 1) as nat);
        let first = seq![AnswerOf::<Seq<char>, Val, Msg, Seq<u8>, int>::Value(v)];
        assert((first + after) + more =~= first + (after + more));
        assert(m.unknown.take(m.unknown.len() as int) =~= m.unknown);
        if json_shown::shows_entries(src, rest, es) {
            json_shown::lemma_well_written(texts, j);
            assert(!seen.keys.contains(key)) by {
                if seen.keys.contains(key) {
                    let a = choose|a: int| 0 <= a < seen.keys.len() && seen.keys[a] == key;
                    assert(seen.keys[a] != unknown_key(wopts, desc, m, k));
                }
            }
            lemma_extension_member(
                schema,
                wopts,
                ropts,
                after + more,
                desc,
                m,
                k,
                seen,
                j,
                src,
                depth,
            );
        }
    }
}

/// Whether reading the members from field `i` on adds those fields and the extension fields.
spec fn fields_back(
    schema: Schema,
    wopts: JsonOpts,
    is_text: bool,
    ropts: FromJsonOpts,
    texts: NumberTexts,
    asks: Seq<Ans>,
    more: Seq<Ans>,
    desc: DescMessage,
    m: Msg,
    i: int,
    seen: SeenKeys,
    src: SrcState,
    rest: Seq<(Val, Val)>,
    depth: nat,
) -> bool {
    let (es, n) = members_from(schema, wopts, is_text, m, desc, i, asks)->Ok_0;
    let replies = fields_given(schema, wopts, is_text, m, desc, i, asks);
    &&& n <= asks.len()
    &&& json_shown::distinct_keys(es)
    &&& forall|a: int|
        0 <= a < es.len() ==> member_key(desc, (#[trigger] es[a]).0) && !key_before(
            wopts,
            desc,
            es[a].0,
            i,
        )
    &&& es.len() == 0 ==> merged(schema, desc, m, i) == m && replies == Seq::<Ans>::empty()
    &&& forall|a: int| 0 <= a < es.len() ==> json_shown::well_written(texts, (#[trigger] es[a]).1)
    &&& members_shown(
        schema,
        ropts,
        replies + more,
        more,
        desc,
        seen,
        merged(schema, desc, m, i),
        m,
        es,
        src,
        rest,
        depth,
    )
}

/// Behind all fields stand the extension fields.
#[verifier::rlimit(40)]
proof fn lemma_fields_end(
    schema: Schema,
    wopts: JsonOpts,
    is_text: bool,
    ropts: FromJsonOpts,
    texts: NumberTexts,
    asks: Seq<Ans>,
    more: Seq<Ans>,
    desc: DescMessage,
    m: Msg,
    seen: SeenKeys,
    src: SrcState,
    rest: Seq<(Val, Val)>,
    depth: nat,
)
    requires
        trip_ok(schema, wopts, is_text, ropts, texts, asks),
        plain_ok(schema, wopts, ropts, desc, m, depth),
        seen_ok(wopts, desc, m, seen, desc.fields@.len() as int),
        members_from(schema, wopts, is_text, m, desc, desc.fields@.len() as int, asks) is Ok,
    ensures
        fields_back(
            schema,
            wopts,
            is_text,
            ropts,
            texts,
            asks,
            more,
            desc,
            m,
            desc.fields@.len() as int,
            seen,
            src,
            rest,
            depth,
        ),
    decreases asks.len(), m, 4nat, m.unknown.len() + 1,
{
    reveal(fields_given);
    reveal(members_from);
    let i = desc.fields@.len() as int;
    lemma_merged_all(schema, wopts, ropts, desc, m, depth);
    json_sink::lemma_rest(asks, 0, 0);
    let es = json_serialize::extensions_json(schema, wopts, is_text, m, desc, 0, asks)->Ok_0.0;
    assert(Seq::<(Seq<char>, Json)>::empty() + es =~= es);
    assert forall|a: int, b: int|
        0 <= a < seen.keys.len() && 0 <= b < m.unknown.len() implies #[trigger] seen.keys[a]
        != #[trigger] unknown_key(wopts, desc, m, b) by {
        assert(key_before(wopts, desc, seen.keys[a], i));
        lemma_unknown_key(schema, wopts, ropts, desc, m, b, i, depth);
    }
    lemma_extensions(
        schema,
        wopts,
        is_text,
        ropts,
        texts,
        asks,
        more,
        desc,
        m,
        0,
        seen,
        src,
        rest,
        depth,
    );
    assert forall|a: int| 0 <= a < es.len() implies member_key(desc, (#[trigger] es[a]).0)
        && !key_before(wopts, desc, es[a].0, i) by {
        lemma_unknown_key(schema, wopts, ropts, desc, m, a, i, depth);
    }
    assert forall|a: int, b: int| 0 <= a < b < es.len() implies (#[trigger] es[a]).0 != (
    #[trigger] es[b]).0 by {
        lemma_unknown_keys(schema, wopts, ropts, desc, m, a, b, depth);
    }
    if es.len() == 0 {
        assert(m.unknown.take(0) =~= m.unknown);
    }
}

/// The key of an extension field is in brackets, and not that of a field.
proof fn lemma_unknown_key(
    schema: Schema,
    wopts: JsonOpts,
    ropts: FromJsonOpts,
    desc: DescMessage,
    m: Msg,
    k: int,
    i: int,
    depth: nat,
)
    requires
        plain_ok(schema, wopts, ropts, desc, m, depth),
        0 <= k < m.unknown.len(),
    ensures
        member_key(desc, unknown_key(wopts, desc, m, k)),
        !key_before(wopts, desc, unknown_key(wopts, desc, m, k), i),
{
    let key = unknown_key(wopts, desc, m, k);
    assert(extension_ok(schema, wopts, ropts, desc, m.unknown[k], depth));
    assert(key[0] == '[');
    if key_before(wopts, desc, key, i) {
        let a = choose|a: int|
            0 <= a < i && a < desc.fields@.len() && key == json_serialize::field_key(
                wopts,
                #[trigger] desc.fields@[a],
            );
        lemma_key_field(wopts, desc, a);
    }
}

/// Reading the JSON form of a field sets the field.
proof fn lemma_field(
    schema: Schema,
    wopts: JsonOpts,
    is_text: bool,
    ropts: FromJsonOpts,
    texts: NumberTexts,
    asks: Seq<Ans>,
    more: Seq<Ans>,
    desc: DescMessage,
    field: DescField,
    i: int,
    cur: Msg,
    v: Val,
    src: SrcState,
    depth: nat,
)
    requires
        trip_ok(schema, wopts, is_text, ropts, texts, asks),
        depth <= json_parse::DEPTH_LIMIT,
        unset(schema, cur, field, i),
        value_ok(schema, wopts, ropts, field.value, v, depth),
        field_written(schema, wopts, is_text, field.value, v, asks) is Ok,
    ensures
        field_back(
            schema,
            wopts,
            is_text,
            ropts,
            texts,
            asks,
            more,
            desc,
            field,
            i,
            cur,
            v,
            src,
            depth,
        ),
    decreases asks.len(), v, 8nat, 0nat,
{
    if field.value is List {
        lemma_field_list(
            schema,
            wopts,
            is_text,
            ropts,
            texts,
            asks,
            more,
            desc,
            field,
            i,
            cur,
            v,
            src,
            depth,
        );
    } else if field.value is MapOf {
        lemma_field_map(
            schema,
            wopts,
            is_text,
            ropts,
            texts,
            asks,
            more,
            desc,
            field,
            i,
            cur,
            v,
            src,
            depth,
        );
    } else {
        lemma_field_single(
            schema,
            wopts,
            is_text,
            ropts,
            texts,
            asks,
            more,
            desc,
            field,
            i,
            cur,
            v,
            src,
            depth,
        );
    }
}

/// Reading one member of the JSON object of a message, where a source presents it: what is seen
/// then.
#[verifier::rlimit(40)]
proof fn lemma_member_read(
    schema: Schema,
    wopts: JsonOpts,
    is_text: bool,
    ropts: FromJsonOpts,
    texts: NumberTexts,
    asks: Seq<Ans>,
    more: Seq<Ans>,
    desc: DescMessage,
    m: Msg,
    i: int,
    seen: SeenKeys,
    src: SrcState,
    depth: nat,
) -> (seen2: SeenKeys)
    requires
        plain_ok(schema, wopts, ropts, desc, m, depth),
        0 <= i < desc.fields@.len(),
        seen_ok(wopts, desc, m, seen, i),
        ({
            let slot = json_serialize::field_slot(schema, wopts, m, desc.fields@[i], i)->Ok_0;
            &&& !(slot is Absent)
            &&& field_back(
                schema,
                wopts,
                is_text,
                ropts,
                texts,
                asks,
                more,
                desc,
                desc.fields@[i],
                i,
                merged(schema, desc, m, i),
                slot_value(m, slot, i),
                src,
                depth,
            )
        }),
    ensures
        seen_ok(wopts, desc, m, seen2, i + 1),
        ({
            let field = desc.fields@[i];
            let slot = json_serialize::field_slot(schema, wopts, m, field, i)->Ok_0;
            let v = slot_value(m, slot, i);
            member_shown(
                schema,
                ropts,
                field_given(schema, wopts, is_text, field.value, v, asks) + more,
                more,
                desc,
                seen,
                seen2,
                merged(schema, desc, m, i),
                merged(schema, desc, m, i + 1),
                json_serialize::field_key(wopts, field),
                field_written(schema, wopts, is_text, field.value, v, asks)->Ok_0.0,
                src,
                depth,
            )
        }),
{
    reveal(member_shown);
    let field = desc.fields@[i];
    let slot = json_serialize::field_slot(schema, wopts, m, field, i)->Ok_0;
    let v = slot_value(m, slot, i);
    let j = field_written(schema, wopts, is_text, field.value, v, asks)->Ok_0.0;
    if json_shown::shows(src, j) {
        lemma_member(
            schema,
            wopts,
            is_text,
            ropts,
            texts,
            asks,
            more,
            desc,
            m,
            i,
            seen,
            src,
            depth,
        );
        json_parse::member_reading(
            schema,
            ropts,
            merged(schema, desc, m, i),
            desc,
            at(src, field_given(schema, wopts, is_text, field.value, v, asks) + more),
            json_serialize::field_key(wopts, field),
            seen,
            depth,
        ).1
    } else {
        lemma_seen_more(wopts, desc, m, seen, i);
        seen
    }
}

#[verifier::spinoff_prover]
#[verifier::rlimit(40)]
proof fn lemma_fields(
    schema: Schema,
    wopts: JsonOpts,
    is_text: bool,
    ropts: FromJsonOpts,
    texts: NumberTexts,
    asks: Seq<Ans>,
    more: Seq<Ans>,
    desc: DescMessage,
    m: Msg,
    i: int,
    seen: SeenKeys,
    src: SrcState,
    rest: Seq<(Val, Val)>,
    depth: nat,
)
    requires
        trip_ok(schema, wopts, is_text, ropts, texts, asks),
        plain_ok(schema, wopts, ropts, desc, m, depth),
        0 <= i <= desc.fields@.len(),
        seen_ok(wopts, desc, m, seen, i),
        members_from(schema, wopts, is_text, m, desc, i, asks) is Ok,
    ensures
        fields_back(
            schema,
            wopts,
            is_text,
            ropts,
            texts,
            asks,
            more,
            desc,
            m,
            i,
            seen,
            src,
            rest,
            depth,
        ),
    decreases asks.len(), m, 5nat, desc.fields@.len() - i,
{
    if i == desc.fields@.len() {
        lemma_fields_end(
            schema,
            wopts,
            is_text,
            ropts,
            texts,
            asks,
            more,
            desc,
            m,
            seen,
            src,
            rest,
            depth,
        );
    } else {
        let field = desc.fields@[i];
        let slot = json_serialize::field_slot(schema, wopts, m, field, i)->Ok_0;
        lemma_merged_step(schema, wopts, ropts, desc, m, i, depth);
        if slot is Absent {
            lemma_seen_more(wopts, desc, m, seen, i);
            assert(members_from(schema, wopts, is_text, m, desc, i, asks) == members_from(
                schema,
                wopts,
                is_text,
                m,
                desc,
                i + 1,
                asks,
            )) by {
                reveal(members_from);
            }
            assert(fields_given(schema, wopts, is_text, m, desc, i, asks) == fields_given(
                schema,
                wopts,
                is_text,
                m,
                desc,
                i + 1,
                asks,
            )) by {
                reveal(fields_given);
            }
            lemma_fields(
                schema,
                wopts,
                is_text,
                ropts,
                texts,
                asks,
                more,
                desc,
                m,
                i + 1,
                seen,
                src,
                rest,
                depth,
            );
            lemma_keys_from(wopts, desc, i);
        } else {
            lemma_members_from(schema, wopts, is_text, m, desc, i, asks);
            let v = slot_value(m, slot, i);
            let cur = merged(schema, desc, m, i);
            let (j, n) = field_written(
                schema,
                wopts,
                is_text,
                field.value,
                v,
                asks,
            )->Ok_0;
            let asks2 = json_sink::rest(asks, n);
            lemma_trip_rest(schema, wopts, is_text, ropts, texts, asks, n);
            let after = fields_given(
                schema,
                wopts,
                is_text,
                m,
                desc,
                i + 1,
                asks2,
            ) + more;
            lemma_field(
                schema,
                wopts,
                is_text,
                ropts,
                texts,
                asks,
                after,
                desc,
                field,
                i,
                cur,
                v,
                src,
                depth,
            );
            let (rest2, _, src2) = json_source::key_read(json_shown::behind(src, j), rest)->Ok_0;
            let seen2 = lemma_member_read(
                schema,
                wopts,
                is_text,
                ropts,
                texts,
                asks,
                after,
                desc,
                m,
                i,
                seen,
                src,
                depth,
            );
            lemma_fields(
                schema,
                wopts,
                is_text,
                ropts,
                texts,
                asks2,
                more,
                desc,
                m,
                i + 1,
                seen2,
                src2,
                rest2,
                depth,
            );
            lemma_fields_step(
                schema,
                wopts,
                is_text,
                ropts,
                texts,
                asks,
                more,
                desc,
                m,
                i,
                seen,
                seen2,
                src,
                rest,
                depth,
            );
        }
    }
}

/// The key of a field is not that of a field before it.
proof fn lemma_keys_from(wopts: JsonOpts, desc: DescMessage, i: int)
    requires
        plain_type_ok(desc),
        0 <= i < desc.fields@.len(),
    ensures
        !key_before(wopts, desc, json_serialize::field_key(wopts, desc.fields@[i]), i),
        key_before(wopts, desc, json_serialize::field_key(wopts, desc.fields@[i]), i + 1),
        forall|key: Seq<char>|
            #[trigger] key_before(wopts, desc, key, i) ==> key_before(wopts, desc, key, i + 1),
{
    let key = json_serialize::field_key(wopts, desc.fields@[i]);
    if key_before(wopts, desc, key, i) {
        let k = choose|k: int|
            0 <= k < i && k < desc.fields@.len() && key == json_serialize::field_key(
                wopts,
                #[trigger] desc.fields@[k],
            );
        lemma_key_field(wopts, desc, k);
        lemma_key_field(wopts, desc, i);
    }
}

/// The keys of the members from a field on are different, and not those of fields before it.
proof fn lemma_member_keys(
    wopts: JsonOpts,
    desc: DescMessage,
    texts: NumberTexts,
    i: int,
    j: Json,
    es1: Seq<(Seq<char>, Json)>,
)
    requires
        plain_type_ok(desc),
        0 <= i < desc.fields@.len(),
        json_shown::well_written(texts, j),
        json_shown::distinct_keys(es1),
        forall|a: int|
            0 <= a < es1.len() ==> member_key(desc, (#[trigger] es1[a]).0) && !key_before(
                wopts,
                desc,
                es1[a].0,
                i + 1,
            ),
        forall|a: int|
            0 <= a < es1.len() ==> json_shown::well_written(texts, (#[trigger] es1[a]).1),
    ensures
        ({
            let es = seq![(json_serialize::field_key(wopts, desc.fields@[i]), j)] + es1;
            &&& json_shown::distinct_keys(es)
            &&& forall|a: int|
                0 <= a < es.len() ==> member_key(desc, (#[trigger] es[a]).0) && !key_before(
                    wopts,
                    desc,
                    es[a].0,
                    i,
                )
            &&& forall|a: int|
                0 <= a < es.len() ==> json_shown::well_written(texts, (#[trigger] es[a]).1)
        }),
{
    lemma_keys_from(wopts, desc, i);
    lemma_key_field(wopts, desc, i);
    let key = json_serialize::field_key(wopts, desc.fields@[i]);
    let es = seq![(key, j)] + es1;
    lemma_entry_prepended(texts, key, j, es1);
    assert forall|a: int| 0 <= a < es.len() implies member_key(desc, (#[trigger] es[a]).0)
        && !key_before(wopts, desc, es[a].0, i) by {
        if a > 0 {
            assert(es[a] == es1[a - 1]);
            assert(!key_before(wopts, desc, es1[a - 1].0, i + 1));
        }
    }
    assert forall|a: int, b: int| 0 <= a < b < es.len() implies (#[trigger] es[a]).0 != (
    #[trigger] es[b]).0 by {
        assert(es[b] == es1[b - 1]);
        assert(!key_before(wopts, desc, es1[b - 1].0, i + 1));
        if a > 0 {
            assert(es[a] == es1[a - 1]);
            assert(es1[a - 1].0 != es1[b - 1].0);
        }
    }
}

/// One step of reading the members of an object.
#[verifier::rlimit(40)]
proof fn lemma_members_step(
    schema: Schema,
    ropts: FromJsonOpts,
    asks: Seq<Ans>,
    asks2: Seq<Ans>,
    more: Seq<Ans>,
    desc: DescMessage,
    seen: SeenKeys,
    seen2: SeenKeys,
    before: Msg,
    before2: Msg,
    m: Msg,
    key: Seq<char>,
    j: Json,
    es: Seq<(Seq<char>, Json)>,
    src: SrcState,
    rest: Seq<(Val, Val)>,
    depth: nat,
)
    requires
        depth <= json_parse::DEPTH_LIMIT,
        member_shown(
            schema,
            ropts,
            asks,
            asks2,
            desc,
            seen,
            seen2,
            before,
            before2,
            key,
            j,
            src,
            depth,
        ),
        ({
            let (rest2, _, src2) = json_source::key_read(json_shown::behind(src, j), rest)->Ok_0;
            members_shown(
                schema,
                ropts,
                asks2,
                more,
                desc,
                seen2,
                before2,
                m,
                es,
                src2,
                rest2,
                depth,
            )
        }),
        es.len() == 0 ==> before2 == m && asks2 == more,
    ensures
        members_shown(
            schema,
            ropts,
            asks,
            more,
            desc,
            seen,
            before,
            m,
            seq![(key, j)] + es,
            src,
            rest,
            depth,
        ),
{
    reveal(member_shown);
    reveal(members_shown);
    assert((seq![(key, j)] + es).skip(1) =~= es);
}

#[verifier::spinoff_prover]
#[verifier::rlimit(40)]
proof fn lemma_fields_step(
    schema: Schema,
    wopts: JsonOpts,
    is_text: bool,
    ropts: FromJsonOpts,
    texts: NumberTexts,
    asks: Seq<Ans>,
    more: Seq<Ans>,
    desc: DescMessage,
    m: Msg,
    i: int,
    seen: SeenKeys,
    seen2: SeenKeys,
    src: SrcState,
    rest: Seq<(Val, Val)>,
    depth: nat,
)
    requires
        depth <= json_parse::DEPTH_LIMIT,
        plain_type_ok(desc),
        0 <= i < desc.fields@.len(),
        members_from(schema, wopts, is_text, m, desc, i, asks) is Ok,
        json_serialize::field_slot(schema, wopts, m, desc.fields@[i], i) is Ok,
        ({
            let field = desc.fields@[i];
            let slot = json_serialize::field_slot(schema, wopts, m, field, i)->Ok_0;
            let (j, n) = field_written(
                schema,
                wopts,
                is_text,
                field.value,
                slot_value(m, slot, i),
                asks,
            )->Ok_0;
            let (rest2, _, src2) = json_source::key_read(json_shown::behind(src, j), rest)->Ok_0;
            let asks2 = json_sink::rest(asks, n);
            let after = fields_given(
                schema,
                wopts,
                is_text,
                m,
                desc,
                i + 1,
                asks2,
            ) + more;
            &&& !(slot is Absent)
            &&& n <= asks.len()
            &&& json_shown::well_written(texts, j)
            &&& member_shown(
                schema,
                ropts,
                field_given(
                    schema,
                    wopts,
                    is_text,
                    field.value,
                    slot_value(m, slot, i),
                    asks,
                ) + after,
                after,
                desc,
                seen,
                seen2,
                merged(schema, desc, m, i),
                merged(schema, desc, m, i + 1),
                json_serialize::field_key(wopts, field),
                j,
                src,
                depth,
            )
            &&& fields_back(
                schema,
                wopts,
                is_text,
                ropts,
                texts,
                asks2,
                more,
                desc,
                m,
                i + 1,
                seen2,
                src2,
                rest2,
                depth,
            )
        }),
    ensures
        fields_back(schema, wopts, is_text, ropts, texts, asks, more, desc, m, i, seen, src, rest, depth),
{
    lemma_members_from(schema, wopts, is_text, m, desc, i, asks);
    let field = desc.fields@[i];
    let slot = json_serialize::field_slot(schema, wopts, m, field, i)->Ok_0;
    let v = slot_value(m, slot, i);
    let (j, n) = field_written(schema, wopts, is_text, field.value, v, asks)->Ok_0;
    let asks2 = json_sink::rest(asks, n);
    json_sink::lemma_rest(asks, n, 0);
    let replies1 = field_given(schema, wopts, is_text, field.value, v, asks);
    let replies2 = fields_given(
        schema,
        wopts,
        is_text,
        m,
        desc,
        i + 1,
        asks2,
    );
    assert(fields_given(schema, wopts, is_text, m, desc, i, asks) == replies1
        + replies2);
    assert((replies1 + replies2) + more =~= replies1 + (replies2 + more));
    let key = json_serialize::field_key(wopts, field);
    let es1 = members_from(schema, wopts, is_text, m, desc, i + 1, asks2)->Ok_0.0;
    let es = seq![(key, j)] + es1;
    assert(es == members_from(schema, wopts, is_text, m, desc, i, asks)->Ok_0.0);
    lemma_member_keys(wopts, desc, texts, i, j, es1);
    assert(Seq::<Ans>::empty() + more =~= more);
    lemma_members_step(
        schema,
        ropts,
        replies1 + (replies2 + more),
        replies2 + more,
        more,
        desc,
        seen,
        seen2,
        merged(schema, desc, m, i),
        merged(schema, desc, m, i + 1),
        m,
        key,
        j,
        es1,
        src,
        rest,
        depth,
    );
}

/// The members of a message are those from its first field on.
proof fn lemma_all_members(
    schema: Schema,
    wopts: JsonOpts,
    is_text: bool,
    ropts: FromJsonOpts,
    m: Msg,
    desc: DescMessage,
    asks: Seq<Ans>,
    depth: nat,
)
    requires
        plain_ok(schema, wopts, ropts, desc, m, depth),
        json_serialize::members_json(schema, wopts, is_text, m, desc, asks) is Ok,
    ensures
        members_from(schema, wopts, is_text, m, desc, 0, asks) == json_serialize::members_json(
            schema,
            wopts,
            is_text,
            m,
            desc,
            asks,
        ),
{
    reveal(members_from);
    if wopts.registry is None {
        if m.unknown.len() > 0 {
            assert(extension_ok(schema, wopts, ropts, desc, m.unknown[0], depth));
        }
        let es = json_serialize::fields_json(schema, wopts, is_text, m, desc, 0, asks)->Ok_0.0;
        assert(es + Seq::<(Seq<char>, Json)>::empty() =~= es);
    }
}

/// Reading the JSON form of a message of a type without a JSON form of its own.
#[verifier::rlimit(40)]
proof fn lemma_plain_message(
    schema: Schema,
    wopts: JsonOpts,
    is_text: bool,
    ropts: FromJsonOpts,
    texts: NumberTexts,
    asks: Seq<Ans>,
    more: Seq<Ans>,
    m: Msg,
    src: SrcState,
    depth: nat,
)
    requires
        trip_ok(schema, wopts, is_text, ropts, texts, asks),
        readable(schema, wopts, ropts, m, depth),
        json_serialize::message_json(schema, wopts, is_text, m, asks) is Ok,
        schema.messages@[m.desc as int].wkt is Ordinary || schema.messages@[m.desc as int].wkt
            is FileDescriptorSet,
    ensures
        message_back(schema, wopts, is_text, ropts, texts, asks, more, m, src, depth),
    decreases asks.len(), m, 8nat, 0nat,
{
    reveal(fields_given);
    reveal(message_written);
    reveal(message_given);
    reveal(trip_ok);
    reveal(message_shown);
    reveal(members_shown);
    let desc = schema.messages@[m.desc as int];
    assert(type_ok(schema, desc));
    json_sink::lemma_rest(asks, 0, 0);
    let none = SeenKeys { keys: seq![], fields: seq![], oneofs: seq![] };
    let (rest, _, inner) = json_source::object_read(src)->Ok_0;
    lemma_all_members(schema, wopts, is_text, ropts, m, desc, asks, depth);
    lemma_fields(schema, wopts, is_text, ropts, texts, asks, more, desc, m, 0, none, inner, rest, depth);
    assert(Seq::<Ans>::empty() + more =~= more);
    lemma_merged_all(schema, wopts, ropts, desc, m, depth);
}

/// What a message is written as is read back as that message, from whatever source presents it:
/// for a message that `readable` admits, of a well-formed schema, reading the JSON value into an
/// empty message of the same type gives the message again. The host's answers while the message
/// was written are any, if the messages that it unpacked are readable themselves; while it is
/// read, the host gives the bytes and the extension values back that it was handed. Answers
/// behind those are left as they are.
pub proof fn lemma_message_read_back(
    schema: Schema,
    wopts: JsonOpts,
    is_text: bool,
    ropts: FromJsonOpts,
    m: Msg,
    src: SrcState,
    asks: Seq<Ans>,
    more: Seq<Ans>,
)
    requires
        schema_ok(schema),
        answers_ok(schema, wopts, ropts, asks),
        readable(schema, wopts, ropts, m, 0),
        json_serialize::message_json(schema, wopts, is_text, m, asks) is Ok,
    ensures
        ({
            let (j, n) = json_serialize::message_json(schema, wopts, is_text, m, asks)->Ok_0;
            let replies = replies::message_replies(schema, wopts, is_text, m, asks);
            &&& n <= asks.len()
            &&& json_shown::well_written(texts_of(is_text, asks), j)
            &&& json_shown::shows(src, j) ==> json_parse::message_reading(
                schema,
                ropts,
                json_parse::empty_msg(schema, m.desc),
                at(src, replies + more),
                0,
            ) == (m, Ok::<St, Fault>(at(json_shown::behind(src, j), more)))
        }),
{
    reveal(message_written);
    reveal(message_given);
    reveal(message_fine);
    reveal(trip_ok);
    reveal(message_shown);
    lemma_message(
        schema,
        wopts,
        is_text,
        ropts,
        texts_of(is_text, asks),
        asks,
        more,
        m,
        src,
        0,
    );
}

/// The plain value that a message is written as is read back as that message.
pub proof fn lemma_value_read_back(
    schema: Schema,
    wopts: JsonOpts,
    ropts: FromJsonOpts,
    m: Msg,
    asks: Seq<Ans>,
    more: Seq<Ans>,
)
    requires
        schema_ok(schema),
        answers_ok(schema, wopts, ropts, asks),
        readable(schema, wopts, ropts, m, 0),
        json_serialize::message_json(schema, wopts, false, m, asks) is Ok,
    ensures
        ({
            let (j, n) = json_serialize::message_json(schema, wopts, false, m, asks)->Ok_0;
            let replies = replies::message_replies(schema, wopts, false, m, asks);
            json_parse::tree_merging(
                schema,
                ropts,
                json_parse::empty_msg(schema, m.desc),
                json_sink::json_val(j),
                replies + more,
            ) == (m, Ok::<Seq<Ans>, Fault>(more))
        }),
{
    let j = json_serialize::message_json(schema, wopts, false, m, asks)->Ok_0.0;
    let src = SrcState::Tree(Some(json_sink::json_val(j)));
    lemma_message_read_back(schema, wopts, false, ropts, m, src, asks, more);
    json_shown::lemma_tree_shows(NumberTexts::Any, j);
}

/// The JSON text that a message is written as, in UTF-8, is read back as that message, if the
/// doubles in it are read again from their own texts, and numbers from the texts that the host
/// gave for them.
pub proof fn lemma_text_read_back(
    schema: Schema,
    wopts: JsonOpts,
    ropts: FromJsonOpts,
    m: Msg,
    asks: Seq<Ans>,
    more: Seq<Ans>,
)
    requires
        schema_ok(schema),
        answers_ok(schema, wopts, ropts, asks),
        readable(schema, wopts, ropts, m, 0),
        json_serialize::message_json(schema, wopts, true, m, asks) matches Ok((j, _))
            && json_sink::doubles_read_back(j) && (asks.len() > 0 ==> json_sink::asked_read_back(j)),
    ensures
        ({
            let (j, n) = json_serialize::message_json(schema, wopts, true, m, asks)->Ok_0;
            let replies = replies::message_replies(schema, wopts, true, m, asks);
            json_parse::text_merging(
                schema,
                ropts,
                json_parse::empty_msg(schema, m.desc),
                vstd::utf8::encode_utf8(json_sink::json_text(j)),
                replies + more,
            ) == (m, Ok::<Seq<Ans>, Fault>(more))
        }),
{
    let j = json_serialize::message_json(schema, wopts, true, m, asks)->Ok_0.0;
    let data = vstd::utf8::encode_utf8(json_sink::json_text(j));
    let src = SrcState::Text { data, pos: 0 };
    lemma_message_read_back(schema, wopts, true, ropts, m, src, asks, more);
    if asks.len() == 0 {
        json_printed::lemma_not_asked(j);
    }
    json_printed::lemma_printable(j);
    json_printed::lemma_text_shows(j);
}

/// The texts value of a message without extension fields, written without the host's help, is
/// read back without it.
pub proof fn lemma_value_alone(
    schema: Schema,
    wopts: JsonOpts,
    ropts: FromJsonOpts,
    m: Msg,
    asks: Seq<Ans>,
)
    requires
        schema_ok(schema),
        readable(schema, wopts, ropts, m, 0),
        replies::unextended(m),
        asks.len() == 0,
        json_serialize::message_json(schema, wopts, false, m, asks) is Ok,
    ensures
        json_parse::tree_merging(
            schema,
            ropts,
            json_parse::empty_msg(schema, m.desc),
            json_sink::json_val(
                json_serialize::message_json(schema, wopts, false, m, asks)->Ok_0.0,
            ),
            seq![],
        ) == (m, Ok::<Seq<Ans>, Fault>(seq![])),
{
    lemma_value_read_back(schema, wopts, ropts, m, asks, seq![]);
    replies::lemma_no_replies(schema, wopts, false, m, asks);
    assert(Seq::<Ans>::empty() + Seq::<Ans>::empty() =~= Seq::<Ans>::empty());
}

/// The JSON text of a message without extension fields, written without the host's help, is read
/// back without it, if the doubles in it are read again from their own texts.
pub proof fn lemma_text_alone(
    schema: Schema,
    wopts: JsonOpts,
    ropts: FromJsonOpts,
    m: Msg,
    asks: Seq<Ans>,
)
    requires
        schema_ok(schema),
        readable(schema, wopts, ropts, m, 0),
        replies::unextended(m),
        asks.len() == 0,
        json_serialize::message_json(schema, wopts, true, m, asks) matches Ok((j, _))
            && json_sink::doubles_read_back(j),
    ensures
        json_parse::text_merging(
            schema,
            ropts,
            json_parse::empty_msg(schema, m.desc),
            vstd::utf8::encode_utf8(
                json_sink::json_text(
                    json_serialize::message_json(schema, wopts, true, m, asks)->Ok_0.0,
                ),
            ),
            seq![],
        ) == (m, Ok::<Seq<Ans>, Fault>(seq![])),
{
    lemma_text_read_back(schema, wopts, ropts, m, asks, seq![]);
    replies::lemma_no_replies(schema, wopts, true, m, asks);
    assert(Seq::<Ans>::empty() + Seq::<Ans>::empty() =~= Seq::<Ans>::empty());
}

} // verus!
