//! Reading and writing messages, in both forms.

use protobuf_json::descriptor::{
    DescEnum, DescField, DescFieldValue, DescMessage, DescSingleValue, Extension, Registry, ScalarType, Schema,
};
use protobuf_json::error::{error_class, Error, ErrorClass, ErrorOf, Fixed};
use protobuf_json::integer::Integer;
use protobuf_json::json_parse::{merge_from_json, new_empty_message, read_message_from_tree, FromJsonOpts};
use protobuf_json::json_serialize::{to_json_string, to_json_value, type_url_to_name, JsonOpts};
use protobuf_json::question::{AnswerOf, Answers, QuestionOf};
use protobuf_json::report::{error_message, PieceOf};
use protobuf_json::value::{Foreign, Message, Oneof, Unknown, Value};
use protobuf_json::wkt::WktKind;

const USER: usize = 0;
const KINDS: usize = 1;
const TIMESTAMP: usize = 2;
const DURATION: usize = 3;
const FIELD_MASK: usize = 4;
const STRUCT: usize = 5;
const VALUE: usize = 6;
const LIST_VALUE: usize = 7;
const INT64_VALUE: usize = 8;
const ANY: usize = 9;
const DOUBLE_VALUE: usize = 10;

fn scalar(scalar_type: ScalarType) -> DescFieldValue {
    DescFieldValue::Scalar { scalar_type }
}

fn field(number: u32, name: &str, json_key: &str, value: DescFieldValue) -> DescField {
    DescField {
        number,
        name: name.to_string(),
        local_name: name.to_string(),
        json_key: json_key.to_string(),
        value,
        oneof: None,
        requires_presence: false,
    }
}

fn member(number: u32, name: &str, json_key: &str, value: DescFieldValue) -> DescField {
    let mut f = field(number, name, json_key, value);
    f.oneof = Some(0);
    f.requires_presence = true;
    f
}

fn message_type(full_name: &str, file: &str, fields: Vec<DescField>, oneof_count: usize) -> DescMessage {
    let wkt = WktKind::detect(full_name, file, &fields);
    let mut json_names: Vec<(String, usize)> = Vec::new();
    for (i, f) in fields.iter().enumerate() {
        json_names.push((f.json_key.clone(), i));
        if f.name != f.json_key {
            json_names.push((f.name.clone(), i));
        }
    }
    let qualname = full_name.rsplit('.').next().unwrap().to_string();
    DescMessage {
        full_name: full_name.to_string(),
        class_text: format!("<class '{}'>", full_name),
        qualname,
        fields,
        oneof_count,
        json_names,
        wkt,
    }
}

fn schema() -> Schema {
    let text = scalar(ScalarType::String);
    let user = message_type(
        "example.User",
        "user.proto",
        vec![
            field(1, "first_name", "firstName", text),
            field(2, "last_name", "lastName", text),
            field(3, "active", "active", scalar(ScalarType::Bool)),
            field(4, "manager", "manager", DescFieldValue::Message { message: USER }),
            field(
                5,
                "locations",
                "locations",
                DescFieldValue::List { element: DescSingleValue::Scalar(ScalarType::String) },
            ),
            field(
                6,
                "projects",
                "projects",
                DescFieldValue::MapOf {
                    key_type: ScalarType::String,
                    value: DescSingleValue::Scalar(ScalarType::String),
                },
            ),
        ],
        0,
    );
    let mut optional = field(9, "maybe", "maybe", scalar(ScalarType::Int32));
    optional.requires_presence = true;
    let kinds = message_type(
        "example.Kinds",
        "kinds.proto",
        vec![
            field(1, "small", "small", scalar(ScalarType::Int32)),
            field(2, "big", "big", scalar(ScalarType::Int64)),
            field(3, "usmall", "usmall", scalar(ScalarType::Uint32)),
            field(4, "ubig", "ubig", scalar(ScalarType::Uint64)),
            field(5, "single", "single", scalar(ScalarType::Float)),
            field(6, "real", "real", scalar(ScalarType::Double)),
            field(7, "blob", "blob", scalar(ScalarType::Bytes)),
            field(8, "color", "color", DescFieldValue::Enum { enum_: 0 }),
            optional,
            member(10, "left_side", "leftSide", scalar(ScalarType::Int32)),
            member(11, "right_side", "rightSide", scalar(ScalarType::String)),
            field(
                12,
                "flags",
                "flags",
                DescFieldValue::MapOf {
                    key_type: ScalarType::Bool,
                    value: DescSingleValue::Scalar(ScalarType::Int32),
                },
            ),
            field(
                13,
                "counts",
                "counts",
                DescFieldValue::MapOf {
                    key_type: ScalarType::Int64,
                    value: DescSingleValue::Enum(0),
                },
            ),
            field(14, "when", "when", DescFieldValue::Message { message: TIMESTAMP }),
            field(15, "any", "any", DescFieldValue::Message { message: ANY }),
            field(16, "free", "free", DescFieldValue::Message { message: VALUE }),
            field(
                17,
                "people",
                "people",
                DescFieldValue::List { element: DescSingleValue::Message(USER) },
            ),
        ],
        1,
    );
    let moment = |name: &str, file: &str| {
        message_type(
            name,
            file,
            vec![
                field(1, "seconds", "seconds", scalar(ScalarType::Int64)),
                field(2, "nanos", "nanos", scalar(ScalarType::Int32)),
            ],
            0,
        )
    };
    let mask = message_type(
        "google.protobuf.FieldMask",
        "google/protobuf/field_mask.proto",
        vec![
            field(
                1,
                "paths",
                "paths",
                DescFieldValue::List { element: DescSingleValue::Scalar(ScalarType::String) },
            ),
        ],
        0,
    );
    let structure = message_type(
        "google.protobuf.Struct",
        "google/protobuf/struct.proto",
        vec![
            field(
                1,
                "fields",
                "fields",
                DescFieldValue::MapOf {
                    key_type: ScalarType::String,
                    value: DescSingleValue::Message(VALUE),
                },
            ),
        ],
        0,
    );
    let value = message_type(
        "google.protobuf.Value",
        "google/protobuf/struct.proto",
        vec![
            member(1, "null_value", "nullValue", DescFieldValue::Enum { enum_: 1 }),
            member(2, "number_value", "numberValue", scalar(ScalarType::Double)),
            member(3, "string_value", "stringValue", scalar(ScalarType::String)),
            member(4, "bool_value", "boolValue", scalar(ScalarType::Bool)),
            member(5, "struct_value", "structValue", DescFieldValue::Message { message: STRUCT }),
            member(6, "list_value", "listValue", DescFieldValue::Message { message: LIST_VALUE }),
        ],
        1,
    );
    let list = message_type(
        "google.protobuf.ListValue",
        "google/protobuf/struct.proto",
        vec![
            field(
                1,
                "values",
                "values",
                DescFieldValue::List { element: DescSingleValue::Message(VALUE) },
            ),
        ],
        0,
    );
    let wrapper = |name: &str, kind: ScalarType| {
        message_type(
            name,
            "google/protobuf/wrappers.proto",
            vec![field(1, "value", "value", scalar(kind))],
            0,
        )
    };
    let any = message_type(
        "google.protobuf.Any",
        "google/protobuf/any.proto",
        vec![
            field(1, "type_url", "typeUrl", scalar(ScalarType::String)),
            field(2, "value", "value", scalar(ScalarType::Bytes)),
        ],
        0,
    );
    Schema {
        messages: vec![
            user,
            kinds,
            moment("google.protobuf.Timestamp", "google/protobuf/timestamp.proto"),
            moment("google.protobuf.Duration", "google/protobuf/duration.proto"),
            mask,
            structure,
            value,
            list,
            wrapper("google.protobuf.Int64Value", ScalarType::Int64),
            any,
            wrapper("google.protobuf.DoubleValue", ScalarType::Double),
        ],
        enums: vec![
            DescEnum {
                full_name: "example.Color".to_string(),
                open: true,
                is_null_value: false,
                zero: 0,
                names_by_number: vec![(0, "RED".to_string()), (1, "GREEN".to_string())],
                numbers_by_name: vec![("RED".to_string(), 0), ("GREEN".to_string(), 1)],
            },
            DescEnum {
                full_name: "google.protobuf.NullValue".to_string(),
                open: true,
                is_null_value: true,
                zero: 0,
                names_by_number: vec![(0, "NULL_VALUE".to_string())],
                numbers_by_name: vec![("NULL_VALUE".to_string(), 0)],
            },
        ],
    }
}

fn strict() -> FromJsonOpts {
    FromJsonOpts { ignore_unknown_fields: false, registry: None }
}

fn lenient() -> FromJsonOpts {
    FromJsonOpts { ignore_unknown_fields: true, registry: None }
}

fn registry() -> Registry {
    Registry {
        messages: vec![
            ("example.User".to_string(), USER),
            ("google.protobuf.Timestamp".to_string(), TIMESTAMP),
        ],
        extensions: vec![
            Extension {
                full_name: "example.nick".to_string(),
                extendee: "example.User".to_string(),
                number: 100,
                value: scalar(ScalarType::String),
            },
        ],
    }
}

fn plain() -> JsonOpts {
    JsonOpts {
        always_emit_implicit: false,
        print_enums_as_ints: false,
        use_proto_field_name: false,
        registry: None,
    }
}

fn whole(n: i64) -> Value {
    Value::Int(Integer::from_i64(n))
}

fn string(s: &str) -> Value {
    Value::Str(s.to_string())
}

fn double(x: f64) -> Value {
    Value::Float(x.to_bits())
}

fn object(class: &str, text: &str, repr: &str) -> Foreign {
    Foreign {
        type_text: format!("<class '{}'>", class),
        text: text.to_string(),
        repr: repr.to_string(),
        number: None,
        whole: None,
        truth: None,
        octets: None,
    }
}

fn show_all(items: &[Value]) -> String {
    items.iter().map(show).collect::<Vec<String>>().join(", ")
}

fn show(v: &Value) -> String {
    match v {
        Value::Null => "None".to_string(),
        Value::Bool(b) => format!("{}", b),
        Value::Int(n) => n.text(),
        Value::Float(bits) => format!("{:?}", f64::from_bits(*bits)),
        Value::Str(s) => format!("{:?}", s),
        Value::Bytes(b) => format!("b{:?}", b),
        Value::ByteArray(b) => format!("ba{:?}", b),
        Value::List(items) => format!("[{}]", show_all(items)),
        Value::Dict(entries) => format!(
            "{{{}}}",
            entries.iter().map(|e| format!("{}: {}", show(&e.0), show(&e.1))).collect::<Vec<String>>().join(", ")
        ),
        Value::Message(m) => show_message(m),
        Value::Foreign(f) => f.text.clone(),
    }
}

fn show_message(m: &Message) -> String {
    let oneofs = m
        .oneofs
        .iter()
        .map(|o| match o {
            Some(held) => format!("{}={}", held.field, show(&held.value)),
            None => "-".to_string(),
        })
        .collect::<Vec<String>>()
        .join(", ");
    let unknown =
        m.unknown.iter().map(|u| format!("{}={}", u.number, show(&u.value))).collect::<Vec<String>>().join(", ");
    format!("#{}({})({})({})", m.desc, show_all(&m.attrs), oneofs, unknown)
}

fn told(e: Error) -> String {
    error_message(&schema(), e)
        .iter()
        .map(|p| match p {
            PieceOf::Text(t) => t.clone(),
            PieceOf::Printed(v) => show(v),
        })
        .collect::<Vec<String>>()
        .concat()
}

fn read_with(desc: usize, text: &str, opts: &FromJsonOpts) -> Result<Message, Error> {
    let s = schema();
    let mut m = new_empty_message(&s, desc);
    merge_from_json(&s, opts, &mut m, text.as_bytes(), &mut Answers::none())?;
    Ok(m)
}

fn read(desc: usize, text: &str) -> String {
    match read_with(desc, text, &strict()) {
        Ok(m) => show_message(&m),
        Err(e) => format!("error: {}", told(e)),
    }
}

fn written(m: &Message, opts: &JsonOpts) -> Result<String, Error> {
    to_json_string(&schema(), opts, m, &mut Answers::none())
}

fn again(desc: usize, text: &str) -> String {
    match read_with(desc, text, &strict()) {
        Ok(m) => match written(&m, &plain()) {
            Ok(t) => t,
            Err(e) => format!("error: {}", told(e)),
        },
        Err(e) => format!("error: {}", told(e)),
    }
}

fn homer() -> Message {
    let mut m = new_empty_message(&schema(), USER);
    m.attrs[0] = string("Homer");
    m.attrs[2] = Value::Bool(true);
    m
}

#[test]
fn user_is_validated_and_dumped() {
    let m = read_with(USER, "{\"firstName\": \"Homer\", \"active\": true}", &lenient()).ok().unwrap();
    assert_eq!(show_message(&m), show_message(&homer()));
    assert_eq!(written(&m, &plain()).ok().unwrap(), "{\"firstName\":\"Homer\",\"active\":true}");
}

#[test]
fn user_is_validated_from_a_tree() {
    let s = schema();
    let mut m = new_empty_message(&s, USER);
    let tree = Value::Dict(vec![(string("firstName"), string("Homer"))]);
    let r = read_message_from_tree(&s, &lenient(), &mut m, tree, &mut Answers::none());
    assert!(r.is_ok());
    assert_eq!(show(&m.attrs[0]), "\"Homer\"");
}

#[test]
fn values_that_do_not_conform_are_refused() {
    let s = schema();
    let mut m = new_empty_message(&s, USER);
    let tree = Value::Dict(vec![(string("active"), string("bear"))]);
    let r = read_message_from_tree(&s, &lenient(), &mut m, tree, &mut Answers::none());
    let e = r.err().unwrap();
    assert!(error_class(&e) == ErrorClass::Type);
    assert_eq!(
        told(e),
        "unexpected json type: <class 'str'> for field example.User.active"
    );
}

#[test]
fn values_are_plain_data_in_tree_form() {
    let v = to_json_value(&schema(), &plain(), &homer(), &mut Answers::none()).ok().unwrap();
    assert_eq!(show(&v), "{\"firstName\": \"Homer\", \"active\": true}");
}

#[test]
fn nested_messages_lists_and_maps() {
    let text = "{\"firstName\":\"Bart\",\"manager\":{\"firstName\":\"Homer\"},\"locations\":[\"home\",\"school\"],\"projects\":{\"a\":\"1\",\"b\":\"2\"}}";
    assert_eq!(again(USER, text), text);
    assert_eq!(
        read(USER, text),
        "#0(\"Bart\", \"\", false, #0(\"Homer\", \"\", false, None, [], {})()(), [\"home\", \"school\"], {\"a\": \"1\", \"b\": \"2\"})()()"
    );
}

#[test]
fn white_space_and_escapes_are_read() {
    assert_eq!(
        again(USER, " { \"firstName\" : \"a\\u00e9\\n\\\"\\\\\\ud83d\\ude00\" , \"locations\" : [ \"x\" , \"y\" ] } "),
        "{\"firstName\":\"a\u{e9}\\n\\\"\\\\\u{1f600}\",\"locations\":[\"x\",\"y\"]}"
    );
}

#[test]
fn numbers_are_read_behind_white_space() {
    assert_eq!(again(DOUBLE_VALUE, " \t\r\n0.5 "), "0.5");
    assert_eq!(again(DOUBLE_VALUE, "\n 7"), "7.0");
    assert_eq!(read(DOUBLE_VALUE, "-12345678901234567890"), "#10(-1.2345678901234567e19)()()");
    assert_eq!(again(INT64_VALUE, "\n -8 "), "\"-8\"");
    assert_eq!(again(INT64_VALUE, " \"9\""), "\"9\"");
}

#[test]
fn empty_containers_are_not_written() {
    assert_eq!(again(USER, "{\"locations\":[],\"projects\":{}}"), "{}");
}

#[test]
fn long_integers_are_strings() {
    assert_eq!(
        again(KINDS, "{\"small\":-5,\"big\":9223372036854775807,\"usmall\":4294967295,\"ubig\":18446744073709551615}"),
        "{\"small\":-5,\"big\":\"9223372036854775807\",\"usmall\":4294967295,\"ubig\":\"18446744073709551615\"}"
    );
}

#[test]
fn integers_are_read_in_several_forms() {
    assert_eq!(
        again(KINDS, "{\"small\":\"7\",\"big\":\"-12\",\"usmall\":3.0,\"ubig\":1e3}"),
        "{\"small\":7,\"big\":\"-12\",\"usmall\":3,\"ubig\":\"1000\"}"
    );
}

#[test]
fn integers_out_of_range_are_refused() {
    assert_eq!(
        read(KINDS, "{\"small\":2147483648}"),
        "error: value 2147483648 out of range for int32 for field example.Kinds.small"
    );
    assert_eq!(
        read(KINDS, "{\"usmall\":-1}"),
        "error: value -1 out of range for uint32 for field example.Kinds.usmall"
    );
    assert_eq!(
        read(KINDS, "{\"big\":\"9223372036854775808\"}"),
        "error: value 9223372036854775808 out of range for int64 for field example.Kinds.big"
    );
    assert_eq!(
        read(KINDS, "{\"ubig\":18446744073709551616}"),
        "error: value 18446744073709551616 out of range for uint64 for field example.Kinds.ubig"
    );
}

#[test]
fn fractions_and_words_are_no_integers() {
    assert_eq!(
        read(KINDS, "{\"small\":1.5}"),
        "error: expected integer, got non-integer float: 1.5 for field example.Kinds.small"
    );
    assert_eq!(
        read(KINDS, "{\"small\":\"bear\"}"),
        "error: invalid integer value: 'bear' for field example.Kinds.small"
    );
    assert_eq!(
        read(KINDS, "{\"small\":true}"),
        "error: unexpected json type: <class 'bool'> for field example.Kinds.small"
    );
}

#[test]
fn floats_are_written_short() {
    assert_eq!(again(KINDS, "{\"single\":0.1,\"real\":1e-3}"), "{\"single\":0.1,\"real\":0.001}");
    assert_eq!(again(KINDS, "{\"real\":\"-2.5\"}"), "{\"real\":-2.5}");
    assert_eq!(
        again(KINDS, "{\"single\":\"NaN\",\"real\":\"-Infinity\"}"),
        "{\"single\":\"NaN\",\"real\":\"-Infinity\"}"
    );
    assert_eq!(again(KINDS, "{\"real\":3}"), "{\"real\":3.0}");
}

#[test]
fn large_floats_are_printed_by_the_host() {
    let s = schema();
    let m = read_with(KINDS, "{\"real\":1e300}", &strict()).ok().unwrap();
    match to_json_string(&s, &plain(), &m, &mut Answers::none()) {
        Err(ErrorOf::Asked(QuestionOf::ValueText(Value::Float(bits)))) => {
            assert_eq!(f64::from_bits(bits), 1e300);
        }
        _ => panic!("a question was expected"),
    }
    let mut answers = Answers::none();
    answers.add(AnswerOf::Text("1e+300".to_string()));
    assert_eq!(to_json_string(&s, &plain(), &m, &mut answers).ok().unwrap(), "{\"real\":1e+300}");
    assert_eq!(
        show(&to_json_value(&s, &plain(), &m, &mut Answers::none()).ok().unwrap()),
        "{\"real\": 1e300}"
    );
}

#[test]
fn floats_out_of_range_are_refused() {
    assert_eq!(
        read(KINDS, "{\"single\":1e39}"),
        "error: float value out of range: 1000000000000000000000000000000000000000 for field example.Kinds.single"
    );
    assert_eq!(
        read(KINDS, "{\"real\":\"bear\"}"),
        "error: invalid float/double value: bear for field example.Kinds.real"
    );
    assert_eq!(
        read(KINDS, "{\"real\":\"1e999\"}"),
        "error: unexpected infinite/NaN number for field example.Kinds.real"
    );
    assert_eq!(
        read(KINDS, "{\"real\":1e999}"),
        "error: unexpected infinite/NaN number for field example.Kinds.real"
    );
    let mut m = new_empty_message(&schema(), KINDS);
    m.attrs[4] = double(1e39);
    assert_eq!(told(written(&m, &plain()).err().unwrap()), "value 1e39 out of range for float");
}

#[test]
fn bytes_are_base64() {
    assert_eq!(again(KINDS, "{\"blob\":\"AQL/\"}"), "{\"blob\":\"AQL/\"}");
    assert_eq!(again(KINDS, "{\"blob\":\"AQL_\"}"), "{\"blob\":\"AQL/\"}");
    assert_eq!(again(KINDS, "{\"blob\":\"AQ\"}"), "{\"blob\":\"AQ==\"}");
    assert_eq!(
        read(KINDS, "{\"blob\":\"!\"}"),
        "error: invalid base64 data for field example.Kinds.blob"
    );
    assert_eq!(
        read(KINDS, "{\"blob\":1}"),
        "error: expected base64-encoded string got: <class 'int'> for field example.Kinds.blob"
    );
}

#[test]
fn enums_are_written_by_name() {
    assert_eq!(again(KINDS, "{\"color\":1}"), "{\"color\":\"GREEN\"}");
    assert_eq!(again(KINDS, "{\"color\":\"GREEN\"}"), "{\"color\":\"GREEN\"}");
    assert_eq!(again(KINDS, "{\"color\":7}"), "{\"color\":7}");
    let opts = JsonOpts { print_enums_as_ints: true, ..plain() };
    let m = read_with(KINDS, "{\"color\":\"GREEN\"}", &strict()).ok().unwrap();
    assert_eq!(written(&m, &opts).ok().unwrap(), "{\"color\":1}");
}

#[test]
fn unknown_enum_names_are_refused_or_passed_over() {
    assert_eq!(read(KINDS, "{\"color\":\"BLUE\"}"), "error: cannot decode example.Color from JSON: \"BLUE\"");
    let m = read_with(KINDS, "{\"color\":\"BLUE\"}", &lenient()).ok().unwrap();
    assert_eq!(written(&m, &plain()).ok().unwrap(), "{}");
}

#[test]
fn presence_is_kept_for_optional_fields() {
    assert_eq!(again(KINDS, "{\"maybe\":0}"), "{\"maybe\":0}");
    assert_eq!(again(KINDS, "{\"small\":0}"), "{}");
    assert_eq!(again(KINDS, "{\"maybe\":null}"), "{}");
}

#[test]
fn implicit_fields_are_written_on_demand() {
    let opts = JsonOpts { always_emit_implicit: true, ..plain() };
    let m = read_with(USER, "{}", &strict()).ok().unwrap();
    assert_eq!(
        written(&m, &opts).ok().unwrap(),
        "{\"firstName\":\"\",\"lastName\":\"\",\"active\":false,\"locations\":[],\"projects\":{}}"
    );
}

#[test]
fn schema_names_are_written_on_demand_and_read() {
    let opts = JsonOpts { use_proto_field_name: true, ..plain() };
    let m = read_with(USER, "{\"first_name\":\"Homer\"}", &strict()).ok().unwrap();
    assert_eq!(written(&m, &opts).ok().unwrap(), "{\"first_name\":\"Homer\"}");
}

#[test]
fn oneofs_hold_one_member() {
    assert_eq!(again(KINDS, "{\"leftSide\":0}"), "{\"leftSide\":0}");
    assert_eq!(again(KINDS, "{\"rightSide\":\"x\"}"), "{\"rightSide\":\"x\"}");
    assert_eq!(again(KINDS, "{\"leftSide\":null,\"rightSide\":\"x\"}"), "{\"rightSide\":\"x\"}");
    assert_eq!(
        read(KINDS, "{\"leftSide\":1,\"rightSide\":\"x\"}"),
        "error: oneof set multiple times by left_side and right_side"
    );
}

#[test]
fn keys_are_not_repeated() {
    assert_eq!(read(USER, "{\"active\":true,\"active\":true}"), "error: duplicate key: active");
    assert_eq!(
        read(USER, "{\"first_name\":\"a\",\"firstName\":\"b\"}"),
        "error: field set multiple times by first_name and firstName"
    );
}

#[test]
fn unknown_keys_are_refused_or_ignored() {
    let e = read_with(USER, "{\"age\":[1,{\"x\":2}],\"active\":true}", &strict()).err().unwrap();
    assert_eq!(told(e), "cannot decode example.User from JSON: key: 'age' is unknown");
    let m = read_with(USER, "{\"age\":[1,{\"x\":2}],\"active\":true}", &lenient()).ok().unwrap();
    assert_eq!(written(&m, &plain()).ok().unwrap(), "{\"active\":true}");
}

#[test]
fn nesting_is_bounded() {
    let nested = |n: usize| format!("{}{{}}{}", "{\"manager\":".repeat(n), "}".repeat(n));
    assert!(read_with(USER, &nested(100), &strict()).is_ok());
    let e = read_with(USER, &nested(101), &strict()).err().unwrap();
    assert!(error_class(&e) == ErrorClass::Recursion);
    assert_eq!(told(e), "exceeded maximum recursion depth 100 while parsing message");
    let s = schema();
    let mut m = homer();
    let text = format!("{{\"lastName\":\"Simpson\",\"manager\":{}}}", nested(100));
    assert!(merge_from_json(&s, &strict(), &mut m, text.as_bytes(), &mut Answers::none()).is_err());
    assert_eq!(show(&m.attrs[1]), "\"Simpson\"");
    assert_eq!(show(&m.attrs[3]), "None");
}

#[test]
fn map_keys_are_read_by_type() {
    assert_eq!(
        again(KINDS, "{\"flags\":{\"true\":1,\"false\":2},\"counts\":{\"-3\":\"GREEN\"}}"),
        "{\"flags\":{\"true\":1,\"false\":2},\"counts\":{\"-3\":\"GREEN\"}}"
    );
    assert_eq!(
        read(KINDS, "{\"flags\":{\"yes\":1}}"),
        "error: unexpected bool map key value yes for field example.Kinds.flags"
    );
    assert_eq!(
        read(KINDS, "{\"flags\":{\"true\":null}}"),
        "error: unexpected null value for map value for field example.Kinds.flags"
    );
}

#[test]
fn map_keys_out_of_range_are_refused() {
    let e = read_with(KINDS, "{\"counts\":{\"9223372036854775808\":\"RED\"}}", &strict()).err().unwrap();
    assert!(error_class(&e) == ErrorClass::Overflow);
    assert_eq!(told(e), "value 9223372036854775808 out of range for int64 for field example.Kinds.counts");
    let names = |key_type: ScalarType| Schema {
        messages: vec![message_type(
            "example.Names",
            "names.proto",
            vec![field(
                1,
                "names",
                "names",
                DescFieldValue::MapOf { key_type, value: DescSingleValue::Scalar(ScalarType::String) },
            )],
            0,
        )],
        enums: vec![],
    };
    let keyed = |key_type: ScalarType, key: &str| {
        let s = names(key_type);
        let mut m = new_empty_message(&s, 0);
        let text = format!("{{\"names\":{{\"{}\":\"a\"}}}}", key);
        match merge_from_json(&s, &strict(), &mut m, text.as_bytes(), &mut Answers::none()) {
            Ok(()) => show_message(&m),
            Err(e) => told(e),
        }
    };
    assert_eq!(keyed(ScalarType::Int32, "2147483647"), "#0({2147483647: \"a\"})()()");
    assert_eq!(
        keyed(ScalarType::Int32, "2147483648"),
        "value 2147483648 out of range for int32 for field example.Names.names"
    );
    assert_eq!(
        keyed(ScalarType::Uint32, "-1"),
        "value -1 out of range for uint32 for field example.Names.names"
    );
    assert_eq!(
        keyed(ScalarType::Fixed64, "18446744073709551616"),
        "value 18446744073709551616 out of range for uint64 for field example.Names.names"
    );
}

#[test]
fn containers_must_be_containers() {
    assert_eq!(
        read(USER, "{\"locations\":\"x\"}"),
        "error: expected list got <class 'str'> for field example.User.locations"
    );
    assert_eq!(
        read(USER, "{\"projects\":[]}"),
        "error: expected dict got <class 'list'> for field example.User.projects"
    );
    assert_eq!(
        read(USER, "{\"locations\":[null]}"),
        "error: unexpected null value for list item for field example.User.locations"
    );
    assert_eq!(
        read(USER, "{\"firstName\":1}"),
        "error: expected string got: <class 'int'> for field example.User.first_name"
    );
    assert_eq!(read(USER, "[1]"), "error: cannot decode User from JSON: [1]");
}

#[test]
fn nulls_leave_fields_unset() {
    assert_eq!(
        again(USER, "{\"firstName\":null,\"manager\":null,\"locations\":null,\"projects\":null}"),
        "{}"
    );
}

#[test]
fn faults_in_the_text_are_reported() {
    for text in ["", "{", "{\"active\":tru}", "{\"active\":true", "{\"active\" true}", "{\"firstName\":\"x}", "{}x"] {
        let e = read_with(USER, text, &strict()).err().unwrap();
        assert!(error_class(&e) == ErrorClass::JsonDecode);
    }
    match read_with(USER, "{}x", &strict()) {
        Err(ErrorOf::Syntax { message, index }) => {
            assert_eq!(index, 2);
            assert!(message.contains("trailing characters"));
        }
        _ => panic!("a fault in the text was expected"),
    }
}

#[test]
fn timestamps_are_texts() {
    assert_eq!(again(TIMESTAMP, "\"1970-01-01T00:00:01.5Z\""), "\"1970-01-01T00:00:01.500Z\"");
    assert_eq!(again(TIMESTAMP, "\"2024-02-29T12:00:00+01:00\""), "\"2024-02-29T11:00:00Z\"");
    assert_eq!(
        again(KINDS, "{\"when\":\"1970-01-01T00:00:00Z\"}"),
        "{\"when\":\"1970-01-01T00:00:00Z\"}"
    );
    assert_eq!(
        read(TIMESTAMP, "\"yesterday\""),
        "error: cannot decode google.protobuf.Timestamp from JSON: invalid RFC 3339 string"
    );
    assert_eq!(
        read(TIMESTAMP, "\"0001-01-01T00:00:00+00:01\""),
        "error: cannot decode google.protobuf.Timestamp from JSON: must be from 0001-01-01T00:00:00Z to 9999-12-31T23:59:59Z inclusive"
    );
    assert_eq!(read(TIMESTAMP, "1"), "error: cannot decode google.protobuf.Timestamp from JSON: 1");
}

#[test]
fn timestamps_out_of_range_are_not_written() {
    let mut m = new_empty_message(&schema(), TIMESTAMP);
    m.attrs[0] = whole(253_402_300_800);
    assert_eq!(told(written(&m, &plain()).err().unwrap()), "timestamp seconds out of range");
    m.attrs[0] = whole(0);
    m.attrs[1] = whole(-1);
    assert_eq!(told(written(&m, &plain()).err().unwrap()), "timestamp nanos out of range");
}

#[test]
fn durations_are_texts() {
    assert_eq!(again(DURATION, "\"-1.5s\""), "\"-1.500s\"");
    assert_eq!(again(DURATION, "\"3s\""), "\"3s\"");
    assert_eq!(again(DURATION, "\"0.000000001s\""), "\"0.000000001s\"");
    assert_eq!(
        read(DURATION, "\"3\""),
        "error: cannot decode google.protobuf.Duration from JSON: 3"
    );
    let mut m = new_empty_message(&schema(), DURATION);
    m.attrs[0] = whole(1);
    m.attrs[1] = whole(-1);
    assert_eq!(
        told(written(&m, &plain()).err().unwrap()),
        "duration seconds and nanos have different signs"
    );
    m.attrs[1] = whole(1_000_000_000);
    assert_eq!(told(written(&m, &plain()).err().unwrap()), "duration nanos out of range");
    m.attrs[0] = whole(315_576_000_001);
    assert_eq!(told(written(&m, &plain()).err().unwrap()), "duration seconds out of range");
}

#[test]
fn field_masks_are_texts() {
    assert_eq!(read(FIELD_MASK, "\"fooBar,baz.quxA\""), "#4([\"foo_bar\", \"baz.qux_a\"])()()");
    assert_eq!(again(FIELD_MASK, "\"fooBar,baz.quxA\""), "\"fooBar,baz.quxA\"");
    assert_eq!(again(FIELD_MASK, "\"\""), "\"\"");
    assert_eq!(
        read(FIELD_MASK, "\"foo_bar\""),
        "error: cannot decode google.protobuf.FieldMask from JSON: path names must be lowerCamelCase"
    );
    let mut m = new_empty_message(&schema(), FIELD_MASK);
    m.attrs[0] = Value::List(vec![string("foo__bar")]);
    assert_eq!(
        told(written(&m, &plain()).err().unwrap()),
        "invalid FieldMask path: lowerCamelCase of foo__bar is irreversible"
    );
}

#[test]
fn free_values_are_plain_json() {
    let text = "{\"a\":null,\"b\":[1.5,\"x\",true,{}],\"c\":{\"d\":-2.0}}";
    assert_eq!(again(STRUCT, text), text);
    assert_eq!(again(VALUE, text), text);
    assert_eq!(again(VALUE, "null"), "null");
    assert_eq!(again(LIST_VALUE, "[null,[]]"), "[null,[]]");
    assert_eq!(again(KINDS, "{\"free\":null}"), "{\"free\":null}");
    assert_eq!(read(STRUCT, "[]"), "error: cannot decode google.protobuf.Struct from JSON: []");
    assert_eq!(read(LIST_VALUE, "{}"), "error: cannot decode google.protobuf.ListValue from JSON: {}");
}

#[test]
fn free_values_must_be_set_and_finite() {
    let mut m = new_empty_message(&schema(), VALUE);
    assert_eq!(told(written(&m, &plain()).err().unwrap()), "value must have exactly one field set");
    m.oneofs[0] = Some(Oneof { field: "number_value".to_string(), value: double(f64::NAN) });
    assert_eq!(told(written(&m, &plain()).err().unwrap()), "value cannot be NaN or Infinity");
}

#[test]
fn wrappers_are_bare_values() {
    assert_eq!(again(INT64_VALUE, "\"5\""), "\"5\"");
    assert_eq!(again(INT64_VALUE, "5"), "\"5\"");
    assert_eq!(again(DOUBLE_VALUE, "0.5"), "0.5");
    assert_eq!(
        read(INT64_VALUE, "\"x\""),
        "error: invalid integer value: 'x' for field google.protobuf.Int64Value.value"
    );
}

#[test]
fn any_is_read_with_a_registry() {
    let s = schema();
    let opts = FromJsonOpts { ignore_unknown_fields: false, registry: Some(registry()) };
    let text = "{\"@type\":\"type.googleapis.com/example.User\",\"firstName\":\"Homer\"}";
    let mut m = new_empty_message(&s, ANY);
    match merge_from_json(&s, &opts, &mut m, text.as_bytes(), &mut Answers::none()) {
        Err(ErrorOf::Asked(QuestionOf::Pack(inner))) => {
            assert_eq!(show(&inner.attrs[0]), "\"Homer\"");
        }
        _ => panic!("a question was expected"),
    }
    let mut answers = Answers::none();
    answers.add(AnswerOf::Bytes(vec![10, 5, 72, 111, 109, 101, 114]));
    let mut m = new_empty_message(&s, ANY);
    assert!(merge_from_json(&s, &opts, &mut m, text.as_bytes(), &mut answers).is_ok());
    assert_eq!(
        show_message(&m),
        "#9(\"type.googleapis.com/example.User\", b[10, 5, 72, 111, 109, 101, 114])()()"
    );
}

#[test]
fn any_is_written_with_a_registry() {
    let s = schema();
    let opts = JsonOpts { registry: Some(registry()), ..plain() };
    let mut m = new_empty_message(&s, ANY);
    assert_eq!(to_json_string(&s, &opts, &m, &mut Answers::none()).ok().unwrap(), "{}");
    m.attrs[0] = string("type.googleapis.com/example.User");
    m.attrs[1] = Value::Bytes(vec![10, 5, 72, 111, 109, 101, 114]);
    match to_json_string(&s, &opts, &m, &mut Answers::none()) {
        Err(ErrorOf::Asked(QuestionOf::Unpack { desc, data })) => {
            assert_eq!(desc, USER);
            assert_eq!(data, vec![10, 5, 72, 111, 109, 101, 114]);
        }
        _ => panic!("a question was expected"),
    }
    let mut answers = Answers::none();
    answers.add(AnswerOf::Message(homer()));
    assert_eq!(
        to_json_string(&s, &opts, &m, &mut answers).ok().unwrap(),
        "{\"firstName\":\"Homer\",\"active\":true,\"@type\":\"type.googleapis.com/example.User\"}"
    );
    m.attrs[0] = string("type.googleapis.com/google.protobuf.Timestamp");
    let mut stamp = new_empty_message(&s, TIMESTAMP);
    stamp.attrs[0] = whole(1);
    let mut answers = Answers::none();
    answers.add(AnswerOf::Message(stamp));
    assert_eq!(
        to_json_string(&s, &opts, &m, &mut answers).ok().unwrap(),
        "{\"@type\":\"type.googleapis.com/google.protobuf.Timestamp\",\"value\":\"1970-01-01T00:00:01Z\"}"
    );
}

#[test]
fn any_holds_a_sequence_of_bytes() {
    let s = schema();
    let opts = JsonOpts { registry: Some(registry()), ..plain() };
    let mut m = new_empty_message(&s, ANY);
    m.attrs[0] = string("type.googleapis.com/example.User");
    let unpacked = |m: &Message| match to_json_string(&s, &opts, m, &mut Answers::none()) {
        Err(ErrorOf::Asked(QuestionOf::Unpack { data, .. })) => format!("{:?}", data),
        Err(e) => told(e),
        Ok(_) => panic!("a question was expected"),
    };
    let mut small = object("int8", "7", "int8(7)");
    small.whole = Some(7);
    m.attrs[1] = Value::List(vec![whole(0), whole(255), Value::Bool(true), Value::Foreign(small)]);
    assert_eq!(unpacked(&m), "[0, 255, 1, 7]");
    m.attrs[1] = Value::List(vec![whole(1), whole(256), string("x")]);
    assert_eq!(unpacked(&m), "out of range integral type conversion attempted");
    m.attrs[1] = Value::List(vec![Value::Int(Integer::from_i64(i64::MAX).twice())]);
    assert_eq!(unpacked(&m), "Python int too large to convert to C long");
    m.attrs[1] = Value::List(vec![string("x")]);
    let e = to_json_string(&s, &opts, &m, &mut Answers::none()).err().unwrap();
    assert!(matches!(e, ErrorOf::Cast { value: Value::Str(_), .. }));
    let mut pair = object("tuple", "(1, 2)", "(1, 2)");
    pair.octets = Some(Ok(vec![1, 2]));
    m.attrs[1] = Value::Foreign(pair);
    assert_eq!(unpacked(&m), "[1, 2]");
    for (fault, message) in [
        (Fixed::ByteRange, "out of range integral type conversion attempted"),
        (Fixed::WordRange, "Python int too large to convert to C long"),
    ] {
        let mut pair = object("tuple", "(1, 300)", "(1, 300)");
        pair.octets = Some(Err(fault));
        m.attrs[1] = Value::Foreign(pair);
        let e = to_json_string(&s, &opts, &m, &mut Answers::none()).err().unwrap();
        assert!(error_class(&e) == ErrorClass::Overflow);
        assert_eq!(told(e), message);
    }
    m.attrs[1] = Value::Foreign(object("set", "{1}", "{1}"));
    let e = to_json_string(&s, &opts, &m, &mut Answers::none()).err().unwrap();
    assert!(matches!(e, ErrorOf::Cast { value: Value::Foreign(_), .. }));
    m.attrs[1] = string("ab");
    let e = to_json_string(&s, &opts, &m, &mut Answers::none()).err().unwrap();
    assert!(matches!(e, ErrorOf::Cast { value: Value::Str(_), .. }));
}

#[test]
fn objects_stand_for_the_numbers_they_convert_to() {
    let mut m = new_empty_message(&schema(), KINDS);
    let mut half = object("Half", "0.5", "Half(0.5)");
    half.number = Some(0.5f64.to_bits());
    m.attrs[5] = Value::Foreign(half.copy());
    assert_eq!(written(&m, &plain()).ok().unwrap(), "{\"real\":Half(0.5)}");
    half.number = Some(f64::INFINITY.to_bits());
    m.attrs[5] = Value::Foreign(half.copy());
    assert_eq!(written(&m, &plain()).ok().unwrap(), "{\"real\":\"Infinity\"}");
    half.number = Some(3.0f64.to_bits());
    half.whole = Some(3);
    m.attrs[5] = Value::Foreign(half.copy());
    assert_eq!(written(&m, &plain()).ok().unwrap(), "{\"real\":3}");
    m.attrs[5] = Value::Foreign(object("set", "{1}", "{1}"));
    assert_eq!(told(written(&m, &plain()).err().unwrap()), "expected float, got <class 'set'>");
    half.number = Some(f64::NAN.to_bits());
    let mut free = new_empty_message(&schema(), VALUE);
    free.oneofs[0] = Some(Oneof { field: "number_value".to_string(), value: Value::Foreign(half) });
    assert_eq!(told(written(&free, &plain()).err().unwrap()), "value cannot be NaN or Infinity");
}

#[test]
fn objects_stand_for_the_booleans_they_convert_to() {
    let mut yes = object("bool_", "True", "True_");
    yes.truth = Some(true);
    let mut m = new_empty_message(&schema(), KINDS);
    m.attrs[11] = Value::Dict(vec![(Value::Foreign(yes.copy()), whole(3))]);
    assert_eq!(written(&m, &plain()).ok().unwrap(), "{\"flags\":{\"true\":3}}");
    let mut free = new_empty_message(&schema(), VALUE);
    free.oneofs[0] = Some(Oneof { field: "bool_value".to_string(), value: Value::Foreign(yes.copy()) });
    assert_eq!(written(&free, &plain()).ok().unwrap(), "true");
    yes.truth = Some(false);
    free.oneofs[0] = Some(Oneof { field: "bool_value".to_string(), value: Value::Foreign(yes) });
    assert_eq!(written(&free, &plain()).ok().unwrap(), "false");
    m.attrs[11] = Value::Dict(vec![(Value::Foreign(object("set", "{1}", "{1}")), whole(3))]);
    assert!(matches!(written(&m, &plain()), Err(ErrorOf::Cast { value: Value::Foreign(_), .. })));
    m.attrs[11] = Value::Dict(vec![(whole(1), whole(3))]);
    assert!(matches!(written(&m, &plain()), Err(ErrorOf::Cast { value: Value::Int(_), .. })));
}

#[test]
fn any_without_its_type_is_refused() {
    let s = schema();
    let mut m = new_empty_message(&s, ANY);
    m.attrs[0] = string("type.googleapis.com/example.Missing");
    assert_eq!(
        told(written(&m, &plain()).err().unwrap()),
        "any \"type.googleapis.com/example.Missing\" is not in the type registry"
    );
    let opts = JsonOpts { registry: Some(registry()), ..plain() };
    assert_eq!(
        told(written(&m, &opts).err().unwrap()),
        "any: \"type.googleapis.com/example.Missing\" is not in the type registry"
    );
    assert_eq!(
        read(ANY, "{\"@type\":\"type.googleapis.com/example.User\"}"),
        "error: cannot decode google.protobuf.Any from JSON: type.googleapis.com/example.User is not in the type registry"
    );
    assert_eq!(read(ANY, "{}"), "#9(\"\", b[])()()");
    assert_eq!(
        read(ANY, "{\"x\":1}"),
        "error: cannot decode google.protobuf.Any from JSON: {\"x\": 1}, @type is invalid: None"
    );
}

#[test]
fn extensions_are_read_and_written_by_the_host() {
    let s = schema();
    let opts = FromJsonOpts { ignore_unknown_fields: false, registry: Some(registry()) };
    let text = "{\"[example.nick]\":\"Homie\"}";
    let mut m = new_empty_message(&s, USER);
    match merge_from_json(&s, &opts, &mut m, text.as_bytes(), &mut Answers::none()) {
        Err(ErrorOf::Asked(QuestionOf::ReadExtension { extension, value })) => {
            assert_eq!(extension, 0);
            assert_eq!(show(&value), "\"Homie\"");
        }
        _ => panic!("a question was expected"),
    }
    let mut answers = Answers::none();
    answers.add(AnswerOf::Value(string("Homie")));
    let mut m = new_empty_message(&s, USER);
    assert!(merge_from_json(&s, &opts, &mut m, text.as_bytes(), &mut answers).is_ok());
    let wopts = JsonOpts { registry: Some(registry()), ..plain() };
    assert_eq!(written(&m, &wopts).ok().unwrap(), "{\"[example.nick]\":\"Homie\"}");
    assert_eq!(written(&m, &plain()).ok().unwrap(), "{}");
}

#[test]
fn unregistered_numbers_are_not_written() {
    let mut m = homer();
    m.unknown.push(Unknown { number: 7, value: whole(1) });
    let wopts = JsonOpts { registry: Some(registry()), ..plain() };
    assert_eq!(written(&m, &wopts).ok().unwrap(), "{\"firstName\":\"Homer\",\"active\":true}");
}

#[test]
fn type_urls_name_types() {
    assert_eq!(type_url_to_name("type.googleapis.com/example.User").ok().unwrap(), "example.User");
    assert_eq!(type_url_to_name("a/b/c").ok().unwrap(), "c");
    assert_eq!(told(type_url_to_name("").err().unwrap()), "invalid type url: ");
    assert_eq!(told(type_url_to_name("a/").err().unwrap()), "invalid type url: a/");
}

#[test]
fn values_of_the_wrong_type_are_not_written() {
    let mut m = homer();
    m.attrs[2] = whole(1);
    assert_eq!(told(written(&m, &plain()).err().unwrap()), "expected bool, got <class 'int'>");
    let mut m = homer();
    m.attrs[3] = Value::Foreign(object("set", "{1}", "{1}"));
    assert_eq!(told(written(&m, &plain()).err().unwrap()), "expected 'example.User', got <class 'set'>");
    let mut m = new_empty_message(&schema(), KINDS);
    m.attrs[0] = whole(2_147_483_648);
    assert_eq!(told(written(&m, &plain()).err().unwrap()), "value 2147483648 out of range for int32");
    let mut m = new_empty_message(&schema(), KINDS);
    m.attrs[7] = string("GREEN");
    assert_eq!(
        told(written(&m, &plain()).err().unwrap()),
        "expected int for enum example.Color, got <class 'str'>"
    );
}

#[test]
fn merging_keeps_what_is_there() {
    let s = schema();
    let mut m = read_with(USER, "{\"lastName\":\"S\",\"locations\":[\"a\"],\"manager\":{\"firstName\":\"x\"}}", &strict())
        .ok()
        .unwrap();
    let r = merge_from_json(
        &s,
        &strict(),
        &mut m,
        "{\"locations\":[\"b\"],\"manager\":{\"lastName\":\"y\"}}".as_bytes(),
        &mut Answers::none(),
    );
    assert!(r.is_ok());
    assert_eq!(
        written(&m, &plain()).ok().unwrap(),
        "{\"lastName\":\"S\",\"manager\":{\"firstName\":\"x\",\"lastName\":\"y\"},\"locations\":[\"a\",\"b\"]}"
    );
}

#[test]
fn messages_are_read_back_from_both_forms() {
    let s = schema();
    let text = "{\"small\":-1,\"big\":\"-2\",\"single\":1.5,\"real\":\"NaN\",\"blob\":\"AQI=\",\"color\":\"GREEN\",\"maybe\":0,\"rightSide\":\"r\",\"flags\":{\"true\":3},\"when\":\"2001-02-03T04:05:06.789Z\",\"any\":{},\"free\":[null,{\"k\":\"v\"}],\"people\":[{\"firstName\":\"a\"},{}]}";
    let m = read_with(KINDS, text, &strict()).ok().unwrap();
    assert_eq!(written(&m, &plain()).ok().unwrap(), text);
    let tree = to_json_value(&s, &plain(), &m, &mut Answers::none()).ok().unwrap();
    let mut back = new_empty_message(&s, KINDS);
    assert!(read_message_from_tree(&s, &strict(), &mut back, tree, &mut Answers::none()).is_ok());
    assert_eq!(show_message(&back), show_message(&m));
    let copied = m.copy();
    assert_eq!(show_message(&copied), show_message(&m));
}

#[test]
fn trees_must_hold_json() {
    let s = schema();
    let mut m = new_empty_message(&s, USER);
    let tree = Value::Dict(vec![(whole(1), string("x"))]);
    let e = read_message_from_tree(&s, &strict(), &mut m, tree, &mut Answers::none()).err().unwrap();
    assert_eq!(told(e), "JSON object keys must be strings");
    let mut m = new_empty_message(&s, USER);
    let tree = Value::Bytes(vec![1]);
    let e = read_message_from_tree(&s, &strict(), &mut m, tree, &mut Answers::none()).err().unwrap();
    assert_eq!(told(e), "unexpected type in JSON tree: <class 'bytes'>");
}

#[test]
fn long_integer_texts_are_read_by_the_host() {
    let s = schema();
    let mut m = new_empty_message(&s, KINDS);
    let digits = "0".repeat(700);
    let text = format!("{{\"small\":\"{}\"}}", digits);
    match merge_from_json(&s, &strict(), &mut m, text.as_bytes(), &mut Answers::none()) {
        Err(ErrorOf::Asked(QuestionOf::ReadInt(asked))) => assert_eq!(asked, digits),
        _ => panic!("a question was expected"),
    }
    let mut answers = Answers::none();
    answers.add(AnswerOf::Int(Some(Integer::from_i64(0))));
    let mut m = new_empty_message(&s, KINDS);
    assert!(merge_from_json(&s, &strict(), &mut m, text.as_bytes(), &mut answers).is_ok());
}

#[test]
fn fields_that_hold_no_message_are_not_merged_into() {
    let s = schema();
    let mut m = homer();
    m.attrs[3] = string("Burns");
    let e = merge_from_json(&s, &strict(), &mut m, "{\"manager\":{}}".as_bytes(), &mut Answers::none())
        .err()
        .unwrap();
    assert!(error_class(&e) == ErrorClass::Type);
    assert_eq!(told(e), "expected 'example.User', got <class 'str'>");
    let mut m = homer();
    m.attrs[3] = Value::Message(new_empty_message(&s, TIMESTAMP));
    let e = merge_from_json(&s, &strict(), &mut m, "{\"manager\":{}}".as_bytes(), &mut Answers::none())
        .err()
        .unwrap();
    assert!(error_class(&e) == ErrorClass::Type);
    assert_eq!(told(e), "expected 'example.User', got 'google.protobuf.Timestamp'");
}

#[test]
fn numbers_may_have_exponents_and_many_digits() {
    assert_eq!(again(DOUBLE_VALUE, "1.25E+2"), "125.0");
    assert_eq!(again(DOUBLE_VALUE, "-5e-1"), "-0.5");
    assert_eq!(again(DOUBLE_VALUE, "-0"), "-0.0");
    assert_eq!(again(INT64_VALUE, "-0"), "\"0\"");
    let long = format!("0.{}", "3".repeat(400));
    assert_eq!(again(DOUBLE_VALUE, &long), "0.3333333333333333");
    let long = format!("{}e-400", "7".repeat(401));
    assert_eq!(again(DOUBLE_VALUE, &long), "7.777777777777778");
    assert_eq!(again(KINDS, "{\"small\":12E1,\"big\":2.5e1}"), "{\"small\":120,\"big\":\"25\"}");
    for text in ["1e", "1e+", ".5", "1.", "01", "+1", "-"] {
        assert!(read_with(DOUBLE_VALUE, text, &strict()).is_err());
    }
}

#[test]
fn escapes_are_read_in_every_form() {
    assert_eq!(
        read_with(USER, "{\"first\\u004Eame\":\"\\/\\b\\f\\r\\t\\u00E9\\u00e9\\ud83d\\uDE00\\u0000\u{7f}\"}", &strict())
            .ok()
            .map(|m| show(&m.attrs[0])),
        Some(format!("{:?}", "/\u{8}\u{c}\r\t\u{e9}\u{e9}\u{1f600}\u{0}\u{7f}"))
    );
    for text in [
        "\"\\ud83d\"",
        "\"\\ud83dx\"",
        "\"\\ud83d\\u0041\"",
        "\"\\ude00\"",
        "\"\\u00g0\"",
        "\"\\u00e\"",
        "\"\\x\"",
        "\"\\",
        "\"a\nb\"",
        "\"open",
    ] {
        assert!(read_with(USER, &format!("{{\"firstName\":{}}}", text), &strict()).is_err());
    }
}

#[test]
fn passed_over_values_end_where_they_should() {
    for value in [
        "null",
        "true",
        "-1.5e3",
        "\"a\\\"}\"",
        "[]",
        "{ }",
        "[ 1 , [ { \"x\" : [ ] } , \"]\" ] ]",
        "{\"a\":{\"b\":[1,2]},\"c\":\"}\"}",
    ] {
        let text = format!("{{\"age\": {} , \"active\":true}}", value);
        let m = read_with(USER, &text, &lenient()).ok().unwrap();
        assert_eq!(written(&m, &plain()).ok().unwrap(), "{\"active\":true}");
    }
    let deep = format!("{{\"age\":{}{},\"active\":true}}", "[".repeat(150), "]".repeat(150));
    let m = read_with(USER, &deep, &lenient()).ok().unwrap();
    assert_eq!(written(&m, &plain()).ok().unwrap(), "{\"active\":true}");
    for value in ["[1", "{\"a\"}", "tru", "[1,]"] {
        let text = format!("{{\"age\":{},\"active\":true}}", value);
        assert!(read_with(USER, &text, &lenient()).is_err());
    }
}

#[test]
fn answers_that_are_not_needed_are_left() {
    let s = schema();
    let mut answers = Answers::none();
    answers.add(AnswerOf::Int(Some(Integer::from_i64(5))));
    answers.add(AnswerOf::Text("left".to_string()));
    let text = format!("{{\"small\":\"{}5\"}}", "0".repeat(700));
    let mut m = new_empty_message(&s, KINDS);
    assert!(merge_from_json(&s, &strict(), &mut m, text.as_bytes(), &mut answers).is_ok());
    assert_eq!(show(&m.attrs[0]), "5");
    assert_eq!(answers.rest.len(), 1);
    let mut m = new_empty_message(&s, USER);
    let tree = Value::Dict(vec![(string("active"), Value::Bool(true))]);
    assert!(read_message_from_tree(&s, &strict(), &mut m, tree, &mut answers).is_ok());
    assert_eq!(answers.rest.len(), 1);
}

#[test]
fn packed_messages_and_extensions_are_read_back() {
    let s = schema();
    let wopts = JsonOpts { registry: Some(registry()), ..plain() };
    let ropts = FromJsonOpts { ignore_unknown_fields: false, registry: Some(registry()) };
    let mut inner = homer();
    inner.unknown.push(Unknown { number: 100, value: string("Homie") });
    let mut any = new_empty_message(&s, ANY);
    any.attrs[0] = string("type.googleapis.com/example.User");
    any.attrs[1] = Value::Bytes(vec![10, 5]);
    let mut m = new_empty_message(&s, KINDS);
    m.attrs[5] = double(1e300);
    m.attrs[14] = Value::Message(any);
    let mut person = homer();
    person.unknown.push(Unknown { number: 100, value: string("H") });
    m.attrs[16] = Value::List(vec![Value::Message(person)]);
    let mut answers = Answers::none();
    answers.add(AnswerOf::Text("1e+300".to_string()));
    answers.add(AnswerOf::Message(inner.copy()));
    let text = to_json_string(&s, &wopts, &m, &mut answers).ok().unwrap();
    assert_eq!(
        text,
        "{\"real\":1e+300,\"any\":{\"firstName\":\"Homer\",\"active\":true,\"[example.nick]\":\"Homie\",\"@type\":\"type.googleapis.com/example.User\"},\"people\":[{\"firstName\":\"Homer\",\"active\":true,\"[example.nick]\":\"H\"}]}"
    );
    assert_eq!(answers.rest.len(), 0);
    let replies = || {
        let mut answers = Answers::none();
        answers.add(AnswerOf::Value(string("Homie")));
        answers.add(AnswerOf::Bytes(vec![10, 5]));
        answers.add(AnswerOf::Value(string("H")));
        answers.add(AnswerOf::Text("left".to_string()));
        answers
    };
    let mut back = new_empty_message(&s, KINDS);
    let mut answers = replies();
    assert!(merge_from_json(&s, &ropts, &mut back, text.as_bytes(), &mut answers).is_ok());
    assert_eq!(show_message(&back), show_message(&m));
    assert_eq!(answers.rest.len(), 1);
    let mut answers = Answers::none();
    answers.add(AnswerOf::Message(inner));
    let tree = to_json_value(&s, &wopts, &m, &mut answers).ok().unwrap();
    let mut back = new_empty_message(&s, KINDS);
    let mut answers = replies();
    assert!(read_message_from_tree(&s, &ropts, &mut back, tree, &mut answers).is_ok());
    assert_eq!(show_message(&back), show_message(&m));
    assert_eq!(answers.rest.len(), 1);
}
