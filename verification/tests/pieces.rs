//! Dates, names, bytes, sinks and sources.

use protobuf_json::civil::{civil_from_days, days_from_civil};
use protobuf_json::descriptor::{DescField, DescFieldValue, DescSingleValue, ScalarType};
use protobuf_json::double::{double_in_float_range, double_is_finite, double_is_nan, double_to_integer, ryu_fixed_notation};
use protobuf_json::field_mask::{read_mask, write_mask};
use protobuf_json::integer::{parse_int_literal, Integer};
use protobuf_json::json_sink::{write_escaped, JsonSink, PyValueSink, StringSink};
use protobuf_json::json_source::{JiterSource, JsonKind, JsonSource, PyTreeSource};
use protobuf_json::names::{proto_camel_case, proto_snake_case, split_text};
use protobuf_json::octets::{bytes_of_text, bytes_to_text};
use protobuf_json::question::Answers;
use protobuf_json::raw_alloc::{
    direct, header_size, moved_bytes, over_aligned_block, over_aligned_total, resizes_in_place, Layout,
};
use protobuf_json::text::{chars_of, same_text};
use protobuf_json::value::Value;
use protobuf_json::wkt::{
    detect_any, detect_field_mask, detect_file_descriptor_set, detect_list_value, detect_struct, detect_value,
    detect_wrapper, idx, is_enum, is_list_message, is_list_scalar, is_map_key, is_message, is_scalar, ts_dur_indices,
    WktKind,
};
use protobuf_json::wkt_json::{
    duration_to_json, parse_duration, parse_rfc3339, parse_timestamp, timestamp_to_rfc3339, trim_nanos, Rfc3339,
};

fn field(name: &str, value: DescFieldValue) -> DescField {
    DescField {
        number: 1,
        name: name.to_string(),
        local_name: name.to_string(),
        json_key: name.to_string(),
        value,
        oneof: None,
        requires_presence: false,
    }
}

fn scalar(scalar_type: ScalarType) -> DescFieldValue {
    DescFieldValue::Scalar { scalar_type }
}

#[test]
fn days_are_counted_from_the_epoch() {
    assert_eq!(days_from_civil(1970, 1, 1), 0);
    assert_eq!(days_from_civil(2000, 3, 1), 11017);
    assert_eq!(days_from_civil(1, 1, 1), -719162);
    assert_eq!(civil_from_days(0), (1970, 1, 1));
    assert_eq!(civil_from_days(11016), (2000, 2, 29));
    assert_eq!(civil_from_days(-719162), (1, 1, 1));
    for day in -800_000..800_000 {
        let (y, m, d) = civil_from_days(day);
        assert_eq!(days_from_civil(y, m, d), day);
    }
}

#[test]
fn rfc3339_texts_are_parsed() {
    assert_eq!(
        parse_rfc3339("2024-02-29T23:59:59.123456789-05:30"),
        Some(Rfc3339 {
            year: 2024,
            month: 2,
            day: 29,
            hour: 23,
            minute: 59,
            second: 59,
            nanos: 123_456_789,
            offset_seconds: -19800,
        })
    );
    assert_eq!(parse_rfc3339("2024-02-29T23:59:59.5Z").unwrap().nanos, 500_000_000);
    for text in [
        "",
        "2024-02-29",
        "2024-02-29t23:59:59Z",
        "2024-02-29T23:59:59",
        "2024-02-29T23:59:59.Z",
        "2024-02-29T23:59:59.1234567890Z",
        "2024-02-29T23:59:59+0530",
        "2024-02-29T23:59:59Zx",
        "2024/02/29T23:59:59Z",
    ] {
        assert!(parse_rfc3339(text).is_none());
    }
}

#[test]
fn timestamps_are_read_back() {
    for (s, n) in [(0, 0), (-1, 999_999_999), (1_700_000_000, 5), (-62_135_596_800, 0), (253_402_300_799, 999_999_999)] {
        let text = timestamp_to_rfc3339(s, n).ok().unwrap();
        assert_eq!(parse_timestamp("T", &text).ok().unwrap(), (s, n));
    }
    assert_eq!(timestamp_to_rfc3339(-1, 1_000).ok().unwrap(), "1969-12-31T23:59:59.000001Z");
}

#[test]
fn durations_are_read_back() {
    for (s, n) in [(0, 0), (0, -5), (-3, -500_000_000), (315_576_000_000, 0), (7, 1)] {
        let text = duration_to_json(s, n).ok().unwrap();
        assert_eq!(parse_duration("D", &text).ok().unwrap(), (s, n));
    }
    assert_eq!(duration_to_json(0, -5).ok().unwrap(), "-0.000000005s");
    for text in ["", "s", "1", "1.s", "+1s", "1.1234567890s", "315576000001s", "x1s"] {
        assert!(parse_duration("D", text).is_err());
    }
}

#[test]
fn nanos_are_trimmed_to_groups() {
    assert_eq!(trim_nanos(500_000_000), "500");
    assert_eq!(trim_nanos(1_000), "000001");
    assert_eq!(trim_nanos(1), "000000001");
}

#[test]
fn names_change_case() {
    assert_eq!(proto_camel_case("foo_bar_baz"), "fooBarBaz");
    assert_eq!(proto_camel_case("a_1"), "a1");
    assert_eq!(proto_snake_case("fooBarBaz"), "foo_bar_baz");
    assert_eq!(proto_camel_case("stra_\u{df}e"), "straSSe");
    assert_eq!(proto_snake_case("a\u{c4}b"), "a_\u{e4}b");
}

#[test]
fn names_come_back_from_their_other_case() {
    for name in ["foo_bar", "a", "", "_x", "x9_y"] {
        assert_eq!(proto_snake_case(&proto_camel_case(name)), name);
    }
    for name in ["a_1", "a__b", "a_", "fooBar", "_A"] {
        assert_ne!(proto_snake_case(&proto_camel_case(name)), name);
    }
    for name in ["fooBar", "A", "", "ABc9", "a-b"] {
        assert_eq!(proto_camel_case(&proto_snake_case(name)), name);
    }
    assert_eq!(proto_camel_case("_a__b_\u{df}_"), "ABSS");
}

#[test]
fn texts_are_split() {
    assert_eq!(split_text("a,,b", ','), vec!["a".to_string(), "".to_string(), "b".to_string()]);
    assert_eq!(split_text("", ','), vec!["".to_string()]);
}

#[test]
fn masks_are_read_back() {
    let paths = vec![Value::Str("foo_bar".to_string()), Value::Str("baz".to_string())];
    let text = write_mask(&paths).ok().unwrap();
    assert_eq!(text, "fooBar,baz");
    let mut back: Vec<Value> = Vec::new();
    assert!(read_mask("M", &text, &mut back).is_ok());
    assert_eq!(back.len(), 2);
    assert!(matches!(&back[0], Value::Str(s) if s == "foo_bar"));
    assert!(matches!(&back[1], Value::Str(s) if s == "baz"));
}

#[test]
fn bytes_are_texts() {
    assert_eq!(bytes_to_text(&vec![]), "");
    assert_eq!(bytes_to_text(&vec![255]), "/w==");
    assert_eq!(bytes_to_text(&vec![255, 254]), "//4=");
    assert_eq!(bytes_to_text(&vec![1, 2, 3, 4]), "AQIDBA==");
    assert_eq!(bytes_of_text("_w=="), Some(vec![255]));
    assert_eq!(bytes_of_text("/w"), Some(vec![255]));
    assert_eq!(bytes_of_text("/x=="), Some(vec![255]));
    assert_eq!(bytes_of_text("/-=="), None);
    assert_eq!(bytes_of_text("a b="), None);
    assert_eq!(bytes_of_text(""), Some(vec![]));
    assert_eq!(bytes_of_text("AQI"), Some(vec![1, 2]));
    assert_eq!(bytes_of_text("AQ="), Some(vec![1]));
    assert_eq!(bytes_of_text("AQJ="), Some(vec![1, 2]));
    assert_eq!(bytes_of_text("-_8="), Some(vec![251, 255]));
    for text in ["A", "AQIDA", "=", "A===", "AQ=I", "AQI==", "AQIDBA===", "+_8=", "AQ\n="] {
        assert_eq!(bytes_of_text(text), None);
    }
    for n in 0u8..40 {
        let b: Vec<u8> = (0..n).map(|i| i.wrapping_mul(37).wrapping_add(n)).collect();
        assert_eq!(bytes_of_text(&bytes_to_text(&b)), Some(b));
    }
}

#[test]
fn integers_of_any_size() {
    let n = parse_int_literal(&chars_of("-123456789012345678901234567890")).unwrap();
    assert_eq!(n.text(), "-123456789012345678901234567890");
    assert!(n.to_i64().is_none());
    assert_eq!(parse_int_literal(&chars_of("9223372036854775807")).unwrap().to_i64(), Some(i64::MAX));
    assert_eq!(parse_int_literal(&chars_of("18446744073709551615")).unwrap().to_u64(), Some(u64::MAX));
    assert_eq!(Integer::from_i64(i64::MIN).text(), "-9223372036854775808");
    assert!(parse_int_literal(&chars_of("1x")).is_none());
}

#[test]
fn doubles_are_told_apart() {
    assert!(double_is_nan(f64::NAN.to_bits()));
    assert!(!double_is_finite(f64::INFINITY.to_bits()));
    assert!(double_in_float_range((f32::MAX as f64).to_bits()));
    assert!(!double_in_float_range(1e39f64.to_bits()));
    assert_eq!(double_to_integer(1e20f64.to_bits()).unwrap().text(), "100000000000000000000");
    assert_eq!(double_to_integer((-3.0f64).to_bits()).unwrap().text(), "-3");
    assert!(double_to_integer(0.5f64.to_bits()).is_none());
    assert_eq!(ryu_fixed_notation(0.25f64.to_bits()), Some("0.25".to_string()));
    assert_eq!(ryu_fixed_notation(1e300f64.to_bits()), None);
    assert_eq!(ryu_fixed_notation(1e-4f64.to_bits()), Some("0.0001".to_string()));
    assert_eq!(ryu_fixed_notation(9.9999e-5f64.to_bits()), None);
    assert_eq!(ryu_fixed_notation(9999999999999998f64.to_bits()), Some("9999999999999998.0".to_string()));
    assert_eq!(ryu_fixed_notation(1e16f64.to_bits()), None);
    assert_eq!(ryu_fixed_notation((-0.0f64).to_bits()), Some("-0.0".to_string()));
}

#[test]
fn texts_are_escaped() {
    let mut out = String::new();
    write_escaped(&mut out, "a\"\\\n\r\t\u{8}\u{c}\u{1}\u{1f}\u{e9}/");
    assert_eq!(out, "\"a\\\"\\\\\\n\\r\\t\\b\\f\\u0001\\u001f\u{e9}/\"");
}

#[test]
fn sinks_build_texts_and_values() {
    let mut sink = StringSink::new();
    assert!(sink.begin_object().is_ok());
    assert!(sink.key("a").is_ok());
    assert!(sink.begin_array().is_ok());
    assert!(sink.i64(-1).is_ok());
    assert!(sink.null().is_ok());
    assert!(sink.bool(true).is_ok());
    sink.end_array();
    assert!(sink.key("b").is_ok());
    assert!(sink.str("x").is_ok());
    sink.end_object();
    assert_eq!(sink.finish(), "{\"a\":[-1,null,true],\"b\":\"x\"}");
    let mut sink = PyValueSink::new();
    assert!(sink.i64(7).is_ok());
    assert!(matches!(sink.finish(), Ok(Value::Int(n)) if n.to_i64() == Some(7)));
    let sink = PyValueSink::new();
    assert!(sink.finish().is_err());
    let mut sink = PyValueSink::new();
    assert!(sink.key("a").is_err());
    assert!(sink.begin_object().is_ok());
    assert!(sink.i64(1).is_err());
    assert!(sink.begin_array().is_err());
    assert!(sink.key("b").is_ok());
    assert!(sink.i64(2).is_ok());
    sink.end_object();
    match sink.finish() {
        Ok(Value::Dict(entries)) => {
            assert_eq!(entries.len(), 1);
            assert!(matches!(&entries[0], (Value::Str(k), Value::Int(n)) if k == "b" && n.to_i64() == Some(2)));
        }
        _ => panic!("an object was expected"),
    }
}

#[test]
fn sources_walk_texts_and_trees() {
    let mut src = JiterSource::new("[1, true]".as_bytes());
    assert!(src.peek().ok() == Some(JsonKind::Array));
    let mut tree = PyTreeSource::new(Value::Bool(true));
    assert!(tree.peek().ok() == Some(JsonKind::Bool));
    assert_eq!(tree.next_bool().ok(), Some(true));
    assert!(tree.peek().is_err());
    let mut src = JiterSource::new(" \n 12".as_bytes());
    assert_eq!(src.next_float().ok(), Some(12.0f64.to_bits()));
    let mut src = JiterSource::new("\t\"a\\\"b\"".as_bytes());
    assert_eq!(src.next_string().ok(), Some("a\"b".to_string()));
}

#[test]
fn texts_are_compared() {
    assert!(same_text("", ""));
    assert!(same_text("stra\u{df}e", "stra\u{df}e"));
    assert!(!same_text("a", "ab"));
    assert!(!same_text("ab", "ac"));
}

#[test]
fn kinds_of_fields_are_told_apart() {
    assert!(is_scalar(&scalar(ScalarType::Int64), ScalarType::Int64));
    assert!(!is_scalar(&scalar(ScalarType::Int64), ScalarType::Int32));
    assert!(is_enum(&DescFieldValue::Enum { enum_: 0 }));
    assert!(is_message(&DescFieldValue::Message { message: 0 }));
    let strings = DescFieldValue::List { element: DescSingleValue::Scalar(ScalarType::String) };
    assert!(is_list_scalar(&strings, ScalarType::String));
    assert!(!is_list_scalar(&strings, ScalarType::Bytes));
    assert!(is_list_message(&DescFieldValue::List { element: DescSingleValue::Message(0) }));
    let map = DescFieldValue::MapOf { key_type: ScalarType::String, value: DescSingleValue::Message(0) };
    assert!(is_map_key(&map, ScalarType::String));
    assert!(!is_map_key(&map, ScalarType::Bool));
    let fields = vec![field("seconds", scalar(ScalarType::Int64)), field("nanos", scalar(ScalarType::Int32))];
    assert_eq!(idx(&fields, "nanos"), Some(1));
    assert_eq!(idx(&fields, "other"), None);
    assert_eq!(ts_dur_indices(&fields), Some((0, 1)));
}

#[test]
fn well_known_types_are_detected() {
    let any = vec![field("type_url", scalar(ScalarType::String)), field("value", scalar(ScalarType::Bytes))];
    assert_eq!(detect_any(&any), WktKind::Any { type_url: 0, value: 1 });
    let bad = vec![field("type_url", scalar(ScalarType::Bytes)), field("value", scalar(ScalarType::Bytes))];
    assert_eq!(detect_any(&bad), WktKind::Ordinary);
    let strings = DescFieldValue::List { element: DescSingleValue::Scalar(ScalarType::String) };
    assert_eq!(detect_field_mask(&vec![field("paths", strings)]), WktKind::FieldMask { paths: 0 });
    let messages = DescFieldValue::List { element: DescSingleValue::Message(0) };
    assert_eq!(detect_list_value(&vec![field("values", messages)]), WktKind::ListValue { values: 0 });
    assert_eq!(detect_file_descriptor_set(&vec![field("file", messages)]), WktKind::FileDescriptorSet);
    let map = DescFieldValue::MapOf { key_type: ScalarType::String, value: DescSingleValue::Message(0) };
    assert_eq!(detect_struct(&vec![field("fields", map)]), WktKind::Struct { fields: 0 });
    assert_eq!(
        detect_wrapper(&vec![field("value", scalar(ScalarType::Float))]),
        WktKind::Wrapper { field: 0, scalar: ScalarType::Float }
    );
    assert_eq!(detect_value(&any), WktKind::Ordinary);
    assert_eq!(WktKind::detect("google.protobuf.Any", "any.proto", &any), WktKind::Ordinary);
    assert_eq!(
        WktKind::detect("google.protobuf.Any", "google/protobuf/any.proto", &any),
        WktKind::Any { type_url: 0, value: 1 }
    );
}

#[test]
fn memory_is_laid_out() {
    assert!(direct(Layout { size: 64, align: 8 }));
    assert!(!direct(Layout { size: 4, align: 8 }));
    assert!(!direct(Layout { size: 64, align: 64 }));
    let layout = Layout { size: 100, align: 64 };
    assert_eq!(over_aligned_total(layout), Some(164 + header_size()));
    assert_eq!(over_aligned_total(Layout { size: usize::MAX, align: 64 }), None);
    let block = over_aligned_block(1000, layout);
    assert_eq!(block % 64, 0);
    assert!(1000 + header_size() <= block && block + 100 <= 1000 + 164 + header_size());
    assert!(resizes_in_place(Layout { size: 64, align: 8 }, 128));
    assert!(!resizes_in_place(Layout { size: 64, align: 8 }, 4));
    assert_eq!(moved_bytes(layout, 50), 50);
    assert_eq!(moved_bytes(layout, 500), 100);
}

#[test]
fn answers_are_taken_in_order() {
    let mut answers = Answers::none();
    answers.add(protobuf_json::question::AnswerOf::Text("a".to_string()));
    let first = answers.take(protobuf_json::question::QuestionOf::ReadInt("1".to_string()));
    assert!(matches!(first, Ok(protobuf_json::question::AnswerOf::Text(t)) if t == "a"));
    let second = answers.take(protobuf_json::question::QuestionOf::ReadInt("2".to_string()));
    assert!(second.is_err());
}
