//! The texts of errors.

use vstd::prelude::*;
use vstd::string::*;
use crate::descriptor::Schema;
use crate::double;
use crate::double::display_double;
use crate::error;
use crate::error::{
    Error, ErrorOf, Expected, Fault, FieldFault, FieldFaultOf, FieldFaultV, Fixed, RangeOf,
};
use crate::value;
use crate::value::{find_key, Val, Value};

verus! {

/// A piece of an error's text. `S` is a text and `V` a value.
pub enum PieceOf<S, V> {
    Text(S),
    /// The value, as the host prints it.
    Printed(V),
}

pub type Piece = PieceOf<String, Value>;

pub type PieceV = PieceOf<Seq<char>, Val>;

pub open spec fn piece_view(p: Piece) -> PieceV {
    match p {
        PieceOf::Text(t) => PieceOf::Text(t@),
        PieceOf::Printed(v) => PieceOf::Printed(v@),
    }
}

pub open spec fn pieces_view(p: Seq<Piece>) -> Seq<PieceV> {
    p.map_values(|p: Piece| piece_view(p))
}

/// How the type of a value prints.
pub open spec fn type_text(schema: Schema, v: Val) -> Seq<char> {
    match v {
        Val::Null => "<class 'NoneType'>"@,
        Val::Bool(_) => "<class 'bool'>"@,
        Val::Int(_) => "<class 'int'>"@,
        Val::Float(_) => "<class 'float'>"@,
        Val::Str(_) => "<class 'str'>"@,
        Val::Bytes(_) => "<class 'bytes'>"@,
        Val::ByteArray(_) => "<class 'bytearray'>"@,
        Val::List(_) => "<class 'list'>"@,
        Val::Dict(_) => "<class 'dict'>"@,
        Val::Message(m) => if m.desc < schema.messages@.len() {
            schema.messages@[m.desc as int].class_text@
        } else {
            "<class 'object'>"@
        },
        Val::Foreign(f) => f.type_text,
    }
}

/// How the type of a value prints.
pub fn text_of_type(schema: &Schema, v: &Value) -> (r: String)
    ensures
        r@ == type_text(*schema, v@),
{
    match v {
        Value::Null => "<class 'NoneType'>".to_owned(),
        Value::Bool(_) => "<class 'bool'>".to_owned(),
        Value::Int(_) => "<class 'int'>".to_owned(),
        Value::Float(_) => "<class 'float'>".to_owned(),
        Value::Str(_) => "<class 'str'>".to_owned(),
        Value::Bytes(_) => "<class 'bytes'>".to_owned(),
        Value::ByteArray(_) => "<class 'bytearray'>".to_owned(),
        Value::List(_) => "<class 'list'>".to_owned(),
        Value::Dict(_) => "<class 'dict'>".to_owned(),
        Value::Message(m) => if m.desc < schema.messages.len() {
            schema.messages[m.desc].class_text.clone()
        } else {
            "<class 'object'>".to_owned()
        },
        Value::Foreign(f) => f.type_text.clone(),
    }
}

pub open spec fn range_name(x: RangeOf) -> Seq<char> {
    match x {
        RangeOf::Int32 => "int32"@,
        RangeOf::Uint32 => "uint32"@,
        RangeOf::Int64 => "int64"@,
        RangeOf::Uint64 => "uint64"@,
        RangeOf::Float => "float"@,
    }
}

fn name_of_range(x: RangeOf) -> (r: &'static str)
    ensures
        r@ == range_name(x),
{
    match x {
        RangeOf::Int32 => "int32",
        RangeOf::Uint32 => "uint32",
        RangeOf::Int64 => "int64",
        RangeOf::Uint64 => "uint64",
        RangeOf::Float => "float",
    }
}

pub open spec fn expected_name(x: Expected) -> Seq<char> {
    match x {
        Expected::Bool => "bool"@,
        Expected::Int => "int"@,
        Expected::Float => "float"@,
        Expected::Str => "str"@,
        Expected::Bytes => "bytes"@,
        Expected::List => "list"@,
        Expected::Dict => "dict"@,
    }
}

fn name_of_expected(x: Expected) -> (r: &'static str)
    ensures
        r@ == expected_name(x),
{
    match x {
        Expected::Bool => "bool",
        Expected::Int => "int",
        Expected::Float => "float",
        Expected::Str => "str",
        Expected::Bytes => "bytes",
        Expected::List => "list",
        Expected::Dict => "dict",
    }
}

pub open spec fn fixed_text(x: Fixed) -> Seq<char> {
    match x {
        Fixed::FieldLookup => "field table lookup failed"@,
        Fixed::EnumLookup => "enum value table lookup failed"@,
        Fixed::StructMap => "expected map for Struct.fields"@,
        Fixed::StructValue => "expected Value for Struct.fields"@,
        Fixed::ListValueElement => "expected Value element for ListValue"@,
        Fixed::ValueKindMissing => "Value.kind oneof missing"@,
        Fixed::ValueNullEnum => "Value.null_value is not an enum"@,
        Fixed::MessageField => "expected message field"@,
        Fixed::TreeEnd => "unexpected end of JSON tree"@,
        Fixed::JsonType => "unexpected json type"@,
        Fixed::KeyNotString => "JSON object keys must be strings"@,
        Fixed::IntTooLarge => "int too large to convert to float"@,
        Fixed::ByteRange => "out of range integral type conversion attempted"@,
        Fixed::WordRange => "Python int too large to convert to C long"@,
        Fixed::TimestampSeconds => "timestamp seconds out of range"@,
        Fixed::TimestampNanos => "timestamp nanos out of range"@,
        Fixed::DurationSeconds => "duration seconds out of range"@,
        Fixed::DurationNanos => "duration nanos out of range"@,
        Fixed::DurationSigns => "duration seconds and nanos have different signs"@,
        Fixed::ValueUnset => "value must have exactly one field set"@,
        Fixed::ValueNotFinite => "value cannot be NaN or Infinity"@,
        Fixed::MapExtension => "map extensions are not supported"@,
        Fixed::NoValue => "no JSON value produced"@,
        Fixed::ValueWithoutKey => "object value without key"@,
        Fixed::KeyOutsideObject => "object key outside of object"@,
        Fixed::Shape => "message does not fit its type"@,
        Fixed::Answer => "answer does not fit its question"@,
    }
}

fn text_of_fixed(x: Fixed) -> (r: &'static str)
    ensures
        r@ == fixed_text(x),
{
    match x {
        Fixed::FieldLookup => "field table lookup failed",
        Fixed::EnumLookup => "enum value table lookup failed",
        Fixed::StructMap => "expected map for Struct.fields",
        Fixed::StructValue => "expected Value for Struct.fields",
        Fixed::ListValueElement => "expected Value element for ListValue",
        Fixed::ValueKindMissing => "Value.kind oneof missing",
        Fixed::ValueNullEnum => "Value.null_value is not an enum",
        Fixed::MessageField => "expected message field",
        Fixed::TreeEnd => "unexpected end of JSON tree",
        Fixed::JsonType => "unexpected json type",
        Fixed::KeyNotString => "JSON object keys must be strings",
        Fixed::IntTooLarge => "int too large to convert to float",
        Fixed::ByteRange => "out of range integral type conversion attempted",
        Fixed::WordRange => "Python int too large to convert to C long",
        Fixed::TimestampSeconds => "timestamp seconds out of range",
        Fixed::TimestampNanos => "timestamp nanos out of range",
        Fixed::DurationSeconds => "duration seconds out of range",
        Fixed::DurationNanos => "duration nanos out of range",
        Fixed::DurationSigns => "duration seconds and nanos have different signs",
        Fixed::ValueUnset => "value must have exactly one field set",
        Fixed::ValueNotFinite => "value cannot be NaN or Infinity",
        Fixed::MapExtension => "map extensions are not supported",
        Fixed::NoValue => "no JSON value produced",
        Fixed::ValueWithoutKey => "object value without key",
        Fixed::KeyOutsideObject => "object key outside of object",
        Fixed::Shape => "message does not fit its type",
        Fixed::Answer => "answer does not fit its question",
    }
}

/// The pieces of the text of what is wrong with a field's value.
pub open spec fn field_fault_pieces(schema: Schema, fault: FieldFaultV) -> Seq<PieceV> {
    match fault {
        FieldFaultOf::ExpectedList(v) => seq![
            PieceOf::Text("expected list got "@),
            PieceOf::Text(type_text(schema, v)),
        ],
        FieldFaultOf::ExpectedDict(v) => seq![
            PieceOf::Text("expected dict got "@),
            PieceOf::Text(type_text(schema, v)),
        ],
        FieldFaultOf::NullListItem => seq![PieceOf::Text("unexpected null value for list item"@)],
        FieldFaultOf::NullMapValue => seq![PieceOf::Text("unexpected null value for map value"@)],
        FieldFaultOf::BoolMapKey(s) => seq![
            PieceOf::Text("unexpected bool map key value "@),
            PieceOf::Text(s),
        ],
        FieldFaultOf::UnexpectedType(v) => seq![
            PieceOf::Text("unexpected json type: "@),
            PieceOf::Text(type_text(schema, v)),
        ],
        FieldFaultOf::FloatRange(bits) => seq![
            PieceOf::Text("float value out of range: "@),
            PieceOf::Text(double::displayed(bits)),
        ],
        FieldFaultOf::ExpectedString(v) => seq![
            PieceOf::Text("expected string got: "@),
            PieceOf::Text(type_text(schema, v)),
        ],
        FieldFaultOf::ExpectedBase64(v) => seq![
            PieceOf::Text("expected base64-encoded string got: "@),
            PieceOf::Text(type_text(schema, v)),
        ],
        FieldFaultOf::InvalidBase64 => seq![PieceOf::Text("invalid base64 data"@)],
        FieldFaultOf::NotFinite => seq![PieceOf::Text("unexpected infinite/NaN number"@)],
        FieldFaultOf::InvalidFloat(s) => seq![
            PieceOf::Text("invalid float/double value: "@),
            PieceOf::Text(s),
        ],
        FieldFaultOf::NotInteger(v) => seq![
            PieceOf::Text("expected integer, got non-integer float: "@),
            PieceOf::Printed(v),
        ],
        FieldFaultOf::InvalidInteger(s) => seq![PieceOf::Text("invalid integer value: "@), PieceOf::Text(s)],
        FieldFaultOf::InvalidIntegerText(s) => seq![
            PieceOf::Text("invalid integer value: '"@),
            PieceOf::Text(s),
            PieceOf::Text("'"@),
        ],
        FieldFaultOf::OutOfRange(v, range) => seq![
            PieceOf::Text("value "@),
            PieceOf::Printed(v),
            PieceOf::Text(" out of range for "@),
            PieceOf::Text(range_name(range)),
        ],
    }
}

/// The text of a value of a member `@type` that names no type.
pub open spec fn bad_type_piece(v: Val) -> PieceV {
    match v {
        Val::Dict(dict) => match value::dict_index(dict, Val::Str("@type"@)) {
            Some(i) => PieceOf::Printed(dict[i].1),
            None => PieceOf::Text("None"@),
        },
        _ => PieceOf::Text("None"@),
    }
}

/// The pieces of the text of an error. Errors that the host raises itself have none.
pub open spec fn fault_pieces(schema: Schema, fault: Fault) -> Seq<PieceV> {
    match fault {
        ErrorOf::RecursionLimit => seq![
            PieceOf::Text("exceeded maximum recursion depth 100 while parsing message"@),
        ],
        ErrorOf::CannotDecode { name, value } => seq![
            PieceOf::Text("cannot decode "@),
            PieceOf::Text(name),
            PieceOf::Text(" from JSON: "@),
            PieceOf::Printed(value),
        ],
        ErrorOf::CannotDecodeEnum { name, value } => seq![
            PieceOf::Text("cannot decode "@),
            PieceOf::Text(name),
            PieceOf::Text(" from JSON: "@),
            PieceOf::Printed(value),
        ],
        ErrorOf::DuplicateKey { key } => seq![PieceOf::Text("duplicate key: "@), PieceOf::Text(key)],
        ErrorOf::FieldTwice { first, second } => seq![
            PieceOf::Text("field set multiple times by "@),
            PieceOf::Text(first),
            PieceOf::Text(" and "@),
            PieceOf::Text(second),
        ],
        ErrorOf::OneofTwice { first, second } => seq![
            PieceOf::Text("oneof set multiple times by "@),
            PieceOf::Text(first),
            PieceOf::Text(" and "@),
            PieceOf::Text(second),
        ],
        ErrorOf::InvalidTimestamp { name } => seq![
            PieceOf::Text("cannot decode "@),
            PieceOf::Text(name),
            PieceOf::Text(" from JSON: invalid RFC 3339 string"@),
        ],
        ErrorOf::TimestampRange { name } => seq![
            PieceOf::Text("cannot decode "@),
            PieceOf::Text(name),
            PieceOf::Text(
                " from JSON: must be from 0001-01-01T00:00:00Z to 9999-12-31T23:59:59Z inclusive"@,
            ),
        ],
        ErrorOf::InvalidDuration { name, text } => seq![
            PieceOf::Text("cannot decode "@),
            PieceOf::Text(name),
            PieceOf::Text(" from JSON: "@),
            PieceOf::Text(text),
        ],
        ErrorOf::MaskNotCamel { name } => seq![
            PieceOf::Text("cannot decode "@),
            PieceOf::Text(name),
            PieceOf::Text(" from JSON: path names must be lowerCamelCase"@),
        ],
        ErrorOf::AnyUnknownType { name, url } => seq![
            PieceOf::Text("cannot decode "@),
            PieceOf::Text(name),
            PieceOf::Text(" from JSON: "@),
            PieceOf::Text(url),
            PieceOf::Text(" is not in the type registry"@),
        ],
        ErrorOf::UnknownKey { name, key } => seq![
            PieceOf::Text("cannot decode "@),
            PieceOf::Text(name),
            PieceOf::Text(" from JSON: key: '"@),
            PieceOf::Text(key),
            PieceOf::Text("' is unknown"@),
        ],
        ErrorOf::Syntax { message, .. } => seq![PieceOf::Text(message)],
        ErrorOf::TreeType { value } => seq![
            PieceOf::Text("unexpected type in JSON tree: "@),
            PieceOf::Text(type_text(schema, value)),
        ],
        ErrorOf::MaskIrreversible { path } => seq![
            PieceOf::Text("invalid FieldMask path: lowerCamelCase of "@),
            PieceOf::Text(path),
            PieceOf::Text(" is irreversible"@),
        ],
        ErrorOf::AnyWithoutRegistry { url } => seq![
            PieceOf::Text("any \""@),
            PieceOf::Text(url),
            PieceOf::Text("\" is not in the type registry"@),
        ],
        ErrorOf::AnyNotRegistered { url } => seq![
            PieceOf::Text("any: \""@),
            PieceOf::Text(url),
            PieceOf::Text("\" is not in the type registry"@),
        ],
        ErrorOf::InvalidTypeUrl { url } => seq![PieceOf::Text("invalid type url: "@), PieceOf::Text(url)],
        ErrorOf::EnumType { name, value } => seq![
            PieceOf::Text("expected int for enum "@),
            PieceOf::Text(name),
            PieceOf::Text(", got "@),
            PieceOf::Text(type_text(schema, value)),
        ],
        ErrorOf::EnumValue { name, value } => seq![
            PieceOf::Text("invalid enum value "@),
            PieceOf::Printed(value),
            PieceOf::Text(" for enum "@),
            PieceOf::Text(name),
        ],
        ErrorOf::ValueType { want, value } => seq![
            PieceOf::Text("expected "@),
            PieceOf::Text(expected_name(want)),
            PieceOf::Text(", got "@),
            PieceOf::Text(type_text(schema, value)),
        ],
        ErrorOf::ValueRange { value, range } => seq![
            PieceOf::Text("value "@),
            PieceOf::Printed(value),
            PieceOf::Text(" out of range for "@),
            PieceOf::Text(range_name(range)),
        ],
        ErrorOf::MessageType { expected, actual } => seq![
            PieceOf::Text("expected '"@),
            PieceOf::Text(expected),
            PieceOf::Text("', got '"@),
            PieceOf::Text(actual),
            PieceOf::Text("'"@),
        ],
        ErrorOf::NotMessage { expected, value } => seq![
            PieceOf::Text("expected '"@),
            PieceOf::Text(expected),
            PieceOf::Text("', got "@),
            PieceOf::Text(type_text(schema, value)),
        ],
        ErrorOf::AnyTypeInvalid { name, value } => seq![
            PieceOf::Text("cannot decode "@),
            PieceOf::Text(name),
            PieceOf::Text(" from JSON: "@),
            PieceOf::Printed(value),
            PieceOf::Text(", @type is invalid: "@),
            bad_type_piece(value),
        ],
        ErrorOf::Field { fault, name, field } => field_fault_pieces(schema, fault) + seq![
            PieceOf::Text(" for field "@),
            PieceOf::Text(name),
            PieceOf::Text("."@),
            PieceOf::Text(field),
        ],
        ErrorOf::Fixed(f) => seq![PieceOf::Text(fixed_text(f))],
        ErrorOf::NoEnumMember { .. }
        | ErrorOf::Cast { .. }
        | ErrorOf::Asked(_)
        | ErrorOf::Raised(_) => seq![],
    }
}

fn lit(t: &str) -> (r: Piece)
    ensures
        piece_view(r) == PieceOf::<Seq<char>, Val>::Text(t@),
{
    PieceOf::Text(t.to_owned())
}

fn pieces1(a: Piece) -> (r: Vec<Piece>)
    ensures
        pieces_view(r@) == seq![piece_view(a)],
{
    let mut r: Vec<Piece> = Vec::new();
    r.push(a);
    assert(pieces_view(r@) =~= seq![piece_view(a)]);
    r
}

fn pieces2(a: Piece, b: Piece) -> (r: Vec<Piece>)
    ensures
        pieces_view(r@) == seq![piece_view(a), piece_view(b)],
{
    let mut r: Vec<Piece> = Vec::new();
    r.push(a);
    r.push(b);
    assert(pieces_view(r@) =~= seq![piece_view(a), piece_view(b)]);
    r
}

fn pieces3(a: Piece, b: Piece, c: Piece) -> (r: Vec<Piece>)
    ensures
        pieces_view(r@) == seq![piece_view(a), piece_view(b), piece_view(c)],
{
    let mut r: Vec<Piece> = Vec::new();
    r.push(a);
    r.push(b);
    r.push(c);
    assert(pieces_view(r@) =~= seq![piece_view(a), piece_view(b), piece_view(c)]);
    r
}

fn pieces4(a: Piece, b: Piece, c: Piece, d: Piece) -> (r: Vec<Piece>)
    ensures
        pieces_view(r@) == seq![piece_view(a), piece_view(b), piece_view(c), piece_view(d)],
{
    let mut r: Vec<Piece> = Vec::new();
    r.push(a);
    r.push(b);
    r.push(c);
    r.push(d);
    assert(pieces_view(r@) =~= seq![piece_view(a), piece_view(b), piece_view(c), piece_view(d)]);
    r
}

fn pieces5(a: Piece, b: Piece, c: Piece, d: Piece, e: Piece) -> (r: Vec<Piece>)
    ensures
        pieces_view(r@) == seq![piece_view(a), piece_view(b), piece_view(c), piece_view(d), piece_view(e)],
{
    let mut r: Vec<Piece> = Vec::new();
    r.push(a);
    r.push(b);
    r.push(c);
    r.push(d);
    r.push(e);
    assert(pieces_view(r@) =~= seq![
        piece_view(a),
        piece_view(b),
        piece_view(c),
        piece_view(d),
        piece_view(e),
    ]);
    r
}

fn pieces6(a: Piece, b: Piece, c: Piece, d: Piece, e: Piece, f: Piece) -> (r: Vec<Piece>)
    ensures
        pieces_view(r@) == seq![
            piece_view(a),
            piece_view(b),
            piece_view(c),
            piece_view(d),
            piece_view(e),
            piece_view(f),
        ],
{
    let mut r: Vec<Piece> = Vec::new();
    r.push(a);
    r.push(b);
    r.push(c);
    r.push(d);
    r.push(e);
    r.push(f);
    assert(pieces_view(r@) =~= seq![
        piece_view(a),
        piece_view(b),
        piece_view(c),
        piece_view(d),
        piece_view(e),
        piece_view(f),
    ]);
    r
}

/// The pieces of the text of what is wrong with a field's value.
fn field_fault_message(schema: &Schema, fault: FieldFault) -> (r: Vec<Piece>)
    ensures
        pieces_view(r@) == field_fault_pieces(*schema, error::field_fault_view(fault)),
{
    match fault {
        FieldFaultOf::ExpectedList(v) => pieces2(
            lit("expected list got "),
            PieceOf::Text(text_of_type(schema, &v)),
        ),
        FieldFaultOf::ExpectedDict(v) => pieces2(
            lit("expected dict got "),
            PieceOf::Text(text_of_type(schema, &v)),
        ),
        FieldFaultOf::NullListItem => pieces1(lit("unexpected null value for list item")),
        FieldFaultOf::NullMapValue => pieces1(lit("unexpected null value for map value")),
        FieldFaultOf::BoolMapKey(s) => pieces2(lit("unexpected bool map key value "), PieceOf::Text(s)),
        FieldFaultOf::UnexpectedType(v) => pieces2(
            lit("unexpected json type: "),
            PieceOf::Text(text_of_type(schema, &v)),
        ),
        FieldFaultOf::FloatRange(bits) => pieces2(
            lit("float value out of range: "),
            PieceOf::Text(display_double(bits)),
        ),
        FieldFaultOf::ExpectedString(v) => pieces2(
            lit("expected string got: "),
            PieceOf::Text(text_of_type(schema, &v)),
        ),
        FieldFaultOf::ExpectedBase64(v) => pieces2(
            lit("expected base64-encoded string got: "),
            PieceOf::Text(text_of_type(schema, &v)),
        ),
        FieldFaultOf::InvalidBase64 => pieces1(lit("invalid base64 data")),
        FieldFaultOf::NotFinite => pieces1(lit("unexpected infinite/NaN number")),
        FieldFaultOf::InvalidFloat(s) => pieces2(lit("invalid float/double value: "), PieceOf::Text(s)),
        FieldFaultOf::NotInteger(v) => pieces2(
            lit("expected integer, got non-integer float: "),
            PieceOf::Printed(v),
        ),
        FieldFaultOf::InvalidInteger(s) => pieces2(lit("invalid integer value: "), PieceOf::Text(s)),
        FieldFaultOf::InvalidIntegerText(s) => pieces3(
            lit("invalid integer value: '"),
            PieceOf::Text(s),
            lit("'"),
        ),
        FieldFaultOf::OutOfRange(v, range) => pieces4(
            lit("value "),
            PieceOf::Printed(v),
            lit(" out of range for "),
            lit(name_of_range(range)),
        ),
    }
}

fn bad_type(v: &Value) -> (r: Piece)
    ensures
        piece_view(r) == bad_type_piece(v@),
{
    match v {
        Value::Dict(dict) => match find_key(dict, &Value::Str("@type".to_owned())) {
            Some(i) => PieceOf::Printed(dict[i].1.copy()),
            None => lit("None"),
        },
        _ => lit("None"),
    }
}

/// The pieces of the text of an error. Errors that the host raises itself have none.
pub fn error_message(schema: &Schema, e: Error) -> (r: Vec<Piece>)
    ensures
        pieces_view(r@) == fault_pieces(*schema, error::fault_of(e)),
{
    match e {
        ErrorOf::RecursionLimit => pieces1(lit("exceeded maximum recursion depth 100 while parsing message")),
        ErrorOf::CannotDecode { name, value } => pieces4(
            lit("cannot decode "),
            PieceOf::Text(name),
            lit(" from JSON: "),
            PieceOf::Printed(value),
        ),
        ErrorOf::CannotDecodeEnum { name, value } => pieces4(
            lit("cannot decode "),
            PieceOf::Text(name),
            lit(" from JSON: "),
            PieceOf::Printed(value),
        ),
        ErrorOf::DuplicateKey { key } => pieces2(lit("duplicate key: "), PieceOf::Text(key)),
        ErrorOf::FieldTwice { first, second } => pieces4(
            lit("field set multiple times by "),
            PieceOf::Text(first),
            lit(" and "),
            PieceOf::Text(second),
        ),
        ErrorOf::OneofTwice { first, second } => pieces4(
            lit("oneof set multiple times by "),
            PieceOf::Text(first),
            lit(" and "),
            PieceOf::Text(second),
        ),
        ErrorOf::InvalidTimestamp { name } => pieces3(
            lit("cannot decode "),
            PieceOf::Text(name),
            lit(" from JSON: invalid RFC 3339 string"),
        ),
        ErrorOf::TimestampRange { name } => pieces3(
            lit("cannot decode "),
            PieceOf::Text(name),
            lit(" from JSON: must be from 0001-01-01T00:00:00Z to 9999-12-31T23:59:59Z inclusive"),
        ),
        ErrorOf::InvalidDuration { name, text } => pieces4(
            lit("cannot decode "),
            PieceOf::Text(name),
            lit(" from JSON: "),
            PieceOf::Text(text),
        ),
        ErrorOf::MaskNotCamel { name } => pieces3(
            lit("cannot decode "),
            PieceOf::Text(name),
            lit(" from JSON: path names must be lowerCamelCase"),
        ),
        ErrorOf::AnyUnknownType { name, url } => pieces5(
            lit("cannot decode "),
            PieceOf::Text(name),
            lit(" from JSON: "),
            PieceOf::Text(url),
            lit(" is not in the type registry"),
        ),
        ErrorOf::UnknownKey { name, key } => pieces5(
            lit("cannot decode "),
            PieceOf::Text(name),
            lit(" from JSON: key: '"),
            PieceOf::Text(key),
            lit("' is unknown"),
        ),
        ErrorOf::Syntax { message, .. } => pieces1(PieceOf::Text(message)),
        ErrorOf::TreeType { value } => pieces2(
            lit("unexpected type in JSON tree: "),
            PieceOf::Text(text_of_type(schema, &value)),
        ),
        ErrorOf::MaskIrreversible { path } => pieces3(
            lit("invalid FieldMask path: lowerCamelCase of "),
            PieceOf::Text(path),
            lit(" is irreversible"),
        ),
        ErrorOf::AnyWithoutRegistry { url } => pieces3(
            lit("any \""),
            PieceOf::Text(url),
            lit("\" is not in the type registry"),
        ),
        ErrorOf::AnyNotRegistered { url } => pieces3(
            lit("any: \""),
            PieceOf::Text(url),
            lit("\" is not in the type registry"),
        ),
        ErrorOf::InvalidTypeUrl { url } => pieces2(lit("invalid type url: "), PieceOf::Text(url)),
        ErrorOf::EnumType { name, value } => pieces4(
            lit("expected int for enum "),
            PieceOf::Text(name),
            lit(", got "),
            PieceOf::Text(text_of_type(schema, &value)),
        ),
        ErrorOf::EnumValue { name, value } => pieces4(
            lit("invalid enum value "),
            PieceOf::Printed(value),
            lit(" for enum "),
            PieceOf::Text(name),
        ),
        ErrorOf::ValueType { want, value } => pieces4(
            lit("expected "),
            lit(name_of_expected(want)),
            lit(", got "),
            PieceOf::Text(text_of_type(schema, &value)),
        ),
        ErrorOf::ValueRange { value, range } => pieces4(
            lit("value "),
            PieceOf::Printed(value),
            lit(" out of range for "),
            lit(name_of_range(range)),
        ),
        ErrorOf::MessageType { expected, actual } => pieces5(
            lit("expected '"),
            PieceOf::Text(expected),
            lit("', got '"),
            PieceOf::Text(actual),
            lit("'"),
        ),
        ErrorOf::NotMessage { expected, value } => pieces4(
            lit("expected '"),
            PieceOf::Text(expected),
            lit("', got "),
            PieceOf::Text(text_of_type(schema, &value)),
        ),
        ErrorOf::AnyTypeInvalid { name, value } => {
            let last: Piece = bad_type(&value);
            pieces6(
                lit("cannot decode "),
                PieceOf::Text(name),
                lit(" from JSON: "),
                PieceOf::Printed(value),
                lit(", @type is invalid: "),
                last,
            )
        },
        ErrorOf::Field { fault, name, field } => {
            let mut r: Vec<Piece> = field_fault_message(schema, fault);
            let ghost start = pieces_view(r@);
            r.push(lit(" for field "));
            r.push(PieceOf::Text(name));
            r.push(lit("."));
            r.push(PieceOf::Text(field));
            assert(pieces_view(r@) =~= start + seq![
                PieceOf::Text(" for field "@),
                PieceOf::Text(name@),
                PieceOf::Text("."@),
                PieceOf::Text(field@),
            ]);
            r
        },
        ErrorOf::Fixed(f) => pieces1(lit(text_of_fixed(f))),
        ErrorOf::NoEnumMember { .. }
        | ErrorOf::Cast { .. }
        | ErrorOf::Asked(_)
        | ErrorOf::Raised(_) => {
            let r: Vec<Piece> = Vec::new();
            assert(pieces_view(r@) =~= seq![]);
            r
        },
    }
}

/// The text of an error in a field ends with the names of the message type and the field, and tells
/// in front of them what is wrong.
pub proof fn lemma_reports_name_the_field(
    schema: Schema,
    fault: FieldFaultV,
    name: Seq<char>,
    field: Seq<char>,
)
    ensures
        ({
            let pieces = fault_pieces(schema, ErrorOf::Field { fault, name, field });
            let n = pieces.len() as int;
            &&& n > 4
            &&& pieces[n - 4] == PieceOf::<Seq<char>, Val>::Text(" for field "@)
            &&& pieces[n - 3] == PieceOf::<Seq<char>, Val>::Text(name)
            &&& pieces[n - 2] == PieceOf::<Seq<char>, Val>::Text("."@)
            &&& pieces[n - 1] == PieceOf::<Seq<char>, Val>::Text(field)
        }),
{
}

/// The names of ranges and of expected types tell them apart.
pub proof fn lemma_names_tell_apart(
    a: RangeOf,
    b: RangeOf,
    x: Expected,
    y: Expected,
)
    ensures
        range_name(a) == range_name(b) ==> a == b,
        expected_name(x) == expected_name(y) ==> x == y,
{
    reveal_strlit("int32");
    reveal_strlit("uint32");
    reveal_strlit("int64");
    reveal_strlit("uint64");
    reveal_strlit("float");
    reveal_strlit("bool");
    reveal_strlit("int");
    reveal_strlit("str");
    reveal_strlit("bytes");
    reveal_strlit("list");
    reveal_strlit("dict");
    assert("int32"@[3] == '3' && "int64"@[3] == '6' && "uint32"@[4] == '3' && "uint64"@[4] == '6');
    assert("int32"@.len() == 5 && "int64"@.len() == 5 && "uint32"@.len() == 6 && "uint64"@.len() == 6
        && "float"@.len() == 5 && "float"@[0] == 'f' && "int32"@[0] == 'i' && "int64"@[0] == 'i');
    assert("bool"@.len() == 4 && "int"@.len() == 3 && "str"@.len() == 3 && "bytes"@.len() == 5
        && "list"@.len() == 4 && "dict"@.len() == 4);
    assert("bool"@[0] == 'b' && "int"@[0] == 'i' && "str"@[0] == 's' && "bytes"@[0] == 'b'
        && "list"@[0] == 'l' && "dict"@[0] == 'd');
}

/// A report tells what the error is about, in the order that it is told: the type first and then the
/// key, the value first and then its range, what was expected first and then what was met.
pub proof fn lemma_reports_tell_their_subjects(
    schema: Schema,
    a: Seq<char>,
    b: Seq<char>,
    v: Val,
    range: RangeOf,
    want: Expected,
)
    ensures
        ({
            let told = |fault: Fault, i: int| fault_pieces(schema, fault)[i];
            let word = |t: Seq<char>| PieceOf::<Seq<char>, Val>::Text(t);
            let shown = |v: Val| PieceOf::<Seq<char>, Val>::Printed(v);
            let kind = word(type_text(schema, v));
            &&& told(ErrorOf::UnknownKey { name: a, key: b }, 1) == word(a)
            &&& told(ErrorOf::UnknownKey { name: a, key: b }, 3) == word(b)
            &&& told(ErrorOf::CannotDecode { name: a, value: v }, 1) == word(a)
            &&& told(ErrorOf::CannotDecode { name: a, value: v }, 3) == shown(v)
            &&& told(ErrorOf::CannotDecodeEnum { name: a, value: v }, 1) == word(a)
            &&& told(ErrorOf::CannotDecodeEnum { name: a, value: v }, 3) == shown(v)
            &&& told(ErrorOf::FieldTwice { first: a, second: b }, 1) == word(a)
            &&& told(ErrorOf::FieldTwice { first: a, second: b }, 3) == word(b)
            &&& told(ErrorOf::OneofTwice { first: a, second: b }, 1) == word(a)
            &&& told(ErrorOf::OneofTwice { first: a, second: b }, 3) == word(b)
            &&& told(ErrorOf::DuplicateKey { key: a }, 1) == word(a)
            &&& told(ErrorOf::InvalidTimestamp { name: a }, 1) == word(a)
            &&& told(ErrorOf::TimestampRange { name: a }, 1) == word(a)
            &&& told(ErrorOf::InvalidDuration { name: a, text: b }, 1) == word(a)
            &&& told(ErrorOf::InvalidDuration { name: a, text: b }, 3) == word(b)
            &&& told(ErrorOf::MaskNotCamel { name: a }, 1) == word(a)
            &&& told(ErrorOf::MaskIrreversible { path: a }, 1) == word(a)
            &&& told(ErrorOf::AnyUnknownType { name: a, url: b }, 1) == word(a)
            &&& told(ErrorOf::AnyUnknownType { name: a, url: b }, 3) == word(b)
            &&& told(ErrorOf::AnyWithoutRegistry { url: a }, 1) == word(a)
            &&& told(ErrorOf::AnyNotRegistered { url: a }, 1) == word(a)
            &&& told(ErrorOf::InvalidTypeUrl { url: a }, 1) == word(a)
            &&& told(ErrorOf::TreeType { value: v }, 1) == kind
            &&& told(ErrorOf::EnumType { name: a, value: v }, 1) == word(a)
            &&& told(ErrorOf::EnumType { name: a, value: v }, 3) == kind
            &&& told(ErrorOf::EnumValue { name: a, value: v }, 1) == shown(v)
            &&& told(ErrorOf::EnumValue { name: a, value: v }, 3) == word(a)
            &&& told(ErrorOf::ValueType { want, value: v }, 1) == word(expected_name(want))
            &&& told(ErrorOf::ValueType { want, value: v }, 3) == kind
            &&& told(ErrorOf::ValueRange { value: v, range }, 1) == shown(v)
            &&& told(ErrorOf::ValueRange { value: v, range }, 3) == word(range_name(range))
            &&& told(ErrorOf::MessageType { expected: a, actual: b }, 1) == word(a)
            &&& told(ErrorOf::MessageType { expected: a, actual: b }, 3) == word(b)
            &&& told(ErrorOf::NotMessage { expected: a, value: v }, 1) == word(a)
            &&& told(ErrorOf::NotMessage { expected: a, value: v }, 3) == kind
        }),
{
}

/// The texts of the types of plain values tell these apart.
pub proof fn lemma_type_texts_tell_apart(schema: Schema, v: Val, w: Val)
    requires
        !(v is Message) && !(v is Foreign),
        !(w is Message) && !(w is Foreign),
        type_text(schema, v) == type_text(schema, w),
    ensures
        v is Null == w is Null,
        v is Bool == w is Bool,
        v is Int == w is Int,
        v is Float == w is Float,
        v is Str == w is Str,
        v is Bytes == w is Bytes,
        v is ByteArray == w is ByteArray,
        v is List == w is List,
        v is Dict == w is Dict,
{
    reveal_strlit("<class 'NoneType'>");
    reveal_strlit("<class 'bool'>");
    reveal_strlit("<class 'int'>");
    reveal_strlit("<class 'float'>");
    reveal_strlit("<class 'str'>");
    reveal_strlit("<class 'bytes'>");
    reveal_strlit("<class 'bytearray'>");
    reveal_strlit("<class 'list'>");
    reveal_strlit("<class 'dict'>");
    assert("<class 'NoneType'>"@[8] == 'N' && "<class 'bool'>"@[8] == 'b' && "<class 'int'>"@[8] == 'i'
        && "<class 'float'>"@[8] == 'f' && "<class 'str'>"@[8] == 's' && "<class 'bytes'>"@[8] == 'b'
        && "<class 'bytearray'>"@[8] == 'b' && "<class 'list'>"@[8] == 'l' && "<class 'dict'>"@[8]
        == 'd');
    assert("<class 'bool'>"@.len() == 14 && "<class 'bytes'>"@.len() == 15
        && "<class 'bytearray'>"@.len() == 19);
}

} // verus!
