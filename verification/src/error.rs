//! What goes wrong when messages are read and written, and the texts that say so.

use vstd::prelude::*;
use vstd::string::*;
use crate::question;
use crate::question::QuestionOf;
use crate::value::{Message, Msg, Val, Value};

verus! {

/// Errors with a fixed text.
#[derive(Clone, Copy, Debug, PartialEq, Eq, Structural)]
pub enum Fixed {
    FieldLookup,
    EnumLookup,
    StructMap,
    StructValue,
    ListValueElement,
    ValueKindMissing,
    ValueNullEnum,
    MessageField,
    TreeEnd,
    JsonType,
    KeyNotString,
    IntTooLarge,
    ByteRange,
    WordRange,
    TimestampSeconds,
    TimestampNanos,
    DurationSeconds,
    DurationNanos,
    DurationSigns,
    ValueUnset,
    ValueNotFinite,
    MapExtension,
    NoValue,
    ValueWithoutKey,
    KeyOutsideObject,
    /// A message does not have the fields of its type, or a type refers to one that is missing.
    Shape,
    /// An answer is of another kind than its question.
    Answer,
}

/// Number types with a range.
#[derive(Clone, Copy, Debug, PartialEq, Eq, Structural)]
pub enum RangeOf {
    Int32,
    Uint32,
    Int64,
    Uint64,
    Float,
}

/// What a value was expected to be.
#[derive(Clone, Copy, Debug, PartialEq, Eq, Structural)]
pub enum Expected {
    Bool,
    Int,
    Float,
    Str,
    Bytes,
    List,
    Dict,
}

/// What is wrong with the JSON value of a field. `S` is a text and `V` a value.
pub enum FieldFaultOf<S, V> {
    ExpectedList(V),
    ExpectedDict(V),
    NullListItem,
    NullMapValue,
    BoolMapKey(S),
    UnexpectedType(V),
    FloatRange(u64),
    ExpectedString(V),
    ExpectedBase64(V),
    InvalidBase64,
    NotFinite,
    InvalidFloat(S),
    NotInteger(V),
    InvalidInteger(S),
    InvalidIntegerText(S),
    OutOfRange(V, RangeOf),
}

/// An error. `S` is a text, `V` a value, `M` a message and `B` a string of bytes.
pub enum ErrorOf<S, V, M, B> {
    RecursionLimit,
    /// A JSON value that a message type cannot be read from.
    CannotDecode { name: S, value: V },
    /// A JSON value that an enum type cannot be read from.
    CannotDecodeEnum { name: S, value: V },
    /// A number that is no member of a closed enum.
    NoEnumMember { name: S, value: V },
    DuplicateKey { key: S },
    FieldTwice { first: S, second: S },
    OneofTwice { first: S, second: S },
    /// A fault of a field's value, with the names of the message type and the field.
    Field { fault: FieldFaultOf<S, V>, name: S, field: S },
    InvalidTimestamp { name: S },
    TimestampRange { name: S },
    InvalidDuration { name: S, text: S },
    MaskNotCamel { name: S },
    AnyTypeInvalid { name: S, value: V },
    AnyUnknownType { name: S, url: S },
    UnknownKey { name: S, key: S },
    /// The document is not JSON.
    Syntax { message: S, index: usize },
    /// An object in a JSON tree that is no JSON value.
    TreeType { value: V },
    /// A value is of another type than the one it is used as.
    Cast { value: V, to: Expected },
    MaskIrreversible { path: S },
    AnyWithoutRegistry { url: S },
    AnyNotRegistered { url: S },
    InvalidTypeUrl { url: S },
    EnumType { name: S, value: V },
    EnumValue { name: S, value: V },
    /// A field's value is of another type than the field.
    ValueType { want: Expected, value: V },
    ValueRange { value: V, range: RangeOf },
    /// A message of another type than the field's.
    MessageType { expected: S, actual: S },
    /// No message where the field's type is one.
    NotMessage { expected: S, value: V },
    Fixed(Fixed),
    /// The host has to answer a question first.
    Asked(QuestionOf<S, V, M, B>),
    /// The host failed to answer a question; the number is the host's own.
    Raised(u64),
}

pub type FieldFault = FieldFaultOf<String, Value>;

pub type FieldFaultV = FieldFaultOf<Seq<char>, Val>;

pub type Error = ErrorOf<String, Value, Message, Vec<u8>>;

/// What an [`Error`] stands for.
pub type Fault = ErrorOf<Seq<char>, Val, Msg, Seq<u8>>;

pub open spec fn field_fault_view(e: FieldFault) -> FieldFaultV {
    match e {
        FieldFaultOf::ExpectedList(v) => FieldFaultOf::ExpectedList(v@),
        FieldFaultOf::ExpectedDict(v) => FieldFaultOf::ExpectedDict(v@),
        FieldFaultOf::NullListItem => FieldFaultOf::NullListItem,
        FieldFaultOf::NullMapValue => FieldFaultOf::NullMapValue,
        FieldFaultOf::BoolMapKey(s) => FieldFaultOf::BoolMapKey(s@),
        FieldFaultOf::UnexpectedType(v) => FieldFaultOf::UnexpectedType(v@),
        FieldFaultOf::FloatRange(b) => FieldFaultOf::FloatRange(b),
        FieldFaultOf::ExpectedString(v) => FieldFaultOf::ExpectedString(v@),
        FieldFaultOf::ExpectedBase64(v) => FieldFaultOf::ExpectedBase64(v@),
        FieldFaultOf::InvalidBase64 => FieldFaultOf::InvalidBase64,
        FieldFaultOf::NotFinite => FieldFaultOf::NotFinite,
        FieldFaultOf::InvalidFloat(s) => FieldFaultOf::InvalidFloat(s@),
        FieldFaultOf::NotInteger(v) => FieldFaultOf::NotInteger(v@),
        FieldFaultOf::InvalidInteger(s) => FieldFaultOf::InvalidInteger(s@),
        FieldFaultOf::InvalidIntegerText(s) => FieldFaultOf::InvalidIntegerText(s@),
        FieldFaultOf::OutOfRange(v, k) => FieldFaultOf::OutOfRange(v@, k),
    }
}

/// What an error stands for.
pub open spec fn fault_of(e: Error) -> Fault {
    match e {
        ErrorOf::RecursionLimit => ErrorOf::RecursionLimit,
        ErrorOf::CannotDecode { name, value } => ErrorOf::CannotDecode {
            name: name@,
            value: value@,
        },
        ErrorOf::CannotDecodeEnum { name, value } => ErrorOf::CannotDecodeEnum {
            name: name@,
            value: value@,
        },
        ErrorOf::NoEnumMember { name, value } => ErrorOf::NoEnumMember {
            name: name@,
            value: value@,
        },
        ErrorOf::DuplicateKey { key } => ErrorOf::DuplicateKey { key: key@ },
        ErrorOf::FieldTwice { first, second } => ErrorOf::FieldTwice {
            first: first@,
            second: second@,
        },
        ErrorOf::OneofTwice { first, second } => ErrorOf::OneofTwice {
            first: first@,
            second: second@,
        },
        ErrorOf::Field { fault, name, field } => ErrorOf::Field {
            fault: field_fault_view(fault),
            name: name@,
            field: field@,
        },
        ErrorOf::InvalidTimestamp { name } => ErrorOf::InvalidTimestamp { name: name@ },
        ErrorOf::TimestampRange { name } => ErrorOf::TimestampRange { name: name@ },
        ErrorOf::InvalidDuration { name, text } => ErrorOf::InvalidDuration {
            name: name@,
            text: text@,
        },
        ErrorOf::MaskNotCamel { name } => ErrorOf::MaskNotCamel { name: name@ },
        ErrorOf::AnyTypeInvalid { name, value } => ErrorOf::AnyTypeInvalid {
            name: name@,
            value: value@,
        },
        ErrorOf::AnyUnknownType { name, url } => ErrorOf::AnyUnknownType {
            name: name@,
            url: url@,
        },
        ErrorOf::UnknownKey { name, key } => ErrorOf::UnknownKey { name: name@, key: key@ },
        ErrorOf::Syntax { message, index } => ErrorOf::Syntax { message: message@, index },
        ErrorOf::TreeType { value } => ErrorOf::TreeType { value: value@ },
        ErrorOf::Cast { value, to } => ErrorOf::Cast { value: value@, to },
        ErrorOf::MaskIrreversible { path } => ErrorOf::MaskIrreversible { path: path@ },
        ErrorOf::AnyWithoutRegistry { url } => ErrorOf::AnyWithoutRegistry { url: url@ },
        ErrorOf::AnyNotRegistered { url } => ErrorOf::AnyNotRegistered { url: url@ },
        ErrorOf::InvalidTypeUrl { url } => ErrorOf::InvalidTypeUrl { url: url@ },
        ErrorOf::EnumType { name, value } => ErrorOf::EnumType { name: name@, value: value@ },
        ErrorOf::EnumValue { name, value } => ErrorOf::EnumValue { name: name@, value: value@ },
        ErrorOf::ValueType { want, value } => ErrorOf::ValueType { want, value: value@ },
        ErrorOf::ValueRange { value, range } => ErrorOf::ValueRange { value: value@, range },
        ErrorOf::MessageType { expected, actual } => ErrorOf::MessageType {
            expected: expected@,
            actual: actual@,
        },
        ErrorOf::NotMessage { expected, value } => ErrorOf::NotMessage {
            expected: expected@,
            value: value@,
        },
        ErrorOf::Fixed(f) => ErrorOf::Fixed(f),
        ErrorOf::Asked(q) => ErrorOf::Asked(question::question_view(q)),
        ErrorOf::Raised(n) => ErrorOf::Raised(n),
    }
}

/// What the outcome of a step stands for.
pub open spec fn outcome<T>(r: Result<T, Error>) -> Result<T, Fault> {
    match r {
        Ok(t) => Ok(t),
        Err(e) => Err(fault_of(e)),
    }
}

/// What the outcome of reading a text stands for.
pub open spec fn text_outcome(r: Result<String, Error>) -> Result<Seq<char>, Fault> {
    match r {
        Ok(s) => Ok(s@),
        Err(e) => Err(fault_of(e)),
    }
}

/// The kinds of exceptions that errors are raised as.
#[derive(Clone, Copy, Debug, PartialEq, Eq, Structural)]
pub enum ErrorClass {
    Value,
    Type,
    Overflow,
    Recursion,
    JsonDecode,
    /// The host makes the exception and its text.
    Host,
}

pub open spec fn field_fault_class<S, V>(fault: FieldFaultOf<S, V>) -> ErrorClass {
    match fault {
        FieldFaultOf::ExpectedList(_)
        | FieldFaultOf::ExpectedDict(_)
        | FieldFaultOf::UnexpectedType(_)
        | FieldFaultOf::ExpectedString(_)
        | FieldFaultOf::ExpectedBase64(_) => ErrorClass::Type,
        FieldFaultOf::FloatRange(_) | FieldFaultOf::OutOfRange(_, _) => ErrorClass::Overflow,
        _ => ErrorClass::Value,
    }
}

/// The kind of exception that an error is raised as.
pub open spec fn class_of<S, V, M, B>(e: ErrorOf<S, V, M, B>) -> ErrorClass {
    match e {
        ErrorOf::RecursionLimit => ErrorClass::Recursion,
        ErrorOf::Syntax { .. } => ErrorClass::JsonDecode,
        ErrorOf::Field { fault, .. } => field_fault_class(fault),
        ErrorOf::CannotDecode { .. }
        | ErrorOf::TreeType { .. }
        | ErrorOf::EnumType { .. }
        | ErrorOf::ValueType { .. }
        | ErrorOf::MessageType { .. }
        | ErrorOf::NotMessage { .. }
        | ErrorOf::Fixed(Fixed::KeyNotString) => ErrorClass::Type,
        ErrorOf::ValueRange { .. }
        | ErrorOf::Fixed(Fixed::IntTooLarge)
        | ErrorOf::Fixed(Fixed::ByteRange)
        | ErrorOf::Fixed(Fixed::WordRange) => ErrorClass::Overflow,
        ErrorOf::NoEnumMember { .. }
        | ErrorOf::Cast { .. }
        | ErrorOf::Asked(_)
        | ErrorOf::Raised(_) => ErrorClass::Host,
        _ => ErrorClass::Value,
    }
}

fn field_class(fault: &FieldFault) -> (r: ErrorClass)
    ensures
        r == field_fault_class(*fault),
{
    match fault {
        FieldFaultOf::ExpectedList(_)
        | FieldFaultOf::ExpectedDict(_)
        | FieldFaultOf::UnexpectedType(_)
        | FieldFaultOf::ExpectedString(_)
        | FieldFaultOf::ExpectedBase64(_) => ErrorClass::Type,
        FieldFaultOf::FloatRange(_) | FieldFaultOf::OutOfRange(_, _) => ErrorClass::Overflow,
        _ => ErrorClass::Value,
    }
}

/// The kind of exception that an error is raised as.
pub fn error_class(e: &Error) -> (r: ErrorClass)
    ensures
        r == class_of(*e),
{
    match e {
        ErrorOf::RecursionLimit => ErrorClass::Recursion,
        ErrorOf::Syntax { .. } => ErrorClass::JsonDecode,
        ErrorOf::Field { fault, .. } => field_class(fault),
        ErrorOf::CannotDecode { .. }
        | ErrorOf::TreeType { .. }
        | ErrorOf::EnumType { .. }
        | ErrorOf::ValueType { .. }
        | ErrorOf::MessageType { .. }
        | ErrorOf::NotMessage { .. }
        | ErrorOf::Fixed(Fixed::KeyNotString) => ErrorClass::Type,
        ErrorOf::ValueRange { .. }
        | ErrorOf::Fixed(Fixed::IntTooLarge)
        | ErrorOf::Fixed(Fixed::ByteRange)
        | ErrorOf::Fixed(Fixed::WordRange) => ErrorClass::Overflow,
        ErrorOf::NoEnumMember { .. }
        | ErrorOf::Cast { .. }
        | ErrorOf::Asked(_)
        | ErrorOf::Raised(_) => ErrorClass::Host,
        _ => ErrorClass::Value,
    }
}

} // verus!
