//! Descriptions of message types, their fields and their enums.

use vstd::prelude::*;
use vstd::string::*;
use crate::integer::Integer;
use crate::text::same_text;
use crate::value;
use crate::value::{Val, Value};
use crate::wkt::WktKind;

verus! {

/// The scalar types of fields.
#[derive(Clone, Copy, Debug, PartialEq, Eq, Structural)]
pub enum ScalarType {
    Double,
    Float,
    Int64,
    Uint64,
    Int32,
    Fixed64,
    Fixed32,
    Bool,
    String,
    Bytes,
    Uint32,
    Sfixed32,
    Sfixed64,
    Sint32,
    Sint64,
}

/// The type of a single value: a scalar, or an enum or message of the schema by its index.
#[derive(Clone, Copy, Debug, PartialEq, Eq, Structural)]
pub enum DescSingleValue {
    Scalar(ScalarType),
    Enum(usize),
    Message(usize),
}

/// The type of a field.
#[derive(Clone, Copy, Debug, PartialEq, Eq, Structural)]
pub enum DescFieldValue {
    Scalar { scalar_type: ScalarType },
    Enum { enum_: usize },
    Message { message: usize },
    List { element: DescSingleValue },
    MapOf { key_type: ScalarType, value: DescSingleValue },
}

/// A field of a message type.
pub struct DescField {
    pub number: u32,
    /// The name in the schema.
    pub name: String,
    /// The name in the target language.
    pub local_name: String,
    /// The key in JSON.
    pub json_key: String,
    pub value: DescFieldValue,
    /// The oneof that the field belongs to.
    pub oneof: Option<usize>,
    /// Whether a singular field remembers that it was set.
    pub requires_presence: bool,
}

/// A message type.
pub struct DescMessage {
    /// The fully qualified name.
    pub full_name: String,
    /// The name of the class in the target language.
    pub qualname: String,
    /// How the class prints.
    pub class_text: String,
    /// The fields in declaration order.
    pub fields: Vec<DescField>,
    /// How many oneofs the type has.
    pub oneof_count: usize,
    /// For each key that JSON may use, the index of the field that it names.
    pub json_names: Vec<(String, usize)>,
    pub wkt: WktKind,
}

/// An enum type.
pub struct DescEnum {
    /// The fully qualified name.
    pub full_name: String,
    /// Whether numbers without a name are values too.
    pub open: bool,
    /// Whether the enum is `google.protobuf.NullValue`.
    pub is_null_value: bool,
    /// The number of the first declared value.
    pub zero: i32,
    /// The numbers that have a value, each with its name.
    pub names_by_number: Vec<(i32, String)>,
    /// All names, each with its number.
    pub numbers_by_name: Vec<(String, i32)>,
}

/// The message and enum types that fields refer to by index.
pub struct Schema {
    pub messages: Vec<DescMessage>,
    pub enums: Vec<DescEnum>,
}

/// An extension field.
pub struct Extension {
    /// The fully qualified name.
    pub full_name: String,
    /// The fully qualified name of the message type that the field extends.
    pub extendee: String,
    pub number: u32,
    pub value: DescFieldValue,
}

/// The types that `google.protobuf.Any` and extensions may refer to.
pub struct Registry {
    /// Fully qualified names, each with the index of its message type in the schema.
    pub messages: Vec<(String, usize)>,
    pub extensions: Vec<Extension>,
}

/// The value of a scalar field that was never set.
pub open spec fn zero_val(scalar: ScalarType) -> Val {
    match scalar {
        ScalarType::Bool => Val::Bool(false),
        ScalarType::String => Val::Str(seq![]),
        ScalarType::Bytes => Val::Bytes(seq![]),
        ScalarType::Double | ScalarType::Float => Val::Float(0),
        _ => Val::Int(0),
    }
}

/// The value of a scalar field that was never set.
pub fn zero_value(scalar: ScalarType) -> (r: Value)
    ensures
        r@ == zero_val(scalar),
{
    match scalar {
        ScalarType::Bool => Value::Bool(false),
        ScalarType::String => Value::Str(String::new()),
        ScalarType::Bytes => {
            let b: Vec<u8> = Vec::new();
            assert(b@ =~= seq![]);
            Value::Bytes(b)
        },
        ScalarType::Double | ScalarType::Float => Value::Float(0),
        _ => Value::Int(Integer::from_i64(0)),
    }
}

/// The index of the first entry with the given name.
pub open spec fn name_index<T>(table: Seq<(String, T)>, name: Seq<char>) -> Option<int>
    decreases table.len(),
{
    if table.len() == 0 {
        None
    } else if table[0].0@ == name {
        Some(0)
    } else {
        match name_index(table.skip(1), name) {
            Some(i) => Some(i + 1),
            None => None,
        }
    }
}

/// The index of the first entry with the given number.
pub open spec fn number_index(table: Seq<(i32, String)>, number: i32) -> Option<int>
    decreases table.len(),
{
    if table.len() == 0 {
        None
    } else if table[0].0 == number {
        Some(0)
    } else {
        match number_index(table.skip(1), number) {
            Some(i) => Some(i + 1),
            None => None,
        }
    }
}

/// The index of the first extension with the given name.
pub open spec fn extension_index(table: Seq<Extension>, name: Seq<char>) -> Option<int>
    decreases table.len(),
{
    if table.len() == 0 {
        None
    } else if table[0].full_name@ == name {
        Some(0)
    } else {
        match extension_index(table.skip(1), name) {
            Some(i) => Some(i + 1),
            None => None,
        }
    }
}

/// The index of the first extension of a message type with the given field number.
pub open spec fn extension_for_index(
    table: Seq<Extension>,
    extendee: Seq<char>,
    number: u32,
) -> Option<int>
    decreases table.len(),
{
    if table.len() == 0 {
        None
    } else if table[0].extendee@ == extendee && table[0].number == number {
        Some(0)
    } else {
        match extension_for_index(table.skip(1), extendee, number) {
            Some(i) => Some(i + 1),
            None => None,
        }
    }
}

pub fn find_name<T>(table: &Vec<(String, T)>, name: &str) -> (r: Option<usize>)
    ensures
        r is Some <==> name_index(table@, name@) is Some,
        r is Some ==> r->0 == name_index(table@, name@)->0 && r->0 < table@.len(),
{
    let mut i: usize = 0;
    assert(table@.skip(0) =~= table@);
    while i < table.len()
        invariant
            i <= table@.len(),
            name_index(table@, name@) is Some <==> name_index(table@.skip(i as int), name@) is Some,
            name_index(table@, name@) is Some ==> name_index(table@, name@)->0 == i + name_index(
                table@.skip(i as int),
                name@,
            )->0,
        decreases table@.len() - i,
    {
        if same_text(table[i].0.as_str(), name) {
            return Some(i);
        }
        assert(table@.skip(i as int).skip(1) =~= table@.skip(i + 1));
        i = i + 1;
    }
    None
}

pub fn find_number(table: &Vec<(i32, String)>, number: i32) -> (r: Option<usize>)
    ensures
        r is Some <==> number_index(table@, number) is Some,
        r is Some ==> r->0 == number_index(table@, number)->0 && r->0 < table@.len(),
{
    let mut i: usize = 0;
    assert(table@.skip(0) =~= table@);
    while i < table.len()
        invariant
            i <= table@.len(),
            number_index(table@, number) is Some <==> number_index(
                table@.skip(i as int),
                number,
            ) is Some,
            number_index(table@, number) is Some ==> number_index(table@, number)->0 == i
                + number_index(table@.skip(i as int), number)->0,
        decreases table@.len() - i,
    {
        if table[i].0 == number {
            return Some(i);
        }
        assert(table@.skip(i as int).skip(1) =~= table@.skip(i + 1));
        i = i + 1;
    }
    None
}

pub fn find_extension(table: &Vec<Extension>, name: &str) -> (r: Option<usize>)
    ensures
        r is Some <==> extension_index(table@, name@) is Some,
        r is Some ==> r->0 == extension_index(table@, name@)->0 && r->0 < table@.len(),
{
    let mut i: usize = 0;
    assert(table@.skip(0) =~= table@);
    while i < table.len()
        invariant
            i <= table@.len(),
            extension_index(table@, name@) is Some <==> extension_index(
                table@.skip(i as int),
                name@,
            ) is Some,
            extension_index(table@, name@) is Some ==> extension_index(table@, name@)->0 == i
                + extension_index(table@.skip(i as int), name@)->0,
        decreases table@.len() - i,
    {
        if same_text(table[i].full_name.as_str(), name) {
            return Some(i);
        }
        assert(table@.skip(i as int).skip(1) =~= table@.skip(i + 1));
        i = i + 1;
    }
    None
}

pub fn find_extension_for(table: &Vec<Extension>, extendee: &str, number: u32) -> (r: Option<usize>)
    ensures
        r is Some <==> extension_for_index(table@, extendee@, number) is Some,
        r is Some ==> r->0 == extension_for_index(table@, extendee@, number)->0 && r->0
            < table@.len(),
{
    let mut i: usize = 0;
    assert(table@.skip(0) =~= table@);
    while i < table.len()
        invariant
            i <= table@.len(),
            extension_for_index(table@, extendee@, number) is Some <==> extension_for_index(
                table@.skip(i as int),
                extendee@,
                number,
            ) is Some,
            extension_for_index(table@, extendee@, number) is Some ==> extension_for_index(
                table@,
                extendee@,
                number,
            )->0 == i + extension_for_index(table@.skip(i as int), extendee@, number)->0,
        decreases table@.len() - i,
    {
        if table[i].number == number && same_text(table[i].extendee.as_str(), extendee) {
            return Some(i);
        }
        assert(table@.skip(i as int).skip(1) =~= table@.skip(i + 1));
        i = i + 1;
    }
    None
}

} // verus!
