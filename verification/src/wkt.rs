//! Classification of message types as well-known types.
//!
//! A message type is well-known only if its name and its file lie under `google.protobuf` and
//! its fields have the expected shape. Fields are referred to by their index in declaration
//! order.

use vstd::prelude::*;
use vstd::string::*;
use crate::descriptor::{DescField, DescFieldValue, DescSingleValue, ScalarType};
use crate::text;
use crate::text::{same_text, text_starts_with};

verus! {

/// What kind of well-known type a message type is, with the fields that make it up.
#[derive(Clone, Copy, Debug, PartialEq, Eq, Structural)]
pub enum WktKind {
    /// Not a well-known type.
    Ordinary,
    Timestamp { seconds: usize, nanos: usize },
    Duration { seconds: usize, nanos: usize },
    Any { type_url: usize, value: usize },
    FieldMask { paths: usize },
    Struct { fields: usize },
    ListValue { values: usize },
    Value {
        null_value: usize,
        number_value: usize,
        string_value: usize,
        bool_value: usize,
        struct_value: usize,
        list_value: usize,
    },
    /// A type with exactly one field, a scalar named `value`.
    Wrapper { field: usize, scalar: ScalarType },
    /// Has no JSON form of its own, but is wrapped like a well-known type inside of an `Any`.
    FileDescriptorSet,
}

/// The index of the last field with the given name.
pub open spec fn field_index(fields: Seq<DescField>, name: Seq<char>) -> Option<usize>
    decreases fields.len(),
{
    if fields.len() == 0 {
        None
    } else if fields.last().name@ == name {
        Some((fields.len() - 1) as usize)
    } else {
        field_index(fields.drop_last(), name)
    }
}

/// Whether the field of the given name exists and has a scalar type.
pub open spec fn has_scalar(fields: Seq<DescField>, name: Seq<char>, want: ScalarType) -> bool {
    match field_index(fields, name) {
        Some(i) => fields[i as int].value == (DescFieldValue::Scalar { scalar_type: want }),
        None => false,
    }
}

/// Whether the field of the given name exists and is a list of messages.
pub open spec fn has_message_list(fields: Seq<DescField>, name: Seq<char>) -> bool {
    match field_index(fields, name) {
        Some(i) => fields[i as int].value matches DescFieldValue::List {
            element: DescSingleValue::Message(_),
        },
        None => false,
    }
}

/// Whether the field of the given name exists and is a message.
pub open spec fn has_message(fields: Seq<DescField>, name: Seq<char>) -> bool {
    match field_index(fields, name) {
        Some(i) => fields[i as int].value is Message,
        None => false,
    }
}

/// The shape that timestamps and durations share: an int64 `seconds` and an int32 `nanos`.
pub open spec fn has_seconds_nanos(fields: Seq<DescField>) -> bool {
    &&& has_scalar(fields, "seconds"@, ScalarType::Int64)
    &&& has_scalar(fields, "nanos"@, ScalarType::Int32)
}

pub open spec fn is_any(fields: Seq<DescField>) -> bool {
    &&& has_scalar(fields, "type_url"@, ScalarType::String)
    &&& has_scalar(fields, "value"@, ScalarType::Bytes)
}

pub open spec fn is_field_mask(fields: Seq<DescField>) -> bool {
    match field_index(fields, "paths"@) {
        Some(i) => fields[i as int].value == (DescFieldValue::List {
            element: DescSingleValue::Scalar(ScalarType::String),
        }),
        None => false,
    }
}

pub open spec fn is_struct(fields: Seq<DescField>) -> bool {
    match field_index(fields, "fields"@) {
        Some(i) => fields[i as int].value is MapOf && fields[i as int].value->key_type
            == ScalarType::String,
        None => false,
    }
}

pub open spec fn is_value(fields: Seq<DescField>) -> bool {
    &&& match field_index(fields, "null_value"@) {
        Some(i) => fields[i as int].value is Enum,
        None => false,
    }
    &&& has_scalar(fields, "number_value"@, ScalarType::Double)
    &&& has_scalar(fields, "string_value"@, ScalarType::String)
    &&& has_scalar(fields, "bool_value"@, ScalarType::Bool)
    &&& has_message(fields, "struct_value"@)
    &&& has_message(fields, "list_value"@)
}

pub open spec fn is_wrapper(fields: Seq<DescField>) -> bool {
    &&& fields.len() == 1
    &&& fields[0].name@ == "value"@
    &&& fields[0].value is Scalar
}

/// The kind of the message type with the given name, file and fields.
pub open spec fn kind_of(
    full_name: Seq<char>,
    file_name: Seq<char>,
    fields: Seq<DescField>,
) -> WktKind {
    if !text::starts_with(full_name, "google.protobuf."@) || !text::starts_with(
        file_name,
        "google/protobuf/"@,
    ) {
        WktKind::Ordinary
    } else if full_name == "google.protobuf.Timestamp"@ {
        if has_seconds_nanos(fields) {
            WktKind::Timestamp {
                seconds: field_index(fields, "seconds"@)->0,
                nanos: field_index(fields, "nanos"@)->0,
            }
        } else {
            WktKind::Ordinary
        }
    } else if full_name == "google.protobuf.Duration"@ {
        if has_seconds_nanos(fields) {
            WktKind::Duration {
                seconds: field_index(fields, "seconds"@)->0,
                nanos: field_index(fields, "nanos"@)->0,
            }
        } else {
            WktKind::Ordinary
        }
    } else if full_name == "google.protobuf.Any"@ {
        any_kind(fields)
    } else if full_name == "google.protobuf.FieldMask"@ {
        field_mask_kind(fields)
    } else if full_name == "google.protobuf.Struct"@ {
        struct_kind(fields)
    } else if full_name == "google.protobuf.ListValue"@ {
        list_value_kind(fields)
    } else if full_name == "google.protobuf.Value"@ {
        value_kind(fields)
    } else if full_name == "google.protobuf.FileDescriptorSet"@ {
        file_descriptor_set_kind(fields)
    } else {
        wrapper_kind(fields)
    }
}

pub open spec fn any_kind(fields: Seq<DescField>) -> WktKind {
    if is_any(fields) {
        WktKind::Any {
            type_url: field_index(fields, "type_url"@)->0,
            value: field_index(fields, "value"@)->0,
        }
    } else {
        WktKind::Ordinary
    }
}

pub open spec fn field_mask_kind(fields: Seq<DescField>) -> WktKind {
    if is_field_mask(fields) {
        WktKind::FieldMask { paths: field_index(fields, "paths"@)->0 }
    } else {
        WktKind::Ordinary
    }
}

pub open spec fn struct_kind(fields: Seq<DescField>) -> WktKind {
    if is_struct(fields) {
        WktKind::Struct { fields: field_index(fields, "fields"@)->0 }
    } else {
        WktKind::Ordinary
    }
}

pub open spec fn list_value_kind(fields: Seq<DescField>) -> WktKind {
    if has_message_list(fields, "values"@) {
        WktKind::ListValue { values: field_index(fields, "values"@)->0 }
    } else {
        WktKind::Ordinary
    }
}

pub open spec fn value_kind(fields: Seq<DescField>) -> WktKind {
    if is_value(fields) {
        WktKind::Value {
            null_value: field_index(fields, "null_value"@)->0,
            number_value: field_index(fields, "number_value"@)->0,
            string_value: field_index(fields, "string_value"@)->0,
            bool_value: field_index(fields, "bool_value"@)->0,
            struct_value: field_index(fields, "struct_value"@)->0,
            list_value: field_index(fields, "list_value"@)->0,
        }
    } else {
        WktKind::Ordinary
    }
}

pub open spec fn file_descriptor_set_kind(fields: Seq<DescField>) -> WktKind {
    if has_message_list(fields, "file"@) {
        WktKind::FileDescriptorSet
    } else {
        WktKind::Ordinary
    }
}

pub open spec fn wrapper_kind(fields: Seq<DescField>) -> WktKind {
    if is_wrapper(fields) {
        WktKind::Wrapper { field: 0, scalar: fields[0].value->scalar_type }
    } else {
        WktKind::Ordinary
    }
}

/// A field's index lies among the fields.
pub proof fn lemma_field_index(fields: Seq<DescField>, name: Seq<char>)
    requires
        fields.len() <= usize::MAX,
    ensures
        field_index(fields, name) matches Some(i) ==> i < fields.len() && fields[i as int].name@
            == name,
    decreases fields.len(),
{
    if fields.len() > 0 && fields.last().name@ != name {
        lemma_field_index(fields.drop_last(), name);
    }
}

/// Every field that a kind refers to lies among the fields.
pub open spec fn kind_within(kind: WktKind, n: nat) -> bool {
    match kind {
        WktKind::Ordinary | WktKind::FileDescriptorSet => true,
        WktKind::Timestamp { seconds, nanos } => seconds < n && nanos < n,
        WktKind::Duration { seconds, nanos } => seconds < n && nanos < n,
        WktKind::Any { type_url, value } => type_url < n && value < n,
        WktKind::FieldMask { paths } => paths < n,
        WktKind::Struct { fields } => fields < n,
        WktKind::ListValue { values } => values < n,
        WktKind::Value {
            null_value,
            number_value,
            string_value,
            bool_value,
            struct_value,
            list_value,
        } => {
            &&& null_value < n
            &&& number_value < n
            &&& string_value < n
            &&& bool_value < n
            &&& struct_value < n
            &&& list_value < n
        },
        WktKind::Wrapper { field, .. } => field < n,
    }
}

/// A kind refers only to fields that exist.
pub proof fn lemma_kind_within(full_name: Seq<char>, file_name: Seq<char>, fields: Seq<DescField>)
    requires
        fields.len() <= usize::MAX,
    ensures
        kind_within(kind_of(full_name, file_name, fields), fields.len()),
{
    assert forall|name: Seq<char>| (#[trigger] field_index(fields, name)) is Some implies
        field_index(fields, name)->0 < fields.len() by {
        lemma_field_index(fields, name);
    }
}

/// A message type outside of `google.protobuf` is no well-known type, whatever its fields.
pub proof fn lemma_outside_package(
    full_name: Seq<char>,
    file_name: Seq<char>,
    fields: Seq<DescField>,
)
    requires
        !text::starts_with(full_name, "google.protobuf."@) || !text::starts_with(
            file_name,
            "google/protobuf/"@,
        ),
    ensures
        kind_of(full_name, file_name, fields) == WktKind::Ordinary,
{
}

/// A name under `google.protobuf` is told by what stands behind the package.
proof fn lemma_package_name(name: Seq<char>, file: Seq<char>)
    ensures
        text::starts_with("google.protobuf."@ + name, "google.protobuf."@),
        text::starts_with("google/protobuf/"@ + file, "google/protobuf/"@),
        ("google.protobuf."@ + name == "google.protobuf.Timestamp"@) == (name == "Timestamp"@),
        ("google.protobuf."@ + name == "google.protobuf.Duration"@) == (name == "Duration"@),
        ("google.protobuf."@ + name == "google.protobuf.Any"@) == (name == "Any"@),
        ("google.protobuf."@ + name == "google.protobuf.FieldMask"@) == (name == "FieldMask"@),
        ("google.protobuf."@ + name == "google.protobuf.Struct"@) == (name == "Struct"@),
        ("google.protobuf."@ + name == "google.protobuf.ListValue"@) == (name == "ListValue"@),
        ("google.protobuf."@ + name == "google.protobuf.Value"@) == (name == "Value"@),
        ("google.protobuf."@ + name == "google.protobuf.FileDescriptorSet"@) == (name
            == "FileDescriptorSet"@),
{
    reveal_strlit("google.protobuf.");
    reveal_strlit("Timestamp");
    reveal_strlit("Duration");
    reveal_strlit("Any");
    reveal_strlit("FieldMask");
    reveal_strlit("Struct");
    reveal_strlit("ListValue");
    reveal_strlit("Value");
    reveal_strlit("FileDescriptorSet");
    reveal_strlit("google.protobuf.Timestamp");
    reveal_strlit("google.protobuf.Duration");
    reveal_strlit("google.protobuf.Any");
    reveal_strlit("google.protobuf.FieldMask");
    reveal_strlit("google.protobuf.Struct");
    reveal_strlit("google.protobuf.ListValue");
    reveal_strlit("google.protobuf.Value");
    reveal_strlit("google.protobuf.FileDescriptorSet");
    let package = "google.protobuf."@;
    let folder = "google/protobuf/"@;
    let full = package + name;
    assert(full.take(package.len() as int) =~= package);
    assert((folder + file).take(folder.len() as int) =~= folder);
    assert(package + "Timestamp"@ =~= "google.protobuf.Timestamp"@);
    assert(package + "Duration"@ =~= "google.protobuf.Duration"@);
    assert(package + "Any"@ =~= "google.protobuf.Any"@);
    assert(package + "FieldMask"@ =~= "google.protobuf.FieldMask"@);
    assert(package + "Struct"@ =~= "google.protobuf.Struct"@);
    assert(package + "ListValue"@ =~= "google.protobuf.ListValue"@);
    assert(package + "Value"@ =~= "google.protobuf.Value"@);
    assert(package + "FileDescriptorSet"@ =~= "google.protobuf.FileDescriptorSet"@);
    lemma_behind(package, name, "Timestamp"@);
    lemma_behind(package, name, "Duration"@);
    lemma_behind(package, name, "Any"@);
    lemma_behind(package, name, "FieldMask"@);
    lemma_behind(package, name, "Struct"@);
    lemma_behind(package, name, "ListValue"@);
    lemma_behind(package, name, "Value"@);
    lemma_behind(package, name, "FileDescriptorSet"@);
}

/// Texts behind the same text are equal where the whole is.
proof fn lemma_behind(head: Seq<char>, a: Seq<char>, b: Seq<char>)
    ensures
        head + a == head + b ==> a == b,
{
    if head + a == head + b {
        assert(a =~= (head + a).skip(head.len() as int));
        assert(b =~= (head + b).skip(head.len() as int));
    }
}

/// Whether a name under `google.protobuf` is that of a type with a form of its own, other than
/// the wrappers.
pub open spec fn is_special_name(name: Seq<char>) -> bool {
    name == "Timestamp"@ || name == "Duration"@ || name == "Any"@ || name == "FieldMask"@ || name
        == "Struct"@ || name == "ListValue"@ || name == "Value"@ || name == "FileDescriptorSet"@
}

/// Every message type under `google.protobuf` whose only field is a scalar named `value` is a
/// wrapper of that scalar type, whichever it is, unless its name is one of the others. No other
/// such type is a wrapper.
pub proof fn lemma_wrappers_are_detected(
    name: Seq<char>,
    file: Seq<char>,
    fields: Seq<DescField>,
    t: ScalarType,
)
    requires
        !is_special_name(name),
    ensures
        ({
            let kind = kind_of("google.protobuf."@ + name, "google/protobuf/"@ + file, fields);
            &&& fields.len() == 1 && is_scalar_field(fields, 0, "value"@, t) ==> kind == (
            WktKind::Wrapper { field: 0, scalar: t })
            &&& fields.len() != 1 || fields[0].name@ != "value"@ || !(fields[0].value is Scalar)
                ==> kind == WktKind::Ordinary
        }),
{
    lemma_package_name(name, file);
}

/// Whether the fields of a message type have different names.
pub open spec fn distinct_names(fields: Seq<DescField>) -> bool {
    forall|a: int, b: int|
        0 <= a < b < fields.len() ==> (#[trigger] fields[a]).name@ != (#[trigger] fields[b]).name@
}

/// The only field of a name is found by it.
proof fn lemma_field_found(fields: Seq<DescField>, i: int)
    requires
        distinct_names(fields),
        0 <= i < fields.len() <= usize::MAX,
    ensures
        field_index(fields, fields[i].name@) == Some(i as usize),
    decreases fields.len(),
{
    let last = fields.len() - 1;
    if i != last {
        assert(fields[i].name@ != fields[last].name@);
        let head = fields.drop_last();
        assert forall|a: int, b: int| 0 <= a < b < head.len() implies (#[trigger] head[a]).name@
            != (#[trigger] head[b]).name@ by {
            assert(fields[a].name@ != fields[b].name@);
        }
        assert(head[i] == fields[i]);
        lemma_field_found(head, i);
    }
}

/// Whether field `i` has the given name and is a scalar of the given type.
pub open spec fn is_scalar_field(fields: Seq<DescField>, i: int, name: Seq<char>, t: ScalarType) -> bool {
    0 <= i < fields.len() && fields[i].name@ == name && fields[i].value == (DescFieldValue::Scalar {
        scalar_type: t,
    })
}

/// A `Timestamp` and a `Duration` are detected by an int64 field `seconds` and an int32 field
/// `nanos`, wherever these stand.
pub proof fn lemma_moments_are_detected(
    file: Seq<char>,
    fields: Seq<DescField>,
    seconds: usize,
    nanos: usize,
)
    requires
        distinct_names(fields),
        fields.len() <= usize::MAX,
        is_scalar_field(fields, seconds as int, "seconds"@, ScalarType::Int64),
        is_scalar_field(fields, nanos as int, "nanos"@, ScalarType::Int32),
    ensures
        kind_of("google.protobuf."@ + "Timestamp"@, "google/protobuf/"@ + file, fields) == (
        WktKind::Timestamp { seconds, nanos }),
        kind_of("google.protobuf."@ + "Duration"@, "google/protobuf/"@ + file, fields) == (
        WktKind::Duration { seconds, nanos }),
{
    lemma_package_name("Timestamp"@, file);
    lemma_package_name("Duration"@, file);
    lemma_special_names();
    lemma_field_found(fields, seconds as int);
    lemma_field_found(fields, nanos as int);
}

/// An `Any` is detected by a string field `type_url` and a bytes field `value`, and a `FieldMask`
/// by a list of strings `paths`.
pub proof fn lemma_any_and_masks_are_detected(
    file: Seq<char>,
    fields: Seq<DescField>,
    i: usize,
    k: usize,
)
    requires
        distinct_names(fields),
        fields.len() <= usize::MAX,
    ensures
        is_scalar_field(fields, i as int, "type_url"@, ScalarType::String) && is_scalar_field(
            fields,
            k as int,
            "value"@,
            ScalarType::Bytes,
        ) ==> kind_of("google.protobuf."@ + "Any"@, "google/protobuf/"@ + file, fields) == (
        WktKind::Any { type_url: i, value: k }),
        i < fields.len() && fields[i as int].name@ == "paths"@ && fields[i as int].value == (
        DescFieldValue::List { element: DescSingleValue::Scalar(ScalarType::String) }) ==> kind_of(
            "google.protobuf."@ + "FieldMask"@,
            "google/protobuf/"@ + file,
            fields,
        ) == (WktKind::FieldMask { paths: i }),
{
    lemma_package_name("Any"@, file);
    lemma_package_name("FieldMask"@, file);
    lemma_special_names();
    if i < fields.len() {
        lemma_field_found(fields, i as int);
    }
    if k < fields.len() {
        lemma_field_found(fields, k as int);
    }
}

/// A `Struct` is detected by a map with string keys `fields`, a `ListValue` by a list of messages
/// `values`, and a `FileDescriptorSet` by a list of messages `file`.
pub proof fn lemma_containers_are_detected(file: Seq<char>, fields: Seq<DescField>, i: usize)
    requires
        distinct_names(fields),
        i < fields.len() <= usize::MAX,
    ensures
        ({
            let field = fields[i as int];
            let holds_messages = field.value matches DescFieldValue::List {
                element: DescSingleValue::Message(_),
            };
            let kind = |name: Seq<char>| kind_of(
                "google.protobuf."@ + name,
                "google/protobuf/"@ + file,
                fields,
            );
            &&& field.name@ == "fields"@ && (field.value matches DescFieldValue::MapOf {
                key_type,
                ..
            } && key_type == ScalarType::String) ==> kind("Struct"@) == (WktKind::Struct {
                fields: i,
            })
            &&& field.name@ == "values"@ && holds_messages ==> kind("ListValue"@) == (
            WktKind::ListValue { values: i })
            &&& field.name@ == "file"@ && holds_messages ==> kind("FileDescriptorSet"@)
                == WktKind::FileDescriptorSet
        }),
{
    lemma_package_name("Struct"@, file);
    lemma_package_name("ListValue"@, file);
    lemma_package_name("FileDescriptorSet"@, file);
    lemma_special_names();
    lemma_field_found(fields, i as int);
}

/// A `Value` is detected by its six fields.
pub proof fn lemma_values_are_detected(
    file: Seq<char>,
    fields: Seq<DescField>,
    null_value: usize,
    number_value: usize,
    string_value: usize,
    bool_value: usize,
    struct_value: usize,
    list_value: usize,
)
    requires
        distinct_names(fields),
        fields.len() <= usize::MAX,
        null_value < fields.len() && struct_value < fields.len() && list_value < fields.len(),
        fields[null_value as int].name@ == "null_value"@ && fields[null_value as int].value is Enum,
        is_scalar_field(fields, number_value as int, "number_value"@, ScalarType::Double),
        is_scalar_field(fields, string_value as int, "string_value"@, ScalarType::String),
        is_scalar_field(fields, bool_value as int, "bool_value"@, ScalarType::Bool),
        fields[struct_value as int].name@ == "struct_value"@ && fields[struct_value as int].value
            is Message,
        fields[list_value as int].name@ == "list_value"@ && fields[list_value as int].value
            is Message,
    ensures
        kind_of("google.protobuf."@ + "Value"@, "google/protobuf/"@ + file, fields) == (
        WktKind::Value {
            null_value,
            number_value,
            string_value,
            bool_value,
            struct_value,
            list_value,
        }),
{
    lemma_package_name("Value"@, file);
    lemma_special_names();
    lemma_field_found(fields, null_value as int);
    lemma_field_found(fields, number_value as int);
    lemma_field_found(fields, string_value as int);
    lemma_field_found(fields, bool_value as int);
    lemma_field_found(fields, struct_value as int);
    lemma_field_found(fields, list_value as int);
}

/// The names of the types with a form of their own are different.
proof fn lemma_special_names()
    ensures
        "Timestamp"@.len() == 9 && "Duration"@.len() == 8 && "Any"@.len() == 3 && "FieldMask"@.len()
            == 9 && "Struct"@.len() == 6 && "ListValue"@.len() == 9 && "Value"@.len() == 5
            && "FileDescriptorSet"@.len() == 17,
        "Timestamp"@[0] == 'T' && "FieldMask"@[0] == 'F' && "ListValue"@[0] == 'L',
{
    reveal_strlit("Timestamp");
    reveal_strlit("Duration");
    reveal_strlit("Any");
    reveal_strlit("FieldMask");
    reveal_strlit("Struct");
    reveal_strlit("ListValue");
    reveal_strlit("Value");
    reveal_strlit("FileDescriptorSet");
}

/// A kind tells the name of the type and the types of the fields that make it up.
pub proof fn lemma_kinds_tell_types(full_name: Seq<char>, file_name: Seq<char>, fields: Seq<DescField>)
    requires
        fields.len() <= usize::MAX,
    ensures
        match kind_of(full_name, file_name, fields) {
            WktKind::Ordinary => true,
            WktKind::Timestamp { seconds, nanos } => full_name == "google.protobuf.Timestamp"@
                && is_scalar_field(fields, seconds as int, "seconds"@, ScalarType::Int64)
                && is_scalar_field(fields, nanos as int, "nanos"@, ScalarType::Int32),
            WktKind::Duration { seconds, nanos } => full_name == "google.protobuf.Duration"@
                && is_scalar_field(fields, seconds as int, "seconds"@, ScalarType::Int64)
                && is_scalar_field(fields, nanos as int, "nanos"@, ScalarType::Int32),
            WktKind::Any { type_url, value } => full_name == "google.protobuf.Any"@
                && is_scalar_field(fields, type_url as int, "type_url"@, ScalarType::String)
                && is_scalar_field(fields, value as int, "value"@, ScalarType::Bytes),
            WktKind::FieldMask { paths } => full_name == "google.protobuf.FieldMask"@ && paths
                < fields.len() && fields[paths as int].name@ == "paths"@
                && fields[paths as int].value == (DescFieldValue::List {
                element: DescSingleValue::Scalar(ScalarType::String),
            }),
            WktKind::Struct { fields: i } => full_name == "google.protobuf.Struct"@ && i
                < fields.len() && fields[i as int].name@ == "fields"@ && (
            fields[i as int].value matches DescFieldValue::MapOf { key_type, .. } && key_type
                == ScalarType::String),
            WktKind::ListValue { values } => full_name == "google.protobuf.ListValue"@ && values
                < fields.len() && fields[values as int].name@ == "values"@ && (
            fields[values as int].value matches DescFieldValue::List {
                element: DescSingleValue::Message(_),
            }),
            WktKind::Value {
                null_value,
                number_value,
                string_value,
                bool_value,
                struct_value,
                list_value,
            } => {
                &&& full_name == "google.protobuf.Value"@
                &&& null_value < fields.len() && fields[null_value as int].name@ == "null_value"@
                    && fields[null_value as int].value is Enum
                &&& is_scalar_field(fields, number_value as int, "number_value"@, ScalarType::Double)
                &&& is_scalar_field(fields, string_value as int, "string_value"@, ScalarType::String)
                &&& is_scalar_field(fields, bool_value as int, "bool_value"@, ScalarType::Bool)
                &&& struct_value < fields.len() && fields[struct_value as int].name@
                    == "struct_value"@ && fields[struct_value as int].value is Message
                &&& list_value < fields.len() && fields[list_value as int].name@ == "list_value"@
                    && fields[list_value as int].value is Message
            },
            WktKind::Wrapper { field, scalar } => fields.len() == 1 && is_scalar_field(
                fields,
                field as int,
                "value"@,
                scalar,
            ),
            WktKind::FileDescriptorSet => full_name == "google.protobuf.FileDescriptorSet"@
                && exists|i: int|
                {
                    &&& 0 <= i < fields.len()
                    &&& (#[trigger] fields[i]).name@ == "file"@
                    &&& fields[i].value matches DescFieldValue::List {
                        element: DescSingleValue::Message(_),
                    }
                },
        },
        !(kind_of(full_name, file_name, fields) is Ordinary) ==> text::starts_with(
            full_name,
            "google.protobuf."@,
        ) && text::starts_with(file_name, "google/protobuf/"@),
{
    assert forall|name: Seq<char>| (#[trigger] field_index(fields, name)) is Some implies
        field_index(fields, name)->0 < fields.len() && fields[field_index(
        fields,
        name,
    )->0 as int].name@ == name by {
        lemma_field_index(fields, name);
    }
    if kind_of(full_name, file_name, fields) is FileDescriptorSet {
        assert(fields[field_index(fields, "file"@)->0 as int].name@ == "file"@);
    }
}

impl WktKind {
    /// Classifies a message type by its name, its file's name and its fields.
    pub fn detect(full_name: &str, file_name: &str, fields: &Vec<DescField>) -> (r: WktKind)
        ensures
            r == kind_of(full_name@, file_name@, fields@),
            kind_within(r, fields@.len()),
    {
        proof {
            assert(fields@.len() == fields.len());
            lemma_kind_within(full_name@, file_name@, fields@);
        }
        if !text_starts_with(full_name, "google.protobuf.") {
            return WktKind::Ordinary;
        }
        if !text_starts_with(file_name, "google/protobuf/") {
            return WktKind::Ordinary;
        }
        if same_text(full_name, "google.protobuf.Timestamp") {
            match ts_dur_indices(fields) {
                Some((seconds, nanos)) => WktKind::Timestamp { seconds, nanos },
                None => WktKind::Ordinary,
            }
        } else if same_text(full_name, "google.protobuf.Duration") {
            match ts_dur_indices(fields) {
                Some((seconds, nanos)) => WktKind::Duration { seconds, nanos },
                None => WktKind::Ordinary,
            }
        } else if same_text(full_name, "google.protobuf.Any") {
            detect_any(fields)
        } else if same_text(full_name, "google.protobuf.FieldMask") {
            detect_field_mask(fields)
        } else if same_text(full_name, "google.protobuf.Struct") {
            detect_struct(fields)
        } else if same_text(full_name, "google.protobuf.ListValue") {
            detect_list_value(fields)
        } else if same_text(full_name, "google.protobuf.Value") {
            detect_value(fields)
        } else if same_text(full_name, "google.protobuf.FileDescriptorSet") {
            detect_file_descriptor_set(fields)
        } else {
            detect_wrapper(fields)
        }
    }
}

/// The index of the last field with the given name.
pub fn idx(fields: &Vec<DescField>, name: &str) -> (r: Option<usize>)
    ensures
        r == field_index(fields@, name@),
        r matches Some(i) ==> i < fields@.len() && fields@[i as int].name@ == name@,
{
    let mut n: usize = fields.len();
    assert(fields@.take(n as int) =~= fields@);
    while n > 0
        invariant
            n <= fields@.len(),
            field_index(fields@, name@) == field_index(fields@.take(n as int), name@),
        decreases n,
    {
        assert(fields@.take(n as int).drop_last() =~= fields@.take(n - 1));
        if same_text(fields[n - 1].name.as_str(), name) {
            return Some(n - 1);
        }
        n = n - 1;
    }
    None
}

pub fn is_scalar(value: &DescFieldValue, want: ScalarType) -> (r: bool)
    ensures
        r == (*value == (DescFieldValue::Scalar { scalar_type: want })),
{
    match value {
        DescFieldValue::Scalar { scalar_type } => *scalar_type == want,
        _ => false,
    }
}

pub fn is_enum(value: &DescFieldValue) -> (r: bool)
    ensures
        r == (*value is Enum),
{
    matches!(value, DescFieldValue::Enum { .. })
}

pub fn is_message(value: &DescFieldValue) -> (r: bool)
    ensures
        r == (*value is Message),
{
    matches!(value, DescFieldValue::Message { .. })
}

pub fn is_list_scalar(value: &DescFieldValue, want: ScalarType) -> (r: bool)
    ensures
        r == (*value == (DescFieldValue::List { element: DescSingleValue::Scalar(want) })),
{
    match value {
        DescFieldValue::List { element: DescSingleValue::Scalar(t) } => *t == want,
        _ => false,
    }
}

pub fn is_list_message(value: &DescFieldValue) -> (r: bool)
    ensures
        r == (*value matches DescFieldValue::List { element: DescSingleValue::Message(_) }),
{
    matches!(value, DescFieldValue::List { element: DescSingleValue::Message(_) })
}

pub fn is_map_key(value: &DescFieldValue, want: ScalarType) -> (r: bool)
    ensures
        r == (*value is MapOf && value->key_type == want),
{
    match value {
        DescFieldValue::MapOf { key_type, .. } => *key_type == want,
        _ => false,
    }
}

/// The fields of a timestamp or a duration.
pub fn ts_dur_indices(fields: &Vec<DescField>) -> (r: Option<(usize, usize)>)
    ensures
        r == if has_seconds_nanos(fields@) {
            Some((field_index(fields@, "seconds"@)->0, field_index(fields@, "nanos"@)->0))
        } else {
            None
        },
{
    match (idx(fields, "seconds"), idx(fields, "nanos")) {
        (Some(seconds), Some(nanos)) => {
            if is_scalar(&fields[seconds].value, ScalarType::Int64) && is_scalar(
                &fields[nanos].value,
                ScalarType::Int32,
            ) {
                Some((seconds, nanos))
            } else {
                None
            }
        },
        _ => None,
    }
}

pub fn detect_any(fields: &Vec<DescField>) -> (r: WktKind)
    ensures
        r == any_kind(fields@),
{
    match (idx(fields, "type_url"), idx(fields, "value")) {
        (Some(type_url), Some(value)) => {
            if is_scalar(&fields[type_url].value, ScalarType::String) && is_scalar(
                &fields[value].value,
                ScalarType::Bytes,
            ) {
                WktKind::Any { type_url, value }
            } else {
                WktKind::Ordinary
            }
        },
        _ => WktKind::Ordinary,
    }
}

pub fn detect_field_mask(fields: &Vec<DescField>) -> (r: WktKind)
    ensures
        r == field_mask_kind(fields@),
{
    match idx(fields, "paths") {
        Some(paths) => {
            if is_list_scalar(&fields[paths].value, ScalarType::String) {
                WktKind::FieldMask { paths }
            } else {
                WktKind::Ordinary
            }
        },
        None => WktKind::Ordinary,
    }
}

pub fn detect_struct(fields: &Vec<DescField>) -> (r: WktKind)
    ensures
        r == struct_kind(fields@),
{
    match idx(fields, "fields") {
        Some(i) => {
            if is_map_key(&fields[i].value, ScalarType::String) {
                WktKind::Struct { fields: i }
            } else {
                WktKind::Ordinary
            }
        },
        None => WktKind::Ordinary,
    }
}

pub fn detect_list_value(fields: &Vec<DescField>) -> (r: WktKind)
    ensures
        r == list_value_kind(fields@),
{
    match idx(fields, "values") {
        Some(values) => {
            if is_list_message(&fields[values].value) {
                WktKind::ListValue { values }
            } else {
                WktKind::Ordinary
            }
        },
        None => WktKind::Ordinary,
    }
}

pub fn detect_value(fields: &Vec<DescField>) -> (r: WktKind)
    ensures
        r == value_kind(fields@),
{
    match (
        idx(fields, "null_value"),
        idx(fields, "number_value"),
        idx(fields, "string_value"),
        idx(fields, "bool_value"),
        idx(fields, "struct_value"),
        idx(fields, "list_value"),
    ) {
        (
            Some(null_value),
            Some(number_value),
            Some(string_value),
            Some(bool_value),
            Some(struct_value),
            Some(list_value),
        ) => {
            if is_enum(&fields[null_value].value) && is_scalar(
                &fields[number_value].value,
                ScalarType::Double,
            ) && is_scalar(&fields[string_value].value, ScalarType::String) && is_scalar(
                &fields[bool_value].value,
                ScalarType::Bool,
            ) && is_message(&fields[struct_value].value) && is_message(&fields[list_value].value) {
                WktKind::Value {
                    null_value,
                    number_value,
                    string_value,
                    bool_value,
                    struct_value,
                    list_value,
                }
            } else {
                WktKind::Ordinary
            }
        },
        _ => WktKind::Ordinary,
    }
}

pub fn detect_file_descriptor_set(fields: &Vec<DescField>) -> (r: WktKind)
    ensures
        r == file_descriptor_set_kind(fields@),
{
    match idx(fields, "file") {
        Some(file) => {
            if is_list_message(&fields[file].value) {
                WktKind::FileDescriptorSet
            } else {
                WktKind::Ordinary
            }
        },
        None => WktKind::Ordinary,
    }
}

pub fn detect_wrapper(fields: &Vec<DescField>) -> (r: WktKind)
    ensures
        r == wrapper_kind(fields@),
{
    if fields.len() != 1 || !same_text(fields[0].name.as_str(), "value") {
        return WktKind::Ordinary;
    }
    if let DescFieldValue::Scalar { scalar_type } = &fields[0].value {
        WktKind::Wrapper { field: 0, scalar: *scalar_type }
    } else {
        WktKind::Ordinary
    }
}

} // verus!
