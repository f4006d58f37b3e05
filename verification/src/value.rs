//! The values that messages and JSON documents are made of.

use vstd::prelude::*;
use vstd::string::*;
use crate::error::Fixed;
use crate::integer::Integer;
use crate::text::same_text;

verus! {

/// A dynamically typed value: the value of a message field, or a node of a JSON tree.
pub enum Value {
    Null,
    Bool(bool),
    Int(Integer),
    /// A double, as its bits.
    Float(u64),
    Str(String),
    Bytes(Vec<u8>),
    /// Bytes held in a mutable buffer.
    ByteArray(Vec<u8>),
    List(Vec<Value>),
    /// Entries in insertion order, no two with the same key.
    Dict(Vec<(Value, Value)>),
    Message(Message),
    /// An object of any other type.
    Foreign(Foreign),
}

/// What is known of an object of a type without a place in the format.
pub struct Foreign {
    /// How the object's type prints.
    pub type_text: String,
    /// How the object prints.
    pub text: String,
    /// How the object shows itself for inspection.
    pub repr: String,
    /// The bits of the double that the object converts to, if it does.
    pub number: Option<u64>,
    /// The integer of 64 bits that the object converts to, if it does.
    pub whole: Option<i64>,
    /// The boolean that the object converts to, if it does.
    pub truth: Option<bool>,
    /// The bytes that the object's elements convert to, if it has elements that are integers; the
    /// error of the first that fits no byte.
    pub octets: Option<Result<Vec<u8>, Fixed>>,
}

/// The member that a oneof holds.
pub struct Oneof {
    /// The name of the field that is set.
    pub field: String,
    pub value: Value,
}

/// The value of an extension field, by field number.
pub struct Unknown {
    pub number: u32,
    pub value: Value,
}

/// A message.
pub struct Message {
    /// The index of the message's type in the schema.
    pub desc: usize,
    /// The value of each field outside of oneofs, in declaration order.
    pub attrs: Vec<Value>,
    /// For each field, whether it holds a value of its own rather than its default.
    pub present: Vec<bool>,
    /// What each oneof holds.
    pub oneofs: Vec<Option<Oneof>>,
    /// The values of the extension fields that are set.
    pub unknown: Vec<Unknown>,
}

/// What a [`Value`] stands for.
pub enum Val {
    Null,
    Bool(bool),
    Int(int),
    Float(u64),
    Str(Seq<char>),
    Bytes(Seq<u8>),
    ByteArray(Seq<u8>),
    List(Seq<Val>),
    Dict(Seq<(Val, Val)>),
    Message(Msg),
    Foreign(ForeignVal),
}

/// What a [`Foreign`] stands for.
pub struct ForeignVal {
    pub type_text: Seq<char>,
    pub text: Seq<char>,
    pub repr: Seq<char>,
    pub number: Option<u64>,
    pub whole: Option<i64>,
    pub truth: Option<bool>,
    pub octets: Option<Result<Seq<u8>, Fixed>>,
}

/// What a [`Message`] stands for.
pub struct Msg {
    pub desc: usize,
    pub attrs: Seq<Val>,
    pub present: Seq<bool>,
    pub oneofs: Seq<Option<(Seq<char>, Val)>>,
    pub unknown: Seq<(u32, Val)>,
}

impl Foreign {
    pub open spec fn view(&self) -> ForeignVal {
        ForeignVal {
            type_text: self.type_text@,
            text: self.text@,
            repr: self.repr@,
            number: self.number,
            whole: self.whole,
            truth: self.truth,
            octets: match self.octets {
                Some(Ok(b)) => Some(Ok(b@)),
                Some(Err(e)) => Some(Err(e)),
                None => None,
            },
        }
    }

    /// A copy of what is known of an object.
    pub fn copy(&self) -> (r: Foreign)
        ensures
            r@ == self@,
    {
        Foreign {
            type_text: self.type_text.clone(),
            text: self.text.clone(),
            repr: self.repr.clone(),
            number: self.number,
            whole: self.whole,
            truth: self.truth,
            octets: match &self.octets {
                Some(Ok(b)) => Some(Ok(copy_bytes(b))),
                Some(Err(e)) => Some(Err(*e)),
                None => None,
            },
        }
    }
}

impl Value {
    pub open spec fn view(&self) -> Val
        decreases self,
    {
        match self {
            Value::Null => Val::Null,
            Value::Bool(b) => Val::Bool(*b),
            Value::Int(n) => Val::Int(n@),
            Value::Float(bits) => Val::Float(*bits),
            Value::Str(s) => Val::Str(s@),
            Value::Bytes(b) => Val::Bytes(b@),
            Value::ByteArray(b) => Val::ByteArray(b@),
            Value::List(items) => Val::List(list_view(items@)),
            Value::Dict(entries) => Val::Dict(dict_view(entries@)),
            Value::Message(m) => Val::Message(m.view()),
            Value::Foreign(f) => Val::Foreign(f.view()),
        }
    }
}

impl Message {
    pub open spec fn view(&self) -> Msg
        decreases self,
    {
        Msg {
            desc: self.desc,
            attrs: list_view(self.attrs@),
            present: self.present@,
            oneofs: oneofs_view(self.oneofs@),
            unknown: unknown_view(self.unknown@),
        }
    }
}

pub open spec fn list_view(items: Seq<Value>) -> Seq<Val>
    decreases items,
{
    Seq::new(
        items.len(),
        |i: int|
            if 0 <= i < items.len() {
                items[i].view()
            } else {
                Val::Null
            },
    )
}

pub open spec fn dict_view(entries: Seq<(Value, Value)>) -> Seq<(Val, Val)>
    decreases entries,
{
    Seq::new(
        entries.len(),
        |i: int|
            if 0 <= i < entries.len() {
                (entries[i].0.view(), entries[i].1.view())
            } else {
                (Val::Null, Val::Null)
            },
    )
}

pub open spec fn oneofs_view(oneofs: Seq<Option<Oneof>>) -> Seq<Option<(Seq<char>, Val)>>
    decreases oneofs,
{
    Seq::new(
        oneofs.len(),
        |i: int|
            if 0 <= i < oneofs.len() {
                match oneofs[i] {
                    Some(oneof) => Some((oneof.field@, oneof.value.view())),
                    None => None,
                }
            } else {
                None
            },
    )
}

pub open spec fn unknown_view(unknown: Seq<Unknown>) -> Seq<(u32, Val)>
    decreases unknown,
{
    Seq::new(
        unknown.len(),
        |i: int|
            if 0 <= i < unknown.len() {
                (unknown[i].number, unknown[i].value.view())
            } else {
                (0, Val::Null)
            },
    )
}

/// How many nodes a JSON tree has, counting each element of a container twice.
pub open spec fn tree_size(v: Val) -> nat
    decreases v,
{
    match v {
        Val::List(items) => 2 + items_size(items),
        Val::Dict(entries) => 2 + entries_size(entries),
        _ => 1,
    }
}

pub open spec fn items_size(items: Seq<Val>) -> nat
    decreases items,
{
    if items.len() == 0 {
        0
    } else {
        1 + tree_size(items[0]) + items_size(items.skip(1))
    }
}

pub open spec fn entries_size(entries: Seq<(Val, Val)>) -> nat
    decreases entries,
{
    if entries.len() == 0 {
        0
    } else {
        1 + tree_size(entries[0].1) + entries_size(entries.skip(1))
    }
}

/// Whether two keys name the same dictionary entry. Booleans count as the numbers 0 and 1.
pub open spec fn same_key(a: Val, b: Val) -> bool {
    match (a, b) {
        (Val::Str(x), Val::Str(y)) => x == y,
        (Val::Int(x), Val::Int(y)) => x == y,
        (Val::Bool(x), Val::Bool(y)) => x == y,
        (Val::Int(x), Val::Bool(y)) => x == if y {
            1int
        } else {
            0
        },
        (Val::Bool(x), Val::Int(y)) => y == if x {
            1int
        } else {
            0
        },
        _ => false,
    }
}

/// The index of the first entry with the given key.
pub open spec fn dict_index(entries: Seq<(Val, Val)>, key: Val) -> Option<int>
    decreases entries.len(),
{
    if entries.len() == 0 {
        None
    } else if same_key(entries[0].0, key) {
        Some(0)
    } else {
        match dict_index(entries.skip(1), key) {
            Some(i) => Some(i + 1),
            None => None,
        }
    }
}

/// Sets an entry: replaces the value of an entry with the same key, or adds an entry.
pub open spec fn dict_set(entries: Seq<(Val, Val)>, key: Val, value: Val) -> Seq<(Val, Val)> {
    match dict_index(entries, key) {
        Some(i) => entries.update(i, (entries[i].0, value)),
        None => entries.push((key, value)),
    }
}

/// An entry's index lies in the dictionary, holds the key, and is the first that does.
pub proof fn lemma_dict_index(entries: Seq<(Val, Val)>, key: Val)
    ensures
        dict_index(entries, key) is Some ==> {
            let i = dict_index(entries, key)->0;
            &&& 0 <= i < entries.len()
            &&& same_key(entries[i].0, key)
            &&& forall|j: int| 0 <= j < i ==> !same_key(#[trigger] entries[j].0, key)
        },
        dict_index(entries, key) is None ==> forall|j: int|
            0 <= j < entries.len() ==> !same_key(#[trigger] entries[j].0, key),
    decreases entries.len(),
{
    if entries.len() > 0 && !same_key(entries[0].0, key) {
        let rest = entries.skip(1);
        lemma_dict_index(rest, key);
        match dict_index(rest, key) {
            Some(i) => {
                assert(entries[i + 1] == rest[i]);
                assert forall|j: int| 0 <= j < i + 1 implies !same_key(
                    #[trigger] entries[j].0,
                    key,
                ) by {
                    if j > 0 {
                        assert(entries[j] == rest[j - 1]);
                    }
                }
            },
            None => {
                assert forall|j: int| 0 <= j < entries.len() implies !same_key(
                    #[trigger] entries[j].0,
                    key,
                ) by {
                    if j > 0 {
                        assert(entries[j] == rest[j - 1]);
                    }
                }
            },
        }
    }
}

/// The first index that holds a key is the key's index.
pub proof fn lemma_dict_index_is(entries: Seq<(Val, Val)>, key: Val, i: int)
    requires
        0 <= i < entries.len(),
        same_key(entries[i].0, key),
        forall|j: int| 0 <= j < i ==> !same_key(#[trigger] entries[j].0, key),
    ensures
        dict_index(entries, key) == Some(i),
{
    lemma_dict_index(entries, key);
    match dict_index(entries, key) {
        Some(j) => {
            if j < i {
                assert(!same_key(entries[j].0, key));
            }
        },
        None => {
            assert(!same_key(entries[i].0, key));
        },
    }
}

/// Whether two keys name the same dictionary entry.
pub fn keys_match(a: &Value, b: &Value) -> (r: bool)
    ensures
        r == same_key(a@, b@),
{
    match (a, b) {
        (Value::Str(x), Value::Str(y)) => same_text(x.as_str(), y.as_str()),
        (Value::Int(x), Value::Int(y)) => x.same(y),
        (Value::Bool(x), Value::Bool(y)) => *x == *y,
        (Value::Int(x), Value::Bool(y)) => match x.to_i64() {
            Some(n) => n == if *y {
                1
            } else {
                0
            },
            None => false,
        },
        (Value::Bool(x), Value::Int(y)) => match y.to_i64() {
            Some(n) => n == if *x {
                1
            } else {
                0
            },
            None => false,
        },
        _ => false,
    }
}

/// The index of the first entry with the given key.
pub fn find_key(entries: &Vec<(Value, Value)>, key: &Value) -> (r: Option<usize>)
    ensures
        r is Some <==> dict_index(dict_view(entries@), key@) is Some,
        r is Some ==> r->0 == dict_index(dict_view(entries@), key@)->0 && r->0 < entries@.len(),
{
    let ghost all = dict_view(entries@);
    let mut i: usize = 0;
    while i < entries.len()
        invariant
            i <= entries@.len(),
            all == dict_view(entries@),
            forall|j: int| 0 <= j < i ==> !same_key(#[trigger] all[j].0, key@),
        decreases entries@.len() - i,
    {
        if keys_match(&entries[i].0, key) {
            proof {
                assert(all[i as int].0 == entries@[i as int].0@);
                lemma_dict_index_is(all, key@, i as int);
            }
            return Some(i);
        }
        i = i + 1;
    }
    proof {
        lemma_dict_index(all, key@);
    }
    None
}

/// Sets an entry of a dictionary.
pub fn set_entry(entries: &mut Vec<(Value, Value)>, key: Value, value: Value)
    ensures
        dict_view(final(entries)@) == dict_set(dict_view(old(entries)@), key@, value@),
{
    let ghost before = dict_view(entries@);
    proof {
        lemma_dict_index(before, key@);
    }
    match find_key(entries, &key) {
        Some(i) => {
            let mut place: Value = value;
            std::mem::swap(&mut entries[i].1, &mut place);
            assert(dict_view(entries@) =~= dict_set(before, key@, value@));
        },
        None => {
            entries.push((key, value));
            assert(dict_view(entries@) =~= dict_set(before, key@, value@));
        },
    }
}

impl Value {
    /// A copy of a value.
    pub fn copy(&self) -> (r: Value)
        ensures
            r@ == self@,
        decreases self,
    {
        match self {
            Value::Null => Value::Null,
            Value::Bool(b) => Value::Bool(*b),
            Value::Int(n) => Value::Int(n.copy()),
            Value::Float(bits) => Value::Float(*bits),
            Value::Str(s) => Value::Str(s.clone()),
            Value::Bytes(b) => Value::Bytes(copy_bytes(b)),
            Value::ByteArray(b) => Value::ByteArray(copy_bytes(b)),
            Value::List(items) => Value::List(copy_values(items)),
            Value::Dict(entries) => Value::Dict(copy_entries(entries)),
            Value::Message(m) => Value::Message(m.copy()),
            Value::Foreign(f) => Value::Foreign(f.copy()),
        }
    }
}

impl Message {
    /// A copy of a message.
    pub fn copy(&self) -> (r: Message)
        ensures
            r@ == self@,
        decreases self,
    {
        let mut present: Vec<bool> = Vec::new();
        let mut i: usize = 0;
        while i < self.present.len()
            invariant
                i <= self.present@.len(),
                present@ == self.present@.take(i as int),
            decreases self.present@.len() - i,
        {
            present.push(self.present[i]);
            i = i + 1;
            assert(present@ =~= self.present@.take(i as int));
        }
        assert(present@ =~= self.present@);
        Message {
            desc: self.desc,
            attrs: copy_values(&self.attrs),
            present,
            oneofs: copy_oneofs(&self.oneofs),
            unknown: copy_unknown(&self.unknown),
        }
    }
}

pub fn copy_bytes(bytes: &Vec<u8>) -> (r: Vec<u8>)
    ensures
        r@ == bytes@,
{
    let mut out: Vec<u8> = Vec::new();
    let mut i: usize = 0;
    while i < bytes.len()
        invariant
            i <= bytes@.len(),
            out@ == bytes@.take(i as int),
        decreases bytes@.len() - i,
    {
        out.push(bytes[i]);
        i = i + 1;
        assert(out@ =~= bytes@.take(i as int));
    }
    assert(out@ =~= bytes@);
    out
}

fn copy_values(items: &Vec<Value>) -> (r: Vec<Value>)
    ensures
        list_view(r@) == list_view(items@),
    decreases items,
{
    let mut out: Vec<Value> = Vec::new();
    let mut i: usize = 0;
    while i < items.len()
        invariant
            i <= items@.len(),
            out@.len() == i,
            forall|j: int| 0 <= j < i ==> (#[trigger] out@[j])@ == items@[j]@,
        decreases items@.len() - i,
    {
        assert(decreases_to!(items => items@[i as int]));
        out.push(items[i].copy());
        i = i + 1;
    }
    assert(list_view(out@) =~= list_view(items@));
    out
}

fn copy_entries(entries: &Vec<(Value, Value)>) -> (r: Vec<(Value, Value)>)
    ensures
        dict_view(r@) == dict_view(entries@),
    decreases entries,
{
    let mut out: Vec<(Value, Value)> = Vec::new();
    let mut i: usize = 0;
    while i < entries.len()
        invariant
            i <= entries@.len(),
            out@.len() == i,
            forall|j: int|
                0 <= j < i ==> (#[trigger] out@[j]).0@ == entries@[j].0@ && out@[j].1@
                    == entries@[j].1@,
        decreases entries@.len() - i,
    {
        assert(decreases_to!(entries => entries@[i as int]));
        out.push((entries[i].0.copy(), entries[i].1.copy()));
        i = i + 1;
    }
    assert(dict_view(out@) =~= dict_view(entries@));
    out
}

fn copy_oneofs(oneofs: &Vec<Option<Oneof>>) -> (r: Vec<Option<Oneof>>)
    ensures
        oneofs_view(r@) == oneofs_view(oneofs@),
    decreases oneofs,
{
    let mut out: Vec<Option<Oneof>> = Vec::new();
    let mut i: usize = 0;
    while i < oneofs.len()
        invariant
            i <= oneofs@.len(),
            out@.len() == i,
            forall|j: int|
                0 <= j < i ==> oneofs_view(out@)[j] == #[trigger] oneofs_view(oneofs@)[j],
        decreases oneofs@.len() - i,
    {
        assert(decreases_to!(oneofs => oneofs@[i as int]));
        let ghost before = out@;
        let next: Option<Oneof> = match &oneofs[i] {
            Some(oneof) => Some(Oneof { field: oneof.field.clone(), value: oneof.value.copy() }),
            None => None,
        };
        out.push(next);
        i = i + 1;
        assert forall|j: int| 0 <= j < i implies oneofs_view(out@)[j] == #[trigger] oneofs_view(
            oneofs@,
        )[j] by {
            if j < i - 1 {
                assert(oneofs_view(before)[j] == oneofs_view(oneofs@)[j]);
                assert(out@[j] == before[j]);
            }
        }
    }
    assert(oneofs_view(out@) =~= oneofs_view(oneofs@));
    out
}

fn copy_unknown(unknown: &Vec<Unknown>) -> (r: Vec<Unknown>)
    ensures
        unknown_view(r@) == unknown_view(unknown@),
    decreases unknown,
{
    let mut out: Vec<Unknown> = Vec::new();
    let mut i: usize = 0;
    while i < unknown.len()
        invariant
            i <= unknown@.len(),
            out@.len() == i,
            forall|j: int|
                0 <= j < i ==> (#[trigger] out@[j]).number == unknown@[j].number
                    && out@[j].value@ == unknown@[j].value@,
        decreases unknown@.len() - i,
    {
        assert(decreases_to!(unknown => unknown@[i as int]));
        out.push(Unknown { number: unknown[i].number, value: unknown[i].value.copy() });
        i = i + 1;
    }
    assert(unknown_view(out@) =~= unknown_view(unknown@));
    out
}

} // verus!
