//! Where JSON values are read from: a JSON text, or a tree of values.

use vstd::prelude::*;
use vstd::slice::*;
use vstd::string::*;
use crate::double;
use crate::double::{double_is_finite, parse_double};
use crate::error;
use crate::error::{Error, ErrorOf, Expected, Fault, Fixed};
use crate::integer;
use crate::integer::Integer;
use crate::json_text;
use crate::json_text::{
    jiter_array, jiter_array_step, jiter_bool, jiter_finish, jiter_float, jiter_key, jiter_null,
    jiter_number, jiter_object, jiter_peek, jiter_skip, jiter_str, FailVal, JsonFail, JsonNumber,
    NumberVal,
};
use crate::text;
use crate::text::chars_of;
use crate::value;
use crate::value::{Val, Value};

verus! {

/// The kinds of JSON values.
#[derive(Clone, Copy, Debug, PartialEq, Eq, Structural)]
pub enum JsonKind {
    Null,
    Bool,
    Number,
    String,
    Array,
    Object,
}

/// The state of a source.
pub enum SrcState {
    /// A text and how many of its bytes were read.
    Text { data: Seq<u8>, pos: nat },
    /// The value to be read next.
    Tree(Option<Val>),
}

/// The kind of the value that starts with a byte.
pub open spec fn byte_kind(b: u8) -> JsonKind {
    if b == 0x6e {
        JsonKind::Null
    } else if b == 0x74 || b == 0x66 {
        JsonKind::Bool
    } else if b == 0x22 {
        JsonKind::String
    } else if b == 0x5b {
        JsonKind::Array
    } else if b == 0x7b {
        JsonKind::Object
    } else {
        JsonKind::Number
    }
}

/// The error of a text whose part from `pos` on is not JSON.
pub open spec fn syntax(pos: nat, f: FailVal) -> Fault {
    Fault::Syntax {
        message: f.0,
        index: if pos + f.1 > usize::MAX {
            usize::MAX
        } else {
            (pos + f.1) as usize
        },
    }
}

pub open spec fn tree_end() -> Fault {
    Fault::Fixed(Fixed::TreeEnd)
}

/// The kind of the next value.
pub open spec fn peeked(s: SrcState) -> Result<JsonKind, Fault> {
    match s {
        SrcState::Text { data, pos } => match json_text::peek_at(data.skip(pos as int)) {
            Ok((b, _)) => Ok(byte_kind(b)),
            Err(f) => Err(syntax(pos, f)),
        },
        SrcState::Tree(Some(v)) => match v {
            Val::Null => Ok(JsonKind::Null),
            Val::Bool(_) => Ok(JsonKind::Bool),
            Val::Int(_) | Val::Float(_) => Ok(JsonKind::Number),
            Val::Str(_) => Ok(JsonKind::String),
            Val::List(_) => Ok(JsonKind::Array),
            Val::Dict(_) => Ok(JsonKind::Object),
            _ => Err(Fault::TreeType { value: v }),
        },
        SrcState::Tree(None) => Err(tree_end()),
    }
}

/// The state behind a null.
pub open spec fn null_read(s: SrcState) -> Result<SrcState, Fault> {
    match s {
        SrcState::Text { data, pos } => match json_text::null_at(data.skip(pos as int)) {
            Ok(n) => Ok(SrcState::Text { data, pos: pos + n }),
            Err(f) => Err(syntax(pos, f)),
        },
        SrcState::Tree(Some(Val::Null)) => Ok(SrcState::Tree(None)),
        SrcState::Tree(Some(_)) => Err(Fault::Fixed(Fixed::JsonType)),
        SrcState::Tree(None) => Err(tree_end()),
    }
}

/// A boolean and the state behind it.
pub open spec fn bool_read(s: SrcState) -> Result<(bool, SrcState), Fault> {
    match s {
        SrcState::Text { data, pos } => match json_text::bool_at(data.skip(pos as int)) {
            Ok((b, n)) => Ok((b, SrcState::Text { data, pos: pos + n })),
            Err(f) => Err(syntax(pos, f)),
        },
        SrcState::Tree(Some(Val::Bool(b))) => Ok((b, SrcState::Tree(None))),
        SrcState::Tree(Some(v)) => Err(Fault::Cast { value: v, to: Expected::Bool }),
        SrcState::Tree(None) => Err(tree_end()),
    }
}

/// A number and the state behind it.
pub open spec fn number_read(s: SrcState) -> Result<(Val, SrcState), Fault> {
    match s {
        SrcState::Text { data, pos } => match json_text::number_at(data.skip(pos as int)) {
            Ok((NumberVal::Int(i), n)) => Ok((Val::Int(i), SrcState::Text { data, pos: pos + n })),
            Ok((NumberVal::Float(b), n)) => Ok(
                (Val::Float(b), SrcState::Text { data, pos: pos + n }),
            ),
            Err(f) => Err(syntax(pos, f)),
        },
        SrcState::Tree(Some(v)) => Ok((v, SrcState::Tree(None))),
        SrcState::Tree(None) => Err(tree_end()),
    }
}

/// The double nearest to an integer, if there is a finite one.
pub open spec fn int_double(n: int) -> Option<u64> {
    match double::parsed_double(text::int_text(n)) {
        Some(bits) => if double::is_finite(bits) {
            Some(bits)
        } else {
            None
        },
        None => None,
    }
}

/// A value as a double. Booleans count as the numbers 0 and 1, and an object of another type as
/// the number that it converts to.
pub open spec fn as_double(v: Val) -> Result<u64, Fault> {
    match v {
        Val::Float(bits) => Ok(bits),
        Val::Int(n) => match int_double(n) {
            Some(bits) => Ok(bits),
            None => Err(Fault::Fixed(Fixed::IntTooLarge)),
        },
        Val::Bool(b) => Ok(
            if b {
                0x3ff0_0000_0000_0000
            } else {
                0
            },
        ),
        Val::Foreign(f) => match f.number {
            Some(bits) => Ok(bits),
            None => Err(Fault::Cast { value: v, to: Expected::Float }),
        },
        _ => Err(Fault::Cast { value: v, to: Expected::Float }),
    }
}

/// A number as a double and the state behind it.
pub open spec fn float_read(s: SrcState) -> Result<(u64, SrcState), Fault> {
    match s {
        SrcState::Text { data, pos } => match json_text::float_at(data.skip(pos as int)) {
            Ok((b, n)) => Ok((b, SrcState::Text { data, pos: pos + n })),
            Err(f) => Err(syntax(pos, f)),
        },
        SrcState::Tree(Some(v)) => match as_double(v) {
            Ok(bits) => Ok((bits, SrcState::Tree(None))),
            Err(f) => Err(f),
        },
        SrcState::Tree(None) => Err(tree_end()),
    }
}

/// A string and the state behind it.
pub open spec fn string_read(s: SrcState) -> Result<(Seq<char>, SrcState), Fault> {
    match s {
        SrcState::Text { data, pos } => match json_text::string_at(data.skip(pos as int)) {
            Ok((t, n)) => Ok((t, SrcState::Text { data, pos: pos + n })),
            Err(f) => Err(syntax(pos, f)),
        },
        SrcState::Tree(Some(Val::Str(t))) => Ok((t, SrcState::Tree(None))),
        SrcState::Tree(Some(v)) => Err(Fault::Cast { value: v, to: Expected::Str }),
        SrcState::Tree(None) => Err(tree_end()),
    }
}

/// Moves on to the first of the items of a tree's list: the items behind it, whether there is
/// one, and the state.
pub open spec fn first_item(items: Seq<Val>) -> (Seq<Val>, bool, SrcState) {
    if items.len() == 0 {
        (seq![], false, SrcState::Tree(None))
    } else {
        (items.skip(1), true, SrcState::Tree(Some(items[0])))
    }
}

/// Enters an array: the items behind the first one of a tree's list, whether there is a first
/// one, and the state at it or behind the array.
pub open spec fn array_read(s: SrcState) -> Result<(Seq<Val>, bool, SrcState), Fault> {
    match s {
        SrcState::Text { data, pos } => match json_text::array_at(data.skip(pos as int)) {
            Ok((more, n)) => Ok((seq![], more, SrcState::Text { data, pos: pos + n })),
            Err(f) => Err(syntax(pos, f)),
        },
        SrcState::Tree(Some(Val::List(items))) => Ok(first_item(items)),
        SrcState::Tree(Some(v)) => Err(Fault::Cast { value: v, to: Expected::List }),
        SrcState::Tree(None) => Err(tree_end()),
    }
}

/// Moves on behind an element of an array.
pub open spec fn array_stepped(s: SrcState, items: Seq<Val>) -> Result<
    (Seq<Val>, bool, SrcState),
    Fault,
> {
    match s {
        SrcState::Text { data, pos } => match json_text::array_step_at(data.skip(pos as int)) {
            Ok((more, n)) => Ok((items, more, SrcState::Text { data, pos: pos + n })),
            Err(f) => Err(syntax(pos, f)),
        },
        SrcState::Tree(_) => Ok(first_item(items)),
    }
}

/// Moves on to the first of the entries of a tree's dictionary: the entries behind it, its key,
/// and the state at its value.
pub open spec fn first_entry(entries: Seq<(Val, Val)>) -> Result<
    (Seq<(Val, Val)>, Option<Seq<char>>, SrcState),
    Fault,
> {
    if entries.len() == 0 {
        Ok((seq![], None, SrcState::Tree(None)))
    } else {
        match entries[0].0 {
            Val::Str(key) => Ok(
                (entries.skip(1), Some(key), SrcState::Tree(Some(entries[0].1))),
            ),
            _ => Err(Fault::Fixed(Fixed::KeyNotString)),
        }
    }
}

/// Enters an object: the entries behind the first one of a tree's dictionary, the first key, and
/// the state at its value or behind the object.
pub open spec fn object_read(s: SrcState) -> Result<
    (Seq<(Val, Val)>, Option<Seq<char>>, SrcState),
    Fault,
> {
    match s {
        SrcState::Text { data, pos } => match json_text::object_at(data.skip(pos as int)) {
            Ok((key, n)) => Ok((seq![], key, SrcState::Text { data, pos: pos + n })),
            Err(f) => Err(syntax(pos, f)),
        },
        SrcState::Tree(Some(Val::Dict(entries))) => first_entry(entries),
        SrcState::Tree(Some(v)) => Err(Fault::Cast { value: v, to: Expected::Dict }),
        SrcState::Tree(None) => Err(tree_end()),
    }
}

/// Moves on behind a value of an object.
pub open spec fn key_read(s: SrcState, entries: Seq<(Val, Val)>) -> Result<
    (Seq<(Val, Val)>, Option<Seq<char>>, SrcState),
    Fault,
> {
    match s {
        SrcState::Text { data, pos } => match json_text::key_at(data.skip(pos as int)) {
            Ok((key, n)) => Ok((entries, key, SrcState::Text { data, pos: pos + n })),
            Err(f) => Err(syntax(pos, f)),
        },
        SrcState::Tree(_) => first_entry(entries),
    }
}

/// The state behind a value of any kind.
pub open spec fn skipped(s: SrcState) -> Result<SrcState, Fault> {
    match s {
        SrcState::Text { data, pos } => match json_text::skip_at(data.skip(pos as int)) {
            Ok(n) => Ok(SrcState::Text { data, pos: pos + n }),
            Err(f) => Err(syntax(pos, f)),
        },
        SrcState::Tree(_) => Ok(SrcState::Tree(None)),
    }
}

/// A bound on the size of the values that are left to be read.
pub open spec fn left(s: SrcState) -> nat {
    match s {
        SrcState::Text { data, pos } => if pos < data.len() {
            (4 * (data.len() - pos)) as nat
        } else {
            0
        },
        SrcState::Tree(Some(v)) => value::tree_size(v),
        SrcState::Tree(None) => 0,
    }
}

/// [`left`] within an array.
pub open spec fn items_left(s: SrcState, items: Seq<Val>) -> nat {
    left(s) + value::items_size(items)
}

/// [`left`] within an object.
pub open spec fn entries_left(s: SrcState, entries: Seq<(Val, Val)>) -> nat {
    left(s) + value::entries_size(entries)
}

/// The items of a tree's list that are still to be read.
pub struct Items {
    items: Vec<Value>,
    next: usize,
}

impl Items {
    #[verifier::type_invariant]
    spec fn in_bounds(self) -> bool {
        self.next <= self.items@.len()
    }

    pub closed spec fn view(&self) -> Seq<Val> {
        value::list_view(self.items@).skip(self.next as int)
    }

    /// No items.
    fn none() -> (r: Items)
        ensures
            r@ == Seq::<Val>::empty(),
    {
        let r = Items { items: Vec::new(), next: 0 };
        assert(r@ =~= Seq::<Val>::empty());
        r
    }

    fn of(items: Vec<Value>) -> (r: Items)
        ensures
            r@ == value::list_view(items@),
    {
        let r = Items { items, next: 0 };
        assert(r@ =~= value::list_view(items@));
        r
    }

    fn take_next(&mut self) -> (r: Option<Value>)
        ensures
            match r {
                Some(v) => old(self)@.len() > 0 && v@ == old(self)@[0] && final(self)@
                    == old(self)@.skip(1),
                None => old(self)@.len() == 0 && final(self)@ == old(self)@,
            },
    {
        proof {
            use_type_invariant(&*self);
        }
        if self.next < self.items.len() {
            let mut place: Value = Value::Null;
            let i: usize = self.next;
            let ghost before = value::list_view(self.items@);
            std::mem::swap(&mut self.items[i], &mut place);
            self.next = i + 1;
            proof {
                let after = value::list_view(self.items@);
                assert forall|j: int| i + 1 <= j < before.len() implies after[j] == before[j] by {}
                assert(self@ =~= old(self)@.skip(1));
            }
            Some(place)
        } else {
            assert(self@ =~= Seq::<Val>::empty());
            None
        }
    }
}

/// The entries of a tree's dictionary that are still to be read.
pub struct Entries {
    entries: Vec<(Value, Value)>,
    next: usize,
}

impl Entries {
    #[verifier::type_invariant]
    spec fn in_bounds(self) -> bool {
        self.next <= self.entries@.len()
    }

    pub closed spec fn view(&self) -> Seq<(Val, Val)> {
        value::dict_view(self.entries@).skip(self.next as int)
    }

    /// No entries.
    fn none() -> (r: Entries)
        ensures
            r@ == Seq::<(Val, Val)>::empty(),
    {
        let r = Entries { entries: Vec::new(), next: 0 };
        assert(r@ =~= Seq::<(Val, Val)>::empty());
        r
    }

    fn of(entries: Vec<(Value, Value)>) -> (r: Entries)
        ensures
            r@ == value::dict_view(entries@),
    {
        let r = Entries { entries, next: 0 };
        assert(r@ =~= value::dict_view(entries@));
        r
    }

    fn take_next(&mut self) -> (r: Option<(Value, Value)>)
        ensures
            match r {
                Some(e) => old(self)@.len() > 0 && e.0@ == old(self)@[0].0 && e.1@
                    == old(self)@[0].1 && final(self)@ == old(self)@.skip(1),
                None => old(self)@.len() == 0 && final(self)@ == old(self)@,
            },
    {
        proof {
            use_type_invariant(&*self);
        }
        if self.next < self.entries.len() {
            let mut place: (Value, Value) = (Value::Null, Value::Null);
            let i: usize = self.next;
            let ghost before = value::dict_view(self.entries@);
            std::mem::swap(&mut self.entries[i], &mut place);
            self.next = i + 1;
            proof {
                let after = value::dict_view(self.entries@);
                assert forall|j: int| i + 1 <= j < before.len() implies after[j] == before[j] by {}
                assert(self@ =~= old(self)@.skip(1));
            }
            Some(place)
        } else {
            assert(self@ =~= Seq::<(Val, Val)>::empty());
            None
        }
    }
}

/// A stream of JSON values. Its methods read one value, or one step within a container.
pub trait JsonSource {
    /// What is left to be read.
    spec fn state(&self) -> SrcState;

    /// The kind of the next value, which stays unread.
    fn peek(&self) -> (r: Result<JsonKind, Error>)
        ensures
            error::outcome(r) == peeked(self.state()),
    ;

    /// Reads a null.
    fn next_null(&mut self) -> (r: Result<(), Error>)
        ensures
            match null_read(old(self).state()) {
                Ok(s) => r is Ok && final(self).state() == s && left(s) < left(old(self).state()),
                Err(f) => r is Err && error::fault_of(r->Err_0) == f,
            },
    ;

    /// Reads a boolean.
    fn next_bool(&mut self) -> (r: Result<bool, Error>)
        ensures
            match bool_read(old(self).state()) {
                Ok((b, s)) => r is Ok && r->Ok_0 == b && final(self).state() == s && left(s) < left(
                    old(self).state(),
                ),
                Err(f) => r is Err && error::fault_of(r->Err_0) == f,
            },
    ;

    /// Reads a number.
    fn next_number(&mut self) -> (r: Result<Value, Error>)
        ensures
            match number_read(old(self).state()) {
                Ok((v, s)) => r is Ok && r->Ok_0@ == v && final(self).state() == s && left(s)
                    < left(old(self).state()) && value::tree_size(v) + left(s) <= left(
                    old(self).state(),
                ),
                Err(f) => r is Err && error::fault_of(r->Err_0) == f,
            },
    ;

    /// Reads a number as a double.
    fn next_float(&mut self) -> (r: Result<u64, Error>)
        ensures
            match float_read(old(self).state()) {
                Ok((b, s)) => r is Ok && r->Ok_0 == b && final(self).state() == s && left(s) < left(
                    old(self).state(),
                ),
                Err(f) => r is Err && error::fault_of(r->Err_0) == f,
            },
    ;

    /// Reads a string.
    fn next_string(&mut self) -> (r: Result<String, Error>)
        ensures
            match string_read(old(self).state()) {
                Ok((t, s)) => r is Ok && r->Ok_0@ == t && final(self).state() == s && left(s)
                    < left(old(self).state()),
                Err(f) => r is Err && error::fault_of(r->Err_0) == f,
            },
    ;

    /// Enters an array. `true` means that the source is at an element of it.
    fn next_array(&mut self) -> (r: Result<(Items, bool), Error>)
        ensures
            match array_read(old(self).state()) {
                Ok((items, more, s)) => {
                    &&& r is Ok
                    &&& r->Ok_0.0@ == items
                    &&& r->Ok_0.1 == more
                    &&& final(self).state() == s
                    &&& items_left(s, items) + 2 <= left(old(self).state())
                },
                Err(f) => r is Err && error::fault_of(r->Err_0) == f,
            },
    ;

    /// Moves on behind an element of an array. `true` means that the source is at another.
    fn array_step(&mut self, items: &mut Items) -> (r: Result<bool, Error>)
        ensures
            match array_stepped(old(self).state(), old(items)@) {
                Ok((rest, more, s)) => {
                    &&& r is Ok
                    &&& r->Ok_0 == more
                    &&& final(items)@ == rest
                    &&& final(self).state() == s
                    &&& items_left(s, rest) + (if more {
                        1nat
                    } else {
                        0
                    }) <= items_left(old(self).state(), old(items)@)
                },
                Err(f) => r is Err && error::fault_of(r->Err_0) == f,
            },
    ;

    /// Enters an object. A key means that the source is at the key's value.
    fn next_object(&mut self) -> (r: Result<(Entries, Option<String>), Error>)
        ensures
            match object_read(old(self).state()) {
                Ok((entries, key, s)) => {
                    &&& r is Ok
                    &&& r->Ok_0.0@ == entries
                    &&& json_text::key_view(r->Ok_0.1) == key
                    &&& final(self).state() == s
                    &&& entries_left(s, entries) + 2 <= left(old(self).state())
                },
                Err(f) => r is Err && error::fault_of(r->Err_0) == f,
            },
    ;

    /// Moves on behind a value of an object. A key means that the source is at the key's value.
    fn next_key(&mut self, entries: &mut Entries) -> (r: Result<Option<String>, Error>)
        ensures
            match key_read(old(self).state(), old(entries)@) {
                Ok((rest, key, s)) => {
                    &&& r is Ok
                    &&& json_text::key_view(r->Ok_0) == key
                    &&& final(entries)@ == rest
                    &&& final(self).state() == s
                    &&& entries_left(s, rest) + (if key is Some {
                        1nat
                    } else {
                        0
                    }) <= entries_left(old(self).state(), old(entries)@)
                },
                Err(f) => r is Err && error::fault_of(r->Err_0) == f,
            },
    ;

    /// Skips a value.
    fn skip(&mut self) -> (r: Result<(), Error>)
        ensures
            match skipped(old(self).state()) {
                Ok(s) => r is Ok && final(self).state() == s && left(s) <= left(old(self).state()),
                Err(f) => r is Err && error::fault_of(r->Err_0) == f,
            },
    ;
}

/// White space ends within the text.
proof fn lemma_spaces(data: Seq<u8>)
    ensures
        json_text::spaces(data) <= data.len(),
    decreases data.len(),
{
    if data.len() > 0 && json_text::is_space(data[0]) {
        lemma_spaces(data.skip(1));
    }
}

proof fn lemma_token_start(data: Seq<u8>, from: nat)
    requires
        from <= data.len(),
    ensures
        from <= json_text::token_start(data, from) <= data.len(),
{
    lemma_spaces(data.skip(from as int));
}

/// A source that reads a JSON text.
pub struct JiterSource<'a> {
    data: &'a [u8],
    pos: usize,
}

impl<'a> JiterSource<'a> {
    #[verifier::type_invariant]
    spec fn in_bounds(self) -> bool {
        self.pos <= self.data@.len()
    }

    /// A source at the start of a text.
    pub fn new(data: &'a [u8]) -> (r: JiterSource<'a>)
        ensures
            r.state() == (SrcState::Text { data: data@, pos: 0 }),
    {
        JiterSource { data, pos: 0 }
    }

    /// Accepts the end of the text, with white space before it.
    pub fn finish(&self) -> (r: Result<(), Error>)
        ensures
            error::outcome(r) == finished(self.state()),
    {
        match jiter_finish(self.rest()) {
            Ok(()) => Ok(()),
            Err(e) => Err(self.decode_error(e)),
        }
    }

    fn rest(&self) -> (r: &'a [u8])
        ensures
            self.state() matches SrcState::Text { data, pos } && r@ == data.skip(pos as int) && pos
                <= data.len() && r@.len() == data.len() - pos,
    {
        proof {
            use_type_invariant(self);
        }
        let r = slice_subrange(self.data, self.pos, self.data.len());
        assert(r@ =~= self.data@.skip(self.pos as int));
        r
    }

    fn decode_error(&self, e: JsonFail) -> (r: Error)
        ensures
            self.state() matches SrcState::Text { data, pos } && error::fault_of(r) == syntax(
                pos,
                json_text::fail_view(e),
            ),
    {
        ErrorOf::Syntax { message: e.message, index: self.pos.saturating_add(e.index) }
    }

    fn advance(&mut self, n: usize)
        requires
            old(self).state() matches SrcState::Text { data, pos } && pos + n <= data.len(),
        ensures
            old(self).state() matches SrcState::Text { data, pos } && final(self).state() == (
            SrcState::Text { data, pos: pos + n as nat }),
    {
        let end: usize = self.data.len();
        assert(self.pos + n <= end);
        self.pos = self.pos + n;
    }
}

/// Whether nothing but white space is left.
pub open spec fn finished(s: SrcState) -> Result<(), Fault> {
    match s {
        SrcState::Text { data, pos } => match json_text::finish_at(data.skip(pos as int)) {
            Ok(u) => Ok(u),
            Err(f) => Err(syntax(pos, f)),
        },
        SrcState::Tree(_) => Ok(()),
    }
}

fn kind_of_byte(b: u8) -> (r: JsonKind)
    ensures
        r == byte_kind(b),
{
    if b == 0x6e {
        JsonKind::Null
    } else if b == 0x74 || b == 0x66 {
        JsonKind::Bool
    } else if b == 0x22 {
        JsonKind::String
    } else if b == 0x5b {
        JsonKind::Array
    } else if b == 0x7b {
        JsonKind::Object
    } else {
        JsonKind::Number
    }
}

/// The integer with the given decimal text.
fn integer_of_text(digits: &str, Ghost(n): Ghost<int>) -> (r: Integer)
    requires
        digits@ == text::int_text(n),
    ensures
        r@ == n,
{
    let chars: Vec<char> = chars_of(digits);
    proof {
        text::lemma_nat_text((if n < 0 { -n } else { n }) as nat);
        if n < 0 {
            assert(chars@.subrange(1, chars@.len() as int) =~= text::nat_text((-n) as nat));
        } else {
            assert(text::is_digit(chars@[0]));
            assert(chars@.subrange(0, chars@.len() as int) =~= text::nat_text(n as nat));
        }
    }
    if chars[0] == '-' {
        Integer::from_digits(true, &chars, 1, chars.len())
    } else {
        Integer::from_digits(false, &chars, 0, chars.len())
    }
}

impl<'a> JsonSource for JiterSource<'a> {
    closed spec fn state(&self) -> SrcState {
        SrcState::Text { data: self.data@, pos: self.pos as nat }
    }

    fn peek(&self) -> (r: Result<JsonKind, Error>) {
        match jiter_peek(self.rest()) {
            Ok(b) => Ok(kind_of_byte(b)),
            Err(e) => Err(self.decode_error(e)),
        }
    }

    fn next_null(&mut self) -> (r: Result<(), Error>) {
        let rest: &[u8] = self.rest();
        match jiter_null(rest) {
            Ok(n) => {
                self.advance(n);
                Ok(())
            },
            Err(e) => Err(self.decode_error(e)),
        }
    }

    fn next_bool(&mut self) -> (r: Result<bool, Error>) {
        let rest: &[u8] = self.rest();
        match jiter_bool(rest) {
            Ok((b, n)) => {
                self.advance(n);
                Ok(b)
            },
            Err(e) => Err(self.decode_error(e)),
        }
    }

    fn next_number(&mut self) -> (r: Result<Value, Error>) {
        let rest: &[u8] = self.rest();
        match jiter_number(rest) {
            Ok((number, n)) => {
                self.advance(n);
                match number {
                    JsonNumber::Int(v) => {
                        proof {
                            let w = json_text::number_at(rest@)->Ok_0.0->Int_0;
                            integer::lemma_int_text_read_back(v as int);
                            integer::lemma_int_text_read_back(w);
                        }
                        Ok(Value::Int(Integer::from_i64(v)))
                    },
                    JsonNumber::Big(digits) => {
                        let ghost v = json_text::number_at(rest@)->Ok_0.0->Int_0;
                        Ok(Value::Int(integer_of_text(digits.as_str(), Ghost(v))))
                    },
                    JsonNumber::Float(bits) => Ok(Value::Float(bits)),
                }
            },
            Err(e) => Err(self.decode_error(e)),
        }
    }

    fn next_float(&mut self) -> (r: Result<u64, Error>) {
        let rest: &[u8] = self.rest();
        match jiter_float(rest) {
            Ok((bits, n)) => {
                self.advance(n);
                Ok(bits)
            },
            Err(e) => Err(self.decode_error(e)),
        }
    }

    fn next_string(&mut self) -> (r: Result<String, Error>) {
        let rest: &[u8] = self.rest();
        match jiter_str(rest) {
            Ok((t, n)) => {
                self.advance(n);
                Ok(t)
            },
            Err(e) => Err(self.decode_error(e)),
        }
    }

    fn next_array(&mut self) -> (r: Result<(Items, bool), Error>) {
        let rest: &[u8] = self.rest();
        proof {
            lemma_token_start(rest@, 0);
            let w = json_text::token_start(rest@, 0);
            if w < rest@.len() {
                lemma_token_start(rest@, w + 1);
            }
        }
        match jiter_array(rest) {
            Ok((more, n)) => {
                self.advance(n);
                Ok((Items::none(), more))
            },
            Err(e) => Err(self.decode_error(e)),
        }
    }

    fn array_step(&mut self, items: &mut Items) -> (r: Result<bool, Error>) {
        let rest: &[u8] = self.rest();
        proof {
            lemma_token_start(rest@, 0);
            let w = json_text::token_start(rest@, 0);
            if w < rest@.len() {
                lemma_token_start(rest@, w + 1);
            }
        }
        match jiter_array_step(rest) {
            Ok((more, n)) => {
                self.advance(n);
                Ok(more)
            },
            Err(e) => Err(self.decode_error(e)),
        }
    }

    fn next_object(&mut self) -> (r: Result<(Entries, Option<String>), Error>) {
        let rest: &[u8] = self.rest();
        proof {
            lemma_token_start(rest@, 0);
            let w = json_text::token_start(rest@, 0);
            if w < rest@.len() {
                lemma_token_start(rest@, w + 1);
            }
        }
        match jiter_object(rest) {
            Ok((key, n)) => {
                self.advance(n);
                Ok((Entries::none(), key))
            },
            Err(e) => Err(self.decode_error(e)),
        }
    }

    fn next_key(&mut self, entries: &mut Entries) -> (r: Result<Option<String>, Error>) {
        let rest: &[u8] = self.rest();
        proof {
            lemma_token_start(rest@, 0);
            let w = json_text::token_start(rest@, 0);
            if w < rest@.len() {
                lemma_token_start(rest@, w + 1);
            }
        }
        match jiter_key(rest) {
            Ok((key, n)) => {
                self.advance(n);
                Ok(key)
            },
            Err(e) => Err(self.decode_error(e)),
        }
    }

    fn skip(&mut self) -> (r: Result<(), Error>) {
        let rest: &[u8] = self.rest();
        match jiter_skip(rest) {
            Ok(n) => {
                self.advance(n);
                Ok(())
            },
            Err(e) => Err(self.decode_error(e)),
        }
    }
}

/// A value as a double.
pub(crate) fn double_of_value(v: &Value) -> (r: Result<u64, Error>)
    ensures
        error::outcome(r) == as_double(v@),
{
    match v {
        Value::Float(bits) => Ok(*bits),
        Value::Int(n) => {
            let digits: String = n.text();
            match parse_double(digits.as_str()) {
                Some(bits) => if double_is_finite(bits) {
                    Ok(bits)
                } else {
                    Err(ErrorOf::Fixed(Fixed::IntTooLarge))
                },
                None => Err(ErrorOf::Fixed(Fixed::IntTooLarge)),
            }
        },
        Value::Bool(b) => Ok(
            if *b {
                0x3ff0_0000_0000_0000
            } else {
                0
            },
        ),
        Value::Foreign(f) => match f.number {
            Some(bits) => Ok(bits),
            None => Err(ErrorOf::Cast { value: v.copy(), to: Expected::Float }),
        },
        other => Err(ErrorOf::Cast { value: other.copy(), to: Expected::Float }),
    }
}

/// A source that walks a tree of values.
pub struct PyTreeSource {
    /// The value to be read next.
    current: Option<Value>,
}

impl PyTreeSource {
    /// A source at the root of a tree.
    pub fn new(root: Value) -> (r: PyTreeSource)
        ensures
            r.state() == SrcState::Tree(Some(root@)),
    {
        PyTreeSource { current: Some(root) }
    }

    fn take_current(&mut self) -> (r: Result<Value, Error>)
        ensures
            final(self).state() == SrcState::Tree(None),
            match old(self).state() {
                SrcState::Tree(Some(v)) => r is Ok && r->Ok_0@ == v,
                SrcState::Tree(None) => r is Err && error::fault_of(r->Err_0) == tree_end(),
                SrcState::Text { .. } => false,
            },
    {
        let mut place: Option<Value> = None;
        std::mem::swap(&mut self.current, &mut place);
        match place {
            Some(v) => Ok(v),
            None => Err(ErrorOf::Fixed(Fixed::TreeEnd)),
        }
    }

    fn move_to_item(&mut self, items: &mut Items) -> (r: bool)
        ensures
            first_item(old(items)@) == (final(items)@, r, final(self).state()),
            items_left(final(self).state(), final(items)@) + (if r {
                1nat
            } else {
                0
            }) == value::items_size(old(items)@),
    {
        let ghost before = items@;
        match items.take_next() {
            Some(v) => {
                self.current = Some(v);
                true
            },
            None => {
                self.current = None;
                assert(before =~= seq![]);
                false
            },
        }
    }

    fn move_to_entry(&mut self, entries: &mut Entries) -> (r: Result<Option<String>, Error>)
        ensures
            match first_entry(old(entries)@) {
                Ok((rest, key, s)) => {
                    &&& r is Ok
                    &&& json_text::key_view(r->Ok_0) == key
                    &&& final(entries)@ == rest
                    &&& final(self).state() == s
                    &&& entries_left(s, rest) + (if key is Some {
                        1nat
                    } else {
                        0
                    }) == value::entries_size(old(entries)@)
                },
                Err(f) => r is Err && error::fault_of(r->Err_0) == f,
            },
    {
        let ghost before = entries@;
        match entries.take_next() {
            Some((key, v)) => match key {
                Value::Str(key) => {
                    self.current = Some(v);
                    Ok(Some(key))
                },
                _ => Err(ErrorOf::Fixed(Fixed::KeyNotString)),
            },
            None => {
                self.current = None;
                assert(before =~= seq![]);
                Ok(None)
            },
        }
    }
}

impl JsonSource for PyTreeSource {
    closed spec fn state(&self) -> SrcState {
        SrcState::Tree(
            match self.current {
                Some(v) => Some(v@),
                None => None,
            },
        )
    }

    fn peek(&self) -> (r: Result<JsonKind, Error>) {
        match &self.current {
            Some(v) => match v {
                Value::Null => Ok(JsonKind::Null),
                Value::Bool(_) => Ok(JsonKind::Bool),
                Value::Int(_) | Value::Float(_) => Ok(JsonKind::Number),
                Value::Str(_) => Ok(JsonKind::String),
                Value::List(_) => Ok(JsonKind::Array),
                Value::Dict(_) => Ok(JsonKind::Object),
                other => Err(ErrorOf::TreeType { value: other.copy() }),
            },
            None => Err(ErrorOf::Fixed(Fixed::TreeEnd)),
        }
    }

    fn next_null(&mut self) -> (r: Result<(), Error>) {
        match self.take_current() {
            Ok(Value::Null) => Ok(()),
            Ok(_) => Err(ErrorOf::Fixed(Fixed::JsonType)),
            Err(e) => Err(e),
        }
    }

    fn next_bool(&mut self) -> (r: Result<bool, Error>) {
        match self.take_current() {
            Ok(Value::Bool(b)) => Ok(b),
            Ok(v) => Err(ErrorOf::Cast { value: v, to: Expected::Bool }),
            Err(e) => Err(e),
        }
    }

    fn next_number(&mut self) -> (r: Result<Value, Error>) {
        self.take_current()
    }

    fn next_float(&mut self) -> (r: Result<u64, Error>) {
        match self.take_current() {
            Ok(v) => double_of_value(&v),
            Err(e) => Err(e),
        }
    }

    fn next_string(&mut self) -> (r: Result<String, Error>) {
        match self.take_current() {
            Ok(Value::Str(t)) => Ok(t),
            Ok(v) => Err(ErrorOf::Cast { value: v, to: Expected::Str }),
            Err(e) => Err(e),
        }
    }

    fn next_array(&mut self) -> (r: Result<(Items, bool), Error>) {
        match self.take_current() {
            Ok(Value::List(list)) => {
                let mut items: Items = Items::of(list);
                let more: bool = self.move_to_item(&mut items);
                Ok((items, more))
            },
            Ok(v) => Err(ErrorOf::Cast { value: v, to: Expected::List }),
            Err(e) => Err(e),
        }
    }

    fn array_step(&mut self, items: &mut Items) -> (r: Result<bool, Error>) {
        Ok(self.move_to_item(items))
    }

    fn next_object(&mut self) -> (r: Result<(Entries, Option<String>), Error>) {
        match self.take_current() {
            Ok(Value::Dict(dict)) => {
                let mut entries: Entries = Entries::of(dict);
                match self.move_to_entry(&mut entries) {
                    Ok(key) => Ok((entries, key)),
                    Err(e) => Err(e),
                }
            },
            Ok(v) => Err(ErrorOf::Cast { value: v, to: Expected::Dict }),
            Err(e) => Err(e),
        }
    }

    fn next_key(&mut self, entries: &mut Entries) -> (r: Result<Option<String>, Error>) {
        self.move_to_entry(entries)
    }

    fn skip(&mut self) -> (r: Result<(), Error>) {
        self.current = None;
        Ok(())
    }
}

/// A source of either kind.
pub enum Source<'a> {
    Text(JiterSource<'a>),
    Tree(PyTreeSource),
}

impl<'a> Source<'a> {
    /// Accepts the end of the text. A tree has nothing behind its root.
    pub fn finish(&self) -> (r: Result<(), Error>)
        ensures
            error::outcome(r) == finished(self.state()),
    {
        match self {
            Source::Text(src) => src.finish(),
            Source::Tree(_) => Ok(()),
        }
    }
}

impl<'a> JsonSource for Source<'a> {
    open spec fn state(&self) -> SrcState {
        match self {
            Source::Text(src) => src.state(),
            Source::Tree(src) => src.state(),
        }
    }

    fn peek(&self) -> (r: Result<JsonKind, Error>) {
        match self {
            Source::Text(src) => src.peek(),
            Source::Tree(src) => src.peek(),
        }
    }

    fn next_null(&mut self) -> (r: Result<(), Error>) {
        match self {
            Source::Text(src) => src.next_null(),
            Source::Tree(src) => src.next_null(),
        }
    }

    fn next_bool(&mut self) -> (r: Result<bool, Error>) {
        match self {
            Source::Text(src) => src.next_bool(),
            Source::Tree(src) => src.next_bool(),
        }
    }

    fn next_number(&mut self) -> (r: Result<Value, Error>) {
        match self {
            Source::Text(src) => src.next_number(),
            Source::Tree(src) => src.next_number(),
        }
    }

    fn next_float(&mut self) -> (r: Result<u64, Error>) {
        match self {
            Source::Text(src) => src.next_float(),
            Source::Tree(src) => src.next_float(),
        }
    }

    fn next_string(&mut self) -> (r: Result<String, Error>) {
        match self {
            Source::Text(src) => src.next_string(),
            Source::Tree(src) => src.next_string(),
        }
    }

    fn next_array(&mut self) -> (r: Result<(Items, bool), Error>) {
        match self {
            Source::Text(src) => src.next_array(),
            Source::Tree(src) => src.next_array(),
        }
    }

    fn array_step(&mut self, items: &mut Items) -> (r: Result<bool, Error>) {
        match self {
            Source::Text(src) => src.array_step(items),
            Source::Tree(src) => src.array_step(items),
        }
    }

    fn next_object(&mut self) -> (r: Result<(Entries, Option<String>), Error>) {
        match self {
            Source::Text(src) => src.next_object(),
            Source::Tree(src) => src.next_object(),
        }
    }

    fn next_key(&mut self, entries: &mut Entries) -> (r: Result<Option<String>, Error>) {
        match self {
            Source::Text(src) => src.next_key(entries),
            Source::Tree(src) => src.next_key(entries),
        }
    }

    fn skip(&mut self) -> (r: Result<(), Error>) {
        match self {
            Source::Text(src) => src.skip(),
            Source::Tree(src) => src.skip(),
        }
    }
}

} // verus!
