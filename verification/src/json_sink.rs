//! Where JSON values are written to: a compact JSON text, or a tree of values.

use vstd::prelude::*;
use vstd::string::*;
use crate::double;
use crate::double::ryu_fixed_notation;
use crate::error;
use crate::error::{Error, ErrorOf, Fault, Fixed};
use crate::integer::Integer;
use crate::json_text;
use crate::question;
use crate::question::{Ans, Answer, AnswerOf, Answers, QuestionOf};
use crate::text;
use crate::text::{chars_of, format_i64};
use crate::value;
use crate::value::{set_entry, Val, Value};

verus! {

/// A JSON value. A number comes with its text.
pub enum Json {
    Null,
    Bool(bool),
    Number(Val, Seq<char>),
    Str(Seq<char>),
    Array(Seq<Json>),
    Object(Seq<(Seq<char>, Json)>),
}

pub open spec fn hex_char(n: int) -> char {
    if n < 10 {
        ('0' as int + n) as char
    } else {
        ('a' as int + n - 10) as char
    }
}

/// A character within a JSON string. Quotes, backslashes and control characters are escaped.
pub open spec fn escaped_char(c: char) -> Seq<char> {
    if c == '"' {
        seq!['\\', '"']
    } else if c == '\\' {
        seq!['\\', '\\']
    } else if c == '\n' {
        seq!['\\', 'n']
    } else if c == '\r' {
        seq!['\\', 'r']
    } else if c == '\t' {
        seq!['\\', 't']
    } else if c == '\u{8}' {
        seq!['\\', 'b']
    } else if c == '\u{c}' {
        seq!['\\', 'f']
    } else if '\u{0}' <= c <= '\u{1f}' {
        seq!['\\', 'u', '0', '0', hex_char(c as int / 16), hex_char(c as int % 16)]
    } else {
        seq![c]
    }
}

pub open spec fn escaped(s: Seq<char>) -> Seq<char>
    decreases s.len(),
{
    if s.len() == 0 {
        seq![]
    } else {
        escaped(s.drop_last()) + escaped_char(s.last())
    }
}

/// A text as a JSON string.
pub open spec fn quoted(s: Seq<char>) -> Seq<char> {
    seq!['"'] + escaped(s) + seq!['"']
}

pub open spec fn bool_text(b: bool) -> Seq<char> {
    if b {
        "true"@
    } else {
        "false"@
    }
}

/// Whether the doubles within a JSON value are read again from their texts.
pub open spec fn doubles_read_back(j: Json) -> bool
    decreases j,
{
    match j {
        Json::Number(Val::Float(bits), _) => double::reads_back(bits),
        Json::Array(items) => items_read_back(items),
        Json::Object(entries) => entries_read_back(entries),
        _ => true,
    }
}

/// Whether the doubles within the elements of an array are read again from their texts.
pub open spec fn items_read_back(items: Seq<Json>) -> bool
    decreases items,
{
    forall|i: int| 0 <= i < items.len() ==> doubles_read_back(#[trigger] items[i])
}

/// Whether the doubles within the members of an object are read again from their texts.
pub open spec fn entries_read_back(entries: Seq<(Seq<char>, Json)>) -> bool
    decreases entries,
{
    forall|i: int| 0 <= i < entries.len() ==> doubles_read_back((#[trigger] entries[i]).1)
}

/// Whether a number is read again from a text.
pub open spec fn number_reads_back(v: Val, t: Seq<char>) -> bool {
    match v {
        Val::Int(n) => t == text::int_text(n) && json_text::is_int(t),
        Val::Float(bits) => json_text::is_float(t) && double::parsed_double(t) == Some(bits),
        _ => false,
    }
}

/// Whether the numbers within a JSON value are read again from their texts.
pub open spec fn texts_read_back(j: Json) -> bool
    decreases j,
{
    match j {
        Json::Number(v, t) => number_reads_back(v, t),
        Json::Array(items) => forall|i: int|
            0 <= i < items.len() ==> texts_read_back(#[trigger] items[i]),
        Json::Object(entries) => forall|i: int|
            0 <= i < entries.len() ==> texts_read_back((#[trigger] entries[i]).1),
        _ => true,
    }
}

/// Whether the numbers within a JSON value whose texts the host gave are read again from them.
pub open spec fn asked_read_back(j: Json) -> bool
    decreases j,
{
    match j {
        Json::Number(v, t) => plain_number_text(v) is None ==> number_reads_back(v, t),
        Json::Array(items) => forall|i: int|
            0 <= i < items.len() ==> asked_read_back(#[trigger] items[i]),
        Json::Object(entries) => forall|i: int|
            0 <= i < entries.len() ==> asked_read_back((#[trigger] entries[i]).1),
        _ => true,
    }
}

/// Whether the arrays and objects of a JSON value are nested at most so deep.
pub open spec fn nested_within(j: Json, limit: nat) -> bool
    decreases j,
{
    match j {
        Json::Array(items) => limit > 0 && forall|i: int|
            0 <= i < items.len() ==> nested_within(#[trigger] items[i], (limit - 1) as nat),
        Json::Object(entries) => limit > 0 && forall|i: int|
            0 <= i < entries.len() ==> nested_within((#[trigger] entries[i]).1, (limit - 1) as nat),
        _ => true,
    }
}

/// One member more whose doubles are read again.
pub proof fn lemma_entry_reads_back(
    entries: Seq<(Seq<char>, Json)>,
    entry: (Seq<char>, Json),
)
    ensures
        entries_read_back(entries) && doubles_read_back(entry.1) ==> entries_read_back(
            entries.push(entry),
        ),
{
}

/// The compact text of a JSON value.
pub open spec fn json_text(j: Json) -> Seq<char>
    decreases j,
{
    match j {
        Json::Null => "null"@,
        Json::Bool(b) => bool_text(b),
        Json::Number(_, t) => t,
        Json::Str(s) => quoted(s),
        Json::Array(items) => seq!['['] + items_text(items) + seq![']'],
        Json::Object(entries) => seq!['{'] + entries_text(entries) + seq!['}'],
    }
}

/// The texts of JSON values, between commas.
pub open spec fn items_text(items: Seq<Json>) -> Seq<char>
    decreases items,
{
    if items.len() == 0 {
        seq![]
    } else {
        items_text(items.drop_last()) + comma(items.len() == 1) + json_text(items.last())
    }
}

/// The texts of the members of an object, between commas.
pub open spec fn entries_text(entries: Seq<(Seq<char>, Json)>) -> Seq<char>
    decreases entries,
{
    if entries.len() == 0 {
        seq![]
    } else {
        entries_text(entries.drop_last()) + comma(entries.len() == 1) + quoted(entries.last().0)
            + seq![':'] + json_text(entries.last().1)
    }
}

/// What stands before an element of a container.
pub open spec fn comma(first: bool) -> Seq<char> {
    if first {
        seq![]
    } else {
        seq![',']
    }
}

/// A JSON value as a tree. A later member of an object replaces an earlier one with the same key.
pub open spec fn json_val(j: Json) -> Val
    decreases j,
{
    match j {
        Json::Null => Val::Null,
        Json::Bool(b) => Val::Bool(b),
        Json::Number(v, _) => v,
        Json::Str(s) => Val::Str(s),
        Json::Array(items) => Val::List(items_vals(items)),
        Json::Object(entries) => Val::Dict(entries_vals(entries)),
    }
}

pub open spec fn items_vals(items: Seq<Json>) -> Seq<Val>
    decreases items,
{
    if items.len() == 0 {
        seq![]
    } else {
        items_vals(items.drop_last()).push(json_val(items.last()))
    }
}

pub open spec fn entries_vals(entries: Seq<(Seq<char>, Json)>) -> Seq<(Val, Val)>
    decreases entries,
{
    if entries.len() == 0 {
        seq![]
    } else {
        value::dict_set(
            entries_vals(entries.drop_last()),
            Val::Str(entries.last().0),
            json_val(entries.last().1),
        )
    }
}

/// A container of a text that is still open.
#[derive(Clone, Copy, Debug, PartialEq, Eq, Structural)]
pub struct Frame {
    /// Whether the container is an array rather than an object.
    pub array: bool,
    /// Whether it has no elements yet.
    pub empty: bool,
}

/// A container of a tree that is still open.
pub enum FrameVal {
    /// The entries so far, and the key whose value comes next.
    Object(Seq<(Val, Val)>, Option<Seq<char>>),
    Array(Seq<Val>),
}

/// The state of a sink.
pub enum SinkState {
    Text { out: Seq<char>, stack: Seq<Frame> },
    Tree { root: Option<Val>, open: Seq<FrameVal> },
}

pub open spec fn is_text(s: SinkState) -> bool {
    s is Text
}

/// Whether a value may come next: within an object, a key has to come first.
pub open spec fn can_put(s: SinkState) -> bool {
    match s {
        SinkState::Text { .. } => true,
        SinkState::Tree { open: stack, .. } => stack.len() > 0 && stack.last() is Object
            ==> stack.last()->Object_1 is Some,
    }
}

/// Whether a key may come next.
pub open spec fn can_key(s: SinkState) -> bool {
    match s {
        SinkState::Text { .. } => true,
        SinkState::Tree { open: stack, .. } => stack.len() > 0 && stack.last() is Object,
    }
}

/// What stands before a value: a comma within an array that has elements.
pub open spec fn value_comma(stack: Seq<Frame>) -> Seq<char> {
    if stack.len() > 0 && stack.last().array && !stack.last().empty {
        seq![',']
    } else {
        seq![]
    }
}

/// The open containers behind a value.
pub open spec fn value_stack(stack: Seq<Frame>) -> Seq<Frame> {
    if stack.len() > 0 && stack.last().array {
        stack.update(stack.len() - 1, Frame { array: true, empty: false })
    } else {
        stack
    }
}

/// A tree with a value in its innermost open container, or as its root.
pub open spec fn attached(root: Option<Val>, stack: Seq<FrameVal>, v: Val) -> SinkState {
    if stack.len() == 0 {
        SinkState::Tree { root: Some(v), open: stack }
    } else {
        let top = match stack.last() {
            FrameVal::Object(entries, Some(key)) => FrameVal::Object(
                value::dict_set(entries, Val::Str(key), v),
                None,
            ),
            FrameVal::Object(entries, None) => FrameVal::Object(entries, None),
            FrameVal::Array(items) => FrameVal::Array(items.push(v)),
        };
        SinkState::Tree { root, open: stack.update(stack.len() - 1, top) }
    }
}

/// The state behind a value.
pub open spec fn put(s: SinkState, j: Json) -> SinkState {
    match s {
        SinkState::Text { out, stack } => SinkState::Text {
            out: out + value_comma(stack) + json_text(j),
            stack: value_stack(stack),
        },
        SinkState::Tree { root, open: stack } => attached(root, stack, json_val(j)),
    }
}

/// The state behind the start of a container.
pub open spec fn begun(s: SinkState, array: bool) -> SinkState {
    match s {
        SinkState::Text { out, stack } => SinkState::Text {
            out: out + value_comma(stack) + seq![
                if array {
                    '['
                } else {
                    '{'
                },
            ],
            stack: value_stack(stack).push(Frame { array, empty: true }),
        },
        SinkState::Tree { root, open: stack } => SinkState::Tree {
            root,
            open: stack.push(
                if array {
                    FrameVal::Array(seq![])
                } else {
                    FrameVal::Object(seq![], None)
                },
            ),
        },
    }
}

/// The value of a container.
pub open spec fn frame_val(f: FrameVal) -> Val {
    match f {
        FrameVal::Object(entries, _) => Val::Dict(entries),
        FrameVal::Array(items) => Val::List(items),
    }
}

/// The state behind the end of a container.
pub open spec fn ended(s: SinkState, array: bool) -> SinkState {
    match s {
        SinkState::Text { out, stack } => SinkState::Text {
            out: out + seq![
                if array {
                    ']'
                } else {
                    '}'
                },
            ],
            stack: if stack.len() > 0 {
                stack.drop_last()
            } else {
                stack
            },
        },
        SinkState::Tree { root, open: stack } => if stack.len() > 0 {
            attached(root, stack.drop_last(), frame_val(stack.last()))
        } else {
            s
        },
    }
}

/// The state behind a key.
pub open spec fn keyed(s: SinkState, key: Seq<char>) -> SinkState {
    match s {
        SinkState::Text { out, stack } => SinkState::Text {
            out: out + comma(stack.len() == 0 || stack.last().empty) + quoted(key) + seq![':'],
            stack: if stack.len() > 0 {
                stack.update(stack.len() - 1, Frame { array: stack.last().array, empty: false })
            } else {
                stack
            },
        },
        SinkState::Tree { root, open: stack } => SinkState::Tree {
            root,
            open: stack.update(
                stack.len() - 1,
                FrameVal::Object(stack.last()->Object_0, Some(key)),
            ),
        },
    }
}

/// The state behind several values.
pub open spec fn put_items(s: SinkState, items: Seq<Json>) -> SinkState
    decreases items.len(),
{
    if items.len() == 0 {
        s
    } else {
        put(put_items(s, items.drop_last()), items.last())
    }
}

/// The state behind several members of an object.
pub open spec fn put_entries(s: SinkState, entries: Seq<(Seq<char>, Json)>) -> SinkState
    decreases entries.len(),
{
    if entries.len() == 0 {
        s
    } else {
        put(
            keyed(put_entries(s, entries.drop_last()), entries.last().0),
            entries.last().1,
        )
    }
}

/// What an array's elements leave within the array.
proof fn lemma_items_state(s: SinkState, items: Seq<Json>)
    ensures
        put_items(begun(s, true), items) == match s {
            SinkState::Text { out, stack } => SinkState::Text {
                out: out + value_comma(stack) + seq!['['] + items_text(items),
                stack: value_stack(stack).push(Frame { array: true, empty: items.len() == 0 }),
            },
            SinkState::Tree { root, open: stack } => SinkState::Tree {
                root,
                open: stack.push(FrameVal::Array(items_vals(items))),
            },
        },
    decreases items.len(),
{
    let state = put_items(begun(s, true), items);
    if items.len() > 0 {
        lemma_items_state(s, items.drop_last());
        let before = put_items(begun(s, true), items.drop_last());
        match s {
            SinkState::Text { out, stack } => {
                assert(state->out =~= out + value_comma(stack) + seq!['['] + items_text(items));
                assert(state->stack =~= value_stack(stack).push(
                    Frame { array: true, empty: false },
                ));
            },
            SinkState::Tree { root, open: stack } => {
                assert(state->open =~= stack.push(FrameVal::Array(items_vals(items))));
            },
        }
    } else {
        match s {
            SinkState::Text { out, stack } => {
                assert(state->out =~= out + value_comma(stack) + seq!['['] + items_text(items));
            },
            SinkState::Tree { root, open: stack } => {},
        }
    }
}

/// Writing an array's start, its elements and its end is writing the array.
pub proof fn lemma_put_array(s: SinkState, items: Seq<Json>)
    ensures
        ended(put_items(begun(s, true), items), true) == put(s, Json::Array(items)),
        can_put(put_items(begun(s, true), items)),
        is_text(put_items(begun(s, true), items)) == is_text(s),
{
    lemma_items_state(s, items);
    let state = ended(put_items(begun(s, true), items), true);
    match s {
        SinkState::Text { out, stack } => {
            assert(state->out =~= put(s, Json::Array(items))->out);
            assert(state->stack =~= value_stack(stack));
        },
        SinkState::Tree { root, open: stack } => {
            assert(stack.push(FrameVal::Array(items_vals(items))).drop_last() =~= stack);
        },
    }
}

/// What an object's members leave within the object.
proof fn lemma_entries_state(s: SinkState, entries: Seq<(Seq<char>, Json)>)
    ensures
        put_entries(begun(s, false), entries) == match s {
            SinkState::Text { out, stack } => SinkState::Text {
                out: out + value_comma(stack) + seq!['{'] + entries_text(entries),
                stack: value_stack(stack).push(Frame { array: false, empty: entries.len() == 0 }),
            },
            SinkState::Tree { root, open: stack } => SinkState::Tree {
                root,
                open: stack.push(FrameVal::Object(entries_vals(entries), None)),
            },
        },
    decreases entries.len(),
{
    let state = put_entries(begun(s, false), entries);
    if entries.len() > 0 {
        lemma_entries_state(s, entries.drop_last());
        match s {
            SinkState::Text { out, stack } => {
                assert(state->out =~= out + value_comma(stack) + seq!['{'] + entries_text(entries));
                assert(state->stack =~= value_stack(stack).push(
                    Frame { array: false, empty: false },
                ));
            },
            SinkState::Tree { root, open: stack } => {
                assert(state->open =~= stack.push(
                    FrameVal::Object(entries_vals(entries), None),
                ));
            },
        }
    } else {
        match s {
            SinkState::Text { out, stack } => {
                assert(state->out =~= out + value_comma(stack) + seq!['{'] + entries_text(entries));
            },
            SinkState::Tree { root, open: stack } => {},
        }
    }
}

/// Writing an object's start, its members and its end is writing the object.
pub proof fn lemma_put_object(s: SinkState, entries: Seq<(Seq<char>, Json)>)
    ensures
        ended(put_entries(begun(s, false), entries), false) == put(s, Json::Object(entries)),
        can_key(put_entries(begun(s, false), entries)),
        is_text(put_entries(begun(s, false), entries)) == is_text(s),
{
    lemma_entries_state(s, entries);
    let state = ended(put_entries(begun(s, false), entries), false);
    match s {
        SinkState::Text { out, stack } => {
            assert(state->out =~= put(s, Json::Object(entries))->out);
            assert(state->stack =~= value_stack(stack));
        },
        SinkState::Tree { root, open: stack } => {
            assert(stack.push(FrameVal::Object(entries_vals(entries), None)).drop_last() =~= stack);
        },
    }
}

/// A value may follow a key.
pub proof fn lemma_keyed(s: SinkState, key: Seq<char>)
    requires
        can_key(s),
    ensures
        can_put(keyed(s, key)),
        is_text(keyed(s, key)) == is_text(s),
{
}

/// Writing members behind others is writing them all.
pub proof fn lemma_put_entries(
    s: SinkState,
    first: Seq<(Seq<char>, Json)>,
    second: Seq<(Seq<char>, Json)>,
)
    ensures
        put_entries(put_entries(s, first), second) == put_entries(s, first + second),
    decreases second.len(),
{
    let all = first + second;
    if second.len() > 0 {
        lemma_put_entries(s, first, second.drop_last());
        assert(all.drop_last() =~= first + second.drop_last());
        assert(all.last() == second.last());
    } else {
        assert(all =~= first);
    }
}

/// Writing a key and a value is writing one member more.
pub proof fn lemma_put_entry(
    s: SinkState,
    entries: Seq<(Seq<char>, Json)>,
    key: Seq<char>,
    j: Json,
)
    ensures
        put(keyed(put_entries(s, entries), key), j) == put_entries(s, entries.push((key, j))),
{
    assert(entries.push((key, j)).drop_last() =~= entries);
}

/// A key may follow the members of an object.
pub proof fn lemma_entries_can_key(s: SinkState, entries: Seq<(Seq<char>, Json)>)
    requires
        can_key(s),
    ensures
        can_key(put_entries(s, entries)),
        is_text(put_entries(s, entries)) == is_text(s),
    decreases entries.len(),
{
    if entries.len() > 0 {
        lemma_entries_can_key(s, entries.drop_last());
    }
}

/// The answers that are left when `n` were used.
pub open spec fn rest(asks: Seq<Ans>, n: nat) -> Seq<Ans> {
    if n <= asks.len() {
        asks.skip(n as int)
    } else {
        seq![]
    }
}

/// Using answers twice is using them all at once.
pub proof fn lemma_rest(asks: Seq<Ans>, n: nat, m: nat)
    ensures
        rest(rest(asks, n), m) == rest(asks, n + m),
        rest(asks, 0) == asks,
        rest(asks, n).len() <= asks.len(),
{
    assert(rest(rest(asks, n), m) =~= rest(asks, n + m));
    assert(rest(asks, 0) =~= asks);
}

/// How the host prints a value.
pub open spec fn host_text(v: Val, asks: Seq<Ans>) -> Result<Seq<char>, Fault> {
    match question::next_answer(asks, QuestionOf::ValueText(v)) {
        Ok(AnswerOf::Text(t)) => Ok(t),
        Ok(_) => Err(Fault::Fixed(Fixed::Answer)),
        Err(f) => Err(f),
    }
}

/// The text of a number that every host prints alike. An object of another type comes with its
/// text: that of the integer it converts to, or the one it shows itself by.
pub open spec fn plain_number_text(v: Val) -> Option<Seq<char>> {
    match v {
        Val::Float(bits) => double::fixed_text(bits),
        Val::Int(n) => if text::int_text(n).len() <= 640 {
            Some(text::int_text(n))
        } else {
            None
        },
        Val::Bool(b) => Some(
            seq![
                if b {
                    '1'
                } else {
                    '0'
                },
            ],
        ),
        Val::Foreign(f) => match f.whole {
            Some(n) => Some(text::int_text(n as int)),
            None => Some(f.repr),
        },
        _ => None,
    }
}

/// A number for a sink, and how many answers its text takes. A tree needs no text.
pub open spec fn number_json(is_text: bool, v: Val, asks: Seq<Ans>) -> Result<(Json, nat), Fault> {
    if !is_text {
        Ok((Json::Number(v, seq![]), 0))
    } else {
        match plain_number_text(v) {
            Some(t) => Ok((Json::Number(v, t), 0)),
            None => match host_text(v, asks) {
                Ok(t) => Ok((Json::Number(v, t), 1)),
                Err(f) => Err(f),
            },
        }
    }
}

/// Asks the host how it prints a value.
pub(crate) fn ask_text(v: Value, asks: &mut Answers) -> (r: Result<String, Error>)
    ensures
        match host_text(v@, old(asks)@) {
            Ok(t) => r is Ok && r->Ok_0@ == t && final(asks)@ == rest(old(asks)@, 1),
            Err(f) => r is Err && error::fault_of(r->Err_0) == f,
        },
{
    match asks.take(QuestionOf::ValueText(v))? {
        AnswerOf::Text(t) => Ok(t),
        _ => Err(ErrorOf::Fixed(Fixed::Answer)),
    }
}

/// The text of a number, if the host need not be asked for it.
fn number_text(v: &Value) -> (r: Option<String>)
    ensures
        match plain_number_text(v@) {
            Some(t) => r is Some && r->0@ == t,
            None => r is None,
        },
        v@ matches Val::Float(bits) ==> double::reads_back(bits),
{
    match v {
        Value::Float(bits) => ryu_fixed_notation(*bits),
        Value::Int(n) => {
            let digits: String = n.text();
            let chars: Vec<char> = chars_of(digits.as_str());
            if chars.len() <= 640 {
                Some(digits)
            } else {
                None
            }
        },
        Value::Bool(b) => {
            let mut t: String = String::new();
            t.push(
                if *b {
                    '1'
                } else {
                    '0'
                },
            );
            Some(t)
        },
        Value::Foreign(f) => match f.whole {
            Some(n) => Some(format_i64(n)),
            None => Some(f.repr.clone()),
        },
        _ => None,
    }
}

/// A stream that JSON values are written to. Its methods write one value, or one step within a
/// container.
pub trait JsonSink {
    /// What was written.
    spec fn state(&self) -> SinkState;

    /// Begins an object.
    fn begin_object(&mut self) -> (r: Result<(), Error>)
        ensures
            wrote(old(self).state(), begun(old(self).state(), false), r, final(self).state()),
    ;

    /// Ends an object.
    fn end_object(&mut self)
        ensures
            final(self).state() == ended(old(self).state(), false),
    ;

    /// Begins an array.
    fn begin_array(&mut self) -> (r: Result<(), Error>)
        ensures
            wrote(old(self).state(), begun(old(self).state(), true), r, final(self).state()),
    ;

    /// Ends an array.
    fn end_array(&mut self)
        ensures
            final(self).state() == ended(old(self).state(), true),
    ;

    /// Writes a key.
    fn key(&mut self, key: &str) -> (r: Result<(), Error>)
        ensures
            if can_key(old(self).state()) {
                r is Ok && final(self).state() == keyed(old(self).state(), key@)
            } else {
                r is Err && error::fault_of(r->Err_0) == Fault::Fixed(Fixed::KeyOutsideObject)
                    && final(self).state() == old(self).state()
            },
    ;

    /// Writes a null.
    fn null(&mut self) -> (r: Result<(), Error>)
        ensures
            wrote(old(self).state(), put(old(self).state(), Json::Null), r, final(self).state()),
    ;

    /// Writes a boolean.
    fn bool(&mut self, value: bool) -> (r: Result<(), Error>)
        ensures
            wrote(
                old(self).state(),
                put(old(self).state(), Json::Bool(value)),
                r,
                final(self).state(),
            ),
    ;

    /// Writes an integer.
    fn i64(&mut self, value: i64) -> (r: Result<(), Error>)
        ensures
            wrote(
                old(self).state(),
                put(
                    old(self).state(),
                    Json::Number(Val::Int(value as int), text::int_text(value as int)),
                ),
                r,
                final(self).state(),
            ),
    ;

    /// Writes a number.
    fn py_number(&mut self, value: &Value, asks: &mut Answers) -> (r: Result<(), Error>)
        ensures
            match number_json(is_text(old(self).state()), value@, old(asks)@) {
                Ok((j, n)) => wrote(
                    old(self).state(),
                    put(old(self).state(), j),
                    r,
                    final(self).state(),
                ) && final(asks)@ == rest(old(asks)@, n) && (is_text(old(self).state())
                    ==> doubles_read_back(j)),
                Err(f) => r is Err && error::fault_of(r->Err_0) == f
                    && final(self).state() == old(self).state(),
            },
    ;

    /// Writes a string.
    fn str(&mut self, value: &str) -> (r: Result<(), Error>)
        ensures
            wrote(
                old(self).state(),
                put(old(self).state(), Json::Str(value@)),
                r,
                final(self).state(),
            ),
    ;
}

/// Whether a value was written, or refused because its key was missing. What is refused leaves
/// the sink as it was.
pub open spec fn wrote(
    before: SinkState,
    want: SinkState,
    r: Result<(), Error>,
    after: SinkState,
) -> bool {
    if can_put(before) {
        r is Ok && after == want
    } else {
        r is Err && error::fault_of(r->Err_0) == Fault::Fixed(Fixed::ValueWithoutKey) && after
            == before
    }
}

/// Appends a text as a JSON string.
pub fn write_escaped(out: &mut String, s: &str)
    ensures
        final(out)@ == old(out)@ + quoted(s@),
{
    let chars: Vec<char> = chars_of(s);
    out.push('"');
    let ghost start = out@;
    let mut i: usize = 0;
    assert(chars@.take(0) =~= seq![]);
    assert(out@ =~= start + escaped(chars@.take(0)));
    while i < chars.len()
        invariant
            i <= chars@.len(),
            out@ == start + escaped(chars@.take(i as int)),
        decreases chars@.len() - i,
    {
        let c: char = chars[i];
        let n: u32 = c as u32;
        let ghost before = out@;
        if c == '"' {
            out.push('\\');
            out.push('"');
        } else if c == '\\' {
            out.push('\\');
            out.push('\\');
        } else if c == '\n' {
            out.push('\\');
            out.push('n');
        } else if c == '\r' {
            out.push('\\');
            out.push('r');
        } else if c == '\t' {
            out.push('\\');
            out.push('t');
        } else if c == '\u{8}' {
            out.push('\\');
            out.push('b');
        } else if c == '\u{c}' {
            out.push('\\');
            out.push('f');
        } else if '\u{0}' <= c && c <= '\u{1f}' {
            out.push('\\');
            out.push('u');
            out.push('0');
            out.push('0');
            out.push(hex_digit((n / 16) as u8));
            out.push(hex_digit((n % 16) as u8));
        } else {
            out.push(c);
        }
        assert(out@ =~= before + escaped_char(c));
        assert(chars@.take(i + 1).drop_last() =~= chars@.take(i as int));
        i = i + 1;
        assert(out@ =~= start + escaped(chars@.take(i as int)));
    }
    assert(chars@.take(i as int) =~= s@);
    out.push('"');
    assert(out@ =~= old(out)@ + quoted(s@));
}

fn hex_digit(n: u8) -> (r: char)
    requires
        n < 16,
    ensures
        r == hex_char(n as int),
{
    if n < 10 {
        (48 + n) as char
    } else {
        (97 + (n - 10)) as char
    }
}

/// A sink that makes a compact text.
pub struct StringSink {
    out: String,
    stack: Vec<Frame>,
}

impl StringSink {
    /// An empty sink.
    pub fn new() -> (r: StringSink)
        ensures
            r.state() == (SinkState::Text { out: seq![], stack: seq![] }),
    {
        let r = StringSink { out: String::new(), stack: Vec::new() };
        assert(r.out@ =~= seq![]);
        assert(r.stack@ =~= seq![]);
        r
    }

    /// The text.
    pub fn finish(self) -> (r: String)
        ensures
            self.state() matches SinkState::Text { out, .. } && r@ == out,
    {
        self.out
    }

    /// Writes the comma before a value of an array.
    pub fn before_value(&mut self)
        ensures
            old(self).state() matches SinkState::Text { out, stack } && final(self).state() == (
            SinkState::Text { out: out + value_comma(stack), stack: value_stack(stack) }),
    {
        let n: usize = self.stack.len();
        if n > 0 && self.stack[n - 1].array {
            if !self.stack[n - 1].empty {
                self.out.push(',');
            }
            self.stack.set(n - 1, Frame { array: true, empty: false });
        }
        proof {
            assert(self.out@ =~= old(self).out@ + value_comma(old(self).stack@));
            assert(self.stack@ =~= value_stack(old(self).stack@));
        }
    }

    /// Writes a value without containers.
    fn put_text(&mut self, t: &str)
        ensures
            old(self).state() matches SinkState::Text { out, stack } && final(self).state() == (
            SinkState::Text { out: out + value_comma(stack) + t@, stack: value_stack(stack) }),
    {
        self.before_value();
        self.out.append(t);
    }
}

impl JsonSink for StringSink {
    closed spec fn state(&self) -> SinkState {
        SinkState::Text { out: self.out@, stack: self.stack@ }
    }

    fn begin_object(&mut self) -> (r: Result<(), Error>) {
        self.before_value();
        self.out.push('{');
        self.stack.push(Frame { array: false, empty: true });
        assert(self.state()->out =~= begun(old(self).state(), false)->out);
        Ok(())
    }

    fn end_object(&mut self) {
        let _top: Option<Frame> = self.stack.pop();
        self.out.push('}');
        assert(self.state()->out =~= ended(old(self).state(), false)->out);
        assert(self.state()->stack =~= ended(old(self).state(), false)->stack);
    }

    fn begin_array(&mut self) -> (r: Result<(), Error>) {
        self.before_value();
        self.out.push('[');
        self.stack.push(Frame { array: true, empty: true });
        assert(self.state()->out =~= begun(old(self).state(), true)->out);
        Ok(())
    }

    fn end_array(&mut self) {
        let _top: Option<Frame> = self.stack.pop();
        self.out.push(']');
        assert(self.state()->out =~= ended(old(self).state(), true)->out);
        assert(self.state()->stack =~= ended(old(self).state(), true)->stack);
    }

    fn key(&mut self, key: &str) -> (r: Result<(), Error>) {
        let n: usize = self.stack.len();
        if n > 0 {
            if !self.stack[n - 1].empty {
                self.out.push(',');
            }
            let array: bool = self.stack[n - 1].array;
            self.stack.set(n - 1, Frame { array, empty: false });
        }
        write_escaped(&mut self.out, key);
        self.out.push(':');
        proof {
            let want = keyed(old(self).state(), key@);
            assert(self.state()->out =~= want->out);
            assert(self.state()->stack =~= want->stack);
        }
        Ok(())
    }

    fn null(&mut self) -> (r: Result<(), Error>) {
        self.put_text("null");
        Ok(())
    }

    fn bool(&mut self, value: bool) -> (r: Result<(), Error>) {
        self.put_text(
            if value {
                "true"
            } else {
                "false"
            },
        );
        Ok(())
    }

    fn i64(&mut self, value: i64) -> (r: Result<(), Error>) {
        let digits: String = format_i64(value);
        self.put_text(digits.as_str());
        Ok(())
    }

    fn py_number(&mut self, value: &Value, asks: &mut Answers) -> (r: Result<(), Error>) {
        proof {
            lemma_rest(asks@, 0, 0);
        }
        let t: String = match number_text(value) {
            Some(t) => t,
            None => ask_text(value.copy(), asks)?,
        };
        self.put_text(t.as_str());
        Ok(())
    }

    fn str(&mut self, value: &str) -> (r: Result<(), Error>) {
        self.before_value();
        write_escaped(&mut self.out, value);
        Ok(())
    }
}

/// A container that is still open.
enum ValueFrame {
    Object { dict: Vec<(Value, Value)>, pending_key: Option<String> },
    Array { list: Vec<Value> },
}

spec fn frame_view(f: ValueFrame) -> FrameVal {
    match f {
        ValueFrame::Object { dict, pending_key } => FrameVal::Object(
            value::dict_view(dict@),
            match pending_key {
                Some(key) => Some(key@),
                None => None,
            },
        ),
        ValueFrame::Array { list } => FrameVal::Array(value::list_view(list@)),
    }
}

spec fn frames_view(frames: Seq<ValueFrame>) -> Seq<FrameVal> {
    frames.map_values(|f: ValueFrame| frame_view(f))
}

/// A sink that makes a tree of values.
pub struct PyValueSink {
    root: Option<Value>,
    stack: Vec<ValueFrame>,
}

/// The value of a sink, with the containers that are still open as they are.
pub open spec fn finished_val(root: Option<Val>, open: Seq<FrameVal>) -> Option<Val>
    decreases open.len(),
{
    if open.len() == 0 {
        root
    } else {
        match attached(root, open.drop_last(), frame_val(open.last())) {
            SinkState::Tree { root: root2, open: open2 } => if open2.len() < open.len() {
                finished_val(root2, open2)
            } else {
                None
            },
            SinkState::Text { .. } => None,
        }
    }
}

impl PyValueSink {
    /// An empty sink.
    pub fn new() -> (r: PyValueSink)
        ensures
            r.state() == (SinkState::Tree { root: None, open: seq![] }),
    {
        let r = PyValueSink { root: None, stack: Vec::new() };
        assert(frames_view(r.stack@) =~= seq![]);
        r
    }

    /// The tree.
    pub fn finish(self) -> (r: Result<Value, Error>)
        ensures
            self.state() matches SinkState::Tree { root, open } && match finished_val(root, open) {
                Some(v) => r is Ok && r->Ok_0@ == v,
                None => r is Err && error::fault_of(r->Err_0) == Fault::Fixed(Fixed::NoValue),
            },
    {
        let mut sink: PyValueSink = self;
        let ghost start = self.state();
        while sink.stack.len() > 0
            invariant
                start is Tree && sink.state() is Tree,
                finished_val(start->root, start->open) == finished_val(
                    sink.state()->root,
                    sink.state()->open,
                ),
            decreases sink.stack@.len(),
        {
            sink.close();
        }
        match sink.root {
            Some(v) => Ok(v),
            None => Err(ErrorOf::Fixed(Fixed::NoValue)),
        }
    }

    /// Adds a value to the innermost open container, or makes it the root.
    fn attach(&mut self, v: Value)
        ensures
            old(self).state() matches SinkState::Tree { root, open } && final(self).state()
                == attached(root, open, v@),
            final(self).stack@.len() == old(self).stack@.len(),
    {
        let n: usize = self.stack.len();
        let ghost before = frames_view(self.stack@);
        if n == 0 {
            self.root = Some(v);
            return ;
        }
        let mut place: ValueFrame = ValueFrame::Array { list: Vec::new() };
        std::mem::swap(&mut self.stack[n - 1], &mut place);
        let next: ValueFrame = match place {
            ValueFrame::Object { dict, pending_key } => {
                let mut dict: Vec<(Value, Value)> = dict;
                match pending_key {
                    Some(key) => {
                        set_entry(&mut dict, Value::Str(key), v);
                    },
                    None => {},
                }
                ValueFrame::Object { dict, pending_key: None }
            },
            ValueFrame::Array { list } => {
                let mut list: Vec<Value> = list;
                let ghost items = value::list_view(list@);
                list.push(v);
                assert(value::list_view(list@) =~= items.push(v@));
                ValueFrame::Array { list }
            },
        };
        let mut next: ValueFrame = next;
        std::mem::swap(&mut self.stack[n - 1], &mut next);
        proof {
            let want = attached(old(self).state()->root, before, v@);
            assert(frames_view(self.stack@) =~= want->open);
        }
    }

    /// Closes the innermost open container, if there is one.
    fn close(&mut self)
        ensures
            old(self).state() matches SinkState::Tree { root, open } && final(self).state() == if open.len()
                > 0 {
                attached(root, open.drop_last(), frame_val(open.last()))
            } else {
                old(self).state()
            },
            old(self).stack@.len() > 0 ==> final(self).stack@.len() == old(self).stack@.len() - 1,
    {
        let ghost before = frames_view(self.stack@);
        match self.stack.pop() {
            Some(frame) => {
                assert(frames_view(self.stack@) =~= before.drop_last());
                let v: Value = match frame {
                    ValueFrame::Object { dict, .. } => Value::Dict(dict),
                    ValueFrame::Array { list } => Value::List(list),
                };
                self.attach(v);
            },
            None => {},
        }
    }

    /// Whether a value may come next.
    fn may_put(&self) -> (r: bool)
        ensures
            r == can_put(self.state()),
    {
        let n: usize = self.stack.len();
        if n == 0 {
            return true;
        }
        match &self.stack[n - 1] {
            ValueFrame::Object { pending_key, .. } => pending_key.is_some(),
            ValueFrame::Array { .. } => true,
        }
    }

    fn put_value(&mut self, v: Value) -> (r: Result<(), Error>)
        ensures
            old(self).state() matches SinkState::Tree { root, open } && wrote(
                old(self).state(),
                attached(root, open, v@),
                r,
                final(self).state(),
            ),
    {
        if !self.may_put() {
            return Err(ErrorOf::Fixed(Fixed::ValueWithoutKey));
        }
        self.attach(v);
        Ok(())
    }
}

impl JsonSink for PyValueSink {
    closed spec fn state(&self) -> SinkState {
        SinkState::Tree {
            root: match self.root {
                Some(v) => Some(v@),
                None => None,
            },
            open: frames_view(self.stack@),
        }
    }

    fn begin_object(&mut self) -> (r: Result<(), Error>) {
        if !self.may_put() {
            return Err(ErrorOf::Fixed(Fixed::ValueWithoutKey));
        }
        let ghost before = frames_view(self.stack@);
        let frame = ValueFrame::Object { dict: Vec::new(), pending_key: None };
        assert(value::dict_view(frame->dict@) =~= seq![]);
        self.stack.push(frame);
        assert(frames_view(self.stack@) =~= before.push(FrameVal::Object(seq![], None)));
        Ok(())
    }

    fn end_object(&mut self) {
        self.close();
    }

    fn begin_array(&mut self) -> (r: Result<(), Error>) {
        if !self.may_put() {
            return Err(ErrorOf::Fixed(Fixed::ValueWithoutKey));
        }
        let ghost before = frames_view(self.stack@);
        let frame = ValueFrame::Array { list: Vec::new() };
        assert(value::list_view(frame->list@) =~= seq![]);
        self.stack.push(frame);
        assert(frames_view(self.stack@) =~= before.push(FrameVal::Array(seq![])));
        Ok(())
    }

    fn end_array(&mut self) {
        self.close();
    }

    fn key(&mut self, key: &str) -> (r: Result<(), Error>) {
        let n: usize = self.stack.len();
        let ghost before = frames_view(self.stack@);
        let is_object: bool = if n > 0 {
            matches!(self.stack[n - 1], ValueFrame::Object { .. })
        } else {
            false
        };
        if !is_object {
            return Err(ErrorOf::Fixed(Fixed::KeyOutsideObject));
        }
        let mut place: ValueFrame = ValueFrame::Array { list: Vec::new() };
        std::mem::swap(&mut self.stack[n - 1], &mut place);
        let mut next: ValueFrame = match place {
            ValueFrame::Object { dict, .. } => ValueFrame::Object {
                dict,
                pending_key: Some(key.to_owned()),
            },
            other => other,
        };
        std::mem::swap(&mut self.stack[n - 1], &mut next);
        proof {
            let want = keyed(old(self).state(), key@);
            assert(frames_view(self.stack@) =~= want->open);
        }
        Ok(())
    }

    fn null(&mut self) -> (r: Result<(), Error>) {
        self.put_value(Value::Null)
    }

    fn bool(&mut self, value: bool) -> (r: Result<(), Error>) {
        self.put_value(Value::Bool(value))
    }

    fn i64(&mut self, value: i64) -> (r: Result<(), Error>) {
        self.put_value(Value::Int(Integer::from_i64(value)))
    }

    fn py_number(&mut self, value: &Value, asks: &mut Answers) -> (r: Result<(), Error>) {
        proof {
            lemma_rest(asks@, 0, 0);
        }
        self.put_value(value.copy())
    }

    fn str(&mut self, value: &str) -> (r: Result<(), Error>) {
        self.put_value(Value::Str(value.to_owned()))
    }
}

} // verus!
