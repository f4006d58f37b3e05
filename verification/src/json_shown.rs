//! What it means that a source presents a JSON value, whether it is a text or a tree.

use vstd::prelude::*;
use crate::error::Fault;
use crate::json_scalars;
use crate::json_sink;
use crate::json_sink::Json;
use crate::json_source;
use crate::json_source::{JsonKind, SrcState};
use crate::value;
use crate::value::Val;

verus! {

/// The state of a source behind a value that it presents.
pub open spec fn behind(src: SrcState, j: Json) -> SrcState
    decreases j,
{
    match j {
        Json::Null => json_source::null_read(src)->Ok_0,
        Json::Bool(_) => json_source::bool_read(src)->Ok_0.1,
        Json::Number(_, _) => json_source::number_read(src)->Ok_0.1,
        Json::Str(_) => json_source::string_read(src)->Ok_0.1,
        Json::Array(items) => {
            let (rest, _, at) = json_source::array_read(src)->Ok_0;
            if items.len() == 0 {
                at
            } else {
                behind_items(at, rest, items)
            }
        },
        Json::Object(entries) => {
            let (rest, _, at) = json_source::object_read(src)->Ok_0;
            if entries.len() == 0 {
                at
            } else {
                behind_entries(at, rest, entries)
            }
        },
    }
}

/// The state behind an array, from one of its elements on.
pub open spec fn behind_items(src: SrcState, rest: Seq<Val>, items: Seq<Json>) -> SrcState
    decreases items,
{
    if items.len() == 0 {
        src
    } else {
        let (rest2, _, at) = json_source::array_stepped(behind(src, items[0]), rest)->Ok_0;
        if items.len() == 1 {
            at
        } else {
            behind_items(at, rest2, items.skip(1))
        }
    }
}

/// The state behind an object, from one of its values on.
pub open spec fn behind_entries(
    src: SrcState,
    rest: Seq<(Val, Val)>,
    entries: Seq<(Seq<char>, Json)>,
) -> SrcState
    decreases entries,
{
    if entries.len() == 0 {
        src
    } else {
        let (rest2, _, at) = json_source::key_read(behind(src, entries[0].1), rest)->Ok_0;
        if entries.len() == 1 {
            at
        } else {
            behind_entries(at, rest2, entries.skip(1))
        }
    }
}

/// Whether a source presents a JSON value next.
pub open spec fn shows(src: SrcState, j: Json) -> bool
    decreases j,
{
    match j {
        Json::Null => {
            &&& json_source::peeked(src) == Ok::<JsonKind, Fault>(JsonKind::Null)
            &&& json_source::null_read(src) is Ok
        },
        Json::Bool(b) => {
            &&& json_source::peeked(src) == Ok::<JsonKind, Fault>(JsonKind::Bool)
            &&& json_source::bool_read(src) matches Ok((c, _)) && c == b
        },
        Json::Number(v, _) => {
            &&& json_source::peeked(src) == Ok::<JsonKind, Fault>(JsonKind::Number)
            &&& json_source::number_read(src) matches Ok((w, at)) && w == v && match v {
                Val::Int(_) => true,
                Val::Float(bits) => json_source::float_read(src) == Ok::<(u64, SrcState), Fault>(
                    (bits, at),
                ),
                _ => false,
            }
        },
        Json::Str(s) => {
            &&& json_source::peeked(src) == Ok::<JsonKind, Fault>(JsonKind::String)
            &&& json_source::string_read(src) matches Ok((t, _)) && t == s
        },
        Json::Array(items) => {
            &&& json_source::peeked(src) == Ok::<JsonKind, Fault>(JsonKind::Array)
            &&& json_source::array_read(src) matches Ok((rest, more, at)) && {
                &&& more == (items.len() > 0)
                &&& more ==> json_source::items_left(at, rest) < json_source::left(src)
                    && shows_items(at, rest, items)
            }
        },
        Json::Object(entries) => {
            &&& json_source::peeked(src) == Ok::<JsonKind, Fault>(JsonKind::Object)
            &&& json_source::object_read(src) matches Ok((rest, key, at)) && {
                &&& value::tree_size(json_sink::json_val(j)) <= json_source::left(src)
                &&& key is Some == (entries.len() > 0)
                &&& key is Some ==> key->Some_0 == entries[0].0 && json_source::entries_left(
                    at,
                    rest,
                ) < json_source::left(src) && shows_entries(at, rest, entries)
            }
        },
    }
}

/// Whether a source presents the elements of an array and its end.
pub open spec fn shows_items(src: SrcState, rest: Seq<Val>, items: Seq<Json>) -> bool
    decreases items,
{
    items.len() > 0 && shows(src, items[0]) && {
        json_source::array_stepped(behind(src, items[0]), rest) matches Ok((rest2, more, at)) && {
            &&& more == (items.len() > 1)
            &&& more ==> json_source::items_left(at, rest2) < json_source::items_left(src, rest)
                && shows_items(at, rest2, items.skip(1))
        }
    }
}

/// Whether a source presents the members of an object, from the value of the first one on, and
/// its end.
pub open spec fn shows_entries(
    src: SrcState,
    rest: Seq<(Val, Val)>,
    entries: Seq<(Seq<char>, Json)>,
) -> bool
    decreases entries,
{
    entries.len() > 0 && shows(src, entries[0].1) && {
        json_source::key_read(behind(src, entries[0].1), rest) matches Ok((rest2, key, at)) && {
            &&& key is Some == (entries.len() > 1)
            &&& key is Some ==> key->Some_0 == entries[1].0 && json_source::entries_left(at, rest2)
                < json_source::entries_left(src, rest) && shows_entries(at, rest2, entries.skip(1))
        }
    }
}

/// A source presents one value: whichever two it is seen to present, it stands behind both at the
/// same place.
pub proof fn lemma_shown_once(src: SrcState, a: Json, b: Json)
    requires
        shows(src, a),
        shows(src, b),
    ensures
        behind(src, a) == behind(src, b),
    decreases a,
{
    match a {
        Json::Array(items) => {
            let others = b->Array_0;
            let (rest, more, at) = json_source::array_read(src)->Ok_0;
            if more {
                lemma_items_once(at, rest, items, others);
            }
        },
        Json::Object(entries) => {
            let others = b->Object_0;
            let (rest, key, at) = json_source::object_read(src)->Ok_0;
            if key is Some {
                lemma_entries_once(at, rest, entries, others);
            }
        },
        _ => {},
    }
}

proof fn lemma_items_once(src: SrcState, rest: Seq<Val>, a: Seq<Json>, b: Seq<Json>)
    requires
        shows_items(src, rest, a),
        shows_items(src, rest, b),
    ensures
        behind_items(src, rest, a) == behind_items(src, rest, b),
    decreases a,
{
    lemma_shown_once(src, a[0], b[0]);
    let (rest2, more, at) = json_source::array_stepped(behind(src, a[0]), rest)->Ok_0;
    if more {
        lemma_items_once(at, rest2, a.skip(1), b.skip(1));
    }
}

proof fn lemma_entries_once(
    src: SrcState,
    rest: Seq<(Val, Val)>,
    a: Seq<(Seq<char>, Json)>,
    b: Seq<(Seq<char>, Json)>,
)
    requires
        shows_entries(src, rest, a),
        shows_entries(src, rest, b),
    ensures
        behind_entries(src, rest, a) == behind_entries(src, rest, b),
    decreases a,
{
    assert(decreases_to!(a => a[0]));
    lemma_shown_once(src, a[0].1, b[0].1);
    let (rest2, key, at) = json_source::key_read(behind(src, a[0].1), rest)->Ok_0;
    if key is Some {
        lemma_entries_once(at, rest2, a.skip(1), b.skip(1));
    }
}

/// Whether no two members of an object have the same key.
pub open spec fn distinct_keys(entries: Seq<(Seq<char>, Json)>) -> bool {
    forall|a: int, b: int|
        0 <= a < b < entries.len() ==> (#[trigger] entries[a]).0 != (#[trigger] entries[b]).0
}

/// Which texts the numbers within a JSON value have.
pub enum NumberTexts {
    /// Any, or none.
    Any,
    /// Their own, if the host need not be asked for one.
    OwnOrAsked,
    /// Their own.
    Own,
}

/// Whether a JSON value is as the library writes it: the keys of its objects are distinct, and its
/// numbers have the right texts where a text is written.
pub open spec fn well_written(texts: NumberTexts, j: Json) -> bool
    decreases j,
{
    match j {
        Json::Number(v, t) => (v is Int || v is Float) && match texts {
            NumberTexts::Any => true,
            NumberTexts::OwnOrAsked => json_sink::plain_number_text(v) matches Some(own)
                ==> own == t,
            NumberTexts::Own => json_sink::plain_number_text(v) == Some(t),
        },
        Json::Array(items) => forall|i: int|
            0 <= i < items.len() ==> well_written(texts, #[trigger] items[i]),
        Json::Object(entries) => distinct_keys(entries) && forall|i: int|
            0 <= i < entries.len() ==> well_written(texts, (#[trigger] entries[i]).1),
        _ => true,
    }
}

/// The members of an object as the entries of a dictionary.
pub open spec fn entries_dict(entries: Seq<(Seq<char>, Json)>) -> Seq<(Val, Val)> {
    Seq::new(
        entries.len(),
        |i: int| (Val::Str(entries[i].0), json_sink::json_val(entries[i].1)),
    )
}

/// The values of the elements of an array.
pub open spec fn items_list(items: Seq<Json>) -> Seq<Val> {
    items.map_values(|j: Json| json_sink::json_val(j))
}

/// The tree of an object whose keys are distinct has all its members.
pub proof fn lemma_entries_vals(entries: Seq<(Seq<char>, Json)>)
    requires
        distinct_keys(entries),
    ensures
        json_sink::entries_vals(entries) == entries_dict(entries),
    decreases entries.len(),
{
    if entries.len() > 0 {
        let head = entries.drop_last();
        assert(distinct_keys(head)) by {
            assert forall|a: int, b: int| 0 <= a < b < head.len() implies (#[trigger] head[a]).0
                != (#[trigger] head[b]).0 by {
                assert(head[a] == entries[a] && head[b] == entries[b]);
            }
        }
        lemma_entries_vals(head);
        let dict = entries_dict(head);
        let key = Val::Str(entries.last().0);
        value::lemma_dict_index(dict, key);
        match value::dict_index(dict, key) {
            Some(i) => {
                assert(dict[i].0 == Val::Str(entries[i].0));
                assert(entries[i].0 != entries[entries.len() - 1].0);
                assert(false);
            },
            None => {},
        }
        assert(json_sink::entries_vals(entries) =~= entries_dict(entries));
    } else {
        assert(json_sink::entries_vals(entries) =~= entries_dict(entries));
    }
}

/// The tree of an array.
pub proof fn lemma_items_vals(items: Seq<Json>)
    ensures
        json_sink::items_vals(items) == items_list(items),
    decreases items.len(),
{
    if items.len() > 0 {
        lemma_items_vals(items.drop_last());
    }
    assert(json_sink::items_vals(items) =~= items_list(items));
}

/// A tree presents the JSON value that it was made of, and nothing behind it.
pub proof fn lemma_tree_shows(texts: NumberTexts, j: Json)
    requires
        well_written(texts, j),
    ensures
        shows(SrcState::Tree(Some(json_sink::json_val(j))), j),
        behind(SrcState::Tree(Some(json_sink::json_val(j))), j) == SrcState::Tree(None),
    decreases j,
{
    match j {
        Json::Array(items) => {
            lemma_items_vals(items);
            if items.len() > 0 {
                lemma_tree_shows_items(texts, items);
            }
        },
        Json::Object(entries) => {
            lemma_entries_vals(entries);
            if entries.len() > 0 {
                lemma_tree_shows_entries(texts, entries);
            }
        },
        _ => {},
    }
}

proof fn lemma_tree_shows_items(texts: NumberTexts, items: Seq<Json>)
    requires
        items.len() > 0,
        forall|i: int| 0 <= i < items.len() ==> well_written(texts, #[trigger] items[i]),
    ensures
        ({
            let at = SrcState::Tree(Some(json_sink::json_val(items[0])));
            let rest = items_list(items).skip(1);
            &&& shows_items(at, rest, items)
            &&& behind_items(at, rest, items) == SrcState::Tree(None)
        }),
    decreases items,
{
    lemma_tree_shows(texts, items[0]);
    let tail = items.skip(1);
    assert(items_list(items).skip(1) =~= items_list(tail));
    if items.len() > 1 {
        assert forall|i: int| 0 <= i < tail.len() implies well_written(
            texts,
            #[trigger] tail[i],
        ) by {
            assert(tail[i] == items[i + 1]);
        }
        lemma_tree_shows_items(texts, tail);
        assert(items_list(tail)[0] == json_sink::json_val(tail[0]));
        lemma_tree_items_left(items_list(tail), json_sink::json_val(items[0]));
    }
}

proof fn lemma_tree_items_left(items: Seq<Val>, v: Val)
    requires
        items.len() > 0,
    ensures
        json_source::items_left(SrcState::Tree(Some(items[0])), items.skip(1))
            < json_source::items_left(SrcState::Tree(Some(v)), items),
{
}

proof fn lemma_tree_shows_entries(texts: NumberTexts, entries: Seq<(Seq<char>, Json)>)
    requires
        entries.len() > 0,
        forall|i: int| 0 <= i < entries.len() ==> well_written(texts, (#[trigger] entries[i]).1),
    ensures
        ({
            let at = SrcState::Tree(Some(json_sink::json_val(entries[0].1)));
            let rest = entries_dict(entries).skip(1);
            &&& shows_entries(at, rest, entries)
            &&& behind_entries(at, rest, entries) == SrcState::Tree(None)
        }),
    decreases entries,
{
    lemma_tree_shows(texts, entries[0].1);
    let tail = entries.skip(1);
    assert(entries_dict(entries).skip(1) =~= entries_dict(tail));
    if entries.len() > 1 {
        assert forall|i: int| 0 <= i < tail.len() implies well_written(
            texts,
            (#[trigger] tail[i]).1,
        ) by {
            assert(tail[i] == entries[i + 1]);
        }
        lemma_tree_shows_entries(texts, tail);
        assert(entries_dict(tail)[0] == (
            Val::Str(tail[0].0),
            json_sink::json_val(tail[0].1),
        ));
        lemma_tree_entries_left(entries_dict(tail), json_sink::json_val(entries[0].1));
    }
}

proof fn lemma_tree_entries_left(entries: Seq<(Val, Val)>, v: Val)
    requires
        entries.len() > 0,
    ensures
        json_source::entries_left(SrcState::Tree(Some(entries[0].1)), entries.skip(1))
            < json_source::entries_left(SrcState::Tree(Some(v)), entries),
{
}

/// What is well written is so whatever texts its numbers have.
pub proof fn lemma_well_written(texts: NumberTexts, j: Json)
    requires
        well_written(texts, j),
    ensures
        well_written(NumberTexts::Any, j),
    decreases j,
{
    match j {
        Json::Array(items) => {
            assert forall|i: int| 0 <= i < items.len() implies well_written(
                NumberTexts::Any,
                #[trigger] items[i],
            ) by {
                lemma_well_written(texts, items[i]);
            }
        },
        Json::Object(entries) => {
            assert forall|i: int| 0 <= i < entries.len() implies well_written(
                NumberTexts::Any,
                (#[trigger] entries[i]).1,
            ) by {
                lemma_well_written(texts, entries[i].1);
            }
        },
        _ => {},
    }
}

/// Reading the next value of a source gives the value that the source presents.
pub proof fn lemma_shown_value(src: SrcState, j: Json)
    requires
        shows(src, j),
        well_written(NumberTexts::Any, j),
    ensures
        json_scalars::value_reading(src) == Ok::<(Val, SrcState), Fault>(
            (json_sink::json_val(j), behind(src, j)),
        ),
    decreases j,
{
    match j {
        Json::Array(items) => {
            let (rest, more, at) = json_source::array_read(src)->Ok_0;
            lemma_items_vals(items);
            if more {
                lemma_shown_items(at, rest, items, seq![]);
                assert(seq![] + items_list(items) =~= items_list(items));
            } else {
                assert(items_list(items) =~= seq![]);
            }
        },
        Json::Object(entries) => {
            let (rest, key, at) = json_source::object_read(src)->Ok_0;
            lemma_entries_vals(entries);
            if key is Some {
                lemma_shown_entries(at, rest, entries, seq![]);
                assert(seq![] + entries_dict(entries) =~= entries_dict(entries));
            } else {
                assert(entries_dict(entries) =~= seq![]);
            }
        },
        _ => {},
    }
}

proof fn lemma_shown_items(src: SrcState, rest: Seq<Val>, items: Seq<Json>, before: Seq<Val>)
    requires
        shows_items(src, rest, items),
        forall|i: int| 0 <= i < items.len() ==> well_written(NumberTexts::Any, #[trigger] items[i]),
    ensures
        json_scalars::items_reading(src, rest, before) == Ok::<(Seq<Val>, SrcState), Fault>(
            (before + items_list(items), behind_items(src, rest, items)),
        ),
    decreases items,
{
    lemma_shown_value(src, items[0]);
    let (rest2, more, at) = json_source::array_stepped(behind(src, items[0]), rest)->Ok_0;
    let v = json_sink::json_val(items[0]);
    if more {
        let tail = items.skip(1);
        assert forall|i: int| 0 <= i < tail.len() implies well_written(
            NumberTexts::Any,
            #[trigger] tail[i],
        ) by {
            assert(tail[i] == items[i + 1]);
        }
        lemma_shown_items(at, rest2, tail, before.push(v));
        assert(before.push(v) + items_list(tail) =~= before + items_list(items));
    } else {
        assert(before.push(v) =~= before + items_list(items));
    }
}

proof fn lemma_shown_entries(
    src: SrcState,
    rest: Seq<(Val, Val)>,
    entries: Seq<(Seq<char>, Json)>,
    before: Seq<(Val, Val)>,
)
    requires
        shows_entries(src, rest, entries),
        distinct_keys(entries),
        forall|i: int| 0 <= i < entries.len() ==> well_written(NumberTexts::Any, (#[trigger] entries[i]).1),
        forall|i: int, k: int|
            0 <= i < before.len() && 0 <= k < entries.len() ==> !value::same_key(
                (#[trigger] before[i]).0,
                Val::Str((#[trigger] entries[k]).0),
            ),
    ensures
        json_scalars::entries_reading(src, rest, entries[0].0, before) == Ok::<
            (Seq<(Val, Val)>, SrcState),
            Fault,
        >((before + entries_dict(entries), behind_entries(src, rest, entries))),
    decreases entries,
{
    assert(decreases_to!(entries => entries[0]));
    lemma_shown_value(src, entries[0].1);
    let (rest2, key, at) = json_source::key_read(behind(src, entries[0].1), rest)->Ok_0;
    let k0 = Val::Str(entries[0].0);
    let v = json_sink::json_val(entries[0].1);
    value::lemma_dict_index(before, k0);
    assert(value::dict_index(before, k0) is None) by {
        if value::dict_index(before, k0) is Some {
            let i = value::dict_index(before, k0)->0;
            assert(!value::same_key(before[i].0, Val::Str(entries[0].0)));
        }
    }
    let after = before.push((k0, v));
    assert(value::dict_set(before, k0, v) == after);
    if key is Some {
        let tail = entries.skip(1);
        assert forall|i: int| 0 <= i < tail.len() implies well_written(
            NumberTexts::Any,
            (#[trigger] tail[i]).1,
        ) by {
            assert(tail[i] == entries[i + 1]);
        }
        assert forall|a: int, b: int| 0 <= a < b < tail.len() implies (#[trigger] tail[a]).0 != (
        #[trigger] tail[b]).0 by {
            assert(tail[a] == entries[a + 1] && tail[b] == entries[b + 1]);
        }
        assert forall|i: int, k: int|
            0 <= i < after.len() && 0 <= k < tail.len() implies !value::same_key(
            (#[trigger] after[i]).0,
            Val::Str((#[trigger] tail[k]).0),
        ) by {
            assert(tail[k] == entries[k + 1]);
            if i < before.len() {
                assert(after[i] == before[i]);
                assert(!value::same_key(before[i].0, Val::Str(entries[k + 1].0)));
            } else {
                assert(entries[0].0 != entries[k + 1].0);
            }
        }
        lemma_shown_entries(at, rest2, tail, after);
        assert(after + entries_dict(tail) =~= before + entries_dict(entries));
    } else {
        assert(after =~= before + entries_dict(entries));
    }
}

/// An index that is counted from a place further to the front. It goes no further than a machine
/// word counts.
pub open spec fn moved_index(index: usize, by: nat) -> usize {
    if index + by <= usize::MAX {
        (index + by) as usize
    } else {
        usize::MAX
    }
}

/// An error of a text, counted from a place further to the front.
pub open spec fn moved_fault(f: Fault, by: nat) -> Fault {
    match f {
        Fault::Syntax { message, index } => Fault::Syntax { message, index: moved_index(index, by) },
        f => f,
    }
}

/// What is left of a text, as a source of its own.
pub open spec fn tail_of(data: Seq<u8>, pos: nat) -> SrcState {
    SrcState::Text { data: data.skip(pos as int), pos: 0 }
}

/// Where a source is that was at `src` in the tail of a text.
pub open spec fn moved(data: Seq<u8>, pos: nat, src: SrcState) -> SrcState {
    match src {
        SrcState::Text { pos: n, .. } => SrcState::Text { data, pos: pos + n },
        src => src,
    }
}

/// What is read from a text depends on what is left of it. Positions, also those that errors tell,
/// count from the start of the whole text.
pub proof fn lemma_positions_count_from_the_start(data: Seq<u8>, pos: nat)
    ensures
        ({
            let s = SrcState::Text { data, pos };
            let t = tail_of(data, pos);
            &&& json_source::peeked(s) == match json_source::peeked(t) {
                Ok(kind) => Ok::<JsonKind, Fault>(kind),
                Err(f) => Err(moved_fault(f, pos)),
            }
            &&& json_source::null_read(s) == match json_source::null_read(t) {
                Ok(src) => Ok::<SrcState, Fault>(moved(data, pos, src)),
                Err(f) => Err(moved_fault(f, pos)),
            }
            &&& json_source::bool_read(s) == match json_source::bool_read(t) {
                Ok((b, src)) => Ok::<(bool, SrcState), Fault>((b, moved(data, pos, src))),
                Err(f) => Err(moved_fault(f, pos)),
            }
            &&& json_source::number_read(s) == match json_source::number_read(t) {
                Ok((v, src)) => Ok::<(Val, SrcState), Fault>((v, moved(data, pos, src))),
                Err(f) => Err(moved_fault(f, pos)),
            }
            &&& json_source::float_read(s) == match json_source::float_read(t) {
                Ok((b, src)) => Ok::<(u64, SrcState), Fault>((b, moved(data, pos, src))),
                Err(f) => Err(moved_fault(f, pos)),
            }
            &&& json_source::string_read(s) == match json_source::string_read(t) {
                Ok((v, src)) => Ok::<(Seq<char>, SrcState), Fault>((v, moved(data, pos, src))),
                Err(f) => Err(moved_fault(f, pos)),
            }
            &&& json_source::skipped(s) == match json_source::skipped(t) {
                Ok(src) => Ok::<SrcState, Fault>(moved(data, pos, src)),
                Err(f) => Err(moved_fault(f, pos)),
            }
            &&& json_source::array_read(s) == match json_source::array_read(t) {
                Ok((items, more, src)) => Ok::<(Seq<Val>, bool, SrcState), Fault>(
                    (items, more, moved(data, pos, src)),
                ),
                Err(f) => Err(moved_fault(f, pos)),
            }
            &&& json_source::object_read(s) == match json_source::object_read(t) {
                Ok((entries, key, src)) => Ok::<
                    (Seq<(Val, Val)>, Option<Seq<char>>, SrcState),
                    Fault,
                >((entries, key, moved(data, pos, src))),
                Err(f) => Err(moved_fault(f, pos)),
            }
            &&& json_source::finished(s) == match json_source::finished(t) {
                Ok(u) => Ok::<(), Fault>(u),
                Err(f) => Err(moved_fault(f, pos)),
            }
        }),
{
    let rest = data.skip(pos as int);
    assert(rest.skip(0) =~= rest);
}

/// Moving on within an array or an object of a text goes by what is left of the text, too.
pub proof fn lemma_steps_count_from_the_start(
    data: Seq<u8>,
    pos: nat,
    items: Seq<Val>,
    entries: Seq<(Val, Val)>,
)
    ensures
        ({
            let s = SrcState::Text { data, pos };
            let t = tail_of(data, pos);
            &&& json_source::array_stepped(s, items) == match json_source::array_stepped(t, items) {
                Ok((rest, more, src)) => Ok::<(Seq<Val>, bool, SrcState), Fault>(
                    (rest, more, moved(data, pos, src)),
                ),
                Err(f) => Err(moved_fault(f, pos)),
            }
            &&& json_source::key_read(s, entries) == match json_source::key_read(t, entries) {
                Ok((rest, key, src)) => Ok::<
                    (Seq<(Val, Val)>, Option<Seq<char>>, SrcState),
                    Fault,
                >((rest, key, moved(data, pos, src))),
                Err(f) => Err(moved_fault(f, pos)),
            }
        }),
{
    let rest = data.skip(pos as int);
    assert(rest.skip(0) =~= rest);
}

} // verus!
