//! The JSON text of field masks: the paths in `lowerCamelCase`, between commas.

use vstd::prelude::*;
use vstd::string::*;
use crate::error;
use crate::error::{Error, ErrorOf, Expected, Fault};
use crate::names;
use crate::names::{proto_camel_case, proto_snake_case, split_text};
use crate::text::{chars_of, same_text, text_has_char};
use crate::value;
use crate::value::{Val, Value};

verus! {

/// The paths in `lowerCamelCase`, or why they have no such form.
pub open spec fn camel_parts(paths: Seq<Val>) -> Result<Seq<Seq<char>>, Fault>
    decreases paths.len(),
{
    if paths.len() == 0 {
        Ok(seq![])
    } else {
        match camel_parts(paths.drop_last()) {
            Err(f) => Err(f),
            Ok(parts) => match paths.last() {
                Val::Str(path) => if names::snake(names::camel(path)) == path {
                    Ok(parts.push(names::camel(path)))
                } else {
                    Err(Fault::MaskIrreversible { path })
                },
                v => Err(Fault::Cast { value: v, to: Expected::Str }),
            },
        }
    }
}

/// The text of a field mask with the given paths, or why it has none.
pub open spec fn mask_text(paths: Seq<Val>) -> Result<Seq<char>, Fault> {
    match camel_parts(paths) {
        Ok(parts) => Ok(names::join(parts, ',')),
        Err(f) => Err(f),
    }
}

/// The paths that parts in `lowerCamelCase` stand for, up to the first that is not in it. An
/// error tells of such a part.
pub open spec fn snake_paths(name: Seq<char>, parts: Seq<Seq<char>>) -> (Seq<Val>, Option<Fault>)
    decreases parts.len(),
{
    if parts.len() == 0 {
        (seq![], None)
    } else {
        let (paths, fault) = snake_paths(name, parts.drop_last());
        if fault is Some {
            (paths, fault)
        } else if parts.last().contains('_') {
            (paths, Some(Fault::MaskNotCamel { name }))
        } else {
            (paths.push(Val::Str(names::snake(parts.last()))), None)
        }
    }
}

/// The paths of a field mask's text, up to the first that is not in `lowerCamelCase`.
pub open spec fn mask_paths(name: Seq<char>, s: Seq<char>) -> (Seq<Val>, Option<Fault>) {
    if s.len() == 0 {
        (seq![], None)
    } else {
        snake_paths(name, names::split(s, ','))
    }
}

/// The text of a field mask.
pub fn write_mask(paths: &Vec<Value>) -> (r: Result<String, Error>)
    ensures
        error::text_outcome(r) == mask_text(value::list_view(paths@)),
{
    let ghost items = value::list_view(paths@);
    let mut out: String = String::new();
    let mut i: usize = 0;
    let ghost mut parts: Seq<Seq<char>> = seq![];
    proof {
        assert(items.take(0) =~= seq![]);
        reveal_with_fuel(camel_parts, 1);
        assert(camel_parts(items.take(0)) == Ok::<Seq<Seq<char>>, Fault>(seq![]));
    }
    while i < paths.len()
        invariant
            i <= paths@.len(),
            items == value::list_view(paths@),
            parts.len() == i,
            camel_parts(items.take(i as int)) == Ok::<Seq<Seq<char>>, Fault>(parts),
            out@ == names::join(parts, ','),
        decreases paths@.len() - i,
    {
        proof {
            lemma_camel_parts_err(items, i + 1);
            assert(items.take(i + 1).drop_last() =~= items.take(i as int));
            assert(items.take(i + 1).last() == paths@[i as int]@);
        }
        match &paths[i] {
            Value::Str(path) => {
                let camel: String = proto_camel_case(path.as_str());
                let snake: String = proto_snake_case(camel.as_str());
                if !same_text(snake.as_str(), path.as_str()) {
                    return Err(ErrorOf::MaskIrreversible { path: path.clone() });
                }
                if i > 0 {
                    out.push(',');
                }
                out.append(camel.as_str());
                proof {
                    let next = parts.push(camel@);
                    assert(next.drop_last() =~= parts);
                    assert(out@ =~= names::join(next, ','));
                    parts = next;
                }
            },
            other => {
                return Err(ErrorOf::Cast { value: other.copy(), to: Expected::Str });
            },
        }
        i = i + 1;
    }
    assert(items.take(i as int) =~= items);
    Ok(out)
}

/// An error in the first paths is the error of all.
proof fn lemma_camel_parts_err(paths: Seq<Val>, i: int)
    requires
        0 <= i <= paths.len(),
    ensures
        camel_parts(paths.take(i)) is Err ==> camel_parts(paths) == camel_parts(paths.take(i)),
    decreases paths.len() - i,
{
    if i < paths.len() {
        assert(paths.take(i + 1).drop_last() =~= paths.take(i));
        lemma_camel_parts_err(paths, i + 1);
    } else {
        assert(paths.take(i) =~= paths);
    }
}

/// Appends the paths of a field mask's text. `name` is the name of the message type, for the
/// error.
pub fn read_mask(name: &str, text: &str, paths: &mut Vec<Value>) -> (r: Result<(), Error>)
    ensures
        value::list_view(final(paths)@) == value::list_view(old(paths)@) + mask_paths(
            name@,
            text@,
        ).0,
        match mask_paths(name@, text@).1 {
            Some(f) => r is Err && error::fault_of(r->Err_0) == f,
            None => r is Ok,
        },
{
    let chars: Vec<char> = chars_of(text);
    if chars.len() == 0 {
        assert(value::list_view(paths@) =~= value::list_view(old(paths)@) + seq![]);
        return Ok(());
    }
    let parts: Vec<String> = split_text(text, ',');
    let ghost all = names::split(text@, ',');
    let ghost before = value::list_view(paths@);
    let mut i: usize = 0;
    assert(all.take(0) =~= seq![]);
    assert(value::list_view(paths@) =~= before + snake_paths(name@, all.take(0)).0);
    while i < parts.len()
        invariant
            i <= parts@.len(),
            all == parts@.map_values(|t: String| t@),
            value::list_view(paths@) == before + snake_paths(name@, all.take(i as int)).0,
            snake_paths(name@, all.take(i as int)).1 is None,
            all == names::split(text@, ','),
            text@.len() > 0,
            before == value::list_view(old(paths)@),
        decreases parts@.len() - i,
    {
        let ghost paths_before = value::list_view(paths@);
        proof {
            lemma_snake_paths_err(name@, all, i + 1);
            assert(all.take(i + 1).drop_last() =~= all.take(i as int));
            assert(all.take(i + 1).last() == parts@[i as int]@);
        }
        let part: Vec<char> = chars_of(parts[i].as_str());
        if text_has_char(&part, '_') {
            return Err(ErrorOf::MaskNotCamel { name: name.to_owned() });
        }
        let path: String = proto_snake_case(parts[i].as_str());
        paths.push(Value::Str(path));
        assert(value::list_view(paths@) =~= paths_before.push(Val::Str(path@)));
        i = i + 1;
        assert(value::list_view(paths@) =~= before + snake_paths(name@, all.take(i as int)).0);
    }
    assert(all.take(i as int) =~= all);
    Ok(())
}

/// An error in the first parts is the error of all.
proof fn lemma_snake_paths_err(name: Seq<char>, parts: Seq<Seq<char>>, i: int)
    requires
        0 <= i <= parts.len(),
    ensures
        snake_paths(name, parts.take(i)).1 is Some ==> snake_paths(name, parts) == snake_paths(
            name,
            parts.take(i),
        ),
    decreases parts.len() - i,
{
    if i < parts.len() {
        assert(parts.take(i + 1).drop_last() =~= parts.take(i));
        lemma_snake_paths_err(name, parts, i + 1);
    } else {
        assert(parts.take(i) =~= parts);
    }
}

/// Whether a path's `lowerCamelCase` form can stand in a field mask's text: it holds no comma and
/// no underscore. That of an ASCII path never holds an underscore.
pub open spec fn separable(path: Val) -> bool {
    path matches Val::Str(s) && !names::camel(s).contains(',') && (names::is_ascii(s)
        || !names::camel(s).contains('_'))
}

/// Parts in `lowerCamelCase` stand for the paths that they were made from.
proof fn lemma_parts_read_back(name: Seq<char>, paths: Seq<Val>)
    requires
        camel_parts(paths) is Ok,
        forall|i: int| 0 <= i < paths.len() ==> separable(#[trigger] paths[i]),
    ensures
        snake_paths(name, camel_parts(paths)->Ok_0) == (paths, None::<Fault>),
        camel_parts(paths)->Ok_0.len() == paths.len(),
        forall|i: int| 0 <= i < paths.len() ==> !(#[trigger] camel_parts(paths)->Ok_0[i]).contains(
            ',',
        ),
    decreases paths.len(),
{
    if paths.len() > 0 {
        let head = paths.drop_last();
        assert forall|i: int| 0 <= i < head.len() implies separable(#[trigger] head[i]) by {
            assert(head[i] == paths[i]);
        }
        assert(separable(paths[paths.len() - 1]));
        if names::is_ascii(paths.last()->Str_0) {
            names::lemma_camel_form(paths.last()->Str_0);
        }
        lemma_parts_read_back(name, head);
        let parts = camel_parts(paths)->Ok_0;
        assert(parts.drop_last() =~= camel_parts(head)->Ok_0);
        assert(head.push(paths.last()) =~= paths);
    }
}

/// Reading the text of a field mask gives its paths back, if their `lowerCamelCase` forms hold
/// no separators and the mask is not the one of a single empty path, whose text is that of the
/// empty mask.
pub proof fn lemma_mask_read_back(name: Seq<char>, paths: Seq<Val>)
    requires
        mask_text(paths) is Ok,
        forall|i: int| 0 <= i < paths.len() ==> separable(#[trigger] paths[i]),
        paths.len() == 1 ==> paths[0] != Val::Str(seq![]),
    ensures
        mask_paths(name, mask_text(paths)->Ok_0) == (paths, None::<Fault>),
{
    lemma_parts_read_back(name, paths);
    let parts = camel_parts(paths)->Ok_0;
    let s = names::join(parts, ',');
    if paths.len() == 0 {
        assert(paths =~= seq![]);
    } else {
        names::lemma_split_join(parts, ',');
        if s.len() == 0 {
            if parts.len() > 1 {
                assert(s.len() >= 1);
            }
            assert(parts.len() == 1);
            assert(paths.drop_last() =~= seq![]);
            let path = paths[0]->Str_0;
            reveal_with_fuel(camel_parts, 2);
            assert(parts[0] == names::camel(path));
            assert(names::camel(path).len() == 0);
            assert(names::snake(names::camel(path)) =~= seq![]);
            assert(paths[0] == Val::Str(seq![]));
            assert(false);
        }
    }
}

} // verus!
