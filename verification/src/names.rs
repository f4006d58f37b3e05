//! Field names in `snake_case` and `lowerCamelCase`, and the paths of field masks.

use vstd::prelude::*;
use vstd::string::*;
use crate::text::chars_of;

verus! {

/// Whether `char::is_uppercase` holds of a character outside ASCII.
pub uninterp spec fn upper_property(c: char) -> bool;

/// The characters that `char::to_lowercase` yields for a character outside ASCII.
pub uninterp spec fn lower_form(c: char) -> Seq<char>;

/// The characters that `char::to_uppercase` yields for a character outside ASCII.
pub uninterp spec fn upper_form(c: char) -> Seq<char>;

/// Whether a character is an uppercase letter. In ASCII these are `A` to `Z`.
pub open spec fn is_upper(c: char) -> bool {
    if c <= '\u{7f}' {
        'A' <= c <= 'Z'
    } else {
        upper_property(c)
    }
}

/// The lowercase form of a character. In ASCII `A` to `Z` become `a` to `z`, and the others stay
/// as they are.
pub open spec fn lower(c: char) -> Seq<char> {
    if 'A' <= c <= 'Z' {
        seq![(c as u32 + 32) as char]
    } else if c <= '\u{7f}' {
        seq![c]
    } else {
        lower_form(c)
    }
}

/// The uppercase form of a character. In ASCII `a` to `z` become `A` to `Z`, and the others stay
/// as they are.
pub open spec fn upper(c: char) -> Seq<char> {
    if 'a' <= c <= 'z' {
        seq![(c as u32 - 32) as char]
    } else if c <= '\u{7f}' {
        seq![c]
    } else {
        upper_form(c)
    }
}

/// Whether a text holds ASCII characters only.
pub open spec fn is_ascii(s: Seq<char>) -> bool {
    forall|i: int| 0 <= i < s.len() ==> #[trigger] s[i] <= '\u{7f}'
}

/// Whether a text holds no uppercase letter of ASCII, and a lowercase letter of ASCII directly
/// behind each underscore.
pub open spec fn is_snake(s: Seq<char>) -> bool {
    forall|i: int|
        0 <= i < s.len() ==> !('A' <= #[trigger] s[i] <= 'Z') && (s[i] == '_' ==> i + 1 < s.len()
            && 'a' <= s[i + 1] <= 'z')
}

/// `char::is_uppercase`: whether a character has Unicode's `Uppercase` property. Among the
/// ASCII characters these are the letters `A` to `Z`.
#[verifier::external_body]
fn char_is_upper(c: char) -> (r: bool)
    ensures
        c <= '\u{7f}' ==> r == ('A' <= c <= 'Z'),
        c > '\u{7f}' ==> r == upper_property(c),
{
    c.is_uppercase()
}

/// `char::to_lowercase`: the lowercase form of a character. `A` to `Z` become `a` to `z`, and
/// other ASCII characters stay as they are.
#[verifier::external_body]
fn char_lower(c: char) -> (r: Vec<char>)
    ensures
        'A' <= c <= 'Z' ==> r@ == seq![(c as u32 + 32) as char],
        c <= '\u{7f}' && !('A' <= c <= 'Z') ==> r@ == seq![c],
        c > '\u{7f}' ==> r@ == lower_form(c),
{
    c.to_lowercase().collect()
}

/// `char::to_uppercase`: the uppercase form of a character, by Unicode's own tables. `a` to `z`
/// become `A` to `Z`, other ASCII characters stay as they are, and no character but the underscore
/// has a form with an underscore in it.
#[verifier::external_body]
fn char_upper(c: char) -> (r: Vec<char>)
    ensures
        'a' <= c <= 'z' ==> r@ == seq![(c as u32 - 32) as char],
        c <= '\u{7f}' && !('a' <= c <= 'z') ==> r@ == seq![c],
        c > '\u{7f}' ==> r@ == upper_form(c),
        c != '_' ==> !r@.contains('_'),
{
    c.to_uppercase().collect()
}

/// A name with an underscore and a lowercase letter in place of each uppercase letter.
pub open spec fn snake(s: Seq<char>) -> Seq<char>
    decreases s.len(),
{
    if s.len() == 0 {
        seq![]
    } else {
        snake(s.drop_last()) + if is_upper(s.last()) {
            seq!['_'] + lower(s.last())
        } else {
            seq![s.last()]
        }
    }
}

/// A name without its underscores, with an uppercase letter where an underscore came before.
pub open spec fn camel(s: Seq<char>) -> Seq<char>
    decreases s.len(),
{
    if s.len() == 0 {
        seq![]
    } else {
        let head = s.drop_last();
        camel(head) + if s.last() == '_' {
            seq![]
        } else if head.len() > 0 && head.last() == '_' {
            upper(s.last())
        } else {
            seq![s.last()]
        }
    }
}

/// The parts of a text between separators.
pub open spec fn split(s: Seq<char>, sep: char) -> Seq<Seq<char>>
    decreases s.len(),
{
    if s.len() == 0 {
        seq![seq![]]
    } else {
        let parts = split(s.drop_last(), sep);
        if s.last() == sep {
            parts.push(seq![])
        } else {
            parts.update(parts.len() - 1, parts.last().push(s.last()))
        }
    }
}

/// The parts with separators between them.
pub open spec fn join(parts: Seq<Seq<char>>, sep: char) -> Seq<char>
    decreases parts.len(),
{
    if parts.len() == 0 {
        seq![]
    } else if parts.len() == 1 {
        parts[0]
    } else {
        join(parts.drop_last(), sep).push(sep) + parts.last()
    }
}

fn push_all(out: &mut String, chars: &Vec<char>)
    ensures
        final(out)@ == old(out)@ + chars@,
{
    let mut i: usize = 0;
    assert(out@ =~= old(out)@ + chars@.take(0));
    while i < chars.len()
        invariant
            i <= chars@.len(),
            out@ == old(out)@ + chars@.take(i as int),
        decreases chars@.len() - i,
    {
        out.push(chars[i]);
        i = i + 1;
        assert(out@ =~= old(out)@ + chars@.take(i as int));
    }
    assert(chars@.take(i as int) =~= chars@);
}

/// A name whose last character is `c`, in `snake_case`.
proof fn lemma_snake_push(s: Seq<char>, c: char)
    ensures
        snake(s.push(c)) == snake(s) + if is_upper(c) {
            seq!['_'] + lower(c)
        } else {
            seq![c]
        },
{
    assert(s.push(c).drop_last() =~= s);
}

/// A name whose last character is `c`, in `lowerCamelCase`.
proof fn lemma_camel_push(s: Seq<char>, c: char)
    ensures
        camel(s.push(c)) == camel(s) + if c == '_' {
            seq![]
        } else if s.len() > 0 && s.last() == '_' {
            upper(c)
        } else {
            seq![c]
        },
{
    assert(s.push(c).drop_last() =~= s);
}

/// The `snake_case` form of an ASCII name is in ASCII and has no uppercase letter; if the name has
/// no underscore, each underscore of the form has a lowercase letter behind it.
pub proof fn lemma_snake_form(s: Seq<char>)
    requires
        is_ascii(s),
    ensures
        is_ascii(snake(s)),
        forall|i: int| 0 <= i < snake(s).len() ==> !('A' <= #[trigger] snake(s)[i] <= 'Z'),
        !s.contains('_') ==> is_snake(snake(s)),
    decreases s.len(),
{
    if s.len() > 0 {
        let head = s.drop_last();
        assert(s[s.len() - 1] <= '\u{7f}');
        assert(is_ascii(head)) by {
            assert forall|i: int| 0 <= i < head.len() implies #[trigger] head[i] <= '\u{7f}' by {
                assert(head[i] == s[i]);
            }
        }
        lemma_snake_form(head);
        if !s.contains('_') {
            assert(s[s.len() - 1] != '_');
            assert(!head.contains('_')) by {
                if head.contains('_') {
                    let i = choose|i: int| 0 <= i < head.len() && head[i] == '_';
                    assert(s[i] == '_');
                }
            }
        }
    }
}

/// The `lowerCamelCase` form of an ASCII name is in ASCII and has no underscore.
pub proof fn lemma_camel_form(s: Seq<char>)
    requires
        is_ascii(s),
    ensures
        is_ascii(camel(s)),
        !camel(s).contains('_'),
    decreases s.len(),
{
    if s.len() > 0 {
        let head = s.drop_last();
        assert(s[s.len() - 1] <= '\u{7f}');
        assert(is_ascii(head)) by {
            assert forall|i: int| 0 <= i < head.len() implies #[trigger] head[i] <= '\u{7f}' by {
                assert(head[i] == s[i]);
            }
        }
        lemma_camel_form(head);
        assert(forall|i: int| 0 <= i < camel(head).len() ==> #[trigger] camel(head)[i] != '_');
        assert forall|i: int| 0 <= i < camel(s).len() implies #[trigger] camel(s)[i] != '_' by {
            if i < camel(head).len() {
                assert(camel(s)[i] == camel(head)[i]);
            }
        }
    }
}

/// An ASCII name comes back from its `lowerCamelCase` form exactly when it has no uppercase letter
/// and a lowercase letter directly behind each underscore.
pub proof fn lemma_snake_of_camel(p: Seq<char>)
    requires
        is_ascii(p),
    ensures
        snake(camel(p)) == p <==> is_snake(p),
{
    lemma_camel_form(p);
    lemma_snake_form(camel(p));
    if is_snake(p) {
        lemma_snake_restored(p);
    }
}

/// A name in `snake_case` comes back from its `lowerCamelCase` form.
proof fn lemma_snake_restored(p: Seq<char>)
    requires
        is_ascii(p),
        is_snake(p),
    ensures
        snake(camel(p)) == p,
    decreases p.len(),
{
    if p.len() > 0 {
        let c = p.last();
        let head = p.drop_last();
        assert(p[p.len() - 1] == c && c <= '\u{7f}');
        assert(head.push(c) =~= p);
        lemma_camel_push(head, c);
        if head.len() > 0 && head.last() == '_' {
            let start = head.drop_last();
            assert(p[p.len() - 2] == '_');
            assert('a' <= c <= 'z');
            assert(start.push('_') =~= head);
            if start.len() > 0 && start.last() == '_' {
                assert(p[p.len() - 3] == '_');
            }
            lemma_camel_push(start, '_');
            assert(start =~= p.take(start.len() as int));
            lemma_snake_head(p, start);
            lemma_snake_restored(start);
            let big = (c as u32 - 32) as char;
            assert('A' <= big <= 'Z');
            assert(camel(p) =~= camel(start).push(big));
            lemma_snake_push(camel(start), big);
            assert((big as u32 + 32) as char == c);
            assert(snake(camel(p)) =~= p);
        } else {
            lemma_snake_head(p, head);
            lemma_snake_restored(head);
            assert(camel(p) =~= camel(head).push(c));
            lemma_snake_push(camel(head), c);
            assert(snake(camel(p)) =~= p);
        }
    }
}

/// A name in `snake_case` that is cut off behind another character than an underscore stays one.
proof fn lemma_snake_head(p: Seq<char>, head: Seq<char>)
    requires
        is_ascii(p),
        is_snake(p),
        head.len() < p.len(),
        head == p.take(head.len() as int),
        head.len() > 0 ==> head.last() != '_',
    ensures
        is_ascii(head),
        is_snake(head),
{
    assert forall|i: int| 0 <= i < head.len() implies #[trigger] head[i] <= '\u{7f}' by {
        assert(head[i] == p[i]);
    }
    assert forall|i: int| 0 <= i < head.len() implies !('A' <= #[trigger] head[i] <= 'Z') && (head[i]
        == '_' ==> i + 1 < head.len() && 'a' <= head[i + 1] <= 'z') by {
        assert(head[i] == p[i]);
        if head[i] == '_' {
            assert(i != head.len() - 1);
            assert(head[i + 1] == p[i + 1]);
        }
    }
}

/// An ASCII name without underscores comes back from its `snake_case` form.
pub proof fn lemma_camel_of_snake(c: Seq<char>)
    requires
        is_ascii(c),
        !c.contains('_'),
    ensures
        camel(snake(c)) == c,
    decreases c.len(),
{
    if c.len() > 0 {
        let x = c.last();
        let head = c.drop_last();
        assert(c[c.len() - 1] == x && x <= '\u{7f}' && x != '_');
        assert(head.push(x) =~= c);
        assert forall|i: int| 0 <= i < head.len() implies #[trigger] head[i] <= '\u{7f}' && head[i]
            != '_' by {
            assert(head[i] == c[i]);
        }
        assert(!head.contains('_'));
        lemma_camel_of_snake(head);
        lemma_snake_form(head);
        lemma_snake_push(head, x);
        let done = snake(head);
        if is_upper(x) {
            let small = (x as u32 + 32) as char;
            assert('a' <= small <= 'z');
            assert(snake(c) =~= done.push('_').push(small));
            lemma_camel_push(done, '_');
            lemma_camel_push(done.push('_'), small);
            assert((small as u32 - 32) as char == x);
            assert(camel(snake(c)) =~= c);
        } else {
            assert(snake(c) =~= done.push(x));
            lemma_camel_push(done, x);
            if done.len() > 0 {
                assert(done[done.len() - 1] != '_');
            }
            assert(camel(snake(c)) =~= c);
        }
    }
}

/// The `snake_case` form of a `lowerCamelCase` name. That of an ASCII name is in ASCII, without
/// uppercase letters, and the name comes back from it if it has no underscore.
pub fn proto_snake_case(name: &str) -> (r: String)
    ensures
        r@ == snake(name@),
        is_ascii(name@) ==> is_ascii(r@) && forall|i: int|
            0 <= i < r@.len() ==> !('A' <= #[trigger] r@[i] <= 'Z'),
        is_ascii(name@) && !name@.contains('_') ==> camel(r@) == name@,
{
    proof {
        if is_ascii(name@) {
            lemma_snake_form(name@);
            if !name@.contains('_') {
                lemma_camel_of_snake(name@);
            }
        }
    }
    let chars: Vec<char> = chars_of(name);
    let mut out: String = String::new();
    let mut i: usize = 0;
    while i < chars.len()
        invariant
            i <= chars@.len(),
            out@ == snake(chars@.take(i as int)),
        decreases chars@.len() - i,
    {
        let c: char = chars[i];
        assert(chars@.take(i + 1).drop_last() =~= chars@.take(i as int));
        if char_is_upper(c) {
            out.push('_');
            let low: Vec<char> = char_lower(c);
            push_all(&mut out, &low);
            assert(out@ =~= snake(chars@.take(i + 1)));
        } else {
            out.push(c);
            assert(out@ =~= snake(chars@.take(i + 1)));
        }
        i = i + 1;
    }
    assert(chars@.take(i as int) =~= name@);
    out
}

/// The `lowerCamelCase` form of a `snake_case` name. It holds no underscore. That of an ASCII name
/// is in ASCII, and the name comes back from it exactly when it has no uppercase letter and a
/// lowercase letter directly behind each underscore.
pub fn proto_camel_case(name: &str) -> (r: String)
    ensures
        r@ == camel(name@),
        !r@.contains('_'),
        is_ascii(name@) ==> is_ascii(r@) && (snake(r@) == name@ <==> is_snake(name@)),
{
    proof {
        if is_ascii(name@) {
            lemma_camel_form(name@);
            lemma_snake_of_camel(name@);
        }
    }
    let chars: Vec<char> = chars_of(name);
    let mut out: String = String::new();
    let mut after_underscore: bool = false;
    let mut i: usize = 0;
    while i < chars.len()
        invariant
            i <= chars@.len(),
            out@ == camel(chars@.take(i as int)),
            after_underscore == (i > 0 && chars@[i - 1] == '_'),
            forall|k: int| 0 <= k < out@.len() ==> #[trigger] out@[k] != '_',
        decreases chars@.len() - i,
    {
        let c: char = chars[i];
        assert(chars@.take(i + 1).drop_last() =~= chars@.take(i as int));
        if c == '_' {
            after_underscore = true;
            assert(out@ =~= camel(chars@.take(i + 1)));
        } else {
            if after_underscore {
                let up: Vec<char> = char_upper(c);
                assert(forall|k: int| 0 <= k < up@.len() ==> #[trigger] up@[k] != '_');
                push_all(&mut out, &up);
            } else {
                out.push(c);
            }
            after_underscore = false;
            assert(out@ =~= camel(chars@.take(i + 1)));
        }
        i = i + 1;
    }
    assert(chars@.take(i as int) =~= name@);
    out
}

/// A split has at least one part.
pub proof fn lemma_split_nonempty(s: Seq<char>, sep: char)
    ensures
        split(s, sep).len() >= 1,
    decreases s.len(),
{
    if s.len() > 0 {
        lemma_split_nonempty(s.drop_last(), sep);
    }
}

/// Splitting at a separator more adds one part.
pub proof fn lemma_split_append(s: Seq<char>, sep: char, part: Seq<char>)
    requires
        !part.contains(sep),
    ensures
        split(s.push(sep) + part, sep) == split(s, sep).push(part),
    decreases part.len(),
{
    if part.len() == 0 {
        assert(s.push(sep) + part =~= s.push(sep));
        assert(s.push(sep).drop_last() =~= s);
        assert(part =~= seq![]);
    } else {
        let head = part.drop_last();
        assert(!head.contains(sep)) by {
            if head.contains(sep) {
                let i = choose|i: int| 0 <= i < head.len() && head[i] == sep;
                assert(part[i] == sep);
            }
        }
        lemma_split_append(s, sep, head);
        let whole = s.push(sep) + part;
        assert(whole.drop_last() =~= s.push(sep) + head);
        assert(whole.last() == part.last());
        assert(part[part.len() - 1] != sep);
        let parts = split(s, sep).push(head);
        assert(parts.last().push(part.last()) =~= part);
        assert(parts.update(parts.len() - 1, part) =~= split(s, sep).push(part));
    }
}

/// A text without separators is one part.
pub proof fn lemma_split_single(part: Seq<char>, sep: char)
    requires
        !part.contains(sep),
    ensures
        split(part, sep) == seq![part],
    decreases part.len(),
{
    if part.len() == 0 {
        assert(part =~= seq![]);
    } else {
        let head = part.drop_last();
        assert(!head.contains(sep)) by {
            if head.contains(sep) {
                let i = choose|i: int| 0 <= i < head.len() && head[i] == sep;
                assert(part[i] == sep);
            }
        }
        lemma_split_single(head, sep);
        assert(part[part.len() - 1] != sep);
        assert(head.push(part.last()) =~= part);
        assert(split(part, sep) =~= seq![part]);
    }
}

/// Splitting what was joined gives the parts back, if there is a part and none holds the
/// separator.
pub proof fn lemma_split_join(parts: Seq<Seq<char>>, sep: char)
    requires
        parts.len() >= 1,
        forall|i: int| 0 <= i < parts.len() ==> !(#[trigger] parts[i]).contains(sep),
    ensures
        split(join(parts, sep), sep) == parts,
    decreases parts.len(),
{
    if parts.len() == 1 {
        lemma_split_single(parts[0], sep);
        assert(seq![parts[0]] =~= parts);
    } else {
        let head = parts.drop_last();
        assert forall|i: int| 0 <= i < head.len() implies !(#[trigger] head[i]).contains(sep) by {
            assert(head[i] == parts[i]);
        }
        lemma_split_join(head, sep);
        assert(!parts[parts.len() - 1].contains(sep));
        lemma_split_append(join(head, sep), sep, parts.last());
        assert(head.push(parts.last()) =~= parts);
    }
}

/// The parts of a text between separators.
pub fn split_text(s: &str, sep: char) -> (r: Vec<String>)
    ensures
        r@.map_values(|t: String| t@) == split(s@, sep),
{
    let chars: Vec<char> = chars_of(s);
    let mut done: Vec<String> = Vec::new();
    let mut current: String = String::new();
    let mut i: usize = 0;
    assert(done@.map_values(|t: String| t@).push(current@) =~= split(chars@.take(0), sep));
    while i < chars.len()
        invariant
            i <= chars@.len(),
            done@.map_values(|t: String| t@).push(current@) == split(chars@.take(i as int), sep),
        decreases chars@.len() - i,
    {
        let c: char = chars[i];
        let ghost before = done@.map_values(|t: String| t@).push(current@);
        assert(chars@.take(i + 1).drop_last() =~= chars@.take(i as int));
        if c == sep {
            done.push(current);
            current = String::new();
            assert(done@.map_values(|t: String| t@).push(current@) =~= before.push(seq![]));
        } else {
            current.push(c);
            assert(done@.map_values(|t: String| t@).push(current@) =~= before.update(
                before.len() - 1,
                before.last().push(c),
            ));
        }
        i = i + 1;
    }
    assert(chars@.take(i as int) =~= s@);
    let ghost parts = done@.map_values(|t: String| t@).push(current@);
    done.push(current);
    assert(done@.map_values(|t: String| t@) =~= parts);
    done
}

/// Names are turned character by character, also outside of ASCII: an uppercase letter becomes an
/// underscore and its lowercase form, and a letter behind an underscore its uppercase form.
pub proof fn lemma_names_outside_ascii(s: Seq<char>, c: char)
    requires
        c > '\u{7f}',
    ensures
        upper_property(c) ==> snake(s.push(c)) == snake(s).push('_') + lower_form(c),
        !upper_property(c) ==> snake(s.push(c)) == snake(s).push(c),
        camel(s.push('_')) == camel(s),
        camel(s.push('_').push(c)) == camel(s) + upper_form(c),
        s.len() > 0 && s.last() != '_' ==> camel(s.push(c)) == camel(s).push(c),
        camel(seq![c]) == seq![c],
{
    lemma_snake_push(s, c);
    lemma_camel_push(s, '_');
    lemma_camel_push(s.push('_'), c);
    lemma_camel_push(s, c);
    lemma_camel_push(seq![], c);
    assert(snake(s) + (seq!['_'] + lower_form(c)) =~= snake(s).push('_') + lower_form(c));
    assert(snake(s) + seq![c] =~= snake(s).push(c));
    assert(camel(s) + seq![] =~= camel(s));
    assert(camel(s) + seq![c] =~= camel(s).push(c));
    assert(Seq::<char>::empty().push(c) =~= seq![c]);
    assert(camel(seq![]) + seq![c] =~= seq![c]);
}

} // verus!
