//! The text of a JSON value presents that value.

use vstd::prelude::*;
use vstd::utf8;
use crate::double;
use crate::error::Fault;
use crate::integer;
use crate::json_scalars;
use crate::json_shown;
use crate::json_shown::NumberTexts;
use crate::json_sink;
use crate::json_sink::Json;
use crate::json_source;
use crate::json_source::SrcState;
use crate::json_text;
use crate::text;
use crate::value;
use crate::value::Val;

verus! {

/// UTF-8 of two texts, one behind the other.
proof fn lemma_encode_add(a: Seq<char>, b: Seq<char>)
    ensures
        utf8::encode_utf8(a + b) == utf8::encode_utf8(a) + utf8::encode_utf8(b),
    decreases a.len(),
{
    if a.len() == 0 {
        assert(a + b =~= b);
    } else {
        assert((a + b).drop_first() =~= a.drop_first() + b);
        lemma_encode_add(a.drop_first(), b);
        assert(utf8::encode_utf8(a + b) =~= utf8::encode_utf8(a) + utf8::encode_utf8(b));
    }
}

/// UTF-8 of an ASCII character and what follows.
proof fn lemma_encode_ascii(c: char, rest: Seq<char>)
    requires
        (c as u32) < 0x80,
    ensures
        utf8::encode_utf8(seq![c] + rest) == seq![c as u8] + utf8::encode_utf8(rest),
{
    assert((seq![c] + rest).drop_first() =~= rest);
    let c0 = c as u32;
    assert(c0 as u8 == utf8::leading_byte_width_1(c0)) by (bit_vector)
        requires
            c0 < 0x80,
    ;
    assert(utf8::encode_utf8(seq![c] + rest) =~= seq![c as u8] + utf8::encode_utf8(rest));
}

/// The byte of an ASCII character stands for the character.
proof fn lemma_ascii_byte(c: char)
    requires
        (c as u32) < 0x80,
    ensures
        (c as u8) as char == c,
{
    assert(c as u32 == c as int);
    assert(c as u8 == c as int);
}

/// Moving on behind the first of two texts.
proof fn lemma_move(data: Seq<u8>, pos: nat, a: Seq<char>, b: Seq<char>)
    requires
        pos <= data.len(),
        data.skip(pos as int) == utf8::encode_utf8(a + b),
    ensures
        pos + utf8::encode_utf8(a).len() <= data.len(),
        data.skip((pos + utf8::encode_utf8(a).len()) as int) == utf8::encode_utf8(b),
{
    lemma_encode_add(a, b);
    let n = utf8::encode_utf8(a).len();
    assert(data.skip(pos as int).len() == data.len() - pos);
    assert(data.skip((pos + n) as int) =~= data.skip(pos as int).skip(n as int));
    assert((utf8::encode_utf8(a) + utf8::encode_utf8(b)).skip(n as int) =~= utf8::encode_utf8(b));
}

/// Moving on behind an ASCII character.
proof fn lemma_move_ascii(data: Seq<u8>, pos: nat, c: char, rest: Seq<char>)
    requires
        pos <= data.len(),
        data.skip(pos as int) == utf8::encode_utf8(seq![c] + rest),
        (c as u32) < 0x80,
    ensures
        pos < data.len(),
        data.skip(pos as int)[0] == c as u8,
        data.skip(pos as int).skip(1) == utf8::encode_utf8(rest),
        data.skip((pos + 1) as int) == utf8::encode_utf8(rest),
{
    lemma_encode_ascii(c, rest);
    let d = data.skip(pos as int);
    assert(d.len() >= 1);
    assert(d.skip(1) =~= utf8::encode_utf8(rest));
    assert(data.skip((pos + 1) as int) =~= d.skip(1));
}

/// A token starts where no white space stands.
proof fn lemma_no_space(data: Seq<u8>, from: nat)
    requires
        from < data.len(),
        !json_text::is_space(data[from as int]),
    ensures
        json_text::token_start(data, from) == from,
{
    assert(data.skip(from as int)[0] == data[from as int]);
}

/// The escaped form of a text, from its start.
proof fn lemma_escaped_head(s: Seq<char>)
    requires
        s.len() > 0,
    ensures
        json_sink::escaped(s) == json_sink::escaped_char(s[0]) + json_sink::escaped(s.skip(1)),
    decreases s.len(),
{
    if s.len() == 1 {
        assert(s.drop_last() =~= Seq::<char>::empty());
        assert(s.skip(1) =~= Seq::<char>::empty());
        assert(json_sink::escaped(s) =~= json_sink::escaped_char(s[0]) + json_sink::escaped(
            s.skip(1),
        ));
    } else {
        let head = s.drop_last();
        lemma_escaped_head(head);
        assert(head.skip(1) =~= s.skip(1).drop_last());
        assert(s.skip(1).last() == s.last());
        assert(json_sink::escaped(s) =~= json_sink::escaped_char(s[0]) + json_sink::escaped(
            s.skip(1),
        ));
    }
}

/// The escaped form of a character spells the character.
proof fn lemma_spelled_char(c: char, after: Seq<char>)
    ensures
        json_text::spelled_char(json_sink::escaped_char(c) + after) == Some(
            (c, json_sink::escaped_char(c).len()),
        ),
        (json_sink::escaped_char(c) + after)[0] != '"',
{
    let e = json_sink::escaped_char(c);
    let s = e + after;
    assert(s[0] == e[0]);
    if e.len() >= 2 {
        assert(s[1] == e[1]);
    }
    if e.len() == 6 {
        assert(s[2] == '0' && s[3] == '0' && s[4] == e[4] && s[5] == e[5]);
        let high = c as int / 16;
        let low = c as int % 16;
        assert(json_text::hex_digit(json_sink::hex_char(high)) == Some(high));
        assert(json_text::hex_digit(json_sink::hex_char(low)) == Some(low));
        assert(json_text::hex_at(s, 2) == Some(c as int));
    }
}

/// The escaped form of a text spells the text.
proof fn lemma_spelled(s: Seq<char>, after: Seq<char>)
    ensures
        json_text::spelled(json_sink::escaped(s) + (seq!['"'] + after)) == Some(
            (s, json_sink::escaped(s).len() + 1),
        ),
    decreases s.len(),
{
    let end = seq!['"'] + after;
    let all = json_sink::escaped(s) + end;
    if s.len() == 0 {
        assert(all[0] == '"');
        assert(s =~= Seq::<char>::empty());
    } else {
        lemma_escaped_head(s);
        let e = json_sink::escaped_char(s[0]);
        let rest = json_sink::escaped(s.skip(1)) + end;
        assert(all =~= e + rest);
        lemma_spelled_char(s[0], rest);
        assert(all.skip(e.len() as int) =~= rest);
        lemma_spelled(s.skip(1), after);
        assert(seq![s[0]] + s.skip(1) =~= s);
    }
}

/// A quoted text is read as that text.
proof fn lemma_string_at(s: Seq<char>, after: Seq<char>)
    ensures
        json_text::string_at(utf8::encode_utf8(json_sink::quoted(s) + after)) == Ok::<
            (Seq<char>, nat),
            json_text::FailVal,
        >((s, utf8::encode_utf8(json_sink::quoted(s)).len())),
{
    let all = json_sink::quoted(s) + after;
    let data = utf8::encode_utf8(all);
    utf8::encode_utf8_valid_utf8(all);
    utf8::encode_utf8_decode_utf8(all);
    assert(all =~= seq!['"'] + all.skip(1)) by {
        assert(all[0] == json_sink::quoted(s)[0]);
    }
    lemma_encode_ascii('"', all.skip(1));
    lemma_no_space(data, 0);
    assert(data.skip(0) =~= data);
    assert(all.skip(1) =~= json_sink::escaped(s) + (seq!['"'] + after));
    lemma_spelled(s, after);
    assert(all.take((json_sink::escaped(s).len() + 2) as int) =~= json_sink::quoted(s));
}

/// Whether a character can stand in a number.
spec fn is_number_char(c: char) -> bool {
    (c as u32) < 0x80 && json_text::is_number_byte(c as u8)
}

/// Whether a text may follow a value.
pub open spec fn ends_value(after: Seq<char>) -> bool {
    after.len() > 0 ==> after[0] == ',' || after[0] == ']' || after[0] == '}'
}

/// A number is read up to its end.
proof fn lemma_number_word(t: Seq<char>, after: Seq<char>)
    requires
        forall|i: int| 0 <= i < t.len() ==> is_number_char(#[trigger] t[i]),
        ends_value(after),
    ensures
        json_text::number_word(utf8::encode_utf8(t + after)) == t,
        utf8::encode_utf8(t).len() == t.len(),
    decreases t.len(),
{
    if t.len() == 0 {
        assert(t + after =~= after);
        assert(t =~= seq![]);
        if after.len() > 0 {
            assert(after =~= seq![after[0]] + after.skip(1));
            lemma_encode_ascii(after[0], after.skip(1));
        }
    } else {
        let rest = t.skip(1);
        assert forall|i: int| 0 <= i < rest.len() implies is_number_char(#[trigger] rest[i]) by {
            assert(rest[i] == t[i + 1]);
        }
        assert(is_number_char(t[0]));
        lemma_number_word(rest, after);
        assert(t + after =~= seq![t[0]] + (rest + after));
        assert(t =~= seq![t[0]] + rest);
        lemma_encode_ascii(t[0], rest + after);
        lemma_encode_ascii(t[0], rest);
        let data = utf8::encode_utf8(t + after);
        assert(data.skip(1) =~= utf8::encode_utf8(rest + after));
        lemma_ascii_byte(t[0]);
    }
}

/// The texts of numbers consist of number characters and start with a digit or a sign.
proof fn lemma_number_chars(v: Val, t: Seq<char>)
    requires
        json_sink::number_reads_back(v, t),
    ensures
        t.len() > 0,
        forall|i: int| 0 <= i < t.len() ==> is_number_char(#[trigger] t[i]),
        t[0] == '-' || text::is_digit(t[0]),
{
    match v {
        Val::Int(n) => {
            let m = (if n < 0 {
                -n
            } else {
                n
            }) as nat;
            let digits = text::nat_text(m);
            text::lemma_nat_text(m);
            assert forall|i: int| 0 <= i < t.len() implies is_number_char(#[trigger] t[i]) by {
                if n < 0 {
                    if i > 0 {
                        assert(text::is_digit(digits[i - 1]));
                    }
                } else {
                    assert(text::is_digit(digits[i]));
                }
            }
            if n >= 0 {
                assert(text::is_digit(digits[0]));
            }
        },
        Val::Float(bits) => {
            let (minus, n, fraction, exponent) = choose|
                minus: bool,
                n: nat,
                fraction: Seq<char>,
                exponent: Seq<char>,
            |
                text::is_fraction_part(fraction) && text::is_exponent_part(exponent)
                    && fraction.len() + exponent.len() > 0 && t == #[trigger] text::number_text(
                    minus,
                    n,
                    fraction,
                    exponent,
                );
            let before = text::nat_text(n);
            text::lemma_nat_text(n);
            let sign: Seq<char> = if minus {
                seq!['-']
            } else {
                seq![]
            };
            assert(t == sign + before + fraction + exponent);
            let p = sign.len() + before.len();
            assert forall|i: int| 0 <= i < t.len() implies is_number_char(#[trigger] t[i]) by {
                if i < sign.len() {
                } else if i < p {
                    assert(t[i] == before[i - sign.len()]);
                    assert(text::is_digit(before[i - sign.len()]));
                } else if i < p + fraction.len() {
                    let k = i - p;
                    assert(t[i] == fraction[k]);
                    if k > 0 {
                        assert(fraction.skip(1)[k - 1] == fraction[k]);
                        assert(text::is_digit(fraction.skip(1)[k - 1]));
                    }
                } else {
                    let k = i - p - fraction.len();
                    assert(t[i] == exponent[k]);
                    if k > 1 {
                        assert(exponent.skip(2)[k - 2] == exponent[k]);
                        assert(exponent.skip(1)[k - 1] == exponent[k]);
                    } else if k == 1 {
                        assert(exponent.skip(1)[0] == exponent[1]);
                    }
                }
            }
            if !minus {
                assert(t[0] == before[0]);
                assert(text::is_digit(before[0]));
            }
        },
        _ => {},
    }
}

/// A number is read as its value.
proof fn lemma_number_shown(data: Seq<u8>, pos: nat, v: Val, t: Seq<char>, after: Seq<char>)
    requires
        json_sink::number_reads_back(v, t),
        pos <= data.len(),
        data.skip(pos as int) == utf8::encode_utf8(t + after),
        ends_value(after),
    ensures
        json_shown::shows(SrcState::Text { data, pos }, Json::Number(v, t)),
        json_shown::behind(SrcState::Text { data, pos }, Json::Number(v, t)) == (SrcState::Text {
            data,
            pos: pos + utf8::encode_utf8(t).len(),
        }),
{
    lemma_number_chars(v, t);
    lemma_number_word(t, after);
    let d = data.skip(pos as int);
    assert(is_number_char(t[0]));
    assert(t + after =~= seq![t[0]] + (t.skip(1) + after));
    lemma_move_ascii(data, pos, t[0], t.skip(1) + after);
    lemma_no_space(d, 0);
    assert(d.skip(0) =~= d);
    match v {
        Val::Int(n) => {
            assert(t == text::int_text(n));
            let w = choose|w: int| t == #[trigger] text::int_text(w);
            integer::lemma_int_text_read_back(n);
            integer::lemma_int_text_read_back(w);
        },
        Val::Float(bits) => {
            lemma_float_not_int(t);
        },
        _ => {},
    }
}

/// A number with a fraction or an exponent is no integer.
proof fn lemma_float_not_int(t: Seq<char>)
    requires
        text::is_float(t),
    ensures
        !json_text::is_int(t),
        t != json_text::minus_zero(),
{
    let (minus, n, fraction, exponent) = choose|
        minus: bool,
        n: nat,
        fraction: Seq<char>,
        exponent: Seq<char>,
    |
        text::is_fraction_part(fraction) && text::is_exponent_part(exponent) && fraction.len()
            + exponent.len() > 0 && t == #[trigger] text::number_text(minus, n, fraction, exponent);
    let p = (if minus {
        1int
    } else {
        0
    }) + text::nat_text(n).len();
    let c = if fraction.len() > 0 {
        fraction[0]
    } else {
        exponent[0]
    };
    text::lemma_nat_text(n);
    assert(t[p] == c);
    assert(c == '.' || c == 'e' || c == 'E');
    if t == json_text::minus_zero() {
        assert(t.len() == p + fraction.len() + exponent.len());
        assert(t.len() == 2 && t[0] == '-' && t[1] == '0');
        assert(p == 0 || p == 1);
    }
    if json_text::is_int(t) {
        let w = choose|w: int| t == #[trigger] text::int_text(w);
        let m = (if w < 0 {
            -w
        } else {
            w
        }) as nat;
        text::lemma_nat_text(m);
        if w < 0 {
            if p > 0 {
                assert(t[p] == text::nat_text(m)[p - 1]);
                assert(text::is_digit(text::nat_text(m)[p - 1]));
            }
        } else {
            assert(text::is_digit(text::nat_text(m)[p]));
        }
    }
}

/// What stands behind the first element of an array.
spec fn items_tail(items: Seq<Json>) -> Seq<char> {
    if items.len() <= 1 {
        seq![]
    } else {
        seq![','] + json_sink::items_text(items.skip(1))
    }
}

/// The text of the elements of an array, from the first one on.
proof fn lemma_items_head(items: Seq<Json>)
    requires
        items.len() > 0,
    ensures
        json_sink::items_text(items) == json_sink::json_text(items[0]) + items_tail(items),
    decreases items.len(),
{
    let all = json_sink::items_text(items);
    if items.len() == 1 {
        assert(items.drop_last() =~= Seq::<Json>::empty());
        assert(json_sink::items_text(Seq::<Json>::empty()) =~= seq![]);
        assert(all =~= json_sink::json_text(items[0]) + items_tail(items));
    } else {
        let head = items.drop_last();
        lemma_items_head(head);
        let rest = items.skip(1);
        assert(rest.drop_last() =~= head.skip(1));
        assert(rest.last() == items.last());
        assert(head[0] == items[0]);
        assert(json_sink::items_text(rest) == json_sink::items_text(head.skip(1)) + json_sink::comma(
            rest.len() == 1,
        ) + json_sink::json_text(items.last()));
        if items.len() == 2 {
            assert(head.skip(1) =~= Seq::<Json>::empty());
            assert(json_sink::items_text(Seq::<Json>::empty()) =~= seq![]);
        }
        assert(all =~= json_sink::json_text(items[0]) + items_tail(items));
    }
}

/// The text of a member of an object.
spec fn entry_text(entry: (Seq<char>, Json)) -> Seq<char> {
    json_sink::quoted(entry.0) + seq![':'] + json_sink::json_text(entry.1)
}

/// What stands behind the first value of an object.
spec fn entries_tail(entries: Seq<(Seq<char>, Json)>) -> Seq<char> {
    if entries.len() <= 1 {
        seq![]
    } else {
        seq![','] + json_sink::entries_text(entries.skip(1))
    }
}

/// The text of the members of an object, from the first one on.
proof fn lemma_entries_head(entries: Seq<(Seq<char>, Json)>)
    requires
        entries.len() > 0,
    ensures
        json_sink::entries_text(entries) == entry_text(entries[0]) + entries_tail(entries),
    decreases entries.len(),
{
    let all = json_sink::entries_text(entries);
    if entries.len() == 1 {
        assert(entries.drop_last() =~= Seq::<(Seq<char>, Json)>::empty());
        assert(json_sink::entries_text(Seq::<(Seq<char>, Json)>::empty()) =~= seq![]);
        assert(all =~= entry_text(entries[0]) + entries_tail(entries));
    } else {
        let head = entries.drop_last();
        lemma_entries_head(head);
        let rest = entries.skip(1);
        assert(rest.drop_last() =~= head.skip(1));
        assert(rest.last() == entries.last());
        assert(head[0] == entries[0]);
        assert(json_sink::entries_text(rest) =~= json_sink::entries_text(head.skip(1))
            + json_sink::comma(rest.len() == 1) + entry_text(entries.last()));
        if entries.len() == 2 {
            assert(head.skip(1) =~= Seq::<(Seq<char>, Json)>::empty());
            assert(json_sink::entries_text(Seq::<(Seq<char>, Json)>::empty()) =~= seq![]);
        }
        assert(all =~= entry_text(entries[0]) + entries_tail(entries));
    }
}

/// Whether a JSON value is written as a text that can be read.
pub open spec fn printable(j: Json) -> bool {
    json_sink::texts_read_back(j)
}

/// What is written can be read, if the texts that the host gave are read again.
pub proof fn lemma_printable(j: Json)
    requires
        json_shown::well_written(NumberTexts::OwnOrAsked, j),
        json_sink::doubles_read_back(j),
        json_sink::asked_read_back(j),
    ensures
        printable(j),
    decreases j,
{
    match j {
        Json::Number(v, t) => match v {
            Val::Float(bits) => {
                if json_sink::plain_number_text(v) is Some {
                    text::lemma_fraction_is_float(t);
                }
            },
            _ => {},
        },
        Json::Array(items) => {
            assert forall|i: int| 0 <= i < items.len() implies json_sink::texts_read_back(
                #[trigger] items[i],
            ) by {
                lemma_printable(items[i]);
            }
        },
        Json::Object(entries) => {
            assert forall|i: int| 0 <= i < entries.len() implies json_sink::texts_read_back(
                (#[trigger] entries[i]).1,
            ) by {
                lemma_printable(entries[i].1);
            }
        },
        _ => {},
    }
}

/// What is written without the host's help has no text that the host gave.
pub proof fn lemma_not_asked(j: Json)
    requires
        json_shown::well_written(NumberTexts::Own, j),
    ensures
        json_shown::well_written(NumberTexts::OwnOrAsked, j),
        json_sink::asked_read_back(j),
    decreases j,
{
    match j {
        Json::Array(items) => {
            assert forall|i: int| 0 <= i < items.len() implies json_sink::asked_read_back(
                #[trigger] items[i],
            ) && json_shown::well_written(NumberTexts::OwnOrAsked, items[i]) by {
                lemma_not_asked(items[i]);
            }
        },
        Json::Object(entries) => {
            assert forall|i: int| 0 <= i < entries.len() implies json_sink::asked_read_back(
                (#[trigger] entries[i]).1,
            ) && json_shown::well_written(NumberTexts::OwnOrAsked, entries[i].1) by {
                lemma_not_asked(entries[i].1);
            }
        },
        _ => {},
    }
}

/// Whether a character can start a value.
spec fn starts_value(c: char) -> bool {
    c == 'n' || c == 't' || c == 'f' || c == '"' || c == '[' || c == '{' || c == '-'
        || text::is_digit(c)
}

/// The text of a JSON value starts with a character that tells its kind.
proof fn lemma_first_char(j: Json)
    requires
        printable(j),
    ensures
        ({
            let t = json_sink::json_text(j);
            &&& t.len() > 0
            &&& starts_value(t[0])
            &&& t == seq![t[0]] + t.skip(1)
        }),
{
    reveal_strlit("null");
    reveal_strlit("true");
    reveal_strlit("false");
    let t = json_sink::json_text(j);
    match j {
        Json::Number(v, u) => {
            lemma_number_chars(v, u);
        },
        _ => {},
    }
    assert(t =~= seq![t[0]] + t.skip(1));
}

/// Words are read as what they stand for.
proof fn lemma_word_shown(data: Seq<u8>, pos: nat, j: Json, after: Seq<char>)
    requires
        j is Null || j is Bool,
        pos <= data.len(),
        data.skip(pos as int) == utf8::encode_utf8(json_sink::json_text(j) + after),
    ensures
        json_shown::shows(SrcState::Text { data, pos }, j),
        json_shown::behind(SrcState::Text { data, pos }, j) == (SrcState::Text {
            data,
            pos: pos + utf8::encode_utf8(json_sink::json_text(j)).len(),
        }),
{
    reveal_strlit("null");
    reveal_strlit("true");
    reveal_strlit("false");
    let t = json_sink::json_text(j);
    let d = data.skip(pos as int);
    lemma_encode_add(t, after);
    assert(utf8::is_ascii_chars(t));
    utf8::is_ascii_chars_encode_utf8(t);
    let e = utf8::encode_utf8(t);
    assert(e.len() == t.len());
    let word = match j {
        Json::Null => json_text::null_word(),
        Json::Bool(true) => json_text::true_word(),
        _ => json_text::false_word(),
    };
    assert(e =~= word) by {
        assert forall|i: int| 0 <= i < e.len() implies e[i] == word[i] by {
            assert(t[i] as u8 == e[i]);
        }
    }
    assert(d.subrange(0, e.len() as int) =~= e);
    assert(d[0] == e[0]);
    lemma_no_space(d, 0);
    if j is Bool && !j->Bool_0 {
        assert(d.subrange(0, 4)[0] == d[0]);
        assert(json_text::true_word()[0] != d[0]);
    }
}

/// A string is read as its text.
proof fn lemma_string_shown(data: Seq<u8>, pos: nat, s: Seq<char>, after: Seq<char>)
    requires
        pos <= data.len(),
        data.skip(pos as int) == utf8::encode_utf8(json_sink::quoted(s) + after),
    ensures
        json_shown::shows(SrcState::Text { data, pos }, Json::Str(s)),
        json_shown::behind(SrcState::Text { data, pos }, Json::Str(s)) == (SrcState::Text {
            data,
            pos: pos + utf8::encode_utf8(json_sink::quoted(s)).len(),
        }),
{
    let rest = json_sink::escaped(s) + seq!['"'] + after;
    assert(json_sink::quoted(s) + after =~= seq!['"'] + rest);
    lemma_move_ascii(data, pos, '"', rest);
    lemma_no_space(data.skip(pos as int), 0);
    lemma_string_at(s, after);
}

/// A text has at least as many bytes as characters.
proof fn lemma_encode_len(t: Seq<char>)
    ensures
        utf8::encode_utf8(t).len() >= t.len(),
    decreases t.len(),
{
    if t.len() > 0 {
        lemma_encode_len(t.drop_first());
    }
}

/// The text of a JSON value is long enough for what it holds.
proof fn lemma_text_size(j: Json)
    requires
        printable(j),
    ensures
        value::tree_size(json_sink::json_val(j)) <= 2 * json_sink::json_text(j).len(),
    decreases j,
{
    match j {
        Json::Null => {
            reveal_strlit("null");
        },
        Json::Bool(_) => {
            reveal_strlit("true");
            reveal_strlit("false");
        },
        Json::Number(v, t) => lemma_number_chars(v, t),
        Json::Str(_) => {},
        Json::Array(items) => lemma_items_text_size(items),
        Json::Object(entries) => lemma_entries_text_size(entries),
    }
}

proof fn lemma_items_text_size(items: Seq<Json>)
    requires
        forall|i: int| 0 <= i < items.len() ==> printable(#[trigger] items[i]),
    ensures
        value::items_size(json_sink::items_vals(items)) <= 2 * json_sink::items_text(items).len() + 1,
    decreases items,
{
    if items.len() > 0 {
        let head = items.drop_last();
        assert forall|i: int| 0 <= i < head.len() implies printable(#[trigger] head[i]) by {
            assert(head[i] == items[i]);
        }
        lemma_items_text_size(head);
        assert(printable(items[items.len() - 1]));
        assert(decreases_to!(items => items[items.len() - 1]));
        lemma_text_size(items[items.len() - 1]);
        json_scalars::lemma_items_push(
            json_sink::items_vals(head),
            json_sink::json_val(items.last()),
        );
        if head.len() == 0 {
            assert(json_sink::items_vals(head) =~= seq![]);
        }
    }
}

proof fn lemma_entries_text_size(entries: Seq<(Seq<char>, Json)>)
    requires
        forall|i: int| 0 <= i < entries.len() ==> printable((#[trigger] entries[i]).1),
    ensures
        value::entries_size(json_sink::entries_vals(entries)) <= 2 * json_sink::entries_text(
            entries,
        ).len(),
    decreases entries,
{
    if entries.len() > 0 {
        let head = entries.drop_last();
        assert forall|i: int| 0 <= i < head.len() implies printable((#[trigger] head[i]).1) by {
            assert(head[i] == entries[i]);
        }
        lemma_entries_text_size(head);
        assert(printable(entries[entries.len() - 1].1));
        assert(decreases_to!(entries => entries[entries.len() - 1]));
        lemma_text_size(entries[entries.len() - 1].1);
        json_scalars::lemma_dict_set_size(
            json_sink::entries_vals(head),
            Val::Str(entries.last().0),
            json_sink::json_val(entries.last().1),
        );
    }
}

/// The text of a JSON value presents the value, wherever it stands.
proof fn lemma_value_shown(data: Seq<u8>, pos: nat, j: Json, after: Seq<char>)
    requires
        printable(j),
        pos <= data.len(),
        data.skip(pos as int) == utf8::encode_utf8(json_sink::json_text(j) + after),
        ends_value(after),
    ensures
        json_shown::shows(SrcState::Text { data, pos }, j),
        json_shown::behind(SrcState::Text { data, pos }, j) == (SrcState::Text {
            data,
            pos: pos + utf8::encode_utf8(json_sink::json_text(j)).len(),
        }),
    decreases j, 0nat,
{
    match j {
        Json::Null | Json::Bool(_) => lemma_word_shown(data, pos, j, after),
        Json::Number(v, t) => lemma_number_shown(data, pos, v, t, after),
        Json::Str(s) => lemma_string_shown(data, pos, s, after),
        Json::Array(items) => lemma_array_shown(data, pos, items, after),
        Json::Object(entries) => lemma_object_shown(data, pos, entries, after),
    }
}

#[verifier::spinoff_prover]
#[verifier::rlimit(60)]
proof fn lemma_array_shown(data: Seq<u8>, pos: nat, items: Seq<Json>, after: Seq<char>)
    requires
        printable(Json::Array(items)),
        pos <= data.len(),
        data.skip(pos as int) == utf8::encode_utf8(json_sink::json_text(Json::Array(items)) + after),
    ensures
        json_shown::shows(SrcState::Text { data, pos }, Json::Array(items)),
        json_shown::behind(SrcState::Text { data, pos }, Json::Array(items)) == (SrcState::Text {
            data,
            pos: pos + utf8::encode_utf8(json_sink::json_text(Json::Array(items))).len(),
        }),
    decreases items, 2nat,
{
    let all = json_sink::items_text(items);
    let rest = all + seq![']'] + after;
    let d = data.skip(pos as int);
    assert(json_sink::json_text(Json::Array(items)) + after =~= seq!['['] + rest);
    lemma_move_ascii(data, pos, '[', rest);
    lemma_no_space(d, 0);
    lemma_encode_add(seq!['['] + all, seq![']']);
    lemma_encode_ascii('[', all);
    lemma_encode_ascii(']', seq![]);
    assert(seq![']'] + Seq::<char>::empty() =~= seq![']']);
    if items.len() == 0 {
        assert(rest =~= seq![']'] + after);
        assert(all =~= seq![]);
        lemma_move_ascii(data, pos + 1, ']', after);
        assert(d[1] == data.skip((pos + 1) as int)[0]);
        lemma_no_space(d, 1);
    } else {
        lemma_items_head(items);
        lemma_first_char(items[0]);
        let t = json_sink::json_text(items[0]);
        let c = t[0];
        let more = t.skip(1) + items_tail(items) + seq![']'] + after;
        assert(rest =~= seq![c] + more);
        lemma_move_ascii(data, pos + 1, c, more);
        assert(d[1] == data.skip((pos + 1) as int)[0]);
        lemma_start_byte(c);
        lemma_no_space(d, 1);
        lemma_items_shown(data, pos + 1, items, after);
    }
}

/// The byte that starts a value is no white space and ends no container.
proof fn lemma_start_byte(c: char)
    requires
        starts_value(c),
    ensures
        (c as u32) < 0x80,
        !json_text::is_space(c as u8),
        c as u8 != 0x5d,
        c as u8 != 0x7d,
{
}

#[verifier::spinoff_prover]
#[verifier::rlimit(60)]
proof fn lemma_items_shown(data: Seq<u8>, pos: nat, items: Seq<Json>, after: Seq<char>)
    requires
        items.len() > 0,
        forall|i: int| 0 <= i < items.len() ==> printable(#[trigger] items[i]),
        pos <= data.len(),
        data.skip(pos as int) == utf8::encode_utf8(
            json_sink::items_text(items) + seq![']'] + after,
        ),
    ensures
        json_shown::shows_items(SrcState::Text { data, pos }, seq![], items),
        json_shown::behind_items(SrcState::Text { data, pos }, seq![], items) == (SrcState::Text {
            data,
            pos: pos + utf8::encode_utf8(json_sink::items_text(items)).len() + 1,
        }),
    decreases items, 1nat,
{
    lemma_items_head(items);
    let first = json_sink::json_text(items[0]);
    let tail = items_tail(items);
    let after1 = tail + seq![']'] + after;
    assert(json_sink::items_text(items) + seq![']'] + after =~= first + after1);
    assert(ends_value(after1));
    lemma_value_shown(data, pos, items[0], after1);
    lemma_move(data, pos, first, after1);
    lemma_encode_add(first, tail);
    let mid = pos + utf8::encode_utf8(first).len();
    if items.len() == 1 {
        assert(after1 =~= seq![']'] + after);
        lemma_array_end(data, mid, after);
        assert(tail =~= seq![]);
    } else {
        let rest = items.skip(1);
        let later = json_sink::items_text(rest) + seq![']'] + after;
        assert(after1 =~= seq![','] + later);
        assert(rest[0] == items[1]);
        lemma_array_next(data, mid, rest, after);
        assert forall|i: int| 0 <= i < rest.len() implies printable(#[trigger] rest[i]) by {
            assert(rest[i] == items[i + 1]);
        }
        lemma_items_shown(data, mid + 1, rest, after);
        lemma_encode_ascii(',', json_sink::items_text(rest));
    }
}

/// The end of an array is read.
proof fn lemma_array_end(data: Seq<u8>, pos: nat, after: Seq<char>)
    requires
        pos <= data.len(),
        data.skip(pos as int) == utf8::encode_utf8(seq![']'] + after),
    ensures
        json_text::array_step_at(data.skip(pos as int)) == Ok::<(bool, nat), json_text::FailVal>(
            (false, 1),
        ),
{
    lemma_move_ascii(data, pos, ']', after);
    lemma_no_space(data.skip(pos as int), 0);
}

/// The way to the next element of an array is read.
proof fn lemma_array_next(data: Seq<u8>, pos: nat, items: Seq<Json>, after: Seq<char>)
    requires
        items.len() > 0,
        printable(items[0]),
        pos <= data.len(),
        data.skip(pos as int) == utf8::encode_utf8(
            seq![','] + (json_sink::items_text(items) + seq![']'] + after),
        ),
    ensures
        json_text::array_step_at(data.skip(pos as int)) == Ok::<(bool, nat), json_text::FailVal>(
            (true, 1),
        ),
        pos < data.len(),
        data.skip((pos + 1) as int) == utf8::encode_utf8(
            json_sink::items_text(items) + seq![']'] + after,
        ),
{
    let d = data.skip(pos as int);
    let later = json_sink::items_text(items) + seq![']'] + after;
    lemma_move_ascii(data, pos, ',', later);
    lemma_no_space(d, 0);
    lemma_items_head(items);
    lemma_first_char(items[0]);
    let t = json_sink::json_text(items[0]);
    let more = t.skip(1) + items_tail(items) + seq![']'] + after;
    assert(later =~= seq![t[0]] + more);
    lemma_start_byte(t[0]);
    lemma_move_ascii(data, pos + 1, t[0], more);
    assert(d[1] == data.skip((pos + 1) as int)[0]);
    lemma_no_space(d, 1);
}

/// A key and its colon are read.
proof fn lemma_key_shown(d: Seq<u8>, from: nat, key: Seq<char>, after: Seq<char>)
    requires
        from <= d.len(),
        d.skip(from as int) == utf8::encode_utf8(json_sink::quoted(key) + seq![':'] + after),
    ensures
        json_text::member_at(d, from) == Some(
            (key, from + utf8::encode_utf8(json_sink::quoted(key)).len() + 1),
        ),
        from < d.len(),
        d[from as int] == 0x22,
        json_text::token_start(d, from) == from,
{
    let n = utf8::encode_utf8(json_sink::quoted(key)).len();
    let behind = seq![':'] + after;
    assert(json_sink::quoted(key) + seq![':'] + after =~= json_sink::quoted(key) + behind);
    lemma_string_at(key, behind);
    lemma_move(d, from, json_sink::quoted(key), behind);
    lemma_move_ascii(d, from + n, ':', after);
    lemma_no_space(d, from + n);
    let rest = json_sink::escaped(key) + seq!['"'] + behind;
    assert(json_sink::quoted(key) + behind =~= seq!['"'] + rest);
    lemma_move_ascii(d, from, '"', rest);
    lemma_no_space(d, from);
}

#[verifier::spinoff_prover]
#[verifier::rlimit(60)]
proof fn lemma_object_shown(
    data: Seq<u8>,
    pos: nat,
    entries: Seq<(Seq<char>, Json)>,
    after: Seq<char>,
)
    requires
        printable(Json::Object(entries)),
        pos <= data.len(),
        data.skip(pos as int) == utf8::encode_utf8(
            json_sink::json_text(Json::Object(entries)) + after,
        ),
    ensures
        json_shown::shows(SrcState::Text { data, pos }, Json::Object(entries)),
        json_shown::behind(SrcState::Text { data, pos }, Json::Object(entries)) == (SrcState::Text {
            data,
            pos: pos + utf8::encode_utf8(json_sink::json_text(Json::Object(entries))).len(),
        }),
    decreases entries, 2nat,
{
    let all = json_sink::entries_text(entries);
    let rest = all + seq!['}'] + after;
    let d = data.skip(pos as int);
    assert(value::tree_size(json_sink::json_val(Json::Object(entries))) <= json_source::left(
        SrcState::Text { data, pos },
    )) by {
        lemma_text_size(Json::Object(entries));
        lemma_encode_len(json_sink::json_text(Json::Object(entries)) + after);
    }
    assert(json_sink::json_text(Json::Object(entries)) + after =~= seq!['{'] + rest);
    lemma_move_ascii(data, pos, '{', rest);
    lemma_no_space(d, 0);
    lemma_encode_add(seq!['{'] + all, seq!['}']);
    lemma_encode_ascii('{', all);
    lemma_encode_ascii('}', seq![]);
    assert(seq!['}'] + Seq::<char>::empty() =~= seq!['}']);
    if entries.len() == 0 {
        assert(rest =~= seq!['}'] + after);
        assert(all =~= seq![]);
        lemma_move_ascii(data, pos + 1, '}', after);
        assert(d[1] == data.skip((pos + 1) as int)[0]);
        lemma_no_space(d, 1);
    } else {
        lemma_entries_head(entries);
        let key = entries[0].0;
        let first = json_sink::json_text(entries[0].1);
        let later = first + entries_tail(entries) + seq!['}'] + after;
        assert(rest =~= json_sink::quoted(key) + seq![':'] + later);
        lemma_key_shown(d, 1, key, later);
        let n = utf8::encode_utf8(json_sink::quoted(key)).len();
        lemma_move(data, pos + 1, json_sink::quoted(key) + seq![':'], later);
        lemma_entry_len(key, first + entries_tail(entries));
        lemma_entries_shown(data, pos + 1 + n + 1, entries, after);
        assert(all =~= json_sink::quoted(key) + seq![':'] + (first + entries_tail(entries)));
    }
}

#[verifier::spinoff_prover]
#[verifier::rlimit(60)]
proof fn lemma_entries_shown(
    data: Seq<u8>,
    pos: nat,
    entries: Seq<(Seq<char>, Json)>,
    after: Seq<char>,
)
    requires
        entries.len() > 0,
        forall|i: int| 0 <= i < entries.len() ==> printable((#[trigger] entries[i]).1),
        pos <= data.len(),
        data.skip(pos as int) == utf8::encode_utf8(
            json_sink::json_text(entries[0].1) + entries_tail(entries) + seq!['}'] + after,
        ),
    ensures
        json_shown::shows_entries(SrcState::Text { data, pos }, seq![], entries),
        json_shown::behind_entries(SrcState::Text { data, pos }, seq![], entries) == (
        SrcState::Text {
            data,
            pos: pos + utf8::encode_utf8(
                json_sink::json_text(entries[0].1) + entries_tail(entries),
            ).len() + 1,
        }),
    decreases entries, 1nat,
{
    let first = json_sink::json_text(entries[0].1);
    let tail = entries_tail(entries);
    let after1 = tail + seq!['}'] + after;
    assert(first + tail + seq!['}'] + after =~= first + after1);
    assert(ends_value(after1));
    assert(printable(entries[0].1));
    lemma_value_shown(data, pos, entries[0].1, after1);
    lemma_move(data, pos, first, after1);
    lemma_encode_add(first, tail);
    let mid = pos + utf8::encode_utf8(first).len();
    if entries.len() == 1 {
        assert(after1 =~= seq!['}'] + after);
        lemma_object_end(data, mid, after);
        assert(tail =~= seq![]);
    } else {
        let rest = entries.skip(1);
        assert(rest[0] == entries[1]);
        lemma_entries_head(rest);
        let value = json_sink::json_text(rest[0].1);
        let later = value + entries_tail(rest) + seq!['}'] + after;
        assert(after1 =~= seq![','] + (json_sink::quoted(rest[0].0) + seq![':'] + later));
        lemma_object_next(data, mid, rest[0].0, later);
        assert forall|i: int| 0 <= i < rest.len() implies printable((#[trigger] rest[i]).1) by {
            assert(rest[i] == entries[i + 1]);
        }
        let k = utf8::encode_utf8(json_sink::quoted(rest[0].0)).len();
        lemma_entries_shown(data, mid + 1 + k + 1, rest, after);
        lemma_entry_len(rest[0].0, value + entries_tail(rest));
        assert(tail =~= seq![','] + (json_sink::quoted(rest[0].0) + seq![':'] + (value
            + entries_tail(rest))));
    }
}

/// How much UTF-8 a key takes before its value.
proof fn lemma_entry_len(key: Seq<char>, value: Seq<char>)
    ensures
        utf8::encode_utf8(seq![','] + (json_sink::quoted(key) + seq![':'] + value)).len() == 1
            + utf8::encode_utf8(json_sink::quoted(key)).len() + 1 + utf8::encode_utf8(value).len(),
        utf8::encode_utf8(json_sink::quoted(key) + seq![':'] + value).len() == utf8::encode_utf8(
            json_sink::quoted(key),
        ).len() + 1 + utf8::encode_utf8(value).len(),
        utf8::encode_utf8(json_sink::quoted(key) + seq![':']).len() == utf8::encode_utf8(
            json_sink::quoted(key),
        ).len() + 1,
{
    lemma_encode_ascii(',', json_sink::quoted(key) + seq![':'] + value);
    lemma_encode_add(json_sink::quoted(key) + seq![':'], value);
    lemma_encode_add(json_sink::quoted(key), seq![':']);
    lemma_encode_ascii(':', seq![]);
    assert(seq![':'] + Seq::<char>::empty() =~= seq![':']);
}

/// The end of an object is read.
proof fn lemma_object_end(data: Seq<u8>, pos: nat, after: Seq<char>)
    requires
        pos <= data.len(),
        data.skip(pos as int) == utf8::encode_utf8(seq!['}'] + after),
    ensures
        json_text::key_at(data.skip(pos as int)) == Ok::<
            (Option<Seq<char>>, nat),
            json_text::FailVal,
        >((None, 1)),
{
    lemma_move_ascii(data, pos, '}', after);
    lemma_no_space(data.skip(pos as int), 0);
}

/// The way to the next value of an object is read.
proof fn lemma_object_next(data: Seq<u8>, pos: nat, key: Seq<char>, later: Seq<char>)
    requires
        pos <= data.len(),
        data.skip(pos as int) == utf8::encode_utf8(
            seq![','] + (json_sink::quoted(key) + seq![':'] + later),
        ),
    ensures
        ({
            let n = utf8::encode_utf8(json_sink::quoted(key)).len();
            &&& json_text::key_at(data.skip(pos as int)) == Ok::<
                (Option<Seq<char>>, nat),
                json_text::FailVal,
            >((Some(key), 1 + n + 1))
            &&& pos + 1 + n + 1 <= data.len()
            &&& data.skip((pos + 1 + n + 1) as int) == utf8::encode_utf8(later)
        }),
{
    let d = data.skip(pos as int);
    lemma_move_ascii(data, pos, ',', json_sink::quoted(key) + seq![':'] + later);
    lemma_no_space(d, 0);
    lemma_key_shown(d, 1, key, later);
    lemma_move(data, pos + 1, json_sink::quoted(key) + seq![':'], later);
    lemma_entry_len(key, later);
}

/// The text of a JSON value that is not nested too deep is skipped to its end.
pub proof fn lemma_text_skipped(data: Seq<u8>, pos: nat, j: Json, after: Seq<char>)
    requires
        printable(j),
        json_sink::nested_within(j, json_text::SKIP_LIMIT as nat),
        pos <= data.len(),
        data.skip(pos as int) == utf8::encode_utf8(json_sink::json_text(j) + after),
        ends_value(after),
    ensures
        json_source::skipped(SrcState::Text { data, pos }) == Ok::<SrcState, Fault>(
            SrcState::Text { data, pos: pos + utf8::encode_utf8(json_sink::json_text(j)).len() },
        ),
{
    let d = data.skip(pos as int);
    assert(d.skip(0) =~= d);
    lemma_value_shown(d, 0, j, after);
    assert(json_text::skippable(d, j));
    let k = choose|k: Json| json_text::skippable(d, k);
    json_shown::lemma_shown_once(SrcState::Text { data: d, pos: 0 }, j, k);
}

/// The text of a JSON value, in UTF-8, presents the value and nothing behind it.
pub proof fn lemma_text_shows(j: Json)
    requires
        printable(j),
    ensures
        ({
            let data = utf8::encode_utf8(json_sink::json_text(j));
            let src = SrcState::Text { data, pos: 0 };
            &&& json_shown::shows(src, j)
            &&& json_source::finished(json_shown::behind(src, j)) is Ok
        }),
{
    let t = json_sink::json_text(j);
    let data = utf8::encode_utf8(t);
    assert(t + Seq::<char>::empty() =~= t);
    assert(data.skip(0) =~= data);
    lemma_value_shown(data, 0, j, seq![]);
    let end = data.skip(data.len() as int);
    assert(end.len() == 0);
    assert(end.skip(0) =~= end);
}

/// A string is written with as few characters as JSON allows. Only quotes, backslashes and control
/// characters are escaped: those that have an escape of two characters by that, and the others by
/// their four hexadecimal digits.
pub proof fn lemma_escapes_are_short(c: char)
    ensures
        ({
            let e = json_sink::escaped_char(c);
            let short = c == '"' || c == '\\' || c == '\n' || c == '\r' || c == '\t' || c == '\u{8}' || c
                == '\u{c}';
            &&& json_text::spelled_char(e) == Some((c, e.len()))
            &&& short ==> e.len() == 2
            &&& !short && '\u{0}' <= c <= '\u{1f}' ==> e.len() == 6
            &&& !short && !('\u{0}' <= c <= '\u{1f}') ==> e == seq![c]
        }),
{
    lemma_spelled_char(c, seq![]);
    assert(json_sink::escaped_char(c) + seq![] =~= json_sink::escaped_char(c));
}

/// The text of a JSON value is compact: nothing stands between its tokens. An array or an object with
/// one element more has the text of that element more, and a comma if it was not empty.
pub proof fn lemma_texts_are_compact(
    items: Seq<Json>,
    entries: Seq<(Seq<char>, Json)>,
    key: Seq<char>,
    j: Json,
)
    ensures
        json_sink::json_text(Json::Array(seq![])) == "[]"@,
        json_sink::json_text(Json::Object(seq![])) == "{}"@,
        json_sink::json_text(Json::Array(items.push(j))) == json_sink::json_text(
            Json::Array(items),
        ).drop_last() + (if items.len() == 0 {
            ""@
        } else {
            ","@
        }) + json_sink::json_text(j) + "]"@,
        json_sink::json_text(Json::Object(entries.push((key, j)))) == json_sink::json_text(
            Json::Object(entries),
        ).drop_last() + (if entries.len() == 0 {
            ""@
        } else {
            ","@
        }) + json_sink::json_text(Json::Str(key)) + ":"@ + json_sink::json_text(j) + "}"@,
{
    reveal_strlit("[]");
    reveal_strlit("{}");
    reveal_strlit("");
    reveal_strlit(",");
    reveal_strlit(":");
    reveal_strlit("]");
    reveal_strlit("}");
    assert(json_sink::json_text(Json::Array(seq![])) =~= "[]"@) by {
        assert(json_sink::items_text(seq![]) =~= seq![]);
    }
    assert(json_sink::json_text(Json::Object(seq![])) =~= "{}"@) by {
        assert(json_sink::entries_text(seq![]) =~= seq![]);
    }
    let more = items.push(j);
    assert(more.drop_last() =~= items);
    assert(json_sink::items_text(more) == json_sink::items_text(items) + json_sink::comma(
        items.len() == 0,
    ) + json_sink::json_text(j));
    assert(json_sink::json_text(Json::Array(items)).drop_last() =~= seq!['[']
        + json_sink::items_text(items));
    assert(json_sink::json_text(Json::Array(more)) =~= json_sink::json_text(
        Json::Array(items),
    ).drop_last() + (if items.len() == 0 {
        ""@
    } else {
        ","@
    }) + json_sink::json_text(j) + "]"@);
    let longer = entries.push((key, j));
    assert(longer.drop_last() =~= entries);
    assert(json_sink::entries_text(longer) == json_sink::entries_text(entries) + json_sink::comma(
        entries.len() == 0,
    ) + json_sink::quoted(key) + seq![':'] + json_sink::json_text(j));
    assert(json_sink::json_text(Json::Object(entries)).drop_last() =~= seq!['{']
        + json_sink::entries_text(entries));
    assert(json_sink::json_text(Json::Object(longer)) =~= json_sink::json_text(
        Json::Object(entries),
    ).drop_last() + (if entries.len() == 0 {
        ""@
    } else {
        ","@
    }) + json_sink::json_text(Json::Str(key)) + ":"@ + json_sink::json_text(j) + "}"@);
}

} // verus!
