//! Reading back what was written: the canonical form of a well-formed
//! identifier is read as that identifier and no other.

use crate::decimal::{
    int_digits, lemma_digits_value_of_nat_digits, lemma_nat_digits_shape, nat_digits,
};
use crate::error::ErrorModel;
use crate::lexical::{
    is_decimal, is_digit, is_ident_char, is_ident_start, is_identifier, lemma_span_end_is,
    CharClass, BACKSLASH, BRACKET_CLOSE, BRACKET_OPEN, DELIMITER, QUOTE,
};
use crate::parse::{
    skip_spaces, spec_parse_entries, spec_parse_items, spec_parse_key, spec_parse_number,
    spec_parse_quoted, spec_parse_value,
};
use crate::record::{lemma_parse_record_sound, spec_parse_record, RecordModel};
use crate::render::{
    escape, escape_char, key_separator, quoted, render_entries, render_entry, render_items,
    render_key, render_text, render_value, separator,
};
use crate::split::lemma_table_end;
use crate::value::{has_key, IdModel};
use vstd::prelude::*;

verus! {

/// Whether `form` stands in `s` from position `i` on.
pub open spec fn stands_at(s: Seq<char>, i: int, form: Seq<char>) -> bool {
    &&& 0 <= i
    &&& i + form.len() <= s.len()
    &&& s.subrange(i, i + form.len()) == form
}

/// Whether a bare token that ends before position `e` cannot go on there:
/// the text ends, or a character stands that is no letter, digit or
/// underscore.
pub open spec fn token_stops(s: Seq<char>, e: int) -> bool {
    e >= s.len() || !is_ident_char(s[e])
}

/// The characters with which a payload's form can start.
pub open spec fn starts_value(c: char) -> bool {
    ||| c == '-'
    ||| is_digit(c)
    ||| c == BRACKET_OPEN
    ||| c == QUOTE
    ||| c == '['
    ||| c == '{'
    ||| is_ident_start(c)
}

/// Each character of a form that stands in `s` stands there at its place.
proof fn lemma_stands_index(s: Seq<char>, i: int, form: Seq<char>, k: int)
    requires
        stands_at(s, i, form),
        0 <= k < form.len(),
    ensures
        s[i + k] == form[k],
{
    assert(s.subrange(i, i + form.len())[k] == s[i + k]);
}

/// A part of a form that stands in `s` stands there too.
proof fn lemma_stands_part(s: Seq<char>, i: int, form: Seq<char>, from: int, to: int)
    requires
        stands_at(s, i, form),
        0 <= from <= to <= form.len(),
    ensures
        stands_at(s, i + from, form.subrange(from, to)),
{
    let part = form.subrange(from, to);
    assert forall|k: int| 0 <= k < part.len() implies s.subrange(i + from, i + to)[k]
        == part[k] by {
        lemma_stands_index(s, i, form, from + k);
    }
    assert(s.subrange(i + from, i + from + part.len()) =~= part);
}

/// The form of a payload that is no generator is not empty and starts with
/// a character that tells its kind.
pub proof fn lemma_render_value_start(v: IdModel)
    requires
        !(v is Generated),
    ensures
        render_value(v).len() > 0,
        starts_value(render_value(v)[0]),
{
    if let IdModel::Number(n) = v {
        if n >= 0 {
            lemma_nat_digits_shape(n as nat);
        }
    }
}

/// The number that was written is the number that is read.
proof fn lemma_read_number(s: Seq<char>, i: int, n: int)
    requires
        i64::MIN <= n <= i64::MAX,
        stands_at(s, i, int_digits(n)),
        token_stops(s, i + int_digits(n).len()),
    ensures
        s[i] == '-' || is_digit(s[i]),
        spec_parse_number(s, i) == Ok::<(IdModel, int), int>(
            (IdModel::Number(n), i + int_digits(n).len()),
        ),
{
    let form = int_digits(n);
    let e = i + form.len();
    let magnitude = (if n < 0 {
        -n
    } else {
        n
    }) as nat;
    let digits = nat_digits(magnitude);
    lemma_nat_digits_shape(magnitude);
    lemma_digits_value_of_nat_digits(magnitude);
    let from = if n < 0 {
        i + 1
    } else {
        i
    };
    lemma_stands_index(s, i, form, 0);
    assert(form.subrange(from - i, form.len() as int) =~= digits);
    lemma_stands_part(s, i, form, from - i, form.len() as int);
    assert(s.subrange(from, e) == digits);
    assert forall|k: int| from <= k < e implies CharClass::Digit.holds(#[trigger] s[k]) by {
        lemma_stands_index(s, from, digits, k - from);
    }
    lemma_span_end_is(s, from, e, CharClass::Digit);
    if n >= 0 {
        assert(is_digit(digits[0]));
    }
}

/// The quoted text that was written is the text that is read: from `i`,
/// where the escaped form of `t` and the closing quote stand, the reader
/// adds `t` to what it holds.
proof fn lemma_read_quoted(s: Seq<char>, i: int, acc: Seq<char>, t: Seq<char>)
    requires
        stands_at(s, i, escape(t) + seq![QUOTE]),
    ensures
        spec_parse_quoted(s, i, acc) == Ok::<(Seq<char>, int), int>(
            (acc + t, i + escape(t).len() + 1),
        ),
    decreases t.len(),
{
    let form = escape(t) + seq![QUOTE];
    if t.len() == 0 {
        lemma_stands_index(s, i, form, 0);
        assert(acc + t =~= acc);
    } else {
        let c = t[0];
        let rest = t.skip(1);
        let step = escape_char(c);
        assert(form =~= step + (escape(rest) + seq![QUOTE]));
        lemma_stands_index(s, i, form, 0);
        lemma_stands_part(s, i, form, step.len() as int, form.len() as int);
        assert(form.subrange(step.len() as int, form.len() as int) =~= escape(rest) + seq![QUOTE]);
        if c == QUOTE || c == BACKSLASH {
            lemma_stands_index(s, i, form, 1);
        }
        lemma_read_quoted(s, i + step.len(), acc.push(c), rest);
        assert(acc.push(c) + rest =~= acc + t);
    }
}

/// The text that was written is the text that is read, and stays a text.
proof fn lemma_read_text(s: Seq<char>, i: int, t: Seq<char>)
    requires
        stands_at(s, i, render_text(t)),
        token_stops(s, i + render_text(t).len()),
    ensures
        spec_parse_value(s, i) == Ok::<(IdModel, int), int>(
            (IdModel::Text(t), i + render_text(t).len()),
        ),
{
    let form = render_text(t);
    let e = i + form.len();
    lemma_stands_index(s, i, form, 0);
    if is_decimal(t) {
        assert(form =~= seq![BRACKET_OPEN] + t + seq![BRACKET_CLOSE]);
        assert forall|k: int| i + 1 <= k < e - 1 implies CharClass::BracketBody.holds(
            #[trigger] s[k],
        ) by {
            lemma_stands_index(s, i, form, k - i);
            assert(form[k - i] == t[k - i - 1]);
            if k - i - 1 > 0 || t[0] != '-' {
                if t[0] == '-' {
                    assert(t.skip(1)[k - i - 2] == t[k - i - 1]);
                }
                assert(is_digit(t[k - i - 1]));
            }
        }
        lemma_stands_index(s, i, form, form.len() - 1);
        lemma_span_end_is(s, i + 1, e - 1, CharClass::BracketBody);
        lemma_stands_part(s, i, form, 1, form.len() - 1);
        assert(form.subrange(1, form.len() - 1) =~= t);
    } else if is_identifier(t) {
        assert forall|k: int| i <= k < e implies CharClass::Ident.holds(#[trigger] s[k]) by {
            lemma_stands_index(s, i, form, k - i);
        }
        lemma_span_end_is(s, i, e, CharClass::Ident);
    } else {
        assert(form =~= seq![QUOTE] + (escape(t) + seq![QUOTE]));
        lemma_stands_part(s, i, form, 1, form.len() as int);
        assert(form.subrange(1, form.len() as int) =~= escape(t) + seq![QUOTE]);
        lemma_read_quoted(s, i + 1, Seq::empty(), t);
        assert(Seq::<char>::empty() + t =~= t);
    }
}

/// The key that was written is the key that is read.
proof fn lemma_read_key(s: Seq<char>, i: int, key: Seq<char>)
    requires
        stands_at(s, i, render_key(key)),
        token_stops(s, i + render_key(key).len()),
    ensures
        spec_parse_key(s, i) == Ok::<(Seq<char>, int), int>((key, i + render_key(key).len())),
{
    let form = render_key(key);
    let e = i + form.len();
    lemma_stands_index(s, i, form, 0);
    if is_identifier(key) {
        assert forall|k: int| i <= k < e implies CharClass::Ident.holds(#[trigger] s[k]) by {
            lemma_stands_index(s, i, form, k - i);
        }
        lemma_span_end_is(s, i, e, CharClass::Ident);
    } else {
        assert(form =~= seq![QUOTE] + (escape(key) + seq![QUOTE]));
        lemma_stands_part(s, i, form, 1, form.len() as int);
        assert(form.subrange(1, form.len() as int) =~= escape(key) + seq![QUOTE]);
        lemma_read_quoted(s, i + 1, Seq::empty(), key);
        assert(Seq::<char>::empty() + key =~= key);
    }
}

/// The forms of a list that is not empty start as the form of its first
/// payload does.
proof fn lemma_render_items_start(items: Seq<IdModel>)
    requires
        items.len() > 0,
        !(items[0] is Generated),
    ensures
        render_items(items).len() > 0,
        render_items(items)[0] == render_value(items[0])[0],
        starts_value(render_items(items)[0]),
{
    lemma_render_value_start(items[0]);
}

/// The forms of a list of pairs that is not empty start with a quote or
/// with the first character of an identifier.
proof fn lemma_render_entries_start(entries: Seq<(Seq<char>, IdModel)>)
    requires
        entries.len() > 0,
        entries[0].0.len() > 0,
    ensures
        render_entries(entries).len() > 0,
        render_entries(entries)[0] == QUOTE || is_ident_start(render_entries(entries)[0]),
{
    let key = entries[0].0;
    assert(render_key(key).len() > 0);
    assert(render_key(key)[0] == QUOTE || is_ident_start(render_key(key)[0]));
    assert(render_entry(entries[0])[0] == render_key(key)[0]);
}

/// No space stands at `i`, so the spaces from `i` on end at `i`.
proof fn lemma_no_space(s: Seq<char>, i: int)
    requires
        0 <= i <= s.len(),
        i < s.len() ==> s[i] != ' ',
    ensures
        skip_spaces(s, i) == i,
{
}

/// The payload that was written is the payload that is read: where the
/// canonical form of `v` stands at `i` and a bare token could not go on
/// after it, the reader hands back `v` and the position after the form.
pub proof fn lemma_read_value(s: Seq<char>, i: int, v: IdModel)
    requires
        v.well_formed(),
        !(v is Generated),
        stands_at(s, i, render_value(v)),
        token_stops(s, i + render_value(v).len()),
    ensures
        spec_parse_value(s, i) == Ok::<(IdModel, int), int>((v, i + render_value(v).len())),
    decreases v,
{
    let form = render_value(v);
    let e = i + form.len();
    lemma_render_value_start(v);
    lemma_stands_index(s, i, form, 0);
    match v {
        IdModel::Number(n) => {
            lemma_read_number(s, i, n);
        },
        IdModel::Text(t) => {
            lemma_read_text(s, i, t);
        },
        IdModel::Sequence(items) => {
            let inner = render_items(items);
            assert(form =~= seq!['['] + (inner + seq![']']));
            lemma_stands_part(s, i, form, 1, form.len() as int);
            assert(form.subrange(1, form.len() as int) =~= inner + seq![']']);
            if items.len() == 0 {
                lemma_stands_index(s, i, form, 1);
                lemma_no_space(s, i + 1);
                assert(items =~= Seq::<IdModel>::empty());
            } else {
                lemma_render_items_start(items);
                lemma_stands_index(s, i, form, 1);
                assert(form[1] == inner[0]);
                lemma_no_space(s, i + 1);
                lemma_read_items(s, i + 1, Seq::empty(), items);
                assert(Seq::<IdModel>::empty() + items =~= items);
            }
        },
        IdModel::Keyed(entries) => {
            let inner = render_entries(entries);
            assert(form =~= seq!['{'] + (inner + seq!['}']));
            lemma_stands_part(s, i, form, 1, form.len() as int);
            assert(form.subrange(1, form.len() as int) =~= inner + seq!['}']);
            if entries.len() == 0 {
                lemma_stands_index(s, i, form, 1);
                lemma_no_space(s, i + 1);
                assert(entries =~= Seq::<(Seq<char>, IdModel)>::empty());
            } else {
                lemma_render_entries_start(entries);
                lemma_stands_index(s, i, form, 1);
                assert(form[1] == inner[0]);
                lemma_no_space(s, i + 1);
                assert(Seq::<(Seq<char>, IdModel)>::empty() + entries =~= entries);
                lemma_read_entries(s, i + 1, Seq::empty(), entries);
            }
        },
        IdModel::Generated(_) => {},
    }
}

/// The same of the rest of a sequence: where the forms of `rest` and the
/// closing bracket stand at `i`, the reader adds `rest` to what it holds.
proof fn lemma_read_items(s: Seq<char>, i: int, acc: Seq<IdModel>, rest: Seq<IdModel>)
    requires
        rest.len() > 0,
        IdModel::Sequence(rest).well_formed(),
        stands_at(s, i, render_items(rest) + seq![']']),
    ensures
        spec_parse_items(s, i, acc) == Ok::<(IdModel, int), int>(
            (IdModel::Sequence(acc + rest), i + render_items(rest).len() + 1),
        ),
    decreases rest,
{
    let form = render_items(rest) + seq![']'];
    let first = rest[0];
    let head = render_value(first);
    let hl = head.len() as int;
    let after = i + hl;
    lemma_render_value_start(first);
    assert(rest[0].well_formed() && !(rest[0] is Generated));
    if rest.len() == 1 {
        assert(form =~= head + seq![']']);
        lemma_stands_part(s, i, form, 0, hl);
        assert(form.subrange(0, hl) =~= head);
        lemma_stands_index(s, i, form, hl);
        lemma_read_value(s, i, first);
        lemma_no_space(s, after);
        assert(acc.push(first) =~= acc + rest);
    } else {
        let tail = rest.skip(1);
        let more = render_items(tail) + seq![']'];
        assert(form =~= head + separator() + more);
        lemma_stands_part(s, i, form, 0, hl);
        assert(form.subrange(0, hl) =~= head);
        lemma_stands_index(s, i, form, hl);
        lemma_stands_index(s, i, form, hl + 1);
        lemma_stands_index(s, i, form, hl + 2);
        lemma_read_value(s, i, first);
        lemma_no_space(s, after);
        assert forall|k: int| 0 <= k < tail.len() implies !(#[trigger] tail[k] is Generated)
            && tail[k].well_formed() by {
            assert(tail[k] == rest[k + 1]);
        }
        lemma_render_items_start(tail);
        assert(form[hl + 2] == render_items(tail)[0]);
        assert(skip_spaces(s, after + 1) == after + 2) by {
            lemma_no_space(s, after + 2);
        }
        lemma_stands_part(s, i, form, hl + 2, form.len() as int);
        assert(form.subrange(hl + 2, form.len() as int) =~= more);
        lemma_read_items(s, after + 2, acc.push(first), tail);
        assert(acc.push(first) + tail =~= acc + rest);
    }
}

/// The same of the rest of a map: where the forms of `rest` and the closing
/// brace stand at `i`, and no key of `rest` is among those read so far, the
/// reader adds `rest` to what it holds.
proof fn lemma_read_entries(
    s: Seq<char>,
    i: int,
    acc: Seq<(Seq<char>, IdModel)>,
    rest: Seq<(Seq<char>, IdModel)>,
)
    requires
        rest.len() > 0,
        IdModel::Keyed(acc + rest).well_formed(),
        stands_at(s, i, render_entries(rest) + seq!['}']),
    ensures
        spec_parse_entries(s, i, acc) == Ok::<(IdModel, int), int>(
            (IdModel::Keyed(acc + rest), i + render_entries(rest).len() + 1),
        ),
    decreases rest,
{
    let all = acc + rest;
    let form = render_entries(rest) + seq!['}'];
    let first = rest[0];
    let key = first.0;
    let value = first.1;
    let key_form = render_key(key);
    let value_form = render_value(value);
    let head = render_entry(first);
    let kl = key_form.len() as int;
    let vl = value_form.len() as int;
    let colon = i + kl;
    let start = colon + 2;
    let after = start + vl;
    assert(all[acc.len() as int] == first);
    assert(key.len() > 0 && !(value is Generated) && value.well_formed());
    assert(!has_key(acc, key)) by {
        if has_key(acc, key) {
            let k = choose|k: int| 0 <= k < acc.len() && (#[trigger] acc[k]).0 == key;
            assert(all[k] == acc[k]);
        }
    }
    lemma_render_value_start(value);
    assert(head =~= key_form + key_separator() + value_form);
    let more = if rest.len() == 1 {
        seq!['}']
    } else {
        separator() + (render_entries(rest.skip(1)) + seq!['}'])
    };
    assert(form =~= key_form + key_separator() + value_form + more);
    lemma_stands_part(s, i, form, 0, kl);
    assert(form.subrange(0, kl) =~= key_form);
    lemma_stands_index(s, i, form, kl);
    lemma_stands_index(s, i, form, kl + 1);
    lemma_stands_index(s, i, form, kl + 2);
    lemma_read_key(s, i, key);
    lemma_no_space(s, colon);
    assert(form[kl + 2] == value_form[0]);
    assert(skip_spaces(s, colon + 1) == start) by {
        lemma_no_space(s, start);
    }
    lemma_stands_part(s, i, form, kl + 2, kl + vl + 2);
    assert(form.subrange(kl + 2, kl + vl + 2)
        =~= value_form);
    lemma_stands_index(s, i, form, kl + vl + 2);
    lemma_read_value(s, start, value);
    lemma_no_space(s, after);
    if rest.len() == 1 {
        assert(acc.push(first) =~= all);
    } else {
        let tail = rest.skip(1);
        assert(acc.push(first) + tail =~= all);
        assert(tail[0] == rest[1]);
        assert(all[acc.len() as int + 1] == rest[1]);
        lemma_render_entries_start(tail);
        lemma_stands_index(s, i, form, kl + vl + 3);
        lemma_stands_index(s, i, form, kl + vl + 4);
        assert(form[kl + vl + 4] == render_entries(tail)[0]);
        assert(skip_spaces(s, after + 1) == after + 2) by {
            lemma_no_space(s, after + 2);
        }
        lemma_stands_part(s, i, form, kl + vl + 4, form.len() as int);
        assert(form.subrange(kl + vl + 4, form.len() as int)
            =~= render_entries(tail) + seq!['}']);
        lemma_read_entries(s, after + 2, acc.push(first), tail);
    }
}

/// Reading the canonical string of a well-formed identifier whose payload
/// is no generator gives that identifier back.
pub proof fn theorem_round_trip(r: RecordModel)
    requires
        r.well_formed(),
        !(r.id is Generated),
    ensures
        spec_parse_record(r.canonical()) == Ok::<RecordModel, ErrorModel>(r),
{
    let s = r.canonical();
    let cut = r.table.len() as int;
    let form = render_value(r.id);
    assert(s =~= r.table + (seq![DELIMITER] + form));
    assert forall|k: int| 0 <= k < cut implies CharClass::TableName.holds(#[trigger] s[k]) by {
        assert(s[k] == r.table[k]);
        assert(is_ident_char(r.table[k]));
    }
    assert(s[cut] == DELIMITER);
    lemma_span_end_is(s, 0, cut, CharClass::TableName);
    assert(s.subrange(0, cut) =~= r.table);
    lemma_table_end(s);
    assert(s.subrange(cut + 1, cut + 1 + form.len()) =~= form);
    lemma_read_value(s, cut + 1, r.id);
}

/// Two well-formed identifiers with the same canonical string are the same
/// identifier.
pub proof fn theorem_canonical_injective(a: RecordModel, b: RecordModel)
    requires
        a.well_formed(),
        b.well_formed(),
        !(a.id is Generated),
        !(b.id is Generated),
        a.canonical() == b.canonical(),
    ensures
        a == b,
{
    theorem_round_trip(a);
    theorem_round_trip(b);
}

/// Whatever is read has a canonical string, and that string is read as the
/// same identifier.
pub proof fn theorem_reading_is_stable(s: Seq<char>)
    requires
        spec_parse_record(s) is Ok,
    ensures
        spec_parse_record(spec_parse_record(s)->Ok_0.canonical()) == spec_parse_record(s),
{
    lemma_parse_record_sound(s);
    theorem_round_trip(spec_parse_record(s)->Ok_0);
}

/// Two well-formed payloads with the same canonical form are the same
/// payload. So a text never reads as a number nor a number as a text,
/// whatever the text holds.
pub proof fn theorem_render_injective(a: IdModel, b: IdModel)
    requires
        a.well_formed(),
        b.well_formed(),
        !(a is Generated),
        !(b is Generated),
        render_value(a) == render_value(b),
    ensures
        a == b,
{
    let s = render_value(a);
    assert(s.subrange(0, s.len() as int) =~= s);
    lemma_read_value(s, 0, a);
    lemma_read_value(s, 0, b);
}

} // verus!
