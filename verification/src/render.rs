//! Writing a payload in its canonical form.

use crate::decimal::{int_digits, push_decimal};
use crate::error::{CodecError, ErrorModel};
use crate::lexical::{
    check_decimal, check_identifier, chars_of, is_decimal, is_identifier, BACKSLASH,
    BRACKET_CLOSE, BRACKET_OPEN, QUOTE,
};
use crate::value::{entry_models, item_models, Generator, IdModel, IdValue};
use vstd::prelude::*;

verus! {

/// What stands between two elements of a sequence or a map.
pub open spec fn separator() -> Seq<char> {
    seq![',', ' ']
}

/// What stands between a key and its value.
pub open spec fn key_separator() -> Seq<char> {
    seq![':', ' ']
}

/// A character as it stands inside ordinary quotes: a quote or a backslash
/// gets a backslash in front.
pub open spec fn escape_char(c: char) -> Seq<char> {
    if c == QUOTE || c == BACKSLASH {
        seq![BACKSLASH, c]
    } else {
        seq![c]
    }
}

pub open spec fn escape(s: Seq<char>) -> Seq<char>
    decreases s.len(),
{
    if s.len() == 0 {
        Seq::empty()
    } else {
        escape_char(s[0]) + escape(s.skip(1))
    }
}

/// A text inside ordinary double quotes.
pub open spec fn quoted(s: Seq<char>) -> Seq<char> {
    seq![QUOTE] + escape(s) + seq![QUOTE]
}

/// A text inside the reserved bracket-quote pair.
pub open spec fn bracketed(s: Seq<char>) -> Seq<char> {
    seq![BRACKET_OPEN] + s + seq![BRACKET_CLOSE]
}

/// The canonical form of a text: bracket-quoted where it reads as a decimal
/// integer, bare where it is an identifier, and in ordinary quotes
/// otherwise.
pub open spec fn render_text(s: Seq<char>) -> Seq<char> {
    if is_decimal(s) {
        bracketed(s)
    } else if is_identifier(s) {
        s
    } else {
        quoted(s)
    }
}

/// The canonical form of a map key: bare where it is an identifier, in
/// ordinary quotes otherwise.
pub open spec fn render_key(k: Seq<char>) -> Seq<char> {
    if is_identifier(k) {
        k
    } else {
        quoted(k)
    }
}

/// The token by which the engine knows a generator.
pub open spec fn generator_token(g: Generator) -> Seq<char> {
    match g {
        Generator::Random => seq!['r', 'a', 'n', 'd', '(', ')'],
        Generator::Uuid => seq!['u', 'u', 'i', 'd', '(', ')'],
        Generator::Ulid => seq!['u', 'l', 'i', 'd', '(', ')'],
    }
}

/// The canonical form of a payload.
pub open spec fn render_value(v: IdModel) -> Seq<char>
    decreases v,
{
    match v {
        IdModel::Number(n) => int_digits(n),
        IdModel::Text(s) => render_text(s),
        IdModel::Sequence(items) => seq!['['] + render_items(items) + seq![']'],
        IdModel::Keyed(entries) => seq!['{'] + render_entries(entries) + seq!['}'],
        IdModel::Generated(g) => generator_token(g),
    }
}

/// The canonical forms of the payloads, in order, with a separator between
/// each two.
pub open spec fn render_items(items: Seq<IdModel>) -> Seq<char>
    decreases items,
{
    if items.len() == 0 {
        Seq::empty()
    } else if items.len() == 1 {
        render_value(items[0])
    } else {
        render_value(items[0]) + separator() + render_items(items.skip(1))
    }
}

/// The canonical form of one key and its payload.
pub open spec fn render_entry(entry: (Seq<char>, IdModel)) -> Seq<char>
    decreases entry,
{
    render_key(entry.0) + key_separator() + render_value(entry.1)
}

/// The canonical forms of the pairs, in order, with a separator between each
/// two.
pub open spec fn render_entries(entries: Seq<(Seq<char>, IdModel)>) -> Seq<char>
    decreases entries,
{
    if entries.len() == 0 {
        Seq::empty()
    } else if entries.len() == 1 {
        render_entry(entries[0])
    } else {
        render_entry(entries[0]) + separator() + render_entries(entries.skip(1))
    }
}

/// Writing one more payload after a list appends a separator, unless the
/// list was empty, and the payload's form.
pub proof fn lemma_render_items_push(items: Seq<IdModel>, last: IdModel)
    ensures
        render_items(items.push(last)) == if items.len() == 0 {
            render_value(last)
        } else {
            render_items(items) + separator() + render_value(last)
        },
    decreases items.len(),
{
    let all = items.push(last);
    if items.len() == 0 {
        assert(all[0] == last);
    } else {
        assert(all.skip(1) =~= items.skip(1).push(last));
        assert(all[0] == items[0]);
        lemma_render_items_push(items.skip(1), last);
        assert(render_items(all) =~= render_items(items) + separator() + render_value(last));
    }
}

/// Writing one more pair after a list appends a separator, unless the list
/// was empty, and the pair's form.
pub proof fn lemma_render_entries_push(
    entries: Seq<(Seq<char>, IdModel)>,
    last: (Seq<char>, IdModel),
)
    ensures
        render_entries(entries.push(last)) == if entries.len() == 0 {
            render_entry(last)
        } else {
            render_entries(entries) + separator() + render_entry(last)
        },
    decreases entries.len(),
{
    let all = entries.push(last);
    if entries.len() == 0 {
        assert(all[0] == last);
    } else {
        assert(all.skip(1) =~= entries.skip(1).push(last));
        assert(all[0] == entries[0]);
        lemma_render_entries_push(entries.skip(1), last);
        assert(render_entries(all) =~= render_entries(entries) + separator() + render_entry(last));
    }
}

/// Escaping one more character after a text appends that character's
/// escaped form.
pub proof fn lemma_escape_push(s: Seq<char>, c: char)
    ensures
        escape(s.push(c)) == escape(s) + escape_char(c),
    decreases s.len(),
{
    let all = s.push(c);
    if s.len() == 0 {
        assert(escape(all.skip(1)) =~= Seq::<char>::empty());
        assert(escape(all) =~= escape(s) + escape_char(c));
    } else {
        assert(all.skip(1) =~= s.skip(1).push(c));
        lemma_escape_push(s.skip(1), c);
        assert(escape(all) =~= escape(s) + escape_char(c));
    }
}

fn push_all(out: &mut String, chars: &Vec<char>)
    ensures
        final(out)@ == old(out)@ + chars@,
{
    let mut i: usize = 0;
    while i < chars.len()
        invariant
            i <= chars.len(),
            out@ == old(out)@ + chars@.take(i as int),
        decreases chars.len() - i,
    {
        out.push(chars[i]);
        i += 1;
        assert(chars@.take(i as int) =~= chars@.take(i - 1).push(chars@[i - 1]));
    }
    assert(chars@.take(chars.len() as int) =~= chars@);
}

fn push_quoted(out: &mut String, chars: &Vec<char>)
    ensures
        final(out)@ == old(out)@ + quoted(chars@),
{
    out.push(QUOTE);
    let mut i: usize = 0;
    while i < chars.len()
        invariant
            i <= chars.len(),
            out@ == old(out)@ + seq![QUOTE] + escape(chars@.take(i as int)),
        decreases chars.len() - i,
    {
        let c: char = chars[i];
        proof {
            lemma_escape_push(chars@.take(i as int), c);
            assert(chars@.take(i + 1) =~= chars@.take(i as int).push(c));
        }
        if c == QUOTE || c == BACKSLASH {
            out.push(BACKSLASH);
        }
        out.push(c);
        i += 1;
    }
    out.push(QUOTE);
    assert(chars@.take(chars.len() as int) =~= chars@);
}

/// Appends the canonical form of a text to `out`.
pub(crate) fn push_text(out: &mut String, text: &str)
    ensures
        final(out)@ == old(out)@ + render_text(text@),
{
    let chars = chars_of(text);
    if check_decimal(&chars) {
        out.push(BRACKET_OPEN);
        push_all(out, &chars);
        out.push(BRACKET_CLOSE);
    } else if check_identifier(&chars) {
        push_all(out, &chars);
    } else {
        push_quoted(out, &chars);
    }
}

/// Appends the canonical form of a map key to `out`.
pub(crate) fn push_key(out: &mut String, key: &str)
    ensures
        final(out)@ == old(out)@ + render_key(key@),
{
    let chars = chars_of(key);
    if check_identifier(&chars) {
        push_all(out, &chars);
    } else {
        push_quoted(out, &chars);
    }
}

fn push_generator(out: &mut String, g: Generator)
    ensures
        final(out)@ == old(out)@ + generator_token(g),
{
    match g {
        Generator::Random => {
            out.push('r');
            out.push('a');
            out.push('n');
            out.push('d');
        },
        Generator::Uuid => {
            out.push('u');
            out.push('u');
            out.push('i');
            out.push('d');
        },
        Generator::Ulid => {
            out.push('u');
            out.push('l');
            out.push('i');
            out.push('d');
        },
    }
    out.push('(');
    out.push(')');
}

impl IdValue {
    /// Appends the canonical form of the payload to `out`, or reports that
    /// it has none; `out` is then left with a part of it.
    pub(crate) fn render_into(&self, out: &mut String) -> (ok: bool)
        ensures
            ok == self@.renderable(),
            ok ==> final(out)@ == old(out)@ + render_value(self@),
        decreases self,
    {
        match self {
            IdValue::Number(n) => {
                push_decimal(out, *n);
                true
            },
            IdValue::Text(s) => {
                push_text(out, s.as_str());
                true
            },
            IdValue::Generated(g) => {
                push_generator(out, *g);
                true
            },
            IdValue::Sequence(items) => {
                let ghost models = item_models(items@);
                out.push('[');
                let ghost base = out@;
                let mut i: usize = 0;
                while i < items.len()
                    invariant
                        i <= items.len(),
                        models == item_models(items@),
                        self is Sequence && self->Sequence_0 == *items,
                        forall|k: int|
                            0 <= k < i ==> !(#[trigger] models[k] is Generated)
                                && models[k].renderable(),
                        out@ == base + render_items(models.take(i as int)),
                    decreases items.len() - i,
                {
                    let item = &items[i];
                    assert(models[i as int] == item@);
                    assert(decreases_to!(self => self->Sequence_0));
                    if item.is_generated() {
                        return false;
                    }
                    if i > 0 {
                        out.push(',');
                        out.push(' ');
                    }
                    if !item.render_into(out) {
                        return false;
                    }
                    proof {
                        lemma_render_items_push(models.take(i as int), models[i as int]);
                        assert(models.take(i + 1) =~= models.take(i as int).push(models[i as int]));
                    }
                    i += 1;
                }
                out.push(']');
                assert(models.take(items.len() as int) =~= models);
                true
            },
            IdValue::Keyed(entries) => {
                let ghost models = entry_models(entries@);
                out.push('{');
                let ghost base = out@;
                let mut i: usize = 0;
                while i < entries.len()
                    invariant
                        i <= entries.len(),
                        models == entry_models(entries@),
                        self is Keyed && self->Keyed_0 == *entries,
                        forall|k: int|
                            0 <= k < i ==> (#[trigger] models[k]).0.len() > 0 && !(models[k].1
                                is Generated) && models[k].1.renderable(),
                        out@ == base + render_entries(models.take(i as int)),
                    decreases entries.len() - i,
                {
                    let entry = &entries[i];
                    assert(models[i as int] == (entry.0@, entry.1@));
                    assert(decreases_to!(self => self->Keyed_0));
                    if entry.0.as_str().is_empty() || entry.1.is_generated() {
                        return false;
                    }
                    if i > 0 {
                        out.push(',');
                        out.push(' ');
                    }
                    push_key(out, entry.0.as_str());
                    out.push(':');
                    out.push(' ');
                    if !entry.1.render_into(out) {
                        return false;
                    }
                    proof {
                        lemma_render_entries_push(models.take(i as int), models[i as int]);
                        assert(models.take(i + 1) =~= models.take(i as int).push(models[i as int]));
                    }
                    i += 1;
                }
                out.push('}');
                assert(models.take(entries.len() as int) =~= models);
                true
            },
        }
    }

    /// Writes the payload in its canonical form.
    ///
    /// Fails with [`CodecError::MalformedValue`] exactly when the payload
    /// has none: a map key is empty, or a generator stands inside a
    /// sequence or a map.
    pub fn render(&self) -> (r: Result<String, CodecError>)
        ensures
            match r {
                Ok(s) => self@.renderable() && s@ == render_value(self@),
                Err(e) => !self@.renderable() && e@ == ErrorModel::MalformedValue,
            },
    {
        let mut out = String::new();
        if self.render_into(&mut out) {
            Ok(out)
        } else {
            Err(CodecError::MalformedValue)
        }
    }
}

} // verus!
