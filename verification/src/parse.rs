//! Reading a payload back from its textual form.
//!
//! The reader goes through the text from left to right. A position is an
//! index into the characters of the whole input, and a failure is the
//! position at which the reader could not go on.

use crate::decimal::{digits_value, read_magnitude, MAX_MAGNITUDE};
use crate::lexical::{
    is_digit, is_ident_start, lemma_span_end, lemma_span_end_lower, span, span_end, CharClass,
    BACKSLASH, BRACKET_OPEN, QUOTE,
};
use crate::value::{entry_models, has_key, item_models, IdModel, IdValue};
use vstd::prelude::*;

verus! {

/// What a reader hands back: the thing read and the position after it, or
/// the position of the failure.
pub type Reading<T> = Result<(T, int), int>;

/// The character that an escape stands for, by the character after the
/// backslash: a quote or a backslash for itself, `n`, `r` and `t` for line
/// feed, carriage return and tab. No other escape is known.
pub open spec fn unescape(c: char) -> Option<char> {
    if c == QUOTE || c == BACKSLASH {
        Some(c)
    } else if c == 'n' {
        Some('\n')
    } else if c == 'r' {
        Some('\r')
    } else if c == 't' {
        Some('\t')
    } else {
        None
    }
}

/// Where the spaces that start at `i` end.
pub open spec fn skip_spaces(s: Seq<char>, i: int) -> int {
    span_end(s, i, CharClass::Space)
}

/// Reads the inside of an ordinary quoted text from `i`, the position after
/// the opening quote or later, where `acc` has been read so far. The text
/// ends at the first quote that no backslash escapes.
pub open spec fn spec_parse_quoted(s: Seq<char>, i: int, acc: Seq<char>) -> Reading<Seq<char>>
    decreases s.len() - i,
{
    if i >= s.len() {
        Err(i)
    } else if s[i] == QUOTE {
        Ok((acc, i + 1))
    } else if s[i] == BACKSLASH {
        if i + 1 >= s.len() {
            Err(i + 1)
        } else {
            match unescape(s[i + 1]) {
                Some(c) => spec_parse_quoted(s, i + 2, acc.push(c)),
                None => Err(i),
            }
        }
    } else {
        spec_parse_quoted(s, i + 1, acc.push(s[i]))
    }
}

/// Reads a number at `i`, where a `-` or a digit stands: an optional `-`
/// and the longest run of digits. It fails after the `-` where no digit
/// follows, and at `i` where the number is no 64-bit signed integer.
pub open spec fn spec_parse_number(s: Seq<char>, i: int) -> Reading<IdModel> {
    let negative = s[i] == '-';
    let from = if negative {
        i + 1
    } else {
        i
    };
    let to = span_end(s, from, CharClass::Digit);
    let magnitude = digits_value(s.subrange(from, to)) as int;
    let n = if negative {
        -magnitude
    } else {
        magnitude
    };
    if to == from {
        Err(from)
    } else if i64::MIN <= n <= i64::MAX {
        Ok((IdModel::Number(n), to))
    } else {
        Err(i)
    }
}

/// Reads a bracket-quoted text at `i`, where the opening bracket-quote
/// stands: all up to the next closing bracket-quote, whatever it holds.
pub open spec fn spec_parse_bracketed(s: Seq<char>, i: int) -> Reading<IdModel> {
    let to = span_end(s, i + 1, CharClass::BracketBody);
    if to >= s.len() {
        Err(to)
    } else {
        Ok((IdModel::Text(s.subrange(i + 1, to)), to + 1))
    }
}

/// Reads a bare identifier at `i`: the longest run of letters, digits and
/// underscores.
pub open spec fn spec_parse_bare(s: Seq<char>, i: int) -> Reading<Seq<char>> {
    let to = span_end(s, i, CharClass::Ident);
    Ok((s.subrange(i, to), to))
}

/// Reads a map key at `i`: a bare identifier or an ordinary quoted text.
pub open spec fn spec_parse_key(s: Seq<char>, i: int) -> Reading<Seq<char>> {
    if i >= s.len() {
        Err(i)
    } else if s[i] == QUOTE {
        spec_parse_quoted(s, i + 1, Seq::empty())
    } else if is_ident_start(s[i]) {
        spec_parse_bare(s, i)
    } else {
        Err(i)
    }
}

/// A key ends after the position where it starts, and within the text.
pub proof fn lemma_parse_quoted_bounds(s: Seq<char>, i: int, acc: Seq<char>)
    requires
        0 <= i <= s.len(),
    ensures
        match spec_parse_quoted(s, i, acc) {
            Ok((_, next)) => i < next <= s.len(),
            Err(at) => i <= at <= s.len(),
        },
    decreases s.len() - i,
{
    if i < s.len() && s[i] != QUOTE {
        if s[i] == BACKSLASH {
            if i + 1 < s.len() && unescape(s[i + 1]) is Some {
                lemma_parse_quoted_bounds(s, i + 2, acc.push(unescape(s[i + 1])->0));
            }
        } else {
            lemma_parse_quoted_bounds(s, i + 1, acc.push(s[i]));
        }
    }
}

pub proof fn lemma_parse_key_bounds(s: Seq<char>, i: int)
    requires
        0 <= i <= s.len(),
    ensures
        match spec_parse_key(s, i) {
            Ok((_, next)) => i < next <= s.len(),
            Err(at) => i <= at <= s.len(),
        },
{
    if i < s.len() {
        if s[i] == QUOTE {
            lemma_parse_quoted_bounds(s, i + 1, Seq::empty());
        } else if is_ident_start(s[i]) {
            lemma_span_end(s, i, CharClass::Ident);
        }
    }
}

/// Reads a payload at `i`, by the character that stands there:
///
/// - `-` or a digit: a number;
/// - the opening bracket-quote: a text, which stays a text even where it
///   holds nothing but digits;
/// - an ordinary quote: a text, with its escapes resolved;
/// - `[`: a sequence of payloads between commas, up to `]`;
/// - `{`: a map of `key: payload` pairs between commas, up to `}`;
/// - a letter or an underscore: a text, written bare.
///
/// Anything else, and the end of the text, is a failure at `i`. Inside a
/// sequence or a map, spaces may stand around the elements, keys, colons
/// and commas. A generator is never read.
pub open spec fn spec_parse_value(s: Seq<char>, i: int) -> Reading<IdModel>
    decreases s.len() - i, 0int,
    when 0 <= i <= s.len()
{
    if i >= s.len() {
        Err(i)
    } else if s[i] == '-' || is_digit(s[i]) {
        spec_parse_number(s, i)
    } else if s[i] == BRACKET_OPEN {
        spec_parse_bracketed(s, i)
    } else if s[i] == QUOTE {
        match spec_parse_quoted(s, i + 1, Seq::empty()) {
            Ok((text, next)) => Ok((IdModel::Text(text), next)),
            Err(at) => Err(at),
        }
    } else if s[i] == '[' {
        let first = skip_spaces(s, i + 1);
        proof {
            lemma_span_end(s, i + 1, CharClass::Space);
        }
        if first < s.len() && s[first] == ']' {
            Ok((IdModel::Sequence(Seq::empty()), first + 1))
        } else {
            spec_parse_items(s, first, Seq::empty())
        }
    } else if s[i] == '{' {
        let first = skip_spaces(s, i + 1);
        proof {
            lemma_span_end(s, i + 1, CharClass::Space);
        }
        if first < s.len() && s[first] == '}' {
            Ok((IdModel::Keyed(Seq::empty()), first + 1))
        } else {
            spec_parse_entries(s, first, Seq::empty())
        }
    } else if is_ident_start(s[i]) {
        match spec_parse_bare(s, i) {
            Ok((text, next)) => Ok((IdModel::Text(text), next)),
            Err(at) => Err(at),
        }
    } else {
        Err(i)
    }
}

/// The character at which a payload starts decides its kind: what is read
/// at a `-` or a digit is a number; at a bracket-quote, an ordinary quote,
/// a letter or an underscore, a text; at `[`, a sequence; at `{`, a map.
pub proof fn lemma_kind_by_first_character(s: Seq<char>, i: int)
    requires
        0 <= i < s.len(),
        spec_parse_value(s, i) is Ok,
    ensures
        ({
            let c = s[i];
            let v = spec_parse_value(s, i)->Ok_0.0;
            &&& v is Number <==> c == '-' || is_digit(c)
            &&& v is Text <==> c == BRACKET_OPEN || c == QUOTE || is_ident_start(c)
            &&& v is Sequence <==> c == '['
            &&& v is Keyed <==> c == '{'
            &&& !(v is Generated)
        }),
{
    lemma_parse_value_bounds(s, i);
    if s[i] == '[' {
        let first = skip_spaces(s, i + 1);
        lemma_span_end(s, i + 1, CharClass::Space);
        if !(first < s.len() && s[first] == ']') {
            lemma_parse_items_bounds(s, first, Seq::empty());
        }
    } else if s[i] == '{' {
        let first = skip_spaces(s, i + 1);
        lemma_span_end(s, i + 1, CharClass::Space);
        if !(first < s.len() && s[first] == '}') {
            lemma_parse_entries_bounds(s, first, Seq::empty());
        }
    }
}

/// Reads the rest of a sequence from `i`, where its next element starts and
/// `acc` holds the elements read so far.
///
/// The test `next <= i` makes the definition well-founded; it never
/// succeeds, since every payload takes at least one character
/// ([`lemma_parse_value_bounds`]).
pub open spec fn spec_parse_items(s: Seq<char>, i: int, acc: Seq<IdModel>) -> Reading<IdModel>
    decreases s.len() - i, 1int,
    when 0 <= i <= s.len()
{
    match spec_parse_value(s, i) {
        Err(at) => Err(at),
        Ok((item, next)) => {
            let after = skip_spaces(s, next);
            if next <= i || after >= s.len() {
                Err(after)
            } else if s[after] == ']' {
                Ok((IdModel::Sequence(acc.push(item)), after + 1))
            } else if s[after] == ',' {
                proof {
                    lemma_span_end_lower(s, next, CharClass::Space);
                    lemma_span_end(s, after + 1, CharClass::Space);
                }
                spec_parse_items(s, skip_spaces(s, after + 1), acc.push(item))
            } else {
                Err(after)
            }
        },
    }
}

/// Reads the rest of a map from `i`, where its next key starts and `acc`
/// holds the pairs read so far. An empty key, and a key that `acc` holds
/// already, is a failure at the key.
///
/// The test `next <= start` makes the definition well-founded; it never
/// succeeds ([`lemma_parse_value_bounds`]).
pub open spec fn spec_parse_entries(
    s: Seq<char>,
    i: int,
    acc: Seq<(Seq<char>, IdModel)>,
) -> Reading<IdModel>
    decreases s.len() - i, 1int,
    when 0 <= i <= s.len()
{
    match spec_parse_key(s, i) {
        Err(at) => Err(at),
        Ok((key, key_end)) => {
            let colon = skip_spaces(s, key_end);
            let start = skip_spaces(s, colon + 1);
            if key.len() == 0 || has_key(acc, key) {
                Err(i)
            } else if colon >= s.len() || s[colon] != ':' {
                Err(colon)
            } else {
                proof {
                    lemma_parse_key_bounds(s, i);
                    lemma_span_end(s, key_end, CharClass::Space);
                    lemma_span_end(s, colon + 1, CharClass::Space);
                }
                match spec_parse_value(s, start) {
                    Err(at) => Err(at),
                    Ok((value, next)) => {
                        let after = skip_spaces(s, next);
                        if next <= start || after >= s.len() {
                            Err(after)
                        } else if s[after] == '}' {
                            Ok((IdModel::Keyed(acc.push((key, value))), after + 1))
                        } else if s[after] == ',' {
                            proof {
                                lemma_span_end_lower(s, next, CharClass::Space);
                                lemma_span_end(s, after + 1, CharClass::Space);
                            }
                            spec_parse_entries(
                                s,
                                skip_spaces(s, after + 1),
                                acc.push((key, value)),
                            )
                        } else {
                            Err(after)
                        }
                    },
                }
            }
        },
    }
}

/// Whether every payload of the list is one of the data model and may
/// stand inside a sequence.
pub open spec fn items_well_formed(items: Seq<IdModel>) -> bool {
    IdModel::Sequence(items).well_formed()
}

/// Whether the pairs form a map of the data model.
pub open spec fn entries_well_formed(entries: Seq<(Seq<char>, IdModel)>) -> bool {
    IdModel::Keyed(entries).well_formed()
}

/// A payload that was read takes at least one character and ends within
/// the text; it is one of the data model, and no generator. A failure lies
/// at or after the start, and within the text or at its end.
pub proof fn lemma_parse_value_bounds(s: Seq<char>, i: int)
    requires
        0 <= i <= s.len(),
    ensures
        match spec_parse_value(s, i) {
            Ok((v, next)) => i < next <= s.len() && v.well_formed() && !(v is Generated),
            Err(at) => i <= at <= s.len(),
        },
    decreases s.len() - i, 0int,
{
    if i < s.len() {
        if s[i] == '-' || is_digit(s[i]) {
            let from = if s[i] == '-' {
                i + 1
            } else {
                i
            };
            lemma_span_end(s, from, CharClass::Digit);
        } else if s[i] == BRACKET_OPEN {
            lemma_span_end(s, i + 1, CharClass::BracketBody);
        } else if s[i] == QUOTE {
            lemma_parse_quoted_bounds(s, i + 1, Seq::empty());
        } else if s[i] == '[' {
            let first = skip_spaces(s, i + 1);
            lemma_span_end(s, i + 1, CharClass::Space);
            if !(first < s.len() && s[first] == ']') {
                lemma_parse_items_bounds(s, first, Seq::empty());
            }
        } else if s[i] == '{' {
            let first = skip_spaces(s, i + 1);
            lemma_span_end(s, i + 1, CharClass::Space);
            if !(first < s.len() && s[first] == '}') {
                lemma_parse_entries_bounds(s, first, Seq::empty());
            }
        } else if is_ident_start(s[i]) {
            lemma_span_end(s, i, CharClass::Ident);
        }
    }
}

/// The same of the rest of a sequence, where the elements read so far are
/// of the data model.
pub proof fn lemma_parse_items_bounds(s: Seq<char>, i: int, acc: Seq<IdModel>)
    requires
        0 <= i <= s.len(),
        items_well_formed(acc),
    ensures
        match spec_parse_items(s, i, acc) {
            Ok((v, next)) => i < next <= s.len() && v.well_formed() && v is Sequence,
            Err(at) => i <= at <= s.len(),
        },
    decreases s.len() - i, 1int,
{
    lemma_parse_value_bounds(s, i);
    match spec_parse_value(s, i) {
        Err(at) => {},
        Ok((item, next)) => {
            let after = skip_spaces(s, next);
            lemma_span_end(s, next, CharClass::Space);
            let items = acc.push(item);
            assert(items_well_formed(items)) by {
                assert forall|k: int| 0 <= k < items.len() implies !(#[trigger] items[k]
                    is Generated) && items[k].well_formed() by {
                    if k < acc.len() {
                        assert(items[k] == acc[k]);
                    }
                }
            }
            if after < s.len() && s[after] == ',' {
                lemma_span_end(s, after + 1, CharClass::Space);
                lemma_parse_items_bounds(s, skip_spaces(s, after + 1), items);
            }
        },
    }
}

/// The same of the rest of a map, where the pairs read so far form a map
/// of the data model.
pub proof fn lemma_parse_entries_bounds(s: Seq<char>, i: int, acc: Seq<(Seq<char>, IdModel)>)
    requires
        0 <= i <= s.len(),
        entries_well_formed(acc),
    ensures
        match spec_parse_entries(s, i, acc) {
            Ok((v, next)) => i < next <= s.len() && v.well_formed() && v is Keyed,
            Err(at) => i <= at <= s.len(),
        },
    decreases s.len() - i, 1int,
{
    lemma_parse_key_bounds(s, i);
    match spec_parse_key(s, i) {
        Err(at) => {},
        Ok((key, key_end)) => {
            let colon = skip_spaces(s, key_end);
            let start = skip_spaces(s, colon + 1);
            lemma_span_end(s, key_end, CharClass::Space);
            if !(key.len() == 0 || has_key(acc, key)) && colon < s.len() && s[colon] == ':' {
                lemma_span_end(s, colon + 1, CharClass::Space);
                lemma_parse_value_bounds(s, start);
                match spec_parse_value(s, start) {
                    Err(at) => {},
                    Ok((value, next)) => {
                        let after = skip_spaces(s, next);
                        lemma_span_end(s, next, CharClass::Space);
                        let entries = acc.push((key, value));
                        assert(entries_well_formed(entries)) by {
                            assert forall|k: int| 0 <= k < entries.len() implies (
                            #[trigger] entries[k]).0.len() > 0 && !(entries[k].1 is Generated)
                                && entries[k].1.well_formed() by {
                                if k < acc.len() {
                                    assert(entries[k] == acc[k]);
                                }
                            }
                            assert forall|k: int, l: int|
                                0 <= k < l < entries.len() implies (#[trigger] entries[k]).0 != (
                            #[trigger] entries[l]).0 by {
                                assert(entries[k] == acc[k]);
                                if l < acc.len() {
                                    assert(entries[l] == acc[l]);
                                }
                            }
                        }
                        if after < s.len() && s[after] == ',' {
                            lemma_span_end(s, after + 1, CharClass::Space);
                            lemma_parse_entries_bounds(s, skip_spaces(s, after + 1), entries);
                        }
                    },
                }
            }
        },
    }
}

/// Whether what the executable reader handed back is what the
/// specification gives.
pub open spec fn same_reading<T: View>(
    r: Result<(T, usize), usize>,
    expected: Reading<T::V>,
) -> bool {
    match r {
        Ok((value, next)) => expected == Ok::<(T::V, int), int>((value@, next as int)),
        Err(at) => expected == Err::<(T::V, int), int>(at as int),
    }
}

/// The characters `chars[from..to]` as a string.
pub(crate) fn collect(chars: &Vec<char>, from: usize, to: usize) -> (text: String)
    requires
        from <= to <= chars.len(),
    ensures
        text@ == chars@.subrange(from as int, to as int),
{
    let mut text = String::new();
    let mut i: usize = from;
    while i < to
        invariant
            from <= i <= to <= chars.len(),
            text@ == chars@.subrange(from as int, i as int),
        decreases to - i,
    {
        text.push(chars[i]);
        i += 1;
        assert(chars@.subrange(from as int, i as int) =~= chars@.subrange(from as int, i - 1).push(
            chars@[i - 1],
        ));
    }
    text
}

fn unescape_char(c: char) -> (r: Option<char>)
    ensures
        r == unescape(c),
{
    if c == QUOTE || c == BACKSLASH {
        Some(c)
    } else if c == 'n' {
        Some('\n')
    } else if c == 'r' {
        Some('\r')
    } else if c == 't' {
        Some('\t')
    } else {
        None
    }
}

/// Reads the inside of an ordinary quoted text from `start`, the position
/// after the opening quote.
fn parse_quoted(chars: &Vec<char>, start: usize) -> (r: Result<(String, usize), usize>)
    requires
        start <= chars.len(),
    ensures
        same_reading(r, spec_parse_quoted(chars@, start as int, Seq::empty())),
{
    let mut text = String::new();
    let mut i: usize = start;
    while i < chars.len()
        invariant
            start <= i <= chars.len(),
            spec_parse_quoted(chars@, i as int, text@) == spec_parse_quoted(
                chars@,
                start as int,
                Seq::empty(),
            ),
        decreases chars.len() - i,
    {
        let c: char = chars[i];
        if c == QUOTE {
            return Ok((text, i + 1));
        } else if c == BACKSLASH {
            if i + 1 >= chars.len() {
                return Err(i + 1);
            }
            match unescape_char(chars[i + 1]) {
                Some(plain) => {
                    text.push(plain);
                    i += 2;
                },
                None => {
                    return Err(i);
                },
            }
        } else {
            text.push(c);
            i += 1;
        }
    }
    Err(i)
}

/// Reads a number at `i`, where a `-` or a digit stands.
fn parse_number(chars: &Vec<char>, i: usize) -> (r: Result<(IdValue, usize), usize>)
    requires
        i < chars.len(),
        chars[i as int] == '-' || is_digit(chars[i as int]),
    ensures
        same_reading(r, spec_parse_number(chars@, i as int)),
{
    let negative: bool = chars[i] == '-';
    let from: usize = if negative {
        i + 1
    } else {
        i
    };
    let to: usize = span(chars, from, CharClass::Digit);
    if to == from {
        return Err(from);
    }
    proof {
        lemma_span_end(chars@, from as int, CharClass::Digit);
        let run = chars@.subrange(from as int, to as int);
        assert forall|k: int| 0 <= k < run.len() implies is_digit(#[trigger] run[k]) by {
            assert(run[k] == chars@[from + k]);
        }
    }
    match read_magnitude(chars, from, to) {
        None => Err(i),
        Some(magnitude) => {
            if negative {
                let n: i64 = if magnitude == MAX_MAGNITUDE {
                    i64::MIN
                } else {
                    -(magnitude as i64)
                };
                Ok((IdValue::Number(n), to))
            } else if magnitude == MAX_MAGNITUDE {
                Err(i)
            } else {
                Ok((IdValue::Number(magnitude as i64), to))
            }
        },
    }
}

/// Reads a map key at `i`.
fn parse_key(chars: &Vec<char>, i: usize) -> (r: Result<(String, usize), usize>)
    requires
        i <= chars.len(),
    ensures
        same_reading(r, spec_parse_key(chars@, i as int)),
{
    if i >= chars.len() {
        return Err(i);
    }
    let c: char = chars[i];
    if c == QUOTE {
        parse_quoted(chars, i + 1)
    } else if (c >= 'a' && c <= 'z') || (c >= 'A' && c <= 'Z') || c == '_' {
        let to: usize = span(chars, i, CharClass::Ident);
        Ok((collect(chars, i, to), to))
    } else {
        Err(i)
    }
}

/// Whether `key` is the key of one of `entries`.
fn holds_key(entries: &Vec<(String, IdValue)>, key: &String) -> (b: bool)
    ensures
        b == has_key(entry_models(entries@), key@),
{
    let ghost models = entry_models(entries@);
    let mut k: usize = 0;
    while k < entries.len()
        invariant
            k <= entries.len(),
            models == entry_models(entries@),
            forall|l: int| 0 <= l < k ==> (#[trigger] models[l]).0 != key@,
        decreases entries.len() - k,
    {
        assert(models[k as int].0 == entries@[k as int].0@);
        if entries[k].0 == *key {
            return true;
        }
        k += 1;
    }
    false
}

/// Reads a payload at position `i` of `chars`.
///
/// Hands back the payload and the position after it, or the position at
/// which reading failed, as [`spec_parse_value`] defines them.
pub(crate) fn parse_value(chars: &Vec<char>, i: usize) -> (r: Result<(IdValue, usize), usize>)
    requires
        i <= chars.len(),
    ensures
        same_reading(r, spec_parse_value(chars@, i as int)),
        match r {
            Ok((value, next)) => i < next <= chars.len() && value@.well_formed() && !(value@
                is Generated),
            Err(at) => i <= at <= chars.len(),
        },
    decreases chars.len() - i,
{
    proof {
        lemma_parse_value_bounds(chars@, i as int);
    }
    if i >= chars.len() {
        return Err(i);
    }
    let c: char = chars[i];
    if c == '-' || (c >= '0' && c <= '9') {
        parse_number(chars, i)
    } else if c == BRACKET_OPEN {
        let to: usize = span(chars, i + 1, CharClass::BracketBody);
        if to >= chars.len() {
            Err(to)
        } else {
            Ok((IdValue::Text(collect(chars, i + 1, to)), to + 1))
        }
    } else if c == QUOTE {
        match parse_quoted(chars, i + 1) {
            Ok((text, next)) => Ok((IdValue::Text(text), next)),
            Err(at) => Err(at),
        }
    } else if c == '[' {
        let first: usize = span(chars, i + 1, CharClass::Space);
        if first < chars.len() && chars[first] == ']' {
            let items: Vec<IdValue> = Vec::new();
            assert(item_models(items@) =~= Seq::empty());
            return Ok((IdValue::Sequence(items), first + 1));
        }
        let mut items: Vec<IdValue> = Vec::new();
        let mut j: usize = first;
        assert(item_models(items@) =~= Seq::empty());
        loop
            invariant
                i < j <= chars.len(),
                spec_parse_items(chars@, j as int, item_models(items@)) == spec_parse_value(
                    chars@,
                    i as int,
                ),
            decreases chars.len() - j,
        {
            proof {
                lemma_parse_value_bounds(chars@, i as int);
            }
            match parse_value(chars, j) {
                Err(at) => {
                    return Err(at);
                },
                Ok((item, next)) => {
                    let after: usize = span(chars, next, CharClass::Space);
                    proof {
                        assert(item_models(items@.push(item)) =~= item_models(items@).push(item@));
                    }
                    items.push(item);
                    if after >= chars.len() {
                        return Err(after);
                    }
                    if chars[after] == ']' {
                        return Ok((IdValue::Sequence(items), after + 1));
                    }
                    if chars[after] != ',' {
                        return Err(after);
                    }
                    j = span(chars, after + 1, CharClass::Space);
                },
            }
        }
    } else if c == '{' {
        let first: usize = span(chars, i + 1, CharClass::Space);
        if first < chars.len() && chars[first] == '}' {
            let entries: Vec<(String, IdValue)> = Vec::new();
            assert(entry_models(entries@) =~= Seq::empty());
            return Ok((IdValue::Keyed(entries), first + 1));
        }
        let mut entries: Vec<(String, IdValue)> = Vec::new();
        let mut j: usize = first;
        assert(entry_models(entries@) =~= Seq::empty());
        loop
            invariant
                i < j <= chars.len(),
                spec_parse_entries(chars@, j as int, entry_models(entries@)) == spec_parse_value(
                    chars@,
                    i as int,
                ),
            decreases chars.len() - j,
        {
            proof {
                lemma_parse_value_bounds(chars@, i as int);
                lemma_parse_key_bounds(chars@, j as int);
            }
            let (key, key_end) = match parse_key(chars, j) {
                Err(at) => {
                    return Err(at);
                },
                Ok(read) => read,
            };
            if key.as_str().is_empty() || holds_key(&entries, &key) {
                return Err(j);
            }
            let colon: usize = span(chars, key_end, CharClass::Space);
            if colon >= chars.len() || chars[colon] != ':' {
                return Err(colon);
            }
            let start: usize = span(chars, colon + 1, CharClass::Space);
            match parse_value(chars, start) {
                Err(at) => {
                    return Err(at);
                },
                Ok((value, next)) => {
                    let after: usize = span(chars, next, CharClass::Space);
                    proof {
                        assert(entry_models(entries@.push((key, value))) =~= entry_models(
                            entries@,
                        ).push((key@, value@)));
                    }
                    entries.push((key, value));
                    if after >= chars.len() {
                        return Err(after);
                    }
                    if chars[after] == '}' {
                        return Ok((IdValue::Keyed(entries), after + 1));
                    }
                    if chars[after] != ',' {
                        return Err(after);
                    }
                    j = span(chars, after + 1, CharClass::Space);
                },
            }
        }
    } else if (c >= 'a' && c <= 'z') || (c >= 'A' && c <= 'Z') || c == '_' {
        let to: usize = span(chars, i, CharClass::Ident);
        Ok((IdValue::Text(collect(chars, i, to)), to))
    } else {
        Err(i)
    }
}

} // verus!
