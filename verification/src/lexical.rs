//! Characters and token shapes of the canonical form.

use vstd::prelude::*;

verus! {

/// Separates the table name from the id payload.
pub const DELIMITER: char = ':';

/// Opens a bracket-quoted text (U+27E8); not the ASCII less-than sign.
pub const BRACKET_OPEN: char = '\u{27E8}';

/// Closes a bracket-quoted text (U+27E9); not the ASCII greater-than sign.
pub const BRACKET_CLOSE: char = '\u{27E9}';

/// Opens and closes an ordinary quoted text.
pub const QUOTE: char = '"';

/// Introduces an escape inside an ordinary quoted text.
pub const BACKSLASH: char = '\\';

/// An ASCII digit.
pub open spec fn is_digit(c: char) -> bool {
    '0' <= c && c <= '9'
}

/// An ASCII letter or an underscore.
pub open spec fn is_ident_start(c: char) -> bool {
    ||| 'a' <= c && c <= 'z'
    ||| 'A' <= c && c <= 'Z'
    ||| c == '_'
}

/// An ASCII letter, an underscore or an ASCII digit.
pub open spec fn is_ident_char(c: char) -> bool {
    is_ident_start(c) || is_digit(c)
}

/// An identifier-safe token: a letter or underscore, then letters, digits
/// and underscores.
pub open spec fn is_identifier(s: Seq<char>) -> bool {
    &&& s.len() > 0
    &&& is_ident_start(s[0])
    &&& forall|i: int| 0 <= i < s.len() ==> is_ident_char(#[trigger] s[i])
}

/// An identifier-safe token holds neither the table delimiter nor a quote
/// of any kind, nor a bracket, a brace or a space.
pub proof fn lemma_identifier_is_plain(s: Seq<char>)
    requires
        is_identifier(s),
    ensures
        forall|i: int|
            0 <= i < s.len() ==> {
                let c = #[trigger] s[i];
                &&& c != DELIMITER
                &&& c != BRACKET_OPEN
                &&& c != BRACKET_CLOSE
                &&& c != QUOTE
                &&& c != BACKSLASH
                &&& c != '['
                &&& c != ']'
                &&& c != '{'
                &&& c != '}'
                &&& c != ' '
            },
{
    assert forall|i: int| 0 <= i < s.len() implies {
        let c = #[trigger] s[i];
        &&& c != DELIMITER
        &&& c != BRACKET_OPEN
        &&& c != BRACKET_CLOSE
        &&& c != QUOTE
        &&& c != BACKSLASH
        &&& c != '['
        &&& c != ']'
        &&& c != '{'
        &&& c != '}'
        &&& c != ' '
    } by {
        assert(is_ident_char(s[i]));
    }
}

/// Whether every character is an ASCII digit.
pub open spec fn all_digits(s: Seq<char>) -> bool {
    forall|i: int| 0 <= i < s.len() ==> is_digit(#[trigger] s[i])
}

/// The decimal-integer pattern: an optional leading `-`, then one or more
/// ASCII digits, and nothing else.
pub open spec fn is_decimal(s: Seq<char>) -> bool {
    if s.len() > 0 && s[0] == '-' {
        s.len() > 1 && all_digits(s.skip(1))
    } else {
        s.len() > 0 && all_digits(s)
    }
}

/// The classes of characters that the reader consumes in runs.
#[derive(Clone, Copy, Debug, PartialEq, Eq, Structural)]
pub enum CharClass {
    /// ASCII digits.
    Digit,
    /// Letters, digits and underscores.
    Ident,
    /// The space character.
    Space,
    /// Anything but the closing bracket-quote.
    BracketBody,
    /// Anything but the table delimiter.
    TableName,
}

impl CharClass {
    /// Whether `c` is of the class.
    pub open spec fn holds(self, c: char) -> bool {
        match self {
            CharClass::Digit => is_digit(c),
            CharClass::Ident => is_ident_char(c),
            CharClass::Space => c == ' ',
            CharClass::BracketBody => c != BRACKET_CLOSE,
            CharClass::TableName => c != DELIMITER,
        }
    }

    pub(crate) fn test(self, c: char) -> (b: bool)
        ensures
            b == self.holds(c),
    {
        match self {
            CharClass::Digit => c >= '0' && c <= '9',
            CharClass::Ident => (c >= 'a' && c <= 'z') || (c >= 'A' && c <= 'Z') || c == '_' || (c
                >= '0' && c <= '9'),
            CharClass::Space => c == ' ',
            CharClass::BracketBody => c != BRACKET_CLOSE,
            CharClass::TableName => c != DELIMITER,
        }
    }
}

/// Where the run of `class` characters that starts at `i` ends: the first
/// index from `i` on that holds a character outside the class, or the
/// length of `s`.
pub open spec fn span_end(s: Seq<char>, i: int, class: CharClass) -> int
    decreases s.len() - i,
{
    if 0 <= i < s.len() && class.holds(s[i]) {
        span_end(s, i + 1, class)
    } else {
        i
    }
}

/// A run ends within the text; all of it is of the class, and what stands
/// at its end is not.
pub proof fn lemma_span_end(s: Seq<char>, i: int, class: CharClass)
    requires
        0 <= i <= s.len(),
    ensures
        i <= span_end(s, i, class) <= s.len(),
        forall|k: int| i <= k < span_end(s, i, class) ==> class.holds(#[trigger] s[k]),
        span_end(s, i, class) < s.len() ==> !class.holds(s[span_end(s, i, class)]),
    decreases s.len() - i,
{
    if i < s.len() && class.holds(s[i]) {
        lemma_span_end(s, i + 1, class);
    }
}

/// A run never ends before the position where it starts.
pub proof fn lemma_span_end_lower(s: Seq<char>, i: int, class: CharClass)
    ensures
        i <= span_end(s, i, class),
    decreases s.len() - i,
{
    if 0 <= i < s.len() && class.holds(s[i]) {
        lemma_span_end_lower(s, i + 1, class);
    }
}

/// A run that is known to hold up to `e` and to stop there ends at `e`.
pub proof fn lemma_span_end_is(s: Seq<char>, i: int, e: int, class: CharClass)
    requires
        0 <= i <= e <= s.len(),
        forall|k: int| i <= k < e ==> class.holds(#[trigger] s[k]),
        e < s.len() ==> !class.holds(s[e]),
    ensures
        span_end(s, i, class) == e,
    decreases e - i,
{
    if i < e {
        lemma_span_end_is(s, i + 1, e, class);
    }
}

/// `String::push` of the standard library appends the given character to
/// the end of the string, as its documentation says. This is taken on
/// trust; all that is written to a string here is written through it.
pub assume_specification[ String::push ](s: &mut String, ch: char)
    ensures
        final(s)@ == old(s)@.push(ch),
;

/// The characters of a string, in order.
pub(crate) fn chars_of(s: &str) -> (v: Vec<char>)
    ensures
        v@ == s@,
{
    let mut v: Vec<char> = Vec::new();
    for c in it: s.chars()
        invariant
            v@ == it.seq().take(it.index() as int),
            it.seq() == s@,
    {
        v.push(c);
    }
    v
}

/// Scans the run of `class` characters that starts at `start`.
pub(crate) fn span(chars: &Vec<char>, start: usize, class: CharClass) -> (end: usize)
    requires
        start <= chars.len(),
    ensures
        end as int == span_end(chars@, start as int, class),
        start <= end <= chars.len(),
{
    let mut j: usize = start;
    while j < chars.len() && class.test(chars[j])
        invariant
            start <= j <= chars.len(),
            span_end(chars@, start as int, class) == span_end(chars@, j as int, class),
        decreases chars.len() - j,
    {
        j += 1;
    }
    j
}

/// Whether the characters `chars[from..to]` form an identifier-safe token.
pub(crate) fn check_identifier_in(chars: &Vec<char>, from: usize, to: usize) -> (b: bool)
    requires
        from <= to <= chars.len(),
    ensures
        b == is_identifier(chars@.subrange(from as int, to as int)),
{
    if from == to {
        return false;
    }
    let ghost token = chars@.subrange(from as int, to as int);
    let c: char = chars[from];
    assert(c == token[0]);
    if !((c >= 'a' && c <= 'z') || (c >= 'A' && c <= 'Z') || c == '_') {
        return false;
    }
    let end: usize = span(chars, from, CharClass::Ident);
    proof {
        lemma_span_end(chars@, from as int, CharClass::Ident);
        if end >= to {
            assert forall|i: int| 0 <= i < token.len() implies is_ident_char(
                #[trigger] token[i],
            ) by {
                assert(token[i] == chars@[from + i]);
            }
        } else {
            assert(token[end - from] == chars@[end as int]);
        }
    }
    end >= to
}

/// Whether the characters form an identifier-safe token.
pub(crate) fn check_identifier(chars: &Vec<char>) -> (b: bool)
    ensures
        b == is_identifier(chars@),
{
    assert(chars@.subrange(0, chars.len() as int) =~= chars@);
    check_identifier_in(chars, 0, chars.len())
}

/// Whether the characters match the decimal-integer pattern.
pub(crate) fn check_decimal(chars: &Vec<char>) -> (b: bool)
    ensures
        b == is_decimal(chars@),
{
    if chars.len() == 0 {
        return false;
    }
    let first: usize = if chars[0] == '-' {
        1
    } else {
        0
    };
    if first == chars.len() {
        return false;
    }
    let end: usize = span(chars, first, CharClass::Digit);
    proof {
        lemma_span_end(chars@, first as int, CharClass::Digit);
        let body = chars@.skip(first as int);
        if end == chars.len() {
            assert forall|i: int| 0 <= i < body.len() implies is_digit(#[trigger] body[i]) by {
                assert(body[i] == chars@[i + first]);
            }
        } else {
            assert(body[end - first] == chars@[end as int]);
        }
        assert(first == 0 ==> body == chars@);
    }
    end == chars.len()
}

/// Whether a string is identifier-safe: usable as a table name or a bare
/// key without quoting.
pub fn is_identifier_safe(s: &str) -> (b: bool)
    ensures
        b == is_identifier(s@),
{
    let chars = chars_of(s);
    check_identifier(&chars)
}

} // verus!
