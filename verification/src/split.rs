//! Where the table token of an identifier ends.
//!
//! The table token ends at the first delimiter that stands outside every
//! quote, bracket and brace. A token that opens one of these is no table
//! name, so for every text that has a table name this is simply the first
//! delimiter: [`lemma_table_end`].

use crate::lexical::{
    is_ident_char, is_identifier, lemma_span_end, lemma_span_end_is, span_end, CharClass,
    BACKSLASH, BRACKET_CLOSE, BRACKET_OPEN, DELIMITER, QUOTE,
};
use vstd::prelude::*;

verus! {

/// What a position of a text is inside of.
pub struct Nesting {
    /// How many brackets and braces are open.
    pub depth: nat,
    /// The character that closes the quote that is open, if one is.
    pub closing: Option<char>,
    /// Whether a backslash has just been met inside an ordinary quote, so
    /// that the next character does not close it.
    pub escaped: bool,
}

impl Nesting {
    /// Outside every quote, bracket and brace.
    pub open spec fn top() -> Nesting {
        Nesting { depth: 0, closing: None, escaped: false }
    }

    pub open spec fn is_top(self) -> bool {
        self.depth == 0 && self.closing is None
    }

    /// What the position after `c` is inside of.
    pub open spec fn after(self, c: char) -> Nesting {
        match self.closing {
            Some(close) => if self.escaped {
                Nesting { depth: self.depth, closing: self.closing, escaped: false }
            } else if close == QUOTE && c == BACKSLASH {
                Nesting { depth: self.depth, closing: self.closing, escaped: true }
            } else if c == close {
                Nesting { depth: self.depth, closing: None, escaped: false }
            } else {
                self
            },
            None => if c == QUOTE {
                Nesting { depth: self.depth, closing: Some(QUOTE), escaped: false }
            } else if c == BRACKET_OPEN {
                Nesting { depth: self.depth, closing: Some(BRACKET_CLOSE), escaped: false }
            } else if c == '[' || c == '{' {
                Nesting { depth: self.depth + 1, closing: None, escaped: false }
            } else if (c == ']' || c == '}') && self.depth > 0 {
                Nesting { depth: (self.depth - 1) as nat, closing: None, escaped: false }
            } else {
                self
            },
        }
    }
}

/// The first delimiter from `i` on that stands outside every quote, bracket
/// and brace, where position `i` is inside of `inside`; the length of `s`
/// where there is none.
pub open spec fn top_level_delimiter(s: Seq<char>, i: int, inside: Nesting) -> int
    decreases s.len() - i,
{
    if i >= s.len() {
        s.len() as int
    } else if inside.is_top() && s[i] == DELIMITER {
        i
    } else {
        top_level_delimiter(s, i + 1, inside.after(s[i]))
    }
}

/// Where the table token of `s` ends.
pub open spec fn table_end(s: Seq<char>) -> int {
    top_level_delimiter(s, 0, Nesting::top())
}

proof fn lemma_top_level_delimiter(s: Seq<char>, i: int, inside: Nesting)
    requires
        0 <= i <= s.len(),
    ensures
        i <= top_level_delimiter(s, i, inside) <= s.len(),
        top_level_delimiter(s, i, inside) < s.len() ==> s[top_level_delimiter(s, i, inside)]
            == DELIMITER,
    decreases s.len() - i,
{
    if i < s.len() && !(inside.is_top() && s[i] == DELIMITER) {
        lemma_top_level_delimiter(s, i + 1, inside.after(s[i]));
    }
}

/// Over letters, digits and underscores the scan stays outside, and stops
/// at the delimiter that follows them.
proof fn lemma_plain_run(s: Seq<char>, i: int, e: int)
    requires
        0 <= i <= e <= s.len(),
        forall|k: int| i <= k < e ==> is_ident_char(#[trigger] s[k]),
        e < s.len() ==> s[e] == DELIMITER,
    ensures
        top_level_delimiter(s, i, Nesting::top()) == e,
    decreases e - i,
{
    if i < e {
        assert(is_ident_char(s[i]));
        assert(Nesting::top().after(s[i]) == Nesting::top());
        lemma_plain_run(s, i + 1, e);
    }
}

/// The table token ends within the text, at a delimiter or at the end. It
/// is identifier-safe exactly when all before the first delimiter of the
/// text is, and then it is just that.
pub proof fn lemma_table_end(s: Seq<char>)
    ensures
        0 <= table_end(s) <= s.len(),
        table_end(s) < s.len() ==> s[table_end(s)] == DELIMITER,
        is_identifier(s.subrange(0, table_end(s))) <==> is_identifier(
            s.subrange(0, span_end(s, 0, CharClass::TableName)),
        ),
        is_identifier(s.subrange(0, table_end(s))) ==> table_end(s) == span_end(
            s,
            0,
            CharClass::TableName,
        ),
{
    let nested = table_end(s);
    let first = span_end(s, 0, CharClass::TableName);
    lemma_top_level_delimiter(s, 0, Nesting::top());
    lemma_span_end(s, 0, CharClass::TableName);
    if is_identifier(s.subrange(0, first)) {
        assert forall|k: int| 0 <= k < first implies is_ident_char(#[trigger] s[k]) by {
            assert(s.subrange(0, first)[k] == s[k]);
        }
        lemma_plain_run(s, 0, first);
    } else if is_identifier(s.subrange(0, nested)) {
        assert forall|k: int| 0 <= k < nested implies CharClass::TableName.holds(
            #[trigger] s[k],
        ) by {
            assert(s.subrange(0, nested)[k] == s[k]);
            assert(is_ident_char(s[k]));
        }
        lemma_span_end_is(s, 0, nested, CharClass::TableName);
    }
}

} // verus!
