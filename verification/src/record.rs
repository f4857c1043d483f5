//! The record identifier: a table name and an id payload, its canonical
//! string and its accessors.

use crate::error::{CodecError, ErrorModel};
use crate::lexical::{chars_of, check_identifier_in, is_identifier, span, CharClass, DELIMITER};
use crate::parse::{collect, lemma_parse_value_bounds, parse_value, spec_parse_value};
use crate::render::render_value;
use crate::round_trip::theorem_round_trip;
use crate::split::{lemma_table_end, table_end};
use crate::value::{IdModel, IdValue};
use vstd::prelude::*;

verus! {

/// What a [`RecordId`] stands for.
pub struct RecordModel {
    pub table: Seq<char>,
    pub id: IdModel,
}

impl RecordModel {
    /// Whether the identifier is one of the data model: the table name is
    /// identifier-safe, so it holds neither the delimiter nor a quote of any
    /// kind, and the payload is well-formed.
    pub open spec fn well_formed(self) -> bool {
        is_identifier(self.table) && self.id.well_formed()
    }

    /// The canonical string: the table name, the delimiter and the
    /// payload's canonical form.
    pub open spec fn canonical(self) -> Seq<char> {
        self.table + seq![DELIMITER] + render_value(self.id)
    }
}

/// The failure to read the id token at position `at` of `s`.
pub open spec fn malformed_at(s: Seq<char>, at: int) -> ErrorModel {
    ErrorModel::MalformedIdentifier { fragment: s.subrange(at, s.len() as int), offset: at as nat }
}

/// Reads a record identifier from its textual form.
///
/// The table token is all before the first delimiter that stands outside
/// every quote, bracket and brace; the id token is all after it, and must
/// be one payload and nothing more.
///
/// The table token is judged first: where it is not identifier-safe the
/// result is `InvalidTable`, whatever follows. Where there is no such
/// delimiter, the whole text is the table token and the id token is missing
/// at its end.
pub open spec fn spec_parse_record(s: Seq<char>) -> Result<RecordModel, ErrorModel> {
    let cut = table_end(s);
    let table = s.subrange(0, cut);
    if !is_identifier(table) {
        Err(ErrorModel::InvalidTable)
    } else if cut >= s.len() {
        Err(malformed_at(s, s.len() as int))
    } else {
        match spec_parse_value(s, cut + 1) {
            Err(at) => Err(malformed_at(s, at)),
            Ok((id, next)) => if next == s.len() {
                Ok(RecordModel { table, id })
            } else {
                Err(malformed_at(s, next))
            },
        }
    }
}

/// What is read is one of the data model, and its payload is no generator.
/// A failure to read the id token lies within the text or at its end.
pub proof fn lemma_parse_record_sound(s: Seq<char>)
    ensures
        match spec_parse_record(s) {
            Ok(r) => r.well_formed() && !(r.id is Generated),
            Err(ErrorModel::MalformedIdentifier { fragment, offset }) => offset <= s.len()
                && fragment == s.subrange(offset as int, s.len() as int),
            Err(e) => e is InvalidTable,
        },
{
    let cut = table_end(s);
    lemma_table_end(s);
    if is_identifier(s.subrange(0, cut)) && cut < s.len() {
        lemma_parse_value_bounds(s, cut + 1);
    }
}

/// A record identifier: a table name paired with an id payload.
///
/// Every value of this type is well-formed: its table name is
/// identifier-safe and its payload is one of the data model. So each of its
/// accessors succeeds.
///
/// Two identifiers are equal where their table names are equal and their
/// payloads are.
#[derive(Debug)]
pub struct RecordId {
    table: String,
    id: IdValue,
}

impl View for RecordId {
    type V = RecordModel;

    closed spec fn view(&self) -> RecordModel {
        RecordModel { table: self.table@, id: self.id@ }
    }
}

fn malformed(chars: &Vec<char>, at: usize) -> (e: CodecError)
    requires
        at <= chars.len(),
    ensures
        e@ == malformed_at(chars@, at as int),
{
    CodecError::MalformedIdentifier { fragment: collect(chars, at, chars.len()), offset: at }
}

impl RecordId {
    #[verifier::type_invariant]
    spec fn valid(&self) -> bool {
        self@.well_formed()
    }

    /// Pairs a table name with a payload.
    ///
    /// Fails with `InvalidTable` where the table name is not
    /// identifier-safe; else with `MalformedValue` where the payload is not
    /// one of the data model.
    pub fn new(table: String, id: IdValue) -> (r: Result<RecordId, CodecError>)
        ensures
            match r {
                Ok(record) => {
                    &&& record@ == RecordModel { table: table@, id: id@ }
                    &&& record@.well_formed()
                },
                Err(e) => if !is_identifier(table@) {
                    e@ == ErrorModel::InvalidTable
                } else {
                    !id@.well_formed() && e@ == ErrorModel::MalformedValue
                },
            },
    {
        let chars = chars_of(table.as_str());
        assert(chars@.subrange(0, chars.len() as int) =~= chars@);
        if !check_identifier_in(&chars, 0, chars.len()) {
            Err(CodecError::InvalidTable)
        } else if !id.is_well_formed() {
            Err(CodecError::MalformedValue)
        } else {
            Ok(RecordId { table, id })
        }
    }

    /// Reads a record identifier from its canonical string.
    ///
    /// The result is what [`spec_parse_record`] gives for the characters of
    /// `text`: the identifier, or `InvalidTable`, or `MalformedIdentifier`
    /// with the offset, counted in characters, at which reading stopped
    /// and the text from there on.
    pub fn parse(text: &str) -> (r: Result<RecordId, CodecError>)
        ensures
            match r {
                Ok(record) => {
                    &&& spec_parse_record(text@) == Ok::<RecordModel, ErrorModel>(record@)
                    &&& record@.well_formed()
                    &&& !(record@.id is Generated)
                },
                Err(e) => spec_parse_record(text@) == Err::<RecordModel, ErrorModel>(e@),
            },
    {
        let chars = chars_of(text);
        let cut: usize = span(&chars, 0, CharClass::TableName);
        proof {
            lemma_table_end(chars@);
        }
        if !check_identifier_in(&chars, 0, cut) {
            return Err(CodecError::InvalidTable);
        }
        if cut >= chars.len() {
            return Err(malformed(&chars, chars.len()));
        }
        match parse_value(&chars, cut + 1) {
            Err(at) => Err(malformed(&chars, at)),
            Ok((id, next)) => {
                if next == chars.len() {
                    Ok(RecordId { table: collect(&chars, 0, cut), id })
                } else {
                    Err(malformed(&chars, next))
                }
            },
        }
    }

    /// The table name, verbatim. It is identifier-safe.
    pub fn table(&self) -> (s: String)
        ensures
            s@ == self@.table,
            is_identifier(s@),
    {
        proof {
            use_type_invariant(self);
        }
        self.table.clone()
    }

    /// The payload.
    pub fn id_value(&self) -> (v: &IdValue)
        ensures
            v@ == self@.id,
            self@.well_formed(),
    {
        proof {
            use_type_invariant(self);
        }
        &self.id
    }

    /// The payload alone, in its canonical form.
    pub fn id(&self) -> (s: String)
        ensures
            s@ == render_value(self@.id),
    {
        proof {
            use_type_invariant(self);
            self@.id.lemma_well_formed_renderable();
        }
        let mut out = String::new();
        // A well-formed payload has a canonical form, so this succeeds.
        let _ = self.id.render_into(&mut out);
        out
    }

    /// The full canonical identifier: the table name, the delimiter, and
    /// the payload in its canonical form.
    ///
    /// Unless the payload is a generator, [`RecordId::parse`] reads the
    /// string back as this identifier.
    pub fn table_id(&self) -> (s: String)
        ensures
            s@ == self@.canonical(),
            s@ == self@.table + seq![DELIMITER] + render_value(self@.id),
            !(self@.id is Generated) ==> spec_parse_record(s@) == Ok::<RecordModel, ErrorModel>(
                self@,
            ),
    {
        proof {
            use_type_invariant(self);
            self@.id.lemma_well_formed_renderable();
            if !(self@.id is Generated) {
                theorem_round_trip(self@);
            }
        }
        let mut out = self.table.clone();
        out.push(DELIMITER);
        // A well-formed payload has a canonical form, so this succeeds.
        let _ = self.id.render_into(&mut out);
        out
    }
}

impl Clone for RecordId {
    /// A copy that stands for the same identifier.
    fn clone(&self) -> (copy: Self)
        ensures
            copy@ == self@,
    {
        proof {
            use_type_invariant(self);
        }
        RecordId { table: self.table.clone(), id: self.id.clone() }
    }
}

impl PartialEq for RecordId {
    fn eq(&self, other: &RecordId) -> (same: bool) {
        self.table == other.table && self.id == other.id
    }
}

impl vstd::std_specs::cmp::PartialEqSpecImpl for RecordId {
    open spec fn obeys_eq_spec() -> bool {
        true
    }

    /// Equality is that of the identifiers that the values stand for.
    open spec fn eq_spec(&self, other: &RecordId) -> bool {
        self@ == other@
    }
}

impl Eq for RecordId {

}

/// The accessors that a binding layer offers over a record identifier.
pub trait IdTraits {
    /// The table name that the accessors hand out.
    spec fn tbl_text(&self) -> Seq<char>;

    /// The id text that the accessors hand out.
    spec fn id_text(&self) -> Seq<char>;

    /// The table name.
    fn get_tbl(&self) -> (s: String)
        ensures
            s@ == self.tbl_text(),
    ;

    /// The id alone.
    fn get_id(&self) -> (s: String)
        ensures
            s@ == self.id_text(),
    ;

    /// The table name, the delimiter and the id.
    fn get_tbl_id(&self) -> (s: String)
        ensures
            s@ == self.tbl_text() + seq![DELIMITER] + self.id_text(),
    ;
}

impl IdTraits for RecordId {
    open spec fn tbl_text(&self) -> Seq<char> {
        self@.table
    }

    open spec fn id_text(&self) -> Seq<char> {
        render_value(self@.id)
    }

    fn get_tbl(&self) -> (s: String) {
        self.table()
    }

    fn get_id(&self) -> (s: String) {
        self.id()
    }

    fn get_tbl_id(&self) -> (s: String) {
        self.table_id()
    }
}

} // verus!
