use record_id::lexical::is_identifier_safe;
use record_id::{CodecError, Generator, IdTraits, IdValue, RecordId};

fn text(s: &str) -> IdValue {
    IdValue::Text(s.to_string())
}

fn record(table: &str, id: IdValue) -> RecordId {
    RecordId::new(table.to_string(), id).expect("a well-formed identifier")
}

#[test]
fn number_and_text_stay_apart() {
    let as_text = record("t", text("123"));
    let as_number = record("t", IdValue::Number(123));
    assert_eq!(as_text.table_id(), "t:\u{27E8}123\u{27E9}");
    assert_eq!(as_number.table_id(), "t:123");
    assert_ne!(as_text.table_id(), as_number.table_id());
    let text_back = RecordId::parse(&as_text.table_id()).unwrap();
    let number_back = RecordId::parse(&as_number.table_id()).unwrap();
    assert_eq!(text_back.id_value(), &text("123"));
    assert_eq!(number_back.id_value(), &IdValue::Number(123));
    assert_ne!(text_back, number_back);
}

#[test]
fn bare_identifier_text() {
    let r = record("t", text("london"));
    assert_eq!(r.id(), "london");
    assert_eq!(r.table_id(), "t:london");
}

#[test]
fn accessors_agree() {
    let samples = vec![
        record("building_tbl", text("123")),
        record("t", IdValue::Number(-9)),
        record("_", IdValue::Sequence(vec![text("london"), IdValue::Number(1234)])),
        record("T9", IdValue::Keyed(vec![("city".to_string(), text("a b"))])),
        record("t", IdValue::Generated(Generator::Uuid)),
    ];
    for r in &samples {
        assert_eq!(r.table_id(), format!("{}:{}", r.table(), r.id()));
        assert_eq!(r.id(), r.id_value().render().unwrap());
    }
}

#[test]
fn accessors_of_one_record() {
    let r = record("building_tbl", text("123"));
    assert_eq!(r.table(), "building_tbl");
    assert_eq!(r.id(), "\u{27E8}123\u{27E9}");
    assert_eq!(r.table_id(), "building_tbl:\u{27E8}123\u{27E9}");
    assert_eq!(r.id_value(), &text("123"));
}

#[test]
fn trait_accessors_match_the_inherent_ones() {
    let r = record("building_tbl", IdValue::Sequence(vec![text("london"), text("1234")]));
    assert_eq!(r.get_tbl(), "building_tbl");
    assert_eq!(r.get_id(), "[london, \u{27E8}1234\u{27E9}]");
    assert_eq!(r.get_tbl_id(), "building_tbl:[london, \u{27E8}1234\u{27E9}]");
    assert_eq!(r.get_tbl(), r.table());
    assert_eq!(r.get_id(), r.id());
    assert_eq!(r.get_tbl_id(), r.table_id());
    assert_eq!(r.get_tbl_id(), r.get_tbl() + ":" + &r.get_id());
}

#[test]
fn generator_stands_as_whole_id() {
    assert_eq!(record("t", IdValue::Generated(Generator::Random)).table_id(), "t:rand()");
    assert_eq!(record("t", IdValue::Generated(Generator::Uuid)).table_id(), "t:uuid()");
    assert_eq!(record("t", IdValue::Generated(Generator::Ulid)).table_id(), "t:ulid()");
}

#[test]
fn new_rejects_bad_table_names() {
    for table in ["", "1t", "a:b", "a b", "t-x", "\u{27E8}t\u{27E9}", "caf\u{e9}", "\"t\""] {
        assert_eq!(
            RecordId::new(table.to_string(), IdValue::Number(1)),
            Err(CodecError::InvalidTable),
            "table {:?}",
            table
        );
    }
}

#[test]
fn new_accepts_identifier_tables() {
    for table in ["t", "_", "building_tbl", "T9", "a_1_b"] {
        let r = RecordId::new(table.to_string(), IdValue::Number(1)).unwrap();
        assert_eq!(r.table(), table);
    }
}

#[test]
fn new_rejects_malformed_values() {
    let empty_key = IdValue::Keyed(vec![("".to_string(), IdValue::Number(1))]);
    assert_eq!(RecordId::new("t".to_string(), empty_key), Err(CodecError::MalformedValue));
    let nested = IdValue::Sequence(vec![IdValue::Generated(Generator::Random)]);
    assert_eq!(RecordId::new("t".to_string(), nested), Err(CodecError::MalformedValue));
    let twice = IdValue::Keyed(vec![
        ("a".to_string(), IdValue::Number(1)),
        ("a".to_string(), IdValue::Number(2)),
    ]);
    assert_eq!(RecordId::new("t".to_string(), twice), Err(CodecError::MalformedValue));
}

#[test]
fn new_judges_the_table_first() {
    let nested = IdValue::Sequence(vec![IdValue::Generated(Generator::Random)]);
    assert_eq!(RecordId::new("1".to_string(), nested), Err(CodecError::InvalidTable));
}

#[test]
fn equality_is_structural() {
    assert_eq!(record("t", text("a")), record("t", text("a")));
    assert_ne!(record("t", text("a")), record("u", text("a")));
    assert_ne!(record("t", text("a")), record("t", text("b")));
    assert_ne!(record("t", text("1")), record("t", IdValue::Number(1)));
    assert_ne!(
        record("t", IdValue::Sequence(vec![IdValue::Number(1), IdValue::Number(2)])),
        record("t", IdValue::Sequence(vec![IdValue::Number(2), IdValue::Number(1)]))
    );
}

#[test]
fn identifier_safe_tokens() {
    for ok in ["a", "_", "Z", "a1", "_1_", "building_tbl", "A_b_9"] {
        assert!(is_identifier_safe(ok), "{:?}", ok);
    }
    for bad in ["", "1", "1a", "a-b", "a b", "a:b", " a", "a ", "\u{e9}", "a\u{27E8}", "a.b"] {
        assert!(!is_identifier_safe(bad), "{:?}", bad);
    }
}

#[test]
fn clones_are_equal() {
    let id = IdValue::Keyed(vec![
        ("city".to_string(), IdValue::Sequence(vec![text("london"), IdValue::Number(7)])),
        ("g".to_string(), text("\u{27E8}")),
    ]);
    assert_eq!(id.clone(), id);
    let r = record("t", id);
    let copy = r.clone();
    assert_eq!(copy, r);
    assert_eq!(copy.table_id(), r.table_id());
    let e = CodecError::MalformedIdentifier { fragment: "x".to_string(), offset: 3 };
    assert_eq!(e.clone(), e);
    assert_eq!(CodecError::InvalidTable.clone(), CodecError::InvalidTable);
}

#[test]
fn payloads_of_different_kinds_differ() {
    assert_ne!(text("1"), IdValue::Number(1));
    assert_ne!(IdValue::Sequence(vec![]), IdValue::Keyed(vec![]));
    assert_ne!(IdValue::Sequence(vec![IdValue::Number(1)]), IdValue::Sequence(vec![]));
    assert_ne!(
        IdValue::Keyed(vec![("a".to_string(), IdValue::Number(1))]),
        IdValue::Keyed(vec![("b".to_string(), IdValue::Number(1))])
    );
    assert_ne!(
        IdValue::Keyed(vec![("a".to_string(), IdValue::Number(1))]),
        IdValue::Keyed(vec![("a".to_string(), IdValue::Number(2))])
    );
    assert_ne!(IdValue::Generated(Generator::Uuid), IdValue::Generated(Generator::Ulid));
    assert_eq!(IdValue::Generated(Generator::Uuid), IdValue::Generated(Generator::Uuid));
    assert_ne!(IdValue::Generated(Generator::Random), text("rand()"));
}
