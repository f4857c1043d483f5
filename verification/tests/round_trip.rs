use record_id::{Generator, IdValue, RecordId};

fn text(s: &str) -> IdValue {
    IdValue::Text(s.to_string())
}

fn record(table: &str, id: IdValue) -> RecordId {
    RecordId::new(table.to_string(), id).expect("a well-formed identifier")
}

fn assert_round_trip(table: &str, id: IdValue) {
    let r = record(table, id);
    let s = r.table_id();
    let back = RecordId::parse(&s).unwrap_or_else(|e| panic!("{:?} does not read back: {:?}", s, e));
    assert_eq!(back, r, "through {:?}", s);
    assert_eq!(back.table_id(), s);
}

#[test]
fn round_trip_numbers() {
    for n in [0i64, 1, -1, 7, 10, 123, -123, 1234, i64::MAX, i64::MIN, i64::MIN + 1, i64::MAX - 1] {
        assert_round_trip("t", IdValue::Number(n));
    }
}

#[test]
fn round_trip_texts() {
    for s in [
        "", "london", "123", "-5", "007", "-", "--", "1a", "a1", "_", "a b", " ", "a:b", "a,b", "[", "]",
        "{", "}", "\"", "\\", "\\\"", "\"\"", "a\\nb", "a\nb", "\t", "\u{27E8}", "\u{27E9}",
        "\u{27E8}123\u{27E9}", "caf\u{e9}", "rand()", "99999999999999999999", "-0", "0", "'london'",
        "\\\\", "x\\", "\\x",
    ] {
        assert_round_trip("t", text(s));
    }
}

#[test]
fn sequence_order_is_preserved() {
    let r = record("t", IdValue::Sequence(vec![text("london"), IdValue::Number(1234)]));
    assert_eq!(r.table_id(), "t:[london, 1234]");
    let back = RecordId::parse(&r.table_id()).unwrap();
    assert_eq!(back.id_value(), &IdValue::Sequence(vec![text("london"), IdValue::Number(1234)]));
    assert_ne!(back.id_value(), &IdValue::Sequence(vec![IdValue::Number(1234), text("london")]));
    assert_eq!(back, r);
}

#[test]
fn keyed_map_round_trip() {
    let entries = vec![("city".to_string(), text("london")), ("n".to_string(), IdValue::Number(7))];
    let r = record("t", IdValue::Keyed(entries));
    assert_eq!(r.table_id(), "t:{city: london, n: 7}");
    let back = RecordId::parse(&r.table_id()).unwrap();
    assert_eq!(
        back.id_value(),
        &IdValue::Keyed(vec![
            ("city".to_string(), text("london")),
            ("n".to_string(), IdValue::Number(7)),
        ])
    );
    assert_ne!(
        back.id_value(),
        &IdValue::Keyed(vec![
            ("n".to_string(), IdValue::Number(7)),
            ("city".to_string(), text("london")),
        ])
    );
    assert_eq!(back, r);
}

#[test]
fn round_trip_sequences() {
    assert_round_trip("t", IdValue::Sequence(vec![]));
    assert_round_trip("t", IdValue::Sequence(vec![text("")]));
    assert_round_trip("t", IdValue::Sequence(vec![text("london"), text("a1234")]));
    assert_round_trip("t", IdValue::Sequence(vec![text("london"), text("1234")]));
    assert_round_trip("t", IdValue::Sequence(vec![text("a, b"), text("]"), text("\"")]));
    assert_round_trip(
        "t",
        IdValue::Sequence(vec![
            IdValue::Sequence(vec![]),
            IdValue::Sequence(vec![IdValue::Sequence(vec![IdValue::Number(-1)])]),
            IdValue::Keyed(vec![]),
        ]),
    );
}

#[test]
fn round_trip_maps() {
    assert_round_trip("t", IdValue::Keyed(vec![]));
    assert_round_trip("t", IdValue::Keyed(vec![("k".to_string(), text("123"))]));
    assert_round_trip(
        "t",
        IdValue::Keyed(vec![
            ("two words".to_string(), IdValue::Number(1)),
            ("123".to_string(), IdValue::Number(2)),
            ("q\"".to_string(), IdValue::Number(3)),
            ("a:b".to_string(), IdValue::Number(4)),
            ("\\".to_string(), IdValue::Number(5)),
        ]),
    );
    assert_round_trip(
        "building_tbl",
        IdValue::Keyed(vec![
            ("city".to_string(), text("london")),
            (
                "where".to_string(),
                IdValue::Keyed(vec![
                    ("city".to_string(), IdValue::Sequence(vec![text("x"), IdValue::Number(0)])),
                    ("n".to_string(), text("-7")),
                ]),
            ),
        ]),
    );
}

#[test]
fn generator_does_not_read_back() {
    let r = record("t", IdValue::Generated(Generator::Random));
    assert!(RecordId::parse(&r.table_id()).is_err());
}

#[test]
fn reading_normalises_to_the_canonical_form() {
    assert_eq!(RecordId::parse("t:007").unwrap().table_id(), "t:7");
    assert_eq!(RecordId::parse("t:[ 1 ,2 ]").unwrap().table_id(), "t:[1, 2]");
    assert_eq!(RecordId::parse("t:\"london\"").unwrap().table_id(), "t:london");
    assert_eq!(RecordId::parse("t:\"123\"").unwrap().table_id(), "t:\u{27E8}123\u{27E9}");
    assert_eq!(RecordId::parse("t:\u{27E8}abc\u{27E9}").unwrap().table_id(), "t:abc");
    assert_eq!(RecordId::parse("t:{\"a\":1}").unwrap().table_id(), "t:{a: 1}");
}
