use record_id::{CodecError, Generator, IdValue};

fn text(s: &str) -> IdValue {
    IdValue::Text(s.to_string())
}

fn rendered(v: &IdValue) -> String {
    v.render().expect("the value has a canonical form")
}

#[test]
fn number_renders_bare() {
    assert_eq!(rendered(&IdValue::Number(0)), "0");
    assert_eq!(rendered(&IdValue::Number(7)), "7");
    assert_eq!(rendered(&IdValue::Number(1234)), "1234");
    assert_eq!(rendered(&IdValue::Number(-45)), "-45");
    assert_eq!(rendered(&IdValue::Number(1000000)), "1000000");
}

#[test]
fn number_extremes_render() {
    assert_eq!(rendered(&IdValue::Number(i64::MAX)), "9223372036854775807");
    assert_eq!(rendered(&IdValue::Number(i64::MIN)), "-9223372036854775808");
}

#[test]
fn number_renders_as_std_formats_it() {
    for n in [0i64, 1, -1, 9, 10, 11, 99, 100, 101, -10, 4096, i64::MAX, i64::MIN, i64::MIN + 1] {
        assert_eq!(rendered(&IdValue::Number(n)), n.to_string());
    }
}

#[test]
fn decimal_text_is_bracket_quoted() {
    assert_eq!(rendered(&text("123")), "\u{27E8}123\u{27E9}");
    assert_eq!(rendered(&text("-5")), "\u{27E8}-5\u{27E9}");
    assert_eq!(rendered(&text("007")), "\u{27E8}007\u{27E9}");
    assert_eq!(rendered(&text("0")), "\u{27E8}0\u{27E9}");
    assert_eq!(
        rendered(&text("99999999999999999999999")),
        "\u{27E8}99999999999999999999999\u{27E9}"
    );
}

#[test]
fn bracket_quotes_are_not_ascii_angle_brackets() {
    let s = rendered(&text("123"));
    assert!(!s.contains('<'));
    assert!(!s.contains('>'));
    assert_eq!(s.chars().next(), Some('\u{27E8}'));
    assert_eq!(s.chars().last(), Some('\u{27E9}'));
    assert_eq!(s.chars().count(), 5);
}

#[test]
fn identifier_text_renders_bare() {
    assert_eq!(rendered(&text("london")), "london");
    assert_eq!(rendered(&text("_x9")), "_x9");
    assert_eq!(rendered(&text("A")), "A");
    assert_eq!(rendered(&text("a1234")), "a1234");
}

#[test]
fn other_text_is_double_quoted() {
    assert_eq!(rendered(&text("")), "\"\"");
    assert_eq!(rendered(&text("hello world")), "\"hello world\"");
    assert_eq!(rendered(&text("1a")), "\"1a\"");
    assert_eq!(rendered(&text("-")), "\"-\"");
    assert_eq!(rendered(&text("--1")), "\"--1\"");
    assert_eq!(rendered(&text("1-")), "\"1-\"");
    assert_eq!(rendered(&text("a:b")), "\"a:b\"");
    assert_eq!(rendered(&text("\u{27E8}1\u{27E9}")), "\"\u{27E8}1\u{27E9}\"");
    assert_eq!(rendered(&text("caf\u{e9}")), "\"caf\u{e9}\"");
}

#[test]
fn quotes_and_backslashes_are_escaped() {
    assert_eq!(rendered(&text("say \"hi\"")), "\"say \\\"hi\\\"\"");
    assert_eq!(rendered(&text("a\\b")), "\"a\\\\b\"");
    assert_eq!(rendered(&text("\"")), "\"\\\"\"");
    assert_eq!(rendered(&text("\\")), "\"\\\\\"");
    assert_eq!(rendered(&text("line\nbreak")), "\"line\nbreak\"");
}

#[test]
fn sequence_renders_in_order() {
    let v = IdValue::Sequence(vec![text("london"), IdValue::Number(1234)]);
    assert_eq!(rendered(&v), "[london, 1234]");
    let w = IdValue::Sequence(vec![IdValue::Number(1234), text("london")]);
    assert_eq!(rendered(&w), "[1234, london]");
}

#[test]
fn sequence_of_none_and_one() {
    assert_eq!(rendered(&IdValue::Sequence(vec![])), "[]");
    assert_eq!(rendered(&IdValue::Sequence(vec![IdValue::Number(1)])), "[1]");
}

#[test]
fn sequence_elements_follow_the_text_rule() {
    let v = IdValue::Sequence(vec![text("london"), text("1234"), text("a b")]);
    assert_eq!(rendered(&v), "[london, \u{27E8}1234\u{27E9}, \"a b\"]");
}

#[test]
fn nested_sequences_render() {
    let v = IdValue::Sequence(vec![
        IdValue::Sequence(vec![IdValue::Number(1), IdValue::Number(2)]),
        IdValue::Sequence(vec![]),
        IdValue::Keyed(vec![("k".to_string(), IdValue::Sequence(vec![text("x")]))]),
    ]);
    assert_eq!(rendered(&v), "[[1, 2], [], {k: [x]}]");
}

#[test]
fn keyed_renders_in_insertion_order() {
    let v = IdValue::Keyed(vec![
        ("city".to_string(), text("london")),
        ("n".to_string(), IdValue::Number(7)),
    ]);
    assert_eq!(rendered(&v), "{city: london, n: 7}");
    let w = IdValue::Keyed(vec![
        ("n".to_string(), IdValue::Number(7)),
        ("city".to_string(), text("london")),
    ]);
    assert_eq!(rendered(&w), "{n: 7, city: london}");
}

#[test]
fn keyed_of_none() {
    assert_eq!(rendered(&IdValue::Keyed(vec![])), "{}");
}

#[test]
fn keys_that_are_no_identifiers_are_quoted() {
    let v = IdValue::Keyed(vec![
        ("two words".to_string(), IdValue::Number(1)),
        ("123".to_string(), IdValue::Number(2)),
        ("q\"".to_string(), IdValue::Number(3)),
    ]);
    assert_eq!(rendered(&v), "{\"two words\": 1, \"123\": 2, \"q\\\"\": 3}");
}

#[test]
fn generators_render_as_engine_tokens() {
    assert_eq!(rendered(&IdValue::Generated(Generator::Random)), "rand()");
    assert_eq!(rendered(&IdValue::Generated(Generator::Uuid)), "uuid()");
    assert_eq!(rendered(&IdValue::Generated(Generator::Ulid)), "ulid()");
}

#[test]
fn empty_key_is_malformed() {
    let v = IdValue::Keyed(vec![("".to_string(), IdValue::Number(1))]);
    assert_eq!(v.render(), Err(CodecError::MalformedValue));
    let late = IdValue::Keyed(vec![
        ("a".to_string(), IdValue::Number(1)),
        ("".to_string(), IdValue::Number(2)),
    ]);
    assert_eq!(late.render(), Err(CodecError::MalformedValue));
}

#[test]
fn nested_generator_is_malformed() {
    let in_sequence = IdValue::Sequence(vec![IdValue::Number(1), IdValue::Generated(Generator::Uuid)]);
    assert_eq!(in_sequence.render(), Err(CodecError::MalformedValue));
    let in_map = IdValue::Keyed(vec![("k".to_string(), IdValue::Generated(Generator::Random))]);
    assert_eq!(in_map.render(), Err(CodecError::MalformedValue));
    let deep = IdValue::Sequence(vec![IdValue::Sequence(vec![IdValue::Generated(Generator::Ulid)])]);
    assert_eq!(deep.render(), Err(CodecError::MalformedValue));
}

#[test]
fn repeated_key_still_renders() {
    let v = IdValue::Keyed(vec![
        ("a".to_string(), IdValue::Number(1)),
        ("a".to_string(), IdValue::Number(2)),
    ]);
    assert_eq!(rendered(&v), "{a: 1, a: 2}");
    assert!(!v.is_well_formed());
}

#[test]
fn well_formedness_of_values() {
    assert!(IdValue::Number(1).is_well_formed());
    assert!(text("").is_well_formed());
    assert!(IdValue::Generated(Generator::Random).is_well_formed());
    assert!(IdValue::Sequence(vec![text("a"), IdValue::Number(2)]).is_well_formed());
    assert!(IdValue::Keyed(vec![
        ("a".to_string(), IdValue::Number(1)),
        ("b".to_string(), IdValue::Number(1)),
    ])
    .is_well_formed());
    assert!(!IdValue::Sequence(vec![IdValue::Generated(Generator::Random)]).is_well_formed());
    assert!(!IdValue::Keyed(vec![("".to_string(), IdValue::Number(1))]).is_well_formed());
    assert!(!IdValue::Sequence(vec![IdValue::Keyed(vec![
        ("a".to_string(), IdValue::Number(1)),
        ("b".to_string(), IdValue::Number(2)),
        ("a".to_string(), IdValue::Number(3)),
    ])])
    .is_well_formed());
}

#[test]
fn generated_is_told_apart() {
    assert!(IdValue::Generated(Generator::Ulid).is_generated());
    assert!(!IdValue::Number(1).is_generated());
    assert!(!text("rand()").is_generated());
}
