use cljx::value::Value;
use cljx::read::{read_one, read_many, ParseError};
use cljx::list::List;
use cljx::vector::Vector;
use cljx::value_set::ValueSet;
use cljx::value_map::ValueMap;
use cljx::unqualified_symbol;
use cljx::unqualified_keyword;

fn sym(name: &str) -> Value {
    Value::symbol_unqualified(unqualified_symbol::new(name))
}

fn kw(name: &str) -> Value {
    Value::keyword_unqualified(unqualified_keyword::new(name))
}

fn one(input: &str) -> Value {
    read_one(input).unwrap().unwrap()
}

#[test]
fn scalars_read_back() {
    assert_eq!(one("nil"), Value::Nil);
    assert_eq!(one("true"), Value::boolean(true));
    assert_eq!(one("false"), Value::boolean(false));
    assert_eq!(one("42"), Value::integer(42));
    assert_eq!(one("-17"), Value::integer(-17));
    assert_eq!(one("1_000"), Value::integer(1000));
    assert_eq!(one("\"wood\""), Value::string("wood"));
    assert_eq!(one("3.5"), Value::float("3.5".to_string()));
    assert_eq!(one("-1_0.2_5"), Value::float("-10.25".to_string()));
}

#[test]
fn symbols_and_keywords_read_back() {
    assert_eq!(one("abc"), sym("abc"));
    assert_eq!(
        one("ns/name"),
        Value::symbol_qualified(unqualified_symbol::new("ns"), unqualified_symbol::new("name"))
    );
    assert_eq!(one(":abc"), kw("abc"));
    assert_eq!(one("::abc"), kw("abc"));
    assert_eq!(
        one(":en/US"),
        Value::keyword_qualified(unqualified_keyword::new("en"), unqualified_keyword::new("US"))
    );
}

#[test]
fn collections_read_back() {
    assert_eq!(one("()"), Value::list_empty());
    assert_eq!(
        one("(1 2 3)"),
        Value::list(List::new(vec![Value::integer(1), Value::integer(2), Value::integer(3)]))
    );
    assert_eq!(
        one("[:a :b]"),
        Value::vector(Vector::new(vec![kw("a"), kw("b")]))
    );
    assert_eq!(
        one("#{:a :b}"),
        Value::set(ValueSet::from_values(vec![kw("a"), kw("b")]))
    );
    assert_eq!(
        one("{:a 1, :b 2}"),
        Value::map(ValueMap::from_entries(vec![
            (kw("a"), Value::integer(1)),
            (kw("b"), Value::integer(2)),
        ]))
    );
}

#[test]
fn sets_are_unordered() {
    assert_eq!(one("#{:b :a}"), one("#{:a :b}"));
    assert_eq!(one("{:b 2, :a 1}"), one("{:a 1, :b 2}"));
}

#[test]
fn quote_shorthand() {
    assert_eq!(
        one("'x"),
        Value::list(List::new(vec![sym("quote"), sym("x")]))
    );
}

#[test]
fn discard() {
    assert_eq!(
        one("[#_ :discarded :kept]"),
        Value::vector(Vector::new(vec![kw("kept")]))
    );
}

#[test]
fn discard_and_comment() {
    assert_eq!(
        one("[#_ ; a comment
            :value-discarded
            :value-read
        ]"),
        Value::vector(Vector::new(vec![kw("value-read")])),
    );
    assert_eq!(
        one("[#_ ; a comment #_
            :value-discarded
            :value-read
        ]"),
        Value::vector(Vector::new(vec![kw("value-read")])),
    );
}

#[test]
fn missing_discard_form() {
    assert!(matches!(read_one("#_"), Err(ParseError::MissingDiscardForm)));
    assert!(matches!(read_one("#_  "), Err(ParseError::MissingDiscardForm)));
}

#[test]
fn empty_input_reads_nothing() {
    assert_eq!(read_one("").unwrap(), None);
    assert_eq!(read_one("   ").unwrap(), None);
    assert_eq!(read_one(" ; just a comment").unwrap(), None);
}

#[test]
fn end_to_end_read_many() {
    let forms = read_many("(quote (1 2)) [1 2 3] #_:x :y");
    assert_eq!(forms.len(), 3);
    assert_eq!(
        forms[0],
        Value::list(List::new(vec![
            sym("quote"),
            Value::list(List::new(vec![Value::integer(1), Value::integer(2)])),
        ]))
    );
    assert_eq!(
        forms[1],
        Value::vector(Vector::new(vec![
            Value::integer(1),
            Value::integer(2),
            Value::integer(3),
        ]))
    );
    assert_eq!(forms[2], kw("y"));
}

#[test]
fn read_many_stops_at_first_failure() {
    let forms = read_many(":a :b )");
    assert_eq!(forms, vec![kw("a"), kw("b")]);
}

#[test]
fn round_trip_through_display() {
    let inputs = [
        "nil",
        "true",
        "false",
        "0",
        "-42",
        "9.75",
        "\"wood\"",
        "abc",
        "ns/name",
        ":abc",
        ":en/US",
        "(1 2 3)",
        "[:a [:b] 3]",
        "#{:a :b}",
        "{:a 1, :b {:c 2}}",
        "(quote (a b c))",
    ];
    for input in inputs {
        let v = one(input);
        let text = v.to_text();
        assert_eq!(one(text.as_str()), v, "round trip through {}", text);
    }
}

#[test]
fn oversized_numeral_is_a_parse_failure() {
    assert!(read_one("123456789012345678901234567890").is_err());
    assert_eq!(one("9223372036854775807"), Value::integer(i64::MAX));
    assert_eq!(one("-9223372036854775808"), Value::integer(i64::MIN));
}

#[test]
fn rendering_matches_the_read_syntax() {
    assert_eq!(one("nil").to_text(), "nil");
    assert_eq!(one("-42").to_text(), "-42");
    assert_eq!(one("3.50").to_text(), "3.50");
    assert_eq!(one("\"wood\"").to_text(), "\"wood\"");
    assert_eq!(one(":en/US").to_text(), ":en/US");
    assert_eq!(one("(1 2 3)").to_text(), "(1 2 3)");
    assert_eq!(one("[:a [:b]]").to_text(), "[:a [:b]]");
    assert_eq!(one("#{:b :a}").to_text(), "#{:a :b}");
    assert_eq!(one("{:b 2, :a 1}").to_text(), "{:a 1, :b 2}");
}

#[test]
fn underscores_are_stripped_before_parsing() {
    assert_eq!(one("1_2_3"), Value::integer(123));
    assert_eq!(one("1_0.0_1"), Value::float("10.01".to_string()));
}
