use cljx::value::Value;
use cljx::unqualified_symbol;
use cljx::unqualified_keyword;

fn sym(name: &str) -> Value {
    Value::symbol_unqualified(unqualified_symbol::new(name))
}

fn sym2(ns: &str, name: &str) -> Value {
    Value::symbol_qualified(unqualified_symbol::new(ns), unqualified_symbol::new(name))
}

fn kw(name: &str) -> Value {
    Value::keyword_unqualified(unqualified_keyword::new(name))
}

fn kw2(ns: &str, name: &str) -> Value {
    Value::keyword_qualified(unqualified_keyword::new(ns), unqualified_keyword::new(name))
}

fn flt(x: f64) -> Value {
    Value::float(format!("{:?}", x))
}

#[test]
fn nil() {
    assert_eq!(Value::Nil, Value::Nil);
    assert_ne!(Value::Nil, Value::boolean(true));
    assert_ne!(Value::Nil, Value::boolean(false));
}

#[test]
fn boolean() {
    assert_eq!(Value::boolean(true), Value::boolean(true));
    assert_eq!(Value::boolean(false), Value::boolean(false));
    assert_ne!(Value::boolean(true), Value::boolean(false));
}

#[test]
fn integer() {
    assert_eq!(Value::integer(123), Value::integer(123));
    assert_ne!(Value::integer(123), Value::integer(456));
}

#[test]
fn float() {
    assert_eq!(flt(123.0), flt(123.0));
    assert_ne!(flt(123.0), flt(456.0));
}

#[test]
fn number() {
    assert_ne!(Value::integer(123), flt(123.0));
    assert_ne!(Value::integer(123), flt(456.0));
}

#[test]
fn string() {
    assert_eq!(Value::string("abc"), Value::string("abc"));
    assert_ne!(Value::string("abc"), Value::string("xyz"));
}

#[test]
fn symbol_unqualified() {
    assert_eq!(sym("abc"), sym("abc"));
    assert_ne!(sym("abc"), sym("xyz"));
}

#[test]
fn symbol_qualified() {
    assert_eq!(sym2("abc", "xyz"), sym2("abc", "xyz"));
    assert_ne!(sym2("abc", "xyz"), sym2("xyz", "xyz"));
    assert_ne!(sym2("abc", "xyz"), sym2("xyz", "abc"));
}

#[test]
fn keyword_unqualified() {
    assert_eq!(kw("abc"), kw("abc"));
    assert_ne!(kw("abc"), kw("xyz"));
}

#[test]
fn keyword_qualified() {
    assert_eq!(kw2("abc", "xyz"), kw2("abc", "xyz"));
    assert_ne!(kw2("abc", "xyz"), kw2("xyz", "xyz"));
    assert_ne!(kw2("abc", "xyz"), kw2("xyz", "abc"));
}

#[test]
fn unqualified() {
    assert_eq!(kw("abc"), kw("abc"));
    assert_ne!(kw("abc"), kw("xyz"));
    assert_eq!(sym("abc"), sym("abc"));
    assert_ne!(sym("abc"), sym("xyz"));
}

#[test]
fn qualified() {
    assert_eq!(kw2("abc", "xyz"), kw2("abc", "xyz"));
    assert_ne!(kw2("abc", "xyz"), kw2("xyz", "abc"));
    assert_eq!(sym2("abc", "xyz"), sym2("abc", "xyz"));
    assert_ne!(sym2("abc", "xyz"), sym2("xyz", "abc"));
}
