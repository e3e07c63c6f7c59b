use cljx::value::Value;
use cljx::value_set::ValueSet;
use cljx::list::List;
use cljx::rt::{check_arity, ArityError};
use cljx::unqualified_keyword;

fn ints(xs: &[i64]) -> ValueSet {
    ValueSet::from_values(xs.iter().map(|x| Value::integer(*x)).collect())
}

fn variadic(floor: i64) -> Value {
    Value::vector(cljx::vector::Vector::new(vec![Value::integer(floor)]))
}

fn args(n: usize) -> List {
    let mut elems = Vec::new();
    let mut i = 0;
    while i < n {
        elems.push(Value::keyword_unqualified(unqualified_keyword::new("x")));
        i += 1;
    }
    List::new(elems)
}

#[test]
fn assert_arity_v2() {
    let r = check_arity("my-fn", &ints(&[0]), &List::new_empty());
    assert!(r.is_ok());
}

#[test]
fn exact_set_accepts_zero_or_two() {
    let arities = ints(&[0, 2]);
    assert!(check_arity("f", &arities, &args(0)).is_ok());
    assert!(check_arity("f", &arities, &args(2)).is_ok());
    assert!(matches!(
        check_arity("f", &arities, &args(1)),
        Err(ArityError::Invalid(_, 1, _))
    ));
    assert!(matches!(
        check_arity("f", &arities, &args(3)),
        Err(ArityError::Invalid(_, 3, _))
    ));
}

#[test]
fn variadic_floor_accepts_at_or_above() {
    let arities = ValueSet::from_values(vec![variadic(2)]);
    assert!(matches!(
        check_arity("f", &arities, &args(0)),
        Err(ArityError::Invalid(_, 0, _))
    ));
    assert!(matches!(
        check_arity("f", &arities, &args(1)),
        Err(ArityError::Invalid(_, 1, _))
    ));
    assert!(check_arity("f", &arities, &args(2)).is_ok());
    assert!(check_arity("f", &arities, &args(3)).is_ok());
    assert!(check_arity("f", &arities, &args(4)).is_ok());
    assert!(check_arity("f", &arities, &args(17)).is_ok());
}

#[test]
fn two_variadic_floors_are_malformed() {
    let arities = ValueSet::from_values(vec![variadic(2), variadic(3)]);
    assert!(matches!(
        check_arity("f", &arities, &args(5)),
        Err(ArityError::MalformedDeclaration(_))
    ));
}

#[test]
fn malformed_member_is_rejected() {
    let arities = ValueSet::from_values(vec![Value::string("one")]);
    assert!(matches!(
        check_arity("f", &arities, &args(1)),
        Err(ArityError::MalformedDeclaration(_))
    ));
}
