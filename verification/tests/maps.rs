use cljx::value::Value;
use cljx::value_map::ValueMap;
use cljx::unqualified_keyword;

fn kw(name: &str) -> Value {
    Value::keyword_unqualified(unqualified_keyword::new(name))
}

#[test]
fn empty_get() {
    let m = ValueMap::new_empty();
    let v = m.get(&Value::Nil);
    assert!(v.is_none());
}

#[test]
fn multiple_entries_get() {
    let k1 = kw("k1");
    let v1 = kw("v1");
    let k2 = kw("k2");
    let v2 = kw("v2");
    let m = ValueMap::from_entries(vec![(k1.clone(), v1.clone()), (k2.clone(), v2.clone())]);
    let o1 = m.get(&k1).expect("expect map to have key k1");
    assert_eq!(o1, &v1);
    let o2 = m.get(&k2).expect("expect map to have key k2");
    assert_eq!(o2, &v2);
}

#[test]
fn get_entry_with_nil_key() {
    let k1 = Value::Nil;
    let v1 = kw("v1");
    let m = ValueMap::from_entries(vec![
        (k1.clone(), v1.clone()),
        (kw("k2"), kw("v2")),
    ]);
    let o1 = m.get(&k1).expect("expect map to have nil key");
    assert_eq!(o1, &v1);
}

#[test]
fn insert_replaces_equal_key() {
    let m = ValueMap::new_empty();
    let m = m.insert(kw("k"), Value::integer(1));
    let m = m.insert(kw("k"), Value::integer(2));
    assert_eq!(m.len(), 1);
    assert_eq!(m.get(&kw("k")), Some(&Value::integer(2)));
}

#[test]
fn map_equality_ignores_insertion_order() {
    let a = ValueMap::from_entries(vec![
        (kw("a"), Value::integer(1)),
        (kw("b"), Value::integer(2)),
    ]);
    let b = ValueMap::from_entries(vec![
        (kw("b"), Value::integer(2)),
        (kw("a"), Value::integer(1)),
    ]);
    assert_eq!(a, b);
}
