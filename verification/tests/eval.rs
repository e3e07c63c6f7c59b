use cljx::value::Value;
use cljx::env::Env;
use cljx::rt::{eval, eval2, apply, set_current_ns, current_ns, is_comment, is_quote, EvalError,
    NoCallables};
use cljx::read::read_one;
use cljx::list::List;
use cljx::unqualified_symbol;
use cljx::unqualified_keyword;
use cljx::value_map::ValueMap;

fn sym(name: &str) -> Value {
    Value::symbol_unqualified(unqualified_symbol::new(name))
}

fn kw(name: &str) -> Value {
    Value::keyword_unqualified(unqualified_keyword::new(name))
}

fn one(input: &str) -> Value {
    read_one(input).unwrap().unwrap()
}

fn fresh_env(ns: &str) -> Env {
    let mut env = Env::new_empty();
    set_current_ns(&mut env, unqualified_symbol::new(ns));
    env
}

#[test]
fn scalars_evaluate_to_themselves() {
    let mut env = fresh_env("user");
    let mut fns = NoCallables;
    for text in ["nil", "true", "42", "1.5", "\"s\"", ":k"] {
        let v = one(text);
        assert_eq!(eval2(&mut env, &mut fns, &v).unwrap(), v);
    }
}

#[test]
fn quoting_leaves_symbols_unresolved() {
    let mut env = fresh_env("user");
    let mut fns = NoCallables;
    let form = one("(quote (a b c))");
    let out = eval2(&mut env, &mut fns, &form).unwrap();
    assert_eq!(out, Value::list(List::new(vec![sym("a"), sym("b"), sym("c")])));
}

#[test]
fn comment_form_evaluates_to_nil() {
    let mut env = fresh_env("user");
    let mut fns = NoCallables;
    let form = one("(comment (explode))");
    assert!(is_comment(&form));
    let out = eval2(&mut env, &mut fns, &form).unwrap();
    assert_eq!(out, Value::Nil);
}

#[test]
fn empty_list_is_itself() {
    let mut env = fresh_env("user");
    let mut fns = NoCallables;
    let out = eval2(&mut env, &mut fns, &one("()")).unwrap();
    assert_eq!(out, Value::list_empty());
}

#[test]
fn dynamic_resolution_follows_current_namespace() {
    let mut env = Env::new_empty();
    env.intern("ns-a", "x", Value::integer(1));
    env.intern("ns-b", "x", Value::integer(2));
    let mut fns = NoCallables;
    let x = sym("x");

    set_current_ns(&mut env, unqualified_symbol::new("ns-a"));
    assert_eq!(eval2(&mut env, &mut fns, &x).unwrap(), Value::integer(1));

    set_current_ns(&mut env, unqualified_symbol::new("ns-b"));
    assert_eq!(eval2(&mut env, &mut fns, &x).unwrap(), Value::integer(2));
}

#[test]
fn resolution_failure_kinds() {
    let mut env = fresh_env("user");
    let mut fns = NoCallables;
    let ghost = sym("ghost");
    assert!(matches!(
        eval2(&mut env, &mut fns, &ghost),
        Err(EvalError::NoSuchVar(_))
    ));
    env.declare("user", "ghost");
    assert!(matches!(
        eval2(&mut env, &mut fns, &ghost),
        Err(EvalError::UnboundVar(_))
    ));
    env.intern("user", "ghost", Value::integer(7));
    assert_eq!(eval2(&mut env, &mut fns, &ghost).unwrap(), Value::integer(7));
}

#[test]
fn top_level_eval_substitutes_nil_on_failure() {
    let mut env = fresh_env("user");
    let mut fns = NoCallables;
    assert_eq!(eval(&mut env, &mut fns, &sym("ghost")), Value::Nil);
}

#[test]
fn var_handles_evaluate_to_their_content() {
    let mut env = fresh_env("user");
    let mut fns = NoCallables;
    env.intern("user", "bound", Value::integer(5));
    let vi = env.resolve("user", "bound").unwrap();
    let out = eval2(&mut env, &mut fns, &Value::Var(vi)).unwrap();
    assert_eq!(out, Value::integer(5));

    env.declare("user", "unbound");
    let ui = env.resolve("user", "unbound").unwrap();
    let out = eval2(&mut env, &mut fns, &Value::Var(ui)).unwrap();
    assert_eq!(out, Value::Var(ui));
}

#[test]
fn keywords_are_map_accessors() {
    let mut env = fresh_env("user");
    let mut fns = NoCallables;
    let map = Value::map(ValueMap::from_entries(vec![
        (kw("k"), Value::integer(3)),
    ]));
    let hit = apply(&mut env, &mut fns, &kw("k"), &List::new(vec![map.clone()])).unwrap();
    assert_eq!(hit, Value::integer(3));
    let miss = apply(&mut env, &mut fns, &kw("absent"), &List::new(vec![map.clone()])).unwrap();
    assert_eq!(miss, Value::Nil);
    let defaulted = apply(
        &mut env,
        &mut fns,
        &kw("absent"),
        &List::new(vec![map, kw("fallback")]),
    )
    .unwrap();
    assert_eq!(defaulted, kw("fallback"));
}

#[test]
fn collections_evaluate_elementwise() {
    let mut env = fresh_env("user");
    env.intern("user", "x", Value::integer(9));
    let mut fns = NoCallables;
    let out = eval2(&mut env, &mut fns, &one("[x x]")).unwrap();
    assert_eq!(out, one("[9 9]"));
    let out = eval2(&mut env, &mut fns, &one("{:k x}")).unwrap();
    assert_eq!(out, one("{:k 9}"));
    let out = eval2(&mut env, &mut fns, &one("#{x}")).unwrap();
    assert_eq!(out, one("#{9}"));
}

#[test]
fn quote_predicate_sees_the_head() {
    assert!(is_quote(&one("(quote x)")));
    assert!(!is_quote(&one("(comment x)")));
    assert!(!is_comment(&one("()")));
}

#[test]
fn current_namespace_is_readable() {
    let mut env = fresh_env("user");
    let h = current_ns(&env).unwrap();
    assert_eq!(env.namespace_at(h).name().name(), "user");
}

#[test]
fn list_persistence() {
    let l = List::new(vec![kw("b"), kw("c")]);
    let l2 = l.push_front(kw("a"));
    assert_eq!(l2, List::new(vec![kw("a"), kw("b"), kw("c")]));
    assert_eq!(l, List::new(vec![kw("b"), kw("c")]));
}

#[test]
fn rebinding_is_seen_through_old_handles() {
    let mut env = fresh_env("user");
    env.intern("user", "v", Value::integer(1));
    let vi = env.resolve("user", "v").unwrap();
    env.intern("user", "v", Value::integer(2));
    assert_eq!(env.resolve("user", "v").unwrap(), vi);
    assert_eq!(env.var_at(vi).deref().unwrap(), Value::integer(2));
}

#[test]
fn interns_unbound_var_in_ns() {
    let mut env = fresh_env("clojure.core");

    // single: (declare my-var)
    env.declare("clojure.core", "my-var");
    assert!(env
        .resolve("clojure.core", "my-var")
        .is_some_and(|my_var| env.var_at(my_var).is_unbound()));

    // multiple: (declare my-other-var yet-another-var)
    env.declare("clojure.core", "my-other-var");
    env.declare("clojure.core", "yet-another-var");
    assert!(env
        .resolve("clojure.core", "my-other-var")
        .is_some_and(|my_other_var| env.var_at(my_other_var).is_unbound()));
    assert!(env
        .resolve("clojure.core", "yet-another-var")
        .is_some_and(|yet_another_var| env.var_at(yet_another_var).is_unbound()));
}

#[test]
fn declare_leaves_an_existing_binding_alone() {
    let mut env = fresh_env("user");
    env.intern("user", "v", Value::integer(3));
    env.declare("user", "v");
    let vi = env.resolve("user", "v").unwrap();
    assert_eq!(env.var_at(vi).deref().unwrap(), Value::integer(3));
}

#[test]
fn unsupported_operator_kinds_fail() {
    let mut env = fresh_env("user");
    let mut fns = NoCallables;
    let r = apply(&mut env, &mut fns, &Value::integer(1), &List::new_empty());
    assert!(matches!(r, Err(EvalError::Unsupported(_))));
    let r = apply(&mut env, &mut fns, &kw("k"), &List::new_empty());
    assert!(matches!(r, Err(EvalError::Unsupported(_))));
}

#[test]
fn callables_and_handles_evaluate_to_themselves() {
    let mut env = fresh_env("user");
    let mut fns = NoCallables;
    let c = Value::Callable(4);
    assert_eq!(eval2(&mut env, &mut fns, &c).unwrap(), c);
    let h = Value::Handle(0);
    assert_eq!(eval2(&mut env, &mut fns, &h).unwrap(), h);
}

#[test]
fn make_env_binds_every_listed_pair() {
    let env = cljx::utils::make_env(vec![
        (
            "ns-a".to_string(),
            vec![
                ("x".to_string(), Value::integer(1)),
                ("y".to_string(), Value::integer(3)),
            ],
        ),
        ("ns-b".to_string(), vec![("x".to_string(), Value::integer(2))]),
        ("ns-a".to_string(), vec![("x".to_string(), Value::integer(9))]),
    ]);
    let xa = env.resolve("ns-a", "x").unwrap();
    assert_eq!(env.var_at(xa).deref().unwrap(), Value::integer(9));
    let ya = env.resolve("ns-a", "y").unwrap();
    assert_eq!(env.var_at(ya).deref().unwrap(), Value::integer(3));
    let xb = env.resolve("ns-b", "x").unwrap();
    assert_eq!(env.var_at(xb).deref().unwrap(), Value::integer(2));
    assert!(env.resolve("ns-a", "z").is_none());
    assert!(env.resolve("ns-c", "x").is_none());
}

#[test]
fn keyword_headed_forms_look_keys_up() {
    let mut env = fresh_env("user");
    let mut fns = NoCallables;
    let out = eval2(&mut env, &mut fns, &one("(:k {:k 7})")).unwrap();
    assert_eq!(out, Value::integer(7));
    let out = eval2(&mut env, &mut fns, &one("(:absent {:k 7} :fallback)")).unwrap();
    assert_eq!(out, kw("fallback"));
    let out = eval2(&mut env, &mut fns, &one("(:absent {:k 7})")).unwrap();
    assert_eq!(out, Value::Nil);
}

#[test]
fn symbol_operators_are_reresolved_at_call_time() {
    let mut env = fresh_env("user");
    let mut fns = NoCallables;
    env.intern("user", "pick", kw("k"));
    let map = one("{:k 5}");
    let out = apply(
        &mut env,
        &mut fns,
        &sym("pick"),
        &List::new(vec![map.clone()]),
    )
    .unwrap();
    assert_eq!(out, Value::integer(5));

    // rebinding the same name changes what an in-flight call site applies
    env.intern("user", "pick", kw("other"));
    let out = apply(&mut env, &mut fns, &sym("pick"), &List::new(vec![map])).unwrap();
    assert_eq!(out, Value::Nil);

    // a symbol resolving to an inapplicable value is rejected with it
    env.intern("user", "pick", Value::integer(3));
    let r = apply(&mut env, &mut fns, &sym("pick"), &List::new_empty());
    assert!(matches!(r, Err(EvalError::Unsupported(u)) if u == Value::integer(3)));
}
