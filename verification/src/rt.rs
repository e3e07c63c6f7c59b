use vstd::prelude::*;
use vstd::string::StringExecFns;
use crate::value::{Value, ValueModel, views_of, view_of, lemma_views_of, lemma_views_of_push};
use crate::symbol::{Symbol, SymbolModel};
use crate::list::List;
use crate::value_set::ValueSet;
use crate::env::{Env, resolved_value, resolved_var, find_ns};
use crate::unqualified_symbol::UnqualifiedSymbol;

verus! {

/// The namespace that carries the interpreter's own state.
pub open spec fn core_ns_text() -> Seq<char> {
    "clojure.core"@
}

/// The well-known var naming the active namespace.
pub open spec fn current_ns_var_text() -> Seq<char> {
    "*ns*"@
}

/// A failure the evaluator surfaces as a value rather than a halt.
///
/// The first three are the recoverable evaluation conditions; `Unsupported`
/// stands for a programmer-contract violation (an operator kind `apply` does
/// not take, a malformed special form) that halts only the offending
/// evaluation.
#[derive(Debug)]
pub enum EvalError {
    NoSuchVar(Symbol),
    UnboundVar(Symbol),
    InvalidArity(String, usize, ValueSet),
    Unsupported(Value),
}

/// An invocable object registry: the terminal case of the apply protocol.
/// A `Value::Callable` holds an identity token; the registry interprets it.
/// The library proves nothing about what an implementation computes, only
/// that it leaves the environment well formed.
pub trait AFn {
    fn apply(&mut self, env: &mut Env, callable: usize, args: &List) -> (r: Result<
        Value,
        EvalError,
    >)
        requires
            old(env).wf(),
        ensures
            final(env).wf(),
    ;
}

/// The empty registry: every invocation is unsupported.
pub struct NoCallables;

impl AFn for NoCallables {
    fn apply(&mut self, env: &mut Env, callable: usize, _args: &List) -> (r: Result<
        Value,
        EvalError,
    >)
        ensures
            r matches Err(EvalError::Unsupported(u)) && u@ == ValueModel::Callable(
                callable as int,
            ),
    {
        Err(EvalError::Unsupported(Value::Callable(callable)))
    }
}

/// A nonempty list whose head is the plain symbol `comment`.
pub open spec fn is_comment_model(m: ValueModel) -> bool {
    m matches ValueModel::List(s) && s.len() > 0 && s[0] == ValueModel::Symbol(
        SymbolModel::Unqualified { name: "comment"@ },
    )
}

/// A nonempty list whose head is the plain symbol `quote`.
pub open spec fn is_quote_model(m: ValueModel) -> bool {
    m matches ValueModel::List(s) && s.len() > 0 && s[0] == ValueModel::Symbol(
        SymbolModel::Unqualified { name: "quote"@ },
    )
}

/// Whether the value is a `(comment ...)` form.
pub fn is_comment(value: &Value) -> (r: bool)
    ensures
        r == is_comment_model(value@),
{
    head_symbol_is(value, "comment")
}

/// Whether the value is a `(quote ...)` form.
pub fn is_quote(value: &Value) -> (r: bool)
    ensures
        r == is_quote_model(value@),
{
    head_symbol_is(value, "quote")
}

fn head_symbol_is(value: &Value, name: &str) -> (r: bool)
    ensures
        r == (value@ matches ValueModel::List(s) && s.len() > 0 && s[0] == ValueModel::Symbol(
            SymbolModel::Unqualified { name: name@ },
        )),
{
    match value {
        Value::List(list) => {
            if list.len() > 0 {
                let head = list.get(0);
                match head {
                    Value::Symbol(Symbol::Unqualified(sym)) => crate::ord::str_eq(
                        sym.name(),
                        name,
                    ),
                    _ => false,
                }
            } else {
                false
            }
        },
        _ => false,
    }
}

/// The namespace the interpreter is currently in: the one the well-known var
/// `clojure.core/*ns*` holds a handle to.
pub open spec fn current_ns_idx(env: &Env) -> Option<int> {
    match resolved_value(env, core_ns_text(), current_ns_var_text()) {
        Some(Some(ValueModel::Handle(i))) => if 0 <= i < env.namespaces@.len() {
            Some(i)
        } else {
            None
        },
        _ => None,
    }
}

/// The name of the current namespace, read dynamically.
pub open spec fn current_ns_name(env: &Env) -> Option<Seq<char>> {
    match current_ns_idx(env) {
        Some(i) => Some(env.namespaces@[i].name@),
        None => None,
    }
}

/// The handle of the current namespace, or `None` when `clojure.core/*ns*`
/// does not hold one.
pub fn current_ns(env: &Env) -> (r: Option<usize>)
    requires
        env.wf(),
    ensures
        match r {
            Some(i) => current_ns_idx(env) == Some(i as int),
            None => current_ns_idx(env) is None,
        },
{
    match env.resolve_value("clojure.core", "*ns*") {
        Some(v) => match v {
            Value::Handle(i) => {
                if i < env.namespace_count() {
                    Some(i)
                } else {
                    None
                }
            },
            _ => None,
        },
        None => None,
    }
}

/// Finds (creating if necessary) the named namespace and binds
/// `clojure.core/*ns*` to a handle of it, interning the var if it does not
/// exist yet. Nothing else moves: every other pair keeps the cell it
/// resolved to, and every cell but the one now holding the handle keeps its
/// content — so a pair sharing that cell (a hand-built alias) is the only
/// way another binding can observe a change.
pub fn set_current_ns(env: &mut Env, ns: UnqualifiedSymbol)
    requires
        old(env).wf(),
    ensures
        final(env).wf(),
        current_ns_name(final(env)) == Some(ns@),
        old(env).vars@.len() <= final(env).vars@.len(),
        // no binding is rerouted: a freshly created namespace resolves
        // nothing, so even pairs naming `ns` keep their (absent) resolution
        forall|a: Seq<char>, b: Seq<char>|
            (a != core_ns_text() || b != current_ns_var_text()) ==> #[trigger] resolved_var(
                final(env),
                a,
                b,
            ) == resolved_var(old(env), a, b),
        // every cell but the one now holding the namespace handle is untouched
        forall|j: int|
            0 <= j < old(env).vars@.len() && Some(j) != resolved_var(
                final(env),
                core_ns_text(),
                current_ns_var_text(),
            ) ==> final(env).vars@[j] == #[trigger] old(env).vars@[j],
        // hence every pair not sharing that cell reads as before
        forall|a: Seq<char>, b: Seq<char>|
            (a != core_ns_text() || b != current_ns_var_text()) && resolved_var(old(env), a, b)
                != resolved_var(final(env), core_ns_text(), current_ns_var_text())
                ==> #[trigger] resolved_value(final(env), a, b) == resolved_value(old(env), a, b),
{
    let ghost old_env = *env;
    let h = env.find_or_create_namespace(ns);
    let ghost mid_env = *env;
    env.intern("clojure.core", "*ns*", Value::Handle(h));
    proof {
        assert(resolved_value(env, core_ns_text(), current_ns_var_text()) == Some(
            Some(ValueModel::Handle(h as int)),
        ));
        assert(current_ns_idx(env) == Some(h as int));
        assert(env.namespaces@[h as int].name@ == ns@) by {
            crate::env::lemma_find_ns_from(crate::env::registry_of(&mid_env), ns@, 0);
            if find_ns(&old_env, ns@) is Some {
                crate::env::lemma_find_ns_from(crate::env::registry_of(&old_env), ns@, 0);
            }
            match crate::env::resolved_interned_var(&mid_env, core_ns_text(), current_ns_var_text()) {
                Some(_) => {},
                None => {},
            }
        };
        assert forall|a: Seq<char>, b: Seq<char>|
            (a != core_ns_text() || b != current_ns_var_text()) implies #[trigger] resolved_var(
            env,
            a,
            b,
        ) == resolved_var(&old_env, a, b) by {
            assert(resolved_var(&mid_env, a, b) == resolved_var(&old_env, a, b)) by {
                crate::env::lemma_find_ns_from(crate::env::registry_of(&old_env), a, 0);
                crate::env::lemma_find_ns_from(crate::env::registry_of(&mid_env), a, 0);
                if find_ns(&old_env, ns@) is Some {
                    assert(mid_env == old_env);
                } else {
                    if a != ns@ {
                        assert(find_ns(&mid_env, a) == find_ns(&old_env, a));
                        match find_ns(&old_env, a) {
                            Some(j) => {
                                assert(mid_env.namespaces@[j] == old_env.namespaces@[j]);
                            },
                            None => {},
                        }
                    } else {
                        // the namespace was created now, empty: nothing in it
                        // resolved before, nothing resolves now
                        assert(find_ns(&mid_env, a) == Some(h as int));
                        assert(mid_env.namespaces@[h as int].interned@.len() == 0);
                        assert(mid_env.namespaces@[h as int].referred@.len() == 0);
                        assert(crate::namespace::lookup_name(
                            mid_env.namespaces@[h as int].interned@,
                            b,
                        ) is None);
                        assert(crate::namespace::lookup_name(
                            mid_env.namespaces@[h as int].referred@,
                            b,
                        ) is None);
                        assert(resolved_var(&mid_env, a, b) is None);
                        assert(resolved_var(&old_env, a, b) is None);
                    }
                }
            };
        }
        let target = resolved_var(env, core_ns_text(), current_ns_var_text());
        assert forall|a: Seq<char>, b: Seq<char>|
            (a != core_ns_text() || b != current_ns_var_text()) && resolved_var(&old_env, a, b)
                != target implies #[trigger] resolved_value(env, a, b) == resolved_value(
            &old_env,
            a,
            b,
        ) by {
            crate::env::lemma_resolved_var_bound(&old_env, a, b);
            match resolved_var(&old_env, a, b) {
                Some(x) => {
                    assert(resolved_var(env, a, b) == Some(x));
                    assert(env.vars@[x] == old_env.vars@[x]);
                },
                None => {},
            }
        }
    }
}

/// A declared arity: an exact count, or a variadic floor written as a
/// one-element vector holding the floor.
pub open spec fn arity_member_valid(m: ValueModel) -> bool {
    match m {
        ValueModel::Integer(..) => true,
        ValueModel::Vector(s) => s.len() == 1 && s[0] is Integer,
        _ => false,
    }
}

/// The floor a variadic member declares, if the member is one.
pub open spec fn arity_variadic_min(m: ValueModel) -> Option<int> {
    match m {
        ValueModel::Vector(s) => if s.len() == 1 && s[0] is Integer {
            Some(s[0]->Integer_0)
        } else {
            None
        },
        _ => None,
    }
}

/// A well-formed arity declaration: every member is valid and at most one is
/// variadic.
pub open spec fn arities_wf(s: Seq<ValueModel>) -> bool {
    (forall|i: int| 0 <= i < s.len() ==> arity_member_valid(#[trigger] s[i])) && (forall|
        i: int,
        j: int,
    |
        0 <= i < j < s.len() ==> !(arity_variadic_min(#[trigger] s[i]) is Some
            && arity_variadic_min(#[trigger] s[j]) is Some))
}

/// The declaration admits the count: some exact member equals it, or some
/// variadic floor is at or below it.
pub open spec fn arity_accepted(s: Seq<ValueModel>, n: int) -> bool {
    (exists|i: int| 0 <= i < s.len() && #[trigger] s[i] == ValueModel::Integer(n)) || (exists|
        i: int,
    |
        0 <= i < s.len() && (arity_variadic_min(#[trigger] s[i]) matches Some(k) && n >= k))
}

/// A rejected argument count or a malformed arity declaration.
#[derive(Debug)]
pub enum ArityError {
    /// The declaration itself is broken: a member is neither an exact count
    /// nor a variadic floor, or more than one member is variadic. A
    /// programmer mistake, not a runtime condition.
    MalformedDeclaration(ValueSet),
    /// The callable rejected this argument count. Recoverable.
    Invalid(String, usize, ValueSet),
}

/// Checks an argument count against a declared set of admissible arities.
pub fn check_arity(fn_ident: &str, arities: &ValueSet, args: &List) -> (r: Result<(), ArityError>)
    ensures
        r is Ok <==> arities_wf(arities@) && arity_accepted(arities@, args@.len() as int),
        (r matches Err(ArityError::MalformedDeclaration(s)) ==> s@ == arities@ && !arities_wf(
            arities@,
        )),
        (r matches Err(ArityError::Invalid(name, n, s)) ==> name@ == fn_ident@ && n == args@.len()
            && s@ == arities@ && arities_wf(arities@) && !arity_accepted(
            arities@,
            args@.len() as int,
        )),
{
    let n = arities.len();
    // validate the declaration
    let mut i: usize = 0;
    let mut variadics: usize = 0;
    while i < n
        invariant
            i <= n == arities@.len(),
            forall|j: int| 0 <= j < i ==> arity_member_valid(#[trigger] arities@[j]),
            variadics <= 1,
            variadics == 0 ==> forall|j: int|
                0 <= j < i ==> arity_variadic_min(#[trigger] arities@[j]) is None,
            variadics == 1 ==> exists|j: int|
                0 <= j < i && arity_variadic_min(#[trigger] arities@[j]) is Some,
            forall|j1: int, j2: int|
                0 <= j1 < j2 < i ==> !(arity_variadic_min(#[trigger] arities@[j1]) is Some
                    && arity_variadic_min(#[trigger] arities@[j2]) is Some),
        decreases n - i,
    {
        let m = arities.get(i);
        match m {
            Value::Integer(..) => {},
            Value::Vector(v) => {
                if v.len() == 1 {
                    let first = v.get(0);
                    if !matches!(first, Value::Integer(..)) {
                        proof {
                            assert(!arity_member_valid(arities@[i as int]));
                        }
                        return Err(ArityError::MalformedDeclaration(arities.clone()));
                    }
                    if variadics >= 1 {
                        proof {
                            let j = choose|j: int|
                                0 <= j < i && arity_variadic_min(#[trigger] arities@[j]) is Some;
                            assert(arity_variadic_min(arities@[i as int]) is Some);
                            assert(!arities_wf(arities@));
                        }
                        return Err(ArityError::MalformedDeclaration(arities.clone()));
                    }
                    proof {
                        assert(arity_variadic_min(arities@[i as int]) is Some);
                    }
                    variadics = variadics + 1;
                } else {
                    proof {
                        assert(!arity_member_valid(arities@[i as int]));
                    }
                    return Err(ArityError::MalformedDeclaration(arities.clone()));
                }
            },
            _ => {
                proof {
                    assert(!arity_member_valid(arities@[i as int]));
                }
                return Err(ArityError::MalformedDeclaration(arities.clone()));
            },
        }
        i = i + 1;
    }
    // the declaration is well formed; check the count
    let count = args.len();
    let mut k: usize = 0;
    while k < n
        invariant
            k <= n == arities@.len(),
            arities_wf(arities@),
            count == args@.len(),
            forall|j: int|
                0 <= j < k ==> arities@[j] != ValueModel::Integer(count as int) && !(
                arity_variadic_min(#[trigger] arities@[j]) matches Some(mn) && (count as int) >= mn),
        decreases n - k,
    {
        let m = arities.get(k);
        match m {
            Value::Integer(x) => {
                if *x >= 0 && (*x as u64) == (count as u64) {
                    proof {
                        assert(arities@[k as int] == ValueModel::Integer(count as int));
                    }
                    return Ok(());
                }
                proof {
                    assert(arities@[k as int] != ValueModel::Integer(count as int));
                }
            },
            Value::Vector(v) => {
                proof {
                    assert(arity_member_valid(arities@[k as int]));
                    lemma_views_of(v.elems@);
                }
                let first = v.get(0);
                match first {
                    Value::Integer(x) => {
                        let admits = if *x <= 0 {
                            true
                        } else {
                            (count as u64) >= (*x as u64)
                        };
                        if admits {
                            proof {
                                assert(arity_variadic_min(arities@[k as int]) == Some(*x as int));
                            }
                            return Ok(());
                        }
                        proof {
                            assert(arity_variadic_min(arities@[k as int]) == Some(*x as int));
                            assert(!((count as int) >= (*x as int)));
                        }
                    },
                    _ => {
                        proof {
                            assert(false);
                        }
                    },
                }
            },
            _ => {
                proof {
                    assert(false);
                }
            },
        }
        k = k + 1;
    }
    proof {
        if arity_accepted(arities@, count as int) {
            assert(false);
        }
    }
    Err(ArityError::Invalid(String::from_str(fn_ident), count, arities.clone()))
}


/// A value that evaluates to itself: scalars, keywords, callables, handles.
pub open spec fn self_evaluating(m: ValueModel) -> bool {
    match m {
        ValueModel::Nil => true,
        ValueModel::Boolean(..) => true,
        ValueModel::Integer(..) => true,
        ValueModel::Float(..) => true,
        ValueModel::String(..) => true,
        ValueModel::Keyword(..) => true,
        ValueModel::Callable(..) => true,
        ValueModel::Handle(..) => true,
        _ => false,
    }
}

/// What evaluating a symbol that resolves through `(ns, name)` yields: the
/// bound content, `UnboundVar` for an empty cell, `NoSuchVar` when nothing
/// resolves.
pub open spec fn symbol_lookup_result(
    env: &Env,
    ns: Seq<char>,
    name: Seq<char>,
    r: Result<Value, EvalError>,
) -> bool {
    match resolved_value(env, ns, name) {
        None => r matches Err(EvalError::NoSuchVar(s)) && s@ == (SymbolModel::Qualified {
            namespace: ns,
            name: name,
        }),
        Some(None) => r matches Err(EvalError::UnboundVar(s)) && s@ == (SymbolModel::Qualified {
            namespace: ns,
            name: name,
        }),
        Some(Some(m)) => r matches Ok(out) && out@ == m,
    }
}

/// What evaluating a var handle yields: the bound content, or the handle
/// itself when the cell is unbound or the handle is dangling.
pub open spec fn var_eval_result(env: &Env, i: int, r: Result<Value, EvalError>) -> bool {
    r matches Ok(out) && (if 0 <= i < env.vars@.len() {
        match env.vars@[i]@ {
            Some(m) => out@ == m,
            None => out@ == ValueModel::Var(i),
        }
    } else {
        out@ == ValueModel::Var(i)
    })
}

/// The bound content a symbol resolves to, if any: the unqualified ones
/// resolve against the current namespace, the qualified ones against their
/// own.
pub open spec fn resolved_model(env: &Env, sm: SymbolModel) -> Option<ValueModel> {
    match sm {
        SymbolModel::Unqualified { name } => match current_ns_name(env) {
            Some(ns) => match resolved_value(env, ns, name) {
                Some(Some(m)) => Some(m),
                _ => None,
            },
            None => None,
        },
        SymbolModel::Qualified { namespace, name } => match resolved_value(env, namespace, name) {
            Some(Some(m)) => Some(m),
            _ => None,
        },
    }
}

/// Whether a symbol's resolution yields a bound var.
pub open spec fn symbol_resolves(env: &Env, sm: SymbolModel) -> bool {
    resolved_model(env, sm) is Some
}

/// What applying a keyword operator to the given arguments yields: a lookup
/// in the map given first, the optional second argument standing in for an
/// absent key, nil otherwise; anything else is unsupported.
pub open spec fn keyword_apply_result(
    kw: crate::keyword::KeywordModel,
    args: Seq<ValueModel>,
    r: Result<Value, EvalError>,
) -> bool {
    if args.len() == 0 {
        r matches Err(EvalError::Unsupported(u)) && u@ == ValueModel::Keyword(kw)
    } else if !(args[0] is MapVal) {
        r matches Err(EvalError::Unsupported(u)) && u@ == args[0]
    } else {
        r matches Ok(out) && (match crate::value_map::entries_lookup(
            args[0]->MapVal_0,
            ValueModel::Keyword(kw),
        ) {
            Some(v) => out@ == v,
            None => if args.len() >= 2 {
                out@ == args[1]
            } else {
                out@ is Nil
            },
        })
    }
}

/// A value the apply protocol does not take as an operator.
pub open spec fn inapplicable(m: ValueModel) -> bool {
    !(m is Symbol) && !(m is Keyword) && !(m is Callable)
}

/// Resolves a symbol's var and reads its content, yielding the exact
/// `NoSuchVar` / `UnboundVar` conditions.
fn lookup_symbol(env: &Env, ns_name: &str, name: &str) -> (r: Result<Value, EvalError>)
    requires
        env.wf(),
    ensures
        symbol_lookup_result(env, ns_name@, name@, r),
{
    let qualified = Symbol::Qualified(
        crate::qualified_symbol::QualifiedSymbol(
            (String::from_str(ns_name), String::from_str(name)),
        ),
    );
    match env.resolve(ns_name, name) {
        Some(vi) => {
            proof {
                crate::env::lemma_find_ns_from(crate::env::registry_of(env), ns_name@, 0);
                let k = find_ns(env, ns_name@).unwrap();
                crate::namespace::lemma_lookup_name(env.namespaces@[k].interned@, name@);
                crate::namespace::lemma_lookup_name(env.namespaces@[k].referred@, name@);
            }
            if vi < env.var_count() {
                match env.var_at(vi).deref() {
                    Some(v) => Ok(v),
                    None => Err(EvalError::UnboundVar(qualified)),
                }
            } else {
                proof {
                    assert(false);
                }
                Err(EvalError::NoSuchVar(qualified))
            }
        },
        None => Err(EvalError::NoSuchVar(qualified)),
    }
}

/// Evaluates a value tree, surfacing the typed evaluation errors.
///
/// Scalars, keywords, callables and handles evaluate to themselves; a var
/// handle to its content; symbols resolve through the environment, the
/// unqualified ones against the namespace current at evaluation time;
/// vectors, sets and maps are rebuilt elementwise; the empty list is itself;
/// `(comment ...)` is nil with nothing evaluated; `(quote x)` is `x`
/// unevaluated; any other list evaluates its head, then its arguments left to
/// right, and applies the head to them.
pub fn eval2<F: AFn>(env: &mut Env, fns: &mut F, value: &Value) -> (r: Result<Value, EvalError>)
    requires
        old(env).wf(),
    ensures
        final(env).wf(),
        self_evaluating(value@) ==> *final(env) == *old(env) && (r matches Ok(out) && out@
            == value@),
        value@ matches ValueModel::Var(i) ==> *final(env) == *old(env) && var_eval_result(
            old(env),
            i,
            r,
        ),
        value@ matches ValueModel::Symbol(s) ==> *final(env) == *old(env) && (match s {
            SymbolModel::Unqualified { name } => match current_ns_name(old(env)) {
                Some(ns) => symbol_lookup_result(old(env), ns, name, r),
                None => r matches Err(EvalError::NoSuchVar(e)) && e@ == s,
            },
            SymbolModel::Qualified { namespace, name } => symbol_lookup_result(
                old(env),
                namespace,
                name,
                r,
            ),
        }),
        value@ matches ValueModel::List(items) ==> (items.len() == 0 ==> *final(env) == *old(env)
            && (r matches Ok(out) && out@ == value@)),
        is_comment_model(value@) ==> *final(env) == *old(env) && (r matches Ok(out) && out@
            is Nil),
        !is_comment_model(value@) && is_quote_model(value@) ==> *final(env) == *old(env) && (
        match value@ {
            ValueModel::List(items) => if items.len() >= 2 {
                r matches Ok(out) && out@ == items[1]
            } else {
                r matches Err(EvalError::Unsupported(u)) && u@ == value@
            },
            _ => false,
        }),
        value@ matches ValueModel::Vector(es) ==> (r matches Ok(out) ==> out@ matches
            ValueModel::Vector(os) && os.len() == es.len()),
        value@ is SetVal ==> (r matches Ok(out) ==> out@ is SetVal),
        value@ is MapVal ==> (r matches Ok(out) ==> out@ is MapVal),
        // collections of self-evaluating elements come back unchanged
        value@ matches ValueModel::Vector(es) ==> ((forall|y: int|
            0 <= y < es.len() ==> self_evaluating(#[trigger] es[y])) ==> *final(env) == *old(env)
            && (r matches Ok(out) && out@ == value@)),
        value@ matches ValueModel::SetVal(es) ==> (crate::value_set::sorted_models(es) && (forall|
            y: int,
        |
            0 <= y < es.len() ==> self_evaluating(#[trigger] es[y])) ==> *final(env) == *old(env)
            && (r matches Ok(out) && out@ == value@)),
        value@ matches ValueModel::MapVal(entries) ==> (crate::value_map::sorted_entries(entries)
            && (forall|y: int|
            0 <= y < entries.len() ==> self_evaluating((#[trigger] entries[y]).0)
                && self_evaluating(entries[y].1)) ==> *final(env) == *old(env) && (r matches Ok(
            out,
        ) && out@ == value@)),
        // a keyword-headed application of self-evaluating arguments is the
        // map lookup the keyword performs
        value@ matches ValueModel::List(items) ==> (items.len() > 0 && items[0] is Keyword && (
        forall|y: int| 0 <= y < items.len() ==> self_evaluating(#[trigger] items[y]))
            ==> *final(env) == *old(env) && keyword_apply_result(
            items[0]->Keyword_0,
            items.drop_first(),
            r,
        )),
    decreases *value, 0int,
{
    match value {
        Value::Nil | Value::Boolean(..) | Value::Integer(..) | Value::Float(..) | Value::String(
            ..,
        ) | Value::Keyword(..) | Value::Callable(..) | Value::Handle(..) => Ok(value.clone()),
        Value::Var(i) => {
            if *i < env.var_count() {
                match env.var_at(*i).deref() {
                    Some(v) => Ok(v),
                    None => Ok(value.clone()),
                }
            } else {
                Ok(value.clone())
            }
        },
        Value::Symbol(Symbol::Unqualified(sym)) => {
            match current_ns(env) {
                Some(h) => {
                    let ns_name = String::from_str(env.namespace_at(h).name().name());
                    lookup_symbol(env, ns_name.as_str(), sym.name())
                },
                None => Err(EvalError::NoSuchVar(Symbol::Unqualified(sym.clone()))),
            }
        },
        Value::Symbol(Symbol::Qualified(sym)) => lookup_symbol(env, sym.namespace(), sym.name()),
        Value::Vector(vec) => {
            proof {
                assert(decreases_to!(*value => *vec));
                assert(decreases_to!(*vec => vec.elems));
            }
            let mut out: Vec<Value> = Vec::new();
            let mut i: usize = 0;
            let n = vec.elems.len();
            let ghost es = views_of(vec.elems@);
            proof {
                lemma_views_of(vec.elems@);
                assert(views_of(out@) =~= es.subrange(0, 0));
            }
            while i < n
                invariant
                    env.wf(),
                    i <= n == vec.elems@.len(),
                    out@.len() == i,
                    value@ == ValueModel::Vector(views_of(vec.elems@)),
                    *value == Value::Vector(*vec),
                    es == views_of(vec.elems@),
                    es.len() == n,
                    forall|y: int| 0 <= y < n ==> es[y] == view_of(vec.elems@[y]),
                    (views_of(out@) == es.subrange(0, i as int) && *env == *old(env)) || (exists|
                        y: int,
                    | 0 <= y < i && !self_evaluating(#[trigger] es[y])),
                decreases n - i, 0int,
            {
                proof {
                    assert(decreases_to!(*value => value->Vector_0));
                    assert(value->Vector_0 == *vec);
                    assert(decreases_to!(*vec => vec.elems));
                    assert(decreases_to!(vec.elems => vec.elems@));
                    assert(decreases_to!(vec.elems@ => vec.elems@[i as int]));
                }
                let item = eval2(env, fns, &vec.elems[i]);
                match item {
                    Ok(v) => {
                        let ghost vm = v@;
                        let ghost old_out = out@;
                        out.push(v);
                        proof {
                            lemma_views_of_push(old_out, out@.last());
                            if self_evaluating(es[i as int]) {
                                assert(view_of(vec.elems@[i as int]) == es[i as int]);
                                assert(vm == es[i as int]);
                                if views_of(old_out) == es.subrange(0, i as int) {
                                    assert(views_of(out@) =~= es.subrange(0, i + 1));
                                }
                            } else {
                                assert(0 <= i < i + 1 && !self_evaluating(es[i as int]));
                            }
                        }
                    },
                    Err(e) => {
                        proof {
                            if self_evaluating(es[i as int]) {
                                assert(view_of(vec.elems@[i as int]) == es[i as int]);
                                assert(false);
                            }
                            assert(es == value@->Vector_0);
                            assert(!self_evaluating(value@->Vector_0[i as int]));
                        }
                        return Err(e);
                    },
                }
                i = i + 1;
            }
            proof {
                lemma_views_of(out@);
                assert(es.subrange(0, n as int) =~= es);
                assert(es == value@->Vector_0);
            }
            Ok(Value::Vector(crate::vector::Vector::new(out)))
        },
        Value::SetVal(set) => {
            proof {
                assert(decreases_to!(*value => *set));
                assert(decreases_to!(*set => set.elems));
            }
            let mut out = ValueSet::new_empty();
            let mut i: usize = 0;
            let n = set.elems.len();
            let ghost es = views_of(set.elems@);
            proof {
                lemma_views_of(set.elems@);
                assert(out@ =~= es.subrange(0, 0));
            }
            while i < n
                invariant
                    env.wf(),
                    out.wf(),
                    i <= n == set.elems@.len(),
                    value@ == ValueModel::SetVal(views_of(set.elems@)),
                    *value == Value::SetVal(*set),
                    es == views_of(set.elems@),
                    es.len() == n,
                    forall|y: int| 0 <= y < n ==> es[y] == view_of(set.elems@[y]),
                    (out@ == es.subrange(0, i as int) && *env == *old(env)) || (exists|y: int|
                        0 <= y < i && !self_evaluating(#[trigger] es[y]))
                        || !crate::value_set::sorted_models(es),
                decreases n - i, 0int,
            {
                proof {
                    assert(decreases_to!(*value => value->SetVal_0));
                    assert(value->SetVal_0 == *set);
                    assert(decreases_to!(*set => set.elems));
                    assert(decreases_to!(set.elems => set.elems@));
                    assert(decreases_to!(set.elems@ => set.elems@[i as int]));
                }
                let item = eval2(env, fns, &set.elems[i]);
                match item {
                    Ok(v) => {
                        let ghost vm = v@;
                        let ghost old_out = out@;
                        out = out.insert(v);
                        proof {
                            if self_evaluating(es[i as int]) {
                                assert(view_of(set.elems@[i as int]) == es[i as int]);
                                assert(vm == es[i as int]);
                                if crate::value_set::sorted_models(es) && old_out == es.subrange(
                                    0,
                                    i as int,
                                ) {
                                    let pre = es.subrange(0, i as int);
                                    assert forall|p: int, q: int|
                                        0 <= p < q < pre.len() implies crate::ord::lt_model(
                                        #[trigger] pre[p],
                                        #[trigger] pre[q],
                                    ) by {
                                        assert(pre[p] == es[p] && pre[q] == es[q]);
                                    }
                                    assert forall|p: int|
                                        0 <= p < pre.len() implies crate::ord::lt_model(
                                        #[trigger] pre[p],
                                        es[i as int],
                                    ) by {
                                        assert(pre[p] == es[p]);
                                    }
                                    crate::value_set::lemma_sorted_insert_append(
                                        pre,
                                        es[i as int],
                                    );
                                    assert(out@ == pre.push(es[i as int]));
                                    assert(pre.push(es[i as int]) =~= es.subrange(0, i + 1));
                                }
                            } else {
                                assert(0 <= i < i + 1 && !self_evaluating(es[i as int]));
                            }
                        }
                    },
                    Err(e) => {
                        proof {
                            if self_evaluating(es[i as int]) {
                                assert(view_of(set.elems@[i as int]) == es[i as int]);
                                assert(false);
                            }
                            assert(es == value@->SetVal_0);
                            assert(!self_evaluating(value@->SetVal_0[i as int]));
                        }
                        return Err(e);
                    },
                }
                i = i + 1;
            }
            proof {
                assert(es.subrange(0, n as int) =~= es);
                assert(es == value@->SetVal_0);
            }
            Ok(Value::SetVal(out))
        },
        Value::MapVal(map) => {
            proof {
                assert(decreases_to!(*value => *map));
                assert(decreases_to!(*map => map.entries));
            }
            let mut out = crate::value_map::ValueMap::new_empty();
            let mut i: usize = 0;
            let n = map.entries.len();
            let ghost es = crate::value::entry_views_of(map.entries@);
            proof {
                crate::value::lemma_entry_views_of(map.entries@);
                assert(out@ =~= es.subrange(0, 0));
            }
            while i < n
                invariant
                    env.wf(),
                    out.wf(),
                    i <= n == map.entries@.len(),
                    value@ == ValueModel::MapVal(crate::value::entry_views_of(map.entries@)),
                    *value == Value::MapVal(*map),
                    es == crate::value::entry_views_of(map.entries@),
                    es.len() == n,
                    forall|y: int|
                        0 <= y < n ==> #[trigger] es[y] == (view_of(map.entries@[y].0), view_of(
                            map.entries@[y].1,
                        )),
                    (out@ == es.subrange(0, i as int) && *env == *old(env)) || (exists|y: int|
                        0 <= y < i && !(self_evaluating((#[trigger] es[y]).0) && self_evaluating(
                            es[y].1,
                        ))) || !crate::value_map::sorted_entries(es),
                decreases n - i, 0int,
            {
                proof {
                    assert(decreases_to!(*value => value->MapVal_0));
                    assert(value->MapVal_0 == *map);
                    assert(decreases_to!(*map => map.entries));
                    assert(decreases_to!(map.entries => map.entries@));
                    assert(decreases_to!(map.entries@ => map.entries@[i as int]));
                    assert(decreases_to!(map.entries@[i as int] => map.entries@[i as int].0));
                    assert(decreases_to!(map.entries@[i as int] => map.entries@[i as int].1));
                }
                let (k, v) = &map.entries[i];
                let ek = eval2(env, fns, k);
                let key = match ek {
                    Ok(kv) => kv,
                    Err(e) => {
                        proof {
                            if self_evaluating(es[i as int].0) {
                                assert(view_of(map.entries@[i as int].0) == es[i as int].0);
                                assert(false);
                            }
                            assert(es == value@->MapVal_0);
                            assert(!self_evaluating(value@->MapVal_0[i as int].0));
                        }
                        return Err(e);
                    },
                };
                let ev = eval2(env, fns, v);
                let val = match ev {
                    Ok(vv) => vv,
                    Err(e) => {
                        proof {
                            if self_evaluating(es[i as int].1) {
                                assert(view_of(map.entries@[i as int].1) == es[i as int].1);
                                if self_evaluating(es[i as int].0) {
                                    assert(view_of(map.entries@[i as int].0) == es[i as int].0);
                                    assert(false);
                                }
                            }
                            assert(es == value@->MapVal_0);
                            assert(!(self_evaluating(value@->MapVal_0[i as int].0)
                                && self_evaluating(value@->MapVal_0[i as int].1)));
                        }
                        return Err(e);
                    },
                };
                let ghost km = key@;
                let ghost vm = val@;
                let ghost old_out = out@;
                out = out.insert(key, val);
                proof {
                    if self_evaluating(es[i as int].0) && self_evaluating(es[i as int].1) {
                        assert(view_of(map.entries@[i as int].0) == es[i as int].0);
                        assert(view_of(map.entries@[i as int].1) == es[i as int].1);
                        assert(km == es[i as int].0);
                        assert(vm == es[i as int].1);
                        if crate::value_map::sorted_entries(es) && old_out == es.subrange(
                            0,
                            i as int,
                        ) {
                            let pre = es.subrange(0, i as int);
                            assert forall|p: int, q: int|
                                0 <= p < q < pre.len() implies crate::ord::lt_model(
                                (#[trigger] pre[p]).0,
                                (#[trigger] pre[q]).0,
                            ) by {
                                assert(pre[p] == es[p] && pre[q] == es[q]);
                            }
                            assert forall|p: int|
                                0 <= p < pre.len() implies crate::ord::lt_model(
                                (#[trigger] pre[p]).0,
                                es[i as int].0,
                            ) by {
                                assert(pre[p] == es[p]);
                            }
                            crate::value_map::lemma_map_insert_append(
                                pre,
                                es[i as int].0,
                                es[i as int].1,
                            );
                            assert(es[i as int] == (es[i as int].0, es[i as int].1));
                            assert(out@ == pre.push(es[i as int]));
                            assert(pre.push(es[i as int]) =~= es.subrange(0, i + 1));
                        }
                    } else {
                        assert(0 <= i < i + 1 && !(self_evaluating(es[i as int].0)
                            && self_evaluating(es[i as int].1)));
                    }
                }
                i = i + 1;
            }
            proof {
                assert(es.subrange(0, n as int) =~= es);
                assert(es == value@->MapVal_0);
            }
            Ok(Value::MapVal(out))
        },
        Value::List(list) => {
            proof {
                assert(decreases_to!(*value => *list));
                assert(decreases_to!(*list => list.elems));
                lemma_views_of(list.elems@);
            }
            if list.len() == 0 {
                return Ok(value.clone());
            }
            if is_comment(value) {
                return Ok(Value::Nil);
            }
            if is_quote(value) {
                if list.len() >= 2 {
                    proof {
                        assert(view_of(list.elems@[1]) == value@->List_0[1]);
                    }
                    return Ok(list.elems[1].clone());
                }
                return Err(EvalError::Unsupported(value.clone()));
            }
            let ghost items = views_of(list.elems@);
            proof {
                assert(decreases_to!(list.elems => list.elems@));
                assert(decreases_to!(list.elems@ => list.elems@[0]));
            }
            let head = match eval2(env, fns, &list.elems[0]) {
                Ok(h) => h,
                Err(e) => {
                    proof {
                        if self_evaluating(items[0]) {
                            assert(view_of(list.elems@[0]) == items[0]);
                            assert(false);
                        }
                        assert(items == value@->List_0);
                        assert(!self_evaluating(value@->List_0[0]));
                    }
                    return Err(e);
                },
            };
            let mut args_vec: Vec<Value> = Vec::new();
            let mut i: usize = 1;
            let n = list.elems.len();
            proof {
                if self_evaluating(items[0]) {
                    assert(view_of(list.elems@[0]) == items[0]);
                    assert(views_of(args_vec@) =~= items.subrange(1, 1));
                }
            }
            while i < n
                invariant
                    env.wf(),
                    1 <= i <= n == list.elems@.len(),
                    value@ == ValueModel::List(views_of(list.elems@)),
                    !is_comment_model(value@),
                    !is_quote_model(value@),
                    *value == Value::List(*list),
                    items == views_of(list.elems@),
                    items.len() == n,
                    forall|y: int| 0 <= y < n ==> items[y] == view_of(list.elems@[y]),
                    (views_of(args_vec@) == items.subrange(1, i as int) && *env == *old(env)
                        && head@ == items[0]) || (exists|y: int|
                        0 <= y < i && !self_evaluating(#[trigger] items[y])),
                decreases n - i, 0int,
            {
                proof {
                    assert(decreases_to!(*value => value->List_0));
                    assert(value->List_0 == *list);
                    assert(decreases_to!(*list => list.elems));
                    assert(decreases_to!(list.elems => list.elems@));
                    assert(decreases_to!(list.elems@ => list.elems@[i as int]));
                }
                let item = eval2(env, fns, &list.elems[i]);
                match item {
                    Ok(v) => {
                        let ghost vm = v@;
                        let ghost old_args = args_vec@;
                        args_vec.push(v);
                        proof {
                            lemma_views_of_push(old_args, args_vec@.last());
                            if self_evaluating(items[i as int]) {
                                assert(view_of(list.elems@[i as int]) == items[i as int]);
                                assert(vm == items[i as int]);
                                if views_of(old_args) == items.subrange(1, i as int) {
                                    assert(views_of(args_vec@) =~= items.subrange(1, i + 1));
                                }
                            } else {
                                assert(0 <= i < i + 1 && !self_evaluating(items[i as int]));
                            }
                        }
                    },
                    Err(e) => {
                        proof {
                            if self_evaluating(items[i as int]) {
                                assert(view_of(list.elems@[i as int]) == items[i as int]);
                                assert(false);
                            }
                            assert(items == value@->List_0);
                            assert(!self_evaluating(value@->List_0[i as int]));
                        }
                        return Err(e);
                    },
                }
                i = i + 1;
            }
            let args = List::new(args_vec);
            proof {
                assert(items.subrange(1, n as int) =~= items.drop_first());
                assert(items == value@->List_0);
            }
            let r = apply(env, fns, &head, &args);
            proof {
                assert(items == value@->List_0);
            }
            r
        },
    }
}

/// Applies an operator to already-evaluated arguments. A symbol operator is
/// re-resolved at call time and application recurses with the resolved value;
/// a keyword looks itself up in the map given as the first argument, with the
/// optional second argument as the default; a callable is invoked through the
/// registry; every other operator kind is unsupported.
pub fn apply<F: AFn>(env: &mut Env, fns: &mut F, f: &Value, args: &List) -> (r: Result<
    Value,
    EvalError,
>)
    requires
        old(env).wf(),
    ensures
        final(env).wf(),
        // an operator of inapplicable kind is rejected as itself
        inapplicable(f@) ==> *final(env) == *old(env) && (r matches Err(EvalError::Unsupported(u))
            && u@ == f@),
        // a keyword operator looks itself up in the map given first
        f@ matches ValueModel::Keyword(kw) ==> *final(env) == *old(env) && keyword_apply_result(
            kw,
            args@,
            r,
        ),
        // a symbol operator whose own resolution fails yields the exact
        // resolution error, untouched environment
        f@ matches ValueModel::Symbol(sm) ==> (!symbol_resolves(old(env), sm) ==> *final(env)
            == *old(env) && (match sm {
            SymbolModel::Unqualified { name } => match current_ns_name(old(env)) {
                Some(ns) => symbol_lookup_result(old(env), ns, name, r),
                None => r matches Err(EvalError::NoSuchVar(e)) && e@ == sm,
            },
            SymbolModel::Qualified { namespace, name } => symbol_lookup_result(
                old(env),
                namespace,
                name,
                r,
            ),
        })),
        // a symbol operator resolving to a keyword behaves as that keyword
        f@ matches ValueModel::Symbol(sm) ==> (resolved_model(old(env), sm) matches Some(m) ==> (m
            matches ValueModel::Keyword(kw) ==> *final(env) == *old(env) && keyword_apply_result(
            kw,
            args@,
            r,
        ))),
        // a symbol operator resolving to an inapplicable value is rejected
        // with that value
        f@ matches ValueModel::Symbol(sm) ==> (resolved_model(old(env), sm) matches Some(m) ==> (
        inapplicable(m) ==> *final(env) == *old(env) && (r matches Err(EvalError::Unsupported(u))
            && u@ == m))),
{
    let mut op: Value = f.clone();
    // a resolution chain longer than the var table must have revisited a
    // cell: it can never terminate, so it is reported rather than followed
    let mut fuel: usize = env.var_count();
    loop
        invariant
            env.wf(),
            *env == *old(env),
            (op@ == f@ && fuel == old(env).vars@.len()) || (f@ matches ValueModel::Symbol(sm) && (
            resolved_model(old(env), sm) == Some(op@) || (resolved_model(old(env), sm) matches Some(
                m,
            ) && m is Symbol))),
        decreases fuel,
    {
        match &op {
            Value::Symbol(Symbol::Unqualified(sym)) => {
                let ghost pre_op = op@;
                let next = match current_ns(env) {
                    Some(h) => {
                        let ns_name = String::from_str(env.namespace_at(h).name().name());
                        proof {
                            assert(current_ns_name(env) == Some(ns_name@));
                        }
                        lookup_symbol(env, ns_name.as_str(), sym.name())
                    },
                    None => Err(EvalError::NoSuchVar(Symbol::Unqualified(sym.clone()))),
                };
                proof {
                    match &next {
                        Ok(v) => {
                            assert(resolved_model(env, pre_op->Symbol_0) == Some(v@));
                        },
                        Err(..) => {
                            assert(resolved_model(env, pre_op->Symbol_0) is None);
                        },
                    }
                }
                match next {
                    Ok(v) => {
                        if fuel == 0 {
                            proof {
                                if op@ == f@ && fuel as int == old(env).vars@.len() {
                                    lemma_resolution_needs_vars(env, op@->Symbol_0);
                                    assert(false);
                                }
                            }
                            return Err(EvalError::Unsupported(op));
                        }
                        fuel = fuel - 1;
                        op = v;
                    },
                    Err(e) => {
                        return Err(e);
                    },
                }
            },
            Value::Symbol(Symbol::Qualified(sym)) => {
                let ghost pre_op = op@;
                let next = lookup_symbol(env, sym.namespace(), sym.name());
                proof {
                    match &next {
                        Ok(v) => {
                            assert(resolved_model(env, pre_op->Symbol_0) == Some(v@));
                        },
                        Err(..) => {
                            assert(resolved_model(env, pre_op->Symbol_0) is None);
                        },
                    }
                }
                match next {
                    Ok(v) => {
                        if fuel == 0 {
                            proof {
                                if op@ == f@ && fuel as int == old(env).vars@.len() {
                                    lemma_resolution_needs_vars(env, op@->Symbol_0);
                                    assert(false);
                                }
                            }
                            return Err(EvalError::Unsupported(op));
                        }
                        fuel = fuel - 1;
                        op = v;
                    },
                    Err(e) => {
                        return Err(e);
                    },
                }
            },
            Value::Keyword(..) => {
                match args.first() {
                    Some(first) => {
                        match first.try_as_map() {
                            Ok(map) => {
                                let not_found = args.rest().first();
                                let out = match &not_found {
                                    Some(or) => map.get_or(&op, or).clone(),
                                    None => map.get_or_nil(&op),
                                };
                                proof {
                                    if args@.len() >= 2 {
                                        assert(args@.drop_first()[0] == args@[1]);
                                    }
                                }
                                return Ok(out);
                            },
                            Err(..) => {
                                return Err(EvalError::Unsupported(first));
                            },
                        }
                    },
                    None => {
                        return Err(EvalError::Unsupported(op));
                    },
                }
            },
            Value::Callable(id) => {
                let id = *id;
                return fns.apply(env, id, args);
            },
            _ => {
                return Err(EvalError::Unsupported(op));
            },
        }
    }
}

/// A symbol can resolve only when at least one binding cell exists.
proof fn lemma_resolution_needs_vars(env: &Env, sm: SymbolModel)
    requires
        env.wf(),
        symbol_resolves(env, sm),
    ensures
        env.vars@.len() > 0,
{
    match sm {
        SymbolModel::Unqualified { name } => {
            let ns = current_ns_name(env).unwrap();
            crate::env::lemma_resolved_var_bound(env, ns, name);
        },
        SymbolModel::Qualified { namespace, name } => {
            crate::env::lemma_resolved_var_bound(env, namespace, name);
        },
    }
}

/// Evaluates a value tree, substituting nil for any failure so a driving
/// loop can continue after one bad form. The three recoverable conditions
/// (`NoSuchVar`, `UnboundVar`, `InvalidArity`) become nil as the error policy
/// asks; an `Unsupported` operator, though a programmer mistake rather than a
/// runtime condition, is mapped to nil here as well, since this entry point
/// returns a plain value — a caller that must tell the kinds apart evaluates
/// through [`eval2`] instead.
pub fn eval<F: AFn>(env: &mut Env, fns: &mut F, value: &Value) -> (r: Value)
    requires
        old(env).wf(),
    ensures
        final(env).wf(),
        self_evaluating(value@) ==> *final(env) == *old(env) && r@ == value@,
        value@ matches ValueModel::Var(i) ==> *final(env) == *old(env) && (if 0 <= i < old(
            env,
        ).vars@.len() {
            match old(env).vars@[i]@ {
                Some(m) => r@ == m,
                None => r@ == value@,
            }
        } else {
            r@ == value@
        }),
        // a symbol yields its resolved content, or nil on either failure kind
        value@ matches ValueModel::Symbol(sm) ==> *final(env) == *old(env) && (match resolved_model(
            old(env),
            sm,
        ) {
            Some(m) => r@ == m,
            None => r@ is Nil,
        }),
        value@ matches ValueModel::List(items) ==> (items.len() == 0 ==> *final(env) == *old(env)
            && r@ == value@),
        is_comment_model(value@) ==> *final(env) == *old(env) && r@ is Nil,
        !is_comment_model(value@) && is_quote_model(value@) ==> *final(env) == *old(env) && (
        match value@ {
            ValueModel::List(items) => if items.len() >= 2 {
                r@ == items[1]
            } else {
                r@ is Nil
            },
            _ => false,
        }),
        value@ is Vector ==> (r@ matches ValueModel::Vector(os) && os.len()
            == value@->Vector_0.len()) || r@ is Nil,
        value@ is SetVal ==> r@ is SetVal || r@ is Nil,
        value@ is MapVal ==> r@ is MapVal || r@ is Nil,
{
    let r = eval2(env, fns, value);
    proof {
        match value@ {
            ValueModel::Symbol(sm) => {
                match sm {
                    SymbolModel::Unqualified { name } => {
                        match current_ns_name(old(env)) {
                            Some(ns) => {
                                assert(symbol_lookup_result(old(env), ns, name, r));
                            },
                            None => {},
                        }
                    },
                    SymbolModel::Qualified { namespace, name } => {
                        assert(symbol_lookup_result(old(env), namespace, name, r));
                    },
                }
            },
            _ => {},
        }
    }
    match r {
        Ok(v) => v,
        Err(..) => Value::Nil,
    }
}

} // verus!
