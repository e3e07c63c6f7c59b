use vstd::prelude::*;
use vstd::string::StringExecFns;
use crate::symbol::{Symbol, SymbolModel};
use crate::keyword::{Keyword, KeywordModel};
use crate::unqualified_symbol::UnqualifiedSymbol;
use crate::qualified_symbol::QualifiedSymbol;
use crate::unqualified_keyword::UnqualifiedKeyword;
use crate::qualified_keyword::QualifiedKeyword;
use crate::list::List;
use crate::vector::Vector;
use crate::value_set::ValueSet;
use crate::value_map::ValueMap;

verus! {

broadcast use vstd::std_specs::vec::group_vec_axioms;

/// The top-level runtime value: a closed tagged union over scalars, identity
/// atoms, persistent collections, and shared handles.
///
/// A float is carried as its literal text, with underscores already stripped;
/// two floats are the same value exactly when their texts agree.
/// `Var`, `Callable` and `Handle` carry the identity of a binding cell, an
/// invocable object, or a namespace owned by an [`Env`](crate::env::Env):
/// they compare by that identity, never structurally.
#[derive(Debug)]
pub enum Value {
    Nil,
    Boolean(bool),
    Integer(i64),
    Float(String),
    String(String),
    Symbol(Symbol),
    Keyword(Keyword),
    List(List),
    Vector(Vector),
    SetVal(ValueSet),
    MapVal(ValueMap),
    Var(usize),
    Callable(usize),
    Handle(usize),
}

/// Mathematical model of a value tree. Collections are sequences of models;
/// a well-formed set or map keeps its entries strictly sorted by the total
/// value order, so equal seqs mean equal collections.
pub enum ValueModel {
    Nil,
    Boolean(bool),
    Integer(int),
    Float(Seq<char>),
    String(Seq<char>),
    Symbol(SymbolModel),
    Keyword(KeywordModel),
    List(Seq<ValueModel>),
    Vector(Seq<ValueModel>),
    SetVal(Seq<ValueModel>),
    MapVal(Seq<(ValueModel, ValueModel)>),
    Var(int),
    Callable(int),
    Handle(int),
}

pub open spec fn view_of(v: Value) -> ValueModel
    decreases v, 0int,
    via view_of_decreases
{
    match v {
        Value::Nil => ValueModel::Nil,
        Value::Boolean(b) => ValueModel::Boolean(b),
        Value::Integer(i) => ValueModel::Integer(i as int),
        Value::Float(t) => ValueModel::Float(t@),
        Value::String(s) => ValueModel::String(s@),
        Value::Symbol(s) => ValueModel::Symbol(s@),
        Value::Keyword(k) => ValueModel::Keyword(k@),
        Value::List(l) => ValueModel::List(views_of(l.elems@)),
        Value::Vector(v) => ValueModel::Vector(views_of(v.elems@)),
        Value::SetVal(s) => ValueModel::SetVal(views_of(s.elems@)),
        Value::MapVal(m) => ValueModel::MapVal(entry_views_of(m.entries@)),
        Value::Var(i) => ValueModel::Var(i as int),
        Value::Callable(i) => ValueModel::Callable(i as int),
        Value::Handle(i) => ValueModel::Handle(i as int),
    }
}

#[via_fn]
proof fn view_of_decreases(v: Value) {
    match v {
        Value::List(l) => {
            assert(decreases_to!(v => l));
            assert(decreases_to!(l => l.elems));
            assert(decreases_to!(l.elems => l.elems@));
        },
        Value::Vector(vv) => {
            assert(decreases_to!(v => vv));
            assert(decreases_to!(vv => vv.elems));
            assert(decreases_to!(vv.elems => vv.elems@));
        },
        Value::SetVal(s) => {
            assert(decreases_to!(v => s));
            assert(decreases_to!(s => s.elems));
            assert(decreases_to!(s.elems => s.elems@));
        },
        Value::MapVal(m) => {
            assert(decreases_to!(v => m));
            assert(decreases_to!(m => m.entries));
            assert(decreases_to!(m.entries => m.entries@));
        },
        _ => {},
    }
}

/// The models of a sequence of values, in order.
pub open spec fn views_of(s: Seq<Value>) -> Seq<ValueModel>
    decreases s, 1int,
{
    if s.len() == 0 {
        Seq::empty()
    } else {
        seq![view_of(s[0])] + views_of(s.drop_first())
    }
}

/// The models of a sequence of key-value pairs, in order.
pub open spec fn entry_views_of(s: Seq<(Value, Value)>) -> Seq<(ValueModel, ValueModel)>
    decreases s, 1int,
    via entry_views_of_decreases
{
    if s.len() == 0 {
        Seq::empty()
    } else {
        seq![(view_of(s[0].0), view_of(s[0].1))] + entry_views_of(s.drop_first())
    }
}

#[via_fn]
proof fn entry_views_of_decreases(s: Seq<(Value, Value)>) {
    if s.len() > 0 {
        assert(decreases_to!(s => s[0]));
        assert(decreases_to!(s[0] => s[0].0));
        assert(decreases_to!(s[0] => s[0].1));
    }
}

pub broadcast proof fn lemma_views_of(s: Seq<Value>)
    ensures
        (#[trigger] views_of(s)).len() == s.len(),
        forall|i: int| 0 <= i < s.len() ==> views_of(s)[i] == view_of(s[i]),
    decreases s.len(),
{
    if s.len() > 0 {
        lemma_views_of(s.drop_first());
    }
}

pub broadcast proof fn lemma_entry_views_of(s: Seq<(Value, Value)>)
    ensures
        (#[trigger] entry_views_of(s)).len() == s.len(),
        forall|i: int|
            0 <= i < s.len() ==> entry_views_of(s)[i] == (view_of(s[i].0), view_of(s[i].1)),
    decreases s.len(),
{
    if s.len() > 0 {
        lemma_entry_views_of(s.drop_first());
    }
}


/// Appending a value appends its model.
pub proof fn lemma_views_of_push(s: Seq<Value>, v: Value)
    ensures
        views_of(s.push(v)) == views_of(s).push(view_of(v)),
{
    lemma_views_of(s);
    lemma_views_of(s.push(v));
    assert forall|j: int| 0 <= j < s.len() + 1 implies views_of(s.push(v))[j] == views_of(s).push(
        view_of(v),
    )[j] by {
        if j < s.len() {
            assert(s.push(v)[j] == s[j]);
            assert(views_of(s.push(v))[j] == view_of(s[j]));
            assert(views_of(s)[j] == view_of(s[j]));
        } else {
            assert(s.push(v)[j] == v);
        }
    }
    assert(views_of(s.push(v)) =~= views_of(s).push(view_of(v)));
}

/// Appending a pair appends its model.
pub proof fn lemma_entry_views_of_push(s: Seq<(Value, Value)>, k: Value, v: Value)
    ensures
        entry_views_of(s.push((k, v))) == entry_views_of(s).push((view_of(k), view_of(v))),
{
    lemma_entry_views_of(s);
    lemma_entry_views_of(s.push((k, v)));
    assert forall|j: int|
        0 <= j < s.len() + 1 implies entry_views_of(s.push((k, v)))[j] == entry_views_of(s).push(
        (view_of(k), view_of(v)),
    )[j] by {
        if j < s.len() {
            assert(s.push((k, v))[j] == s[j]);
            assert(entry_views_of(s.push((k, v)))[j] == (view_of(s[j].0), view_of(s[j].1)));
            assert(entry_views_of(s)[j] == (view_of(s[j].0), view_of(s[j].1)));
        } else {
            assert(s.push((k, v))[j] == (k, v));
        }
    }
    assert(entry_views_of(s.push((k, v))) =~= entry_views_of(s).push((view_of(k), view_of(v))));
}

impl View for Value {
    type V = ValueModel;

    open spec fn view(&self) -> ValueModel {
        view_of(*self)
    }
}

impl Value {
    pub fn boolean(boolean: bool) -> (r: Self)
        ensures
            r@ == ValueModel::Boolean(boolean),
    {
        Value::Boolean(boolean)
    }

    pub fn boolean_true() -> (r: Self)
        ensures
            r@ == ValueModel::Boolean(true),
    {
        Value::Boolean(true)
    }

    pub fn boolean_false() -> (r: Self)
        ensures
            r@ == ValueModel::Boolean(false),
    {
        Value::Boolean(false)
    }

    pub fn integer(integer: i64) -> (r: Self)
        ensures
            r@ == ValueModel::Integer(integer as int),
    {
        Value::Integer(integer)
    }

    /// A float value from its literal text.
    pub fn float(text: String) -> (r: Self)
        ensures
            r@ == ValueModel::Float(text@),
    {
        Value::Float(text)
    }

    pub fn string(string: &str) -> (r: Self)
        ensures
            r@ == ValueModel::String(string@),
    {
        Value::String(String::from_str(string))
    }

    pub fn symbol(symbol: Symbol) -> (r: Self)
        ensures
            r@ == ValueModel::Symbol(symbol@),
    {
        Value::Symbol(symbol)
    }

    pub fn symbol_unqualified(name: UnqualifiedSymbol) -> (r: Self)
        ensures
            r@ == ValueModel::Symbol(SymbolModel::Unqualified { name: name@ }),
    {
        Value::Symbol(Symbol::Unqualified(name))
    }

    pub fn symbol_qualified(namespace: UnqualifiedSymbol, name: UnqualifiedSymbol) -> (r: Self)
        ensures
            r@ == ValueModel::Symbol(
                SymbolModel::Qualified { namespace: namespace@, name: name@ },
            ),
    {
        Value::Symbol(Symbol::Qualified(QualifiedSymbol((namespace.0, name.0))))
    }

    pub fn keyword(keyword: Keyword) -> (r: Self)
        ensures
            r@ == ValueModel::Keyword(keyword@),
    {
        Value::Keyword(keyword)
    }

    pub fn keyword_unqualified(name: UnqualifiedKeyword) -> (r: Self)
        ensures
            r@ == ValueModel::Keyword(KeywordModel::Unqualified { name: name@ }),
    {
        Value::Keyword(Keyword::Unqualified(name))
    }

    pub fn keyword_qualified(namespace: UnqualifiedKeyword, name: UnqualifiedKeyword) -> (r: Self)
        ensures
            r@ == ValueModel::Keyword(
                KeywordModel::Qualified { namespace: namespace@, name: name@ },
            ),
    {
        Value::Keyword(Keyword::Qualified(QualifiedKeyword((namespace.0, name.0))))
    }

    pub fn list_empty() -> (r: Self)
        ensures
            r@ == ValueModel::List(Seq::<ValueModel>::empty()),
    {
        Value::List(List::new_empty())
    }

    pub fn list(list: List) -> (r: Self)
        ensures
            r@ == ValueModel::List(list@),
    {
        Value::List(list)
    }

    pub fn vector_empty() -> (r: Self)
        ensures
            r@ == ValueModel::Vector(Seq::<ValueModel>::empty()),
    {
        Value::Vector(Vector::new_empty())
    }

    pub fn vector(vector: Vector) -> (r: Self)
        ensures
            r@ == ValueModel::Vector(vector@),
    {
        Value::Vector(vector)
    }

    pub fn set_empty() -> (r: Self)
        ensures
            r@ == ValueModel::SetVal(Seq::<ValueModel>::empty()),
    {
        Value::SetVal(ValueSet::new_empty())
    }

    pub fn set(set: ValueSet) -> (r: Self)
        ensures
            r@ == ValueModel::SetVal(set@),
    {
        Value::SetVal(set)
    }

    pub fn map_empty() -> (r: Self)
        ensures
            r@ == ValueModel::MapVal(Seq::<(ValueModel, ValueModel)>::empty()),
    {
        Value::MapVal(ValueMap::new_empty())
    }

    pub fn map(map: ValueMap) -> (r: Self)
        ensures
            r@ == ValueModel::MapVal(map@),
    {
        Value::MapVal(map)
    }
}

impl Value {
    pub fn is_nil(&self) -> (r: bool)
        ensures
            r == (self@ is Nil),
    {
        matches!(self, Value::Nil)
    }

    pub fn is_some(&self) -> (r: bool)
        ensures
            r == !(self@ is Nil),
    {
        !matches!(self, Value::Nil)
    }

    pub fn is_boolean(&self) -> (r: bool)
        ensures
            r == (self@ is Boolean),
    {
        matches!(self, Value::Boolean(..))
    }

    pub fn is_boolean_true(&self) -> (r: bool)
        ensures
            r == (self@ == ValueModel::Boolean(true)),
    {
        matches!(self, Value::Boolean(true))
    }

    pub fn is_boolean_false(&self) -> (r: bool)
        ensures
            r == (self@ == ValueModel::Boolean(false)),
    {
        matches!(self, Value::Boolean(false))
    }

    pub fn is_integer(&self) -> (r: bool)
        ensures
            r == (self@ is Integer),
    {
        matches!(self, Value::Integer(..))
    }

    pub fn is_float(&self) -> (r: bool)
        ensures
            r == (self@ is Float),
    {
        matches!(self, Value::Float(..))
    }

    pub fn is_number(&self) -> (r: bool)
        ensures
            r == (self@ is Integer || self@ is Float),
    {
        matches!(self, Value::Integer(..) | Value::Float(..))
    }

    pub fn is_string(&self) -> (r: bool)
        ensures
            r == (self@ is String),
    {
        matches!(self, Value::String(..))
    }

    pub fn is_symbol(&self) -> (r: bool)
        ensures
            r == (self@ is Symbol),
    {
        matches!(self, Value::Symbol(..))
    }

    pub fn is_symbol_unqualified(&self) -> (r: bool)
        ensures
            r == (self@ matches ValueModel::Symbol(s) && s is Unqualified),
    {
        matches!(self, Value::Symbol(Symbol::Unqualified(..)))
    }

    pub fn is_symbol_qualified(&self) -> (r: bool)
        ensures
            r == (self@ matches ValueModel::Symbol(s) && s is Qualified),
    {
        matches!(self, Value::Symbol(Symbol::Qualified(..)))
    }

    pub fn is_keyword(&self) -> (r: bool)
        ensures
            r == (self@ is Keyword),
    {
        matches!(self, Value::Keyword(..))
    }

    pub fn is_keyword_unqualified(&self) -> (r: bool)
        ensures
            r == (self@ matches ValueModel::Keyword(k) && k is Unqualified),
    {
        matches!(self, Value::Keyword(Keyword::Unqualified(..)))
    }

    pub fn is_keyword_qualified(&self) -> (r: bool)
        ensures
            r == (self@ matches ValueModel::Keyword(k) && k is Qualified),
    {
        matches!(self, Value::Keyword(Keyword::Qualified(..)))
    }

    pub fn is_list(&self) -> (r: bool)
        ensures
            r == (self@ is List),
    {
        matches!(self, Value::List(..))
    }

    pub fn is_vector(&self) -> (r: bool)
        ensures
            r == (self@ is Vector),
    {
        matches!(self, Value::Vector(..))
    }

    pub fn is_set(&self) -> (r: bool)
        ensures
            r == (self@ is SetVal),
    {
        matches!(self, Value::SetVal(..))
    }

    pub fn is_map(&self) -> (r: bool)
        ensures
            r == (self@ is MapVal),
    {
        matches!(self, Value::MapVal(..))
    }

    pub fn is_var(&self) -> (r: bool)
        ensures
            r == (self@ is Var),
    {
        matches!(self, Value::Var(..))
    }
}

impl Value {
    pub fn try_as_integer(&self) -> (r: Result<i64, &Self>)
        ensures
            match r {
                Ok(i) => self@ == ValueModel::Integer(i as int),
                Err(s) => s == self && !(self@ is Integer),
            },
    {
        match self {
            Value::Integer(i) => Ok(*i),
            _ => Err(self),
        }
    }

    /// The integer payload of a value known to be an integer.
    pub fn as_integer(&self) -> (r: i64)
        requires
            self@ is Integer,
        ensures
            self@ == ValueModel::Integer(r as int),
    {
        match self {
            Value::Integer(i) => *i,
            _ => unreached(),
        }
    }

    pub fn try_as_symbol(&self) -> (r: Result<&Symbol, &Self>)
        ensures
            match r {
                Ok(s) => self@ == ValueModel::Symbol(s@),
                Err(s) => s == self && !(self@ is Symbol),
            },
    {
        match self {
            Value::Symbol(symbol) => Ok(symbol),
            _ => Err(self),
        }
    }

    /// The symbol payload of a value known to be a symbol.
    pub fn as_symbol(&self) -> (r: &Symbol)
        requires
            self@ is Symbol,
        ensures
            self@ == ValueModel::Symbol(r@),
    {
        match self {
            Value::Symbol(symbol) => symbol,
            _ => unreached(),
        }
    }

    pub fn try_as_list(&self) -> (r: Result<&List, &Self>)
        ensures
            match r {
                Ok(l) => self@ == ValueModel::List(l@),
                Err(s) => s == self && !(self@ is List),
            },
    {
        match self {
            Value::List(list) => Ok(list),
            _ => Err(self),
        }
    }

    /// The list payload of a value known to be a list.
    pub fn as_list(&self) -> (r: &List)
        requires
            self@ is List,
        ensures
            self@ == ValueModel::List(r@),
    {
        match self {
            Value::List(list) => list,
            _ => unreached(),
        }
    }

    pub fn try_as_vector(&self) -> (r: Result<&Vector, &Self>)
        ensures
            match r {
                Ok(v) => self@ == ValueModel::Vector(v@),
                Err(s) => s == self && !(self@ is Vector),
            },
    {
        match self {
            Value::Vector(vector) => Ok(vector),
            _ => Err(self),
        }
    }

    /// The vector payload of a value known to be a vector.
    pub fn as_vector(&self) -> (r: &Vector)
        requires
            self@ is Vector,
        ensures
            self@ == ValueModel::Vector(r@),
    {
        match self {
            Value::Vector(vector) => vector,
            _ => unreached(),
        }
    }

    pub fn try_as_set(&self) -> (r: Result<&ValueSet, &Self>)
        ensures
            match r {
                Ok(s) => self@ == ValueModel::SetVal(s@),
                Err(s) => s == self && !(self@ is SetVal),
            },
    {
        match self {
            Value::SetVal(set) => Ok(set),
            _ => Err(self),
        }
    }

    /// The set payload of a value known to be a set.
    pub fn as_set(&self) -> (r: &ValueSet)
        requires
            self@ is SetVal,
        ensures
            self@ == ValueModel::SetVal(r@),
    {
        match self {
            Value::SetVal(set) => set,
            _ => unreached(),
        }
    }

    pub fn try_as_map(&self) -> (r: Result<&ValueMap, &Self>)
        ensures
            match r {
                Ok(m) => self@ == ValueModel::MapVal(m@),
                Err(s) => s == self && !(self@ is MapVal),
            },
    {
        match self {
            Value::MapVal(map) => Ok(map),
            _ => Err(self),
        }
    }

    /// The map payload of a value known to be a map.
    pub fn as_map(&self) -> (r: &ValueMap)
        requires
            self@ is MapVal,
        ensures
            self@ == ValueModel::MapVal(r@),
    {
        match self {
            Value::MapVal(map) => map,
            _ => unreached(),
        }
    }

    pub fn try_as_callable(&self) -> (r: Result<usize, &Self>)
        ensures
            match r {
                Ok(i) => self@ == ValueModel::Callable(i as int),
                Err(s) => s == self && !(self@ is Callable),
            },
    {
        match self {
            Value::Callable(i) => Ok(*i),
            _ => Err(self),
        }
    }
}


/// A deep copy of a value, with the same model.
pub fn clone_value(v: &Value) -> (r: Value)
    ensures
        r@ == v@,
    decreases *v, 0int,
{
    match v {
        Value::Nil => Value::Nil,
        Value::Boolean(b) => Value::Boolean(*b),
        Value::Integer(i) => Value::Integer(*i),
        Value::Float(t) => Value::Float(t.clone()),
        Value::String(s) => Value::String(s.clone()),
        Value::Symbol(s) => Value::Symbol(s.clone()),
        Value::Keyword(k) => Value::Keyword(k.clone()),
        Value::List(l) => {
            proof {
                assert(decreases_to!(*v => *l));
                assert(decreases_to!(*l => l.elems));
            }
            let r = Value::List(List { elems: clone_values(&l.elems) });
            r
        },
        Value::Vector(vv) => {
            proof {
                assert(decreases_to!(*v => *vv));
                assert(decreases_to!(*vv => vv.elems));
            }
            Value::Vector(Vector { elems: clone_values(&vv.elems) })
        },
        Value::SetVal(s) => {
            proof {
                assert(decreases_to!(*v => *s));
                assert(decreases_to!(*s => s.elems));
            }
            Value::SetVal(ValueSet { elems: clone_values(&s.elems) })
        },
        Value::MapVal(m) => {
            proof {
                assert(decreases_to!(*v => *m));
                assert(decreases_to!(*m => m.entries));
            }
            Value::MapVal(ValueMap { entries: clone_entries(&m.entries) })
        },
        Value::Var(i) => Value::Var(*i),
        Value::Callable(i) => Value::Callable(*i),
        Value::Handle(i) => Value::Handle(*i),
    }
}

/// Deep copies of a vector of values, elementwise equal in the model.
pub fn clone_values(v: &Vec<Value>) -> (r: Vec<Value>)
    ensures
        views_of(r@) == views_of(v@),
        r@.len() == v@.len(),
    decreases *v, 1int,
{
    broadcast use lemma_views_of;

    let mut r: Vec<Value> = Vec::new();
    let mut i: usize = 0;
    while i < v.len()
        invariant
            i <= v@.len(),
            views_of(r@) == views_of(v@).subrange(0, i as int),
            r@.len() == i,
        decreases v@.len() - i, 0int,
    {
        proof {
            assert(decreases_to!(*v => v@));
            assert(decreases_to!(v@ => v@[i as int]));
        }
        let ghost old_r = r@;
        r.push(clone_value(&v[i]));
        i = i + 1;
        proof {
            lemma_views_of_push(old_r, r@.last());
            lemma_views_of(v@);
            assert(views_of(r@) =~= views_of(v@).subrange(0, i as int));
        }
    }
    proof {
        assert(views_of(v@).subrange(0, v@.len() as int) =~= views_of(v@));
    }
    r
}

/// Deep copies of a vector of key-value pairs, elementwise equal in the model.
pub fn clone_entries(v: &Vec<(Value, Value)>) -> (r: Vec<(Value, Value)>)
    ensures
        entry_views_of(r@) == entry_views_of(v@),
        r@.len() == v@.len(),
    decreases *v, 1int,
{
    broadcast use lemma_entry_views_of;

    let mut r: Vec<(Value, Value)> = Vec::new();
    let mut i: usize = 0;
    while i < v.len()
        invariant
            i <= v@.len(),
            entry_views_of(r@) == entry_views_of(v@).subrange(0, i as int),
            r@.len() == i,
        decreases v@.len() - i, 0int,
    {
        proof {
            assert(decreases_to!(*v => v@));
            assert(decreases_to!(v@ => v@[i as int]));
            assert(decreases_to!(v@[i as int] => v@[i as int].0));
            assert(decreases_to!(v@[i as int] => v@[i as int].1));
        }
        let ghost old_r = r@;
        let (k, val) = &v[i];
        r.push((clone_value(k), clone_value(val)));
        i = i + 1;
        proof {
            lemma_entry_views_of_push(old_r, r@.last().0, r@.last().1);
            assert(r@.last() == (r@.last().0, r@.last().1));
            assert(r@ == old_r.push(r@.last()));
            lemma_entry_views_of(v@);
            assert(entry_views_of(r@) =~= entry_views_of(v@).subrange(0, i as int));
        }
    }
    proof {
        assert(entry_views_of(v@).subrange(0, v@.len() as int) =~= entry_views_of(v@));
    }
    r
}

impl Clone for Value {
    fn clone(&self) -> (r: Self)
        ensures
            r@ == self@,
    {
        clone_value(self)
    }
}


/// Structural equality of two values in the model: scalars and collections
/// compare by structure, vars, callables and handles by identity.
pub fn value_eq(a: &Value, b: &Value) -> (r: bool)
    ensures
        r == (a@ == b@),
    decreases *a, 0int,
{
    match (a, b) {
        (Value::Nil, Value::Nil) => true,
        (Value::Boolean(x), Value::Boolean(y)) => x == y,
        (Value::Integer(x), Value::Integer(y)) => x == y,
        (Value::Float(x), Value::Float(y)) => *x == *y,
        (Value::String(x), Value::String(y)) => *x == *y,
        (Value::Symbol(x), Value::Symbol(y)) => x == y,
        (Value::Keyword(x), Value::Keyword(y)) => x == y,
        (Value::List(x), Value::List(y)) => {
            proof {
                assert(decreases_to!(*a => *x));
                assert(decreases_to!(*x => x.elems));
            }
            values_eq(&x.elems, &y.elems)
        },
        (Value::Vector(x), Value::Vector(y)) => {
            proof {
                assert(decreases_to!(*a => *x));
                assert(decreases_to!(*x => x.elems));
            }
            values_eq(&x.elems, &y.elems)
        },
        (Value::SetVal(x), Value::SetVal(y)) => {
            proof {
                assert(decreases_to!(*a => *x));
                assert(decreases_to!(*x => x.elems));
            }
            values_eq(&x.elems, &y.elems)
        },
        (Value::MapVal(x), Value::MapVal(y)) => {
            proof {
                assert(decreases_to!(*a => *x));
                assert(decreases_to!(*x => x.entries));
            }
            entries_eq(&x.entries, &y.entries)
        },
        (Value::Var(x), Value::Var(y)) => x == y,
        (Value::Callable(x), Value::Callable(y)) => x == y,
        (Value::Handle(x), Value::Handle(y)) => x == y,
        _ => false,
    }
}

/// Elementwise structural equality of two vectors of values.
pub fn values_eq(a: &Vec<Value>, b: &Vec<Value>) -> (r: bool)
    ensures
        r == (views_of(a@) == views_of(b@)),
    decreases *a, 1int,
{
    broadcast use lemma_views_of;

    if a.len() != b.len() {
        proof {
            lemma_views_of(a@);
            lemma_views_of(b@);
        }
        return false;
    }
    let mut i: usize = 0;
    while i < a.len()
        invariant
            a@.len() == b@.len(),
            i <= a@.len(),
            forall|j: int| 0 <= j < i ==> views_of(a@)[j] == views_of(b@)[j],
        decreases a@.len() - i, 0int,
    {
        proof {
            assert(decreases_to!(*a => a@));
            assert(decreases_to!(a@ => a@[i as int]));
        }
        let e = value_eq(&a[i], &b[i]);
        proof {
            lemma_views_of(a@);
            lemma_views_of(b@);
            assert(views_of(a@)[i as int] == view_of(a@[i as int]));
            assert(views_of(b@)[i as int] == view_of(b@[i as int]));
        }
        if !e {
            return false;
        }
        i = i + 1;
    }
    proof {
        lemma_views_of(a@);
        lemma_views_of(b@);
        assert(views_of(a@) =~= views_of(b@));
    }
    true
}

/// Elementwise structural equality of two vectors of key-value pairs.
pub fn entries_eq(a: &Vec<(Value, Value)>, b: &Vec<(Value, Value)>) -> (r: bool)
    ensures
        r == (entry_views_of(a@) == entry_views_of(b@)),
    decreases *a, 1int,
{
    broadcast use lemma_entry_views_of;

    if a.len() != b.len() {
        proof {
            lemma_entry_views_of(a@);
            lemma_entry_views_of(b@);
        }
        return false;
    }
    let mut i: usize = 0;
    while i < a.len()
        invariant
            a@.len() == b@.len(),
            i <= a@.len(),
            forall|j: int| 0 <= j < i ==> entry_views_of(a@)[j] == entry_views_of(b@)[j],
        decreases a@.len() - i, 0int,
    {
        proof {
            assert(decreases_to!(*a => a@));
            assert(decreases_to!(a@ => a@[i as int]));
            assert(decreases_to!(a@[i as int] => a@[i as int].0));
            assert(decreases_to!(a@[i as int] => a@[i as int].1));
        }
        let (k1, v1) = &a[i];
        let (k2, v2) = &b[i];
        let ke = value_eq(k1, k2);
        let ve = value_eq(v1, v2);
        proof {
            lemma_entry_views_of(a@);
            lemma_entry_views_of(b@);
            assert(entry_views_of(a@)[i as int] == (view_of(a@[i as int].0), view_of(
                a@[i as int].1,
            )));
            assert(entry_views_of(b@)[i as int] == (view_of(b@[i as int].0), view_of(
                b@[i as int].1,
            )));
        }
        if !(ke && ve) {
            return false;
        }
        i = i + 1;
    }
    proof {
        lemma_entry_views_of(a@);
        lemma_entry_views_of(b@);
        assert(entry_views_of(a@) =~= entry_views_of(b@));
    }
    true
}

impl PartialEq for Value {
    fn eq(&self, other: &Self) -> (r: bool) {
        value_eq(self, other)
    }
}

impl Eq for Value {

}

impl vstd::std_specs::cmp::PartialEqSpecImpl for Value {
    open spec fn obeys_eq_spec() -> bool {
        true
    }

    open spec fn eq_spec(&self, other: &Self) -> bool {
        self@ == other@
    }
}

} // verus!
