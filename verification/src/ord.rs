use vstd::prelude::*;
use core::cmp::Ordering;
use vstd::string::StrSliceExecFns;
use crate::value::{Value, ValueModel, views_of, view_of, entry_views_of, lemma_views_of,
    lemma_entry_views_of};
use crate::symbol::{Symbol, SymbolModel};
use crate::keyword::{Keyword, KeywordModel};

verus! {

/// The rank of a value's kind in the total value order: values of different
/// kinds order by kind first.
pub open spec fn rank(m: ValueModel) -> int {
    match m {
        ValueModel::Nil => 0,
        ValueModel::Boolean(..) => 1,
        ValueModel::Integer(..) => 2,
        ValueModel::Float(..) => 3,
        ValueModel::String(..) => 4,
        ValueModel::Symbol(..) => 5,
        ValueModel::Keyword(..) => 6,
        ValueModel::List(..) => 7,
        ValueModel::Vector(..) => 8,
        ValueModel::SetVal(..) => 9,
        ValueModel::MapVal(..) => 10,
        ValueModel::Var(..) => 11,
        ValueModel::Callable(..) => 12,
        ValueModel::Handle(..) => 13,
    }
}

pub open spec fn cmp_int(a: int, b: int) -> Ordering {
    if a < b {
        Ordering::Less
    } else if a > b {
        Ordering::Greater
    } else {
        Ordering::Equal
    }
}

pub open spec fn cmp_bool(a: bool, b: bool) -> Ordering {
    cmp_int(
        if a {
            1int
        } else {
            0int
        },
        if b {
            1int
        } else {
            0int
        },
    )
}

/// Lexicographic order on character sequences, by code point.
pub open spec fn cmp_chars(a: Seq<char>, b: Seq<char>) -> Ordering
    decreases a.len(),
{
    if a.len() == 0 && b.len() == 0 {
        Ordering::Equal
    } else if a.len() == 0 {
        Ordering::Less
    } else if b.len() == 0 {
        Ordering::Greater
    } else {
        let head = cmp_int(a[0] as int, b[0] as int);
        if head is Equal {
            cmp_chars(a.drop_first(), b.drop_first())
        } else {
            head
        }
    }
}

/// Order on two character-sequence pairs: first component, then second.
pub open spec fn cmp_char_pairs(a: (Seq<char>, Seq<char>), b: (Seq<char>, Seq<char>)) -> Ordering {
    let first = cmp_chars(a.0, b.0);
    if first is Equal {
        cmp_chars(a.1, b.1)
    } else {
        first
    }
}

pub open spec fn cmp_symbol(a: SymbolModel, b: SymbolModel) -> Ordering {
    match (a, b) {
        (SymbolModel::Unqualified { name: n1 }, SymbolModel::Unqualified { name: n2 }) => cmp_chars(
            n1,
            n2,
        ),
        (SymbolModel::Unqualified { .. }, SymbolModel::Qualified { .. }) => Ordering::Less,
        (SymbolModel::Qualified { .. }, SymbolModel::Unqualified { .. }) => Ordering::Greater,
        (
            SymbolModel::Qualified { namespace: ns1, name: n1 },
            SymbolModel::Qualified { namespace: ns2, name: n2 },
        ) => cmp_char_pairs((ns1, n1), (ns2, n2)),
    }
}

pub open spec fn cmp_keyword(a: KeywordModel, b: KeywordModel) -> Ordering {
    match (a, b) {
        (KeywordModel::Unqualified { name: n1 }, KeywordModel::Unqualified { name: n2 }) => cmp_chars(
            n1,
            n2,
        ),
        (KeywordModel::Unqualified { .. }, KeywordModel::Qualified { .. }) => Ordering::Less,
        (KeywordModel::Qualified { .. }, KeywordModel::Unqualified { .. }) => Ordering::Greater,
        (
            KeywordModel::Qualified { namespace: ns1, name: n1 },
            KeywordModel::Qualified { namespace: ns2, name: n2 },
        ) => cmp_char_pairs((ns1, n1), (ns2, n2)),
    }
}

/// The total order on values: by kind rank first, then by payload; collections
/// compare lexicographically, elementwise.
pub open spec fn cmp_model(a: ValueModel, b: ValueModel) -> Ordering
    decreases a, 0int,
{
    if rank(a) != rank(b) {
        cmp_int(rank(a), rank(b))
    } else {
        match (a, b) {
            (ValueModel::Boolean(x), ValueModel::Boolean(y)) => cmp_bool(x, y),
            (ValueModel::Integer(x), ValueModel::Integer(y)) => cmp_int(x, y),
            (ValueModel::Float(x), ValueModel::Float(y)) => cmp_chars(x, y),
            (ValueModel::String(x), ValueModel::String(y)) => cmp_chars(x, y),
            (ValueModel::Symbol(x), ValueModel::Symbol(y)) => cmp_symbol(x, y),
            (ValueModel::Keyword(x), ValueModel::Keyword(y)) => cmp_keyword(x, y),
            (ValueModel::List(x), ValueModel::List(y)) => cmp_models(x, y),
            (ValueModel::Vector(x), ValueModel::Vector(y)) => cmp_models(x, y),
            (ValueModel::SetVal(x), ValueModel::SetVal(y)) => cmp_models(x, y),
            (ValueModel::MapVal(x), ValueModel::MapVal(y)) => cmp_entry_models(x, y),
            (ValueModel::Var(x), ValueModel::Var(y)) => cmp_int(x, y),
            (ValueModel::Callable(x), ValueModel::Callable(y)) => cmp_int(x, y),
            (ValueModel::Handle(x), ValueModel::Handle(y)) => cmp_int(x, y),
            _ => Ordering::Equal,
        }
    }
}

/// Lexicographic order on sequences of values.
pub open spec fn cmp_models(a: Seq<ValueModel>, b: Seq<ValueModel>) -> Ordering
    decreases a, 1int,
{
    if a.len() == 0 && b.len() == 0 {
        Ordering::Equal
    } else if a.len() == 0 {
        Ordering::Less
    } else if b.len() == 0 {
        Ordering::Greater
    } else {
        let head = cmp_model(a[0], b[0]);
        if head is Equal {
            cmp_models(a.drop_first(), b.drop_first())
        } else {
            head
        }
    }
}

/// Lexicographic order on sequences of key-value pairs: key first, then value.
pub open spec fn cmp_entry_models(
    a: Seq<(ValueModel, ValueModel)>,
    b: Seq<(ValueModel, ValueModel)>,
) -> Ordering
    decreases a, 1int,
    via cmp_entry_models_decreases
{
    if a.len() == 0 && b.len() == 0 {
        Ordering::Equal
    } else if a.len() == 0 {
        Ordering::Less
    } else if b.len() == 0 {
        Ordering::Greater
    } else {
        let key = cmp_model(a[0].0, b[0].0);
        let val = cmp_model(a[0].1, b[0].1);
        let head = if key is Equal {
            val
        } else {
            key
        };
        if head is Equal {
            cmp_entry_models(a.drop_first(), b.drop_first())
        } else {
            head
        }
    }
}

#[via_fn]
proof fn cmp_entry_models_decreases(a: Seq<(ValueModel, ValueModel)>, b: Seq<(ValueModel, ValueModel)>) {
    if a.len() > 0 && b.len() > 0 {
        assert(decreases_to!(a => a[0]));
        assert(decreases_to!(a[0] => a[0].0));
        assert(decreases_to!(a[0] => a[0].1));
    }
}

/// Strict order: `a` comes before `b` in the total value order.
pub open spec fn lt_model(a: ValueModel, b: ValueModel) -> bool {
    cmp_model(a, b) is Less
}

/// Equality of character slices, decided through the character order.
pub fn str_eq(a: &str, b: &str) -> (r: bool)
    ensures
        r == (a@ == b@),
{
    let o = str_cmp(a, b);
    proof {
        match o {
            Ordering::Equal => {
                crate::ord_laws::lemma_cmp_chars_eq(a@, b@);
            },
            _ => {
                if a@ == b@ {
                    crate::ord_laws::lemma_cmp_chars_refl(a@);
                }
            },
        }
    }
    matches!(o, Ordering::Equal)
}

/// The order on character slices, as executable code.
pub fn str_cmp(a: &str, b: &str) -> (o: Ordering)
    ensures
        o == cmp_chars(a@, b@),
{
    let alen = a.unicode_len();
    let blen = b.unicode_len();
    let mut i: usize = 0;
    proof {
        vstd::seq_lib::lemma_seq_skip_nothing(a@, 0);
        vstd::seq_lib::lemma_seq_skip_nothing(b@, 0);
    }
    loop
        invariant
            i <= alen,
            i <= blen,
            alen == a@.len(),
            blen == b@.len(),
            cmp_chars(a@, b@) == cmp_chars(a@.skip(i as int), b@.skip(i as int)),
        decreases alen - i,
    {
        proof {
            vstd::seq_lib::lemma_seq_skip_nothing(a@, 0);
            vstd::seq_lib::lemma_seq_skip_nothing(b@, 0);
        }
        if i == alen && i == blen {
            proof {
                assert(cmp_chars(a@.skip(i as int), b@.skip(i as int)) is Equal);
            }
            return Ordering::Equal;
        }
        if i == alen {
            proof {
                assert(cmp_chars(a@.skip(i as int), b@.skip(i as int)) is Less);
            }
            return Ordering::Less;
        }
        if i == blen {
            proof {
                assert(cmp_chars(a@.skip(i as int), b@.skip(i as int)) is Greater);
            }
            return Ordering::Greater;
        }
        let ca = a.get_char(i);
        let cb = b.get_char(i);
        proof {
            assert(a@.skip(i as int)[0] == a@[i as int]);
            assert(b@.skip(i as int)[0] == b@[i as int]);
            assert(a@.skip(i as int).drop_first() =~= a@.skip(i + 1));
            assert(b@.skip(i as int).drop_first() =~= b@.skip(i + 1));
        }
        if (ca as u32) < (cb as u32) {
            return Ordering::Less;
        }
        if (ca as u32) > (cb as u32) {
            return Ordering::Greater;
        }
        i = i + 1;
    }
}

fn symbol_cmp(a: &Symbol, b: &Symbol) -> (o: Ordering)
    ensures
        o == cmp_symbol(a@, b@),
{
    match (a, b) {
        (Symbol::Unqualified(x), Symbol::Unqualified(y)) => str_cmp(x.name(), y.name()),
        (Symbol::Unqualified(..), Symbol::Qualified(..)) => Ordering::Less,
        (Symbol::Qualified(..), Symbol::Unqualified(..)) => Ordering::Greater,
        (Symbol::Qualified(x), Symbol::Qualified(y)) => {
            let first = str_cmp(x.namespace(), y.namespace());
            match first {
                Ordering::Equal => str_cmp(x.name(), y.name()),
                _ => first,
            }
        },
    }
}

fn keyword_cmp(a: &Keyword, b: &Keyword) -> (o: Ordering)
    ensures
        o == cmp_keyword(a@, b@),
{
    match (a, b) {
        (Keyword::Unqualified(x), Keyword::Unqualified(y)) => str_cmp(x.name(), y.name()),
        (Keyword::Unqualified(..), Keyword::Qualified(..)) => Ordering::Less,
        (Keyword::Qualified(..), Keyword::Unqualified(..)) => Ordering::Greater,
        (Keyword::Qualified(x), Keyword::Qualified(y)) => {
            let first = str_cmp(x.namespace(), y.namespace());
            match first {
                Ordering::Equal => str_cmp(x.name(), y.name()),
                _ => first,
            }
        },
    }
}

fn rank_of(v: &Value) -> (r: u32)
    ensures
        r as int == rank(v@),
{
    match v {
        Value::Nil => 0,
        Value::Boolean(..) => 1,
        Value::Integer(..) => 2,
        Value::Float(..) => 3,
        Value::String(..) => 4,
        Value::Symbol(..) => 5,
        Value::Keyword(..) => 6,
        Value::List(..) => 7,
        Value::Vector(..) => 8,
        Value::SetVal(..) => 9,
        Value::MapVal(..) => 10,
        Value::Var(..) => 11,
        Value::Callable(..) => 12,
        Value::Handle(..) => 13,
    }
}

/// The total order on values, as executable code.
pub fn value_cmp(a: &Value, b: &Value) -> (o: Ordering)
    ensures
        o == cmp_model(a@, b@),
    decreases *a, 0int,
{
    let ra = rank_of(a);
    let rb = rank_of(b);
    if ra < rb {
        return Ordering::Less;
    }
    if ra > rb {
        return Ordering::Greater;
    }
    match (a, b) {
        (Value::Nil, Value::Nil) => Ordering::Equal,
        (Value::Boolean(x), Value::Boolean(y)) => {
            if *x == *y {
                Ordering::Equal
            } else if *x {
                Ordering::Greater
            } else {
                Ordering::Less
            }
        },
        (Value::Integer(x), Value::Integer(y)) => {
            if *x < *y {
                Ordering::Less
            } else if *x > *y {
                Ordering::Greater
            } else {
                Ordering::Equal
            }
        },
        (Value::Float(x), Value::Float(y)) => str_cmp(x.as_str(), y.as_str()),
        (Value::String(x), Value::String(y)) => str_cmp(x.as_str(), y.as_str()),
        (Value::Symbol(x), Value::Symbol(y)) => symbol_cmp(x, y),
        (Value::Keyword(x), Value::Keyword(y)) => keyword_cmp(x, y),
        (Value::List(x), Value::List(y)) => {
            proof {
                assert(decreases_to!(*a => *x));
                assert(decreases_to!(*x => x.elems));
            }
            values_cmp(&x.elems, &y.elems)
        },
        (Value::Vector(x), Value::Vector(y)) => {
            proof {
                assert(decreases_to!(*a => *x));
                assert(decreases_to!(*x => x.elems));
            }
            values_cmp(&x.elems, &y.elems)
        },
        (Value::SetVal(x), Value::SetVal(y)) => {
            proof {
                assert(decreases_to!(*a => *x));
                assert(decreases_to!(*x => x.elems));
            }
            values_cmp(&x.elems, &y.elems)
        },
        (Value::MapVal(x), Value::MapVal(y)) => {
            proof {
                assert(decreases_to!(*a => *x));
                assert(decreases_to!(*x => x.entries));
            }
            entries_cmp(&x.entries, &y.entries)
        },
        (Value::Var(x), Value::Var(y)) => {
            if *x < *y {
                Ordering::Less
            } else if *x > *y {
                Ordering::Greater
            } else {
                Ordering::Equal
            }
        },
        (Value::Callable(x), Value::Callable(y)) => {
            if *x < *y {
                Ordering::Less
            } else if *x > *y {
                Ordering::Greater
            } else {
                Ordering::Equal
            }
        },
        (Value::Handle(x), Value::Handle(y)) => {
            if *x < *y {
                Ordering::Less
            } else if *x > *y {
                Ordering::Greater
            } else {
                Ordering::Equal
            }
        },
        _ => {
            proof {
                assert(false);
            }
            Ordering::Equal
        },
    }
}

/// Lexicographic order on vectors of values, as executable code.
pub fn values_cmp(a: &Vec<Value>, b: &Vec<Value>) -> (o: Ordering)
    ensures
        o == cmp_models(views_of(a@), views_of(b@)),
    decreases *a, 1int,
{
    let mut i: usize = 0;
    proof {
        vstd::seq_lib::lemma_seq_skip_nothing(views_of(a@), 0);
        vstd::seq_lib::lemma_seq_skip_nothing(views_of(b@), 0);
    }
    loop
        invariant
            i <= a@.len(),
            i <= b@.len(),
            cmp_models(views_of(a@), views_of(b@)) == cmp_models(
                views_of(a@).skip(i as int),
                views_of(b@).skip(i as int),
            ),
        decreases a@.len() - i,
    {
        proof {
            lemma_views_of(a@);
            lemma_views_of(b@);
            vstd::seq_lib::lemma_seq_skip_nothing(views_of(a@), 0);
            vstd::seq_lib::lemma_seq_skip_nothing(views_of(b@), 0);
        }
        if i == a.len() && i == b.len() {
            return Ordering::Equal;
        }
        if i == a.len() {
            return Ordering::Less;
        }
        if i == b.len() {
            return Ordering::Greater;
        }
        proof {
            assert(decreases_to!(*a => a@));
            assert(decreases_to!(a@ => a@[i as int]));
            assert(views_of(a@).skip(i as int)[0] == views_of(a@)[i as int]);
            assert(views_of(b@).skip(i as int)[0] == views_of(b@)[i as int]);
            assert(views_of(a@).skip(i as int).drop_first() =~= views_of(a@).skip(i + 1));
            assert(views_of(b@).skip(i as int).drop_first() =~= views_of(b@).skip(i + 1));
        }
        let head = value_cmp(&a[i], &b[i]);
        match head {
            Ordering::Equal => {
                i = i + 1;
            },
            _ => {
                return head;
            },
        }
    }
}

/// Lexicographic order on vectors of key-value pairs, as executable code.
pub fn entries_cmp(a: &Vec<(Value, Value)>, b: &Vec<(Value, Value)>) -> (o: Ordering)
    ensures
        o == cmp_entry_models(entry_views_of(a@), entry_views_of(b@)),
    decreases *a, 1int,
{
    let mut i: usize = 0;
    proof {
        vstd::seq_lib::lemma_seq_skip_nothing(entry_views_of(a@), 0);
        vstd::seq_lib::lemma_seq_skip_nothing(entry_views_of(b@), 0);
    }
    loop
        invariant
            i <= a@.len(),
            i <= b@.len(),
            cmp_entry_models(entry_views_of(a@), entry_views_of(b@)) == cmp_entry_models(
                entry_views_of(a@).skip(i as int),
                entry_views_of(b@).skip(i as int),
            ),
        decreases a@.len() - i,
    {
        proof {
            lemma_entry_views_of(a@);
            lemma_entry_views_of(b@);
            vstd::seq_lib::lemma_seq_skip_nothing(entry_views_of(a@), 0);
            vstd::seq_lib::lemma_seq_skip_nothing(entry_views_of(b@), 0);
        }
        if i == a.len() && i == b.len() {
            return Ordering::Equal;
        }
        if i == a.len() {
            return Ordering::Less;
        }
        if i == b.len() {
            return Ordering::Greater;
        }
        proof {
            assert(decreases_to!(*a => a@));
            assert(decreases_to!(a@ => a@[i as int]));
            assert(decreases_to!(a@[i as int] => a@[i as int].0));
            assert(decreases_to!(a@[i as int] => a@[i as int].1));
            assert(entry_views_of(a@).skip(i as int)[0] == entry_views_of(a@)[i as int]);
            assert(entry_views_of(b@).skip(i as int)[0] == entry_views_of(b@)[i as int]);
            assert(entry_views_of(a@).skip(i as int).drop_first() =~= entry_views_of(a@).skip(
                i + 1,
            ));
            assert(entry_views_of(b@).skip(i as int).drop_first() =~= entry_views_of(b@).skip(
                i + 1,
            ));
        }
        let (k1, v1) = &a[i];
        let (k2, v2) = &b[i];
        let key = value_cmp(k1, k2);
        let head = match key {
            Ordering::Equal => value_cmp(v1, v2),
            _ => key,
        };
        match head {
            Ordering::Equal => {
                i = i + 1;
            },
            _ => {
                return head;
            },
        }
    }
}

} // verus!
