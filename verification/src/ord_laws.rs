use vstd::prelude::*;
use core::cmp::Ordering;
use crate::value::ValueModel;
use crate::symbol::SymbolModel;
use crate::keyword::KeywordModel;
use crate::ord::{cmp_chars, cmp_char_pairs, cmp_symbol, cmp_keyword, cmp_model, cmp_models,
    cmp_entry_models, rank};

verus! {

/// The opposite of an ordering.
pub open spec fn ord_flip(o: Ordering) -> Ordering {
    match o {
        Ordering::Less => Ordering::Greater,
        Ordering::Equal => Ordering::Equal,
        Ordering::Greater => Ordering::Less,
    }
}

pub proof fn lemma_cmp_chars_refl(a: Seq<char>)
    ensures
        cmp_chars(a, a) == Ordering::Equal,
    decreases a.len(),
{
    if a.len() > 0 {
        lemma_cmp_chars_refl(a.drop_first());
    }
}

pub proof fn lemma_cmp_chars_eq(a: Seq<char>, b: Seq<char>)
    requires
        cmp_chars(a, b) == Ordering::Equal,
    ensures
        a == b,
    decreases a.len(),
{
    if a.len() > 0 && b.len() > 0 {
        lemma_cmp_chars_eq(a.drop_first(), b.drop_first());
        assert(a[0] as int == b[0] as int);
        assert(a[0] as u32 == b[0] as u32);
        vstd::utf8::char_u32_cast(a[0], a[0] as u32);
        vstd::utf8::char_u32_cast(b[0], b[0] as u32);
        assert(a[0] == b[0]);
        assert forall|i: int| 0 <= i < a.len() implies a[i] == b[i] by {
            if i > 0 {
                assert(a.drop_first()[i - 1] == b.drop_first()[i - 1]);
            }
        }
        assert(a =~= b);
    } else {
        assert(a =~= b);
    }
}

pub proof fn lemma_cmp_chars_swap(a: Seq<char>, b: Seq<char>)
    ensures
        cmp_chars(b, a) == ord_flip(cmp_chars(a, b)),
    decreases a.len(),
{
    if a.len() > 0 && b.len() > 0 {
        lemma_cmp_chars_swap(a.drop_first(), b.drop_first());
    }
}

pub proof fn lemma_cmp_chars_trans(a: Seq<char>, b: Seq<char>, c: Seq<char>)
    requires
        cmp_chars(a, b) == Ordering::Less,
        cmp_chars(b, c) == Ordering::Less,
    ensures
        cmp_chars(a, c) == Ordering::Less,
    decreases a.len(),
{
    if a.len() == 0 {
    } else {
        if b.len() > 0 && c.len() > 0 {
            if a[0] as int == b[0] as int && b[0] as int == c[0] as int {
                lemma_cmp_chars_trans(a.drop_first(), b.drop_first(), c.drop_first());
            }
        }
    }
}

pub proof fn lemma_cmp_symbol_refl(a: SymbolModel)
    ensures
        cmp_symbol(a, a) == Ordering::Equal,
{
    match a {
        SymbolModel::Unqualified { name } => lemma_cmp_chars_refl(name),
        SymbolModel::Qualified { namespace, name } => {
            lemma_cmp_chars_refl(namespace);
            lemma_cmp_chars_refl(name);
        },
    }
}

pub proof fn lemma_cmp_symbol_eq(a: SymbolModel, b: SymbolModel)
    requires
        cmp_symbol(a, b) == Ordering::Equal,
    ensures
        a == b,
{
    match (a, b) {
        (SymbolModel::Unqualified { name: n1 }, SymbolModel::Unqualified { name: n2 }) => {
            lemma_cmp_chars_eq(n1, n2);
        },
        (
            SymbolModel::Qualified { namespace: ns1, name: n1 },
            SymbolModel::Qualified { namespace: ns2, name: n2 },
        ) => {
            lemma_cmp_chars_eq(ns1, ns2);
            lemma_cmp_chars_eq(n1, n2);
        },
        _ => {},
    }
}

pub proof fn lemma_cmp_symbol_swap(a: SymbolModel, b: SymbolModel)
    ensures
        cmp_symbol(b, a) == ord_flip(cmp_symbol(a, b)),
{
    match (a, b) {
        (SymbolModel::Unqualified { name: n1 }, SymbolModel::Unqualified { name: n2 }) => {
            lemma_cmp_chars_swap(n1, n2);
        },
        (
            SymbolModel::Qualified { namespace: ns1, name: n1 },
            SymbolModel::Qualified { namespace: ns2, name: n2 },
        ) => {
            lemma_cmp_chars_swap(ns1, ns2);
            lemma_cmp_chars_swap(n1, n2);
        },
        _ => {},
    }
}

pub proof fn lemma_cmp_symbol_trans(a: SymbolModel, b: SymbolModel, c: SymbolModel)
    requires
        cmp_symbol(a, b) == Ordering::Less,
        cmp_symbol(b, c) == Ordering::Less,
    ensures
        cmp_symbol(a, c) == Ordering::Less,
{
    match (a, b, c) {
        (
            SymbolModel::Unqualified { name: n1 },
            SymbolModel::Unqualified { name: n2 },
            SymbolModel::Unqualified { name: n3 },
        ) => {
            lemma_cmp_chars_trans(n1, n2, n3);
        },
        (
            SymbolModel::Qualified { namespace: ns1, name: n1 },
            SymbolModel::Qualified { namespace: ns2, name: n2 },
            SymbolModel::Qualified { namespace: ns3, name: n3 },
        ) => {
            if cmp_chars(ns1, ns2) == Ordering::Equal {
                lemma_cmp_chars_eq(ns1, ns2);
            }
            if cmp_chars(ns2, ns3) == Ordering::Equal {
                lemma_cmp_chars_eq(ns2, ns3);
            }
            if cmp_chars(ns1, ns2) == Ordering::Less && cmp_chars(ns2, ns3) == Ordering::Less {
                lemma_cmp_chars_trans(ns1, ns2, ns3);
            }
            if cmp_chars(n1, n2) == Ordering::Less && cmp_chars(n2, n3) == Ordering::Less {
                lemma_cmp_chars_trans(n1, n2, n3);
            }
        },
        _ => {},
    }
}

pub proof fn lemma_cmp_keyword_refl(a: KeywordModel)
    ensures
        cmp_keyword(a, a) == Ordering::Equal,
{
    match a {
        KeywordModel::Unqualified { name } => lemma_cmp_chars_refl(name),
        KeywordModel::Qualified { namespace, name } => {
            lemma_cmp_chars_refl(namespace);
            lemma_cmp_chars_refl(name);
        },
    }
}

pub proof fn lemma_cmp_keyword_eq(a: KeywordModel, b: KeywordModel)
    requires
        cmp_keyword(a, b) == Ordering::Equal,
    ensures
        a == b,
{
    match (a, b) {
        (KeywordModel::Unqualified { name: n1 }, KeywordModel::Unqualified { name: n2 }) => {
            lemma_cmp_chars_eq(n1, n2);
        },
        (
            KeywordModel::Qualified { namespace: ns1, name: n1 },
            KeywordModel::Qualified { namespace: ns2, name: n2 },
        ) => {
            lemma_cmp_chars_eq(ns1, ns2);
            lemma_cmp_chars_eq(n1, n2);
        },
        _ => {},
    }
}

pub proof fn lemma_cmp_keyword_swap(a: KeywordModel, b: KeywordModel)
    ensures
        cmp_keyword(b, a) == ord_flip(cmp_keyword(a, b)),
{
    match (a, b) {
        (KeywordModel::Unqualified { name: n1 }, KeywordModel::Unqualified { name: n2 }) => {
            lemma_cmp_chars_swap(n1, n2);
        },
        (
            KeywordModel::Qualified { namespace: ns1, name: n1 },
            KeywordModel::Qualified { namespace: ns2, name: n2 },
        ) => {
            lemma_cmp_chars_swap(ns1, ns2);
            lemma_cmp_chars_swap(n1, n2);
        },
        _ => {},
    }
}

pub proof fn lemma_cmp_keyword_trans(a: KeywordModel, b: KeywordModel, c: KeywordModel)
    requires
        cmp_keyword(a, b) == Ordering::Less,
        cmp_keyword(b, c) == Ordering::Less,
    ensures
        cmp_keyword(a, c) == Ordering::Less,
{
    match (a, b, c) {
        (
            KeywordModel::Unqualified { name: n1 },
            KeywordModel::Unqualified { name: n2 },
            KeywordModel::Unqualified { name: n3 },
        ) => {
            lemma_cmp_chars_trans(n1, n2, n3);
        },
        (
            KeywordModel::Qualified { namespace: ns1, name: n1 },
            KeywordModel::Qualified { namespace: ns2, name: n2 },
            KeywordModel::Qualified { namespace: ns3, name: n3 },
        ) => {
            if cmp_chars(ns1, ns2) == Ordering::Equal {
                lemma_cmp_chars_eq(ns1, ns2);
            }
            if cmp_chars(ns2, ns3) == Ordering::Equal {
                lemma_cmp_chars_eq(ns2, ns3);
            }
            if cmp_chars(ns1, ns2) == Ordering::Less && cmp_chars(ns2, ns3) == Ordering::Less {
                lemma_cmp_chars_trans(ns1, ns2, ns3);
            }
            if cmp_chars(n1, n2) == Ordering::Less && cmp_chars(n2, n3) == Ordering::Less {
                lemma_cmp_chars_trans(n1, n2, n3);
            }
        },
        _ => {},
    }
}

/// Comparing a value with itself yields `Equal`.
pub proof fn lemma_cmp_model_refl(a: ValueModel)
    ensures
        cmp_model(a, a) == Ordering::Equal,
    decreases a, 0int,
{
    match a {
        ValueModel::Float(x) => lemma_cmp_chars_refl(x),
        ValueModel::String(x) => lemma_cmp_chars_refl(x),
        ValueModel::Symbol(x) => lemma_cmp_symbol_refl(x),
        ValueModel::Keyword(x) => lemma_cmp_keyword_refl(x),
        ValueModel::List(x) => lemma_cmp_models_refl(x),
        ValueModel::Vector(x) => lemma_cmp_models_refl(x),
        ValueModel::SetVal(x) => lemma_cmp_models_refl(x),
        ValueModel::MapVal(x) => lemma_cmp_entry_models_refl(x),
        _ => {},
    }
}

pub proof fn lemma_cmp_models_refl(a: Seq<ValueModel>)
    ensures
        cmp_models(a, a) == Ordering::Equal,
    decreases a, 1int,
{
    if a.len() > 0 {
        lemma_cmp_model_refl(a[0]);
        lemma_cmp_models_refl(a.drop_first());
    }
}

pub proof fn lemma_cmp_entry_models_refl(a: Seq<(ValueModel, ValueModel)>)
    ensures
        cmp_entry_models(a, a) == Ordering::Equal,
    decreases a, 1int,
{
    if a.len() > 0 {
        lemma_cmp_model_refl(a[0].0);
        lemma_cmp_model_refl(a[0].1);
        lemma_cmp_entry_models_refl(a.drop_first());
    }
}

/// `Equal` in the total order means the same value.
pub proof fn lemma_cmp_model_eq(a: ValueModel, b: ValueModel)
    requires
        cmp_model(a, b) == Ordering::Equal,
    ensures
        a == b,
    decreases a, 0int,
{
    match (a, b) {
        (ValueModel::Float(x), ValueModel::Float(y)) => lemma_cmp_chars_eq(x, y),
        (ValueModel::String(x), ValueModel::String(y)) => lemma_cmp_chars_eq(x, y),
        (ValueModel::Symbol(x), ValueModel::Symbol(y)) => lemma_cmp_symbol_eq(x, y),
        (ValueModel::Keyword(x), ValueModel::Keyword(y)) => lemma_cmp_keyword_eq(x, y),
        (ValueModel::List(x), ValueModel::List(y)) => lemma_cmp_models_eq(x, y),
        (ValueModel::Vector(x), ValueModel::Vector(y)) => lemma_cmp_models_eq(x, y),
        (ValueModel::SetVal(x), ValueModel::SetVal(y)) => lemma_cmp_models_eq(x, y),
        (ValueModel::MapVal(x), ValueModel::MapVal(y)) => lemma_cmp_entry_models_eq(x, y),
        _ => {},
    }
}

pub proof fn lemma_cmp_models_eq(a: Seq<ValueModel>, b: Seq<ValueModel>)
    requires
        cmp_models(a, b) == Ordering::Equal,
    ensures
        a == b,
    decreases a, 1int,
{
    if a.len() > 0 && b.len() > 0 {
        lemma_cmp_model_eq(a[0], b[0]);
        lemma_cmp_models_eq(a.drop_first(), b.drop_first());
        assert forall|i: int| 0 <= i < a.len() implies a[i] == b[i] by {
            if i > 0 {
                assert(a.drop_first()[i - 1] == b.drop_first()[i - 1]);
            }
        }
        assert(a =~= b);
    } else {
        assert(a =~= b);
    }
}

pub proof fn lemma_cmp_entry_models_eq(
    a: Seq<(ValueModel, ValueModel)>,
    b: Seq<(ValueModel, ValueModel)>,
)
    requires
        cmp_entry_models(a, b) == Ordering::Equal,
    ensures
        a == b,
    decreases a, 1int,
{
    if a.len() > 0 && b.len() > 0 {
        lemma_cmp_model_eq(a[0].0, b[0].0);
        lemma_cmp_model_eq(a[0].1, b[0].1);
        lemma_cmp_entry_models_eq(a.drop_first(), b.drop_first());
        assert(a[0] == (a[0].0, a[0].1));
        assert(b[0] == (b[0].0, b[0].1));
        assert forall|i: int| 0 <= i < a.len() implies a[i] == b[i] by {
            if i > 0 {
                assert(a.drop_first()[i - 1] == b.drop_first()[i - 1]);
            }
        }
        assert(a =~= b);
    } else {
        assert(a =~= b);
    }
}

/// Swapping the arguments flips the ordering.
pub proof fn lemma_cmp_model_swap(a: ValueModel, b: ValueModel)
    ensures
        cmp_model(b, a) == ord_flip(cmp_model(a, b)),
    decreases a, 0int,
{
    match (a, b) {
        (ValueModel::Float(x), ValueModel::Float(y)) => lemma_cmp_chars_swap(x, y),
        (ValueModel::String(x), ValueModel::String(y)) => lemma_cmp_chars_swap(x, y),
        (ValueModel::Symbol(x), ValueModel::Symbol(y)) => lemma_cmp_symbol_swap(x, y),
        (ValueModel::Keyword(x), ValueModel::Keyword(y)) => lemma_cmp_keyword_swap(x, y),
        (ValueModel::List(x), ValueModel::List(y)) => lemma_cmp_models_swap(x, y),
        (ValueModel::Vector(x), ValueModel::Vector(y)) => lemma_cmp_models_swap(x, y),
        (ValueModel::SetVal(x), ValueModel::SetVal(y)) => lemma_cmp_models_swap(x, y),
        (ValueModel::MapVal(x), ValueModel::MapVal(y)) => lemma_cmp_entry_models_swap(x, y),
        _ => {},
    }
}

pub proof fn lemma_cmp_models_swap(a: Seq<ValueModel>, b: Seq<ValueModel>)
    ensures
        cmp_models(b, a) == ord_flip(cmp_models(a, b)),
    decreases a, 1int,
{
    if a.len() > 0 && b.len() > 0 {
        lemma_cmp_model_swap(a[0], b[0]);
        lemma_cmp_models_swap(a.drop_first(), b.drop_first());
    }
}

pub proof fn lemma_cmp_entry_models_swap(
    a: Seq<(ValueModel, ValueModel)>,
    b: Seq<(ValueModel, ValueModel)>,
)
    ensures
        cmp_entry_models(b, a) == ord_flip(cmp_entry_models(a, b)),
    decreases a, 1int,
{
    if a.len() > 0 && b.len() > 0 {
        lemma_cmp_model_swap(a[0].0, b[0].0);
        lemma_cmp_model_swap(a[0].1, b[0].1);
        lemma_cmp_entry_models_swap(a.drop_first(), b.drop_first());
    }
}

/// The order is transitive.
pub proof fn lemma_cmp_model_trans(a: ValueModel, b: ValueModel, c: ValueModel)
    requires
        cmp_model(a, b) == Ordering::Less,
        cmp_model(b, c) == Ordering::Less,
    ensures
        cmp_model(a, c) == Ordering::Less,
    decreases a, 0int,
{
    if rank(a) == rank(b) && rank(b) == rank(c) {
        match (a, b, c) {
            (ValueModel::Float(x), ValueModel::Float(y), ValueModel::Float(z)) => {
                lemma_cmp_chars_trans(x, y, z);
            },
            (ValueModel::String(x), ValueModel::String(y), ValueModel::String(z)) => {
                lemma_cmp_chars_trans(x, y, z);
            },
            (ValueModel::Symbol(x), ValueModel::Symbol(y), ValueModel::Symbol(z)) => {
                lemma_cmp_symbol_trans(x, y, z);
            },
            (ValueModel::Keyword(x), ValueModel::Keyword(y), ValueModel::Keyword(z)) => {
                lemma_cmp_keyword_trans(x, y, z);
            },
            (ValueModel::List(x), ValueModel::List(y), ValueModel::List(z)) => {
                lemma_cmp_models_trans(x, y, z);
            },
            (ValueModel::Vector(x), ValueModel::Vector(y), ValueModel::Vector(z)) => {
                lemma_cmp_models_trans(x, y, z);
            },
            (ValueModel::SetVal(x), ValueModel::SetVal(y), ValueModel::SetVal(z)) => {
                lemma_cmp_models_trans(x, y, z);
            },
            (ValueModel::MapVal(x), ValueModel::MapVal(y), ValueModel::MapVal(z)) => {
                lemma_cmp_entry_models_trans(x, y, z);
            },
            _ => {},
        }
    }
}

pub proof fn lemma_cmp_models_trans(a: Seq<ValueModel>, b: Seq<ValueModel>, c: Seq<ValueModel>)
    requires
        cmp_models(a, b) == Ordering::Less,
        cmp_models(b, c) == Ordering::Less,
    ensures
        cmp_models(a, c) == Ordering::Less,
    decreases a, 1int,
{
    if a.len() == 0 {
    } else {
        if b.len() > 0 && c.len() > 0 {
            if cmp_model(a[0], b[0]) == Ordering::Equal {
                lemma_cmp_model_eq(a[0], b[0]);
            }
            if cmp_model(b[0], c[0]) == Ordering::Equal {
                lemma_cmp_model_eq(b[0], c[0]);
            }
            if cmp_model(a[0], b[0]) == Ordering::Less && cmp_model(b[0], c[0])
                == Ordering::Less {
                lemma_cmp_model_trans(a[0], b[0], c[0]);
            }
            if cmp_model(a[0], c[0]) == Ordering::Equal {
                lemma_cmp_models_trans(a.drop_first(), b.drop_first(), c.drop_first());
            }
        }
    }
}

pub proof fn lemma_cmp_entry_models_trans(
    a: Seq<(ValueModel, ValueModel)>,
    b: Seq<(ValueModel, ValueModel)>,
    c: Seq<(ValueModel, ValueModel)>,
)
    requires
        cmp_entry_models(a, b) == Ordering::Less,
        cmp_entry_models(b, c) == Ordering::Less,
    ensures
        cmp_entry_models(a, c) == Ordering::Less,
    decreases a, 1int,
{
    if a.len() == 0 {
    } else {
        if b.len() > 0 && c.len() > 0 {
            if cmp_model(a[0].0, b[0].0) == Ordering::Equal {
                lemma_cmp_model_eq(a[0].0, b[0].0);
            }
            if cmp_model(b[0].0, c[0].0) == Ordering::Equal {
                lemma_cmp_model_eq(b[0].0, c[0].0);
            }
            if cmp_model(a[0].1, b[0].1) == Ordering::Equal {
                lemma_cmp_model_eq(a[0].1, b[0].1);
            }
            if cmp_model(b[0].1, c[0].1) == Ordering::Equal {
                lemma_cmp_model_eq(b[0].1, c[0].1);
            }
            if cmp_model(a[0].0, b[0].0) == Ordering::Less && cmp_model(b[0].0, c[0].0)
                == Ordering::Less {
                lemma_cmp_model_trans(a[0].0, b[0].0, c[0].0);
            }
            if cmp_model(a[0].1, b[0].1) == Ordering::Less && cmp_model(b[0].1, c[0].1)
                == Ordering::Less {
                lemma_cmp_model_trans(a[0].1, b[0].1, c[0].1);
            }
            if cmp_model(a[0].0, c[0].0) == Ordering::Equal && cmp_model(a[0].1, c[0].1)
                == Ordering::Equal {
                lemma_cmp_entry_models_trans(a.drop_first(), b.drop_first(), c.drop_first());
            }
        }
    }
}

} // verus!
