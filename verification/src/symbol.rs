use vstd::prelude::*;
use crate::unqualified_symbol::UnqualifiedSymbol;
use crate::qualified_symbol::QualifiedSymbol;

verus! {

/// Mathematical model of a symbol: a name, optionally qualified by a namespace.
pub enum SymbolModel {
    Unqualified { name: Seq<char> },
    Qualified { namespace: Seq<char>, name: Seq<char> },
}

impl SymbolModel {
    /// The name part of a symbol.
    pub open spec fn name(self) -> Seq<char> {
        match self {
            SymbolModel::Unqualified { name } => name,
            SymbolModel::Qualified { name, .. } => name,
        }
    }
}

/// A name, possibly with a namespace, usually intended to be resolved into a value.
#[derive(Debug)]
pub enum Symbol {
    Unqualified(UnqualifiedSymbol),
    Qualified(QualifiedSymbol),
}

impl View for Symbol {
    type V = SymbolModel;

    open spec fn view(&self) -> SymbolModel {
        match *self {
            Symbol::Unqualified(s) => SymbolModel::Unqualified { name: s@ },
            Symbol::Qualified(s) => SymbolModel::Qualified { namespace: s@.0, name: s@.1 },
        }
    }
}

impl Symbol {
    pub fn from_unqualified(symbol: UnqualifiedSymbol) -> (r: Self)
        ensures
            r@ == (SymbolModel::Unqualified { name: symbol@ }),
    {
        Symbol::Unqualified(symbol)
    }

    pub fn from_qualified(symbol: QualifiedSymbol) -> (r: Self)
        ensures
            r@ == (SymbolModel::Qualified { namespace: symbol@.0, name: symbol@.1 }),
    {
        Symbol::Qualified(symbol)
    }

    pub fn is_unqualified(&self) -> (r: bool)
        ensures
            r == (self@ is Unqualified),
    {
        matches!(self, Symbol::Unqualified(..))
    }

    pub fn is_qualified(&self) -> (r: bool)
        ensures
            r == (self@ is Qualified),
    {
        matches!(self, Symbol::Qualified(..))
    }

    pub fn name(&self) -> (r: &str)
        ensures
            r@ == self@.name(),
    {
        match self {
            Symbol::Unqualified(sym) => sym.name(),
            Symbol::Qualified(sym) => sym.name(),
        }
    }

    /// The namespace of a symbol known to be qualified.
    pub fn namespace_panicing(&self) -> (r: &str)
        requires
            self@ is Qualified,
        ensures
            r@ == self@->Qualified_namespace,
    {
        match self {
            Symbol::Qualified(sym) => sym.namespace(),
            Symbol::Unqualified(..) => unreached(),
        }
    }

    pub fn namespace(&self) -> (r: Option<&str>)
        ensures
            match r {
                Some(ns) => self@ matches SymbolModel::Qualified { namespace, .. } && ns@
                    == namespace,
                None => self@ is Unqualified,
            },
    {
        match self {
            Symbol::Qualified(sym) => Some(sym.namespace()),
            Symbol::Unqualified(..) => None,
        }
    }
}

impl Clone for Symbol {
    fn clone(&self) -> (r: Self)
        ensures
            r == *self,
    {
        match self {
            Symbol::Unqualified(s) => Symbol::Unqualified(s.clone()),
            Symbol::Qualified(s) => Symbol::Qualified(s.clone()),
        }
    }
}

impl PartialEq for Symbol {
    fn eq(&self, other: &Self) -> (r: bool) {
        match (self, other) {
            (Symbol::Unqualified(a), Symbol::Unqualified(b)) => a == b,
            (Symbol::Qualified(a), Symbol::Qualified(b)) => a == b,
            _ => false,
        }
    }
}

impl Eq for Symbol {

}

impl vstd::std_specs::cmp::PartialEqSpecImpl for Symbol {
    open spec fn obeys_eq_spec() -> bool {
        true
    }

    open spec fn eq_spec(&self, other: &Self) -> bool {
        self@ == other@
    }
}

} // verus!
