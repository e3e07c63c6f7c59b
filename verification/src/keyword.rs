use vstd::prelude::*;
use crate::unqualified_keyword::UnqualifiedKeyword;
use crate::qualified_keyword::QualifiedKeyword;

verus! {

/// Mathematical model of a keyword: a name, optionally qualified by a namespace.
pub enum KeywordModel {
    Unqualified { name: Seq<char> },
    Qualified { namespace: Seq<char>, name: Seq<char> },
}

impl KeywordModel {
    /// The name part of a keyword.
    pub open spec fn name(self) -> Seq<char> {
        match self {
            KeywordModel::Unqualified { name } => name,
            KeywordModel::Qualified { name, .. } => name,
        }
    }
}

/// A self-evaluating identity atom, e.g. `:n` or `:ns/n`.
#[derive(Debug)]
pub enum Keyword {
    Unqualified(UnqualifiedKeyword),
    Qualified(QualifiedKeyword),
}

impl View for Keyword {
    type V = KeywordModel;

    open spec fn view(&self) -> KeywordModel {
        match *self {
            Keyword::Unqualified(k) => KeywordModel::Unqualified { name: k@ },
            Keyword::Qualified(k) => KeywordModel::Qualified { namespace: k@.0, name: k@.1 },
        }
    }
}

impl Keyword {
    pub fn from_unqualified(keyword: UnqualifiedKeyword) -> (r: Self)
        ensures
            r@ == (KeywordModel::Unqualified { name: keyword@ }),
    {
        Keyword::Unqualified(keyword)
    }

    pub fn from_qualified(keyword: QualifiedKeyword) -> (r: Self)
        ensures
            r@ == (KeywordModel::Qualified { namespace: keyword@.0, name: keyword@.1 }),
    {
        Keyword::Qualified(keyword)
    }

    pub fn is_unqualified(&self) -> (r: bool)
        ensures
            r == (self@ is Unqualified),
    {
        matches!(self, Keyword::Unqualified(..))
    }

    pub fn is_qualified(&self) -> (r: bool)
        ensures
            r == (self@ is Qualified),
    {
        matches!(self, Keyword::Qualified(..))
    }

    pub fn name(&self) -> (r: &str)
        ensures
            r@ == self@.name(),
    {
        match self {
            Keyword::Unqualified(kw) => kw.name(),
            Keyword::Qualified(kw) => kw.name(),
        }
    }

    pub fn maybe_namespace(&self) -> (r: Option<&str>)
        ensures
            match r {
                Some(ns) => self@ matches KeywordModel::Qualified { namespace, .. } && ns@
                    == namespace,
                None => self@ is Unqualified,
            },
    {
        match self {
            Keyword::Qualified(kw) => Some(kw.namespace()),
            Keyword::Unqualified(..) => None,
        }
    }

    /// The namespace of a keyword known to be qualified.
    pub fn namespace(&self) -> (r: &str)
        requires
            self@ is Qualified,
        ensures
            r@ == self@->Qualified_namespace,
    {
        match self {
            Keyword::Qualified(kw) => kw.namespace(),
            Keyword::Unqualified(..) => unreached(),
        }
    }

    pub fn try_as_unqualified(&self) -> (r: Result<&UnqualifiedKeyword, &Self>)
        ensures
            match r {
                Ok(kw) => self@ == (KeywordModel::Unqualified { name: kw@ }),
                Err(s) => s == self && self@ is Qualified,
            },
    {
        match self {
            Keyword::Unqualified(kw) => Ok(kw),
            Keyword::Qualified(..) => Err(self),
        }
    }

    /// The payload of a keyword known to be unqualified.
    pub fn as_unqualified(&self) -> (r: &UnqualifiedKeyword)
        requires
            self@ is Unqualified,
        ensures
            self@ == (KeywordModel::Unqualified { name: r@ }),
    {
        match self {
            Keyword::Unqualified(kw) => kw,
            Keyword::Qualified(..) => unreached(),
        }
    }

    pub fn try_as_qualified(&self) -> (r: Result<&QualifiedKeyword, &Self>)
        ensures
            match r {
                Ok(kw) => self@ == (KeywordModel::Qualified { namespace: kw@.0, name: kw@.1 }),
                Err(s) => s == self && self@ is Unqualified,
            },
    {
        match self {
            Keyword::Qualified(kw) => Ok(kw),
            Keyword::Unqualified(..) => Err(self),
        }
    }

    /// The payload of a keyword known to be qualified.
    pub fn as_qualified(&self) -> (r: &QualifiedKeyword)
        requires
            self@ is Qualified,
        ensures
            self@ == (KeywordModel::Qualified { namespace: r@.0, name: r@.1 }),
    {
        match self {
            Keyword::Qualified(kw) => kw,
            Keyword::Unqualified(..) => unreached(),
        }
    }
}

impl Clone for Keyword {
    fn clone(&self) -> (r: Self)
        ensures
            r == *self,
    {
        match self {
            Keyword::Unqualified(k) => Keyword::Unqualified(k.clone()),
            Keyword::Qualified(k) => Keyword::Qualified(k.clone()),
        }
    }
}

impl PartialEq for Keyword {
    fn eq(&self, other: &Self) -> (r: bool) {
        match (self, other) {
            (Keyword::Unqualified(a), Keyword::Unqualified(b)) => a == b,
            (Keyword::Qualified(a), Keyword::Qualified(b)) => a == b,
            _ => false,
        }
    }
}

impl Eq for Keyword {

}

impl vstd::std_specs::cmp::PartialEqSpecImpl for Keyword {
    open spec fn obeys_eq_spec() -> bool {
        true
    }

    open spec fn eq_spec(&self, other: &Self) -> bool {
        self@ == other@
    }
}

} // verus!
