use vstd::prelude::*;
use vstd::string::StringExecFns;

verus! {

/// A symbol with a namespace and a name, e.g. `ns/n`.
#[derive(Debug)]
pub struct QualifiedSymbol(pub (String, String));

impl View for QualifiedSymbol {
    type V = (Seq<char>, Seq<char>);

    open spec fn view(&self) -> (Seq<char>, Seq<char>) {
        (self.0.0@, self.0.1@)
    }
}

impl QualifiedSymbol {
    pub fn new(namespace: String, name: String) -> (r: Self)
        ensures
            r@ == (namespace@, name@),
    {
        QualifiedSymbol((namespace, name))
    }

    pub fn namespace(&self) -> (r: &str)
        ensures
            r@ == self@.0,
    {
        let (namespace, _name) = &self.0;
        namespace.as_str()
    }

    pub fn name(&self) -> (r: &str)
        ensures
            r@ == self@.1,
    {
        let (_namespace, name) = &self.0;
        name.as_str()
    }
}

/// Helper to make it easier to create a [`QualifiedSymbol`].
pub fn new(namespace: &str, name: &str) -> (r: QualifiedSymbol)
    ensures
        r@ == (namespace@, name@),
{
    QualifiedSymbol((String::from_str(namespace), String::from_str(name)))
}

impl Clone for QualifiedSymbol {
    fn clone(&self) -> (r: Self)
        ensures
            r == *self,
    {
        QualifiedSymbol((self.0.0.clone(), self.0.1.clone()))
    }
}

impl PartialEq for QualifiedSymbol {
    fn eq(&self, other: &Self) -> (r: bool) {
        self.0.0 == other.0.0 && self.0.1 == other.0.1
    }
}

impl Eq for QualifiedSymbol {

}

impl vstd::std_specs::cmp::PartialEqSpecImpl for QualifiedSymbol {
    open spec fn obeys_eq_spec() -> bool {
        true
    }

    open spec fn eq_spec(&self, other: &Self) -> bool {
        self@ == other@
    }
}

} // verus!
