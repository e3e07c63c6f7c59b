use vstd::prelude::*;
use vstd::string::StringExecFns;

verus! {

/// A symbol with a name only (no namespace), e.g. `n`.
#[derive(Debug)]
pub struct UnqualifiedSymbol(pub String);

impl View for UnqualifiedSymbol {
    type V = Seq<char>;

    open spec fn view(&self) -> Seq<char> {
        self.0@
    }
}

impl UnqualifiedSymbol {
    pub fn new(name: String) -> (r: Self)
        ensures
            r@ == name@,
    {
        UnqualifiedSymbol(name)
    }

    pub fn name(&self) -> (r: &str)
        ensures
            r@ == self@,
    {
        self.0.as_str()
    }
}

/// Helper to make it easier to create an [`UnqualifiedSymbol`].
pub fn new(name: &str) -> (r: UnqualifiedSymbol)
    ensures
        r@ == name@,
{
    UnqualifiedSymbol(String::from_str(name))
}

impl Clone for UnqualifiedSymbol {
    fn clone(&self) -> (r: Self)
        ensures
            r == *self,
    {
        UnqualifiedSymbol(self.0.clone())
    }
}

impl PartialEq for UnqualifiedSymbol {
    fn eq(&self, other: &Self) -> (r: bool) {
        self.0 == other.0
    }
}

impl Eq for UnqualifiedSymbol {

}

impl vstd::std_specs::cmp::PartialEqSpecImpl for UnqualifiedSymbol {
    open spec fn obeys_eq_spec() -> bool {
        true
    }

    open spec fn eq_spec(&self, other: &Self) -> bool {
        self@ == other@
    }
}

} // verus!
