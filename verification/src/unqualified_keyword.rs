use vstd::prelude::*;
use vstd::string::StringExecFns;

verus! {

/// A keyword with a name only (no namespace), e.g. `:n`.
#[derive(Debug)]
pub struct UnqualifiedKeyword(pub String);

impl View for UnqualifiedKeyword {
    type V = Seq<char>;

    open spec fn view(&self) -> Seq<char> {
        self.0@
    }
}

impl UnqualifiedKeyword {
    pub fn new(name: String) -> (r: Self)
        ensures
            r@ == name@,
    {
        UnqualifiedKeyword(name)
    }

    pub fn name(&self) -> (r: &str)
        ensures
            r@ == self@,
    {
        self.0.as_str()
    }
}

/// Helper to make it easier to create an [`UnqualifiedKeyword`].
pub fn new(name: &str) -> (r: UnqualifiedKeyword)
    ensures
        r@ == name@,
{
    UnqualifiedKeyword(String::from_str(name))
}

impl Clone for UnqualifiedKeyword {
    fn clone(&self) -> (r: Self)
        ensures
            r == *self,
    {
        UnqualifiedKeyword(self.0.clone())
    }
}

impl PartialEq for UnqualifiedKeyword {
    fn eq(&self, other: &Self) -> (r: bool) {
        self.0 == other.0
    }
}

impl Eq for UnqualifiedKeyword {

}

impl vstd::std_specs::cmp::PartialEqSpecImpl for UnqualifiedKeyword {
    open spec fn obeys_eq_spec() -> bool {
        true
    }

    open spec fn eq_spec(&self, other: &Self) -> bool {
        self@ == other@
    }
}

} // verus!
