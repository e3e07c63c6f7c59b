use vstd::prelude::*;
use crate::value::{Value, ValueModel};

verus! {

/// A single mutable binding cell, possibly unbound. Vars are owned by an
/// [`Env`](crate::env::Env)'s var table; a `Value::Var` holds the cell's
/// index there, so every holder of the handle observes rebinding.
#[derive(Debug)]
pub struct Var {
    pub value: Option<Value>,
}

impl View for Var {
    type V = Option<ValueModel>;

    open spec fn view(&self) -> Option<ValueModel> {
        match self.value {
            Some(v) => Some(v@),
            None => None,
        }
    }
}

impl Var {
    pub fn new_unbound() -> (r: Self)
        ensures
            r@ is None,
    {
        Var { value: None }
    }

    pub fn new_bound(v: Value) -> (r: Self)
        ensures
            r@ == Some(v@),
    {
        Var { value: Some(v) }
    }

    pub fn is_bound(&self) -> (r: bool)
        ensures
            r == (self@ is Some),
    {
        matches!(self.value, Some(..))
    }

    pub fn is_unbound(&self) -> (r: bool)
        ensures
            r == (self@ is None),
    {
        matches!(self.value, None)
    }

    /// The current content, or `None` when unbound.
    pub fn deref(&self) -> (r: Option<Value>)
        ensures
            match r {
                Some(v) => self@ == Some(v@),
                None => self@ is None,
            },
    {
        match &self.value {
            Some(v) => Some(v.clone()),
            None => None,
        }
    }

    /// Sets the content; every holder of this cell's handle sees the change.
    pub fn bind(&mut self, v: Value)
        ensures
            final(self)@ == Some(v@),
    {
        self.value = Some(v);
    }

    /// Clears the content back to unbound.
    pub fn unbind(&mut self)
        ensures
            final(self)@ is None,
    {
        self.value = None;
    }
}

impl Clone for Var {
    fn clone(&self) -> (r: Self)
        ensures
            r@ == self@,
    {
        match &self.value {
            Some(v) => Var { value: Some(v.clone()) },
            None => Var { value: None },
        }
    }
}

} // verus!
