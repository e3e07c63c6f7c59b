use vstd::prelude::*;
use crate::value::{Value, ValueModel, views_of, view_of, lemma_views_of, lemma_views_of_push};

verus! {

broadcast use vstd::std_specs::vec::group_vec_axioms, lemma_views_of;

/// An ordered, persistent sequence of values with mutations applied at the
/// front. Every update returns a new list and leaves the receiver unchanged.
#[derive(Debug)]
pub struct List {
    pub elems: Vec<Value>,
}

impl View for List {
    type V = Seq<ValueModel>;

    open spec fn view(&self) -> Seq<ValueModel> {
        views_of(self.elems@)
    }
}

impl List {
    pub fn new_empty() -> (r: Self)
        ensures
            r@ == Seq::<ValueModel>::empty(),
    {
        let r = List { elems: Vec::new() };
        proof {
            assert(r@ =~= Seq::<ValueModel>::empty());
        }
        r
    }

    /// A list holding the given values, in order.
    pub fn new(elems: Vec<Value>) -> (r: Self)
        ensures
            r@ == views_of(elems@),
    {
        List { elems }
    }

    pub fn len(&self) -> (r: usize)
        ensures
            r == self@.len(),
    {
        self.elems.len()
    }

    pub fn is_empty(&self) -> (r: bool)
        ensures
            r == (self@.len() == 0),
    {
        self.elems.len() == 0
    }

    pub fn is_nonempty(&self) -> (r: bool)
        ensures
            r == (self@.len() > 0),
    {
        self.elems.len() > 0
    }

    /// The element at the given position.
    pub fn get(&self, i: usize) -> (r: &Value)
        requires
            i < self@.len(),
        ensures
            r@ == self@[i as int],
    {
        &self.elems[i]
    }

    pub fn first(&self) -> (r: Option<Value>)
        ensures
            match r {
                Some(v) => self@.len() > 0 && v@ == self@[0],
                None => self@.len() == 0,
            },
    {
        if self.elems.len() > 0 {
            Some(self.elems[0].clone())
        } else {
            None
        }
    }

    pub fn first_or_nil(&self) -> (r: Value)
        ensures
            self@.len() > 0 ==> r@ == self@[0],
            self@.len() == 0 ==> r@ == ValueModel::Nil,
    {
        match self.first() {
            Some(v) => v,
            None => Value::Nil,
        }
    }

    pub fn first_or(&self, or_value: Value) -> (r: Value)
        ensures
            self@.len() > 0 ==> r@ == self@[0],
            self@.len() == 0 ==> r@ == or_value@,
    {
        match self.first() {
            Some(v) => v,
            None => or_value,
        }
    }

    pub fn last(&self) -> (r: Option<Value>)
        ensures
            match r {
                Some(v) => self@.len() > 0 && v@ == self@.last(),
                None => self@.len() == 0,
            },
    {
        if self.elems.len() > 0 {
            Some(self.elems[self.elems.len() - 1].clone())
        } else {
            None
        }
    }

    /// The elements after the first; the empty list stays empty.
    pub fn rest(&self) -> (r: Self)
        ensures
            self@.len() > 0 ==> r@ == self@.drop_first(),
            self@.len() == 0 ==> r@ == Seq::<ValueModel>::empty(),
    {
        if self.elems.len() == 0 {
            return List::new_empty();
        }
        let mut elems: Vec<Value> = Vec::new();
        let mut i: usize = 1;
        proof {
            assert(views_of(elems@) =~= self@.subrange(1, 1));
        }
        while i < self.elems.len()
            invariant
                1 <= i <= self.elems@.len(),
                views_of(elems@) == self@.subrange(1, i as int),
            decreases self.elems@.len() - i,
        {
            let ghost old_elems = elems@;
            elems.push(self.elems[i].clone());
            i = i + 1;
            proof {
                lemma_views_of_push(old_elems, elems@.last());
                lemma_views_of(self.elems@);
                assert(views_of(elems@) =~= self@.subrange(1, i as int));
            }
        }
        let r = List { elems };
        proof {
            assert(r@ =~= self@.drop_first());
        }
        r
    }

    /// A new list with the value at the front; the receiver is unchanged.
    pub fn push_front(&self, value: Value) -> (r: Self)
        ensures
            r@ == seq![value@] + self@,
    {
        let ghost vm = value@;
        let mut elems: Vec<Value> = Vec::new();
        elems.push(value);
        proof {
            assert(views_of(elems@) =~= seq![vm] + self@.subrange(0, 0));
        }
        let mut i: usize = 0;
        while i < self.elems.len()
            invariant
                i <= self.elems@.len(),
                views_of(elems@) == seq![vm] + self@.subrange(0, i as int),
            decreases self.elems@.len() - i,
        {
            let ghost old_elems = elems@;
            elems.push(self.elems[i].clone());
            i = i + 1;
            proof {
                lemma_views_of_push(old_elems, elems@.last());
                lemma_views_of(self.elems@);
                assert(views_of(elems@) =~= seq![vm] + self@.subrange(0, i as int));
            }
        }
        let r = List { elems };
        proof {
            assert(self@.subrange(0, self@.len() as int) =~= self@);
            assert(r@ =~= seq![vm] + self@);
        }
        r
    }

    /// Prepends the value in place.
    pub fn push_front_mut(&mut self, value: Value)
        ensures
            final(self)@ == seq![value@] + old(self)@,
    {
        let r = self.push_front(value);
        *self = r;
    }

    /// Removes the first element in place; the empty list stays empty.
    pub fn drop_first_mut(&mut self)
        ensures
            old(self)@.len() > 0 ==> final(self)@ == old(self)@.drop_first(),
            old(self)@.len() == 0 ==> final(self)@ == Seq::<ValueModel>::empty(),
    {
        let r = self.rest();
        *self = r;
    }

    /// Whether some element of the list equals the given value.
    pub fn contains(&self, v: &Value) -> (r: bool)
        ensures
            r == self@.contains(v@),
    {
        let mut i: usize = 0;
        while i < self.elems.len()
            invariant
                i <= self.elems@.len(),
                forall|j: int| 0 <= j < i ==> self@[j] != v@,
        decreases self.elems@.len() - i,
        {
            if &self.elems[i] == v {
                proof {
                    assert(self@[i as int] == v@);
                }
                return true;
            }
            i = i + 1;
        }
        proof {
            assert(forall|j: int| 0 <= j < self@.len() ==> self@[j] != v@);
        }
        false
    }
}

impl Clone for List {
    fn clone(&self) -> (r: Self)
        ensures
            r@ == self@,
    {
        List { elems: crate::value::clone_values(&self.elems) }
    }
}

impl PartialEq for List {
    fn eq(&self, other: &Self) -> (r: bool) {
        crate::value::values_eq(&self.elems, &other.elems)
    }
}

impl Eq for List {

}

impl vstd::std_specs::cmp::PartialEqSpecImpl for List {
    open spec fn obeys_eq_spec() -> bool {
        true
    }

    open spec fn eq_spec(&self, other: &Self) -> bool {
        self@ == other@
    }
}

} // verus!
