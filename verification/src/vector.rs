use vstd::prelude::*;
use crate::value::{Value, ValueModel, views_of, view_of, lemma_views_of, lemma_views_of_push};

verus! {

broadcast use vstd::std_specs::vec::group_vec_axioms, lemma_views_of;

/// An ordered, persistent sequence of values with near-constant indexed access
/// and mutations applied at the end.
#[derive(Debug)]
pub struct Vector {
    pub elems: Vec<Value>,
}

impl View for Vector {
    type V = Seq<ValueModel>;

    open spec fn view(&self) -> Seq<ValueModel> {
        views_of(self.elems@)
    }
}

impl Vector {
    pub fn new_empty() -> (r: Self)
        ensures
            r@ == Seq::<ValueModel>::empty(),
    {
        let r = Vector { elems: Vec::new() };
        proof {
            assert(r@ =~= Seq::<ValueModel>::empty());
        }
        r
    }
    /// A vector holding the given values, in order.
    pub fn new(elems: Vec<Value>) -> (r: Self)
        ensures
            r@ == views_of(elems@),
    {
        Vector { elems }
    }

    pub fn len(&self) -> (r: usize)
        ensures
            r == self@.len(),
    {
        proof {
            lemma_views_of(self.elems@);
        }
        self.elems.len()
    }

    pub fn is_empty(&self) -> (r: bool)
        ensures
            r == (self@.len() == 0),
    {
        self.len() == 0
    }

    pub fn is_nonempty(&self) -> (r: bool)
        ensures
            r == (self@.len() > 0),
    {
        self.len() > 0
    }

    /// The element at the given position.
    pub fn get(&self, i: usize) -> (r: &Value)
        requires
            i < self@.len(),
        ensures
            r@ == self@[i as int],
    {
        proof {
            lemma_views_of(self.elems@);
        }
        &self.elems[i]
    }

    pub fn first(&self) -> (r: Option<Value>)
        ensures
            match r {
                Some(v) => self@.len() > 0 && v@ == self@[0],
                None => self@.len() == 0,
            },
    {
        proof {
            lemma_views_of(self.elems@);
        }
        if self.elems.len() > 0 {
            Some(self.elems[0].clone())
        } else {
            None
        }
    }

    pub fn first_or_nil(&self) -> (r: Value)
        ensures
            self@.len() > 0 ==> r@ == self@[0],
            self@.len() == 0 ==> r@ == ValueModel::Nil,
    {
        match self.first() {
            Some(v) => v,
            None => Value::Nil,
        }
    }

    pub fn first_or(&self, or_value: Value) -> (r: Value)
        ensures
            self@.len() > 0 ==> r@ == self@[0],
            self@.len() == 0 ==> r@ == or_value@,
    {
        match self.first() {
            Some(v) => v,
            None => or_value,
        }
    }

    pub fn last(&self) -> (r: Option<Value>)
        ensures
            match r {
                Some(v) => self@.len() > 0 && v@ == self@.last(),
                None => self@.len() == 0,
            },
    {
        proof {
            lemma_views_of(self.elems@);
        }
        if self.elems.len() > 0 {
            Some(self.elems[self.elems.len() - 1].clone())
        } else {
            None
        }
    }

    /// The elements after the first; the empty vector stays empty.
    pub fn rest(&self) -> (r: Self)
        ensures
            self@.len() > 0 ==> r@ == self@.drop_first(),
            self@.len() == 0 ==> r@ == Seq::<ValueModel>::empty(),
    {
        proof {
            lemma_views_of(self.elems@);
        }
        if self.elems.len() == 0 {
            return Vector::new_empty();
        }
        let mut elems: Vec<Value> = Vec::new();
        let mut i: usize = 1;
        proof {
            assert(views_of(elems@) =~= self@.subrange(1, 1));
        }
        while i < self.elems.len()
            invariant
                1 <= i <= self.elems@.len(),
                views_of(elems@) == self@.subrange(1, i as int),
            decreases self.elems@.len() - i,
        {
            let ghost old_elems = elems@;
            elems.push(self.elems[i].clone());
            i = i + 1;
            proof {
                lemma_views_of_push(old_elems, elems@.last());
                lemma_views_of(self.elems@);
                assert(views_of(elems@) =~= self@.subrange(1, i as int));
            }
        }
        let r = Vector { elems };
        proof {
            assert(r@ =~= self@.drop_first());
        }
        r
    }

    /// A new vector with the value appended; the receiver is unchanged.
    pub fn push_back(&self, value: Value) -> (r: Self)
        ensures
            r@ == self@.push(value@),
    {
        let ghost gv = value;
        let mut elems: Vec<Value> = crate::value::clone_values(&self.elems);
        let ghost before = elems@;
        elems.push(value);
        let r = Vector { elems };
        proof {
            lemma_views_of_push(before, gv);
            assert(r@ =~= self@.push(gv@));
        }
        r
    }

    /// Appends the value in place.
    pub fn push_back_mut(&mut self, value: Value)
        ensures
            final(self)@ == old(self)@.push(value@),
    {
        let r = self.push_back(value);
        *self = r;
    }

    /// Removes the last element in place; reports whether one was removed.
    pub fn drop_last_mut(&mut self) -> (r: bool)
        ensures
            old(self)@.len() > 0 ==> r && final(self)@ == old(self)@.drop_last(),
            old(self)@.len() == 0 ==> !r && final(self)@ == old(self)@,
    {
        proof {
            lemma_views_of(self.elems@);
        }
        if self.elems.len() == 0 {
            return false;
        }
        let ghost old_elems = self.elems@;
        let _popped = self.elems.pop();
        proof {
            assert(self.elems@ =~= old_elems.drop_last());
            lemma_views_of_push(self.elems@, old_elems.last());
            assert(self.elems@.push(old_elems.last()) =~= old_elems);
            assert(views_of(self.elems@) =~= views_of(old_elems).drop_last());
        }
        true
    }

    /// Whether some element of the vector equals the given value.
    pub fn contains(&self, v: &Value) -> (r: bool)
        ensures
            r == self@.contains(v@),
    {
        proof {
            lemma_views_of(self.elems@);
        }
        let mut i: usize = 0;
        while i < self.elems.len()
            invariant
                i <= self.elems@.len(),
                self@.len() == self.elems@.len(),
                forall|j: int| 0 <= j < self@.len() ==> self@[j] == view_of(self.elems@[j]),
                forall|j: int| 0 <= j < i ==> self@[j] != v@,
            decreases self.elems@.len() - i,
        {
            if crate::value::value_eq(&self.elems[i], v) {
                proof {
                    assert(self@[i as int] == v@);
                }
                return true;
            }
            i = i + 1;
        }
        proof {
            if self@.contains(v@) {
                let j = choose|j: int| 0 <= j < self@.len() && self@[j] == v@;
                assert(false);
            }
        }
        false
    }
}

impl Clone for Vector {
    fn clone(&self) -> (r: Self)
        ensures
            r@ == self@,
    {
        Vector { elems: crate::value::clone_values(&self.elems) }
    }
}

impl PartialEq for Vector {
    fn eq(&self, other: &Self) -> (r: bool) {
        crate::value::values_eq(&self.elems, &other.elems)
    }
}

impl Eq for Vector {

}

impl vstd::std_specs::cmp::PartialEqSpecImpl for Vector {
    open spec fn obeys_eq_spec() -> bool {
        true
    }

    open spec fn eq_spec(&self, other: &Self) -> bool {
        self@ == other@
    }
}

} // verus!
