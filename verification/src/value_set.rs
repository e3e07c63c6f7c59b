use vstd::prelude::*;
use core::cmp::Ordering;
use vstd::std_specs::cmp::PartialEqSpec;
use crate::value::{Value, ValueModel, views_of, view_of, lemma_views_of, lemma_views_of_push};
use crate::ord::{cmp_model, lt_model, value_cmp};
use crate::ord_laws::{lemma_cmp_model_eq, lemma_cmp_model_refl, lemma_cmp_model_swap,
    lemma_cmp_model_trans, ord_flip};

verus! {

broadcast use vstd::std_specs::vec::group_vec_axioms;

/// A strictly ascending run of value models: the canonical shape of a set.
pub open spec fn sorted_models(s: Seq<ValueModel>) -> bool {
    forall|i: int, j: int| 0 <= i < j < s.len() ==> lt_model(#[trigger] s[i], #[trigger] s[j])
}

/// An unordered collection of distinct values. Entries are kept strictly
/// sorted by the total value order, so two equal sets have equal
/// representations, and structural equality decides set equality.
#[derive(Debug)]
pub struct ValueSet {
    pub elems: Vec<Value>,
}

impl View for ValueSet {
    type V = Seq<ValueModel>;

    open spec fn view(&self) -> Seq<ValueModel> {
        views_of(self.elems@)
    }
}

/// Sorted insertion into a run of models: the canonical position, with an
/// already-present element left alone.
pub open spec fn sorted_insert_model(s: Seq<ValueModel>, m: ValueModel) -> Seq<ValueModel>
    decreases s.len(),
{
    if s.len() == 0 {
        seq![m]
    } else {
        match cmp_model(m, s[0]) {
            Ordering::Less => seq![m] + s,
            Ordering::Equal => s,
            Ordering::Greater => seq![s[0]] + sorted_insert_model(s.drop_first(), m),
        }
    }
}

/// Sorted insertion keeps the run sorted and adds exactly the element.
pub proof fn lemma_sorted_insert_model(s: Seq<ValueModel>, m: ValueModel)
    requires
        sorted_models(s),
    ensures
        sorted_models(sorted_insert_model(s, m)),
        sorted_insert_model(s, m).to_set() == s.to_set().insert(m),
    decreases s.len(),
{
    broadcast use vstd::seq_lib::group_seq_lib_default;

    let r = sorted_insert_model(s, m);
    if s.len() == 0 {
        assert(r =~= seq![m]);
        assert(r[0] == m);
        assert(r.to_set().contains(m));
        assert forall|x: ValueModel| #[trigger] r.to_set().contains(x) implies s.to_set().insert(
            m,
        ).contains(x) by {
            let p = choose|p: int| 0 <= p < r.len() && r[p] == x;
        }
        assert(r.to_set() =~= s.to_set().insert(m));
    } else {
        match cmp_model(m, s[0]) {
            Ordering::Less => {
                assert(r == seq![m] + s);
                assert forall|i: int, j: int| 0 <= i < j < r.len() implies lt_model(
                    #[trigger] r[i],
                    #[trigger] r[j],
                ) by {
                    if i == 0 {
                        if j == 1 {
                            assert(r[j] == s[0]);
                        } else {
                            assert(r[j] == s[j - 1]);
                            assert(lt_model(s[0], s[j - 1]));
                            lemma_cmp_model_trans(m, s[0], s[j - 1]);
                        }
                    } else {
                        assert(r[i] == s[i - 1] && r[j] == s[j - 1]);
                    }
                }
                assert forall|x: ValueModel| #[trigger] r.to_set().contains(x) implies s.to_set().insert(
                    m,
                ).contains(x) by {
                    let p = choose|p: int| 0 <= p < r.len() && r[p] == x;
                    if p > 0 {
                        assert(s[p - 1] == x);
                    }
                }
                assert forall|x: ValueModel| #[trigger] s.to_set().insert(m).contains(x) implies r.to_set().contains(
                    x,
                ) by {
                    if x == m {
                        assert(r[0] == x);
                    } else {
                        let p = choose|p: int| 0 <= p < s.len() && s[p] == x;
                        assert(r[p + 1] == x);
                    }
                }
                assert(r.to_set() =~= s.to_set().insert(m));
            },
            Ordering::Equal => {
                lemma_cmp_model_eq(m, s[0]);
                assert(s.to_set().contains(m));
                assert(r.to_set() =~= s.to_set().insert(m));
            },
            Ordering::Greater => {
                let t = s.drop_first();
                assert forall|i: int, j: int| 0 <= i < j < t.len() implies lt_model(
                    #[trigger] t[i],
                    #[trigger] t[j],
                ) by {
                    assert(t[i] == s[i + 1] && t[j] == s[j + 1]);
                }
                lemma_sorted_insert_model(t, m);
                let rt = sorted_insert_model(t, m);
                assert(r == seq![s[0]] + rt);
                lemma_cmp_model_swap(m, s[0]);
                assert(lt_model(s[0], m));
                assert forall|i: int, j: int| 0 <= i < j < r.len() implies lt_model(
                    #[trigger] r[i],
                    #[trigger] r[j],
                ) by {
                    if i == 0 {
                        assert(r[j] == rt[j - 1]);
                        assert(rt.to_set().contains(rt[j - 1]));
                        assert(t.to_set().insert(m).contains(rt[j - 1]));
                        if rt[j - 1] == m {
                        } else {
                            let x = choose|x: int| 0 <= x < t.len() && t[x] == rt[j - 1];
                            assert(s[x + 1] == rt[j - 1]);
                            assert(lt_model(s[0], s[x + 1]));
                        }
                    } else {
                        assert(r[i] == rt[i - 1] && r[j] == rt[j - 1]);
                    }
                }
                assert forall|x: ValueModel| #[trigger] r.to_set().contains(x) implies s.to_set().insert(
                    m,
                ).contains(x) by {
                    let p = choose|p: int| 0 <= p < r.len() && r[p] == x;
                    if p == 0 {
                        assert(s[0] == x);
                    } else {
                        assert(rt[p - 1] == x);
                        assert(rt.to_set().contains(x));
                        if x != m {
                            let q = choose|q: int| 0 <= q < t.len() && t[q] == x;
                            assert(s[q + 1] == x);
                        }
                    }
                }
                assert forall|x: ValueModel| #[trigger] s.to_set().insert(m).contains(x) implies r.to_set().contains(
                    x,
                ) by {
                    if x == m {
                        assert(rt.to_set().contains(x));
                        let q = choose|q: int| 0 <= q < rt.len() && rt[q] == x;
                        assert(r[q + 1] == x);
                    } else {
                        let p = choose|p: int| 0 <= p < s.len() && s[p] == x;
                        if p == 0 {
                            assert(r[0] == x);
                        } else {
                            assert(t[p - 1] == x);
                            assert(rt.to_set().contains(x));
                            let q = choose|q: int| 0 <= q < rt.len() && rt[q] == x;
                            assert(r[q + 1] == x);
                        }
                    }
                }
                assert(r.to_set() =~= s.to_set().insert(m));
            },
        }
    }
}

/// The canonical run of a set's elements: each inserted in turn.
pub open spec fn set_fold(items: Seq<ValueModel>) -> Seq<ValueModel>
    decreases items.len(),
{
    if items.len() == 0 {
        Seq::empty()
    } else {
        sorted_insert_model(set_fold(items.drop_last()), items.last())
    }
}

/// Inserting an element greater than every element of a sorted run appends
/// it.
pub proof fn lemma_sorted_insert_append(s: Seq<ValueModel>, m: ValueModel)
    requires
        sorted_models(s),
        forall|j: int| 0 <= j < s.len() ==> lt_model(#[trigger] s[j], m),
    ensures
        sorted_insert_model(s, m) == s.push(m),
    decreases s.len(),
{
    if s.len() == 0 {
        assert(sorted_insert_model(s, m) =~= s.push(m));
    } else {
        assert(lt_model(s[0], m));
        lemma_cmp_model_swap(m, s[0]);
        let t = s.drop_first();
        assert forall|i: int, j: int| 0 <= i < j < t.len() implies lt_model(
            #[trigger] t[i],
            #[trigger] t[j],
        ) by {
            assert(t[i] == s[i + 1] && t[j] == s[j + 1]);
        }
        assert forall|j: int| 0 <= j < t.len() implies lt_model(#[trigger] t[j], m) by {
            assert(t[j] == s[j + 1]);
        }
        lemma_sorted_insert_append(t, m);
        assert(sorted_insert_model(s, m) == seq![s[0]] + t.push(m));
        assert(seq![s[0]] + t.push(m) =~= s.push(m));
    }
}

/// Folding an already sorted run reproduces it.
pub proof fn lemma_set_fold_sorted(s: Seq<ValueModel>)
    requires
        sorted_models(s),
    ensures
        set_fold(s) == s,
    decreases s.len(),
{
    if s.len() > 0 {
        let dl = s.drop_last();
        assert forall|i: int, j: int| 0 <= i < j < dl.len() implies lt_model(
            #[trigger] dl[i],
            #[trigger] dl[j],
        ) by {
            assert(dl[i] == s[i] && dl[j] == s[j]);
        }
        lemma_set_fold_sorted(dl);
        assert forall|j: int| 0 <= j < dl.len() implies lt_model(#[trigger] dl[j], s.last()) by {
            assert(dl[j] == s[j]);
            assert(lt_model(s[j], s[s.len() - 1]));
        }
        lemma_sorted_insert_append(dl, s.last());
        assert(set_fold(s) == dl.push(s.last()));
        assert(dl.push(s.last()) =~= s);
    } else {
        assert(set_fold(s) =~= s);
    }
}

/// Two sorted runs holding the same elements are the same run.
#[verifier::rlimit(50)]
pub proof fn lemma_sorted_unique(s1: Seq<ValueModel>, s2: Seq<ValueModel>)
    requires
        sorted_models(s1),
        sorted_models(s2),
        s1.to_set() == s2.to_set(),
    ensures
        s1 == s2,
    decreases s1.len(),
{
    broadcast use vstd::seq_lib::group_seq_lib_default;

    if s1.len() == 0 {
        if s2.len() > 0 {
            assert(s2.to_set().contains(s2[0]));
            assert(s1.to_set().contains(s2[0]));
        }
        assert(s1 =~= s2);
    } else if s2.len() == 0 {
        assert(s1.to_set().contains(s1[0]));
        assert(s2.to_set().contains(s1[0]));
    } else {
        assert(s1.to_set().contains(s1[0]));
        assert(s2.to_set().contains(s2[0]));
        let i1 = choose|i: int| 0 <= i < s2.len() && s2[i] == s1[0];
        let i2 = choose|i: int| 0 <= i < s1.len() && s1[i] == s2[0];
        assert(s2.to_set().contains(s1[0]));
        assert(s1.to_set().contains(s2[0]));
        if s1[0] != s2[0] {
            if i1 > 0 {
                assert(lt_model(s2[0], s2[i1]));
            }
            if i2 > 0 {
                assert(lt_model(s1[0], s1[i2]));
            }
            lemma_cmp_model_swap(s1[0], s2[0]);
            if i1 == 0 || i2 == 0 {
                assert(false);
            }
            assert(false);
        }
        let t1 = s1.drop_first();
        let t2 = s2.drop_first();
        assert forall|m: ValueModel| t1.to_set().contains(m) implies t2.to_set().contains(m) by {
            let i = choose|i: int| 0 <= i < t1.len() && t1[i] == m;
            assert(s1[i + 1] == m);
            assert(s1.to_set().contains(m));
            assert(s2.to_set().contains(m));
            let j = choose|j: int| 0 <= j < s2.len() && s2[j] == m;
            assert(lt_model(s1[0], s1[i + 1]));
            if j == 0 {
                lemma_cmp_model_refl(m);
            }
            assert(t2[j - 1] == m);
        }
        assert forall|m: ValueModel| t2.to_set().contains(m) implies t1.to_set().contains(m) by {
            let i = choose|i: int| 0 <= i < t2.len() && t2[i] == m;
            assert(s2[i + 1] == m);
            assert(s2.to_set().contains(m));
            assert(s1.to_set().contains(m));
            let j = choose|j: int| 0 <= j < s1.len() && s1[j] == m;
            assert(lt_model(s2[0], s2[i + 1]));
            if j == 0 {
                lemma_cmp_model_refl(m);
            }
            assert(t1[j - 1] == m);
        }
        assert(t1.to_set() =~= t2.to_set());
        lemma_sorted_unique(t1, t2);
        assert(s1.len() == s2.len());
        assert forall|x: int| 0 <= x < s1.len() implies s1[x] == s2[x] by {
            if x > 0 {
                assert(s1[x] == t1[x - 1]);
                assert(s2[x] == t2[x - 1]);
                assert(t1[x - 1] == t2[x - 1]);
            }
        }
        assert(s1 =~= s2);
    }
}

impl ValueSet {
    /// The set's invariant: entries strictly ascending in the value order.
    pub open spec fn wf(&self) -> bool {
        sorted_models(self@)
    }

    pub fn new_empty() -> (r: Self)
        ensures
            r@ == Seq::<ValueModel>::empty(),
            r.wf(),
    {
        let r = ValueSet { elems: Vec::new() };
        proof {
            assert(r@ =~= Seq::<ValueModel>::empty());
        }
        r
    }

    pub fn len(&self) -> (r: usize)
        ensures
            r == self@.len(),
    {
        proof {
            lemma_views_of(self.elems@);
        }
        self.elems.len()
    }

    pub fn is_empty(&self) -> (r: bool)
        ensures
            r == (self@.len() == 0),
    {
        self.len() == 0
    }

    /// The element at the given position of the sorted run.
    pub fn get(&self, i: usize) -> (r: &Value)
        requires
            i < self@.len(),
        ensures
            r@ == self@[i as int],
    {
        proof {
            lemma_views_of(self.elems@);
        }
        &self.elems[i]
    }

    /// Whether the set holds the given value.
    pub fn contains(&self, v: &Value) -> (r: bool)
        ensures
            r == self@.contains(v@),
    {
        let mut i: usize = 0;
        proof {
            lemma_views_of(self.elems@);
        }
        while i < self.elems.len()
            invariant
                i <= self.elems@.len(),
                self@.len() == self.elems@.len(),
                forall|j: int| 0 <= j < i ==> self@[j] != v@,
                forall|j: int| 0 <= j < self@.len() ==> self@[j] == view_of(self.elems@[j]),
            decreases self.elems@.len() - i,
        {
            if crate::value::value_eq(&self.elems[i], v) {
                proof {
                    assert(self@[i as int] == v@);
                    assert(self@.contains(v@));
                }
                return true;
            }
            i = i + 1;
        }
        proof {
            if self@.contains(v@) {
                let j = choose|j: int| 0 <= j < self@.len() && self@[j] == v@;
                assert(false);
            }
        }
        false
    }

    /// A new set also holding the given value; the receiver is unchanged.
    pub fn insert(&self, v: Value) -> (r: Self)
        requires
            self.wf(),
        ensures
            r.wf(),
            r@.to_set() == self@.to_set().insert(v@),
            r@ == sorted_insert_model(self@, v@),
    {
        broadcast use vstd::seq_lib::group_seq_lib_default;

        let ghost vm = v@;
        proof {
            lemma_views_of(self.elems@);
        }
        let mut i: usize = 0;
        let n = self.elems.len();
        loop
            invariant_except_break
                self.wf(),
                vm == v@,
                i <= n,
                n == self.elems@.len(),
                self@.len() == n,
                forall|j: int| 0 <= j < self@.len() ==> self@[j] == view_of(self.elems@[j]),
                forall|j: int| 0 <= j < i ==> cmp_model(vm, #[trigger] self@[j]) is Greater,
            ensures
                vm == v@,
                i <= n,
                n == self.elems@.len(),
                self@.len() == n,
                forall|j: int| 0 <= j < self@.len() ==> self@[j] == view_of(self.elems@[j]),
                forall|j: int| 0 <= j < i ==> cmp_model(vm, #[trigger] self@[j]) is Greater,
                i < n ==> cmp_model(vm, self@[i as int]) is Less,
            decreases n - i,
        {
            if i >= n {
                break;
            }
            let o = value_cmp(&v, &self.elems[i]);
            match o {
                Ordering::Equal => {
                    proof {
                        lemma_cmp_model_eq(vm, self@[i as int]);
                        assert(self@.to_set().contains(vm));
                        assert(self@.to_set() =~= self@.to_set().insert(vm));
                        lemma_sorted_insert_model(self@, vm);
                        lemma_sorted_unique(self@, sorted_insert_model(self@, vm));
                    }
                    return self.clone();
                },
                Ordering::Less => {
                    break;
                },
                Ordering::Greater => {
                    i = i + 1;
                },
            }
        }
        // `v` is greater than everything before position `i`, and either
        // `i` is the length or `v` is less than the element at `i`.
        proof {
            assert(i < n ==> cmp_model(vm, self@[i as int]) is Less);
        }
        let mut elems: Vec<Value> = Vec::new();
        let mut j: usize = 0;
        while j < i
            invariant
                i <= self.elems@.len(),
                j <= i,
                views_of(elems@) == views_of(self.elems@).subrange(0, j as int),
            decreases i - j,
        {
            let ghost old_elems = elems@;
            elems.push(self.elems[j].clone());
            j = j + 1;
            proof {
                lemma_views_of_push(old_elems, elems@.last());
                lemma_views_of(self.elems@);
                assert(views_of(elems@) =~= views_of(self.elems@).subrange(0, j as int));
            }
        }
        let ghost before = elems@;
        elems.push(v);
        proof {
            lemma_views_of_push(before, elems@.last());
        }
        let mut k: usize = i;
        while k < n
            invariant
                i <= k <= n == self.elems@.len(),
                views_of(elems@) == views_of(self.elems@).subrange(0, i as int) + seq![vm]
                    + views_of(self.elems@).subrange(i as int, k as int),
            decreases n - k,
        {
            let ghost old_elems = elems@;
            elems.push(self.elems[k].clone());
            k = k + 1;
            proof {
                lemma_views_of_push(old_elems, elems@.last());
                lemma_views_of(self.elems@);
                assert(views_of(elems@) =~= views_of(self.elems@).subrange(0, i as int) + seq![vm]
                    + views_of(self.elems@).subrange(i as int, k as int));
            }
        }
        let r = ValueSet { elems };
        proof {
            let s = self@;
            assert(r@ == s.subrange(0, i as int) + seq![vm] + s.subrange(i as int, s.len() as int));
            // sortedness of the result
            assert forall|p: int, q: int| 0 <= p < q < r@.len() implies lt_model(
                #[trigger] r@[p],
                #[trigger] r@[q],
            ) by {
                let iv = i as int;
                if p < iv && q < iv {
                    assert(r@[p] == s[p] && r@[q] == s[q]);
                } else if p < iv && q == iv {
                    assert(r@[p] == s[p] && r@[q] == vm);
                    lemma_cmp_model_swap(vm, s[p]);
                } else if p < iv && q > iv {
                    assert(r@[p] == s[p] && r@[q] == s[q - 1]);
                    if q - 1 == p {
                        assert(iv <= p);
                        assert(false);
                    }
                } else if p == iv && q > iv {
                    assert(r@[p] == vm && r@[q] == s[q - 1]);
                    assert(iv < s.len());
                    assert(cmp_model(vm, s[iv]) is Less);
                    if q - 1 > iv {
                        lemma_cmp_model_trans(vm, s[iv], s[q - 1]);
                    }
                } else {
                    assert(p > iv && q > iv);
                    assert(r@[p] == s[p - 1] && r@[q] == s[q - 1]);
                }
            }
            // membership
            assert forall|m: ValueModel| #[trigger] r@.to_set().contains(m) implies s.to_set().insert(
                vm,
            ).contains(m) by {
                let x = choose|x: int| 0 <= x < r@.len() && r@[x] == m;
                if x < i as int {
                    assert(s[x] == m);
                } else if x == i as int {
                } else {
                    assert(s[x - 1] == m);
                }
            }
            assert forall|m: ValueModel| #[trigger] s.to_set().insert(vm).contains(m) implies r@.to_set().contains(
                m,
            ) by {
                if m == vm {
                    assert(r@[i as int] == m);
                } else {
                    let x = choose|x: int| 0 <= x < s.len() && s[x] == m;
                    if x < i as int {
                        assert(r@[x] == m);
                    } else {
                        assert(r@[x + 1] == m);
                    }
                }
            }
            assert(r@.to_set() =~= s.to_set().insert(vm));
            lemma_sorted_insert_model(s, vm);
            lemma_sorted_unique(r@, sorted_insert_model(s, vm));
        }
        r
    }

    /// The set holding the given values, each inserted in turn.
    pub fn from_values(values: Vec<Value>) -> (r: Self)
        ensures
            r.wf(),
            r@.to_set() == views_of(values@).to_set(),
    {
        broadcast use vstd::seq_lib::group_seq_lib_default;

        let mut r = ValueSet::new_empty();
        proof {
            lemma_views_of(values@);
            assert(r@.to_set() =~= views_of(values@).subrange(0, 0).to_set());
        }
        let mut i: usize = 0;
        while i < values.len()
            invariant
                r.wf(),
                i <= values@.len(),
                r@.to_set() == views_of(values@).subrange(0, i as int).to_set(),
            decreases values@.len() - i,
        {
            proof {
                lemma_views_of(values@);
            }
            r = r.insert(values[i].clone());
            i = i + 1;
            proof {
                let vs = views_of(values@);
                assert(vs.subrange(0, i as int).drop_last() =~= vs.subrange(0, i - 1));
                assert(vs.subrange(0, i as int).last() == vs[i - 1]);
                assert(vs.subrange(0, i as int).to_set() =~= vs.subrange(0, i - 1).to_set().insert(
                    vs[i - 1],
                ));
            }
        }
        proof {
            assert(views_of(values@).subrange(0, values@.len() as int) =~= views_of(values@));
        }
        r
    }
}

impl Clone for ValueSet {
    fn clone(&self) -> (r: Self)
        ensures
            r@ == self@,
    {
        ValueSet { elems: crate::value::clone_values(&self.elems) }
    }
}

impl PartialEq for ValueSet {
    fn eq(&self, other: &Self) -> (r: bool) {
        crate::value::values_eq(&self.elems, &other.elems)
    }
}

impl Eq for ValueSet {

}

impl vstd::std_specs::cmp::PartialEqSpecImpl for ValueSet {
    open spec fn obeys_eq_spec() -> bool {
        true
    }

    open spec fn eq_spec(&self, other: &Self) -> bool {
        self@ == other@
    }
}

} // verus!
