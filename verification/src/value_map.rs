use vstd::prelude::*;
use core::cmp::Ordering;
use vstd::std_specs::cmp::PartialEqSpec;
use crate::value::{Value, ValueModel, entry_views_of, view_of, lemma_entry_views_of,
    lemma_entry_views_of_push};
use crate::ord::{cmp_model, lt_model, value_cmp};
use crate::ord_laws::{lemma_cmp_model_eq, lemma_cmp_model_refl, lemma_cmp_model_swap,
    lemma_cmp_model_trans};

verus! {

broadcast use vstd::std_specs::vec::group_vec_axioms;

/// The keys of a run of entries, in order.
pub open spec fn keys_of(s: Seq<(ValueModel, ValueModel)>) -> Seq<ValueModel> {
    s.map_values(|e: (ValueModel, ValueModel)| e.0)
}

/// Entries strictly ascending by key in the total value order: the canonical
/// shape of a map. Keys are then distinct.
pub open spec fn sorted_entries(s: Seq<(ValueModel, ValueModel)>) -> bool {
    forall|i: int, j: int|
        0 <= i < j < s.len() ==> lt_model((#[trigger] s[i]).0, (#[trigger] s[j]).0)
}

/// The first value bound to the key in a run of entries, if any.
pub open spec fn entries_lookup(s: Seq<(ValueModel, ValueModel)>, k: ValueModel) -> Option<
    ValueModel,
>
    decreases s.len(),
{
    if s.len() == 0 {
        None
    } else if s[0].0 == k {
        Some(s[0].1)
    } else {
        entries_lookup(s.drop_first(), k)
    }
}

/// With distinct keys, the first match is the map's binding.
pub proof fn lemma_entries_lookup_agrees(s: Seq<(ValueModel, ValueModel)>, k: ValueModel)
    requires
        forall|i: int, j: int| 0 <= i < j < s.len() ==> (#[trigger] s[i]).0 != (#[trigger] s[j]).0,
    ensures
        match entries_lookup(s, k) {
            Some(v) => map_of(s).contains_key(k) && map_of(s)[k] == v,
            None => !map_of(s).contains_key(k),
        },
    decreases s.len(),
{
    lemma_map_of_entries(s);
    if s.len() > 0 && s[0].0 != k {
        assert forall|i: int, j: int|
            0 <= i < j < s.drop_first().len() implies (#[trigger] s.drop_first()[i]).0 != (
        #[trigger] s.drop_first()[j]).0 by {
            assert(s.drop_first()[i] == s[i + 1]);
            assert(s.drop_first()[j] == s[j + 1]);
        }
        lemma_entries_lookup_agrees(s.drop_first(), k);
        lemma_map_of_entries(s.drop_first());
        match entries_lookup(s, k) {
            Some(v) => {
                let i = choose|i: int|
                    0 <= i < s.drop_first().len() && (#[trigger] s.drop_first()[i]).0 == k;
                assert(s[i + 1].0 == k);
                assert(map_of(s)[k] == s[i + 1].1);
                assert(map_of(s.drop_first())[k] == s.drop_first()[i].1);
                assert(s.drop_first()[i].1 == s[i + 1].1);
            },
            None => {
                if map_of(s).contains_key(k) {
                    let i = choose|i: int| 0 <= i < s.len() && (#[trigger] s[i]).0 == k;
                    assert(i > 0);
                    assert(s.drop_first()[i - 1].0 == k);
                    assert(map_of(s.drop_first()).contains_key(k));
                }
            },
        }
    } else if s.len() > 0 {
        assert(map_of(s)[k] == s[0].1 || map_of(s)[k] == s[s.len() - 1].1 || true);
        assert(map_of(s).contains_key(s[0].0));
        assert(map_of(s)[s[0].0] == s[0].1);
    }
}

/// The finite map a run of entries stands for; a later entry wins over an
/// earlier one with the same key.
pub open spec fn map_of(s: Seq<(ValueModel, ValueModel)>) -> Map<ValueModel, ValueModel>
    decreases s.len(),
{
    if s.len() == 0 {
        Map::empty()
    } else {
        map_of(s.drop_last()).insert(s.last().0, s.last().1)
    }
}

/// What `map_of` holds, entry by entry, when keys are distinct.
pub proof fn lemma_map_of_entries(s: Seq<(ValueModel, ValueModel)>)
    requires
        forall|i: int, j: int| 0 <= i < j < s.len() ==> (#[trigger] s[i]).0 != (#[trigger] s[j]).0,
    ensures
        forall|k: ValueModel| #[trigger]
            map_of(s).contains_key(k) <==> exists|i: int| 0 <= i < s.len() && (#[trigger] s[i]).0
                == k,
        forall|i: int|
            0 <= i < s.len() ==> map_of(s).contains_key((#[trigger] s[i]).0) && map_of(s)[s[i].0]
                == s[i].1,
    decreases s.len(),
{
    if s.len() > 0 {
        lemma_map_of_entries(s.drop_last());
        assert forall|i: int|
            0 <= i < s.len() implies map_of(s).contains_key((#[trigger] s[i]).0) && map_of(
            s,
        )[s[i].0] == s[i].1 by {
            if i < s.len() - 1 {
                assert(s.drop_last()[i] == s[i]);
                assert(s.last() == s[s.len() - 1]);
                assert(s[i].0 != s[s.len() - 1].0);
                assert(map_of(s.drop_last()).contains_key(s.drop_last()[i].0) && map_of(
                    s.drop_last(),
                )[s.drop_last()[i].0] == s.drop_last()[i].1);
            } else {
                assert(s.last() == s[s.len() - 1]);
            }
        }
        assert forall|k: ValueModel| #[trigger] map_of(s).contains_key(k) implies exists|i: int|
            0 <= i < s.len() && (#[trigger] s[i]).0 == k by {
            if k == s.last().0 {
                assert(s[s.len() - 1].0 == k);
            } else {
                assert(map_of(s.drop_last()).contains_key(k));
                let i = choose|i: int| 0 <= i < s.drop_last().len() && (#[trigger] s.drop_last()[i]).0 == k;
                assert(s[i].0 == k);
            }
        }
    }
}

/// Strictly sorted keys are distinct.
pub proof fn lemma_sorted_entries_distinct(s: Seq<(ValueModel, ValueModel)>)
    requires
        sorted_entries(s),
    ensures
        forall|i: int, j: int| 0 <= i < j < s.len() ==> (#[trigger] s[i]).0 != (#[trigger] s[j]).0,
{
    assert forall|i: int, j: int|
        0 <= i < j < s.len() implies (#[trigger] s[i]).0 != (#[trigger] s[j]).0 by {
        if s[i].0 == s[j].0 {
            lemma_cmp_model_refl(s[i].0);
        }
    }
}

/// Sorted insertion into a run of entries: the canonical position by key; an
/// entry with an equal key is replaced.
pub open spec fn map_insert_model(
    s: Seq<(ValueModel, ValueModel)>,
    k: ValueModel,
    v: ValueModel,
) -> Seq<(ValueModel, ValueModel)>
    decreases s.len(),
{
    if s.len() == 0 {
        seq![(k, v)]
    } else {
        match cmp_model(k, s[0].0) {
            Ordering::Less => seq![(k, v)] + s,
            Ordering::Equal => seq![(k, v)] + s.drop_first(),
            Ordering::Greater => seq![s[0]] + map_insert_model(s.drop_first(), k, v),
        }
    }
}

/// Sorted insertion keeps the keys sorted and binds exactly the key.
pub proof fn lemma_map_insert_model(s: Seq<(ValueModel, ValueModel)>, k: ValueModel, v: ValueModel)
    requires
        sorted_entries(s),
    ensures
        sorted_entries(map_insert_model(s, k, v)),
        map_of(map_insert_model(s, k, v)) == map_of(s).insert(k, v),
    decreases s.len(),
{
    let r = map_insert_model(s, k, v);
    lemma_sorted_entries_distinct(s);
    lemma_map_of_entries(s);
    if s.len() == 0 {
        assert(r =~= seq![(k, v)]);
        assert(r.drop_last() =~= Seq::<(ValueModel, ValueModel)>::empty());
        assert(r.last() == (k, v));
        assert(map_of(r.drop_last()) == Map::<ValueModel, ValueModel>::empty());
        assert(map_of(r) == map_of(r.drop_last()).insert(k, v));
        assert(map_of(r) =~= map_of(s).insert(k, v));
    } else {
        let t = s.drop_first();
        assert forall|i: int, j: int| 0 <= i < j < t.len() implies lt_model(
            (#[trigger] t[i]).0,
            (#[trigger] t[j]).0,
        ) by {
            assert(t[i] == s[i + 1] && t[j] == s[j + 1]);
        }
        match cmp_model(k, s[0].0) {
            Ordering::Less => {
                assert(r == seq![(k, v)] + s);
                assert forall|i: int, j: int| 0 <= i < j < r.len() implies lt_model(
                    (#[trigger] r[i]).0,
                    (#[trigger] r[j]).0,
                ) by {
                    if i == 0 {
                        if j == 1 {
                            assert(r[j] == s[0]);
                        } else {
                            assert(r[j] == s[j - 1]);
                            assert(lt_model(s[0].0, s[j - 1].0));
                            lemma_cmp_model_trans(k, s[0].0, s[j - 1].0);
                        }
                    } else {
                        assert(r[i] == s[i - 1] && r[j] == s[j - 1]);
                    }
                }
                lemma_sorted_entries_distinct(r);
                lemma_map_of_entries(r);
                assert forall|x: ValueModel| #[trigger] map_of(r).contains_key(x) implies map_of(
                    s,
                ).insert(k, v).contains_key(x) && map_of(r)[x] == map_of(s).insert(k, v)[x] by {
                    let p = choose|p: int| 0 <= p < r.len() && (#[trigger] r[p]).0 == x;
                    assert(map_of(r)[x] == r[p].1);
                    if p == 0 {
                        assert(r[0] == (k, v));
                    } else {
                        assert(r[p] == s[p - 1]);
                        assert(map_of(s)[x] == s[p - 1].1);
                        if x == k {
                            assert(lt_model(k, s[0].0));
                            if p == 1 {
                                lemma_cmp_model_refl(k);
                            } else {
                                assert(lt_model(s[0].0, s[p - 1].0));
                                lemma_cmp_model_trans(k, s[0].0, s[p - 1].0);
                                lemma_cmp_model_refl(k);
                            }
                        }
                    }
                }
                assert forall|x: ValueModel| #[trigger]
                    map_of(s).insert(k, v).contains_key(x) implies map_of(r).contains_key(x) by {
                    if x == k {
                        assert(r[0].0 == k);
                    } else {
                        let p = choose|p: int| 0 <= p < s.len() && (#[trigger] s[p]).0 == x;
                        assert(r[p + 1].0 == x);
                    }
                }
                assert(map_of(r) =~= map_of(s).insert(k, v));
            },
            Ordering::Equal => {
                lemma_cmp_model_eq(k, s[0].0);
                assert(r == seq![(k, v)] + t);
                assert forall|i: int, j: int| 0 <= i < j < r.len() implies lt_model(
                    (#[trigger] r[i]).0,
                    (#[trigger] r[j]).0,
                ) by {
                    if i == 0 {
                        assert(r[j] == t[j - 1]);
                        assert(t[j - 1] == s[j]);
                        assert(lt_model(s[0].0, s[j].0));
                    } else {
                        assert(r[i] == t[i - 1] && r[j] == t[j - 1]);
                    }
                }
                lemma_sorted_entries_distinct(r);
                lemma_map_of_entries(r);
                assert forall|x: ValueModel| #[trigger] map_of(r).contains_key(x) implies map_of(
                    s,
                ).insert(k, v).contains_key(x) && map_of(r)[x] == map_of(s).insert(k, v)[x] by {
                    let p = choose|p: int| 0 <= p < r.len() && (#[trigger] r[p]).0 == x;
                    assert(map_of(r)[x] == r[p].1);
                    if p == 0 {
                        assert(r[0] == (k, v));
                    } else {
                        assert(r[p] == s[p]);
                        assert(map_of(s)[x] == s[p].1);
                        if x == k {
                            assert(lt_model(s[0].0, s[p].0));
                            lemma_cmp_model_refl(k);
                        }
                    }
                }
                assert forall|x: ValueModel| #[trigger]
                    map_of(s).insert(k, v).contains_key(x) implies map_of(r).contains_key(x) by {
                    if x == k {
                        assert(r[0].0 == k);
                    } else {
                        let p = choose|p: int| 0 <= p < s.len() && (#[trigger] s[p]).0 == x;
                        assert(p > 0);
                        assert(r[p].0 == x);
                    }
                }
                assert(map_of(r) =~= map_of(s).insert(k, v));
            },
            Ordering::Greater => {
                lemma_map_insert_model(t, k, v);
                let rt = map_insert_model(t, k, v);
                assert(r == seq![s[0]] + rt);
                lemma_cmp_model_swap(k, s[0].0);
                assert(lt_model(s[0].0, k));
                lemma_sorted_entries_distinct(rt);
                lemma_map_of_entries(rt);
                lemma_sorted_entries_distinct(t);
                lemma_map_of_entries(t);
                assert forall|i: int, j: int| 0 <= i < j < r.len() implies lt_model(
                    (#[trigger] r[i]).0,
                    (#[trigger] r[j]).0,
                ) by {
                    if i == 0 {
                        assert(r[j] == rt[j - 1]);
                        assert(map_of(rt).contains_key(rt[j - 1].0));
                        assert(map_of(t).insert(k, v).contains_key(rt[j - 1].0));
                        if rt[j - 1].0 == k {
                        } else {
                            assert(map_of(t).contains_key(rt[j - 1].0));
                            let x = choose|x: int| 0 <= x < t.len() && (#[trigger] t[x]).0 == rt[j
                                - 1].0;
                            assert(s[x + 1] == t[x]);
                            assert(lt_model(s[0].0, s[x + 1].0));
                        }
                    } else {
                        assert(r[i] == rt[i - 1] && r[j] == rt[j - 1]);
                    }
                }
                lemma_sorted_entries_distinct(r);
                lemma_map_of_entries(r);
                assert forall|x: ValueModel| #[trigger] map_of(r).contains_key(x) implies map_of(
                    s,
                ).insert(k, v).contains_key(x) && map_of(r)[x] == map_of(s).insert(k, v)[x] by {
                    let p = choose|p: int| 0 <= p < r.len() && (#[trigger] r[p]).0 == x;
                    assert(map_of(r)[x] == r[p].1);
                    if p == 0 {
                        assert(r[0] == s[0]);
                        assert(map_of(s)[x] == s[0].1);
                        if x == k {
                            lemma_cmp_model_refl(k);
                        }
                    } else {
                        assert(r[p] == rt[p - 1]);
                        assert(map_of(rt)[x] == rt[p - 1].1);
                        assert(map_of(rt) == map_of(t).insert(k, v));
                        if x == k {
                        } else {
                            assert(map_of(t).contains_key(x));
                            let q = choose|q: int| 0 <= q < t.len() && (#[trigger] t[q]).0 == x;
                            assert(s[q + 1] == t[q]);
                            assert(map_of(s)[x] == s[q + 1].1);
                            assert(map_of(t)[x] == t[q].1);
                        }
                    }
                }
                assert forall|x: ValueModel| #[trigger]
                    map_of(s).insert(k, v).contains_key(x) implies map_of(r).contains_key(x) by {
                    if x == k {
                        assert(map_of(rt).contains_key(x));
                        let q = choose|q: int| 0 <= q < rt.len() && (#[trigger] rt[q]).0 == x;
                        assert(r[q + 1].0 == x);
                    } else {
                        let p = choose|p: int| 0 <= p < s.len() && (#[trigger] s[p]).0 == x;
                        if p == 0 {
                            assert(r[0].0 == x);
                        } else {
                            assert(t[p - 1].0 == x);
                            assert(map_of(t).contains_key(x));
                            assert(map_of(rt).contains_key(x));
                            let q = choose|q: int| 0 <= q < rt.len() && (#[trigger] rt[q]).0 == x;
                            assert(r[q + 1].0 == x);
                        }
                    }
                }
                assert(map_of(r) =~= map_of(s).insert(k, v));
            },
        }
    }
}

/// The canonical run of a map's entries: each bound in turn, a later binding
/// of the same key winning.
pub open spec fn map_fold(pairs: Seq<(ValueModel, ValueModel)>) -> Seq<(ValueModel, ValueModel)>
    decreases pairs.len(),
{
    if pairs.len() == 0 {
        Seq::empty()
    } else {
        map_insert_model(map_fold(pairs.drop_last()), pairs.last().0, pairs.last().1)
    }
}

/// Binding a key greater than every key of a sorted run appends the entry.
pub proof fn lemma_map_insert_append(s: Seq<(ValueModel, ValueModel)>, k: ValueModel, v: ValueModel)
    requires
        sorted_entries(s),
        forall|j: int| 0 <= j < s.len() ==> lt_model((#[trigger] s[j]).0, k),
    ensures
        map_insert_model(s, k, v) == s.push((k, v)),
    decreases s.len(),
{
    if s.len() == 0 {
        assert(map_insert_model(s, k, v) =~= s.push((k, v)));
    } else {
        assert(lt_model(s[0].0, k));
        lemma_cmp_model_swap(k, s[0].0);
        let t = s.drop_first();
        assert forall|i: int, j: int| 0 <= i < j < t.len() implies lt_model(
            (#[trigger] t[i]).0,
            (#[trigger] t[j]).0,
        ) by {
            assert(t[i] == s[i + 1] && t[j] == s[j + 1]);
        }
        assert forall|j: int| 0 <= j < t.len() implies lt_model((#[trigger] t[j]).0, k) by {
            assert(t[j] == s[j + 1]);
        }
        lemma_map_insert_append(t, k, v);
        assert(map_insert_model(s, k, v) == seq![s[0]] + t.push((k, v)));
        assert(seq![s[0]] + t.push((k, v)) =~= s.push((k, v)));
    }
}

/// Folding an already sorted run of entries reproduces it.
pub proof fn lemma_map_fold_sorted(s: Seq<(ValueModel, ValueModel)>)
    requires
        sorted_entries(s),
    ensures
        map_fold(s) == s,
    decreases s.len(),
{
    if s.len() > 0 {
        let dl = s.drop_last();
        assert forall|i: int, j: int| 0 <= i < j < dl.len() implies lt_model(
            (#[trigger] dl[i]).0,
            (#[trigger] dl[j]).0,
        ) by {
            assert(dl[i] == s[i] && dl[j] == s[j]);
        }
        lemma_map_fold_sorted(dl);
        assert forall|j: int| 0 <= j < dl.len() implies lt_model(
            (#[trigger] dl[j]).0,
            s.last().0,
        ) by {
            assert(dl[j] == s[j]);
            assert(lt_model(s[j].0, s[s.len() - 1].0));
        }
        lemma_map_insert_append(dl, s.last().0, s.last().1);
        assert(s.last() == (s.last().0, s.last().1));
        assert(map_fold(s) == dl.push(s.last()));
        assert(dl.push(s.last()) =~= s);
    } else {
        assert(map_fold(s) =~= s);
    }
}

/// Two runs of entries with strictly sorted keys that stand for the same map
/// are the same run.
pub proof fn lemma_sorted_entries_unique(
    s1: Seq<(ValueModel, ValueModel)>,
    s2: Seq<(ValueModel, ValueModel)>,
)
    requires
        sorted_entries(s1),
        sorted_entries(s2),
        map_of(s1) == map_of(s2),
    ensures
        s1 == s2,
    decreases s1.len(),
{
    lemma_sorted_entries_distinct(s1);
    lemma_sorted_entries_distinct(s2);
    lemma_map_of_entries(s1);
    lemma_map_of_entries(s2);
    if s1.len() == 0 {
        if s2.len() > 0 {
            assert(map_of(s2).contains_key(s2[0].0));
        }
        assert(s1 =~= s2);
    } else if s2.len() == 0 {
        assert(map_of(s1).contains_key(s1[0].0));
    } else {
        assert(map_of(s2).contains_key(s1[0].0));
        assert(map_of(s1).contains_key(s2[0].0));
        let i1 = choose|i: int| 0 <= i < s2.len() && s2[i].0 == s1[0].0;
        let i2 = choose|i: int| 0 <= i < s1.len() && s1[i].0 == s2[0].0;
        if s1[0].0 != s2[0].0 {
            if i1 > 0 {
                assert(lt_model(s2[0].0, s2[i1].0));
            }
            if i2 > 0 {
                assert(lt_model(s1[0].0, s1[i2].0));
            }
            lemma_cmp_model_swap(s1[0].0, s2[0].0);
            assert(false);
        }
        assert(map_of(s1)[s1[0].0] == s1[0].1);
        assert(map_of(s2)[s2[0].0] == s2[0].1);
        assert(s1[0] == (s1[0].0, s1[0].1));
        assert(s2[0] == (s2[0].0, s2[0].1));
        let t1 = s1.drop_first();
        let t2 = s2.drop_first();
        lemma_sorted_entries_distinct(t1);
        lemma_sorted_entries_distinct(t2);
        lemma_map_of_entries(t1);
        lemma_map_of_entries(t2);
        assert forall|k: ValueModel| #[trigger] map_of(t1).contains_key(k) implies map_of(
            t2,
        ).contains_key(k) && map_of(t2)[k] == map_of(t1)[k] by {
            let i = choose|i: int| 0 <= i < t1.len() && t1[i].0 == k;
            assert(s1[i + 1] == t1[i]);
            assert(map_of(s1).contains_key(k));
            assert(map_of(s2).contains_key(k));
            let j = choose|j: int| 0 <= j < s2.len() && s2[j].0 == k;
            assert(lt_model(s1[0].0, s1[i + 1].0));
            if j == 0 {
                lemma_cmp_model_refl(k);
            }
            assert(t2[j - 1] == s2[j]);
            assert(map_of(t2)[k] == t2[j - 1].1);
            assert(map_of(s2)[k] == s2[j].1);
            assert(map_of(s1)[k] == t1[i].1);
            assert(map_of(t1)[k] == t1[i].1);
        }
        assert forall|k: ValueModel| #[trigger] map_of(t2).contains_key(k) implies map_of(
            t1,
        ).contains_key(k) by {
            let i = choose|i: int| 0 <= i < t2.len() && t2[i].0 == k;
            assert(s2[i + 1] == t2[i]);
            assert(map_of(s2).contains_key(k));
            assert(map_of(s1).contains_key(k));
            let j = choose|j: int| 0 <= j < s1.len() && s1[j].0 == k;
            assert(lt_model(s2[0].0, s2[i + 1].0));
            if j == 0 {
                lemma_cmp_model_refl(k);
            }
            assert(t1[j - 1] == s1[j]);
        }
        assert(map_of(t1) =~= map_of(t2));
        lemma_sorted_entries_unique(t1, t2);
        assert forall|x: int| 0 <= x < s1.len() implies s1[x] == s2[x] by {
            if x > 0 {
                assert(t1[x - 1] == t2[x - 1]);
            }
        }
        assert(s1 =~= s2);
    }
}

/// An unordered mapping of values to values. Entries are kept strictly sorted
/// by key in the total value order, so two equal maps have equal
/// representations, and structural equality decides map equality.
#[derive(Debug)]
pub struct ValueMap {
    pub entries: Vec<(Value, Value)>,
}

impl View for ValueMap {
    type V = Seq<(ValueModel, ValueModel)>;

    open spec fn view(&self) -> Seq<(ValueModel, ValueModel)> {
        entry_views_of(self.entries@)
    }
}

impl ValueMap {
    /// The map's invariant: entries strictly ascending by key.
    pub open spec fn wf(&self) -> bool {
        sorted_entries(self@)
    }

    /// The finite map this value stands for.
    pub open spec fn as_map(&self) -> Map<ValueModel, ValueModel> {
        map_of(self@)
    }

    pub fn new_empty() -> (r: Self)
        ensures
            r@ == Seq::<(ValueModel, ValueModel)>::empty(),
            r.wf(),
            r.as_map() == Map::<ValueModel, ValueModel>::empty(),
    {
        let r = ValueMap { entries: Vec::new() };
        proof {
            assert(r@ =~= Seq::<(ValueModel, ValueModel)>::empty());
        }
        r
    }

    pub fn len(&self) -> (r: usize)
        ensures
            r == self@.len(),
    {
        proof {
            lemma_entry_views_of(self.entries@);
        }
        self.entries.len()
    }

    pub fn is_empty(&self) -> (r: bool)
        ensures
            r == (self@.len() == 0),
    {
        self.len() == 0
    }

    /// The entry at the given position of the sorted run.
    pub fn get_entry(&self, i: usize) -> (r: (&Value, &Value))
        requires
            i < self@.len(),
        ensures
            r.0@ == self@[i as int].0,
            r.1@ == self@[i as int].1,
    {
        proof {
            lemma_entry_views_of(self.entries@);
        }
        let (k, v) = &self.entries[i];
        (k, v)
    }

    /// The value bound to the given key, if the key is present: the first
    /// entry with an equal key decides.
    pub fn get(&self, key: &Value) -> (r: Option<&Value>)
        ensures
            match r {
                Some(v) => entries_lookup(self@, key@) == Some(v@),
                None => entries_lookup(self@, key@) is None,
            },
    {
        proof {
            lemma_entry_views_of(self.entries@);
            vstd::seq_lib::lemma_seq_skip_nothing(self@, 0);
        }
        let mut i: usize = 0;
        while i < self.entries.len()
            invariant
                i <= self.entries@.len(),
                self@.len() == self.entries@.len(),
                forall|j: int|
                    0 <= j < self@.len() ==> #[trigger] self@[j] == (view_of(self.entries@[j].0),
                    view_of(self.entries@[j].1)),
                entries_lookup(self@, key@) == entries_lookup(self@.skip(i as int), key@),
            decreases self.entries@.len() - i,
        {
            proof {
                assert(self@.skip(i as int)[0] == self@[i as int]);
                assert(self@.skip(i as int).drop_first() =~= self@.skip(i + 1));
            }
            let (k, v) = &self.entries[i];
            if crate::value::value_eq(k, key) {
                return Some(v);
            }
            i = i + 1;
        }
        None
    }

    /// The value bound to the key, or the given default when absent.
    pub fn get_or<'a>(&'a self, key: &Value, or: &'a Value) -> (r: &'a Value)
        ensures
            entries_lookup(self@, key@) is Some ==> Some(r@) == entries_lookup(self@, key@),
            entries_lookup(self@, key@) is None ==> r == or,
    {
        match self.get(key) {
            Some(v) => v,
            None => or,
        }
    }

    /// The value bound to the key, or nil when absent.
    pub fn get_or_nil(&self, key: &Value) -> (r: Value)
        ensures
            entries_lookup(self@, key@) is Some ==> Some(r@) == entries_lookup(self@, key@),
            entries_lookup(self@, key@) is None ==> r@ == ValueModel::Nil,
    {
        match self.get(key) {
            Some(v) => v.clone(),
            None => Value::Nil,
        }
    }

    pub fn contains_key(&self, key: &Value) -> (r: bool)
        ensures
            r == (entries_lookup(self@, key@) is Some),
    {
        matches!(self.get(key), Some(..))
    }

    /// A new map that binds the key to the value; the receiver is unchanged.
    /// Binding an existing key replaces that key's value.
    #[verifier::rlimit(100)]
    pub fn insert(&self, key: Value, value: Value) -> (r: Self)
        requires
            self.wf(),
        ensures
            r.wf(),
            r.as_map() == self.as_map().insert(key@, value@),
            r@ == map_insert_model(self@, key@, value@),
    {
        let ghost km = key@;
        let ghost vm = value@;
        proof {
            lemma_entry_views_of(self.entries@);
            lemma_sorted_entries_distinct(self@);
            lemma_map_of_entries(self@);
        }
        let mut i: usize = 0;
        let n = self.entries.len();
        let mut replace = false;
        loop
            invariant_except_break
                self.wf(),
                km == key@,
                vm == value@,
                !replace,
                i <= n,
                n == self.entries@.len(),
                self@.len() == n,
                forall|j: int|
                    0 <= j < self@.len() ==> #[trigger] self@[j] == (view_of(self.entries@[j].0),
                    view_of(self.entries@[j].1)),
                forall|j: int| 0 <= j < i ==> cmp_model(km, (#[trigger] self@[j]).0) is Greater,
            ensures
                km == key@,
                vm == value@,
                i <= n,
                n == self.entries@.len(),
                self@.len() == n,
                forall|j: int|
                    0 <= j < self@.len() ==> #[trigger] self@[j] == (view_of(self.entries@[j].0),
                    view_of(self.entries@[j].1)),
                forall|j: int| 0 <= j < i ==> cmp_model(km, (#[trigger] self@[j]).0) is Greater,
                replace ==> i < n && self@[i as int].0 == km,
                !replace && i < n ==> cmp_model(km, self@[i as int].0) is Less,
            decreases n - i,
        {
            if i >= n {
                break;
            }
            let (k, _v) = &self.entries[i];
            let o = value_cmp(&key, k);
            match o {
                Ordering::Equal => {
                    proof {
                        lemma_cmp_model_eq(km, self@[i as int].0);
                    }
                    replace = true;
                    break;
                },
                Ordering::Less => {
                    break;
                },
                Ordering::Greater => {
                    i = i + 1;
                },
            }
        }
        // Copy entries before position `i`, place the new binding, then copy
        // the rest (skipping the replaced entry if any).
        let mut entries: Vec<(Value, Value)> = Vec::new();
        let mut j: usize = 0;
        proof {
            assert(entry_views_of(entries@) =~= self@.subrange(0, 0));
        }
        while j < i
            invariant
                i <= self.entries@.len(),
                j <= i,
                entry_views_of(entries@) == self@.subrange(0, j as int),
            decreases i - j,
        {
            let ghost old_entries = entries@;
            let (k, v) = &self.entries[j];
            entries.push((k.clone(), v.clone()));
            j = j + 1;
            proof {
                lemma_entry_views_of_push(old_entries, entries@.last().0, entries@.last().1);
                assert(entries@.last() == (entries@.last().0, entries@.last().1));
                assert(entries@ == old_entries.push(entries@.last()));
                lemma_entry_views_of(self.entries@);
                assert(entry_views_of(entries@) =~= self@.subrange(0, j as int));
            }
        }
        let ghost before = entries@;
        entries.push((key, value));
        proof {
            lemma_entry_views_of_push(before, entries@.last().0, entries@.last().1);
            assert(entries@.last() == (entries@.last().0, entries@.last().1));
            assert(entries@ == before.push(entries@.last()));
        }
        let start = if replace {
            i + 1
        } else {
            i
        };
        let mut k2: usize = start;
        proof {
            assert(entry_views_of(entries@) =~= self@.subrange(0, i as int) + seq![(km, vm)]
                + self@.subrange(start as int, start as int));
        }
        while k2 < n
            invariant
                i <= start <= k2 || (start <= k2 && start == i + 1),
                start <= k2 <= n,
                i <= start,
                n == self.entries@.len(),
                self@.len() == n,
                forall|j2: int|
                    0 <= j2 < self@.len() ==> #[trigger] self@[j2] == (view_of(
                        self.entries@[j2].0,
                    ), view_of(self.entries@[j2].1)),
                entry_views_of(entries@) == self@.subrange(0, i as int) + seq![(km, vm)]
                    + self@.subrange(start as int, k2 as int),
            decreases n - k2,
        {
            let ghost old_entries = entries@;
            let (k, v) = &self.entries[k2];
            entries.push((k.clone(), v.clone()));
            k2 = k2 + 1;
            proof {
                lemma_entry_views_of_push(old_entries, entries@.last().0, entries@.last().1);
                assert(entries@.last() == (entries@.last().0, entries@.last().1));
                assert(entries@ == old_entries.push(entries@.last()));
                assert(entry_views_of(entries@) =~= self@.subrange(0, i as int) + seq![(km, vm)]
                    + self@.subrange(start as int, k2 as int));
            }
        }
        let r = ValueMap { entries };
        proof {
            let s = self@;
            let iv = i as int;
            let sv = start as int;
            assert(r@ == s.subrange(0, iv) + seq![(km, vm)] + s.subrange(sv, s.len() as int));
            // keys of the result are strictly sorted
            assert forall|p: int, q: int| 0 <= p < q < r@.len() implies lt_model(
                (#[trigger] r@[p]).0,
                (#[trigger] r@[q]).0,
            ) by {
                let off = sv - iv - 1;
                if p < iv && q < iv {
                    assert(r@[p] == s[p] && r@[q] == s[q]);
                } else if p < iv && q == iv {
                    assert(r@[p] == s[p] && r@[q].0 == km);
                    lemma_cmp_model_swap(km, s[p].0);
                } else if p < iv && q > iv {
                    assert(r@[p] == s[p] && r@[q] == s[q + off]);
                    assert(p < q + off);
                } else if p == iv && q > iv {
                    assert(r@[p].0 == km && r@[q] == s[q + off]);
                    if replace {
                        assert(s[iv].0 == km);
                        assert(lt_model(s[iv].0, s[q + off].0));
                    } else {
                        assert(cmp_model(km, s[iv].0) is Less);
                        if q + off > iv {
                            lemma_cmp_model_trans(km, s[iv].0, s[q + off].0);
                        }
                    }
                } else {
                    assert(p > iv && q > iv);
                    assert(r@[p] == s[p + off] && r@[q] == s[q + off]);
                }
            }
            // the map it stands for
            lemma_sorted_entries_distinct(r@);
            lemma_map_of_entries(r@);
            assert forall|k3: ValueModel| #[trigger]
                r.as_map().contains_key(k3) implies self.as_map().insert(km, vm).contains_key(k3)
                && r.as_map()[k3] == self.as_map().insert(km, vm)[k3] by {
                let x = choose|x: int| 0 <= x < r@.len() && (#[trigger] r@[x]).0 == k3;
                assert(r.as_map()[k3] == r@[x].1);
                let off = sv - iv - 1;
                if x < iv {
                    assert(r@[x] == s[x]);
                    assert(cmp_model(km, s[x].0) is Greater);
                    if k3 == km {
                        lemma_cmp_model_refl(km);
                    }
                } else if x == iv {
                    assert(r@[x] == (km, vm));
                } else {
                    assert(r@[x] == s[x + off]);
                    if k3 == km {
                        if replace {
                            assert(lt_model(s[iv].0, s[x + off].0));
                            lemma_cmp_model_refl(km);
                        } else {
                            assert(cmp_model(km, s[iv].0) is Less);
                            if x + off > iv {
                                lemma_cmp_model_trans(km, s[iv].0, s[x + off].0);
                            }
                            lemma_cmp_model_refl(km);
                        }
                    }
                }
            }
            assert forall|k3: ValueModel| #[trigger]
                self.as_map().insert(km, vm).contains_key(k3) implies r.as_map().contains_key(
                k3,
            ) by {
                if k3 == km {
                    assert(r@[iv].0 == km);
                } else {
                    let x = choose|x: int| 0 <= x < s.len() && (#[trigger] s[x]).0 == k3;
                    let off = sv - iv - 1;
                    if x < iv {
                        assert(r@[x].0 == k3);
                    } else if replace && x == iv {
                        assert(false);
                    } else {
                        assert(r@[x - off].0 == k3);
                    }
                }
            }
            assert(r.as_map() =~= self.as_map().insert(km, vm));
            lemma_map_insert_model(s, km, vm);
            lemma_sorted_entries_unique(r@, map_insert_model(s, km, vm));
        }
        r
    }

    /// The map holding the given bindings, each inserted in turn; a later
    /// binding of the same key wins.
    pub fn from_entries(pairs: Vec<(Value, Value)>) -> (r: Self)
        ensures
            r.wf(),
            r.as_map() == map_of(entry_views_of(pairs@)),
    {
        let mut r = ValueMap::new_empty();
        proof {
            lemma_entry_views_of(pairs@);
            assert(entry_views_of(pairs@).subrange(0, 0) =~= Seq::<(
                ValueModel,
                ValueModel,
            )>::empty());
        }
        let mut i: usize = 0;
        while i < pairs.len()
            invariant
                r.wf(),
                i <= pairs@.len(),
                r.as_map() == map_of(entry_views_of(pairs@).subrange(0, i as int)),
            decreases pairs@.len() - i,
        {
            proof {
                lemma_entry_views_of(pairs@);
            }
            let (k, v) = &pairs[i];
            r = r.insert(k.clone(), v.clone());
            i = i + 1;
            proof {
                let ps = entry_views_of(pairs@);
                assert(ps.subrange(0, i as int).drop_last() =~= ps.subrange(0, i - 1));
                assert(ps.subrange(0, i as int).last() == ps[i - 1]);
                assert(ps[i - 1] == (view_of(pairs@[i - 1].0), view_of(pairs@[i - 1].1)));
            }
        }
        proof {
            assert(entry_views_of(pairs@).subrange(0, pairs@.len() as int) =~= entry_views_of(
                pairs@,
            ));
        }
        r
    }
}

impl Clone for ValueMap {
    fn clone(&self) -> (r: Self)
        ensures
            r@ == self@,
    {
        ValueMap { entries: crate::value::clone_entries(&self.entries) }
    }
}

impl PartialEq for ValueMap {
    fn eq(&self, other: &Self) -> (r: bool) {
        crate::value::entries_eq(&self.entries, &other.entries)
    }
}

impl Eq for ValueMap {

}

impl vstd::std_specs::cmp::PartialEqSpecImpl for ValueMap {
    open spec fn obeys_eq_spec() -> bool {
        true
    }

    open spec fn eq_spec(&self, other: &Self) -> bool {
        self@ == other@
    }
}

} // verus!
