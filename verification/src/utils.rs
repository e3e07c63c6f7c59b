use vstd::prelude::*;
use crate::env::{Env, resolved_value, resolved_var, find_ns_from, registry_of, distinct_cells,
    lemma_resolved_var_bound, lemma_distinct_cells_after_intern};
use crate::value::{Value, ValueModel};

verus! {

/// The last value a row of bindings gives the name, if any.
pub open spec fn row_binding(binds: Seq<(String, Value)>, name: Seq<char>) -> Option<ValueModel>
    decreases binds.len(),
{
    if binds.len() == 0 {
        None
    } else if binds.last().0@ == name {
        Some(binds.last().1@)
    } else {
        row_binding(binds.drop_last(), name)
    }
}

/// The last value the namespace descriptions bind for the pair, if any:
/// later rows and later bindings within a row win.
pub open spec fn described_binding(
    short_env: Seq<(String, Vec<(String, Value)>)>,
    ns: Seq<char>,
    name: Seq<char>,
) -> Option<ValueModel>
    decreases short_env.len(),
{
    if short_env.len() == 0 {
        None
    } else {
        let row = short_env.last();
        if row.0@ == ns {
            match row_binding(row.1@, name) {
                Some(m) => Some(m),
                None => described_binding(short_env.drop_last(), ns, name),
            }
        } else {
            described_binding(short_env.drop_last(), ns, name)
        }
    }
}

/// The environment holds exactly the described bindings.
pub open spec fn holds_described(
    env: &Env,
    short_env: Seq<(String, Vec<(String, Value)>)>,
) -> bool {
    forall|ns: Seq<char>, name: Seq<char>|
        match described_binding(short_env, ns, name) {
            Some(m) => #[trigger] resolved_value(env, ns, name) == Some(Some(m)),
            None => resolved_value(env, ns, name) is None,
        }
}

/// An environment populated from namespace descriptions: for each named
/// namespace, each listed name is interned with its value, in order, a later
/// binding of the same pair winning. Nothing else resolves in the result.
pub fn make_env(short_env: Vec<(String, Vec<(String, Value)>)>) -> (r: Env)
    ensures
        r.wf(),
        holds_described(&r, short_env@),
{
    broadcast use vstd::std_specs::vec::group_vec_axioms;

    let mut env = Env::new_empty();
    proof {
        assert forall|ns: Seq<char>, name: Seq<char>| #[trigger]
            resolved_var(&env, ns, name) is None by {
            assert(registry_of(&env).len() == 0);
            assert(find_ns_from(registry_of(&env), ns, 0) is None);
        }
        assert(short_env@.subrange(0, 0) =~= Seq::<(String, Vec<(String, Value)>)>::empty());
    }
    let mut i: usize = 0;
    while i < short_env.len()
        invariant
            env.wf(),
            distinct_cells(&env),
            i <= short_env@.len(),
            holds_described(&env, short_env@.subrange(0, i as int)),
        decreases short_env@.len() - i,
    {
        let (ns, vals) = &short_env[i];
        let ghost prev = short_env@.subrange(0, i as int);
        let mut j: usize = 0;
        proof {
            assert(vals@.subrange(0, 0) =~= Seq::<(String, Value)>::empty());
        }
        while j < vals.len()
            invariant
                env.wf(),
                distinct_cells(&env),
                i < short_env@.len(),
                j <= vals@.len(),
                prev == short_env@.subrange(0, i as int),
                *ns == short_env@[i as int].0,
                *vals == short_env@[i as int].1,
                forall|ns2: Seq<char>, name2: Seq<char>|
                    ({
                        let described = if ns2 == ns@ {
                            match row_binding(vals@.subrange(0, j as int), name2) {
                                Some(m) => Some(m),
                                None => described_binding(prev, ns2, name2),
                            }
                        } else {
                            described_binding(prev, ns2, name2)
                        };
                        match described {
                            Some(m) => #[trigger] resolved_value(&env, ns2, name2) == Some(
                                Some(m),
                            ),
                            None => resolved_value(&env, ns2, name2) is None,
                        }
                    }),
            decreases vals@.len() - j,
        {
            let (n, val) = &vals[j];
            let ghost env0 = env;
            env.intern(ns.as_str(), n.as_str(), val.clone());
            j = j + 1;
            proof {
                lemma_distinct_cells_after_intern(&env0, &env, ns@, n@);
                let binds = vals@.subrange(0, j as int);
                assert(binds.drop_last() =~= vals@.subrange(0, j - 1));
                assert(binds.last() == vals@[j - 1]);
                assert(vals@[j - 1] == (vals@[j - 1].0, vals@[j - 1].1));
                assert(binds.last().0@ == n@);
                assert(binds.last().1@ == val@);
                let ghost target = resolved_var(&env, ns@, n@);
                assert forall|ns2: Seq<char>, name2: Seq<char>|
                    ({
                        let described = if ns2 == ns@ {
                            match row_binding(binds, name2) {
                                Some(m) => Some(m),
                                None => described_binding(prev, ns2, name2),
                            }
                        } else {
                            described_binding(prev, ns2, name2)
                        };
                        match described {
                            Some(m) => #[trigger] resolved_value(&env, ns2, name2) == Some(
                                Some(m),
                            ),
                            None => resolved_value(&env, ns2, name2) is None,
                        }
                    }) by {
                    if ns2 == ns@ && name2 == n@ {
                        assert(row_binding(binds, name2) == Some(val@));
                        assert(resolved_value(&env, ns2, name2) == Some(Some(val@)));
                    } else {
                        assert(row_binding(binds, name2) == row_binding(
                            vals@.subrange(0, j - 1),
                            name2,
                        ) || ns2 != ns@);
                        // the loop invariant pins the pair's old resolution
                        let ghost old_rv = resolved_value(&env0, ns2, name2);
                        assert(resolved_var(&env, ns2, name2) == resolved_var(&env0, ns2, name2));
                        lemma_resolved_var_bound(&env0, ns2, name2);
                        match resolved_var(&env0, ns2, name2) {
                            Some(x) => {
                                // the touched cell belongs to the target pair
                                // alone, so this pair's cell kept its content
                                match crate::env::resolved_interned_var(&env0, ns@, n@) {
                                    Some(..) => {
                                        assert(resolved_var(&env0, ns@, n@) == target);
                                        assert(Some(x) != target);
                                    },
                                    None => {
                                        assert(target == Some(env0.vars@.len() as int));
                                    },
                                }
                                assert(env.vars@[x] == env0.vars@[x]);
                                assert(resolved_value(&env, ns2, name2) == old_rv);
                            },
                            None => {
                                assert(resolved_value(&env, ns2, name2) is None);
                                assert(old_rv is None);
                            },
                        }
                    }
                }
            }
        }
        i = i + 1;
        proof {
            let cur = short_env@.subrange(0, i as int);
            assert(cur.drop_last() =~= prev);
            assert(cur.last() == short_env@[i - 1]);
            assert(vals@.subrange(0, vals@.len() as int) =~= vals@);
            assert forall|ns2: Seq<char>, name2: Seq<char>|
                ({
                    match described_binding(cur, ns2, name2) {
                        Some(m) => #[trigger] resolved_value(&env, ns2, name2) == Some(Some(m)),
                        None => resolved_value(&env, ns2, name2) is None,
                    }
                }) by {
                if ns2 == ns@ {
                    assert(described_binding(cur, ns2, name2) == (match row_binding(vals@, name2) {
                        Some(m) => Some(m),
                        None => described_binding(prev, ns2, name2),
                    }));
                } else {
                    assert(described_binding(cur, ns2, name2) == described_binding(
                        prev,
                        ns2,
                        name2,
                    ));
                }
            }
        }
    }
    proof {
        assert(short_env@.subrange(0, short_env@.len() as int) =~= short_env@);
    }
    env
}

} // verus!
