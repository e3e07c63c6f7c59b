use vstd::prelude::*;
use vstd::string::StringExecFns;
use crate::unqualified_symbol::UnqualifiedSymbol;
use crate::namespace::{Namespace, lookup_name, combined_lookup};
use crate::var::Var;
use crate::value::{Value, ValueModel};

verus! {

/// What namespace lookup sees of an environment: for each slot, whether it is
/// still registered, and its name.
pub open spec fn registry_of(env: &Env) -> Seq<(bool, Seq<char>)> {
    Seq::new(
        env.namespaces@.len(),
        |i: int| (env.registered@[i], env.namespaces@[i].name@),
    )
}

/// The first registered slot carrying the given name, scanning from `from`.
pub open spec fn find_ns_from(reg: Seq<(bool, Seq<char>)>, name: Seq<char>, from: int) -> Option<
    int,
>
    decreases reg.len() - from,
{
    if from < 0 || from >= reg.len() {
        None
    } else if reg[from].0 && reg[from].1 == name {
        Some(from)
    } else {
        find_ns_from(reg, name, from + 1)
    }
}

/// The registered namespace carrying the given name, if any.
pub open spec fn find_ns(env: &Env, name: Seq<char>) -> Option<int> {
    find_ns_from(registry_of(env), name, 0)
}

/// What `find_ns_from` finds, slot by slot.
pub proof fn lemma_find_ns_from(reg: Seq<(bool, Seq<char>)>, name: Seq<char>, from: int)
    requires
        0 <= from <= reg.len(),
    ensures
        match find_ns_from(reg, name, from) {
            Some(i) => from <= i < reg.len() && reg[i].0 && reg[i].1 == name && forall|j: int|
                from <= j < i ==> !((#[trigger] reg[j]).0 && reg[j].1 == name),
            None => forall|j: int|
                from <= j < reg.len() ==> !((#[trigger] reg[j]).0 && reg[j].1 == name),
        },
    decreases reg.len() - from,
{
    if from < reg.len() {
        lemma_find_ns_from(reg, name, from + 1);
    }
}

/// Scanning two registries that agree slot by slot finds the same slot.
pub proof fn lemma_find_ns_from_congruence(
    r1: Seq<(bool, Seq<char>)>,
    r2: Seq<(bool, Seq<char>)>,
    name: Seq<char>,
    from: int,
)
    requires
        r1 == r2,
    ensures
        find_ns_from(r1, name, from) == find_ns_from(r2, name, from),
{
}

/// The resolved var index for a (namespace name, binding name) pair: find the
/// namespace, then look the name up among its interned, then referred,
/// bindings. Resolution never creates a namespace.
pub open spec fn resolved_var(env: &Env, ns_name: Seq<char>, name: Seq<char>) -> Option<int> {
    match find_ns(env, ns_name) {
        Some(i) => combined_lookup(&env.namespaces@[i], name),
        None => None,
    }
}

/// The content of the var a pair resolves to: `None` when nothing resolves,
/// `Some(None)` for an unbound var, `Some(Some(m))` for a var bound to `m`.
pub open spec fn resolved_value(env: &Env, ns_name: Seq<char>, name: Seq<char>) -> Option<
    Option<ValueModel>,
> {
    match resolved_var(env, ns_name, name) {
        Some(i) => Some(env.vars@[i]@),
        None => None,
    }
}

/// The registry of namespaces and the table of binding cells. Namespaces and
/// vars are owned here and addressed by index; values and namespaces hold
/// those indices as shared handles, so a rebinding is observed by every
/// holder. A removed namespace is detached from the registry but its slot
/// stays, so handles to it stay valid.
pub struct Env {
    pub namespaces: Vec<Namespace>,
    pub registered: Vec<bool>,
    pub vars: Vec<Var>,
}

impl Env {
    /// The environment's invariant: the registry is consistent, every
    /// namespace is well formed and mentions only live var indices, and no
    /// two registered namespaces carry the same name.
    pub open spec fn wf(&self) -> bool {
        &&& self.registered@.len() == self.namespaces@.len()
        &&& forall|i: int|
            0 <= i < self.namespaces@.len() ==> (#[trigger] self.namespaces@[i]).wf()
        &&& forall|i: int|
            0 <= i < self.namespaces@.len() ==> (#[trigger] self.namespaces@[i]).vars_below(
                self.vars@.len() as int,
            )
        &&& forall|i: int, j: int|
            0 <= i < j < self.namespaces@.len() && (#[trigger] self.registered@[i])
                && (#[trigger] self.registered@[j]) ==> self.namespaces@[i].name@
                != self.namespaces@[j].name@
    }

    pub fn new_empty() -> (r: Self)
        ensures
            r.wf(),
            r.namespaces@.len() == 0,
            r.vars@.len() == 0,
    {
        Env { namespaces: Vec::new(), registered: Vec::new(), vars: Vec::new() }
    }

    /// How many namespace slots exist, registered or detached.
    pub fn namespace_count(&self) -> (r: usize)
        ensures
            r == self.namespaces@.len(),
    {
        self.namespaces.len()
    }

    /// The namespace slot at the given index.
    pub fn namespace_at(&self, i: usize) -> (r: &Namespace)
        requires
            i < self.namespaces@.len(),
        ensures
            r == &self.namespaces@[i as int],
    {
        &self.namespaces[i]
    }

    /// How many binding cells exist.
    pub fn var_count(&self) -> (r: usize)
        ensures
            r == self.vars@.len(),
    {
        self.vars.len()
    }

    /// The binding cell at the given index.
    pub fn var_at(&self, i: usize) -> (r: &Var)
        requires
            i < self.vars@.len(),
        ensures
            r == &self.vars@[i as int],
    {
        &self.vars[i]
    }

    /// Sets the content of the binding cell; every holder of the handle
    /// observes the change.
    pub fn bind_var(&mut self, i: usize, v: Value)
        requires
            old(self).wf(),
            i < old(self).vars@.len(),
        ensures
            final(self).wf(),
            final(self).namespaces@ == old(self).namespaces@,
            final(self).registered@ == old(self).registered@,
            final(self).vars@.len() == old(self).vars@.len(),
            final(self).vars@[i as int]@ == Some(v@),
            forall|j: int|
                0 <= j < old(self).vars@.len() && j != i ==> final(self).vars@[j]
                    == #[trigger] old(self).vars@[j],
    {
        let var = Var::new_bound(v);
        self.vars[i] = var;
    }

    /// Clears the binding cell back to unbound.
    pub fn unbind_var(&mut self, i: usize)
        requires
            old(self).wf(),
            i < old(self).vars@.len(),
        ensures
            final(self).wf(),
            final(self).namespaces@ == old(self).namespaces@,
            final(self).registered@ == old(self).registered@,
            final(self).vars@.len() == old(self).vars@.len(),
            final(self).vars@[i as int]@ is None,
            forall|j: int|
                0 <= j < old(self).vars@.len() && j != i ==> final(self).vars@[j]
                    == #[trigger] old(self).vars@[j],
    {
        let var = Var::new_unbound();
        self.vars[i] = var;
    }

    /// The registered namespace of the given name, without creating one.
    pub fn get_namespace(&self, ns_name: &str) -> (r: Option<usize>)
        requires
            self.wf(),
        ensures
            match r {
                Some(i) => find_ns(self, ns_name@) == Some(i as int),
                None => find_ns(self, ns_name@) is None,
            },
    {
        let mut i: usize = 0;
        let n = self.namespaces.len();
        while i < n
            invariant
                self.wf(),
                i <= n,
                n == self.namespaces@.len(),
                find_ns_from(registry_of(self), ns_name@, 0) == find_ns_from(
                    registry_of(self),
                    ns_name@,
                    i as int,
                ),
            decreases n - i,
        {
            if self.registered[i] {
                if crate::ord::str_eq(self.namespaces[i].name.name(), ns_name) {
                    proof {
                        assert(registry_of(self)[i as int].0);
                        assert(registry_of(self)[i as int].1 == ns_name@);
                    }
                    return Some(i);
                }
            }
            proof {
                assert(!(registry_of(self)[i as int].0 && registry_of(self)[i as int].1
                    == ns_name@));
            }
            i = i + 1;
        }
        None
    }

    /// The var the pair resolves to: the namespace's interned binding first,
    /// then its referred binding. A pure lookup: nothing is created.
    pub fn resolve(&self, ns_name: &str, name: &str) -> (r: Option<usize>)
        requires
            self.wf(),
        ensures
            match r {
                Some(i) => resolved_var(self, ns_name@, name@) == Some(i as int),
                None => resolved_var(self, ns_name@, name@) is None,
            },
    {
        match self.get_namespace(ns_name) {
            Some(i) => {
                if i < self.namespaces.len() {
                    self.namespaces[i].get_interned_or_referred_var(name)
                } else {
                    proof {
                        lemma_find_ns_from(registry_of(self), ns_name@, 0);
                        assert(false);
                    }
                    None
                }
            },
            None => None,
        }
    }

    /// The content of the var the pair resolves to, or `None` when nothing
    /// resolves or the var is unbound.
    pub fn resolve_value(&self, ns_name: &str, name: &str) -> (r: Option<Value>)
        requires
            self.wf(),
        ensures
            match r {
                Some(v) => resolved_value(self, ns_name@, name@) == Some(Some(v@)),
                None => resolved_value(self, ns_name@, name@) is None || resolved_value(
                    self,
                    ns_name@,
                    name@,
                ) == Some(Option::<ValueModel>::None),
            },
    {
        match self.resolve(ns_name, name) {
            Some(i) => {
                proof {
                    lemma_find_ns_from(registry_of(self), ns_name@, 0);
                    let k = find_ns(self, ns_name@).unwrap();
                    crate::namespace::lemma_lookup_name(self.namespaces@[k].interned@, name@);
                    crate::namespace::lemma_lookup_name(self.namespaces@[k].referred@, name@);
                }
                if i < self.vars.len() {
                    self.vars[i].deref()
                } else {
                    proof {
                        assert(false);
                    }
                    None
                }
            },
            None => None,
        }
    }

    /// The registered namespace of the given name, created empty on first
    /// reference.
    pub fn find_or_create_namespace(&mut self, ns_name: UnqualifiedSymbol) -> (r: usize)
        requires
            old(self).wf(),
        ensures
            final(self).wf(),
            final(self).vars@ == old(self).vars@,
            (r as int) < final(self).namespaces@.len(),
            find_ns(final(self), ns_name@) == Some(r as int),
            find_ns(old(self), ns_name@) is Some ==> *final(self) == *old(self) && find_ns(
                old(self),
                ns_name@,
            ) == Some(r as int),
            find_ns(old(self), ns_name@) is None ==> {
                &&& final(self).namespaces@.len() == old(self).namespaces@.len() + 1
                &&& r as int == old(self).namespaces@.len()
                &&& final(self).namespaces@[r as int].name@ == ns_name@
                &&& final(self).namespaces@[r as int].interned@.len() == 0
                &&& final(self).namespaces@[r as int].referred@.len() == 0
                &&& forall|j: int|
                    0 <= j < old(self).namespaces@.len() ==> final(self).namespaces@[j]
                        == #[trigger] old(self).namespaces@[j] && final(self).registered@[j]
                        == old(self).registered@[j]
            },
            forall|n: Seq<char>|
                n != ns_name@ ==> #[trigger] find_ns(final(self), n) == find_ns(old(self), n),
    {
        match self.get_namespace(ns_name.name()) {
            Some(i) => {
                proof {
                    lemma_find_ns_from(registry_of(self), ns_name@, 0);
                }
                i
            },
            None => {
                let ghost old_env = *self;
                proof {
                    lemma_find_ns_from(registry_of(&old_env), ns_name@, 0);
                }
                let r = self.namespaces.len();
                let ns = Namespace::new_empty(ns_name);
                self.namespaces.push(ns);
                self.registered.push(true);
                proof {
                    let reg_old = registry_of(&old_env);
                    let reg_new = registry_of(self);
                    assert(reg_new.len() == reg_old.len() + 1);
                    assert(reg_new[r as int].0 && reg_new[r as int].1 == ns_name@);
                    assert forall|j: int| 0 <= j < reg_old.len() implies reg_new[j] == reg_old[j] by {
                        assert(self.namespaces@[j] == old_env.namespaces@[j]);
                    }
                    assert forall|j: int|
                        0 <= j < self.namespaces@.len() implies (#[trigger] self.namespaces@[j]).wf()
                        && self.namespaces@[j].vars_below(self.vars@.len() as int) by {
                        if j < old_env.namespaces@.len() {
                            assert(self.namespaces@[j] == old_env.namespaces@[j]);
                        }
                    }
                    assert forall|a: int, b: int|
                        0 <= a < b < self.namespaces@.len() && (#[trigger] self.registered@[a]) && (
                        #[trigger] self.registered@[b]) implies self.namespaces@[a].name@
                        != self.namespaces@[b].name@ by {
                        if b < old_env.namespaces@.len() {
                            assert(self.namespaces@[a] == old_env.namespaces@[a]);
                            assert(self.namespaces@[b] == old_env.namespaces@[b]);
                            assert(old_env.registered@[a] && old_env.registered@[b]);
                        } else {
                            assert(self.namespaces@[a] == old_env.namespaces@[a]);
                            assert(old_env.registered@[a]);
                            assert(reg_old[a] == (old_env.registered@[a], old_env.namespaces@[a].name@));
                            assert(!(reg_old[a].0 && reg_old[a].1 == ns_name@));
                        }
                    }
                    assert(self.wf());
                    lemma_find_ns_append(reg_old, reg_new, ns_name@);
                    assert(find_ns(self, ns_name@) == Some(r as int));
                    assert forall|n: Seq<char>|
                        n != ns_name@ implies #[trigger] find_ns(self, n) == find_ns(
                        &old_env,
                        n,
                    ) by {
                        lemma_find_ns_append_other(reg_old, reg_new, ns_name@, n);
                    }
                }
                r
            },
        }
    }

    /// Detaches the namespace of the given name from the registry and returns
    /// its handle; holders of the handle keep the namespace alive.
    pub fn remove_namespace(&mut self, ns_name: &str) -> (r: Option<usize>)
        requires
            old(self).wf(),
        ensures
            final(self).wf(),
            final(self).vars@ == old(self).vars@,
            final(self).namespaces@ == old(self).namespaces@,
            find_ns(final(self), ns_name@) is None,
            forall|n: Seq<char>|
                n != ns_name@ ==> #[trigger] find_ns(final(self), n) == find_ns(old(self), n),
            match r {
                Some(i) => find_ns(old(self), ns_name@) == Some(i as int),
                None => find_ns(old(self), ns_name@) is None && *final(self) == *old(self),
            },
    {
        match self.get_namespace(ns_name) {
            Some(i) => {
                let ghost old_env = *self;
                proof {
                    lemma_find_ns_from(registry_of(&old_env), ns_name@, 0);
                }
                if i < self.registered.len() {
                    self.registered[i] = false;
                } else {
                    proof {
                        assert(false);
                    }
                }
                proof {
                    let reg_old = registry_of(&old_env);
                    let reg_new = registry_of(self);
                    assert(reg_new.len() == reg_old.len());
                    assert forall|j: int|
                        0 <= j < reg_old.len() && j != i implies reg_new[j] == reg_old[j] by {
                        assert(self.namespaces@[j] == old_env.namespaces@[j]);
                    }
                    assert(!reg_new[i as int].0);
                    assert(reg_new[i as int].1 == reg_old[i as int].1);
                    lemma_find_ns_unregister(reg_old, reg_new, i as int, ns_name@);
                }
                Some(i)
            },
            None => None,
        }
    }

    /// Ensures a var exists for the name in the namespace and is bound to the
    /// value, creating the namespace on first reference. Interning a name
    /// that already has an interned var rebinds the existing cell in place,
    /// so previously captured handles observe the new binding.
    pub fn intern(&mut self, ns_name: &str, name: &str, v: Value)
        requires
            old(self).wf(),
        ensures
            final(self).wf(),
            resolved_value(final(self), ns_name@, name@) == Some(Some(v@)),
            // rebinding in place: an existing interned var keeps its identity
            ({
                let before = resolved_interned_var(old(self), ns_name@, name@);
                before is Some ==> resolved_var(final(self), ns_name@, name@) == before
                    && final(self).vars@.len() == old(self).vars@.len()
            }),
            // a name without an interned var gets a fresh cell, appended
            resolved_interned_var(old(self), ns_name@, name@) is None ==> final(self).vars@.len()
                == old(self).vars@.len() + 1 && resolved_var(final(self), ns_name@, name@) == Some(
                old(self).vars@.len() as int,
            ),
            // no binding is rerouted: every pair resolves to the cell it
            // resolved to before (a pair sharing the target cell observes the
            // new content, by design)
            forall|a: Seq<char>, b: Seq<char>|
                (a != ns_name@ || b != name@) ==> #[trigger] resolved_var(final(self), a, b)
                    == resolved_var(old(self), a, b),
            // the namespace registry is only ever extended, and kept names
            old(self).namespaces@.len() <= final(self).namespaces@.len(),
            forall|j: int| #![trigger final(self).namespaces@[j]]
                0 <= j < final(self).namespaces@.len() ==> final(self).namespaces@[j].name@ == (
                if j < old(self).namespaces@.len() {
                    old(self).namespaces@[j].name@
                } else {
                    ns_name@
                }),
            forall|n: Seq<char>|
                n != ns_name@ ==> #[trigger] find_ns(final(self), n) == find_ns(old(self), n),
            find_ns(final(self), ns_name@) is Some,
            // var cells other than the target are untouched
            old(self).vars@.len() <= final(self).vars@.len(),
            forall|j: int|
                0 <= j < old(self).vars@.len() && Some(j) != resolved_var(
                    final(self),
                    ns_name@,
                    name@,
                ) ==> final(self).vars@[j] == #[trigger] old(self).vars@[j],
    {
        let ghost old_env = *self;
        let ns_sym = crate::unqualified_symbol::new(ns_name);
        let k = self.find_or_create_namespace(ns_sym);
        let ghost mid_env = *self;
        proof {
            lemma_find_ns_from(registry_of(self), ns_name@, 0);
        }
        let target: usize;
        let existing = self.namespaces[k].get_interned_var(name);
        match existing {
            Some(vi) => {
                proof {
                    crate::namespace::lemma_lookup_name(self.namespaces@[k as int].interned@, name@);
                }
                target = vi;
                self.bind_var(vi, v);
                proof {
                    assert(registry_of(self) =~= registry_of(&mid_env));
                    lemma_find_ns_from_congruence(registry_of(self), registry_of(&mid_env), ns_name@, 0);
                }
            },
            None => {
                let vi = self.vars.len();
                self.vars.push(Var::new_bound(v));
                let mut ns = self.namespaces[k].clone();
                proof {
                    assert(ns.wf());
                }
                ns.set_interned(crate::unqualified_symbol::new(name), vi);
                let ghost pre_set = *self;
                self.namespaces[k] = ns;
                target = vi;
                proof {
                    // the registry keeps every slot's name, so namespace search is unchanged
                    assert forall|j: int| 0 <= j < registry_of(self).len() implies registry_of(self)[j]
                        == registry_of(&mid_env)[j] by {
                        if j != k as int {
                            assert(self.namespaces@[j] == mid_env.namespaces@[j]);
                        }
                    }
                    assert(registry_of(self) =~= registry_of(&mid_env));
                    // well-formedness: the touched namespace is wf with indices below the
                    // grown var table; the others are unchanged
                    assert forall|j: int|
                        0 <= j < self.namespaces@.len() implies (#[trigger] self.namespaces@[j]).wf()
                        && self.namespaces@[j].vars_below(self.vars@.len() as int) by {
                        if j != k as int {
                            assert(self.namespaces@[j] == mid_env.namespaces@[j]);
                            assert(mid_env.namespaces@[j].vars_below(mid_env.vars@.len() as int));
                        } else {
                            assert(mid_env.namespaces@[j].vars_below(mid_env.vars@.len() as int));
                            assert(mid_env.namespaces@[j].vars_below(vi as int));
                        }
                    }
                    assert forall|a: int, b: int|
                        0 <= a < b < self.namespaces@.len() && (#[trigger] self.registered@[a]) && (
                        #[trigger] self.registered@[b]) implies self.namespaces@[a].name@
                        != self.namespaces@[b].name@ by {
                        assert(self.namespaces@[a].name@ == mid_env.namespaces@[a].name@);
                        assert(self.namespaces@[b].name@ == mid_env.namespaces@[b].name@);
                    }
                    assert(self.wf());
                }
            },
        }
        proof {
            // resolution of the target pair
            assert(find_ns(self, ns_name@) == Some(k as int));
            assert(lookup_name(self.namespaces@[k as int].interned@, name@) == Some(target as int));
            assert(resolved_var(self, ns_name@, name@) == Some(target as int));
            assert(self.vars@[target as int]@ == Some(v@));
            assert forall|j: int| #![trigger self.namespaces@[j]]
                0 <= j < self.namespaces@.len() implies self.namespaces@[j].name@ == (
            if j < old_env.namespaces@.len() {
                old_env.namespaces@[j].name@
            } else {
                ns_name@
            }) by {
                if j < old_env.namespaces@.len() {
                    if j != k as int {
                        assert(self.namespaces@[j] == mid_env.namespaces@[j]);
                    }
                    if find_ns(&old_env, ns_name@) is Some {
                        assert(mid_env == old_env);
                    } else {
                        if j < old_env.namespaces@.len() {
                            assert(mid_env.namespaces@[j] == old_env.namespaces@[j]);
                        }
                    }
                } else {
                    assert(j == k as int);
                }
            }
            assert forall|n: Seq<char>|
                n != ns_name@ implies #[trigger] find_ns(self, n) == find_ns(&old_env, n) by {
                assert(find_ns(self, n) == find_ns(&mid_env, n));
                assert(find_ns(&mid_env, n) == find_ns(&old_env, n));
            }
            // preservation of every other pair
            assert forall|a: Seq<char>, b: Seq<char>|
                (a != ns_name@ || b != name@) implies #[trigger] resolved_var(self, a, b)
                == resolved_var(&old_env, a, b) by {
                lemma_find_ns_from(registry_of(&old_env), a, 0);
                lemma_find_ns_from(registry_of(self), a, 0);
                if a != ns_name@ {
                    assert(find_ns(self, a) == find_ns(&mid_env, a));
                    assert(find_ns(&mid_env, a) == find_ns(&old_env, a));
                    match find_ns(&old_env, a) {
                        Some(j) => {
                            if j == k as int {
                                assert(self.namespaces@[k as int].name@ == ns_name@);
                                assert(false);
                            }
                            assert(self.namespaces@[j] == old_env.namespaces@[j]);
                        },
                        None => {},
                    }
                } else {
                    // same namespace, different name
                    assert(find_ns(self, a) == Some(k as int));
                    match find_ns(&old_env, a) {
                        Some(j) => {
                            assert(j == k as int);
                            assert(lookup_name(self.namespaces@[k as int].interned@, b)
                                == lookup_name(old_env.namespaces@[k as int].interned@, b));
                            assert(self.namespaces@[k as int].referred@
                                == old_env.namespaces@[k as int].referred@);
                        },
                        None => {
                            // the namespace was created now, empty
                            assert(self.namespaces@[k as int].referred@.len() == 0);
                            assert(lookup_name(self.namespaces@[k as int].interned@, b) is None);
                            assert(lookup_name(self.namespaces@[k as int].referred@, b) is None);
                        },
                    }
                }
            }
        }
    }

    /// Ensures a var exists for the name in the namespace: newly created vars
    /// start unbound; an existing interned var is left untouched.
    pub fn declare(&mut self, ns_name: &str, name: &str)
        requires
            old(self).wf(),
        ensures
            final(self).wf(),
            resolved_interned_var(final(self), ns_name@, name@) is Some,
            ({
                let before = resolved_interned_var(old(self), ns_name@, name@);
                before is Some ==> *final(self) == *old(self)
            }),
            resolved_interned_var(old(self), ns_name@, name@) is None ==> {
                &&& final(self).vars@.len() == old(self).vars@.len() + 1
                &&& resolved_var(final(self), ns_name@, name@) == Some(
                    old(self).vars@.len() as int,
                )
                &&& final(self).vars@[old(self).vars@.len() as int]@ is None
            },
            forall|a: Seq<char>, b: Seq<char>|
                (a != ns_name@ || b != name@) ==> #[trigger] resolved_value(final(self), a, b)
                    == resolved_value(old(self), a, b),
            forall|j: int|
                0 <= j < old(self).vars@.len() ==> final(self).vars@[j] == #[trigger] old(
                    self,
                ).vars@[j],
    {
        let ghost old_env = *self;
        let ns_sym = crate::unqualified_symbol::new(ns_name);
        let k = self.find_or_create_namespace(ns_sym);
        let ghost mid_env = *self;
        proof {
            lemma_find_ns_from(registry_of(self), ns_name@, 0);
        }
        let existing = self.namespaces[k].get_interned_var(name);
        match existing {
            Some(_vi) => {
                proof {
                    assert(find_ns(&old_env, ns_name@) is Some) by {
                        if find_ns(&old_env, ns_name@) is None {
                            assert(mid_env.namespaces@[k as int].interned@.len() == 0);
                        }
                    }
                    assert(*self == old_env);
                }
            },
            None => {
                let vi = self.vars.len();
                self.vars.push(Var::new_unbound());
                let mut ns = self.namespaces[k].clone();
                ns.set_interned(crate::unqualified_symbol::new(name), vi);
                self.namespaces[k] = ns;
                proof {
                    assert forall|j: int| 0 <= j < registry_of(self).len() implies registry_of(self)[j]
                        == registry_of(&mid_env)[j] by {
                        if j != k as int {
                            assert(self.namespaces@[j] == mid_env.namespaces@[j]);
                        }
                    }
                    assert(registry_of(self) =~= registry_of(&mid_env));
                    assert forall|j: int|
                        0 <= j < self.namespaces@.len() implies (#[trigger] self.namespaces@[j]).wf()
                        && self.namespaces@[j].vars_below(self.vars@.len() as int) by {
                        if j != k as int {
                            assert(self.namespaces@[j] == mid_env.namespaces@[j]);
                            assert(mid_env.namespaces@[j].vars_below(mid_env.vars@.len() as int));
                        } else {
                            assert(mid_env.namespaces@[j].vars_below(mid_env.vars@.len() as int));
                            assert(mid_env.namespaces@[j].vars_below(vi as int));
                        }
                    }
                    assert forall|a: int, b: int|
                        0 <= a < b < self.namespaces@.len() && (#[trigger] self.registered@[a]) && (
                        #[trigger] self.registered@[b]) implies self.namespaces@[a].name@
                        != self.namespaces@[b].name@ by {
                        assert(self.namespaces@[a].name@ == mid_env.namespaces@[a].name@);
                        assert(self.namespaces@[b].name@ == mid_env.namespaces@[b].name@);
                    }
                    assert(self.wf());
                    assert forall|a: Seq<char>, b: Seq<char>|
                        (a != ns_name@ || b != name@) implies #[trigger] resolved_value(self, a, b)
                        == resolved_value(&old_env, a, b) by {
                        lemma_find_ns_from(registry_of(&old_env), a, 0);
                        lemma_find_ns_from(registry_of(self), a, 0);
                        if a != ns_name@ {
                            assert(find_ns(self, a) == find_ns(&mid_env, a));
                            assert(find_ns(&mid_env, a) == find_ns(&old_env, a));
                            match find_ns(&old_env, a) {
                                Some(j) => {
                                    if j == k as int {
                                        assert(self.namespaces@[k as int].name@ == ns_name@);
                                        assert(false);
                                    }
                                    assert(self.namespaces@[j] == old_env.namespaces@[j]);
                                    crate::namespace::lemma_lookup_name(old_env.namespaces@[j].interned@, b);
                                    crate::namespace::lemma_lookup_name(old_env.namespaces@[j].referred@, b);
                                    match combined_lookup(&old_env.namespaces@[j], b) {
                                        Some(vv) => {
                                            assert(old_env.namespaces@[j].vars_below(old_env.vars@.len() as int));
                                            assert(self.vars@[vv] == old_env.vars@[vv]);
                                        },
                                        None => {},
                                    }
                                },
                                None => {},
                            }
                        } else {
                            assert(find_ns(self, a) == Some(k as int));
                            match find_ns(&old_env, a) {
                                Some(j) => {
                                    assert(j == k as int);
                                    crate::namespace::lemma_lookup_name(old_env.namespaces@[j].interned@, b);
                                    crate::namespace::lemma_lookup_name(old_env.namespaces@[j].referred@, b);
                                    assert(lookup_name(self.namespaces@[k as int].interned@, b)
                                        == lookup_name(old_env.namespaces@[k as int].interned@, b));
                                    assert(self.namespaces@[k as int].referred@
                                        == old_env.namespaces@[k as int].referred@);
                                    match combined_lookup(&old_env.namespaces@[j], b) {
                                        Some(vv) => {
                                            assert(old_env.namespaces@[j].vars_below(old_env.vars@.len() as int));
                                            assert(self.vars@[vv] == old_env.vars@[vv]);
                                        },
                                        None => {},
                                    }
                                },
                                None => {
                                    assert(self.namespaces@[k as int].referred@.len() == 0);
                                    assert(lookup_name(self.namespaces@[k as int].interned@, b) is None);
                                    assert(lookup_name(self.namespaces@[k as int].referred@, b) is None);
                                },
                            }
                        }
                    }
                }
            },
        }
    }
}

/// The var index an interned binding of the pair has, if any; referred
/// bindings do not count.
pub open spec fn resolved_interned_var(env: &Env, ns_name: Seq<char>, name: Seq<char>) -> Option<
    int,
> {
    match find_ns(env, ns_name) {
        Some(i) => lookup_name(env.namespaces@[i].interned@, name),
        None => None,
    }
}

/// In a well-formed environment, every resolved var index is a live cell.
pub proof fn lemma_resolved_var_bound(env: &Env, ns_name: Seq<char>, name: Seq<char>)
    requires
        env.wf(),
    ensures
        resolved_var(env, ns_name, name) matches Some(i) ==> 0 <= i < env.vars@.len(),
{
    lemma_find_ns_from(registry_of(env), ns_name, 0);
    match find_ns(env, ns_name) {
        Some(k) => {
            crate::namespace::lemma_lookup_name(env.namespaces@[k].interned@, name);
            crate::namespace::lemma_lookup_name(env.namespaces@[k].referred@, name);
        },
        None => {},
    }
}

/// Every two distinct binding pairs resolve to distinct cells. This holds of
/// environments grown only by interning (each new binding gets a fresh cell);
/// an environment with referred bindings may share cells across pairs and
/// need not satisfy it.
pub open spec fn distinct_cells(env: &Env) -> bool {
    forall|a1: Seq<char>, b1: Seq<char>, a2: Seq<char>, b2: Seq<char>|
        (a1 != a2 || b1 != b2) && #[trigger] resolved_var(env, a1, b1) is Some
            && #[trigger] resolved_var(env, a2, b2) is Some ==> resolved_var(env, a1, b1)
            != resolved_var(env, a2, b2)
}

/// Interning keeps binding cells distinct: the target pair either keeps its
/// own cell or gets a fresh one, and every other pair keeps its cell.
pub proof fn lemma_distinct_cells_after_intern(
    pre: &Env,
    post: &Env,
    ns_name: Seq<char>,
    name: Seq<char>,
)
    requires
        pre.wf(),
        distinct_cells(pre),
        forall|a: Seq<char>, b: Seq<char>|
            (a != ns_name || b != name) ==> #[trigger] resolved_var(post, a, b) == resolved_var(
                pre,
                a,
                b,
            ),
        ({
            let before = resolved_interned_var(pre, ns_name, name);
            before is Some ==> resolved_var(post, ns_name, name) == before
        }),
        resolved_interned_var(pre, ns_name, name) is None ==> resolved_var(post, ns_name, name)
            == Some(pre.vars@.len() as int),
    ensures
        distinct_cells(post),
{
    assert forall|a1: Seq<char>, b1: Seq<char>, a2: Seq<char>, b2: Seq<char>|
        (a1 != a2 || b1 != b2) && #[trigger] resolved_var(post, a1, b1) is Some
            && #[trigger] resolved_var(post, a2, b2) is Some implies resolved_var(post, a1, b1)
        != resolved_var(post, a2, b2) by {
        lemma_resolved_var_bound(pre, a1, b1);
        lemma_resolved_var_bound(pre, a2, b2);
        let target_is_1 = a1 == ns_name && b1 == name;
        let target_is_2 = a2 == ns_name && b2 == name;
        if !target_is_1 && !target_is_2 {
            assert(resolved_var(post, a1, b1) == resolved_var(pre, a1, b1));
            assert(resolved_var(post, a2, b2) == resolved_var(pre, a2, b2));
        } else if target_is_1 {
            assert(resolved_var(post, a2, b2) == resolved_var(pre, a2, b2));
            match resolved_interned_var(pre, ns_name, name) {
                Some(i) => {
                    assert(resolved_var(pre, ns_name, name) == Some(i));
                    assert(resolved_var(pre, a1, b1) is Some);
                },
                None => {
                    assert(resolved_var(post, a1, b1) == Some(pre.vars@.len() as int));
                },
            }
        } else {
            assert(resolved_var(post, a1, b1) == resolved_var(pre, a1, b1));
            match resolved_interned_var(pre, ns_name, name) {
                Some(i) => {
                    assert(resolved_var(pre, ns_name, name) == Some(i));
                    assert(resolved_var(pre, a2, b2) is Some);
                },
                None => {
                    assert(resolved_var(post, a2, b2) == Some(pre.vars@.len() as int));
                },
            }
        }
    }
}

/// Appending a registered slot for a fresh name serves that name at the new
/// slot.
proof fn lemma_find_ns_append(
    reg_old: Seq<(bool, Seq<char>)>,
    reg_new: Seq<(bool, Seq<char>)>,
    name: Seq<char>,
)
    requires
        reg_new.len() == reg_old.len() + 1,
        forall|j: int| 0 <= j < reg_old.len() ==> reg_new[j] == #[trigger] reg_old[j],
        reg_new[reg_old.len() as int].0,
        reg_new[reg_old.len() as int].1 == name,
        find_ns_from(reg_old, name, 0) is None,
    ensures
        find_ns_from(reg_new, name, 0) == Some(reg_old.len() as int),
{
    lemma_find_ns_from(reg_old, name, 0);
    lemma_find_ns_from(reg_new, name, 0);
    assert forall|j: int|
        0 <= j < reg_old.len() implies !((#[trigger] reg_new[j]).0 && reg_new[j].1 == name) by {
        assert(reg_new[j] == reg_old[j]);
    }
    lemma_find_ns_scan(reg_new, name, 0, reg_old.len() as int);
}

/// Appending a slot for one name leaves every other name's search unchanged.
proof fn lemma_find_ns_append_other(
    reg_old: Seq<(bool, Seq<char>)>,
    reg_new: Seq<(bool, Seq<char>)>,
    name: Seq<char>,
    other: Seq<char>,
)
    requires
        reg_new.len() == reg_old.len() + 1,
        forall|j: int| 0 <= j < reg_old.len() ==> reg_new[j] == #[trigger] reg_old[j],
        reg_new[reg_old.len() as int].1 == name,
        other != name,
    ensures
        find_ns_from(reg_new, other, 0) == find_ns_from(reg_old, other, 0),
{
    lemma_find_ns_prefix(reg_old, reg_new, other, 0);
}

/// A search for a name that the extension slot does not carry agrees with the
/// search over the prefix.
proof fn lemma_find_ns_prefix(
    reg_old: Seq<(bool, Seq<char>)>,
    reg_new: Seq<(bool, Seq<char>)>,
    other: Seq<char>,
    from: int,
)
    requires
        0 <= from <= reg_old.len(),
        reg_new.len() == reg_old.len() + 1,
        forall|j: int| 0 <= j < reg_old.len() ==> reg_new[j] == #[trigger] reg_old[j],
        reg_new[reg_old.len() as int].1 != other,
    ensures
        find_ns_from(reg_new, other, from) == find_ns_from(reg_old, other, from),
    decreases reg_old.len() - from,
{
    if from < reg_old.len() {
        lemma_find_ns_prefix(reg_old, reg_new, other, from + 1);
    } else {
        assert(find_ns_from(reg_new, other, from + 1) is None);
        assert(find_ns_from(reg_old, other, from) is None);
    }
}

/// A scan that fails before `hit` and matches at `hit` returns `hit`.
proof fn lemma_find_ns_scan(reg: Seq<(bool, Seq<char>)>, name: Seq<char>, from: int, hit: int)
    requires
        0 <= from <= hit < reg.len(),
        forall|j: int| from <= j < hit ==> !((#[trigger] reg[j]).0 && reg[j].1 == name),
        reg[hit].0,
        reg[hit].1 == name,
    ensures
        find_ns_from(reg, name, from) == Some(hit),
    decreases hit - from,
{
    if from < hit {
        lemma_find_ns_scan(reg, name, from + 1, hit);
    }
}

/// Turning one slot's registration off removes its name from the registry and
/// leaves every other name's search unchanged.
proof fn lemma_find_ns_unregister(
    reg_old: Seq<(bool, Seq<char>)>,
    reg_new: Seq<(bool, Seq<char>)>,
    at: int,
    name: Seq<char>,
)
    requires
        reg_new.len() == reg_old.len(),
        0 <= at < reg_old.len(),
        forall|j: int| 0 <= j < reg_old.len() && j != at ==> reg_new[j] == #[trigger] reg_old[j],
        !reg_new[at].0,
        reg_new[at].1 == reg_old[at].1,
        reg_old[at].0,
        reg_old[at].1 == name,
        find_ns_from(reg_old, name, 0) == Some(at),
        // registered names are unique in the old registry
        forall|i: int, j: int|
            0 <= i < j < reg_old.len() && (#[trigger] reg_old[i]).0 && (#[trigger] reg_old[j]).0
                ==> reg_old[i].1 != reg_old[j].1,
    ensures
        find_ns_from(reg_new, name, 0) is None,
        forall|n: Seq<char>|
            n != name ==> #[trigger] find_ns_from(reg_new, n, 0) == find_ns_from(reg_old, n, 0),
{
    lemma_find_ns_from(reg_old, name, 0);
    lemma_find_ns_from(reg_new, name, 0);
    match find_ns_from(reg_new, name, 0) {
        Some(i) => {
            assert(reg_new[i].0 && reg_new[i].1 == name);
            assert(i != at);
            assert(reg_old[i].0 && reg_old[i].1 == name);
            if i < at {
                assert(false);
            } else {
                assert(reg_old[at].1 == reg_old[i].1);
                assert(false);
            }
        },
        None => {},
    }
    assert forall|n: Seq<char>|
        n != name implies #[trigger] find_ns_from(reg_new, n, 0) == find_ns_from(reg_old, n, 0) by {
        lemma_find_ns_other_slot(reg_old, reg_new, at, n, 0);
    }
}

/// Changing one slot, without touching its name or any other slot, leaves the
/// search for other names unchanged.
proof fn lemma_find_ns_other_slot(
    reg_old: Seq<(bool, Seq<char>)>,
    reg_new: Seq<(bool, Seq<char>)>,
    at: int,
    n: Seq<char>,
    from: int,
)
    requires
        reg_new.len() == reg_old.len(),
        0 <= at < reg_old.len(),
        0 <= from <= reg_old.len(),
        forall|j: int| 0 <= j < reg_old.len() && j != at ==> reg_new[j] == #[trigger] reg_old[j],
        reg_new[at].1 == reg_old[at].1,
        reg_old[at].1 != n,
    ensures
        find_ns_from(reg_new, n, from) == find_ns_from(reg_old, n, from),
    decreases reg_old.len() - from,
{
    if from < reg_old.len() {
        lemma_find_ns_other_slot(reg_old, reg_new, at, n, from + 1);
    }
}

} // verus!
