use vstd::prelude::*;
use crate::unqualified_symbol::UnqualifiedSymbol;

verus! {

/// The first binding for the given name in an association run, if any.
pub open spec fn lookup_name(s: Seq<(UnqualifiedSymbol, usize)>, name: Seq<char>) -> Option<int>
    decreases s.len(),
{
    if s.len() == 0 {
        None
    } else if s[0].0@ == name {
        Some(s[0].1 as int)
    } else {
        lookup_name(s.drop_first(), name)
    }
}

/// Association runs keep at most one binding per name.
pub open spec fn unique_names(s: Seq<(UnqualifiedSymbol, usize)>) -> bool {
    forall|i: int, j: int| 0 <= i < j < s.len() ==> (#[trigger] s[i]).0@ != (#[trigger] s[j]).0@
}

/// What `lookup_name` finds, position by position.
pub proof fn lemma_lookup_name(s: Seq<(UnqualifiedSymbol, usize)>, name: Seq<char>)
    ensures
        match lookup_name(s, name) {
            Some(v) => exists|i: int|
                0 <= i < s.len() && (#[trigger] s[i]).0@ == name && s[i].1 as int == v,
            None => forall|i: int| 0 <= i < s.len() ==> (#[trigger] s[i]).0@ != name,
        },
    decreases s.len(),
{
    if s.len() > 0 && s[0].0@ != name {
        lemma_lookup_name(s.drop_first(), name);
        match lookup_name(s, name) {
            Some(v) => {
                let i = choose|i: int|
                    0 <= i < s.drop_first().len() && (#[trigger] s.drop_first()[i]).0@ == name
                        && s.drop_first()[i].1 as int == v;
                assert(s[i + 1].0@ == name && s[i + 1].1 as int == v);
            },
            None => {
                assert forall|i: int| 0 <= i < s.len() implies (#[trigger] s[i]).0@ != name by {
                    if i > 0 {
                        assert(s.drop_first()[i - 1] == s[i]);
                    }
                }
            },
        }
    }
}

/// A named, mutable collection of name-to-var bindings. The vars themselves
/// live in the owning [`Env`](crate::env::Env)'s var table; a binding maps a
/// name to a var's index there.
pub struct Namespace {
    pub name: UnqualifiedSymbol,
    pub interned: Vec<(UnqualifiedSymbol, usize)>,
    pub referred: Vec<(UnqualifiedSymbol, usize)>,
    pub aliases: Vec<(UnqualifiedSymbol, UnqualifiedSymbol)>,
}

impl Namespace {
    /// Bindings keep at most one var per name, in each mapping.
    pub open spec fn wf(&self) -> bool {
        unique_names(self.interned@) && unique_names(self.referred@)
    }

    /// Every var index this namespace mentions is below the given bound.
    pub open spec fn vars_below(&self, bound: int) -> bool {
        (forall|i: int| 0 <= i < self.interned@.len() ==> (#[trigger] self.interned@[i]).1 < bound)
            && (forall|i: int|
            0 <= i < self.referred@.len() ==> (#[trigger] self.referred@[i]).1 < bound)
    }

    pub fn new_empty(name: UnqualifiedSymbol) -> (r: Self)
        ensures
            r.name@ == name@,
            r.interned@.len() == 0,
            r.referred@.len() == 0,
            r.wf(),
    {
        Namespace { name, interned: Vec::new(), referred: Vec::new(), aliases: Vec::new() }
    }

    pub fn name(&self) -> (r: &UnqualifiedSymbol)
        ensures
            r@ == self.name@,
    {
        &self.name
    }

    /// The interned bindings, as name and var index pairs.
    pub fn interns(&self) -> (r: &Vec<(UnqualifiedSymbol, usize)>)
        ensures
            r == &self.interned,
    {
        &self.interned
    }

    /// The var interned under the name, if any.
    pub fn get_interned_var(&self, name: &str) -> (r: Option<usize>)
        ensures
            match r {
                Some(v) => lookup_name(self.interned@, name@) == Some(v as int),
                None => lookup_name(self.interned@, name@) is None,
            },
    {
        lookup_assoc(&self.interned, name)
    }

    /// The var referred under the name, if any.
    pub fn get_referred_var(&self, name: &str) -> (r: Option<usize>)
        ensures
            match r {
                Some(v) => lookup_name(self.referred@, name@) == Some(v as int),
                None => lookup_name(self.referred@, name@) is None,
            },
    {
        lookup_assoc(&self.referred, name)
    }

    /// The var for the name, with interned bindings taking priority over
    /// referred ones.
    pub fn get_interned_or_referred_var(&self, name: &str) -> (r: Option<usize>)
        ensures
            match r {
                Some(v) => combined_lookup(self, name@) == Some(v as int),
                None => combined_lookup(self, name@) is None,
            },
    {
        match self.get_interned_var(name) {
            Some(v) => Some(v),
            None => self.get_referred_var(name),
        }
    }

    /// Binds the name to the var in the interned mapping, replacing any
    /// existing binding of that name.
    pub fn set_interned(&mut self, name: UnqualifiedSymbol, var: usize)
        requires
            old(self).wf(),
        ensures
            final(self).wf(),
            final(self).name@ == old(self).name@,
            final(self).referred@ == old(self).referred@,
            lookup_name(final(self).interned@, name@) == Some(var as int),
            forall|n: Seq<char>|
                n != name@ ==> #[trigger] lookup_name(final(self).interned@, n) == lookup_name(
                    old(self).interned@,
                    n,
                ),
            forall|b: int|
                old(self).vars_below(b) && (var as int) < b ==> #[trigger] final(self).vars_below(
                    b,
                ),
    {
        let ghost nm = name@;
        let mut i: usize = 0;
        let n = self.interned.len();
        while i < n
            invariant
                *old(self) == *self,
                self.wf(),
                nm == name@,
                i <= n == self.interned@.len(),
                forall|j: int| 0 <= j < i ==> (#[trigger] self.interned@[j]).0@ != nm,
            decreases n - i,
        {
            if crate::ord::str_eq(self.interned[i].0.name(), name.name()) {
                proof {
                    assert(self.interned@[i as int].0@ == nm);
                }
                let ghost old_interned = self.interned@;
                self.interned[i] = (name, var);
                proof {
                    lemma_update_lookup(old_interned, self.interned@, i as int, nm, var as int);
                }
                return ;
            }
            i = i + 1;
        }
        let ghost old_interned = self.interned@;
        self.interned.push((name, var));
        proof {
            lemma_push_lookup(old_interned, self.interned@, nm, var as int);
        }
    }
}

/// Interned bindings shadow referred ones.
pub open spec fn combined_lookup(ns: &Namespace, name: Seq<char>) -> Option<int> {
    match lookup_name(ns.interned@, name) {
        Some(v) => Some(v),
        None => lookup_name(ns.referred@, name),
    }
}

/// The first binding for the name, found by a scan.
fn lookup_assoc(s: &Vec<(UnqualifiedSymbol, usize)>, name: &str) -> (r: Option<usize>)
    ensures
        match r {
            Some(v) => lookup_name(s@, name@) == Some(v as int),
            None => lookup_name(s@, name@) is None,
        },
{
    let mut i: usize = 0;
    proof {
        vstd::seq_lib::lemma_seq_skip_nothing(s@, 0);
    }
    while i < s.len()
        invariant
            i <= s@.len(),
            lookup_name(s@, name@) == lookup_name(s@.skip(i as int), name@),
        decreases s@.len() - i,
    {
        proof {
            assert(s@.skip(i as int)[0] == s@[i as int]);
            assert(s@.skip(i as int).drop_first() =~= s@.skip(i + 1));
        }
        let (n, v) = &s[i];
        if crate::ord::str_eq(n.name(), name) {
            return Some(*v);
        }
        i = i + 1;
    }
    None
}

/// Replacing the binding at a position where the name already stood keeps
/// every other name's lookup and serves the new var for this name.
proof fn lemma_update_lookup(
    old_s: Seq<(UnqualifiedSymbol, usize)>,
    new_s: Seq<(UnqualifiedSymbol, usize)>,
    at: int,
    name: Seq<char>,
    var: int,
)
    requires
        unique_names(old_s),
        0 <= at < old_s.len(),
        old_s[at].0@ == name,
        new_s.len() == old_s.len(),
        new_s[at].0@ == name,
        new_s[at].1 as int == var,
        forall|i: int| 0 <= i < old_s.len() && i != at ==> old_s[i] == #[trigger] new_s[i],
    ensures
        unique_names(new_s),
        lookup_name(new_s, name) == Some(var),
        forall|n: Seq<char>|
            n != name ==> #[trigger] lookup_name(new_s, n) == lookup_name(old_s, n),
    decreases old_s.len(),
{
    assert forall|i: int, j: int|
        0 <= i < j < new_s.len() implies (#[trigger] new_s[i]).0@ != (#[trigger] new_s[j]).0@ by {
        assert(old_s[i].0@ == new_s[i].0@);
        assert(old_s[j].0@ == new_s[j].0@);
    }
    if at == 0 {
        assert(lookup_name(new_s, name) == Some(var));
        assert forall|n: Seq<char>|
            n != name implies #[trigger] lookup_name(new_s, n) == lookup_name(old_s, n) by {
            assert(new_s.drop_first() =~= old_s.drop_first());
        }
    } else {
        assert(old_s[0] == new_s[0]);
        assert(old_s[0].0@ != name);
        assert(old_s.drop_first()[at - 1] == old_s[at]);
        assert(new_s.drop_first()[at - 1] == new_s[at]);
        assert forall|i: int|
            0 <= i < old_s.drop_first().len() && i != at - 1 implies old_s.drop_first()[i]
            == #[trigger] new_s.drop_first()[i] by {
            assert(old_s[i + 1] == new_s[i + 1]);
        }
        lemma_update_lookup(old_s.drop_first(), new_s.drop_first(), at - 1, name, var);
        assert(lookup_name(new_s, name) == lookup_name(new_s.drop_first(), name));
        assert forall|n: Seq<char>|
            n != name implies #[trigger] lookup_name(new_s, n) == lookup_name(old_s, n) by {
            if new_s[0].0@ != n {
                assert(lookup_name(new_s.drop_first(), n) == lookup_name(old_s.drop_first(), n));
            }
        }
    }
}

/// Appending a binding for a fresh name keeps every other name's lookup and
/// serves the new var for this name.
proof fn lemma_push_lookup(
    old_s: Seq<(UnqualifiedSymbol, usize)>,
    new_s: Seq<(UnqualifiedSymbol, usize)>,
    name: Seq<char>,
    var: int,
)
    requires
        unique_names(old_s),
        forall|i: int| 0 <= i < old_s.len() ==> (#[trigger] old_s[i]).0@ != name,
        new_s.len() == old_s.len() + 1,
        new_s[new_s.len() - 1].0@ == name,
        new_s[new_s.len() - 1].1 as int == var,
        forall|i: int| 0 <= i < old_s.len() ==> old_s[i] == #[trigger] new_s[i],
    ensures
        unique_names(new_s),
        lookup_name(new_s, name) == Some(var),
        forall|n: Seq<char>|
            n != name ==> #[trigger] lookup_name(new_s, n) == lookup_name(old_s, n),
    decreases old_s.len(),
{
    assert forall|i: int, j: int|
        0 <= i < j < new_s.len() implies (#[trigger] new_s[i]).0@ != (#[trigger] new_s[j]).0@ by {
        if j < new_s.len() - 1 {
            assert(old_s[i].0@ == new_s[i].0@);
            assert(old_s[j].0@ == new_s[j].0@);
        } else {
            assert(old_s[i].0@ != name);
        }
    }
    if old_s.len() == 0 {
        assert(new_s.len() == 1);
        assert(lookup_name(new_s, name) == Some(var));
        assert forall|n: Seq<char>|
            n != name implies #[trigger] lookup_name(new_s, n) == lookup_name(old_s, n) by {
            assert(new_s[0].0@ == name);
            assert(lookup_name(new_s.drop_first(), n) is None);
        }
    } else {
        assert(new_s[0] == old_s[0]);
        assert(old_s[0].0@ != name);
        lemma_push_lookup(old_s.drop_first(), new_s.drop_first(), name, var);
        assert forall|n: Seq<char>|
            n != name implies #[trigger] lookup_name(new_s, n) == lookup_name(old_s, n) by {
            if new_s[0].0@ != n {
                assert(lookup_name(new_s.drop_first(), n) == lookup_name(old_s.drop_first(), n));
            }
        }
    }
}

impl Clone for Namespace {
    fn clone(&self) -> (r: Self)
        ensures
            r.name@ == self.name@,
            r.interned@ == self.interned@,
            r.referred@ == self.referred@,
    {
        let mut interned: Vec<(UnqualifiedSymbol, usize)> = Vec::new();
        let mut i: usize = 0;
        while i < self.interned.len()
            invariant
                i <= self.interned@.len(),
                interned@ == self.interned@.subrange(0, i as int),
            decreases self.interned@.len() - i,
        {
            let (n, v) = &self.interned[i];
            interned.push((n.clone(), *v));
            i = i + 1;
            proof {
                assert(self.interned@[i - 1] == (self.interned@[i - 1].0, self.interned@[i - 1].1));
                assert(interned@ =~= self.interned@.subrange(0, i as int));
            }
        }
        let mut referred: Vec<(UnqualifiedSymbol, usize)> = Vec::new();
        let mut j: usize = 0;
        while j < self.referred.len()
            invariant
                j <= self.referred@.len(),
                referred@ == self.referred@.subrange(0, j as int),
            decreases self.referred@.len() - j,
        {
            let (n, v) = &self.referred[j];
            referred.push((n.clone(), *v));
            j = j + 1;
            proof {
                assert(self.referred@[j - 1] == (self.referred@[j - 1].0, self.referred@[j - 1].1));
                assert(referred@ =~= self.referred@.subrange(0, j as int));
            }
        }
        let r = Namespace { name: self.name.clone(), interned, referred, aliases: Vec::new() };
        proof {
            assert(r.interned@ =~= self.interned@);
            assert(r.referred@ =~= self.referred@);
        }
        r
    }
}

} // verus!
