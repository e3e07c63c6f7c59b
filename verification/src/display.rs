use vstd::prelude::*;
use vstd::string::StringExecFns;
use crate::value::{Value, ValueModel, views_of, view_of, entry_views_of, lemma_views_of,
    lemma_entry_views_of};
use crate::symbol::{Symbol, SymbolModel};
use crate::keyword::{Keyword, KeywordModel};
use crate::number::int_text;
use crate::text::string_of;

verus! {

/// The textual rendering of a symbol.
pub open spec fn display_symbol(s: SymbolModel) -> Seq<char> {
    match s {
        SymbolModel::Unqualified { name } => name,
        SymbolModel::Qualified { namespace, name } => namespace + seq!['/'] + name,
    }
}

/// The textual rendering of a keyword.
pub open spec fn display_keyword(k: KeywordModel) -> Seq<char> {
    match k {
        KeywordModel::Unqualified { name } => seq![':'] + name,
        KeywordModel::Qualified { namespace, name } => seq![':'] + namespace + seq!['/'] + name,
    }
}

/// The textual rendering of a value, exactly mirroring the syntax the reader
/// consumes. A float prints as its literal text; a var, callable or handle
/// prints as a non-literal tag around its identity.
pub open spec fn display_model(m: ValueModel) -> Seq<char>
    decreases m, 0int, 0int,
{
    match m {
        ValueModel::Nil => "nil"@,
        ValueModel::Boolean(b) => if b {
            "true"@
        } else {
            "false"@
        },
        ValueModel::Integer(i) => int_text(i),
        ValueModel::Float(t) => t,
        ValueModel::String(s) => seq!['"'] + s + seq!['"'],
        ValueModel::Symbol(s) => display_symbol(s),
        ValueModel::Keyword(k) => display_keyword(k),
        ValueModel::List(items) => seq!['('] + display_items(items) + seq![')'],
        ValueModel::Vector(items) => seq!['['] + display_items(items) + seq![']'],
        ValueModel::SetVal(items) => seq!['#', '{'] + display_items(items) + seq!['}'],
        ValueModel::MapVal(entries) => seq!['{'] + display_entries(entries) + seq!['}'],
        ValueModel::Var(i) => "#var["@ + int_text(i) + seq![']'],
        ValueModel::Callable(i) => "#fn["@ + int_text(i) + seq![']'],
        ValueModel::Handle(i) => "#handle["@ + int_text(i) + seq![']'],
    }
}

/// The items of a collection, separated by single spaces.
pub open spec fn display_items(s: Seq<ValueModel>) -> Seq<char>
    decreases s, 1int, 0int,
{
    if s.len() == 0 {
        Seq::empty()
    } else if s.len() == 1 {
        display_model(s[0])
    } else {
        display_items(s.drop_last()) + seq![' '] + display_model(s.last())
    }
}

/// The entries of a map: key, a space, value, with entries separated by a
/// comma and a space.
pub open spec fn display_entries(s: Seq<(ValueModel, ValueModel)>) -> Seq<char>
    decreases s, 1int, 1int,
    via display_entries_decreases
{
    if s.len() == 0 {
        Seq::empty()
    } else if s.len() == 1 {
        display_model(s[0].0) + seq![' '] + display_model(s[0].1)
    } else {
        display_entries(s.drop_last()) + seq![',', ' '] + display_model(s.last().0) + seq![' ']
            + display_model(s.last().1)
    }
}

#[via_fn]
proof fn display_entries_decreases(s: Seq<(ValueModel, ValueModel)>) {
    if s.len() > 0 {
        assert(decreases_to!(s => s[s.len() - 1]));
        assert(decreases_to!(s[s.len() - 1] => s[s.len() - 1].0));
        assert(decreases_to!(s[s.len() - 1] => s[s.len() - 1].1));
        assert(s.last() == s[s.len() - 1]);
    }
}

/// Appends the rendering of `v` to `acc`.
fn write_value(acc: &mut String, v: &Value)
    ensures
        final(acc)@ == old(acc)@ + display_model(v@),
    decreases *v, 0int,
{
    match v {
        Value::Nil => {
            acc.append("nil");
        },
        Value::Boolean(b) => {
            if *b {
                acc.append("true");
            } else {
                acc.append("false");
            }
        },
        Value::Integer(i) => {
            let digits = crate::number::format_i64(*i);
            let text = string_of(&digits);
            acc.append(text.as_str());
        },
        Value::Float(t) => {
            acc.append(t.as_str());
        },
        Value::String(s) => {
            acc.append("\"");
            acc.append(s.as_str());
            acc.append("\"");
            proof {
                assert("\""@ =~= seq!['"']) by {
                    reveal_strlit("\"");
                }
                assert(final(acc)@ =~= old(acc)@ + display_model(v@));
            }
        },
        Value::Symbol(s) => {
            match s {
                Symbol::Unqualified(u) => {
                    acc.append(u.name());
                },
                Symbol::Qualified(q) => {
                    acc.append(q.namespace());
                    acc.append("/");
                    acc.append(q.name());
                    proof {
                        assert("/"@ =~= seq!['/']) by {
                            reveal_strlit("/");
                        }
                        assert(final(acc)@ =~= old(acc)@ + display_model(v@));
                    }
                },
            }
        },
        Value::Keyword(k) => {
            acc.append(":");
            proof {
                assert(":"@ =~= seq![':']) by {
                    reveal_strlit(":");
                }
            }
            match k {
                Keyword::Unqualified(u) => {
                    acc.append(u.name());
                    proof {
                        assert(final(acc)@ =~= old(acc)@ + display_model(v@));
                    }
                },
                Keyword::Qualified(q) => {
                    acc.append(q.namespace());
                    acc.append("/");
                    acc.append(q.name());
                    proof {
                        assert("/"@ =~= seq!['/']) by {
                            reveal_strlit("/");
                        }
                        assert(final(acc)@ =~= old(acc)@ + display_model(v@));
                    }
                },
            }
        },
        Value::List(l) => {
            acc.append("(");
            write_items(acc, &l.elems);
            acc.append(")");
            proof {
                assert("("@ =~= seq!['(']) by {
                    reveal_strlit("(");
                }
                assert(")"@ =~= seq![')']) by {
                    reveal_strlit(")");
                }
                assert(final(acc)@ =~= old(acc)@ + display_model(v@));
            }
        },
        Value::Vector(vv) => {
            acc.append("[");
            write_items(acc, &vv.elems);
            acc.append("]");
            proof {
                assert("["@ =~= seq!['[']) by {
                    reveal_strlit("[");
                }
                assert("]"@ =~= seq![']']) by {
                    reveal_strlit("]");
                }
                assert(final(acc)@ =~= old(acc)@ + display_model(v@));
            }
        },
        Value::SetVal(s) => {
            acc.append("#{");
            write_items(acc, &s.elems);
            acc.append("}");
            proof {
                assert("#{"@ =~= seq!['#', '{']) by {
                    reveal_strlit("#{");
                }
                assert("}"@ =~= seq!['}']) by {
                    reveal_strlit("}");
                }
                assert(final(acc)@ =~= old(acc)@ + display_model(v@));
            }
        },
        Value::MapVal(m) => {
            acc.append("{");
            write_entries(acc, &m.entries);
            acc.append("}");
            proof {
                assert("{"@ =~= seq!['{']) by {
                    reveal_strlit("{");
                }
                assert("}"@ =~= seq!['}']) by {
                    reveal_strlit("}");
                }
                assert(final(acc)@ =~= old(acc)@ + display_model(v@));
            }
        },
        Value::Var(i) => {
            acc.append("#var[");
            let digits = crate::number::format_usize(*i);
            let text = string_of(&digits);
            acc.append(text.as_str());
            acc.append("]");
            proof {
                assert("]"@ =~= seq![']']) by {
                    reveal_strlit("]");
                }
                assert(final(acc)@ =~= old(acc)@ + display_model(v@));
            }
        },
        Value::Callable(i) => {
            acc.append("#fn[");
            let digits = crate::number::format_usize(*i);
            let text = string_of(&digits);
            acc.append(text.as_str());
            acc.append("]");
            proof {
                assert("]"@ =~= seq![']']) by {
                    reveal_strlit("]");
                }
                assert(final(acc)@ =~= old(acc)@ + display_model(v@));
            }
        },
        Value::Handle(i) => {
            acc.append("#handle[");
            let digits = crate::number::format_usize(*i);
            let text = string_of(&digits);
            acc.append(text.as_str());
            acc.append("]");
            proof {
                assert("]"@ =~= seq![']']) by {
                    reveal_strlit("]");
                }
                assert(final(acc)@ =~= old(acc)@ + display_model(v@));
            }
        },
    }
}

/// Appends the renderings of the values, separated by single spaces.
fn write_items(acc: &mut String, items: &Vec<Value>)
    ensures
        final(acc)@ == old(acc)@ + display_items(views_of(items@)),
    decreases *items, 1int,
{
    proof {
        lemma_views_of(items@);
    }
    let mut i: usize = 0;
    let n = items.len();
    while i < n
        invariant
            i <= n == items@.len(),
            views_of(items@).len() == n,
            forall|j: int| 0 <= j < n ==> views_of(items@)[j] == view_of(items@[j]),
            acc@ == old(acc)@ + display_items(views_of(items@).subrange(0, i as int)),
        decreases n - i, 0int,
    {
        proof {
            assert(decreases_to!(*items => items@));
            assert(decreases_to!(items@ => items@[i as int]));
        }
        if i > 0 {
            acc.append(" ");
            proof {
                assert(" "@ =~= seq![' ']) by {
                    reveal_strlit(" ");
                }
            }
        }
        write_value(acc, &items[i]);
        i = i + 1;
        proof {
            let vs = views_of(items@);
            let pre = vs.subrange(0, i as int);
            assert(pre.drop_last() =~= vs.subrange(0, i - 1));
            assert(pre.last() == vs[i - 1]);
            if i == 1 {
                assert(pre =~= seq![vs[0]]);
                assert(display_items(pre) == display_model(vs[0]));
            }
            assert(acc@ =~= old(acc)@ + display_items(vs.subrange(0, i as int)));
        }
    }
    proof {
        assert(views_of(items@).subrange(0, n as int) =~= views_of(items@));
    }
}

/// Appends the renderings of the entries: key, space, value, with entries
/// separated by a comma and a space.
fn write_entries(acc: &mut String, entries: &Vec<(Value, Value)>)
    ensures
        final(acc)@ == old(acc)@ + display_entries(entry_views_of(entries@)),
    decreases *entries, 1int,
{
    proof {
        lemma_entry_views_of(entries@);
    }
    let mut i: usize = 0;
    let n = entries.len();
    while i < n
        invariant
            i <= n == entries@.len(),
            entry_views_of(entries@).len() == n,
            forall|j: int|
                0 <= j < n ==> entry_views_of(entries@)[j] == (view_of(entries@[j].0), view_of(
                    entries@[j].1,
                )),
            acc@ == old(acc)@ + display_entries(entry_views_of(entries@).subrange(0, i as int)),
        decreases n - i, 0int,
    {
        proof {
            assert(decreases_to!(*entries => entries@));
            assert(decreases_to!(entries@ => entries@[i as int]));
            assert(decreases_to!(entries@[i as int] => entries@[i as int].0));
            assert(decreases_to!(entries@[i as int] => entries@[i as int].1));
        }
        if i > 0 {
            acc.append(", ");
            proof {
                assert(", "@ =~= seq![',', ' ']) by {
                    reveal_strlit(", ");
                }
            }
        }
        let (k, v) = &entries[i];
        write_value(acc, k);
        acc.append(" ");
        proof {
            assert(" "@ =~= seq![' ']) by {
                reveal_strlit(" ");
            }
        }
        write_value(acc, v);
        i = i + 1;
        proof {
            let vs = entry_views_of(entries@);
            let pre = vs.subrange(0, i as int);
            assert(pre.drop_last() =~= vs.subrange(0, i - 1));
            assert(pre.last() == vs[i - 1]);
            if i == 1 {
                assert(pre =~= seq![vs[0]]);
            }
            assert(acc@ =~= old(acc)@ + display_entries(vs.subrange(0, i as int)));
        }
    }
    proof {
        assert(entry_views_of(entries@).subrange(0, n as int) =~= entry_views_of(entries@));
    }
}

impl Value {
    /// The textual rendering of this value, exactly the syntax the reader
    /// consumes for literal values.
    pub fn to_text(&self) -> (r: String)
        ensures
            r@ == display_model(self@),
    {
        let mut acc = String::new();
        write_value(&mut acc, self);
        acc
    }
}

} // verus!
