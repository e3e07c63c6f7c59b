use vstd::prelude::*;
use crate::value::ValueModel;
use crate::rt::{arities_wf, arity_accepted, arity_variadic_min};
use crate::display::display_model;
use crate::read::{sp_form, sp_ws, sp_noise, sp_atom, sp_number, sp_string, sp_digitrun,
    sp_find_quote, matches_at, strip_underscores, FormResult, NoiseResult};
use crate::number::{int_text, dec_digits, digits_value, lemma_digits_value_of_dec_digits};
use crate::text::{is_ws_char, is_digit_char, is_symbol_char};

verus! {

/// A declaration with one variadic floor admits exactly the counts at or
/// above the floor: `{[f]}` accepts `f`, `f + 1`, `f + 2`, and so on, and
/// rejects every count below `f`.
pub proof fn law_variadic_floor(floor: int, n: int)
    ensures
        arities_wf(seq![ValueModel::Vector(seq![ValueModel::Integer(floor)])]),
        arity_accepted(seq![ValueModel::Vector(seq![ValueModel::Integer(floor)])], n) <==> n
            >= floor,
{
    let s = seq![ValueModel::Vector(seq![ValueModel::Integer(floor)])];
    assert(arity_variadic_min(s[0]) == Some(floor));
    if n >= floor {
        assert(arity_accepted(s, n));
    }
    if arity_accepted(s, n) {
        assert(s[0] != ValueModel::Integer(n));
    }
}

/// A declaration holding two variadic floors is malformed, whatever else it
/// holds.
pub proof fn law_two_variadic_floors(s: Seq<ValueModel>, i: int, j: int)
    requires
        0 <= i < j < s.len(),
        arity_variadic_min(s[i]) is Some,
        arity_variadic_min(s[j]) is Some,
    ensures
        !arities_wf(s),
{
}

/// A declaration of exact counts admits exactly those counts: a member equal
/// to the argument count accepts it, and with no variadic member nothing else
/// does.
pub proof fn law_exact_arities(s: Seq<ValueModel>, n: int)
    requires
        forall|i: int| 0 <= i < s.len() ==> (#[trigger] s[i]) is Integer,
    ensures
        arity_accepted(s, n) <==> s.contains(ValueModel::Integer(n)),
{
    if arity_accepted(s, n) {
        if !s.contains(ValueModel::Integer(n)) {
            assert forall|i: int| 0 <= i < s.len() implies arity_variadic_min(
                #[trigger] s[i],
            ) is None by {}
        }
    }
}

/// A value whose rendering reads back as the very same value: the literal
/// scalars. A float is excluded: its rendering is its stored literal text,
/// which reads back identically only when that text is a well-formed float
/// literal; symbols, keywords and collections are covered by their own
/// reading rules.
pub open spec fn literal_scalar(m: ValueModel) -> bool {
    match m {
        ValueModel::Nil => true,
        ValueModel::Boolean(..) => true,
        ValueModel::Integer(i) => i64::MIN <= i <= i64::MAX,
        ValueModel::String(s) => forall|i: int| 0 <= i < s.len() ==> s[i] != '"',
        _ => false,
    }
}

proof fn lemma_ws_none(s: Seq<char>, i: int)
    requires
        0 <= i <= s.len(),
        i < s.len() ==> !is_ws_char(s[i]),
    ensures
        sp_ws(s, i) == i,
{
}

proof fn lemma_digitrun_all(s: Seq<char>, i: int)
    requires
        0 <= i <= s.len(),
        forall|j: int| i <= j < s.len() ==> is_digit_char(#[trigger] s[j]),
    ensures
        sp_digitrun(s, i) == s.len(),
    decreases s.len() - i,
{
    if i < s.len() {
        lemma_digitrun_all(s, i + 1);
    }
}

proof fn lemma_strip_none(s: Seq<char>)
    requires
        forall|i: int| 0 <= i < s.len() ==> (#[trigger] s[i]) != '_',
    ensures
        strip_underscores(s) == s,
    decreases s.len(),
{
    reveal_with_fuel(Seq::filter, 2);
    if s.len() > 0 {
        let dl = s.drop_last();
        assert forall|i: int| 0 <= i < dl.len() implies (#[trigger] dl[i]) != '_' by {
            assert(dl[i] == s[i]);
        }
        lemma_strip_none(dl);
        assert(strip_underscores(s) =~= s);
    } else {
        assert(strip_underscores(s) =~= s);
    }
}

/// The characters of the fixed words and delimiters, once for all the proofs
/// below.
proof fn reveal_tokens()
    ensures
        "nil"@ =~= seq!['n', 'i', 'l'],
        "true"@ =~= seq!['t', 'r', 'u', 'e'],
        "false"@ =~= seq!['f', 'a', 'l', 's', 'e'],
{
    reveal_strlit("nil");
    reveal_strlit("true");
    reveal_strlit("false");
}

/// On input that starts with a non-noise character, noise skipping stays put.
proof fn lemma_noise_none(s: Seq<char>)
    requires
        s.len() > 0,
        !is_ws_char(s[0]),
        s[0] != ';',
        !(s.len() > 1 && s[0] == '#' && s[1] == '_'),
    ensures
        sp_noise(s, 0) == NoiseResult::At(0),
{
    lemma_ws_none(s, 0);
}

/// Round trip for the literal scalars: reading the rendering of such a value
/// yields the value back, consuming the whole input.
pub proof fn law_scalar_round_trip(m: ValueModel)
    requires
        literal_scalar(m),
    ensures
        sp_form(display_model(m), 0) == FormResult::Found(display_model(m).len() as int, m),
{
    reveal_tokens();
    let s = display_model(m);
    match m {
        ValueModel::Nil => {
            assert(s =~= seq!['n', 'i', 'l']);
            lemma_noise_none(s);
            assert(matches_at(s, 0, "nil"@)) by {
                assert(s.subrange(0, 3) =~= "nil"@);
            }
            assert(sp_atom(s, 0) == FormResult::Found(3int, ValueModel::Nil));
        },
        ValueModel::Boolean(b) => {
            if b {
                assert(s =~= seq!['t', 'r', 'u', 'e']);
                lemma_noise_none(s);
                assert(!matches_at(s, 0, "nil"@)) by {
                    if matches_at(s, 0, "nil"@) {
                        assert(s.subrange(0, 3)[0] == 'n');
                    }
                }
                assert(matches_at(s, 0, "true"@)) by {
                    assert(s.subrange(0, 4) =~= "true"@);
                }
            } else {
                assert(s =~= seq!['f', 'a', 'l', 's', 'e']);
                lemma_noise_none(s);
                assert(!matches_at(s, 0, "nil"@)) by {
                    if matches_at(s, 0, "nil"@) {
                        assert(s.subrange(0, 3)[0] == 'n');
                    }
                }
                assert(!matches_at(s, 0, "true"@)) by {
                    if matches_at(s, 0, "true"@) {
                        assert(s.subrange(0, 4)[0] == 't');
                    }
                }
                assert(matches_at(s, 0, "false"@)) by {
                    assert(s.subrange(0, 5) =~= "false"@);
                }
            }
        },
        ValueModel::Integer(i) => {
            law_integer_round_trip(i);
        },
        ValueModel::String(text) => {
            assert(s == seq!['"'] + text + seq!['"']);
            assert(s[0] == '"');
            assert(!is_ws_char('"'));
            lemma_noise_none(s);
            assert(!matches_at(s, 0, "nil"@)) by {
                if matches_at(s, 0, "nil"@) {
                    assert(s.subrange(0, 3)[0] == 'n');
                }
            }
            assert(!matches_at(s, 0, "true"@)) by {
                if matches_at(s, 0, "true"@) {
                    assert(s.subrange(0, 4)[0] == 't');
                }
            }
            assert(!matches_at(s, 0, "false"@)) by {
                if matches_at(s, 0, "false"@) {
                    assert(s.subrange(0, 5)[0] == 'f');
                }
            }
            assert(!is_digit_char('"'));
            lemma_quote_scan(s, 1, text);
            assert(sp_find_quote(s, 1) == Some(s.len() - 1));
            assert(sp_string(s, 0) == FormResult::Found(
                s.len() as int,
                ValueModel::String(s.subrange(1, s.len() - 1)),
            ));
            assert(s.subrange(1, s.len() - 1) =~= text);
        },
        _ => {},
    }
}

/// Scanning for the closing quote of a quote-free body finds the final
/// delimiter.
proof fn lemma_quote_scan(s: Seq<char>, i: int, text: Seq<char>)
    requires
        s == seq!['"'] + text + seq!['"'],
        forall|j: int| 0 <= j < text.len() ==> text[j] != '"',
        1 <= i <= s.len() - 1,
    ensures
        sp_find_quote(s, i) == Some(s.len() - 1),
    decreases s.len() - i,
{
    if i < s.len() - 1 {
        assert(s[i] == text[i - 1]);
        lemma_quote_scan(s, i + 1, text);
    } else {
        assert(s[i] == '"');
    }
}

/// Round trip for integers: the decimal rendering of an integer reads back
/// as that integer.
pub proof fn law_integer_round_trip(i: int)
    requires
        i64::MIN <= i <= i64::MAX,
    ensures
        sp_form(int_text(i), 0) == FormResult::Found(
            int_text(i).len() as int,
            ValueModel::Integer(i),
        ),
{
    reveal_tokens();
    let s = int_text(i);
    let mag: nat = if i < 0 {
        (-i) as nat
    } else {
        i as nat
    };
    crate::number::lemma_dec_digits_props(mag);
    let d = dec_digits(mag);
    if i < 0 {
        assert(s == seq!['-'] + d);
        assert(s[0] == '-');
        assert forall|j: int| 1 <= j < s.len() implies is_digit_char(#[trigger] s[j]) by {
            assert(s[j] == d[j - 1]);
        }
    } else {
        assert(s == d);
        assert forall|j: int| 0 <= j < s.len() implies is_digit_char(#[trigger] s[j]) by {}
    }
    assert(!is_ws_char(s[0]));
    assert(s[0] != ';' && s[0] != '#');
    lemma_noise_none(s);
    assert(!matches_at(s, 0, "nil"@)) by {
        if matches_at(s, 0, "nil"@) {
            assert(s.subrange(0, 3)[0] == 'n');
            assert(s[0] == 'n');
        }
    }
    assert(!matches_at(s, 0, "true"@)) by {
        if matches_at(s, 0, "true"@) {
            assert(s.subrange(0, 4)[0] == 't');
            assert(s[0] == 't');
        }
    }
    assert(!matches_at(s, 0, "false"@)) by {
        if matches_at(s, 0, "false"@) {
            assert(s.subrange(0, 5)[0] == 'f');
            assert(s[0] == 'f');
        }
    }
    let neg = s[0] == '-';
    let d0: int = if neg {
        1
    } else {
        0
    };
    assert(is_digit_char(s[d0]));
    assert forall|j: int| d0 + 1 <= j < s.len() implies is_digit_char(#[trigger] s[j]) by {}
    lemma_digitrun_all(s, d0 + 1);
    let e1 = sp_digitrun(s, d0 + 1);
    assert(e1 == s.len());
    assert(!(e1 + 1 < s.len()));
    assert(s.subrange(d0, e1) =~= d);
    lemma_strip_none(d);
    lemma_digits_value_of_dec_digits(mag);
    assert(digits_value(strip_underscores(s.subrange(d0, e1))) == mag);
    if neg {
        assert(sp_number(s, 0) == FormResult::Found(s.len() as int, ValueModel::Integer(i)));
    } else {
        assert(sp_number(s, 0) == FormResult::Found(s.len() as int, ValueModel::Integer(i)));
    }
    assert(sp_atom(s, 0) == sp_number(s, 0));
}


/// Whether the literal occurs as a prefix of the text.
pub open spec fn starts_with(t: Seq<char>, lit: Seq<char>) -> bool {
    lit.len() <= t.len() && t.subrange(0, lit.len() as int) == lit
}

/// A name that reads back as one simple symbol when it stands at the head of
/// the input: drawn from the symbol character set, nonempty, and not starting
/// like another token (a number, a keyword, a quote, or one of the fixed
/// words).
pub open spec fn symbol_name_ok(t: Seq<char>) -> bool {
    &&& t.len() > 0
    &&& forall|i: int| 0 <= i < t.len() ==> is_symbol_char(#[trigger] t[i])
    &&& !is_digit_char(t[0])
    &&& !(t[0] == '-' && t.len() > 1 && is_digit_char(t[1]))
    &&& t[0] != ':'
    &&& t[0] != '\''
    &&& !starts_with(t, "nil"@)
    &&& !starts_with(t, "true"@)
    &&& !starts_with(t, "false"@)
}

/// A name that reads back as a keyword's name: drawn from the symbol
/// character set, nonempty, and not starting with a colon.
pub open spec fn keyword_name_ok(t: Seq<char>) -> bool {
    &&& t.len() > 0
    &&& forall|i: int| 0 <= i < t.len() ==> is_symbol_char(#[trigger] t[i])
    &&& t[0] != ':'
}

/// A run of symbol characters ends exactly where they stop.
proof fn lemma_symrun_to(s: Seq<char>, i: int, e: int)
    requires
        0 <= i <= e <= s.len(),
        forall|j: int| i <= j < e ==> is_symbol_char(#[trigger] s[j]),
        e < s.len() ==> !is_symbol_char(s[e]),
    ensures
        crate::read::sp_symrun(s, i) == e,
    decreases e - i,
{
    if i < e {
        lemma_symrun_to(s, i + 1, e);
    }
}

/// Round trip for symbols: the rendering of a symbol with well-formed names
/// reads back as the same symbol.
pub proof fn law_symbol_round_trip(m: crate::symbol::SymbolModel)
    requires
        match m {
            crate::symbol::SymbolModel::Unqualified { name } => symbol_name_ok(name),
            crate::symbol::SymbolModel::Qualified { namespace, name } => symbol_name_ok(namespace)
                && name.len() > 0 && forall|i: int|
                0 <= i < name.len() ==> is_symbol_char(#[trigger] name[i]),
        },
    ensures
        sp_form(display_model(ValueModel::Symbol(m)), 0) == FormResult::Found(
            display_model(ValueModel::Symbol(m)).len() as int,
            ValueModel::Symbol(m),
        ),
{
    reveal_tokens();
    let s = display_model(ValueModel::Symbol(m));
    match m {
        crate::symbol::SymbolModel::Unqualified { name } => {
            assert(s == name);
            lemma_head_not_special(s);
            lemma_symrun_to(s, 0, s.len() as int);
            assert(crate::read::sp_symbol(s, 0) == FormResult::Found(
                s.len() as int,
                ValueModel::Symbol(m),
            )) by {
                assert(s.subrange(0, s.len() as int) =~= name);
            }
        },
        crate::symbol::SymbolModel::Qualified { namespace, name } => {
            assert(s == namespace + seq!['/'] + name);
            assert forall|j: int| 0 <= j < namespace.len() implies is_symbol_char(
                #[trigger] s[j],
            ) by {
                assert(s[j] == namespace[j]);
            }
            assert(s[0] == namespace[0]);
            assert(s[namespace.len() as int] == '/');
            assert(!is_symbol_char('/'));
            lemma_head_not_special_q(s, namespace);
            lemma_symrun_to(s, 0, namespace.len() as int);
            let e = namespace.len() as int;
            assert forall|j: int| e + 1 <= j < s.len() implies is_symbol_char(#[trigger] s[j]) by {
                assert(s[j] == name[j - e - 1]);
            }
            lemma_symrun_to(s, e + 1, s.len() as int);
            assert(crate::read::sp_symbol(s, 0) == FormResult::Found(
                s.len() as int,
                ValueModel::Symbol(m),
            )) by {
                assert(s.subrange(0, e) =~= namespace);
                assert(s.subrange(e + 1, s.len() as int) =~= name);
            }
        },
    }
}

/// Round trip for keywords: the rendering of a keyword with well-formed
/// names reads back as the same keyword.
pub proof fn law_keyword_round_trip(m: crate::keyword::KeywordModel)
    requires
        match m {
            crate::keyword::KeywordModel::Unqualified { name } => keyword_name_ok(name),
            crate::keyword::KeywordModel::Qualified { namespace, name } => keyword_name_ok(
                namespace,
            ) && name.len() > 0 && forall|i: int|
                0 <= i < name.len() ==> is_symbol_char(#[trigger] name[i]),
        },
    ensures
        sp_form(display_model(ValueModel::Keyword(m)), 0) == FormResult::Found(
            display_model(ValueModel::Keyword(m)).len() as int,
            ValueModel::Keyword(m),
        ),
{
    reveal_tokens();
    let s = display_model(ValueModel::Keyword(m));
    assert(s[0] == ':');
    assert(!is_ws_char(':'));
    lemma_noise_none(s);
    lemma_not_words(s);
    match m {
        crate::keyword::KeywordModel::Unqualified { name } => {
            assert(s == seq![':'] + name);
            assert(s[1] == name[0]);
            assert forall|j: int| 1 <= j < s.len() implies is_symbol_char(#[trigger] s[j]) by {
                assert(s[j] == name[j - 1]);
            }
            lemma_symrun_to(s, 1, s.len() as int);
            assert(crate::read::sp_keyword(s, 0) == FormResult::Found(
                s.len() as int,
                ValueModel::Keyword(m),
            )) by {
                assert(s.subrange(1, s.len() as int) =~= name);
            }
        },
        crate::keyword::KeywordModel::Qualified { namespace, name } => {
            assert(s == seq![':'] + namespace + seq!['/'] + name);
            assert(s[1] == namespace[0]);
            assert forall|j: int| 1 <= j < namespace.len() + 1 implies is_symbol_char(
                #[trigger] s[j],
            ) by {
                assert(s[j] == namespace[j - 1]);
            }
            let e: int = namespace.len() as int + 1;
            assert(s[e as int] == '/');
            assert(!is_symbol_char('/'));
            lemma_symrun_to(s, 1, e as int);
            assert forall|j: int| e + 1 <= j < s.len() implies is_symbol_char(#[trigger] s[j]) by {
                assert(s[j] == name[j - e - 1]);
            }
            lemma_symrun_to(s, e + 1, s.len() as int);
            assert(crate::read::sp_keyword(s, 0) == FormResult::Found(
                s.len() as int,
                ValueModel::Keyword(m),
            )) by {
                assert(s.subrange(1, e as int) =~= namespace);
                assert(s.subrange(e + 1, s.len() as int) =~= name);
            }
        },
    }
}

/// The fixed words do not begin a text whose head is excluded from them.
proof fn lemma_not_words(s: Seq<char>)
    requires
        s.len() > 0,
        s[0] != 'n' || !starts_with(s, "nil"@),
        s[0] != 't' || !starts_with(s, "true"@),
        s[0] != 'f' || !starts_with(s, "false"@),
    ensures
        !matches_at(s, 0, "nil"@),
        !matches_at(s, 0, "true"@),
        !matches_at(s, 0, "false"@),
{
    reveal_tokens();
    if matches_at(s, 0, "nil"@) {
        assert(s.subrange(0, 3)[0] == 'n');
        assert(s[0] == 'n');
        assert(starts_with(s, "nil"@));
    }
    if matches_at(s, 0, "true"@) {
        assert(s.subrange(0, 4)[0] == 't');
        assert(s[0] == 't');
        assert(starts_with(s, "true"@));
    }
    if matches_at(s, 0, "false"@) {
        assert(s.subrange(0, 5)[0] == 'f');
        assert(s[0] == 'f');
        assert(starts_with(s, "false"@));
    }
}

/// The head of a well-formed symbol text reaches the symbol branch of the
/// reader: it is no noise, no delimiter, no fixed word, no number, no string,
/// no keyword.
proof fn lemma_head_not_special(s: Seq<char>)
    requires
        symbol_name_ok(s),
    ensures
        sp_noise(s, 0) == NoiseResult::At(0),
        sp_form(s, 0) == sp_atom(s, 0),
        sp_atom(s, 0) == crate::read::sp_symbol(s, 0),
{
    reveal_tokens();
    assert(is_symbol_char(s[0]));
    assert(!is_ws_char(s[0]));
    assert(s[0] != ';' && s[0] != '#' && s[0] != '(' && s[0] != '[' && s[0] != '{' && s[0] != '"');
    lemma_noise_none(s);
    lemma_not_words(s);
}

/// The same, for a qualified symbol text whose namespace part is well formed.
proof fn lemma_head_not_special_q(s: Seq<char>, namespace: Seq<char>)
    requires
        symbol_name_ok(namespace),
        s.len() > namespace.len(),
        forall|j: int| 0 <= j < namespace.len() ==> s[j] == namespace[j],
        s[namespace.len() as int] == '/',
    ensures
        sp_noise(s, 0) == NoiseResult::At(0),
        sp_form(s, 0) == sp_atom(s, 0),
        sp_atom(s, 0) == crate::read::sp_symbol(s, 0),
{
    reveal_tokens();
    assert(s[0] == namespace[0]);
    assert(is_symbol_char(s[0]));
    assert(!is_ws_char(s[0]));
    assert(s[0] != ';' && s[0] != '#' && s[0] != '(' && s[0] != '[' && s[0] != '{' && s[0] != '"');
    lemma_noise_none(s);
    assert(s[0] != 'n' || !starts_with(s, "nil"@)) by {
        if s[0] == 'n' && starts_with(s, "nil"@) {
            if namespace.len() >= 3 {
                assert(s.subrange(0, 3) =~= namespace.subrange(0, 3));
                assert(starts_with(namespace, "nil"@));
            } else {
                lemma_len_mismatch(s, namespace, "nil"@);
            }
        }
    }
    assert(s[0] != 't' || !starts_with(s, "true"@)) by {
        if s[0] == 't' && starts_with(s, "true"@) {
            if namespace.len() >= 4 {
                assert(s.subrange(0, 4) =~= namespace.subrange(0, 4));
                assert(starts_with(namespace, "true"@));
            } else {
                lemma_len_mismatch(s, namespace, "true"@);
            }
        }
    }
    assert(s[0] != 'f' || !starts_with(s, "false"@)) by {
        if s[0] == 'f' && starts_with(s, "false"@) {
            if namespace.len() >= 5 {
                assert(s.subrange(0, 5) =~= namespace.subrange(0, 5));
                assert(starts_with(namespace, "false"@));
            } else {
                lemma_len_mismatch(s, namespace, "false"@);
            }
        }
    }
    lemma_not_words(s);
    assert(s[1] == namespace[1] || namespace.len() == 1 || true);
    if s[0] == '-' && s.len() > 1 && is_digit_char(s[1]) {
        if namespace.len() > 1 {
            assert(s[1] == namespace[1]);
            assert(false);
        } else {
            assert(s[1] == '/');
            assert(false);
        }
    }
}

/// A literal word cannot be a prefix of text that continues a shorter
/// symbol-character namespace with a slash.
proof fn lemma_len_mismatch(s: Seq<char>, namespace: Seq<char>, lit: Seq<char>)
    requires
        s.len() > namespace.len(),
        namespace.len() < lit.len(),
        forall|j: int| 0 <= j < namespace.len() ==> s[j] == namespace[j],
        s[namespace.len() as int] == '/',
        forall|j: int| 0 <= j < lit.len() ==> is_symbol_char(#[trigger] lit[j]),
    ensures
        !starts_with(s, lit),
{
    if starts_with(s, lit) {
        assert(s.subrange(0, lit.len() as int)[namespace.len() as int] == '/');
        assert(lit[namespace.len() as int] == '/');
        assert(!is_symbol_char('/'));
    }
}

} // verus!
