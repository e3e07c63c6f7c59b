use vstd::prelude::*;
use crate::value::{Value, ValueModel, views_of, view_of, lemma_views_of};
use crate::symbol::{Symbol, SymbolModel};
use crate::keyword::{Keyword, KeywordModel};
use crate::unqualified_symbol::UnqualifiedSymbol;
use crate::qualified_symbol::QualifiedSymbol;
use crate::unqualified_keyword::UnqualifiedKeyword;
use crate::qualified_keyword::QualifiedKeyword;
use crate::list::List;
use crate::vector::Vector;
use crate::value_set::{ValueSet, sorted_insert_model, set_fold};
use crate::value_map::{ValueMap, map_insert_model, map_fold};
use crate::text::{is_ws_char, is_digit_char, is_symbol_char, ws_char, digit_char, symbol_char,
    chars_of, string_of};
use crate::number::{digits_value, all_digits};

verus! {

broadcast use vstd::std_specs::vec::group_vec_axioms;

/// What parsing one form from a position yields.
pub enum FormResult {
    /// A form was read; the position after it, and its value.
    Found(int, ValueModel),
    /// Only noise up to the end of input; the position of the end.
    End(int),
    /// No form matches here.
    Failed,
    /// A discard marker with no form after it.
    MissingDiscard,
}

/// What skipping noise (whitespace, comments, discarded forms) yields.
pub enum NoiseResult {
    At(int),
    Failed,
    MissingDiscard,
}

/// What parsing a close-delimited run of forms yields.
pub enum ItemsResult {
    Done(int, Seq<ValueModel>),
    Failed,
    MissingDiscard,
}

/// What parsing a close-delimited run of key-value pairs yields.
pub enum PairsResult {
    Done(int, Seq<(ValueModel, ValueModel)>),
    Failed,
    MissingDiscard,
}

/// The first position at or after `i` that does not hold whitespace.
pub open spec fn sp_ws(s: Seq<char>, i: int) -> int
    decreases s.len() - i,
{
    if 0 <= i < s.len() && is_ws_char(s[i]) {
        sp_ws(s, i + 1)
    } else {
        i
    }
}

pub proof fn lemma_sp_ws(s: Seq<char>, i: int)
    requires
        0 <= i <= s.len(),
    ensures
        i <= sp_ws(s, i) <= s.len(),
        forall|j: int| i <= j < sp_ws(s, i) ==> is_ws_char(#[trigger] s[j]),
        sp_ws(s, i) < s.len() ==> !is_ws_char(s[sp_ws(s, i)]),
    decreases s.len() - i,
{
    if i < s.len() && is_ws_char(s[i]) {
        lemma_sp_ws(s, i + 1);
    }
}

/// The first position at or after `i` holding a line break, or the end.
pub open spec fn sp_line(s: Seq<char>, i: int) -> int
    decreases s.len() - i,
{
    if 0 <= i < s.len() && s[i] != '\r' && s[i] != '\n' {
        sp_line(s, i + 1)
    } else {
        i
    }
}

pub proof fn lemma_sp_line(s: Seq<char>, i: int)
    requires
        0 <= i <= s.len(),
    ensures
        i <= sp_line(s, i) <= s.len(),
    decreases s.len() - i,
{
    if i < s.len() && s[i] != '\r' && s[i] != '\n' {
        lemma_sp_line(s, i + 1);
    }
}

/// The end of the run of symbol characters starting at `i`.
pub open spec fn sp_symrun(s: Seq<char>, i: int) -> int
    decreases s.len() - i,
{
    if 0 <= i < s.len() && is_symbol_char(s[i]) {
        sp_symrun(s, i + 1)
    } else {
        i
    }
}

pub proof fn lemma_sp_symrun(s: Seq<char>, i: int)
    requires
        0 <= i <= s.len(),
    ensures
        i <= sp_symrun(s, i) <= s.len(),
    decreases s.len() - i,
{
    if i < s.len() && is_symbol_char(s[i]) {
        lemma_sp_symrun(s, i + 1);
    }
}

/// The end of the run of digits and underscores starting at `i`.
pub open spec fn sp_digitrun(s: Seq<char>, i: int) -> int
    decreases s.len() - i,
{
    if 0 <= i < s.len() && (is_digit_char(s[i]) || s[i] == '_') {
        sp_digitrun(s, i + 1)
    } else {
        i
    }
}

pub proof fn lemma_sp_digitrun(s: Seq<char>, i: int)
    requires
        0 <= i <= s.len(),
    ensures
        i <= sp_digitrun(s, i) <= s.len(),
        forall|j: int|
            i <= j < sp_digitrun(s, i) ==> is_digit_char(#[trigger] s[j]) || s[j] == '_',
        sp_digitrun(s, i) < s.len() ==> !(is_digit_char(s[sp_digitrun(s, i)]) || s[sp_digitrun(
            s,
            i,
        )] == '_'),
    decreases s.len() - i,
{
    if i < s.len() && (is_digit_char(s[i]) || s[i] == '_') {
        lemma_sp_digitrun(s, i + 1);
    }
}

/// The position of the first double quote at or after `i`, if any.
pub open spec fn sp_find_quote(s: Seq<char>, i: int) -> Option<int>
    decreases s.len() - i,
{
    if i < 0 || i >= s.len() {
        None
    } else if s[i] == '"' {
        Some(i)
    } else {
        sp_find_quote(s, i + 1)
    }
}

pub proof fn lemma_sp_find_quote(s: Seq<char>, i: int)
    requires
        0 <= i <= s.len(),
    ensures
        match sp_find_quote(s, i) {
            Some(q) => i <= q < s.len() && s[q] == '"',
            None => true,
        },
    decreases s.len() - i,
{
    if i < s.len() && s[i] != '"' {
        lemma_sp_find_quote(s, i + 1);
    }
}

/// Whether the literal occurs at position `i`.
pub open spec fn matches_at(s: Seq<char>, i: int, lit: Seq<char>) -> bool {
    0 <= i && i + lit.len() <= s.len() && s.subrange(i, i + lit.len()) == lit
}

/// The characters of a numeral with its underscores removed.
pub open spec fn strip_underscores(s: Seq<char>) -> Seq<char> {
    s.filter(|c: char| c != '_')
}

/// Parses a number starting at `j`: an optional minus, digits with optional
/// underscores, and an optional fraction. A fraction makes it a float,
/// carried as its text with underscores stripped; otherwise it is an integer,
/// rejected when it does not fit sixty-four bits.
pub open spec fn sp_number(s: Seq<char>, j: int) -> FormResult {
    let neg = s[j] == '-';
    let d0 = if neg {
        j + 1
    } else {
        j
    };
    let e1 = sp_digitrun(s, d0 + 1);
    if e1 + 1 < s.len() && s[e1] == '.' && is_digit_char(s[e1 + 1]) {
        let e2 = sp_digitrun(s, e1 + 2);
        FormResult::Found(e2, ValueModel::Float(strip_underscores(s.subrange(j, e2))))
    } else {
        let digits = strip_underscores(s.subrange(d0, e1));
        let magnitude = digits_value(digits) as int;
        if neg {
            if -magnitude >= i64::MIN as int {
                FormResult::Found(e1, ValueModel::Integer(-magnitude))
            } else {
                FormResult::Failed
            }
        } else {
            if magnitude <= i64::MAX as int {
                FormResult::Found(e1, ValueModel::Integer(magnitude))
            } else {
                FormResult::Failed
            }
        }
    }
}

/// Parses a string literal at `j`: everything up to the next double quote,
/// with no escape processing.
pub open spec fn sp_string(s: Seq<char>, j: int) -> FormResult {
    match sp_find_quote(s, j + 1) {
        Some(q) => FormResult::Found(q + 1, ValueModel::String(s.subrange(j + 1, q))),
        None => FormResult::Failed,
    }
}

/// Parses a symbol at `j`: a run of symbol characters, optionally a slash and
/// a second run for a qualified name.
pub open spec fn sp_symbol(s: Seq<char>, j: int) -> FormResult {
    let e = sp_symrun(s, j);
    if e == j {
        FormResult::Failed
    } else if e < s.len() && s[e] == '/' {
        let e2 = sp_symrun(s, e + 1);
        if e2 > e + 1 {
            FormResult::Found(
                e2,
                ValueModel::Symbol(
                    SymbolModel::Qualified {
                        namespace: s.subrange(j, e),
                        name: s.subrange(e + 1, e2),
                    },
                ),
            )
        } else {
            FormResult::Found(
                e,
                ValueModel::Symbol(SymbolModel::Unqualified { name: s.subrange(j, e) }),
            )
        }
    } else {
        FormResult::Found(
            e,
            ValueModel::Symbol(SymbolModel::Unqualified { name: s.subrange(j, e) }),
        )
    }
}

/// Parses a keyword at `j`: one or two colons, then like a symbol; a double
/// colon reads the same as a single one. When no name follows the colons the
/// whole token reads as a symbol instead, the colons being symbol characters.
pub open spec fn sp_keyword(s: Seq<char>, j: int) -> FormResult {
    let p = if j + 1 < s.len() && s[j + 1] == ':' {
        j + 2
    } else {
        j + 1
    };
    let e = sp_symrun(s, p);
    if e == p {
        sp_symbol(s, j)
    } else if e < s.len() && s[e] == '/' {
        let e2 = sp_symrun(s, e + 1);
        if e2 > e + 1 {
            FormResult::Found(
                e2,
                ValueModel::Keyword(
                    KeywordModel::Qualified {
                        namespace: s.subrange(p, e),
                        name: s.subrange(e + 1, e2),
                    },
                ),
            )
        } else {
            FormResult::Found(
                e,
                ValueModel::Keyword(KeywordModel::Unqualified { name: s.subrange(p, e) }),
            )
        }
    } else {
        FormResult::Found(
            e,
            ValueModel::Keyword(KeywordModel::Unqualified { name: s.subrange(p, e) }),
        )
    }
}

/// Parses an atom at `j`: the fixed words, a number, a string, a keyword, or
/// a symbol, in that order of priority.
pub open spec fn sp_atom(s: Seq<char>, j: int) -> FormResult {
    if matches_at(s, j, "nil"@) {
        FormResult::Found(j + 3, ValueModel::Nil)
    } else if matches_at(s, j, "true"@) {
        FormResult::Found(j + 4, ValueModel::Boolean(true))
    } else if matches_at(s, j, "false"@) {
        FormResult::Found(j + 5, ValueModel::Boolean(false))
    } else if is_digit_char(s[j]) || (s[j] == '-' && j + 1 < s.len() && is_digit_char(s[j + 1])) {
        sp_number(s, j)
    } else if s[j] == '"' {
        sp_string(s, j)
    } else if s[j] == ':' {
        sp_keyword(s, j)
    } else if is_symbol_char(s[j]) {
        sp_symbol(s, j)
    } else {
        FormResult::Failed
    }
}

/// Skips noise from `i`: whitespace, line comments, and discarded forms, each
/// `#_` marker consuming exactly one following form.
pub open spec fn sp_noise(s: Seq<char>, i: int) -> NoiseResult
    decreases s.len() - i, 0int,
{
    if i < 0 || i > s.len() {
        NoiseResult::Failed
    } else {
        let j = sp_ws(s, i);
        if j < i || j > s.len() {
            NoiseResult::Failed
        } else if j < s.len() && s[j] == ';' {
            let e = sp_line(s, j);
            if e > i && e <= s.len() {
                sp_noise(s, e)
            } else {
                NoiseResult::Failed
            }
        } else if j + 1 < s.len() && s[j] == '#' && s[j + 1] == '_' {
            match sp_form(s, j + 2) {
                FormResult::Found(k, _) => if k > i && k <= s.len() {
                    sp_noise(s, k)
                } else {
                    NoiseResult::Failed
                },
                FormResult::End(..) => NoiseResult::MissingDiscard,
                FormResult::Failed => NoiseResult::Failed,
                FormResult::MissingDiscard => NoiseResult::MissingDiscard,
            }
        } else {
            NoiseResult::At(j)
        }
    }
}

/// Parses one form from `i`, after any leading noise: a collection, a quote
/// shorthand, or an atom.
pub open spec fn sp_form(s: Seq<char>, i: int) -> FormResult
    decreases s.len() - i, 1int,
{
    if i < 0 || i > s.len() {
        FormResult::Failed
    } else {
        match sp_noise(s, i) {
            NoiseResult::MissingDiscard => FormResult::MissingDiscard,
            NoiseResult::Failed => FormResult::Failed,
            NoiseResult::At(j) => {
                if j < i || j > s.len() {
                    FormResult::Failed
                } else if j == s.len() {
                    FormResult::End(j)
                } else if s[j] == '(' {
                    match sp_items(s, j + 1, ')') {
                        ItemsResult::Done(k, items) => FormResult::Found(
                            k,
                            ValueModel::List(items),
                        ),
                        ItemsResult::Failed => FormResult::Failed,
                        ItemsResult::MissingDiscard => FormResult::MissingDiscard,
                    }
                } else if s[j] == '[' {
                    match sp_items(s, j + 1, ']') {
                        ItemsResult::Done(k, items) => FormResult::Found(
                            k,
                            ValueModel::Vector(items),
                        ),
                        ItemsResult::Failed => FormResult::Failed,
                        ItemsResult::MissingDiscard => FormResult::MissingDiscard,
                    }
                } else if s[j] == '#' && j + 1 < s.len() && s[j + 1] == '{' {
                    match sp_items(s, j + 2, '}') {
                        ItemsResult::Done(k, items) => FormResult::Found(
                            k,
                            ValueModel::SetVal(set_fold(items)),
                        ),
                        ItemsResult::Failed => FormResult::Failed,
                        ItemsResult::MissingDiscard => FormResult::MissingDiscard,
                    }
                } else if s[j] == '{' {
                    match sp_pairs(s, j + 1) {
                        PairsResult::Done(k, pairs) => FormResult::Found(
                            k,
                            ValueModel::MapVal(map_fold(pairs)),
                        ),
                        PairsResult::Failed => FormResult::Failed,
                        PairsResult::MissingDiscard => FormResult::MissingDiscard,
                    }
                } else if s[j] == '\'' {
                    match sp_form(s, j + 1) {
                        FormResult::Found(k, v) => FormResult::Found(
                            k,
                            ValueModel::List(
                                seq![
                                    ValueModel::Symbol(SymbolModel::Unqualified { name: "quote"@ }),
                                    v,
                                ],
                            ),
                        ),
                        FormResult::End(..) => FormResult::Failed,
                        FormResult::Failed => FormResult::Failed,
                        FormResult::MissingDiscard => FormResult::MissingDiscard,
                    }
                } else {
                    sp_atom(s, j)
                }
            },
        }
    }
}

/// Parses forms up to a closing delimiter: items are separated by at least
/// one whitespace character, and the close may be preceded by whitespace.
pub open spec fn sp_items(s: Seq<char>, i: int, close: char) -> ItemsResult
    decreases s.len() - i, 2int,
{
    if i < 0 || i > s.len() {
        ItemsResult::Failed
    } else {
        match sp_form(s, i) {
            FormResult::MissingDiscard => ItemsResult::MissingDiscard,
            FormResult::End(..) => ItemsResult::Failed,
            FormResult::Failed => {
                let j = sp_ws(s, i);
                if j < s.len() && s[j] == close {
                    ItemsResult::Done(j + 1, Seq::empty())
                } else {
                    ItemsResult::Failed
                }
            },
            FormResult::Found(j, v) => {
                if j <= i || j > s.len() {
                    ItemsResult::Failed
                } else if j < s.len() && s[j] == close {
                    ItemsResult::Done(j + 1, seq![v])
                } else {
                    let k = sp_ws(s, j);
                    if k <= j || k > s.len() {
                        ItemsResult::Failed
                    } else {
                        match sp_items(s, k, close) {
                            ItemsResult::Done(m, items) => ItemsResult::Done(m, seq![v] + items),
                            ItemsResult::Failed => ItemsResult::Failed,
                            ItemsResult::MissingDiscard => ItemsResult::MissingDiscard,
                        }
                    }
                }
            },
        }
    }
}

/// Parses key-value pairs up to a closing brace: key and value separated by
/// whitespace, pairs separated by whitespace, comma counting as whitespace.
pub open spec fn sp_pairs(s: Seq<char>, i: int) -> PairsResult
    decreases s.len() - i, 2int,
{
    if i < 0 || i > s.len() {
        PairsResult::Failed
    } else {
        match sp_form(s, i) {
            FormResult::MissingDiscard => PairsResult::MissingDiscard,
            FormResult::End(..) => PairsResult::Failed,
            FormResult::Failed => {
                let j = sp_ws(s, i);
                if j < s.len() && s[j] == '}' {
                    PairsResult::Done(j + 1, Seq::empty())
                } else {
                    PairsResult::Failed
                }
            },
            FormResult::Found(j, key) => {
                if j <= i || j > s.len() {
                    PairsResult::Failed
                } else {
                    let jj = sp_ws(s, j);
                    if jj <= j || jj > s.len() {
                        PairsResult::Failed
                    } else {
                        match sp_form(s, jj) {
                            FormResult::MissingDiscard => PairsResult::MissingDiscard,
                            FormResult::End(..) => PairsResult::Failed,
                            FormResult::Failed => PairsResult::Failed,
                            FormResult::Found(m, val) => {
                                if m <= jj || m > s.len() {
                                    PairsResult::Failed
                                } else if m < s.len() && s[m] == '}' {
                                    PairsResult::Done(m + 1, seq![(key, val)])
                                } else {
                                    let mm = sp_ws(s, m);
                                    if mm <= m || mm > s.len() {
                                        PairsResult::Failed
                                    } else {
                                        match sp_pairs(s, mm) {
                                            PairsResult::Done(e, pairs) => PairsResult::Done(
                                                e,
                                                seq![(key, val)] + pairs,
                                            ),
                                            PairsResult::Failed => PairsResult::Failed,
                                            PairsResult::MissingDiscard => PairsResult::MissingDiscard,
                                        }
                                    }
                                }
                            },
                        }
                    }
                }
            },
        }
    }
}

/// What reading many forms yields: every form up to the end of input or the
/// first failure, which ends the run silently.
pub open spec fn sp_read_many(s: Seq<char>, i: int) -> Seq<ValueModel>
    decreases s.len() - i,
{
    if i < 0 || i > s.len() {
        Seq::empty()
    } else {
        match sp_form(s, i) {
            FormResult::Found(k, v) => if k > i && k <= s.len() {
                seq![v] + sp_read_many(s, k)
            } else {
                Seq::empty()
            },
            _ => Seq::empty(),
        }
    }
}


/// A parse failure surfaced by [`read_one`].
#[derive(Debug)]
pub enum ParseError {
    /// A discard marker had no form after it to discard.
    MissingDiscardForm,
    /// No form matches the input.
    Other,
}

/// The executable counterpart of a [`FormResult`].
enum Step {
    Found(usize, Value),
    End(usize),
    Failed,
    MissingDiscard,
}

/// Whether an executable step carries out the spec-level outcome.
spec fn step_is(r: &Step, m: FormResult) -> bool {
    match r {
        Step::Found(k, v) => m == FormResult::Found(*k as int, v@),
        Step::End(k) => m == FormResult::End(*k as int),
        Step::Failed => m is Failed,
        Step::MissingDiscard => m is MissingDiscard,
    }
}


/// The length of a vector fits the machine word.
proof fn vec_len_fits(cs: &Vec<char>)
    ensures
        cs@.len() <= usize::MAX,
{
    assert(cs.len() == cs@.len());
}

fn ws_to(cs: &Vec<char>, i: usize) -> (r: usize)
    requires
        i <= cs@.len(),
    ensures
        r as int == sp_ws(cs@, i as int),
        i <= r <= cs@.len(),
{
    let mut j = i;
    while j < cs.len() && ws_char(cs[j])
        invariant
            i <= j <= cs@.len(),
            sp_ws(cs@, i as int) == sp_ws(cs@, j as int),
        decreases cs@.len() - j,
    {
        j = j + 1;
    }
    j
}

fn line_to(cs: &Vec<char>, i: usize) -> (r: usize)
    requires
        i <= cs@.len(),
    ensures
        r as int == sp_line(cs@, i as int),
        i <= r <= cs@.len(),
{
    let mut j = i;
    while j < cs.len() && cs[j] != '\r' && cs[j] != '\n'
        invariant
            i <= j <= cs@.len(),
            sp_line(cs@, i as int) == sp_line(cs@, j as int),
        decreases cs@.len() - j,
    {
        j = j + 1;
    }
    j
}

fn symrun_to(cs: &Vec<char>, i: usize) -> (r: usize)
    requires
        i <= cs@.len(),
    ensures
        r as int == sp_symrun(cs@, i as int),
        i <= r <= cs@.len(),
{
    let mut j = i;
    while j < cs.len() && symbol_char(cs[j])
        invariant
            i <= j <= cs@.len(),
            sp_symrun(cs@, i as int) == sp_symrun(cs@, j as int),
        decreases cs@.len() - j,
    {
        j = j + 1;
    }
    j
}

fn digitrun_to(cs: &Vec<char>, i: usize) -> (r: usize)
    requires
        i <= cs@.len(),
    ensures
        r as int == sp_digitrun(cs@, i as int),
        i <= r <= cs@.len(),
{
    let mut j = i;
    while j < cs.len() && (digit_char(cs[j]) || cs[j] == '_')
        invariant
            i <= j <= cs@.len(),
            sp_digitrun(cs@, i as int) == sp_digitrun(cs@, j as int),
        decreases cs@.len() - j,
    {
        j = j + 1;
    }
    j
}

fn find_quote_to(cs: &Vec<char>, i: usize) -> (r: Option<usize>)
    requires
        i <= cs@.len(),
    ensures
        match r {
            Some(q) => sp_find_quote(cs@, i as int) == Some(q as int) && i <= q < cs@.len(),
            None => sp_find_quote(cs@, i as int) is None,
        },
{
    let mut j = i;
    while j < cs.len() && cs[j] != '"'
        invariant
            i <= j <= cs@.len(),
            sp_find_quote(cs@, i as int) == sp_find_quote(cs@, j as int),
        decreases cs@.len() - j,
    {
        j = j + 1;
    }
    if j < cs.len() {
        Some(j)
    } else {
        None
    }
}

/// Whether the literal's characters occur at position `i`.
fn lit_at(cs: &Vec<char>, i: usize, lit: &str) -> (r: bool)
    requires
        i <= cs@.len(),
    ensures
        r == matches_at(cs@, i as int, lit@),
{
    let lcs = chars_of(lit);
    let n = lcs.len();
    if n > cs.len() - i {
        proof {
            assert(!matches_at(cs@, i as int, lit@));
        }
        return false;
    }
    let mut k: usize = 0;
    while k < n
        invariant
            i + n <= cs@.len(),
            n == lit@.len(),
            lcs@ == lit@,
            k <= n,
            forall|j: int| 0 <= j < k ==> cs@[i + j] == lit@[j],
        decreases n - k,
    {
        proof {
            vec_len_fits(cs);
            assert(i + k < cs@.len());
        }
        if cs[i + k] != lcs[k] {
            proof {
                assert(cs@.subrange(i as int, i + lit@.len())[k as int] == cs@[i + k]);
            }
            return false;
        }
        k = k + 1;
    }
    proof {
        assert(cs@.subrange(i as int, i + lit@.len()) =~= lit@);
    }
    true
}

/// The characters of `cs[from..to]`.
fn copy_range(cs: &Vec<char>, from: usize, to: usize) -> (r: Vec<char>)
    requires
        from <= to <= cs@.len(),
    ensures
        r@ == cs@.subrange(from as int, to as int),
{
    let mut r: Vec<char> = Vec::new();
    let mut i = from;
    while i < to
        invariant
            from <= i <= to <= cs@.len(),
            r@ == cs@.subrange(from as int, i as int),
        decreases to - i,
    {
        r.push(cs[i]);
        i = i + 1;
        proof {
            assert(r@ =~= cs@.subrange(from as int, i as int));
        }
    }
    r
}

/// Removing underscores, one appended character at a time.
proof fn lemma_strip_push(s: Seq<char>, c: char)
    ensures
        strip_underscores(s.push(c)) == if c != '_' {
            strip_underscores(s).push(c)
        } else {
            strip_underscores(s)
        },
{
    assert(s.push(c).drop_last() =~= s);
    assert(s.push(c).last() == c);
    reveal_with_fuel(Seq::filter, 2);
}

/// The characters of `cs[from..to]` with underscores removed.
fn strip_range(cs: &Vec<char>, from: usize, to: usize) -> (r: Vec<char>)
    requires
        from <= to <= cs@.len(),
    ensures
        r@ == strip_underscores(cs@.subrange(from as int, to as int)),
{
    let mut r: Vec<char> = Vec::new();
    proof {
        reveal_with_fuel(Seq::filter, 2);
        assert(cs@.subrange(from as int, from as int) =~= Seq::<char>::empty());
        assert(strip_underscores(cs@.subrange(from as int, from as int)) =~= Seq::<char>::empty());
    }
    let mut i = from;
    while i < to
        invariant
            from <= i <= to <= cs@.len(),
            r@ == strip_underscores(cs@.subrange(from as int, i as int)),
        decreases to - i,
    {
        if cs[i] != '_' {
            r.push(cs[i]);
        }
        i = i + 1;
        proof {
            assert(cs@.subrange(from as int, i as int).drop_last() =~= cs@.subrange(
                from as int,
                i - 1,
            ));
            lemma_strip_push(cs@.subrange(from as int, i - 1), cs@[i - 1]);
            assert(cs@.subrange(from as int, i as int) =~= cs@.subrange(from as int, i - 1).push(
                cs@[i - 1],
            ));
        }
    }
    r
}

/// Dropping underscores from a run of digits and underscores leaves digits.
proof fn lemma_strip_digits(s: Seq<char>)
    requires
        forall|i: int| 0 <= i < s.len() ==> is_digit_char(#[trigger] s[i]) || s[i] == '_',
    ensures
        all_digits(strip_underscores(s)),
    decreases s.len(),
{
    reveal_with_fuel(Seq::filter, 2);
    if s.len() > 0 {
        let dl = s.drop_last();
        assert forall|i: int| 0 <= i < dl.len() implies is_digit_char(#[trigger] dl[i]) || dl[i]
            == '_' by {
            assert(dl[i] == s[i]);
        }
        lemma_strip_digits(dl);
        let st = strip_underscores(s);
        let stl = strip_underscores(dl);
        if s.last() != '_' {
            assert(st == stl.push(s.last()));
            assert(is_digit_char(s[s.len() - 1]));
            assert forall|i: int| 0 <= i < st.len() implies is_digit_char(#[trigger] st[i]) by {
                if i < st.len() - 1 {
                    assert(st[i] == stl[i]);
                }
            }
        } else {
            assert(st == stl);
        }
    }
}

/// Parses a number token at `j`.
fn parse_number(cs: &Vec<char>, j: usize) -> (r: Step)
    requires
        j < cs@.len(),
        is_digit_char(cs@[j as int]) || (cs@[j as int] == '-' && j + 1 < cs@.len() && is_digit_char(
            cs@[j + 1],
        )),
    ensures
        step_is(&r, sp_number(cs@, j as int)),
{    proof {
        vec_len_fits(cs);
    }

    let neg = cs[j] == '-';
    let d0 = if neg {
        j + 1
    } else {
        j
    };
    let e1 = digitrun_to(cs, d0 + 1);
    if e1 < cs.len() && e1 + 1 < cs.len() && cs[e1] == '.' && digit_char(cs[e1 + 1]) {
        let e2 = digitrun_to(cs, e1 + 2);
        let text = strip_range(cs, j, e2);
        Step::Found(e2, Value::Float(string_of(&text)))
    } else {
        let digits = strip_range(cs, d0, e1);
        proof {
            let sub = cs@.subrange(d0 as int, e1 as int);
            lemma_sp_digitrun(cs@, d0 + 1);
            assert forall|i: int| 0 <= i < sub.len() implies is_digit_char(#[trigger] sub[i])
                || sub[i] == '_' by {
                assert(sub[i] == cs@[d0 + i]);
            }
            lemma_strip_digits(sub);
            assert(digits@.subrange(0, digits@.len() as int) =~= digits@);
        }
        let value = crate::number::parse_i64(&digits, neg, 0, digits.len());
        proof {
            assert(digits@.subrange(0, digits@.len() as int) =~= digits@);
        }
        match value {
            Some(n) => Step::Found(e1, Value::Integer(n)),
            None => Step::Failed,
        }
    }
}

/// Parses a symbol token at `j`.
fn parse_symbol(cs: &Vec<char>, j: usize) -> (r: Step)
    requires
        j <= cs@.len(),
    ensures
        step_is(&r, sp_symbol(cs@, j as int)),
{    proof {
        vec_len_fits(cs);
    }

    let e = symrun_to(cs, j);
    if e == j {
        return Step::Failed;
    }
    if e < cs.len() && cs[e] == '/' {
        let e2 = symrun_to(cs, e + 1);
        if e2 > e + 1 {
            let ns = string_of(&copy_range(cs, j, e));
            let name = string_of(&copy_range(cs, e + 1, e2));
            return Step::Found(
                e2,
                Value::Symbol(Symbol::Qualified(QualifiedSymbol((ns, name)))),
            );
        }
        let name = string_of(&copy_range(cs, j, e));
        return Step::Found(e, Value::Symbol(Symbol::Unqualified(UnqualifiedSymbol(name))));
    }
    let name = string_of(&copy_range(cs, j, e));
    Step::Found(e, Value::Symbol(Symbol::Unqualified(UnqualifiedSymbol(name))))
}

/// Parses a keyword token at `j`, falling back to a symbol when no name
/// follows the colons.
fn parse_keyword(cs: &Vec<char>, j: usize) -> (r: Step)
    requires
        j < cs@.len(),
        cs@[j as int] == ':',
    ensures
        step_is(&r, sp_keyword(cs@, j as int)),
{    proof {
        vec_len_fits(cs);
    }

    let p = if j + 1 < cs.len() && cs[j + 1] == ':' {
        j + 2
    } else {
        j + 1
    };
    let e = symrun_to(cs, p);
    if e == p {
        return parse_symbol(cs, j);
    }
    if e < cs.len() && cs[e] == '/' {
        let e2 = symrun_to(cs, e + 1);
        if e2 > e + 1 {
            let ns = string_of(&copy_range(cs, p, e));
            let name = string_of(&copy_range(cs, e + 1, e2));
            return Step::Found(
                e2,
                Value::Keyword(Keyword::Qualified(QualifiedKeyword((ns, name)))),
            );
        }
        let name = string_of(&copy_range(cs, p, e));
        return Step::Found(e, Value::Keyword(Keyword::Unqualified(UnqualifiedKeyword(name))));
    }
    let name = string_of(&copy_range(cs, p, e));
    Step::Found(e, Value::Keyword(Keyword::Unqualified(UnqualifiedKeyword(name))))
}

/// Parses an atom at `j`.
fn parse_atom(cs: &Vec<char>, j: usize) -> (r: Step)
    requires
        j < cs@.len(),
    ensures
        step_is(&r, sp_atom(cs@, j as int)),
{    proof {
        vec_len_fits(cs);
    }

    if lit_at(cs, j, "nil") {
        proof {
            reveal_strlit("nil");
        }
        return Step::Found(j + 3, Value::Nil);
    }
    if lit_at(cs, j, "true") {
        proof {
            reveal_strlit("true");
        }
        return Step::Found(j + 4, Value::Boolean(true));
    }
    if lit_at(cs, j, "false") {
        proof {
            reveal_strlit("false");
        }
        return Step::Found(j + 5, Value::Boolean(false));
    }
    if digit_char(cs[j]) || (cs[j] == '-' && j + 1 < cs.len() && digit_char(cs[j + 1])) {
        return parse_number(cs, j);
    }
    if cs[j] == '"' {
        match find_quote_to(cs, j + 1) {
            Some(q) => {
                let text = string_of(&copy_range(cs, j + 1, q));
                return Step::Found(q + 1, Value::String(text));
            },
            None => {
                return Step::Failed;
            },
        }
    }
    if cs[j] == ':' {
        return parse_keyword(cs, j);
    }
    if symbol_char(cs[j]) {
        return parse_symbol(cs, j);
    }
    Step::Failed
}


/// Skips whitespace, comments and discarded forms from `i`.
fn parse_noise(cs: &Vec<char>, i: usize) -> (r: Result<usize, Step>)
    requires
        i <= cs@.len(),
    ensures
        match r {
            Ok(j) => sp_noise(cs@, i as int) == NoiseResult::At(j as int) && i <= j <= cs@.len(),
            Err(e) => (e is Failed && sp_noise(cs@, i as int) is Failed) || (e is MissingDiscard
                && sp_noise(cs@, i as int) is MissingDiscard),
        },
    decreases cs@.len() - i, 0int,
{
    proof {
        vec_len_fits(cs);
        lemma_sp_ws(cs@, i as int);
    }
    let j = ws_to(cs, i);
    if j < cs.len() && cs[j] == ';' {
        proof {
            lemma_sp_line(cs@, j + 1);
            assert(sp_line(cs@, j as int) == sp_line(cs@, j + 1));
        }
        let e = line_to(cs, j);
        if e > i {
            parse_noise(cs, e)
        } else {
            proof {
                assert(false);
            }
            Err(Step::Failed)
        }
    } else if j < cs.len() && j + 1 < cs.len() && cs[j] == '#' && cs[j + 1] == '_' {
        match parse_form(cs, j + 2) {
            Step::Found(k, _v) => {
                if k > i && k <= cs.len() {
                    parse_noise(cs, k)
                } else {
                    Err(Step::Failed)
                }
            },
            Step::End(..) => Err(Step::MissingDiscard),
            Step::Failed => Err(Step::Failed),
            Step::MissingDiscard => Err(Step::MissingDiscard),
        }
    } else {
        Ok(j)
    }
}

/// Parses one form from `i`, after any leading noise.
fn parse_form(cs: &Vec<char>, i: usize) -> (r: Step)
    requires
        i <= cs@.len(),
    ensures
        step_is(&r, sp_form(cs@, i as int)),
        r matches Step::Found(k, _) ==> i < k <= cs@.len(),
        r matches Step::End(k) ==> k == cs@.len(),
    decreases cs@.len() - i, 1int,
{
    proof {
        vec_len_fits(cs);
    }
    let j = match parse_noise(cs, i) {
        Ok(j) => j,
        Err(e) => {
            return e;
        },
    };
    if j == cs.len() {
        return Step::End(j);
    }
    let r = if cs[j] == '(' {
        match parse_items(cs, j + 1, ')') {
            Ok((k, items)) => Step::Found(k, Value::List(List { elems: items })),
            Err(e) => e,
        }
    } else if cs[j] == '[' {
        match parse_items(cs, j + 1, ']') {
            Ok((k, items)) => Step::Found(k, Value::Vector(Vector { elems: items })),
            Err(e) => e,
        }
    } else if cs[j] == '#' && j + 1 < cs.len() && cs[j + 1] == '{' {
        match parse_items(cs, j + 2, '}') {
            Ok((k, items)) => {
                let ghost models = views_of(items@);
                let mut set = ValueSet::new_empty();
                let mut x: usize = 0;
                proof {
                    lemma_views_of(items@);
                    assert(models.subrange(0, 0) =~= Seq::<ValueModel>::empty());
                    assert(set_fold(models.subrange(0, 0)) =~= Seq::<ValueModel>::empty());
                }
                while x < items.len()
                    invariant
                        x <= items@.len(),
                        models == views_of(items@),
                        models.len() == items@.len(),
                        forall|y: int| 0 <= y < models.len() ==> models[y] == view_of(items@[y]),
                        set.wf(),
                        set@ == set_fold(models.subrange(0, x as int)),
                    decreases items@.len() - x,
                {
                    set = set.insert(items[x].clone());
                    x = x + 1;
                    proof {
                        assert(models.subrange(0, x as int).drop_last() =~= models.subrange(
                            0,
                            x - 1,
                        ));
                        assert(models.subrange(0, x as int).last() == models[x - 1]);
                    }
                }
                proof {
                    assert(models.subrange(0, models.len() as int) =~= models);
                }
                Step::Found(k, Value::SetVal(set))
            },
            Err(e) => e,
        }
    } else if cs[j] == '{' {
        match parse_pairs(cs, j + 1) {
            Ok((k, pairs)) => {
                let ghost models = crate::value::entry_views_of(pairs@);
                let mut map = ValueMap::new_empty();
                let mut x: usize = 0;
                proof {
                    crate::value::lemma_entry_views_of(pairs@);
                    assert(models.subrange(0, 0) =~= Seq::<(ValueModel, ValueModel)>::empty());
                    assert(map_fold(models.subrange(0, 0)) =~= Seq::<(
                        ValueModel,
                        ValueModel,
                    )>::empty());
                }
                while x < pairs.len()
                    invariant
                        x <= pairs@.len(),
                        models == crate::value::entry_views_of(pairs@),
                        models.len() == pairs@.len(),
                        forall|y: int|
                            0 <= y < models.len() ==> models[y] == (view_of(pairs@[y].0), view_of(
                                pairs@[y].1,
                            )),
                        map.wf(),
                        map@ == map_fold(models.subrange(0, x as int)),
                    decreases pairs@.len() - x,
                {
                    let (pk, pv) = &pairs[x];
                    map = map.insert(pk.clone(), pv.clone());
                    x = x + 1;
                    proof {
                        assert(models.subrange(0, x as int).drop_last() =~= models.subrange(
                            0,
                            x - 1,
                        ));
                        assert(models.subrange(0, x as int).last() == models[x - 1]);
                    }
                }
                proof {
                    assert(models.subrange(0, models.len() as int) =~= models);
                }
                Step::Found(k, Value::MapVal(map))
            },
            Err(e) => e,
        }
    } else if cs[j] == '\'' {
        match parse_form(cs, j + 1) {
            Step::Found(k, v) => {
                let mut elems: Vec<Value> = Vec::new();
                let quote_sym = Value::Symbol(
                    Symbol::Unqualified(crate::unqualified_symbol::new("quote")),
                );
                let ghost vm = v@;
                elems.push(quote_sym);
                elems.push(v);
                proof {
                    crate::value::lemma_views_of(elems@);
                    assert(views_of(elems@) =~= seq![
                        ValueModel::Symbol(SymbolModel::Unqualified { name: "quote"@ }),
                        vm,
                    ]);
                }
                Step::Found(k, Value::List(List { elems }))
            },
            Step::End(..) => Step::Failed,
            Step::Failed => Step::Failed,
            Step::MissingDiscard => Step::MissingDiscard,
        }
    } else {
        parse_atom(cs, j)
    };
    proof {
        match r {
            Step::Found(k, _) => {
                if !(cs@[j as int] == '(' || cs@[j as int] == '[' || (cs@[j as int] == '#' && j + 1
                    < cs@.len() && cs@[j + 1] == '{') || cs@[j as int] == '{' || cs@[j as int]
                    == '\'') {
                    lemma_atom_bounds(cs@, j as int);
                }
            },
            _ => {},
        }
    }
    r
}

/// A successfully parsed atom ends after its start and within the input.
proof fn lemma_atom_bounds(s: Seq<char>, j: int)
    requires
        0 <= j < s.len(),
    ensures
        sp_atom(s, j) matches FormResult::Found(k, _) ==> j < k <= s.len(),
{
    reveal_strlit("nil");
    reveal_strlit("true");
    reveal_strlit("false");
    lemma_sp_symrun(s, j);
    if s[j] == ':' {
        let p = if j + 1 < s.len() && s[j + 1] == ':' {
            j + 2
        } else {
            j + 1
        };
        if p <= s.len() {
            lemma_sp_symrun(s, p);
            let e = sp_symrun(s, p);
            if e < s.len() && s[e] == '/' {
                lemma_sp_symrun(s, e + 1);
            }
        }
    }
    let e = sp_symrun(s, j);
    if e < s.len() && s[e] == '/' {
        lemma_sp_symrun(s, e + 1);
    }
    if is_digit_char(s[j]) || (s[j] == '-' && j + 1 < s.len() && is_digit_char(s[j + 1])) {
        let neg = s[j] == '-';
        let d0 = if neg {
            j + 1
        } else {
            j
        };
        lemma_sp_digitrun(s, d0 + 1);
        let e1 = sp_digitrun(s, d0 + 1);
        if e1 + 1 < s.len() && s[e1] == '.' && is_digit_char(s[e1 + 1]) {
            lemma_sp_digitrun(s, e1 + 2);
        }
    }
    if s[j] == '"' {
        lemma_sp_find_quote(s, j + 1);
    }
}

/// Parses forms up to the closing delimiter.
fn parse_items(cs: &Vec<char>, i: usize, close: char) -> (r: Result<(usize, Vec<Value>), Step>)
    requires
        i <= cs@.len(),
    ensures
        match r {
            Ok((k, items)) => sp_items(cs@, i as int, close) == ItemsResult::Done(
                k as int,
                views_of(items@),
            ) && i < k <= cs@.len(),
            Err(e) => (e is Failed && sp_items(cs@, i as int, close) is Failed) || (e
                is MissingDiscard && sp_items(cs@, i as int, close) is MissingDiscard),
        },
    decreases cs@.len() - i, 2int,
{
    proof {
        vec_len_fits(cs);
    }
    match parse_form(cs, i) {
        Step::MissingDiscard => Err(Step::MissingDiscard),
        Step::End(..) => Err(Step::Failed),
        Step::Failed => {
            proof {
                lemma_sp_ws(cs@, i as int);
            }
            let j = ws_to(cs, i);
            if j < cs.len() && cs[j] == close {
                let items: Vec<Value> = Vec::new();
                proof {
                    assert(views_of(items@) =~= Seq::<ValueModel>::empty());
                }
                Ok((j + 1, items))
            } else {
                Err(Step::Failed)
            }
        },
        Step::Found(j, v) => {
            let ghost vm = v@;
            if j < cs.len() && cs[j] == close {
                let mut items: Vec<Value> = Vec::new();
                items.push(v);
                proof {
                    crate::value::lemma_views_of(items@);
                    assert(views_of(items@) =~= seq![vm]);
                }
                Ok((j + 1, items))
            } else {
                proof {
                    lemma_sp_ws(cs@, j as int);
                }
                let k = ws_to(cs, j);
                if k == j {
                    Err(Step::Failed)
                } else {
                    match parse_items(cs, k, close) {
                        Ok((m, rest)) => {
                            let ghost restm = views_of(rest@);
                            let mut items: Vec<Value> = Vec::new();
                            items.push(v);
                            let mut y: usize = 0;
                            proof {
                                crate::value::lemma_views_of(items@);
                                crate::value::lemma_views_of(rest@);
                                assert(views_of(items@) =~= seq![vm] + restm.subrange(0, 0));
                            }
                            while y < rest.len()
                                invariant
                                    y <= rest@.len(),
                                    restm == views_of(rest@),
                                    restm.len() == rest@.len(),
                                    forall|z: int|
                                        0 <= z < restm.len() ==> restm[z] == view_of(rest@[z]),
                                    views_of(items@) == seq![vm] + restm.subrange(0, y as int),
                                decreases rest@.len() - y,
                            {
                                let ghost before = items@;
                                items.push(rest[y].clone());
                                y = y + 1;
                                proof {
                                    crate::value::lemma_views_of_push(before, items@.last());
                                    assert(views_of(items@) =~= seq![vm] + restm.subrange(
                                        0,
                                        y as int,
                                    ));
                                }
                            }
                            proof {
                                assert(restm.subrange(0, restm.len() as int) =~= restm);
                            }
                            Ok((m, items))
                        },
                        Err(e) => Err(e),
                    }
                }
            }
        },
    }
}

/// Parses key-value pairs up to the closing brace.
fn parse_pairs(cs: &Vec<char>, i: usize) -> (r: Result<(usize, Vec<(Value, Value)>), Step>)
    requires
        i <= cs@.len(),
    ensures
        match r {
            Ok((k, pairs)) => sp_pairs(cs@, i as int) == PairsResult::Done(
                k as int,
                crate::value::entry_views_of(pairs@),
            ) && i < k <= cs@.len(),
            Err(e) => (e is Failed && sp_pairs(cs@, i as int) is Failed) || (e is MissingDiscard
                && sp_pairs(cs@, i as int) is MissingDiscard),
        },
    decreases cs@.len() - i, 2int,
{
    proof {
        vec_len_fits(cs);
    }
    match parse_form(cs, i) {
        Step::MissingDiscard => Err(Step::MissingDiscard),
        Step::End(..) => Err(Step::Failed),
        Step::Failed => {
            proof {
                lemma_sp_ws(cs@, i as int);
            }
            let j = ws_to(cs, i);
            if j < cs.len() && cs[j] == '}' {
                let pairs: Vec<(Value, Value)> = Vec::new();
                proof {
                    assert(crate::value::entry_views_of(pairs@) =~= Seq::<(
                        ValueModel,
                        ValueModel,
                    )>::empty());
                }
                Ok((j + 1, pairs))
            } else {
                Err(Step::Failed)
            }
        },
        Step::Found(j, key) => {
            let ghost km = key@;
            proof {
                lemma_sp_ws(cs@, j as int);
            }
            let jj = ws_to(cs, j);
            if jj == j {
                return Err(Step::Failed);
            }
            match parse_form(cs, jj) {
                Step::MissingDiscard => Err(Step::MissingDiscard),
                Step::End(..) => Err(Step::Failed),
                Step::Failed => Err(Step::Failed),
                Step::Found(m, val) => {
                    let ghost valm = val@;
                    if m < cs.len() && cs[m] == '}' {
                        let mut pairs: Vec<(Value, Value)> = Vec::new();
                        pairs.push((key, val));
                        proof {
                            crate::value::lemma_entry_views_of(pairs@);
                            assert(crate::value::entry_views_of(pairs@) =~= seq![(km, valm)]);
                        }
                        Ok((m + 1, pairs))
                    } else {
                        proof {
                            lemma_sp_ws(cs@, m as int);
                        }
                        let mm = ws_to(cs, m);
                        if mm == m {
                            return Err(Step::Failed);
                        }
                        match parse_pairs(cs, mm) {
                            Ok((e, rest)) => {
                                let ghost restm = crate::value::entry_views_of(rest@);
                                let mut pairs: Vec<(Value, Value)> = Vec::new();
                                pairs.push((key, val));
                                let mut y: usize = 0;
                                proof {
                                    crate::value::lemma_entry_views_of(pairs@);
                                    crate::value::lemma_entry_views_of(rest@);
                                    assert(crate::value::entry_views_of(pairs@) =~= seq![
                                        (km, valm),
                                    ] + restm.subrange(0, 0));
                                }
                                while y < rest.len()
                                    invariant
                                        y <= rest@.len(),
                                        restm == crate::value::entry_views_of(rest@),
                                        restm.len() == rest@.len(),
                                        forall|z: int|
                                            0 <= z < restm.len() ==> restm[z] == (view_of(
                                                rest@[z].0,
                                            ), view_of(rest@[z].1)),
                                        crate::value::entry_views_of(pairs@) == seq![(km, valm)]
                                            + restm.subrange(0, y as int),
                                    decreases rest@.len() - y,
                                {
                                    let ghost before = pairs@;
                                    let (rk, rv) = &rest[y];
                                    pairs.push((rk.clone(), rv.clone()));
                                    y = y + 1;
                                    proof {
                                        crate::value::lemma_entry_views_of_push(
                                            before,
                                            pairs@.last().0,
                                            pairs@.last().1,
                                        );
                                        assert(pairs@.last() == (pairs@.last().0, pairs@.last().1));
                                        assert(pairs@ == before.push(pairs@.last()));
                                        assert(crate::value::entry_views_of(pairs@) =~= seq![
                                            (km, valm),
                                        ] + restm.subrange(0, y as int));
                                    }
                                }
                                proof {
                                    assert(restm.subrange(0, restm.len() as int) =~= restm);
                                }
                                Ok((e, pairs))
                            },
                            Err(e) => Err(e),
                        }
                    }
                },
            }
        },
    }
}

/// Reads exactly one form from the input, after skipping leading noise;
/// yields nothing when the input holds no form.
pub fn read_one(input: &str) -> (r: Result<Option<Value>, ParseError>)
    ensures
        match r {
            Ok(Some(v)) => sp_form(input@, 0) matches FormResult::Found(k, m) && m == v@,
            Ok(None) => sp_form(input@, 0) is End,
            Err(e) => (e is Other && sp_form(input@, 0) is Failed) || (e is MissingDiscardForm
                && sp_form(input@, 0) is MissingDiscard),
        },
{
    let cs = chars_of(input);
    match parse_form(&cs, 0) {
        Step::Found(_k, v) => Ok(Some(v)),
        Step::End(..) => Ok(None),
        Step::Failed => Err(ParseError::Other),
        Step::MissingDiscard => Err(ParseError::MissingDiscardForm),
    }
}

/// Reads forms until the input is exhausted or a parse failure occurs,
/// collecting the forms read and silently stopping at the first failure.
pub fn read_many(input: &str) -> (r: Vec<Value>)
    ensures
        views_of(r@) == sp_read_many(input@, 0),
{
    let cs = chars_of(input);
    let mut out: Vec<Value> = Vec::new();
    let mut i: usize = 0;
    proof {
        vec_len_fits(&cs);
        crate::value::lemma_views_of(out@);
        assert(views_of(out@) =~= Seq::<ValueModel>::empty());
    }
    loop
        invariant_except_break
            i <= cs@.len(),
            cs@ == input@,
            views_of(out@) + sp_read_many(cs@, i as int) == sp_read_many(cs@, 0),
        ensures
            views_of(out@) == sp_read_many(input@, 0),
        decreases cs@.len() - i,
    {
        match parse_form(&cs, i) {
            Step::Found(k, v) => {
                let ghost before = out@;
                out.push(v);
                proof {
                    crate::value::lemma_views_of_push(before, out@.last());
                    assert(views_of(before) + sp_read_many(cs@, i as int) =~= views_of(out@)
                        + sp_read_many(cs@, k as int));
                }
                i = k;
            },
            _ => {
                proof {
                    assert(sp_read_many(cs@, i as int) =~= Seq::<ValueModel>::empty());
                    assert(views_of(out@) =~= views_of(out@) + sp_read_many(cs@, i as int));
                }
                break;
            },
        }
    }
    out
}

} // verus!
