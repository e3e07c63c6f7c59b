use vstd::prelude::*;
use crate::text::{digit_value, is_digit_char};

verus! {

/// The digit character for a value below ten.
pub open spec fn digit_char_of(d: nat) -> char
    recommends
        d < 10,
{
    (('0' as u8) + (d as u8)) as char
}

/// The decimal digits of a natural number, most significant first, no sign,
/// no leading zeros (except for zero itself, written "0").
pub open spec fn dec_digits(n: nat) -> Seq<char>
    decreases n,
{
    if n < 10 {
        seq![digit_char_of(n)]
    } else {
        dec_digits(n / 10).push(digit_char_of(n % 10))
    }
}

/// The canonical decimal text of an integer: a minus sign for negatives,
/// then the digits of the magnitude.
pub open spec fn int_text(i: int) -> Seq<char> {
    if i < 0 {
        seq!['-'] + dec_digits((-i) as nat)
    } else {
        dec_digits(i as nat)
    }
}

/// The numeric value of a digit sequence read in base ten.
pub open spec fn digits_value(s: Seq<char>) -> nat
    decreases s.len(),
{
    if s.len() == 0 {
        0
    } else {
        digits_value(s.drop_last()) * 10 + digit_value(s.last())
    }
}

pub open spec fn all_digits(s: Seq<char>) -> bool {
    forall|i: int| 0 <= i < s.len() ==> is_digit_char(#[trigger] s[i])
}

pub proof fn lemma_dec_digits_props(n: nat)
    ensures
        dec_digits(n).len() >= 1,
        all_digits(dec_digits(n)),
    decreases n,
{
    if n >= 10 {
        lemma_dec_digits_props(n / 10);
        assert(is_digit_char(digit_char_of(n % 10)));
        assert forall|i: int| 0 <= i < dec_digits(n).len() implies is_digit_char(
            #[trigger] dec_digits(n)[i],
        ) by {
            if i < dec_digits(n).len() - 1 {
                assert(dec_digits(n)[i] == dec_digits(n / 10)[i]);
            }
        }
    } else {
        assert(is_digit_char(digit_char_of(n)));
    }
}

/// Reading back the digits of `n` yields `n`.
pub proof fn lemma_digits_value_of_dec_digits(n: nat)
    ensures
        digits_value(dec_digits(n)) == n,
    decreases n,
{
    if n < 10 {
        assert(dec_digits(n) == seq![digit_char_of(n)]);
        assert(dec_digits(n).drop_last() =~= Seq::<char>::empty());
        assert(digit_char_of(n) as u32 == 48 + n);
        assert(digit_value(digit_char_of(n)) == n);
        assert(digits_value(dec_digits(n)) == digits_value(Seq::<char>::empty()) * 10 + digit_value(digit_char_of(n)));
    } else {
        lemma_digits_value_of_dec_digits(n / 10);
        assert(dec_digits(n).drop_last() =~= dec_digits(n / 10));
        assert(digit_value(digit_char_of(n % 10)) == n % 10);
    }
}

/// The magnitude of an `i64`, as a `u64`.
fn magnitude_u64(i: i64) -> (r: u64)
    ensures
        i >= 0 ==> r == i,
        i < 0 ==> r == -(i as int),
{
    if i >= 0 {
        i as u64
    } else {
        let positive_part: u64 = (-(i + 1)) as u64;
        positive_part + 1
    }
}

/// The decimal digits of `n`, most significant first.
fn format_u64(n: u64) -> (r: Vec<char>)
    ensures
        r@ == dec_digits(n as nat),
{
    let mut rev: Vec<char> = Vec::new();
    let mut m: u64 = n;
    proof {
        assert(dec_digits(n as nat) =~= dec_digits(n as nat) + Seq::<char>::empty().reverse());
    }
    loop
        invariant_except_break
            dec_digits(n as nat) == dec_digits(m as nat) + rev@.reverse(),
        ensures
            dec_digits(n as nat) == rev@.reverse(),
        decreases m,
    {
        let d: u8 = (m % 10) as u8;
        let c: char = (('0' as u8) + d) as char;

        let ghost old_rev = rev@;
        let ghost old_m = m as nat;
        proof {
            assert(c == digit_char_of(old_m % 10));
        }
        rev.push(c);
        m = m / 10;
        proof {
            assert(rev@ == old_rev.push(c));
            assert(rev@.reverse() =~= seq![c] + old_rev.reverse());
            if old_m < 10 {
                assert(dec_digits(old_m) == seq![digit_char_of(old_m)]);
                assert(old_m % 10 == old_m);
                assert(dec_digits(n as nat) =~= rev@.reverse());
            } else {
                assert(dec_digits(old_m) == dec_digits(old_m / 10).push(
                    digit_char_of(old_m % 10),
                ));
                assert(dec_digits(old_m) + old_rev.reverse() =~= dec_digits(m as nat)
                    + rev@.reverse());
            }
        }
        if m == 0 {
            break;
        }
    }
    let mut r: Vec<char> = Vec::new();
    let mut i: usize = rev.len();
    while i > 0
        invariant
            i <= rev@.len(),
            dec_digits(n as nat) == rev@.reverse(),
            r@ == rev@.subrange(i as int, rev@.len() as int).reverse(),
        decreases i,
    {
        i = i - 1;
        r.push(rev[i]);
        proof {
            assert(r@ =~= rev@.subrange(i as int, rev@.len() as int).reverse());
        }
    }
    proof {
        assert(rev@.subrange(0, rev@.len() as int) =~= rev@);
        assert(r@ =~= dec_digits(n as nat));
    }
    r
}

/// The canonical decimal text of a nonnegative machine integer.
pub fn format_usize(n: usize) -> (r: Vec<char>)
    ensures
        r@ == int_text(n as int),
{
    format_u64(n as u64)
}

/// The canonical decimal text of `i`.
pub fn format_i64(i: i64) -> (r: Vec<char>)
    ensures
        r@ == int_text(i as int),
{
    let mag = magnitude_u64(i);
    let digits = format_u64(mag);
    if i < 0 {
        let mut r: Vec<char> = Vec::new();
        r.push('-');
        let mut j: usize = 0;
        while j < digits.len()
            invariant
                j <= digits@.len(),
                r@ == seq!['-'] + digits@.subrange(0, j as int),
            decreases digits@.len() - j,
        {
            r.push(digits[j]);
            j = j + 1;
            proof {
                assert(r@ =~= seq!['-'] + digits@.subrange(0, j as int));
            }
        }
        proof {
            assert(digits@.subrange(0, digits@.len() as int) =~= digits@);
        }
        r
    } else {
        digits
    }
}

/// The value of the digit run `s[from..to]` read in base ten, as a `u64`,
/// or `None` when it does not fit.
pub fn parse_digits_u64(s: &Vec<char>, from: usize, to: usize) -> (r: Option<u64>)
    requires
        from <= to <= s@.len(),
        all_digits(s@.subrange(from as int, to as int)),
    ensures
        match r {
            Some(n) => n == digits_value(s@.subrange(from as int, to as int)),
            None => digits_value(s@.subrange(from as int, to as int)) > u64::MAX,
        },
{
    let mut acc: u64 = 0;
    let mut i: usize = from;
    while i < to
        invariant
            from <= i <= to <= s@.len(),
            all_digits(s@.subrange(from as int, to as int)),
            acc == digits_value(s@.subrange(from as int, i as int)),
        decreases to - i,
    {
        proof {
            assert(s@.subrange(from as int, to as int)[i - from] == s@[i as int]);
            assert(is_digit_char(s@[i as int]));
        }
        let d: u64 = (s[i] as u32 - '0' as u32) as u64;
        if acc > (u64::MAX - d) / 10 {
            proof {
                lemma_digits_overflow(s@, from as int, i as int, to as int, acc as nat, d as nat);
            }
            return None;
        }
        let ghost prev = s@.subrange(from as int, i as int);
        acc = acc * 10 + d;
        i = i + 1;
        proof {
            assert(s@.subrange(from as int, i as int).drop_last() =~= prev);
        }
    }
    Some(acc)
}

/// A digit run whose prefix already exceeds what fits keeps exceeding it.
proof fn lemma_digits_monotone(s: Seq<char>, from: int, mid: int, to: int)
    requires
        0 <= from <= mid <= to <= s.len(),
    ensures
        digits_value(s.subrange(from, to)) >= digits_value(s.subrange(from, mid)),
    decreases to - mid,
{
    if mid < to {
        lemma_digits_monotone(s, from, mid + 1, to);
        let a = s.subrange(from, mid);
        let b = s.subrange(from, mid + 1);
        assert(b.drop_last() =~= a);
        assert(digits_value(b) == digits_value(a) * 10 + digit_value(b.last()));
        vstd::arithmetic::mul::lemma_mul_inequality(1, 10, digits_value(a) as int);
    }
}

proof fn lemma_digits_overflow(s: Seq<char>, from: int, i: int, to: int, acc: nat, d: nat)
    requires
        0 <= from <= i < to <= s.len(),
        acc == digits_value(s.subrange(from, i)),
        d == digit_value(s[i]),
        acc * 10 + d > u64::MAX,
    ensures
        digits_value(s.subrange(from, to)) > u64::MAX,
{
    let b = s.subrange(from, i + 1);
    assert(b.drop_last() =~= s.subrange(from, i));
    assert(b.last() == s[i]);
    assert(digits_value(b) == acc * 10 + d);
    lemma_digits_monotone(s, from, i + 1, to);
}

/// The signed value of a numeral: digits at `s[from..to]`, negative iff `neg`,
/// as an `i64`, or `None` when it does not fit.
pub fn parse_i64(s: &Vec<char>, neg: bool, from: usize, to: usize) -> (r: Option<i64>)
    requires
        from <= to <= s@.len(),
        all_digits(s@.subrange(from as int, to as int)),
    ensures
        ({
            let v = if neg {
                -(digits_value(s@.subrange(from as int, to as int)) as int)
            } else {
                digits_value(s@.subrange(from as int, to as int)) as int
            };
            match r {
                Some(n) => n == v,
                None => !(i64::MIN <= v <= i64::MAX),
            }
        }),
{
    let mag = parse_digits_u64(s, from, to);
    match mag {
        None => None,
        Some(m) => {
            if neg {
                if m <= 9223372036854775807u64 {
                    Some(-(m as i64))
                } else if m == 9223372036854775808u64 {
                    Some(i64::MIN)
                } else {
                    None
                }
            } else {
                if m <= 9223372036854775807u64 {
                    Some(m as i64)
                } else {
                    None
                }
            }
        },
    }
}

} // verus!
