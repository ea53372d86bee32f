//! Characters of a text: decimal digits and numbers written with them,
//! tabs, and the characters of a string.

use vstd::prelude::*;

verus! {

/// Whether `c` is one of the ten decimal digits.
pub open spec fn is_digit(c: char) -> bool {
    '0' <= c && c <= '9'
}

/// The value of a decimal digit.
pub open spec fn digit_value(c: char) -> int {
    c as int - '0' as int
}

/// The value of a string of decimal digits.
pub open spec fn digits_value(ds: Seq<char>) -> int
    decreases ds.len(),
{
    if ds.len() == 0 {
        0
    } else {
        digits_value(ds.drop_last()) * 10 + digit_value(ds.last())
    }
}

/// The value of an optional minus sign followed by decimal digits; `None`
/// when there is no digit.
pub open spec fn signed_decimal_value(t: Seq<char>) -> Option<int> {
    if t.len() > 0 && t[0] == '-' {
        if t.len() == 1 {
            None
        } else {
            Some(-digits_value(t.drop_first()))
        }
    } else if t.len() == 0 {
        None
    } else {
        Some(digits_value(t))
    }
}

/// The characters of a string, in order.
pub(crate) fn chars_of(s: &str) -> (cs: Vec<char>)
    ensures
        cs@ == s@,
{
    let mut cs: Vec<char> = Vec::new();
    for c in it: s.chars()
        invariant
            cs@ == it.seq().take(it.index() as int),
    {
        cs.push(c);
    }
    cs
}

/// A longer prefix of a digit string has at least the value of a shorter one.
pub proof fn lemma_digits_value_prefix(ds: Seq<char>, k: int)
    requires
        0 <= k <= ds.len(),
        forall|m: int| 0 <= m < ds.len() ==> is_digit(#[trigger] ds[m]),
    ensures
        0 <= digits_value(ds.take(k)) <= digits_value(ds),
    decreases ds.len() - k,
{
    if k < ds.len() {
        lemma_digits_value_prefix(ds, k + 1);
        assert(ds.take(k + 1).drop_last() =~= ds.take(k));
        assert(ds.take(k + 1).last() == ds[k]);
    } else {
        assert(ds.take(k) =~= ds);
    }
    lemma_digits_value_nonneg(ds.take(k));
}

/// A digit string has a value of at least 0.
pub proof fn lemma_digits_value_nonneg(ds: Seq<char>)
    requires
        forall|m: int| 0 <= m < ds.len() ==> is_digit(#[trigger] ds[m]),
    ensures
        0 <= digits_value(ds),
    decreases ds.len(),
{
    if ds.len() > 0 {
        lemma_digits_value_nonneg(ds.drop_last());
    }
}

/// The value of the digits `cs[from..to]`, or `None` when it does not fit in
/// a `u64`.
pub(crate) fn digits_to_u64(cs: &Vec<char>, from: usize, to: usize) -> (r: Option<u64>)
    requires
        from <= to <= cs@.len(),
        forall|m: int| from <= m < to ==> is_digit(#[trigger] cs@[m]),
    ensures
        match r {
            Some(v) => v == digits_value(cs@.subrange(from as int, to as int)),
            None => digits_value(cs@.subrange(from as int, to as int)) > u64::MAX,
        },
{
    let ghost ds = cs@.subrange(from as int, to as int);
    let mut acc: u64 = 0;
    let mut k: usize = from;
    while k < to
        invariant
            from <= k <= to <= cs@.len(),
            ds == cs@.subrange(from as int, to as int),
            forall|m: int| from <= m < to ==> is_digit(#[trigger] cs@[m]),
            acc == digits_value(ds.take(k - from)),
        decreases to - k,
    {
        let ghost pre = ds.take(k - from);
        assert(ds.take(k - from + 1).drop_last() =~= pre);
        assert(ds.take(k - from + 1).last() == cs@[k as int]);
        assert(is_digit(cs@[k as int]));
        let d: u64 = (cs[k] as u32 - '0' as u32) as u64;
        match acc.checked_mul(10) {
            Some(m) => match m.checked_add(d) {
                Some(n) => {
                    acc = n;
                },
                None => {
                    proof { lemma_digits_value_prefix(ds, k - from + 1); }
                    return None;
                },
            },
            None => {
                proof {
                    lemma_digits_value_prefix(ds, k - from + 1);
                    assert(digit_value(cs@[k as int]) >= 0);
                }
                return None;
            },
        }
        k = k + 1;
    }
    assert(ds.take(to - from) =~= ds);
    Some(acc)
}

/// The decimal digit of value `d`, for `0 <= d < 10`.
pub open spec fn digit_char(d: int) -> char {
    (d + 48) as char
}

/// The decimal notation of a natural number, without leading zeros.
pub open spec fn nat_text(n: nat) -> Seq<char>
    decreases n,
{
    if n < 10 {
        seq![digit_char(n as int)]
    } else {
        nat_text(n / 10).push(digit_char(n as int % 10))
    }
}

/// The decimal notation of an integer: a minus sign for a negative one, then
/// the digits of its absolute value.
pub open spec fn int_text(i: int) -> Seq<char> {
    if i < 0 {
        seq!['-'] + nat_text((-i) as nat)
    } else {
        nat_text(i as nat)
    }
}

/// `n` tab characters.
pub open spec fn tabs(n: nat) -> Seq<char> {
    Seq::new(n, |k: int| '\t')
}

/// Calls `String::pop`: the last character is removed and returned; an empty
/// string is left as it is and `None` comes back.
#[verifier::external_body]
pub(crate) fn string_pop(s: &mut String) -> (r: Option<char>)
    ensures
        old(s)@.len() == 0 ==> r is None && final(s)@ == old(s)@,
        old(s)@.len() > 0 ==> r == Some(old(s)@.last()) && final(s)@ == old(s)@.drop_last(),
{
    s.pop()
}

/// The decimal notation of `n` is made of digits, starts with a digit other
/// than `0` when `n` is not zero, and has the value `n`.
pub proof fn lemma_nat_text(n: nat)
    ensures
        nat_text(n).len() >= 1,
        forall|k: int| 0 <= k < nat_text(n).len() ==> is_digit(#[trigger] nat_text(n)[k]),
        n >= 1 ==> '1' <= nat_text(n)[0] && nat_text(n)[0] <= '9',
        digits_value(nat_text(n)) == n,
    decreases n,
{
    if n >= 10 {
        lemma_nat_text(n / 10);
        let s = nat_text(n / 10);
        let c = digit_char(n as int % 10);
        assert(s.push(c).drop_last() =~= s);
        assert(s.push(c)[0] == s[0]);
        vstd::arithmetic::div_mod::lemma_fundamental_div_mod(n as int, 10);
        assert(digit_value(c) == n as int % 10);
        assert(digits_value(s.push(c)) == digits_value(s) * 10 + digit_value(c));
        assert(forall|k: int| 0 <= k < s.len() ==> s.push(c)[k] == s[k]);
        assert(nat_text(n) == s.push(c));
        assert(digits_value(s) == n / 10);
        assert((n / 10) * 10 + n % 10 == n);
        assert(digits_value(nat_text(n)) == n);
    } else {
        let c = digit_char(n as int);
        assert(seq![c].drop_last() =~= Seq::<char>::empty());
        assert(digit_value(c) == n as int);
        assert(nat_text(n) == seq![c]);
        assert(seq![c].last() == c);
        assert(digits_value(Seq::<char>::empty()) == 0);
        assert(digits_value(nat_text(n)) == n);
    }
}

} // verus!
