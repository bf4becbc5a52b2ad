//! Character-level models of the string operations the library relies on:
//! whitespace trimming, decimal integer syntax, and splitting on spaces.

use std::num::ParseIntError;
use vstd::prelude::*;

verus! {

#[verifier::external_type_specification]
#[verifier::external_body]
pub struct ExParseIntError(ParseIntError);

/// The characters of the Unicode `White_Space` property.
pub open spec fn is_white_space(c: char) -> bool {
    let u = c as u32;
    ||| 0x9 <= u <= 0xd
    ||| u == 0x20
    ||| u == 0x85
    ||| u == 0xa0
    ||| u == 0x1680
    ||| 0x2000 <= u <= 0x200a
    ||| u == 0x2028
    ||| u == 0x2029
    ||| u == 0x202f
    ||| u == 0x205f
    ||| u == 0x3000
}

/// `s` without its leading white space.
pub open spec fn trim_start(s: Seq<char>) -> Seq<char>
    decreases s.len(),
{
    if s.len() > 0 && is_white_space(s[0]) {
        trim_start(s.drop_first())
    } else {
        s
    }
}

/// `s` without its trailing white space.
pub open spec fn trim_end(s: Seq<char>) -> Seq<char>
    decreases s.len(),
{
    if s.len() > 0 && is_white_space(s.last()) {
        trim_end(s.drop_last())
    } else {
        s
    }
}

/// `s` without leading and trailing white space.
pub open spec fn trimmed(s: Seq<char>) -> Seq<char> {
    trim_end(trim_start(s))
}

/// `str::trim`: the slice of `s` without its leading and trailing characters of
/// the Unicode `White_Space` property.
#[verifier::external_body]
pub(crate) fn trim(s: &str) -> (t: &str)
    ensures
        t@ == trimmed(s@),
{
    s.trim()
}

pub open spec fn is_decimal_digit(c: char) -> bool {
    '0' <= c <= '9'
}

/// A non-empty run of ASCII decimal digits.
pub open spec fn is_digit_run(ds: Seq<char>) -> bool {
    &&& ds.len() > 0
    &&& forall|i: int| 0 <= i < ds.len() ==> is_decimal_digit(#[trigger] ds[i])
}

/// The value of a run of decimal digits, most significant first.
pub open spec fn digits_value(ds: Seq<char>) -> nat
    decreases ds.len(),
{
    if ds.len() == 0 {
        0
    } else {
        digits_value(ds.drop_last()) * 10 + (ds.last() as nat - '0' as nat) as nat
    }
}

/// The integer written by `s` in decimal: an optional `+` or `-` followed by
/// one or more ASCII digits, nothing else.
pub open spec fn signed_decimal(s: Seq<char>) -> Option<int> {
    if s.len() > 0 && s[0] == '-' {
        if is_digit_run(s.drop_first()) {
            Some(-(digits_value(s.drop_first()) as int))
        } else {
            None
        }
    } else if s.len() > 0 && s[0] == '+' {
        if is_digit_run(s.drop_first()) {
            Some(digits_value(s.drop_first()) as int)
        } else {
            None
        }
    } else if is_digit_run(s) {
        Some(digits_value(s) as int)
    } else {
        None
    }
}

/// The natural number written by `s` in decimal: an optional `+` followed by
/// one or more ASCII digits, nothing else.
pub open spec fn unsigned_decimal(s: Seq<char>) -> Option<nat> {
    if s.len() > 0 && s[0] == '+' {
        if is_digit_run(s.drop_first()) {
            Some(digits_value(s.drop_first()))
        } else {
            None
        }
    } else if is_digit_run(s) {
        Some(digits_value(s))
    } else {
        None
    }
}

/// The `i64` that `s` writes in decimal, if it writes one in range.
pub open spec fn i64_value(s: Seq<char>) -> Option<i64> {
    match signed_decimal(s) {
        Some(v) => if i64::MIN <= v <= i64::MAX {
            Some(v as i64)
        } else {
            None
        },
        None => None,
    }
}

/// The `usize` that `s` writes in decimal, if it writes one in range.
pub open spec fn usize_value(s: Seq<char>) -> Option<usize> {
    match unsigned_decimal(s) {
        Some(v) => if v <= usize::MAX {
            Some(v as usize)
        } else {
            None
        },
        None => None,
    }
}

/// The text that std's `ParseIntError` displays when `s` does not parse as an
/// `i64`. Std's documentation names the kinds of error but not their text.
pub uninterp spec fn i64_parse_error_text(s: Seq<char>) -> Seq<char>;

/// `<i64 as FromStr>::from_str` (through `str::parse`), with the error turned
/// into its displayed text: succeeds exactly on an optional sign followed by
/// decimal digits whose value fits in `i64`, and then returns that value;
/// otherwise the text of the error, which depends on `s` alone.
#[verifier::external_body]
pub(crate) fn parse_i64(s: &str) -> (r: Result<i64, String>)
    ensures
        r is Ok <==> i64_value(s@) is Some,
        r matches Ok(v) ==> i64_value(s@) == Some(v),
        r matches Err(m) ==> m@ == i64_parse_error_text(s@),
{
    s.parse::<i64>().map_err(|e| e.to_string())
}

/// `<usize as FromStr>::from_str` (through `str::parse`): succeeds exactly on an
/// optional `+` followed by decimal digits whose value fits in `usize`, and then
/// returns that value. What the error holds is not stated.
#[verifier::external_body]
pub(crate) fn parse_usize(s: &str) -> (r: Result<usize, ParseIntError>)
    ensures
        r is Ok <==> usize_value(s@) is Some,
        r matches Ok(v) ==> usize_value(s@) == Some(v),
{
    s.parse::<usize>()
}

/// Index of the first space in `s` at or after `k`, or `s.len()` if none.
pub open spec fn space_from(s: Seq<char>, k: int) -> int
    decreases s.len() - k,
{
    if k >= s.len() {
        s.len() as int
    } else if s[k] == ' ' {
        k
    } else {
        space_from(s, k + 1)
    }
}

/// `s` split on single spaces into at most three pieces, the last piece keeping
/// any further spaces.
pub open spec fn split_three(s: Seq<char>) -> Seq<Seq<char>> {
    let i = space_from(s, 0);
    if i >= s.len() {
        seq![s]
    } else {
        let j = space_from(s, i + 1);
        if j >= s.len() {
            seq![s.take(i), s.subrange(i + 1, s.len() as int)]
        } else {
            seq![s.take(i), s.subrange(i + 1, j), s.subrange(j + 1, s.len() as int)]
        }
    }
}

proof fn lemma_trim_start_front(x: Seq<char>)
    ensures
        trim_start(x).len() > 0 ==> !is_white_space(trim_start(x)[0]),
    decreases x.len(),
{
    if x.len() > 0 && is_white_space(x[0]) {
        lemma_trim_start_front(x.drop_first());
    }
}

proof fn lemma_trim_end_prefix(x: Seq<char>)
    ensures
        trim_end(x).len() <= x.len(),
        trim_end(x) == x.take(trim_end(x).len() as int),
        trim_end(x).len() > 0 ==> !is_white_space(trim_end(x).last()),
    decreases x.len(),
{
    if x.len() > 0 && is_white_space(x.last()) {
        lemma_trim_end_prefix(x.drop_last());
        assert(x.drop_last().take(trim_end(x).len() as int) =~= x.take(trim_end(x).len() as int));
    } else {
        assert(x.take(x.len() as int) =~= x);
    }
}

/// Trimming twice is trimming once.
pub proof fn lemma_trimmed_twice(s: Seq<char>)
    ensures
        trimmed(trimmed(s)) == trimmed(s),
{
    let x = trim_start(s);
    let z = trim_end(x);
    lemma_trim_start_front(s);
    lemma_trim_end_prefix(x);
    if z.len() > 0 {
        assert(z[0] == x[0]);
    }
    assert(trim_start(z) == z);
    lemma_trim_end_prefix(z);
    assert(trim_end(z) == z);
}

/// The decimal digit character of `d < 10`.
pub open spec fn digit_char(d: nat) -> char {
    if d == 0 {
        '0'
    } else if d == 1 {
        '1'
    } else if d == 2 {
        '2'
    } else if d == 3 {
        '3'
    } else if d == 4 {
        '4'
    } else if d == 5 {
        '5'
    } else if d == 6 {
        '6'
    } else if d == 7 {
        '7'
    } else if d == 8 {
        '8'
    } else {
        '9'
    }
}

/// The decimal digits of `m`, most significant first, without leading zeros.
pub open spec fn digits_of(m: nat) -> Seq<char>
    decreases m,
{
    if m < 10 {
        seq![digit_char(m)]
    } else {
        digits_of(m / 10).push(digit_char(m % 10))
    }
}

/// How `v` is written in decimal: a `-` for a negative number, then its digits.
pub open spec fn decimal_text(v: int) -> Seq<char> {
    if v < 0 {
        seq!['-'] + digits_of((-v) as nat)
    } else {
        digits_of(v as nat)
    }
}

proof fn lemma_digit_char(d: nat)
    requires
        d < 10,
    ensures
        is_decimal_digit(digit_char(d)),
        digit_char(d) as nat - '0' as nat == d,
{
}

proof fn lemma_digits_of(m: nat)
    ensures
        is_digit_run(digits_of(m)),
        digits_value(digits_of(m)) == m,
    decreases m,
{
    let d = digits_of(m);
    if m >= 10 {
        lemma_digits_of(m / 10);
        lemma_digit_char(m % 10);
        assert(d.drop_last() =~= digits_of(m / 10));
        assert(d.last() == digit_char(m % 10));
        assert forall|i: int| 0 <= i < d.len() implies is_decimal_digit(#[trigger] d[i]) by {
            if i < d.len() - 1 {
                assert(d[i] == digits_of(m / 10)[i]);
            }
        }
        assert((m / 10) * 10 + m % 10 == m);
    } else {
        lemma_digit_char(m);
        assert(d.drop_last() =~= Seq::<char>::empty());
        assert(digits_value(d.drop_last()) == 0);
    }
}

/// A number's decimal text reads back as that number, and has no white space
/// at either end.
pub proof fn lemma_decimal_round_trip(v: int)
    ensures
        signed_decimal(decimal_text(v)) == Some(v),
        trimmed(decimal_text(v)) == decimal_text(v),
        forall|i: int|
            0 <= i < decimal_text(v).len() ==> #[trigger] decimal_text(v)[i] != ' ',
{
    let t = decimal_text(v);
    if v < 0 {
        lemma_digits_of((-v) as nat);
        assert(t.drop_first() =~= digits_of((-v) as nat));
        assert forall|i: int| 0 <= i < t.len() implies #[trigger] t[i] != ' ' by {
            if i > 0 {
                assert(t[i] == digits_of((-v) as nat)[i - 1]);
            }
        }
    } else {
        lemma_digits_of(v as nat);
    }
    assert(t.len() > 0);
    assert(!is_white_space(t[0]));
    assert(trim_start(t) == t);
    assert(!is_white_space(t.last()));
    assert(trim_end(t) == t);
}

/// The first space at or after `k` is at `m` when there is none between.
pub proof fn lemma_space_at(s: Seq<char>, k: int, m: int)
    requires
        0 <= k <= m < s.len(),
        s[m] == ' ',
        forall|i: int| k <= i < m ==> s[i] != ' ',
    ensures
        space_from(s, k) == m,
    decreases m - k,
{
    if k < m {
        lemma_space_at(s, k + 1, m);
    }
}

/// The characters of `s`, in order.
pub fn chars_of(s: &str) -> (cs: Vec<char>)
    ensures
        cs@ == s@,
{
    let mut cs: Vec<char> = Vec::new();
    for c in it: s.chars()
        invariant
            it.seq() == s@,
            cs@ == it.seq().take(it.index()),
    {
        cs.push(c);
    }
    cs
}

/// The first index at or after `k` that holds a space, or `cs.len()`.
pub fn find_space(cs: &Vec<char>, k: usize) -> (r: usize)
    requires
        k <= cs.len(),
    ensures
        r == space_from(cs@, k as int),
        k <= r <= cs.len(),
{
    let mut i = k;
    while i < cs.len() && cs[i] != ' '
        invariant
            k <= i <= cs.len(),
            space_from(cs@, i as int) == space_from(cs@, k as int),
        decreases cs.len() - i,
    {
        i = i + 1;
    }
    i
}

/// Whether `s` is exactly the one character `c`.
pub fn is_just(s: &str, c: char) -> (b: bool)
    ensures
        b == (s@ == seq![c]),
{
    if s.unicode_len() == 1 {
        let d = s.get_char(0);
        assert(s@ == seq![c] <==> d == c) by {
            if d == c {
                assert(s@ =~= seq![c]);
            }
        }
        d == c
    } else {
        false
    }
}


/// Whether `a` and `b` hold the same characters.
pub fn same_text(a: &str, b: &str) -> (r: bool)
    ensures
        r == (a@ == b@),
{
    let x = chars_of(a);
    let y = chars_of(b);
    if x.len() != y.len() {
        return false;
    }
    let mut i: usize = 0;
    while i < x.len()
        invariant
            x@ == a@,
            y@ == b@,
            x.len() == y.len(),
            i <= x.len(),
            forall|k: int| 0 <= k < i ==> x@[k] == y@[k],
        decreases x.len() - i,
    {
        if x[i] != y[i] {
            return false;
        }
        i = i + 1;
    }
    assert(x@ =~= y@);
    true
}

} // verus!
