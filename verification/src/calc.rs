//! Ownership, slice and checked-arithmetic helpers, and an evaluator for
//! expressions of the form `a op b`.

use vstd::prelude::*;
use vstd::string::StringExecFns;
use vstd::string::StringSliceAdditionalSpecFns;
use vstd::string::StrSliceExecFns;

use crate::text::{
    chars_of, decimal_text, find_space, i64_parse_error_text, i64_value, is_just,
    is_white_space, lemma_decimal_round_trip, lemma_space_at, lemma_trimmed_twice, parse_i64,
    split_three, trim, trim_end, trim_start, trimmed,
};

verus! {

/// Errors of parsing and computing.
#[derive(Debug, PartialEq, Eq, Clone)]
pub enum MathError {
    /// Division by zero.
    DivisionByZero,
    /// The result does not fit in `i64`.
    Overflow,
    /// The input is not of the expected form; the text says why.
    InvalidInput(String),
}

/// The text shown for an error.
pub open spec fn error_message(e: MathError) -> Seq<char> {
    match e {
        MathError::DivisionByZero => "除以零錯誤"@,
        MathError::Overflow => "整數溢位"@,
        MathError::InvalidInput(s) => "無效輸入: "@ + s@,
    }
}

impl MathError {
    /// The text shown for this error.
    pub fn message(&self) -> (m: String)
        ensures
            m@ == error_message(*self),
    {
        match self {
            MathError::DivisionByZero => String::from_str("除以零錯誤"),
            MathError::Overflow => String::from_str("整數溢位"),
            MathError::InvalidInput(s) => {
                let mut m = String::from_str("無效輸入: ");
                m.append(s.as_str());
                m
            },
        }
    }
}

/// Number of bytes in the UTF-8 encoding of `s`.
pub fn string_length(s: &str) -> (n: usize)
    ensures
        n == s.spec_bytes().len(),
{
    s.as_bytes().len()
}

/// `s1` followed by `s2`, reusing the buffer of `s1`.
pub fn concat_strings(s1: String, s2: &str) -> (r: String)
    ensures
        r@ == s1@ + s2@,
{
    let mut s1 = s1;
    s1.append(s2);
    s1
}

/// Sum of the elements, added from the left.
pub open spec fn sum_of(s: Seq<i64>) -> int
    decreases s.len(),
{
    if s.len() == 0 {
        0
    } else {
        sum_of(s.drop_last()) + s.last()
    }
}

/// Every running sum of `s`, taken from the left, fits in `i64`.
pub open spec fn running_sums_fit(s: Seq<i64>) -> bool {
    forall|k: int| 0 <= k <= s.len() ==> i64::MIN <= #[trigger] sum_of(s.take(k)) <= i64::MAX
}

/// The sum of two slices put together is the sum of their sums.
pub proof fn lemma_sum_concat(a: Seq<i64>, b: Seq<i64>)
    ensures
        sum_of(a + b) == sum_of(a) + sum_of(b),
    decreases b.len(),
{
    if b.len() == 0 {
        assert(a + b =~= a);
    } else {
        lemma_sum_concat(a, b.drop_last());
        assert((a + b).drop_last() =~= a + b.drop_last());
    }
}

proof fn lemma_sum_remove(p: Seq<i64>, i: int)
    requires
        0 <= i < p.len(),
    ensures
        sum_of(p) == sum_of(p.remove(i)) + p[i],
{
    let l = p.take(i);
    let r = p.skip(i + 1);
    assert(p =~= l + seq![p[i]] + r);
    assert(p.remove(i) =~= l + r);
    lemma_sum_concat(l + seq![p[i]], r);
    lemma_sum_concat(l, seq![p[i]]);
    lemma_sum_concat(l, r);
    assert(seq![p[i]].drop_last() =~= Seq::<i64>::empty());
    assert(sum_of(Seq::<i64>::empty()) == 0);
    assert(sum_of(seq![p[i]]) == p[i]);
}

/// The sum does not depend on the order of the elements.
pub proof fn lemma_sum_permutation(a: Seq<i64>, p: Seq<i64>)
    requires
        a.to_multiset() == p.to_multiset(),
    ensures
        sum_of(a) == sum_of(p),
    decreases a.len(),
{
    a.to_multiset_ensures();
    p.to_multiset_ensures();
    if a.len() == 0 {
        assert(p.len() == 0);
    } else {
        let x = a.last();
        let rest = a.drop_last();
        rest.to_multiset_ensures();
        assert(rest.push(x) =~= a);
        assert(a.to_multiset() == rest.to_multiset().insert(x));
        assert(p.to_multiset().count(x) > 0);
        assert(p.contains(x));
        let i = choose|i: int| 0 <= i < p.len() && p[i] == x;
        assert(p.remove(i).to_multiset() == p.to_multiset().remove(x));
        assert(rest.to_multiset() =~= p.remove(i).to_multiset());
        lemma_sum_permutation(rest, p.remove(i));
        lemma_sum_remove(p, i);
    }
}

/// Sum of the elements, added from the left.
pub fn sum_slice(nums: &[i64]) -> (total: i64)
    requires
        running_sums_fit(nums@),
    ensures
        total == sum_of(nums@),
{
    let mut total: i64 = 0;
    let mut i: usize = 0;
    assert(nums@.take(0) =~= Seq::<i64>::empty());
    while i < nums.len()
        invariant
            i <= nums.len(),
            running_sums_fit(nums@),
            total == sum_of(nums@.take(i as int)),
        decreases nums.len() - i,
    {
        assert(nums@.take(i + 1).drop_last() =~= nums@.take(i as int));
        assert(i64::MIN <= sum_of(nums@.take(i + 1)) <= i64::MAX);
        total = total + nums[i];
        i = i + 1;
    }
    assert(nums@.take(nums@.len() as int) =~= nums@);
    total
}

/// `x` is even.
pub open spec fn is_even(x: i64) -> bool {
    x % 2 == 0
}

/// Every even element of `s`, multiplied by `m`, fits in `i64`.
pub open spec fn even_products_fit(s: Seq<i64>, m: i64) -> bool {
    forall|i: int|
        0 <= i < s.len() && is_even(s[i]) ==> i64::MIN <= #[trigger] s[i] * m <= i64::MAX
}

/// The even elements of `s`, in order, each multiplied by `m`.
pub open spec fn evens_times(s: Seq<i64>, m: i64) -> Seq<i64> {
    s.filter(|x: i64| is_even(x)).map_values(|x: i64| (x * m) as i64)
}

/// The even elements of `nums`, in order, each multiplied by `multiplier`.
pub fn filter_and_multiply_evens(nums: &[i64], multiplier: i64) -> (r: Vec<i64>)
    requires
        even_products_fit(nums@, multiplier),
    ensures
        r@ == evens_times(nums@, multiplier),
{
    let mut r: Vec<i64> = Vec::new();
    let mut i: usize = 0;
    proof {
        reveal(Seq::filter);
        assert(nums@.take(0) =~= Seq::<i64>::empty());
        assert(r@ =~= evens_times(nums@.take(0), multiplier));
    }
    while i < nums.len()
        invariant
            i <= nums.len(),
            even_products_fit(nums@, multiplier),
            r@ == evens_times(nums@.take(i as int), multiplier),
        decreases nums.len() - i,
    {
        let x = nums[i];
        proof {
            reveal(Seq::filter);
            assert(nums@.take(i + 1).drop_last() =~= nums@.take(i as int));
            assert(nums@.take(i + 1).last() == x);
        }
        if x % 2 == 0 {
            assert(is_even(x));
            r.push(x * multiplier);
            assert(r@ =~= evens_times(nums@.take(i + 1), multiplier));
        } else {
            assert(r@ =~= evens_times(nums@.take(i + 1), multiplier));
        }
        i = i + 1;
    }
    assert(nums@.take(nums@.len() as int) =~= nums@);
    r
}

/// `a / b` rounded toward zero.
pub open spec fn quotient(a: int, b: int) -> int {
    let q = (if a < 0 { -a } else { a }) / (if b < 0 { -b } else { b });
    if (a < 0) == (b < 0) { q } else { -q }
}

proof fn lemma_quotient_fits(a: i64, b: i64)
    requires
        b != 0,
        !(a == i64::MIN && b == -1),
    ensures
        in_i64(quotient(a as int, b as int)),
{
    let x: int = if a < 0 { -a } else { a as int };
    let y: int = if b < 0 { -b } else { b as int };
    assert(0 <= x / y <= x) by (nonlinear_arith)
        requires
            x >= 0,
            y >= 1,
    ;
    if y == 1 {
        assert(x / y == x) by (nonlinear_arith)
            requires
                y == 1,
        ;
    } else {
        assert(x / y <= x / 2) by (nonlinear_arith)
            requires
                x >= 0,
                y >= 2,
        ;
    }
}

/// `a / b` rounded toward zero; division by zero is an error, and so is the one
/// quotient that does not fit in `i64`, `i64::MIN / -1`.
pub fn safe_divide(a: i64, b: i64) -> (r: Result<i64, MathError>)
    ensures
        b == 0 ==> r == Err::<i64, MathError>(MathError::DivisionByZero),
        b != 0 && in_i64(quotient(a as int, b as int)) ==> r == Ok::<i64, MathError>(
            quotient(a as int, b as int) as i64,
        ),
        b != 0 && !in_i64(quotient(a as int, b as int)) ==> r == Err::<i64, MathError>(
            MathError::Overflow,
        ),
        b != 0 && !in_i64(quotient(a as int, b as int)) ==> a == i64::MIN && b == -1,
{
    if b == 0 {
        Err(MathError::DivisionByZero)
    } else {
        proof {
            if !(a == i64::MIN && b == -1) {
                lemma_quotient_fits(a, b);
            }
        }
        match a.checked_div(b) {
            Some(q) => Ok(q),
            None => Err(MathError::Overflow),
        }
    }
}

/// `a + b`, or an overflow error when the sum does not fit in `i64`.
pub fn safe_add(a: i64, b: i64) -> (r: Result<i64, MathError>)
    ensures
        i64::MIN <= a + b <= i64::MAX ==> r == Ok::<i64, MathError>((a + b) as i64),
        !(i64::MIN <= a + b <= i64::MAX) ==> r == Err::<i64, MathError>(MathError::Overflow),
{
    match a.checked_add(b) {
        Some(v) => Ok(v),
        None => Err(MathError::Overflow),
    }
}

/// The `i64` that `s` writes in decimal once surrounding white space is removed.
pub open spec fn integer_in(s: Seq<char>) -> Option<i64> {
    i64_value(trimmed(s))
}

/// The integer written in `s`, ignoring surrounding white space; anything else
/// is an invalid input, with the parser's error text for the trimmed text.
pub fn parse_integer(s: &str) -> (r: Result<i64, MathError>)
    ensures
        integer_in(s@) matches Some(v) ==> r == Ok::<i64, MathError>(v),
        integer_in(s@) is None ==> (r matches Err(MathError::InvalidInput(m)) && m@
            == i64_parse_error_text(trimmed(s@))),
{
    match parse_i64(trim(s)) {
        Ok(v) => Ok(v),
        Err(m) => Err(MathError::InvalidInput(m)),
    }
}

/// White space around a number changes nothing: the integer, and the error
/// text, that `parse_integer` gives for `s` are those it gives for `s` trimmed.
pub proof fn lemma_parse_ignores_surrounding_space(s: Seq<char>)
    ensures
        integer_in(trimmed(s)) == integer_in(s),
        trimmed(trimmed(s)) == trimmed(s),
        i64_parse_error_text(trimmed(trimmed(s))) == i64_parse_error_text(trimmed(s)),
{
    lemma_trimmed_twice(s);
}

/// Every `i64`, written in decimal, parses back as itself.
pub proof fn lemma_parse_decimal(v: i64)
    ensures
        integer_in(decimal_text(v as int)) == Some(v),
{
    lemma_decimal_round_trip(v as int);
}

/// The text `a op b` with single spaces, the numbers in decimal.
pub open spec fn formatted(a: i64, op: char, b: i64) -> Seq<char> {
    decimal_text(a as int) + seq![' ', op, ' '] + decimal_text(b as int)
}

/// What `a op b` comes to for the four operators: the checked sum,
/// difference and product, and the checked quotient rounded toward zero.
pub open spec fn arithmetic(a: i64, op: char, b: i64) -> Evaluation {
    if op == '+' {
        checked(a + b)
    } else if op == '-' {
        checked(a - b)
    } else if op == '*' {
        checked(a * b)
    } else if b == 0 {
        Evaluation::DivisionByZero
    } else {
        checked(quotient(a as int, b as int))
    }
}

/// Evaluating two numbers written in decimal around an operator gives the
/// checked arithmetic of the operator, as `safe_add`, checked multiplication
/// and `safe_divide` compute it.
pub proof fn lemma_evaluate_formatted(a: i64, op: char, b: i64)
    requires
        op == '+' || op == '-' || op == '*' || op == '/',
    ensures
        evaluation(formatted(a, op, b)) == arithmetic(a, op, b),
{
    let ta = decimal_text(a as int);
    let tb = decimal_text(b as int);
    let f = formatted(a, op, b);
    lemma_decimal_round_trip(a as int);
    lemma_decimal_round_trip(b as int);
    lemma_parse_decimal(a);
    lemma_parse_decimal(b);
    let la = ta.len() as int;
    assert(f[0] == ta[0]);
    assert(f.last() == tb.last());
    assert(!is_white_space(f[0]));
    assert(!is_white_space(f.last()));
    assert(trim_start(f) == f);
    assert(trim_end(f) == f);
    assert(trimmed(f) == f);
    assert forall|i: int| 0 <= i < la implies f[i] != ' ' by {
        assert(f[i] == ta[i]);
    }
    lemma_space_at(f, 0, la);
    assert(f[la + 1] == op);
    lemma_space_at(f, la + 1, la + 2);
    let p = pieces(f);
    assert(p[0] =~= ta);
    assert(p[1] =~= seq![op]);
    assert(p[2] =~= tb);
    assert(integer_in(p[0]) == Some(a));
    assert(integer_in(p[2]) == Some(b));
    assert(seq![op][0] == op);
    assert(seq!['+'][0] == '+');
    assert(seq!['-'][0] == '-');
    assert(seq!['*'][0] == '*');
    assert(seq!['/'][0] == '/');
}

/// What evaluating an expression comes to.
pub enum Evaluation {
    /// The value of the expression.
    Value(i64),
    /// A division by zero.
    DivisionByZero,
    /// A result that does not fit in `i64`.
    Overflow,
    /// A malformed expression, with the text of the error.
    Malformed(Seq<char>),
    /// An operand that is not an `i64` in decimal, with the parser's error
    /// text for the first such operand.
    BadOperand(Seq<char>),
}

/// The text of the error for an expression that is not of the form `a op b`.
pub open spec fn format_message(expr: Seq<char>) -> Seq<char> {
    "格式錯誤，期望 'a op b'，收到: '"@ + expr + "'"@
}

/// The text of the error for an operator other than `+ - * /`.
pub open spec fn operator_message(op: Seq<char>) -> Seq<char> {
    "不支援的運算符: '"@ + op + "'"@
}

/// `v` fits in `i64`.
pub open spec fn in_i64(v: int) -> bool {
    i64::MIN <= v <= i64::MAX
}

/// The value `v`, or an overflow when it does not fit in `i64`.
pub open spec fn checked(v: int) -> Evaluation {
    if in_i64(v) {
        Evaluation::Value(v as i64)
    } else {
        Evaluation::Overflow
    }
}

/// The three pieces `a op b` of an expression, after trimming it, when it has them.
pub open spec fn pieces(expr: Seq<char>) -> Seq<Seq<char>> {
    split_three(trimmed(expr))
}

/// What `expr` evaluates to: its trimmed text is split at its first two spaces
/// into `a`, `op` and `b`; `a` and then `b` must be decimal `i64`s (surrounding
/// white space aside), the first that is not giving its parse error, and `op`
/// one of `+ - * /`.
pub open spec fn evaluation(expr: Seq<char>) -> Evaluation {
    let p = pieces(expr);
    if p.len() != 3 {
        Evaluation::Malformed(format_message(expr))
    } else {
        match (integer_in(p[0]), integer_in(p[2])) {
            (Some(a), Some(b)) => {
                let op = p[1];
                if op == seq!['+'] {
                    checked(a + b)
                } else if op == seq!['-'] {
                    checked(a - b)
                } else if op == seq!['*'] {
                    checked(a * b)
                } else if op == seq!['/'] {
                    if b == 0 {
                        Evaluation::DivisionByZero
                    } else {
                        checked(quotient(a as int, b as int))
                    }
                } else {
                    Evaluation::Malformed(operator_message(op))
                }
            },
            (None, _) => Evaluation::BadOperand(i64_parse_error_text(trimmed(p[0]))),
            (Some(_), None) => Evaluation::BadOperand(i64_parse_error_text(trimmed(p[2]))),
        }
    }
}

/// `r` is what `e` says.
pub open spec fn reports(r: Result<i64, MathError>, e: Evaluation) -> bool {
    match e {
        Evaluation::Value(v) => r == Ok::<i64, MathError>(v),
        Evaluation::DivisionByZero => r == Err::<i64, MathError>(MathError::DivisionByZero),
        Evaluation::Overflow => r == Err::<i64, MathError>(MathError::Overflow),
        Evaluation::Malformed(m) => r matches Err(MathError::InvalidInput(t)) && t@ == m,
        Evaluation::BadOperand(m) => r matches Err(MathError::InvalidInput(t)) && t@ == m,
    }
}

/// An invalid-input error whose text is `prefix`, `middle` and a closing quote.
fn invalid(prefix: &str, middle: &str) -> (e: MathError)
    ensures
        e matches MathError::InvalidInput(t) && t@ == prefix@ + middle@ + "'"@,
{
    let mut t = String::from_str(prefix);
    t.append(middle);
    t.append("'");
    MathError::InvalidInput(t)
}

/// Evaluates `a op b` for `op` in `+ - * /`, with checked arithmetic.
pub fn evaluate_expression(expr: &str) -> (r: Result<i64, MathError>)
    ensures
        reports(r, evaluation(expr@)),
{
    let t = trim(expr);
    let cs = chars_of(t);
    let n = cs.len();
    let i = find_space(&cs, 0);
    if i == n {
        return Err(invalid("格式錯誤，期望 'a op b'，收到: '", expr));
    }
    let j = find_space(&cs, i + 1);
    if j == n {
        return Err(invalid("格式錯誤，期望 'a op b'，收到: '", expr));
    }
    let p0 = t.substring_char(0, i);
    let op = t.substring_char(i + 1, j);
    let p2 = t.substring_char(j + 1, n);
    proof {
        let p = pieces(expr@);
        assert(p.len() == 3);
        assert(p[0] == p0@);
        assert(p[1] == op@);
        assert(p[2] == p2@);
    }
    let a = match parse_integer(p0) {
        Ok(v) => v,
        Err(e) => return Err(e),
    };
    let b = match parse_integer(p2) {
        Ok(v) => v,
        Err(e) => return Err(e),
    };
    if is_just(op, '+') {
        safe_add(a, b)
    } else if is_just(op, '-') {
        match a.checked_sub(b) {
            Some(v) => Ok(v),
            None => Err(MathError::Overflow),
        }
    } else if is_just(op, '*') {
        match a.checked_mul(b) {
            Some(v) => Ok(v),
            None => Err(MathError::Overflow),
        }
    } else if is_just(op, '/') {
        safe_divide(a, b)
    } else {
        Err(invalid("不支援的運算符: '", op))
    }
}

} // verus!
