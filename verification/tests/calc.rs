use final_project::calc::{
    concat_strings, evaluate_expression, filter_and_multiply_evens, parse_integer, safe_add,
    safe_divide, string_length, sum_slice, MathError,
};

#[test]
fn test_string_length_basic() {
    assert_eq!(string_length("rust"), 4);
    assert_eq!(string_length(""), 0);
}

#[test]
fn test_concat_does_not_duplicate_alloc() {
    let s = String::from("foo");
    let result = concat_strings(s, "bar");
    assert_eq!(result, "foobar");
}

#[test]
fn test_sum_large_slice() {
    let v: Vec<i64> = (1..=100).collect();
    assert_eq!(sum_slice(&v), 5050);
}

#[test]
fn test_filter_multiply_negative_numbers() {
    let result = filter_and_multiply_evens(&[-4, -3, -2, 0, 1, 2], 2);
    assert_eq!(result, vec![-8, -4, 0, 4]);
}

#[test]
fn test_safe_divide_overflow_edge() {
    assert_eq!(evaluate_expression("50 - 75"), Ok(-25));
    assert_eq!(evaluate_expression("7 * 8"), Ok(56));
    assert_eq!(evaluate_expression("81 / 9"), Ok(9));
}

#[test]
fn test_evaluate_overflow_add() {
    let expr = format!("{} + 1", i64::MAX);
    assert_eq!(evaluate_expression(&expr), Err(MathError::Overflow));
}

#[test]
fn test_failed_wrong_result() {
    assert_eq!(safe_divide(10, 2), Ok(5));
}

#[test]
fn test_ignored_slow_operation() {
    assert_eq!(sum_slice(&(1..=10000).collect::<Vec<_>>()), 50005000);
}

#[test]
fn string_length_counts_bytes() {
    let s = String::from("Hello, Rust!");
    assert_eq!(string_length(&s), 12);
    assert_eq!(s, "Hello, Rust!");
    assert_eq!(string_length("票"), 3);
    assert_eq!(string_length("a😀"), 5);
}

#[test]
fn concat_strings_examples() {
    assert_eq!(concat_strings(String::from("Hello, "), "Rust!"), "Hello, Rust!");
    assert_eq!(concat_strings(String::from(""), ""), "");
}

#[test]
fn sum_slice_examples() {
    assert_eq!(sum_slice(&[1, 2, 3, 4, 5]), 15);
    assert_eq!(sum_slice(&[]), 0);
    assert_eq!(sum_slice(&[-3, 3]), 0);
    assert_eq!(sum_slice(&[i64::MAX, -1]), i64::MAX - 1);
}

#[test]
fn filter_and_multiply_examples() {
    assert_eq!(filter_and_multiply_evens(&[1, 2, 3, 4, 5, 6], 3), vec![6, 12, 18]);
    assert_eq!(filter_and_multiply_evens(&[1, 3, 5], 10), Vec::<i64>::new());
    assert_eq!(filter_and_multiply_evens(&[], 7), Vec::<i64>::new());
    assert_eq!(filter_and_multiply_evens(&[-7, 8], -1), vec![-8]);
}

#[test]
fn safe_divide_examples() {
    assert_eq!(safe_divide(10, 2), Ok(5));
    assert_eq!(safe_divide(7, 0), Err(MathError::DivisionByZero));
    assert_eq!(safe_divide(-9, 3), Ok(-3));
    assert_eq!(safe_divide(-7, 2), Ok(-3));
    assert_eq!(safe_divide(7, -2), Ok(-3));
    assert_eq!(safe_divide(-7, -2), Ok(3));
    assert_eq!(safe_divide(i64::MAX, -1), Ok(i64::MIN + 1));
}

#[test]
fn safe_add_examples() {
    assert_eq!(safe_add(100, 200), Ok(300));
    assert_eq!(safe_add(i64::MAX, 1), Err(MathError::Overflow));
    assert_eq!(safe_add(i64::MIN, -1), Err(MathError::Overflow));
    assert_eq!(safe_add(i64::MIN, i64::MAX), Ok(-1));
}

#[test]
fn parse_integer_examples() {
    assert_eq!(parse_integer("42"), Ok(42));
    assert_eq!(parse_integer("-7"), Ok(-7));
    assert_eq!(parse_integer("  +13\t\n"), Ok(13));
    assert_eq!(parse_integer("\u{3000}5"), Ok(5));
    assert_eq!(parse_integer("-9223372036854775808"), Ok(i64::MIN));
    assert!(matches!(parse_integer("abc"), Err(MathError::InvalidInput(_))));
    assert!(matches!(parse_integer(""), Err(MathError::InvalidInput(_))));
    assert!(matches!(parse_integer("-"), Err(MathError::InvalidInput(_))));
    assert!(matches!(parse_integer("1_000"), Err(MathError::InvalidInput(_))));
    assert!(matches!(parse_integer("9223372036854775808"), Err(MathError::InvalidInput(_))));
}

#[test]
fn evaluate_expression_examples() {
    assert_eq!(evaluate_expression("10 + 5"), Ok(15));
    assert_eq!(evaluate_expression("10 - 3"), Ok(7));
    assert_eq!(evaluate_expression("4 * 6"), Ok(24));
    assert_eq!(evaluate_expression("15 / 3"), Ok(5));
    assert_eq!(evaluate_expression("10 / 0"), Err(MathError::DivisionByZero));
    assert!(matches!(evaluate_expression("abc + 1"), Err(MathError::InvalidInput(_))));
    assert!(matches!(evaluate_expression("1 % 2"), Err(MathError::InvalidInput(_))));
}

#[test]
fn evaluate_expression_edges() {
    assert_eq!(evaluate_expression("  -7 / 2  "), Ok(-3));
    assert_eq!(evaluate_expression("3037000500 * 3037000500"), Err(MathError::Overflow));
    assert_eq!(evaluate_expression("-9223372036854775808 - 1"), Err(MathError::Overflow));
    assert!(matches!(evaluate_expression("1 + 2 + 3"), Err(MathError::InvalidInput(_))));
    assert_eq!(
        evaluate_expression("1 +"),
        Err(MathError::InvalidInput(String::from("格式錯誤，期望 'a op b'，收到: '1 +'")))
    );
    assert_eq!(
        evaluate_expression(" 12 "),
        Err(MathError::InvalidInput(String::from("格式錯誤，期望 'a op b'，收到: ' 12 '")))
    );
    assert_eq!(
        evaluate_expression("1 % 2"),
        Err(MathError::InvalidInput(String::from("不支援的運算符: '%'")))
    );
    assert_eq!(
        evaluate_expression("1 plus 2"),
        Err(MathError::InvalidInput(String::from("不支援的運算符: 'plus'")))
    );
}

#[test]
fn math_error_messages() {
    assert_eq!(MathError::DivisionByZero.message(), "除以零錯誤");
    assert_eq!(MathError::Overflow.message(), "整數溢位");
    assert_eq!(MathError::InvalidInput(String::from("x")).message(), "無效輸入: x");
    assert_eq!(safe_add(10, i64::MAX).unwrap_err().message(), "整數溢位");
}

#[test]
fn safe_divide_min_by_minus_one_overflows() {
    assert_eq!(safe_divide(i64::MIN, -1), Err(MathError::Overflow));
    assert_eq!(safe_divide(i64::MIN, 1), Ok(i64::MIN));
    assert_eq!(safe_divide(i64::MIN, 2), Ok(i64::MIN / 2));
}

#[test]
fn evaluate_expression_overflow_traps() {
    assert_eq!(evaluate_expression("0 - -9223372036854775808"), Err(MathError::Overflow));
    assert_eq!(evaluate_expression("-9223372036854775808 / -1"), Err(MathError::Overflow));
    assert_eq!(evaluate_expression("-1 - -9223372036854775808"), Ok(i64::MAX));
    assert_eq!(evaluate_expression("-9223372036854775808 / 1"), Ok(i64::MIN));
}

#[test]
fn parse_integer_error_texts() {
    assert_eq!(
        parse_integer("abc"),
        Err(MathError::InvalidInput(String::from("invalid digit found in string")))
    );
    assert_eq!(
        parse_integer("9223372036854775808"),
        Err(MathError::InvalidInput(String::from("number too large to fit in target type")))
    );
    assert_eq!(
        parse_integer("-9223372036854775809"),
        Err(MathError::InvalidInput(String::from("number too small to fit in target type")))
    );
    assert_eq!(
        parse_integer(""),
        Err(MathError::InvalidInput(String::from("cannot parse integer from empty string")))
    );
    assert_eq!(
        parse_integer("   "),
        Err(MathError::InvalidInput(String::from("cannot parse integer from empty string")))
    );
}

#[test]
fn parse_integer_ignores_surrounding_space() {
    assert_eq!(parse_integer("  42\n"), Ok(42));
    assert_eq!(parse_integer("  42\n"), parse_integer("42"));
    assert_eq!(parse_integer(" x1 "), parse_integer("x1"));
    assert!(matches!(parse_integer("4 2"), Err(MathError::InvalidInput(_))));
}

#[test]
fn parse_integer_reads_back_decimal_text() {
    for n in [i64::MIN, i64::MIN + 1, -10, -1, 0, 1, 9, 10, 1234567890, i64::MAX] {
        assert_eq!(parse_integer(&n.to_string()), Ok(n));
    }
}

#[test]
fn evaluate_expression_of_formatted_operands() {
    let values = [i64::MIN, -7, -1, 0, 2, 3037000500, i64::MAX];
    for a in values {
        for b in values {
            assert_eq!(evaluate_expression(&format!("{a} + {b}")), safe_add(a, b));
            assert_eq!(
                evaluate_expression(&format!("{a} - {b}")),
                a.checked_sub(b).ok_or(MathError::Overflow)
            );
            assert_eq!(
                evaluate_expression(&format!("{a} * {b}")),
                a.checked_mul(b).ok_or(MathError::Overflow)
            );
            assert_eq!(evaluate_expression(&format!("{a} / {b}")), safe_divide(a, b));
        }
    }
}

#[test]
fn evaluate_expression_reports_first_bad_operand() {
    assert_eq!(
        evaluate_expression("abc + 1"),
        Err(MathError::InvalidInput(String::from("invalid digit found in string")))
    );
    assert_eq!(
        evaluate_expression("1 + 99999999999999999999"),
        Err(MathError::InvalidInput(String::from("number too large to fit in target type")))
    );
    assert_eq!(
        evaluate_expression("abc + 99999999999999999999"),
        Err(MathError::InvalidInput(String::from("invalid digit found in string")))
    );
    assert_eq!(
        evaluate_expression("99999999999999999999 + abc"),
        Err(MathError::InvalidInput(String::from("number too large to fit in target type")))
    );
    assert_eq!(
        evaluate_expression("abc % 1"),
        Err(MathError::InvalidInput(String::from("invalid digit found in string")))
    );
}
