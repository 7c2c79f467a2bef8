use ledger_engine::text::{
    eq_ignoring_case, parse_amount, parse_kind, parse_number, FRACTION_DIGITS, UNITS_PER_WHOLE,
};
use ledger_engine::transaction::{TransactionType, MAX_AMOUNT};

#[test]
fn kinds_are_read_in_any_case() {
    assert_eq!(parse_kind(b"deposit"), Some(TransactionType::Deposit));
    assert_eq!(parse_kind(b"withdrawal"), Some(TransactionType::Withdrawal));
    assert_eq!(parse_kind(b"dispute"), Some(TransactionType::Dispute));
    assert_eq!(parse_kind(b"resolve"), Some(TransactionType::Resolve));
    assert_eq!(parse_kind(b"chargeback"), Some(TransactionType::Chargeback));
    assert_eq!(parse_kind(b"DEPOSIT"), Some(TransactionType::Deposit));
    assert_eq!(parse_kind(b"WithDrawal"), Some(TransactionType::Withdrawal));
    assert_eq!(parse_kind(b"chargeBACK"), Some(TransactionType::Chargeback));
}

#[test]
fn other_words_are_no_kind() {
    assert_eq!(parse_kind(b""), None);
    assert_eq!(parse_kind(b"deposi"), None);
    assert_eq!(parse_kind(b"deposits"), None);
    assert_eq!(parse_kind(b" deposit"), None);
    assert_eq!(parse_kind(b"refund"), None);
    // `@` and backtick sit next to the letters and are not letters.
    assert_eq!(parse_kind(b"d\x45posit"), Some(TransactionType::Deposit));
    assert_eq!(parse_kind(b"d\x05posit"), None);
    assert_eq!(parse_kind(b"dispu\x14e"), None);
}

#[test]
fn case_is_ignored_for_letters_only() {
    assert!(eq_ignoring_case(b"aZ09", b"Az09"));
    assert!(eq_ignoring_case(b"", b""));
    assert!(!eq_ignoring_case(b"a", b"ab"));
    assert!(!eq_ignoring_case(b"@", b"`"));
    assert!(!eq_ignoring_case(b"[", b"{"));
    assert!(!eq_ignoring_case(b"0", b"\x10"));
}

#[test]
fn numbers_are_digits_within_the_limit() {
    assert_eq!(parse_number(b"0", 65535), Some(0));
    assert_eq!(parse_number(b"7", 65535), Some(7));
    assert_eq!(parse_number(b"65535", 65535), Some(65535));
    assert_eq!(parse_number(b"65536", 65535), None);
    assert_eq!(parse_number(b"0000000000000000000000000042", 65535), Some(42));
    assert_eq!(parse_number(b"4294967295", 4294967295), Some(4294967295));
    assert_eq!(parse_number(b"4294967296", 4294967295), None);
    assert_eq!(parse_number(b"18446744073709551615", u64::MAX), Some(u64::MAX));
    assert_eq!(parse_number(b"18446744073709551616", u64::MAX), None);
    assert_eq!(parse_number(b"99999999999999999999999999", u64::MAX), None);
    assert_eq!(parse_number(b"5", 4), None);
    assert_eq!(parse_number(b"0", 0), Some(0));
}

#[test]
fn numbers_take_nothing_but_digits() {
    assert_eq!(parse_number(b"", 65535), None);
    assert_eq!(parse_number(b"+5", 65535), None);
    assert_eq!(parse_number(b"-5", 65535), None);
    assert_eq!(parse_number(b"1a", 65535), None);
    assert_eq!(parse_number(b"a1", 65535), None);
    assert_eq!(parse_number(b"1 ", 65535), None);
    assert_eq!(parse_number(b"1.0", 65535), None);
    assert_eq!(parse_number(b"/", 65535), None);
    assert_eq!(parse_number(b":", 65535), None);
}

#[test]
fn amounts_are_counted_in_ten_thousandths() {
    assert_eq!(FRACTION_DIGITS, 4);
    assert_eq!(UNITS_PER_WHOLE, 10_000);
    assert_eq!(parse_amount(b"1"), Some(10_000));
    assert_eq!(parse_amount(b"1."), Some(10_000));
    assert_eq!(parse_amount(b"1.0"), Some(10_000));
    assert_eq!(parse_amount(b"1.5"), Some(15_000));
    assert_eq!(parse_amount(b"1.05"), Some(10_500));
    assert_eq!(parse_amount(b"1.005"), Some(10_050));
    assert_eq!(parse_amount(b"1.0005"), Some(10_005));
    assert_eq!(parse_amount(b"1.0001"), Some(10_001));
    assert_eq!(parse_amount(b"0.0001"), Some(1));
    assert_eq!(parse_amount(b"0"), Some(0));
    assert_eq!(parse_amount(b"0.0000"), Some(0));
    assert_eq!(parse_amount(b"20.0"), Some(200_000));
    assert_eq!(parse_amount(b"0012.3400"), Some(123_400));
    assert_eq!(parse_amount(b"2.742"), Some(27_420));
}

#[test]
fn amounts_stop_at_the_largest_the_ledger_takes() {
    assert_eq!(MAX_AMOUNT, 9_223_372_036_854_775_807);
    assert_eq!(parse_amount(b"922337203685477.5807"), Some(MAX_AMOUNT));
    assert_eq!(parse_amount(b"922337203685477.5808"), None);
    assert_eq!(parse_amount(b"922337203685477.58"), Some(MAX_AMOUNT - 7));
    assert_eq!(parse_amount(b"922337203685477"), Some(9_223_372_036_854_770_000));
    assert_eq!(parse_amount(b"922337203685478"), None);
    assert_eq!(parse_amount(b"1844674407370954"), None);
    assert_eq!(parse_amount(b"1844674407370955.1615"), None);
    assert_eq!(parse_amount(b"1844674407370955.1616"), None);
    assert_eq!(parse_amount(b"99999999999999999999999999999999"), None);
}

#[test]
fn amounts_take_no_other_notation() {
    assert_eq!(parse_amount(b""), None);
    assert_eq!(parse_amount(b"."), None);
    assert_eq!(parse_amount(b".5"), None);
    assert_eq!(parse_amount(b"-1"), None);
    assert_eq!(parse_amount(b"+1"), None);
    assert_eq!(parse_amount(b"1.00000"), None);
    assert_eq!(parse_amount(b"1.23456"), None);
    assert_eq!(parse_amount(b"1.2.3"), None);
    assert_eq!(parse_amount(b"1..2"), None);
    assert_eq!(parse_amount(b"1,5"), None);
    assert_eq!(parse_amount(b"1e3"), None);
    assert_eq!(parse_amount(b"1.5x"), None);
    assert_eq!(parse_amount(b"1.x"), None);
    assert_eq!(parse_amount(b"1 "), None);
    assert_eq!(parse_amount(b"inf"), None);
    assert_eq!(parse_amount(b"NaN"), None);
}
