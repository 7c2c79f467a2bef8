//! Reading the fields of a record: kinds, identifiers and amounts as text.

use crate::transaction::{TransactionType, MAX_AMOUNT};
use vstd::prelude::*;
use vstd::string::StringSliceAdditionalSpecFns;

verus! {

/// The number of decimal places an amount is counted to.
pub const FRACTION_DIGITS: usize = 4;

/// The number of smallest units in one whole of the currency: ten to the
/// power of [`FRACTION_DIGITS`].
pub const UNITS_PER_WHOLE: u64 = 10_000;

/// An ASCII letter in lower case; any other byte as it is.
pub open spec fn to_lower(byte: u8) -> u8 {
    if 'A' as u8 <= byte <= 'Z' as u8 {
        (byte + 32) as u8
    } else {
        byte
    }
}

/// Equality of texts that takes an ASCII letter for the same in either case.
pub open spec fn same_ignoring_case(left: Seq<u8>, right: Seq<u8>) -> bool {
    &&& left.len() == right.len()
    &&& forall|i: int| 0 <= i < left.len() ==> to_lower(#[trigger] left[i]) == to_lower(right[i])
}

/// The kind that a field names: one of `deposit`, `withdrawal`, `dispute`,
/// `resolve`, `chargeback`, in any mix of upper and lower case.
pub open spec fn kind_of(field: Seq<u8>) -> Option<TransactionType> {
    if same_ignoring_case(field, "deposit".spec_bytes()) {
        Some(TransactionType::Deposit)
    } else if same_ignoring_case(field, "withdrawal".spec_bytes()) {
        Some(TransactionType::Withdrawal)
    } else if same_ignoring_case(field, "dispute".spec_bytes()) {
        Some(TransactionType::Dispute)
    } else if same_ignoring_case(field, "resolve".spec_bytes()) {
        Some(TransactionType::Resolve)
    } else if same_ignoring_case(field, "chargeback".spec_bytes()) {
        Some(TransactionType::Chargeback)
    } else {
        None
    }
}

/// Whether `byte` is one of the digits `0` to `9`.
pub open spec fn is_digit(byte: u8) -> bool {
    '0' as u8 <= byte <= '9' as u8
}

/// Whether `text` is made of digits only.
pub open spec fn all_digits(text: Seq<u8>) -> bool {
    forall|i: int| 0 <= i < text.len() ==> is_digit(#[trigger] text[i])
}

/// The number that the digits of `text` write in base ten; zero for the
/// empty text.
pub open spec fn digits_value(text: Seq<u8>) -> nat
    decreases text.len(),
{
    if text.len() == 0 {
        0
    } else {
        (10 * digits_value(text.drop_last()) + (text.last() - '0' as u8)) as nat
    }
}

/// The number that a field writes: one or more digits, nothing else, and a
/// value of at most `max`.
pub open spec fn number_of(field: Seq<u8>, max: nat) -> Option<nat> {
    if field.len() > 0 && all_digits(field) && digits_value(field) <= max {
        Some(digits_value(field))
    } else {
        None
    }
}

/// Where the run of digits that begins at `from` ends: the position of the
/// first byte at or after `from` that is no digit, or the length of `text`.
pub open spec fn digits_end(text: Seq<u8>, from: int) -> int
    decreases text.len() - from,
{
    if 0 <= from < text.len() && is_digit(text[from]) {
        digits_end(text, from + 1)
    } else {
        from
    }
}

/// The smallest units that the digits after the decimal point stand for:
/// the digits are read as if zeros filled them up to [`FRACTION_DIGITS`].
pub open spec fn fraction_units(fraction: Seq<u8>) -> nat
    decreases FRACTION_DIGITS - fraction.len(),
{
    if fraction.len() >= FRACTION_DIGITS {
        digits_value(fraction)
    } else {
        fraction_units(fraction.push('0' as u8))
    }
}

/// `units` if it is an amount the ledger takes, that is at most
/// [`MAX_AMOUNT`].
pub open spec fn amount_in_range(units: nat) -> Option<nat> {
    if units <= MAX_AMOUNT {
        Some(units)
    } else {
        None
    }
}

/// The amount that a field writes, in smallest units.
///
/// An amount is written as one or more digits, optionally followed by a
/// decimal point and at most [`FRACTION_DIGITS`] digits. There is no sign, no
/// exponent and no separator of thousands, and the amount is at most
/// [`MAX_AMOUNT`].
pub open spec fn amount_of(field: Seq<u8>) -> Option<nat> {
    let point = digits_end(field, 0);
    let whole = digits_value(field.take(point)) * UNITS_PER_WHOLE;
    if point == 0 {
        None
    } else if point == field.len() {
        amount_in_range(whole as nat)
    } else if field[point] != '.' as u8 {
        None
    } else {
        let fraction = field.skip(point + 1);
        if fraction.len() <= FRACTION_DIGITS && all_digits(fraction) {
            amount_in_range((whole + fraction_units(fraction)) as nat)
        } else {
            None
        }
    }
}

/// The byte `byte` in lower case.
fn lower(byte: u8) -> (lowered: u8)
    ensures
        lowered == to_lower(byte),
{
    if byte >= 'A' as u8 && byte <= 'Z' as u8 {
        byte + 32
    } else {
        byte
    }
}

/// Compares two texts without regard to the case of ASCII letters.
pub fn eq_ignoring_case(left: &[u8], right: &[u8]) -> (same: bool)
    ensures
        same == same_ignoring_case(left@, right@),
{
    if left.len() != right.len() {
        return false;
    }
    let mut i: usize = 0;
    while i < left.len()
        invariant
            i <= left.len(),
            left.len() == right.len(),
            forall|j: int| 0 <= j < i ==> to_lower(#[trigger] left@[j]) == to_lower(right@[j]),
        decreases left.len() - i,
    {
        if lower(left[i]) != lower(right[i]) {
            return false;
        }
        i += 1;
    }
    true
}

/// Reads the kind that `field` names.
pub fn parse_kind(field: &[u8]) -> (kind: Option<TransactionType>)
    ensures
        kind == kind_of(field@),
{
    if eq_ignoring_case(field, "deposit".as_bytes()) {
        Some(TransactionType::Deposit)
    } else if eq_ignoring_case(field, "withdrawal".as_bytes()) {
        Some(TransactionType::Withdrawal)
    } else if eq_ignoring_case(field, "dispute".as_bytes()) {
        Some(TransactionType::Dispute)
    } else if eq_ignoring_case(field, "resolve".as_bytes()) {
        Some(TransactionType::Resolve)
    } else if eq_ignoring_case(field, "chargeback".as_bytes()) {
        Some(TransactionType::Chargeback)
    } else {
        None
    }
}

/// A text extended by digits writes a number at least as large.
pub proof fn lemma_digits_value_grows(text: Seq<u8>, len: int)
    requires
        0 <= len <= text.len(),
        all_digits(text),
    ensures
        digits_value(text.take(len)) <= digits_value(text),
    decreases text.len(),
{
    if len == text.len() {
        assert(text.take(len) =~= text);
    } else {
        let front = text.drop_last();
        assert(front.take(len) =~= text.take(len));
        assert(all_digits(front)) by {
            assert forall|i: int| 0 <= i < front.len() implies is_digit(#[trigger] front[i]) by {
                assert(front[i] == text[i]);
            }
        }
        lemma_digits_value_grows(front, len);
        assert(is_digit(text[text.len() - 1]));
    }
}

/// Reads the digits of `text` from `start` up to `end` as a number of at
/// most `max`. Gives nothing where a byte among them is no digit or the
/// number is larger; no digits at all read as zero.
fn read_digits(text: &[u8], start: usize, end: usize, max: u64) -> (number: Option<u64>)
    requires
        start <= end <= text.len(),
    ensures
        number.is_some() == (all_digits(text@.subrange(start as int, end as int)) && digits_value(
            text@.subrange(start as int, end as int),
        ) <= max),
        number matches Some(n) ==> n == digits_value(text@.subrange(start as int, end as int)),
{
    let ghost digits = text@.subrange(start as int, end as int);
    let mut value: u64 = 0;
    let mut i: usize = start;
    assert(digits.take(0) =~= Seq::<u8>::empty());
    while i < end
        invariant
            start <= i <= end <= text.len(),
            digits == text@.subrange(start as int, end as int),
            all_digits(digits.take(i - start)),
            value == digits_value(digits.take(i - start)),
            value <= max,
        decreases end - i,
    {
        let byte = text[i];
        let ghost prefix = digits.take(i - start);
        let ghost next = digits.take(i - start + 1);
        assert(next.drop_last() =~= prefix);
        assert(next.last() == byte);
        if byte < '0' as u8 || byte > '9' as u8 {
            assert(!is_digit(digits[i - start]));
            return None;
        }
        assert(all_digits(next)) by {
            assert forall|j: int| 0 <= j < next.len() implies is_digit(#[trigger] next[j]) by {
                if j < i - start {
                    assert(prefix[j] == next[j]);
                }
            }
        }
        let digit = (byte - '0' as u8) as u64;
        if max < digit || value > (max - digit) / 10 {
            proof {
                assert(digits_value(next) > max);
                if all_digits(digits) {
                    lemma_digits_value_grows(digits, i - start + 1);
                }
            }
            return None;
        }
        value = value * 10 + digit;
        i += 1;
    }
    assert(digits.take(i - start) =~= digits);
    Some(value)
}

/// Reads a number of at most `max` from `field`.
pub fn parse_number(field: &[u8], max: u64) -> (number: Option<u64>)
    ensures
        number_of(field@, max as nat) == match number {
            Some(n) => Some(n as nat),
            None => None::<nat>,
        },
{
    assert(field@.subrange(0, field@.len() as int) =~= field@);
    if field.len() == 0 {
        None
    } else {
        read_digits(field, 0, field.len(), max)
    }
}

/// A text of up to four digits writes a number of no more digits than that.
proof fn lemma_four_digits_at_most(text: Seq<u8>)
    requires
        all_digits(text),
        text.len() <= 4,
    ensures
        text.len() == 0 ==> digits_value(text) == 0,
        text.len() == 1 ==> digits_value(text) <= 9,
        text.len() == 2 ==> digits_value(text) <= 99,
        text.len() == 3 ==> digits_value(text) <= 999,
        text.len() == 4 ==> digits_value(text) <= 9999,
    decreases text.len(),
{
    if text.len() > 0 {
        let front = text.drop_last();
        assert(all_digits(front)) by {
            assert forall|i: int| 0 <= i < front.len() implies is_digit(#[trigger] front[i]) by {
                assert(front[i] == text[i]);
            }
        }
        lemma_four_digits_at_most(front);
        assert(is_digit(text[text.len() - 1]));
    }
}

/// Reads the amount that `field` writes, in smallest units.
pub fn parse_amount(field: &[u8]) -> (amount: Option<u64>)
    ensures
        amount_of(field@) == match amount {
            Some(units) => Some(units as nat),
            None => None::<nat>,
        },
        amount matches Some(units) ==> units <= MAX_AMOUNT,
{
    let mut point: usize = 0;
    while point < field.len() && field[point] >= '0' as u8 && field[point] <= '9' as u8
        invariant
            point <= field.len(),
            digits_end(field@, 0) == digits_end(field@, point as int),
        decreases field.len() - point,
    {
        point += 1;
    }
    assert(digits_end(field@, 0) == point);
    if point == 0 {
        return None;
    }
    let ghost whole_text = field@.take(point as int);
    assert(field@.subrange(0, point as int) =~= whole_text);
    // A whole part up to this limit fits in `u64` with any fraction added;
    // a larger one is beyond `MAX_AMOUNT` whatever follows.
    let whole = match read_digits(field, 0, point, 1_844_674_407_370_954) {
        Some(whole) => whole,
        None => {
            assert(all_digits(whole_text)) by {
                lemma_digits_end_covers(field@, 0, point as int);
            }
            assert(digits_value(whole_text) * UNITS_PER_WHOLE > MAX_AMOUNT);
            return None;
        },
    };
    let mut units: u64 = whole * UNITS_PER_WHOLE;
    if point < field.len() {
        if field[point] != '.' as u8 {
            return None;
        }
        let ghost fraction_text = field@.skip(point + 1);
        assert(field@.subrange(point + 1, field@.len() as int) =~= fraction_text);
        if field.len() - (point + 1) > FRACTION_DIGITS {
            return None;
        }
        let mut fraction = match read_digits(field, point + 1, field.len(), 9_999) {
            Some(fraction) => fraction,
            None => {
                proof {
                    if all_digits(fraction_text) {
                        lemma_four_digits_at_most(fraction_text);
                    }
                }
                return None;
            },
        };
        let mut places: usize = field.len() - (point + 1);
        let ghost mut padded = fraction_text;
        proof {
            lemma_four_digits_at_most(padded);
        }
        while places < FRACTION_DIGITS
            invariant
                places <= FRACTION_DIGITS,
                padded.len() == places,
                all_digits(padded),
                fraction == digits_value(padded),
                fraction_units(padded) == fraction_units(fraction_text),
            decreases FRACTION_DIGITS - places,
        {
            proof {
                lemma_four_digits_at_most(padded);
                let longer = padded.push('0' as u8);
                assert(longer.drop_last() =~= padded);
                assert(all_digits(longer)) by {
                    assert forall|j: int| 0 <= j < longer.len() implies is_digit(
                        #[trigger] longer[j],
                    ) by {
                        if j < padded.len() {
                            assert(padded[j] == longer[j]);
                        }
                    }
                }
                padded = longer;
            }
            fraction = fraction * 10;
            places += 1;
        }
        proof {
            lemma_four_digits_at_most(padded);
        }
        units = units + fraction;
    }
    if units > MAX_AMOUNT {
        None
    } else {
        Some(units)
    }
}

/// Every byte between `from` and the end of the run of digits that begins
/// there is a digit.
proof fn lemma_digits_end_covers(text: Seq<u8>, from: int, end: int)
    requires
        0 <= from <= end <= text.len(),
        digits_end(text, from) == end,
    ensures
        forall|i: int| from <= i < end ==> is_digit(#[trigger] text[i]),
        all_digits(text.subrange(from, end)),
    decreases end - from,
{
    if from < end {
        lemma_digits_end_at_least(text, from);
        if is_digit(text[from]) {
            lemma_digits_end_covers(text, from + 1, end);
        }
    }
    assert forall|i: int| 0 <= i < end - from implies is_digit(
        #[trigger] text.subrange(from, end)[i],
    ) by {
        assert(is_digit(text[from + i]));
    }
}

/// A run of digits ends no earlier than it begins.
proof fn lemma_digits_end_at_least(text: Seq<u8>, from: int)
    ensures
        digits_end(text, from) >= from,
    decreases text.len() - from,
{
    if 0 <= from < text.len() && is_digit(text[from]) {
        lemma_digits_end_at_least(text, from + 1);
    }
}

} // verus!
