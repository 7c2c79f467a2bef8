//! Writing out balances: the text of an amount, and the rows of a report.

use crate::account::Account;
use crate::text::{
    all_digits, amount_of, digits_end, digits_value, fraction_units, is_digit, FRACTION_DIGITS,
    UNITS_PER_WHOLE,
};
use crate::transaction::MAX_AMOUNT;
use vstd::prelude::*;
use vstd::string::StringSliceAdditionalSpecFns;

verus! {

/// The character that writes the digit `digit`.
pub open spec fn digit_byte(digit: int) -> u8 {
    ('0' as u8 + digit) as u8
}

/// `number` written in base ten, without leading zeros.
pub open spec fn number_text(number: nat) -> Seq<u8>
    decreases number,
{
    if number < 10 {
        seq![digit_byte(number as int)]
    } else {
        number_text(number / 10).push(digit_byte(number as int % 10))
    }
}

/// The four digits that write `fraction` smallest units after the decimal
/// point.
pub open spec fn fraction_text(fraction: nat) -> Seq<u8> {
    seq![
        digit_byte(fraction as int / 1000 % 10),
        digit_byte(fraction as int / 100 % 10),
        digit_byte(fraction as int / 10 % 10),
        digit_byte(fraction as int % 10),
    ]
}

/// A balance of `units` smallest units written as a decimal number: a minus
/// sign if it is below zero, the whole part, a decimal point, and four
/// digits.
pub open spec fn decimal_text(units: int) -> Seq<u8> {
    let magnitude = if units < 0 {
        -units
    } else {
        units
    };
    let sign = if units < 0 {
        seq!['-' as u8]
    } else {
        Seq::empty()
    };
    sign + number_text((magnitude / UNITS_PER_WHOLE as int) as nat) + seq!['.' as u8]
        + fraction_text((magnitude % UNITS_PER_WHOLE as int) as nat)
}

/// `true` or `false`, spelled out.
pub open spec fn flag_text(flag: bool) -> Seq<u8> {
    if flag {
        "true".spec_bytes()
    } else {
        "false".spec_bytes()
    }
}

/// The first row of a report, which names the columns.
pub open spec fn header_text() -> Seq<u8> {
    "client, available, held, total, locked".spec_bytes()
}

/// The row of a report for `client`: the client, the available, held and
/// total funds, and whether the account is frozen, separated by a comma and a
/// blank.
pub open spec fn row_text(client: u16, available: int, held: int, frozen: bool) -> Seq<u8> {
    number_text(client as nat) + ", ".spec_bytes() + decimal_text(available) + ", ".spec_bytes()
        + decimal_text(held) + ", ".spec_bytes() + decimal_text(available + held)
        + ", ".spec_bytes() + flag_text(frozen)
}

/// A number written out is written in digits, and they write that number.
pub proof fn lemma_number_text_reads_back(number: nat)
    ensures
        number_text(number).len() > 0,
        all_digits(number_text(number)),
        digits_value(number_text(number)) == number,
    decreases number,
{
    let text = number_text(number);
    if number < 10 {
        assert(text.drop_last() =~= Seq::<u8>::empty());
        assert(digits_value(text.drop_last()) == 0);
    } else {
        let front = number_text(number / 10);
        lemma_number_text_reads_back(number / 10);
        assert(text.drop_last() =~= front);
        assert forall|i: int| 0 <= i < text.len() implies is_digit(#[trigger] text[i]) by {
            if i < front.len() {
                assert(text[i] == front[i]);
            }
        }
    }
}

/// Where every byte from `from` up to `end` is a digit and the byte at `end`,
/// if there is one, is none, the run of digits that begins at `from` ends at
/// `end`.
proof fn lemma_digits_end_found(text: Seq<u8>, from: int, end: int)
    requires
        0 <= from <= end <= text.len(),
        forall|i: int| from <= i < end ==> is_digit(#[trigger] text[i]),
        end < text.len() ==> !is_digit(text[end]),
    ensures
        digits_end(text, from) == end,
    decreases end - from,
{
    if from < end {
        lemma_digits_end_found(text, from + 1, end);
    }
}

/// An amount that is written out and read again is the same amount.
pub proof fn lemma_amount_round_trip(units: nat)
    requires
        units <= MAX_AMOUNT,
    ensures
        amount_of(decimal_text(units as int)) == Some(units),
{
    let whole = units / UNITS_PER_WHOLE as nat;
    let fraction = units % UNITS_PER_WHOLE as nat;
    let whole_text = number_text(whole);
    let places = fraction_text(fraction);
    let text = decimal_text(units as int);
    let point = whole_text.len() as int;
    lemma_number_text_reads_back(whole);
    assert(text =~= whole_text + seq!['.' as u8] + places);
    assert(text[point] == '.' as u8);
    assert forall|i: int| 0 <= i < point implies is_digit(#[trigger] text[i]) by {
        assert(text[i] == whole_text[i]);
    }
    lemma_digits_end_found(text, 0, point);
    assert(text.take(point) =~= whole_text);
    assert(text.skip(point + 1) =~= places);
    assert(all_digits(places));
    assert(places.len() == FRACTION_DIGITS);
    assert(fraction_units(places) == digits_value(places));
    let three = places.drop_last();
    let two = three.drop_last();
    let one = two.drop_last();
    assert(one.drop_last() =~= Seq::<u8>::empty());
    assert(digits_value(one.drop_last()) == 0);
    assert(digits_value(one) == fraction / 1000 % 10);
    assert(digits_value(two) == 10 * digits_value(one) + fraction / 100 % 10);
    assert(digits_value(three) == 10 * digits_value(two) + fraction / 10 % 10);
    assert(digits_value(places) == 10 * digits_value(three) + fraction % 10);
    assert(digits_value(places) == fraction);
}

/// Appends `text` to `out`.
fn push_text(out: &mut Vec<u8>, text: &[u8])
    ensures
        final(out)@ == old(out)@ + text@,
{
    let mut i: usize = 0;
    while i < text.len()
        invariant
            i <= text.len(),
            out@ == old(out)@ + text@.take(i as int),
        decreases text.len() - i,
    {
        out.push(text[i]);
        assert(text@.take(i + 1) =~= text@.take(i as int).push(text@[i as int]));
        i += 1;
    }
    assert(text@.take(i as int) =~= text@);
}

/// Appends `number` in base ten to `out`.
fn push_number(out: &mut Vec<u8>, number: u128)
    ensures
        final(out)@ == old(out)@ + number_text(number as nat),
    decreases number,
{
    if number >= 10 {
        push_number(out, number / 10);
    }
    out.push('0' as u8 + (number % 10) as u8);
}

/// Appends a balance of `units` smallest units as a decimal number to `out`.
fn push_decimal(out: &mut Vec<u8>, units: i128)
    ensures
        final(out)@ == old(out)@ + decimal_text(units as int),
{
    let magnitude: u128 = if units < 0 {
        out.push('-' as u8);
        (-(units + 1)) as u128 + 1
    } else {
        units as u128
    };
    push_number(out, magnitude / (UNITS_PER_WHOLE as u128));
    out.push('.' as u8);
    let fraction: u16 = (magnitude % (UNITS_PER_WHOLE as u128)) as u16;
    out.push('0' as u8 + (fraction / 1000 % 10) as u8);
    out.push('0' as u8 + (fraction / 100 % 10) as u8);
    out.push('0' as u8 + (fraction / 10 % 10) as u8);
    out.push('0' as u8 + (fraction % 10) as u8);
    assert(out@ =~= old(out)@ + decimal_text(units as int));
}

/// Writes a balance of `units` smallest units as a decimal number.
pub fn render_amount(units: i128) -> (text: Vec<u8>)
    ensures
        text@ == decimal_text(units as int),
{
    let mut text: Vec<u8> = Vec::new();
    push_decimal(&mut text, units);
    assert(text@ =~= decimal_text(units as int));
    text
}

/// Writes the first row of a report.
pub fn report_header() -> (text: Vec<u8>)
    ensures
        text@ == header_text(),
{
    let mut text: Vec<u8> = Vec::new();
    push_text(&mut text, "client, available, held, total, locked".as_bytes());
    assert(text@ =~= header_text());
    text
}

/// Writes the row of a report for `client`, whose account is `account`.
pub fn report_row(client: u16, account: &Account) -> (text: Vec<u8>)
    requires
        i128::MIN <= account@.total() <= i128::MAX,
    ensures
        text@ == row_text(client, account@.available, account@.held, account@.frozen),
{
    let mut text: Vec<u8> = Vec::new();
    push_number(&mut text, client as u128);
    push_text(&mut text, ", ".as_bytes());
    push_decimal(&mut text, account.available);
    push_text(&mut text, ", ".as_bytes());
    push_decimal(&mut text, account.held);
    push_text(&mut text, ", ".as_bytes());
    push_decimal(&mut text, account.total_funds());
    push_text(&mut text, ", ".as_bytes());
    if account.frozen {
        push_text(&mut text, "true".as_bytes());
    } else {
        push_text(&mut text, "false".as_bytes());
    }
    assert(text@ =~= row_text(client, account@.available, account@.held, account@.frozen));
    text
}

} // verus!
