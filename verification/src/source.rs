//! Reading transactions from comma-separated text.

use crate::records::{parse_transactions, rows_view, transactions_of, ReadError};
use crate::transaction::Transaction;
use vstd::prelude::*;

verus! {

/// The error of the `csv` crate. Nothing is known of it here but that the
/// reader gave it.
#[verifier::external_type_specification]
#[verifier::external_body]
pub struct ExCsvError(csv::Error);

/// The rows of fields that the `csv` crate reads from `input`, the first row
/// among them, with blanks around each field taken off; nothing where the
/// reader refuses the input.
pub uninterp spec fn csv_records(input: Seq<u8>) -> Option<Seq<Seq<Seq<u8>>>>;

/// Splits `input` into rows of fields.
///
/// Runs `csv::Reader::records` over `input`, on a reader built by
/// `csv::ReaderBuilder` with `has_headers(false)` and `trim(Trim::All)`, and
/// hands on each field as its bytes. Not proved: that what comes back, rows
/// or error, is what [`csv_records`] names for this input; the reader does the
/// same on the same bytes every time.
#[verifier::external_body]
fn read_records(input: &[u8]) -> (records: Result<Vec<Vec<Vec<u8>>>, csv::Error>)
    ensures
        match records {
            Ok(rows) => csv_records(input@) == Some(rows_view(rows@)),
            Err(_) => csv_records(input@) is None,
        },
{
    let mut builder = csv::ReaderBuilder::new();
    let mut reader = builder.has_headers(false).trim(csv::Trim::All).from_reader(input);
    let mut rows = Vec::new();
    for record in reader.records() {
        rows.push(record?.iter().map(|field| field.as_bytes().to_vec()).collect());
    }
    Ok(rows)
}

/// The transactions in a source of which the reader made `records`.
pub open spec fn transactions_in(records: Option<Seq<Seq<Seq<u8>>>>) -> Result<
    Seq<Transaction>,
    ReadError,
> {
    match records {
        None => Err(ReadError::Malformed),
        Some(rows) => transactions_of(rows),
    }
}

/// Reads the transactions in `input`: comma-separated text whose first row
/// names the columns.
///
/// Every transaction that comes back is well-formed, so the whole can go to
/// [`crate::ledger::process_transactions`] as it is.
pub fn read_transactions(input: &[u8]) -> (outcome: Result<Vec<Transaction>, ReadError>)
    ensures
        match outcome {
            Ok(transactions) => transactions_in(csv_records(input@)) == Ok::<
                Seq<Transaction>,
                ReadError,
            >(transactions@),
            Err(error) => transactions_in(csv_records(input@)) == Err::<
                Seq<Transaction>,
                ReadError,
            >(error),
        },
        outcome matches Ok(transactions) ==> crate::ledger::all_well_formed(transactions@),
{
    match read_records(input) {
        Ok(rows) => parse_transactions(&rows),
        Err(_) => Err(ReadError::Malformed),
    }
}

} // verus!
