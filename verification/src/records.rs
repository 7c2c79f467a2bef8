//! Turning the rows of a record source into transactions.
//!
//! The first row names the columns; every later row is one record. The
//! columns `type`, `client` and `tx` are looked up by name, and so is the
//! column `amount`, which may be missing or empty where a record needs no
//! amount. Columns of other names are passed over.

use crate::text::{amount_of, kind_of, number_of, parse_amount, parse_kind, parse_number};
use crate::transaction::{Transaction, TransactionType};
use vstd::prelude::*;
use vstd::string::StringSliceAdditionalSpecFns;

verus! {

/// Why a row is not a record.
#[derive(Clone, Copy, Debug, PartialEq, Eq, Structural)]
pub enum RecordError {
    /// The row has no field in a column named `type`.
    MissingType,
    /// The `type` field names none of the five kinds.
    UnknownType,
    /// The row has no field in a column named `client`.
    MissingClient,
    /// The `client` field is no number that fits in 16 bits.
    InvalidClient,
    /// The row has no field in a column named `tx`.
    MissingTx,
    /// The `tx` field is no number that fits in 32 bits.
    InvalidTx,
    /// The `amount` field is not empty and writes no amount.
    InvalidAmount,
    /// A deposit or withdrawal whose amount is missing or empty.
    MissingAmount,
}

/// Why a record source cannot be read.
#[derive(Clone, Copy, Debug, PartialEq, Eq, Structural)]
pub enum ReadError {
    /// The source is not laid out in rows of fields.
    Malformed,
    /// A row is not a record. Rows count from zero, the row of column names
    /// included.
    Record { row: usize, reason: RecordError },
}

/// The fields of a row as texts.
pub open spec fn fields_view(row: Seq<Vec<u8>>) -> Seq<Seq<u8>> {
    row.map_values(|field: Vec<u8>| field@)
}

/// The rows of a source as rows of texts.
pub open spec fn rows_view(rows: Seq<Vec<Vec<u8>>>) -> Seq<Seq<Seq<u8>>> {
    rows.map_values(|row: Vec<Vec<u8>>| fields_view(row@))
}

/// The first column at or after `from` that `header` names `name`.
pub open spec fn column_from(header: Seq<Seq<u8>>, name: Seq<u8>, from: int) -> Option<int>
    decreases header.len() - from,
{
    if from < 0 || from >= header.len() {
        None
    } else if header[from] == name {
        Some(from)
    } else {
        column_from(header, name, from + 1)
    }
}

/// The field of `row` in the first column that `header` names `name`.
pub open spec fn field_of(header: Seq<Seq<u8>>, row: Seq<Seq<u8>>, name: Seq<u8>) -> Option<
    Seq<u8>,
> {
    match column_from(header, name, 0) {
        Some(column) => if column < row.len() {
            Some(row[column])
        } else {
            None
        },
        None => None,
    }
}

/// The kind of the record in `row`.
pub open spec fn kind_field(header: Seq<Seq<u8>>, row: Seq<Seq<u8>>) -> Result<
    TransactionType,
    RecordError,
> {
    match field_of(header, row, "type".spec_bytes()) {
        None => Err(RecordError::MissingType),
        Some(field) => match kind_of(field) {
            None => Err(RecordError::UnknownType),
            Some(kind) => Ok(kind),
        },
    }
}

/// The client of the record in `row`.
pub open spec fn client_field(header: Seq<Seq<u8>>, row: Seq<Seq<u8>>) -> Result<u16, RecordError> {
    match field_of(header, row, "client".spec_bytes()) {
        None => Err(RecordError::MissingClient),
        Some(field) => match number_of(field, u16::MAX as nat) {
            None => Err(RecordError::InvalidClient),
            Some(client) => Ok(client as u16),
        },
    }
}

/// The transaction identifier of the record in `row`.
pub open spec fn tx_field(header: Seq<Seq<u8>>, row: Seq<Seq<u8>>) -> Result<u32, RecordError> {
    match field_of(header, row, "tx".spec_bytes()) {
        None => Err(RecordError::MissingTx),
        Some(field) => match number_of(field, u32::MAX as nat) {
            None => Err(RecordError::InvalidTx),
            Some(tx) => Ok(tx as u32),
        },
    }
}

/// The amount of the record in `row`; none where the field is missing or
/// empty.
pub open spec fn amount_field(header: Seq<Seq<u8>>, row: Seq<Seq<u8>>) -> Result<
    Option<u64>,
    RecordError,
> {
    match field_of(header, row, "amount".spec_bytes()) {
        None => Ok(None),
        Some(field) => if field.len() == 0 {
            Ok(None)
        } else {
            match amount_of(field) {
                None => Err(RecordError::InvalidAmount),
                Some(units) => Ok(Some(units as u64)),
            }
        },
    }
}

/// The record that `row` holds under the column names of `header`.
///
/// The fields are examined in the order type, client, tx, amount, and the
/// first one at fault decides the error.
pub open spec fn record_of(header: Seq<Seq<u8>>, row: Seq<Seq<u8>>) -> Result<
    Transaction,
    RecordError,
> {
    match kind_field(header, row) {
        Err(reason) => Err(reason),
        Ok(transaction_type) => match client_field(header, row) {
            Err(reason) => Err(reason),
            Ok(client) => match tx_field(header, row) {
                Err(reason) => Err(reason),
                Ok(tx) => match amount_field(header, row) {
                    Err(reason) => Err(reason),
                    Ok(amount) => if transaction_type.moves_funds() && amount is None {
                        Err(RecordError::MissingAmount)
                    } else {
                        Ok(Transaction { transaction_type, client, tx, amount })
                    },
                },
            },
        },
    }
}

/// The records in the rows 1 to `count` of `rows`, whose row 0 names the
/// columns; or the first row among them that is not a record.
pub open spec fn records_up_to(rows: Seq<Seq<Seq<u8>>>, count: int) -> Result<
    Seq<Transaction>,
    ReadError,
>
    decreases count,
{
    if count <= 0 {
        Ok(Seq::empty())
    } else {
        match records_up_to(rows, count - 1) {
            Err(error) => Err(error),
            Ok(transactions) => match record_of(rows[0], rows[count]) {
                Err(reason) => Err(ReadError::Record { row: count as usize, reason }),
                Ok(transaction) => Ok(transactions.push(transaction)),
            },
        }
    }
}

/// The transactions that `rows` hold. A source without rows holds none.
pub open spec fn transactions_of(rows: Seq<Seq<Seq<u8>>>) -> Result<Seq<Transaction>, ReadError> {
    records_up_to(rows, rows.len() - 1)
}

/// A row that is not a record stays the outcome however many rows follow.
pub proof fn lemma_first_error_stays(rows: Seq<Seq<Seq<u8>>>, count: int, later: int)
    requires
        count <= later,
        records_up_to(rows, count) is Err,
    ensures
        records_up_to(rows, later) == records_up_to(rows, count),
    decreases later - count,
{
    if count < later {
        lemma_first_error_stays(rows, count, later - 1);
    }
}

/// Compares two texts byte by byte.
fn same_text(left: &[u8], right: &[u8]) -> (same: bool)
    ensures
        same == (left@ == right@),
{
    if left.len() != right.len() {
        return false;
    }
    let mut i: usize = 0;
    while i < left.len()
        invariant
            i <= left.len(),
            left.len() == right.len(),
            forall|j: int| 0 <= j < i ==> left@[j] == right@[j],
        decreases left.len() - i,
    {
        if left[i] != right[i] {
            return false;
        }
        i += 1;
    }
    assert(left@ =~= right@);
    true
}

/// Finds the first column that `header` names `name`.
fn find_column(header: &Vec<Vec<u8>>, name: &[u8]) -> (column: Option<usize>)
    ensures
        column_from(fields_view(header@), name@, 0) == match column {
            Some(c) => Some(c as int),
            None => None::<int>,
        },
{
    let mut i: usize = 0;
    while i < header.len()
        invariant
            i <= header.len(),
            column_from(fields_view(header@), name@, 0) == column_from(
                fields_view(header@),
                name@,
                i as int,
            ),
        decreases header.len() - i,
    {
        if same_text(header[i].as_slice(), name) {
            return Some(i);
        }
        i += 1;
    }
    None
}

/// Where the four columns of a record are.
struct Columns {
    kind: Option<usize>,
    client: Option<usize>,
    tx: Option<usize>,
    amount: Option<usize>,
}

impl Columns {
    /// `column` is where `header` has its first column named `name`.
    spec fn points_to(column: Option<usize>, header: Seq<Seq<u8>>, name: Seq<u8>) -> bool {
        match column {
            Some(c) => column_from(header, name, 0) == Some(c as int),
            None => column_from(header, name, 0) is None,
        }
    }

    /// These are the columns that `header` names.
    spec fn describes(self, header: Seq<Seq<u8>>) -> bool {
        &&& Self::points_to(self.kind, header, "type".spec_bytes())
        &&& Self::points_to(self.client, header, "client".spec_bytes())
        &&& Self::points_to(self.tx, header, "tx".spec_bytes())
        &&& Self::points_to(self.amount, header, "amount".spec_bytes())
    }

    /// Looks up the four columns in `header`.
    fn locate(header: &Vec<Vec<u8>>) -> (columns: Columns)
        ensures
            columns.describes(fields_view(header@)),
    {
        Columns {
            kind: find_column(header, "type".as_bytes()),
            client: find_column(header, "client".as_bytes()),
            tx: find_column(header, "tx".as_bytes()),
            amount: find_column(header, "amount".as_bytes()),
        }
    }
}

/// The field of `row` in `column`, if the row reaches that far.
fn field_at(row: &Vec<Vec<u8>>, column: Option<usize>) -> (field: Option<&[u8]>)
    ensures
        field is Some == (column matches Some(c) && c < row.len()),
        field matches Some(text) ==> column matches Some(c) && text@ == fields_view(row@)[c as int],
{
    match column {
        Some(c) => if c < row.len() {
            Some(row[c].as_slice())
        } else {
            None
        },
        None => None,
    }
}

/// Reads the record in `row`, whose columns are at `columns`.
fn parse_record_at(columns: &Columns, row: &Vec<Vec<u8>>, header: Ghost<Seq<Seq<u8>>>) -> (record:
    Result<Transaction, RecordError>)
    requires
        columns.describes(header@),
    ensures
        record == record_of(header@, fields_view(row@)),
        record matches Ok(transaction) ==> transaction.well_formed(),
{
    let transaction_type = match field_at(row, columns.kind) {
        None => { return Err(RecordError::MissingType); },
        Some(field) => match parse_kind(field) {
            None => { return Err(RecordError::UnknownType); },
            Some(kind) => kind,
        },
    };
    let client = match field_at(row, columns.client) {
        None => { return Err(RecordError::MissingClient); },
        Some(field) => match parse_number(field, 0xffff) {
            None => { return Err(RecordError::InvalidClient); },
            Some(client) => client as u16,
        },
    };
    let tx = match field_at(row, columns.tx) {
        None => { return Err(RecordError::MissingTx); },
        Some(field) => match parse_number(field, 0xffff_ffff) {
            None => { return Err(RecordError::InvalidTx); },
            Some(tx) => tx as u32,
        },
    };
    let amount = match field_at(row, columns.amount) {
        None => None,
        Some(field) => if field.len() == 0 {
            None
        } else {
            match parse_amount(field) {
                None => { return Err(RecordError::InvalidAmount); },
                Some(units) => Some(units),
            }
        },
    };
    if transaction_type.is_funds_movement() && amount.is_none() {
        return Err(RecordError::MissingAmount);
    }
    Ok(Transaction { transaction_type, client, tx, amount })
}

/// Reads the record that `row` holds under the column names of `header`.
pub fn parse_record(header: &Vec<Vec<u8>>, row: &Vec<Vec<u8>>) -> (record: Result<
    Transaction,
    RecordError,
>)
    ensures
        record == record_of(fields_view(header@), fields_view(row@)),
        record matches Ok(transaction) ==> transaction.well_formed(),
{
    let columns = Columns::locate(header);
    parse_record_at(&columns, row, Ghost(fields_view(header@)))
}

/// Reads the transactions that `rows` hold: row 0 names the columns, every
/// later row is one record. Stops at the first row that is not a record.
pub fn parse_transactions(rows: &Vec<Vec<Vec<u8>>>) -> (outcome: Result<
    Vec<Transaction>,
    ReadError,
>)
    ensures
        match outcome {
            Ok(transactions) => transactions_of(rows_view(rows@)) == Ok::<
                Seq<Transaction>,
                ReadError,
            >(transactions@),
            Err(error) => transactions_of(rows_view(rows@)) == Err::<Seq<Transaction>, ReadError>(
                error,
            ),
        },
        outcome matches Ok(transactions) ==> crate::ledger::all_well_formed(transactions@),
{
    let mut transactions: Vec<Transaction> = Vec::new();
    if rows.len() == 0 {
        return Ok(transactions);
    }
    let ghost texts = rows_view(rows@);
    let columns = Columns::locate(&rows[0]);
    let mut i: usize = 1;
    while i < rows.len()
        invariant
            1 <= i <= rows.len(),
            texts == rows_view(rows@),
            columns.describes(texts[0]),
            records_up_to(texts, i - 1) == Ok::<Seq<Transaction>, ReadError>(transactions@),
            crate::ledger::all_well_formed(transactions@),
        decreases rows.len() - i,
    {
        match parse_record_at(&columns, &rows[i], Ghost(texts[0])) {
            Err(reason) => {
                proof {
                    lemma_first_error_stays(texts, i as int, texts.len() - 1);
                }
                return Err(ReadError::Record { row: i, reason });
            },
            Ok(transaction) => {
                transactions.push(transaction);
            },
        }
        i += 1;
    }
    Ok(transactions)
}

} // verus!
