//! The events that the engine consumes.

use vstd::prelude::*;

verus! {

/// The largest amount a single deposit or withdrawal may carry.
///
/// Balances are kept in `i128`; with amounts up to this bound no sequence of
/// records that fits in memory can drive a balance out of that range.
pub const MAX_AMOUNT: u64 = 0x7fff_ffff_ffff_ffff;

/// The five kinds of event.
#[derive(Clone, Copy, Debug, PartialEq, Eq, Structural)]
pub enum TransactionType {
    Deposit,
    Withdrawal,
    Dispute,
    Resolve,
    Chargeback,
}

/// One record of the log.
///
/// A deposit or withdrawal introduces the identifier `tx` and carries an
/// amount. A dispute, resolve or chargeback names the `tx` of an earlier
/// deposit or withdrawal; any amount on such a record is ignored.
#[derive(Clone, Copy, Debug, PartialEq, Eq, Structural)]
pub struct Transaction {
    pub transaction_type: TransactionType,
    pub client: u16,
    pub tx: u32,
    pub amount: Option<u64>,
}

/// Why a record is not well-formed.
#[derive(Clone, Copy, Debug, PartialEq, Eq, Structural)]
pub enum TransactionError {
    /// A deposit or withdrawal without an amount.
    MissingAmount,
    /// A deposit or withdrawal of more than [`MAX_AMOUNT`].
    AmountTooLarge,
}

/// The first record of a log that is not well-formed.
#[derive(Clone, Copy, Debug, PartialEq, Eq, Structural)]
pub struct RejectedTransaction {
    /// Its position in the log.
    pub index: usize,
    /// What is wrong with it.
    pub reason: TransactionError,
}

impl TransactionType {
    /// Whether this kind moves funds, and can therefore be disputed later.
    pub open spec fn moves_funds(self) -> bool {
        self == TransactionType::Deposit || self == TransactionType::Withdrawal
    }

    /// Executable form of [`TransactionType::moves_funds`].
    pub fn is_funds_movement(&self) -> (b: bool)
        ensures
            b == self.moves_funds(),
    {
        match self {
            TransactionType::Deposit => true,
            TransactionType::Withdrawal => true,
            _ => false,
        }
    }
}

impl Transaction {
    /// A record the engine accepts: a deposit or withdrawal must carry an
    /// amount, and that amount must not exceed [`MAX_AMOUNT`].
    pub open spec fn well_formed(self) -> bool {
        self.transaction_type.moves_funds() ==> match self.amount {
            Some(a) => a <= MAX_AMOUNT,
            None => false,
        }
    }

    /// The amount of a well-formed deposit or withdrawal, as a mathematical
    /// integer; zero where the record carries none.
    pub open spec fn amount_value(self) -> int {
        match self.amount {
            Some(a) => a as int,
            None => 0,
        }
    }

    /// What is wrong with the record, if anything.
    pub open spec fn defect(self) -> Option<TransactionError> {
        if self.transaction_type.moves_funds() {
            match self.amount {
                None => Some(TransactionError::MissingAmount),
                Some(a) => if a > MAX_AMOUNT {
                    Some(TransactionError::AmountTooLarge)
                } else {
                    None
                },
            }
        } else {
            None
        }
    }

    /// Checks that the record is well-formed, and says what is wrong with it
    /// if it is not.
    pub fn validate(&self) -> (checked: Result<(), TransactionError>)
        ensures
            checked.is_ok() == self.well_formed(),
            checked == match self.defect() {
                None => Ok::<(), TransactionError>(()),
                Some(reason) => Err(reason),
            },
    {
        if self.transaction_type.is_funds_movement() {
            match self.amount {
                None => Err(TransactionError::MissingAmount),
                Some(a) => if a > MAX_AMOUNT {
                    Err(TransactionError::AmountTooLarge)
                } else {
                    Ok(())
                },
            }
        } else {
            Ok(())
        }
    }
}

} // verus!
