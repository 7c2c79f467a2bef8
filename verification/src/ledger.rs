//! The ledger as a state machine, and the engine that runs it.

use crate::account::{Account, AccountView};
use crate::transaction::{RejectedTransaction, Transaction, TransactionType, MAX_AMOUNT};
use std::collections::HashMap;
use vstd::prelude::*;

verus! {

/// The mathematical state of the engine: the account of every client seen so
/// far, and the deposits and withdrawals that were applied, by identifier.
pub struct LedgerView {
    pub accounts: Map<u16, AccountView>,
    pub processed: Map<u32, Transaction>,
}

impl LedgerView {
    /// The state before any record.
    pub open spec fn empty() -> LedgerView {
        LedgerView { accounts: Map::empty(), processed: Map::empty() }
    }

    /// The account of `client`; that of a client not seen yet is fresh.
    pub open spec fn account_of(self, client: u16) -> AccountView {
        if self.accounts.contains_key(client) {
            self.accounts[client]
        } else {
            AccountView::fresh()
        }
    }

    /// Whether `tx` names an applied deposit or withdrawal.
    pub open spec fn can_reference(self, tx: u32) -> bool {
        self.processed.contains_key(tx) && self.processed[tx].transaction_type.moves_funds()
    }

    /// Every applied record is a well-formed deposit or withdrawal, filed
    /// under its own identifier.
    pub open spec fn wf(self) -> bool {
        forall|tx: u32| #[trigger]
            self.processed.contains_key(tx) ==> {
                &&& self.processed[tx].transaction_type.moves_funds()
                &&& self.processed[tx].well_formed()
                &&& self.processed[tx].tx == tx
            }
    }

    /// Every account lies within `bound`, see [`AccountView::bounded_by`].
    pub open spec fn bounded_by(self, bound: int) -> bool {
        forall|client: u16| #[trigger]
            self.accounts.contains_key(client) ==> self.accounts[client].bounded_by(bound)
    }
}

/// What `transaction` makes of the account it is addressed to.
///
/// A dispute, resolve or chargeback acts only if its `tx` names an applied
/// deposit or withdrawal, and then with the amount of that record.
pub open spec fn account_after(
    account: AccountView,
    ledger: LedgerView,
    transaction: Transaction,
) -> AccountView {
    let tx = transaction.tx;
    match transaction.transaction_type {
        TransactionType::Deposit => account.deposit(transaction.amount_value()),
        TransactionType::Withdrawal => account.withdraw(transaction.amount_value()),
        TransactionType::Dispute => if ledger.can_reference(tx) {
            account.dispute(tx, ledger.processed[tx].amount_value())
        } else {
            account
        },
        TransactionType::Resolve => if ledger.can_reference(tx) {
            account.resolve(tx, ledger.processed[tx].amount_value())
        } else {
            account
        },
        TransactionType::Chargeback => if ledger.can_reference(tx) {
            account.chargeback(tx, ledger.processed[tx].amount_value())
        } else {
            account
        },
    }
}

/// Whether `transaction` is a deposit or withdrawal that `account` accepts.
/// Only such records are filed for later reference.
pub open spec fn is_applied(account: AccountView, transaction: Transaction) -> bool {
    match transaction.transaction_type {
        TransactionType::Deposit => account.accepts_deposit(),
        TransactionType::Withdrawal => account.accepts_withdrawal(transaction.amount_value()),
        _ => false,
    }
}

/// The state after one record.
///
/// The client's account is created if need be, even when the record has no
/// other effect.
pub open spec fn step(ledger: LedgerView, transaction: Transaction) -> LedgerView {
    let account = ledger.account_of(transaction.client);
    LedgerView {
        accounts: ledger.accounts.insert(
            transaction.client,
            account_after(account, ledger, transaction),
        ),
        processed: if is_applied(account, transaction) {
            ledger.processed.insert(transaction.tx, transaction)
        } else {
            ledger.processed
        },
    }
}

/// The state after a sequence of records, applied in order.
pub open spec fn replay(ledger: LedgerView, transactions: Seq<Transaction>) -> LedgerView
    decreases transactions.len(),
{
    if transactions.len() == 0 {
        ledger
    } else {
        step(replay(ledger, transactions.drop_last()), transactions.last())
    }
}

/// Every record of `transactions` is well-formed.
pub open spec fn all_well_formed(transactions: Seq<Transaction>) -> bool {
    forall|i: int| 0 <= i < transactions.len() ==> (#[trigger] transactions[i]).well_formed()
}

/// The mathematical value of a table of accounts.
pub open spec fn accounts_view(accounts: Map<u16, Account>) -> Map<u16, AccountView> {
    accounts.map_values(|account: Account| account@)
}

/// One record keeps a well-formed ledger well-formed, and moves no balance
/// by more than [`MAX_AMOUNT`].
pub proof fn lemma_step_bounded(ledger: LedgerView, transaction: Transaction, bound: int)
    requires
        ledger.wf(),
        transaction.well_formed(),
        ledger.bounded_by(bound),
        0 <= bound,
    ensures
        step(ledger, transaction).wf(),
        step(ledger, transaction).bounded_by(bound + MAX_AMOUNT),
{
    let account = ledger.account_of(transaction.client);
    let tx = transaction.tx;
    assert(account.bounded_by(bound));
    if ledger.can_reference(tx) {
        assert(ledger.processed.contains_key(tx));
        assert(0 <= ledger.processed[tx].amount_value() <= MAX_AMOUNT);
    }
    assert(account_after(account, ledger, transaction).bounded_by(bound + MAX_AMOUNT));
}

/// The engine: the table of accounts and the table of applied deposits and
/// withdrawals.
pub struct Ledger {
    accounts: HashMap<u16, Account>,
    processed_transactions: HashMap<u32, Transaction>,
}

impl View for Ledger {
    type V = LedgerView;

    closed spec fn view(&self) -> LedgerView {
        LedgerView {
            accounts: accounts_view(self.accounts@),
            processed: self.processed_transactions@,
        }
    }
}

impl Ledger {
    /// An engine that has seen no record.
    pub fn new() -> (ledger: Ledger)
        ensures
            ledger@ == LedgerView::empty(),
    {
        let ledger = Ledger { accounts: HashMap::new(), processed_transactions: HashMap::new() };
        assert(ledger@.accounts =~= Map::empty());
        ledger
    }

    /// The amount of the applied deposit or withdrawal that `tx` names, if
    /// there is one.
    fn referenced_amount(&self, tx: u32) -> (amount: Option<u64>)
        requires
            self@.wf(),
        ensures
            amount.is_some() == self@.can_reference(tx),
            amount matches Some(a) ==> a == self@.processed[tx].amount_value() && a <= MAX_AMOUNT,
    {
        broadcast use vstd::std_specs::hash::group_hash_axioms;

        match self.processed_transactions.get(&tx) {
            Some(referenced) => {
                assert(self@.processed.contains_key(tx));
                if referenced.transaction_type.is_funds_movement() {
                    referenced.amount
                } else {
                    None
                }
            },
            None => None,
        }
    }

    /// Applies one record.
    ///
    /// The balances must leave room for one more amount. By
    /// [`lemma_step_bounded`] every record uses up at most [`MAX_AMOUNT`] of
    /// that room.
    pub fn apply(&mut self, transaction: Transaction)
        requires
            old(self)@.wf(),
            transaction.well_formed(),
            old(self)@.bounded_by(i128::MAX - MAX_AMOUNT),
        ensures
            final(self)@ == step(old(self)@, transaction),
            final(self)@.wf(),
    {
        broadcast use vstd::std_specs::hash::group_hash_axioms;

        let ghost before = self@;
        proof {
            lemma_step_bounded(before, transaction, i128::MAX - MAX_AMOUNT);
        }
        let client = transaction.client;
        let referenced = self.referenced_amount(transaction.tx);
        let mut account = match self.accounts.remove(&client) {
            Some(account) => account,
            None => Account::new(),
        };
        assert(account@ == before.account_of(client));
        assert(account@.bounded_by(i128::MAX - MAX_AMOUNT));
        let mut applied = false;
        match transaction.transaction_type {
            TransactionType::Deposit => {
                if let Some(amount) = transaction.amount {
                    applied = account.deposit(amount);
                }
            },
            TransactionType::Withdrawal => {
                if let Some(amount) = transaction.amount {
                    applied = account.withdraw(amount);
                }
            },
            TransactionType::Dispute => {
                if let Some(amount) = referenced {
                    account.dispute(transaction.tx, amount);
                }
            },
            TransactionType::Resolve => {
                if let Some(amount) = referenced {
                    account.resolve(transaction.tx, amount);
                }
            },
            TransactionType::Chargeback => {
                if let Some(amount) = referenced {
                    account.chargeback(transaction.tx, amount);
                }
            },
        }
        assert(account@ == account_after(before.account_of(client), before, transaction));
        assert(applied == is_applied(before.account_of(client), transaction));
        self.accounts.insert(client, account);
        if applied {
            self.processed_transactions.insert(transaction.tx, transaction);
        }
        assert(self@.accounts =~= step(before, transaction).accounts);
    }

    /// Gives up the engine for its table of accounts.
    pub fn into_accounts(self) -> (accounts: HashMap<u16, Account>)
        ensures
            accounts_view(accounts@) == self@.accounts,
    {
        self.accounts
    }
}

/// Replays `transactions` in order, starting from nothing, and returns the
/// account of every client that occurs in them.
pub fn process_transactions(transactions: Vec<Transaction>) -> (accounts: HashMap<u16, Account>)
    requires
        all_well_formed(transactions@),
    ensures
        accounts_view(accounts@) == replay(LedgerView::empty(), transactions@).accounts,
        forall|client: u16| #[trigger]
            accounts@.contains_key(client) ==> i128::MIN <= accounts@[client]@.total()
                <= i128::MAX,
{
    let mut ledger = Ledger::new();
    let mut i: usize = 0;
    assert(transactions@.take(0) =~= Seq::<Transaction>::empty());
    while i < transactions.len()
        invariant
            i <= transactions.len(),
            all_well_formed(transactions@),
            ledger@ == replay(LedgerView::empty(), transactions@.take(i as int)),
            ledger@.wf(),
            ledger@.bounded_by(i * MAX_AMOUNT),
        decreases transactions.len() - i,
    {
        let transaction = transactions[i];
        proof {
            assert(i * MAX_AMOUNT <= i128::MAX - MAX_AMOUNT) by (nonlinear_arith)
                requires
                    0 <= i < usize::MAX,
                    usize::MAX <= 0xffff_ffff_ffff_ffff,
                    MAX_AMOUNT == 0x7fff_ffff_ffff_ffff,
                    i128::MAX == 0x7fff_ffff_ffff_ffff_ffff_ffff_ffff_ffff,
            ;
            lemma_step_bounded(ledger@, transaction, i * MAX_AMOUNT);
            assert((i + 1) * MAX_AMOUNT == i * MAX_AMOUNT + MAX_AMOUNT) by (nonlinear_arith);
            assert(transactions@.take(i + 1).drop_last() =~= transactions@.take(i as int));
        }
        ledger.apply(transaction);
        i += 1;
    }
    assert(transactions@.take(i as int) =~= transactions@);
    proof {
        assert(i * MAX_AMOUNT <= i128::MAX) by (nonlinear_arith)
            requires
                0 <= i <= usize::MAX,
                usize::MAX <= 0xffff_ffff_ffff_ffff,
                MAX_AMOUNT == 0x7fff_ffff_ffff_ffff,
                i128::MAX == 0x7fff_ffff_ffff_ffff_ffff_ffff_ffff_ffff,
        ;
    }
    let ghost last = ledger@;
    let accounts = ledger.into_accounts();
    assert forall|client: u16| #[trigger] accounts@.contains_key(client) implies i128::MIN
        <= accounts@[client]@.total() <= i128::MAX by {
        assert(last.accounts.contains_key(client));
        assert(last.accounts[client] == accounts@[client]@);
    }
    accounts
}

/// Finds the first record of `transactions` that is not well-formed.
pub fn validate_transactions(transactions: &Vec<Transaction>) -> (checked: Result<
    (),
    RejectedTransaction,
>)
    ensures
        checked.is_ok() == all_well_formed(transactions@),
        checked matches Err(rejected) ==> {
            &&& rejected.index < transactions.len()
            &&& all_well_formed(transactions@.take(rejected.index as int))
            &&& transactions[rejected.index as int].defect() == Some(rejected.reason)
        },
{
    let mut i: usize = 0;
    while i < transactions.len()
        invariant
            i <= transactions.len(),
            all_well_formed(transactions@.take(i as int)),
        decreases transactions.len() - i,
    {
        match transactions[i].validate() {
            Ok(()) => {},
            Err(reason) => {
                assert(!transactions@[i as int].well_formed());
                return Err(RejectedTransaction { index: i, reason });
            },
        }
        assert forall|j: int| 0 <= j < i + 1 implies (#[trigger] transactions@.take(
            i + 1,
        )[j]).well_formed() by {
            if j < i {
                assert(transactions@.take(i as int)[j].well_formed());
            }
        }
        i += 1;
    }
    assert(transactions@.take(i as int) =~= transactions@);
    Ok(())
}

/// Replays `transactions` as [`process_transactions`] does, after checking
/// them: a log with a record that is not well-formed is refused as a whole,
/// with the first such record named.
pub fn try_process_transactions(transactions: Vec<Transaction>) -> (outcome: Result<
    HashMap<u16, Account>,
    RejectedTransaction,
>)
    ensures
        outcome.is_ok() == all_well_formed(transactions@),
        outcome matches Ok(accounts) ==> {
            &&& accounts_view(accounts@) == replay(LedgerView::empty(), transactions@).accounts
            &&& forall|client: u16| #[trigger]
                accounts@.contains_key(client) ==> i128::MIN <= accounts@[client]@.total()
                    <= i128::MAX
        },
        outcome matches Err(rejected) ==> {
            &&& rejected.index < transactions.len()
            &&& all_well_formed(transactions@.take(rejected.index as int))
            &&& transactions[rejected.index as int].defect() == Some(rejected.reason)
        },
{
    match validate_transactions(&transactions) {
        Ok(()) => Ok(process_transactions(transactions)),
        Err(rejected) => Err(rejected),
    }
}

} // verus!
