use ledger_engine::account::Account;
use ledger_engine::ledger::{
    process_transactions, try_process_transactions, validate_transactions, Ledger,
};
use ledger_engine::transaction::{
    RejectedTransaction, Transaction, TransactionError, TransactionType, MAX_AMOUNT,
};

fn deposit(client: u16, tx: u32, amount: u64) -> Transaction {
    Transaction { transaction_type: TransactionType::Deposit, client, tx, amount: Some(amount) }
}

fn withdrawal(client: u16, tx: u32, amount: u64) -> Transaction {
    Transaction { transaction_type: TransactionType::Withdrawal, client, tx, amount: Some(amount) }
}

fn dispute(client: u16, tx: u32) -> Transaction {
    Transaction { transaction_type: TransactionType::Dispute, client, tx, amount: None }
}

fn resolve(client: u16, tx: u32) -> Transaction {
    Transaction { transaction_type: TransactionType::Resolve, client, tx, amount: None }
}

fn chargeback(client: u16, tx: u32) -> Transaction {
    Transaction { transaction_type: TransactionType::Chargeback, client, tx, amount: None }
}

/// The state of one account as (available, held, frozen, disputed).
fn state(account: &Account) -> (i128, i128, bool, Vec<u32>) {
    (account.available, account.held, account.frozen, account.disputed_transactions.clone())
}

fn replay(transactions: Vec<Transaction>, client: u16) -> (i128, i128, bool, Vec<u32>) {
    let accounts = process_transactions(transactions);
    state(accounts.get(&client).unwrap())
}

#[test]
fn empty_log_gives_no_accounts() {
    assert!(process_transactions(vec![]).is_empty());
}

#[test]
fn one_account_per_client_seen() {
    let accounts = process_transactions(vec![
        deposit(3, 1, 10),
        dispute(9, 77),
        withdrawal(5, 2, 1),
    ]);
    assert_eq!(accounts.len(), 3);
    assert_eq!(state(accounts.get(&3).unwrap()), (10, 0, false, vec![]));
    assert_eq!(state(accounts.get(&9).unwrap()), (0, 0, false, vec![]));
    assert_eq!(state(accounts.get(&5).unwrap()), (0, 0, false, vec![]));
}

#[test]
fn deposits_only_add_up() {
    let amounts = [7u64, 0, 250_000, 1, 99_999];
    let log: Vec<Transaction> =
        amounts.iter().enumerate().map(|(i, a)| deposit(4, i as u32, *a)).collect();
    let sum: u64 = amounts.iter().sum();
    assert_eq!(replay(log, 4), (sum as i128, 0, false, vec![]));
}

#[test]
fn overdraft_leaves_the_log_as_if_it_had_not_been_there() {
    let before = vec![deposit(0, 0, 200_000), withdrawal(0, 1, 50_000)];
    let after = vec![dispute(0, 2), deposit(0, 3, 10), chargeback(0, 2), withdrawal(0, 4, 5)];
    let overdraft = withdrawal(0, 2, 150_001);

    let mut with = before.clone();
    with.push(overdraft);
    with.extend(after.iter().copied());
    let mut without = before.clone();
    without.extend(after.iter().copied());

    assert_eq!(replay(with, 0), replay(without, 0));
    assert_eq!(
        replay(vec![deposit(0, 0, 200_000), withdrawal(0, 1, 50_000), overdraft], 0),
        (150_000, 0, false, vec![])
    );
}

#[test]
fn withdrawal_of_exactly_the_available_funds_is_applied() {
    assert_eq!(
        replay(vec![deposit(0, 0, 120), withdrawal(0, 1, 120)], 0),
        (0, 0, false, vec![])
    );
}

#[test]
fn refused_withdrawal_cannot_be_disputed() {
    assert_eq!(
        replay(vec![deposit(0, 0, 100), withdrawal(0, 1, 101), dispute(0, 1)], 0),
        (100, 0, false, vec![])
    );
}

#[test]
fn dispute_of_unknown_tx_changes_nothing() {
    let log = vec![deposit(0, 0, 200_000), withdrawal(0, 1, 50_000)];
    let mut disputed = log.clone();
    disputed.push(dispute(0, 2));
    assert_eq!(replay(disputed, 0), replay(log, 0));
}

#[test]
fn dispute_holds_the_amount_of_the_referenced_record() {
    let disputing = Transaction {
        transaction_type: TransactionType::Dispute,
        client: 0,
        tx: 1,
        amount: Some(999),
    };
    assert_eq!(
        replay(vec![deposit(0, 0, 200_000), withdrawal(0, 1, 50_000), disputing], 0),
        (150_000, 50_000, false, vec![1])
    );
}

#[test]
fn second_dispute_of_the_same_tx_is_ignored() {
    assert_eq!(
        replay(vec![deposit(0, 0, 200_000), dispute(0, 0), dispute(0, 0)], 0),
        (200_000, 200_000, false, vec![0])
    );
    assert_eq!(
        replay(vec![deposit(0, 0, 200_000), dispute(0, 0), dispute(0, 0), resolve(0, 0)], 0),
        (400_000, 0, false, vec![])
    );
}

#[test]
fn disputes_are_listed_in_the_order_they_were_opened() {
    let log = vec![
        deposit(0, 10, 1),
        deposit(0, 11, 2),
        deposit(0, 12, 4),
        dispute(0, 12),
        dispute(0, 10),
        dispute(0, 11),
    ];
    assert_eq!(replay(log.clone(), 0), (7, 7, false, vec![12, 10, 11]));
    let mut resolved = log;
    resolved.push(resolve(0, 10));
    assert_eq!(replay(resolved, 0), (8, 6, false, vec![12, 11]));
}

#[test]
fn dispute_then_resolve_restores_held_and_releases_the_amount() {
    let log = vec![deposit(0, 0, 200_000), withdrawal(0, 1, 50_000)];
    let before = replay(log.clone(), 0);
    let mut round_trip = log;
    round_trip.push(dispute(0, 1));
    round_trip.push(resolve(0, 1));
    let after = replay(round_trip, 0);
    assert_eq!(after.1, before.1);
    assert_eq!(after.0, before.0 + 50_000);
    assert_eq!(after.3, before.3);
    assert!(!after.2);
}

#[test]
fn dispute_then_resolve_of_a_zero_amount_changes_nothing() {
    let log = vec![deposit(0, 0, 0), deposit(0, 1, 30)];
    let before = replay(log.clone(), 0);
    let mut round_trip = log;
    round_trip.push(dispute(0, 0));
    round_trip.push(resolve(0, 0));
    assert_eq!(replay(round_trip, 0), before);
}

#[test]
fn dispute_then_chargeback_freezes_for_good() {
    let log = vec![
        deposit(0, 0, 200_000),
        withdrawal(0, 1, 50_000),
        dispute(0, 1),
        chargeback(0, 1),
    ];
    assert_eq!(replay(log.clone(), 0), (150_000, 0, true, vec![]));
    let mut later = log;
    later.push(deposit(0, 2, 10));
    later.push(withdrawal(0, 3, 10));
    later.push(dispute(0, 0));
    later.push(resolve(0, 0));
    assert_eq!(replay(later, 0), (350_000, 0, true, vec![]));
}

#[test]
fn frozen_account_ignores_deposits_and_withdrawals() {
    let log = vec![
        deposit(0, 0, 100),
        dispute(0, 0),
        chargeback(0, 0),
        deposit(0, 1, 40),
        withdrawal(0, 2, 10),
    ];
    assert_eq!(replay(log.clone(), 0), (100, 0, true, vec![]));
    // The refused deposit was never applied, so it cannot be disputed.
    let mut later = log;
    later.push(dispute(0, 1));
    assert_eq!(replay(later, 0), (100, 0, true, vec![]));
}

#[test]
fn frozen_account_still_takes_chargebacks_of_open_disputes() {
    let log = vec![
        deposit(0, 0, 100),
        deposit(0, 1, 30),
        dispute(0, 0),
        dispute(0, 1),
        chargeback(0, 0),
        chargeback(0, 1),
    ];
    assert_eq!(replay(log, 0), (130, 0, true, vec![]));
}

#[test]
fn resolve_or_chargeback_of_a_tx_not_under_dispute_changes_nothing() {
    let log = vec![deposit(0, 0, 200_000), withdrawal(0, 1, 50_000), dispute(0, 1)];
    let before = replay(log.clone(), 0);
    for closing in [resolve(0, 0), chargeback(0, 0), resolve(0, 5), chargeback(0, 5)] {
        let mut with = log.clone();
        with.push(closing);
        assert_eq!(replay(with, 0), before);
    }
}

#[test]
fn held_may_go_below_zero() {
    // The dispute is opened by another client than the one who deposited;
    // nothing keeps a balance from going negative.
    let log = vec![deposit(1, 0, 50), dispute(2, 0), chargeback(2, 0), resolve(1, 0)];
    let accounts = process_transactions(log);
    assert_eq!(state(accounts.get(&1).unwrap()), (50, 0, false, vec![]));
    assert_eq!(state(accounts.get(&2).unwrap()), (0, 0, true, vec![]));

    let reused = vec![deposit(0, 7, 5), dispute(0, 7), deposit(0, 7, 100), resolve(0, 7)];
    assert_eq!(replay(reused, 0), (205, -95, false, vec![]));
}

#[test]
fn clients_do_not_touch_each_other() {
    let log = vec![
        deposit(1, 0, 10),
        deposit(2, 1, 20),
        withdrawal(1, 2, 4),
        dispute(2, 1),
        chargeback(2, 1),
        deposit(1, 3, 1),
    ];
    let accounts = process_transactions(log);
    assert_eq!(state(accounts.get(&1).unwrap()), (7, 0, false, vec![]));
    assert_eq!(state(accounts.get(&2).unwrap()), (20, 0, true, vec![]));
}

#[test]
fn largest_amounts_add_up_without_wrapping() {
    let log = vec![deposit(0, 0, MAX_AMOUNT), deposit(0, 1, MAX_AMOUNT), dispute(0, 0)];
    let accounts = process_transactions(log);
    let account = accounts.get(&0).unwrap();
    assert_eq!(account.available, 2 * MAX_AMOUNT as i128);
    assert_eq!(account.held, MAX_AMOUNT as i128);
    assert_eq!(account.total_funds(), 3 * MAX_AMOUNT as i128);
}

#[test]
fn ledger_applies_records_one_by_one() {
    let mut ledger = Ledger::new();
    ledger.apply(deposit(0, 0, 200_000));
    ledger.apply(withdrawal(0, 1, 50_000));
    ledger.apply(dispute(0, 1));
    let accounts = ledger.into_accounts();
    assert_eq!(state(accounts.get(&0).unwrap()), (150_000, 50_000, false, vec![1]));
}

#[test]
fn account_methods_follow_the_rules() {
    let mut account = Account::new();
    assert_eq!(state(&account), (0, 0, false, vec![]));
    assert!(account.deposit(20));
    assert!(!account.withdraw(21));
    assert!(account.withdraw(5));
    assert_eq!(state(&account), (15, 0, false, vec![]));
    account.dispute(8, 5);
    account.dispute(8, 5);
    assert!(account.is_disputed(8));
    assert!(!account.is_disputed(9));
    assert_eq!(state(&account), (15, 5, false, vec![8]));
    account.resolve(9, 5);
    assert_eq!(state(&account), (15, 5, false, vec![8]));
    account.chargeback(8, 5);
    assert_eq!(state(&account), (15, 0, true, vec![]));
    assert!(!account.deposit(1));
    assert!(!account.withdraw(1));
    assert_eq!(account.total_funds(), 15);
}

#[test]
fn closing_a_dispute_takes_out_every_occurrence() {
    let mut account = Account {
        disputed_transactions: vec![3, 1, 3, 2, 3],
        frozen: false,
        held: 10,
        available: 0,
    };
    account.resolve(3, 4);
    assert_eq!(state(&account), (4, 6, false, vec![1, 2]));
}

#[test]
fn validation_names_what_is_wrong() {
    assert_eq!(deposit(0, 0, MAX_AMOUNT).validate(), Ok(()));
    assert_eq!(deposit(0, 0, MAX_AMOUNT + 1).validate(), Err(TransactionError::AmountTooLarge));
    assert_eq!(withdrawal(0, 0, u64::MAX).validate(), Err(TransactionError::AmountTooLarge));
    let bare = Transaction {
        transaction_type: TransactionType::Withdrawal,
        client: 0,
        tx: 0,
        amount: None,
    };
    assert_eq!(bare.validate(), Err(TransactionError::MissingAmount));
    assert_eq!(dispute(0, 0).validate(), Ok(()));
    let loud = Transaction {
        transaction_type: TransactionType::Chargeback,
        client: 0,
        tx: 0,
        amount: Some(u64::MAX),
    };
    assert_eq!(loud.validate(), Ok(()));
    assert!(TransactionType::Deposit.is_funds_movement());
    assert!(TransactionType::Withdrawal.is_funds_movement());
    assert!(!TransactionType::Dispute.is_funds_movement());
    assert!(!TransactionType::Resolve.is_funds_movement());
    assert!(!TransactionType::Chargeback.is_funds_movement());
}

#[test]
fn a_log_with_a_bad_record_is_refused_whole() {
    let bare = Transaction {
        transaction_type: TransactionType::Deposit,
        client: 0,
        tx: 1,
        amount: None,
    };
    let log = vec![deposit(0, 0, 5), bare, deposit(0, 2, MAX_AMOUNT + 1)];
    let rejected = RejectedTransaction { index: 1, reason: TransactionError::MissingAmount };
    assert_eq!(validate_transactions(&log), Err(rejected));
    assert_eq!(try_process_transactions(log).err(), Some(rejected));

    let good = vec![deposit(0, 0, 5), withdrawal(0, 1, 2)];
    assert_eq!(validate_transactions(&good), Ok(()));
    let accounts = try_process_transactions(good).unwrap();
    assert_eq!(state(accounts.get(&0).unwrap()), (3, 0, false, vec![]));
}

#[test]
fn worked_example_step_by_step() {
    let tx0 = deposit(0, 0, 200_000);
    let tx1 = withdrawal(0, 1, 50_000);
    assert_eq!(replay(vec![tx0], 0), (200_000, 0, false, vec![]));
    assert_eq!(replay(vec![tx0, tx1], 0), (150_000, 0, false, vec![]));

    let disputed = process_transactions(vec![tx0, tx1, dispute(0, 1)]);
    let account = disputed.get(&0).unwrap();
    assert_eq!(state(account), (150_000, 50_000, false, vec![1]));
    assert_eq!(account.total_funds(), 200_000);

    assert_eq!(
        replay(vec![tx0, tx1, dispute(0, 1), resolve(0, 1)], 0),
        (200_000, 0, false, vec![])
    );

    let charged = process_transactions(vec![tx0, tx1, dispute(0, 1), chargeback(0, 1)]);
    let account = charged.get(&0).unwrap();
    assert_eq!(state(account), (150_000, 0, true, vec![]));
    assert_eq!(account.total_funds(), 150_000);

    assert_eq!(
        replay(vec![tx0, tx1, dispute(0, 1), chargeback(0, 5)], 0),
        (150_000, 50_000, false, vec![1])
    );
}
