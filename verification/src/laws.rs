//! What holds of the state machine in [`crate::ledger`], proved for every
//! state and every record.

use crate::account::{
    lemma_without_absent, lemma_without_contains, lemma_without_keeps_distinct,
    lemma_without_push, AccountView,
};
use crate::ledger::{account_after, is_applied, replay, step, LedgerView};
use crate::transaction::{Transaction, TransactionType, MAX_AMOUNT};
use vstd::prelude::*;

verus! {

/// Two states that no later record can tell apart: the same applied records,
/// and for every client the same account, where a client without an account
/// counts as having a fresh one.
pub open spec fn indistinguishable(a: LedgerView, b: LedgerView) -> bool {
    &&& a.processed == b.processed
    &&& forall|client: u16| #[trigger] a.account_of(client) == b.account_of(client)
}

/// The amounts of `transactions`, added up.
pub open spec fn sum_of_amounts(transactions: Seq<Transaction>) -> int
    decreases transactions.len(),
{
    if transactions.len() == 0 {
        0
    } else {
        sum_of_amounts(transactions.drop_last()) + transactions.last().amount_value()
    }
}

/// Every record of `transactions` is a deposit for `client`.
pub open spec fn only_deposits_for(transactions: Seq<Transaction>, client: u16) -> bool {
    forall|i: int|
        0 <= i < transactions.len() ==> {
            &&& (#[trigger] transactions[i]).transaction_type == TransactionType::Deposit
            &&& transactions[i].client == client
        }
}

/// No identifier occurs twice in the disputed list of any account.
pub open spec fn disputes_distinct(ledger: LedgerView) -> bool {
    forall|client: u16| #[trigger]
        ledger.accounts.contains_key(client) ==> ledger.accounts[client].disputed.no_duplicates()
}

/// Replaying two logs one after the other is replaying them joined.
pub proof fn lemma_replay_concat(ledger: LedgerView, first: Seq<Transaction>, second: Seq<Transaction>)
    ensures
        replay(ledger, first + second) == replay(replay(ledger, first), second),
    decreases second.len(),
{
    if second.len() == 0 {
        assert(first + second =~= first);
    } else {
        assert((first + second).drop_last() =~= first + second.drop_last());
        assert((first + second).last() == second.last());
        lemma_replay_concat(ledger, first, second.drop_last());
    }
}

/// Replaying a single record is one step.
pub proof fn lemma_replay_one(ledger: LedgerView, transaction: Transaction)
    ensures
        replay(ledger, seq![transaction]) == step(ledger, transaction),
{
    let one = seq![transaction];
    assert(one.drop_last() =~= Seq::<Transaction>::empty());
    assert(one.last() == transaction);
    assert(replay(ledger, one.drop_last()) == ledger);
}

/// After nothing but deposits for one client, that client's available funds
/// are the sum of the amounts, nothing is held, and the account is neither
/// frozen nor under dispute.
pub proof fn lemma_deposits_add_up(transactions: Seq<Transaction>, client: u16)
    requires
        only_deposits_for(transactions, client),
    ensures
        replay(LedgerView::empty(), transactions).account_of(client) == (AccountView {
            available: sum_of_amounts(transactions),
            held: 0,
            frozen: false,
            disputed: Seq::empty(),
        }),
    decreases transactions.len(),
{
    if transactions.len() > 0 {
        let front = transactions.drop_last();
        assert(only_deposits_for(front, client)) by {
            assert forall|i: int| 0 <= i < front.len() implies {
                &&& (#[trigger] front[i]).transaction_type == TransactionType::Deposit
                &&& front[i].client == client
            } by {
                assert(front[i] == transactions[i]);
            }
        }
        lemma_deposits_add_up(front, client);
        assert(transactions[transactions.len() - 1].transaction_type == TransactionType::Deposit);
    }
}

/// A withdrawal of more than is available changes nothing: no balance, no
/// dispute, no applied record. Only the client's account comes into being if
/// it did not exist.
pub proof fn lemma_overdraft_changes_nothing(ledger: LedgerView, withdrawal: Transaction)
    requires
        withdrawal.transaction_type == TransactionType::Withdrawal,
        withdrawal.amount_value() > ledger.account_of(withdrawal.client).available,
    ensures
        indistinguishable(step(ledger, withdrawal), ledger),
        step(ledger, withdrawal).accounts == ledger.accounts.insert(
            withdrawal.client,
            ledger.account_of(withdrawal.client),
        ),
{
}

/// States that cannot be told apart stay so after any record.
pub proof fn lemma_step_respects_indistinguishable(
    a: LedgerView,
    b: LedgerView,
    transaction: Transaction,
)
    requires
        indistinguishable(a, b),
    ensures
        indistinguishable(step(a, transaction), step(b, transaction)),
{
    let client = transaction.client;
    assert(a.account_of(client) == b.account_of(client));
    assert(a.can_reference(transaction.tx) == b.can_reference(transaction.tx));
    assert(account_after(a.account_of(client), a, transaction) == account_after(
        b.account_of(client),
        b,
        transaction,
    ));
    assert forall|other: u16| #[trigger]
        step(a, transaction).account_of(other) == step(b, transaction).account_of(other) by {
        assert(a.account_of(other) == b.account_of(other));
    }
}

/// States that cannot be told apart stay so after any log.
pub proof fn lemma_replay_respects_indistinguishable(
    a: LedgerView,
    b: LedgerView,
    transactions: Seq<Transaction>,
)
    requires
        indistinguishable(a, b),
    ensures
        indistinguishable(replay(a, transactions), replay(b, transactions)),
    decreases transactions.len(),
{
    if transactions.len() > 0 {
        lemma_replay_respects_indistinguishable(a, b, transactions.drop_last());
        lemma_step_respects_indistinguishable(
            replay(a, transactions.drop_last()),
            replay(b, transactions.drop_last()),
            transactions.last(),
        );
    }
}

/// A log with a withdrawal that exceeds the funds available at its place
/// ends in the same balances as the log without that record.
pub proof fn lemma_overdraft_can_be_dropped(
    before: Seq<Transaction>,
    withdrawal: Transaction,
    after: Seq<Transaction>,
)
    requires
        withdrawal.transaction_type == TransactionType::Withdrawal,
        withdrawal.amount_value() > replay(LedgerView::empty(), before).account_of(
            withdrawal.client,
        ).available,
    ensures
        indistinguishable(
            replay(LedgerView::empty(), before + seq![withdrawal] + after),
            replay(LedgerView::empty(), before + after),
        ),
{
    let start = LedgerView::empty();
    let reached = replay(start, before);
    lemma_replay_concat(start, before, seq![withdrawal]);
    lemma_replay_one(reached, withdrawal);
    lemma_replay_concat(start, before + seq![withdrawal], after);
    lemma_replay_concat(start, before, after);
    lemma_overdraft_changes_nothing(reached, withdrawal);
    lemma_replay_respects_indistinguishable(step(reached, withdrawal), reached, after);
}

/// A dispute, resolve or chargeback whose `tx` names no applied deposit or
/// withdrawal changes nothing: the disputed list, the available and the held
/// funds of every account stay as they were.
pub proof fn lemma_unknown_reference_changes_nothing(ledger: LedgerView, transaction: Transaction)
    requires
        !transaction.transaction_type.moves_funds(),
        !ledger.can_reference(transaction.tx),
    ensures
        indistinguishable(step(ledger, transaction), ledger),
        step(ledger, transaction).accounts == ledger.accounts.insert(
            transaction.client,
            ledger.account_of(transaction.client),
        ),
{
}

/// A dispute followed by its resolution gives back the held funds and the
/// disputed list from before the dispute and applies no record; the
/// available funds end up higher by the disputed amount.
pub proof fn lemma_dispute_then_resolve(ledger: LedgerView, dispute: Transaction, resolve: Transaction)
    requires
        dispute.transaction_type == TransactionType::Dispute,
        resolve.transaction_type == TransactionType::Resolve,
        resolve.client == dispute.client,
        resolve.tx == dispute.tx,
        ledger.can_reference(dispute.tx),
        !ledger.account_of(dispute.client).disputed.contains(dispute.tx),
    ensures
        step(ledger, dispute).account_of(dispute.client).disputed.contains(dispute.tx),
        step(step(ledger, dispute), resolve).processed == ledger.processed,
        step(step(ledger, dispute), resolve).account_of(dispute.client) == (AccountView {
            available: ledger.account_of(dispute.client).available
                + ledger.processed[dispute.tx].amount_value(),
            ..ledger.account_of(dispute.client)
        }),
        !step(step(ledger, dispute), resolve).account_of(dispute.client).disputed.contains(
            dispute.tx,
        ),
{
    let tx = dispute.tx;
    let account = ledger.account_of(dispute.client);
    let opened = step(ledger, dispute);
    let held = opened.account_of(dispute.client);
    assert(held.disputed == account.disputed.push(tx));
    assert(held.disputed[account.disputed.len() as int] == tx);
    lemma_without_push(account.disputed, tx, tx);
    lemma_without_absent(account.disputed, tx);
    assert(opened.can_reference(tx));
    assert(opened.processed == ledger.processed);
}

/// Where the disputed record carries a zero amount, a dispute followed by
/// its resolution leaves every balance as it was before the dispute.
pub proof fn lemma_dispute_then_resolve_of_nothing(
    ledger: LedgerView,
    dispute: Transaction,
    resolve: Transaction,
)
    requires
        dispute.transaction_type == TransactionType::Dispute,
        resolve.transaction_type == TransactionType::Resolve,
        resolve.client == dispute.client,
        resolve.tx == dispute.tx,
        ledger.can_reference(dispute.tx),
        !ledger.account_of(dispute.client).disputed.contains(dispute.tx),
        ledger.processed[dispute.tx].amount_value() == 0,
    ensures
        indistinguishable(step(step(ledger, dispute), resolve), ledger),
{
    lemma_dispute_then_resolve(ledger, dispute, resolve);
    let end = step(step(ledger, dispute), resolve);
    assert forall|client: u16| #[trigger] end.account_of(client) == ledger.account_of(client) by {
        if client != dispute.client {
            lemma_step_leaves_other_clients(ledger, dispute, client);
            lemma_step_leaves_other_clients(step(ledger, dispute), resolve, client);
        }
    }
}

/// A dispute followed by its chargeback freezes the account, takes the
/// disputed amount out of the held funds, leaves the available funds alone
/// and closes the dispute.
pub proof fn lemma_dispute_then_chargeback(
    ledger: LedgerView,
    dispute: Transaction,
    chargeback: Transaction,
)
    requires
        dispute.transaction_type == TransactionType::Dispute,
        chargeback.transaction_type == TransactionType::Chargeback,
        chargeback.client == dispute.client,
        chargeback.tx == dispute.tx,
        ledger.can_reference(dispute.tx),
    ensures
        ({
            let opened = step(ledger, dispute).account_of(dispute.client);
            let closed = step(step(ledger, dispute), chargeback).account_of(dispute.client);
            &&& closed.frozen
            &&& closed.held == opened.held - ledger.processed[dispute.tx].amount_value()
            &&& closed.available == opened.available
            &&& !closed.disputed.contains(dispute.tx)
        }),
{
    let tx = dispute.tx;
    let account = ledger.account_of(dispute.client);
    let opened = step(ledger, dispute);
    let held = opened.account_of(dispute.client);
    if !account.disputed.contains(tx) {
        assert(held.disputed == account.disputed.push(tx));
        assert(held.disputed[account.disputed.len() as int] == tx);
    }
    assert(held.disputed.contains(tx));
    assert(opened.can_reference(tx));
    assert(opened.processed == ledger.processed);
    lemma_without_contains(held.disputed, tx, tx);
}

/// An account that is frozen stays frozen after any record.
pub proof fn lemma_step_keeps_frozen(ledger: LedgerView, transaction: Transaction, client: u16)
    requires
        ledger.account_of(client).frozen,
    ensures
        step(ledger, transaction).account_of(client).frozen,
{
}

/// An account that is frozen stays frozen after any log.
pub proof fn lemma_frozen_is_permanent(
    ledger: LedgerView,
    transactions: Seq<Transaction>,
    client: u16,
)
    requires
        ledger.account_of(client).frozen,
    ensures
        replay(ledger, transactions).account_of(client).frozen,
    decreases transactions.len(),
{
    if transactions.len() > 0 {
        lemma_frozen_is_permanent(ledger, transactions.drop_last(), client);
        lemma_step_keeps_frozen(
            replay(ledger, transactions.drop_last()),
            transactions.last(),
            client,
        );
    }
}

/// A frozen account ignores deposits and withdrawals: the funds stay as
/// they were and the record is not applied.
pub proof fn lemma_frozen_ignores_funds_movements(ledger: LedgerView, transaction: Transaction)
    requires
        transaction.transaction_type.moves_funds(),
        ledger.account_of(transaction.client).frozen,
    ensures
        indistinguishable(step(ledger, transaction), ledger),
{
}

/// A resolve or chargeback of a `tx` that is not under dispute on the
/// client's account changes nothing.
pub proof fn lemma_closing_unopened_dispute_changes_nothing(
    ledger: LedgerView,
    transaction: Transaction,
)
    requires
        transaction.transaction_type == TransactionType::Resolve || transaction.transaction_type
            == TransactionType::Chargeback,
        !ledger.account_of(transaction.client).disputed.contains(transaction.tx),
    ensures
        indistinguishable(step(ledger, transaction), ledger),
        step(ledger, transaction).accounts == ledger.accounts.insert(
            transaction.client,
            ledger.account_of(transaction.client),
        ),
        ledger.accounts.contains_key(transaction.client) ==> step(ledger, transaction) == ledger,
{
    if ledger.accounts.contains_key(transaction.client) {
        assert(step(ledger, transaction).accounts =~= ledger.accounts);
    }
}

/// A record touches no account but that of its own client.
pub proof fn lemma_step_leaves_other_clients(
    ledger: LedgerView,
    transaction: Transaction,
    other: u16,
)
    requires
        other != transaction.client,
    ensures
        step(ledger, transaction).accounts.contains_key(other) == ledger.accounts.contains_key(
            other,
        ),
        step(ledger, transaction).account_of(other) == ledger.account_of(other),
{
}

/// Starting from nothing, the clients that have an account after a log are
/// exactly the clients that the log names.
pub proof fn lemma_accounts_are_the_clients_seen(transactions: Seq<Transaction>, client: u16)
    ensures
        replay(LedgerView::empty(), transactions).accounts.contains_key(client) <==> exists|i: int|
            0 <= i < transactions.len() && (#[trigger] transactions[i]).client == client,
    decreases transactions.len(),
{
    if transactions.len() > 0 {
        let front = transactions.drop_last();
        let last = transactions.last();
        lemma_accounts_are_the_clients_seen(front, client);
        if replay(LedgerView::empty(), transactions).accounts.contains_key(client) {
            if last.client == client {
                assert(transactions[transactions.len() - 1].client == client);
            } else {
                let i = choose|i: int| 0 <= i < front.len() && (#[trigger] front[i]).client == client;
                assert(transactions[i].client == client);
            }
        }
        if exists|i: int| 0 <= i < transactions.len() && (#[trigger] transactions[i]).client == client {
            let i = choose|i: int|
                0 <= i < transactions.len() && (#[trigger] transactions[i]).client == client;
            if i < front.len() {
                assert(front[i].client == client);
            }
        }
    }
}

/// Applied records are never taken back: what could be referenced before a
/// record can be referenced after it.
pub proof fn lemma_step_keeps_references(ledger: LedgerView, transaction: Transaction, tx: u32)
    requires
        ledger.can_reference(tx),
    ensures
        step(ledger, transaction).can_reference(tx),
{
    let account = ledger.account_of(transaction.client);
    if is_applied(account, transaction) {
        assert(transaction.transaction_type.moves_funds());
    }
}

/// No record makes an identifier occur twice in a disputed list.
pub proof fn lemma_step_keeps_disputes_distinct(ledger: LedgerView, transaction: Transaction)
    requires
        disputes_distinct(ledger),
    ensures
        disputes_distinct(step(ledger, transaction)),
{
    let client = transaction.client;
    let account = ledger.account_of(client);
    assert(account.disputed.no_duplicates());
    lemma_without_keeps_distinct(account.disputed, transaction.tx);
    let next = account_after(account, ledger, transaction);
    assert(next.disputed.no_duplicates());
}

/// Starting from nothing, no log makes an identifier occur twice in a
/// disputed list.
pub proof fn lemma_replay_keeps_disputes_distinct(transactions: Seq<Transaction>)
    ensures
        disputes_distinct(replay(LedgerView::empty(), transactions)),
    decreases transactions.len(),
{
    if transactions.len() > 0 {
        lemma_replay_keeps_disputes_distinct(transactions.drop_last());
        lemma_step_keeps_disputes_distinct(
            replay(LedgerView::empty(), transactions.drop_last()),
            transactions.last(),
        );
    }
}

/// Starting from nothing, a log of well-formed records leaves a well-formed
/// ledger in which no balance is further from zero than [`MAX_AMOUNT`]
/// times the number of records.
pub proof fn lemma_replay_bounded(transactions: Seq<Transaction>)
    requires
        crate::ledger::all_well_formed(transactions),
    ensures
        replay(LedgerView::empty(), transactions).wf(),
        replay(LedgerView::empty(), transactions).bounded_by(transactions.len() * MAX_AMOUNT),
    decreases transactions.len(),
{
    if transactions.len() > 0 {
        let front = transactions.drop_last();
        assert(crate::ledger::all_well_formed(front)) by {
            assert forall|i: int| 0 <= i < front.len() implies (#[trigger] front[i]).well_formed() by {
                assert(front[i] == transactions[i]);
            }
        }
        lemma_replay_bounded(front);
        assert(transactions[transactions.len() - 1].well_formed());
        crate::ledger::lemma_step_bounded(
            replay(LedgerView::empty(), front),
            transactions.last(),
            front.len() * MAX_AMOUNT,
        );
        assert(front.len() * MAX_AMOUNT + MAX_AMOUNT == transactions.len() * MAX_AMOUNT)
            by (nonlinear_arith)
            requires
                front.len() + 1 == transactions.len(),
        ;
    }
}

} // verus!
