//! Per-client balances and the effect of each event on them.

use vstd::prelude::*;

verus! {

/// The test "is not `tx`" as a predicate on identifiers.
pub open spec fn differs_from(tx: u32) -> spec_fn(u32) -> bool {
    |other: u32| other != tx
}

/// The identifiers of `ids` other than `tx`, in their order.
pub open spec fn without(ids: Seq<u32>, tx: u32) -> Seq<u32> {
    ids.filter(differs_from(tx))
}

/// The mathematical value of an [`Account`].
pub struct AccountView {
    /// Funds the client may withdraw.
    pub available: int,
    /// Funds set aside while a dispute is open.
    pub held: int,
    /// Set by a chargeback, never cleared.
    pub frozen: bool,
    /// Identifiers under dispute, oldest dispute first.
    pub disputed: Seq<u32>,
}

impl AccountView {
    /// The account of a client that has not been seen yet.
    pub open spec fn fresh() -> AccountView {
        AccountView { available: 0, held: 0, frozen: false, disputed: Seq::empty() }
    }

    /// Available and held funds together.
    pub open spec fn total(self) -> int {
        self.available + self.held
    }

    /// `disputed` with every occurrence of `tx` taken out.
    pub open spec fn disputed_without(self, tx: u32) -> Seq<u32> {
        without(self.disputed, tx)
    }

    /// Whether a deposit changes the account: only while it is not frozen.
    pub open spec fn accepts_deposit(self) -> bool {
        !self.frozen
    }

    /// Whether a withdrawal of `amount` changes the account: only while it is
    /// not frozen and the available funds cover the amount.
    pub open spec fn accepts_withdrawal(self, amount: int) -> bool {
        !self.frozen && amount <= self.available
    }

    /// A deposit adds to the available funds.
    pub open spec fn deposit(self, amount: int) -> AccountView {
        if self.accepts_deposit() {
            AccountView { available: self.available + amount, ..self }
        } else {
            self
        }
    }

    /// A withdrawal takes from the available funds.
    pub open spec fn withdraw(self, amount: int) -> AccountView {
        if self.accepts_withdrawal(amount) {
            AccountView { available: self.available - amount, ..self }
        } else {
            self
        }
    }

    /// Opening a dispute on `tx` holds `amount`; a `tx` that is already under
    /// dispute is left as it is.
    pub open spec fn dispute(self, tx: u32, amount: int) -> AccountView {
        if self.disputed.contains(tx) {
            self
        } else {
            AccountView { held: self.held + amount, disputed: self.disputed.push(tx), ..self }
        }
    }

    /// Resolving an open dispute releases the held amount to the available
    /// funds.
    pub open spec fn resolve(self, tx: u32, amount: int) -> AccountView {
        if self.disputed.contains(tx) {
            AccountView {
                available: self.available + amount,
                held: self.held - amount,
                disputed: self.disputed_without(tx),
                ..self
            }
        } else {
            self
        }
    }

    /// Charging back an open dispute removes the held amount and freezes the
    /// account.
    pub open spec fn chargeback(self, tx: u32, amount: int) -> AccountView {
        if self.disputed.contains(tx) {
            AccountView {
                held: self.held - amount,
                frozen: true,
                disputed: self.disputed_without(tx),
                ..self
            }
        } else {
            self
        }
    }

    /// Each of `available`, `held` and their sum lies within `bound` of zero.
    pub open spec fn bounded_by(self, bound: int) -> bool {
        &&& -bound <= self.available <= bound
        &&& -bound <= self.held <= bound
        &&& -bound <= self.total() <= bound
    }
}

/// The balances of one client.
#[derive(Clone, Debug)]
pub struct Account {
    pub disputed_transactions: Vec<u32>,
    pub frozen: bool,
    pub held: i128,
    pub available: i128,
}

impl View for Account {
    type V = AccountView;

    open spec fn view(&self) -> AccountView {
        AccountView {
            available: self.available as int,
            held: self.held as int,
            frozen: self.frozen,
            disputed: self.disputed_transactions@,
        }
    }
}

impl Account {
    /// An account with no funds, no open dispute, not frozen.
    pub fn new() -> (account: Account)
        ensures
            account@ == AccountView::fresh(),
    {
        Account { disputed_transactions: Vec::new(), frozen: false, held: 0, available: 0 }
    }

    /// Whether `transaction_id` is under dispute on this account.
    pub fn is_disputed(&self, transaction_id: u32) -> (found: bool)
        ensures
            found == self@.disputed.contains(transaction_id),
    {
        let mut i: usize = 0;
        while i < self.disputed_transactions.len()
            invariant
                i <= self.disputed_transactions.len(),
                forall|j: int| 0 <= j < i ==> self.disputed_transactions@[j] != transaction_id,
            decreases self.disputed_transactions.len() - i,
        {
            if self.disputed_transactions[i] == transaction_id {
                return true;
            }
            i += 1;
        }
        false
    }

    /// Takes every occurrence of `transaction_id` out of the disputed list,
    /// keeping the order of the rest.
    fn close_dispute(&mut self, transaction_id: u32)
        ensures
            final(self)@ == (AccountView {
                disputed: old(self)@.disputed_without(transaction_id),
                ..old(self)@
            }),
    {
        let ghost before = self@;
        let mut kept: Vec<u32> = Vec::new();
        let mut i: usize = 0;
        proof {
            assert(before.disputed.take(0) =~= Seq::<u32>::empty());
            lemma_without_empty(transaction_id);
        }
        while i < self.disputed_transactions.len()
            invariant
                i <= self.disputed_transactions.len(),
                self@ == before,
                kept@ == without(before.disputed.take(i as int), transaction_id),
            decreases self.disputed_transactions.len() - i,
        {
            let other = self.disputed_transactions[i];
            proof {
                assert(before.disputed.take(i + 1) =~= before.disputed.take(i as int).push(other));
                lemma_without_push(before.disputed.take(i as int), other, transaction_id);
            }
            if other != transaction_id {
                kept.push(other);
            }
            i += 1;
        }
        proof {
            assert(before.disputed.take(i as int) =~= before.disputed);
        }
        self.disputed_transactions = kept;
    }

    /// Applies a deposit of `amount`. Returns whether the account accepted
    /// it; a frozen account does not, and stays as it is.
    pub fn deposit(&mut self, amount: u64) -> (applied: bool)
        requires
            old(self)@.accepts_deposit() ==> old(self).available + amount <= i128::MAX,
        ensures
            applied == old(self)@.accepts_deposit(),
            final(self)@ == old(self)@.deposit(amount as int),
    {
        if self.frozen {
            return false;
        }
        self.available = self.available + amount as i128;
        true
    }

    /// Applies a withdrawal of `amount`. Returns whether the account accepted
    /// it; a frozen account, or one with less than `amount` available, does
    /// not, and stays as it is.
    pub fn withdraw(&mut self, amount: u64) -> (applied: bool)
        ensures
            applied == old(self)@.accepts_withdrawal(amount as int),
            final(self)@ == old(self)@.withdraw(amount as int),
    {
        if self.frozen || amount as i128 > self.available {
            return false;
        }
        self.available = self.available - amount as i128;
        true
    }

    /// Opens a dispute on `transaction_id` and holds `amount` for it. Does
    /// nothing if that identifier is already under dispute.
    pub fn dispute(&mut self, transaction_id: u32, amount: u64)
        requires
            !old(self)@.disputed.contains(transaction_id) ==> old(self).held + amount
                <= i128::MAX,
        ensures
            final(self)@ == old(self)@.dispute(transaction_id, amount as int),
    {
        if !self.is_disputed(transaction_id) {
            self.disputed_transactions.push(transaction_id);
            self.held = self.held + amount as i128;
        }
    }

    /// Resolves the dispute on `transaction_id`, moving `amount` from held
    /// to available. Does nothing if that identifier is not under dispute.
    pub fn resolve(&mut self, transaction_id: u32, amount: u64)
        requires
            old(self)@.disputed.contains(transaction_id) ==> {
                &&& old(self).held - amount >= i128::MIN
                &&& old(self).available + amount <= i128::MAX
            },
        ensures
            final(self)@ == old(self)@.resolve(transaction_id, amount as int),
    {
        if self.is_disputed(transaction_id) {
            self.close_dispute(transaction_id);
            self.held = self.held - amount as i128;
            self.available = self.available + amount as i128;
        }
    }

    /// Charges back the dispute on `transaction_id`: `amount` leaves the held
    /// funds and the account is frozen. Does nothing if that identifier is
    /// not under dispute.
    pub fn chargeback(&mut self, transaction_id: u32, amount: u64)
        requires
            old(self)@.disputed.contains(transaction_id) ==> old(self).held - amount
                >= i128::MIN,
        ensures
            final(self)@ == old(self)@.chargeback(transaction_id, amount as int),
    {
        if self.is_disputed(transaction_id) {
            self.close_dispute(transaction_id);
            self.held = self.held - amount as i128;
            self.frozen = true;
        }
    }

    /// Available and held funds together.
    pub fn total_funds(&self) -> (total: i128)
        requires
            i128::MIN <= self@.total() <= i128::MAX,
        ensures
            total == self@.total(),
    {
        self.available + self.held
    }
}

/// Nothing can be taken out of an empty list.
pub proof fn lemma_without_empty(tx: u32)
    ensures
        without(Seq::empty(), tx) == Seq::<u32>::empty(),
{
    reveal(Seq::filter);
}

/// Taking `tx` out of a list extended by `last` keeps `last` unless it is `tx`.
pub proof fn lemma_without_push(ids: Seq<u32>, last: u32, tx: u32)
    ensures
        without(ids.push(last), tx) == if last != tx {
            without(ids, tx).push(last)
        } else {
            without(ids, tx)
        },
{
    ids.lemma_filter_push(last, differs_from(tx));
}

/// What is left after taking `tx` out holds exactly the identifiers of
/// `ids` other than `tx`.
pub proof fn lemma_without_contains(ids: Seq<u32>, tx: u32, other: u32)
    ensures
        without(ids, tx).contains(other) <==> ids.contains(other) && other != tx,
    decreases ids.len(),
{
    if ids.len() == 0 {
        lemma_without_empty(tx);
        assert(ids =~= Seq::empty());
    } else {
        let front = ids.drop_last();
        let last = ids.last();
        assert(ids =~= front.push(last));
        lemma_without_contains(front, tx, other);
        lemma_without_push(front, last, tx);
        let rest = without(front, tx);
        let kept = without(ids, tx);
        if kept.contains(other) {
            let i = choose|i: int| 0 <= i < kept.len() && kept[i] == other;
            if last != tx && i == rest.len() {
                assert(ids[ids.len() - 1] == other);
            } else {
                assert(rest[i] == other);
                let j = choose|j: int| 0 <= j < front.len() && front[j] == other;
                assert(ids[j] == other);
            }
        }
        if ids.contains(other) && other != tx {
            let j = choose|j: int| 0 <= j < ids.len() && ids[j] == other;
            if j == ids.len() - 1 {
                assert(kept[rest.len() as int] == other);
            } else {
                assert(front[j] == other);
                let i = choose|i: int| 0 <= i < rest.len() && rest[i] == other;
                assert(kept[i] == other);
            }
        }
    }
}

/// Taking out an identifier that does not occur changes nothing.
pub proof fn lemma_without_absent(ids: Seq<u32>, tx: u32)
    requires
        !ids.contains(tx),
    ensures
        without(ids, tx) == ids,
    decreases ids.len(),
{
    if ids.len() == 0 {
        lemma_without_empty(tx);
        assert(ids =~= Seq::empty());
    } else {
        let front = ids.drop_last();
        let last = ids.last();
        assert(ids =~= front.push(last));
        assert(ids[ids.len() - 1] != tx);
        assert forall|i: int| 0 <= i < front.len() implies front[i] != tx by {
            assert(ids[i] == front[i]);
        }
        lemma_without_absent(front, tx);
        lemma_without_push(front, last, tx);
    }
}

/// Taking an identifier out of a list without repetitions leaves a list
/// without repetitions.
pub proof fn lemma_without_keeps_distinct(ids: Seq<u32>, tx: u32)
    requires
        ids.no_duplicates(),
    ensures
        without(ids, tx).no_duplicates(),
    decreases ids.len(),
{
    if ids.len() == 0 {
        lemma_without_empty(tx);
        assert(ids =~= Seq::empty());
    } else {
        let front = ids.drop_last();
        let last = ids.last();
        assert(ids =~= front.push(last));
        lemma_without_keeps_distinct(front, tx);
        lemma_without_push(front, last, tx);
        let rest = without(front, tx);
        if last != tx {
            assert forall|i: int| 0 <= i < rest.len() implies rest[i] != last by {
                if rest[i] == last {
                    lemma_without_contains(front, tx, last);
                    let j = choose|j: int| 0 <= j < front.len() && front[j] == last;
                    assert(ids[j] == ids[ids.len() - 1]);
                }
            }
        }
    }
}

} // verus!
