//! The per-client ledger: a state machine over deposits, withdrawals and the
//! dispute / resolve / chargeback lifecycle of each of them.

use crate::amount::{
    fits, lemma_fits_coarser, max_nat, pow10, round_dp,
    round_half_away, saturating_add, Amount, MAX_SCALE,
};
use crate::transaction::{ClientId, Error, Result, Transaction, TransactionId, TransactionType};
use std::collections::HashMap;
use vstd::prelude::*;
use vstd::std_specs::hash::group_hash_axioms;

verus! {

broadcast use group_hash_axioms;

/// The dispute state of one deposit or withdrawal, values in units of 10^-28.
pub struct EntryView {
    pub amount_change: int,
    pub disputed: bool,
    pub charged_back: bool,
}

/// An account as values: balances in units of 10^-28.
pub struct AccountView {
    pub client_id: ClientId,
    pub available: int,
    pub held: int,
    pub locked: bool,
    pub entries: Map<TransactionId, EntryView>,
}

/// A fresh account: zero balances, unlocked, no entries.
pub open spec fn fresh(client_id: ClientId) -> AccountView {
    AccountView {
        client_id,
        available: 0,
        held: 0,
        locked: false,
        entries: Map::empty(),
    }
}

pub open spec fn amount_of(t: Transaction) -> int {
    t.amount->0.val()
}

/// What applying `t` to `s` gives: the next state and the outcome.
/// A failing record leaves the state as it was.
pub open spec fn step(s: AccountView, t: Transaction) -> (AccountView, Result<()>) {
    let id = t.transaction_id;
    if t.client_id != s.client_id {
        (s, Err(Error::ClientIdMismatch))
    } else if s.locked {
        (s, Err(Error::AccountLocked))
    } else {
        match t.transaction_type {
            TransactionType::Deposit => {
                if s.entries.contains_key(id) {
                    (s, Err(Error::DuplicatedTransactionId))
                } else if t.amount is None {
                    (s, Err(Error::MissingAmount))
                } else {
                    let a = amount_of(t);
                    (
                        AccountView {
                            available: s.available + a,
                            entries: s.entries.insert(
                                id,
                                EntryView { amount_change: a, disputed: false, charged_back: false },
                            ),
                            ..s
                        },
                        Ok(()),
                    )
                }
            },
            TransactionType::Withdrawal => {
                if s.entries.contains_key(id) {
                    (s, Err(Error::DuplicatedTransactionId))
                } else if t.amount is None {
                    (s, Err(Error::MissingAmount))
                } else if s.available - amount_of(t) < 0 {
                    (s, Err(Error::InsufficientFunds))
                } else {
                    let a = amount_of(t);
                    (
                        AccountView {
                            available: s.available - a,
                            entries: s.entries.insert(
                                id,
                                EntryView { amount_change: -a, disputed: false, charged_back: false },
                            ),
                            ..s
                        },
                        Ok(()),
                    )
                }
            },
            TransactionType::Dispute => {
                if !s.entries.contains_key(id) {
                    (s, Err(Error::UnknownTransactionId))
                } else if s.entries[id].disputed {
                    (s, Err(Error::AlreadyDisputed))
                } else {
                    let e = s.entries[id];
                    (
                        AccountView {
                            available: s.available - e.amount_change,
                            held: s.held + e.amount_change,
                            entries: s.entries.insert(id, EntryView { disputed: true, ..e }),
                            ..s
                        },
                        Ok(()),
                    )
                }
            },
            TransactionType::Resolve => {
                if !s.entries.contains_key(id) {
                    (s, Err(Error::UnknownTransactionId))
                } else if !s.entries[id].disputed {
                    (s, Err(Error::NotDisputed))
                } else {
                    let e = s.entries[id];
                    (
                        AccountView {
                            available: s.available + e.amount_change,
                            held: s.held - e.amount_change,
                            entries: s.entries.insert(id, EntryView { disputed: false, ..e }),
                            ..s
                        },
                        Ok(()),
                    )
                }
            },
            TransactionType::Chargeback => {
                if !s.entries.contains_key(id) {
                    (s, Err(Error::UnknownTransactionId))
                } else if !s.entries[id].disputed {
                    (s, Err(Error::NotDisputed))
                } else {
                    let e = s.entries[id];
                    (
                        AccountView {
                            held: s.held - e.amount_change,
                            locked: true,
                            entries: s.entries.insert(id, EntryView { charged_back: true, ..e }),
                            ..s
                        },
                        Ok(()),
                    )
                }
            },
        }
    }
}

/// Every balance that applying `t` to `s` computes can be held exactly by a
/// decimal with `scale` fractional digits.
pub open spec fn step_fits(s: AccountView, t: Transaction, scale: nat) -> bool {
    let id = t.transaction_id;
    let e = s.entries[id];
    match t.transaction_type {
        TransactionType::Deposit => t.amount is Some ==> fits(s.available + amount_of(t), scale),
        TransactionType::Withdrawal => t.amount is Some ==> fits(
            s.available - amount_of(t),
            scale,
        ),
        TransactionType::Dispute => s.entries.contains_key(id) ==> fits(
            s.available - e.amount_change,
            scale,
        ) && fits(s.held + e.amount_change, scale),
        TransactionType::Resolve => s.entries.contains_key(id) ==> fits(
            s.available + e.amount_change,
            scale,
        ) && fits(s.held - e.amount_change, scale),
        TransactionType::Chargeback => s.entries.contains_key(id) ==> fits(
            s.held - e.amount_change,
            scale,
        ),
    }
}

/// A deposit or withdrawal `t` carries no amount with more than `scale`
/// fractional digits (an amount on any other record is ignored).
pub open spec fn record_within(t: Transaction, scale: nat) -> bool {
    (t.transaction_type == TransactionType::Deposit || t.transaction_type
        == TransactionType::Withdrawal) && t.amount is Some ==> t.amount->0.scale_spec() <= scale
}

/// A record that fails changes nothing: not the balances, the lock, nor the
/// entries.
pub proof fn lemma_failure_changes_nothing(s: AccountView, t: Transaction)
    ensures
        step(s, t).1 is Err ==> step(s, t).0 == s,
{
}

/// A locked account refuses every record of its client with `AccountLocked`,
/// so no sequence of records changes it any more.
pub proof fn lemma_locked_is_terminal(s: AccountView, txs: Seq<Transaction>)
    requires
        s.locked,
    ensures
        forall|t: Transaction| #[trigger] step(s, t).1 == if t.client_id == s.client_id {
            Err::<(), Error>(Error::AccountLocked)
        } else {
            Err::<(), Error>(Error::ClientIdMismatch)
        },
        fold(s, txs) == s,
    decreases txs.len(),
{
    if txs.len() > 0 {
        lemma_locked_is_terminal(s, txs.drop_last());
    }
}

/// A withdrawal refused for insufficient funds leaves no entry behind: a
/// dispute of its transaction id right after it is refused as unknown.
pub proof fn lemma_refused_withdrawal_leaves_no_entry(
    s: AccountView,
    withdrawal: Transaction,
    dispute: Transaction,
)
    requires
        withdrawal.transaction_type == TransactionType::Withdrawal,
        step(s, withdrawal).1 == Err::<(), Error>(Error::InsufficientFunds),
        dispute.transaction_type == TransactionType::Dispute,
        dispute.client_id == withdrawal.client_id,
        dispute.transaction_id == withdrawal.transaction_id,
    ensures
        step(step(s, withdrawal).0, dispute).1 == Err::<(), Error>(Error::UnknownTransactionId),
{
}

/// Resolving a transaction right after disputing it succeeds and restores
/// `available` and `held` to their values before the dispute.
pub proof fn lemma_resolve_undoes_dispute(s: AccountView, dispute: Transaction, resolve: Transaction)
    requires
        dispute.transaction_type == TransactionType::Dispute,
        step(s, dispute).1 is Ok,
        resolve.transaction_type == TransactionType::Resolve,
        resolve.client_id == dispute.client_id,
        resolve.transaction_id == dispute.transaction_id,
    ensures
        step(step(s, dispute).0, resolve).1 is Ok,
        step(step(s, dispute).0, resolve).0.available == s.available,
        step(step(s, dispute).0, resolve).0.held == s.held,
        step(step(s, dispute).0, resolve).0.entries == s.entries,
{
    assert(step(step(s, dispute).0, resolve).0.entries =~= s.entries);
}

/// The state after applying `txs` in order to `s`, failing records skipped.
pub open spec fn fold(s: AccountView, txs: Seq<Transaction>) -> AccountView
    decreases txs.len(),
{
    if txs.len() == 0 {
        s
    } else {
        step(fold(s, txs.drop_last()), txs.last()).0
    }
}

/// The id and error of every record that fails in `fold(s, txs)`, in order.
pub open spec fn refusals(s: AccountView, txs: Seq<Transaction>) -> Seq<(TransactionId, Error)>
    decreases txs.len(),
{
    if txs.len() == 0 {
        Seq::empty()
    } else {
        let earlier = refusals(s, txs.drop_last());
        match step(fold(s, txs.drop_last()), txs.last()).1 {
            Ok(_) => earlier,
            Err(e) => earlier.push((txs.last().transaction_id, e)),
        }
    }
}

/// Every step of `fold(s, txs)` computes balances that a decimal with `scale`
/// fractional digits holds exactly.
pub open spec fn run_fits(s: AccountView, txs: Seq<Transaction>, scale: nat) -> bool
    decreases txs.len(),
{
    if txs.len() == 0 {
        true
    } else {
        run_fits(s, txs.drop_last(), scale) && step_fits(
            fold(s, txs.drop_last()),
            txs.last(),
            scale,
        )
    }
}

/// No record of `txs` carries an amount with more than `scale` fractional digits.
pub open spec fn records_within(txs: Seq<Transaction>, scale: nat) -> bool {
    forall|i: int| 0 <= i < txs.len() ==> #[trigger] record_within(txs[i], scale)
}

/// `acc` is the ledger of `client` after `txs`: its client is `client`, its
/// amounts have no more fractional digits than the records of `txs`, and
/// wherever the decimal arithmetic is exact its state is the fold of `txs`
/// over a fresh account.
pub open spec fn is_ledger_of(acc: Account, client: ClientId, txs: Seq<Transaction>) -> bool {
    &&& acc@.client_id == client
    &&& forall|scale: nat| #[trigger]
        records_within(txs, scale) ==> acc.scales_within(scale)
    &&& forall|scale: nat|
        #![trigger run_fits(fresh(client), txs, scale)]
        records_within(txs, scale) && run_fits(fresh(client), txs, scale) ==> acc@ == fold(
            fresh(client),
            txs,
        )
}

pub open spec fn entries_view(m: Map<TransactionId, TransactionStatus>) -> Map<
    TransactionId,
    EntryView,
> {
    m.map_values(|st: TransactionStatus| st@)
}

proof fn lemma_entries_view_insert(
    m: Map<TransactionId, TransactionStatus>,
    k: TransactionId,
    v: TransactionStatus,
)
    ensures
        entries_view(m.insert(k, v)) == entries_view(m).insert(k, v@),
{
    assert(entries_view(m.insert(k, v)) =~= entries_view(m).insert(k, v@));
}

/// The dispute state of one applied deposit or withdrawal. `amount_change` is
/// the deposited amount, or the negated withdrawn amount, so that the same
/// balance moves reverse either kind.
#[derive(Clone, Copy, Debug)]
pub struct TransactionStatus {
    pub amount_change: Amount,
    pub disputed: bool,
    pub chargeback: bool,
}

impl View for TransactionStatus {
    type V = EntryView;

    open spec fn view(&self) -> EntryView {
        EntryView {
            amount_change: self.amount_change.val(),
            disputed: self.disputed,
            charged_back: self.chargeback,
        }
    }
}

impl TransactionStatus {
    /// The status of a newly applied deposit or withdrawal.
    pub fn new(transaction: &Transaction) -> (r: Result<TransactionStatus>)
        ensures
            transaction.amount is None ==> r == Err::<TransactionStatus, Error>(
                Error::MissingAmount,
            ),
            transaction.amount is Some ==> r is Ok,
            r matches Ok(st) ==> {
                &&& st.amount_change.val() == (if transaction.transaction_type
                    == TransactionType::Withdrawal {
                    -amount_of(*transaction)
                } else {
                    amount_of(*transaction)
                })
                &&& st.amount_change.scale_spec() == transaction.amount->0.scale_spec()
                &&& !st.disputed
                &&& !st.chargeback
            },
    {
        let amount = match transaction.get_amount() {
            Ok(a) => a,
            Err(e) => return Err(e),
        };
        // a withdrawal is stored negated, so that disputing it gives the funds back
        let amount_change = if transaction.transaction_type == TransactionType::Withdrawal {
            amount.neg()
        } else {
            amount
        };
        Ok(TransactionStatus { amount_change, disputed: false, chargeback: false })
    }

    pub fn dispute(&mut self) -> (r: Result<Amount>)
        ensures
            old(self).disputed ==> r == Err::<Amount, Error>(Error::AlreadyDisputed) && *final(self) == *old(self),
            !old(self).disputed ==> r == Ok::<Amount, Error>(old(self).amount_change) && *final(self) == (TransactionStatus { disputed: true, ..*old(self) }),
    {
        if self.disputed {
            return Err(Error::AlreadyDisputed);
        }
        self.disputed = true;
        Ok(self.amount_change)
    }

    pub fn resolve(&mut self) -> (r: Result<Amount>)
        ensures
            !old(self).disputed ==> r == Err::<Amount, Error>(Error::NotDisputed) && *final(self) == *old(self),
            old(self).disputed ==> r == Ok::<Amount, Error>(old(self).amount_change) && *final(self) == (TransactionStatus { disputed: false, ..*old(self) }),
    {
        if !self.disputed {
            return Err(Error::NotDisputed);
        }
        self.disputed = false;
        Ok(self.amount_change)
    }

    pub fn chargeback(&mut self) -> (r: Result<Amount>)
        ensures
            !old(self).disputed ==> r == Err::<Amount, Error>(Error::NotDisputed) && *final(self) == *old(self),
            old(self).disputed ==> r == Ok::<Amount, Error>(old(self).amount_change) && *final(self) == (TransactionStatus { chargeback: true, ..*old(self) }),
    {
        if !self.disputed {
            return Err(Error::NotDisputed);
        }
        self.chargeback = true;
        Ok(self.amount_change)
    }
}

/// One client's ledger.
#[derive(Debug)]
pub struct Account {
    client_id: ClientId,
    available: Amount,
    held: Amount,
    locked: bool,
    /// Deposits and withdrawals only.
    transaction_status: HashMap<TransactionId, TransactionStatus>,
}

impl View for Account {
    type V = AccountView;

    closed spec fn view(&self) -> AccountView {
        AccountView {
            client_id: self.client_id,
            available: self.available.val(),
            held: self.held.val(),
            locked: self.locked,
            entries: entries_view(self.transaction_status@),
        }
    }
}

impl Account {
    /// No amount of the account has more than `scale` fractional digits.
    pub closed spec fn scales_within(&self, scale: nat) -> bool {
        &&& self.available.scale_spec() <= scale
        &&& self.held.scale_spec() <= scale
        &&& forall|id: TransactionId| #[trigger]
            self.transaction_status@.contains_key(id)
                ==> self.transaction_status@[id].amount_change.scale_spec() <= scale
    }

    pub fn new(client_id: ClientId) -> (r: Account)
        ensures
            r@ == fresh(client_id),
            forall|scale: nat| #[trigger] r.scales_within(scale),
    {
        let r = Account {
            client_id,
            available: Amount::zero(),
            held: Amount::zero(),
            locked: false,
            transaction_status: HashMap::new(),
        };
        assert(r@.entries =~= Map::empty());
        r
    }

    pub fn client_id(&self) -> (r: ClientId)
        ensures
            r == self@.client_id,
    {
        self.client_id
    }

    pub fn available(&self) -> (r: Amount)
        ensures
            r.val() == self@.available,
    {
        self.available
    }

    pub fn held(&self) -> (r: Amount)
        ensures
            r.val() == self@.held,
    {
        self.held
    }

    pub fn locked(&self) -> (r: bool)
        ensures
            r == self@.locked,
    {
        self.locked
    }

    /// `available + held`: exact wherever a decimal can hold the sum at the
    /// number of fractional digits the account's amounts have, and saturated
    /// at a decimal's bounds otherwise.
    pub fn total(&self) -> (r: Amount)
        ensures
            forall|scale: nat|
                #![trigger self.scales_within(scale), fits(self@.available + self@.held, scale)]
                self.scales_within(scale) && fits(self@.available + self@.held, scale)
                    ==> r.val() == self@.available + self@.held,
    {
        let r = saturating_add(self.available, self.held);
        proof {
            assert forall|scale: nat|
                self.scales_within(scale) && fits(
                    self@.available + self@.held,
                    scale,
                ) implies r.val() == self@.available + self@.held by {
                lemma_fits_coarser(
                    self@.available + self@.held,
                    max_nat(self.available.scale_spec(), self.held.scale_spec()),
                    scale,
                );
            }
        }
        r
    }

    /// Applies one record. A record that fails leaves the account as it was.
    pub fn process(&mut self, tr: &Transaction) -> (r: Result<()>)
        ensures
            r is Err ==> final(self)@ == old(self)@,
            tr.client_id != old(self)@.client_id ==> r == Err::<(), Error>(Error::ClientIdMismatch),
            tr.client_id == old(self)@.client_id && old(self)@.locked ==> r == Err::<(), Error>(Error::AccountLocked),
            r != Err::<(), Error>(Error::Overflow) ==> r == step(old(self)@, *tr).1 && final(self)@ == step(old(self)@, *tr).0,
            r == Err::<(), Error>(Error::Overflow) ==> step(old(self)@, *tr).1 is Ok || step(old(self)@, *tr).1 == Err::<(), Error>(Error::InsufficientFunds),
            forall|scale: nat|
                #![trigger old(self).scales_within(scale), record_within(*tr, scale)]
                old(self).scales_within(scale) && record_within(*tr, scale) ==> final(self).scales_within(scale),
            forall|scale: nat|
                #![trigger step_fits(old(self)@, *tr, scale)]
                old(self).scales_within(scale) && record_within(*tr, scale) && step_fits(old(self)@, *tr, scale)
                    ==> r != Err::<(), Error>(Error::Overflow),
    {
        if self.client_id != tr.client_id {
            return Err(Error::ClientIdMismatch);
        }
        if self.locked {
            return Err(Error::AccountLocked);
        }
        let id = tr.transaction_id;
        let ghost s = self@;
        match tr.transaction_type {
            TransactionType::Deposit => {
                if self.transaction_status.contains_key(&id) {
                    return Err(Error::DuplicatedTransactionId);
                }
                let status = match TransactionStatus::new(tr) {
                    Ok(st) => st,
                    Err(e) => return Err(e),
                };
                let available_opt = self.available.exact_add(&status.amount_change);
                proof {
                    assert forall|scale: nat|
                        old(self).scales_within(scale) && record_within(*tr, scale) && step_fits(s, *tr, scale)
                            implies available_opt is Some && available_opt->0.val() == s.available + amount_of(*tr) by {
                        lemma_fits_coarser(
                            s.available + amount_of(*tr),
                            max_nat(self.available.scale_spec(), status.amount_change.scale_spec()),
                            scale,
                        );
                    }
                    lemma_entries_view_insert(self.transaction_status@, id, status);
                }
                let available = match available_opt {
                    Some(v) => v,
                    None => return Err(Error::Overflow),
                };
                self.available = available;
                self.transaction_status.insert(id, status);
            },
            TransactionType::Withdrawal => {
                if self.transaction_status.contains_key(&id) {
                    return Err(Error::DuplicatedTransactionId);
                }
                let status = match TransactionStatus::new(tr) {
                    Ok(st) => st,
                    Err(e) => return Err(e),
                };
                let candidate_opt = self.available.exact_add(&status.amount_change);
                proof {
                    assert forall|scale: nat|
                        old(self).scales_within(scale) && record_within(*tr, scale) && step_fits(s, *tr, scale)
                            implies candidate_opt is Some && candidate_opt->0.val() == s.available - amount_of(*tr) by {
                        lemma_fits_coarser(
                            s.available - amount_of(*tr),
                            max_nat(self.available.scale_spec(), status.amount_change.scale_spec()),
                            scale,
                        );
                    }
                }
                let candidate = match candidate_opt {
                    Some(v) => v,
                    None => return Err(Error::Overflow),
                };
                if candidate.is_negative() {
                    return Err(Error::InsufficientFunds);
                }
                proof {
                    lemma_entries_view_insert(self.transaction_status@, id, status);
                }
                self.available = candidate;
                self.transaction_status.insert(id, status);
            },
            TransactionType::Dispute => {
                let mut status = match self.get_transaction_status(id) {
                    Ok(st) => st,
                    Err(e) => return Err(e),
                };
                let change = match status.dispute() {
                    Ok(c) => c,
                    Err(e) => return Err(e),
                };
                let available_opt = self.available.exact_sub(&change);
                let held_opt = self.held.exact_add(&change);
                proof {
                    assert forall|scale: nat|
                        old(self).scales_within(scale) && record_within(*tr, scale) && step_fits(s, *tr, scale)
                            implies available_opt is Some && available_opt->0.val() == s.available - change.val() && held_opt is Some && held_opt->0.val() == s.held + change.val() by {
                        lemma_fits_coarser(
                            s.available - change.val(),
                            max_nat(self.available.scale_spec(), change.scale_spec()),
                            scale,
                        );
                        lemma_fits_coarser(
                            s.held + change.val(),
                            max_nat(self.held.scale_spec(), change.scale_spec()),
                            scale,
                        );
                    }
                    lemma_entries_view_insert(self.transaction_status@, id, status);
                }
                let available = match available_opt {
                    Some(v) => v,
                    None => return Err(Error::Overflow),
                };
                let held = match held_opt {
                    Some(v) => v,
                    None => return Err(Error::Overflow),
                };
                self.available = available;
                self.held = held;
                self.transaction_status.insert(id, status);
            },
            TransactionType::Resolve => {
                let mut status = match self.get_transaction_status(id) {
                    Ok(st) => st,
                    Err(e) => return Err(e),
                };
                let change = match status.resolve() {
                    Ok(c) => c,
                    Err(e) => return Err(e),
                };
                let available_opt = self.available.exact_add(&change);
                let held_opt = self.held.exact_sub(&change);
                proof {
                    assert forall|scale: nat|
                        old(self).scales_within(scale) && record_within(*tr, scale) && step_fits(s, *tr, scale)
                            implies available_opt is Some && available_opt->0.val() == s.available + change.val() && held_opt is Some && held_opt->0.val() == s.held - change.val() by {
                        lemma_fits_coarser(
                            s.available + change.val(),
                            max_nat(self.available.scale_spec(), change.scale_spec()),
                            scale,
                        );
                        lemma_fits_coarser(
                            s.held - change.val(),
                            max_nat(self.held.scale_spec(), change.scale_spec()),
                            scale,
                        );
                    }
                    lemma_entries_view_insert(self.transaction_status@, id, status);
                }
                let available = match available_opt {
                    Some(v) => v,
                    None => return Err(Error::Overflow),
                };
                let held = match held_opt {
                    Some(v) => v,
                    None => return Err(Error::Overflow),
                };
                self.available = available;
                self.held = held;
                self.transaction_status.insert(id, status);
            },
            TransactionType::Chargeback => {
                let mut status = match self.get_transaction_status(id) {
                    Ok(st) => st,
                    Err(e) => return Err(e),
                };
                let change = match status.chargeback() {
                    Ok(c) => c,
                    Err(e) => return Err(e),
                };
                let held_opt = self.held.exact_sub(&change);
                proof {
                    assert forall|scale: nat|
                        old(self).scales_within(scale) && record_within(*tr, scale) && step_fits(s, *tr, scale)
                            implies held_opt is Some && held_opt->0.val() == s.held - change.val() by {
                        lemma_fits_coarser(
                            s.held - change.val(),
                            max_nat(self.held.scale_spec(), change.scale_spec()),
                            scale,
                        );
                    }
                    lemma_entries_view_insert(self.transaction_status@, id, status);
                }
                let held = match held_opt {
                    Some(v) => v,
                    None => return Err(Error::Overflow),
                };
                self.held = held;
                self.locked = true;
                self.transaction_status.insert(id, status);
            },
        }
        Ok(())
    }

    /// A fresh account for `client_id` with `transactions` applied in order;
    /// records that fail are skipped.
    pub fn from_transactions(client_id: &ClientId, transactions: &[Transaction]) -> (r: Account)
        ensures
            is_ledger_of(r, *client_id, transactions@),
    {
        let (acc, _) = Account::from_transactions_with_refusals(client_id, transactions);
        acc
    }

    /// As `from_transactions`, and also the id and error of every record that
    /// failed, in order.
    pub fn from_transactions_with_refusals(client_id: &ClientId, transactions: &[Transaction]) -> (r: (
        Account,
        Vec<(TransactionId, Error)>,
    ))
        ensures
            is_ledger_of(r.0, *client_id, transactions@),
            forall|scale: nat|
                #![trigger run_fits(fresh(*client_id), transactions@, scale)]
                records_within(transactions@, scale) && run_fits(fresh(*client_id), transactions@, scale)
                    ==> r.1@ == refusals(fresh(*client_id), transactions@),
    {
        let mut acc = Account::new(*client_id);
        let mut refused: Vec<(TransactionId, Error)> = Vec::new();
        let mut i: usize = 0;
        while i < transactions.len()
            invariant
                i <= transactions.len(),
                acc@.client_id == *client_id,
                forall|scale: nat|
                    #![trigger records_within(transactions@, scale)]
                    records_within(transactions@, scale) ==> acc.scales_within(scale) && (run_fits(
                        fresh(*client_id),
                        transactions@.take(i as int),
                        scale,
                    ) ==> acc@ == fold(fresh(*client_id), transactions@.take(i as int))
                        && refused@ == refusals(fresh(*client_id), transactions@.take(i as int))),
            decreases transactions.len() - i,
        {
            let ghost before = acc;
            let ghost refused_before = refused@;
            let ghost prefix = transactions@.take(i as int);
            let ghost next = transactions@.take(i + 1);
            let result = acc.process(&transactions[i]);
            match result {
                Ok(()) => {},
                Err(e) => {
                    refused.push((transactions[i].transaction_id, e));
                },
            }
            proof {
                assert(next.drop_last() =~= prefix);
                assert(next.last() == transactions@[i as int]);
                assert forall|scale: nat| #[trigger]
                    records_within(transactions@, scale) implies acc.scales_within(scale) && (
                    run_fits(fresh(*client_id), next, scale) ==> acc@ == fold(
                        fresh(*client_id),
                        next,
                    ) && refused@ == refusals(fresh(*client_id), next)) by {
                    assert(record_within(transactions@[i as int], scale));
                    assert(before.scales_within(scale));
                    if run_fits(fresh(*client_id), next, scale) {
                        assert(step_fits(before@, transactions@[i as int], scale));
                    }
                }
            }
            i = i + 1;
        }
        proof {
            assert(transactions@.take(i as int) =~= transactions@);
        }
        (acc, refused)
    }

    fn get_transaction_status(&self, tr_id: TransactionId) -> (r: Result<TransactionStatus>)
        ensures
            self.transaction_status@.contains_key(tr_id) ==> r == Ok::<TransactionStatus, Error>(
                self.transaction_status@[tr_id],
            ),
            !self.transaction_status@.contains_key(tr_id) ==> r == Err::<TransactionStatus, Error>(
                Error::UnknownTransactionId,
            ),
    {
        match self.transaction_status.get(&tr_id) {
            Some(st) => Ok(*st),
            None => Err(Error::UnknownTransactionId),
        }
    }
}

/// The number of fractional digits an account is reported with.
pub const OUTPUT_DP: u32 = 4;

/// `v` (in units of 10^-28) rounded to the reported digits.
pub open spec fn reported(v: int) -> int {
    round_half_away(v, pow10((MAX_SCALE - OUTPUT_DP) as nat))
}

/// An account as reported: its amounts rounded to four fractional digits,
/// halves away from zero.
#[derive(Clone, Copy, Debug, PartialEq)]
pub struct AccountOutput {
    pub client: ClientId,
    pub available: Amount,
    pub held: Amount,
    pub total: Amount,
    pub locked: bool,
}

impl AccountOutput {
    pub open spec fn reports(self, a: Account) -> bool {
        &&& self.client == a@.client_id
        &&& self.locked == a@.locked
        &&& self.available.val() == reported(a@.available)
        &&& self.held.val() == reported(a@.held)
        &&& self.total.scale_spec() <= OUTPUT_DP
        &&& self.available.scale_spec() <= OUTPUT_DP
        &&& self.held.scale_spec() <= OUTPUT_DP
        &&& forall|scale: nat|
            #![trigger a.scales_within(scale), fits(a@.available + a@.held, scale)]
            a.scales_within(scale) && fits(a@.available + a@.held, scale)
                ==> self.total.val() == reported(a@.available + a@.held)
    }
}

impl AccountOutput {
    /// The report of an account.
    pub fn from(a: &Account) -> (r: AccountOutput)
        ensures
            r.reports(*a),
    {
        let total = a.total();
        AccountOutput {
            client: a.client_id(),
            available: round_dp(a.available(), OUTPUT_DP),
            held: round_dp(a.held(), OUTPUT_DP),
            total: round_dp(total, OUTPUT_DP),
            locked: a.locked(),
        }
    }
}

} // verus!
