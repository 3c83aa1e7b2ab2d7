//! The ledger engine: accounts, the transaction history and the set of open
//! disputes, changed one transaction at a time.
//!
//! `LedgerState` is the mathematical model of a ledger and `process_step`
//! states what one transaction does to it; every handler of `Ledger` is
//! proved to do exactly that.
use crate::errors::{
    AccountError, ChargebackError, DepositError, DisputeError, DuplicateTransactionError,
    ResolveError, TransactionError, Warning, WithdrawalError,
};
use crate::laws::{
    duplicate_error, lemma_dispute_of_unknown_id_ignored, lemma_duplicate_id_refused,
    lemma_locked_account_frozen, lemma_open_account_wf, lemma_overdraft_refused,
    lemma_settling_undisputed_ignored, lemma_with_account_wf, locked_error, would_act,
};
use crate::money::{fits_i64, units_of, Decimal};
use std::collections::{HashMap, HashSet};
use vstd::prelude::*;

verus! {

broadcast use vstd::std_specs::hash::group_hash_axioms;

#[derive(Clone, Copy, Debug, PartialEq, Eq, Structural)]
pub enum TransactionType {
    /// A credit to the client's account: available and total funds grow.
    Deposit,
    /// A debit from the client's account: available and total funds shrink.
    Withdrawal,
    /// A claim that an earlier transaction was erroneous: its amount moves
    /// from available to held funds, the total stays.
    Dispute,
    /// The end of a dispute that keeps the transaction: the held amount
    /// moves back to available funds.
    Resolve,
    /// The end of a dispute that reverses the transaction: the held amount
    /// leaves the account and the account is frozen.
    Chargeback,
}

/// One input record. `tx` is a fresh id for a deposit or withdrawal and the
/// id of an earlier one for the other kinds, which carry no amount.
#[derive(Clone, Copy, Debug, PartialEq, Eq, Structural)]
pub struct Transaction {
    pub kind: TransactionType,
    pub client: u16,
    pub tx: u32,
    pub amount: Option<Decimal>,
}

/// The balances of one client, in fixed-point units.
#[derive(Clone, Copy, Debug, PartialEq, Eq, Structural)]
pub struct Account {
    pub client: u16,
    /// Funds available for trading, staking, withdrawal.
    pub available: i64,
    /// Funds held for open disputes.
    pub held: i64,
    /// Funds available or held.
    pub total: i64,
    /// Set by a chargeback; a locked account never changes again.
    pub locked: bool,
}

impl Account {
    pub open spec fn wf(&self) -> bool {
        self.total == self.available + self.held
    }

    /// The account with `da` added to available and `dh` to held funds and
    /// the total recomputed, or `None` where a balance leaves the `i64` range.
    pub open spec fn adjusted(&self, da: int, dh: int) -> Option<Account> {
        let available = self.available + da;
        let held = self.held + dh;
        if fits_i64(available) && fits_i64(held) && fits_i64(available + held) {
            Some(
                Account {
                    available: available as i64,
                    held: held as i64,
                    total: (available + held) as i64,
                    ..*self
                },
            )
        } else {
            None
        }
    }

    /// A fresh account holding `balance`.
    pub open spec fn opened(client: u16, balance: i64) -> Account {
        Account { client, available: balance, held: 0, total: balance, locked: false }
    }

    pub fn new_account(client: u16, balance: i64) -> (r: Self)
        ensures
            r == Account::opened(client, balance),
            r.wf(),
    {
        Self { client, available: balance, held: 0, total: balance, locked: false }
    }

    pub fn lock(&mut self)
        ensures
            *final(self) == (Account { locked: true, ..*old(self) }),
    {
        self.locked = true;
    }

    fn adjust(&self, da: i128, dh: i128) -> (r: Option<Account>)
        requires
            -0x1_0000_0000_0000_0000 <= da <= 0x1_0000_0000_0000_0000,
            -0x1_0000_0000_0000_0000 <= dh <= 0x1_0000_0000_0000_0000,
        ensures
            r == self.adjusted(da as int, dh as int),
    {
        let available: i128 = self.available as i128 + da;
        let held: i128 = self.held as i128 + dh;
        let total: i128 = available + held;
        if available < i64::MIN as i128 || available > i64::MAX as i128 || held < i64::MIN as i128
            || held > i64::MAX as i128 || total < i64::MIN as i128 || total > i64::MAX as i128 {
            None
        } else {
            Some(
                Account {
                    client: self.client,
                    available: available as i64,
                    held: held as i64,
                    total: total as i64,
                    locked: self.locked,
                },
            )
        }
    }

    /// Adds `amount` to the available funds. Returns false, changing
    /// nothing, where a balance would leave the `i64` range.
    pub fn deposit_funds(&mut self, amount: i64) -> (ok: bool)
        ensures
            ok == old(self).adjusted(amount as int, 0) is Some,
            ok ==> *final(self) == old(self).adjusted(amount as int, 0)->Some_0,
            !ok ==> *final(self) == *old(self),
    {
        match self.adjust(amount as i128, 0) {
            Some(a) => {
                *self = a;
                true
            },
            None => false,
        }
    }

    /// Takes `amount` from the available funds. Returns false, changing
    /// nothing, where a balance would leave the `i64` range.
    pub fn withdraw_funds(&mut self, amount: i64) -> (ok: bool)
        ensures
            ok == old(self).adjusted(-amount, 0) is Some,
            ok ==> *final(self) == old(self).adjusted(-amount, 0)->Some_0,
            !ok ==> *final(self) == *old(self),
    {
        match self.adjust(-(amount as i128), 0) {
            Some(a) => {
                *self = a;
                true
            },
            None => false,
        }
    }
}

/// The model of a ledger.
pub struct LedgerState {
    /// The account of each client that has made a successful deposit.
    pub accounts: Map<u16, Account>,
    /// The clients in the order their accounts were opened.
    pub order: Seq<u16>,
    /// The amount, in fixed-point units, of each recorded deposit and
    /// withdrawal, by id.
    pub history: Map<u32, Option<i64>>,
    /// The ids under an open dispute.
    pub disputed: Set<u32>,
    /// The ids whose dispute ended in a chargeback.
    pub charged_back: Set<u32>,
}

impl LedgerState {
    pub open spec fn empty() -> LedgerState {
        LedgerState {
            accounts: Map::empty(),
            order: Seq::empty(),
            history: Map::empty(),
            disputed: Set::empty(),
            charged_back: Set::empty(),
        }
    }

    /// Every account keeps `total == available + held` and is stored under
    /// its own client, and `order` lists each client with an account exactly
    /// once.
    pub open spec fn wf(&self) -> bool {
        &&& forall|c: u16| #[trigger]
            self.accounts.contains_key(c) ==> self.accounts[c].wf() && self.accounts[c].client == c
        &&& self.order.no_duplicates()
        &&& forall|c: u16| #[trigger] self.order.contains(c) <==> self.accounts.contains_key(c)
    }

    pub open spec fn with_history(self, id: u32, amount: Option<i64>) -> LedgerState {
        LedgerState { history: self.history.insert(id, amount), ..self }
    }

    pub open spec fn with_account(self, a: Account) -> LedgerState {
        LedgerState { accounts: self.accounts.insert(a.client, a), ..self }
    }

    /// The unlocked account of `client`, or why there is none.
    pub open spec fn account_entry(self, client: u16) -> Result<Account, AccountError> {
        if !self.accounts.contains_key(client) {
            Err(AccountError::NoSuchAccount(client))
        } else if self.accounts[client].locked {
            Err(AccountError::AccountLocked(client))
        } else {
            Ok(self.accounts[client])
        }
    }

    /// Whether `id` is recorded and neither disputed nor charged back.
    pub open spec fn disputable(self, id: u32) -> bool {
        self.history.contains_key(id) && !self.disputed.contains(id) && !self.charged_back.contains(
            id,
        )
    }

    /// Whether `id` is recorded and under an open dispute.
    pub open spec fn settleable(self, id: u32) -> bool {
        self.history.contains_key(id) && self.disputed.contains(id)
    }
}

/// What a deposit does.
pub open spec fn deposit_step(s: LedgerState, t: Transaction) -> (LedgerState, Result<(), DepositError>) {
    match t.amount {
        None => (s, Err(DepositError::AmountRequired)),
        Some(d) => if d.mantissa < 0 {
            (s, Err(DepositError::NegativeDeposit))
        } else if !fits_i64(units_of(d)) {
            (s, Err(DepositError::Overflow))
        } else if s.history.contains_key(t.tx) {
            (s, Err(DepositError::DuplicateTx(DuplicateTransactionError { tx_id: t.tx })))
        } else {
            let u = units_of(d);
            let s1 = s.with_history(t.tx, Some(u as i64));
            if s.accounts.contains_key(t.client) {
                let a = s.accounts[t.client];
                if a.locked {
                    (s1, Err(DepositError::AccountLocked))
                } else {
                    match a.adjusted(u, 0) {
                        None => (s1, Err(DepositError::Overflow)),
                        Some(a2) => (s1.with_account(a2), Ok(())),
                    }
                }
            } else {
                let a = Account::opened(t.client, u as i64);
                (LedgerState { order: s.order.push(t.client), ..s1.with_account(a) }, Ok(()))
            }
        },
    }
}

/// What a withdrawal does.
pub open spec fn withdrawal_step(s: LedgerState, t: Transaction) -> (
    LedgerState,
    Result<(), WithdrawalError>,
) {
    match t.amount {
        None => (s, Err(WithdrawalError::AmountRequired)),
        Some(d) => if d.mantissa < 0 {
            (s, Err(WithdrawalError::NegativeWithdrawal))
        } else if !fits_i64(units_of(d)) {
            (s, Err(WithdrawalError::Overflow))
        } else if s.history.contains_key(t.tx) {
            (s, Err(WithdrawalError::DuplicateTx(DuplicateTransactionError { tx_id: t.tx })))
        } else {
            let u = units_of(d);
            let s1 = s.with_history(t.tx, Some(u as i64));
            if !s.accounts.contains_key(t.client) {
                (s1, Err(WithdrawalError::NoSuchAccount(t.client)))
            } else {
                let a = s.accounts[t.client];
                if a.locked {
                    (s1, Err(WithdrawalError::AccountLocked))
                } else if u > a.available {
                    (s1, Err(WithdrawalError::InsufficientFunds(u as i64, a.available)))
                } else {
                    match a.adjusted(-u, 0) {
                        None => (s1, Err(WithdrawalError::Overflow)),
                        Some(a2) => (s1.with_account(a2), Ok(())),
                    }
                }
            }
        },
    }
}

/// What a dispute does.
pub open spec fn dispute_step(s: LedgerState, t: Transaction) -> (LedgerState, Result<(), DisputeError>) {
    if !s.disputable(t.tx) {
        (s, Ok(()))
    } else {
        match s.history[t.tx] {
            None => (s, Err(DisputeError::AmountRequired)),
            Some(amount) => match s.account_entry(t.client) {
                Err(e) => (s, Err(e.into_dispute_error())),
                Ok(a) => match a.adjusted(-amount, amount as int) {
                    None => (s, Err(DisputeError::Overflow)),
                    Some(a2) => (
                        LedgerState { disputed: s.disputed.insert(t.tx), ..s.with_account(a2) },
                        Ok(()),
                    ),
                },
            },
        }
    }
}

/// What a resolve does.
pub open spec fn resolve_step(s: LedgerState, t: Transaction) -> (LedgerState, Result<(), ResolveError>) {
    if !s.settleable(t.tx) {
        (s, Ok(()))
    } else {
        match s.history[t.tx] {
            None => (s, Err(ResolveError::AmountRequired)),
            Some(amount) => match s.account_entry(t.client) {
                Err(e) => (s, Err(e.into_resolve_error())),
                Ok(a) => match a.adjusted(amount as int, -amount) {
                    None => (s, Err(ResolveError::Overflow)),
                    Some(a2) => (
                        LedgerState { disputed: s.disputed.remove(t.tx), ..s.with_account(a2) },
                        Ok(()),
                    ),
                },
            },
        }
    }
}

/// What a chargeback does.
pub open spec fn chargeback_step(s: LedgerState, t: Transaction) -> (
    LedgerState,
    Result<(), ChargebackError>,
) {
    if !s.settleable(t.tx) {
        (s, Ok(()))
    } else {
        match s.history[t.tx] {
            None => (s, Err(ChargebackError::AmountRequired)),
            Some(amount) => match s.account_entry(t.client) {
                Err(e) => (s, Err(e.into_chargeback_error())),
                Ok(a) => match a.adjusted(0, -amount) {
                    None => (s, Err(ChargebackError::Overflow)),
                    Some(a2) => (
                        LedgerState {
                            disputed: s.disputed.remove(t.tx),
                            charged_back: s.charged_back.insert(t.tx),
                            ..s.with_account(Account { locked: true, ..a2 })
                        },
                        Ok(()),
                    ),
                },
            },
        }
    }
}

/// What any one transaction does.
pub open spec fn process_step(s: LedgerState, t: Transaction) -> (
    LedgerState,
    Result<(), TransactionError>,
) {
    match t.kind {
        TransactionType::Deposit => {
            let (s1, r) = deposit_step(s, t);
            (s1, match r { Ok(()) => Ok(()), Err(e) => Err(TransactionError::Deposit(e)) })
        },
        TransactionType::Withdrawal => {
            let (s1, r) = withdrawal_step(s, t);
            (s1, match r { Ok(()) => Ok(()), Err(e) => Err(TransactionError::Withdrawal(e)) })
        },
        TransactionType::Dispute => {
            let (s1, r) = dispute_step(s, t);
            (s1, match r { Ok(()) => Ok(()), Err(e) => Err(TransactionError::Dispute(e)) })
        },
        TransactionType::Resolve => {
            let (s1, r) = resolve_step(s, t);
            (s1, match r { Ok(()) => Ok(()), Err(e) => Err(TransactionError::Resolve(e)) })
        },
        TransactionType::Chargeback => {
            let (s1, r) = chargeback_step(s, t);
            (s1, match r { Ok(()) => Ok(()), Err(e) => Err(TransactionError::Chargeback(e)) })
        },
    }
}

/// What a sequence of transactions does, in order. A recoverable error is
/// collected and processing goes on; any other error ends the run.
pub open spec fn run(s: LedgerState, txs: Seq<Transaction>) -> (
    LedgerState,
    Result<Seq<Warning>, TransactionError>,
)
    decreases txs.len(),
{
    if txs.len() == 0 {
        (s, Ok(Seq::empty()))
    } else {
        let (s0, r0) = run(s, txs.drop_last());
        match r0 {
            Err(e) => (s0, Err(e)),
            Ok(warnings) => {
                let (s1, r1) = process_step(s0, txs.last());
                match r1 {
                    Ok(()) => (s1, Ok(warnings)),
                    Err(e) => if e.is_recoverable() {
                        (s1, Ok(warnings.push(Warning { tx: txs.last().tx, error: e })))
                    } else {
                        (s1, Err(e))
                    },
                }
            },
        }
    }
}

/// Once a run has failed, further transactions change neither its state
/// nor its error.
proof fn lemma_run_failed_stays(s: LedgerState, txs: Seq<Transaction>, i: int)
    requires
        0 <= i <= txs.len(),
        run(s, txs.take(i)).1 is Err,
    ensures
        run(s, txs) == run(s, txs.take(i)),
    decreases txs.len() - i,
{
    if i < txs.len() {
        let t1 = txs.take(i + 1);
        assert(t1.drop_last() =~= txs.take(i));
        lemma_run_failed_stays(s, txs, i + 1);
    } else {
        assert(txs.take(i) =~= txs);
    }
}

impl Default for Ledger {
    fn default() -> (r: Self)
        ensures
            r.wf(),
            r.state() == LedgerState::empty(),
    {
        Ledger::new()
    }
}

/// A ledger: the accounts, the history of deposits and withdrawals and the
/// open disputes of one processing run.
pub struct Ledger {
    accounts: HashMap<u16, Account>,
    clients: Vec<u16>,
    transactions: HashMap<u32, Option<i64>>,
    disputed_transactions: HashSet<u32>,
    charged_back: HashSet<u32>,
}

impl Ledger {
    pub closed spec fn state(&self) -> LedgerState {
        LedgerState {
            accounts: self.accounts@,
            order: self.clients@,
            history: self.transactions@,
            disputed: self.disputed_transactions@,
            charged_back: self.charged_back@,
        }
    }

    pub closed spec fn wf(&self) -> bool {
        self.state().wf()
    }

    pub fn new() -> (r: Self)
        ensures
            r.wf(),
            r.state() == LedgerState::empty(),
    {
        let r = Ledger {
            accounts: HashMap::new(),
            clients: Vec::new(),
            transactions: HashMap::new(),
            disputed_transactions: HashSet::new(),
            charged_back: HashSet::new(),
        };
        assert(r.state().order =~= Seq::<u16>::empty());
        r
    }

    /// The account of `client`, if it has one.
    pub fn account(&self, client: u16) -> (r: Option<Account>)
        ensures
            r == (if self.state().accounts.contains_key(client) {
                Some(self.state().accounts[client])
            } else {
                None
            }),
    {
        match self.accounts.get(&client) {
            Some(a) => Some(*a),
            None => None,
        }
    }

    /// Whether the transaction `tx` is under an open dispute.
    pub fn is_disputed(&self, tx: u32) -> (r: bool)
        ensures
            r == self.state().disputed.contains(tx),
    {
        self.disputed_transactions.contains(&tx)
    }

    /// The accounts, in the order they were opened.
    pub fn accounts_in_order(&self) -> (r: Vec<Account>)
        requires
            self.wf(),
        ensures
            r@ == self.state().order.map_values(|c: u16| self.state().accounts[c]),
    {
        let mut r: Vec<Account> = Vec::new();
        let mut i: usize = 0;
        while i < self.clients.len()
            invariant
                self.wf(),
                i <= self.clients@.len(),
                r@ == self.clients@.take(i as int).map_values(|c: u16| self.accounts@[c]),
            decreases self.clients@.len() - i,
        {
            let c = self.clients[i];
            assert(self.state().order.contains(c));
            let a = *self.accounts.get(&c).unwrap();
            r.push(a);
            i = i + 1;
            assert(self.clients@.take(i as int).map_values(|c: u16| self.accounts@[c])
                =~= r@);
        }
        assert(self.clients@.take(i as int) =~= self.clients@);
        r
    }

    /// The unlocked account of `id`, or why there is none.
    fn get_account_entry(&self, id: u16) -> (r: Result<Account, AccountError>)
        ensures
            r == self.state().account_entry(id),
    {
        match self.accounts.get(&id) {
            Some(a) => {
                if a.locked {
                    return Err(AccountError::AccountLocked(id));
                }
                Ok(*a)
            },
            None => Err(AccountError::NoSuchAccount(id)),
        }
    }

    /// Records `amount` under `id` in the history, unless `id` is there.
    fn save_transaction(&mut self, id: u32, amount: Option<i64>) -> (r: Result<
        (),
        DuplicateTransactionError,
    >)
        requires
            old(self).wf(),
        ensures
            final(self).wf(),
            old(self).state().history.contains_key(id) ==> r == Err::<(), _>(
                DuplicateTransactionError { tx_id: id },
            ) && final(self).state() == old(self).state(),
            !old(self).state().history.contains_key(id) ==> r is Ok && final(self).state()
                == old(self).state().with_history(id, amount),
    {
        if self.transactions.contains_key(&id) {
            return Err(DuplicateTransactionError::new(id));
        }
        self.transactions.insert(id, amount);
        assert(self.state() == old(self).state().with_history(id, amount));
        Ok(())
    }

    /// Processes a transaction of any kind.
    ///
    /// An `InsufficientFunds` withdrawal error leaves the balances as they
    /// were; a caller running a batch may go on after it (see `run`).
    pub fn process_transaction(&mut self, transaction: &Transaction) -> (r: Result<
        (),
        TransactionError,
    >)
        requires
            old(self).wf(),
        ensures
            final(self).wf(),
            (final(self).state(), r) == process_step(old(self).state(), *transaction),
            // An id already recorded is refused to a deposit or withdrawal.
            (transaction.kind == TransactionType::Deposit || transaction.kind
                == TransactionType::Withdrawal) && old(self).state().history.contains_key(
                transaction.tx,
            ) ==> r is Err && final(self).state() == old(self).state() && (transaction.amount is Some
                && transaction.amount->Some_0.mantissa >= 0 && fits_i64(
                units_of(transaction.amount->Some_0),
            ) ==> r == Err::<(), TransactionError>(duplicate_error(transaction.kind, transaction.tx))),
            // A dispute of an unknown id is ignored.
            transaction.kind == TransactionType::Dispute && !old(self).state().history.contains_key(
                transaction.tx,
            ) ==> r is Ok && final(self).state() == old(self).state(),
            // A resolve or chargeback of an id not under dispute is ignored.
            (transaction.kind == TransactionType::Resolve || transaction.kind
                == TransactionType::Chargeback) && !old(self).state().disputed.contains(transaction.tx)
                ==> r is Ok && final(self).state() == old(self).state(),
            // A withdrawal of more than is available fails, recoverably,
            // and changes no balance.
            ({
                let s = old(self).state();
                transaction.kind == TransactionType::Withdrawal && transaction.amount is Some
                    && transaction.amount->Some_0.mantissa >= 0 && fits_i64(
                    units_of(transaction.amount->Some_0),
                ) && !s.history.contains_key(transaction.tx) && s.accounts.contains_key(
                    transaction.client,
                ) && !s.accounts[transaction.client].locked && units_of(transaction.amount->Some_0)
                    > s.accounts[transaction.client].available ==> r == Err::<(), TransactionError>(
                    TransactionError::Withdrawal(
                        WithdrawalError::InsufficientFunds(
                            units_of(transaction.amount->Some_0) as i64,
                            s.accounts[transaction.client].available,
                        ),
                    ),
                ) && r->Err_0.is_recoverable() && final(self).state().accounts == s.accounts
                    && final(self).state().disputed == s.disputed
            }),
            // A locked account never changes, and one that the transaction
            // would act on refuses it.
            ({
                let s = old(self).state();
                s.accounts.contains_key(transaction.client) && s.accounts[transaction.client].locked
                    ==> final(self).state().accounts == s.accounts && final(self).state().disputed
                    == s.disputed && (r is Ok ==> final(self).state() == s) && (would_act(
                    s,
                    *transaction,
                ) ==> r == Err::<(), TransactionError>(locked_error(transaction.kind)))
            }),
    {
        proof {
            let s = old(self).state();
            let t = *transaction;
            if (t.kind == TransactionType::Deposit || t.kind == TransactionType::Withdrawal)
                && s.history.contains_key(t.tx) {
                lemma_duplicate_id_refused(s, t);
            }
            if t.kind == TransactionType::Dispute && !s.history.contains_key(t.tx) {
                lemma_dispute_of_unknown_id_ignored(s, t);
            }
            if (t.kind == TransactionType::Resolve || t.kind == TransactionType::Chargeback)
                && !s.disputed.contains(t.tx) {
                lemma_settling_undisputed_ignored(s, t);
            }
            if t.kind == TransactionType::Withdrawal && t.amount is Some && t.amount->Some_0.mantissa
                >= 0 && fits_i64(units_of(t.amount->Some_0)) && !s.history.contains_key(t.tx)
                && s.accounts.contains_key(t.client) && !s.accounts[t.client].locked && units_of(
                t.amount->Some_0,
            ) > s.accounts[t.client].available {
                lemma_overdraft_refused(s, t);
            }
            if s.accounts.contains_key(t.client) && s.accounts[t.client].locked {
                lemma_locked_account_frozen(s, t);
            }
        }
        match transaction.kind {
            TransactionType::Deposit => match self.process_deposit(transaction) {
                Ok(()) => Ok(()),
                Err(e) => Err(TransactionError::Deposit(e)),
            },
            TransactionType::Withdrawal => match self.process_withdrawal(transaction) {
                Ok(()) => Ok(()),
                Err(e) => Err(TransactionError::Withdrawal(e)),
            },
            TransactionType::Dispute => match self.process_dispute(transaction) {
                Ok(()) => Ok(()),
                Err(e) => Err(TransactionError::Dispute(e)),
            },
            TransactionType::Resolve => match self.process_resolve(transaction) {
                Ok(()) => Ok(()),
                Err(e) => Err(TransactionError::Resolve(e)),
            },
            TransactionType::Chargeback => match self.process_chargeback(transaction) {
                Ok(()) => Ok(()),
                Err(e) => Err(TransactionError::Chargeback(e)),
            },
        }
    }

    /// Processes a deposit: a positive amount must be given, the id must be
    /// fresh, and a locked account takes no deposit. An unknown client gets
    /// a new account.
    fn process_deposit(&mut self, transaction: &Transaction) -> (r: Result<(), DepositError>)
        requires
            old(self).wf(),
        ensures
            final(self).wf(),
            (final(self).state(), r) == deposit_step(old(self).state(), *transaction),
    {
        let amount = match transaction.amount {
            None => return Err(DepositError::AmountRequired),
            Some(amount) => amount,
        };
        if amount.is_negative() {
            return Err(DepositError::NegativeDeposit);
        }
        let units = match amount.to_units() {
            None => return Err(DepositError::Overflow),
            Some(units) => units,
        };
        if let Err(e) = self.save_transaction(transaction.tx, Some(units)) {
            return Err(DepositError::from(e));
        }
        match self.accounts.get(&transaction.client) {
            Some(account) => {
                let mut account = *account;
                if account.locked {
                    return Err(DepositError::AccountLocked);
                }
                if !account.deposit_funds(units) {
                    return Err(DepositError::Overflow);
                }
                self.put_account(account);
            },
            None => {
                self.open_account(transaction.client, units);
            },
        }
        Ok(())
    }

    /// Processes a withdrawal: as a deposit, but the client must have an
    /// account with at least the amount available.
    fn process_withdrawal(&mut self, transaction: &Transaction) -> (r: Result<(), WithdrawalError>)
        requires
            old(self).wf(),
        ensures
            final(self).wf(),
            (final(self).state(), r) == withdrawal_step(old(self).state(), *transaction),
    {
        let amount = match transaction.amount {
            None => return Err(WithdrawalError::AmountRequired),
            Some(amount) => amount,
        };
        if amount.is_negative() {
            return Err(WithdrawalError::NegativeWithdrawal);
        }
        let units = match amount.to_units() {
            None => return Err(WithdrawalError::Overflow),
            Some(units) => units,
        };
        if let Err(e) = self.save_transaction(transaction.tx, Some(units)) {
            return Err(WithdrawalError::from(e));
        }
        match self.accounts.get(&transaction.client) {
            Some(account) => {
                let mut account = *account;
                if account.locked {
                    return Err(WithdrawalError::AccountLocked);
                }
                if units > account.available {
                    return Err(WithdrawalError::InsufficientFunds(units, account.available));
                }
                if !account.withdraw_funds(units) {
                    return Err(WithdrawalError::Overflow);
                }
                self.put_account(account);
            },
            None => return Err(WithdrawalError::NoSuchAccount(transaction.client)),
        }
        Ok(())
    }

    /// Processes a dispute of a recorded transaction that is neither under
    /// dispute nor charged back; any other dispute is ignored.
    fn process_dispute(&mut self, transaction: &Transaction) -> (r: Result<(), DisputeError>)
        requires
            old(self).wf(),
        ensures
            final(self).wf(),
            (final(self).state(), r) == dispute_step(old(self).state(), *transaction),
    {
        let id = transaction.tx;
        let amount = match self.transactions.get(&id) {
            None => return Ok(()),
            Some(amount) => *amount,
        };
        if self.disputed_transactions.contains(&id) || self.charged_back.contains(&id) {
            return Ok(());
        }
        let amount = match amount {
            None => return Err(DisputeError::AmountRequired),
            Some(amount) => amount,
        };
        let account = match self.get_account_entry(transaction.client) {
            Err(e) => return Err(DisputeError::from(e)),
            Ok(account) => account,
        };
        let account = match account.adjust(-(amount as i128), amount as i128) {
            None => return Err(DisputeError::Overflow),
            Some(account) => account,
        };
        self.put_account(account);
        self.disputed_transactions.insert(id);
        Ok(())
    }

    /// Processes a resolve of a transaction under dispute; any other resolve
    /// is ignored.
    fn process_resolve(&mut self, transaction: &Transaction) -> (r: Result<(), ResolveError>)
        requires
            old(self).wf(),
        ensures
            final(self).wf(),
            (final(self).state(), r) == resolve_step(old(self).state(), *transaction),
    {
        let id = transaction.tx;
        let amount = match self.transactions.get(&id) {
            None => return Ok(()),
            Some(amount) => *amount,
        };
        if !self.disputed_transactions.contains(&id) {
            return Ok(());
        }
        let amount = match amount {
            None => return Err(ResolveError::AmountRequired),
            Some(amount) => amount,
        };
        let account = match self.get_account_entry(transaction.client) {
            Err(e) => return Err(ResolveError::from(e)),
            Ok(account) => account,
        };
        let account = match account.adjust(amount as i128, -(amount as i128)) {
            None => return Err(ResolveError::Overflow),
            Some(account) => account,
        };
        self.put_account(account);
        self.disputed_transactions.remove(&id);
        Ok(())
    }

    /// Processes a chargeback of a transaction under dispute: the held
    /// amount leaves the account, which is locked. Any other chargeback is
    /// ignored.
    fn process_chargeback(&mut self, transaction: &Transaction) -> (r: Result<(), ChargebackError>)
        requires
            old(self).wf(),
        ensures
            final(self).wf(),
            (final(self).state(), r) == chargeback_step(old(self).state(), *transaction),
    {
        let id = transaction.tx;
        let amount = match self.transactions.get(&id) {
            None => return Ok(()),
            Some(amount) => *amount,
        };
        if !self.disputed_transactions.contains(&id) {
            return Ok(());
        }
        let amount = match amount {
            None => return Err(ChargebackError::AmountRequired),
            Some(amount) => amount,
        };
        let account = match self.get_account_entry(transaction.client) {
            Err(e) => return Err(ChargebackError::from(e)),
            Ok(account) => account,
        };
        let mut account = match account.adjust(0, -(amount as i128)) {
            None => return Err(ChargebackError::Overflow),
            Some(account) => account,
        };
        account.lock();
        self.put_account(account);
        self.disputed_transactions.remove(&id);
        self.charged_back.insert(id);
        Ok(())
    }

    /// Processes `transactions` in order. An insufficient-funds withdrawal
    /// is collected in the returned list and processing goes on; the first
    /// other error stops the run and is returned.
    pub fn process_transactions(&mut self, transactions: &Vec<Transaction>) -> (r: Result<
        Vec<Warning>,
        TransactionError,
    >)
        requires
            old(self).wf(),
        ensures
            final(self).wf(),
            final(self).state() == run(old(self).state(), transactions@).0,
            match r {
                Ok(warnings) => run(old(self).state(), transactions@).1 == Ok::<
                    Seq<Warning>,
                    TransactionError,
                >(warnings@),
                Err(e) => run(old(self).state(), transactions@).1 == Err::<
                    Seq<Warning>,
                    TransactionError,
                >(e),
            },
    {
        let ghost s0 = self.state();
        let mut warnings: Vec<Warning> = Vec::new();
        let mut i: usize = 0;
        assert(transactions@.take(0) =~= Seq::<Transaction>::empty());
        while i < transactions.len()
            invariant
                self.wf(),
                s0 == old(self).state(),
                i <= transactions@.len(),
                run(s0, transactions@.take(i as int)) == (
                    self.state(),
                    Ok::<Seq<Warning>, TransactionError>(warnings@),
                ),
            decreases transactions@.len() - i,
        {
            let ghost prefix = transactions@.take(i as int);
            let id = transactions[i].tx;
            let result = self.process_transaction(&transactions[i]);
            proof {
                assert(transactions@.take(i + 1).drop_last() =~= prefix);
                assert(transactions@.take(i + 1).last() == transactions@[i as int]);
            }
            i = i + 1;
            if let Err(e) = result {
                if e.is_recoverable() {
                    warnings.push(Warning { tx: id, error: e });
                } else {
                    proof {
                        assert(run(s0, transactions@.take(i as int)) == (
                            self.state(),
                            Err::<Seq<Warning>, TransactionError>(e),
                        ));
                        lemma_run_failed_stays(s0, transactions@, i as int);
                    }
                    return Err(e);
                }
            }
        }
        assert(transactions@.take(i as int) =~= transactions@);
        Ok(warnings)
    }

    /// Locks the unlocked account of `client`, or says why there is none.
    pub fn lock_account(&mut self, client: u16) -> (r: Result<(), AccountError>)
        requires
            old(self).wf(),
        ensures
            final(self).wf(),
            match old(self).state().account_entry(client) {
                Ok(a) => r is Ok && final(self).state() == old(self).state().with_account(
                    Account { locked: true, ..a },
                ),
                Err(e) => r == Err::<(), AccountError>(e) && final(self).state() == old(
                    self,
                ).state(),
            },
    {
        let mut account = self.get_account_entry(client)?;
        account.lock();
        self.put_account(account);
        Ok(())
    }

    /// Records `transaction` in the history under its id, with its amount
    /// rounded to fixed-point units (none where it has no amount or the
    /// amount does not fit), unless the id is there already.
    pub fn record_transaction(&mut self, transaction: &Transaction) -> (r: Result<
        (),
        DuplicateTransactionError,
    >)
        requires
            old(self).wf(),
        ensures
            final(self).wf(),
            ({
                let s = old(self).state();
                let id = transaction.tx;
                let amount = match transaction.amount {
                    Some(d) => if fits_i64(units_of(d)) {
                        Some(units_of(d) as i64)
                    } else {
                        None
                    },
                    None => None,
                };
                if s.history.contains_key(id) {
                    r == Err::<(), _>(DuplicateTransactionError { tx_id: id })
                        && final(self).state() == s
                } else {
                    r is Ok && final(self).state() == s.with_history(id, amount)
                }
            }),
    {
        let amount = match transaction.amount {
            Some(d) => d.to_units(),
            None => None,
        };
        self.save_transaction(transaction.tx, amount)
    }

    /// Opens a dispute on `tx`, whatever the history holds.
    pub fn mark_disputed(&mut self, tx: u32)
        requires
            old(self).wf(),
        ensures
            final(self).wf(),
            final(self).state() == (LedgerState {
                disputed: old(self).state().disputed.insert(tx),
                ..old(self).state()
            }),
    {
        self.disputed_transactions.insert(tx);
    }

    /// Stores `account`, whose client already has an account.
    fn put_account(&mut self, account: Account)
        requires
            old(self).wf(),
            account.wf(),
            old(self).state().accounts.contains_key(account.client),
        ensures
            final(self).wf(),
            final(self).state() == old(self).state().with_account(account),
    {
        self.accounts.insert(account.client, account);
        proof {
            lemma_with_account_wf(old(self).state(), account);
        }
    }

    /// Opens an account for `client`, which has none yet.
    fn open_account(&mut self, client: u16, balance: i64)
        requires
            old(self).wf(),
            !old(self).state().accounts.contains_key(client),
        ensures
            final(self).wf(),
            final(self).state() == (LedgerState {
                order: old(self).state().order.push(client),
                ..old(self).state().with_account(Account::opened(client, balance))
            }),
    {
        let a = Account::new_account(client, balance);
        self.accounts.insert(client, a);
        self.clients.push(client);
        proof {
            lemma_open_account_wf(old(self).state(), client, balance);
        }
    }
}

} // verus!
