//! Properties of the ledger model that hold for every input, proved over
//! `process_step` and `run`.
use crate::engine::{
    process_step, run, Account, LedgerState, Transaction, TransactionType,
};
use crate::errors::{
    ChargebackError, DepositError, DisputeError, DuplicateTransactionError, ResolveError,
    TransactionError, Warning, WithdrawalError,
};
use crate::money::{fits_i64, units_of, Decimal};
use vstd::prelude::*;

verus! {

/// Storing a well-formed account under its own, existing client keeps the
/// ledger well formed.
pub(crate) proof fn lemma_with_account_wf(s: LedgerState, a: Account)
    requires
        s.wf(),
        a.wf(),
        s.accounts.contains_key(a.client),
    ensures
        s.with_account(a).wf(),
{
    let s1 = s.with_account(a);
    assert forall|c: u16| #[trigger] s1.order.contains(c) <==> s1.accounts.contains_key(c) by {
        assert(s.order.contains(c) <==> s.accounts.contains_key(c));
    }
}

/// Opening an account for a client without one keeps the ledger well formed.
pub(crate) proof fn lemma_open_account_wf(s: LedgerState, client: u16, balance: i64)
    requires
        s.wf(),
        !s.accounts.contains_key(client),
    ensures
        (LedgerState {
            order: s.order.push(client),
            ..s.with_account(Account::opened(client, balance))
        }).wf(),
{
    let s1 = LedgerState {
        order: s.order.push(client),
        ..s.with_account(Account::opened(client, balance))
    };
    assert forall|c: u16| #[trigger] s1.order.contains(c) <==> s1.accounts.contains_key(c) by {
        if c != client {
            if s1.order.contains(c) {
                let k = choose|k: int| 0 <= k < s1.order.len() && s1.order[k] == c;
                assert(s.order[k] == c);
            }
            if s.order.contains(c) {
                let k = choose|k: int| 0 <= k < s.order.len() && s.order[k] == c;
                assert(s1.order[k] == c);
            }
        } else {
            assert(s1.order[s1.order.len() - 1] == c);
        }
    }
    assert forall|i: int, j: int|
        0 <= i < s1.order.len() && 0 <= j < s1.order.len() && i != j implies s1.order[i]
        != s1.order[j] by {
        if i == s1.order.len() - 1 {
            assert(s.order.contains(s1.order[j]));
        } else if j == s1.order.len() - 1 {
            assert(s.order.contains(s1.order[i]));
        }
    }
}

/// Every account keeps `total == available + held` after any one
/// transaction.
pub proof fn lemma_step_keeps_total(s: LedgerState, t: Transaction)
    requires
        s.wf(),
    ensures
        process_step(s, t).0.wf(),
        forall|c: u16| #[trigger]
            process_step(s, t).0.accounts.contains_key(c) ==> process_step(s, t).0.accounts[c].total
                == process_step(s, t).0.accounts[c].available + process_step(s, t).0.accounts[c].held,
{
    let s1 = process_step(s, t).0;
    if s1 != s {
        match t.amount {
            Some(d) => {
                if fits_i64(units_of(d)) && !s.history.contains_key(t.tx) && !s.accounts.contains_key(
                    t.client,
                ) {
                    lemma_open_account_wf(
                        s.with_history(t.tx, Some(units_of(d) as i64)),
                        t.client,
                        units_of(d) as i64,
                    );
                }
            },
            None => {},
        }
        if s.accounts.contains_key(t.client) {
            let a = s.accounts[t.client];
            let s_h = match t.amount {
                Some(d) => s.with_history(t.tx, Some(units_of(d) as i64)),
                None => s,
            };
            match t.amount {
                Some(d) => {
                    if let Some(a2) = a.adjusted(units_of(d), 0) {
                        lemma_with_account_wf(s_h, a2);
                    }
                    if let Some(a2) = a.adjusted(-units_of(d), 0) {
                        lemma_with_account_wf(s_h, a2);
                    }
                },
                None => {},
            }
            if s.history.contains_key(t.tx) {
                if let Some(amount) = s.history[t.tx] {
                    if let Some(a2) = a.adjusted(-amount, amount as int) {
                        lemma_with_account_wf(s, a2);
                    }
                    if let Some(a2) = a.adjusted(amount as int, -amount) {
                        lemma_with_account_wf(s, a2);
                    }
                    if let Some(a2) = a.adjusted(0, -amount) {
                        lemma_with_account_wf(s, Account { locked: true, ..a2 });
                    }
                }
            }
        }
    }
}

/// Every account keeps `total == available + held` at every point of a run.
pub proof fn lemma_run_keeps_total(s: LedgerState, txs: Seq<Transaction>)
    requires
        s.wf(),
    ensures
        run(s, txs).0.wf(),
    decreases txs.len(),
{
    if txs.len() > 0 {
        lemma_run_keeps_total(s, txs.drop_last());
        let s0 = run(s, txs.drop_last()).0;
        lemma_step_keeps_total(s0, txs.last());
    }
}

pub open spec fn deposit(client: u16, tx: u32, amount: Decimal) -> Transaction {
    Transaction { kind: TransactionType::Deposit, client, tx, amount: Some(amount) }
}

pub open spec fn withdrawal(client: u16, tx: u32, amount: Decimal) -> Transaction {
    Transaction { kind: TransactionType::Withdrawal, client, tx, amount: Some(amount) }
}

/// Available funds of `client`, zero where it has no account.
pub open spec fn available_of(s: LedgerState, client: u16) -> int {
    if s.accounts.contains_key(client) {
        s.accounts[client].available as int
    } else {
        0
    }
}

/// Total funds of `client`, zero where it has no account.
pub open spec fn total_of(s: LedgerState, client: u16) -> int {
    if s.accounts.contains_key(client) {
        s.accounts[client].total as int
    } else {
        0
    }
}

/// Depositing an amount and then withdrawing the same amount, under two
/// fresh ids, leaves the client's available and total funds as they were.
/// Both succeed where the account is unlocked or new. Excluded: balances
/// that the deposit would take out of range, and a negative available
/// balance, from which the withdrawal is refused.
pub proof fn lemma_deposit_then_withdraw(
    s: LedgerState,
    client: u16,
    id1: u32,
    id2: u32,
    amount: Decimal,
)
    requires
        s.wf(),
        id1 != id2,
        !s.history.contains_key(id1),
        !s.history.contains_key(id2),
        amount.mantissa >= 0,
        fits_i64(units_of(amount)),
        s.accounts.contains_key(client) ==> s.accounts[client].available >= 0
            && s.accounts[client].adjusted(units_of(amount), 0) is Some,
    ensures
        ({
            let (s1, r1) = process_step(s, deposit(client, id1, amount));
            let (s2, r2) = process_step(s1, withdrawal(client, id2, amount));
            &&& available_of(s2, client) == available_of(s, client)
            &&& total_of(s2, client) == total_of(s, client)
            &&& (!s.accounts.contains_key(client) || !s.accounts[client].locked) ==> r1 is Ok
                && r2 is Ok
        }),
{
    let u = units_of(amount);
    assert(u >= 0) by {
        crate::money::lemma_units_of_nonnegative(amount);
    }
    let (s1, r1) = process_step(s, deposit(client, id1, amount));
    assert(s1.accounts.contains_key(client));
    if !s.accounts.contains_key(client) || !s.accounts[client].locked {
        let a1 = s1.accounts[client];
        assert(a1.available == available_of(s, client) + u);
        assert(a1.adjusted(-u, 0) is Some);
    }
}

/// The error of a deposit or withdrawal that reuses the id `tx`.
pub open spec fn duplicate_error(kind: TransactionType, tx: u32) -> TransactionError {
    if kind == TransactionType::Deposit {
        TransactionError::Deposit(DepositError::DuplicateTx(DuplicateTransactionError { tx_id: tx }))
    } else {
        TransactionError::Withdrawal(
            WithdrawalError::DuplicateTx(DuplicateTransactionError { tx_id: tx }),
        )
    }
}

/// An id already in the history is refused to any further deposit or
/// withdrawal, and the ledger stays as it was.
pub proof fn lemma_duplicate_id_refused(s: LedgerState, t: Transaction)
    requires
        t.kind == TransactionType::Deposit || t.kind == TransactionType::Withdrawal,
        s.history.contains_key(t.tx),
    ensures
        process_step(s, t).0 == s,
        process_step(s, t).1 is Err,
        t.amount is Some && t.amount->Some_0.mantissa >= 0 && fits_i64(units_of(t.amount->Some_0))
            ==> process_step(s, t).1 == Err::<(), TransactionError>(duplicate_error(t.kind, t.tx)),
{
}

/// A dispute of an id that the history does not hold changes nothing and
/// is no error.
pub proof fn lemma_dispute_of_unknown_id_ignored(s: LedgerState, t: Transaction)
    requires
        t.kind == TransactionType::Dispute,
        !s.history.contains_key(t.tx),
    ensures
        process_step(s, t) == (s, Ok::<(), TransactionError>(())),
{
}

/// A resolve or chargeback of an id that is not under dispute changes
/// nothing and is no error.
pub proof fn lemma_settling_undisputed_ignored(s: LedgerState, t: Transaction)
    requires
        t.kind == TransactionType::Resolve || t.kind == TransactionType::Chargeback,
        !s.disputed.contains(t.tx),
    ensures
        process_step(s, t) == (s, Ok::<(), TransactionError>(())),
{
}

/// A withdrawal of more than the available funds fails with
/// `InsufficientFunds`, leaves every balance and dispute as it was, is the
/// one recoverable failure, and a run goes on past it.
pub proof fn lemma_overdraft_refused(s: LedgerState, t: Transaction)
    requires
        t.kind == TransactionType::Withdrawal,
        t.amount is Some,
        t.amount->Some_0.mantissa >= 0,
        fits_i64(units_of(t.amount->Some_0)),
        !s.history.contains_key(t.tx),
        s.accounts.contains_key(t.client),
        !s.accounts[t.client].locked,
        units_of(t.amount->Some_0) > s.accounts[t.client].available,
    ensures
        ({
            let e = TransactionError::Withdrawal(
                WithdrawalError::InsufficientFunds(
                    units_of(t.amount->Some_0) as i64,
                    s.accounts[t.client].available,
                ),
            );
            &&& process_step(s, t).1 == Err::<(), TransactionError>(e)
            &&& process_step(s, t).0.accounts == s.accounts
            &&& process_step(s, t).0.disputed == s.disputed
            &&& e.is_recoverable()
            &&& run(s, seq![t]) == (
                process_step(s, t).0,
                Ok::<Seq<Warning>, TransactionError>(seq![Warning { tx: t.tx, error: e }]),
            )
        }),
{
    let e = TransactionError::Withdrawal(
        WithdrawalError::InsufficientFunds(
            units_of(t.amount->Some_0) as i64,
            s.accounts[t.client].available,
        ),
    );
    let t1 = seq![t];
    assert(t1.drop_last() =~= Seq::<Transaction>::empty());
    assert(t1.last() == t);
    assert(run(s, t1.drop_last()) == (s, Ok::<Seq<Warning>, TransactionError>(Seq::empty())));
    assert(Seq::<Warning>::empty().push(Warning { tx: t.tx, error: e }) =~= seq![
        Warning { tx: t.tx, error: e },
    ]);
}

/// The error of each kind of transaction that meets a locked account.
pub open spec fn locked_error(kind: TransactionType) -> TransactionError {
    match kind {
        TransactionType::Deposit => TransactionError::Deposit(DepositError::AccountLocked),
        TransactionType::Withdrawal => TransactionError::Withdrawal(WithdrawalError::AccountLocked),
        TransactionType::Dispute => TransactionError::Dispute(DisputeError::AccountLocked),
        TransactionType::Resolve => TransactionError::Resolve(ResolveError::AccountLocked),
        TransactionType::Chargeback => TransactionError::Chargeback(ChargebackError::AccountLocked),
    }
}

/// Whether `t` would act on its client's account were it unlocked: a
/// deposit or withdrawal with a valid amount and a fresh id, a dispute of a
/// recorded, undisputed id with an amount, or a resolve or chargeback of a
/// disputed id with an amount.
pub open spec fn would_act(s: LedgerState, t: Transaction) -> bool {
    match t.kind {
        TransactionType::Deposit | TransactionType::Withdrawal => t.amount is Some
            && t.amount->Some_0.mantissa >= 0 && fits_i64(units_of(t.amount->Some_0))
            && !s.history.contains_key(t.tx),
        TransactionType::Dispute => s.disputable(t.tx) && s.history[t.tx] is Some,
        _ => s.settleable(t.tx) && s.history[t.tx] is Some,
    }
}

/// A locked account never changes: every transaction for it either fails
/// or changes nothing at all, and one that would act on the account fails
/// with its kind's `AccountLocked`, leaving accounts and disputes as they
/// were.
pub proof fn lemma_locked_account_frozen(s: LedgerState, t: Transaction)
    requires
        s.accounts.contains_key(t.client),
        s.accounts[t.client].locked,
    ensures
        process_step(s, t).0.accounts == s.accounts,
        process_step(s, t).0.disputed == s.disputed,
        process_step(s, t).1 is Ok ==> process_step(s, t).0 == s,
        would_act(s, t) ==> process_step(s, t).1 == Err::<(), TransactionError>(
            locked_error(t.kind),
        ),
{
}

} // verus!
