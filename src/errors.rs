//! Errors of the ledger, one type per kind of transaction.
use std::string::FromUtf8Error;
use vstd::prelude::*;

verus! {

#[verifier::external_type_specification]
#[verifier::external_body]
pub struct ExCsvError(csv::Error);

#[verifier::external_type_specification]
#[verifier::external_body]
pub struct ExFromUtf8Error(FromUtf8Error);

/// A deposit or withdrawal reused an id that the history already holds.
#[derive(Clone, Copy, Debug, PartialEq, Eq, Structural)]
pub struct DuplicateTransactionError {
    pub tx_id: u32,
}

impl DuplicateTransactionError {
    pub fn new(tx_id: u32) -> (r: Self)
        ensures
            r.tx_id == tx_id,
    {
        Self { tx_id }
    }
}

/// Why an account could not be mutated.
#[derive(Clone, Copy, Debug, PartialEq, Eq, Structural)]
pub enum AccountError {
    AccountLocked(u16),
    NoSuchAccount(u16),
}

impl AccountError {
    pub open spec fn into_dispute_error(self) -> DisputeError {
        match self {
            AccountError::AccountLocked(_) => DisputeError::AccountLocked,
            AccountError::NoSuchAccount(id) => DisputeError::NoSuchAccount(id),
        }
    }

    pub open spec fn into_resolve_error(self) -> ResolveError {
        match self {
            AccountError::AccountLocked(_) => ResolveError::AccountLocked,
            AccountError::NoSuchAccount(id) => ResolveError::NoSuchAccount(id),
        }
    }

    pub open spec fn into_chargeback_error(self) -> ChargebackError {
        match self {
            AccountError::AccountLocked(_) => ChargebackError::AccountLocked,
            AccountError::NoSuchAccount(id) => ChargebackError::NoSuchAccount(id),
        }
    }
}

#[derive(Clone, Copy, Debug, PartialEq, Eq, Structural)]
pub enum DepositError {
    AmountRequired,
    AccountLocked,
    DuplicateTx(DuplicateTransactionError),
    NegativeDeposit,
    /// The amount or the resulting balance does not fit the fixed-point range.
    Overflow,
}

/// `InsufficientFunds` carries the requested amount and the available
/// balance, both in fixed-point units.
#[derive(Clone, Copy, Debug, PartialEq, Eq, Structural)]
pub enum WithdrawalError {
    AmountRequired,
    AccountLocked,
    InsufficientFunds(i64, i64),
    NoSuchAccount(u16),
    DuplicateTx(DuplicateTransactionError),
    NegativeWithdrawal,
    /// The amount does not fit the fixed-point range.
    Overflow,
}

#[derive(Clone, Copy, Debug, PartialEq, Eq, Structural)]
pub enum DisputeError {
    AccountLocked,
    NoSuchAccount(u16),
    AmountRequired,
    /// Moving the funds would leave a balance outside the fixed-point range.
    Overflow,
}

#[derive(Clone, Copy, Debug, PartialEq, Eq, Structural)]
pub enum ResolveError {
    AccountLocked,
    NoSuchAccount(u16),
    AmountRequired,
    /// Moving the funds would leave a balance outside the fixed-point range.
    Overflow,
}

#[derive(Clone, Copy, Debug, PartialEq, Eq, Structural)]
pub enum ChargebackError {
    AccountLocked,
    NoSuchAccount(u16),
    AmountRequired,
    /// Removing the funds would leave a balance outside the fixed-point range.
    Overflow,
}

/// Why a statement could not be rendered.
#[derive(Debug)]
pub enum StatementError {
    SerializeError(csv::Error),
    EncodingError(FromUtf8Error),
}

/// A failure that processing went on after, with the id of the
/// transaction that caused it.
#[derive(Clone, Copy, Debug, PartialEq, Eq, Structural)]
pub struct Warning {
    pub tx: u32,
    pub error: TransactionError,
}

/// Why a ledger could not be built from delimited input.
#[derive(Debug)]
pub enum InputError {
    /// The delimited-text reader failed; reading from memory it does not.
    Csv(csv::Error),
    /// The header lacks the column `type`, `client` or `tx`.
    MissingColumn,
    /// The record at this position among the data records (counting from
    /// one) does not describe a transaction.
    InvalidRecord(usize),
    /// A transaction failed with an error that ends processing.
    Transaction(TransactionError),
}

/// The failure of one transaction, tagged with its kind.
#[derive(Clone, Copy, Debug, PartialEq, Eq, Structural)]
pub enum TransactionError {
    Deposit(DepositError),
    Withdrawal(WithdrawalError),
    Dispute(DisputeError),
    Resolve(ResolveError),
    Chargeback(ChargebackError),
}

impl TransactionError {
    /// Whether processing may go on after this error: only a withdrawal
    /// that asked for more than was available.
    pub open spec fn spec_is_recoverable(&self) -> bool {
        matches!(self, TransactionError::Withdrawal(WithdrawalError::InsufficientFunds(_, _)))
    }

    #[verifier::when_used_as_spec(spec_is_recoverable)]
    pub fn is_recoverable(&self) -> (r: bool)
        ensures
            r == self.spec_is_recoverable(),
    {
        match self {
            TransactionError::Withdrawal(WithdrawalError::InsufficientFunds(_, _)) => true,
            _ => false,
        }
    }
}

impl From<DuplicateTransactionError> for DepositError {
    fn from(err: DuplicateTransactionError) -> (r: Self) {
        DepositError::DuplicateTx(err)
    }
}

impl vstd::std_specs::convert::FromSpecImpl<DuplicateTransactionError> for DepositError {
    open spec fn obeys_from_spec() -> bool {
        true
    }

    open spec fn from_spec(err: DuplicateTransactionError) -> Self {
        DepositError::DuplicateTx(err)
    }
}

impl From<DuplicateTransactionError> for WithdrawalError {
    fn from(err: DuplicateTransactionError) -> (r: Self) {
        WithdrawalError::DuplicateTx(err)
    }
}

impl vstd::std_specs::convert::FromSpecImpl<DuplicateTransactionError> for WithdrawalError {
    open spec fn obeys_from_spec() -> bool {
        true
    }

    open spec fn from_spec(err: DuplicateTransactionError) -> Self {
        WithdrawalError::DuplicateTx(err)
    }
}

impl From<AccountError> for DisputeError {
    fn from(err: AccountError) -> (r: Self) {
        match err {
            AccountError::AccountLocked(id) => DisputeError::AccountLocked,
            AccountError::NoSuchAccount(id) => DisputeError::NoSuchAccount(id),
        }
    }
}

impl vstd::std_specs::convert::FromSpecImpl<AccountError> for DisputeError {
    open spec fn obeys_from_spec() -> bool {
        true
    }

    open spec fn from_spec(err: AccountError) -> Self {
        err.into_dispute_error()
    }
}

impl From<AccountError> for ResolveError {
    fn from(err: AccountError) -> (r: Self) {
        match err {
            AccountError::AccountLocked(id) => ResolveError::AccountLocked,
            AccountError::NoSuchAccount(id) => ResolveError::NoSuchAccount(id),
        }
    }
}

impl vstd::std_specs::convert::FromSpecImpl<AccountError> for ResolveError {
    open spec fn obeys_from_spec() -> bool {
        true
    }

    open spec fn from_spec(err: AccountError) -> Self {
        err.into_resolve_error()
    }
}

impl From<AccountError> for ChargebackError {
    fn from(err: AccountError) -> (r: Self) {
        match err {
            AccountError::AccountLocked(id) => ChargebackError::AccountLocked,
            AccountError::NoSuchAccount(id) => ChargebackError::NoSuchAccount(id),
        }
    }
}

impl vstd::std_specs::convert::FromSpecImpl<AccountError> for ChargebackError {
    open spec fn obeys_from_spec() -> bool {
        true
    }

    open spec fn from_spec(err: AccountError) -> Self {
        err.into_chargeback_error()
    }
}

} // verus!
