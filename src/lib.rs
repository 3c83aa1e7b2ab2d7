//! A ledger of client accounts driven by an ordered stream of deposits,
//! withdrawals, disputes, resolves and chargebacks.
//!
//! Money is fixed-point: every balance is a whole number of ten-thousandths,
//! and every amount is rounded to that precision, halves away from zero.
pub mod args;
pub mod engine;
pub mod errors;
pub mod input;
pub mod laws;
pub mod money;
pub mod statement;
