//! Accounting and matching core of a decentralized token exchange.
//!
//! The crate keeps per-account, per-asset balances in a [`ledger::Ledger`],
//! resting limit orders in an [`orders::OrderStore`], and settles trades
//! through the matching engine of [`dex::DexContract`]. Every balance
//! mutation is conservative: for each asset, the sum of ledger balances
//! plus the escrow held by open orders changes only through deposits,
//! withdrawals and burns.

pub mod address;
pub mod errors;
pub mod fill;
pub mod ledger;
pub mod orders;
pub mod dex;
