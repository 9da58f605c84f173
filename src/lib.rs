//! Account and credit-ledger core: a user directory keyed by public key, per-user
//! subscription documents, credit balances, purchase records and usage summaries.

pub mod accounts;
pub mod ledger;
pub mod money;
pub mod subscriptions;
pub mod usage;
