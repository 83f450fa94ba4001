//! A minimal single-asset token ledger.
//!
//! The ledger tracks unsigned 64-bit balances for a set of opaque identities,
//! lets the owner mint new supply, lets any holder transfer tokens, and
//! answers balance and supply queries. A snapshot codec turns the ledger into
//! a self-describing byte encoding and back, so the state survives a
//! controlled restart of the hosting process.

pub mod codec;
pub mod laws;
pub mod ledger;
pub mod model;
pub mod text;

pub use ledger::Account;
pub use ledger::Identity;
pub use ledger::Ledger;
pub use ledger::WalletResult;
pub use ledger::INITIAL_SUPPLY;

pub use model::balance_of;
pub use model::has_key;
pub use model::keys_unique;
pub use model::total_of;
pub use model::upsert;
