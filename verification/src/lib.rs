//! A verified block-state storage engine for a ledger node.
//!
//! The engine keeps the committed chain state in six logical column
//! families — the latest metadata, the account subspace, two kinds of
//! per-height diffs, per-height block records and replay-protection
//! indexes — and offers atomic block commits, historic point-in-time
//! reads, a single-step rollback and prefix iteration over the stored
//! keys.

pub mod block;
pub mod builder;
pub mod codec;
pub mod db;
pub mod dump;
pub mod error;
pub mod history;
pub mod iter;
pub mod keys;
pub mod limits;
pub mod pattern;
pub mod replay;
pub mod rollback;
pub mod store;
pub mod strings;
pub mod subspace;
pub mod sync;
pub mod visitor;
pub mod vp;

pub use error::Error;
