//! A two-player, turn-based game on a fixed 3x3 grid, together with a
//! durable record of players and their match results.
//!
//! The crate has two halves. [`engine`] owns the live board of a single
//! match: move application, win and draw detection, and turn switching,
//! all in memory. [`store`] owns the durable side: a registry of player
//! identities and a ledger of cumulative wins and losses, kept as two
//! line-oriented text stores. The store works on plain bytes; reading
//! and writing the actual files is left to the caller.

pub mod engine;
pub mod store;
pub mod text;
