//! A rules engine for a two-to-nine-seat Texas Hold'em table.
//!
//! The `Table` owns all money accounting, turn order, card dealing and
//! showdown resolution for a single table across many hands.  Persistence,
//! identity resolution and funds transfer are left to the host: every entry
//! point here works on plain values and mutates the table in memory.

pub mod errors;
pub mod stage;
pub mod seat;
pub mod table;
pub mod crypto;
pub mod ranking;
pub mod betting;
pub mod showdown;
pub mod dealing;
pub mod msgs;
pub mod laws;
