//! A spreadsheet formula engine: typed cells, a command parser, a dependency
//! graph with range subscriptions, topological recomputation with cycle
//! detection and rollback, autofill, and snapshot history.
//!
//! Fractional values are held exactly, as fractions of 64-bit integers in
//! lowest terms; a value that cannot be held so makes its cell invalid. A
//! SLEEP formula does not block: recomputation reports the seconds it asked
//! for in `State::sleep_seconds`, and the host waits them out.
pub mod cell;
pub mod arith;
pub mod label;
pub mod lexer;
pub mod graph;
pub mod topo;
pub mod range;
pub mod recalc;
pub mod assign;
pub mod command;
pub mod autofill;
pub mod sheet;
pub mod history;
pub mod viewport;
pub mod laws;
pub mod collab;
pub mod messages;
