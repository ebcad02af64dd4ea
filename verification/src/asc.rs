//! The ASC format: a text log with one event per line.
//!
//! A header gives the date at which the log was made, the base of the numbers in it and
//! whether internal events are logged. Blocks of events follow, each with the date at
//! which it starts; the time of an event counts from there.

pub mod clock;
pub mod columns;
pub mod counting;
pub mod dates;
pub mod history;
pub mod laws;
pub mod lines;
pub mod reader;
pub mod session;
pub mod timing;
pub mod writer;
