//! Vector BLF logs.
//!
//! A log is a file header followed by objects. Log containers hold, compressed or
//! not, pieces of a second stream of objects; the messages are in that one.

pub mod cutting;
pub mod feeding;
pub mod format;
pub mod history;
pub mod laws;
pub mod object;
pub mod outer;
pub mod reader;
pub mod session;
pub mod stored;
pub mod wire;
pub mod writer;
