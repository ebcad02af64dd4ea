//! Reading and writing of Vector BLF and ASC logs of CAN traffic.
//!
//! The readers and writers here do no input or output of their own: a reader is
//! handed bytes or lines and says what it needs next, a writer hands back the
//! bytes or the text to be stored.

pub mod asc;
pub mod blf;
pub mod bytes;
pub mod calendar;
pub mod cli;
pub mod dlc;
pub mod error;
pub mod message;
pub mod number;
pub mod sentence;
pub mod text;
pub mod zlib;

pub use asc::reader::AscReader;
pub use asc::writer::AscWriter;
pub use blf::reader::BlfReader;
pub use blf::writer::BlfWriter;
pub use error::{BlfError, Result};
pub use message::{Message, Timestamp};
