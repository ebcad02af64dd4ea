//! The numbers and byte layouts of the format.

use vstd::prelude::*;

verus! {

/// The part of the file header that is read.
pub const FILE_HEADER_STRUCT_SIZE: usize = 72;

/// The whole file header as it is written.
pub const FILE_HEADER_SIZE: u32 = 144;

pub const OBJ_HEADER_BASE_SIZE: usize = 16;

pub const OBJ_HEADER_V1_SIZE: usize = 16;

pub const OBJ_HEADER_V2_SIZE: usize = 24;

pub const LOG_CONTAINER_SIZE: usize = 16;

pub const CAN_MSG_SIZE: usize = 16;

pub const CAN_FD_MSG_SIZE: usize = 84;

pub const CAN_FD_MSG_64_SIZE: usize = 40;

pub const CAN_ERROR_EXT_SIZE: usize = 32;

pub const CAN_MESSAGE: u32 = 1;

pub const LOG_CONTAINER: u32 = 10;

pub const CAN_ERROR_EXT: u32 = 73;

pub const CAN_MESSAGE2: u32 = 86;

pub const CAN_FD_MESSAGE: u32 = 100;

pub const CAN_FD_MESSAGE_64: u32 = 101;

pub const NO_COMPRESSION: u16 = 0;

pub const ZLIB_DEFLATE: u16 = 2;

/// The bit of an id field that marks an extended id.
pub const CAN_MSG_EXT: u32 = 0x8000_0000;

/// The bits of an id field that hold the id.
pub const CAN_ID_MASK: u32 = 0x1fff_ffff;

pub const REMOTE_FLAG: u8 = 0x80;

pub const DIR: u8 = 0x1;

pub const EDL: u8 = 0x1;

pub const BRS: u8 = 0x2;

pub const ESI: u8 = 0x4;

pub const TIME_TEN_MICS: u32 = 1;

pub const TIME_ONE_NANS: u32 = 2;

/// The largest piece of the inner stream that one container holds.
pub const MAX_CONTAINER_SIZE: usize = 131_072;

/// `LOBJ`, with which every object starts.
pub open spec fn object_mark() -> Seq<u8> {
    seq![0x4c, 0x4f, 0x42, 0x4a]
}

/// `LOGG`, with which every file starts.
pub open spec fn file_mark() -> Seq<u8> {
    seq![0x4c, 0x4f, 0x47, 0x47]
}

/// The length of one tick of an object's time.
#[derive(Clone, Copy, Debug, PartialEq, Eq, Structural)]
pub enum TickUnit {
    TenMicroseconds,
    Nanosecond,
}

/// When a message was seen: `ticks` after the start of the log, which is
/// `start_millis` milliseconds after the epoch.
#[derive(Clone, Copy, Debug, PartialEq, Eq, Structural)]
pub struct BlfTime {
    pub start_millis: i64,
    pub ticks: u64,
    pub unit: TickUnit,
}

} // verus!
