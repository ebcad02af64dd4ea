//! Data length codes of CAN FD frames.

use vstd::prelude::*;

verus! {

/// The number of data bytes that a data length code stands for.
pub open spec fn fd_length(code: int) -> int {
    if code <= 8 {
        code
    } else if code <= 12 {
        12 + 4 * (code - 9)
    } else if code == 13 {
        32
    } else if code == 14 {
        48
    } else {
        64
    }
}

/// The number of data bytes for a data length code. Codes above 15 stand for 64
/// bytes, as 15 does.
pub fn dlc2len(dlc: u8) -> (len: u8)
    ensures
        len == fd_length(dlc as int),
{
    if dlc <= 8 {
        dlc
    } else if dlc <= 12 {
        12 + 4 * (dlc - 9)
    } else if dlc == 13 {
        32
    } else if dlc == 14 {
        48
    } else {
        64
    }
}

/// The smallest data length code that has room for `length` bytes, or 15 where
/// none has.
pub open spec fn fd_code(length: int) -> int {
    if length <= 8 {
        length
    } else if length <= 24 {
        9 + (length - 9) / 4
    } else if length <= 32 {
        13
    } else if length <= 48 {
        14
    } else {
        15
    }
}

/// The data length code for a number of data bytes.
pub fn len2dlc(length: u8) -> (dlc: u8)
    ensures
        dlc == fd_code(length as int),
        dlc <= 15,
        length <= 64 ==> fd_length(dlc as int) >= length,
        forall|code: int| 0 <= code < dlc ==> #[trigger] fd_length(code) < length,
{
    if length <= 8 {
        return length;
    }
    let mut dlc: u8 = 9;
    while dlc < 15 && dlc2len(dlc) < length
        invariant
            9 <= dlc <= 15,
            length > 8,
            forall|code: int| 0 <= code < dlc ==> #[trigger] fd_length(code) < length,
        ensures
            9 <= dlc <= 15,
            forall|code: int| 0 <= code < dlc ==> #[trigger] fd_length(code) < length,
            dlc == 15 || fd_length(dlc as int) >= length,
        decreases 15 - dlc,
    {
        dlc = dlc + 1;
    }
    proof {
        assert(fd_length(dlc - 1) < length);
    }
    dlc
}

/// A length code survives being turned into a length and back.
pub proof fn law_code_of_length_of_code(code: int)
    requires
        0 <= code <= 15,
    ensures
        fd_code(fd_length(code)) == code,
{
}

/// A length that is one of the sixteen frame lengths survives being turned into a
/// code and back; any other length up to 64 grows to the next frame length.
pub proof fn law_length_of_code_of_length(length: int)
    requires
        0 <= length <= 64,
    ensures
        fd_length(fd_code(length)) >= length,
        fd_length(fd_code(length)) == length <==> exists|code: int|
            0 <= code <= 15 && #[trigger] fd_length(code) == length,
{
    if fd_length(fd_code(length)) == length {
        assert(0 <= fd_code(length) <= 15);
    } else {
        assert forall|code: int| 0 <= code <= 15 implies #[trigger] fd_length(code) != length by {}
    }
}

/// The code for a length is the smallest that has room for it, or the last where none has.
pub proof fn law_smallest_code(length: int, smaller: int)
    requires
        0 <= length,
    ensures
        0 <= fd_code(length) <= 15,
        length <= 64 ==> length <= fd_length(fd_code(length)),
        0 <= smaller < fd_code(length) ==> fd_length(smaller) < length,
{
}

} // verus!
