//! What the bytes of a log mean around its objects: the file header and the containers.

use vstd::prelude::*;

use crate::blf::object::parse;
use crate::blf::reader::{
    header_start, iterate, next_container, next_of, open_of, Container, NextView, OpenView,
    ReaderView,
};
use crate::blf::wire::{has_letters, law_integers_are_little_endian, number};
use crate::bytes::{u16_at, u32_at};
use crate::calendar::millis_of_system_time;
use crate::error::{unexpected_eof_error, ErrorView};
use crate::zlib::zlib_inflated;

verus! {

/// The size of an object with its padding: as many bytes more as its size is beyond a multiple
/// of four.
pub open spec fn with_padding(size: int) -> int {
    size + size % 4
}

proof fn lemma_outer_letters(input: Seq<u8>)
    requires
        input.len() >= 16,
    ensures
        input.take(4) == crate::blf::format::object_mark() <==> has_letters(input, 0),
        u32_at(input, 8) == number(input, 8, 4),
        u32_at(input, 12) == number(input, 12, 4),
{
    let s = input.take(4);
    assert(s[0] == input[0] && s[1] == input[1] && s[2] == input[2] && s[3] == input[3]);
    if has_letters(input, 0) {
        assert(s =~= seq![76u8, 79u8, 66u8, 74u8]);
    }
    law_integers_are_little_endian(input, 8);
    law_integers_are_little_endian(input, 12);
}

/// An object of type 10 is a container. Behind 32 bytes it holds a piece of the inner stream:
/// as it is where the method at byte 16 is 0, as a zlib stream where it is 2. A container of
/// another method holds nothing. The log goes on behind the container and its padding.
pub proof fn law_containers(input: Seq<u8>, closed: bool)
    requires
        has_letters(input, 0),
        32 <= number(input, 8, 4),
        with_padding(number(input, 8, 4)) <= input.len(),
        number(input, 12, 4) == 10,
    ensures
        ({
            let size = number(input, 8, 4);
            let held = input.subrange(32, size);
            let rest = input.subrange(with_padding(size), input.len() as int);
            next_container(input, closed) == if number(input, 16, 2) == 0 {
                Container::Piece { data: held, rest }
            } else if number(input, 16, 2) == 2 {
                match zlib_inflated(held) {
                    Ok(data) => Container::Piece { data, rest },
                    Err(e) => Container::Malformed { error: ErrorView::Io(e), rest },
                }
            } else {
                Container::Other { rest }
            }
        }),
{
    lemma_outer_letters(input);
    let size = number(input, 8, 4);
    let content = input.subrange(16, size);
    law_integers_are_little_endian(input, 16);
    assert(content[0] == input[16] && content[1] == input[17]);
    assert(u16_at(content, 0) == u16_at(input, 16));
    assert(content.skip(16) =~= input.subrange(32, size));
    assert(input.skip(with_padding(size)) =~= input.subrange(
        with_padding(size),
        input.len() as int,
    ));
}

/// What else a log may go on with behind its header: nothing, too few bytes, bytes that are
/// no object, an object that is not there whole, or one that is no container.
pub proof fn law_other_outer_bytes(input: Seq<u8>, closed: bool)
    ensures
        ({
            let size = number(input, 8, 4);
            let none = Seq::<u8>::empty();
            let found = next_container(input, closed);
            if input.len() < 16 {
                if !closed {
                    found == Container::NeedInput(16 - input.len())
                } else if input.len() == 0 {
                    found == Container::End
                } else {
                    found == (Container::Malformed {
                        error: ErrorView::Parse("unexpected EOF"@),
                        rest: none,
                    })
                }
            } else if !has_letters(input, 0) {
                found == (Container::Malformed {
                    error: ErrorView::Parse("unexpected object signature"@),
                    rest: input.subrange(16, input.len() as int),
                })
            } else if size < 16 {
                found == (Container::Malformed {
                    error: ErrorView::Parse("invalid object size"@),
                    rest: input.subrange(16, input.len() as int),
                })
            } else if input.len() < with_padding(size) {
                if !closed {
                    found == Container::NeedInput(with_padding(size) - input.len())
                } else {
                    found == (Container::Malformed {
                        error: ErrorView::Io(unexpected_eof_error("failed to fill whole buffer"@)),
                        rest: none,
                    })
                }
            } else if number(input, 12, 4) != 10 {
                found == (Container::Other {
                    rest: input.subrange(with_padding(size), input.len() as int),
                })
            } else if size < 32 {
                found == (Container::Malformed {
                    error: ErrorView::Parse("container header too small"@),
                    rest: input.subrange(with_padding(size), input.len() as int),
                })
            } else {
                true
            }
        }),
{
    if input.len() >= 16 {
        lemma_outer_letters(input);
        let size = number(input, 8, 4);
        assert(input.skip(16) =~= input.subrange(16, input.len() as int));
        if input.len() >= with_padding(size) {
            assert(input.skip(with_padding(size)) =~= input.subrange(
                with_padding(size),
                input.len() as int,
            ));
        }
    }
}

/// A log starts with the letters `LOGG` and the size of its header, which is at least 72
/// bytes. A reader then stands behind the header, has handed out nothing, and counts from the
/// moment whose eight numbers stand from byte 40 on.
pub proof fn law_file_headers(bytes: Seq<u8>, closed: bool)
    ensures
        ({
            let size = number(bytes, 4, 4);
            let found = open_of(bytes, closed);
            if bytes.len() < 72 {
                if !closed {
                    found == OpenView::NeedInput(72 - bytes.len())
                } else if bytes.len() == 0 {
                    found == OpenView::Malformed(ErrorView::Parse("empty file"@))
                } else {
                    found == OpenView::Malformed(ErrorView::Parse("unexpected EOF"@))
                }
            } else if !(bytes[0] == 76 && bytes[1] == 79 && bytes[2] == 71 && bytes[3] == 71) {
                found == OpenView::Malformed(ErrorView::Parse("unexpected file signature"@))
            } else if size < 72 {
                found == OpenView::Malformed(ErrorView::Parse("invalid header size"@))
            } else if bytes.len() < size {
                if !closed {
                    found == OpenView::NeedInput(size - bytes.len())
                } else {
                    found == OpenView::Malformed(
                        ErrorView::Io(unexpected_eof_error("failed to fill whole buffer"@)),
                    )
                }
            } else {
                &&& found matches OpenView::Ready(r)
                &&& r.start_millis == millis_of_system_time(start_numbers(bytes))
                &&& r.input == bytes.subrange(size, bytes.len() as int)
                &&& r.closed == closed
                &&& r.tail.len() == 0 && r.pending.len() == 0 && r.error is None
            }
        }),
{
    if bytes.len() >= 72 {
        let s = bytes.take(4);
        assert(s[0] == bytes[0] && s[1] == bytes[1] && s[2] == bytes[2] && s[3] == bytes[3]);
        if bytes[0] == 76 && bytes[1] == 79 && bytes[2] == 71 && bytes[3] == 71 {
            assert(s =~= seq![76u8, 79u8, 71u8, 71u8]);
        }
        law_integers_are_little_endian(bytes, 4);
        let size = number(bytes, 4, 4);
        if bytes.len() >= size {
            assert(bytes.skip(size) =~= bytes.subrange(size, bytes.len() as int));
        }
        assert(start_numbers(bytes) =~= header_start(bytes)) by {
            assert forall|i: int| 0 <= i < 8 implies #[trigger] start_numbers(bytes)[i]
                == header_start(bytes)[i] by {
                law_integers_are_little_endian(bytes, 40 + 2 * i);
            }
        }
        crate::calendar::lemma_header_millis(start_numbers(bytes));
    }
}

/// The eight 16-bit numbers from byte 40 of a file header on.
pub open spec fn start_numbers(bytes: Seq<u8>) -> Seq<u16> {
    Seq::new(8, |i: int| number(bytes, 40 + 2 * i, 2) as u16)
}

/// A reader hands out what is pending, the first first. Else it passes on what the log says:
/// that it ends, that more of it is needed, or why it cannot be read. It then stands behind
/// what cannot be read, and nothing else of it changes.
pub proof fn law_reader_answers(r: ReaderView)
    ensures
        if r.pending.len() > 0 {
            next_of(r) == (
                Ok::<NextView, ErrorView>(NextView::Message(r.pending[0])),
                ReaderView { pending: r.pending.subrange(1, r.pending.len() as int), ..r },
            )
        } else {
            match next_container(r.input, r.closed) {
                Container::NeedInput(n) => next_of(r) == (
                    Ok::<NextView, ErrorView>(NextView::NeedInput(n)),
                    r,
                ),
                Container::End => next_of(r) == (Ok::<NextView, ErrorView>(NextView::End), r),
                Container::Malformed { error, rest } => next_of(r) == (
                    Err::<NextView, ErrorView>(error),
                    ReaderView { input: rest, ..r },
                ),
                Container::Other { rest } => next_of(r) == next_of(
                    ReaderView { input: rest, ..r },
                ),
                Container::Piece { data, rest } => match parse(r.tail + data, 0, r.start_millis) {
                    Err(reason) => next_of(r) == (
                        Err::<NextView, ErrorView>(ErrorView::Parse(reason)),
                        ReaderView { input: rest, tail: Seq::empty(), ..r },
                    ),
                    Ok((messages, tail)) => next_of(r) == next_of(
                        ReaderView { input: rest, tail, pending: messages, ..r },
                    ),
                },
            }
        },
{
    if r.pending.len() > 0 {
        assert(r.pending.drop_first() =~= r.pending.subrange(1, r.pending.len() as int));
    } else if let Container::Piece { data, rest } = next_container(r.input, r.closed) {
        crate::blf::cutting::law_piece_is_read_whole(r, data, rest);
    }
}

/// A reader that stops at its first error gives what it would give otherwise, keeps the error
/// that stops it, and from then on says that the log ends, without reading on.
pub proof fn law_errors_stop_iteration(r: ReaderView)
    ensures
        r.error is Some ==> iterate(r) == (NextView::End, r),
        r.error is None ==> match next_of(r) {
            (Ok(next), after) => iterate(r) == (next, after) && after.error is None,
            (Err(e), after) => {
                &&& iterate(r) == (NextView::End, ReaderView { error: Some(e), ..after })
                &&& iterate(iterate(r).1) == iterate(r)
            },
        },
{
    lemma_error_untouched(r);
}

proof fn lemma_error_untouched(r: ReaderView)
    ensures
        next_of(r).1.error == r.error,
    decreases r.input.len(),
{
    if r.pending.len() == 0 {
        crate::blf::reader::lemma_container_advances(r.input, r.closed);
        match next_container(r.input, r.closed) {
            Container::Other { rest } => {
                lemma_error_untouched(ReaderView { input: rest, ..r });
            },
            Container::Piece { data, rest } => {
                if let Ok((messages, tail)) = parse(r.tail + data, 0, r.start_millis) {
                    if messages.len() == 0 {
                        lemma_error_untouched(ReaderView { input: rest, tail, ..r });
                    }
                }
            },
            _ => {},
        }
    }
}

} // verus!
