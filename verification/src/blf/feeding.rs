//! How a log is cut into pieces does not matter to its reader, nor what else it holds.

use vstd::prelude::*;

use crate::blf::format::{
    object_mark, FILE_HEADER_STRUCT_SIZE, LOG_CONTAINER, LOG_CONTAINER_SIZE, NO_COMPRESSION,
    OBJ_HEADER_BASE_SIZE, ZLIB_DEFLATE,
};
use crate::blf::object::parse;
use crate::blf::reader::{
    header_start, lemma_container_advances, next_container, next_of, open_of, padded_size,
    Container, NextView, OpenView, ReaderView,
};
use crate::bytes::{u16_at, u32_at};
use crate::error::ErrorView;

verus! {

/// A reader that was handed more bytes.
pub open spec fn fed(r: ReaderView, more: Seq<u8>) -> ReaderView {
    ReaderView { input: r.input + more, ..r }
}

/// What the bytes of a log start with, when more follow.
spec fn with_more(c: Container, more: Seq<u8>) -> Container {
    match c {
        Container::Malformed { error, rest } => Container::Malformed { error, rest: rest + more },
        Container::Other { rest } => Container::Other { rest: rest + more },
        Container::Piece { data, rest } => Container::Piece { data, rest: rest + more },
        _ => c,
    }
}

proof fn lemma_container_with_more(input: Seq<u8>, more: Seq<u8>)
    ensures
        ({
            let found = next_container(input, false);
            &&& !(found is End)
            &&& !(found is NeedInput) ==> next_container(input + more, false) == with_more(
                found,
                more,
            )
            &&& found matches Container::NeedInput(n) ==> 0 < n && (more.len() < n
                ==> next_container(input + more, false) == Container::NeedInput(n - more.len()))
        }),
{
    let all = input + more;
    if input.len() >= OBJ_HEADER_BASE_SIZE {
        assert forall|k: int| 0 <= k < input.len() implies #[trigger] input[k] == all[k] by {}
        assert(all.take(4) =~= input.take(4));
        assert(all.skip(OBJ_HEADER_BASE_SIZE as int) =~= input.skip(OBJ_HEADER_BASE_SIZE as int)
            + more);
        let size = u32_at(input, 8) as int;
        assert(u32_at(all, 8) == size);
        assert(u32_at(all, 12) == u32_at(input, 12));
        if size >= OBJ_HEADER_BASE_SIZE && input.len() >= padded_size(size) {
            assert(all.subrange(OBJ_HEADER_BASE_SIZE as int, size) =~= input.subrange(
                OBJ_HEADER_BASE_SIZE as int,
                size,
            ));
            assert(all.skip(padded_size(size)) =~= input.skip(padded_size(size)) + more);
        }
    }
}

/// Asking a reader before all of the log was handed over changes nothing: where the
/// reader wants more bytes, it later answers as if it had not been asked, and where it
/// has an answer, later bytes do not change it. It never says that a log ends before it
/// was told so.
pub proof fn law_cuts_do_not_matter(r: ReaderView, more: Seq<u8>)
    requires
        !r.closed,
    ensures
        next_of(r).0 != Ok::<NextView, ErrorView>(NextView::End),
        if next_of(r).0 is Ok && next_of(r).0->Ok_0 is NeedInput {
            next_of(fed(r, more)) == next_of(fed(next_of(r).1, more))
        } else {
            next_of(fed(r, more)) == (next_of(r).0, fed(next_of(r).1, more))
        },
    decreases r.input.len(),
{
    if r.pending.len() == 0 {
        lemma_container_with_more(r.input, more);
        lemma_container_advances(r.input, false);
        match next_container(r.input, false) {
            Container::Other { rest } => {
                law_cuts_do_not_matter(ReaderView { input: rest, ..r }, more);
            },
            Container::Piece { data, rest } => {
                if let Ok((messages, tail)) = parse(r.tail + data, 0, r.start_millis) {
                    if messages.len() == 0 {
                        law_cuts_do_not_matter(ReaderView { input: rest, tail, ..r }, more);
                    }
                }
            },
            _ => {},
        }
    }
}

/// A reader that wants a number of bytes still wants the rest of them after fewer.
pub proof fn law_input_is_needed(r: ReaderView, more: Seq<u8>)
    requires
        !r.closed,
    ensures
        next_of(r).0 matches Ok(NextView::NeedInput(n)) ==> 0 < n && (more.len() < n ==> next_of(
            fed(next_of(r).1, more),
        ).0 == Ok::<NextView, ErrorView>(NextView::NeedInput(n - more.len()))),
    decreases r.input.len(),
{
    if r.pending.len() == 0 {
        lemma_container_with_more(r.input, more);
        lemma_container_advances(r.input, false);
        match next_container(r.input, false) {
            Container::Other { rest } => {
                law_input_is_needed(ReaderView { input: rest, ..r }, more);
            },
            Container::Piece { data, rest } => {
                if let Ok((messages, tail)) = parse(r.tail + data, 0, r.start_millis) {
                    if messages.len() == 0 {
                        law_input_is_needed(ReaderView { input: rest, tail, ..r }, more);
                    }
                }
            },
            _ => {},
        }
    }
}

/// Whether bytes are one whole object of the outer stream, with its padding, that holds
/// nothing of the inner stream: it is no container, or a container that stores its piece
/// by an unknown method.
pub open spec fn holds_nothing(x: Seq<u8>) -> bool {
    let obj_size = u32_at(x, 8) as int;
    &&& OBJ_HEADER_BASE_SIZE <= obj_size
    &&& x.len() == padded_size(obj_size)
    &&& x.take(4) == object_mark()
    &&& u32_at(x, 12) != LOG_CONTAINER || {
        &&& OBJ_HEADER_BASE_SIZE + LOG_CONTAINER_SIZE <= obj_size
        &&& u16_at(x, 16) != NO_COMPRESSION
        &&& u16_at(x, 16) != ZLIB_DEFLATE
    }
}

/// An object that holds nothing of the inner stream is skipped without effect: a reader
/// that has nothing to hand out answers as if it were not there, and is the same
/// afterwards.
pub proof fn law_other_objects_are_skipped(r: ReaderView, x: Seq<u8>, rest: Seq<u8>)
    requires
        r.pending.len() == 0,
        holds_nothing(x),
    ensures
        next_container(x + rest, r.closed) == (Container::Other { rest }),
        next_of(ReaderView { input: x + rest, ..r }) == next_of(ReaderView { input: rest, ..r }),
{
    let input = x + rest;
    let size = u32_at(x, 8) as int;
    assert forall|k: int| 0 <= k < x.len() implies #[trigger] x[k] == input[k] by {}
    assert(input.take(4) =~= x.take(4));
    assert(u32_at(input, 8) == size);
    assert(u32_at(input, 12) == u32_at(x, 12));
    assert(input.skip(padded_size(size)) =~= rest);
    let data = input.subrange(OBJ_HEADER_BASE_SIZE as int, size);
    if size >= OBJ_HEADER_BASE_SIZE + LOG_CONTAINER_SIZE {
        assert(data[0] == x[16] && data[1] == x[17]);
    }
}

/// Opening a log early changes nothing either: a reader that was opened stands where
/// one stands that was opened later, a log that cannot be opened stays so, and the bytes
/// that opening asks for are needed.
pub proof fn law_early_open_does_not_matter(bytes: Seq<u8>, more: Seq<u8>)
    ensures
        match open_of(bytes, false) {
            OpenView::NeedInput(n) => 0 < n && (more.len() < n ==> open_of(bytes + more, false)
                is NeedInput),
            OpenView::Ready(r) => open_of(bytes + more, false) == OpenView::Ready(fed(r, more)),
            OpenView::Malformed(e) => open_of(bytes + more, false) == OpenView::Malformed(e),
        },
{
    let all = bytes + more;
    assert forall|k: int| 0 <= k < bytes.len() implies #[trigger] bytes[k] == all[k] by {}
    if bytes.len() >= FILE_HEADER_STRUCT_SIZE {
        assert(all.take(4) =~= bytes.take(4));
        assert(u32_at(all, 4) == u32_at(bytes, 4));
        assert(header_start(all) =~= header_start(bytes));
        let size = u32_at(bytes, 4) as int;
        if bytes.len() >= size {
            assert(all.skip(size) =~= bytes.skip(size) + more);
        }
    }
}

} // verus!
