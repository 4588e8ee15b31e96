//! The byte sink that a document is written to.

use vstd::prelude::*;
use vstd::slice::slice_subrange;

verus! {

/// The one way in which writing fails: the output could not take every byte
/// that it was handed.
#[derive(Debug, Clone, Copy, PartialEq, Eq)]
pub struct OutputError;

/// A sink for bytes with room for a fixed number of them.
///
/// It takes bytes until its room is used up. A write that does not fit leaves
/// the part that did fit in the output and fails; what the output then holds is
/// an unfinished document, to be thrown away.
pub struct Output {
    bytes: Vec<u8>,
    room: usize,
}

impl View for Output {
    type V = Seq<u8>;

    /// The bytes taken so far, in the order in which they came.
    closed spec fn view(&self) -> Seq<u8> {
        self.bytes@
    }
}

impl Output {
    /// The number of bytes that the output can still take.
    pub closed spec fn room(&self) -> nat {
        self.room as nat
    }

    /// How much of `data` an output with `room` bytes left takes.
    pub open spec fn taken(room: nat, data: Seq<u8>) -> nat {
        if data.len() <= room {
            data.len()
        } else {
            room
        }
    }

    /// The relation between an output `before` it was handed `data` and
    /// `after`: the bytes that fit were appended, the room shrank by their
    /// number, and `whole` tells whether all of `data` fitted.
    pub open spec fn delivers(before: Output, after: Output, data: Seq<u8>, whole: bool) -> bool {
        let n = Self::taken(before.room(), data);
        &&& after@ == before@ + data.take(n as int)
        &&& after.room() == before.room() - n
        &&& whole == (data.len() <= before.room())
    }

    /// An empty output with room for as many bytes as the machine can address.
    pub fn new() -> (out: Output)
        ensures
            out@ == Seq::<u8>::empty(),
            out.room() == usize::MAX,
    {
        Output { bytes: Vec::new(), room: usize::MAX }
    }

    /// An empty output with room for `limit` bytes.
    pub fn with_limit(limit: usize) -> (out: Output)
        ensures
            out@ == Seq::<u8>::empty(),
            out.room() == limit,
    {
        Output { bytes: Vec::new(), room: limit }
    }

    /// The number of bytes that the output can still take.
    pub fn remaining(&self) -> (n: usize)
        ensures
            n == self.room(),
    {
        self.room
    }

    /// The bytes taken so far.
    pub fn as_bytes(&self) -> (bytes: &[u8])
        ensures
            bytes@ == self@,
    {
        self.bytes.as_slice()
    }

    /// Gives up the output for the bytes that it has taken.
    pub fn into_bytes(self) -> (bytes: Vec<u8>)
        ensures
            bytes@ == self@,
    {
        self.bytes
    }

    /// Hands `data` to the output. All of it is appended if it fits; else the
    /// output is filled with the first bytes of `data` and the write fails.
    pub fn write(&mut self, data: &[u8]) -> (r: Result<(), OutputError>)
        ensures
            Self::delivers(*old(self), *final(self), data@, r is Ok),
    {
        if data.len() <= self.room {
            self.bytes.extend_from_slice(data);
            self.room = self.room - data.len();
            assert(self.bytes@ =~= old(self).bytes@ + data@.take(data@.len() as int));
            Ok(())
        } else {
            let head = slice_subrange(data, 0, self.room);
            self.bytes.extend_from_slice(head);
            assert(self.bytes@ =~= old(self).bytes@ + data@.take(old(self).room as int));
            self.room = 0;
            Err(OutputError)
        }
    }

    /// Writing nothing changes nothing and succeeds.
    pub proof fn lemma_delivers_nothing(at: Output)
        ensures
            Self::delivers(at, at, Seq::<u8>::empty(), true),
    {
        assert(at@ =~= at@ + Seq::<u8>::empty().take(0));
    }

    /// One more write after writes that succeeded: if `done` went from `start`
    /// to `mid` whole and `piece` then went from `mid` to `end`, then from
    /// `start` to `end` went `done + piece` where `piece` fitted, and, where it
    /// did not, as much as fitted of anything that begins with `done + piece`.
    pub proof fn lemma_delivers_next(
        start: Output,
        mid: Output,
        end: Output,
        done: Seq<u8>,
        piece: Seq<u8>,
        total: Seq<u8>,
        whole: bool,
    )
        requires
            Self::delivers(start, mid, done, true),
            Self::delivers(mid, end, piece, whole),
            (done + piece).is_prefix_of(total),
        ensures
            whole ==> Self::delivers(start, end, done + piece, true),
            !whole ==> Self::delivers(start, end, total, false),
    {
        let n = Self::taken(mid.room(), piece);
        assert(done.take(done.len() as int) =~= done);
        if whole {
            assert(piece.take(n as int) =~= piece);
            assert((done + piece).take((done + piece).len() as int) =~= done + piece);
            assert(end@ =~= start@ + (done + piece));
        } else {
            assert(total.take(start.room() as int) =~= done + piece.take(n as int));
            assert(end@ =~= start@ + total.take(start.room() as int));
        }
    }

    /// The same law for whatever the next write does: once `done` went whole
    /// from `start` to `mid`, every way in which `piece` can go from `mid` to an
    /// `end` is a way in which `done + piece` went from `start` to `end`, or,
    /// where `piece` did not fit, in which `total` went short.
    pub proof fn lemma_delivers_after(
        start: Output,
        mid: Output,
        done: Seq<u8>,
        piece: Seq<u8>,
        total: Seq<u8>,
    )
        requires
            Self::delivers(start, mid, done, true),
            (done + piece).is_prefix_of(total),
        ensures
            forall|end: Output, whole: bool| #[trigger]
                Self::delivers(mid, end, piece, whole) ==> if whole {
                    Self::delivers(start, end, done + piece, true)
                } else {
                    Self::delivers(start, end, total, false)
                },
    {
        assert forall|end: Output, whole: bool| #[trigger]
            Self::delivers(mid, end, piece, whole) implies if whole {
            Self::delivers(start, end, done + piece, true)
        } else {
            Self::delivers(start, end, total, false)
        } by {
            Self::lemma_delivers_next(start, mid, end, done, piece, total, whole);
        }
    }
}

} // verus!
