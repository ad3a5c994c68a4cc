//! What a run of writes sends to the buffer when each of its pieces may
//! fail: the bytes up to the first failure, and that failure.

use vstd::prelude::*;
use crate::buffer_error::BufferError;
use crate::byte_packet_buffer::BytePacketBuffer;
use crate::name::write_failure;
use crate::wire::{lemma_put_join, room};

verus! {

/// One piece of a message as it is written: what it sends to the buffer
/// while it is being written, what stands there once it is complete, and
/// whether all its labels can be written. The two have the same length;
/// they differ where a length is filled in at the end.
pub struct Piece {
    pub draft: Seq<u8>,
    pub wire: Seq<u8>,
    pub writable: bool,
}

/// The bytes that a run of writes leaves in the buffer, as far as they
/// fit, and the failure that ended the run, if one did.
pub struct Emission {
    pub bytes: Seq<u8>,
    pub failure: Option<BufferError>,
}

impl Piece {
    /// A piece that is written in one go and cannot fail but for want of
    /// room.
    pub open spec fn plain(bytes: Seq<u8>) -> Piece {
        Piece { draft: bytes, wire: bytes, writable: true }
    }

    /// The draft of a piece that can be written is as long as the piece.
    pub open spec fn wf(self) -> bool {
        self.writable ==> self.wire.len() == self.draft.len()
    }

    /// What writing this piece at `pos` leaves.
    pub open spec fn emit(self, pos: int) -> Emission {
        let failure = write_failure(self.writable, self.draft.len() as int, pos);
        Emission {
            bytes: if failure is Some {
                self.draft
            } else {
                self.wire
            },
            failure,
        }
    }
}

impl Emission {
    /// This emission behind the bytes `before`.
    pub open spec fn after(self, before: Seq<u8>) -> Emission {
        Emission { bytes: before + self.bytes, failure: self.failure }
    }

    /// `after` is `before` with this emission written at the cursor, and
    /// `r` tells its failure.
    pub open spec fn done<T>(
        self,
        before: &BytePacketBuffer,
        after: &BytePacketBuffer,
        r: Result<T, BufferError>,
    ) -> bool {
        before.streamed(after, self.bytes) && match r {
            Ok(_) => self.failure is None,
            Err(e) => self.failure == Some(e),
        }
    }
}

/// What writing the pieces one after the other from `pos` on leaves: the
/// run ends with the first piece that fails.
pub open spec fn emit_all(pieces: Seq<Piece>, pos: int) -> Emission
    decreases pieces.len(),
{
    if pieces.len() == 0 {
        Emission { bytes: Seq::empty(), failure: None }
    } else {
        let first = pieces[0].emit(pos);
        if first.failure is Some {
            first
        } else {
            emit_all(pieces.skip(1), pos + first.bytes.len()).after(first.bytes)
        }
    }
}

/// The pieces on the wire, one after the other.
pub open spec fn wires(pieces: Seq<Piece>) -> Seq<u8>
    decreases pieces.len(),
{
    if pieces.len() == 0 {
        Seq::empty()
    } else {
        pieces[0].wire + wires(pieces.skip(1))
    }
}

/// All the pieces are well formed.
pub open spec fn pieces_wf(pieces: Seq<Piece>) -> bool {
    forall|i: int| 0 <= i < pieces.len() ==> (#[trigger] pieces[i]).wf()
}

/// A run that does not fail for want of room fits in the buffer, and one
/// that does, does not.
pub proof fn lemma_emit_all_room(pieces: Seq<Piece>, pos: int)
    requires
        0 <= pos,
        pieces_wf(pieces),
    ensures
        emit_all(pieces, pos).failure == Some(BufferError::EndOfBuffer) <==> emit_all(
            pieces,
            pos,
        ).bytes.len() > room(pos),
        emit_all(pieces, pos).failure is None || emit_all(pieces, pos).failure == Some(
            BufferError::LabelTooLong,
        ) || emit_all(pieces, pos).failure == Some(BufferError::EndOfBuffer),
    decreases pieces.len(),
{
    if pieces.len() > 0 {
        let first = pieces[0].emit(pos);
        assert(pieces[0].wf());
        if first.failure is None {
            assert forall|i: int| 0 <= i < pieces.skip(1).len() implies (#[trigger] pieces.skip(
                1,
            )[i]).wf() by {
                assert(pieces[i + 1].wf());
            }
            lemma_emit_all_room(pieces.skip(1), pos + first.bytes.len());
        }
    }
}

/// Writing `a` and then `b` is writing `a + b`: the run ends in `a` if it
/// fails there, and goes on with `b` behind what `a` has written if not.
pub proof fn lemma_emit_all_join(a: Seq<Piece>, b: Seq<Piece>, pos: int)
    ensures
        emit_all(a + b, pos) == if emit_all(a, pos).failure is Some {
            emit_all(a, pos)
        } else {
            emit_all(b, pos + emit_all(a, pos).bytes.len()).after(emit_all(a, pos).bytes)
        },
    decreases a.len(),
{
    if a.len() == 0 {
        assert(a + b =~= b);
        assert(emit_all(b, pos).after(Seq::empty()).bytes =~= emit_all(b, pos).bytes);
    } else {
        let first = a[0].emit(pos);
        assert((a + b)[0] == a[0]);
        assert((a + b).skip(1) =~= a.skip(1) + b);
        if first.failure is None {
            let next = pos + first.bytes.len();
            lemma_emit_all_join(a.skip(1), b, next);
            let ea = emit_all(a.skip(1), next);
            if ea.failure is None {
                let eb = emit_all(b, next + ea.bytes.len());
                assert(eb.after(ea.bytes).after(first.bytes).bytes =~= eb.after(
                    ea.after(first.bytes).bytes,
                ).bytes);
            }
        }
    }
}

/// A run that does not fail leaves the pieces on the wire.
pub proof fn lemma_emit_all_wires(pieces: Seq<Piece>, pos: int)
    requires
        emit_all(pieces, pos).failure is None,
    ensures
        emit_all(pieces, pos).bytes == wires(pieces),
    decreases pieces.len(),
{
    if pieces.len() > 0 {
        let first = pieces[0].emit(pos);
        lemma_emit_all_wires(pieces.skip(1), pos + first.bytes.len());
    }
}

/// The wire form of pieces in two runs is that of the first run and then
/// that of the second.
pub proof fn lemma_wires_join(a: Seq<Piece>, b: Seq<Piece>)
    ensures
        wires(a + b) == wires(a) + wires(b),
    decreases a.len(),
{
    if a.len() == 0 {
        assert(a + b =~= b);
        assert(wires(a) + wires(b) =~= wires(b));
    } else {
        assert((a + b)[0] == a[0]);
        assert((a + b).skip(1) =~= a.skip(1) + b);
        lemma_wires_join(a.skip(1), b);
        assert(a[0].wire + (wires(a.skip(1)) + wires(b)) =~= a[0].wire + wires(a.skip(1)) + wires(
            b,
        ));
    }
}

/// A run of one plain piece leaves its bytes, and fails only for want of
/// room.
pub proof fn lemma_emit_plain(bytes: Seq<u8>, pos: int)
    ensures
        emit_all(seq![Piece::plain(bytes)], pos) == (Emission {
            bytes,
            failure: write_failure(true, bytes.len() as int, pos),
        }),
{
    let pieces = seq![Piece::plain(bytes)];
    reveal_with_fuel(emit_all, 2);
    assert(pieces.skip(1) =~= Seq::<Piece>::empty());
    assert(bytes + Seq::<u8>::empty() =~= bytes);
}

/// One step of a longer run. The buffer `cur` has come from `start` by
/// writing `done`, all of which fit, and the pieces `first` are written
/// next, with `rest` to follow. If they fail, the whole run has ended as
/// they did. If not, the whole run is what `rest` makes of it from where
/// the cursor then stands.
pub proof fn lemma_emit_step(
    start: BytePacketBuffer,
    cur: BytePacketBuffer,
    done: Seq<u8>,
    first: Seq<Piece>,
    rest: Seq<Piece>,
)
    requires
        start.streamed(&cur, done),
        cur.pos == start.pos + done.len(),
        pieces_wf(first),
    ensures
        forall|next: BytePacketBuffer| #[trigger]
            cur.streamed(&next, emit_all(first, cur.pos as int).bytes) ==> {
                let e = emit_all(first, cur.pos as int);
                let whole = emit_all(first + rest, cur.pos as int).after(done);
                &&& start.streamed(&next, done + e.bytes)
                &&& e.failure is Some ==> whole == e.after(done)
                &&& e.failure is None ==> next.pos == start.pos + (done + e.bytes).len() && whole
                    == emit_all(rest, next.pos as int).after(done + e.bytes)
            },
{
    let e = emit_all(first, cur.pos as int);
    let whole = emit_all(first + rest, cur.pos as int).after(done);
    lemma_emit_all_join(first, rest, cur.pos as int);
    lemma_emit_all_room(first, cur.pos as int);
    assert forall|next: BytePacketBuffer| #[trigger]
        cur.streamed(&next, e.bytes) implies start.streamed(&next, done + e.bytes) && (e.failure
        is Some ==> whole == e.after(done)) && (e.failure is None ==> next.pos == start.pos + (done
        + e.bytes).len() && whole == emit_all(rest, next.pos as int).after(done + e.bytes)) by {
        lemma_put_join(start.buf@, start.pos as int, done, e.bytes);
        if e.failure is None {
            let tail = emit_all(rest, next.pos as int);
            assert(done + (e.bytes + tail.bytes) =~= done + e.bytes + tail.bytes);
        }
    }
}

/// One piece of a run, as [`lemma_emit_step`] has it for several: the
/// piece at `i` is written next, and those behind it follow.
pub proof fn lemma_emit_next(
    start: BytePacketBuffer,
    cur: BytePacketBuffer,
    done: Seq<u8>,
    pieces: Seq<Piece>,
    i: int,
)
    requires
        start.streamed(&cur, done),
        cur.pos == start.pos + done.len(),
        0 <= i < pieces.len(),
        pieces[i].wf(),
    ensures
        forall|next: BytePacketBuffer| #[trigger]
            cur.streamed(&next, pieces[i].emit(cur.pos as int).bytes) ==> {
                let e = pieces[i].emit(cur.pos as int);
                let whole = emit_all(pieces.skip(i), cur.pos as int).after(done);
                &&& start.streamed(&next, done + e.bytes)
                &&& e.failure is Some ==> whole == e.after(done)
                &&& e.failure is None ==> next.pos == start.pos + (done + e.bytes).len() && whole
                    == emit_all(pieces.skip(i + 1), next.pos as int).after(done + e.bytes)
            },
{
    let one = seq![pieces[i]];
    let rest = pieces.skip(i + 1);
    assert(one + rest =~= pieces.skip(i));
    assert(emit_all(one, cur.pos as int) == pieces[i].emit(cur.pos as int)) by {
        reveal_with_fuel(emit_all, 2);
        assert(one.skip(1) =~= Seq::<Piece>::empty());
        let e = pieces[i].emit(cur.pos as int);
        assert(e.bytes + Seq::<u8>::empty() =~= e.bytes);
    }
    lemma_emit_step(start, cur, done, one, rest);
}

} // verus!
