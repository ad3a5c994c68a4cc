//! The packet buffer: 512 bytes and a cursor, with reads and writes that
//! are checked against its end, and the reading and writing of names.

use vstd::prelude::*;
use vstd::slice::slice_subrange;
use vstd::string::StringSliceAdditionalSpecFns;
use crate::buffer_error::BufferError;
use crate::name::{
    all_short, label_wire, lemma_name_cursor_within, lemma_name_text_push, lemma_name_wire_cons,
    lemma_pointer_bits, lemma_split_at, lower, name_cursor, name_text, name_wire, pointer_target,
    push_label, qname_fits_labels, qname_wire, split_labels, text_fits, text_of, text_wire,
    walk_name, write_failure, NameWalk, DOT, MAX_JUMPS, MAX_LABEL,
};
use crate::wire::{
    dword_at, dword_bytes, lemma_dword_join, lemma_dword_split, lemma_put_cut, lemma_put_join,
    lemma_put_prefix, lemma_word_join, lemma_word_split, put, room, taken, word_at, word_bytes,
    CAPACITY,
};

verus! {

/// A packet of at most 512 bytes with a cursor for sequential reads and
/// writes.
pub struct BytePacketBuffer {
    pub buf: [u8; 512],
    pub pos: usize,
}

impl BytePacketBuffer {
    /// The cursor lies within the buffer or just behind its last byte.
    pub open spec fn wf(&self) -> bool {
        self.pos <= CAPACITY
    }

    /// `after` is `self` with the cursor moved on over `n` bytes, or over
    /// as many as were left.
    pub open spec fn advanced(&self, after: &Self, n: int) -> bool {
        after.buf@ == self.buf@ && after.pos == self.pos + taken(self.pos as int, n)
    }

    /// `after` is `self` with `bytes` written at the cursor, as far as they
    /// fit, and the cursor behind what was written.
    pub open spec fn streamed(&self, after: &Self, bytes: Seq<u8>) -> bool {
        after.buf@ == put(self.buf@, self.pos as int, bytes) && after.pos == self.pos + taken(
            self.pos as int,
            bytes.len() as int,
        )
    }

    /// What reading a name at the cursor yields.
    pub open spec fn name_walk(&self) -> NameWalk {
        walk_name(self.buf@, self.pos as int, 0)
    }

    /// Where the cursor stands after a name has been read at the cursor.
    pub open spec fn name_end(&self) -> int {
        name_cursor(self.buf@, self.pos as int, self.pos as int)
    }

    /// Where `self` has come from `start` by writing `done`, writing `x`
    /// next gives what writing `done + x` gives from `start`; and if `x`
    /// does not fit, so does writing anything that begins with `done + x`.
    pub proof fn lemma_then(self, start: Self, done: Seq<u8>, x: Seq<u8>, rest: Seq<u8>)
        requires
            start.streamed(&self, done),
        ensures
            forall|next: Self| #[trigger]
                self.streamed(&next, x) ==> start.streamed(&next, done + x) && (x.len() > room(
                    self.pos as int,
                ) ==> start.streamed(&next, done + x + rest)),
    {
        assert forall|next: Self| #[trigger] self.streamed(&next, x) implies start.streamed(
            &next,
            done + x,
        ) && (x.len() > room(self.pos as int) ==> start.streamed(&next, done + x + rest)) by {
            lemma_put_join(start.buf@, start.pos as int, done, x);
            if x.len() > room(self.pos as int) {
                lemma_put_cut(start.buf@, start.pos as int, done + x, rest);
            }
        }
    }

    /// As [`Self::lemma_then`], for a write of `whole` of which `done + x`
    /// is the beginning.
    pub proof fn lemma_then_within(self, start: Self, done: Seq<u8>, x: Seq<u8>, whole: Seq<u8>)
        requires
            start.streamed(&self, done),
            (done + x).is_prefix_of(whole),
        ensures
            forall|next: Self| #[trigger]
                self.streamed(&next, x) ==> start.streamed(&next, done + x) && (x.len() > room(
                    self.pos as int,
                ) ==> start.streamed(&next, whole)),
    {
        assert forall|next: Self| #[trigger] self.streamed(&next, x) implies start.streamed(
            &next,
            done + x,
        ) && (x.len() > room(self.pos as int) ==> start.streamed(&next, whole)) by {
            lemma_put_join(start.buf@, start.pos as int, done, x);
            if x.len() > room(self.pos as int) {
                lemma_put_prefix(start.buf@, start.pos as int, done + x, whole);
            }
        }
    }

    /// Nothing written leaves the buffer as it is.
    pub proof fn lemma_streamed_nothing(self)
        ensures
            self.streamed(&self, Seq::<u8>::empty()),
    {
        assert(put(self.buf@, self.pos as int, Seq::<u8>::empty()) =~= self.buf@);
    }

    /// A cursor within the buffer stays there, whatever is read or written
    /// at it, and whatever name is read, with success or not.
    pub proof fn lemma_cursor_stays_within(self, after: Self, bytes: Seq<u8>, n: int)
        requires
            self.wf(),
            self.streamed(&after, bytes) || self.advanced(&after, n) || after.pos
                == self.name_end(),
        ensures
            after.wf(),
    {
        lemma_name_cursor_within(self.buf@, self.pos as int, self.pos as int);
    }

    /// An empty buffer: all bytes zero, the cursor at the start.
    pub fn new() -> (r: BytePacketBuffer)
        ensures
            r.wf(),
            r.pos == 0,
            r.buf@ == Seq::new(CAPACITY as nat, |i: int| 0u8),
    {
        let r = BytePacketBuffer { buf: [0; 512], pos: 0 };
        assert(r.buf@ =~= Seq::new(CAPACITY as nat, |i: int| 0u8));
        r
    }

    /// Moves the cursor forward by `steps`. Fails with `Overflow`, and
    /// moves nothing, if that would pass the end of the buffer.
    pub fn step(&mut self, steps: usize) -> (r: Result<&mut Self, BufferError>)
        ensures
            match r {
                Ok(s) => old(self).pos + steps <= CAPACITY && s.buf@ == old(self).buf@ && s.pos
                    == old(self).pos + steps && *final(self) == *final(s),
                Err(e) => e == BufferError::Overflow && old(self).pos + steps > CAPACITY
                    && *final(self) == *old(self),
            },
    {
        match self.pos.checked_add(steps) {
            Some(x) => {
                if x > CAPACITY {
                    return Err(BufferError::Overflow);
                }
                self.pos = x;
                Ok(self)
            },
            None => Err(BufferError::Overflow),
        }
    }

    /// Sets the cursor to `pos`. Fails with `OutOfBounds`, and moves
    /// nothing, unless `pos` is the position of a byte of the buffer.
    pub fn seek(&mut self, pos: usize) -> (r: Result<&mut Self, BufferError>)
        ensures
            match r {
                Ok(s) => pos < CAPACITY && s.buf@ == old(self).buf@ && s.pos == pos
                    && *final(self) == *final(s),
                Err(e) => e == BufferError::OutOfBounds && pos >= CAPACITY
                    && *final(self) == *old(self),
            },
    {
        if pos >= self.buf.len() {
            Err(BufferError::OutOfBounds)
        } else {
            self.pos = pos;
            Ok(self)
        }
    }

    /// Reads the byte at the cursor and moves past it. Fails with
    /// `BufferOverflow`, and moves nothing, at the end of the buffer.
    pub fn read_byte(&mut self) -> (r: Result<u8, BufferError>)
        ensures
            old(self).advanced(final(self), 1),
            match r {
                Ok(v) => old(self).pos < CAPACITY && v == old(self).buf@[old(self).pos as int],
                Err(e) => e == BufferError::BufferOverflow && old(self).pos >= CAPACITY,
            },
    {
        if self.pos >= self.buf.len() {
            return Err(BufferError::BufferOverflow);
        }
        let value = self.buf[self.pos];
        self.pos = self.pos + 1;
        Ok(value)
    }

    /// The byte at `pos`; the cursor stays. Fails with `OutOfBounds`
    /// outside the buffer.
    pub fn get(&mut self, pos: usize) -> (r: Result<u8, BufferError>)
        ensures
            *final(self) == *old(self),
            match r {
                Ok(v) => pos < CAPACITY && v == old(self).buf@[pos as int],
                Err(e) => e == BufferError::OutOfBounds && pos >= CAPACITY,
            },
    {
        if pos < self.buf.len() {
            Ok(self.buf[pos])
        } else {
            Err(BufferError::OutOfBounds)
        }
    }

    /// The `len` bytes from `start` on; the cursor stays. Fails with
    /// `OutOfBounds` unless all of them lie in the buffer.
    pub fn get_range(&mut self, start: usize, len: usize) -> (r: Result<&[u8], BufferError>)
        ensures
            *final(self) == *old(self),
            match r {
                Ok(bytes) => start + len <= CAPACITY && bytes@ == old(self).buf@.subrange(
                    start as int,
                    start + len,
                ),
                Err(e) => e == BufferError::OutOfBounds && start + len > CAPACITY,
            },
    {
        if start > CAPACITY || len > CAPACITY - start {
            return Err(BufferError::OutOfBounds);
        }
        Ok(slice_subrange(self.buf.as_slice(), start, start + len))
    }

    /// Reads a big-endian 16-bit integer at the cursor. Fails with
    /// `BufferOverflow` if fewer than two bytes are left; the cursor is
    /// then at the end of what could be read.
    pub fn read_word(&mut self) -> (r: Result<u16, BufferError>)
        ensures
            old(self).advanced(final(self), 2),
            match r {
                Ok(v) => old(self).pos + 2 <= CAPACITY && v == word_at(
                    old(self).buf@,
                    old(self).pos as int,
                ),
                Err(e) => e == BufferError::BufferOverflow && old(self).pos + 2 > CAPACITY,
            },
    {
        let hi = self.read_byte()?;
        let lo = self.read_byte()?;
        proof {
            lemma_word_join(hi, lo);
        }
        let value = ((hi as u16) << 8) | (lo as u16);
        Ok(value)
    }

    /// Reads a big-endian 32-bit integer at the cursor. Fails with
    /// `BufferOverflow` if fewer than four bytes are left; the cursor is
    /// then at the end of what could be read.
    pub fn read_dword(&mut self) -> (r: Result<u32, BufferError>)
        ensures
            old(self).advanced(final(self), 4),
            match r {
                Ok(v) => old(self).pos + 4 <= CAPACITY && v == dword_at(
                    old(self).buf@,
                    old(self).pos as int,
                ),
                Err(e) => e == BufferError::BufferOverflow && old(self).pos + 4 > CAPACITY,
            },
    {
        let b0 = self.read_byte()?;
        let b1 = self.read_byte()?;
        let b2 = self.read_byte()?;
        let b3 = self.read_byte()?;
        proof {
            lemma_dword_join(b0, b1, b2, b3);
        }
        let value = ((b0 as u32) << 24) | ((b1 as u32) << 16) | ((b2 as u32) << 8) | (b3 as u32);
        Ok(value)
    }

    /// Reads the name at the cursor and appends its text to `outstr`: the
    /// labels in lower case, joined by dots. Compression pointers are
    /// followed, at most five of them. The cursor ends behind the name as
    /// it stands at the cursor: behind its first pointer, or behind its
    /// closing zero where it has none.
    ///
    /// Fails with `OutOfBounds` when the name, or the place for the cursor,
    /// leaves the buffer, and with `TooManyJumps` at the sixth pointer. The
    /// labels read before a failure have been appended.
    pub fn read_qname(&mut self, outstr: &mut String) -> (r: Result<&mut Self, BufferError>)
        ensures
            final(outstr)@ == old(outstr)@ + name_text(old(self).name_walk().labels),
            match r {
                Ok(s) => old(self).name_walk().failure is None && s.buf@ == old(self).buf@
                    && s.pos == old(self).name_end() && *final(self) == *final(s),
                Err(e) => old(self).name_walk().failure == Some(e)
                    && final(self).buf@ == old(self).buf@
                    && final(self).pos == old(self).name_end(),
            },
    {
        let start = self.pos;
        let mut pos = self.pos;
        let mut jumped = false;
        let mut jumps_performed: usize = 0;
        let mut first = true;
        let ghost b = self.buf@;
        let ghost total = walk_name(b, start as int, 0);
        let ghost end = name_cursor(b, start as int, start as int);
        let ghost mut labels: Seq<Seq<u8>> = Seq::empty();
        proof {
            assert(labels + total.labels =~= total.labels);
            assert(outstr@ + name_text(labels) =~= outstr@);
        }
        loop
            invariant_except_break
                self.buf@ == b,
                b.len() == CAPACITY,
                jumped == (jumps_performed > 0),
                jumps_performed <= MAX_JUMPS + 1,
                total == walk_name(b, pos as int, jumps_performed as int).after(labels),
                outstr@ == old(outstr)@ + name_text(labels),
                first == (labels.len() == 0),
                !jumped ==> self.pos == start && name_cursor(b, pos as int, start as int) == end,
                jumped ==> self.pos == end,
            invariant
                b == old(self).buf@,
                start == old(self).pos,
                total == walk_name(b, start as int, 0),
                end == name_cursor(b, start as int, start as int),
            ensures
                self.buf@ == b,
                outstr@ == old(outstr)@ + name_text(labels),
                total.labels == labels,
                jumped ==> self.pos == end && total.failure is None,
                !jumped ==> self.pos == start && pos <= CAPACITY && if pos < CAPACITY {
                    end == pos && total.failure is None
                } else {
                    end == start && total.failure == Some(BufferError::OutOfBounds)
                },
            decreases MAX_JUMPS + 1 - jumps_performed, CAPACITY - pos,
        {
            proof {
                assert(labels + Seq::<Seq<u8>>::empty() =~= labels);
            }
            if jumps_performed > MAX_JUMPS {
                return Err(BufferError::TooManyJumps);
            }
            let len = self.get(pos)?;
            proof {
                lemma_pointer_bits(len, 0);
            }
            if len & 0xC0 == 0xC0 {
                if !jumped {
                    self.seek(pos + 2)?;
                }
                let b2 = self.get(pos + 1)?;
                proof {
                    lemma_pointer_bits(len, b2);
                }
                let offset = (((len ^ 0xC0) as u16) << 8) | (b2 as u16);
                assert(offset == pointer_target(len, b2));
                pos = offset as usize;
                jumped = true;
                jumps_performed += 1;
            } else {
                if len == 0 {
                    pos += 1;
                    break ;
                }
                let bytes = self.get_range(pos + 1, len as usize)?;
                let text = lower(text_of(bytes).as_str());
                proof {
                    lemma_name_text_push(labels, bytes@);
                    let rest = walk_name(b, pos + 1 + len, jumps_performed as int);
                    assert(rest.after(seq![bytes@]).after(labels).labels =~= rest.after(
                        labels.push(bytes@),
                    ).labels);
                    labels = labels.push(bytes@);
                }
                push_label(outstr, first, text.as_str());
                first = false;
                pos += 1 + len as usize;
            }
        }
        if !jumped {
            self.seek(pos)?;
        }
        Ok(self)
    }

    /// Writes `val` at the cursor and moves past it. Fails with
    /// `EndOfBuffer`, and changes nothing, at the end of the buffer.
    pub fn write(&mut self, val: u8) -> (r: Result<&mut Self, BufferError>)
        ensures
            match r {
                Ok(s) => old(self).pos < CAPACITY && old(self).streamed(s, seq![val])
                    && *final(self) == *final(s),
                Err(e) => e == BufferError::EndOfBuffer && old(self).pos >= CAPACITY
                    && old(self).streamed(final(self), seq![val]),
            },
    {
        if self.pos >= self.buf.len() {
            assert(put(self.buf@, self.pos as int, seq![val]) =~= self.buf@);
            return Err(BufferError::EndOfBuffer);
        }
        self.buf[self.pos] = val;
        self.pos += 1;
        assert(self.buf@ =~= put(old(self).buf@, old(self).pos as int, seq![val]));
        Ok(self)
    }

    /// Writes one byte at the cursor; see [`BytePacketBuffer::write`].
    pub fn write_byte(&mut self, val: u8) -> (r: Result<&mut Self, BufferError>)
        ensures
            match r {
                Ok(s) => old(self).pos < CAPACITY && old(self).streamed(s, seq![val])
                    && *final(self) == *final(s),
                Err(e) => e == BufferError::EndOfBuffer && old(self).pos >= CAPACITY
                    && old(self).streamed(final(self), seq![val]),
            },
    {
        self.write(val)?;
        Ok(self)
    }

    /// Writes `val` at the cursor, most significant byte first. Fails with
    /// `EndOfBuffer` if fewer than two bytes are left; the bytes that fit
    /// have then been written.
    pub fn write_word(&mut self, val: u16) -> (r: Result<&mut Self, BufferError>)
        ensures
            match r {
                Ok(s) => old(self).pos + 2 <= CAPACITY && old(self).streamed(s, word_bytes(val))
                    && *final(self) == *final(s),
                Err(e) => e == BufferError::EndOfBuffer && old(self).pos + 2 > CAPACITY
                    && old(self).streamed(final(self), word_bytes(val)),
            },
    {
        proof {
            lemma_word_split(val);
        }
        let hi = (val >> 8) as u8;
        let lo = (val & 0xFF) as u8;
        proof {
            assert(word_bytes(val) =~= seq![hi] + seq![lo]);
            assert(seq![hi] =~= Seq::<u8>::empty() + seq![hi]);
            assert(old(self).streamed(self, Seq::<u8>::empty())) by {
                assert(put(self.buf@, self.pos as int, Seq::<u8>::empty()) =~= self.buf@);
            }
            self.lemma_then(*old(self), Seq::<u8>::empty(), seq![hi], seq![lo]);
        }
        self.write(hi)?;
        proof {
            self.lemma_then(*old(self), seq![hi], seq![lo], Seq::<u8>::empty());
            assert(seq![hi] + seq![lo] + Seq::<u8>::empty() =~= seq![hi] + seq![lo]);
        }
        self.write(lo)?;
        Ok(self)
    }

    /// Writes `val` at the cursor, most significant byte first. Fails with
    /// `EndOfBuffer` if fewer than four bytes are left; the bytes that fit
    /// have then been written.
    pub fn write_dword(&mut self, val: u32) -> (r: Result<&mut Self, BufferError>)
        ensures
            match r {
                Ok(s) => old(self).pos + 4 <= CAPACITY && old(self).streamed(s, dword_bytes(val))
                    && *final(self) == *final(s),
                Err(e) => e == BufferError::EndOfBuffer && old(self).pos + 4 > CAPACITY
                    && old(self).streamed(final(self), dword_bytes(val)),
            },
    {
        proof {
            lemma_dword_split(val);
        }
        let b0 = ((val >> 24) & 0xFF) as u8;
        let b1 = ((val >> 16) & 0xFF) as u8;
        let b2 = ((val >> 8) & 0xFF) as u8;
        let b3 = ((val >> 0) & 0xFF) as u8;
        let ghost nil = Seq::<u8>::empty();
        proof {
            assert(old(self).streamed(self, nil)) by {
                assert(put(self.buf@, self.pos as int, nil) =~= self.buf@);
            }
            assert(dword_bytes(val) =~= nil + seq![b0] + seq![b1, b2, b3]);
            self.lemma_then(*old(self), nil, seq![b0], seq![b1, b2, b3]);
        }
        self.write(b0)?;
        proof {
            assert(dword_bytes(val) =~= nil + seq![b0] + seq![b1] + seq![b2, b3]);
            self.lemma_then(*old(self), nil + seq![b0], seq![b1], seq![b2, b3]);
        }
        self.write(b1)?;
        proof {
            assert(dword_bytes(val) =~= nil + seq![b0] + seq![b1] + seq![b2] + seq![b3]);
            self.lemma_then(*old(self), nil + seq![b0] + seq![b1], seq![b2], seq![b3]);
        }
        self.write(b2)?;
        proof {
            assert(dword_bytes(val) =~= nil + seq![b0] + seq![b1] + seq![b2] + seq![b3] + nil);
            self.lemma_then(*old(self), nil + seq![b0] + seq![b1] + seq![b2], seq![b3], nil);
        }
        self.write(b3)?;
        Ok(self)
    }

    /// Writes one label of a name: a byte that holds its length, and its
    /// bytes. Fails with `LabelTooLong`, and writes nothing, if the label is
    /// longer than 63 bytes, and with `EndOfBuffer` if the buffer ends
    /// within the label; the bytes that fit have then been written.
    fn write_label(&mut self, label: &[u8]) -> (r: Result<&mut Self, BufferError>)
        ensures
            match r {
                Ok(s) => label@.len() <= MAX_LABEL && label@.len() < room(old(self).pos as int)
                    && old(self).streamed(s, label_wire(label@)) && *final(self) == *final(s),
                Err(e) => if label@.len() > MAX_LABEL {
                    e == BufferError::LabelTooLong && *final(self) == *old(self)
                } else {
                    e == BufferError::EndOfBuffer && label@.len() >= room(old(self).pos as int)
                        && old(self).streamed(final(self), label_wire(label@))
                },
            },
    {
        let len = label.len();
        if len > MAX_LABEL {
            return Err(BufferError::LabelTooLong);
        }
        let ghost whole = label_wire(label@);
        let ghost mut done = Seq::<u8>::empty();
        proof {
            self.lemma_streamed_nothing();
            assert(whole =~= done + seq![len as u8] + label@);
            self.lemma_then(*old(self), done, seq![len as u8], label@);
        }
        self.write_byte(len as u8)?;
        proof {
            done = done + seq![len as u8];
        }
        let mut i: usize = 0;
        while i < len
            invariant
                i <= len,
                len == label@.len(),
                len <= MAX_LABEL,
                whole == label_wire(label@),
                whole.len() == len + 1,
                done == whole.take(i + 1),
                done.len() == i + 1,
                old(self).streamed(self, done),
                done.len() <= room(old(self).pos as int),
            decreases len - i,
        {
            proof {
                assert(whole.take(i + 2) =~= done + seq![label@[i as int]]);
                assert((done + seq![label@[i as int]]).is_prefix_of(whole));
                self.lemma_then_within(*old(self), done, seq![label@[i as int]], whole);
            }
            self.write_byte(label[i])?;
            proof {
                done = done + seq![label@[i as int]];
            }
            i += 1;
        }
        proof {
            assert(done =~= whole);
        }
        Ok(self)
    }

    /// Writes the dotted name `qname`: each label behind a byte that holds
    /// its length, then a zero byte. No compression pointer is written.
    ///
    /// Fails with `LabelTooLong` at the first label of more than 63 bytes,
    /// and with `EndOfBuffer` where the buffer ends before that label or
    /// before the end of the name. What comes before the failure has been
    /// written.
    pub fn write_qname(&mut self, qname: &str) -> (r: Result<&mut Self, BufferError>)
        ensures
            match r {
                Ok(s) => write_failure(
                    text_fits(qname@),
                    text_wire(qname@).len() as int,
                    old(self).pos as int,
                ) is None && old(self).streamed(s, text_wire(qname@))
                    && *final(self) == *final(s),
                Err(e) => write_failure(
                    text_fits(qname@),
                    text_wire(qname@).len() as int,
                    old(self).pos as int,
                ) == Some(e) && old(self).streamed(final(self), text_wire(qname@)),
            },
    {
        let bytes = qname.as_bytes();
        let n = bytes.len();
        let ghost s = bytes@;
        let ghost total = qname_wire(s);
        let ghost mut done = Seq::<u8>::empty();
        let mut start: usize = 0;
        proof {
            self.lemma_streamed_nothing();
            assert(done + total =~= total);
            assert(s.skip(0) =~= s);
        }
        loop
            invariant_except_break
                start <= n,
                total == done + name_wire(split_labels(s.skip(start as int))),
                qname_fits_labels(s) <==> all_short(split_labels(s.skip(start as int))),
            invariant
                n == s.len(),
                bytes@ == s,
                s == qname.spec_bytes(),
                total == qname_wire(s),
                old(self).streamed(self, done),
                done.len() <= room(old(self).pos as int),
            ensures
                total == done + seq![0u8],
                qname_fits_labels(s),
            decreases n - start,
        {
            let mut end = start;
            while end < n && bytes[end] != DOT
                invariant
                    start <= end <= n,
                    n == s.len(),
                    bytes@ == s,
                    forall|j: int| start <= j < end ==> s[j] != DOT,
                decreases n - end,
            {
                end += 1;
            }
            let label = slice_subrange(bytes, start, end);
            let ghost rest = if end >= n {
                Seq::<Seq<u8>>::empty()
            } else {
                split_labels(s.skip(end + 1))
            };
            let ghost tail = name_wire(rest);
            proof {
                let from = s.skip(start as int);
                lemma_split_at(from, DOT, end - start);
                if end >= n {
                    assert(from =~= label@);
                    assert(seq![label@] + rest =~= seq![from]);
                } else {
                    assert(from.take(end - start) =~= label@);
                    assert(from.skip(end - start + 1) =~= s.skip(end + 1));
                }
                assert(split_labels(from) == seq![label@] + rest);
                lemma_name_wire_cons(label@, rest);
                if label@.len() > MAX_LABEL {
                    assert(total =~= done);
                } else {
                    assert(total =~= done + label_wire(label@) + tail);
                    self.lemma_then(*old(self), done, label_wire(label@), tail);
                }
            }
            self.write_label(label)?;
            proof {
                done = done + label_wire(label@);
            }
            if end == n {
                break ;
            }
            start = end + 1;
        }
        proof {
            assert(total =~= done + seq![0u8] + Seq::<u8>::empty());
            self.lemma_then(*old(self), done, seq![0u8], Seq::<u8>::empty());
        }
        self.write_byte(0)?;
        Ok(self)
    }

    /// Overwrites the byte at `pos`; the cursor stays. Fails with
    /// `OutOfBounds`, and changes nothing, outside the buffer.
    pub fn set(&mut self, pos: usize, val: u8) -> (r: Result<&mut Self, BufferError>)
        ensures
            match r {
                Ok(s) => pos < CAPACITY && s.buf@ == old(self).buf@.update(pos as int, val)
                    && s.pos == old(self).pos && *final(self) == *final(s),
                Err(e) => e == BufferError::OutOfBounds && pos >= CAPACITY
                    && *final(self) == *old(self),
            },
    {
        if pos >= self.buf.len() {
            return Err(BufferError::OutOfBounds);
        }
        self.buf[pos] = val;
        Ok(self)
    }

    /// Overwrites the two bytes at `pos` with `val`, most significant byte
    /// first; the cursor stays. Fails with `OutOfBounds`, and changes
    /// nothing, unless both bytes lie in the buffer.
    pub fn set_word(&mut self, pos: usize, val: u16) -> (r: Result<&mut Self, BufferError>)
        ensures
            match r {
                Ok(s) => pos + 2 <= CAPACITY && s.buf@ == put(
                    old(self).buf@,
                    pos as int,
                    word_bytes(val),
                ) && s.pos == old(self).pos && *final(self) == *final(s),
                Err(e) => e == BufferError::OutOfBounds && pos + 2 > CAPACITY && *final(self)
                    == *old(self),
            },
    {
        if pos >= CAPACITY - 1 {
            return Err(BufferError::OutOfBounds);
        }
        proof {
            lemma_word_split(val);
        }
        self.set(pos, (val >> 8) as u8)?;
        self.set(pos + 1, (val & 0xFF) as u8)?;
        assert(self.buf@ =~= put(old(self).buf@, pos as int, word_bytes(val)));
        Ok(self)
    }
}

} // verus!
