//! The header of a message: twelve bytes of id, flags and counts.

use vstd::prelude::*;
use crate::buffer_error::BufferError;
use crate::byte_packet_buffer::BytePacketBuffer;
use crate::result_code::ResultCode;
use crate::wire::{
    holds, lemma_holds_each, lemma_holds_parts, lemma_prefix_shorter, lemma_word_held, word_at,
    word_bytes, CAPACITY,
};

verus! {

/// The number of bytes of a header on the wire.
pub const HEADER_LEN: usize = 12;

/// The header of a message: its id, its flags and the number of entries in
/// each of its four sections.
#[derive(Clone, Copy, Debug, PartialEq, Eq)]
pub struct DnsHeader {
    pub id: u16,
    pub recursion_desired: bool,
    pub truncated_message: bool,
    pub authoritative_answer: bool,
    pub opcode: u8,
    pub response: bool,
    pub rescode: ResultCode,
    pub checking_disabled: bool,
    pub authed_data: bool,
    pub z: bool,
    pub recursion_available: bool,
    pub questions: u16,
    pub answers: u16,
    pub authoritative_entries: u16,
    pub resource_entries: u16,
}

/// The value of a flag as one bit.
pub open spec fn bit(flag: bool) -> int {
    if flag {
        1
    } else {
        0
    }
}

/// Whether the bit of weight `weight`, a power of two, is set in `byte`.
pub open spec fn has_bit(byte: u8, weight: int) -> bool {
    (byte as int / weight) % 2 == 1
}

impl DnsHeader {
    /// The first byte of flags: response, operation code, authoritative
    /// answer, truncation, recursion desired, from the top bit down.
    pub open spec fn flags_high(self) -> u8 {
        (bit(self.response) * 128 + (self.opcode % 16) * 8 + bit(self.authoritative_answer) * 4
            + bit(self.truncated_message) * 2 + bit(self.recursion_desired)) as u8
    }

    /// The second byte of flags: recursion available, the three reserved
    /// bits, and the response code in the low four bits.
    pub open spec fn flags_low(self) -> u8 {
        (bit(self.recursion_available) * 128 + bit(self.z) * 64 + bit(self.authed_data) * 32 + bit(
            self.checking_disabled,
        ) * 16 + self.rescode.code() % 16) as u8
    }

    /// The twelve bytes of this header on the wire.
    #[verifier::opaque]
    pub open spec fn wire(self) -> Seq<u8> {
        word_bytes(self.id) + seq![self.flags_high(), self.flags_low()] + word_bytes(self.questions)
            + word_bytes(self.answers) + word_bytes(self.authoritative_entries) + word_bytes(
            self.resource_entries,
        )
    }

    /// The header that the twelve bytes at `pos` hold.
    #[verifier::opaque]
    pub open spec fn at(buf: Seq<u8>, pos: int) -> DnsHeader {
        let high = buf[pos + 2];
        let low = buf[pos + 3];
        DnsHeader {
            id: word_at(buf, pos),
            recursion_desired: has_bit(high, 1),
            truncated_message: has_bit(high, 2),
            authoritative_answer: has_bit(high, 4),
            opcode: ((high as int / 8) % 16) as u8,
            response: has_bit(high, 128),
            rescode: ResultCode::of((low % 16) as u8),
            checking_disabled: has_bit(low, 16),
            authed_data: has_bit(low, 32),
            z: has_bit(low, 64),
            recursion_available: has_bit(low, 128),
            questions: word_at(buf, pos + 4),
            answers: word_at(buf, pos + 6),
            authoritative_entries: word_at(buf, pos + 8),
            resource_entries: word_at(buf, pos + 10),
        }
    }

    /// Each field holds no more than its place on the wire does: the
    /// operation code four bits, the response code one of its wire forms.
    pub open spec fn wf(self) -> bool {
        self.opcode < 16 && self.rescode.canonical()
    }

    /// The header with every field zero or false.
    pub open spec fn new_spec() -> DnsHeader {
        DnsHeader {
            id: 0,
            recursion_desired: false,
            truncated_message: false,
            authoritative_answer: false,
            opcode: 0,
            response: false,
            rescode: ResultCode::NOERROR,
            checking_disabled: false,
            authed_data: false,
            z: false,
            recursion_available: false,
            questions: 0,
            answers: 0,
            authoritative_entries: 0,
            resource_entries: 0,
        }
    }

    /// A header with every field zero or false.
    #[verifier::when_used_as_spec(new_spec)]
    pub fn new() -> (h: DnsHeader)
        ensures
            h == DnsHeader::new_spec(),
    {
        DnsHeader {
            id: 0,
            recursion_desired: false,
            truncated_message: false,
            authoritative_answer: false,
            opcode: 0,
            response: false,
            rescode: ResultCode::NOERROR,
            checking_disabled: false,
            authed_data: false,
            z: false,
            recursion_available: false,
            questions: 0,
            answers: 0,
            authoritative_entries: 0,
            resource_entries: 0,
        }
    }

    /// Reads the twelve bytes at the cursor into this header. Fails with
    /// `BufferOverflow` if the buffer ends before them; the header is then
    /// as it was, and the cursor at the end of the buffer.
    pub fn read(&mut self, buffer: &mut BytePacketBuffer) -> (r: Result<(), BufferError>)
        ensures
            old(buffer).advanced(final(buffer), HEADER_LEN as int),
            match r {
                Ok(()) => old(buffer).pos + HEADER_LEN <= CAPACITY && *final(self) == DnsHeader::at(
                    old(buffer).buf@,
                    old(buffer).pos as int,
                ),
                Err(e) => e == BufferError::BufferOverflow && old(buffer).pos + HEADER_LEN
                    > CAPACITY && *final(self) == *old(self),
            },
    {
        let id = buffer.read_word()?;
        let high = buffer.read_byte()?;
        let low = buffer.read_byte()?;
        let questions = buffer.read_word()?;
        let answers = buffer.read_word()?;
        let authoritative_entries = buffer.read_word()?;
        let resource_entries = buffer.read_word()?;
        proof {
            reveal(DnsHeader::at);
            lemma_flag_bits(high);
            lemma_flag_bits(low);
        }
        self.id = id;
        self.recursion_desired = (high & 0x01) != 0;
        self.truncated_message = (high & 0x02) != 0;
        self.authoritative_answer = (high & 0x04) != 0;
        self.opcode = (high >> 3) & 0x0F;
        self.response = (high & 0x80) != 0;
        self.rescode = ResultCode::from_num(low & 0x0F);
        self.checking_disabled = (low & 0x10) != 0;
        self.authed_data = (low & 0x20) != 0;
        self.z = (low & 0x40) != 0;
        self.recursion_available = (low & 0x80) != 0;
        self.questions = questions;
        self.answers = answers;
        self.authoritative_entries = authoritative_entries;
        self.resource_entries = resource_entries;
        Ok(())
    }

    /// Writes the twelve bytes of this header at the cursor. Of the
    /// operation code and the response code the low four bits are written.
    /// Fails with `EndOfBuffer` if the buffer ends before the twelfth byte;
    /// the bytes that fit have then been written.
    pub fn write(&self, buffer: &mut BytePacketBuffer) -> (r: Result<(), BufferError>)
        ensures
            old(buffer).streamed(final(buffer), self.wire()),
            match r {
                Ok(()) => old(buffer).pos + HEADER_LEN <= CAPACITY,
                Err(e) => e == BufferError::EndOfBuffer && old(buffer).pos + HEADER_LEN > CAPACITY,
            },
    {
        let high = self.pack_high();
        let low = self.pack_low();
        let ghost nil = Seq::<u8>::empty();
        let ghost w0 = nil + word_bytes(self.id);
        let ghost w1 = w0 + seq![high];
        let ghost w2 = w1 + seq![low];
        let ghost w3 = w2 + word_bytes(self.questions);
        let ghost w4 = w3 + word_bytes(self.answers);
        let ghost w5 = w4 + word_bytes(self.authoritative_entries);
        let ghost w6 = w5 + word_bytes(self.resource_entries);
        let ghost whole = self.wire();
        proof {
            reveal(DnsHeader::wire);
            assert(whole =~= w6);
            lemma_prefix_shorter(w5, word_bytes(self.resource_entries), whole);
            lemma_prefix_shorter(w4, word_bytes(self.authoritative_entries), whole);
            lemma_prefix_shorter(w3, word_bytes(self.answers), whole);
            lemma_prefix_shorter(w2, word_bytes(self.questions), whole);
            lemma_prefix_shorter(w1, seq![low], whole);
            lemma_prefix_shorter(w0, seq![high], whole);
            buffer.lemma_streamed_nothing();
            buffer.lemma_then_within(*old(buffer), nil, word_bytes(self.id), whole);
        }
        buffer.write_word(self.id)?;
        proof {
            buffer.lemma_then_within(*old(buffer), w0, seq![high], whole);
        }
        buffer.write_byte(high)?;
        proof {
            buffer.lemma_then_within(*old(buffer), w1, seq![low], whole);
        }
        buffer.write_byte(low)?;
        proof {
            buffer.lemma_then_within(*old(buffer), w2, word_bytes(self.questions), whole);
        }
        buffer.write_word(self.questions)?;
        proof {
            buffer.lemma_then_within(*old(buffer), w3, word_bytes(self.answers), whole);
        }
        buffer.write_word(self.answers)?;
        proof {
            buffer.lemma_then_within(
                *old(buffer),
                w4,
                word_bytes(self.authoritative_entries),
                whole,
            );
        }
        buffer.write_word(self.authoritative_entries)?;
        proof {
            buffer.lemma_then_within(*old(buffer), w5, word_bytes(self.resource_entries), whole);
        }
        buffer.write_word(self.resource_entries)?;
        Ok(())
    }

    /// The first byte of flags, packed.
    fn pack_high(&self) -> (high: u8)
        ensures
            high == self.flags_high(),
    {
        let high = flag(self.recursion_desired) | (flag(self.truncated_message) << 1) | (flag(
            self.authoritative_answer,
        ) << 2) | ((self.opcode & 0x0F) << 3) | (flag(self.response) << 7);
        proof {
            lemma_pack_high(
                flag_of(self.recursion_desired),
                flag_of(self.truncated_message),
                flag_of(self.authoritative_answer),
                self.opcode,
                flag_of(self.response),
            );
        }
        high
    }

    /// The second byte of flags, packed.
    fn pack_low(&self) -> (low: u8)
        ensures
            low == self.flags_low(),
    {
        let low = (self.rescode.to_num() & 0x0F) | (flag(self.checking_disabled) << 4) | (flag(
            self.authed_data,
        ) << 5) | (flag(self.z) << 6) | (flag(self.recursion_available) << 7);
        proof {
            lemma_pack_low(
                self.rescode.code(),
                flag_of(self.checking_disabled),
                flag_of(self.authed_data),
                flag_of(self.z),
                flag_of(self.recursion_available),
            );
        }
        low
    }

    /// A header is twelve bytes on the wire.
    pub proof fn lemma_wire_len(self)
        ensures
            self.wire().len() == HEADER_LEN,
    {
        reveal(DnsHeader::wire);
    }

    /// The flags and the operation code are read from the first byte of
    /// flags as they were packed in it.
    pub proof fn lemma_flags_high_read(self)
        requires
            self.opcode < 16,
        ensures
            has_bit(self.flags_high(), 1) == self.recursion_desired,
            has_bit(self.flags_high(), 2) == self.truncated_message,
            has_bit(self.flags_high(), 4) == self.authoritative_answer,
            (self.flags_high() as int / 8) % 16 == self.opcode,
            has_bit(self.flags_high(), 128) == self.response,
    {
    }

    /// The flags and the response code are read from the second byte of
    /// flags as they were packed in it.
    pub proof fn lemma_flags_low_read(self)
        requires
            self.rescode.code() < 16,
        ensures
            self.flags_low() % 16 == self.rescode.code(),
            has_bit(self.flags_low(), 16) == self.checking_disabled,
            has_bit(self.flags_low(), 32) == self.authed_data,
            has_bit(self.flags_low(), 64) == self.z,
            has_bit(self.flags_low(), 128) == self.recursion_available,
    {
    }

    /// A header whose fields fit their places on the wire is read from
    /// its twelve bytes, where they stand, as it was written.
    pub proof fn lemma_read_written(self, buf: Seq<u8>, pos: int)
        requires
            self.wf(),
            holds(buf, pos, self.wire()),
        ensures
            DnsHeader::at(buf, pos) == self,
    {
        reveal(DnsHeader::wire);
        reveal(DnsHeader::at);
        let high = seq![self.flags_high(), self.flags_low()];
        let a = word_bytes(self.id);
        let b = a + high;
        let c = b + word_bytes(self.questions);
        let d = c + word_bytes(self.answers);
        let e = d + word_bytes(self.authoritative_entries);
        assert(self.wire() == e + word_bytes(self.resource_entries));
        lemma_holds_parts(buf, pos, e, word_bytes(self.resource_entries));
        lemma_holds_parts(buf, pos, d, word_bytes(self.authoritative_entries));
        lemma_holds_parts(buf, pos, c, word_bytes(self.answers));
        lemma_holds_parts(buf, pos, b, word_bytes(self.questions));
        lemma_holds_parts(buf, pos, a, high);
        lemma_word_held(buf, pos, self.id);
        lemma_word_held(buf, pos + 4, self.questions);
        lemma_word_held(buf, pos + 6, self.answers);
        lemma_word_held(buf, pos + 8, self.authoritative_entries);
        lemma_word_held(buf, pos + 10, self.resource_entries);
        assert(buf[pos + 2] == self.flags_high() && buf[pos + 3] == self.flags_low()) by {
            lemma_holds_each(buf, pos + 2, high);
            assert(buf[pos + 2 + 0] == high[0]);
            assert(buf[pos + 2 + 1] == high[1]);
        }
        self.lemma_flags_high_read();
        self.lemma_flags_low_read();
        ResultCode::lemma_code_of(self.rescode.code());
    }
}

/// The flag as a bit.
pub open spec fn flag_of(b: bool) -> u8 {
    if b {
        1
    } else {
        0
    }
}

/// The flag as a bit.
fn flag(b: bool) -> (f: u8)
    ensures
        f == flag_of(b),
{
    if b {
        1
    } else {
        0
    }
}

/// A bit is set where the mask finds it, and the fields of four bits are
/// what shifting and masking give.
proof fn lemma_flag_bits(x: u8)
    by (bit_vector)
    ensures
        ((x & 0x01) != 0) == (x % 2 == 1),
        ((x & 0x02) != 0) == ((x / 2) % 2 == 1),
        ((x & 0x04) != 0) == ((x / 4) % 2 == 1),
        ((x & 0x10) != 0) == ((x / 16) % 2 == 1),
        ((x & 0x20) != 0) == ((x / 32) % 2 == 1),
        ((x & 0x40) != 0) == ((x / 64) % 2 == 1),
        ((x & 0x80) != 0) == ((x / 128) % 2 == 1),
        ((x >> 3) & 0x0F) == (x / 8) % 16,
        (x & 0x0F) == x % 16,
{
}

/// Bits that do not overlap are added by being joined.
proof fn lemma_pack_high(rd: u8, tc: u8, aa: u8, opcode: u8, qr: u8)
    by (bit_vector)
    requires
        rd <= 1,
        tc <= 1,
        aa <= 1,
        qr <= 1,
    ensures
        rd | (tc << 1) | (aa << 2) | ((opcode & 0x0F) << 3) | (qr << 7) == qr * 128 + (opcode % 16)
            * 8 + aa * 4 + tc * 2 + rd,
{
}

/// Bits that do not overlap are added by being joined.
proof fn lemma_pack_low(code: u8, cd: u8, ad: u8, z: u8, ra: u8)
    by (bit_vector)
    requires
        cd <= 1,
        ad <= 1,
        z <= 1,
        ra <= 1,
    ensures
        (code & 0x0F) | (cd << 4) | (ad << 5) | (z << 6) | (ra << 7) == ra * 128 + z * 64 + ad * 32
            + cd * 16 + code % 16,
{
}

} // verus!
