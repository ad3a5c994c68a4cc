//! The mathematical model of the packet buffer: what a run of sequential
//! writes leaves behind, and how big-endian integers lie in it.

use vstd::prelude::*;
use crate::buffer_error::BufferError;

verus! {

/// The number of bytes a packet buffer holds.
pub const CAPACITY: usize = 512;

/// How many bytes can still be written or read from cursor `pos` on.
pub open spec fn room(pos: int) -> int {
    if pos < CAPACITY {
        CAPACITY - pos
    } else {
        0
    }
}

/// How many of `n` bytes a sequential operation at `pos` gets through
/// before the buffer ends.
pub open spec fn taken(pos: int, n: int) -> int {
    if n <= room(pos) {
        n
    } else {
        room(pos)
    }
}

/// `buf` after `bytes` has been laid over it from `pos` on; what does not
/// fit is cut off.
pub open spec fn put(buf: Seq<u8>, pos: int, bytes: Seq<u8>) -> Seq<u8> {
    Seq::new(
        buf.len(),
        |i: int|
            if pos <= i < pos + bytes.len() {
                bytes[i - pos]
            } else {
                buf[i]
            },
    )
}

/// The two bytes of `v`, most significant first.
pub open spec fn word_bytes(v: u16) -> Seq<u8> {
    seq![(v / 256) as u8, (v % 256) as u8]
}

/// The four bytes of `v`, most significant first.
pub open spec fn dword_bytes(v: u32) -> Seq<u8> {
    seq![
        (v / 0x100_0000) as u8,
        ((v / 0x1_0000) % 256) as u8,
        ((v / 256) % 256) as u8,
        (v % 256) as u8,
    ]
}

/// The big-endian 16-bit integer at `pos`.
pub open spec fn word_at(buf: Seq<u8>, pos: int) -> u16 {
    (buf[pos] as int * 256 + buf[pos + 1] as int) as u16
}

/// The big-endian 32-bit integer at `pos`.
pub open spec fn dword_at(buf: Seq<u8>, pos: int) -> u32 {
    (buf[pos] as int * 0x100_0000 + buf[pos + 1] as int * 0x1_0000 + buf[pos + 2] as int * 256
        + buf[pos + 3] as int) as u32
}

/// The sixteen bytes of `v`, most significant first.
pub open spec fn addr6_bytes(v: u128) -> Seq<u8> {
    dword_bytes((v / 0x1_0000_0000_0000_0000_0000_0000) as u32) + dword_bytes(
        ((v / 0x1_0000_0000_0000_0000) % 0x1_0000_0000) as u32,
    ) + dword_bytes(((v / 0x1_0000_0000) % 0x1_0000_0000) as u32) + dword_bytes(
        (v % 0x1_0000_0000) as u32,
    )
}

/// The big-endian 128-bit integer at `pos`.
pub open spec fn addr6_at(buf: Seq<u8>, pos: int) -> u128 {
    (dword_at(buf, pos) as int * 0x1_0000_0000_0000_0000_0000_0000 + dword_at(buf, pos + 4) as int
        * 0x1_0000_0000_0000_0000 + dword_at(buf, pos + 8) as int * 0x1_0000_0000 + dword_at(
        buf,
        pos + 12,
    ) as int) as u128
}

/// What a read from the buffer yields: the value or the failure, and where
/// the cursor stands after it in either case.
pub struct Parsed<T> {
    pub cursor: int,
    pub outcome: Result<T, BufferError>,
}

impl<T> Parsed<Seq<T>> {
    /// This reading of a run of items behind the items `before`.
    pub open spec fn after(self, before: Seq<T>) -> Parsed<Seq<T>> {
        Parsed {
            cursor: self.cursor,
            outcome: match self.outcome {
                Ok(items) => Ok(before + items),
                Err(e) => Err(e),
            },
        }
    }
}

/// Shifting and masking give the two bytes of a word.
pub proof fn lemma_word_split(v: u16)
    by (bit_vector)
    ensures
        (v >> 8) == v / 256,
        (v & 0xFF) == v % 256,
        (v >> 8) < 256,
        (v & 0xFF) < 256,
{
}

/// Two bytes joined by shifting are the word they stand for.
pub proof fn lemma_word_join(hi: u8, lo: u8)
    by (bit_vector)
    ensures
        ((hi as u16) << 8) | (lo as u16) == (hi as u16) * 256 + (lo as u16),
{
}

/// Shifting and masking give the four bytes of a double word.
pub proof fn lemma_dword_split(v: u32)
    by (bit_vector)
    ensures
        ((v >> 24) & 0xFF) == v / 0x100_0000,
        ((v >> 16) & 0xFF) == (v / 0x1_0000) % 256,
        ((v >> 8) & 0xFF) == (v / 256) % 256,
        ((v >> 0) & 0xFF) == v % 256,
        ((v >> 24) & 0xFF) < 256,
        ((v >> 16) & 0xFF) < 256,
        ((v >> 8) & 0xFF) < 256,
        ((v >> 0) & 0xFF) < 256,
{
}

/// Four bytes joined by shifting are the double word they stand for.
pub proof fn lemma_dword_join(b0: u8, b1: u8, b2: u8, b3: u8)
    by (bit_vector)
    ensures
        ((b0 as u32) << 24) | ((b1 as u32) << 16) | ((b2 as u32) << 8) | (b3 as u32) == (b0 as u32)
            * 0x100_0000 + (b1 as u32) * 0x1_0000 + (b2 as u32) * 256 + (b3 as u32),
{
}

/// Shifting and masking give the four double words of an address.
pub proof fn lemma_addr6_split(v: u128)
    by (bit_vector)
    ensures
        (v >> 96) == v / 0x1_0000_0000_0000_0000_0000_0000,
        ((v >> 64) & 0xFFFF_FFFF) == (v / 0x1_0000_0000_0000_0000) % 0x1_0000_0000,
        ((v >> 32) & 0xFFFF_FFFF) == (v / 0x1_0000_0000) % 0x1_0000_0000,
        (v & 0xFFFF_FFFF) == v % 0x1_0000_0000,
        (v >> 96) <= 0xFFFF_FFFF,
        ((v >> 64) & 0xFFFF_FFFF) <= 0xFFFF_FFFF,
        ((v >> 32) & 0xFFFF_FFFF) <= 0xFFFF_FFFF,
        (v & 0xFFFF_FFFF) <= 0xFFFF_FFFF,
{
}

/// Four double words joined by shifting are the address they stand for.
pub proof fn lemma_addr6_join(d0: u32, d1: u32, d2: u32, d3: u32)
    by (bit_vector)
    ensures
        ((d0 as u128) << 96) | ((d1 as u128) << 64) | ((d2 as u128) << 32) | (d3 as u128) == (
        d0 as u128) * 0x1_0000_0000_0000_0000_0000_0000 + (d1 as u128) * 0x1_0000_0000_0000_0000 + (
        d2 as u128) * 0x1_0000_0000 + (d3 as u128),
{
}

/// A length that is written over its placeholder, behind `pre` and before
/// `post`, gives what writing it in the first place would have given.
pub proof fn lemma_put_patch(buf: Seq<u8>, pos: int, pre: Seq<u8>, v: u16, post: Seq<u8>)
    requires
        0 <= pos,
    ensures
        put(put(buf, pos, pre + word_bytes(0) + post), pos + pre.len(), word_bytes(v)) == put(
            buf,
            pos,
            pre + word_bytes(v) + post,
        ),
{
    assert(put(put(buf, pos, pre + word_bytes(0) + post), pos + pre.len(), word_bytes(v)) =~= put(
        buf,
        pos,
        pre + word_bytes(v) + post,
    ));
}

/// Writing `x` and then, where the cursor stands after it, `y` is writing
/// `x + y`.
pub proof fn lemma_put_join(buf: Seq<u8>, pos: int, x: Seq<u8>, y: Seq<u8>)
    requires
        0 <= pos,
        buf.len() == CAPACITY,
    ensures
        put(put(buf, pos, x), pos + taken(pos, x.len() as int), y) == put(buf, pos, x + y),
        taken(pos, x.len() as int) + taken(pos + taken(pos, x.len() as int), y.len() as int)
            == taken(pos, (x + y).len() as int),
{
    assert(put(put(buf, pos, x), pos + taken(pos, x.len() as int), y) =~= put(buf, pos, x + y));
}

/// Once the buffer is full, what would have followed changes nothing.
pub proof fn lemma_put_cut(buf: Seq<u8>, pos: int, x: Seq<u8>, y: Seq<u8>)
    requires
        0 <= pos,
        buf.len() == CAPACITY,
        x.len() >= room(pos),
    ensures
        put(buf, pos, x + y) == put(buf, pos, x),
        taken(pos, (x + y).len() as int) == taken(pos, x.len() as int),
{
    assert(put(buf, pos, x + y) =~= put(buf, pos, x));
}

/// What begins a beginning of `whole` begins `whole`.
pub proof fn lemma_prefix_shorter(a: Seq<u8>, b: Seq<u8>, whole: Seq<u8>)
    requires
        (a + b).is_prefix_of(whole),
    ensures
        a.is_prefix_of(whole),
{
    assert(a =~= (a + b).subrange(0, a.len() as int));
}

/// Once the buffer is full, it matters no more which of two writes was
/// meant, where one begins the other.
pub proof fn lemma_put_prefix(buf: Seq<u8>, pos: int, x: Seq<u8>, whole: Seq<u8>)
    requires
        0 <= pos,
        buf.len() == CAPACITY,
        x.len() >= room(pos),
        x.is_prefix_of(whole),
    ensures
        put(buf, pos, whole) == put(buf, pos, x),
        taken(pos, whole.len() as int) == taken(pos, x.len() as int),
{
    assert(put(buf, pos, whole) =~= put(buf, pos, x));
}

/// The bytes `bytes` stand in `buf` from `pos` on.
pub open spec fn holds(buf: Seq<u8>, pos: int, bytes: Seq<u8>) -> bool {
    0 <= pos && pos + bytes.len() <= buf.len() && buf.subrange(pos, pos + bytes.len()) == bytes
}

/// What has been written, and fits, stands there.
pub proof fn lemma_put_holds(buf: Seq<u8>, pos: int, bytes: Seq<u8>)
    requires
        0 <= pos,
        pos + bytes.len() <= buf.len(),
    ensures
        holds(put(buf, pos, bytes), pos, bytes),
{
    assert(put(buf, pos, bytes).subrange(pos, pos + bytes.len()) =~= bytes);
}

/// Where `x + y` stands, `x` stands, and `y` behind it.
pub proof fn lemma_holds_parts(buf: Seq<u8>, pos: int, x: Seq<u8>, y: Seq<u8>)
    requires
        holds(buf, pos, x + y),
    ensures
        holds(buf, pos, x),
        holds(buf, pos + x.len(), y),
{
    let whole = buf.subrange(pos, pos + (x + y).len());
    assert(buf.subrange(pos, pos + x.len()) =~= whole.subrange(0, x.len() as int));
    assert((x + y).subrange(0, x.len() as int) =~= x);
    assert(buf.subrange(pos + x.len(), pos + x.len() + y.len()) =~= whole.subrange(
        x.len() as int,
        (x + y).len() as int,
    ));
    assert((x + y).subrange(x.len() as int, (x + y).len() as int) =~= y);
}

/// The bytes that stand in the buffer are its bytes, one by one.
pub proof fn lemma_holds_each(buf: Seq<u8>, pos: int, bytes: Seq<u8>)
    requires
        holds(buf, pos, bytes),
    ensures
        forall|i: int| 0 <= i < bytes.len() ==> buf[pos + i] == #[trigger] bytes[i],
{
    assert forall|i: int| 0 <= i < bytes.len() implies buf[pos + i] == #[trigger] bytes[i] by {
        assert(buf.subrange(pos, pos + bytes.len())[i] == buf[pos + i]);
    }
}

/// Where the bytes of a word stand, the word is read.
pub proof fn lemma_word_held(buf: Seq<u8>, pos: int, v: u16)
    requires
        holds(buf, pos, word_bytes(v)),
    ensures
        word_at(buf, pos) == v,
{
    lemma_holds_each(buf, pos, word_bytes(v));
    assert(buf[pos + 0] == word_bytes(v)[0]);
    assert(buf[pos + 1] == word_bytes(v)[1]);
}

/// Where the bytes of a double word stand, the double word is read.
pub proof fn lemma_dword_held(buf: Seq<u8>, pos: int, v: u32)
    requires
        holds(buf, pos, dword_bytes(v)),
    ensures
        dword_at(buf, pos) == v,
{
    lemma_holds_each(buf, pos, dword_bytes(v));
    assert(buf[pos + 0] == dword_bytes(v)[0]);
    assert(buf[pos + 1] == dword_bytes(v)[1]);
    assert(buf[pos + 2] == dword_bytes(v)[2]);
    assert(buf[pos + 3] == dword_bytes(v)[3]);
}

/// An address is sixteen bytes on the wire.
pub proof fn lemma_addr6_len(v: u128)
    ensures
        addr6_bytes(v).len() == 16,
{
}

/// An address is the sum of its four double words, each at its place.
proof fn lemma_addr6_parts(v: u128)
    by (bit_vector)
    ensures
        (v / 0x1_0000_0000_0000_0000_0000_0000) * 0x1_0000_0000_0000_0000_0000_0000 + ((v
            / 0x1_0000_0000_0000_0000) % 0x1_0000_0000) * 0x1_0000_0000_0000_0000 + ((v
            / 0x1_0000_0000) % 0x1_0000_0000) * 0x1_0000_0000 + v % 0x1_0000_0000 == v,
        v / 0x1_0000_0000_0000_0000_0000_0000 <= 0xFFFF_FFFF,
{
}

/// Where the sixteen bytes of an address stand, the address is read.
pub proof fn lemma_addr6_held(buf: Seq<u8>, pos: int, v: u128)
    requires
        holds(buf, pos, addr6_bytes(v)),
    ensures
        addr6_at(buf, pos) == v,
{
    let d0 = (v / 0x1_0000_0000_0000_0000_0000_0000) as u32;
    let d1 = ((v / 0x1_0000_0000_0000_0000) % 0x1_0000_0000) as u32;
    let d2 = ((v / 0x1_0000_0000) % 0x1_0000_0000) as u32;
    let d3 = (v % 0x1_0000_0000) as u32;
    let b0 = dword_bytes(d0);
    let b1 = dword_bytes(d1);
    let b2 = dword_bytes(d2);
    let b3 = dword_bytes(d3);
    assert(addr6_bytes(v) == b0 + b1 + b2 + b3);
    lemma_holds_parts(buf, pos, b0 + b1 + b2, b3);
    lemma_holds_parts(buf, pos, b0 + b1, b2);
    lemma_holds_parts(buf, pos, b0, b1);
    assert(dword_at(buf, pos) == d0) by {
        lemma_dword_held(buf, pos, d0);
    }
    assert(dword_at(buf, pos + 4) == d1) by {
        lemma_dword_held(buf, pos + 4, d1);
    }
    assert(dword_at(buf, pos + 8) == d2) by {
        lemma_dword_held(buf, pos + 8, d2);
    }
    assert(dword_at(buf, pos + 12) == d3) by {
        lemma_dword_held(buf, pos + 12, d3);
    }
    lemma_addr6_parts(v);
}

} // verus!
