//! Domain names on the wire: runs of length-prefixed labels, closed by a
//! zero byte or by a compression pointer to the rest of the name.

use vstd::prelude::*;
use vstd::string::StringExecFns;
use vstd::utf8::{
    decode_utf8, decode_utf8_split, encode_scalar, encode_utf8, encode_utf8_decode_utf8,
    encode_utf8_valid_utf8, is_char_boundary, is_char_boundary_iff_not_is_continuation_byte,
    is_char_boundary_start_end_of_seq, valid_utf8,
};
use crate::buffer_error::BufferError;
use crate::wire::{room, CAPACITY};

verus! {

/// The byte that separates the labels of a name in its text form.
pub const DOT: u8 = 0x2E;

/// The longest label a name may hold.
pub const MAX_LABEL: usize = 63;

/// How many compression pointers one name may follow.
pub const MAX_JUMPS: usize = 5;

/// The text that `String::from_utf8_lossy` makes of `bytes`.
pub uninterp spec fn utf8_lossy(bytes: Seq<u8>) -> Seq<char>;

/// The text that `str::to_lowercase` makes of `text`.
pub uninterp spec fn lowercase(text: Seq<char>) -> Seq<char>;

/// Calls `String::from_utf8_lossy`, which reads `bytes` as UTF-8 and puts
/// U+FFFD in place of what is not. The result is a function of the bytes
/// alone; bytes that are valid UTF-8 come back as the text they encode.
#[verifier::external_body]
pub(crate) fn text_of(bytes: &[u8]) -> (text: String)
    ensures
        text@ == utf8_lossy(bytes@),
        valid_utf8(bytes@) ==> text@ == decode_utf8(bytes@),
{
    String::from_utf8_lossy(bytes).into_owned()
}

/// Calls `str::to_lowercase`, the lower-case form by Unicode's rules. The
/// result is a function of the text alone.
#[verifier::external_body]
pub(crate) fn lower(text: &str) -> (low: String)
    ensures
        low@ == lowercase(text@),
{
    text.to_lowercase()
}

/// The text that `bytes` is read as: the text that they encode where they
/// are valid UTF-8, and what `String::from_utf8_lossy` makes of them where
/// they are not.
pub open spec fn lossy_text(bytes: Seq<u8>) -> Seq<char> {
    if valid_utf8(bytes) {
        decode_utf8(bytes)
    } else {
        utf8_lossy(bytes)
    }
}

/// The text form of one label as it is read off the wire.
pub open spec fn label_text(bytes: Seq<u8>) -> Seq<char> {
    lowercase(lossy_text(bytes))
}

/// The labels joined by dots.
pub open spec fn dotted(labels: Seq<Seq<char>>) -> Seq<char>
    decreases labels.len(),
{
    if labels.len() == 0 {
        Seq::empty()
    } else if labels.len() == 1 {
        labels[0]
    } else {
        dotted(labels.drop_last()) + seq!['.'] + labels.last()
    }
}

/// The text form of a name read off the wire as `labels`.
pub open spec fn name_text(labels: Seq<Seq<u8>>) -> Seq<char> {
    dotted(labels.map_values(|l: Seq<u8>| label_text(l)))
}

/// One more label behind a name adds a dot, unless it is the first, and the
/// label's text.
pub proof fn lemma_name_text_push(labels: Seq<Seq<u8>>, label: Seq<u8>)
    ensures
        name_text(labels.push(label)) == if labels.len() == 0 {
            label_text(label)
        } else {
            name_text(labels) + seq!['.'] + label_text(label)
        },
{
    let f = |l: Seq<u8>| label_text(l);
    let texts = labels.push(label).map_values(f);
    assert(texts.drop_last() =~= labels.map_values(f));
    assert(texts.last() == label_text(label));
}

/// Appends `label` to `out`, behind a dot unless it is the `first` label of
/// its name.
pub fn push_label(out: &mut String, first: bool, label: &str)
    ensures
        final(out)@ == if first {
            old(out)@ + label@
        } else {
            old(out)@ + seq!['.'] + label@
        },
{
    if !first {
        proof {
            reveal_strlit(".");
            assert("."@ =~= seq!['.']);
        }
        out.append(".");
    }
    out.append(label);
}

/// What reading a name yields: the labels met, and why the reading stopped
/// early if it did.
pub struct NameWalk {
    pub labels: Seq<Seq<u8>>,
    pub failure: Option<BufferError>,
}

impl NameWalk {
    /// A reading that fails with `e` before it has met a label.
    pub open spec fn fail(e: BufferError) -> NameWalk {
        NameWalk { labels: Seq::empty(), failure: Some(e) }
    }

    /// The reading of the end of a name.
    pub open spec fn end() -> NameWalk {
        NameWalk { labels: Seq::empty(), failure: None }
    }

    /// This walk behind the labels `before`.
    pub open spec fn after(self, before: Seq<Seq<u8>>) -> NameWalk {
        NameWalk { labels: before + self.labels, failure: self.failure }
    }
}

/// A length byte with its two top bits set begins a compression pointer.
pub open spec fn is_pointer(b: u8) -> bool {
    b >= 0xC0
}

/// The offset that the pointer made of `b1` and `b2` points to: their low
/// fourteen bits.
pub open spec fn pointer_target(b1: u8, b2: u8) -> int {
    (b1 - 0xC0) * 256 + b2
}

/// Reads the name at `pos`, after `jumps` pointers have been followed.
///
/// A pointer is followed to its target; the sixth in a row is refused. A
/// zero byte ends the name. Any other byte is the length of a label that
/// follows it. Every byte read must lie in the buffer, and so must the
/// place behind the name's first pointer or, where it has none, behind its
/// closing zero, because the cursor is put there.
pub open spec fn walk_name(buf: Seq<u8>, pos: int, jumps: int) -> NameWalk
    decreases MAX_JUMPS + 1 - jumps, CAPACITY - pos,
{
    if jumps > MAX_JUMPS {
        NameWalk::fail(BufferError::TooManyJumps)
    } else if pos < 0 || pos >= CAPACITY {
        NameWalk::fail(BufferError::OutOfBounds)
    } else if is_pointer(buf[pos]) {
        if pos + 1 >= CAPACITY || (jumps == 0 && pos + 2 >= CAPACITY) {
            NameWalk::fail(BufferError::OutOfBounds)
        } else {
            walk_name(buf, pointer_target(buf[pos], buf[pos + 1]), jumps + 1)
        }
    } else if buf[pos] == 0 {
        if jumps == 0 && pos + 1 >= CAPACITY {
            NameWalk::fail(BufferError::OutOfBounds)
        } else {
            NameWalk::end()
        }
    } else if pos + 1 + buf[pos] > CAPACITY {
        NameWalk::fail(BufferError::OutOfBounds)
    } else {
        walk_name(buf, pos + 1 + buf[pos], jumps).after(
            seq![buf.subrange(pos + 1, pos + 1 + buf[pos])],
        )
    }
}

/// Where the cursor stands after the name at `pos` has been read, with
/// success or not: behind the first pointer, or behind the closing zero
/// where the name has no pointer. It stays at `start` where the reading
/// fails before it gets that far, or where that place is outside the
/// buffer.
pub open spec fn name_cursor(buf: Seq<u8>, pos: int, start: int) -> int
    decreases CAPACITY - pos,
{
    if pos < 0 || pos >= CAPACITY {
        start
    } else if is_pointer(buf[pos]) {
        if pos + 2 < CAPACITY {
            pos + 2
        } else {
            start
        }
    } else if buf[pos] == 0 {
        if pos + 1 < CAPACITY {
            pos + 1
        } else {
            start
        }
    } else if pos + 1 + buf[pos] > CAPACITY {
        start
    } else {
        name_cursor(buf, pos + 1 + buf[pos], start)
    }
}

/// The cursor ends behind a byte of the buffer, or where it started.
pub proof fn lemma_name_cursor_within(buf: Seq<u8>, pos: int, start: int)
    ensures
        name_cursor(buf, pos, start) == start || 0 < name_cursor(buf, pos, start) < CAPACITY,
    decreases CAPACITY - pos,
{
    if 0 <= pos < CAPACITY && !is_pointer(buf[pos]) && buf[pos] != 0 && pos + 1 + buf[pos]
        <= CAPACITY {
        lemma_name_cursor_within(buf, pos + 1 + buf[pos], start);
    }
}

/// How many pointers have been followed by the time the reading of the
/// name at `pos` stops, `jumps` of them before it came to `pos`.
pub open spec fn name_hops(buf: Seq<u8>, pos: int, jumps: int) -> int
    decreases MAX_JUMPS + 1 - jumps, CAPACITY - pos,
{
    if jumps > MAX_JUMPS || pos < 0 || pos >= CAPACITY {
        jumps
    } else if is_pointer(buf[pos]) {
        if pos + 1 >= CAPACITY || (jumps == 0 && pos + 2 >= CAPACITY) {
            jumps
        } else {
            name_hops(buf, pointer_target(buf[pos], buf[pos + 1]), jumps + 1)
        }
    } else if buf[pos] == 0 || pos + 1 + buf[pos] > CAPACITY {
        jumps
    } else {
        name_hops(buf, pos + 1 + buf[pos], jumps)
    }
}

/// A name that can be read is read the same after `more` pointers have
/// been followed to it, as long as it does not take the reading beyond
/// its five pointers.
pub proof fn lemma_walk_later(buf: Seq<u8>, pos: int, jumps: int, more: int)
    requires
        0 <= jumps,
        0 <= more,
        walk_name(buf, pos, jumps).failure is None,
        name_hops(buf, pos, jumps) + more <= MAX_JUMPS,
    ensures
        walk_name(buf, pos, jumps + more) == walk_name(buf, pos, jumps),
        name_hops(buf, pos, jumps + more) == name_hops(buf, pos, jumps) + more,
    decreases MAX_JUMPS + 1 - jumps, CAPACITY - pos,
{
    if jumps > MAX_JUMPS || pos < 0 || pos >= CAPACITY {
    } else if is_pointer(buf[pos]) {
        let target = pointer_target(buf[pos], buf[pos + 1]);
        lemma_hops_grow(buf, target, jumps + 1);
        lemma_walk_later(buf, target, jumps + 1, more);
    } else if buf[pos] == 0 || pos + 1 + buf[pos] > CAPACITY {
    } else {
        lemma_hops_grow(buf, pos + 1 + buf[pos], jumps);
        lemma_walk_later(buf, pos + 1 + buf[pos], jumps, more);
    }
}

/// Pointers that have been followed stay followed.
pub proof fn lemma_hops_grow(buf: Seq<u8>, pos: int, jumps: int)
    ensures
        name_hops(buf, pos, jumps) >= jumps,
    decreases MAX_JUMPS + 1 - jumps, CAPACITY - pos,
{
    if jumps > MAX_JUMPS || pos < 0 || pos >= CAPACITY {
    } else if is_pointer(buf[pos]) {
        if pos + 1 >= CAPACITY || (jumps == 0 && pos + 2 >= CAPACITY) {
        } else {
            lemma_hops_grow(buf, pointer_target(buf[pos], buf[pos + 1]), jumps + 1);
        }
    } else if buf[pos] == 0 || pos + 1 + buf[pos] > CAPACITY {
    } else {
        lemma_hops_grow(buf, pos + 1 + buf[pos], jumps);
    }
}

/// A pointer is read as the name that it points to, and the cursor ends
/// behind the pointer: where the two bytes at `pos` are a pointer to
/// `target`, with room for the cursor behind them, and the name at
/// `target` can be read and follows fewer than five pointers itself, the
/// name read at `pos` is the name read at `target`.
pub proof fn lemma_pointer_reads_target(buf: Seq<u8>, pos: int, target: int)
    requires
        buf.len() == CAPACITY,
        0 <= pos,
        pos + 2 < CAPACITY,
        is_pointer(buf[pos]),
        target == pointer_target(buf[pos], buf[pos + 1]),
        walk_name(buf, target, 0).failure is None,
        name_hops(buf, target, 0) < MAX_JUMPS,
    ensures
        walk_name(buf, pos, 0) == walk_name(buf, target, 0),
        name_cursor(buf, pos, pos) == pos + 2,
{
    lemma_walk_later(buf, target, 0, 1);
}

/// The sixth pointer in a row is refused, whatever it points to.
pub proof fn lemma_sixth_pointer_refused(buf: Seq<u8>, pos: int)
    ensures
        walk_name(buf, pos, MAX_JUMPS + 1).failure == Some(BufferError::TooManyJumps),
{
}

/// A byte has its two top bits set if it is at least 0xC0, and the low
/// fourteen bits of a pointer are its offset.
pub proof fn lemma_pointer_bits(len: u8, b2: u8)
    by (bit_vector)
    ensures
        (len & 0xC0 == 0xC0) <==> len >= 0xC0,
        len >= 0xC0 ==> (((len ^ 0xC0) as u16) << 8) | (b2 as u16) == (len - 0xC0) as u16 * 256 + (
        b2 as u16),
{
}

/// The runs of `s` between its separators: what stands before the first
/// `sep`, between each two, and behind the last. Without a separator
/// there is one run, `s` itself, also where `s` is empty.
pub open spec fn split<T>(s: Seq<T>, sep: T) -> Seq<Seq<T>>
    decreases s.len(),
{
    if s.len() == 0 {
        seq![Seq::empty()]
    } else {
        let rest = split(s.drop_first(), sep);
        if s[0] == sep {
            seq![Seq::empty()] + rest
        } else {
            seq![seq![s[0]] + rest[0]] + rest.drop_first()
        }
    }
}

/// The labels of the dotted name `s`. A name without a dot is one label,
/// and the empty name is one empty label.
pub open spec fn split_labels(s: Seq<u8>) -> Seq<Seq<u8>> {
    split(s, DOT)
}

/// There is always a first run.
pub proof fn lemma_split_some<T>(s: Seq<T>, sep: T)
    ensures
        split(s, sep).len() >= 1,
    decreases s.len(),
{
    if s.len() > 0 {
        lemma_split_some(s.drop_first(), sep);
    }
}

/// Where the first separator of `s` stands at `k`, or `s` has none and `k`
/// is its length, the first run is what stands before `k`, and the others
/// are the runs of what stands behind the separator.
pub proof fn lemma_split_at<T>(s: Seq<T>, sep: T, k: int)
    requires
        0 <= k <= s.len(),
        forall|i: int| 0 <= i < k ==> s[i] != sep,
        k == s.len() || s[k] == sep,
    ensures
        split(s, sep) == if k == s.len() {
            seq![s]
        } else {
            seq![s.take(k)] + split(s.skip(k + 1), sep)
        },
    decreases k,
{
    if k == 0 {
        if s.len() == 0 {
            assert(s =~= Seq::<T>::empty());
        } else {
            assert(s.take(0) =~= Seq::<T>::empty());
            assert(s.skip(1) =~= s.drop_first());
        }
    } else {
        let tail = s.drop_first();
        let rest = split(tail, sep);
        lemma_split_some(tail, sep);
        lemma_split_at(tail, sep, k - 1);
        if k == s.len() {
            assert(seq![s[0]] + tail =~= s);
            assert(rest.drop_first() =~= Seq::<Seq<T>>::empty());
            assert(seq![seq![s[0]] + rest[0]] + rest.drop_first() =~= seq![s]);
        } else {
            assert(seq![s[0]] + tail.take(k - 1) =~= s.take(k));
            assert(tail.skip(k) =~= s.skip(k + 1));
            assert(rest.drop_first() =~= split(s.skip(k + 1), sep));
            assert(seq![seq![s[0]] + rest[0]] + rest.drop_first() =~= seq![s.take(k)] + split(
                s.skip(k + 1),
                sep,
            ));
        }
    }
}

/// The name with the text `name` with each of its labels in lower case.
pub open spec fn lowered(name: Seq<char>) -> Seq<char> {
    dotted(split(name, '.').map_values(|l: Seq<char>| lowercase(l)))
}

/// Every label is at least one byte long and at most 63.
pub open spec fn sound(labels: Seq<Seq<u8>>) -> bool {
    forall|i: int| 0 <= i < labels.len() ==> 1 <= (#[trigger] labels[i]).len() <= MAX_LABEL
}

/// Every label of the dotted name with the text `name` is at least one
/// byte long and at most 63.
pub open spec fn text_sound(name: Seq<char>) -> bool {
    sound(split_labels(encode_utf8(name)))
}

/// No label is longer than 63 bytes.
pub open spec fn all_short(labels: Seq<Seq<u8>>) -> bool {
    forall|i: int| 0 <= i < labels.len() ==> (#[trigger] labels[i]).len() <= MAX_LABEL
}

/// A label on the wire: a byte that holds its length, and its bytes.
pub open spec fn label_wire(label: Seq<u8>) -> Seq<u8> {
    seq![label.len() as u8] + label
}

/// What writing a name sends to the buffer: each label behind its length,
/// then a zero byte. It breaks off before the first label that is longer
/// than 63 bytes.
pub open spec fn name_wire(labels: Seq<Seq<u8>>) -> Seq<u8>
    decreases labels.len(),
{
    if labels.len() == 0 {
        seq![0u8]
    } else if labels[0].len() > MAX_LABEL {
        Seq::empty()
    } else {
        label_wire(labels[0]) + name_wire(labels.skip(1))
    }
}

/// What writing the dotted name `s` sends to the buffer.
pub open spec fn qname_wire(s: Seq<u8>) -> Seq<u8> {
    name_wire(split_labels(s))
}

/// Whether every label of the dotted name `s` can be written.
pub open spec fn qname_fits_labels(s: Seq<u8>) -> bool {
    all_short(split_labels(s))
}

/// What writing the dotted name with the text `name` sends to the buffer.
pub open spec fn text_wire(name: Seq<char>) -> Seq<u8> {
    qname_wire(encode_utf8(name))
}

/// Whether every label of the dotted name with the text `name` can be
/// written.
pub open spec fn text_fits(name: Seq<char>) -> bool {
    qname_fits_labels(encode_utf8(name))
}

/// How a run of sequential writes of `len` bytes in all, begun at `pos`,
/// fails, if it does: with `EndOfBuffer` where the buffer ends first, else
/// with `LabelTooLong` where a label is too long.
pub open spec fn write_failure(fits_labels: bool, len: int, pos: int) -> Option<BufferError> {
    if len > room(pos) {
        Some(BufferError::EndOfBuffer)
    } else if !fits_labels {
        Some(BufferError::LabelTooLong)
    } else {
        None
    }
}

/// With a label in front, the wire form is that label and the wire form of
/// the rest, and the labels are all short if this one and the rest are.
pub proof fn lemma_name_wire_cons(label: Seq<u8>, rest: Seq<Seq<u8>>)
    ensures
        name_wire(seq![label] + rest) == if label.len() > MAX_LABEL {
            Seq::<u8>::empty()
        } else {
            label_wire(label) + name_wire(rest)
        },
        all_short(seq![label] + rest) <==> label.len() <= MAX_LABEL && all_short(rest),
{
    let all = seq![label] + rest;
    assert(all.skip(1) =~= rest);
    assert(all[0] == label);
    if label.len() <= MAX_LABEL && all_short(rest) {
        assert forall|i: int| 0 <= i < all.len() implies (#[trigger] all[i]).len()
            <= MAX_LABEL by {
            if i > 0 {
                assert(all[i] == rest[i - 1]);
            }
        }
    }
    if all_short(all) {
        assert forall|i: int| 0 <= i < rest.len() implies (#[trigger] rest[i]).len()
            <= MAX_LABEL by {
            assert(all[i + 1] == rest[i]);
        }
    }
}

/// Whether `end` stands at the end of `whole`.
pub open spec fn ends_with<T>(whole: Seq<T>, end: Seq<T>) -> bool {
    end.len() <= whole.len() && whole.subrange(whole.len() - end.len(), whole.len() as int) == end
}

/// The encoding of two texts one behind the other is the encoding of the
/// first and then that of the second.
pub proof fn lemma_encode_join(a: Seq<char>, b: Seq<char>)
    ensures
        encode_utf8(a + b) == encode_utf8(a) + encode_utf8(b),
    decreases a.len(),
{
    if a.len() == 0 {
        assert(a + b =~= b);
        assert(encode_utf8(a) + encode_utf8(b) =~= encode_utf8(b));
    } else {
        assert((a + b).drop_first() =~= a.drop_first() + b);
        lemma_encode_join(a.drop_first(), b);
        let first = encode_scalar(a[0] as u32);
        assert(first + (encode_utf8(a.drop_first()) + encode_utf8(b)) =~= first + encode_utf8(
            a.drop_first(),
        ) + encode_utf8(b));
    }
}

/// One text ends another if and only if its bytes in UTF-8 end the bytes
/// of the other: no character's encoding ends with the whole encoding of
/// another.
pub proof fn lemma_ends_with_encoded(whole: Seq<char>, end: Seq<char>)
    ensures
        ends_with(encode_utf8(whole), encode_utf8(end)) <==> ends_with(whole, end),
{
    let bytes = encode_utf8(whole);
    let tail = encode_utf8(end);
    encode_utf8_valid_utf8(whole);
    encode_utf8_valid_utf8(end);
    encode_utf8_decode_utf8(whole);
    encode_utf8_decode_utf8(end);
    if ends_with(whole, end) {
        let front = whole.subrange(0, whole.len() - end.len());
        assert(front + end =~= whole);
        lemma_encode_join(front, end);
        assert((encode_utf8(front) + tail).subrange(
            encode_utf8(front).len() as int,
            bytes.len() as int,
        ) =~= tail);
    }
    if ends_with(bytes, tail) {
        let k = bytes.len() - tail.len();
        if tail.len() == 0 {
            assert(end.len() == 0) by {
                if end.len() > 0 {
                    assert(encode_scalar(end[0] as u32).len() >= 1);
                }
            }
            assert(whole.subrange(whole.len() as int, whole.len() as int) =~= end);
        } else {
            is_char_boundary_start_end_of_seq(tail);
            is_char_boundary_iff_not_is_continuation_byte(tail, 0);
            assert(bytes[k] == bytes.subrange(k, bytes.len() as int)[0]);
            is_char_boundary_iff_not_is_continuation_byte(bytes, k);
            assert(is_char_boundary(bytes, k));
            decode_utf8_split(bytes, k);
            let front = decode_utf8(bytes.subrange(0, k));
            assert(whole =~= front + end);
            assert((front + end).subrange(front.len() as int, (front + end).len() as int) =~= end);
        }
    }
}

} // verus!
