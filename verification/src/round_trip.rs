//! What is written is what is read: a name, a question, a record and a
//! whole message come back from their bytes as they went in, their names
//! in lower case.

use vstd::prelude::*;
use vstd::utf8::{
    char_is_scalar, encode_scalar, encode_utf8, encode_utf8_decode_utf8, encode_utf8_valid_utf8,
    has_width_1_encoding,
};
use crate::buffer_error::BufferError;
use crate::dns_packet::{
    lemma_pieces_wf_questions, lemma_pieces_wf_records, question_pieces, questions_at,
    record_pieces, records_at, records_sound, PacketView,
};
use crate::dns_header::{DnsHeader, HEADER_LEN};
use crate::dns_question::{QuestionRead, QuestionView};
use crate::dns_record::{head_wire, RecordView, FIXED_LEN};
use crate::emission::{
    lemma_emit_all_room, lemma_emit_all_wires, lemma_wires_join, pieces_wf, wires, Piece,
};
use crate::name::{
    label_text, lemma_name_wire_cons, lemma_split_some, lowercase, lowered, name_cursor,
    name_text, name_wire, sound, split, split_labels, text_fits, text_sound, text_wire,
    walk_name, NameWalk, DOT, MAX_JUMPS,
};
use crate::wire::{
    addr6_at, dword_bytes, holds, lemma_addr6_held, lemma_addr6_len, lemma_dword_held,
    lemma_holds_parts, lemma_put_holds, lemma_word_held, put, word_bytes, Parsed, CAPACITY,
};

verus! {

/// Where the wire form of sound labels stands in the buffer, the first
/// label stands behind its length, and the wire form of the others behind
/// it.
pub proof fn lemma_first_label_held(buf: Seq<u8>, pos: int, labels: Seq<Seq<u8>>)
    requires
        sound(labels),
        labels.len() > 0,
        holds(buf, pos, name_wire(labels)),
    ensures
        buf[pos] == labels[0].len(),
        buf.subrange(pos + 1, pos + 1 + labels[0].len()) == labels[0],
        sound(labels.skip(1)),
        holds(buf, pos + 1 + labels[0].len(), name_wire(labels.skip(1))),
        name_wire(labels).len() == 1 + labels[0].len() + name_wire(labels.skip(1)).len(),
{
    let first = labels[0];
    let rest = labels.skip(1);
    assert(seq![first] + rest =~= labels);
    lemma_name_wire_cons(first, rest);
    let length = seq![first.len() as u8];
    assert(name_wire(labels) =~= length + first + name_wire(rest));
    lemma_holds_parts(buf, pos, length + first, name_wire(rest));
    lemma_holds_parts(buf, pos, length, first);
    assert(buf.subrange(pos, pos + 1)[0] == first.len() as u8);
    assert forall|i: int| 0 <= i < rest.len() implies 1 <= (#[trigger] rest[i]).len() <= 63 by {
        assert(rest[i] == labels[i + 1]);
    }
}

/// The wire form of sound labels, where it stands in the buffer, is read
/// as those labels. The place behind its closing zero must lie in the
/// buffer where no pointer led to the name.
pub proof fn lemma_walk_written(buf: Seq<u8>, pos: int, labels: Seq<Seq<u8>>, jumps: int)
    requires
        buf.len() == CAPACITY,
        sound(labels),
        holds(buf, pos, name_wire(labels)),
        0 <= jumps <= MAX_JUMPS,
        jumps == 0 ==> pos + name_wire(labels).len() < CAPACITY,
    ensures
        walk_name(buf, pos, jumps) == (NameWalk { labels, failure: None }),
    decreases labels.len(),
{
    if labels.len() == 0 {
        assert(buf.subrange(pos, pos + 1)[0] == 0u8);
        assert(labels =~= Seq::<Seq<u8>>::empty());
    } else {
        lemma_first_label_held(buf, pos, labels);
        let next = pos + 1 + labels[0].len();
        lemma_walk_written(buf, next, labels.skip(1), jumps);
        assert(walk_name(buf, next, jumps).after(seq![labels[0]]).labels =~= labels);
    }
}

/// The cursor for the wire form of sound labels ends behind its closing
/// zero, where that place lies in the buffer.
pub proof fn lemma_cursor_written(buf: Seq<u8>, pos: int, labels: Seq<Seq<u8>>, start: int)
    requires
        buf.len() == CAPACITY,
        sound(labels),
        holds(buf, pos, name_wire(labels)),
        pos + name_wire(labels).len() < CAPACITY,
    ensures
        name_cursor(buf, pos, start) == pos + name_wire(labels).len(),
    decreases labels.len(),
{
    if labels.len() == 0 {
        assert(buf.subrange(pos, pos + 1)[0] == 0u8);
    } else {
        lemma_first_label_held(buf, pos, labels);
        lemma_cursor_written(buf, pos + 1 + labels[0].len(), labels.skip(1), start);
    }
}

/// A character of one byte is that byte, and every byte of a longer
/// encoding has its top bit set.
proof fn lemma_scalar_bytes(v: u32)
    by (bit_vector)
    ensures
        v <= 0x7F ==> (v & 0x7F) as u8 == v,
        (0xC0u8 | ((v >> 6) & 0x1F) as u8) >= 0x80,
        (0xE0u8 | ((v >> 12) & 0x0F) as u8) >= 0x80,
        (0xF0u8 | ((v >> 18) & 0x7) as u8) >= 0x80,
        (0x80u8 | (v & 0x3F) as u8) >= 0x80,
        (0x80u8 | ((v >> 6) & 0x3F) as u8) >= 0x80,
        (0x80u8 | ((v >> 12) & 0x3F) as u8) >= 0x80,
{
}

/// No byte of `bytes` is the dot.
pub open spec fn dot_free(bytes: Seq<u8>) -> bool {
    forall|i: int| 0 <= i < bytes.len() ==> #[trigger] bytes[i] != DOT
}

/// The dot is encoded as the one byte that is the dot, and no byte of the
/// encoding of another character is the dot.
pub proof fn lemma_encoded_dot(c: char)
    ensures
        c == '.' ==> encode_scalar(c as u32) == seq![DOT],
        c != '.' ==> dot_free(encode_scalar(c as u32)),
{
    let v = c as u32;
    char_is_scalar(c);
    lemma_scalar_bytes(v);
    if c == '.' {
        assert(v == 0x2E);
        assert(has_width_1_encoding(v));
        assert(encode_scalar(v) =~= seq![DOT]);
    }
}

/// Runs are not broken by what holds no separator: in front of `t`, such
/// an `e` only makes the first run longer.
pub proof fn lemma_split_prefix<T>(e: Seq<T>, t: Seq<T>, sep: T)
    requires
        forall|i: int| 0 <= i < e.len() ==> e[i] != sep,
    ensures
        split(e + t, sep) == seq![e + split(t, sep)[0]] + split(t, sep).drop_first(),
    decreases e.len(),
{
    lemma_split_some(t, sep);
    let st = split(t, sep);
    if e.len() == 0 {
        assert(e + t =~= t);
        assert(e + st[0] =~= st[0]);
        assert(seq![st[0]] + st.drop_first() =~= st);
    } else {
        let whole = e + t;
        assert(whole.drop_first() =~= e.drop_first() + t);
        assert(whole[0] == e[0]);
        lemma_split_prefix(e.drop_first(), t, sep);
        let inner = split(e.drop_first() + t, sep);
        assert(inner[0] == e.drop_first() + st[0]);
        assert(inner.drop_first() =~= st.drop_first());
        assert(seq![e[0]] + inner[0] =~= e + st[0]);
    }
}

/// The encoding of a text is the encoding of its first character and then
/// that of the rest.
proof fn lemma_encode_cons(c: char, rest: Seq<char>)
    ensures
        encode_utf8(seq![c] + rest) == encode_scalar(c as u32) + encode_utf8(rest),
{
    let whole = seq![c] + rest;
    assert(whole.drop_first() =~= rest);
}

/// The labels of the encoding of a name are the encodings of the labels
/// of the name: no character but the dot has the dot among its bytes.
pub proof fn lemma_split_encoded(name: Seq<char>)
    ensures
        split_labels(encode_utf8(name)) == split(name, '.').map_values(
            |l: Seq<char>| encode_utf8(l),
        ),
    decreases name.len(),
{
    let enc = |l: Seq<char>| encode_utf8(l);
    if name.len() == 0 {
        assert(encode_utf8(name) =~= Seq::<u8>::empty());
        assert(encode_utf8(Seq::<char>::empty()) =~= Seq::<u8>::empty());
        assert(split(name, '.').map_values(enc) =~= seq![Seq::<u8>::empty()]);
    } else {
        let c = name[0];
        let rest = name.drop_first();
        let e = encode_scalar(c as u32);
        let t = encode_utf8(rest);
        let r = split(rest, '.');
        lemma_split_encoded(rest);
        lemma_split_some(rest, '.');
        lemma_encoded_dot(c);
        assert(encode_utf8(name) == e + t);
        if c == '.' {
            assert((e + t).drop_first() =~= t);
            assert(encode_utf8(Seq::<char>::empty()) =~= Seq::<u8>::empty());
            assert((seq![Seq::<char>::empty()] + r).map_values(enc) =~= seq![
                Seq::<u8>::empty(),
            ] + r.map_values(enc));
        } else {
            lemma_split_prefix(e, t, DOT);
            lemma_encode_cons(c, r[0]);
            assert((seq![seq![c] + r[0]] + r.drop_first()).map_values(enc) =~= seq![
                e + encode_utf8(r[0]),
            ] + r.map_values(enc).drop_first());
        }
    }
}

/// The text that the encoded labels of a name are read as is the name
/// with each label in lower case.
pub proof fn lemma_text_of_encoded(name: Seq<char>)
    ensures
        name_text(split_labels(encode_utf8(name))) == lowered(name),
{
    let labels = split(name, '.');
    lemma_split_encoded(name);
    let encoded = labels.map_values(|l: Seq<char>| encode_utf8(l));
    let read = encoded.map_values(|l: Seq<u8>| label_text(l));
    let low = labels.map_values(|l: Seq<char>| lowercase(l));
    assert forall|i: int| 0 <= i < labels.len() implies read[i] == low[i] by {
        encode_utf8_valid_utf8(labels[i]);
        encode_utf8_decode_utf8(labels[i]);
    }
    assert(read =~= low);
}

/// A name whose labels are one to 63 bytes long, written where its closing
/// zero is not the last byte of the buffer, is read back from where it was
/// written as the same labels: as its text with each label in lower case.
/// No pointer is written, so the cursor ends behind the closing zero. The
/// text read is the lower-case form of the whole name wherever that is
/// the name with each label in lower case.
pub proof fn lemma_name_round_trip(buf: Seq<u8>, pos: int, name: Seq<char>)
    requires
        buf.len() == CAPACITY,
        0 <= pos,
        text_sound(name),
        pos + text_wire(name).len() < CAPACITY,
    ensures
        walk_name(put(buf, pos, text_wire(name)), pos, 0) == (NameWalk {
            labels: split_labels(encode_utf8(name)),
            failure: None,
        }),
        name_text(walk_name(put(buf, pos, text_wire(name)), pos, 0).labels) == lowered(name),
        name_cursor(put(buf, pos, text_wire(name)), pos, pos) == pos + text_wire(name).len(),
        lowercase(name) == lowered(name) ==> name_text(
            walk_name(put(buf, pos, text_wire(name)), pos, 0).labels,
        ) == lowercase(name),
{
    let labels = split_labels(encode_utf8(name));
    let after = put(buf, pos, text_wire(name));
    lemma_put_holds(buf, pos, text_wire(name));
    lemma_walk_written(after, pos, labels, 0);
    lemma_cursor_written(after, pos, labels, pos);
    lemma_text_of_encoded(name);
}

/// A name that is sound can be written, and its wire form is longer than
/// nothing.
pub proof fn lemma_sound_fits(name: Seq<char>)
    requires
        text_sound(name),
    ensures
        text_fits(name),
        text_wire(name).len() >= 1,
{
    let labels = split_labels(encode_utf8(name));
    lemma_split_some(encode_utf8(name), DOT);
    assert(labels[0].len() <= 63);
    assert(seq![labels[0]] + labels.skip(1) =~= labels);
    lemma_name_wire_cons(labels[0], labels.skip(1));
}

/// The name with the text `name`, where its wire form stands in the
/// buffer with at least one byte behind it, is read as the name with each
/// label in lower case.
pub proof fn lemma_name_read(buf: Seq<u8>, pos: int, name: Seq<char>)
    requires
        buf.len() == CAPACITY,
        text_sound(name),
        holds(buf, pos, text_wire(name)),
        pos + text_wire(name).len() < CAPACITY,
    ensures
        walk_name(buf, pos, 0).failure is None,
        name_text(walk_name(buf, pos, 0).labels) == lowered(name),
        name_cursor(buf, pos, pos) == pos + text_wire(name).len(),
{
    let labels = split_labels(encode_utf8(name));
    lemma_walk_written(buf, pos, labels, 0);
    lemma_cursor_written(buf, pos, labels, pos);
    lemma_text_of_encoded(name);
}

/// A sound question, where its bytes stand in the buffer, is read into a
/// blank question as itself, its name in lower case.
pub proof fn lemma_question_read(buf: Seq<u8>, pos: int, q: QuestionView)
    requires
        buf.len() == CAPACITY,
        q.sound(),
        holds(buf, pos, q.wire()),
    ensures
        QuestionView::blank().read_at(buf, pos) == (QuestionRead {
            question: q.lowered(),
            cursor: pos + q.wire().len(),
            failure: None,
        }),
{
    reveal(QuestionView::wire);
    reveal(QuestionView::read_at);
    lemma_sound_fits(q.name);
    let name = text_wire(q.name);
    let code = word_bytes(q.qtype.code());
    assert(q.wire() == name + code + word_bytes(1));
    lemma_holds_parts(buf, pos, name + code, word_bytes(1));
    lemma_holds_parts(buf, pos, name, code);
    lemma_name_read(buf, pos, q.name);
    lemma_word_held(buf, pos + name.len(), q.qtype.code());
    assert(Seq::<char>::empty() + lowered(q.name) =~= lowered(q.name));
}

/// What opens a sound record, where the record's bytes stand in the
/// buffer, is read as it was written, so that the record is read as its
/// data is, which stands ten bytes behind the owner's name.
pub proof fn lemma_record_head_read(buf: Seq<u8>, pos: int, r: RecordView)
    requires
        buf.len() == CAPACITY,
        r.sound(),
        holds(buf, pos, r.wire()),
    ensures
        RecordView::at(buf, pos) == RecordView::data_at(
            buf,
            pos + text_wire(r.domain()).len() + FIXED_LEN,
            lowered(r.domain()),
            r.code(),
            r.ttl(),
            r.data().len() as u16,
        ),
        holds(buf, pos + text_wire(r.domain()).len() + FIXED_LEN, r.data()),
        r.wire().len() == text_wire(r.domain()).len() + FIXED_LEN + r.data().len(),
{
    reveal(RecordView::wire);
    reveal(RecordView::at);
    let domain = r.domain();
    lemma_sound_fits(domain);
    let name = text_wire(domain);
    let code = word_bytes(r.code());
    let class = word_bytes(1);
    let ttl = dword_bytes(r.ttl());
    let len = word_bytes(r.data().len() as u16);
    let data = r.data();
    assert(head_wire(domain, r.code(), r.ttl()) == name + code + class + ttl);
    assert(r.wire() == name + code + class + ttl + len + data);
    lemma_holds_parts(buf, pos, name + code + class + ttl + len, data);
    lemma_holds_parts(buf, pos, name + code + class + ttl, len);
    lemma_holds_parts(buf, pos, name + code + class, ttl);
    lemma_holds_parts(buf, pos, name + code, class);
    lemma_holds_parts(buf, pos, name, code);
    lemma_name_read(buf, pos, domain);
    let p = pos + name.len();
    lemma_word_held(buf, p, r.code());
    lemma_dword_held(buf, p + 4, r.ttl());
    lemma_word_held(buf, p + 8, r.data().len() as u16);
}

/// Four bytes are read as the address of a record of kind A.
proof fn lemma_address_read(buf: Seq<u8>, at: int, r: RecordView, data_len: u16)
    requires
        buf.len() == CAPACITY,
        r is A,
        holds(buf, at, r.data()),
    ensures
        RecordView::data_at(buf, at, lowered(r.domain()), r.code(), r.ttl(), data_len) == (Parsed {
            cursor: at + r.data().len(),
            outcome: Ok::<RecordView, BufferError>(r.lowered()),
        }),
{
    reveal(RecordView::data_at);
    lemma_dword_held(buf, at, r->A_addr);
}

/// Sixteen bytes are read as the address of a record of kind AAAA.
proof fn lemma_address6_read(buf: Seq<u8>, at: int, r: RecordView, data_len: u16)
    requires
        buf.len() == CAPACITY,
        r is AAAA,
        holds(buf, at, r.data()),
    ensures
        RecordView::data_at(buf, at, lowered(r.domain()), r.code(), r.ttl(), data_len) == (Parsed {
            cursor: at + r.data().len(),
            outcome: Ok::<RecordView, BufferError>(r.lowered()),
        }),
{
    let addr = r->AAAA_addr;
    lemma_addr6_len(addr);
    lemma_addr6_held(buf, at, addr);
    assert(RecordView::data_at(buf, at, lowered(r.domain()), 28, r.ttl(), data_len) == (Parsed {
        cursor: at + 16,
        outcome: Ok::<RecordView, BufferError>(
            RecordView::AAAA { domain: lowered(r.domain()), addr: addr6_at(buf, at), ttl: r.ttl() },
        ),
    })) by {
        reveal(RecordView::data_at);
    }
}

/// A name is read as the host of a record of kind NS or CNAME.
proof fn lemma_host_read(buf: Seq<u8>, at: int, r: RecordView, data_len: u16)
    requires
        buf.len() == CAPACITY,
        r is NS || r is CNAME,
        r.sound(),
        holds(buf, at, r.data()),
        at + r.data().len() < CAPACITY,
    ensures
        RecordView::data_at(buf, at, lowered(r.domain()), r.code(), r.ttl(), data_len) == (Parsed {
            cursor: at + r.data().len(),
            outcome: Ok::<RecordView, BufferError>(r.lowered()),
        }),
{
    reveal(RecordView::data_at);
    match r {
        RecordView::NS { host, .. } => {
            lemma_name_read(buf, at, host);
        },
        RecordView::CNAME { host, .. } => {
            lemma_name_read(buf, at, host);
        },
        _ => {},
    }
}

/// A word and a name are read as the priority and the host of a record of
/// kind MX.
proof fn lemma_exchange_read(buf: Seq<u8>, at: int, r: RecordView, data_len: u16)
    requires
        buf.len() == CAPACITY,
        r is MX,
        r.sound(),
        holds(buf, at, r.data()),
        at + r.data().len() < CAPACITY,
    ensures
        RecordView::data_at(buf, at, lowered(r.domain()), r.code(), r.ttl(), data_len) == (Parsed {
            cursor: at + r.data().len(),
            outcome: Ok::<RecordView, BufferError>(r.lowered()),
        }),
{
    reveal(RecordView::data_at);
    let priority = r->MX_priority;
    let host = r->MX_host;
    lemma_holds_parts(buf, at, word_bytes(priority), text_wire(host));
    lemma_word_held(buf, at, priority);
    lemma_name_read(buf, at + 2, host);
}

/// The data of a sound record, where it stands in the buffer, is read as
/// the record, its names in lower case. Where the data ends with a name,
/// that name must not end with the buffer.
pub proof fn lemma_record_data_read(buf: Seq<u8>, at: int, r: RecordView, data_len: u16)
    requires
        buf.len() == CAPACITY,
        r.sound(),
        holds(buf, at, r.data()),
        r.ends_with_name() ==> at + r.data().len() < CAPACITY,
    ensures
        RecordView::data_at(buf, at, lowered(r.domain()), r.code(), r.ttl(), data_len) == (Parsed {
            cursor: at + r.data().len(),
            outcome: Ok::<RecordView, BufferError>(r.lowered()),
        }),
{
    if r is A {
        lemma_address_read(buf, at, r, data_len);
    } else if r is AAAA {
        lemma_address6_read(buf, at, r, data_len);
    } else if r is MX {
        lemma_exchange_read(buf, at, r, data_len);
    } else {
        lemma_host_read(buf, at, r, data_len);
    }
}

/// A sound record, where its bytes stand in the buffer, is read as
/// itself, its names in lower case. Where its data ends with a name, that
/// name must not end with the buffer.
pub proof fn lemma_record_read(buf: Seq<u8>, pos: int, r: RecordView)
    requires
        buf.len() == CAPACITY,
        r.sound(),
        holds(buf, pos, r.wire()),
        r.ends_with_name() ==> pos + r.wire().len() < CAPACITY,
    ensures
        RecordView::at(buf, pos) == (Parsed {
            cursor: pos + r.wire().len(),
            outcome: Ok::<RecordView, BufferError>(r.lowered()),
        }),
{
    lemma_record_head_read(buf, pos, r);
    lemma_record_data_read(
        buf,
        pos + text_wire(r.domain()).len() + FIXED_LEN,
        r,
        r.data().len() as u16,
    );
}

/// Sound questions, where their bytes stand in the buffer one after the
/// other, are read as themselves, their names in lower case.
pub proof fn lemma_questions_read(buf: Seq<u8>, pos: int, qs: Seq<QuestionView>)
    requires
        buf.len() == CAPACITY,
        forall|i: int| 0 <= i < qs.len() ==> (#[trigger] qs[i]).sound(),
        holds(buf, pos, wires(question_pieces(qs))),
    ensures
        questions_at(buf, pos, qs.len()) == (Parsed {
            cursor: pos + wires(question_pieces(qs)).len(),
            outcome: Ok::<Seq<QuestionView>, BufferError>(
                qs.map_values(|q: QuestionView| q.lowered()),
            ),
        }),
    decreases qs.len(),
{
    let low = |q: QuestionView| q.lowered();
    let pieces = question_pieces(qs);
    if qs.len() == 0 {
        assert(qs.map_values(low) =~= Seq::<QuestionView>::empty());
    } else {
        let first = qs[0];
        let rest = qs.skip(1);
        assert(pieces[0] == first.piece());
        assert(pieces.skip(1) =~= question_pieces(rest));
        lemma_holds_parts(buf, pos, first.wire(), wires(question_pieces(rest)));
        lemma_question_read(buf, pos, first);
        assert forall|i: int| 0 <= i < rest.len() implies (#[trigger] rest[i]).sound() by {
            assert(rest[i] == qs[i + 1]);
        }
        lemma_questions_read(buf, pos + first.wire().len(), rest);
        assert(seq![first.lowered()] + rest.map_values(low) =~= qs.map_values(low));
    }
}

/// Sound records, where their bytes stand in the buffer one after the
/// other, are read as themselves, their names in lower case. Where the
/// data of the last ends with a name, that name must not end with the
/// buffer.
pub proof fn lemma_records_read(buf: Seq<u8>, pos: int, rs: Seq<RecordView>)
    requires
        buf.len() == CAPACITY,
        records_sound(rs),
        holds(buf, pos, wires(record_pieces(rs))),
        rs.len() > 0 && rs.last().ends_with_name() ==> pos + wires(record_pieces(rs)).len()
            < CAPACITY,
    ensures
        records_at(buf, pos, rs.len()) == (Parsed {
            cursor: pos + wires(record_pieces(rs)).len(),
            outcome: Ok::<Seq<RecordView>, BufferError>(
                rs.map_values(|r: RecordView| r.lowered()),
            ),
        }),
    decreases rs.len(),
{
    let low = |r: RecordView| r.lowered();
    let pieces = record_pieces(rs);
    if rs.len() == 0 {
        assert(rs.map_values(low) =~= Seq::<RecordView>::empty());
    } else {
        let first = rs[0];
        let rest = rs.skip(1);
        assert(pieces[0] == first.piece());
        assert(pieces.skip(1) =~= record_pieces(rest));
        lemma_holds_parts(buf, pos, first.wire(), wires(record_pieces(rest)));
        assert forall|i: int| 0 <= i < rest.len() implies (#[trigger] rest[i]).sound() by {
            assert(rest[i] == rs[i + 1]);
        }
        if rest.len() > 0 {
            assert(rest.last() == rs.last());
            lemma_records_some(rest);
        }
        lemma_record_read(buf, pos, first);
        lemma_records_read(buf, pos + first.wire().len(), rest);
        assert(seq![first.lowered()] + rest.map_values(low) =~= rs.map_values(low));
    }
}

/// A sound record has bytes on the wire.
pub proof fn lemma_record_wire_some(r: RecordView)
    requires
        r.sound(),
    ensures
        r.wire().len() >= 1,
{
    reveal(RecordView::wire);
    lemma_sound_fits(r.domain());
}

/// Where a message stands in the buffer, its header stands first and the
/// wire forms of its four sections behind it.
pub proof fn lemma_packet_layout(buf: Seq<u8>, pos: int, m: PacketView)
    requires
        0 <= pos,
        holds(buf, pos, m.wire()),
    ensures
        ({
            let wq = wires(question_pieces(m.questions));
            let wan = wires(record_pieces(m.answers));
            let wau = wires(record_pieces(m.authorities));
            let wad = wires(record_pieces(m.resources));
            &&& m.wire().len() == HEADER_LEN + wq.len() + wan.len() + wau.len() + wad.len()
            &&& holds(buf, pos, m.header.wire())
            &&& holds(buf, pos + HEADER_LEN, wq)
            &&& holds(buf, pos + HEADER_LEN + wq.len(), wan)
            &&& holds(buf, pos + HEADER_LEN + wq.len() + wan.len(), wau)
            &&& holds(buf, pos + HEADER_LEN + wq.len() + wan.len() + wau.len(), wad)
        }),
{
    let head = seq![Piece::plain(m.header.wire())];
    let qs = question_pieces(m.questions);
    let an = record_pieces(m.answers);
    let au = record_pieces(m.authorities);
    let ad = record_pieces(m.resources);
    lemma_wires_join(head, qs + (an + (au + ad)));
    lemma_wires_join(qs, an + (au + ad));
    lemma_wires_join(an, au + ad);
    lemma_wires_join(au, ad);
    let h = m.header.wire();
    assert(wires(head) =~= h) by {
        reveal_with_fuel(wires, 2);
        assert(head.skip(1) =~= Seq::<Piece>::empty());
    }
    m.header.lemma_wire_len();
    let wq = wires(qs);
    let wan = wires(an);
    let wau = wires(au);
    let wad = wires(ad);
    assert(m.wire() == h + (wq + (wan + (wau + wad))));
    lemma_holds_parts(buf, pos, h, wq + (wan + (wau + wad)));
    lemma_holds_parts(buf, pos + 12, wq, wan + (wau + wad));
    lemma_holds_parts(buf, pos + 12 + wq.len(), wan, wau + wad);
    lemma_holds_parts(buf, pos + 12 + wq.len() + wan.len(), wau, wad);
}

/// A message that can be written at `pos` leaves its wire form there, and
/// that fits in the buffer.
pub proof fn lemma_packet_written(pos: int, m: PacketView)
    requires
        0 <= pos,
        m.emit(pos).failure is None,
    ensures
        m.emit(pos).bytes == m.wire(),
        pos + m.wire().len() <= CAPACITY,
{
    lemma_pieces_wf_questions(m.questions);
    lemma_pieces_wf_records(m.answers);
    lemma_pieces_wf_records(m.authorities);
    lemma_pieces_wf_records(m.resources);
    assert(pieces_wf(m.pieces()));
    lemma_emit_all_room(m.pieces(), pos);
    lemma_emit_all_wires(m.pieces(), pos);
    let head = seq![Piece::plain(m.header.wire())];
    lemma_wires_join(
        head,
        question_pieces(m.questions) + (record_pieces(m.answers) + (record_pieces(m.authorities)
            + record_pieces(m.resources))),
    );
    assert(wires(head) =~= m.header.wire()) by {
        reveal_with_fuel(wires, 2);
        assert(head.skip(1) =~= Seq::<Piece>::empty());
    }
    m.header.lemma_wire_len();
}

/// A sound message is read as itself, its names in lower case, where its
/// header is read from the buffer, the wire forms of its sections stand
/// behind the header, and it does not end with a name that ends with the
/// buffer.
pub proof fn lemma_packet_read(buf: Seq<u8>, pos: int, m: PacketView)
    requires
        buf.len() == CAPACITY,
        0 <= pos,
        pos + HEADER_LEN <= CAPACITY,
        m.wf(),
        DnsHeader::at(buf, pos) == m.header,
        holds(buf, pos + HEADER_LEN, wires(question_pieces(m.questions))),
        holds(
            buf,
            pos + HEADER_LEN + wires(question_pieces(m.questions)).len(),
            wires(record_pieces(m.answers)),
        ),
        holds(
            buf,
            pos + HEADER_LEN + wires(question_pieces(m.questions)).len() + wires(
                record_pieces(m.answers),
            ).len(),
            wires(record_pieces(m.authorities)),
        ),
        holds(
            buf,
            pos + HEADER_LEN + wires(question_pieces(m.questions)).len() + wires(
                record_pieces(m.answers),
            ).len() + wires(record_pieces(m.authorities)).len(),
            wires(record_pieces(m.resources)),
        ),
        m.ends_with_name() ==> pos + HEADER_LEN + wires(question_pieces(m.questions)).len() + wires(
            record_pieces(m.answers),
        ).len() + wires(record_pieces(m.authorities)).len() + wires(
            record_pieces(m.resources),
        ).len() < CAPACITY,
    ensures
        PacketView::at(buf, pos) == (Parsed {
            cursor: pos + HEADER_LEN + wires(question_pieces(m.questions)).len() + wires(
                record_pieces(m.answers),
            ).len() + wires(record_pieces(m.authorities)).len() + wires(
                record_pieces(m.resources),
            ).len(),
            outcome: Ok::<PacketView, BufferError>(m.lowered()),
        }),
{
    let wq = wires(question_pieces(m.questions));
    let wan = wires(record_pieces(m.answers));
    let wau = wires(record_pieces(m.authorities));
    let wad = wires(record_pieces(m.resources));
    reveal(PacketView::at);
    let at_questions = pos + 12;
    let at_answers = at_questions + wq.len();
    let at_authorities = at_answers + wan.len();
    let at_resources = at_authorities + wau.len();
    lemma_records_some(m.authorities);
    lemma_records_some(m.resources);
    assert(questions_at(buf, at_questions, m.questions.len()) == (Parsed {
        cursor: at_answers,
        outcome: Ok::<Seq<QuestionView>, BufferError>(
            m.questions.map_values(|q: QuestionView| q.lowered()),
        ),
    })) by {
        lemma_questions_read(buf, at_questions, m.questions);
    }
    assert(records_at(buf, at_answers, m.answers.len()) == (Parsed {
        cursor: at_authorities,
        outcome: Ok::<Seq<RecordView>, BufferError>(
            m.answers.map_values(|r: RecordView| r.lowered()),
        ),
    })) by {
        lemma_records_read(buf, at_answers, m.answers);
    }
    assert(records_at(buf, at_authorities, m.authorities.len()) == (Parsed {
        cursor: at_resources,
        outcome: Ok::<Seq<RecordView>, BufferError>(
            m.authorities.map_values(|r: RecordView| r.lowered()),
        ),
    })) by {
        lemma_records_read(buf, at_authorities, m.authorities);
    }
    assert(records_at(buf, at_resources, m.resources.len()) == (Parsed {
        cursor: at_resources + wad.len(),
        outcome: Ok::<Seq<RecordView>, BufferError>(
            m.resources.map_values(|r: RecordView| r.lowered()),
        ),
    })) by {
        lemma_records_read(buf, at_resources, m.resources);
    }
}

/// A message that is written and read back comes back as it was, with
/// each label of its names in lower case; so a message whose names are in
/// lower case comes back as it was.
///
/// This holds of a message whose header counts its entries and has fields
/// that fit their places, whose names have labels of one to 63 bytes,
/// whose types are in the form in which they are read and whose records
/// are of known kinds; which can be written in the buffer from `pos` on;
/// and which does not end with a name that ends with the buffer.
pub proof fn lemma_packet_round_trip(buf: Seq<u8>, pos: int, m: PacketView)
    requires
        buf.len() == CAPACITY,
        0 <= pos,
        m.wf(),
        m.emit(pos).failure is None,
        m.ends_with_name() ==> pos + m.wire().len() < CAPACITY,
    ensures
        m.emit(pos).bytes == m.wire(),
        PacketView::at(put(buf, pos, m.wire()), pos) == (Parsed {
            cursor: pos + m.wire().len(),
            outcome: Ok::<PacketView, BufferError>(m.lowered()),
        }),
        m.lowered() == m ==> PacketView::at(put(buf, pos, m.wire()), pos).outcome == Ok::<
            PacketView,
            BufferError,
        >(m),
{
    let w = m.wire();
    let after = put(buf, pos, w);
    lemma_packet_written(pos, m);
    lemma_put_holds(buf, pos, w);
    lemma_packet_layout(after, pos, m);
    assert(DnsHeader::at(after, pos) == m.header) by {
        m.header.lemma_read_written(after, pos);
    }
    lemma_packet_read(after, pos, m);
}

/// Sound records take at least a byte each on the wire.
pub proof fn lemma_records_some(rs: Seq<RecordView>)
    requires
        records_sound(rs),
    ensures
        wires(record_pieces(rs)).len() >= rs.len(),
    decreases rs.len(),
{
    if rs.len() > 0 {
        let rest = rs.skip(1);
        assert(record_pieces(rs)[0] == rs[0].piece());
        assert(record_pieces(rs).skip(1) =~= record_pieces(rest));
        assert forall|i: int| 0 <= i < rest.len() implies (#[trigger] rest[i]).sound() by {
            assert(rest[i] == rs[i + 1]);
        }
        lemma_record_wire_some(rs[0]);
        lemma_records_some(rest);
    }
}

} // verus!
