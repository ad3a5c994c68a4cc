//! Resource records: the entries of the answer, authority and additional
//! sections.

use vstd::prelude::*;
use crate::buffer_error::BufferError;
use crate::byte_packet_buffer::BytePacketBuffer;
use crate::emission::Piece;
use crate::name::{
    lowered, name_cursor, name_text, text_fits, text_sound, text_wire, walk_name, write_failure,
};
use crate::query_type::QueryType;
use crate::wire::{
    addr6_at, addr6_bytes, dword_at, dword_bytes, lemma_addr6_join, lemma_addr6_len,
    lemma_addr6_split, lemma_prefix_shorter, lemma_put_patch, taken, word_at, word_bytes, Parsed,
    CAPACITY,
};

verus! {

/// A resource record. Each kind that the codec knows has its own fields;
/// of any other kind only the number of its type and the length of its
/// data are kept. An IPv4 address is held as its 32 bits, an IPv6 address
/// as its 128 bits, the first byte on the wire on top.
#[allow(non_camel_case_types)]
#[allow(inconsistent_fields)]
#[derive(Debug, Clone, PartialEq, Eq, Hash, PartialOrd, Ord)]
pub enum DnsRecord {
    UNKNOWN { domain: String, qtype: u16, data_len: u16, ttl: u32 },
    A { domain: String, addr: u32, ttl: u32 },
    NS { domain: String, host: String, ttl: u32 },
    CNAME { domain: String, host: String, ttl: u32 },
    MX { domain: String, priority: u16, host: String, ttl: u32 },
    AAAA { domain: String, addr: u128, ttl: u32 },
}

/// A record as a mathematical value.
#[allow(non_camel_case_types)]
#[allow(inconsistent_fields)]
pub enum RecordView {
    UNKNOWN { domain: Seq<char>, qtype: u16, data_len: u16, ttl: u32 },
    A { domain: Seq<char>, addr: u32, ttl: u32 },
    NS { domain: Seq<char>, host: Seq<char>, ttl: u32 },
    CNAME { domain: Seq<char>, host: Seq<char>, ttl: u32 },
    MX { domain: Seq<char>, priority: u16, host: Seq<char>, ttl: u32 },
    AAAA { domain: Seq<char>, addr: u128, ttl: u32 },
}

impl View for DnsRecord {
    type V = RecordView;

    open spec fn view(&self) -> RecordView {
        match *self {
            DnsRecord::UNKNOWN { domain, qtype, data_len, ttl } => RecordView::UNKNOWN {
                domain: domain@,
                qtype,
                data_len,
                ttl,
            },
            DnsRecord::A { domain, addr, ttl } => RecordView::A { domain: domain@, addr, ttl },
            DnsRecord::NS { domain, host, ttl } => RecordView::NS {
                domain: domain@,
                host: host@,
                ttl,
            },
            DnsRecord::CNAME { domain, host, ttl } => RecordView::CNAME {
                domain: domain@,
                host: host@,
                ttl,
            },
            DnsRecord::MX { domain, priority, host, ttl } => RecordView::MX {
                domain: domain@,
                priority,
                host: host@,
                ttl,
            },
            DnsRecord::AAAA { domain, addr, ttl } => RecordView::AAAA {
                domain: domain@,
                addr,
                ttl,
            },
        }
    }
}

/// The number of bytes between a record's name and its data: type, class,
/// time to live and the length of the data.
pub const FIXED_LEN: usize = 10;

/// What opens a record on the wire: the owner's name, the number of the
/// type, the class 1 and the time to live. It breaks off where the name
/// does, before a label that is too long.
pub open spec fn head_wire(domain: Seq<char>, code: u16, ttl: u32) -> Seq<u8> {
    if text_fits(domain) {
        text_wire(domain) + word_bytes(code) + word_bytes(1) + dword_bytes(ttl)
    } else {
        text_wire(domain)
    }
}

impl RecordView {
    /// The name that owns the record.
    pub open spec fn domain(self) -> Seq<char> {
        match self {
            RecordView::UNKNOWN { domain, .. } => domain,
            RecordView::A { domain, .. } => domain,
            RecordView::NS { domain, .. } => domain,
            RecordView::CNAME { domain, .. } => domain,
            RecordView::MX { domain, .. } => domain,
            RecordView::AAAA { domain, .. } => domain,
        }
    }

    /// The time to live, in seconds.
    pub open spec fn ttl(self) -> u32 {
        match self {
            RecordView::UNKNOWN { ttl, .. } => ttl,
            RecordView::A { ttl, .. } => ttl,
            RecordView::NS { ttl, .. } => ttl,
            RecordView::CNAME { ttl, .. } => ttl,
            RecordView::MX { ttl, .. } => ttl,
            RecordView::AAAA { ttl, .. } => ttl,
        }
    }

    /// The number of the record's type.
    pub open spec fn code(self) -> u16 {
        match self {
            RecordView::UNKNOWN { qtype, .. } => qtype,
            RecordView::A { .. } => QueryType::A.code(),
            RecordView::NS { .. } => QueryType::NS.code(),
            RecordView::CNAME { .. } => QueryType::CNAME.code(),
            RecordView::MX { .. } => QueryType::MX.code(),
            RecordView::AAAA { .. } => QueryType::AAAA.code(),
        }
    }

    /// The record's data on the wire. Where it ends with a name, it
    /// breaks off where the name does.
    pub open spec fn data(self) -> Seq<u8> {
        match self {
            RecordView::UNKNOWN { .. } => Seq::empty(),
            RecordView::A { addr, .. } => dword_bytes(addr),
            RecordView::NS { host, .. } => text_wire(host),
            RecordView::CNAME { host, .. } => text_wire(host),
            RecordView::MX { priority, host, .. } => word_bytes(priority) + text_wire(host),
            RecordView::AAAA { addr, .. } => addr6_bytes(addr),
        }
    }

    /// What is first written where the length of the data belongs: the
    /// length itself where it is known beforehand, else zero.
    pub open spec fn length_draft(self) -> u16 {
        match self {
            RecordView::A { .. } => 4,
            RecordView::AAAA { .. } => 16,
            _ => 0,
        }
    }

    /// Whether every label of every name of the record can be written. A
    /// record of unknown kind is not written at all.
    pub open spec fn writable(self) -> bool {
        match self {
            RecordView::UNKNOWN { .. } => true,
            RecordView::A { domain, .. } => text_fits(domain),
            RecordView::NS { domain, host, .. } => text_fits(domain) && text_fits(host),
            RecordView::CNAME { domain, host, .. } => text_fits(domain) && text_fits(host),
            RecordView::MX { domain, host, .. } => text_fits(domain) && text_fits(host),
            RecordView::AAAA { domain, .. } => text_fits(domain),
        }
    }

    /// What writing the record sends to the buffer one byte after the
    /// other, before the length of the data is filled in. It breaks off
    /// before a label that is too long. A record of unknown kind sends
    /// nothing.
    #[verifier::opaque]
    pub open spec fn draft(self) -> Seq<u8> {
        if self is UNKNOWN {
            Seq::empty()
        } else if text_fits(self.domain()) {
            head_wire(self.domain(), self.code(), self.ttl()) + word_bytes(self.length_draft())
                + self.data()
        } else {
            head_wire(self.domain(), self.code(), self.ttl())
        }
    }

    /// The record on the wire, where it is writable: the owner's name, the
    /// type, the class 1, the time to live, the length of the data and the
    /// data. A record of unknown kind has no bytes.
    #[verifier::opaque]
    pub open spec fn wire(self) -> Seq<u8> {
        if self is UNKNOWN {
            Seq::empty()
        } else {
            head_wire(self.domain(), self.code(), self.ttl()) + word_bytes(
                self.data().len() as u16,
            ) + self.data()
        }
    }

    /// This record with each label of its names in lower case.
    pub open spec fn lowered(self) -> RecordView {
        match self {
            RecordView::UNKNOWN { domain, qtype, data_len, ttl } => RecordView::UNKNOWN {
                domain: lowered(domain),
                qtype,
                data_len,
                ttl,
            },
            RecordView::A { domain, addr, ttl } => RecordView::A {
                domain: lowered(domain),
                addr,
                ttl,
            },
            RecordView::NS { domain, host, ttl } => RecordView::NS {
                domain: lowered(domain),
                host: lowered(host),
                ttl,
            },
            RecordView::CNAME { domain, host, ttl } => RecordView::CNAME {
                domain: lowered(domain),
                host: lowered(host),
                ttl,
            },
            RecordView::MX { domain, priority, host, ttl } => RecordView::MX {
                domain: lowered(domain),
                priority,
                host: lowered(host),
                ttl,
            },
            RecordView::AAAA { domain, addr, ttl } => RecordView::AAAA {
                domain: lowered(domain),
                addr,
                ttl,
            },
        }
    }

    /// The record's data ends with a name.
    pub open spec fn ends_with_name(self) -> bool {
        self is NS || self is CNAME || self is MX
    }

    /// The record is one that is written and can come off the wire: it is
    /// of a known kind, and the labels of its names are one to 63 bytes
    /// long.
    pub open spec fn sound(self) -> bool {
        match self {
            RecordView::UNKNOWN { .. } => false,
            RecordView::A { domain, .. } => text_sound(domain),
            RecordView::NS { domain, host, .. } => text_sound(domain) && text_sound(host),
            RecordView::CNAME { domain, host, .. } => text_sound(domain) && text_sound(host),
            RecordView::MX { domain, host, .. } => text_sound(domain) && text_sound(host),
            RecordView::AAAA { domain, .. } => text_sound(domain),
        }
    }

    /// This record as a piece of a message.
    pub open spec fn piece(self) -> Piece {
        Piece { draft: self.draft(), wire: self.wire(), writable: self.writable() }
    }

    /// What writing this record does: `after` is `before` with the record
    /// written at the cursor where `r` is a success, and with what came
    /// before the failure where it is none.
    pub open spec fn written<T>(
        self,
        before: &BytePacketBuffer,
        after: &BytePacketBuffer,
        r: Result<T, BufferError>,
    ) -> bool {
        self.piece().emit(before.pos as int).done(before, after, r)
    }

    /// The draft of a record that can be written is as long as the record
    /// is in the end.
    pub proof fn lemma_piece_wf(self)
        ensures
            self.piece().wf(),
    {
        reveal(RecordView::draft);
        reveal(RecordView::wire);
    }

    /// The name at `pos` as the host of a record of kind NS or CNAME.
    pub open spec fn host_at(
        buf: Seq<u8>,
        pos: int,
        make: spec_fn(Seq<char>) -> RecordView,
    ) -> Parsed<RecordView> {
        let walk = walk_name(buf, pos, 0);
        Parsed {
            cursor: name_cursor(buf, pos, pos),
            outcome: match walk.failure {
                Some(e) => Err(e),
                None => Ok(make(name_text(walk.labels))),
            },
        }
    }

    /// The data at `pos` of a record whose name, type, time to live and
    /// length of data have been read. An address is four or sixteen
    /// bytes, whatever the length says; a host is a name; the data of a
    /// record of unknown kind is passed over by its length.
    #[verifier::opaque]
    pub open spec fn data_at(
        buf: Seq<u8>,
        pos: int,
        domain: Seq<char>,
        code: u16,
        ttl: u32,
        data_len: u16,
    ) -> Parsed<RecordView> {
        match QueryType::of(code) {
            QueryType::A => Parsed {
                cursor: pos + taken(pos, 4),
                outcome: if pos + 4 <= CAPACITY {
                    Ok(RecordView::A { domain, addr: dword_at(buf, pos), ttl })
                } else {
                    Err(BufferError::BufferOverflow)
                },
            },
            QueryType::AAAA => Parsed {
                cursor: pos + taken(pos, 16),
                outcome: if pos + 16 <= CAPACITY {
                    Ok(RecordView::AAAA { domain, addr: addr6_at(buf, pos), ttl })
                } else {
                    Err(BufferError::BufferOverflow)
                },
            },
            QueryType::NS => RecordView::host_at(
                buf,
                pos,
                |host: Seq<char>| RecordView::NS { domain, host, ttl },
            ),
            QueryType::CNAME => RecordView::host_at(
                buf,
                pos,
                |host: Seq<char>| RecordView::CNAME { domain, host, ttl },
            ),
            QueryType::MX => if pos + 2 <= CAPACITY {
                RecordView::host_at(
                    buf,
                    pos + 2,
                    |host: Seq<char>|
                        RecordView::MX { domain, priority: word_at(buf, pos), host, ttl },
                )
            } else {
                Parsed { cursor: pos + taken(pos, 2), outcome: Err(BufferError::BufferOverflow) }
            },
            QueryType::UNKNOWN(_) => if pos + data_len <= CAPACITY {
                Parsed {
                    cursor: pos + data_len,
                    outcome: Ok(RecordView::UNKNOWN { domain, qtype: code, data_len, ttl }),
                }
            } else {
                Parsed { cursor: pos, outcome: Err(BufferError::Overflow) }
            },
        }
    }

    /// The record at `pos`: the owner's name, the type, the class, which
    /// is dropped, the time to live, the length of the data, and the data.
    #[verifier::opaque]
    pub open spec fn at(buf: Seq<u8>, pos: int) -> Parsed<RecordView> {
        let walk = walk_name(buf, pos, 0);
        let p = name_cursor(buf, pos, pos);
        if walk.failure is Some {
            Parsed { cursor: p, outcome: Err(walk.failure->0) }
        } else if p + FIXED_LEN > CAPACITY {
            Parsed {
                cursor: p + taken(p, FIXED_LEN as int),
                outcome: Err(BufferError::BufferOverflow),
            }
        } else {
            RecordView::data_at(
                buf,
                p + FIXED_LEN,
                name_text(walk.labels),
                word_at(buf, p),
                dword_at(buf, p + 4),
                word_at(buf, p + 8),
            )
        }
    }
}

/// Writes what opens a record: the owner's name, the number of the type,
/// the class 1 and the time to live.
fn write_head(buffer: &mut BytePacketBuffer, domain: &str, code: u16, ttl: u32) -> (r: Result<
    (),
    BufferError,
>)
    ensures
        old(buffer).streamed(final(buffer), head_wire(domain@, code, ttl)),
        match r {
            Ok(()) => write_failure(
                text_fits(domain@),
                head_wire(domain@, code, ttl).len() as int,
                old(buffer).pos as int,
            ) is None,
            Err(e) => write_failure(
                text_fits(domain@),
                head_wire(domain@, code, ttl).len() as int,
                old(buffer).pos as int,
            ) == Some(e),
        },
{
    let ghost nil = Seq::<u8>::empty();
    let ghost whole = head_wire(domain@, code, ttl);
    let ghost w0 = nil + text_wire(domain@);
    let ghost w1 = w0 + word_bytes(code);
    let ghost w2 = w1 + word_bytes(1);
    let ghost w3 = w2 + dword_bytes(ttl);
    proof {
        buffer.lemma_streamed_nothing();
        assert(w0 =~= text_wire(domain@));
        if text_fits(domain@) {
            assert(whole =~= w3);
            lemma_prefix_shorter(w2, dword_bytes(ttl), whole);
            lemma_prefix_shorter(w1, word_bytes(1), whole);
            lemma_prefix_shorter(w0, word_bytes(code), whole);
        }
        buffer.lemma_then_within(*old(buffer), nil, text_wire(domain@), whole);
    }
    buffer.write_qname(domain)?;
    proof {
        buffer.lemma_then_within(*old(buffer), w0, word_bytes(code), whole);
    }
    buffer.write_word(code)?;
    proof {
        buffer.lemma_then_within(*old(buffer), w1, word_bytes(1), whole);
    }
    buffer.write_word(1)?;
    proof {
        buffer.lemma_then_within(*old(buffer), w2, dword_bytes(ttl), whole);
    }
    buffer.write_dword(ttl)?;
    Ok(())
}

/// Reads the name at the cursor as a text of its own.
fn read_name(buffer: &mut BytePacketBuffer) -> (r: Result<String, BufferError>)
    ensures
        final(buffer).buf@ == old(buffer).buf@,
        final(buffer).pos == old(buffer).name_end(),
        match r {
            Ok(name) => old(buffer).name_walk().failure is None && name@ == name_text(
                old(buffer).name_walk().labels,
            ),
            Err(e) => old(buffer).name_walk().failure == Some(e),
        },
{
    let mut name = String::new();
    proof {
        assert(name@ + name_text(buffer.name_walk().labels) =~= name_text(
            buffer.name_walk().labels,
        ));
    }
    buffer.read_qname(&mut name)?;
    Ok(name)
}

/// Writes a record of kind A.
fn write_address(buffer: &mut BytePacketBuffer, domain: &str, addr: u32, ttl: u32) -> (r: Result<
    (),
    BufferError,
>)
    ensures
        (RecordView::A { domain: domain@, addr, ttl }).written(old(buffer), final(buffer), r),
{
    let ghost view = RecordView::A { domain: domain@, addr, ttl };
    let ghost nil = Seq::<u8>::empty();
    let ghost whole = view.draft();
    let ghost head = head_wire(domain@, 1, ttl);
    let ghost w0 = nil + head;
    let ghost w1 = w0 + word_bytes(4);
    let ghost w2 = w1 + dword_bytes(addr);
    proof {
        reveal(RecordView::draft);
        reveal(RecordView::wire);
        buffer.lemma_streamed_nothing();
        assert(w0 =~= head);
        if text_fits(domain@) {
            assert(whole =~= w2);
            assert(view.wire() =~= whole);
            lemma_prefix_shorter(w1, dword_bytes(addr), whole);
            lemma_prefix_shorter(w0, word_bytes(4), whole);
        }
        buffer.lemma_then_within(*old(buffer), nil, head, whole);
    }
    write_head(buffer, domain, QueryType::A.to_num(), ttl)?;
    proof {
        buffer.lemma_then_within(*old(buffer), w0, word_bytes(4), whole);
    }
    buffer.write_word(4)?;
    proof {
        buffer.lemma_then_within(*old(buffer), w1, dword_bytes(addr), whole);
    }
    buffer.write_dword(addr)?;
    Ok(())
}

/// Writes the sixteen bytes of `addr`, most significant first. Fails with
/// `EndOfBuffer` if fewer than sixteen bytes are left; the bytes that fit
/// have then been written.
fn write_addr6(buffer: &mut BytePacketBuffer, addr: u128) -> (r: Result<(), BufferError>)
    ensures
        old(buffer).streamed(final(buffer), addr6_bytes(addr)),
        match r {
            Ok(()) => old(buffer).pos + 16 <= CAPACITY,
            Err(e) => e == BufferError::EndOfBuffer && old(buffer).pos + 16 > CAPACITY,
        },
{
    proof {
        lemma_addr6_split(addr);
    }
    let d0 = (addr >> 96) as u32;
    let d1 = ((addr >> 64) & 0xFFFF_FFFF) as u32;
    let d2 = ((addr >> 32) & 0xFFFF_FFFF) as u32;
    let d3 = (addr & 0xFFFF_FFFF) as u32;
    let ghost nil = Seq::<u8>::empty();
    let ghost whole = addr6_bytes(addr);
    let ghost w0 = nil + dword_bytes(d0);
    let ghost w1 = w0 + dword_bytes(d1);
    let ghost w2 = w1 + dword_bytes(d2);
    let ghost w3 = w2 + dword_bytes(d3);
    proof {
        buffer.lemma_streamed_nothing();
        assert(whole =~= w3);
        lemma_prefix_shorter(w2, dword_bytes(d3), whole);
        lemma_prefix_shorter(w1, dword_bytes(d2), whole);
        lemma_prefix_shorter(w0, dword_bytes(d1), whole);
        buffer.lemma_then_within(*old(buffer), nil, dword_bytes(d0), whole);
    }
    buffer.write_dword(d0)?;
    proof {
        buffer.lemma_then_within(*old(buffer), w0, dword_bytes(d1), whole);
    }
    buffer.write_dword(d1)?;
    proof {
        buffer.lemma_then_within(*old(buffer), w1, dword_bytes(d2), whole);
    }
    buffer.write_dword(d2)?;
    proof {
        buffer.lemma_then_within(*old(buffer), w2, dword_bytes(d3), whole);
    }
    buffer.write_dword(d3)?;
    Ok(())
}

/// Writes a record of kind AAAA.
fn write_address6(buffer: &mut BytePacketBuffer, domain: &str, addr: u128, ttl: u32) -> (r: Result<
    (),
    BufferError,
>)
    ensures
        (RecordView::AAAA { domain: domain@, addr, ttl }).written(old(buffer), final(buffer), r),
{
    let ghost view = RecordView::AAAA { domain: domain@, addr, ttl };
    let ghost nil = Seq::<u8>::empty();
    let ghost whole = view.draft();
    let ghost head = head_wire(domain@, 28, ttl);
    let ghost w0 = nil + head;
    let ghost w1 = w0 + word_bytes(16);
    let ghost w2 = w1 + addr6_bytes(addr);
    proof {
        reveal(RecordView::draft);
        reveal(RecordView::wire);
        buffer.lemma_streamed_nothing();
        assert(w0 =~= head);
        lemma_addr6_len(addr);
        if text_fits(domain@) {
            assert(whole =~= w2);
            assert(view.wire() =~= whole);
            lemma_prefix_shorter(w1, addr6_bytes(addr), whole);
            lemma_prefix_shorter(w0, word_bytes(16), whole);
        }
        buffer.lemma_then_within(*old(buffer), nil, head, whole);
    }
    write_head(buffer, domain, QueryType::AAAA.to_num(), ttl)?;
    proof {
        buffer.lemma_then_within(*old(buffer), w0, word_bytes(16), whole);
    }
    buffer.write_word(16)?;
    proof {
        buffer.lemma_then_within(*old(buffer), w1, addr6_bytes(addr), whole);
    }
    write_addr6(buffer, addr)?;
    Ok(())
}

/// The record of kind NS, or CNAME if `alias`, with these fields.
pub open spec fn host_record(
    alias: bool,
    domain: Seq<char>,
    host: Seq<char>,
    ttl: u32,
) -> RecordView {
    if alias {
        RecordView::CNAME { domain, host, ttl }
    } else {
        RecordView::NS { domain, host, ttl }
    }
}

/// Writes a record of kind NS, or of kind CNAME if `alias`.
fn write_host(buffer: &mut BytePacketBuffer, alias: bool, domain: &str, host: &str, ttl: u32) -> (r:
    Result<(), BufferError>)
    ensures
        host_record(alias, domain@, host@, ttl).written(old(buffer), final(buffer), r),
{
    let code = if alias {
        QueryType::CNAME.to_num()
    } else {
        QueryType::NS.to_num()
    };
    let ghost view = host_record(alias, domain@, host@, ttl);
    let ghost nil = Seq::<u8>::empty();
    let ghost whole = view.draft();
    let ghost head = head_wire(domain@, code, ttl);
    let ghost w0 = nil + head;
    let ghost w1 = w0 + word_bytes(0);
    let ghost w2 = w1 + text_wire(host@);
    proof {
        reveal(RecordView::draft);
        reveal(RecordView::wire);
        buffer.lemma_streamed_nothing();
        assert(w0 =~= head);
        if text_fits(domain@) {
            assert(whole =~= w2);
            lemma_prefix_shorter(w1, text_wire(host@), whole);
            lemma_prefix_shorter(w0, word_bytes(0), whole);
        }
        buffer.lemma_then_within(*old(buffer), nil, head, whole);
    }
    write_head(buffer, domain, code, ttl)?;

    let pos = buffer.pos;
    proof {
        buffer.lemma_then_within(*old(buffer), w0, word_bytes(0), whole);
    }
    buffer.write_word(0)?;

    proof {
        buffer.lemma_then_within(*old(buffer), w1, text_wire(host@), whole);
    }
    buffer.write_qname(host)?;

    let size = buffer.pos - (pos + 2);
    proof {
        lemma_put_patch(
            old(buffer).buf@,
            old(buffer).pos as int,
            head,
            size as u16,
            text_wire(host@),
        );
        assert(w2 =~= head + word_bytes(0) + text_wire(host@));
    }
    buffer.set_word(pos, size as u16)?;
    Ok(())
}

/// Writes a record of kind MX.
fn write_exchange(
    buffer: &mut BytePacketBuffer,
    domain: &str,
    priority: u16,
    host: &str,
    ttl: u32,
) -> (r: Result<(), BufferError>)
    ensures
        (RecordView::MX { domain: domain@, priority, host: host@, ttl }).written(
            old(buffer),
            final(buffer),
            r,
        ),
{
    let ghost view = RecordView::MX { domain: domain@, priority, host: host@, ttl };
    let ghost nil = Seq::<u8>::empty();
    let ghost whole = view.draft();
    let ghost head = head_wire(domain@, 15, ttl);
    let ghost w0 = nil + head;
    let ghost w1 = w0 + word_bytes(0);
    let ghost w2 = w1 + word_bytes(priority);
    let ghost w3 = w2 + text_wire(host@);
    proof {
        reveal(RecordView::draft);
        reveal(RecordView::wire);
        buffer.lemma_streamed_nothing();
        assert(w0 =~= head);
        if text_fits(domain@) {
            assert(whole =~= w3);
            lemma_prefix_shorter(w2, text_wire(host@), whole);
            lemma_prefix_shorter(w1, word_bytes(priority), whole);
            lemma_prefix_shorter(w0, word_bytes(0), whole);
        }
        buffer.lemma_then_within(*old(buffer), nil, head, whole);
    }
    write_head(buffer, domain, QueryType::MX.to_num(), ttl)?;

    let pos = buffer.pos;
    proof {
        buffer.lemma_then_within(*old(buffer), w0, word_bytes(0), whole);
    }
    buffer.write_word(0)?;

    proof {
        buffer.lemma_then_within(*old(buffer), w1, word_bytes(priority), whole);
    }
    buffer.write_word(priority)?;
    proof {
        buffer.lemma_then_within(*old(buffer), w2, text_wire(host@), whole);
    }
    buffer.write_qname(host)?;

    let size = buffer.pos - (pos + 2);
    proof {
        lemma_put_patch(
            old(buffer).buf@,
            old(buffer).pos as int,
            head,
            size as u16,
            word_bytes(priority) + text_wire(host@),
        );
        assert(w3 =~= head + word_bytes(0) + (word_bytes(priority) + text_wire(host@)));
        assert(view.wire() =~= head + word_bytes(size as u16) + (word_bytes(priority) + text_wire(
            host@,
        )));
    }
    buffer.set_word(pos, size as u16)?;
    Ok(())
}

/// Reads the data of a record of which the owner's name, the number of
/// the type, the time to live and the length of the data have been read.
fn read_data(
    buffer: &mut BytePacketBuffer,
    domain: String,
    qtype_num: u16,
    ttl: u32,
    data_len: u16,
) -> (r: Result<DnsRecord, BufferError>)
    ensures
        final(buffer).buf@ == old(buffer).buf@,
        final(buffer).pos == RecordView::data_at(
            old(buffer).buf@,
            old(buffer).pos as int,
            domain@,
            qtype_num,
            ttl,
            data_len,
        ).cursor,
        match r {
            Ok(record) => RecordView::data_at(
                old(buffer).buf@,
                old(buffer).pos as int,
                domain@,
                qtype_num,
                ttl,
                data_len,
            ).outcome == Ok::<RecordView, BufferError>(record@),
            Err(e) => RecordView::data_at(
                old(buffer).buf@,
                old(buffer).pos as int,
                domain@,
                qtype_num,
                ttl,
                data_len,
            ).outcome == Err::<RecordView, BufferError>(e),
        },
{
    proof {
        reveal(RecordView::data_at);
    }
    match QueryType::from_num(qtype_num) {
        QueryType::A => {
            let addr = buffer.read_dword()?;

            Ok(DnsRecord::A { domain: domain, addr: addr, ttl: ttl })
        },
        QueryType::AAAA => {
            let raw_addr1 = buffer.read_dword()?;
            let raw_addr2 = buffer.read_dword()?;
            let raw_addr3 = buffer.read_dword()?;
            let raw_addr4 = buffer.read_dword()?;
            proof {
                lemma_addr6_join(raw_addr1, raw_addr2, raw_addr3, raw_addr4);
            }
            let addr = ((raw_addr1 as u128) << 96) | ((raw_addr2 as u128) << 64) | ((
            raw_addr3 as u128) << 32) | (raw_addr4 as u128);

            Ok(DnsRecord::AAAA { domain: domain, addr: addr, ttl: ttl })
        },
        QueryType::NS => {
            let ns = read_name(buffer)?;

            Ok(DnsRecord::NS { domain: domain, host: ns, ttl: ttl })
        },
        QueryType::CNAME => {
            let cname = read_name(buffer)?;

            Ok(DnsRecord::CNAME { domain: domain, host: cname, ttl: ttl })
        },
        QueryType::MX => {
            let priority = buffer.read_word()?;
            let mx = read_name(buffer)?;

            Ok(DnsRecord::MX { domain: domain, priority: priority, host: mx, ttl: ttl })
        },
        QueryType::UNKNOWN(_) => {
            buffer.step(data_len as usize)?;

            Ok(
                DnsRecord::UNKNOWN {
                    domain: domain,
                    qtype: qtype_num,
                    data_len: data_len,
                    ttl: ttl,
                },
            )
        },
    }
}

impl DnsRecord {
    /// Reads the record at the cursor: the owner's name, the type, the
    /// class, which is dropped, the time to live, the length of the data,
    /// and the data as the type has it. Fails as reading a name does, with
    /// `BufferOverflow` if the buffer ends within the record, and with
    /// `Overflow` if the data of a record of unknown kind would reach
    /// beyond the buffer.
    pub fn read(buffer: &mut BytePacketBuffer) -> (r: Result<DnsRecord, BufferError>)
        ensures
            final(buffer).buf@ == old(buffer).buf@,
            final(buffer).pos == RecordView::at(old(buffer).buf@, old(buffer).pos as int).cursor,
            match r {
                Ok(record) => RecordView::at(old(buffer).buf@, old(buffer).pos as int).outcome
                    == Ok::<RecordView, BufferError>(record@),
                Err(e) => RecordView::at(old(buffer).buf@, old(buffer).pos as int).outcome
                    == Err::<RecordView, BufferError>(e),
            },
    {
        proof {
            reveal(RecordView::at);
        }
        let domain = read_name(buffer)?;

        let qtype_num = buffer.read_word()?;
        let _ = buffer.read_word()?;
        let ttl = buffer.read_dword()?;
        let data_len = buffer.read_word()?;

        read_data(buffer, domain, qtype_num, ttl, data_len)
    }

    /// Writes this record at the cursor and returns the number of bytes
    /// written. The length of data that ends with a name is written as
    /// zero first and filled in when the name has been written. A record
    /// of unknown kind is passed over: nothing is written for it.
    ///
    /// Fails with `LabelTooLong` at a label of more than 63 bytes and with
    /// `EndOfBuffer` where the buffer ends first; what comes before the
    /// failure has been written, the length still as it was first written.
    pub fn write(&self, buffer: &mut BytePacketBuffer) -> (r: Result<usize, BufferError>)
        ensures
            match r {
                Ok(n) => n == self@.wire().len() && self@.written(old(buffer), final(buffer), r),
                Err(e) => self@.written(old(buffer), final(buffer), r),
            },
    {
        let start_pos = buffer.pos;
        proof {
            self@.lemma_piece_wf();
        }

        match self {
            DnsRecord::A { domain, addr, ttl } => {
                assert(self@ == (RecordView::A { domain: domain@, addr: *addr, ttl: *ttl }));
                write_address(buffer, domain.as_str(), *addr, *ttl)?;
            },
            DnsRecord::NS { domain, host, ttl } => {
                assert(self@ == host_record(false, domain@, host@, *ttl));
                write_host(buffer, false, domain.as_str(), host.as_str(), *ttl)?;
            },
            DnsRecord::CNAME { domain, host, ttl } => {
                assert(self@ == host_record(true, domain@, host@, *ttl));
                write_host(buffer, true, domain.as_str(), host.as_str(), *ttl)?;
            },
            DnsRecord::MX { domain, priority, host, ttl } => {
                assert(self@ == (RecordView::MX {
                    domain: domain@,
                    priority: *priority,
                    host: host@,
                    ttl: *ttl,
                }));
                write_exchange(buffer, domain.as_str(), *priority, host.as_str(), *ttl)?;
            },
            DnsRecord::AAAA { domain, addr, ttl } => {
                assert(self@ == (RecordView::AAAA { domain: domain@, addr: *addr, ttl: *ttl }));
                write_address6(buffer, domain.as_str(), *addr, *ttl)?;
            },
            DnsRecord::UNKNOWN { .. } => {
                proof {
                    reveal(RecordView::draft);
                    reveal(RecordView::wire);
                    buffer.lemma_streamed_nothing();
                }
            },
        }

        Ok(buffer.pos - start_pos)
    }
}

} // verus!
