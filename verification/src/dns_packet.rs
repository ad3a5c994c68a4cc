//! Whole messages, and what a response says about the name servers to ask
//! next.

use vstd::prelude::*;
use vstd::string::StringSliceAdditionalSpecFns;
use crate::buffer_error::BufferError;
use crate::byte_packet_buffer::BytePacketBuffer;
use crate::dns_header::{DnsHeader, HEADER_LEN};
use crate::dns_question::{DnsQuestion, QuestionView};
use crate::dns_record::{DnsRecord, RecordView};
use crate::emission::{
    emit_all, lemma_emit_next, lemma_emit_plain, lemma_emit_step, pieces_wf, wires, Emission,
    Piece,
};
use crate::name::{ends_with, lemma_ends_with_encoded};
use crate::query_type::QueryType;
use crate::wire::{taken, Parsed, CAPACITY};

verus! {

/// A message: a header and four sections, the questions, the answers, the
/// authority records and the additional records.
#[derive(Clone, Debug, PartialEq, Eq)]
pub struct DnsPacket {
    pub header: DnsHeader,
    pub questions: Vec<DnsQuestion>,
    pub answers: Vec<DnsRecord>,
    pub authorities: Vec<DnsRecord>,
    pub resources: Vec<DnsRecord>,
}

/// A message as a mathematical value.
pub struct PacketView {
    pub header: DnsHeader,
    pub questions: Seq<QuestionView>,
    pub answers: Seq<RecordView>,
    pub authorities: Seq<RecordView>,
    pub resources: Seq<RecordView>,
}

/// The questions as mathematical values.
pub open spec fn question_views(questions: Seq<DnsQuestion>) -> Seq<QuestionView> {
    questions.map_values(|q: DnsQuestion| q@)
}

/// The records as mathematical values.
pub open spec fn record_views(records: Seq<DnsRecord>) -> Seq<RecordView> {
    records.map_values(|r: DnsRecord| r@)
}

impl View for DnsPacket {
    type V = PacketView;

    open spec fn view(&self) -> PacketView {
        PacketView {
            header: self.header,
            questions: question_views(self.questions@),
            answers: record_views(self.answers@),
            authorities: record_views(self.authorities@),
            resources: record_views(self.resources@),
        }
    }
}

/// The questions as pieces of a message.
pub open spec fn question_pieces(questions: Seq<QuestionView>) -> Seq<Piece> {
    questions.map_values(|q: QuestionView| q.piece())
}

/// The records as pieces of a message.
pub open spec fn record_pieces(records: Seq<RecordView>) -> Seq<Piece> {
    records.map_values(|r: RecordView| r.piece())
}

/// The number of entries of a section as its header holds it: the low
/// sixteen bits.
pub open spec fn count(len: nat) -> u16 {
    (len % 0x1_0000) as u16
}

/// The `n` questions from `pos` on, each read into a blank question.
pub open spec fn questions_at(buf: Seq<u8>, pos: int, n: nat) -> Parsed<Seq<QuestionView>>
    decreases n,
{
    if n == 0 {
        Parsed { cursor: pos, outcome: Ok(Seq::empty()) }
    } else {
        let first = QuestionView::blank().read_at(buf, pos);
        match first.failure {
            Some(e) => Parsed { cursor: first.cursor, outcome: Err(e) },
            None => questions_at(buf, first.cursor, (n - 1) as nat).after(seq![first.question]),
        }
    }
}

/// The `n` records from `pos` on.
pub open spec fn records_at(buf: Seq<u8>, pos: int, n: nat) -> Parsed<Seq<RecordView>>
    decreases n,
{
    if n == 0 {
        Parsed { cursor: pos, outcome: Ok(Seq::empty()) }
    } else {
        let first = RecordView::at(buf, pos);
        match first.outcome {
            Err(e) => Parsed { cursor: first.cursor, outcome: Err(e) },
            Ok(record) => records_at(buf, first.cursor, (n - 1) as nat).after(seq![record]),
        }
    }
}

/// Every record is sound.
pub open spec fn records_sound(records: Seq<RecordView>) -> bool {
    forall|i: int| 0 <= i < records.len() ==> (#[trigger] records[i]).sound()
}

/// Whether `record` delegates `qname` or a name above it: it is of kind NS
/// and its owner's name stands at the end of `qname`.
pub open spec fn delegates(record: RecordView, qname: Seq<char>) -> bool {
    record matches RecordView::NS { domain, .. } && ends_with(qname, domain)
}

/// The address of the first record of kind A among `records`.
pub open spec fn first_address(records: Seq<RecordView>) -> Option<u32>
    decreases records.len(),
{
    if records.len() == 0 {
        None
    } else {
        match records[0] {
            RecordView::A { addr, .. } => Some(addr),
            _ => first_address(records.skip(1)),
        }
    }
}

/// The address of the first record of kind A among `records` that `host`
/// owns.
pub open spec fn glue(records: Seq<RecordView>, host: Seq<char>) -> Option<u32>
    decreases records.len(),
{
    if records.len() == 0 {
        None
    } else {
        match records[0] {
            RecordView::A { domain, addr, .. } if domain == host => Some(addr),
            _ => glue(records.skip(1), host),
        }
    }
}

/// The address of the first name server among `authorities` that
/// delegates `qname` and whose address is among `resources`.
pub open spec fn resolved_ns(
    authorities: Seq<RecordView>,
    resources: Seq<RecordView>,
    qname: Seq<char>,
) -> Option<u32>
    decreases authorities.len(),
{
    if authorities.len() == 0 {
        None
    } else if delegates(authorities[0], qname) && glue(resources, authorities[0]->NS_host)
        is Some {
        glue(resources, authorities[0]->NS_host)
    } else {
        resolved_ns(authorities.skip(1), resources, qname)
    }
}

/// The host name of the first name server among `authorities` that
/// delegates `qname` and whose address is not among `resources`.
pub open spec fn unresolved_ns(
    authorities: Seq<RecordView>,
    resources: Seq<RecordView>,
    qname: Seq<char>,
) -> Option<Seq<char>>
    decreases authorities.len(),
{
    if authorities.len() == 0 {
        None
    } else if delegates(authorities[0], qname) && glue(resources, authorities[0]->NS_host)
        is None {
        Some(authorities[0]->NS_host)
    } else {
        unresolved_ns(authorities.skip(1), resources, qname)
    }
}

impl PacketView {
    /// This message with the counts of its header set to the lengths of
    /// its sections.
    pub open spec fn counted(self) -> PacketView {
        PacketView {
            header: DnsHeader {
                questions: count(self.questions.len()),
                answers: count(self.answers.len()),
                authoritative_entries: count(self.authorities.len()),
                resource_entries: count(self.resources.len()),
                ..self.header
            },
            ..self
        }
    }

    /// This message with each label of its names in lower case.
    pub open spec fn lowered(self) -> PacketView {
        PacketView {
            header: self.header,
            questions: self.questions.map_values(|q: QuestionView| q.lowered()),
            answers: self.answers.map_values(|r: RecordView| r.lowered()),
            authorities: self.authorities.map_values(|r: RecordView| r.lowered()),
            resources: self.resources.map_values(|r: RecordView| r.lowered()),
        }
    }

    /// The message is one that can come off the wire: the fields of its
    /// header fit their places, the header counts the entries of each
    /// section, and every question and record is sound.
    pub open spec fn wf(self) -> bool {
        &&& self.header.wf()
        &&& self.header.questions == self.questions.len()
        &&& self.header.answers == self.answers.len()
        &&& self.header.authoritative_entries == self.authorities.len()
        &&& self.header.resource_entries == self.resources.len()
        &&& forall|i: int| 0 <= i < self.questions.len() ==> (#[trigger] self.questions[i]).sound()
        &&& records_sound(self.answers)
        &&& records_sound(self.authorities)
        &&& records_sound(self.resources)
    }

    /// The last thing in the message is a name: the data of the last
    /// record of its last section that is not empty.
    pub open spec fn ends_with_name(self) -> bool {
        if self.resources.len() > 0 {
            self.resources.last().ends_with_name()
        } else if self.authorities.len() > 0 {
            self.authorities.last().ends_with_name()
        } else if self.answers.len() > 0 {
            self.answers.last().ends_with_name()
        } else {
            false
        }
    }

    /// The pieces that the message is written as, in their order: the
    /// header, the questions, and the records of the three sections.
    pub open spec fn pieces(self) -> Seq<Piece> {
        seq![Piece::plain(self.header.wire())] + (question_pieces(self.questions) + (record_pieces(
            self.answers,
        ) + (record_pieces(self.authorities) + record_pieces(self.resources))))
    }

    /// What writing the message at `pos` leaves.
    pub open spec fn emit(self, pos: int) -> Emission {
        emit_all(self.pieces(), pos)
    }

    /// The message on the wire: its pieces one after the other.
    pub open spec fn wire(self) -> Seq<u8> {
        wires(self.pieces())
    }

    /// The message at `pos`: the header, and then as many questions and
    /// records of each section as the header counts.
    #[verifier::opaque]
    pub open spec fn at(buf: Seq<u8>, pos: int) -> Parsed<PacketView> {
        if pos + HEADER_LEN > CAPACITY {
            Parsed {
                cursor: pos + taken(pos, HEADER_LEN as int),
                outcome: Err(BufferError::BufferOverflow),
            }
        } else {
            let header = DnsHeader::at(buf, pos);
            let q = questions_at(buf, pos + HEADER_LEN, header.questions as nat);
            match q.outcome {
                Err(e) => Parsed { cursor: q.cursor, outcome: Err(e) },
                Ok(questions) => {
                    let an = records_at(buf, q.cursor, header.answers as nat);
                    match an.outcome {
                        Err(e) => Parsed { cursor: an.cursor, outcome: Err(e) },
                        Ok(answers) => {
                            let au = records_at(
                                buf,
                                an.cursor,
                                header.authoritative_entries as nat,
                            );
                            match au.outcome {
                                Err(e) => Parsed { cursor: au.cursor, outcome: Err(e) },
                                Ok(authorities) => {
                                    let ad = records_at(
                                        buf,
                                        au.cursor,
                                        header.resource_entries as nat,
                                    );
                                    match ad.outcome {
                                        Err(e) => Parsed { cursor: ad.cursor, outcome: Err(e) },
                                        Ok(resources) => Parsed {
                                            cursor: ad.cursor,
                                            outcome: Ok(
                                                PacketView {
                                                    header,
                                                    questions,
                                                    answers,
                                                    authorities,
                                                    resources,
                                                },
                                            ),
                                        },
                                    }
                                },
                            }
                        },
                    }
                },
            }
        }
    }
}

/// Reads `n` questions at the cursor.
fn read_questions(buffer: &mut BytePacketBuffer, n: u16) -> (r: Result<
    Vec<DnsQuestion>,
    BufferError,
>)
    ensures
        final(buffer).buf@ == old(buffer).buf@,
        final(buffer).pos == questions_at(
            old(buffer).buf@,
            old(buffer).pos as int,
            n as nat,
        ).cursor,
        match r {
            Ok(questions) => questions_at(
                old(buffer).buf@,
                old(buffer).pos as int,
                n as nat,
            ).outcome == Ok::<Seq<QuestionView>, BufferError>(question_views(questions@)),
            Err(e) => questions_at(old(buffer).buf@, old(buffer).pos as int, n as nat).outcome
                == Err::<Seq<QuestionView>, BufferError>(e),
        },
{
    let mut questions: Vec<DnsQuestion> = Vec::new();
    let ghost buf = buffer.buf@;
    let ghost total = questions_at(buf, buffer.pos as int, n as nat);
    let mut i: u16 = 0;
    proof {
        assert(question_views(questions@) =~= Seq::empty());
        assert(total.after(Seq::empty()).outcome == total.outcome) by {
            if let Ok(items) = total.outcome {
                assert(Seq::<QuestionView>::empty() + items =~= items);
            }
        }
    }
    while i < n
        invariant
            i <= n,
            buffer.buf@ == buf,
            buf == old(buffer).buf@,
            total == questions_at(buf, old(buffer).pos as int, n as nat),
            total == questions_at(buf, buffer.pos as int, (n - i) as nat).after(
                question_views(questions@),
            ),
        decreases n - i,
    {
        let ghost before = question_views(questions@);
        let ghost first = QuestionView::blank().read_at(buf, buffer.pos as int);
        let mut question = DnsQuestion::new(String::new(), QueryType::UNKNOWN(0));
        assert(question@ == QuestionView::blank());
        question.read(buffer)?;
        questions.push(question);
        proof {
            let rest = questions_at(buf, buffer.pos as int, (n - i - 1) as nat);
            assert(question_views(questions@) =~= before.push(first.question));
            if let Ok(items) = rest.outcome {
                assert(before + (seq![first.question] + items) =~= before.push(first.question)
                    + items);
            }
        }
        i += 1;
    }
    proof {
        assert(question_views(questions@) + Seq::<QuestionView>::empty() =~= question_views(
            questions@,
        ));
    }
    Ok(questions)
}

/// Reads `n` records at the cursor.
fn read_records(buffer: &mut BytePacketBuffer, n: u16) -> (r: Result<Vec<DnsRecord>, BufferError>)
    ensures
        final(buffer).buf@ == old(buffer).buf@,
        final(buffer).pos == records_at(old(buffer).buf@, old(buffer).pos as int, n as nat).cursor,
        match r {
            Ok(records) => records_at(old(buffer).buf@, old(buffer).pos as int, n as nat).outcome
                == Ok::<Seq<RecordView>, BufferError>(record_views(records@)),
            Err(e) => records_at(old(buffer).buf@, old(buffer).pos as int, n as nat).outcome
                == Err::<Seq<RecordView>, BufferError>(e),
        },
{
    let mut records: Vec<DnsRecord> = Vec::new();
    let ghost buf = buffer.buf@;
    let ghost total = records_at(buf, buffer.pos as int, n as nat);
    let mut i: u16 = 0;
    proof {
        assert(record_views(records@) =~= Seq::empty());
        assert(total.after(Seq::empty()).outcome == total.outcome) by {
            if let Ok(items) = total.outcome {
                assert(Seq::<RecordView>::empty() + items =~= items);
            }
        }
    }
    while i < n
        invariant
            i <= n,
            buffer.buf@ == buf,
            buf == old(buffer).buf@,
            total == records_at(buf, old(buffer).pos as int, n as nat),
            total == records_at(buf, buffer.pos as int, (n - i) as nat).after(
                record_views(records@),
            ),
        decreases n - i,
    {
        let ghost before = record_views(records@);
        let rec = DnsRecord::read(buffer)?;
        let ghost view = rec@;
        records.push(rec);
        proof {
            let rest = records_at(buf, buffer.pos as int, (n - i - 1) as nat);
            assert(record_views(records@) =~= before.push(view));
            if let Ok(items) = rest.outcome {
                assert(before + (seq![view] + items) =~= before.push(view) + items);
            }
        }
        i += 1;
    }
    proof {
        assert(record_views(records@) + Seq::<RecordView>::empty() =~= record_views(records@));
    }
    Ok(records)
}

/// Writes the questions one after the other.
fn write_questions(buffer: &mut BytePacketBuffer, questions: &Vec<DnsQuestion>) -> (r: Result<
    (),
    BufferError,
>)
    ensures
        emit_all(question_pieces(question_views(questions@)), old(buffer).pos as int).done(
            old(buffer),
            final(buffer),
            r,
        ),
{
    let ghost pieces = question_pieces(question_views(questions@));
    let ghost mut done = Seq::<u8>::empty();
    let mut i: usize = 0;
    proof {
        buffer.lemma_streamed_nothing();
        assert(pieces.skip(0) =~= pieces);
        let total = emit_all(pieces, buffer.pos as int);
        assert(total.after(done) == total) by {
            assert(done + total.bytes =~= total.bytes);
        }
    }
    while i < questions.len()
        invariant
            i <= questions.len(),
            pieces == question_pieces(question_views(questions@)),
            old(buffer).streamed(buffer, done),
            buffer.pos == old(buffer).pos + done.len(),
            emit_all(pieces, old(buffer).pos as int) == emit_all(
                pieces.skip(i as int),
                buffer.pos as int,
            ).after(done),
        decreases questions.len() - i,
    {
        let ghost e = pieces[i as int].emit(buffer.pos as int);
        proof {
            assert(pieces[i as int] == questions[i as int]@.piece());
            lemma_emit_next(*old(buffer), *buffer, done, pieces, i as int);
        }
        questions[i].write(buffer)?;
        proof {
            done = done + e.bytes;
        }
        i += 1;
    }
    proof {
        assert(done + Seq::<u8>::empty() =~= done);
    }
    Ok(())
}

/// Writes the records one after the other.
fn write_records(buffer: &mut BytePacketBuffer, records: &Vec<DnsRecord>) -> (r: Result<
    (),
    BufferError,
>)
    ensures
        emit_all(record_pieces(record_views(records@)), old(buffer).pos as int).done(
            old(buffer),
            final(buffer),
            r,
        ),
{
    let ghost pieces = record_pieces(record_views(records@));
    let ghost mut done = Seq::<u8>::empty();
    let mut i: usize = 0;
    proof {
        buffer.lemma_streamed_nothing();
        assert(pieces.skip(0) =~= pieces);
        let total = emit_all(pieces, buffer.pos as int);
        assert(total.after(done) == total) by {
            assert(done + total.bytes =~= total.bytes);
        }
    }
    while i < records.len()
        invariant
            i <= records.len(),
            pieces == record_pieces(record_views(records@)),
            old(buffer).streamed(buffer, done),
            buffer.pos == old(buffer).pos + done.len(),
            emit_all(pieces, old(buffer).pos as int) == emit_all(
                pieces.skip(i as int),
                buffer.pos as int,
            ).after(done),
        decreases records.len() - i,
    {
        let ghost e = pieces[i as int].emit(buffer.pos as int);
        proof {
            assert(pieces[i as int] == records[i as int]@.piece());
            records[i as int]@.lemma_piece_wf();
            lemma_emit_next(*old(buffer), *buffer, done, pieces, i as int);
        }
        records[i].write(buffer)?;
        proof {
            done = done + e.bytes;
        }
        i += 1;
    }
    proof {
        assert(done + Seq::<u8>::empty() =~= done);
    }
    Ok(())
}

/// Whether `end` stands at the end of `whole`.
fn str_ends_with(whole: &str, end: &str) -> (r: bool)
    ensures
        r == ends_with(whole@, end@),
{
    proof {
        lemma_ends_with_encoded(whole@, end@);
    }
    let a = whole.as_bytes();
    let b = end.as_bytes();
    if b.len() > a.len() {
        return false;
    }
    let offset = a.len() - b.len();
    let mut i: usize = 0;
    while i < b.len()
        invariant
            i <= b.len(),
            offset + b.len() == a.len(),
            a@ == whole.spec_bytes(),
            b@ == end.spec_bytes(),
            ends_with(a@, b@) <==> ends_with(whole@, end@),
            forall|j: int| 0 <= j < i ==> a@[offset + j] == b@[j],
        decreases b.len() - i,
    {
        if a[offset + i] != b[i] {
            assert(a@.subrange(offset as int, a@.len() as int)[i as int] != b@[i as int]);
            return false;
        }
        i += 1;
    }
    assert(a@.subrange(offset as int, a@.len() as int) =~= b@);
    true
}

impl DnsPacket {
    /// A message with a blank header and no entries.
    pub fn new() -> (p: DnsPacket)
        ensures
            p.header == DnsHeader::new_spec(),
            p.questions@.len() == 0,
            p.answers@.len() == 0,
            p.authorities@.len() == 0,
            p.resources@.len() == 0,
    {
        DnsPacket {
            header: DnsHeader::new(),
            questions: Vec::new(),
            answers: Vec::new(),
            authorities: Vec::new(),
            resources: Vec::new(),
        }
    }

    /// Reads the message at the cursor: the header, and then as many
    /// questions and records of each section as the header counts. Fails
    /// as reading the first entry that cannot be read does.
    pub fn from_buffer(buffer: &mut BytePacketBuffer) -> (r: Result<DnsPacket, BufferError>)
        ensures
            final(buffer).buf@ == old(buffer).buf@,
            final(buffer).pos == PacketView::at(old(buffer).buf@, old(buffer).pos as int).cursor,
            match r {
                Ok(packet) => PacketView::at(old(buffer).buf@, old(buffer).pos as int).outcome
                    == Ok::<PacketView, BufferError>(packet@),
                Err(e) => PacketView::at(old(buffer).buf@, old(buffer).pos as int).outcome
                    == Err::<PacketView, BufferError>(e),
            },
    {
        proof {
            reveal(PacketView::at);
        }
        let mut result = DnsPacket::new();
        result.header.read(buffer)?;

        result.questions = read_questions(buffer, result.header.questions)?;
        result.answers = read_records(buffer, result.header.answers)?;
        result.authorities = read_records(buffer, result.header.authoritative_entries)?;
        result.resources = read_records(buffer, result.header.resource_entries)?;

        Ok(result)
    }

    /// Sets the counts of the header to the lengths of the sections and
    /// writes the message at the cursor: the header, the questions, the
    /// answers, the authority records and the additional records. Fails
    /// as writing the first entry that cannot be written does; what comes
    /// before the failure has been written.
    pub fn write(&mut self, buffer: &mut BytePacketBuffer) -> (r: Result<(), BufferError>)
        ensures
            final(self)@ == old(self)@.counted(),
            final(self).questions == old(self).questions,
            final(self).answers == old(self).answers,
            final(self).authorities == old(self).authorities,
            final(self).resources == old(self).resources,
            final(self)@.emit(old(buffer).pos as int).done(old(buffer), final(buffer), r),
    {
        self.header.questions = (self.questions.len() % 0x1_0000) as u16;
        self.header.answers = (self.answers.len() % 0x1_0000) as u16;
        self.header.authoritative_entries = (self.authorities.len() % 0x1_0000) as u16;
        self.header.resource_entries = (self.resources.len() % 0x1_0000) as u16;

        let ghost nil = Seq::<u8>::empty();
        let ghost head = seq![Piece::plain(self.header.wire())];
        let ghost qs = question_pieces(self@.questions);
        let ghost an = record_pieces(self@.answers);
        let ghost au = record_pieces(self@.authorities);
        let ghost ad = record_pieces(self@.resources);
        let ghost whole = self@.emit(buffer.pos as int);
        let ghost e0 = emit_all(head, buffer.pos as int);
        proof {
            self.header.lemma_wire_len();
            buffer.lemma_streamed_nothing();
            lemma_emit_plain(self.header.wire(), buffer.pos as int);
            lemma_emit_step(*old(buffer), *buffer, nil, head, qs + (an + (au + ad)));
            assert(whole.after(nil) == whole) by {
                assert(nil + whole.bytes =~= whole.bytes);
            }
            assert(e0.after(nil) == e0) by {
                assert(nil + e0.bytes =~= e0.bytes);
            }
        }
        self.header.write(buffer)?;

        let ghost d1 = nil + e0.bytes;
        let ghost e1 = emit_all(qs, buffer.pos as int);
        proof {
            lemma_pieces_wf_questions(self@.questions);
            lemma_emit_step(*old(buffer), *buffer, d1, qs, an + (au + ad));
        }
        write_questions(buffer, &self.questions)?;

        let ghost d2 = d1 + e1.bytes;
        let ghost e2 = emit_all(an, buffer.pos as int);
        proof {
            lemma_pieces_wf_records(self@.answers);
            lemma_emit_step(*old(buffer), *buffer, d2, an, au + ad);
        }
        write_records(buffer, &self.answers)?;

        let ghost d3 = d2 + e2.bytes;
        let ghost e3 = emit_all(au, buffer.pos as int);
        proof {
            lemma_pieces_wf_records(self@.authorities);
            lemma_emit_step(*old(buffer), *buffer, d3, au, ad);
        }
        write_records(buffer, &self.authorities)?;

        let ghost d4 = d3 + e3.bytes;
        let ghost e4 = emit_all(ad, buffer.pos as int);
        proof {
            lemma_pieces_wf_records(self@.resources);
            lemma_emit_step(*old(buffer), *buffer, d4, ad, Seq::empty());
            assert(ad + Seq::<Piece>::empty() =~= ad);
        }
        write_records(buffer, &self.resources)?;
        proof {
            assert(d4 + e4.bytes + nil =~= d4 + e4.bytes);
        }

        Ok(())
    }

    /// The address of the first record of kind A in the answer section.
    pub fn get_random_a(&self) -> (r: Option<u32>)
        ensures
            r == first_address(self@.answers),
    {
        let ghost all = self@.answers;
        let mut i: usize = 0;
        assert(all.skip(0) =~= all);
        while i < self.answers.len()
            invariant
                i <= self.answers.len(),
                all == self@.answers,
                first_address(all) == first_address(all.skip(i as int)),
            decreases self.answers.len() - i,
        {
            proof {
                assert(all.skip(i as int)[0] == self.answers[i as int]@);
                assert(all.skip(i as int).skip(1) =~= all.skip(i + 1));
            }
            if let DnsRecord::A { addr, .. } = &self.answers[i] {
                return Some(*addr);
            }
            i += 1;
        }
        None
    }

    /// The address of the first record of kind A among the additional
    /// records that `host` owns.
    fn find_glue(&self, host: &String) -> (r: Option<u32>)
        ensures
            r == glue(self@.resources, host@),
    {
        let ghost all = self@.resources;
        let mut i: usize = 0;
        assert(all.skip(0) =~= all);
        while i < self.resources.len()
            invariant
                i <= self.resources.len(),
                all == self@.resources,
                glue(all, host@) == glue(all.skip(i as int), host@),
            decreases self.resources.len() - i,
        {
            proof {
                assert(all.skip(i as int)[0] == self.resources[i as int]@);
                assert(all.skip(i as int).skip(1) =~= all.skip(i + 1));
            }
            if let DnsRecord::A { domain, addr, .. } = &self.resources[i] {
                if *domain == *host {
                    return Some(*addr);
                }
            }
            i += 1;
        }
        None
    }

    /// The address of the next name server to ask for `qname`: of the
    /// authority records of kind NS whose owner's name ends `qname`, the
    /// first whose host owns a record of kind A among the additional
    /// records; of those, the address of the first.
    pub fn get_resolved_ns(&self, qname: &str) -> (r: Option<u32>)
        ensures
            r == resolved_ns(self@.authorities, self@.resources, qname@),
    {
        let ghost all = self@.authorities;
        let mut i: usize = 0;
        assert(all.skip(0) =~= all);
        while i < self.authorities.len()
            invariant
                i <= self.authorities.len(),
                all == self@.authorities,
                resolved_ns(all, self@.resources, qname@) == resolved_ns(
                    all.skip(i as int),
                    self@.resources,
                    qname@,
                ),
            decreases self.authorities.len() - i,
        {
            proof {
                assert(all.skip(i as int)[0] == self.authorities[i as int]@);
                assert(all.skip(i as int).skip(1) =~= all.skip(i + 1));
            }
            if let DnsRecord::NS { domain, host, .. } = &self.authorities[i] {
                if str_ends_with(qname, domain.as_str()) {
                    if let Some(addr) = self.find_glue(host) {
                        return Some(addr);
                    }
                }
            }
            i += 1;
        }
        None
    }

    /// The host name of a name server for `qname` whose address has yet
    /// to be found: of the authority records of kind NS whose owner's name
    /// ends `qname`, the host of the first that owns no record of kind A
    /// among the additional records.
    pub fn get_unresolved_ns(&self, qname: &str) -> (r: Option<String>)
        ensures
            match r {
                Some(host) => unresolved_ns(self@.authorities, self@.resources, qname@) == Some(
                    host@,
                ),
                None => unresolved_ns(self@.authorities, self@.resources, qname@) is None,
            },
    {
        let ghost all = self@.authorities;
        let mut i: usize = 0;
        assert(all.skip(0) =~= all);
        while i < self.authorities.len()
            invariant
                i <= self.authorities.len(),
                all == self@.authorities,
                unresolved_ns(all, self@.resources, qname@) == unresolved_ns(
                    all.skip(i as int),
                    self@.resources,
                    qname@,
                ),
            decreases self.authorities.len() - i,
        {
            proof {
                assert(all.skip(i as int)[0] == self.authorities[i as int]@);
                assert(all.skip(i as int).skip(1) =~= all.skip(i + 1));
            }
            if let DnsRecord::NS { domain, host, .. } = &self.authorities[i] {
                if str_ends_with(qname, domain.as_str()) {
                    if self.find_glue(host).is_none() {
                        return Some(host.clone());
                    }
                }
            }
            i += 1;
        }
        None
    }
}

/// The draft of a question is the question.
pub proof fn lemma_pieces_wf_questions(questions: Seq<QuestionView>)
    ensures
        pieces_wf(question_pieces(questions)),
{
}

/// The draft of a record that can be written is as long as the record.
pub proof fn lemma_pieces_wf_records(records: Seq<RecordView>)
    ensures
        pieces_wf(record_pieces(records)),
{
    assert forall|i: int| 0 <= i < records.len() implies (#[trigger] record_pieces(
        records,
    )[i]).wf() by {
        records[i].lemma_piece_wf();
    }
}

} // verus!
