//! The entries of the question section.

use vstd::prelude::*;
use crate::buffer_error::BufferError;
use crate::byte_packet_buffer::BytePacketBuffer;
use crate::emission::Piece;
use crate::name::{
    lowered, name_cursor, name_text, text_fits, text_sound, text_wire, walk_name,
};
use crate::query_type::QueryType;
use crate::wire::{lemma_prefix_shorter, taken, word_at, word_bytes, CAPACITY};

verus! {

/// One entry of the question section: the name asked for and the type of
/// record wanted. The class is always 1, the Internet.
#[derive(Debug, Clone, PartialEq, Eq)]
pub struct DnsQuestion {
    pub name: String,
    pub qtype: QueryType,
}

/// A question as a mathematical value.
pub struct QuestionView {
    pub name: Seq<char>,
    pub qtype: QueryType,
}

impl View for DnsQuestion {
    type V = QuestionView;

    open spec fn view(&self) -> QuestionView {
        QuestionView { name: self.name@, qtype: self.qtype }
    }
}

/// What reading a question into an existing one yields: the question as
/// it then stands, where the cursor then stands, and the failure if there
/// was one.
pub struct QuestionRead {
    pub question: QuestionView,
    pub cursor: int,
    pub failure: Option<BufferError>,
}

impl QuestionView {
    /// What writing this question sends to the buffer: the name, the
    /// number of the type, and the class 1. It breaks off where the name
    /// does, before a label that is too long.
    #[verifier::opaque]
    pub open spec fn wire(self) -> Seq<u8> {
        if text_fits(self.name) {
            text_wire(self.name) + word_bytes(self.qtype.code()) + word_bytes(1)
        } else {
            text_wire(self.name)
        }
    }

    /// This question with each label of its name in lower case.
    pub open spec fn lowered(self) -> QuestionView {
        QuestionView { name: lowered(self.name), qtype: self.qtype }
    }

    /// The question is one that can come off the wire: the labels of its
    /// name are one to 63 bytes long, and its type is in the form in which
    /// it is read.
    pub open spec fn sound(self) -> bool {
        text_sound(self.name) && self.qtype.canonical()
    }

    /// This question as a piece of a message.
    pub open spec fn piece(self) -> Piece {
        Piece { draft: self.wire(), wire: self.wire(), writable: text_fits(self.name) }
    }

    /// The question that is read into: no name yet, and a type that is
    /// none.
    pub open spec fn blank() -> QuestionView {
        QuestionView { name: Seq::empty(), qtype: QueryType::UNKNOWN(0) }
    }

    /// Reads a question at `pos` into this one. The name read is appended
    /// to the name that is there; the type is replaced once it has been
    /// read; the class is read and dropped.
    #[verifier::opaque]
    pub open spec fn read_at(self, buf: Seq<u8>, pos: int) -> QuestionRead {
        let walk = walk_name(buf, pos, 0);
        let p = name_cursor(buf, pos, pos);
        let name = self.name + name_text(walk.labels);
        if walk.failure is Some {
            QuestionRead {
                question: QuestionView { name, qtype: self.qtype },
                cursor: p,
                failure: walk.failure,
            }
        } else if p + 2 > CAPACITY {
            QuestionRead {
                question: QuestionView { name, qtype: self.qtype },
                cursor: p + taken(p, 2),
                failure: Some(BufferError::BufferOverflow),
            }
        } else {
            QuestionRead {
                question: QuestionView { name, qtype: QueryType::of(word_at(buf, p)) },
                cursor: p + 2 + taken(p + 2, 2),
                failure: if p + 4 > CAPACITY {
                    Some(BufferError::BufferOverflow)
                } else {
                    None
                },
            }
        }
    }
}

impl DnsQuestion {
    /// A question for `name` and `qtype`.
    pub fn new(name: String, qtype: QueryType) -> (q: DnsQuestion)
        ensures
            q.name == name,
            q.qtype == qtype,
    {
        DnsQuestion { name: name, qtype: qtype }
    }

    /// Reads a question at the cursor into this one: the name, which is
    /// appended to the name that is there, the type, and the class, which
    /// is dropped. Fails as reading a name does, and with `BufferOverflow`
    /// if the buffer ends before the end of the class; what was read
    /// before the failure stays in the question.
    pub fn read(&mut self, buffer: &mut BytePacketBuffer) -> (r: Result<&mut Self, BufferError>)
        ensures
            final(buffer).buf@ == old(buffer).buf@,
            final(buffer).pos == old(self)@.read_at(
                old(buffer).buf@,
                old(buffer).pos as int,
            ).cursor,
            match r {
                Ok(s) => old(self)@.read_at(old(buffer).buf@, old(buffer).pos as int).failure
                    is None && s@ == old(self)@.read_at(
                    old(buffer).buf@,
                    old(buffer).pos as int,
                ).question && *final(self) == *final(s),
                Err(e) => old(self)@.read_at(old(buffer).buf@, old(buffer).pos as int).failure
                    == Some(e) && final(self)@ == old(self)@.read_at(
                    old(buffer).buf@,
                    old(buffer).pos as int,
                ).question,
            },
    {
        proof {
            reveal(QuestionView::read_at);
        }
        buffer.read_qname(&mut self.name)?;
        self.qtype = QueryType::from_num(buffer.read_word()?);
        let _ = buffer.read_word()?;
        Ok(self)
    }

    /// Writes this question at the cursor: the name, the number of the
    /// type, and the class 1. Fails as writing a name does, and with
    /// `EndOfBuffer` if the buffer ends before the end of the class; what
    /// comes before the failure has been written.
    pub fn write(&self, buffer: &mut BytePacketBuffer) -> (r: Result<(), BufferError>)
        ensures
            self@.piece().emit(old(buffer).pos as int).done(old(buffer), final(buffer), r),
    {
        let ghost nil = Seq::<u8>::empty();
        let ghost whole = self@.wire();
        let ghost w0 = nil + text_wire(self.name@);
        let ghost w1 = w0 + word_bytes(self.qtype.code());
        let ghost w2 = w1 + word_bytes(1);
        proof {
            reveal(QuestionView::wire);
            buffer.lemma_streamed_nothing();
            assert(w0 =~= text_wire(self.name@));
            if text_fits(self.name@) {
                assert(whole =~= w2);
                lemma_prefix_shorter(w1, word_bytes(1), whole);
                lemma_prefix_shorter(w0, word_bytes(self.qtype.code()), whole);
            }
            buffer.lemma_then_within(*old(buffer), nil, text_wire(self.name@), whole);
        }
        buffer.write_qname(self.name.as_str())?;
        let typenum = self.qtype.to_num();
        proof {
            buffer.lemma_then_within(*old(buffer), w0, word_bytes(typenum), whole);
        }
        buffer.write_word(typenum)?;
        proof {
            buffer.lemma_then_within(*old(buffer), w1, word_bytes(1), whole);
        }
        buffer.write_word(1)?;
        Ok(())
    }
}

} // verus!
