//! What the server makes of a request once the resolver has done its
//! work: the response that goes back to the client.

use vstd::prelude::*;
use crate::dns_header::DnsHeader;
use crate::dns_packet::DnsPacket;
use crate::dns_question::DnsQuestion;
use crate::result_code::ResultCode;

verus! {

/// How the handling of a request went.
#[derive(Debug, Clone, PartialEq, Eq)]
pub enum Outcome {
    /// The request held no question.
    NoQuestion,
    /// The question could not be resolved.
    Failed,
    /// The question, and the response that its resolution ended with.
    Resolved(DnsQuestion, DnsPacket),
}

/// The header of every response to the request with the id `id`: a
/// response, recursion desired and available, with the code `rescode`.
/// The counts are filled in when the response is written.
pub open spec fn response_header(id: u16, rescode: ResultCode) -> DnsHeader {
    DnsHeader {
        id,
        recursion_desired: true,
        recursion_available: true,
        response: true,
        rescode,
        ..DnsHeader::new_spec()
    }
}

/// Takes the question to answer out of `request`: the last one it holds.
pub fn take_question(request: &mut DnsPacket) -> (question: Option<DnsQuestion>)
    ensures
        final(request).header == old(request).header,
        final(request).answers == old(request).answers,
        final(request).authorities == old(request).authorities,
        final(request).resources == old(request).resources,
        match question {
            Some(q) => old(request).questions@.len() > 0 && q == old(request).questions@.last()
                && final(request).questions@ == old(request).questions@.drop_last(),
            None => old(request).questions@.len() == 0
                && final(request).questions@ == old(request).questions@,
        },
{
    request.questions.pop()
}

/// The response to the request with the id `id`. A question that was
/// resolved comes back with the code and the three record sections of the
/// result. One that could not be resolved gives the code for a server
/// failure, and a request without a question the code for a format error,
/// both with all sections empty.
pub fn respond(id: u16, outcome: Outcome) -> (packet: DnsPacket)
    ensures
        match outcome {
            Outcome::NoQuestion => packet.header == response_header(id, ResultCode::FORMERR)
                && packet.questions@.len() == 0 && packet.answers@.len() == 0
                && packet.authorities@.len() == 0 && packet.resources@.len() == 0,
            Outcome::Failed => packet.header == response_header(id, ResultCode::SERVFAIL)
                && packet.questions@.len() == 0 && packet.answers@.len() == 0
                && packet.authorities@.len() == 0 && packet.resources@.len() == 0,
            Outcome::Resolved(question, result) => packet.header == response_header(
                id,
                result.header.rescode,
            ) && packet.questions@ == seq![question] && packet.answers == result.answers
                && packet.authorities == result.authorities && packet.resources
                == result.resources,
        },
{
    let mut packet = DnsPacket::new();
    packet.header.id = id;
    packet.header.recursion_desired = true;
    packet.header.recursion_available = true;
    packet.header.response = true;

    match outcome {
        Outcome::Resolved(question, result) => {
            packet.questions.push(question);
            packet.header.rescode = result.header.rescode;
            packet.answers = result.answers;
            packet.authorities = result.authorities;
            packet.resources = result.resources;
            assert(packet.questions@ =~= seq![question]);
        },
        Outcome::Failed => {
            packet.header.rescode = ResultCode::SERVFAIL;
        },
        Outcome::NoQuestion => {
            packet.header.rescode = ResultCode::FORMERR;
        },
    }
    packet
}

} // verus!
