//! The decisions of an iterative resolver. The resolver asks no name
//! server itself: it says which question to send where, is handed the
//! response, and says what to do next.

use vstd::prelude::*;
use crate::dns_header::DnsHeader;
use crate::dns_packet::{first_address, resolved_ns, unresolved_ns, DnsPacket, PacketView};
use crate::dns_question::DnsQuestion;
use crate::query_type::QueryType;
use crate::result_code::ResultCode;

verus! {

/// The address of the root name server at which every resolution starts:
/// 198.41.0.4.
pub const ROOT_SERVER: u32 = 0xC629_0004;

/// The id of the queries that the resolver sends.
pub const QUERY_ID: u16 = 6666;

/// What a response means for the resolution of a name.
#[derive(Debug, Clone, PartialEq, Eq)]
pub enum Verdict {
    /// The response is the result: it answers the question, or says that
    /// the name does not exist, or leads no further.
    Answer,
    /// The name server at this address is to be asked next.
    Follow(u32),
    /// The name server with this host name is to be asked next, once its
    /// address has been resolved.
    Resolve(String),
}

/// A verdict as a mathematical value.
pub enum VerdictView {
    Answer,
    Follow(u32),
    Resolve(Seq<char>),
}

impl View for Verdict {
    type V = VerdictView;

    open spec fn view(&self) -> VerdictView {
        match *self {
            Verdict::Answer => VerdictView::Answer,
            Verdict::Follow(addr) => VerdictView::Follow(addr),
            Verdict::Resolve(host) => VerdictView::Resolve(host@),
        }
    }
}

/// What `response` means for the resolution of `qname`. An answer section
/// that is not empty, together with the code for success, ends the
/// resolution, and so does the code for a name that does not exist. Else a
/// name server whose address the response holds is followed; else one
/// whose address it does not hold is resolved; else the response is all
/// there is.
pub open spec fn verdict(response: PacketView, qname: Seq<char>) -> VerdictView {
    if response.answers.len() > 0 && response.header.rescode == ResultCode::NOERROR {
        VerdictView::Answer
    } else if response.header.rescode == ResultCode::NXDOMAIN {
        VerdictView::Answer
    } else {
        match resolved_ns(response.authorities, response.resources, qname) {
            Some(addr) => VerdictView::Follow(addr),
            None => match unresolved_ns(response.authorities, response.resources, qname) {
                Some(host) => VerdictView::Resolve(host),
                None => VerdictView::Answer,
            },
        }
    }
}

/// What `response` means for the resolution of `qname`.
pub fn judge(response: &DnsPacket, qname: &str) -> (v: Verdict)
    ensures
        v@ == verdict(response@, qname@),
{
    if response.answers.len() > 0 && response.header.rescode == ResultCode::NOERROR {
        return Verdict::Answer;
    }
    if response.header.rescode == ResultCode::NXDOMAIN {
        return Verdict::Answer;
    }
    if let Some(new_ns) = response.get_resolved_ns(qname) {
        return Verdict::Follow(new_ns);
    }
    match response.get_unresolved_ns(qname) {
        Some(host) => Verdict::Resolve(host),
        None => Verdict::Answer,
    }
}

/// The message that asks `qname` and `qtype` of a name server: one
/// question, no recursion desired.
pub fn build_query(qname: &str, qtype: QueryType) -> (packet: DnsPacket)
    ensures
        packet.header == (DnsHeader { id: QUERY_ID, questions: 1, ..DnsHeader::new_spec() }),
        packet.questions@.len() == 1,
        packet.questions@[0].name@ == qname@,
        packet.questions@[0].qtype == qtype,
        packet.answers@.len() == 0,
        packet.authorities@.len() == 0,
        packet.resources@.len() == 0,
{
    let mut packet = DnsPacket::new();

    packet.header.id = QUERY_ID;
    packet.header.questions = 1;
    packet.header.recursion_desired = false;
    packet.questions.push(DnsQuestion::new(qname.to_owned(), qtype));
    packet
}

/// One resolution under way: the question, the name server to ask it of,
/// and, while the address of a name server is being resolved for it, the
/// response that named that server.
#[derive(Debug, Clone, PartialEq, Eq)]
pub struct Lookup {
    pub qname: String,
    pub qtype: QueryType,
    pub ns: u32,
    pub pending: Option<DnsPacket>,
}

/// A lookup as a mathematical value.
pub struct LookupView {
    pub qname: Seq<char>,
    pub qtype: QueryType,
    pub ns: u32,
    pub pending: Option<PacketView>,
}

impl View for Lookup {
    type V = LookupView;

    open spec fn view(&self) -> LookupView {
        LookupView {
            qname: self.qname@,
            qtype: self.qtype,
            ns: self.ns,
            pending: match self.pending {
                Some(p) => Some(p@),
                None => None,
            },
        }
    }
}

/// What the resolver wants done next.
#[derive(Debug, Clone, PartialEq, Eq)]
pub enum Action {
    /// This question is to be sent to the name server at `server`, and
    /// its response handed to the resolver.
    Query { qname: String, qtype: QueryType, server: u32 },
    /// The resolution has ended with this response.
    Done(DnsPacket),
}

/// An action as a mathematical value.
pub enum ActionView {
    Query { qname: Seq<char>, qtype: QueryType, server: u32 },
    Done(PacketView),
}

impl View for Action {
    type V = ActionView;

    open spec fn view(&self) -> ActionView {
        match *self {
            Action::Query { qname, qtype, server } => ActionView::Query {
                qname: qname@,
                qtype,
                server,
            },
            Action::Done(p) => ActionView::Done(p@),
        }
    }
}

/// The state of the resolver after a response, and what it wants done.
pub struct Turn {
    pub stack: Seq<LookupView>,
    pub action: ActionView,
}

impl LookupView {
    /// The query that this lookup sends.
    pub open spec fn query(self) -> ActionView {
        ActionView::Query { qname: self.qname, qtype: self.qtype, server: self.ns }
    }
}

/// Hands `result`, the outcome of a lookup that has ended, to the lookups
/// that wait for it, the innermost last in `stack`. Where none waits, the
/// resolution is done. A waiting lookup goes on at the first address that
/// the result holds; where it holds none, that lookup ends too, with the
/// response it had kept.
pub open spec fn deliver(stack: Seq<LookupView>, result: PacketView) -> Turn
    decreases stack.len(),
{
    if stack.len() == 0 {
        Turn { stack, action: ActionView::Done(result) }
    } else {
        let parent = stack.last();
        match first_address(result.answers) {
            Some(addr) => {
                let next = LookupView { ns: addr, pending: None, ..parent };
                Turn { stack: stack.drop_last().push(next), action: next.query() }
            },
            None => deliver(
                stack.drop_last(),
                match parent.pending {
                    Some(kept) => kept,
                    None => result,
                },
            ),
        }
    }
}

/// What the resolver does with `response`, the response to the query of
/// the innermost lookup, the last in `stack`.
pub open spec fn step(stack: Seq<LookupView>, response: PacketView) -> Turn {
    if stack.len() == 0 {
        Turn { stack, action: ActionView::Done(response) }
    } else {
        let top = stack.last();
        match verdict(response, top.qname) {
            VerdictView::Answer => deliver(stack.drop_last(), response),
            VerdictView::Follow(addr) => {
                let next = LookupView { ns: addr, ..top };
                Turn { stack: stack.drop_last().push(next), action: next.query() }
            },
            VerdictView::Resolve(host) => {
                let kept = LookupView { pending: Some(response), ..top };
                let inner = LookupView {
                    qname: host,
                    qtype: QueryType::A,
                    ns: ROOT_SERVER,
                    pending: None,
                };
                Turn { stack: stack.drop_last().push(kept).push(inner), action: inner.query() }
            },
        }
    }
}

/// The lookups as mathematical values.
pub open spec fn lookup_views(stack: Seq<Lookup>) -> Seq<LookupView> {
    stack.map_values(|l: Lookup| l@)
}

/// An iterative resolver: the lookup that was asked for and, above it, the
/// lookups of name servers' addresses that it waits for, the innermost
/// last.
#[derive(Debug, Clone, PartialEq, Eq)]
pub struct Resolver {
    pub stack: Vec<Lookup>,
}

impl View for Resolver {
    type V = Seq<LookupView>;

    open spec fn view(&self) -> Seq<LookupView> {
        lookup_views(self.stack@)
    }
}

impl Resolver {
    /// A resolver for `qname` and `qtype`, and its first action: to ask
    /// the root name server.
    pub fn new(qname: &str, qtype: QueryType) -> (r: (Resolver, Action))
        ensures
            r.0@ == seq![
                LookupView { qname: qname@, qtype, ns: ROOT_SERVER, pending: None },
            ],
            r.1@ == r.0@[0].query(),
    {
        let mut stack: Vec<Lookup> = Vec::new();
        stack.push(Lookup { qname: qname.to_owned(), qtype, ns: ROOT_SERVER, pending: None });
        let resolver = Resolver { stack };
        assert(resolver@ =~= seq![
            LookupView { qname: qname@, qtype, ns: ROOT_SERVER, pending: None },
        ]);
        (resolver, Action::Query { qname: qname.to_owned(), qtype, server: ROOT_SERVER })
    }

    /// Takes `response`, the response to the query that the resolver
    /// asked for last, and says what is to be done next.
    pub fn advance(&mut self, response: DnsPacket) -> (action: Action)
        ensures
            final(self)@ == step(old(self)@, response@).stack,
            action@ == step(old(self)@, response@).action,
    {
        let ghost before = self@;
        let mut top = match self.stack.pop() {
            Some(top) => top,
            None => {
                assert(self@ =~= before);
                return Action::Done(response);
            },
        };
        assert(top@ == before.last());
        assert(self@ =~= before.drop_last());
        match judge(&response, top.qname.as_str()) {
            Verdict::Follow(addr) => {
                top.ns = addr;
                let action = Action::Query {
                    qname: top.qname.clone(),
                    qtype: top.qtype,
                    server: addr,
                };
                let ghost next = top@;
                self.stack.push(top);
                assert(self@ =~= before.drop_last().push(next));
                action
            },
            Verdict::Resolve(host) => {
                top.pending = Some(response);
                let ghost kept = top@;
                self.stack.push(top);
                let action = Action::Query {
                    qname: host.clone(),
                    qtype: QueryType::A,
                    server: ROOT_SERVER,
                };
                let inner = Lookup {
                    qname: host,
                    qtype: QueryType::A,
                    ns: ROOT_SERVER,
                    pending: None,
                };
                let ghost inner_view = inner@;
                self.stack.push(inner);
                assert(self@ =~= before.drop_last().push(kept).push(inner_view));
                action
            },
            Verdict::Answer => self.hand_up(response),
        }
    }

    /// Hands `outcome`, the result of the lookup that has just ended, to
    /// the lookups that wait for it.
    fn hand_up(&mut self, outcome: DnsPacket) -> (action: Action)
        ensures
            final(self)@ == deliver(old(self)@, outcome@).stack,
            action@ == deliver(old(self)@, outcome@).action,
    {
        let ghost whole = deliver(self@, outcome@);
        let mut result = outcome;
        loop
            invariant
                whole == deliver(old(self)@, outcome@),
                whole == deliver(self@, result@),
            decreases self.stack.len(),
        {
            let ghost waiting = self@;
            let mut parent = match self.stack.pop() {
                Some(parent) => parent,
                None => {
                    assert(self@ =~= waiting);
                    return Action::Done(result);
                },
            };
            assert(parent@ == waiting.last());
            assert(self@ =~= waiting.drop_last());
            match result.get_random_a() {
                Some(addr) => {
                    parent.ns = addr;
                    parent.pending = None;
                    let action = Action::Query {
                        qname: parent.qname.clone(),
                        qtype: parent.qtype,
                        server: addr,
                    };
                    let ghost next = parent@;
                    self.stack.push(parent);
                    assert(self@ =~= waiting.drop_last().push(next));
                    return action;
                },
                None => {
                    if let Some(kept) = parent.pending {
                        result = kept;
                    }
                },
            }
        }
    }

    /// A response with the code for a name that does not exist ends the
    /// resolution that was asked for at once, as the result, whatever its
    /// authority and additional sections hold.
    pub proof fn lemma_no_such_name_ends(lookup: LookupView, response: PacketView)
        requires
            response.header.rescode == ResultCode::NXDOMAIN,
        ensures
            verdict(response, lookup.qname) == VerdictView::Answer,
            step(seq![lookup], response) == (Turn {
                stack: Seq::empty(),
                action: ActionView::Done(response),
            }),
    {
        assert(seq![lookup].drop_last() =~= Seq::<LookupView>::empty());
    }

    /// A response that answers the question with success ends the
    /// resolution that was asked for, as the result.
    pub proof fn lemma_answer_ends(lookup: LookupView, response: PacketView)
        requires
            response.header.rescode == ResultCode::NOERROR,
            response.answers.len() > 0,
        ensures
            step(seq![lookup], response) == (Turn {
                stack: Seq::empty(),
                action: ActionView::Done(response),
            }),
    {
        assert(seq![lookup].drop_last() =~= Seq::<LookupView>::empty());
    }
}

} // verus!
