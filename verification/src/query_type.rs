//! The types of queries and records.

use vstd::prelude::*;

verus! {

/// The type of a query or of a record. The types that the codec knows are
/// variants of their own; any other keeps its number.
#[allow(non_camel_case_types)]
#[derive(PartialEq, Eq, Debug, Clone, Hash, Copy, Structural)]
pub enum QueryType {
    UNKNOWN(u16),
    A,
    NS,
    CNAME,
    MX,
    AAAA,
}

impl QueryType {
    /// The number that stands for this type on the wire.
    pub open spec fn code(self) -> u16 {
        match self {
            QueryType::UNKNOWN(x) => x,
            QueryType::A => 1,
            QueryType::NS => 2,
            QueryType::CNAME => 5,
            QueryType::MX => 15,
            QueryType::AAAA => 28,
        }
    }

    /// The type that the number `num` stands for.
    pub open spec fn of(num: u16) -> QueryType {
        if num == 1 {
            QueryType::A
        } else if num == 2 {
            QueryType::NS
        } else if num == 5 {
            QueryType::CNAME
        } else if num == 15 {
            QueryType::MX
        } else if num == 28 {
            QueryType::AAAA
        } else {
            QueryType::UNKNOWN(num)
        }
    }

    /// A known type, or an unknown one whose number is not that of a known
    /// type: the form in which a type comes off the wire.
    pub open spec fn canonical(self) -> bool {
        QueryType::of(self.code()) == self
    }

    /// The number that stands for this type on the wire.
    pub fn to_num(&self) -> (num: u16)
        ensures
            num == self.code(),
    {
        match *self {
            QueryType::UNKNOWN(x) => x,
            QueryType::A => 1,
            QueryType::NS => 2,
            QueryType::CNAME => 5,
            QueryType::MX => 15,
            QueryType::AAAA => 28,
        }
    }

    /// The type that the number `num` stands for.
    pub fn from_num(num: u16) -> (t: QueryType)
        ensures
            t == QueryType::of(num),
    {
        match num {
            1 => QueryType::A,
            2 => QueryType::NS,
            5 => QueryType::CNAME,
            15 => QueryType::MX,
            28 => QueryType::AAAA,
            _ => QueryType::UNKNOWN(num),
        }
    }

    /// Every number comes back from the type that it stands for, and that
    /// type is in canonical form.
    pub proof fn lemma_code_of(num: u16)
        ensures
            QueryType::of(num).code() == num,
            QueryType::of(num).canonical(),
    {
    }
}

} // verus!
