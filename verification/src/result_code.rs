//! The response codes.

use vstd::prelude::*;

verus! {

/// The response code of a message: four bits of its header. The codes
/// that are in use are variants of their own; any other keeps its number.
#[allow(non_camel_case_types)]
#[derive(Copy, Clone, Debug, PartialEq, Eq, Hash, Structural)]
pub enum ResultCode {
    NOERROR,
    FORMERR,
    SERVFAIL,
    NXDOMAIN,
    NOTIMP,
    REFUSED,
    UNKNOWN(u8),
}

impl ResultCode {
    /// The number that stands for this code.
    pub open spec fn code(self) -> u8 {
        match self {
            ResultCode::NOERROR => 0,
            ResultCode::FORMERR => 1,
            ResultCode::SERVFAIL => 2,
            ResultCode::NXDOMAIN => 3,
            ResultCode::NOTIMP => 4,
            ResultCode::REFUSED => 5,
            ResultCode::UNKNOWN(x) => x,
        }
    }

    /// The code that the number `num` stands for.
    pub open spec fn of(num: u8) -> ResultCode {
        if num == 0 {
            ResultCode::NOERROR
        } else if num == 1 {
            ResultCode::FORMERR
        } else if num == 2 {
            ResultCode::SERVFAIL
        } else if num == 3 {
            ResultCode::NXDOMAIN
        } else if num == 4 {
            ResultCode::NOTIMP
        } else if num == 5 {
            ResultCode::REFUSED
        } else {
            ResultCode::UNKNOWN(num)
        }
    }

    /// The form in which a code comes off the wire: its number fits in
    /// four bits, and an unknown code does not hold the number of a known
    /// one.
    pub open spec fn canonical(self) -> bool {
        self.code() < 16 && ResultCode::of(self.code()) == self
    }

    /// The number that stands for this code.
    pub fn to_num(&self) -> (num: u8)
        ensures
            num == self.code(),
    {
        match *self {
            ResultCode::NOERROR => 0,
            ResultCode::FORMERR => 1,
            ResultCode::SERVFAIL => 2,
            ResultCode::NXDOMAIN => 3,
            ResultCode::NOTIMP => 4,
            ResultCode::REFUSED => 5,
            ResultCode::UNKNOWN(x) => x,
        }
    }

    /// The code that the number `num` stands for.
    pub fn from_num(num: u8) -> (c: ResultCode)
        ensures
            c == ResultCode::of(num),
    {
        match num {
            0 => ResultCode::NOERROR,
            1 => ResultCode::FORMERR,
            2 => ResultCode::SERVFAIL,
            3 => ResultCode::NXDOMAIN,
            4 => ResultCode::NOTIMP,
            5 => ResultCode::REFUSED,
            _ => ResultCode::UNKNOWN(num),
        }
    }

    /// Every number comes back from the code that it stands for.
    pub proof fn lemma_code_of(num: u8)
        ensures
            ResultCode::of(num).code() == num,
            num < 16 ==> ResultCode::of(num).canonical(),
    {
    }
}

} // verus!
