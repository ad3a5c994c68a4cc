//! The failures of the packet buffer and of what reads and writes it.

use vstd::prelude::*;
use vstd::string::StringExecFns;

verus! {

/// Why an operation on a packet buffer failed.
#[derive(Clone, Copy, Debug, PartialEq, Eq, Structural, Hash)]
pub enum BufferError {
    /// A sequential read would pass the end of the buffer.
    BufferOverflow,
    /// Moving the cursor forward would pass the end of the buffer.
    Overflow,
    /// A random access lies outside the buffer.
    OutOfBounds,
    /// A sequential write found the cursor at the end of the buffer.
    EndOfBuffer,
    /// A name followed more than five compression pointers.
    TooManyJumps,
    /// A label of a name is longer than 63 bytes.
    LabelTooLong,
}

impl BufferError {
    /// The text that describes this failure.
    pub open spec fn text(self) -> Seq<char> {
        match self {
            BufferError::BufferOverflow => "Read past the end of the buffer"@,
            BufferError::Overflow => "Packet buffer overflow"@,
            BufferError::OutOfBounds => "Buffer position out of bounds"@,
            BufferError::EndOfBuffer => "End of buffer"@,
            BufferError::TooManyJumps => "Limit of 5 jumps exceeded"@,
            BufferError::LabelTooLong => "Single label exceeds 63 characters of length"@,
        }
    }

    /// A description of the failure, for logs and for callers that only
    /// pass a message on.
    pub fn message(&self) -> (s: String)
        ensures
            s@ == self.text(),
    {
        match self {
            BufferError::BufferOverflow => String::from_str("Read past the end of the buffer"),
            BufferError::Overflow => String::from_str("Packet buffer overflow"),
            BufferError::OutOfBounds => String::from_str("Buffer position out of bounds"),
            BufferError::EndOfBuffer => String::from_str("End of buffer"),
            BufferError::TooManyJumps => String::from_str("Limit of 5 jumps exceeded"),
            BufferError::LabelTooLong => String::from_str(
                "Single label exceeds 63 characters of length",
            ),
        }
    }
}

} // verus!
