//! Outcomes of single transfers between this process and the target.

use vstd::prelude::*;

verus! {

/// Why one read or write of target memory gave no usable result.
///
/// An access error is never fatal: the value at that address is simply
/// unknown.
#[derive(Clone, Copy, Debug, PartialEq, Eq, Structural)]
pub enum AccessError {
    /// The operating system refused the transfer, with this error number.
    Refused { errno: i32 },
    /// Fewer bytes were moved than were asked for.
    Partial { wanted: usize, moved: usize },
}

impl AccessError {
    /// The error in words.
    pub open spec fn spec_message(self) -> Seq<char> {
        match self {
            AccessError::Refused { .. } => "the transfer was refused"@,
            AccessError::Partial { .. } => "the transfer stopped short"@,
        }
    }

    /// The error in words.
    pub fn message(&self) -> (text: &'static str)
        ensures
            text@ == self.spec_message(),
    {
        match self {
            AccessError::Refused { .. } => "the transfer was refused",
            AccessError::Partial { .. } => "the transfer stopped short",
        }
    }
}

/// What a read into `buffer` amounts to, given what the operating system
/// reported of the transfer: the number of bytes it moved, or an error
/// number. Only a transfer that filled the whole buffer is a read.
pub open spec fn read_outcome(buffer: Vec<u8>, moved: Result<usize, i32>) -> Result<
    Vec<u8>,
    AccessError,
> {
    match moved {
        Err(errno) => Err(AccessError::Refused { errno }),
        Ok(count) => if count == buffer@.len() {
            Ok(buffer)
        } else {
            Err(AccessError::Partial { wanted: buffer@.len() as usize, moved: count })
        },
    }
}

/// What a write of `wanted` bytes amounts to, given what the operating
/// system reported of the transfer.
pub open spec fn write_outcome(wanted: usize, moved: Result<usize, i32>) -> Result<
    (),
    AccessError,
> {
    match moved {
        Err(errno) => Err(AccessError::Refused { errno }),
        Ok(count) => if count == wanted {
            Ok(())
        } else {
            Err(AccessError::Partial { wanted, moved: count })
        },
    }
}

/// A buffer of `length` zero bytes for a read to fill.
pub fn read_buffer(length: usize) -> (buffer: Vec<u8>)
    ensures
        buffer@.len() == length,
        forall|i: int| 0 <= i < length ==> buffer@[i] == 0,
{
    vec![0u8; length]
}

/// Judges a finished read: the bytes count only if the transfer filled the
/// buffer. A short or failed transfer is an error and yields no bytes.
pub fn finish_read(buffer: Vec<u8>, moved: Result<usize, i32>) -> (read: Result<
    Vec<u8>,
    AccessError,
>)
    ensures
        read == read_outcome(buffer, moved),
{
    match moved {
        Err(errno) => Err(AccessError::Refused { errno }),
        Ok(count) => {
            if count == buffer.len() {
                Ok(buffer)
            } else {
                Err(AccessError::Partial { wanted: buffer.len(), moved: count })
            }
        },
    }
}

/// Judges a finished write of `wanted` bytes.
pub fn finish_write(wanted: usize, moved: Result<usize, i32>) -> (written: Result<(), AccessError>)
    ensures
        written == write_outcome(wanted, moved),
{
    match moved {
        Err(errno) => Err(AccessError::Refused { errno }),
        Ok(count) => {
            if count == wanted {
                Ok(())
            } else {
                Err(AccessError::Partial { wanted, moved: count })
            }
        },
    }
}

} // verus!
