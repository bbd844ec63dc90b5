//! Errors reported by the bus.
use vstd::prelude::*;

verus! {

/// An instruction frame could not be encoded.
#[derive(Debug, Clone, Copy, PartialEq, Eq, Structural)]
pub enum WriteError {
    /// The stuffed frame does not fit in the write buffer.
    BufferTooSmall { capacity: usize },
    /// The stuffed body is too long for the 16-bit length field.
    MessageTooLarge { body_len: usize },
}

/// A status frame could not be read.
#[derive(Debug, Clone, Copy, PartialEq, Eq, Structural)]
pub enum ReadError {
    /// No complete frame arrived before the deadline.
    Timeout,
    /// The frame announced is longer than the read buffer can ever hold.
    BufferTooSmall { required: usize, capacity: usize },
    /// The length field is too small for a status frame.
    InvalidLength { length: u16 },
    /// The checksum in the frame differs from the one computed over it.
    InvalidChecksum { message: u16, computed: u16 },
    /// The frame does not carry the status instruction.
    InvalidInstruction { actual: u8, expected: u8 },
    /// The device reported an error.
    MotorError { code: u8 },
}

/// A request/response exchange failed.
#[derive(Debug, Clone, Copy, PartialEq, Eq, Structural)]
pub enum TransferError {
    Write(WriteError),
    Read(ReadError),
    /// The reply came with another packet ID than the one addressed.
    InvalidPacketId { actual: u8, expected: u8 },
}

/// Checks that a reply carries the packet ID that was addressed.
pub fn check_packet_id(actual: u8, expected: u8) -> (r: Result<(), TransferError>)
    ensures
        actual == expected <==> r is Ok,
        actual != expected ==> r == Err::<(), TransferError>(
            TransferError::InvalidPacketId { actual, expected },
        ),
{
    if actual == expected {
        Ok(())
    } else {
        Err(TransferError::InvalidPacketId { actual, expected })
    }
}

} // verus!
