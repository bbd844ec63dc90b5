//! A driver core for a half-duplex serial bus that speaks a Dynamixel-style
//! protocol: frame encoding, byte stuffing, checksums, resynchronisation of the
//! read buffer and decoding of status frames.
//!
//! The caller owns the byte stream: it sends the frames that
//! [`bus::Bus::write_instruction`] encodes, and hands received bytes to
//! [`bus::Bus::receive`] until a whole status frame is buffered.
pub mod bytestuff;
pub mod checksum;
pub mod error;
pub mod bus;
pub mod laws;
