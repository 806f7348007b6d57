//! Control software for a hardware production-test station that validates
//! a wireless receiver unit's antenna performance, motion sensors and
//! multi-direction reception before shipment.
//!
//! Two subsystems form the core. A serial-line command multiplexer gives
//! many logical callers safe, ordered, filtered access to one physical
//! device ([`uart`]). A binary request/response protocol and a per-unit
//! phase sequencer drive the antenna, sensor and eight-direction tests and
//! the derived angle statistics ([`codec`], [`station`], [`stats`]). The
//! surrounding program performs the socket, serial and file traffic and
//! feeds the observed events back into the state machines here.

pub mod codec;
pub mod conf;
pub mod crc;
pub mod jsonio;
pub mod logfile;
pub mod station;
pub mod stats;
pub mod strutil;
pub mod uart;

use vstd::prelude::*;

verus! {

/// Errors that a test-station operation can report.
#[derive(Debug, PartialEq, Eq, Structural)]
pub enum StationError {
    /// A received frame was malformed: wrong length or failed checksum.
    Decode,
    /// A serial command exhausted all of its retry attempts.
    CommandTimeout,
    /// The unit reported a status other than the success code.
    Application(u16),
    /// The device reached end of stream or failed on read or write.
    FatalIo,
    /// An invalid-character marker was seen in the serial line buffer.
    Framing,
}

} // verus!
