pub mod bytes;
pub mod header;
pub mod message;
pub mod name;

use vstd::prelude::*;

verus! {

/// The error kinds the codec can report: every decode or encode failure is
/// one of these, and no codec function panics.
#[derive(Clone, Copy, Debug, PartialEq, Eq, Structural)]
pub enum DnsError {
    /// Fewer bytes remain than a fixed-size field or a declared length requires.
    Truncated,
    /// A label length runs past the buffer end, or a pointer chain cycles
    /// or points forward.
    MalformedName,
    /// A record of a known type declares an rdata length other than the
    /// fixed size that type consumes: 4 bytes for a type 1 address record,
    /// 16 bytes for a type 28 one.
    MalformedRecord,
    /// A name to encode is empty, has a label over 63 bytes, or holds a
    /// non-ASCII character.
    InvalidDomain,
}

} // verus!
