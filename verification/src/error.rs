//! The failures that setting up a machine can end in.

use vstd::prelude::*;

verus! {

/// One of the four streams of key material.
#[derive(Clone, Copy, Debug, PartialEq, Eq, Structural)]
pub enum KeyStream {
    /// The reflector's mapping, in one line.
    Reflector,
    /// The rotors' wirings, one to a line.
    Wirings,
    /// The rotors' cursors, one to a line.
    Cursors,
    /// The plugboard's pairs, one to a line.
    Plugboard,
}

/// Why setting up a machine from key material was refused.
#[derive(Clone, Copy, Debug, PartialEq, Eq, Structural)]
pub enum CipherError {
    /// A record of the stream could not be read or written: a malformed
    /// pair line, an unparseable number, list or mapping, or a stream
    /// without any record.
    Format(KeyStream),
    /// The number of persisted rotors differs from the number asked for.
    CountMismatch,
    /// A cursor does not point into its rotor's wiring.
    InvalidCursor,
    /// A plugboard pair starts with a symbol that is already wired.
    DuplicateKey,
    /// A plugboard pair ends with a symbol that is already wired.
    DuplicateValue,
}

} // verus!
