//! What can go wrong, by kind.

use vstd::prelude::*;

verus! {

/// One of the two directions in which a session carries bytes.
#[derive(Clone, Copy, Debug, PartialEq, Eq, Structural)]
pub enum Direction {
    /// From the connection to standard output.
    Inbound,
    /// From standard input to the connection.
    Outbound,
}

/// An I/O failure that ended one direction of a session.
#[derive(Clone, Copy, Debug, PartialEq, Eq, Structural)]
pub struct Failure {
    /// The direction that failed.
    pub direction: Direction,
    /// The operating system's error number, or 0 where it gave none.
    pub os_code: i32,
}

/// The kinds of error. Those up to `CodeOutOfRange` come before any
/// connection is attempted.
#[derive(Clone, Copy, Debug, PartialEq, Eq, Structural)]
pub enum Error {
    /// The secret is not usable: it is not base32 text, or too long.
    ConfigError,
    /// The host has no IPv6 address.
    ResolutionError,
    /// The template has more than six placeholders.
    TooManyPlaceholders,
    /// The template has fewer than six placeholders.
    TooFewPlaceholders,
    /// The template, once filled, does not spell an IPv6 address.
    InvalidAddress,
    /// The code has more than six decimal digits.
    CodeOutOfRange,
    /// The connection could not be opened.
    ConnectionError,
    /// A direction of the session failed; the first failure seen.
    RelayError(Failure),
}

} // verus!
