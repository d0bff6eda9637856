//! Addresses that only hold for a moment: a one-time code, computed from a
//! shared secret and the time, fills the last digits of an IPv6 address.
//!
//! - `totp` computes the code of a secret for a time.
//! - `codec` fills a code into an address template, and makes a template
//!   from an address.
//! - `address` reads the text of an IPv6 address.
//! - `plan` goes from a secret, the time and a resolved host to the address
//!   to connect to.
//! - `relay` and `pump` say how a session over that connection runs: the
//!   caller moves the bytes, and they decide what is done next.

pub mod address;
pub mod codec;
pub mod error;
pub mod plan;
pub mod pump;
pub mod relay;
pub mod text;
pub mod totp;
