//! The one-time code: a number below a million that a shared secret and a
//! window of time determine.
//!
//! The secret is base32 text. The time, in seconds, is divided into windows
//! of a fixed length; the code is the same throughout a window.

use crate::error::Error;
use vstd::prelude::*;
use vstd::string::StringSliceAdditionalSpecFns;
use vstd::utf8::{is_ascii_chars, is_ascii_chars_encode_utf8};

verus! {

/// The length of a window, in seconds.
pub const STEP_SECONDS: u64 = 30;

/// The longest secret, in characters, that a code is computed from. The
/// hash behind the code takes no key of more bytes than this, and a key is
/// never longer than the secret that stands for it.
pub const MAX_SECRET_LEN: u64 = 0x1fff_ffff_ffff_ffff;

/// `otpauth::TOTP`, a generator of one-time codes that holds a key.
#[verifier::external_type_specification]
#[verifier::external_body]
pub struct ExTotp(otpauth::TOTP);

/// The key that a generator holds.
pub uninterp spec fn totp_key(totp: otpauth::TOTP) -> Seq<u8>;

/// The bytes that base32 text stands for.
pub uninterp spec fn base32_bytes(secret: Seq<char>) -> Seq<u8>;

/// The code that a key gives for a counter.
pub uninterp spec fn hotp_code(key: Seq<u8>, counter: u64) -> u32;

/// A character of the base32 alphabet: a capital letter or a digit from 2
/// to 7.
pub open spec fn is_base32_char(c: char) -> bool {
    'A' <= c <= 'Z' || '2' <= c <= '7'
}

/// Text made of base32 characters only.
pub open spec fn is_base32_text(secret: Seq<char>) -> bool {
    forall|i: int| 0 <= i < secret.len() ==> is_base32_char(#[trigger] secret[i])
}

/// A usable secret: base32 text of at most `MAX_SECRET_LEN` characters.
pub open spec fn is_secret(secret: Seq<char>) -> bool {
    is_base32_text(secret) && secret.len() <= MAX_SECRET_LEN
}

/// The window that the time `now` lies in, for windows of `step` seconds.
pub open spec fn window_of(now: u64, step: u64) -> u64 {
    (now / step) as u64
}

/// The code of a secret in a window.
pub open spec fn code_at(secret: Seq<char>, window: u64) -> u32 {
    hotp_code(base32_bytes(secret), window)
}

/// What `generate` gives: the code of the window, or the error for what is
/// no usable secret.
pub open spec fn generated(secret: Seq<char>, step: u64, now: u64) -> Result<u32, Error> {
    if is_secret(secret) {
        Ok(code_at(secret, window_of(now, step)))
    } else {
        Err(Error::ConfigError)
    }
}

/// `otpauth::TOTP::from_base32` decodes the secret as unpadded base32 of the
/// standard alphabet. It gives a generator exactly when every character is
/// of that alphabet. The generator's key is what the text decodes to, five
/// bytes for eight characters, so no longer than the text. The bound on the
/// text keeps the arithmetic on its length from overflowing.
#[verifier::external_body]
fn totp_from_base32(secret: &str) -> (r: Option<otpauth::TOTP>)
    requires
        secret.spec_bytes().len() <= MAX_SECRET_LEN,
    ensures
        r is Some <==> is_base32_text(secret@),
        r is Some ==> totp_key(r->0) == base32_bytes(secret@),
        r is Some ==> totp_key(r->0).len() <= secret@.len(),
{
    otpauth::TOTP::from_base32(secret)
}

/// `otpauth::TOTP::generate` divides the timestamp by the period, rounding
/// down, and computes the code of its key for that counter, which it
/// reduces modulo a million. It panics on a period of zero, and on a key
/// that is too long for the hash.
#[verifier::external_body]
fn totp_generate(totp: &otpauth::TOTP, period: u64, timestamp: u64) -> (code: u32)
    requires
        period > 0,
        totp_key(*totp).len() <= MAX_SECRET_LEN,
    ensures
        code == hotp_code(totp_key(*totp), window_of(timestamp, period)),
        code < 1_000_000,
{
    totp.generate(period, timestamp)
}

/// The one-time code of `secret` at the time `now_epoch_seconds`, counted in
/// seconds since the epoch, for windows of `step_seconds`.
///
/// The code is below a million. A secret that is not base32 text, or that
/// is longer than `MAX_SECRET_LEN`, is a `ConfigError`.
pub fn generate(secret: &str, step_seconds: u64, now_epoch_seconds: u64) -> (r: Result<
    u32,
    Error,
>)
    requires
        step_seconds > 0,
    ensures
        r == generated(secret@, step_seconds, now_epoch_seconds),
        r is Ok ==> r->Ok_0 <= 999_999,
{
    let length = secret.as_bytes().len();
    proof {
        if is_base32_text(secret@) {
            assert(is_ascii_chars(secret@)) by {
                assert forall|i: int| 0 <= i < secret@.len() implies '\0' <= (
                #[trigger] secret@[i]) <= '\u{7f}' by {
                    assert(is_base32_char(secret@[i]));
                }
            }
            is_ascii_chars_encode_utf8(secret@);
        }
    }
    if length as u64 > MAX_SECRET_LEN {
        return Err(Error::ConfigError);
    }
    match totp_from_base32(secret) {
        Some(totp) => Ok(totp_generate(&totp, step_seconds, now_epoch_seconds)),
        None => Err(Error::ConfigError),
    }
}

/// Two times in the same window give the same code.
pub proof fn lemma_same_window(secret: Seq<char>, step: u64, t1: u64, t2: u64)
    requires
        step > 0,
        t1 / step == t2 / step,
    ensures
        generated(secret, step, t1) == generated(secret, step, t2),
{
}

} // verus!
