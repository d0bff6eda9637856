//! From a secret, the time and what a host name resolved to, to the address
//! to connect to.

use crate::address::{address_of, Ipv6Address};
use crate::codec::{
    derived_template, fill_template, fmt_ipv6_expanded, keyed_text, lemma_substitute_derived,
    substituted,
};
use crate::error::Error;
use crate::text::to_chars;
use crate::totp::{code_at, generate, is_secret, window_of, STEP_SECONDS};
use vstd::prelude::*;

verus! {

/// One address that a host name resolved to.
#[derive(Clone, Copy, Debug, PartialEq, Eq)]
pub enum Candidate {
    /// An IPv4 address, by its four octets.
    V4([u8; 4]),
    /// An IPv6 address.
    V6(Ipv6Address),
}

/// Where to connect, and how it was found.
#[derive(Debug)]
pub struct Target {
    /// The address that the host name resolved to.
    pub resolved: Ipv6Address,
    /// The template made from it.
    pub template: String,
    /// The address to connect to: the template with the code filled in.
    pub address: Ipv6Address,
    /// The port to connect to.
    pub port: u16,
}

/// The address that `template` spells at the time `now`, once the code of
/// `secret` is filled in.
pub open spec fn replaced_address(secret: Seq<char>, template: Seq<char>, now: u64) -> Result<
    Seq<u16>,
    Error,
> {
    if !is_secret(secret) {
        Err(Error::ConfigError)
    } else {
        match substituted(template, code_at(secret, window_of(now, STEP_SECONDS))) {
            Ok(text) => Ok(address_of(text)->0),
            Err(e) => Err(e),
        }
    }
}

/// The first IPv6 address among the candidates.
pub open spec fn first_v6(candidates: Seq<Candidate>) -> Option<Ipv6Address>
    decreases candidates.len(),
{
    if candidates.len() == 0 {
        None
    } else {
        match candidates[0] {
            Candidate::V6(address) => Some(address),
            Candidate::V4(_) => first_v6(candidates.drop_first()),
        }
    }
}

/// Computes the code of `secret` for the time `now`, in seconds since the
/// epoch, fills it into the template `ip`, and reads the result as an
/// address.
///
/// A secret that is not usable is a `ConfigError`; after that, the
/// errors are those of filling the template.
pub fn build_replaced_ip(secret: &str, ip: &str, now: u64) -> (r: Result<Ipv6Address, Error>)
    ensures
        match r {
            Ok(address) => replaced_address(secret@, ip@, now) == Ok::<Seq<u16>, Error>(
                address@,
            ),
            Err(e) => replaced_address(secret@, ip@, now) == Err::<Seq<u16>, Error>(e),
        },
        is_secret(secret@) ==> code_at(secret@, window_of(now, STEP_SECONDS)) <= 999_999,
{
    let code = match generate(secret, STEP_SECONDS, now) {
        Ok(code) => code,
        Err(e) => {
            return Err(e);
        },
    };
    let template = to_chars(ip);
    match fill_template(&template, code) {
        Ok((_, address)) => Ok(address),
        Err(e) => Err(e),
    }
}

/// The first IPv6 address among the candidates, if there is one.
pub fn first_ipv6(candidates: &Vec<Candidate>) -> (r: Option<Ipv6Address>)
    ensures
        r == first_v6(candidates@),
{
    let mut i: usize = 0;
    proof {
        assert(candidates@.skip(0) =~= candidates@);
    }
    while i < candidates.len()
        invariant
            i <= candidates.len(),
            first_v6(candidates@) == first_v6(candidates@.skip(i as int)),
        decreases candidates.len() - i,
    {
        proof {
            assert(candidates@.skip(i as int).drop_first() =~= candidates@.skip(i + 1));
        }
        match candidates[i] {
            Candidate::V6(address) => {
                return Some(address);
            },
            Candidate::V4(_) => {},
        }
        i += 1;
    }
    None
}

/// Chooses where to connect: takes the first IPv6 address among the
/// candidates, makes a template from it, and fills in the code of `secret`
/// for the time `now`.
///
/// Without an IPv6 candidate this is a `ResolutionError`; with one, a
/// secret that is not usable is a `ConfigError`. Nothing else fails.
pub fn connect_target(secret: &str, candidates: &Vec<Candidate>, port: u16, now: u64) -> (r:
    Result<Target, Error>)
    ensures
        match r {
            Ok(target) => {
                &&& first_v6(candidates@) == Some(target.resolved)
                &&& is_secret(secret@)
                &&& target.template@ == derived_template(target.resolved@)
                &&& address_of(
                    keyed_text(
                        target.resolved@,
                        code_at(secret@, window_of(now, STEP_SECONDS)),
                    ),
                ) == Some(target.address@)
                &&& target.port == port
            },
            Err(e) => if first_v6(candidates@) is None {
                e == Error::ResolutionError
            } else {
                !is_secret(secret@) && e == Error::ConfigError
            },
        },
{
    let resolved = match first_ipv6(candidates) {
        Some(address) => address,
        None => {
            return Err(Error::ResolutionError);
        },
    };
    let template = fmt_ipv6_expanded(&resolved);
    match build_replaced_ip(secret, template.as_str(), now) {
        Ok(address) => {
            proof {
                lemma_substitute_derived(
                    resolved@,
                    code_at(secret@, window_of(now, STEP_SECONDS)),
                );
            }
            Ok(Target { resolved, template, address, port })
        },
        Err(e) => {
            proof {
                if is_secret(secret@) {
                    lemma_substitute_derived(
                        resolved@,
                        code_at(secret@, window_of(now, STEP_SECONDS)),
                    );
                }
            }
            Err(e)
        },
    }
}

} // verus!
