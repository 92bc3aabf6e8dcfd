//! CIDR parsing shared by the daemons and by the generator that writes their configs.

use crate::common::addr;
use crate::common::addr::IpAddr;
use crate::text;
use vstd::prelude::*;

verus! {

/// Why a text is not a CIDR.
#[derive(Clone, Copy, Debug, PartialEq, Eq, Structural)]
pub enum CidrError {
    MissingSlash,
    InvalidAddress,
    InvalidPrefix,
    PrefixTooLong,
}

/// The address and the prefix length that `s` spells: `<addr>/<prefix>`, for either family.
pub open spec fn cidr_text(s: Seq<char>) -> Result<(IpAddr, u8), CidrError> {
    let k = text::find_from(s, '/', 0);
    if k >= s.len() {
        Err(CidrError::MissingSlash)
    } else {
        match (addr::ip_text(s.take(k)), text::uint(s.skip(k + 1), 255)) {
            (None, _) => Err(CidrError::InvalidAddress),
            (_, None) => Err(CidrError::InvalidPrefix),
            (Some(a), Some(p)) => if p > (if a is V4 {
                32int
            } else {
                128
            }) {
                Err(CidrError::PrefixTooLong)
            } else {
                Ok((a, p as u8))
            },
        }
    }
}

/// Parses `"<addr>/<prefix>"` for either address family.
pub fn parse_cidr(cidr: &str) -> (r: Result<(IpAddr, u8), CidrError>)
    ensures
        r == cidr_text(cidr@),
        r matches Ok((a, p)) ==> p <= (if a is V4 {
            32int
        } else {
            128
        }),
{
    let v = text::chars_of(cidr);
    let k: usize = text::find(v.as_slice(), '/', 0);
    if k >= v.len() {
        return Err(CidrError::MissingSlash);
    }
    let head = text::copy(v.as_slice(), 0, k);
    assert(head@ =~= cidr@.take(k as int));
    let tail = text::copy(v.as_slice(), k + 1, v.len());
    assert(tail@ =~= cidr@.skip(k + 1));
    let a = match addr::parse_ip_chars(head.as_slice()) {
        Some(a) => a,
        None => {
            return Err(CidrError::InvalidAddress);
        },
    };
    let p: u64 = match text::parse_uint(tail.as_slice(), 255) {
        Some(p) => p,
        None => {
            return Err(CidrError::InvalidPrefix);
        },
    };
    let max: u64 = if a.is_ipv4() {
        32
    } else {
        128
    };
    if p > max {
        return Err(CidrError::PrefixTooLong);
    }
    Ok((a, p as u8))
}

/// `"<addr>/<prefix>"`.
pub open spec fn cidr_format(a: IpAddr, prefix: u8) -> Seq<char> {
    addr::ip_format(a) + seq!['/'] + text::decimal(prefix as int)
}

/// The text form of an address with a prefix length.
pub fn format_cidr(a: IpAddr, prefix: u8) -> (s: String)
    ensures
        s@ == cidr_format(a, prefix),
{
    let mut s = String::new();
    addr::push_ip(&mut s, a);
    s.push('/');
    text::push_decimal(&mut s, prefix as u64);
    assert(s@ =~= cidr_format(a, prefix));
    s
}

} // verus!
