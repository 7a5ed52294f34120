//! Networks in CIDR notation, as peers advertise them.

use vstd::prelude::*;
use cidr::IpCidr;
use crate::dash::CidrKey;

verus! {

/// The network that a text in CIDR notation denotes, if it denotes one.
pub uninterp spec fn parsed_cidr(text: Seq<char>) -> Option<CidrKey>;

/// `IpCidr::from_str`: parses a network in CIDR notation and hands out its
/// family, first address and prefix length. What text denotes which network
/// is the parser's business; the same text always denotes the same network.
#[verifier::external_body]
pub(crate) fn parse_cidr(text: &str) -> (r: Option<CidrKey>)
    ensures
        r == parsed_cidr(text@),
{
    match text.parse::<IpCidr>() {
        Ok(IpCidr::V4(c)) => Some((false, u128::from(u32::from(c.first_address())), c.network_length())),
        Ok(IpCidr::V6(c)) => Some((true, u128::from(c.first_address()), c.network_length())),
        Err(_) => None,
    }
}

/// The bits of an IPv4 address that a prefix of `len` bits fixes.
pub open spec fn v4_net_mask(len: u8) -> u32 {
    if len >= 32 {
        0xffff_ffffu32
    } else {
        !(0xffff_ffffu32 >> (len as u32))
    }
}

/// Whether `addr` lies in the network `key`: the network is an IPv4 network
/// and the address agrees with it on the bits of the prefix.
pub open spec fn cidr_covers(key: CidrKey, addr: u32) -> bool {
    !key.0 && ((key.1 as u32) & v4_net_mask(key.2)) == (addr & v4_net_mask(key.2))
}

/// Whether the IPv4 address `addr` lies in the network `key`.
pub fn cidr_contains(key: &CidrKey, addr: u32) -> (r: bool)
    ensures
        r == cidr_covers(*key, addr),
{
    if key.0 {
        return false;
    }
    let len = key.2;
    let net_mask: u32 = if len >= 32 {
        0xffff_ffffu32
    } else {
        !(0xffff_ffffu32 >> (len as u32))
    };
    let first: u32 = #[verifier::truncate]
    (key.1 as u32);
    (first & net_mask) == (addr & net_mask)
}

} // verus!
