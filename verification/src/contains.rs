//! Containment checks: does an address lie in a network?

use vstd::prelude::*;
use vstd::string::*;
use crate::error::{ErrorView, IpCalcError, Result};
use crate::ipv4::{
    ipv4_cidr_value, ipv4_text, ipv4_text_value, ipv4_to_string, parse_ipv4_str, push_ipv4,
    Ipv4Subnet,
};
use crate::ipv6::{
    ipv6_cidr_value, ipv6_text, ipv6_text_value, ipv6_to_string, parse_ipv6_str, push_ipv6,
    Ipv6Subnet,
};
use crate::space::{ipv4_mask, ipv6_mask, mask_v4, mask_v6};
use crate::text::{decimal_text, push_decimal};

verus! {

/// The answer to a containment check, with the network it was checked
/// against.
#[derive(Debug, Clone, PartialEq, Eq)]
pub struct ContainsResult {
    /// The network in CIDR notation, host bits cleared.
    pub cidr: String,
    /// The address as it was given.
    pub address: String,
    /// Whether the address lies in the network.
    pub contained: bool,
    /// First address of the network.
    pub network_address: String,
    /// Last address of the network.
    pub broadcast_address: String,
}

/// A containment answer with its texts as character sequences.
pub struct ContainsView {
    pub cidr: Seq<char>,
    pub address: Seq<char>,
    pub contained: bool,
    pub network_address: Seq<char>,
    pub broadcast_address: Seq<char>,
}

impl View for ContainsResult {
    type V = ContainsView;

    open spec fn view(&self) -> ContainsView {
        ContainsView {
            cidr: self.cidr@,
            address: self.address@,
            contained: self.contained,
            network_address: self.network_address@,
            broadcast_address: self.broadcast_address@,
        }
    }
}

/// A result of a containment check with its value and its error as views.
pub open spec fn contains_outcome(r: Result<ContainsResult>) -> core::result::Result<
    ContainsView,
    ErrorView,
> {
    match r {
        Ok(c) => Ok(c@),
        Err(e) => Err(e@),
    }
}

/// What the IPv4 containment check answers. The CIDR is read first, so its
/// errors come before those of the address. The address is contained when
/// it equals the network under the network's mask.
pub open spec fn ipv4_contains_value(cidr: Seq<char>, address: Seq<char>) -> core::result::Result<
    ContainsView,
    ErrorView,
> {
    match ipv4_cidr_value(cidr) {
        Err(e) => Err(e),
        Ok((addr, prefix)) => match ipv4_text_value(address) {
            None => Err(ErrorView::InvalidIpv4Address(address)),
            Some(x) => {
                let mask = mask_v4(prefix);
                let network = addr & mask;
                Ok(
                    ContainsView {
                        cidr: ipv4_text(network) + seq!['/'] + decimal_text(prefix as nat),
                        address: address,
                        contained: x & mask == network,
                        network_address: ipv4_text(network),
                        broadcast_address: ipv4_text(network | !mask),
                    },
                )
            },
        },
    }
}

/// What the IPv6 containment check answers.
pub open spec fn ipv6_contains_value(cidr: Seq<char>, address: Seq<char>) -> core::result::Result<
    ContainsView,
    ErrorView,
> {
    match ipv6_cidr_value(cidr) {
        Err(e) => Err(e),
        Ok((addr, prefix)) => match ipv6_text_value(address) {
            None => Err(ErrorView::InvalidIpv6Address(address)),
            Some(x) => {
                let mask = mask_v6(prefix);
                let network = addr & mask;
                Ok(
                    ContainsView {
                        cidr: ipv6_text(network) + seq!['/'] + decimal_text(prefix as nat),
                        address: address,
                        contained: x & mask == network,
                        network_address: ipv6_text(network),
                        broadcast_address: ipv6_text(network | !mask),
                    },
                )
            },
        },
    }
}

/// Checks whether an IPv4 address lies in a network given in CIDR notation.
pub fn check_ipv4_contains(cidr: &str, address: &str) -> (r: Result<ContainsResult>)
    ensures
        contains_outcome(r) == ipv4_contains_value(cidr@, address@),
{
    let subnet = match Ipv4Subnet::from_cidr(cidr) {
        Ok(s) => s,
        Err(e) => {
            return Err(e);
        },
    };
    let addr = match parse_ipv4_str(address) {
        Some(a) => a,
        None => {
            return Err(IpCalcError::InvalidIpv4Address(address.to_owned()));
        },
    };
    let mask = ipv4_mask(subnet.prefix_length);
    let contained = (addr & mask) == (subnet.network & mask);
    proof {
        let m = mask_v4(subnet.prefix_length);
        let a = ipv4_cidr_value(cidr@)->Ok_0.0;
        assert((a & m) & m == a & m) by (bit_vector);
    }
    let mut text = String::new();
    push_ipv4(&mut text, subnet.network);
    proof {
        reveal_strlit("/");
    }
    text.append("/");
    push_decimal(&mut text, subnet.prefix_length as u128);
    assert(text@ =~= ipv4_text(subnet.network) + seq!['/'] + decimal_text(
        subnet.prefix_length as nat,
    ));
    Ok(
        ContainsResult {
            cidr: text,
            address: address.to_owned(),
            contained,
            network_address: ipv4_to_string(subnet.network),
            broadcast_address: ipv4_to_string(subnet.broadcast),
        },
    )
}

/// Checks whether an IPv6 address lies in a network given in CIDR notation.
pub fn check_ipv6_contains(cidr: &str, address: &str) -> (r: Result<ContainsResult>)
    ensures
        contains_outcome(r) == ipv6_contains_value(cidr@, address@),
{
    let subnet = match Ipv6Subnet::from_cidr(cidr) {
        Ok(s) => s,
        Err(e) => {
            return Err(e);
        },
    };
    let addr = match parse_ipv6_str(address) {
        Some(a) => a,
        None => {
            return Err(IpCalcError::InvalidIpv6Address(address.to_owned()));
        },
    };
    let mask = ipv6_mask(subnet.prefix_length);
    let contained = (addr & mask) == (subnet.network & mask);
    proof {
        let m = mask_v6(subnet.prefix_length);
        let a = ipv6_cidr_value(cidr@)->Ok_0.0;
        assert((a & m) & m == a & m) by (bit_vector);
    }
    let mut text = String::new();
    push_ipv6(&mut text, subnet.network);
    proof {
        reveal_strlit("/");
    }
    text.append("/");
    push_decimal(&mut text, subnet.prefix_length as u128);
    assert(text@ =~= ipv6_text(subnet.network) + seq!['/'] + decimal_text(
        subnet.prefix_length as nat,
    ));
    Ok(
        ContainsResult {
            cidr: text,
            address: address.to_owned(),
            contained,
            network_address: ipv6_to_string(subnet.network),
            broadcast_address: ipv6_to_string(subnet.last),
        },
    )
}

} // verus!
