//! IPv4 subnets: the dotted-decimal grammar, the subnet derived from an
//! address and a prefix length, and its classification.

use vstd::prelude::*;
use vstd::string::*;
use vstd::arithmetic::power2::pow2;
use vstd::arithmetic::power2::lemma2_to64;
use vstd::bits::{lemma_u64_pow2_no_overflow, lemma_u64_shl_is_mul};
use crate::classify::{classify, first_label, rule_views, AddressRule, RuleView};
use crate::error::{ErrorView, IpCalcError, Result};
use crate::space::{
    block_base, block_last, ipv4_mask, lemma_mask_v4, lemma_network_v4, lemma_pow2_le,
    lemma_pow2_widths, mask_v4,
};
use crate::text::{
    address_chars, all_digits, byte_len, capped_u8, chars_of, decimal_text, find_char, first_index,
    is_digit, lemma_address_chars_concat, lemma_canonical_numeral, lemma_cidr_text_parts,
    lemma_decimal_address_chars, lemma_decimal_text, lemma_split_first, lemma_split_parts,
    lemma_split_whole, numeral_text_value, numeral_value, parse_capped_u8, parse_numeral,
    piece_views, push_decimal, slice_chars, split, split_chars, MAX_INPUT_LENGTH,
};

verus! {

/// The four octets of an address, most significant first.
pub open spec fn ipv4_octets(a: u32) -> (nat, nat, nat, nat) {
    ((a / 16777216) as nat, ((a / 65536) % 256) as nat, ((a / 256) % 256) as nat, (a % 256) as nat)
}

/// The dotted-decimal text of an address.
pub open spec fn ipv4_text(a: u32) -> Seq<char> {
    let o = ipv4_octets(a);
    decimal_text(o.0) + seq!['.'] + decimal_text(o.1) + seq!['.'] + decimal_text(o.2) + seq!['.']
        + decimal_text(o.3)
}

/// What one piece of a dotted-decimal address denotes: one to three decimal
/// digits, without a leading zero unless the piece is `0`, worth at most 255.
pub open spec fn octet_text_value(t: Seq<char>) -> Option<u8> {
    if 1 <= t.len() <= 3 && all_digits(t) && (t.len() == 1 || t[0] != '0') && numeral_value(t, 10)
        <= 255 {
        Some(numeral_value(t, 10) as u8)
    } else {
        None
    }
}

/// What a dotted-decimal text denotes: exactly four pieces between dots, each
/// an octet.
pub open spec fn ipv4_text_value(s: Seq<char>) -> Option<u32> {
    let p = split(s, '.');
    if p.len() == 4 && octet_text_value(p[0]) is Some && octet_text_value(p[1]) is Some
        && octet_text_value(p[2]) is Some && octet_text_value(p[3]) is Some {
        Some(
            (octet_text_value(p[0])->0 * 16777216 + octet_text_value(p[1])->0 * 65536
                + octet_text_value(p[2])->0 * 256 + octet_text_value(p[3])->0) as u32,
        )
    } else {
        None
    }
}

/// Appends the dotted-decimal text of `a`.
pub fn push_ipv4(out: &mut String, a: u32)
    ensures
        final(out)@ == old(out)@ + ipv4_text(a),
{
    proof {
        reveal_strlit(".");
    }
    push_decimal(out, (a / 16777216) as u128);
    out.append(".");
    push_decimal(out, ((a / 65536) % 256) as u128);
    out.append(".");
    push_decimal(out, ((a / 256) % 256) as u128);
    out.append(".");
    push_decimal(out, (a % 256) as u128);
    assert(out@ =~= old(out)@ + ipv4_text(a));
}

/// The dotted-decimal text of `a` as a string.
pub fn ipv4_to_string(a: u32) -> (r: String)
    ensures
        r@ == ipv4_text(a),
{
    let mut r = String::new();
    push_ipv4(&mut r, a);
    assert(r@ =~= ipv4_text(a));
    r
}

/// Reads one piece of a dotted-decimal address.
fn parse_octet(t: &Vec<char>) -> (r: Option<u8>)
    ensures
        r == octet_text_value(t@),
{
    if t.len() > 1 && t[0] == '0' {
        return None;
    }
    match parse_numeral(t, false, 3, 255) {
        Some(v) => Some(v as u8),
        None => None,
    }
}

/// Reads a dotted-decimal address.
pub fn parse_ipv4(s: &Vec<char>) -> (r: Option<u32>)
    ensures
        r == ipv4_text_value(s@),
{
    let pieces = split_chars(s, '.');
    assert(piece_views(pieces@).len() == pieces@.len());
    if pieces.len() != 4 {
        return None;
    }
    assert(piece_views(pieces@)[0] == pieces@[0]@);
    assert(piece_views(pieces@)[1] == pieces@[1]@);
    assert(piece_views(pieces@)[2] == pieces@[2]@);
    assert(piece_views(pieces@)[3] == pieces@[3]@);
    let o0 = parse_octet(&pieces[0]);
    let o1 = parse_octet(&pieces[1]);
    let o2 = parse_octet(&pieces[2]);
    let o3 = parse_octet(&pieces[3]);
    match (o0, o1, o2, o3) {
        (Some(a), Some(b), Some(c), Some(d)) => Some(
            (a as u32) * 16777216 + (b as u32) * 65536 + (c as u32) * 256 + (d as u32),
        ),
        _ => None,
    }
}

/// Reads a dotted-decimal address from a string slice.
pub fn parse_ipv4_str(s: &str) -> (r: Option<u32>)
    ensures
        r == ipv4_text_value(s@),
{
    let chars = chars_of(s);
    parse_ipv4(&chars)
}

/// The classification table of IPv4 networks, most specific ranges before
/// the ranges that hold them.
pub open spec fn ipv4_rule_table() -> Seq<RuleView> {
    seq![
        RuleView { mask: 0xff00_0000, value: 0x0000_0000, label: "Current Network (RFC 1122)"@ },
        RuleView { mask: 0xff00_0000, value: 0x0a00_0000, label: "Private (RFC 1918)"@ },
        RuleView { mask: 0xffc0_0000, value: 0x6440_0000, label: "Carrier-Grade NAT (RFC 6598)"@ },
        RuleView { mask: 0xff00_0000, value: 0x7f00_0000, label: "Loopback (RFC 1122)"@ },
        RuleView { mask: 0xffff_0000, value: 0xa9fe_0000, label: "Link-Local (RFC 3927)"@ },
        RuleView { mask: 0xfff0_0000, value: 0xac10_0000, label: "Private (RFC 1918)"@ },
        RuleView {
            mask: 0xffff_ff00,
            value: 0xc000_0200,
            label: "Documentation TEST-NET-1 (RFC 5737)"@,
        },
        RuleView {
            mask: 0xffff_ff00,
            value: 0xc000_0000,
            label: "IETF Protocol Assignments (RFC 6890)"@,
        },
        RuleView { mask: 0xffff_ff00, value: 0xc058_6300, label: "6to4 Relay Anycast (RFC 7526)"@ },
        RuleView { mask: 0xffff_0000, value: 0xc0a8_0000, label: "Private (RFC 1918)"@ },
        RuleView { mask: 0xfffe_0000, value: 0xc612_0000, label: "Benchmarking (RFC 2544)"@ },
        RuleView {
            mask: 0xffff_ff00,
            value: 0xc633_6400,
            label: "Documentation TEST-NET-2 (RFC 5737)"@,
        },
        RuleView {
            mask: 0xffff_ff00,
            value: 0xcb00_7100,
            label: "Documentation TEST-NET-3 (RFC 5737)"@,
        },
        RuleView { mask: 0xf000_0000, value: 0xe000_0000, label: "Multicast (RFC 5771)"@ },
        RuleView { mask: 0xf000_0000, value: 0xf000_0000, label: "Reserved (RFC 1112)"@ },
    ]
}

/// The kind of an IPv4 network: the label of the first matching row of the
/// table, `Public` where no row matches.
pub open spec fn ipv4_address_type(network: u32) -> Seq<char> {
    first_label(ipv4_rule_table(), network as u128, "Public"@)
}

/// The historical class of an address, by its first octet.
pub open spec fn ipv4_network_class(addr: u32) -> Seq<char> {
    let first = ipv4_octets(addr).0;
    if first <= 127 {
        "A"@
    } else if first <= 191 {
        "B"@
    } else if first <= 223 {
        "C"@
    } else if first <= 239 {
        "D (Multicast)"@
    } else {
        "E (Reserved)"@
    }
}

/// The address lies in a range that is not routed on the public internet:
/// 10/8, 172.16/12, 192.168/16, 100.64/10, 127/8 or 169.254/16.
pub open spec fn ipv4_is_private(addr: u32) -> bool {
    let o = ipv4_octets(addr);
    o.0 == 10 || (o.0 == 172 && 16 <= o.1 <= 31) || (o.0 == 192 && o.1 == 168) || (o.0 == 100 && 64
        <= o.1 <= 127) || o.0 == 127 || (o.0 == 169 && o.1 == 254)
}

/// Builds the IPv4 classification table.
pub fn ipv4_address_rules() -> (rules: Vec<AddressRule>)
    ensures
        rule_views(rules@) == ipv4_rule_table(),
{
    let mut rules: Vec<AddressRule> = Vec::new();
    rules.push(
        AddressRule { mask: 0xff00_0000, value: 0x0000_0000, label: "Current Network (RFC 1122)" },
    );
    rules.push(AddressRule { mask: 0xff00_0000, value: 0x0a00_0000, label: "Private (RFC 1918)" });
    rules.push(
        AddressRule {
            mask: 0xffc0_0000,
            value: 0x6440_0000,
            label: "Carrier-Grade NAT (RFC 6598)",
        },
    );
    rules.push(AddressRule { mask: 0xff00_0000, value: 0x7f00_0000, label: "Loopback (RFC 1122)" });
    rules.push(
        AddressRule { mask: 0xffff_0000, value: 0xa9fe_0000, label: "Link-Local (RFC 3927)" },
    );
    rules.push(AddressRule { mask: 0xfff0_0000, value: 0xac10_0000, label: "Private (RFC 1918)" });
    rules.push(
        AddressRule {
            mask: 0xffff_ff00,
            value: 0xc000_0200,
            label: "Documentation TEST-NET-1 (RFC 5737)",
        },
    );
    rules.push(
        AddressRule {
            mask: 0xffff_ff00,
            value: 0xc000_0000,
            label: "IETF Protocol Assignments (RFC 6890)",
        },
    );
    rules.push(
        AddressRule {
            mask: 0xffff_ff00,
            value: 0xc058_6300,
            label: "6to4 Relay Anycast (RFC 7526)",
        },
    );
    rules.push(AddressRule { mask: 0xffff_0000, value: 0xc0a8_0000, label: "Private (RFC 1918)" });
    rules.push(
        AddressRule { mask: 0xfffe_0000, value: 0xc612_0000, label: "Benchmarking (RFC 2544)" },
    );
    rules.push(
        AddressRule {
            mask: 0xffff_ff00,
            value: 0xc633_6400,
            label: "Documentation TEST-NET-2 (RFC 5737)",
        },
    );
    rules.push(
        AddressRule {
            mask: 0xffff_ff00,
            value: 0xcb00_7100,
            label: "Documentation TEST-NET-3 (RFC 5737)",
        },
    );
    rules.push(
        AddressRule { mask: 0xf000_0000, value: 0xe000_0000, label: "Multicast (RFC 5771)" },
    );
    rules.push(AddressRule { mask: 0xf000_0000, value: 0xf000_0000, label: "Reserved (RFC 1112)" });
    assert(rule_views(rules@) =~= ipv4_rule_table());
    rules
}

/// An IPv4 network with everything that follows from its address and prefix
/// length.
#[derive(Debug, Clone, PartialEq, Eq)]
pub struct Ipv4Subnet {
    /// The address and prefix length as they were given, in CIDR notation.
    pub input: String,
    /// First address of the block: the given address with its host bits cleared.
    pub network: u32,
    /// Last address of the block: the network with all host bits set.
    pub broadcast: u32,
    /// The network mask.
    pub mask: u32,
    /// The complement of the network mask.
    pub wildcard: u32,
    /// Number of leading bits that name the network.
    pub prefix_length: u8,
    /// First address that a host can have.
    pub first_host: u32,
    /// Last address that a host can have.
    pub last_host: u32,
    /// Number of addresses in the block.
    pub total_hosts: u64,
    /// Number of addresses that hosts can have.
    pub usable_hosts: u64,
    /// The historical class of the given address.
    pub network_class: String,
    /// Whether the given address lies in a private range.
    pub is_private: bool,
    /// The kind of the network, from the classification table.
    pub address_type: String,
}

/// An IPv4 subnet with its texts as character sequences.
pub struct Ipv4SubnetView {
    pub input: Seq<char>,
    pub network: u32,
    pub broadcast: u32,
    pub mask: u32,
    pub wildcard: u32,
    pub prefix_length: u8,
    pub first_host: u32,
    pub last_host: u32,
    pub total_hosts: u64,
    pub usable_hosts: u64,
    pub network_class: Seq<char>,
    pub is_private: bool,
    pub address_type: Seq<char>,
}

impl View for Ipv4Subnet {
    type V = Ipv4SubnetView;

    open spec fn view(&self) -> Ipv4SubnetView {
        Ipv4SubnetView {
            input: self.input@,
            network: self.network,
            broadcast: self.broadcast,
            mask: self.mask,
            wildcard: self.wildcard,
            prefix_length: self.prefix_length,
            first_host: self.first_host,
            last_host: self.last_host,
            total_hosts: self.total_hosts,
            usable_hosts: self.usable_hosts,
            network_class: self.network_class@,
            is_private: self.is_private,
            address_type: self.address_type@,
        }
    }
}

/// The subnet that an address and a prefix length of at most 32 determine.
///
/// The network is the address under the mask, the broadcast address is the
/// network with the wildcard bits set. A block holds `2^(32 - prefix)`
/// addresses; all but the first and the last are hosts, except that with a
/// prefix of 31 or 32 every address is one.
pub open spec fn ipv4_subnet_of(addr: u32, prefix: u8) -> Ipv4SubnetView {
    let mask = mask_v4(prefix);
    let network = addr & mask;
    let broadcast = network | !mask;
    let total = pow2((32 - prefix) as nat);
    Ipv4SubnetView {
        input: ipv4_text(addr) + seq!['/'] + decimal_text(prefix as nat),
        network: network,
        broadcast: broadcast,
        mask: mask,
        wildcard: !mask,
        prefix_length: prefix,
        first_host: if prefix >= 31 {
            network
        } else {
            (network + 1) as u32
        },
        last_host: if prefix >= 31 {
            broadcast
        } else {
            (broadcast - 1) as u32
        },
        total_hosts: total as u64,
        usable_hosts: if prefix >= 31 {
            total as u64
        } else {
            (total - 2) as u64
        },
        network_class: ipv4_network_class(addr),
        is_private: ipv4_is_private(addr),
        address_type: ipv4_address_type(network),
    }
}

/// The address and prefix length that a CIDR text denotes, or the error that
/// it earns. The text is cut at its first `/`; what stands before must be a
/// dotted-decimal address, what follows a decimal numeral. A numeral above
/// 32 is a prefix length out of range, whatever its size; the error carries
/// its value, and 255 in place of a larger one.
pub open spec fn ipv4_cidr_value(s: Seq<char>) -> core::result::Result<(u32, u8), ErrorView> {
    let i = first_index(s, '/');
    if byte_len(s) > MAX_INPUT_LENGTH {
        Err(ErrorView::InputTooLong { length: byte_len(s), limit: MAX_INPUT_LENGTH })
    } else if !(0 <= i < s.len()) {
        Err(ErrorView::InvalidCidr(s))
    } else if ipv4_text_value(s.take(i)) is None {
        Err(ErrorView::InvalidIpv4Address(s.take(i)))
    } else if numeral_text_value(s.skip(i + 1)) is None {
        Err(ErrorView::InvalidCidr(s))
    } else if numeral_text_value(s.skip(i + 1))->0 > 32 {
        Err(ErrorView::InvalidPrefixLength(capped_u8(numeral_text_value(s.skip(i + 1))->0)))
    } else {
        Ok((ipv4_text_value(s.take(i))->0, numeral_text_value(s.skip(i + 1))->0 as u8))
    }
}

/// The subnet that a CIDR text denotes, or the error that it earns.
pub open spec fn ipv4_cidr_subnet(s: Seq<char>) -> core::result::Result<Ipv4SubnetView, ErrorView> {
    match ipv4_cidr_value(s) {
        Ok((addr, prefix)) => Ok(ipv4_subnet_of(addr, prefix)),
        Err(e) => Err(e),
    }
}

/// A result of this library with its value and its error as views.
pub open spec fn ipv4_outcome(r: Result<Ipv4Subnet>) -> core::result::Result<
    Ipv4SubnetView,
    ErrorView,
> {
    match r {
        Ok(s) => Ok(s@),
        Err(e) => Err(e@),
    }
}

impl Ipv4Subnet {
    /// Reads a subnet in CIDR notation, such as `192.168.1.0/24`.
    ///
    /// A text of more than 256 bytes is refused unread. The address may have
    /// host bits set; the network is the address with those cleared.
    pub fn from_cidr(cidr: &str) -> (r: Result<Ipv4Subnet>)
        ensures
            ipv4_outcome(r) == ipv4_cidr_subnet(cidr@),
    {
        if cidr.len() > MAX_INPUT_LENGTH {
            return Err(IpCalcError::InputTooLong { length: cidr.len(), limit: MAX_INPUT_LENGTH });
        }
        let chars = chars_of(cidr);
        let i = find_char(&chars, '/');
        if i >= chars.len() {
            return Err(IpCalcError::InvalidCidr(cidr.to_owned()));
        }
        let addr_chars = slice_chars(&chars, 0, i);
        let prefix_chars = slice_chars(&chars, i + 1, chars.len());
        proof {
            assert(addr_chars@ =~= cidr@.take(i as int));
            assert(prefix_chars@ =~= cidr@.skip(i + 1));
        }
        let addr = match parse_ipv4(&addr_chars) {
            Some(a) => a,
            None => {
                let addr_text = cidr.substring_char(0, i);
                assert(addr_text@ =~= cidr@.take(i as int));
                return Err(IpCalcError::InvalidIpv4Address(addr_text.to_owned()));
            },
        };
        let prefix = match parse_capped_u8(&prefix_chars) {
            Some(p) => p,
            None => {
                return Err(IpCalcError::InvalidCidr(cidr.to_owned()));
            },
        };
        Ipv4Subnet::new(addr, prefix)
    }

    /// Derives the subnet of an address and a prefix length.
    pub fn new(addr: u32, prefix: u8) -> (r: Result<Ipv4Subnet>)
        ensures
            prefix <= 32 ==> ipv4_outcome(r) == Ok::<Ipv4SubnetView, ErrorView>(
                ipv4_subnet_of(addr, prefix),
            ),
            prefix > 32 ==> ipv4_outcome(r) == Err::<Ipv4SubnetView, ErrorView>(
                ErrorView::InvalidPrefixLength(prefix),
            ),
    {
        if prefix > 32 {
            return Err(IpCalcError::InvalidPrefixLength(prefix));
        }
        let mask = ipv4_mask(prefix);
        let wildcard = !mask;
        let network = addr & mask;
        let broadcast = network | wildcard;
        let ghost k = (32 - prefix) as nat;
        proof {
            lemma_network_v4(addr, prefix);
            lemma_mask_v4(prefix);
            lemma_pow2_widths();
            lemma2_to64();
            lemma_pow2_le(k, 32);
            if prefix < 31 {
                lemma_pow2_le(2, k);
            }
            lemma_u64_pow2_no_overflow(k);
            assert(1 * pow2(k) == pow2(k));
            lemma_u64_shl_is_mul(1u64, (32 - prefix) as u64);
        }
        let total_hosts: u64 = if prefix == 32 {
            1
        } else {
            1u64 << ((32 - prefix) as u64)
        };
        assert(total_hosts == pow2(k));
        let usable_hosts: u64 = if prefix >= 31 {
            total_hosts
        } else {
            total_hosts - 2
        };
        let first_host = if prefix >= 31 {
            network
        } else {
            network + 1
        };
        let last_host = if prefix >= 31 {
            broadcast
        } else {
            broadcast - 1
        };
        let first_octet = addr / 16777216;
        let second_octet = (addr / 65536) % 256;
        let network_class = if first_octet <= 127 {
            "A"
        } else if first_octet <= 191 {
            "B"
        } else if first_octet <= 223 {
            "C"
        } else if first_octet <= 239 {
            "D (Multicast)"
        } else {
            "E (Reserved)"
        };
        let is_private = first_octet == 10 || (first_octet == 172 && 16 <= second_octet
            && second_octet <= 31) || (first_octet == 192 && second_octet == 168) || (first_octet
            == 100 && 64 <= second_octet && second_octet <= 127) || first_octet == 127 || (
        first_octet == 169 && second_octet == 254);
        let rules = ipv4_address_rules();
        let address_type = classify(&rules, network as u128, "Public");
        let mut input = String::new();
        push_ipv4(&mut input, addr);
        proof {
            reveal_strlit("/");
        }
        input.append("/");
        push_decimal(&mut input, prefix as u128);
        assert(input@ =~= ipv4_text(addr) + seq!['/'] + decimal_text(prefix as nat));
        let subnet = Ipv4Subnet {
            input,
            network,
            broadcast,
            mask,
            wildcard,
            prefix_length: prefix,
            first_host,
            last_host,
            total_hosts,
            usable_hosts,
            network_class: network_class.to_owned(),
            is_private,
            address_type: address_type.to_owned(),
        };
        assert(subnet@ == ipv4_subnet_of(addr, prefix));
        Ok(subnet)
    }
}

impl Ipv4Subnet {
    /// The network address as a number.
    pub fn network_addr(&self) -> (a: u32)
        ensures
            a == self.network,
    {
        self.network
    }

    /// The network address in dotted decimal.
    pub fn network_address(&self) -> (r: String)
        ensures
            r@ == ipv4_text(self.network),
    {
        ipv4_to_string(self.network)
    }

    /// The broadcast address in dotted decimal.
    pub fn broadcast_address(&self) -> (r: String)
        ensures
            r@ == ipv4_text(self.broadcast),
    {
        ipv4_to_string(self.broadcast)
    }

    /// The network mask in dotted decimal.
    pub fn subnet_mask(&self) -> (r: String)
        ensures
            r@ == ipv4_text(self.mask),
    {
        ipv4_to_string(self.mask)
    }

    /// The wildcard mask in dotted decimal.
    pub fn wildcard_mask(&self) -> (r: String)
        ensures
            r@ == ipv4_text(self.wildcard),
    {
        ipv4_to_string(self.wildcard)
    }

    /// The first host address in dotted decimal.
    pub fn first_host_address(&self) -> (r: String)
        ensures
            r@ == ipv4_text(self.first_host),
    {
        ipv4_to_string(self.first_host)
    }

    /// The last host address in dotted decimal.
    pub fn last_host_address(&self) -> (r: String)
        ensures
            r@ == ipv4_text(self.last_host),
    {
        ipv4_to_string(self.last_host)
    }
}

/// What holds of every IPv4 subnet: the mask has exactly `prefix` leading
/// one-bits, the network is the address under the mask, the broadcast address
/// is the network with the wildcard bits set, and the address lies between
/// the two.
pub proof fn lemma_ipv4_subnet_bounds(addr: u32, prefix: u8)
    requires
        prefix <= 32,
    ensures
        ipv4_subnet_of(addr, prefix).mask == pow2(32) - pow2((32 - prefix) as nat),
        ipv4_subnet_of(addr, prefix).network == addr & ipv4_subnet_of(addr, prefix).mask,
        ipv4_subnet_of(addr, prefix).broadcast == ipv4_subnet_of(addr, prefix).network
            | !ipv4_subnet_of(addr, prefix).mask,
        ipv4_subnet_of(addr, prefix).network <= addr <= ipv4_subnet_of(addr, prefix).broadcast,
        ipv4_subnet_of(addr, prefix).network == block_base(addr as nat, (32 - prefix) as nat),
        ipv4_subnet_of(addr, prefix).broadcast == block_last(addr as nat, (32 - prefix) as nat),
        ipv4_subnet_of(addr, prefix).total_hosts == pow2((32 - prefix) as nat),
        ipv4_subnet_of(addr, prefix).broadcast - ipv4_subnet_of(addr, prefix).network + 1
            == ipv4_subnet_of(addr, prefix).total_hosts,
{
    lemma_mask_v4(prefix);
    lemma_network_v4(addr, prefix);
    lemma_pow2_widths();
    lemma_pow2_le((32 - prefix) as nat, 32);
}

/// Four octets with dots between them.
pub open spec fn dotted(p: Seq<Seq<char>>) -> Seq<char> {
    p[0] + seq!['.'] + p[1] + seq!['.'] + p[2] + seq!['.'] + p[3]
}

/// The decimal numeral of an octet is the one piece that denotes it.
pub proof fn lemma_octet_text(v: u8)
    ensures
        octet_text_value(decimal_text(v as nat)) == Some(v),
        forall|i: int|
            0 <= i < decimal_text(v as nat).len() ==> decimal_text(v as nat)[i] != '.',
{
    lemma_decimal_text(v as nat);
    let t = decimal_text(v as nat);
    assert forall|i: int| 0 <= i < t.len() implies t[i] != '.' by {
        assert(is_digit(t[i]));
    }
}

/// A piece that denotes an octet is the decimal numeral of that octet.
pub proof fn lemma_octet_text_unique(t: Seq<char>)
    requires
        octet_text_value(t) is Some,
    ensures
        t == decimal_text(octet_text_value(t)->0 as nat),
{
    lemma_canonical_numeral(t);
}

/// Reading the dotted-decimal text of an address yields the address.
pub proof fn lemma_ipv4_text_round_trip(a: u32)
    ensures
        ipv4_text_value(ipv4_text(a)) == Some(a),
{
    let o = ipv4_octets(a);
    lemma_octets_value(a);
    let d0 = decimal_text(o.0);
    let d1 = decimal_text(o.1);
    let d2 = decimal_text(o.2);
    let d3 = decimal_text(o.3);
    lemma_octet_text(o.0 as u8);
    lemma_octet_text(o.1 as u8);
    lemma_octet_text(o.2 as u8);
    lemma_octet_text(o.3 as u8);
    let s3 = d3;
    let s2 = d2 + seq!['.'] + s3;
    let s1 = d1 + seq!['.'] + s2;
    let s0 = d0 + seq!['.'] + s1;
    assert(ipv4_text(a) =~= s0);
    lemma_split_whole(s3, '.');
    lemma_split_first(d2, '.', s3);
    lemma_split_first(d1, '.', s2);
    lemma_split_first(d0, '.', s1);
    assert(split(s0, '.') =~= seq![d0, d1, d2, d3]);
}

/// A text of four pieces is those pieces with dots between them.
pub proof fn lemma_four_pieces(s: Seq<char>)
    requires
        split(s, '.').len() == 4,
    ensures
        s == dotted(split(s, '.')),
{
    let p = split(s, '.');
    lemma_split_parts(s, '.');
    let s1 = s.skip(p[0].len() as int + 1);
    assert(split(s1, '.') == p.skip(1));
    lemma_three_pieces(s1);
    assert(p.skip(1)[0] == p[1]);
    assert(p.skip(1)[1] == p[2]);
    assert(p.skip(1)[2] == p[3]);
    assert(s =~= dotted(p));
}

/// A text of three pieces is those pieces with dots between them.
proof fn lemma_three_pieces(s: Seq<char>)
    requires
        split(s, '.').len() == 3,
    ensures
        s == split(s, '.')[0] + seq!['.'] + split(s, '.')[1] + seq!['.'] + split(s, '.')[2],
{
    let p = split(s, '.');
    lemma_split_parts(s, '.');
    let s1 = s.skip(p[0].len() as int + 1);
    assert(split(s1, '.') == p.skip(1));
    lemma_two_pieces(s1);
    assert(p.skip(1)[0] == p[1]);
    assert(p.skip(1)[1] == p[2]);
    assert(s =~= p[0] + seq!['.'] + p[1] + seq!['.'] + p[2]);
}

/// A text of two pieces is those pieces with a dot between them.
proof fn lemma_two_pieces(s: Seq<char>)
    requires
        split(s, '.').len() == 2,
    ensures
        s == split(s, '.')[0] + seq!['.'] + split(s, '.')[1],
{
    let p = split(s, '.');
    lemma_split_parts(s, '.');
    let s1 = s.skip(p[0].len() as int + 1);
    assert(split(s1, '.') == p.skip(1));
    lemma_split_parts(s1, '.');
    assert(p.skip(1)[0] == p[1]);
}

/// The octets of the address that four octets make up are those octets.
pub proof fn lemma_octets_of(o0: u8, o1: u8, o2: u8, o3: u8)
    ensures
        ipv4_octets((o0 * 16777216 + o1 * 65536 + o2 * 256 + o3) as u32) == (
            o0 as nat,
            o1 as nat,
            o2 as nat,
            o3 as nat,
        ),
{
    let x0 = o0 as u32;
    let x1 = o1 as u32;
    let x2 = o2 as u32;
    let x3 = o3 as u32;
    let a = (o0 * 16777216 + o1 * 65536 + o2 * 256 + o3) as u32;
    assert(a / 16777216 == x0 && (a / 65536) % 256 == x1 && (a / 256) % 256 == x2 && a % 256
        == x3) by (bit_vector)
        requires
            x0 < 256,
            x1 < 256,
            x2 < 256,
            x3 < 256,
            a == x0 * 16777216 + x1 * 65536 + x2 * 256 + x3,
    ;
}

/// An address is made up of its four octets.
pub proof fn lemma_octets_value(a: u32)
    ensures
        ipv4_octets(a).0 < 256,
        ipv4_octets(a).1 < 256,
        ipv4_octets(a).2 < 256,
        ipv4_octets(a).3 < 256,
        ipv4_octets(a).0 * 16777216 + ipv4_octets(a).1 * 65536 + ipv4_octets(a).2 * 256
            + ipv4_octets(a).3 == a,
{
    assert(a / 16777216 < 256 && (a / 16777216) * 16777216 + ((a / 65536) % 256) * 65536 + ((a
        / 256) % 256) * 256 + a % 256 == a) by (bit_vector);
}

/// A text that reads as an address is the dotted-decimal text of that
/// address: every address has one text only.
pub proof fn lemma_ipv4_text_unique(s: Seq<char>)
    requires
        ipv4_text_value(s) is Some,
    ensures
        s == ipv4_text(ipv4_text_value(s)->0),
{
    let p = split(s, '.');
    lemma_four_pieces(s);
    lemma_octet_text_unique(p[0]);
    lemma_octet_text_unique(p[1]);
    lemma_octet_text_unique(p[2]);
    lemma_octet_text_unique(p[3]);
    lemma_octets_of(
        octet_text_value(p[0])->0,
        octet_text_value(p[1])->0,
        octet_text_value(p[2])->0,
        octet_text_value(p[3])->0,
    );
}

/// The dotted-decimal text of an address is made of address characters,
/// at most fifteen of them.
pub proof fn lemma_ipv4_text_chars(a: u32)
    ensures
        address_chars(ipv4_text(a)),
        ipv4_text(a).len() <= 15,
{
    let o = ipv4_octets(a);
    lemma_octets_value(a);
    lemma_decimal_text(o.0);
    lemma_decimal_text(o.1);
    lemma_decimal_text(o.2);
    lemma_decimal_text(o.3);
    lemma_decimal_address_chars(o.0);
    lemma_decimal_address_chars(o.1);
    lemma_decimal_address_chars(o.2);
    lemma_decimal_address_chars(o.3);
    let dot = seq!['.'];
    assert(address_chars(dot));
    let s1 = decimal_text(o.0) + dot;
    lemma_address_chars_concat(decimal_text(o.0), dot);
    let s2 = s1 + decimal_text(o.1);
    lemma_address_chars_concat(s1, decimal_text(o.1));
    let s3 = s2 + dot;
    lemma_address_chars_concat(s2, dot);
    let s4 = s3 + decimal_text(o.2);
    lemma_address_chars_concat(s3, decimal_text(o.2));
    let s5 = s4 + dot;
    lemma_address_chars_concat(s4, dot);
    lemma_address_chars_concat(s5, decimal_text(o.3));
}

/// The CIDR text of an address and a prefix length reads back as that
/// address and prefix length; so the `input` of a subnet denotes the subnet.
pub proof fn lemma_ipv4_cidr_round_trip(addr: u32, prefix: u8)
    requires
        prefix <= 32,
    ensures
        ipv4_cidr_value(ipv4_text(addr) + seq!['/'] + decimal_text(prefix as nat)) == Ok::<
            (u32, u8),
            ErrorView,
        >((addr, prefix)),
        ipv4_cidr_subnet(ipv4_subnet_of(addr, prefix).input) == Ok::<Ipv4SubnetView, ErrorView>(
            ipv4_subnet_of(addr, prefix),
        ),
{
    lemma_ipv4_text_chars(addr);
    lemma_ipv4_text_round_trip(addr);
    lemma_cidr_text_parts(ipv4_text(addr), prefix);
}

/// The views of a list of IPv4 subnets.
pub open spec fn ipv4_subnet_views(v: Seq<Ipv4Subnet>) -> Seq<Ipv4SubnetView> {
    v.map_values(|s: Ipv4Subnet| s@)
}

} // verus!
