//! Splitting a supernet into subnets of a longer prefix, and counting how
//! many there are.

use vstd::prelude::*;
use vstd::string::*;
use vstd::arithmetic::power2::{lemma_pow2_adds, lemma_pow2_pos, pow2};
use vstd::arithmetic::div_mod::{lemma_fundamental_div_mod, lemma_mod_multiples_basic};
use vstd::arithmetic::mul::lemma_mul_inequality;
use vstd::bits::{
    lemma_u32_pow2_no_overflow, lemma_u32_shl_is_mul, lemma_u64_pow2_no_overflow,
    lemma_u64_shl_is_mul,
};
use crate::error::{ErrorView, IpCalcError, Result};
use crate::ipv4::{ipv4_cidr_value, ipv4_subnet_of, ipv4_subnet_views, Ipv4Subnet, Ipv4SubnetView};
use crate::ipv6::{
    has_colon, ipv6_cidr_value, ipv6_subnet_of, ipv6_subnet_views, looks_like_ipv6,
    power_of_two_string, power_of_two_text, Ipv6Subnet, Ipv6SubnetView,
};
use crate::space::{
    aligned, block_base, lemma_aligned_base, lemma_network_v4, lemma_network_v6, lemma_pow2_le,
    lemma_pow2_widths, lemma_same_block, lemma_u128_shl_is_mul,
};
use crate::text::{decimal_string, decimal_text};

verus! {

/// Ceiling on the number of subnets of a split, unless the caller sets
/// another.
pub const DEFAULT_MAX_GENERATED_SUBNETS: u64 = 1_000_000;

/// The subnets that a split of an IPv4 supernet produced.
#[derive(Debug, Clone, PartialEq, Eq)]
pub struct Ipv4SubnetList {
    /// The network that was split.
    pub supernet: Ipv4Subnet,
    /// Prefix length of the subnets.
    pub new_prefix: u8,
    /// Number of subnets that were generated.
    pub requested_count: u64,
    /// The subnets, in ascending order.
    pub subnets: Vec<Ipv4Subnet>,
}

/// The subnets that a split of an IPv6 supernet produced.
#[derive(Debug, Clone, PartialEq, Eq)]
pub struct Ipv6SubnetList {
    /// The network that was split.
    pub supernet: Ipv6Subnet,
    /// Prefix length of the subnets.
    pub new_prefix: u8,
    /// Number of subnets that were generated.
    pub requested_count: u64,
    /// The subnets, in ascending order.
    pub subnets: Vec<Ipv6Subnet>,
}

/// How many subnets of a prefix length a supernet holds.
#[derive(Debug, Clone, PartialEq, Eq)]
pub struct SplitSummary {
    /// The supernet in CIDR notation.
    pub supernet: String,
    /// Prefix length of the subnets.
    pub new_prefix: u8,
    /// Number of subnets: the number itself up to `2^64`, the power beyond.
    pub available_subnets: String,
}

/// An IPv4 split with its texts as character sequences.
pub struct Ipv4SubnetListView {
    pub supernet: Ipv4SubnetView,
    pub new_prefix: u8,
    pub requested_count: u64,
    pub subnets: Seq<Ipv4SubnetView>,
}

/// An IPv6 split with its texts as character sequences.
pub struct Ipv6SubnetListView {
    pub supernet: Ipv6SubnetView,
    pub new_prefix: u8,
    pub requested_count: u64,
    pub subnets: Seq<Ipv6SubnetView>,
}

/// A count of subnets with its texts as character sequences.
pub struct SplitSummaryView {
    pub supernet: Seq<char>,
    pub new_prefix: u8,
    pub available_subnets: Seq<char>,
}

impl View for Ipv4SubnetList {
    type V = Ipv4SubnetListView;

    open spec fn view(&self) -> Ipv4SubnetListView {
        Ipv4SubnetListView {
            supernet: self.supernet@,
            new_prefix: self.new_prefix,
            requested_count: self.requested_count,
            subnets: ipv4_subnet_views(self.subnets@),
        }
    }
}

impl View for Ipv6SubnetList {
    type V = Ipv6SubnetListView;

    open spec fn view(&self) -> Ipv6SubnetListView {
        Ipv6SubnetListView {
            supernet: self.supernet@,
            new_prefix: self.new_prefix,
            requested_count: self.requested_count,
            subnets: ipv6_subnet_views(self.subnets@),
        }
    }
}

impl View for SplitSummary {
    type V = SplitSummaryView;

    open spec fn view(&self) -> SplitSummaryView {
        SplitSummaryView {
            supernet: self.supernet@,
            new_prefix: self.new_prefix,
            available_subnets: self.available_subnets@,
        }
    }
}

/// The checks that a split and a count share: the new prefix must be longer
/// than the supernet's, and within the width of the family.
pub open spec fn split_check(current: u8, new_prefix: u8, width: u8) -> Option<ErrorView> {
    if new_prefix <= current {
        Some(ErrorView::InvalidSubnetSplit { new_prefix: new_prefix, original_prefix: current })
    } else if new_prefix > width {
        Some(ErrorView::InvalidPrefixLength(new_prefix))
    } else {
        None
    }
}

/// The number of subnets that a supernet holds, `2^(new_prefix - current)`,
/// as far as 64 bits can count; beyond, the largest 64-bit number.
pub open spec fn available_subnets(current: u8, new_prefix: u8) -> u64 {
    if new_prefix - current >= 64 {
        u64::MAX
    } else {
        pow2((new_prefix - current) as nat) as u64
    }
}

/// The number of subnets of a split: the explicit count, or all there are.
pub open spec fn split_count(count: Option<u64>, available: u64) -> u64 {
    match count {
        Some(c) => c,
        None => available,
    }
}

/// The number of subnets of a split as it is named in an error: an explicit
/// count as a numeral, the number of all subnets as a power of two.
pub open spec fn split_count_text(count: Option<u64>, current: u8, new_prefix: u8) -> Seq<char> {
    match count {
        Some(c) => decimal_text(c as nat),
        None => power_of_two_text((new_prefix - current) as nat),
    }
}

/// The error that the sizes of a split earn, if any: more subnets asked for
/// than there are, or more to generate than the ceiling allows. Asking for
/// all subnets of a supernet that holds `2^64` or more always exceeds the
/// ceiling.
pub open spec fn split_size_check(
    count: Option<u64>,
    current: u8,
    new_prefix: u8,
    max_subnets: u64,
) -> Option<ErrorView> {
    let available = available_subnets(current, new_prefix);
    if count is Some && count->0 > available {
        Some(
            ErrorView::InsufficientSubnets {
                requested: count->0,
                available: available,
                new_prefix: new_prefix,
                original_prefix: current,
            },
        )
    } else if split_count(count, available) > max_subnets || (count is None && new_prefix
        - current >= 64) {
        Some(
            ErrorView::SubnetLimitExceeded {
                count: split_count_text(count, current, new_prefix),
                limit: max_subnets,
            },
        )
    } else {
        None
    }
}

/// What the split of an IPv4 supernet yields: subnet `i` starts at the
/// supernet's network address plus `i` times the size of a subnet.
pub open spec fn ipv4_split_value(
    cidr: Seq<char>,
    new_prefix: u8,
    count: Option<u64>,
    max_subnets: u64,
) -> core::result::Result<Ipv4SubnetListView, ErrorView> {
    match ipv4_cidr_value(cidr) {
        Err(e) => Err(e),
        Ok((addr, prefix)) => {
            let supernet = ipv4_subnet_of(addr, prefix);
            if split_check(prefix, new_prefix, 32) is Some {
                Err(split_check(prefix, new_prefix, 32)->0)
            } else if split_size_check(count, prefix, new_prefix, max_subnets) is Some {
                Err(split_size_check(count, prefix, new_prefix, max_subnets)->0)
            } else {
                let n = split_count(count, available_subnets(prefix, new_prefix));
                Ok(
                    Ipv4SubnetListView {
                        supernet: supernet,
                        new_prefix: new_prefix,
                        requested_count: n,
                        subnets: Seq::new(
                            n as nat,
                            |i: int|
                                ipv4_subnet_of(
                                    (supernet.network + i * pow2((32 - new_prefix) as nat)) as u32,
                                    new_prefix,
                                ),
                        ),
                    },
                )
            }
        },
    }
}

/// What the split of an IPv6 supernet yields.
pub open spec fn ipv6_split_value(
    cidr: Seq<char>,
    new_prefix: u8,
    count: Option<u64>,
    max_subnets: u64,
) -> core::result::Result<Ipv6SubnetListView, ErrorView> {
    match ipv6_cidr_value(cidr) {
        Err(e) => Err(e),
        Ok((addr, prefix)) => {
            let supernet = ipv6_subnet_of(addr, prefix);
            if split_check(prefix, new_prefix, 128) is Some {
                Err(split_check(prefix, new_prefix, 128)->0)
            } else if split_size_check(count, prefix, new_prefix, max_subnets) is Some {
                Err(split_size_check(count, prefix, new_prefix, max_subnets)->0)
            } else {
                let n = split_count(count, available_subnets(prefix, new_prefix));
                Ok(
                    Ipv6SubnetListView {
                        supernet: supernet,
                        new_prefix: new_prefix,
                        requested_count: n,
                        subnets: Seq::new(
                            n as nat,
                            |i: int|
                                ipv6_subnet_of(
                                    (supernet.network + i * pow2((128 - new_prefix) as nat)) as u128,
                                    new_prefix,
                                ),
                        ),
                    },
                )
            }
        },
    }
}

/// What a count of subnets yields. The family is IPv6 where the text has a
/// colon, IPv4 otherwise; the checks are those of a split.
pub open spec fn count_value(cidr: Seq<char>, new_prefix: u8) -> core::result::Result<
    SplitSummaryView,
    ErrorView,
> {
    if looks_like_ipv6(cidr) {
        match ipv6_cidr_value(cidr) {
            Err(e) => Err(e),
            Ok((addr, prefix)) => if split_check(prefix, new_prefix, 128) is Some {
                Err(split_check(prefix, new_prefix, 128)->0)
            } else {
                Ok(
                    SplitSummaryView {
                        supernet: ipv6_subnet_of(addr, prefix).input,
                        new_prefix: new_prefix,
                        available_subnets: power_of_two_text((new_prefix - prefix) as nat),
                    },
                )
            },
        }
    } else {
        match ipv4_cidr_value(cidr) {
            Err(e) => Err(e),
            Ok((addr, prefix)) => if split_check(prefix, new_prefix, 32) is Some {
                Err(split_check(prefix, new_prefix, 32)->0)
            } else {
                Ok(
                    SplitSummaryView {
                        supernet: ipv4_subnet_of(addr, prefix).input,
                        new_prefix: new_prefix,
                        available_subnets: power_of_two_text((new_prefix - prefix) as nat),
                    },
                )
            },
        }
    }
}

/// An IPv4 split or its error, as views.
pub open spec fn ipv4_split_outcome(r: Result<Ipv4SubnetList>) -> core::result::Result<
    Ipv4SubnetListView,
    ErrorView,
> {
    match r {
        Ok(v) => Ok(v@),
        Err(e) => Err(e@),
    }
}

/// An IPv6 split or its error, as views.
pub open spec fn ipv6_split_outcome(r: Result<Ipv6SubnetList>) -> core::result::Result<
    Ipv6SubnetListView,
    ErrorView,
> {
    match r {
        Ok(v) => Ok(v@),
        Err(e) => Err(e@),
    }
}

/// A count or its error, as views.
pub open spec fn count_outcome(r: Result<SplitSummary>) -> core::result::Result<
    SplitSummaryView,
    ErrorView,
> {
    match r {
        Ok(v) => Ok(v@),
        Err(e) => Err(e@),
    }
}

/// Subnet `i` of a split starts at a multiple of its own size and ends
/// inside the supernet.
pub proof fn lemma_split_step(base: nat, k_old: nat, k_new: nat, i: nat)
    requires
        k_new <= k_old,
        aligned(base, k_old),
        i < pow2((k_old - k_new) as nat),
    ensures
        aligned(base + i * pow2(k_new), k_new),
        block_base(base + i * pow2(k_new), k_new) == base + i * pow2(k_new),
        base + i * pow2(k_new) + pow2(k_new) <= base + pow2(k_old),
{
    let size = pow2(k_new) as int;
    let avail = pow2((k_old - k_new) as nat) as int;
    let whole = pow2(k_old) as int;
    lemma_pow2_pos(k_new);
    lemma_pow2_pos(k_old);
    lemma_pow2_adds((k_old - k_new) as nat, k_new);
    assert(whole == avail * size);
    lemma_mul_inequality((i + 1) as int, avail, size);
    assert((i + 1) * size == i * size + size) by (nonlinear_arith);
    lemma_fundamental_div_mod(base as int, whole);
    let q = (base as int) / whole;
    assert(base == whole * q);
    assert(base + i * size == (q * avail + i) * size) by (nonlinear_arith)
        requires
            base == whole * q,
            whole == avail * size,
    ;
    lemma_mod_multiples_basic(q * avail + i, size);
    lemma_aligned_base((base + i * pow2(k_new)) as nat, k_new);
}

/// In a split of an IPv4 network, the network address of subnet `i` is the
/// supernet's network address plus `i` times `2^(32 - new_prefix)`.
pub proof fn lemma_ipv4_split_network(addr: u32, prefix: u8, new_prefix: u8, i: nat)
    requires
        prefix < new_prefix <= 32,
        i < pow2((new_prefix - prefix) as nat),
    ensures
        ipv4_subnet_of(addr, prefix).network + i * pow2((32 - new_prefix) as nat) < pow2(32),
        ipv4_subnet_of(
            (ipv4_subnet_of(addr, prefix).network + i * pow2((32 - new_prefix) as nat)) as u32,
            new_prefix,
        ).network == ipv4_subnet_of(addr, prefix).network + i * pow2((32 - new_prefix) as nat),
        ipv4_subnet_of(
            (ipv4_subnet_of(addr, prefix).network + i * pow2((32 - new_prefix) as nat)) as u32,
            new_prefix,
        ).broadcast <= ipv4_subnet_of(addr, prefix).broadcast,
{
    let k_old = (32 - prefix) as nat;
    let k_new = (32 - new_prefix) as nat;
    let base = ipv4_subnet_of(addr, prefix).network;
    lemma_pow2_widths();
    lemma_network_v4(addr, prefix);
    lemma_same_block(addr as nat, addr as nat, k_old);
    lemma_split_step(base as nat, k_old, k_new, i);
    lemma_pow2_pos(k_new);
    let sub = (base + i * pow2(k_new)) as u32;
    lemma_network_v4(sub, new_prefix);
}

/// In a split of an IPv6 network, the network address of subnet `i` is the
/// supernet's network address plus `i` times `2^(128 - new_prefix)`.
pub proof fn lemma_ipv6_split_network(addr: u128, prefix: u8, new_prefix: u8, i: nat)
    requires
        prefix < new_prefix <= 128,
        i < pow2((new_prefix - prefix) as nat),
    ensures
        ipv6_subnet_of(addr, prefix).network + i * pow2((128 - new_prefix) as nat) < pow2(128),
        ipv6_subnet_of(
            (ipv6_subnet_of(addr, prefix).network + i * pow2((128 - new_prefix) as nat)) as u128,
            new_prefix,
        ).network == ipv6_subnet_of(addr, prefix).network + i * pow2((128 - new_prefix) as nat),
        ipv6_subnet_of(
            (ipv6_subnet_of(addr, prefix).network + i * pow2((128 - new_prefix) as nat)) as u128,
            new_prefix,
        ).last <= ipv6_subnet_of(addr, prefix).last,
{
    let k_old = (128 - prefix) as nat;
    let k_new = (128 - new_prefix) as nat;
    let base = ipv6_subnet_of(addr, prefix).network;
    lemma_pow2_widths();
    lemma_network_v6(addr, prefix);
    lemma_same_block(addr as nat, addr as nat, k_old);
    lemma_split_step(base as nat, k_old, k_new, i);
    lemma_pow2_pos(k_new);
    let sub = (base + i * pow2(k_new)) as u128;
    lemma_network_v6(sub, new_prefix);
}

/// The number of subnets as far as 64 bits can count.
fn available_count(current: u8, new_prefix: u8) -> (n: u64)
    requires
        current < new_prefix,
    ensures
        n == available_subnets(current, new_prefix),
        new_prefix - current < 64 ==> n == pow2((new_prefix - current) as nat),
{
    let diff: u8 = new_prefix - current;
    if diff >= 64 {
        u64::MAX
    } else {
        proof {
            lemma_u64_pow2_no_overflow(diff as nat);
            assert(1 * pow2(diff as nat) == pow2(diff as nat));
            lemma_u64_shl_is_mul(1u64, diff as u64);
        }
        1u64 << (diff as u64)
    }
}

/// Checks the sizes of a split and returns the number of subnets to generate.
fn checked_count(count: Option<u64>, current: u8, new_prefix: u8, max_subnets: u64) -> (r: Result<
    u64,
>)
    requires
        current < new_prefix <= 128,
    ensures
        match r {
            Ok(n) => split_size_check(count, current, new_prefix, max_subnets) is None && n
                == split_count(count, available_subnets(current, new_prefix)) && n
                <= max_subnets && n <= pow2((new_prefix - current) as nat),
            Err(e) => split_size_check(count, current, new_prefix, max_subnets) == Some(e@),
        },
{
    let available = available_count(current, new_prefix);
    proof {
        if new_prefix - current >= 64 {
            lemma_pow2_widths();
            lemma_pow2_le(64, (new_prefix - current) as nat);
        }
    }
    match count {
        Some(c) => {
            if c > available {
                return Err(
                    IpCalcError::InsufficientSubnets {
                        requested: c,
                        available,
                        new_prefix,
                        original_prefix: current,
                    },
                );
            }
            if c > max_subnets {
                return Err(
                    IpCalcError::SubnetLimitExceeded {
                        count: decimal_string(c as u128),
                        limit: max_subnets,
                    },
                );
            }
            Ok(c)
        },
        None => {
            if available > max_subnets || new_prefix - current >= 64 {
                return Err(
                    IpCalcError::SubnetLimitExceeded {
                        count: power_of_two_string(new_prefix - current),
                        limit: max_subnets,
                    },
                );
            }
            Ok(available)
        },
    }
}

/// Splits an IPv4 supernet into subnets of `new_prefix`: `count` of them, or
/// all there are where `count` is `None`. At most a million are generated.
pub fn generate_ipv4_subnets(cidr: &str, new_prefix: u8, count: Option<u64>) -> (r: Result<
    Ipv4SubnetList,
>)
    ensures
        ipv4_split_outcome(r) == ipv4_split_value(
            cidr@,
            new_prefix,
            count,
            DEFAULT_MAX_GENERATED_SUBNETS,
        ),
{
    generate_ipv4_subnets_with_limit(cidr, new_prefix, count, DEFAULT_MAX_GENERATED_SUBNETS)
}

/// Splits an IPv4 supernet into subnets of `new_prefix`, refusing to
/// generate more than `max_subnets`.
pub fn generate_ipv4_subnets_with_limit(
    cidr: &str,
    new_prefix: u8,
    count: Option<u64>,
    max_subnets: u64,
) -> (r: Result<Ipv4SubnetList>)
    ensures
        ipv4_split_outcome(r) == ipv4_split_value(cidr@, new_prefix, count, max_subnets),
{
    let supernet = match Ipv4Subnet::from_cidr(cidr) {
        Ok(s) => s,
        Err(e) => {
            return Err(e);
        },
    };
    let current = supernet.prefix_length;
    if new_prefix <= current {
        return Err(IpCalcError::InvalidSubnetSplit { new_prefix, original_prefix: current });
    }
    if new_prefix > 32 {
        return Err(IpCalcError::InvalidPrefixLength(new_prefix));
    }
    let n = match checked_count(count, current, new_prefix, max_subnets) {
        Ok(n) => n,
        Err(e) => {
            return Err(e);
        },
    };
    let ghost addr = ipv4_cidr_value(cidr@)->Ok_0.0;
    let ghost k_new = (32 - new_prefix) as nat;
    let ghost k_old = (32 - current) as nat;
    let network = supernet.network;
    proof {
        lemma_pow2_widths();
        lemma_network_v4(addr, current);
        lemma_same_block(addr as nat, addr as nat, k_old);
        lemma_u32_pow2_no_overflow(k_new);
        assert(1 * pow2(k_new) == pow2(k_new));
        lemma_u32_shl_is_mul(1u32, (32 - new_prefix) as u32);
    }
    let size: u32 = 1u32 << ((32 - new_prefix) as u32);
    let mut subnets: Vec<Ipv4Subnet> = Vec::new();
    let mut cur: u32 = network;
    let mut i: u64 = 0;
    while i < n
        invariant
            0 <= i <= n,
            n <= pow2((new_prefix - current) as nat),
            current < new_prefix <= 32,
            k_new == (32 - new_prefix) as nat,
            k_old == (32 - current) as nat,
            size == pow2(k_new),
            aligned(network as nat, k_old),
            network + pow2(k_old) <= pow2(32),
            pow2(32) == 0x1_0000_0000,
            i < n ==> cur == network + i * pow2(k_new),
            subnets@.len() == i,
            forall|j: int|
                0 <= j < i ==> (#[trigger] subnets@[j])@ == ipv4_subnet_of(
                    (network + j * pow2(k_new)) as u32,
                    new_prefix,
                ),
        decreases n - i,
    {
        proof {
            lemma_split_step(network as nat, k_old, k_new, i as nat);
            if i + 1 < n {
                lemma_split_step(network as nat, k_old, k_new, (i + 1) as nat);
                assert((i + 1) * pow2(k_new) == i * pow2(k_new) + pow2(k_new))
                    by (nonlinear_arith);
            }
        }
        match Ipv4Subnet::new(cur, new_prefix) {
            Ok(subnet) => {
                subnets.push(subnet);
            },
            Err(e) => {
                return Err(e);
            },
        }
        if i + 1 < n {
            cur = cur + size;
        }
        i = i + 1;
    }
    let list = Ipv4SubnetList { supernet, new_prefix, requested_count: n, subnets };
    proof {
        assert(list@.subnets =~= ipv4_split_value(
            cidr@,
            new_prefix,
            count,
            max_subnets,
        )->Ok_0.subnets);
    }
    Ok(list)
}

/// Splits an IPv6 supernet into subnets of `new_prefix`: `count` of them, or
/// all there are where `count` is `None`. At most a million are generated.
pub fn generate_ipv6_subnets(cidr: &str, new_prefix: u8, count: Option<u64>) -> (r: Result<
    Ipv6SubnetList,
>)
    ensures
        ipv6_split_outcome(r) == ipv6_split_value(
            cidr@,
            new_prefix,
            count,
            DEFAULT_MAX_GENERATED_SUBNETS,
        ),
{
    generate_ipv6_subnets_with_limit(cidr, new_prefix, count, DEFAULT_MAX_GENERATED_SUBNETS)
}

/// Splits an IPv6 supernet into subnets of `new_prefix`, refusing to
/// generate more than `max_subnets`.
pub fn generate_ipv6_subnets_with_limit(
    cidr: &str,
    new_prefix: u8,
    count: Option<u64>,
    max_subnets: u64,
) -> (r: Result<Ipv6SubnetList>)
    ensures
        ipv6_split_outcome(r) == ipv6_split_value(cidr@, new_prefix, count, max_subnets),
{
    let supernet = match Ipv6Subnet::from_cidr(cidr) {
        Ok(s) => s,
        Err(e) => {
            return Err(e);
        },
    };
    let current = supernet.prefix_length;
    if new_prefix <= current {
        return Err(IpCalcError::InvalidSubnetSplit { new_prefix, original_prefix: current });
    }
    if new_prefix > 128 {
        return Err(IpCalcError::InvalidPrefixLength(new_prefix));
    }
    let n = match checked_count(count, current, new_prefix, max_subnets) {
        Ok(n) => n,
        Err(e) => {
            return Err(e);
        },
    };
    let ghost addr = ipv6_cidr_value(cidr@)->Ok_0.0;
    let ghost k_new = (128 - new_prefix) as nat;
    let ghost k_old = (128 - current) as nat;
    let network = supernet.network;
    proof {
        lemma_pow2_widths();
        lemma_network_v6(addr, current);
        lemma_same_block(addr as nat, addr as nat, k_old);
        lemma_pow2_le(k_new, 127);
        lemma_pow2_le(127, 128);
        vstd::arithmetic::power2::lemma_pow2_strictly_increases(127, 128);
        assert(1 * pow2(k_new) == pow2(k_new));
        lemma_u128_shl_is_mul(1u128, (128 - new_prefix) as u128);
    }
    let size: u128 = 1u128 << ((128 - new_prefix) as u128);
    let mut subnets: Vec<Ipv6Subnet> = Vec::new();
    let mut cur: u128 = network;
    let mut i: u64 = 0;
    while i < n
        invariant
            0 <= i <= n,
            n <= pow2((new_prefix - current) as nat),
            current < new_prefix <= 128,
            k_new == (128 - new_prefix) as nat,
            k_old == (128 - current) as nat,
            size == pow2(k_new),
            aligned(network as nat, k_old),
            network + pow2(k_old) <= pow2(128),
            pow2(128) == 0x1_0000_0000_0000_0000_0000_0000_0000_0000,
            i < n ==> cur == network + i * pow2(k_new),
            subnets@.len() == i,
            forall|j: int|
                0 <= j < i ==> (#[trigger] subnets@[j])@ == ipv6_subnet_of(
                    (network + j * pow2(k_new)) as u128,
                    new_prefix,
                ),
        decreases n - i,
    {
        proof {
            lemma_split_step(network as nat, k_old, k_new, i as nat);
            if i + 1 < n {
                lemma_split_step(network as nat, k_old, k_new, (i + 1) as nat);
                assert((i + 1) * pow2(k_new) == i * pow2(k_new) + pow2(k_new))
                    by (nonlinear_arith);
            }
        }
        match Ipv6Subnet::new(cur, new_prefix) {
            Ok(subnet) => {
                subnets.push(subnet);
            },
            Err(e) => {
                return Err(e);
            },
        }
        if i + 1 < n {
            cur = cur + size;
        }
        i = i + 1;
    }
    let list = Ipv6SubnetList { supernet, new_prefix, requested_count: n, subnets };
    proof {
        assert(list@.subnets =~= ipv6_split_value(
            cidr@,
            new_prefix,
            count,
            max_subnets,
        )->Ok_0.subnets);
    }
    Ok(list)
}

/// Counts the subnets of `new_prefix` that a supernet holds, without
/// generating any. The checks are those of a split.
pub fn count_subnets(cidr: &str, new_prefix: u8) -> (r: Result<SplitSummary>)
    ensures
        count_outcome(r) == count_value(cidr@, new_prefix),
{
    if has_colon(cidr) {
        let supernet = match Ipv6Subnet::from_cidr(cidr) {
            Ok(s) => s,
            Err(e) => {
                return Err(e);
            },
        };
        let current = supernet.prefix_length;
        if new_prefix <= current {
            return Err(IpCalcError::InvalidSubnetSplit { new_prefix, original_prefix: current });
        }
        if new_prefix > 128 {
            return Err(IpCalcError::InvalidPrefixLength(new_prefix));
        }
        Ok(
            SplitSummary {
                supernet: supernet.input,
                new_prefix,
                available_subnets: power_of_two_string(new_prefix - current),
            },
        )
    } else {
        let supernet = match Ipv4Subnet::from_cidr(cidr) {
            Ok(s) => s,
            Err(e) => {
                return Err(e);
            },
        };
        let current = supernet.prefix_length;
        if new_prefix <= current {
            return Err(IpCalcError::InvalidSubnetSplit { new_prefix, original_prefix: current });
        }
        if new_prefix > 32 {
            return Err(IpCalcError::InvalidPrefixLength(new_prefix));
        }
        Ok(
            SplitSummary {
                supernet: supernet.input,
                new_prefix,
                available_subnets: power_of_two_string(new_prefix - current),
            },
        )
    }
}

/// What a front end asks a split for, given a count and a switch for all
/// subnets: all of them where the switch is set, else the count; nothing
/// where neither is given.
pub fn count_request(count: Option<u64>, max: bool) -> (r: Option<Option<u64>>)
    ensures
        max ==> r == Some(None::<u64>),
        !max && count is Some ==> r == Some(count),
        !max && count is None ==> r is None,
{
    if max {
        Some(None)
    } else {
        match count {
            Some(c) => Some(Some(c)),
            None => None,
        }
    }
}

} // verus!
