use ipcalc::error::IpCalcError;
use ipcalc::from_range::{
    from_range_ipv4, from_range_ipv4_with_limit, from_range_ipv6, from_range_ipv6_with_limit,
    range_to_cidrs_v4, range_to_cidrs_v6,
};
use ipcalc::ipv4::parse_ipv4_str;

#[test]
fn test_single_address_v4() {
    let result = from_range_ipv4("192.168.1.1", "192.168.1.1").unwrap();
    assert_eq!(result.cidr_count, 1);
    assert_eq!(result.cidrs[0].network_address(), "192.168.1.1");
    assert_eq!(result.cidrs[0].prefix_length, 32);
}

#[test]
fn test_two_addresses_v4() {
    let result = from_range_ipv4("192.168.1.0", "192.168.1.1").unwrap();
    assert_eq!(result.cidr_count, 1);
    assert_eq!(result.cidrs[0].network_address(), "192.168.1.0");
    assert_eq!(result.cidrs[0].prefix_length, 31);
}

#[test]
fn test_full_subnet_v4() {
    let result = from_range_ipv4("10.0.0.0", "10.0.0.255").unwrap();
    assert_eq!(result.cidr_count, 1);
    assert_eq!(result.cidrs[0].network_address(), "10.0.0.0");
    assert_eq!(result.cidrs[0].prefix_length, 24);
}

#[test]
fn test_non_aligned_range_v4() {
    // 192.168.1.10 - 192.168.1.20 should produce multiple CIDRs
    let result = from_range_ipv4("192.168.1.10", "192.168.1.20").unwrap();
    assert!(result.cidr_count > 1);
    // Verify coverage: first starts at .10, last ends at .20
    assert_eq!(result.cidrs[0].network_address(), "192.168.1.10");
    let last = result.cidrs.last().unwrap();
    // Last CIDR should end at .20
    assert_eq!(last.broadcast_address(), "192.168.1.20");
}

#[test]
fn test_start_greater_than_end_v4() {
    let result = from_range_ipv4("192.168.1.20", "192.168.1.10");
    assert!(result.is_err());
}

#[test]
fn test_invalid_address_v4() {
    let result = from_range_ipv4("not-an-ip", "192.168.1.10");
    assert!(result.is_err());
}

#[test]
fn test_single_address_v6() {
    let result = from_range_ipv6("2001:db8::1", "2001:db8::1").unwrap();
    assert_eq!(result.cidr_count, 1);
    assert_eq!(result.cidrs[0].prefix_length, 128);
}

#[test]
fn test_range_v6() {
    let result = from_range_ipv6("2001:db8::1", "2001:db8::ff").unwrap();
    assert!(result.cidr_count > 1);
    assert_eq!(result.start_address, "2001:db8::1");
    assert_eq!(result.end_address, "2001:db8::ff");
}

#[test]
fn test_aligned_v6() {
    let result = from_range_ipv6("2001:db8::", "2001:db8::ffff").unwrap();
    assert_eq!(result.cidr_count, 1);
    assert_eq!(result.cidrs[0].prefix_length, 112);
}

#[test]
fn test_start_greater_than_end_v6() {
    let result = from_range_ipv6("2001:db8::ff", "2001:db8::1");
    assert!(result.is_err());
}

#[test]
fn test_full_range_v4() {
    // 0.0.0.0 - 255.255.255.255 should be a single /0
    let result = from_range_ipv4("0.0.0.0", "255.255.255.255").unwrap();
    assert_eq!(result.cidr_count, 1);
    assert_eq!(result.cidrs[0].prefix_length, 0);
}

#[test]
fn test_from_range_limit_exceeded_v4() {
    // A range that generates many CIDRs, limited to 2
    let result = from_range_ipv4_with_limit("192.168.1.1", "192.168.1.20", 2);
    assert!(result.is_err());
    let err = result.unwrap_err().to_string();
    assert!(err.contains("exceeds maximum"));
}

#[test]
fn test_algorithm_correctness_v4() {
    // Verify that the CIDRs exactly cover the range with no gaps/overlaps
    let result = from_range_ipv4("10.0.0.5", "10.0.0.130").unwrap();
    let mut expected_next: u64 = parse_ipv4_str("10.0.0.5").unwrap() as u64;
    for cidr in &result.cidrs {
        let net = parse_ipv4_str(&cidr.network_address()).unwrap() as u64;
        assert_eq!(net, expected_next, "Gap in CIDR coverage");
        expected_next = net + cidr.total_hosts;
    }
    assert_eq!(
        expected_next,
        parse_ipv4_str("10.0.0.130").unwrap() as u64 + 1,
        "CIDRs don't cover full range"
    );
}

#[test]
fn range_blocks_are_the_greedy_choice() {
    let start = u32::from_be_bytes([192, 168, 1, 10]);
    let pairs = range_to_cidrs_v4(start, start + 10, 100);
    assert_eq!(
        pairs,
        vec![(start, 31), (start + 2, 30), (start + 6, 30), (start + 10, 32)]
    );
    assert_eq!(range_to_cidrs_v4(0, u32::MAX, 100), vec![(0, 0)]);
    assert_eq!(range_to_cidrs_v4(7, 7, 100), vec![(7, 32)]);
    assert_eq!(range_to_cidrs_v4(8, 7, 100), vec![]);
    assert_eq!(
        range_to_cidrs_v4(u32::MAX - 2, u32::MAX, 100),
        vec![(u32::MAX - 2, 32), (u32::MAX - 1, 31)]
    );
    assert_eq!(range_to_cidrs_v4(1, u32::MAX, 1000).len(), 32);
    assert_eq!(range_to_cidrs_v4(1, u32::MAX - 1, 1000).len(), 62);
}

#[test]
fn range_blocks_stop_one_past_the_limit() {
    let pairs = range_to_cidrs_v4(1, 20, 2);
    assert_eq!(pairs, vec![(1, 32), (2, 31), (4, 30)]);
    assert_eq!(range_to_cidrs_v4(1, 20, 0), vec![(1, 32)]);
    assert_eq!(range_to_cidrs_v4(1, 20, 7).len(), 6);
    assert_eq!(range_to_cidrs_v4(1, 20, 6).len(), 6);
    assert_eq!(range_to_cidrs_v4(1, 20, 5).len(), 6);
    assert_eq!(range_to_cidrs_v4(1, 20, 4).len(), 5);
    assert_eq!(range_to_cidrs_v4(1, 20, 3).len(), 4);
    assert_eq!(
        range_to_cidrs_v4(1, 20, 100),
        vec![(1, 32), (2, 31), (4, 30), (8, 29), (16, 30), (20, 32)]
    );
    assert_eq!(range_to_cidrs_v6(1, 20, 2), vec![(1, 128), (2, 127), (4, 126)]);
}

#[test]
fn range_blocks_of_the_whole_ipv6_space() {
    assert_eq!(range_to_cidrs_v6(0, u128::MAX, 10), vec![(0, 0)]);
    assert_eq!(
        range_to_cidrs_v6(u128::MAX - 1, u128::MAX, 10),
        vec![(u128::MAX - 1, 127)]
    );
    assert_eq!(range_to_cidrs_v6(1, u128::MAX, 1000).len(), 128);
    assert_eq!(range_to_cidrs_v6(1, u128::MAX - 1, 1000).len(), 254);
    assert_eq!(range_to_cidrs_v6(1 << 64, (1 << 65) - 1, 10), vec![(1 << 64, 64)]);
}

#[test]
fn from_range_errors_carry_their_values() {
    assert_eq!(
        from_range_ipv4("192.168.1.20", "192.168.1.10"),
        Err(IpCalcError::InvalidRange(
            "192.168.1.20".to_string(),
            "192.168.1.10".to_string()
        ))
    );
    assert_eq!(
        from_range_ipv4("192.168.1.1", "nope"),
        Err(IpCalcError::InvalidIpv4Address("nope".to_string()))
    );
    assert_eq!(
        from_range_ipv4("first", "second"),
        Err(IpCalcError::InvalidIpv4Address("first".to_string()))
    );
    assert_eq!(
        from_range_ipv4_with_limit("192.168.1.1", "192.168.1.20", 2),
        Err(IpCalcError::FromRangeLimitExceeded { count: 3, limit: 2 })
    );
    assert_eq!(
        from_range_ipv4_with_limit("192.168.1.1", "192.168.1.20", 4),
        Err(IpCalcError::FromRangeLimitExceeded { count: 5, limit: 4 })
    );
    assert_eq!(
        from_range_ipv4_with_limit("192.168.1.1", "192.168.1.20", 5),
        Err(IpCalcError::FromRangeLimitExceeded { count: 6, limit: 5 })
    );
    assert_eq!(
        from_range_ipv4_with_limit("192.168.1.1", "192.168.1.20", 6).unwrap().cidr_count,
        6
    );
    assert_eq!(
        from_range_ipv6("2001:db8::ff", "2001:db8::1"),
        Err(IpCalcError::InvalidRange(
            "2001:db8::ff".to_string(),
            "2001:db8::1".to_string()
        ))
    );
    assert_eq!(
        from_range_ipv6("zz", "::1"),
        Err(IpCalcError::InvalidIpv6Address("zz".to_string()))
    );
    assert_eq!(
        from_range_ipv6_with_limit("::1", "::ff", 3),
        Err(IpCalcError::FromRangeLimitExceeded { count: 4, limit: 3 })
    );
}

#[test]
fn from_range_cover_has_no_gap_and_no_overlap() {
    let ranges = [
        ("192.168.1.10", "192.168.1.20"),
        ("0.0.0.1", "255.255.255.254"),
        ("10.0.0.0", "10.0.0.0"),
        ("10.0.0.255", "10.0.1.0"),
        ("255.255.255.255", "255.255.255.255"),
        ("0.0.0.0", "0.0.0.0"),
        ("127.0.0.1", "128.0.0.1"),
    ];
    for (start, end) in ranges {
        let result = from_range_ipv4(start, end).unwrap();
        let first = parse_ipv4_str(start).unwrap() as u64;
        let last = parse_ipv4_str(end).unwrap() as u64;
        assert_eq!(result.start_address, start);
        assert_eq!(result.end_address, end);
        assert_eq!(result.cidr_count, result.cidrs.len());
        let mut next = first;
        for cidr in &result.cidrs {
            assert_eq!(cidr.network as u64, next);
            assert_eq!(cidr.network as u64 % cidr.total_hosts, 0);
            next = cidr.broadcast as u64 + 1;
        }
        assert_eq!(next, last + 1);
        assert_eq!(result.cidrs[0].network as u64, first);
        assert_eq!(result.cidrs.last().unwrap().broadcast as u64, last);
    }
}

#[test]
fn from_range_ipv6_blocks_tile_the_range() {
    let result = from_range_ipv6("2001:db8::1", "2001:db8::ff").unwrap();
    assert_eq!(result.cidr_count, 8);
    let mut next = 0x2001_0db8_0000_0000_0000_0000_0000_0001u128;
    for cidr in &result.cidrs {
        assert_eq!(cidr.network, next);
        next = cidr.last + 1;
    }
    assert_eq!(next, 0x2001_0db8_0000_0000_0000_0000_0000_0100u128);
    let whole = from_range_ipv6("::", "ffff:ffff:ffff:ffff:ffff:ffff:ffff:ffff").unwrap();
    assert_eq!(whole.cidr_count, 1);
    assert_eq!(whole.cidrs[0].prefix_length, 0);
    assert_eq!(whole.cidrs[0].last, u128::MAX);
}

#[test]
fn a_ceiling_of_twice_the_width_never_refuses_a_range() {
    let result = from_range_ipv4_with_limit("0.0.0.1", "255.255.255.254", 64).unwrap();
    assert_eq!(result.cidr_count, 62);
    assert!(from_range_ipv4_with_limit("0.0.0.1", "255.255.255.254", 61).is_err());
    let result = from_range_ipv6_with_limit("::1", "ffff:ffff:ffff:ffff:ffff:ffff:ffff:fffe", 256)
        .unwrap();
    assert_eq!(result.cidr_count, 254);
    assert_eq!(from_range_ipv4_with_limit("0.0.0.0", "255.255.255.255", 64).unwrap().cidr_count, 1);
}
