use ipcalc::error::IpCalcError;
use ipcalc::subnet_generator::{
    count_subnets, generate_ipv4_subnets, generate_ipv4_subnets_with_limit, generate_ipv6_subnets,
    generate_ipv6_subnets_with_limit,
};

#[test]
fn test_generate_ipv4_subnets() {
    let result = generate_ipv4_subnets("192.168.0.0/22", 27, Some(10)).unwrap();
    assert_eq!(result.subnets.len(), 10);
    assert_eq!(result.subnets[0].network_address(), "192.168.0.0");
    assert_eq!(result.subnets[0].prefix_length, 27);
    assert_eq!(result.subnets[1].network_address(), "192.168.0.32");
    assert_eq!(result.subnets[9].network_address(), "192.168.1.32");
}

#[test]
fn test_generate_ipv4_subnets_with_count() {
    // /22 can fit 32 /27 subnets (2^5)
    let result = generate_ipv4_subnets("192.168.0.0/22", 27, Some(32)).unwrap();
    assert_eq!(result.subnets.len(), 32);
}

#[test]
fn test_generate_ipv4_subnets_max() {
    // /22 can fit 32 /27 subnets (2^5), None means generate all
    let result = generate_ipv4_subnets("192.168.0.0/22", 27, None).unwrap();
    assert_eq!(result.subnets.len(), 32);
    assert_eq!(result.requested_count, 32);
}

#[test]
fn test_generate_ipv4_subnets_too_many() {
    // /22 can only fit 32 /27 subnets
    let result = generate_ipv4_subnets("192.168.0.0/22", 27, Some(33));
    assert!(result.is_err());
}

#[test]
fn test_generate_ipv6_subnets() {
    let result = generate_ipv6_subnets("2001:db8::/32", 48, Some(5)).unwrap();
    assert_eq!(result.subnets.len(), 5);
    assert_eq!(result.subnets[0].prefix_length, 48);
}

#[test]
fn test_generate_ipv6_subnets_max() {
    // /48 to /56 is 8 bits difference, so 256 subnets
    let result = generate_ipv6_subnets("2001:db8:abcd::/48", 56, None).unwrap();
    assert_eq!(result.subnets.len(), 256);
    assert_eq!(result.requested_count, 256);
}

#[test]
fn test_invalid_new_prefix_smaller() {
    let result = generate_ipv4_subnets("192.168.0.0/24", 22, Some(1));
    assert!(result.is_err());
}

#[test]
fn split_subnets_start_at_multiples_of_their_size() {
    let result = generate_ipv4_subnets("192.168.0.77/22", 27, None).unwrap();
    let base = u32::from_be_bytes([192, 168, 0, 0]);
    assert_eq!(result.supernet.network, base);
    assert_eq!(result.supernet.input, "192.168.0.77/22");
    assert_eq!(result.new_prefix, 27);
    for (i, subnet) in result.subnets.iter().enumerate() {
        assert_eq!(subnet.network, base + (i as u32) * 32);
        assert_eq!(subnet.broadcast, base + (i as u32) * 32 + 31);
        assert_eq!(subnet.prefix_length, 27);
    }
    assert_eq!(result.subnets[31].broadcast, result.supernet.broadcast);

    let result = generate_ipv6_subnets("2001:db8::/32", 48, Some(3)).unwrap();
    let base = 0x2001_0db8_0000_0000_0000_0000_0000_0000u128;
    for (i, subnet) in result.subnets.iter().enumerate() {
        assert_eq!(subnet.network, base + ((i as u128) << 80));
        assert_eq!(subnet.prefix_length, 48);
    }
    assert_eq!(result.subnets[1].network_address(), "2001:db8:1::");
    assert_eq!(result.requested_count, 3);
}

#[test]
fn split_to_the_longest_prefix() {
    let result = generate_ipv4_subnets("10.0.0.0/30", 32, None).unwrap();
    assert_eq!(result.subnets.len(), 4);
    assert_eq!(result.subnets[3].network_address(), "10.0.0.3");
    let result = generate_ipv4_subnets("0.0.0.0/0", 1, None).unwrap();
    assert_eq!(result.subnets.len(), 2);
    assert_eq!(result.subnets[1].network_address(), "128.0.0.0");
    let result = generate_ipv6_subnets("::/0", 128, Some(2)).unwrap();
    assert_eq!(result.subnets[1].network, 1);
    let result = generate_ipv6_subnets("ffff:ffff:ffff:ffff:ffff:ffff:ffff:fffe/127", 128, None)
        .unwrap();
    assert_eq!(result.subnets.len(), 2);
    assert_eq!(result.subnets[1].network, u128::MAX);
    let result = generate_ipv4_subnets("10.0.0.0/8", 16, Some(0)).unwrap();
    assert_eq!(result.subnets.len(), 0);
    assert_eq!(result.requested_count, 0);
}

#[test]
fn split_errors_carry_their_values() {
    assert_eq!(
        generate_ipv4_subnets("192.168.0.0/22", 27, Some(100)),
        Err(IpCalcError::InsufficientSubnets {
            requested: 100,
            available: 32,
            new_prefix: 27,
            original_prefix: 22
        })
    );
    assert_eq!(
        generate_ipv4_subnets("192.168.0.0/24", 24, Some(1)),
        Err(IpCalcError::InvalidSubnetSplit { new_prefix: 24, original_prefix: 24 })
    );
    assert_eq!(
        generate_ipv4_subnets("192.168.0.0/24", 22, None),
        Err(IpCalcError::InvalidSubnetSplit { new_prefix: 22, original_prefix: 24 })
    );
    assert_eq!(
        generate_ipv4_subnets("192.168.0.0/24", 33, Some(1)),
        Err(IpCalcError::InvalidPrefixLength(33))
    );
    assert_eq!(
        generate_ipv6_subnets("2001:db8::/32", 129, Some(1)),
        Err(IpCalcError::InvalidPrefixLength(129))
    );
    assert_eq!(
        generate_ipv4_subnets("192.168.0.0", 27, Some(1)),
        Err(IpCalcError::InvalidCidr("192.168.0.0".to_string()))
    );
    assert_eq!(
        generate_ipv6_subnets("2001:db8::/64", 96, Some(4_294_967_297)),
        Err(IpCalcError::InsufficientSubnets {
            requested: 4_294_967_297,
            available: 4_294_967_296,
            new_prefix: 96,
            original_prefix: 64
        })
    );
}

#[test]
fn split_refuses_to_generate_past_the_ceiling() {
    assert_eq!(
        generate_ipv4_subnets("10.0.0.0/8", 32, None),
        Err(IpCalcError::SubnetLimitExceeded { count: "16777216".to_string(), limit: 1_000_000 })
    );
    assert_eq!(
        generate_ipv6_subnets("2001:db8::/32", 64, None),
        Err(IpCalcError::SubnetLimitExceeded {
            count: "4294967296".to_string(),
            limit: 1_000_000
        })
    );
    assert_eq!(
        generate_ipv6_subnets("2001:db8::/32", 128, None),
        Err(IpCalcError::SubnetLimitExceeded { count: "2^96".to_string(), limit: 1_000_000 })
    );
    assert_eq!(
        generate_ipv6_subnets("2001:db8::/32", 96, None),
        Err(IpCalcError::SubnetLimitExceeded {
            count: "18446744073709551616".to_string(),
            limit: 1_000_000
        })
    );
    assert_eq!(
        generate_ipv6_subnets_with_limit("2001:db8::/32", 128, None, u64::MAX),
        Err(IpCalcError::SubnetLimitExceeded { count: "2^96".to_string(), limit: u64::MAX })
    );
    assert_eq!(
        generate_ipv4_subnets_with_limit("10.0.0.0/8", 16, Some(11), 10),
        Err(IpCalcError::SubnetLimitExceeded { count: "11".to_string(), limit: 10 })
    );
    assert_eq!(
        generate_ipv4_subnets_with_limit("10.0.0.0/8", 16, Some(10), 10).unwrap().subnets.len(),
        10
    );
    assert_eq!(
        generate_ipv4_subnets_with_limit("10.0.0.0/24", 26, None, 3),
        Err(IpCalcError::SubnetLimitExceeded { count: "4".to_string(), limit: 3 })
    );
    assert_eq!(
        generate_ipv6_subnets_with_limit("2001:db8::/32", 128, Some(2), 5).unwrap().subnets.len(),
        2
    );
    let message = generate_ipv4_subnets("10.0.0.0/8", 32, None).unwrap_err().to_string();
    assert!(message.contains("limit"));
}

#[test]
fn count_only_shares_the_checks_of_a_split() {
    let summary = count_subnets("192.168.0.0/22", 27).unwrap();
    assert_eq!(summary.available_subnets, "32");
    assert_eq!(summary.new_prefix, 27);
    assert_eq!(summary.supernet, "192.168.0.0/22");
    let summary = count_subnets("2001:db8::/64", 96).unwrap();
    assert_eq!(summary.available_subnets, "4294967296");
    assert_eq!(summary.new_prefix, 96);
    let summary = count_subnets("2001:db8::/32", 128).unwrap();
    assert_eq!(summary.available_subnets, "2^96");
    assert_eq!(count_subnets("2001:db8::/32", 96).unwrap().available_subnets, "18446744073709551616");
    assert_eq!(count_subnets("2001:db8::/32", 97).unwrap().available_subnets, "2^65");
    assert_eq!(count_subnets("0.0.0.0/0", 32).unwrap().available_subnets, "4294967296");
    assert_eq!(count_subnets("10.0.0.0/8", 32).unwrap().available_subnets, "16777216");
    assert_eq!(
        count_subnets("192.168.0.0/24", 22),
        Err(IpCalcError::InvalidSubnetSplit { new_prefix: 22, original_prefix: 24 })
    );
    assert_eq!(
        count_subnets("192.168.0.0/24", 33),
        Err(IpCalcError::InvalidPrefixLength(33))
    );
    assert_eq!(
        count_subnets("2001:db8::/64", 64),
        Err(IpCalcError::InvalidSubnetSplit { new_prefix: 64, original_prefix: 64 })
    );
    assert_eq!(
        count_subnets("2001:db8::/64", 129),
        Err(IpCalcError::InvalidPrefixLength(129))
    );
    assert_eq!(
        count_subnets("nonsense", 24),
        Err(IpCalcError::InvalidCidr("nonsense".to_string()))
    );
}
