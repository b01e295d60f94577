use ipcalc::error::IpCalcError;
use ipcalc::ipv6::{parse_ipv6_str, Ipv6Subnet};

#[test]
fn test_ipv6_subnet_64() {
    let subnet = Ipv6Subnet::from_cidr("2001:db8:85a3::8a2e:370:7334/64").unwrap();
    assert_eq!(subnet.network, parse_ipv6_str("2001:db8:85a3::").unwrap());
    assert_eq!(
        subnet.network_address_full,
        "2001:0db8:85a3:0000:0000:0000:0000:0000"
    );
    assert_eq!(subnet.prefix_length, 64);
    assert_eq!(subnet.address_type, "Documentation (RFC 3849)");
}

#[test]
fn test_ipv6_subnet_128() {
    let subnet = Ipv6Subnet::from_cidr("::1/128").unwrap();
    assert_eq!(subnet.network, parse_ipv6_str("::1").unwrap());
    assert_eq!(subnet.total_addresses, "1");
    assert_eq!(subnet.address_type, "Loopback (RFC 4291)");
}

#[test]
fn test_ipv6_link_local() {
    let subnet = Ipv6Subnet::from_cidr("fe80::1/10").unwrap();
    assert_eq!(subnet.address_type, "Link-Local Unicast (RFC 4291)");
}

#[test]
fn test_ipv6_ula() {
    let subnet = Ipv6Subnet::from_cidr("fd00::1/8").unwrap();
    assert_eq!(subnet.address_type, "Unique Local Address (RFC 4193)");
}

#[test]
fn test_ipv6_documentation() {
    let subnet = Ipv6Subnet::from_cidr("2001:db8::/32").unwrap();
    assert_eq!(subnet.address_type, "Documentation (RFC 3849)");
}

#[test]
fn test_ipv6_global_unicast() {
    let subnet = Ipv6Subnet::from_cidr("2001:4860::/32").unwrap();
    assert_eq!(subnet.address_type, "Global Unicast (RFC 4291)");
}

#[test]
fn ipv6_test_invalid_prefix() {
    let result = Ipv6Subnet::from_cidr("2001:db8::/129");
    assert!(
        matches!(result, Err(IpCalcError::InvalidPrefixLength(129))),
        "expected InvalidPrefixLength(129), got {:?}",
        result
    );
}

#[test]
fn ipv6_test_invalid_cidr_no_slash() {
    let result = Ipv6Subnet::from_cidr("2001:db8::");
    assert!(
        matches!(result, Err(IpCalcError::InvalidCidr(_))),
        "expected InvalidCidr, got {:?}",
        result
    );
}

#[test]
fn ipv6_test_input_too_long() {
    let long_input = "a".repeat(300);
    let result = Ipv6Subnet::from_cidr(&long_input);
    assert!(
        matches!(
            result,
            Err(IpCalcError::InputTooLong {
                length: 300,
                limit: 256
            })
        ),
        "expected InputTooLong, got {:?}",
        result
    );
}

#[test]
fn ipv6_total_addresses_switch_to_a_power_beyond_64_bits() {
    assert_eq!(
        Ipv6Subnet::from_cidr("2001:db8::/64").unwrap().total_addresses,
        "18446744073709551616"
    );
    assert_eq!(Ipv6Subnet::from_cidr("2001:db8::/63").unwrap().total_addresses, "2^65");
    assert_eq!(
        Ipv6Subnet::from_cidr("2001:db8::/65").unwrap().total_addresses,
        "9223372036854775808"
    );
    assert_eq!(Ipv6Subnet::from_cidr("2001:db8::/127").unwrap().total_addresses, "2");
    assert_eq!(Ipv6Subnet::from_cidr("::/0").unwrap().total_addresses, "2^128");
    assert_eq!(Ipv6Subnet::from_cidr("2001:db8::/32").unwrap().total_addresses, "2^96");
}

#[test]
fn ipv6_subnet_fields_follow_from_address_and_prefix() {
    let subnet = Ipv6Subnet::from_cidr("2001:db8:abcd:1234:5678:9abc:def0:1234/48").unwrap();
    assert_eq!(subnet.input, "2001:db8:abcd:1234:5678:9abc:def0:1234/48");
    assert_eq!(subnet.network, 0x2001_0db8_abcd_0000_0000_0000_0000_0000);
    assert_eq!(subnet.last, 0x2001_0db8_abcd_ffff_ffff_ffff_ffff_ffff);
    assert_eq!(subnet.network_address(), "2001:db8:abcd::");
    assert_eq!(subnet.last_address(), "2001:db8:abcd:ffff:ffff:ffff:ffff:ffff");
    assert_eq!(subnet.network_addr(), 0x2001_0db8_abcd_0000_0000_0000_0000_0000);
    assert_eq!(subnet.network_address_full, "2001:0db8:abcd:0000:0000:0000:0000:0000");
    assert_eq!(subnet.last_address_full, "2001:0db8:abcd:ffff:ffff:ffff:ffff:ffff");
    assert_eq!(
        subnet.hextets,
        vec!["2001", "0db8", "abcd", "0000", "0000", "0000", "0000", "0000"]
    );
    assert_eq!(subnet.prefix_length, 48);
    assert_eq!(subnet.total_addresses, "2^80");
    assert_eq!(
        Ipv6Subnet::new(1, 129),
        Err(IpCalcError::InvalidPrefixLength(129))
    );
}

#[test]
fn ipv6_classification_tries_the_rules_in_order() {
    let cases = [
        ("::1/128", "Loopback (RFC 4291)"),
        ("::/128", "Unspecified (RFC 4291)"),
        ("::/0", "Unspecified (RFC 4291)"),
        ("::1/127", "Unspecified (RFC 4291)"),
        ("ff02::1/16", "Multicast (RFC 4291)"),
        ("febf::/16", "Link-Local Unicast (RFC 4291)"),
        ("fec0::/16", "Other"),
        ("fc00::/7", "Unique Local Address (RFC 4193)"),
        ("2001:db8:1::/48", "Documentation (RFC 3849)"),
        ("2001:db9::/32", "Global Unicast (RFC 4291)"),
        ("3fff::/16", "Global Unicast (RFC 4291)"),
        ("4000::/16", "Other"),
        ("::2/128", "Other"),
    ];
    for (cidr, expected) in cases {
        assert_eq!(Ipv6Subnet::from_cidr(cidr).unwrap().address_type, expected, "{}", cidr);
    }
}

#[test]
fn ipv6_cidr_errors_name_the_offending_text() {
    assert_eq!(
        Ipv6Subnet::from_cidr("2001:db8::g/32"),
        Err(IpCalcError::InvalidIpv6Address("2001:db8::g".to_string()))
    );
    assert_eq!(
        Ipv6Subnet::from_cidr("2001:db8::/x"),
        Err(IpCalcError::InvalidCidr("2001:db8::/x".to_string()))
    );
    assert_eq!(
        Ipv6Subnet::from_cidr("192.168.1.0/24"),
        Err(IpCalcError::InvalidIpv6Address("192.168.1.0".to_string()))
    );
}

#[test]
fn ipv6_prefix_that_is_a_number_out_of_range() {
    assert_eq!(Ipv6Subnet::from_cidr("2001:db8::/129"), Err(IpCalcError::InvalidPrefixLength(129)));
    assert_eq!(Ipv6Subnet::from_cidr("2001:db8::/255"), Err(IpCalcError::InvalidPrefixLength(255)));
    assert_eq!(Ipv6Subnet::from_cidr("2001:db8::/256"), Err(IpCalcError::InvalidPrefixLength(255)));
    assert_eq!(Ipv6Subnet::from_cidr("2001:db8::/1000"), Err(IpCalcError::InvalidPrefixLength(255)));
    assert_eq!(Ipv6Subnet::from_cidr("2001:db8::/0128").unwrap().prefix_length, 128);
    assert_eq!(
        Ipv6Subnet::from_cidr("2001:db8::/12b"),
        Err(IpCalcError::InvalidCidr("2001:db8::/12b".to_string()))
    );
}
