use ipcalc::contains::{check_ipv4_contains, check_ipv6_contains};
use ipcalc::ipv4::{ipv4_to_string, Ipv4Subnet};
use ipcalc::ipv6::{ipv6_to_string, Ipv6Subnet};
use ipcalc::space::{ipv4_mask, ipv6_mask};
use ipcalc::subnet_generator::{count_subnets, generate_ipv4_subnets};
use ipcalc::summarize::summarize_ipv4;

#[test]
fn masks_have_the_prefix_as_leading_ones() {
    for prefix in 0..=32u8 {
        let mask = ipv4_mask(prefix);
        assert_eq!(mask.leading_ones(), prefix as u32);
        assert_eq!(mask.count_ones(), prefix as u32);
    }
    for prefix in 0..=128u8 {
        let mask = ipv6_mask(prefix);
        assert_eq!(mask.leading_ones(), prefix as u32);
        assert_eq!(mask.count_ones(), prefix as u32);
    }
    assert_eq!(ipv4_mask(24), 0xffff_ff00);
    assert_eq!(ipv6_mask(64), 0xffff_ffff_ffff_ffff_0000_0000_0000_0000);
}

#[test]
fn network_and_broadcast_bound_the_address() {
    let addresses: [u32; 6] = [0, 1, 0xc0a8_0164, 0x7fff_ffff, 0x8000_0000, u32::MAX];
    for addr in addresses {
        for prefix in 0..=32u8 {
            let subnet = Ipv4Subnet::new(addr, prefix).unwrap();
            assert_eq!(subnet.mask.leading_ones(), prefix as u32);
            assert_eq!(subnet.network, addr & subnet.mask);
            assert_eq!(subnet.broadcast, subnet.network | !subnet.mask);
            assert_eq!(subnet.wildcard, !subnet.mask);
            assert!(subnet.network <= addr && addr <= subnet.broadcast);
            assert_eq!(subnet.total_hosts, 1u64 << (32 - prefix));
            assert_eq!(
                subnet.broadcast as u64 - subnet.network as u64 + 1,
                subnet.total_hosts
            );
            if prefix >= 31 {
                assert_eq!(subnet.usable_hosts, subnet.total_hosts);
                assert_eq!(subnet.first_host, subnet.network);
                assert_eq!(subnet.last_host, subnet.broadcast);
            } else {
                assert_eq!(subnet.usable_hosts, subnet.total_hosts - 2);
                assert_eq!(subnet.first_host, subnet.network + 1);
                assert_eq!(subnet.last_host, subnet.broadcast - 1);
            }
        }
    }
    let addresses: [u128; 4] = [0, 0x2001_0db8_85a3_0000_0000_8a2e_0370_7334, 1 << 127, u128::MAX];
    for addr in addresses {
        for prefix in 0..=128u8 {
            let subnet = Ipv6Subnet::new(addr, prefix).unwrap();
            let mask = ipv6_mask(prefix);
            assert_eq!(subnet.network, addr & mask);
            assert_eq!(subnet.last, subnet.network | !mask);
            assert!(subnet.network <= addr && addr <= subnet.last);
        }
    }
}

#[test]
fn containment_is_the_mask_test() {
    let cidrs = ["192.168.1.77/24", "10.0.0.0/8", "0.0.0.0/0", "10.0.0.1/32", "172.16.0.0/12"];
    let addresses: [u32; 8] = [
        0,
        0x0a00_0001,
        0x0a00_0002,
        0xc0a8_0100,
        0xc0a8_01ff,
        0xc0a8_0200,
        0xac1f_ffff,
        u32::MAX,
    ];
    for cidr in cidrs {
        let subnet = Ipv4Subnet::from_cidr(cidr).unwrap();
        for addr in addresses {
            let result = check_ipv4_contains(cidr, &ipv4_to_string(addr)).unwrap();
            assert_eq!(result.contained, (addr & subnet.mask) == subnet.network);
            assert_eq!(
                result.contained,
                subnet.network <= addr && addr <= subnet.broadcast
            );
        }
    }
    let subnet = Ipv6Subnet::from_cidr("2001:db8::/32").unwrap();
    let addresses: [u128; 4] = [
        0x2001_0db8_0000_0000_0000_0000_0000_0000,
        0x2001_0db8_ffff_ffff_ffff_ffff_ffff_ffff,
        0x2001_0db9_0000_0000_0000_0000_0000_0000,
        0x2001_0db7_ffff_ffff_ffff_ffff_ffff_ffff,
    ];
    for addr in addresses {
        let result = check_ipv6_contains("2001:db8::/32", &ipv6_to_string(addr)).unwrap();
        assert_eq!(result.contained, (addr & ipv6_mask(32)) == subnet.network);
    }
}

#[test]
fn scenario_summarize_adjacent_blocks() {
    let result =
        summarize_ipv4(&["192.168.0.0/24".to_string(), "192.168.1.0/24".to_string()]).unwrap();
    assert_eq!(result.cidrs.len(), 1);
    assert_eq!(result.cidrs[0].network_address(), "192.168.0.0");
    assert_eq!(result.cidrs[0].prefix_length, 23);
}

#[test]
fn scenario_split_to_the_maximum() {
    let result = generate_ipv4_subnets("192.168.0.0/22", 27, None).unwrap();
    assert_eq!(result.subnets.len(), 32);
    assert_eq!(result.subnets[0].input, "192.168.0.0/27");
    assert_eq!(result.subnets[1].input, "192.168.0.32/27");
    assert_eq!(count_subnets("192.168.0.0/22", 27).unwrap().available_subnets, "32");
}
