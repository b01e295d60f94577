use ipcalc::error::IpCalcError;
use ipcalc::summarize::{
    merge_siblings, normalize_and_sort, remove_contained, summarize_entries, summarize_ipv4,
    summarize_ipv4_with_limit, summarize_ipv6, summarize_ipv6_with_limit,
};

fn strings(items: &[&str]) -> Vec<String> {
    items.iter().map(|s| s.to_string()).collect()
}

fn cidrs_v4(items: &[&str]) -> Vec<String> {
    summarize_ipv4(&strings(items))
        .unwrap()
        .cidrs
        .iter()
        .map(|s| format!("{}/{}", s.network_address(), s.prefix_length))
        .collect()
}

fn cidrs_v6(items: &[&str]) -> Vec<String> {
    summarize_ipv6(&strings(items))
        .unwrap()
        .cidrs
        .iter()
        .map(|s| format!("{}/{}", s.network_address(), s.prefix_length))
        .collect()
}

#[test]
fn test_adjacent_merge_ipv4() {
    let result =
        summarize_ipv4(&["192.168.0.0/24".to_string(), "192.168.1.0/24".to_string()]).unwrap();
    assert_eq!(result.input_count, 2);
    assert_eq!(result.output_count, 1);
    assert_eq!(result.cidrs[0].network_address(), "192.168.0.0");
    assert_eq!(result.cidrs[0].prefix_length, 23);
}

#[test]
fn test_containment_collapse() {
    let result = summarize_ipv4(&["10.0.0.0/8".to_string(), "10.1.0.0/16".to_string()]).unwrap();
    assert_eq!(result.output_count, 1);
    assert_eq!(result.cidrs[0].network_address(), "10.0.0.0");
    assert_eq!(result.cidrs[0].prefix_length, 8);
}

#[test]
fn test_cascade_merge() {
    // 4x /24 -> /22
    let result = summarize_ipv4(&[
        "10.0.0.0/24".to_string(),
        "10.0.1.0/24".to_string(),
        "10.0.2.0/24".to_string(),
        "10.0.3.0/24".to_string(),
    ])
    .unwrap();
    assert_eq!(result.output_count, 1);
    assert_eq!(result.cidrs[0].network_address(), "10.0.0.0");
    assert_eq!(result.cidrs[0].prefix_length, 22);
}

#[test]
fn test_duplicates() {
    let result =
        summarize_ipv4(&["192.168.1.0/24".to_string(), "192.168.1.0/24".to_string()]).unwrap();
    assert_eq!(result.output_count, 1);
    assert_eq!(result.cidrs[0].network_address(), "192.168.1.0");
    assert_eq!(result.cidrs[0].prefix_length, 24);
}

#[test]
fn test_single_input() {
    let result = summarize_ipv4(&["172.16.0.0/12".to_string()]).unwrap();
    assert_eq!(result.input_count, 1);
    assert_eq!(result.output_count, 1);
    assert_eq!(result.cidrs[0].network_address(), "172.16.0.0");
    assert_eq!(result.cidrs[0].prefix_length, 12);
}

#[test]
fn test_non_normalized_input() {
    // 192.168.1.50/24 should normalize to 192.168.1.0/24
    let result = summarize_ipv4(&[
        "192.168.0.50/24".to_string(),
        "192.168.1.100/24".to_string(),
    ])
    .unwrap();
    assert_eq!(result.output_count, 1);
    assert_eq!(result.cidrs[0].network_address(), "192.168.0.0");
    assert_eq!(result.cidrs[0].prefix_length, 23);
}

#[test]
fn test_prefix_zero() {
    let result = summarize_ipv4(&["0.0.0.0/0".to_string()]).unwrap();
    assert_eq!(result.output_count, 1);
    assert_eq!(result.cidrs[0].prefix_length, 0);
}

#[test]
fn test_non_adjacent_no_merge() {
    let result = summarize_ipv4(&["10.0.0.0/24".to_string(), "10.0.2.0/24".to_string()]).unwrap();
    assert_eq!(result.output_count, 2);
}

#[test]
fn test_ipv6_adjacent_merge() {
    let result =
        summarize_ipv6(&["2001:db8::/48".to_string(), "2001:db8:1::/48".to_string()]).unwrap();
    assert_eq!(result.input_count, 2);
    assert_eq!(result.output_count, 1);
    assert_eq!(result.cidrs[0].network_address(), "2001:db8::");
    assert_eq!(result.cidrs[0].prefix_length, 47);
}

#[test]
fn test_empty_input() {
    let result = summarize_ipv4(&[]);
    assert!(result.is_err());
}

#[test]
fn test_summarize_input_limit_exceeded() {
    let cidrs: Vec<String> = (0..5).map(|i| format!("10.{}.0.0/16", i)).collect();
    let result = summarize_ipv4_with_limit(&cidrs, 3);
    assert!(result.is_err());
    let err = result.unwrap_err().to_string();
    assert!(err.contains("exceeds maximum"));
}

#[test]
fn summarize_errors_carry_their_values() {
    assert_eq!(summarize_ipv4(&[]), Err(IpCalcError::EmptyCidrList));
    assert_eq!(summarize_ipv6(&[]), Err(IpCalcError::EmptyCidrList));
    assert_eq!(summarize_ipv4_with_limit(&[], 0), Err(IpCalcError::EmptyCidrList));
    assert_eq!(
        summarize_ipv4_with_limit(&strings(&["10.0.0.0/8", "bad", "11.0.0.0/8"]), 2),
        Err(IpCalcError::SummarizeInputLimitExceeded { count: 3, limit: 2 })
    );
    assert_eq!(
        summarize_ipv6_with_limit(&strings(&["::/8", "100::/8"]), 1),
        Err(IpCalcError::SummarizeInputLimitExceeded { count: 2, limit: 1 })
    );
    assert_eq!(
        summarize_ipv4(&strings(&["10.0.0.0/8", "bad", "also/bad"])),
        Err(IpCalcError::InvalidCidr("bad".to_string()))
    );
    assert_eq!(
        summarize_ipv4(&strings(&["10.0.0.0/8", "10.0.0.0/40"])),
        Err(IpCalcError::InvalidPrefixLength(40))
    );
    assert_eq!(
        summarize_ipv6(&strings(&["2001:db8::/32", "10.0.0.0/8"])),
        Err(IpCalcError::InvalidIpv6Address("10.0.0.0".to_string()))
    );
    assert_eq!(summarize_ipv4_with_limit(&strings(&["10.0.0.0/8"]), 1).unwrap().output_count, 1);
}

#[test]
fn summarize_merges_across_passes() {
    assert_eq!(
        cidrs_v4(&[
            "10.0.0.0/25",
            "10.0.0.128/25",
            "10.0.1.0/24",
            "10.0.2.0/23",
            "10.0.4.0/22",
            "10.0.8.0/21",
        ]),
        vec!["10.0.0.0/20"]
    );
    assert_eq!(cidrs_v4(&["0.0.0.0/1", "128.0.0.0/1"]), vec!["0.0.0.0/0"]);
    assert_eq!(cidrs_v6(&["::/1", "8000::/1"]), vec!["::/0"]);
    assert_eq!(
        cidrs_v4(&["10.0.1.0/24", "10.0.2.0/24"]),
        vec!["10.0.1.0/24", "10.0.2.0/24"]
    );
    assert_eq!(
        cidrs_v4(&["10.0.3.0/24", "10.0.0.0/24", "10.0.3.128/25", "10.0.1.0/24", "10.0.1.7/32"]),
        vec!["10.0.0.0/23", "10.0.3.0/24"]
    );
    assert_eq!(
        cidrs_v4(&["255.255.255.255/32", "255.255.255.254/32", "0.0.0.0/32"]),
        vec!["0.0.0.0/32", "255.255.255.254/31"]
    );
    assert_eq!(
        cidrs_v6(&["2001:db8::/34", "2001:db8:4000::/34", "2001:db8:8000::/33", "2001:db8::1/128"]),
        vec!["2001:db8::/32"]
    );
    assert_eq!(
        cidrs_v6(&["ffff:ffff:ffff:ffff:ffff:ffff:ffff:ffff/128", "ffff:ffff:ffff:ffff:ffff:ffff:ffff:fffe/128"]),
        vec!["ffff:ffff:ffff:ffff:ffff:ffff:ffff:fffe/127"]
    );
}

#[test]
fn summarize_twice_changes_nothing() {
    let inputs: [&[&str]; 4] = [
        &["192.168.0.0/24", "192.168.1.0/24", "10.0.0.0/8", "10.1.0.0/16"],
        &["10.0.0.1/32", "10.0.0.2/32", "10.0.0.3/32", "10.0.0.4/32", "10.0.0.0/32"],
        &["0.0.0.0/0", "1.2.3.4/32"],
        &["172.16.5.0/24", "172.16.4.0/24", "172.16.7.0/24", "172.16.6.0/25"],
    ];
    for input in inputs {
        let once = cidrs_v4(input);
        let refs: Vec<&str> = once.iter().map(|s| s.as_str()).collect();
        let twice = cidrs_v4(&refs);
        assert_eq!(once, twice);
    }
    let once = cidrs_v6(&["2001:db8::/48", "2001:db8:1::/48", "2001:db8:2::/48"]);
    assert_eq!(once, vec!["2001:db8::/47", "2001:db8:2::/48"]);
    let refs: Vec<&str> = once.iter().map(|s| s.as_str()).collect();
    assert_eq!(cidrs_v6(&refs), once);
}

#[test]
fn summarize_does_not_depend_on_the_order() {
    let items = ["10.0.2.0/24", "10.0.0.0/24", "10.0.3.0/24", "10.0.1.0/24", "10.0.9.0/24", "10.0.2.128/25"];
    let expected = vec!["10.0.0.0/22", "10.0.9.0/24"];
    let mut order: Vec<usize> = (0..items.len()).collect();
    for round in 0..items.len() * 2 {
        order.rotate_left(1);
        if round % 2 == 1 {
            order.swap(0, 3);
        }
        let permuted: Vec<&str> = order.iter().map(|&i| items[i]).collect();
        assert_eq!(cidrs_v4(&permuted), expected);
    }
    let reversed: Vec<&str> = items.iter().rev().copied().collect();
    assert_eq!(cidrs_v4(&reversed), expected);
}

#[test]
fn summarize_result_counts_inputs_and_outputs() {
    let result = summarize_ipv4(&strings(&["10.0.0.0/24", "10.0.0.0/24", "10.0.1.0/24", "10.0.5.0/24"]))
        .unwrap();
    assert_eq!(result.input_count, 4);
    assert_eq!(result.output_count, 2);
    assert_eq!(result.cidrs.len(), 2);
    assert_eq!(result.cidrs[0].input, "10.0.0.0/23");
    assert_eq!(result.cidrs[1].input, "10.0.5.0/24");
    assert_eq!(result.cidrs[0].broadcast_address(), "10.0.1.255");
}

#[test]
fn stages_of_the_pipeline() {
    let mut entries: Vec<(u128, u8)> = vec![
        (0x0a00_0300, 24),
        (0x0a00_0007, 24),
        (0x0a00_0100, 24),
        (0x0a00_0080, 25),
        (0x0a00_0000, 24),
        (0x0a00_0000, 16),
    ];
    normalize_and_sort(&mut entries, 32);
    assert_eq!(
        entries,
        vec![
            (0x0a00_0000, 16),
            (0x0a00_0000, 24),
            (0x0a00_0080, 25),
            (0x0a00_0100, 24),
            (0x0a00_0300, 24)
        ]
    );
    remove_contained(&mut entries, 32);
    assert_eq!(entries, vec![(0x0a00_0000, 16)]);

    let mut entries: Vec<(u128, u8)> =
        vec![(0x0a00_0000, 24), (0x0a00_0080, 25), (0x0a00_0100, 24), (0x0a00_0300, 24)];
    remove_contained(&mut entries, 32);
    assert_eq!(entries, vec![(0x0a00_0000, 24), (0x0a00_0100, 24), (0x0a00_0300, 24)]);
    merge_siblings(&mut entries, 32);
    assert_eq!(entries, vec![(0x0a00_0000, 23), (0x0a00_0300, 24)]);

    let mut entries: Vec<(u128, u8)> = vec![(0x0a00_0100, 24), (0x0a00_0200, 24)];
    merge_siblings(&mut entries, 32);
    assert_eq!(entries, vec![(0x0a00_0100, 24), (0x0a00_0200, 24)]);

    let mut entries: Vec<(u128, u8)> = vec![(1 << 127, 1), (0, 1)];
    summarize_entries(&mut entries, 128);
    assert_eq!(entries, vec![(0, 0)]);
    let mut entries: Vec<(u128, u8)> = vec![];
    summarize_entries(&mut entries, 32);
    assert_eq!(entries, vec![]);
    let mut entries: Vec<(u128, u8)> = vec![(0xffff_ffff, 0), (5, 32)];
    summarize_entries(&mut entries, 32);
    assert_eq!(entries, vec![(0, 0)]);
}

#[test]
fn summarize_handles_many_inputs() {
    let cidrs: Vec<String> = (0..4096u32)
        .rev()
        .map(|i| format!("10.{}.{}.0/24", i / 256, i % 256))
        .collect();
    let result = summarize_ipv4(&cidrs).unwrap();
    assert_eq!(result.input_count, 4096);
    assert_eq!(result.output_count, 1);
    assert_eq!(result.cidrs[0].input, "10.0.0.0/12");
}
