// What the command line and the HTTP interface answer, as far as the library
// decides it.

use ipcalc::batch::{
    process_batch, process_batch_with_limit, BatchEntryResult, BatchResult, SubnetResult,
};
use ipcalc::config::ServerConfig;
use ipcalc::contains::{check_ipv4_contains, check_ipv6_contains};
use ipcalc::error::IpCalcError;
use ipcalc::from_range::{from_range_ipv4, from_range_ipv6};
use ipcalc::ipv4::Ipv4Subnet;
use ipcalc::ipv6::Ipv6Subnet;
use ipcalc::output::{CsvOutput, TextOutput};
use ipcalc::subnet_generator::{
    count_request, count_subnets, generate_ipv4_subnets, generate_ipv4_subnets_with_limit,
    generate_ipv6_subnets, generate_ipv6_subnets_with_limit,
};
use ipcalc::summarize::{summarize_ipv4, summarize_ipv6};
use ipcalc::text::input_lines;

fn strings(items: &[&str]) -> Vec<String> {
    items.iter().map(|s| s.to_string()).collect()
}

fn is_v4(result: &BatchResult, index: usize) -> bool {
    match &result.results[index].result {
        BatchEntryResult::Success { subnet } => matches!(subnet.as_ref(), SubnetResult::V4(_)),
        BatchEntryResult::Failure { .. } => false,
    }
}

fn is_v6(result: &BatchResult, index: usize) -> bool {
    match &result.results[index].result {
        BatchEntryResult::Success { subnet } => matches!(subnet.as_ref(), SubnetResult::V6(_)),
        BatchEntryResult::Failure { .. } => false,
    }
}

fn is_error(result: &BatchResult, index: usize) -> bool {
    matches!(&result.results[index].result, BatchEntryResult::Failure { .. })
}

#[test]
fn test_ipv4_json_output() {
    let subnet = Ipv4Subnet::from_cidr("192.168.1.0/24").unwrap();
    assert_eq!(subnet.network_address(), "192.168.1.0");
    assert_eq!(subnet.broadcast_address(), "192.168.1.255");
    assert_eq!(subnet.prefix_length, 24);
    assert_eq!(subnet.usable_hosts, 254);
    assert_eq!(subnet.address_type, "Private (RFC 1918)");
}

#[test]
fn test_ipv4_text_output() {
    let stdout = Ipv4Subnet::from_cidr("10.0.0.0/8").unwrap().to_text();
    assert!(stdout.contains("IPv4 Subnet Calculator"));
    assert!(stdout.contains("Network Address:   10.0.0.0"));
    assert!(stdout.contains("Broadcast Address: 10.255.255.255"));
    assert!(stdout.contains("Address Type:      Private (RFC 1918)"));
}

#[test]
fn test_ipv6_json_output() {
    let subnet = Ipv6Subnet::from_cidr("2001:db8::/32").unwrap();
    assert_eq!(subnet.network_address(), "2001:db8::");
    assert_eq!(subnet.prefix_length, 32);
    assert_eq!(subnet.address_type, "Documentation (RFC 3849)");
}

#[test]
fn test_ipv6_text_output() {
    let stdout = Ipv6Subnet::from_cidr("fe80::1/64").unwrap().to_text();
    assert!(stdout.contains("IPv6 Subnet Calculator"));
    assert!(stdout.contains("Link-Local Unicast (RFC 4291)"));
}

#[test]
fn test_split_ipv4() {
    let result = generate_ipv4_subnets("192.168.0.0/22", 27, count_request(Some(5), false).unwrap())
        .unwrap();
    assert_eq!(result.new_prefix, 27);
    assert_eq!(result.requested_count, 5);
    assert_eq!(result.subnets.len(), 5);
    assert_eq!(result.subnets[0].network_address(), "192.168.0.0");
    assert_eq!(result.subnets[1].network_address(), "192.168.0.32");
}

#[test]
fn test_split_ipv6() {
    let result = generate_ipv6_subnets("2001:db8::/32", 48, Some(3)).unwrap();
    assert_eq!(result.new_prefix, 48);
    assert_eq!(result.subnets.len(), 3);
}

#[test]
fn test_invalid_ipv4() {
    assert!(Ipv4Subnet::from_cidr("999.999.999.999/24").is_err());
}

#[test]
fn integration_tests_test_invalid_prefix() {
    assert!(Ipv4Subnet::from_cidr("192.168.1.0/33").is_err());
}

#[test]
fn test_split_too_many_subnets() {
    // /22 can only fit 32 /27 subnets, requesting 100 should fail
    assert!(generate_ipv4_subnets("192.168.0.0/22", 27, Some(100)).is_err());
}

#[test]
fn test_split_ipv4_max() {
    let result =
        generate_ipv4_subnets("192.168.0.0/22", 27, count_request(None, true).unwrap()).unwrap();
    // /22 to /27 is 5 bits difference, so 32 subnets
    assert_eq!(result.requested_count, 32);
    assert_eq!(result.subnets.len(), 32);
}

#[test]
fn test_split_ipv6_max() {
    let result =
        generate_ipv6_subnets("2001:db8:abcd::/48", 52, count_request(None, true).unwrap())
            .unwrap();
    // /48 to /52 is 4 bits difference, so 16 subnets
    assert_eq!(result.requested_count, 16);
    assert_eq!(result.subnets.len(), 16);
}

#[test]
fn test_split_requires_count_or_max() {
    // Neither --count nor --max should fail
    assert_eq!(count_request(None, false), None);
}

#[test]
fn test_direct_ipv4() {
    let subnet = Ipv4Subnet::from_cidr("192.168.1.0/24").unwrap();
    assert_eq!(subnet.network_address(), "192.168.1.0");
    assert_eq!(subnet.broadcast_address(), "192.168.1.255");
    assert_eq!(subnet.prefix_length, 24);
}

#[test]
fn test_direct_ipv6() {
    let subnet = Ipv6Subnet::from_cidr("2001:db8::/32").unwrap();
    assert_eq!(subnet.network_address(), "2001:db8::");
    assert_eq!(subnet.prefix_length, 32);
    assert_eq!(subnet.address_type, "Documentation (RFC 3849)");
}

#[test]
fn test_direct_ipv4_text_format() {
    let stdout = Ipv4Subnet::from_cidr("10.0.0.0/8").unwrap().to_text();
    assert!(stdout.contains("IPv4 Subnet Calculator"));
    assert!(stdout.contains("Network Address:   10.0.0.0"));
}

#[test]
fn test_contains_ipv4_json() {
    let result = check_ipv4_contains("192.168.1.0/24", "192.168.1.100").unwrap();
    assert_eq!(result.cidr, "192.168.1.0/24");
    assert_eq!(result.address, "192.168.1.100");
    assert_eq!(result.contained, true);
    assert_eq!(result.network_address, "192.168.1.0");
    assert_eq!(result.broadcast_address, "192.168.1.255");
}

#[test]
fn test_contains_ipv4_not_contained() {
    let result = check_ipv4_contains("192.168.1.0/24", "10.0.0.1").unwrap();
    assert_eq!(result.contained, false);
}

#[test]
fn test_contains_ipv6_json() {
    let result = check_ipv6_contains("2001:db8::/32", "2001:db8::1").unwrap();
    assert_eq!(result.contained, true);
    assert_eq!(result.address, "2001:db8::1");
}

#[test]
fn test_contains_ipv4_text() {
    let stdout = check_ipv4_contains("192.168.1.0/24", "192.168.1.100").unwrap().to_text();
    assert!(stdout.contains("Address Containment Check"));
    assert!(stdout.contains("Contained:         Yes"));
    assert!(stdout.contains("Network Address:   192.168.1.0"));
}

#[test]
fn test_contains_invalid_address() {
    assert!(check_ipv4_contains("192.168.1.0/24", "not-an-ip").is_err());
}

#[test]
fn test_split_count_only_ipv4() {
    let summary = count_subnets("192.168.0.0/22", 27).unwrap();
    assert_eq!(summary.available_subnets, "32");
    assert_eq!(summary.new_prefix, 27);
}

#[test]
fn test_split_count_only_ipv6() {
    let summary = count_subnets("2001:db8::/64", 96).unwrap();
    assert_eq!(summary.available_subnets, "4294967296");
    assert_eq!(summary.new_prefix, 96);
}

#[test]
fn test_split_count_only_ipv6_huge() {
    let summary = count_subnets("2001:db8::/32", 128).unwrap();
    assert_eq!(summary.available_subnets, "2^96");
}

#[test]
fn test_split_limit_exceeded_ipv4() {
    let error = generate_ipv4_subnets("10.0.0.0/8", 32, None).unwrap_err();
    assert!(error.to_string().contains("limit"));
}

#[test]
fn test_split_limit_exceeded_ipv6() {
    let error = generate_ipv6_subnets("2001:db8::/32", 64, None).unwrap_err();
    assert!(error.to_string().contains("limit"));
}

#[test]
fn test_summarize_ipv4_json() {
    let result = summarize_ipv4(&strings(&["192.168.0.0/24", "192.168.1.0/24"])).unwrap();
    assert_eq!(result.input_count, 2);
    assert_eq!(result.output_count, 1);
    assert_eq!(result.cidrs[0].network_address(), "192.168.0.0");
    assert_eq!(result.cidrs[0].prefix_length, 23);
}

#[test]
fn test_summarize_ipv4_text() {
    let stdout = summarize_ipv4(&strings(&["192.168.0.0/24", "192.168.1.0/24"]))
        .unwrap()
        .to_text();
    assert!(stdout.contains("CIDR Summarization"));
    assert!(stdout.contains("Input CIDRs:   2"));
    assert!(stdout.contains("Output CIDRs:  1"));
}

#[test]
fn test_summarize_ipv6_json() {
    let result = summarize_ipv6(&strings(&["2001:db8::/48", "2001:db8:1::/48"])).unwrap();
    assert_eq!(result.input_count, 2);
    assert_eq!(result.output_count, 1);
    assert_eq!(result.cidrs[0].network_address(), "2001:db8::");
    assert_eq!(result.cidrs[0].prefix_length, 47);
}

#[test]
fn test_from_range_ipv4_json() {
    let result = from_range_ipv4("192.168.1.10", "192.168.1.20").unwrap();
    assert_eq!(result.start_address, "192.168.1.10");
    assert_eq!(result.end_address, "192.168.1.20");
    assert!(result.cidr_count > 1);
    assert!(result.cidrs.len() > 1);
    // First CIDR should start at .10
    assert_eq!(result.cidrs[0].network_address(), "192.168.1.10");
}

#[test]
fn test_from_range_ipv4_text() {
    let stdout = from_range_ipv4("192.168.1.10", "192.168.1.20").unwrap().to_text();
    assert!(stdout.contains("IP Range to CIDR"));
    assert!(stdout.contains("Start Address: 192.168.1.10"));
    assert!(stdout.contains("End Address:   192.168.1.20"));
}

#[test]
fn test_from_range_ipv4_single_address() {
    let result = from_range_ipv4("10.0.0.1", "10.0.0.1").unwrap();
    assert_eq!(result.cidr_count, 1);
    assert_eq!(result.cidrs[0].prefix_length, 32);
}

#[test]
fn test_from_range_ipv6_json() {
    let result = from_range_ipv6("2001:db8::1", "2001:db8::ff").unwrap();
    assert_eq!(result.start_address, "2001:db8::1");
    assert_eq!(result.end_address, "2001:db8::ff");
    assert!(result.cidr_count > 0);
}

#[test]
fn test_from_range_invalid_start_gt_end() {
    assert!(from_range_ipv4("192.168.1.20", "192.168.1.10").is_err());
}

#[test]
fn test_from_range_invalid_address() {
    assert!(from_range_ipv4("not-an-ip", "192.168.1.10").is_err());
}

#[test]
fn test_batch_multiple_cidrs() {
    let result = process_batch(&strings(&["192.168.1.0/24", "10.0.0.0/8"])).unwrap();
    assert_eq!(result.count, 2);
    assert_eq!(result.results.len(), 2);
}

#[test]
fn test_batch_mixed_v4_v6() {
    let result = process_batch(&strings(&["192.168.1.0/24", "2001:db8::/32"])).unwrap();
    assert_eq!(result.count, 2);
    assert!(is_v4(&result, 0));
    assert!(is_v6(&result, 1));
}

#[test]
fn test_batch_with_invalid_cidr() {
    let result =
        process_batch(&strings(&["192.168.1.0/24", "not-valid", "10.0.0.0/8"])).unwrap();
    assert_eq!(result.count, 3);
    // First and third should succeed, second should have error
    assert!(is_v4(&result, 0));
    assert!(is_error(&result, 1));
    assert!(is_v4(&result, 2));
}

#[test]
fn test_batch_text_output() {
    let stdout = process_batch(&strings(&["192.168.1.0/24", "10.0.0.0/8"])).unwrap().to_text();
    assert!(stdout.contains("Batch CIDR Processing"));
    assert!(stdout.contains("Total CIDRs: 2"));
    assert!(stdout.contains("[1/2]"));
    assert!(stdout.contains("[2/2]"));
}

#[test]
fn test_stdin_batch() {
    let input = "192.168.1.0/24\n# comment\n\n10.0.0.0/8\n2001:db8::/32\n";
    let result = process_batch(&input_lines(input)).unwrap();
    assert_eq!(result.count, 3);
    assert_eq!(result.results.len(), 3);
}

#[test]
fn test_stdin_single_cidr() {
    let input = "192.168.1.0/24\n";
    let lines = input_lines(input);
    assert_eq!(lines, vec!["192.168.1.0/24"]);
    assert_eq!(Ipv4Subnet::from_cidr(&lines[0]).unwrap().network_address(), "192.168.1.0");
}

#[test]
fn test_v4_valid() {
    let subnet = Ipv4Subnet::from_cidr("192.168.1.0/24").unwrap();
    assert_eq!(subnet.network_address(), "192.168.1.0");
    assert_eq!(subnet.broadcast_address(), "192.168.1.255");
    assert_eq!(subnet.prefix_length, 24);
}

#[test]
fn test_v4_invalid() {
    assert!(Ipv4Subnet::from_cidr("invalid").is_err());
}

#[test]
fn test_v6_valid() {
    let subnet = Ipv6Subnet::from_cidr("2001:db8::/32").unwrap();
    assert_eq!(subnet.network_address(), "2001:db8::");
    assert_eq!(subnet.prefix_length, 32);
}

#[test]
fn test_v6_invalid() {
    assert!(Ipv6Subnet::from_cidr("invalid").is_err());
}

#[test]
fn test_v4_split() {
    let limit = ServerConfig::default().max_generated_subnets;
    let wanted = count_request(Some(5), false).unwrap();
    let result = generate_ipv4_subnets_with_limit("192.168.0.0/24", 27, wanted, limit).unwrap();
    assert_eq!(result.subnets.len(), 5);
}

#[test]
fn test_v4_split_max() {
    let limit = ServerConfig::default().max_generated_subnets;
    let wanted = count_request(None, true).unwrap();
    let result = generate_ipv4_subnets_with_limit("192.168.0.0/24", 26, wanted, limit).unwrap();
    // /24 split into /26 = 2^(26-24) = 4 subnets
    assert_eq!(result.subnets.len(), 4);
}

#[test]
fn test_v4_split_missing_params() {
    assert!(count_request(None, false).is_none());
}

#[test]
fn test_v6_split() {
    let limit = ServerConfig::default().max_generated_subnets;
    let result = generate_ipv6_subnets_with_limit("2001:db8::/32", 48, Some(3), limit).unwrap();
    assert_eq!(result.subnets.len(), 3);
}

#[test]
fn test_v4_contains_true() {
    assert!(check_ipv4_contains("192.168.1.0/24", "192.168.1.100").unwrap().contained);
}

#[test]
fn test_v4_contains_false() {
    assert!(!check_ipv4_contains("192.168.1.0/24", "10.0.0.1").unwrap().contained);
}

#[test]
fn test_v4_contains_invalid() {
    assert!(check_ipv4_contains("192.168.1.0/24", "bad").is_err());
}

#[test]
fn test_v6_contains() {
    assert!(check_ipv6_contains("2001:db8::/32", "2001:db8::1").unwrap().contained);
}

#[test]
fn test_v4_split_count_only() {
    let summary = count_subnets("192.168.0.0/22", 27).unwrap();
    assert_eq!(summary.available_subnets, "32");
    assert_eq!(summary.new_prefix, 27);
}

#[test]
fn test_v6_split_count_only() {
    let summary = count_subnets("2001:db8::/64", 96).unwrap();
    assert_eq!(summary.available_subnets, "4294967296");
    assert_eq!(summary.new_prefix, 96);
}

#[test]
fn test_v6_split_limit_exceeded() {
    let limit = ServerConfig::default().max_generated_subnets;
    let wanted = count_request(None, true).unwrap();
    let error = generate_ipv6_subnets_with_limit("2001:db8::/32", 64, wanted, limit).unwrap_err();
    assert!(error.to_string().contains("limit"));
}

#[test]
fn test_batch_v4() {
    let limit = ServerConfig::default().max_batch_size;
    let result =
        process_batch_with_limit(&strings(&["192.168.1.0/24", "10.0.0.0/8"]), limit).unwrap();
    assert_eq!(result.count, 2);
    assert_eq!(result.results.len(), 2);
}

#[test]
fn api_tests_test_batch_mixed() {
    let limit = ServerConfig::default().max_batch_size;
    let result =
        process_batch_with_limit(&strings(&["192.168.1.0/24", "2001:db8::/32"]), limit).unwrap();
    assert_eq!(result.count, 2);
    assert!(is_v4(&result, 0));
    assert!(is_v6(&result, 1));
}

#[test]
fn api_tests_test_batch_with_invalid() {
    let limit = ServerConfig::default().max_batch_size;
    let result =
        process_batch_with_limit(&strings(&["192.168.1.0/24", "invalid", "10.0.0.0/8"]), limit)
            .unwrap();
    assert_eq!(result.count, 3);
    assert!(is_v4(&result, 0));
    assert!(is_error(&result, 1));
    assert!(is_v4(&result, 2));
}

#[test]
fn api_tests_test_batch_empty() {
    let limit = ServerConfig::default().max_batch_size;
    assert!(process_batch_with_limit(&[], limit).is_err());
}

#[test]
fn test_v4_csv_format() {
    let body = Ipv4Subnet::from_cidr("192.168.1.0/24").unwrap().to_csv().unwrap();
    let lines: Vec<&str> = body.lines().collect();
    assert!(lines[0].contains("network_address"));
    assert!(lines[1].contains("192.168.1.0"));
}

#[test]
fn test_v6_csv_format() {
    let body = Ipv6Subnet::from_cidr("2001:db8::/32").unwrap().to_csv().unwrap();
    let lines: Vec<&str> = body.lines().collect();
    assert!(lines[0].contains("network_address"));
    assert!(lines[1].contains("2001:db8::"));
}

#[test]
fn test_v4_split_csv_format() {
    let body = generate_ipv4_subnets("192.168.0.0/24", 26, None).unwrap().to_csv().unwrap();
    let data_lines: Vec<&str> = body
        .lines()
        .filter(|l| !l.starts_with('#') && !l.is_empty())
        .collect();
    // header + 4 subnets
    assert_eq!(data_lines.len(), 5);
}

#[test]
fn api_tests_test_batch_size_exceeded() {
    let config = ServerConfig {
        max_batch_size: 2,
        ..Default::default()
    };
    // 3 CIDRs with max_batch_size=2 should fail
    let error = process_batch_with_limit(
        &strings(&["192.168.1.0/24", "10.0.0.0/8", "172.16.0.0/12"]),
        config.max_batch_size,
    )
    .unwrap_err();
    assert!(error.to_string().contains("exceeds maximum"));
}

#[test]
fn test_input_too_long_rejected() {
    let long_cidr = "a".repeat(300);
    let error = Ipv4Subnet::from_cidr(&long_cidr).unwrap_err();
    assert_eq!(error, IpCalcError::InputTooLong { length: 300, limit: 256 });
    assert!(error.to_string().contains("exceeds maximum length"));
}

#[test]
fn test_summarize_empty() {
    assert_eq!(summarize_ipv4(&[]), Err(IpCalcError::EmptyCidrList));
    assert_eq!(
        IpCalcError::EmptyCidrList.to_string(),
        "No CIDRs provided for summarization"
    );
}

#[test]
fn test_swagger_disabled_by_default() {
    assert!(!ServerConfig::default().enable_swagger);
}
