use ipcalc::error::IpCalcError;
use ipcalc::text::{decimal_string, trim_string};

#[test]
fn every_error_renders_its_message() {
    let cases: Vec<(IpCalcError, &str)> = vec![
        (
            IpCalcError::InvalidIpv4Address("1.2.3".to_string()),
            "Invalid IPv4 address: 1.2.3",
        ),
        (
            IpCalcError::InvalidIpv6Address("::g".to_string()),
            "Invalid IPv6 address: ::g",
        ),
        (IpCalcError::InvalidCidr("x".to_string()), "Invalid CIDR notation: x"),
        (
            IpCalcError::InvalidPrefixLength(33),
            "Invalid prefix length: 33 (must be 0-32 for IPv4, 0-128 for IPv6)",
        ),
        (
            IpCalcError::InsufficientSubnets {
                requested: 100,
                available: 32,
                new_prefix: 27,
                original_prefix: 22,
            },
            "Cannot generate 100 /27 subnets from /22 (only 32 available)",
        ),
        (
            IpCalcError::InvalidSubnetSplit { new_prefix: 22, original_prefix: 24 },
            "New prefix length 22 must be greater than original prefix 24",
        ),
        (IpCalcError::Io("disk full".to_string()), "IO error: disk full"),
        (
            IpCalcError::SubnetLimitExceeded { count: "2^96".to_string(), limit: 1_000_000 },
            "Generating 2^96 subnets exceeds the limit of 1000000. Use --count-only to see the count, or -n to generate a smaller number.",
        ),
        (IpCalcError::Json("eof".to_string()), "JSON serialization error: eof"),
        (IpCalcError::Csv("bad".to_string()), "CSV serialization error: bad"),
        (IpCalcError::Yaml("bad".to_string()), "YAML serialization error: bad"),
        (IpCalcError::EmptyCidrList, "No CIDRs provided for summarization"),
        (
            IpCalcError::InvalidRange("10.0.0.2".to_string(), "10.0.0.1".to_string()),
            "Invalid range: start 10.0.0.2 is greater than end 10.0.0.1",
        ),
        (
            IpCalcError::BatchSizeExceeded { count: 5, limit: 3 },
            "Batch size 5 exceeds maximum of 3",
        ),
        (
            IpCalcError::FromRangeLimitExceeded { count: 3, limit: 2 },
            "Generated CIDR count 3 exceeds maximum of 2",
        ),
        (
            IpCalcError::SummarizeInputLimitExceeded { count: 10001, limit: 10000 },
            "Summarize input count 10001 exceeds maximum of 10000",
        ),
        (
            IpCalcError::InputTooLong { length: 300, limit: 256 },
            "Input string exceeds maximum length of 256 bytes",
        ),
        (
            IpCalcError::ConfigParse("line 3".to_string()),
            "Configuration parse error: line 3",
        ),
    ];
    for (error, message) in cases {
        assert_eq!(error.to_string(), message);
    }
}

#[test]
fn decimal_numerals() {
    assert_eq!(decimal_string(0), "0");
    assert_eq!(decimal_string(9), "9");
    assert_eq!(decimal_string(10), "10");
    assert_eq!(decimal_string(1_000_000), "1000000");
    assert_eq!(decimal_string(u128::MAX), "340282366920938463463374607431768211455");
}

#[test]
fn trimming_drops_unicode_white_space_at_both_ends() {
    assert_eq!(trim_string("  a b  "), "a b");
    assert_eq!(trim_string(""), "");
    assert_eq!(trim_string(" \t\r\n"), "");
    assert_eq!(trim_string("x"), "x");
    assert_eq!(trim_string("\u{2003}x\u{85}"), "x");
    assert_eq!(trim_string("\u{200b}x"), "\u{200b}x");
    assert_eq!(trim_string("\u{1680}\u{2028}\u{2029}\u{202f}\u{205f}\u{3000}\u{a0}\u{b}\u{c}é "), "é");
    let samples = ["  a  ", "\u{180e}a", "\u{feff}a", "\u{2000}a\u{200a}", "\u{1c}a", "\u{1f}a "];
    for s in samples {
        assert_eq!(trim_string(s), s.trim(), "{:?}", s);
    }
}
