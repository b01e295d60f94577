use ipcalc::api::{ApiOutputFormat, RouterConfig};
use ipcalc::batch::process_batch;
use ipcalc::cli::OutputFormatArg;
use ipcalc::config::ServerConfig;
use ipcalc::contains::check_ipv4_contains;
use ipcalc::from_range::{from_range_ipv4, from_range_ipv6};
use ipcalc::ipv4::Ipv4Subnet;
use ipcalc::ipv6::Ipv6Subnet;
use ipcalc::logging::{log_level_from_lowercase, parse_log_level, LogConfig, LogLevel};
use ipcalc::output::{
    output_format_from_lowercase, parse_output_format, OutputFormat, OutputWriter, TextOutput,
};
use ipcalc::subnet_generator::{count_subnets, generate_ipv4_subnets, generate_ipv6_subnets};
use ipcalc::summarize::{summarize_ipv4, summarize_ipv6};

#[test]
fn output_format_names_in_any_case() {
    assert_eq!(parse_output_format("json"), Ok(OutputFormat::Json));
    assert_eq!(parse_output_format("JSON"), Ok(OutputFormat::Json));
    assert_eq!(parse_output_format("Text"), Ok(OutputFormat::Text));
    assert_eq!(parse_output_format("PLAIN"), Ok(OutputFormat::Text));
    assert_eq!(parse_output_format("txt"), Ok(OutputFormat::Text));
    assert_eq!(parse_output_format("Csv"), Ok(OutputFormat::Csv));
    assert_eq!(parse_output_format("YAML"), Ok(OutputFormat::Yaml));
    assert_eq!(parse_output_format("yml"), Ok(OutputFormat::Yaml));
    assert_eq!(
        parse_output_format("XML"),
        Err("Unknown output format: XML".to_string())
    );
    assert_eq!(parse_output_format(""), Err("Unknown output format: ".to_string()));
    assert_eq!("Yml".parse::<OutputFormat>(), Ok(OutputFormat::Yaml));
    assert_eq!(
        "toml".parse::<OutputFormat>(),
        Err("Unknown output format: toml".to_string())
    );
    assert_eq!(OutputFormat::default(), OutputFormat::Json);
}

#[test]
fn output_format_from_a_lowered_name_is_exact() {
    assert_eq!(output_format_from_lowercase("json", "JSON"), Ok(OutputFormat::Json));
    assert_eq!(
        output_format_from_lowercase("JSON", "JSON"),
        Err("Unknown output format: JSON".to_string())
    );
    assert_eq!(
        output_format_from_lowercase("jso", "given"),
        Err("Unknown output format: given".to_string())
    );
}

#[test]
fn output_formats_convert_from_their_front_end_names() {
    assert_eq!(OutputFormat::from(ApiOutputFormat::Json), OutputFormat::Json);
    assert_eq!(OutputFormat::from(ApiOutputFormat::Text), OutputFormat::Text);
    assert_eq!(OutputFormat::from(ApiOutputFormat::Csv), OutputFormat::Csv);
    assert_eq!(OutputFormat::from(ApiOutputFormat::Yaml), OutputFormat::Yaml);
    assert_eq!(OutputFormat::from(OutputFormatArg::Json), OutputFormat::Json);
    assert_eq!(OutputFormat::from(OutputFormatArg::Text), OutputFormat::Text);
    assert_eq!(ApiOutputFormat::default(), ApiOutputFormat::Json);
    assert_eq!(OutputFormatArg::default(), OutputFormatArg::Json);
    let format: OutputFormat = ApiOutputFormat::Yaml.into();
    assert_eq!(format, OutputFormat::Yaml);
}

#[test]
fn output_writer_keeps_what_it_was_given() {
    let writer = OutputWriter::new(OutputFormat::Csv, Some("out.csv".to_string()));
    assert_eq!(writer.format(), OutputFormat::Csv);
    assert_eq!(writer.file_path(), &Some("out.csv".to_string()));
    let writer = OutputWriter::new(OutputFormat::Text, None);
    assert_eq!(writer.format(), OutputFormat::Text);
    assert_eq!(writer.file_path(), &None);
}

#[test]
fn log_levels_by_name() {
    assert_eq!(parse_log_level("trace"), Ok(LogLevel::Trace));
    assert_eq!(parse_log_level("DEBUG"), Ok(LogLevel::Debug));
    assert_eq!(parse_log_level("Info"), Ok(LogLevel::Info));
    assert_eq!(parse_log_level("warn"), Ok(LogLevel::Warn));
    assert_eq!(parse_log_level("WARNING"), Ok(LogLevel::Warn));
    assert_eq!(parse_log_level("error"), Ok(LogLevel::Error));
    assert_eq!(
        parse_log_level("Loud"),
        Err("Invalid log level 'Loud'. Valid levels: trace, debug, info, warn, error".to_string())
    );
    assert_eq!(log_level_from_lowercase("info", "INFO"), Ok(LogLevel::Info));
    assert_eq!(
        log_level_from_lowercase("INFO", "INFO"),
        Err("Invalid log level 'INFO'. Valid levels: trace, debug, info, warn, error".to_string())
    );
}

#[test]
fn log_config_builders() {
    let config = LogConfig::default();
    assert_eq!(config.level, LogLevel::Info);
    assert_eq!(config.file_path, None);
    assert!(!config.json_format);
    let config = LogConfig::new(LogLevel::Debug);
    assert_eq!(config.level, LogLevel::Debug);
    assert_eq!(config.file_path, None);
    assert!(!config.json_format);
    let config = config.with_json(true).with_file("/var/log/ipcalc.log".to_string());
    assert_eq!(config.level, LogLevel::Debug);
    assert_eq!(config.file_path, Some("/var/log/ipcalc.log".to_string()));
    assert!(config.json_format);
    let config = config.with_json(false);
    assert_eq!(config.file_path, Some("/var/log/ipcalc.log".to_string()));
    assert!(!config.json_format);
}

#[test]
fn server_config_defaults() {
    let config = ServerConfig::default();
    assert_eq!(config.max_batch_size, 10_000);
    assert_eq!(config.max_generated_cidrs, 1_000_000);
    assert_eq!(config.max_generated_subnets, 1_000_000);
    assert_eq!(config.max_summarize_inputs, 10_000);
    assert!(!config.enable_swagger);
    assert_eq!(RouterConfig::default().server, config);
}

#[test]
fn ipv4_subnet_report() {
    let subnet = Ipv4Subnet::from_cidr("10.0.0.0/8").unwrap();
    assert_eq!(
        subnet.to_text(),
        "IPv4 Subnet Calculator\n\
         ======================\n\
         Input:             10.0.0.0/8\n\
         Network Address:   10.0.0.0\n\
         Broadcast Address: 10.255.255.255\n\
         Subnet Mask:       255.0.0.0\n\
         Wildcard Mask:     0.255.255.255\n\
         Prefix Length:     /8\n\
         First Host:        10.0.0.1\n\
         Last Host:         10.255.255.254\n\
         Total Hosts:       16777216\n\
         Usable Hosts:      16777214\n\
         Network Class:     A\n\
         Private Address:   Yes\n\
         Address Type:      Private (RFC 1918)\n"
    );
    let text = Ipv4Subnet::from_cidr("8.8.8.8/32").unwrap().to_text();
    assert!(text.contains("Private Address:   No\n"));
    assert!(text.contains("Address Type:      Public\n"));
}

#[test]
fn ipv6_subnet_report() {
    let subnet = Ipv6Subnet::from_cidr("fe80::1/64").unwrap();
    assert_eq!(
        subnet.to_text(),
        "IPv6 Subnet Calculator\n\
         ======================\n\
         Input:               fe80::1/64\n\
         Network Address:     fe80::\n\
         Network (Full):      fe80:0000:0000:0000:0000:0000:0000:0000\n\
         Last Address:        fe80::ffff:ffff:ffff:ffff\n\
         Last Address (Full): fe80:0000:0000:0000:ffff:ffff:ffff:ffff\n\
         Prefix Length:       /64\n\
         Total Addresses:     18446744073709551616\n\
         Hextets:             fe80:0000:0000:0000:0000:0000:0000:0000\n\
         Address Type:        Link-Local Unicast (RFC 4291)\n"
    );
}

#[test]
fn contains_report() {
    let result = check_ipv4_contains("192.168.1.0/24", "192.168.1.100").unwrap();
    assert_eq!(
        result.to_text(),
        "Address Containment Check\n\
         =========================\n\
         Subnet:            192.168.1.0/24\n\
         Address:           192.168.1.100\n\
         Contained:         Yes\n\
         Network Address:   192.168.1.0\n\
         Broadcast Address: 192.168.1.255\n"
    );
    let result = check_ipv4_contains("192.168.1.0/24", "10.0.0.1").unwrap();
    assert!(result.to_text().contains("Contained:         No\n"));
}

#[test]
fn split_reports() {
    let result = generate_ipv4_subnets("192.168.0.0/30", 31, None).unwrap();
    assert_eq!(
        result.to_text(),
        "IPv4 Subnet Generator\n\
         =====================\n\
         Supernet: 192.168.0.0/30\n\
         New Prefix: /31\n\
         Generated 2 subnets:\n\
         \n  1. 192.168.0.0/31 (Hosts: 192.168.0.0-192.168.0.1)\n  2. 192.168.0.2/31 (Hosts: 192.168.0.2-192.168.0.3)\n"
    );
    let result = generate_ipv6_subnets("2001:db8::/32", 48, Some(2)).unwrap();
    assert_eq!(
        result.to_text(),
        "IPv6 Subnet Generator\n\
         =====================\n\
         Supernet: 2001:db8::/32\n\
         New Prefix: /48\n\
         Generated 2 subnets:\n\
         \n  1. 2001:db8::/48\n  2. 2001:db8:1::/48\n"
    );
    let summary = count_subnets("192.168.0.0/22", 27).unwrap();
    assert_eq!(
        summary.to_text(),
        "Subnet Split Summary\n\
         ====================\n\
         Supernet:           192.168.0.0/22\n\
         New Prefix:         /27\n\
         Available Subnets:  32\n"
    );
}

#[test]
fn summary_and_range_reports() {
    let result =
        summarize_ipv4(&["192.168.0.0/24".to_string(), "192.168.1.0/24".to_string()]).unwrap();
    assert_eq!(
        result.to_text(),
        "CIDR Summarization\n\
         ==================\n\
         Input CIDRs:   2\n\
         Output CIDRs:  1\n\
         \n  1. 192.168.0.0/23\n"
    );
    let result = summarize_ipv6(&["2001:db8::/48".to_string(), "2001:db8:2::/48".to_string()])
        .unwrap();
    assert_eq!(
        result.to_text(),
        "CIDR Summarization\n\
         ==================\n\
         Input CIDRs:   2\n\
         Output CIDRs:  2\n\
         \n  1. 2001:db8::/48\n  2. 2001:db8:2::/48\n"
    );
    let result = from_range_ipv4("192.168.1.10", "192.168.1.20").unwrap();
    assert_eq!(
        result.to_text(),
        "IP Range to CIDR\n\
         =================\n\
         Start Address: 192.168.1.10\n\
         End Address:   192.168.1.20\n\
         CIDR Count:    4\n\
         \n  1. 192.168.1.10/31\n  2. 192.168.1.12/30\n  3. 192.168.1.16/30\n  4. 192.168.1.20/32\n"
    );
    let result = from_range_ipv6("::1", "::2").unwrap();
    assert_eq!(
        result.to_text(),
        "IP Range to CIDR\n\
         =================\n\
         Start Address: ::1\n\
         End Address:   ::2\n\
         CIDR Count:    2\n\
         \n  1. ::1/128\n  2. ::2/128\n"
    );
}

#[test]
fn batch_report() {
    let result = process_batch(&["10.0.0.0/8".to_string(), "nope".to_string()]).unwrap();
    let text = result.to_text();
    assert!(text.starts_with(
        "Batch CIDR Processing\n=====================\nTotal CIDRs: 2\n\n--- [1/2] 10.0.0.0/8 ---\nIPv4 Subnet Calculator\n"
    ));
    assert!(text.ends_with(
        "Address Type:      Private (RFC 1918)\n--- [2/2] nope ---\nError: Invalid CIDR notation: nope\n\n"
    ));
    let result = process_batch(&["::1/128".to_string()]).unwrap();
    assert!(result
        .to_text()
        .starts_with("Batch CIDR Processing\n=====================\nTotal CIDRs: 1\n\n--- [1/1] ::1/128 ---\nIPv6 Subnet Calculator\n"));
}

#[test]
fn output_writer_renders_text_and_csv_itself() {
    let subnet = Ipv4Subnet::from_cidr("10.0.0.0/8").unwrap();
    let text = OutputWriter::new(OutputFormat::Text, None).render(&subnet);
    assert_eq!(text, Some(Ok(subnet.to_text())));
    let csv = OutputWriter::new(OutputFormat::Csv, None).render(&subnet);
    assert!(csv.unwrap().unwrap().starts_with("input,network_address,"));
    assert_eq!(OutputWriter::new(OutputFormat::Json, None).render(&subnet), None);
    assert_eq!(OutputWriter::new(OutputFormat::Yaml, None).render(&subnet), None);
}

#[test]
fn formats_have_their_media_types() {
    assert_eq!(OutputFormat::Json.content_type(), "application/json");
    assert_eq!(OutputFormat::Text.content_type(), "text/plain");
    assert_eq!(OutputFormat::Csv.content_type(), "text/csv");
    assert_eq!(OutputFormat::Yaml.content_type(), "application/yaml");
}
