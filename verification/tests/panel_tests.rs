use ipcalc::subnet_generator::count_request;
use ipcalc::text::{input_lines, parse_capped_u8, parse_u64, parse_u8, split_items, split_list};
use ipcalc::tui::{render_list_panel, AppState, InputField, Mode, PanelTone};

fn split_state(cidr: &str, prefix: &str, count: &str) -> AppState {
    let mut app = AppState::new();
    app.mode = Mode::Split;
    app.active_field = InputField::Count;
    app.cidr_input = cidr.to_string();
    app.prefix_input = prefix.to_string();
    app.count_input = count.to_string();
    app
}

#[test]
fn split_panel_hints_at_missing_inputs() {
    let panel = split_state("", "27", "3").split_panel(30);
    assert_eq!(panel.tone, PanelTone::Hint);
    assert_eq!(panel.text, "Enter CIDR and new prefix length to generate subnets");
    assert!(!panel.count_only);
    let panel = split_state("10.0.0.0/8", "", "3").split_panel(30);
    assert_eq!(panel.text, "Enter CIDR and new prefix length to generate subnets");
    let panel = split_state("10.0.0.0/8", "16", "").split_panel(30);
    assert_eq!(panel.tone, PanelTone::Hint);
    assert_eq!(panel.text, "Enter count, press 'M' for max, or 'C' for count only");
}

#[test]
fn split_panel_reports_bad_numbers() {
    let panel = split_state("10.0.0.0/8", "256", "3").split_panel(30);
    assert_eq!(panel.tone, PanelTone::Error);
    assert_eq!(panel.text, "Invalid prefix length");
    let panel = split_state("10.0.0.0/8", "16", "18446744073709551616").split_panel(30);
    assert_eq!(panel.tone, PanelTone::Error);
    assert_eq!(panel.text, "Invalid count");
}

#[test]
fn split_panel_shows_the_count_only() {
    let mut app = split_state("192.168.0.0/22", "27", "");
    app.count_only = true;
    let panel = app.split_panel(30);
    assert!(panel.count_only);
    assert_eq!(panel.tone, PanelTone::Result);
    assert_eq!(
        panel.text,
        "Supernet: 192.168.0.0/22\nNew Prefix: /27\nAvailable Subnets: 32"
    );
    let mut app = split_state("192.168.0.0/22", "20", "");
    app.count_only = true;
    assert_eq!(
        app.split_panel(30).text,
        "Error: New prefix length 20 must be greater than original prefix 22"
    );
}

#[test]
fn split_panel_lists_the_subnets_in_the_window() {
    let panel = split_state("192.168.0.0/22", "24", "3").split_panel(30);
    assert_eq!(panel.tone, PanelTone::Result);
    assert_eq!(
        panel.text,
        "Supernet: 192.168.0.0\nNew Prefix: /24\nGenerated: 3 subnets\n\nSubnets:\n  1: 192.168.0.0/24\n  2: 192.168.1.0/24\n  3: 192.168.2.0/24"
    );
    let mut app = split_state("2001:db8::/32", "34", "");
    app.use_max = true;
    app.scroll_offset = 1;
    assert_eq!(
        app.split_panel(9).text,
        "Supernet: 2001:db8::\nNew Prefix: /34\nGenerated: 4 subnets\n\nSubnets:\n  2: 2001:db8:4000::/34\n  3: 2001:db8:8000::/34\n\nShowing 2-3 of 4 (use ↑↓ to scroll)"
    );
    app.scroll_offset = 100;
    assert_eq!(
        app.split_panel(9).text,
        "Supernet: 2001:db8::\nNew Prefix: /34\nGenerated: 4 subnets\n\nSubnets:\n  4: 2001:db8:c000::/34\n\nShowing 4-4 of 4 (use ↑↓ to scroll)"
    );
    assert_eq!(
        app.split_panel(7).text,
        "Supernet: 2001:db8::\nNew Prefix: /34\nGenerated: 4 subnets\n\nSubnets:\n\nShowing 4-3 of 4 (use ↑↓ to scroll)"
    );
    let panel = split_state("10.0.0.0/8", "16", "300").split_panel(30);
    assert_eq!(
        panel.text,
        "Error: Cannot generate 300 /16 subnets from /8 (only 256 available)"
    );
}

#[test]
fn list_panel_of_an_empty_list() {
    assert_eq!(
        render_list_panel("10.0.0.0", 9, 0, &vec![], 5, 3),
        "Supernet: 10.0.0.0\nNew Prefix: /9\nGenerated: 0 subnets\n\nSubnets:"
    );
}

#[test]
fn unsigned_numerals() {
    let parse = |s: &str| parse_u64(&s.chars().collect());
    assert_eq!(parse("0"), Some(0));
    assert_eq!(parse("+7"), Some(7));
    assert_eq!(parse("007"), Some(7));
    assert_eq!(parse("18446744073709551615"), Some(u64::MAX));
    assert_eq!(parse("18446744073709551616"), None);
    assert_eq!(parse("99999999999999999999999999999999999999999999"), None);
    assert_eq!(parse(""), None);
    assert_eq!(parse("+"), None);
    assert_eq!(parse("-1"), None);
    assert_eq!(parse("1 "), None);
    assert_eq!(parse("1_000"), None);
    assert_eq!(parse("++1"), None);
    for s in ["42", "+42", "0042", "", "+", "x", "18446744073709551615", "18446744073709551616"] {
        assert_eq!(parse(s), s.parse::<u64>().ok(), "{:?}", s);
    }
}

#[test]
fn lists_are_cut_trimmed_and_freed_of_empty_items() {
    assert_eq!(split_list("10.0.0.0/8, 10.1.0.0/16 ,,  ,11.0.0.0/8"), vec![
        "10.0.0.0/8",
        "10.1.0.0/16",
        "11.0.0.0/8"
    ]);
    assert_eq!(split_list(""), Vec::<String>::new());
    assert_eq!(split_list(",,,"), Vec::<String>::new());
    assert_eq!(split_list("a"), vec!["a"]);
    assert_eq!(split_list("#a,b"), vec!["#a", "b"]);
    assert_eq!(
        input_lines("192.168.1.0/24\n# comment\n\n10.0.0.0/8\r\n  2001:db8::/32  \n"),
        vec!["192.168.1.0/24", "10.0.0.0/8", "2001:db8::/32"]
    );
    assert_eq!(input_lines("  # indented comment\nx # trailing"), vec!["x # trailing"]);
    assert_eq!(split_items("a;b; ;c", ';', false), vec!["a", "b", "c"]);
}

#[test]
fn a_split_needs_a_count_or_the_switch_for_all() {
    assert_eq!(count_request(Some(5), false), Some(Some(5)));
    assert_eq!(count_request(None, true), Some(None));
    assert_eq!(count_request(Some(5), true), Some(None));
    assert_eq!(count_request(None, false), None);
}

#[test]
fn calculate_panel_shows_error_figures_or_hint() {
    let figures = ipcalc::tui::NetFigures {
        network: "192.168.1.0".to_string(),
        netmask: "255.255.255.0".to_string(),
        broadcast: "192.168.1.255".to_string(),
        first_host: Some("192.168.1.1".to_string()),
        last_host: Some("192.168.1.254".to_string()),
        total_hosts: 254,
    };
    let mut app = AppState::new();
    assert_eq!(
        app.calculate_panel(&Some(figures.clone())),
        "Network:    192.168.1.0\nNetmask:    255.255.255.0\nBroadcast:  192.168.1.255\nFirst Host: 192.168.1.1\nLast Host:  192.168.1.254\nTotal Hosts: 254"
    );
    let empty = ipcalc::tui::NetFigures {
        first_host: None,
        last_host: None,
        total_hosts: 0,
        ..figures.clone()
    };
    assert_eq!(
        app.calculate_panel(&Some(empty)),
        "Network:    192.168.1.0\nNetmask:    255.255.255.0\nBroadcast:  192.168.1.255\nFirst Host: 192.168.1.0\nLast Host:  192.168.1.0\nTotal Hosts: 0"
    );
    assert_eq!(app.calculate_panel(&None), "Enter a valid CIDR notation");
    app.error_message = Some("boom".to_string());
    assert_eq!(app.calculate_panel(&Some(figures)), "Error: boom");
    assert_eq!(app.calculate_panel(&None), "Error: boom");
}

#[test]
fn labels_of_the_screen() {
    assert_eq!(Mode::Calculate.banner(), " MODE: Calculate (press TAB to switch to Split) ");
    assert_eq!(Mode::Split.banner(), " MODE: Split (press TAB to switch to Calculate) ");
    assert_eq!(Mode::Calculate.help(), " ESC: Quit | TAB: Switch Mode | Type to edit CIDR ");
    assert!(Mode::Split.help().ends_with("| ↑↓: Scroll "));
    let mut app = split_state("10.0.0.0/8", "16", "");
    assert_eq!(app.count_label(), " ");
    app.count_input = "12".to_string();
    assert_eq!(app.count_label(), " 12 ");
    app.use_max = true;
    assert_eq!(app.count_label(), " MAX ");
    app.count_only = true;
    assert_eq!(app.count_label(), " COUNT ONLY ");
}

#[test]
fn prefix_numerals_are_read_whatever_their_size() {
    let capped = |s: &str| parse_capped_u8(&s.chars().collect());
    let exact = |s: &str| parse_u8(&s.chars().collect());
    assert_eq!(capped("0"), Some(0));
    assert_eq!(capped("24"), Some(24));
    assert_eq!(capped("+24"), Some(24));
    assert_eq!(capped("255"), Some(255));
    assert_eq!(capped("256"), Some(255));
    assert_eq!(capped("2550"), Some(255));
    assert_eq!(capped("000000000000000000000000000000000007"), Some(7));
    assert_eq!(capped("123456789012345678901234567890"), Some(255));
    assert_eq!(capped(""), None);
    assert_eq!(capped("+"), None);
    assert_eq!(capped("-1"), None);
    assert_eq!(capped("1a"), None);
    assert_eq!(exact("255"), Some(255));
    assert_eq!(exact("256"), None);
    assert_eq!(exact("+7"), Some(7));
}
