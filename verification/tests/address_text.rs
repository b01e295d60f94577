use ipcalc::ipv4::{ipv4_to_string, parse_ipv4_str, Ipv4Subnet};
use ipcalc::ipv6::{ipv6_to_full_string, ipv6_to_string, parse_ipv6_str, Ipv6Subnet};

fn rendered_v4(a: u32) -> String {
    let text = format!("{}.{}.{}.{}/32", a >> 24, (a >> 16) & 255, (a >> 8) & 255, a & 255);
    let net: ipnet::Ipv4Net = text.parse().unwrap();
    assert_eq!(u32::from(net.addr()), a);
    net.addr().to_string()
}

fn rendered_v6(a: u128) -> String {
    let text = format!("{}/128", ipv6_to_full_string(a));
    let net: ipnet::Ipv6Net = text.parse().unwrap();
    assert_eq!(u128::from(net.addr()), a);
    net.addr().to_string()
}

#[test]
fn ipv4_text_is_dotted_decimal() {
    let samples: [u32; 9] = [
        0,
        1,
        255,
        256,
        0x0a00_0001,
        0xc0a8_0164,
        0x7f00_0001,
        0xffff_ffff,
        0x6440_0000,
    ];
    for a in samples {
        assert_eq!(ipv4_to_string(a), rendered_v4(a));
    }
}

#[test]
fn ipv4_parse_accepts_exactly_four_plain_octets() {
    let good: [(&str, u32); 4] = [
        ("0.0.0.0", 0),
        ("255.255.255.255", 0xffff_ffff),
        ("192.168.1.100", 0xc0a8_0164),
        ("10.0.0.1", 0x0a00_0001),
    ];
    for (s, a) in good {
        assert_eq!(parse_ipv4_str(s), Some(a), "input {:?}", s);
    }
    let bad = [
        "1.2.3",
        "1.2.3.4.5",
        "256.1.1.1",
        "01.2.3.4",
        "1.2.3.04",
        "1.2.3.4 ",
        " 1.2.3.4",
        "1..3.4",
        "",
        ".",
        "...",
        "1.2.3.",
        ".1.2.3",
        "a.b.c.d",
        "1.2.3.4/24",
        "0.0.0.00",
        "0000.0.0.0",
        "1.2.3.1000",
        "+1.2.3.4",
        "1.2.3.-4",
        "999.999.999.999",
        "not-an-ip",
        "\u{661}.2.3.4",
    ];
    for s in bad {
        assert_eq!(parse_ipv4_str(s), None, "input {:?}", s);
    }
}

#[test]
fn ipv6_text_is_canonical() {
    let samples: [u128; 16] = [
        0,
        1,
        0x2001_0db8_0000_0000_0000_0000_0000_0000,
        0x2001_0db8_85a3_0000_0000_8a2e_0370_7334,
        0xfe80_0000_0000_0000_0000_0000_0000_0001,
        0x0000_0000_0000_0000_0000_ffff_c0a8_0101,
        0x0000_0000_0000_0000_0000_0000_c0a8_0101,
        0x0001_0000_0000_0002_0000_0000_0000_0003,
        0x0001_0000_0000_0002_0000_0000_0003_0004,
        0x0001_0000_0002_0000_0003_0000_0004_0000,
        0x0000_0001_0000_0000_0002_0000_0000_0000,
        0xffff_ffff_ffff_ffff_ffff_ffff_ffff_ffff,
        0x0000_0000_0000_0000_0000_0000_0001_0000,
        0x0001_0002_0003_0004_0005_0006_0007_0000,
        0x0000_0002_0003_0004_0005_0006_0007_0008,
        0x0001_0002_0003_0004_0000_0000_0007_0008,
    ];
    for a in samples {
        assert_eq!(ipv6_to_string(a), rendered_v6(a), "value {:#x}", a);
    }
}

#[test]
fn ipv6_parse_accepts_the_colon_hexadecimal_forms() {
    let good: [(&str, u128); 21] = [
        ("::", 0),
        ("::1", 1),
        ("1::", 0x0001_0000_0000_0000_0000_0000_0000_0000),
        ("2001:db8::", 0x2001_0db8_0000_0000_0000_0000_0000_0000),
        ("2001:db8::1", 0x2001_0db8_0000_0000_0000_0000_0000_0001),
        ("2001:db8:85a3::8a2e:370:7334", 0x2001_0db8_85a3_0000_0000_8a2e_0370_7334),
        ("2001:0db8:85a3:0000:0000:8a2e:0370:7334", 0x2001_0db8_85a3_0000_0000_8a2e_0370_7334),
        ("2001:DB8::ABCD", 0x2001_0db8_0000_0000_0000_0000_0000_abcd),
        ("fe80::1", 0xfe80_0000_0000_0000_0000_0000_0000_0001),
        ("::ffff:192.168.1.1", 0x0000_0000_0000_0000_0000_ffff_c0a8_0101),
        ("::192.168.1.1", 0x0000_0000_0000_0000_0000_0000_c0a8_0101),
        ("1:2:3:4:5:6:1.2.3.4", 0x0001_0002_0003_0004_0005_0006_0102_0304),
        ("1:2:3:4:5::1.2.3.4", 0x0001_0002_0003_0004_0005_0000_0102_0304),
        ("1:2:3:4:5:6:7:8", 0x0001_0002_0003_0004_0005_0006_0007_0008),
        ("1:2:3:4:5:6:7::", 0x0001_0002_0003_0004_0005_0006_0007_0000),
        ("::2:3:4:5:6:7:8", 0x0000_0002_0003_0004_0005_0006_0007_0008),
        ("1::3:4:5:6:7:8", 0x0001_0000_0003_0004_0005_0006_0007_0008),
        ("0:0:0:0:0:0:0:0", 0),
        ("0000:0000:0000:0000:0000:0000:0000:0001", 1),
        ("::0001", 1),
        ("a:b:c:d:e:f:0:1", 0x000a_000b_000c_000d_000e_000f_0000_0001),
    ];
    for (s, a) in good {
        assert_eq!(parse_ipv6_str(s), Some(a), "input {:?}", s);
    }
    let bad = [
        "1:2:3:4:5:6:7:1.2.3.4",
        "1:2:3:4:5:6::1.2.3.4",
        "1.2.3.4::",
        "1.2.3.4::1",
        "1:2:3:4:5:6:7",
        "1:2:3:4:5:6:7:8:9",
        "1:2:3:4:5:6:7:8::",
        "::1:2:3:4:5:6:7:8",
        "1::2::3",
        ":::",
        "1:::2",
        ":1:2:3:4:5:6:7:8",
        "1:2:3:4:5:6:7:8:",
        ":",
        "",
        "12345::",
        "::12345",
        "g::",
        "::g",
        "1:2:3:4:5:6:7:8%eth0",
        "fe80::1%1",
        "2001:db8::/32",
        " ::1",
        "::1 ",
        "::1.2.3",
        "::1.2.3.4.5",
        "::01.2.3.4",
        "::ffff:1.2.3.256",
        "not-an-ip",
        "1:2:3:4:5:6:7:::",
        "::1:",
        "1::2:",
        "1.2.3.4",
    ];
    for s in bad {
        assert_eq!(parse_ipv6_str(s), None, "input {:?}", s);
    }
}

#[test]
fn ipv6_full_text_has_eight_padded_groups() {
    assert_eq!(
        ipv6_to_full_string(0x2001_0db8_85a3_0000_0000_0000_0000_0000),
        "2001:0db8:85a3:0000:0000:0000:0000:0000"
    );
    assert_eq!(ipv6_to_full_string(1), "0000:0000:0000:0000:0000:0000:0000:0001");
}

#[test]
fn subnet_inputs_keep_the_given_address() {
    let v4 = Ipv4Subnet::from_cidr("192.168.1.100/24").unwrap();
    assert_eq!(v4.input, "192.168.1.100/24");
    let v6 = Ipv6Subnet::from_cidr("2001:db8:85a3::8a2e:370:7334/64").unwrap();
    assert_eq!(v6.input, "2001:db8:85a3::8a2e:370:7334/64");
}

#[test]
fn texts_read_back_as_their_addresses() {
    let mut x: u64 = 0x9e37_79b9_7f4a_7c15;
    for _ in 0..2000 {
        x ^= x << 13;
        x ^= x >> 7;
        x ^= x << 17;
        let v4 = (x >> 16) as u32;
        assert_eq!(parse_ipv4_str(&ipv4_to_string(v4)), Some(v4));
        let high = x as u128;
        let masked = if x & 1 == 0 { high } else { high & 0xffff_0000_0000_ffff };
        let v6 = (masked << 64) | ((x.rotate_left(23) as u128) & 0x0000_ffff_0000_0000_ffff_0000);
        assert_eq!(parse_ipv6_str(&ipv6_to_string(v6)), Some(v6), "{:#x}", v6);
        assert_eq!(ipv6_to_string(v6), rendered_v6(v6), "{:#x}", v6);
        assert_eq!(parse_ipv6_str(&ipv6_to_full_string(v6)), Some(v6));
    }
}

#[test]
fn the_input_of_a_subnet_denotes_the_subnet() {
    for cidr in ["10.1.2.3/8", "0.0.0.0/0", "255.255.255.255/32", "192.168.1.77/24"] {
        let subnet = Ipv4Subnet::from_cidr(cidr).unwrap();
        assert_eq!(Ipv4Subnet::from_cidr(&subnet.input), Ok(subnet));
    }
    for cidr in ["2001:db8::1/32", "::/0", "::ffff:1.2.3.4/96", "fe80::1:0:0:1/64"] {
        let subnet = Ipv6Subnet::from_cidr(cidr).unwrap();
        assert_eq!(Ipv6Subnet::from_cidr(&subnet.input), Ok(subnet));
    }
    assert_eq!(Ipv6Subnet::from_cidr("::FFFF:1.2.3.4/96").unwrap().input, "::ffff:1.2.3.4/96");
    assert_eq!(Ipv6Subnet::from_cidr("0:0:0:0:0:0:0:1/128").unwrap().input, "::1/128");
}
