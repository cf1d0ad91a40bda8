use construct_relay::addr::{parse_ip, IpAddr};
use construct_relay::config::{ip_in_cidr, is_trusted_proxy, parse_trusted_proxies};

fn v4(a: u8, b: u8, c: u8, d: u8) -> IpAddr {
    IpAddr::V4(u32::from_be_bytes([a, b, c, d]))
}

#[test]
fn dotted_addresses_parse() {
    assert_eq!(parse_ip("0.0.0.0"), Some(v4(0, 0, 0, 0)));
    assert_eq!(parse_ip("192.168.1.254"), Some(v4(192, 168, 1, 254)));
    assert_eq!(parse_ip("255.255.255.255"), Some(IpAddr::V4(u32::MAX)));
}

#[test]
fn malformed_dotted_addresses_do_not_parse() {
    for text in [
        "", " ", "1.2.3", "1.2.3.4.5", "1.2.3.256", "01.2.3.4", "1.2.3.00", "1..3.4", "1.2.3.4 ",
        "+1.2.3.4", "1.2.3.a", "1.2.3.1000", "1.2.3.4/8", "0x1.2.3.4",
    ] {
        assert_eq!(parse_ip(text), None, "{text}");
    }
}

#[test]
fn colon_addresses_parse() {
    assert_eq!(parse_ip("::"), Some(IpAddr::V6(0)));
    assert_eq!(parse_ip("::1"), Some(IpAddr::V6(1)));
    assert_eq!(parse_ip("1::"), Some(IpAddr::V6(1 << 112)));
    assert_eq!(
        parse_ip("2001:db8::1"),
        Some(IpAddr::V6(0x2001_0db8_0000_0000_0000_0000_0000_0001))
    );
    assert_eq!(
        parse_ip("2001:DB8:0:0:8:800:200C:417a"),
        Some(IpAddr::V6(0x2001_0db8_0000_0000_0008_0800_200c_417a))
    );
    assert_eq!(
        parse_ip("1:2:3:4:5:6:7::"),
        Some(IpAddr::V6(0x0001_0002_0003_0004_0005_0006_0007_0000))
    );
    assert_eq!(
        parse_ip("::2:3:4:5:6:7:8"),
        Some(IpAddr::V6(0x0000_0002_0003_0004_0005_0006_0007_0008))
    );
    assert_eq!(parse_ip("0000:0000::0000"), Some(IpAddr::V6(0)));
}

#[test]
fn embedded_dotted_addresses_parse() {
    assert_eq!(parse_ip("::ffff:1.2.3.4"), Some(IpAddr::V6(0xffff_0102_0304)));
    assert_eq!(parse_ip("::1.2.3.4"), Some(IpAddr::V6(0x0102_0304)));
    assert_eq!(
        parse_ip("64:ff9b::192.0.2.33"),
        Some(IpAddr::V6(0x0064_ff9b_0000_0000_0000_0000_c000_0221))
    );
    assert_eq!(
        parse_ip("1:2:3:4:5:6:7.8.9.10"),
        Some(IpAddr::V6(0x0001_0002_0003_0004_0005_0006_0708_090a))
    );
    assert_eq!(
        parse_ip("1:2:3:4:5::7.8.9.10"),
        Some(IpAddr::V6(0x0001_0002_0003_0004_0005_0000_0708_090a))
    );
}

#[test]
fn malformed_colon_addresses_do_not_parse() {
    for text in [
        ":", ":::", "1:", ":1", "1:2:3:4:5:6:7", "1:2:3:4:5:6:7:8:9", "1:2:3:4:5:6:7:8::",
        "::1:2:3:4:5:6:7:8", "1::2::3", "12345::", "g::", "1.2.3.4::", "1:1.2.3.4::",
        "1:2:3:4:5:6::1.2.3.4", "1:2:3:4:5:6:7:1.2.3.4", "::1.2.3", "::1.2.3.4:5", "fe80::1%eth0",
        "[::1]", "1:::2",
    ] {
        assert_eq!(parse_ip(text), None, "{text}");
    }
}

#[test]
fn prefix_selects_leading_bits() {
    let net = v4(172, 16, 0, 0);
    assert!(ip_in_cidr(v4(172, 16, 0, 1), net, 12));
    assert!(ip_in_cidr(v4(172, 31, 255, 255), net, 12));
    assert!(!ip_in_cidr(v4(172, 32, 0, 0), net, 12));
    assert!(!ip_in_cidr(v4(172, 15, 255, 255), net, 12));
    assert!(ip_in_cidr(v4(10, 0, 0, 129), v4(10, 0, 0, 200), 25));
    assert!(!ip_in_cidr(v4(10, 0, 0, 1), v4(10, 0, 0, 200), 25));
    assert!(ip_in_cidr(v4(10, 0, 0, 1), v4(10, 0, 0, 0), 31));

    let six = IpAddr::V6(0x2001_0db8 << 96);
    assert!(ip_in_cidr(IpAddr::V6((0x2001_0db8 << 96) + 77), six, 32));
    assert!(!ip_in_cidr(IpAddr::V6(0x2001_0db9 << 96), six, 32));
    assert!(ip_in_cidr(IpAddr::V6(2), IpAddr::V6(3), 127));
    assert!(!ip_in_cidr(IpAddr::V6(2), IpAddr::V6(4), 127));
}

#[test]
fn empty_and_full_prefixes() {
    assert!(ip_in_cidr(v4(1, 2, 3, 4), v4(200, 0, 0, 1), 0));
    assert!(ip_in_cidr(IpAddr::V6(u128::MAX), IpAddr::V6(0), 0));
    for prefix in [32, 33, 255] {
        assert!(ip_in_cidr(v4(1, 2, 3, 4), v4(1, 2, 3, 4), prefix));
        assert!(!ip_in_cidr(v4(1, 2, 3, 5), v4(1, 2, 3, 4), prefix));
    }
    for prefix in [128, 129, 255] {
        assert!(ip_in_cidr(IpAddr::V6(9), IpAddr::V6(9), prefix));
        assert!(!ip_in_cidr(IpAddr::V6(8), IpAddr::V6(9), prefix));
    }
}

#[test]
fn families_are_apart() {
    assert!(!ip_in_cidr(v4(0, 0, 0, 0), IpAddr::V6(0), 0));
    assert!(!ip_in_cidr(IpAddr::V6(0), v4(0, 0, 0, 0), 0));
}

#[test]
fn shorter_prefixes_are_wider() {
    let ip = v4(10, 20, 30, 40);
    let net = v4(10, 20, 30, 0);
    assert!(ip_in_cidr(ip, net, 24));
    for shorter in 0..24 {
        assert!(ip_in_cidr(ip, net, shorter));
    }
    assert!(!ip_in_cidr(ip, net, 32));
}

#[test]
fn proxy_list_parses() {
    assert_eq!(
        parse_trusted_proxies("10.0.0.1, 172.16.0.0/12 ,::1 , fd00::/8"),
        vec![
            (v4(10, 0, 0, 1), 32),
            (v4(172, 16, 0, 0), 12),
            (IpAddr::V6(1), 128),
            (IpAddr::V6(0xfd00 << 112), 8),
        ]
    );
}

#[test]
fn proxy_list_skips_what_does_not_parse() {
    assert_eq!(parse_trusted_proxies(""), vec![]);
    assert_eq!(parse_trusted_proxies(" , ,,"), vec![]);
    assert_eq!(
        parse_trusted_proxies("nonsense,1.2.3.4/x,1.2.3.4/,/8,1.2.3.4/256,5.6.7.8,1.2.3.4/-1,1.2.3.4/8/8"),
        vec![(v4(5, 6, 7, 8), 32)]
    );
}

#[test]
fn proxy_list_takes_lenient_prefixes() {
    assert_eq!(
        parse_trusted_proxies("1.2.3.4 / 8,1.2.3.4/+24,1.2.3.4/008,1.2.3.4/255,\u{a0}1.2.3.4\u{3000}"),
        vec![
            (v4(1, 2, 3, 4), 8),
            (v4(1, 2, 3, 4), 24),
            (v4(1, 2, 3, 4), 8),
            (v4(1, 2, 3, 4), 255),
            (v4(1, 2, 3, 4), 32),
        ]
    );
}

#[test]
fn written_ranges_read_back() {
    let ranges = vec![
        (v4(0, 0, 0, 0), 0),
        (v4(10, 200, 99, 7), 33),
        (IpAddr::V6(0), 128),
        (IpAddr::V6(0xffff_0102_0304), 96),
        (IpAddr::V6(0x2001_0db8_0000_0000_0001_0000_0000_0001), 255),
        (IpAddr::V6(0x0001_0000_0003_0004_0005_0006_0007_0008), 64),
        (IpAddr::V6(0xfd00 << 112), 8),
        (IpAddr::V6(u128::MAX), 129),
    ];
    let written = [
        "0.0.0.0/0",
        "10.200.99.7/33",
        "::/128",
        "::ffff:1.2.3.4/96",
        "2001:db8::1:0:0:1/255",
        "1:0:3:4:5:6:7:8/64",
        "fd00::/8",
        "ffff:ffff:ffff:ffff:ffff:ffff:ffff:ffff/129",
    ];
    assert_eq!(parse_trusted_proxies(&written.join(",")), ranges);
    assert_eq!(parse_trusted_proxies("2001:DB8:0::1:0:0:1/255"), ranges[4..5]);
}

#[test]
fn joined_proxy_lists_parse_in_order() {
    let mut both = parse_trusted_proxies("10.0.0.0/8,bad");
    both.extend(parse_trusted_proxies("::1"));
    assert_eq!(parse_trusted_proxies("10.0.0.0/8,bad,::1"), both);
}

#[test]
fn trusted_proxy_is_in_some_range() {
    let proxies = parse_trusted_proxies("172.16.0.0/12,::1");
    assert!(is_trusted_proxy(v4(172, 17, 0, 1), &proxies));
    assert!(is_trusted_proxy(IpAddr::V6(1), &proxies));
    assert!(!is_trusted_proxy(v4(8, 8, 8, 8), &proxies));
    assert!(!is_trusted_proxy(IpAddr::V6(2), &proxies));
    assert!(!is_trusted_proxy(v4(172, 17, 0, 1), &[]));
}
