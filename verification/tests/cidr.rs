use bsk::addr::{IpAddr, Ipv4Addr, Ipv6Addr};
use bsk::cidr::{any_contains, ip_allowed, parse_list, Cidr4};

fn v4(s: &str) -> Ipv4Addr {
    Ipv4Addr::parse(s).unwrap()
}

fn ip4(s: &str) -> IpAddr {
    IpAddr::V4(v4(s))
}

fn ip6(a: u16, b: u16, c: u16, d: u16, e: u16, f: u16, g: u16, h: u16) -> IpAddr {
    IpAddr::V6(Ipv6Addr::new(a, b, c, d, e, f, g, h))
}

#[test]
fn parses_and_matches_tailscale_cgnat() {
    let c = Cidr4::parse("100.64.0.0/10").unwrap();
    assert!(c.contains(v4("100.64.0.1")));
    assert!(c.contains(v4("100.127.255.254")));
    assert!(!c.contains(v4("100.128.0.1")));
    assert!(!c.contains(v4("8.8.8.8")));
}

#[test]
fn parses_192_168_subnets() {
    let c10 = Cidr4::parse("192.168.10.0/24").unwrap();
    assert!(c10.contains(v4("192.168.10.99")));
    assert!(!c10.contains(v4("192.168.30.1")));
    let c30 = Cidr4::parse("192.168.30.0/24").unwrap();
    assert!(c30.contains(v4("192.168.30.5")));
}

#[test]
fn host_route_prefix_32() {
    let c = Cidr4::parse("10.0.0.5/32").unwrap();
    assert!(c.contains(v4("10.0.0.5")));
    assert!(!c.contains(v4("10.0.0.6")));
}

#[test]
fn prefix_zero_means_everything() {
    let c = Cidr4::parse("0.0.0.0/0").unwrap();
    assert!(c.contains(v4("192.168.1.1")));
    assert!(c.contains(v4("8.8.8.8")));
}

#[test]
fn malformed_entries_are_skipped() {
    let list = parse_list("100.64.0.0/10, garbage, 192.168.10.0/24");
    assert_eq!(list.len(), 2);
    assert!(list.iter().any(|c| c.contains(v4("192.168.10.99"))));
}

#[test]
fn any_contains_works_across_list() {
    let list = parse_list("192.168.10.0/24, 192.168.50.0/24");
    assert!(any_contains(&list, v4("192.168.50.7")));
    assert!(!any_contains(&list, v4("192.168.30.7")));
}

#[test]
fn ip_allowed_loopback_always_allowed() {
    let list = parse_list("192.168.10.0/24");
    // V4 loopback
    assert!(ip_allowed(&list, ip4("127.0.0.1")));
    // V6 loopback
    assert!(ip_allowed(&list, ip6(0, 0, 0, 0, 0, 0, 0, 1)));
}

#[test]
fn ip_allowed_empty_list_is_unrestricted() {
    let empty: Vec<Cidr4> = Vec::new();
    assert!(ip_allowed(&empty, ip4("203.0.113.9")));
    // 2001:db8::1
    assert!(ip_allowed(&empty, ip6(0x2001, 0xdb8, 0, 0, 0, 0, 0, 1)));
}

#[test]
fn ip_allowed_v4_in_and_out() {
    let list = parse_list("192.168.10.0/24");
    assert!(ip_allowed(&list, ip4("192.168.10.55")));
    assert!(!ip_allowed(&list, ip4("192.168.30.55")));
}

#[test]
fn ip_allowed_ipv4_mapped_v6_unmaps_to_v4() {
    // ::ffff:192.168.10.7 is a dual-stack IPv4 peer.
    let list = parse_list("192.168.10.0/24");
    assert!(ip_allowed(&list, ip6(0, 0, 0, 0, 0, 0xffff, 0xc0a8, 0x0a07)));
    // ::ffff:192.168.30.7
    assert!(!ip_allowed(&list, ip6(0, 0, 0, 0, 0, 0xffff, 0xc0a8, 0x1e07)));
}

#[test]
fn ip_allowed_pure_v6_rejected_when_restricted() {
    let list = parse_list("192.168.10.0/24");
    // 2001:db8::1
    assert!(!ip_allowed(&list, ip6(0x2001, 0xdb8, 0, 0, 0, 0, 0, 1)));
}

// ---------------------------------------------------------------------
// Further cases
// ---------------------------------------------------------------------

#[test]
fn parse_keeps_only_network_bits() {
    let c = Cidr4::parse("192.168.10.77/24").unwrap();
    assert_eq!(c, Cidr4 { network: 0xc0a8_0a00, prefix: 24 });
    let c = Cidr4::parse("100.100.100.100/10").unwrap();
    assert_eq!(c.network, 0x6440_0000);
    assert_eq!(c.prefix, 10);
}

#[test]
fn parse_trims_white_space() {
    assert_eq!(
        Cidr4::parse("  10.0.0.0/8\t\n"),
        Some(Cidr4 { network: 0x0a00_0000, prefix: 8 })
    );
    // the address part is trimmed again after the split
    assert_eq!(
        Cidr4::parse("10.0.0.1 /8"),
        Some(Cidr4 { network: 0x0a00_0000, prefix: 8 })
    );
    // Unicode white space counts too (ideographic space, no-break space)
    assert_eq!(
        Cidr4::parse("\u{3000}10.0.0.0/8\u{a0}"),
        Some(Cidr4 { network: 0x0a00_0000, prefix: 8 })
    );
    // the prefix part is not trimmed on its own
    assert_eq!(Cidr4::parse("10.0.0.1/ 8"), None);
}

#[test]
fn parse_prefix_grammar() {
    // a leading plus sign and leading zeros are accepted by the u8 grammar
    assert_eq!(Cidr4::parse("10.0.0.0/+8").map(|c| c.prefix), Some(8));
    assert_eq!(Cidr4::parse("10.0.0.0/008").map(|c| c.prefix), Some(8));
    assert_eq!(Cidr4::parse("10.0.0.0/33"), None);
    assert_eq!(Cidr4::parse("10.0.0.0/256"), None);
    assert_eq!(Cidr4::parse("10.0.0.0/-1"), None);
    assert_eq!(Cidr4::parse("10.0.0.0/+"), None);
    assert_eq!(Cidr4::parse("10.0.0.0/"), None);
    assert_eq!(Cidr4::parse("10.0.0.0"), None);
    assert_eq!(Cidr4::parse(""), None);
    assert_eq!(Cidr4::parse("10.0.0.0/8/9"), None);
}

#[test]
fn parse_address_grammar() {
    assert_eq!(Cidr4::parse("01.0.0.0/8"), None);
    assert_eq!(Cidr4::parse("256.0.0.0/8"), None);
    assert_eq!(Cidr4::parse("1.2.3/8"), None);
    assert_eq!(Cidr4::parse("1.2.3.4.5/8"), None);
    assert_eq!(Cidr4::parse("1..3.4/8"), None);
    assert_eq!(Cidr4::parse("1.2.3.a/8"), None);
    assert_eq!(
        Cidr4::parse("255.255.255.255/32"),
        Some(Cidr4 { network: 0xffff_ffff, prefix: 32 })
    );
}

#[test]
fn to_string_writes_dotted_quad_and_prefix() {
    let c = Cidr4::parse("100.64.0.0/10").unwrap();
    assert_eq!(c.to_string(), "100.64.0.0/10");
    let c = Cidr4::parse(" 192.168.010.0/24 ");
    assert_eq!(c, None);
    let c = Cidr4::parse("0.0.0.0/0").unwrap();
    assert_eq!(c.to_string(), "0.0.0.0/0");
}

#[test]
fn text_roundtrip_on_examples() {
    for s in ["100.64.0.0/10", "192.168.10.0/24", "10.0.0.5/32", "0.0.0.0/0", "255.255.255.255/32"] {
        let c = Cidr4::parse(s).unwrap();
        assert_eq!(Cidr4::parse(&c.to_string()), Some(c));
        assert_eq!(c.to_string(), s);
    }
}

#[test]
fn parse_list_edge_cases() {
    assert!(parse_list("").is_empty());
    assert!(parse_list(" , ,,").is_empty());
    let list = parse_list("10.0.0.0/8,,192.168.1.0/24,");
    assert_eq!(
        list,
        vec![
            Cidr4 { network: 0x0a00_0000, prefix: 8 },
            Cidr4 { network: 0xc0a8_0100, prefix: 24 },
        ]
    );
    // entries keep their order
    let list = parse_list("192.168.1.0/24 , 10.0.0.0/8");
    assert_eq!(list[0].prefix, 24);
    assert_eq!(list[1].prefix, 8);
}

#[test]
fn nested_networks() {
    let outer = Cidr4::parse("10.0.0.0/8").unwrap();
    let inner = Cidr4::parse("10.20.0.0/16").unwrap();
    assert!(outer.contains(Ipv4Addr::from_bits(inner.network)));
    for ip in ["10.20.0.1", "10.20.255.255", "10.20.7.9"] {
        assert!(inner.contains(v4(ip)));
        assert!(outer.contains(v4(ip)));
    }
}

#[test]
fn mapped_peer_gets_the_v4_decision() {
    let list = parse_list("192.168.10.0/24");
    for (a, b, c, d) in [(192u8, 168u8, 10u8, 7u8), (192, 168, 30, 7), (8, 8, 8, 8)] {
        let four = Ipv4Addr::new(a, b, c, d);
        let mapped = ip6(
            0,
            0,
            0,
            0,
            0,
            0xffff,
            (a as u16) << 8 | b as u16,
            (c as u16) << 8 | d as u16,
        );
        assert_eq!(ip_allowed(&list, IpAddr::V4(four)), ip_allowed(&list, mapped));
    }
    // the exception: IPv4 loopback is let through, its mapped form is not
    assert!(ip_allowed(&list, ip4("127.0.0.1")));
    assert!(!ip_allowed(&list, ip6(0, 0, 0, 0, 0, 0xffff, 0x7f00, 0x0001)));
}

#[test]
fn malformed_cidr_after_a_match_is_never_reached() {
    // the scan stops at the first match
    let list = vec![
        Cidr4 { network: 0xc0a8_0a00, prefix: 24 },
        Cidr4 { network: 0, prefix: 40 },
    ];
    assert!(any_contains(&list, v4("192.168.10.1")));
}
