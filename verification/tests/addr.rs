use bsk::addr::{Ipv4Addr, Ipv6Addr};

#[test]
fn ipv4_parse_and_print() {
    let a = Ipv4Addr::parse("192.168.10.99").unwrap();
    assert_eq!(a.to_bits(), 0xc0a8_0a63);
    assert_eq!(a.octets(), [192, 168, 10, 99]);
    assert_eq!(a, Ipv4Addr::new(192, 168, 10, 99));
    assert_eq!(a.to_string(), "192.168.10.99");
    assert_eq!(Ipv4Addr::from_bits(0).to_string(), "0.0.0.0");
    assert_eq!(Ipv4Addr::from_bits(u32::MAX).to_string(), "255.255.255.255");
}

#[test]
fn ipv4_parse_rejects() {
    for s in [
        "", " 1.2.3.4", "1.2.3.4 ", "1.2.3", "1.2.3.4.5", "1.2.3.", ".1.2.3", "1.2.3.256",
        "1.2.3.04", "1.2.3.0004", "+1.2.3.4", "1.2.3.x", "1.2..3",
    ] {
        assert_eq!(Ipv4Addr::parse(s), None, "{s:?}");
    }
    assert!(Ipv4Addr::parse("0.0.0.0").is_some());
}

#[test]
fn ipv4_loopback() {
    assert!(Ipv4Addr::new(127, 0, 0, 1).is_loopback());
    assert!(Ipv4Addr::new(127, 255, 1, 2).is_loopback());
    assert!(!Ipv4Addr::new(128, 0, 0, 1).is_loopback());
}

#[test]
fn ipv6_loopback_and_mapping() {
    assert!(Ipv6Addr::new(0, 0, 0, 0, 0, 0, 0, 1).is_loopback());
    assert!(!Ipv6Addr::new(0, 0, 0, 0, 0, 0, 0, 2).is_loopback());
    let m = Ipv6Addr::new(0, 0, 0, 0, 0, 0xffff, 0xc0a8, 0x0a07);
    assert_eq!(m.to_ipv4_mapped(), Some(Ipv4Addr::new(192, 168, 10, 7)));
    assert_eq!(Ipv6Addr::new(0, 0, 0, 0, 0, 0, 0xc0a8, 0x0a07).to_ipv4_mapped(), None);
    assert_eq!(Ipv6Addr::new(0x2001, 0xdb8, 0, 0, 0, 0xffff, 1, 2).to_ipv4_mapped(), None);
    assert_eq!(m.to_bits(), 0x0000_0000_0000_0000_0000_ffff_c0a8_0a07);
    assert_eq!(Ipv6Addr::from_bits(1), Ipv6Addr::new(0, 0, 0, 0, 0, 0, 0, 1));
}
