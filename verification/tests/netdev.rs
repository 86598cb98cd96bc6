use bsk::addr::{IpAddr, Ipv4Addr, Ipv6Addr};
use bsk::cidr::{parse_list, Cidr4};
use bsk::netdev::{probe_gateway_listen, Interface};

fn v4(s: &str) -> Ipv4Addr {
    Ipv4Addr::parse(s).unwrap()
}

fn iface(name: &str, ip: &str) -> Interface {
    Interface { name: name.to_string(), ip: IpAddr::V4(v4(ip)) }
}

#[test]
fn parses_tailscale_and_lan_cidrs() {
    let ts = Cidr4::parse("100.64.0.0/10").unwrap();
    assert!(ts.contains(v4("100.64.10.5")));
    assert!(!ts.contains(v4("192.168.10.5")));
    let lan = Cidr4::parse("192.168.10.0/24").unwrap();
    assert!(lan.contains(v4("192.168.10.99")));
    assert!(!lan.contains(v4("192.168.30.1")));
}

#[test]
fn tailscale_wins() {
    let lan = parse_list("192.168.10.0/24");
    let ifaces = vec![
        iface("lo", "127.0.0.1"),
        iface("eth0", "192.168.10.99"),
        iface("tailscale0", "100.101.102.103"),
    ];
    assert_eq!(probe_gateway_listen(&ifaces, &lan), Some(IpAddr::V4(v4("100.101.102.103"))));
}

#[test]
fn lan_member_beats_first_interface() {
    let lan = parse_list("192.168.10.0/24");
    let ifaces = vec![
        iface("lo", "127.0.0.1"),
        iface("docker0", "172.17.0.1"),
        iface("eth0", "192.168.10.99"),
    ];
    assert_eq!(probe_gateway_listen(&ifaces, &lan), Some(IpAddr::V4(v4("192.168.10.99"))));
}

#[test]
fn first_non_loopback_when_no_lan_match() {
    let ifaces = vec![
        iface("lo", "127.0.0.1"),
        Interface { name: "lo".to_string(), ip: IpAddr::V6(Ipv6Addr::new(0, 0, 0, 0, 0, 0, 0, 1)) },
        iface("docker0", "172.17.0.1"),
        iface("eth0", "192.168.10.99"),
    ];
    assert_eq!(probe_gateway_listen(&ifaces, &[]), Some(IpAddr::V4(v4("172.17.0.1"))));
    let lan = parse_list("10.0.0.0/8");
    assert_eq!(probe_gateway_listen(&ifaces, &lan), Some(IpAddr::V4(v4("172.17.0.1"))));
}

#[test]
fn only_loopback_gives_none() {
    let ifaces = vec![iface("lo", "127.0.0.1")];
    assert_eq!(probe_gateway_listen(&ifaces, &[]), None);
    assert_eq!(probe_gateway_listen(&[], &[]), None);
}

#[test]
fn second_tailscale_interface_is_an_ordinary_candidate() {
    let lan = parse_list("100.64.0.0/10");
    let ifaces = vec![
        iface("tailscale0", "100.64.0.1"),
        iface("tailscale1", "100.64.0.2"),
    ];
    assert_eq!(probe_gateway_listen(&ifaces, &lan), Some(IpAddr::V4(v4("100.64.0.1"))));
}

#[test]
fn ipv6_interface_can_be_the_fallback() {
    let six = Ipv6Addr::new(0xfe80, 0, 0, 0, 0, 0, 0, 7);
    let ifaces = vec![Interface { name: "wlan0".to_string(), ip: IpAddr::V6(six) }];
    let lan = parse_list("192.168.10.0/24");
    assert_eq!(probe_gateway_listen(&ifaces, &lan), Some(IpAddr::V6(six)));
}
