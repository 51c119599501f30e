use wiregraph::models::{classify_protocol, is_local_ip, subnet_of, Edge, EdgeKey, IpAddr, Node, Transport};

fn v4(a: u8, b: u8, c: u8, d: u8) -> IpAddr {
    IpAddr::V4(a, b, c, d)
}

const V6_LOCALHOST: IpAddr = IpAddr::V6(0, 0, 0, 0, 0, 0, 0, 1);

// -- subnet_of --

#[test]
fn subnet_of_ipv4_class_a() {
    assert_eq!(subnet_of(v4(10, 1, 2, 3)), "10.1.2.0/24");
}

#[test]
fn subnet_of_ipv4_class_c() {
    assert_eq!(subnet_of(v4(192, 168, 1, 100)), "192.168.1.0/24");
}

#[test]
fn subnet_of_ipv4_zeros() {
    assert_eq!(subnet_of(v4(0, 0, 0, 0)), "0.0.0.0/24");
}

#[test]
fn subnet_of_ipv4_broadcast() {
    assert_eq!(subnet_of(v4(255, 255, 255, 255)), "255.255.255.0/24");
}

#[test]
fn subnet_of_ipv6() {
    let ip = IpAddr::V6(0x2001, 0xdb8, 0xabcd, 0x0012, 0, 0, 0, 1);
    assert_eq!(subnet_of(ip), "2001:db8:abcd:12::/64");
}

#[test]
fn subnet_of_ipv6_loopback() {
    assert_eq!(subnet_of(V6_LOCALHOST), "0:0:0:0::/64");
}

#[test]
fn subnet_of_ipv6_full_hex_segments() {
    let ip = IpAddr::V6(0xffff, 0xabcd, 0x0100, 0x000f, 1, 2, 3, 4);
    assert_eq!(subnet_of(ip), "ffff:abcd:100:f::/64");
}

// -- is_local_ip --

#[test]
fn local_10_private() {
    assert!(is_local_ip(v4(10, 0, 0, 1)));
}

#[test]
fn local_172_16_private() {
    assert!(is_local_ip(v4(172, 16, 0, 1)));
}

#[test]
fn local_192_168_private() {
    assert!(is_local_ip(v4(192, 168, 1, 1)));
}

#[test]
fn local_loopback() {
    assert!(is_local_ip(v4(127, 0, 0, 1)));
}

#[test]
fn local_link_local() {
    assert!(is_local_ip(v4(169, 254, 1, 1)));
}

#[test]
fn not_local_public() {
    assert!(!is_local_ip(v4(8, 8, 8, 8)));
}

#[test]
fn not_local_public_93() {
    assert!(!is_local_ip(v4(93, 184, 216, 34)));
}

#[test]
fn not_local_172_32() {
    // 172.32.x.x is NOT private (only 172.16-31.x.x)
    assert!(!is_local_ip(v4(172, 32, 0, 1)));
}

#[test]
fn local_172_31_edge_of_private_range() {
    assert!(is_local_ip(v4(172, 31, 255, 255)));
    assert!(!is_local_ip(v4(172, 15, 255, 255)));
}

#[test]
fn local_ipv6_loopback() {
    assert!(is_local_ip(V6_LOCALHOST));
}

#[test]
fn local_ipv6_ula() {
    // fc00::/7
    let ip = IpAddr::V6(0xfd00, 0, 0, 0, 0, 0, 0, 1);
    assert!(is_local_ip(ip));
}

#[test]
fn local_ipv6_link_local() {
    // fe80::/10
    let ip = IpAddr::V6(0xfe80, 0, 0, 0, 0, 0, 0, 1);
    assert!(is_local_ip(ip));
}

#[test]
fn not_local_ipv6_global() {
    let ip = IpAddr::V6(0x2001, 0xdb8, 0, 0, 0, 0, 0, 1);
    assert!(!is_local_ip(ip));
}

#[test]
fn not_local_ipv6_unspecified_and_fec0() {
    assert!(!is_local_ip(IpAddr::V6(0, 0, 0, 0, 0, 0, 0, 0)));
    assert!(!is_local_ip(IpAddr::V6(0xfec0, 0, 0, 0, 0, 0, 0, 1)));
}

// -- Node::new --

#[test]
fn node_new_defaults() {
    let node = Node::new(v4(10, 0, 0, 1));
    assert_eq!(node.ip, v4(10, 0, 0, 1));
    assert_eq!(node.subnet, "10.0.0.0/24");
    assert_eq!(node.bytes_sent, 0);
    assert_eq!(node.bytes_recv, 0);
    assert_eq!(node.packet_count, 0);
    assert!(node.protocols.is_empty());
    assert!(node.is_local);
    assert_eq!(node.last_seen, 0);
}

#[test]
fn node_new_public_ip() {
    let node = Node::new(v4(8, 8, 8, 8));
    assert!(!node.is_local);
    assert_eq!(node.subnet, "8.8.8.0/24");
}

#[test]
fn node_add_protocol_keeps_one_of_each() {
    let mut node = Node::new(v4(10, 0, 0, 1));
    node.add_protocol("TCP");
    node.add_protocol("UDP");
    node.add_protocol("TCP");
    assert_eq!(node.protocols, vec!["TCP".to_string(), "UDP".to_string()]);
}

// -- Edge::new --

#[test]
fn edge_new_defaults() {
    let src = v4(10, 0, 0, 1);
    let dst = v4(10, 0, 0, 2);
    let edge = Edge::new(src, dst, 80, "HTTP");
    assert_eq!(edge.source, src);
    assert_eq!(edge.target, dst);
    assert_eq!(edge.dst_port, 80);
    assert_eq!(edge.protocol, "HTTP");
    assert_eq!(edge.bytes, 0);
    assert_eq!(edge.packets, 0);
    assert!(edge.active);
    assert_eq!(edge.last_seen, 0);
}

// -- classify_protocol --

#[test]
fn classify_tcp_http_80() {
    assert_eq!(classify_protocol(Transport::Tcp, None, Some(80)), "HTTP");
}

#[test]
fn classify_tcp_http_8080() {
    assert_eq!(classify_protocol(Transport::Tcp, None, Some(8080)), "HTTP");
}

#[test]
fn classify_tcp_tls() {
    assert_eq!(classify_protocol(Transport::Tcp, None, Some(443)), "TLS");
}

#[test]
fn classify_tcp_ssh() {
    assert_eq!(classify_protocol(Transport::Tcp, None, Some(22)), "SSH");
}

#[test]
fn classify_tcp_smtp_25() {
    assert_eq!(classify_protocol(Transport::Tcp, None, Some(25)), "SMTP");
}

#[test]
fn classify_tcp_smtp_587() {
    assert_eq!(classify_protocol(Transport::Tcp, None, Some(587)), "SMTP");
}

#[test]
fn classify_tcp_smtp_465() {
    assert_eq!(classify_protocol(Transport::Tcp, None, Some(465)), "SMTP");
}

#[test]
fn classify_tcp_unknown_port() {
    assert_eq!(classify_protocol(Transport::Tcp, None, Some(12345)), "TCP");
}

#[test]
fn classify_tcp_no_ports() {
    assert_eq!(classify_protocol(Transport::Tcp, None, None), "TCP");
}

#[test]
fn classify_tcp_falls_back_to_src_port() {
    // dst_port is None, should check src_port
    assert_eq!(classify_protocol(Transport::Tcp, Some(80), None), "HTTP");
}

#[test]
fn classify_destination_port_wins_over_source_port() {
    assert_eq!(classify_protocol(Transport::Tcp, Some(443), Some(22)), "SSH");
    assert_eq!(classify_protocol(Transport::Udp, Some(53), Some(9999)), "UDP");
}

#[test]
fn classify_udp_dns_53() {
    assert_eq!(classify_protocol(Transport::Udp, None, Some(53)), "DNS");
}

#[test]
fn classify_udp_mdns_5353() {
    assert_eq!(classify_protocol(Transport::Udp, None, Some(5353)), "DNS");
}

#[test]
fn classify_udp_dhcp_67() {
    assert_eq!(classify_protocol(Transport::Udp, None, Some(67)), "DHCP");
}

#[test]
fn classify_udp_dhcp_68() {
    assert_eq!(classify_protocol(Transport::Udp, None, Some(68)), "DHCP");
}

#[test]
fn classify_udp_ntp() {
    assert_eq!(classify_protocol(Transport::Udp, None, Some(123)), "NTP");
}

#[test]
fn classify_udp_unknown() {
    assert_eq!(classify_protocol(Transport::Udp, None, Some(9999)), "UDP");
}

#[test]
fn classify_udp_no_ports() {
    assert_eq!(classify_protocol(Transport::Udp, None, None), "UDP");
}

#[test]
fn classify_udp_falls_back_to_src_port() {
    assert_eq!(classify_protocol(Transport::Udp, Some(53), None), "DNS");
}

#[test]
fn classify_icmp() {
    assert_eq!(classify_protocol(Transport::Icmp, None, None), "ICMP");
}

#[test]
fn classify_icmp_ignores_ports() {
    assert_eq!(classify_protocol(Transport::Icmp, Some(80), Some(443)), "ICMP");
}

#[test]
fn classify_other() {
    assert_eq!(classify_protocol(Transport::Other, None, None), "OTHER");
}

// -- EdgeKey equality --

#[test]
fn edge_key_same_fields_equal() {
    let a = EdgeKey { source: v4(10, 0, 0, 1), target: v4(10, 0, 0, 2), dst_port: 80 };
    let b = EdgeKey { source: v4(10, 0, 0, 1), target: v4(10, 0, 0, 2), dst_port: 80 };
    assert_eq!(a, b);
}

#[test]
fn edge_key_different_port_not_equal() {
    let a = EdgeKey { source: v4(10, 0, 0, 1), target: v4(10, 0, 0, 2), dst_port: 80 };
    let b = EdgeKey { source: v4(10, 0, 0, 1), target: v4(10, 0, 0, 2), dst_port: 443 };
    assert_ne!(a, b);
}

#[test]
fn edge_key_reversed_direction_not_equal() {
    // EdgeKey is directional: A->B differs from B->A
    let a = EdgeKey { source: v4(10, 0, 0, 1), target: v4(10, 0, 0, 2), dst_port: 80 };
    let b = EdgeKey { source: v4(10, 0, 0, 2), target: v4(10, 0, 0, 1), dst_port: 80 };
    assert_ne!(a, b);
}
