use wiregraph::capture::{capture_packet, transport_str};
use wiregraph::models::{EdgeKey, IpAddr, Transport};
use wiregraph::packet_store::ParsedPacket;
use wiregraph::topology::Topology;

fn ip(a: u8, b: u8, c: u8, d: u8) -> IpAddr {
    IpAddr::V4(a, b, c, d)
}

/// Seconds since the Unix epoch, in the microseconds the topology counts in.
fn secs(s: f64) -> u64 {
    (s * 1_000_000.0) as u64
}

#[test]
fn ingest_creates_nodes_and_edges() {
    let mut topo = Topology::new();
    topo.ingest(ip(10, 0, 0, 1), ip(10, 0, 0, 2), Some(12345), Some(80), "TCP", 100, None);

    assert_eq!(topo.nodes.len(), 2);
    assert_eq!(topo.edges.len(), 1);
    assert_eq!(topo.total_packets, 1);
    assert_eq!(topo.total_bytes, 100);

    let src = topo.node(ip(10, 0, 0, 1)).unwrap();
    assert_eq!(src.bytes_sent, 100);
    assert_eq!(src.bytes_recv, 0);
    assert!(src.is_local);

    let dst = topo.node(ip(10, 0, 0, 2)).unwrap();
    assert_eq!(dst.bytes_recv, 100);
    assert_eq!(dst.bytes_sent, 0);
}

#[test]
fn multiple_packets_accumulate() {
    let mut topo = Topology::new();
    topo.ingest(ip(10, 0, 0, 1), ip(10, 0, 0, 2), Some(12345), Some(80), "TCP", 100, None);
    topo.ingest(ip(10, 0, 0, 1), ip(10, 0, 0, 2), Some(12345), Some(80), "TCP", 200, None);

    assert_eq!(topo.nodes.len(), 2);
    assert_eq!(topo.edges.len(), 1);
    assert_eq!(topo.total_packets, 2);
    assert_eq!(topo.total_bytes, 300);

    let edge = &topo.edges[0];
    assert_eq!(edge.bytes, 300);
    assert_eq!(edge.packets, 2);
}

#[test]
fn different_dst_ports_create_separate_edges() {
    let mut topo = Topology::new();
    topo.ingest(ip(10, 0, 0, 1), ip(10, 0, 0, 2), Some(12345), Some(80), "TCP", 100, None);
    topo.ingest(ip(10, 0, 0, 1), ip(10, 0, 0, 2), Some(12345), Some(443), "TCP", 200, None);

    assert_eq!(topo.edges.len(), 2);
}

#[test]
fn events_since_filters_correctly() {
    let mut topo = Topology::new();
    let t1 = secs(1000.0);
    let t2 = secs(1001.0);
    let t3 = secs(1002.0);

    topo.ingest(ip(10, 0, 0, 1), ip(10, 0, 0, 2), Some(1), Some(80), "TCP", 10, Some(t1));
    topo.ingest(ip(10, 0, 0, 1), ip(10, 0, 0, 2), Some(1), Some(80), "TCP", 20, Some(t2));
    topo.ingest(ip(10, 0, 0, 1), ip(10, 0, 0, 2), Some(1), Some(80), "TCP", 30, Some(t3));

    let events = topo.events_since(secs(1000.5) as i64);
    assert_eq!(events.len(), 2);
}

#[test]
fn events_since_negative_keeps_all() {
    let mut topo = Topology::new();
    topo.ingest(ip(10, 0, 0, 1), ip(10, 0, 0, 2), None, None, "TCP", 10, Some(0));
    topo.ingest(ip(10, 0, 0, 1), ip(10, 0, 0, 2), None, None, "TCP", 10, Some(5));
    assert_eq!(topo.events_since(-1).len(), 2);
    assert_eq!(topo.events_since(0).len(), 1);
    assert_eq!(topo.events_since(5).len(), 0);
}

#[test]
fn old_events_are_pruned_from_the_front() {
    let mut topo = Topology::new();
    topo.ingest(ip(10, 0, 0, 1), ip(10, 0, 0, 2), None, Some(1), "TCP", 1, Some(secs(100.0)));
    topo.ingest(ip(10, 0, 0, 1), ip(10, 0, 0, 2), None, Some(1), "TCP", 2, Some(secs(103.0)));
    // exactly 5 s old is kept
    topo.ingest(ip(10, 0, 0, 1), ip(10, 0, 0, 2), None, Some(1), "TCP", 3, Some(secs(105.0)));
    assert_eq!(topo.events.len(), 3);
    topo.ingest(ip(10, 0, 0, 1), ip(10, 0, 0, 2), None, Some(1), "TCP", 4, Some(secs(105.5)));
    assert_eq!(topo.events.len(), 3);
    assert_eq!(topo.events[0].bytes, 2);
    assert_eq!(topo.events[2].bytes, 4);
}

#[test]
fn pruning_stops_at_first_fresh_event() {
    let mut topo = Topology::new();
    topo.ingest(ip(10, 0, 0, 1), ip(10, 0, 0, 2), None, Some(1), "TCP", 1, Some(secs(200.0)));
    topo.ingest(ip(10, 0, 0, 1), ip(10, 0, 0, 2), None, Some(1), "TCP", 2, Some(secs(50.0)));
    topo.ingest(ip(10, 0, 0, 1), ip(10, 0, 0, 2), None, Some(1), "TCP", 3, Some(secs(201.0)));
    // The fresh first event shields the stale second one behind it.
    assert_eq!(topo.events.len(), 3);
}

#[test]
fn topology_response_contains_all() {
    let mut topo = Topology::new();
    topo.ingest(ip(10, 0, 0, 1), ip(10, 0, 0, 2), Some(1), Some(80), "TCP", 100, None);
    topo.ingest(ip(192, 168, 1, 1), ip(8, 8, 8, 8), Some(2), Some(53), "UDP", 50, None);

    let resp = topo.topology_response();
    assert_eq!(resp.nodes.len(), 4);
    assert_eq!(resp.edges.len(), 2);
}

#[test]
fn stats_reflect_state() {
    let mut topo = Topology::new();
    topo.ingest(ip(10, 0, 0, 1), ip(10, 0, 0, 2), Some(1), Some(80), "TCP", 100, None);

    let stats = topo.stats();
    assert_eq!(stats.total_packets, 1);
    assert_eq!(stats.total_bytes, 100);
    assert_eq!(stats.host_count, 2);
    assert_eq!(stats.edge_count, 1);
}

#[test]
fn stats_at_measures_from_start() {
    let topo = Topology::new();
    let s = topo.stats_at(topo.start_time + 2_500_000);
    assert_eq!(s.capture_duration, 2_500_000);
    let s = topo.stats_at(topo.start_time - 1);
    assert_eq!(s.capture_duration, -1);
}

#[test]
fn protocols_tracked_on_nodes() {
    let mut topo = Topology::new();
    topo.ingest(ip(10, 0, 0, 1), ip(10, 0, 0, 2), Some(1), Some(80), "TCP", 100, None);
    topo.ingest(ip(10, 0, 0, 1), ip(10, 0, 0, 3), Some(2), Some(53), "UDP", 50, None);

    let node = topo.node(ip(10, 0, 0, 1)).unwrap();
    assert!(node.protocols.contains(&"TCP".to_string()));
    assert!(node.protocols.contains(&"UDP".to_string()));
}

#[test]
fn public_ip_not_local() {
    let mut topo = Topology::new();
    topo.ingest(ip(10, 0, 0, 1), ip(8, 8, 8, 8), Some(1), Some(53), "UDP", 50, None);

    assert!(topo.node(ip(10, 0, 0, 1)).unwrap().is_local);
    assert!(!topo.node(ip(8, 8, 8, 8)).unwrap().is_local);
}

#[test]
fn totals_are_conserved_across_records() {
    let mut topo = Topology::new();
    topo.ingest(ip(10, 0, 0, 1), ip(10, 0, 0, 2), None, Some(80), "TCP", 100, Some(1));
    topo.ingest(ip(10, 0, 0, 2), ip(10, 0, 0, 1), None, None, "TCP", 40, Some(2));
    topo.ingest(ip(10, 0, 0, 3), ip(10, 0, 0, 3), None, Some(7), "UDP", 5, Some(3));
    let sent: u64 = topo.nodes.iter().map(|n| n.bytes_sent).sum();
    let recv: u64 = topo.nodes.iter().map(|n| n.bytes_recv).sum();
    let counts: u64 = topo.nodes.iter().map(|n| n.packet_count).sum();
    let edge_bytes: u64 = topo.edges.iter().map(|e| e.bytes).sum();
    let edge_packets: u64 = topo.edges.iter().map(|e| e.packets).sum();
    assert_eq!(sent, 145);
    assert_eq!(recv, 145);
    assert_eq!(edge_bytes, 145);
    assert_eq!(edge_packets, 3);
    assert_eq!(counts, 6);
    let self_talk = topo.node(ip(10, 0, 0, 3)).unwrap();
    assert_eq!(self_talk.packet_count, 2);
    assert_eq!(self_talk.bytes_sent, 5);
    assert_eq!(self_talk.bytes_recv, 5);
    assert_eq!(topo.nodes.len(), 3);
}

#[test]
fn missing_dst_port_groups_under_port_zero() {
    let mut topo = Topology::new();
    topo.ingest(ip(10, 0, 0, 1), ip(10, 0, 0, 2), Some(9), None, "ICMP", 10, Some(1));
    let k = EdgeKey { source: ip(10, 0, 0, 1), target: ip(10, 0, 0, 2), dst_port: 0 };
    let e = topo.edge(k).unwrap();
    assert_eq!(e.protocol, "ICMP");
    assert_eq!(e.last_seen, 1);
}

#[test]
fn edge_keeps_protocol_of_first_packet() {
    let mut topo = Topology::new();
    topo.ingest(ip(10, 0, 0, 1), ip(10, 0, 0, 2), None, Some(80), "HTTP", 10, Some(1));
    topo.ingest(ip(10, 0, 0, 1), ip(10, 0, 0, 2), None, Some(80), "TCP", 10, Some(2));
    assert_eq!(topo.edges[0].protocol, "HTTP");
    assert_eq!(topo.edges[0].last_seen, 2);
}

#[test]
fn mark_inactive_only_deactivates_idle_edges() {
    let mut topo = Topology::new();
    topo.ingest(ip(10, 0, 0, 1), ip(10, 0, 0, 2), None, Some(80), "TCP", 10, Some(secs(10.0)));
    topo.ingest(ip(10, 0, 0, 1), ip(10, 0, 0, 2), None, Some(81), "TCP", 10, Some(secs(12.0)));
    topo.mark_inactive_at(secs(15.0));
    assert!(!topo.edges[0].active);
    assert!(topo.edges[1].active); // exactly 3 s idle stays active
    topo.ingest(ip(10, 0, 0, 1), ip(10, 0, 0, 2), None, Some(80), "TCP", 10, Some(secs(16.0)));
    assert!(topo.edges[0].active);
}

#[test]
fn mark_inactive_now_deactivates_old_edges() {
    let mut topo = Topology::new();
    topo.ingest(ip(10, 0, 0, 1), ip(10, 0, 0, 2), None, Some(80), "TCP", 10, Some(1));
    topo.mark_inactive();
    assert!(!topo.edges[0].active);
}

#[test]
fn can_ingest_refuses_overflow() {
    let mut topo = Topology::new();
    assert!(topo.can_ingest(ip(1, 1, 1, 1), ip(2, 2, 2, 2), u64::MAX));
    topo.ingest(ip(1, 1, 1, 1), ip(2, 2, 2, 2), None, None, "TCP", 10, Some(1));
    assert!(!topo.can_ingest(ip(1, 1, 1, 1), ip(2, 2, 2, 2), u64::MAX));
    assert!(topo.can_ingest(ip(1, 1, 1, 1), ip(2, 2, 2, 2), u64::MAX - 10));
}

#[test]
fn capture_packet_needs_both_addresses() {
    let mut topo = Topology::new();
    let mut parsed = ParsedPacket {
        src_ip: Some(ip(10, 0, 0, 1)),
        dst_ip: None,
        src_port: Some(1000),
        dst_port: Some(443),
        transport: Transport::Tcp,
    };
    assert!(!capture_packet(&mut topo, Some(parsed), 60, Some(5)));
    assert!(!capture_packet(&mut topo, None, 60, Some(5)));
    assert_eq!(topo.total_packets, 0);
    parsed.dst_ip = Some(ip(10, 0, 0, 2));
    assert!(capture_packet(&mut topo, Some(parsed), 60, Some(5)));
    assert_eq!(topo.total_packets, 1);
    assert_eq!(topo.edges[0].protocol, "TLS");
    assert_eq!(topo.events[0].timestamp, 5);
}

#[test]
fn transport_str_matches_classification() {
    assert_eq!(transport_str(Transport::Tcp, None, Some(22)), "SSH");
    assert_eq!(transport_str(Transport::Udp, Some(123), None), "NTP");
    assert_eq!(transport_str(Transport::Other, Some(80), Some(80)), "OTHER");
}
