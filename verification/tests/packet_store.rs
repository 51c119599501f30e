use std::time::{SystemTime, UNIX_EPOCH};

use wiregraph::models::{IpAddr, Transport};
use wiregraph::packet_store::{
    ExportFilter, LinkType, PacketQuery, PacketStore, ParsedPacket, StoredPacket, DEFAULT_MAX_BYTES,
    DEFAULT_MAX_PACKETS,
};

fn now_us() -> u64 {
    SystemTime::now().duration_since(UNIX_EPOCH).unwrap_or_default().as_micros() as u64
}

fn ip(o: [u8; 4]) -> IpAddr {
    IpAddr::V4(o[0], o[1], o[2], o[3])
}

fn make_pkt(src: [u8; 4], dst: [u8; 4], proto: &str) -> StoredPacket {
    make_pkt_ports(src, dst, proto, 12345, 80)
}

fn make_pkt_ports(src: [u8; 4], dst: [u8; 4], proto: &str, sport: u16, dport: u16) -> StoredPacket {
    StoredPacket {
        raw: vec![0; 64],
        timestamp: now_us(),
        src_ip: Some(ip(src)),
        dst_ip: Some(ip(dst)),
        src_port: Some(sport),
        dst_port: Some(dport),
        protocol: proto.to_string(),
    }
}

#[test]
fn empty_filter_matches_all() {
    let f = ExportFilter { hosts: vec![], protocols: vec![] };
    assert!(f.matches(&make_pkt([10, 0, 0, 1], [10, 0, 0, 2], "HTTP")));
}

#[test]
fn host_filter_matches_src() {
    let f = ExportFilter { hosts: vec![ip([10, 0, 0, 1])], protocols: vec![] };
    assert!(f.matches(&make_pkt([10, 0, 0, 1], [10, 0, 0, 2], "HTTP")));
}

#[test]
fn host_filter_matches_dst() {
    let f = ExportFilter { hosts: vec![ip([10, 0, 0, 2])], protocols: vec![] };
    assert!(f.matches(&make_pkt([10, 0, 0, 1], [10, 0, 0, 2], "HTTP")));
}

#[test]
fn host_filter_no_match() {
    let f = ExportFilter { hosts: vec![ip([8, 8, 8, 8])], protocols: vec![] };
    assert!(!f.matches(&make_pkt([10, 0, 0, 1], [10, 0, 0, 2], "HTTP")));
}

#[test]
fn host_filter_skips_packets_without_addresses() {
    let f = ExportFilter { hosts: vec![ip([10, 0, 0, 1])], protocols: vec![] };
    let pkt = StoredPacket::from_parsed(&[1, 2, 3], 7, None);
    assert!(!f.matches(&pkt));
    let all = ExportFilter { hosts: vec![], protocols: vec![] };
    assert!(all.matches(&pkt));
}

#[test]
fn protocol_filter_matches() {
    let f = ExportFilter { hosts: vec![], protocols: vec!["HTTP".to_string()] };
    assert!(f.matches(&make_pkt([10, 0, 0, 1], [10, 0, 0, 2], "HTTP")));
}

#[test]
fn protocol_filter_no_match() {
    let f = ExportFilter { hosts: vec![], protocols: vec!["DNS".to_string()] };
    assert!(!f.matches(&make_pkt([10, 0, 0, 1], [10, 0, 0, 2], "HTTP")));
}

#[test]
fn protocol_filter_case_insensitive() {
    let f = ExportFilter { hosts: vec![], protocols: vec!["http".to_string()] };
    assert!(f.matches(&make_pkt([10, 0, 0, 1], [10, 0, 0, 2], "HTTP")));
}

#[test]
fn protocol_filter_rejects_prefix_and_non_letters() {
    let f = ExportFilter { hosts: vec![], protocols: vec!["htt".to_string(), "h[tp".to_string()] };
    assert!(!f.matches(&make_pkt([10, 0, 0, 1], [10, 0, 0, 2], "HTTP")));
}

#[test]
fn combined_filter_both_must_match() {
    let f = ExportFilter { hosts: vec![ip([10, 0, 0, 1])], protocols: vec!["DNS".to_string()] };
    // Host matches but protocol doesn't
    assert!(!f.matches(&make_pkt([10, 0, 0, 1], [10, 0, 0, 2], "HTTP")));
    // Both match
    assert!(f.matches(&make_pkt([10, 0, 0, 1], [10, 0, 0, 2], "DNS")));
}

#[test]
fn multiple_hosts_filter() {
    let f = ExportFilter { hosts: vec![ip([10, 0, 0, 1]), ip([8, 8, 8, 8])], protocols: vec![] };
    assert!(f.matches(&make_pkt([10, 0, 0, 1], [10, 0, 0, 2], "HTTP")));
    assert!(f.matches(&make_pkt([1, 2, 3, 4], [8, 8, 8, 8], "DNS")));
    assert!(!f.matches(&make_pkt([1, 2, 3, 4], [5, 6, 7, 8], "TCP")));
}

#[test]
fn multiple_protocols_filter() {
    let f = ExportFilter { hosts: vec![], protocols: vec!["HTTP".to_string(), "TLS".to_string()] };
    assert!(f.matches(&make_pkt([10, 0, 0, 1], [10, 0, 0, 2], "HTTP")));
    assert!(f.matches(&make_pkt([10, 0, 0, 1], [10, 0, 0, 2], "TLS")));
    assert!(!f.matches(&make_pkt([10, 0, 0, 1], [10, 0, 0, 2], "DNS")));
}

// --- query_packets tests ---

fn make_store_with_packets() -> PacketStore {
    let mut store = PacketStore::new(LinkType::ethernet());
    store.insert(make_pkt_ports([10, 0, 0, 1], [10, 0, 0, 2], "HTTP", 54321, 80));
    store.insert(make_pkt_ports([10, 0, 0, 1], [8, 8, 8, 8], "DNS", 54322, 53));
    store.insert(make_pkt_ports([10, 0, 0, 2], [10, 0, 0, 1], "TLS", 54323, 443));
    store.insert(make_pkt_ports([10, 0, 0, 1], [10, 0, 0, 2], "HTTP", 54324, 80));
    store.insert(make_pkt_ports([8, 8, 8, 8], [10, 0, 0, 1], "DNS", 53, 54322));
    store
}

#[test]
fn query_packets_no_filter() {
    let store = make_store_with_packets();
    let page = store.query_packets(&PacketQuery::default());
    assert_eq!(page.total, 5);
    assert_eq!(page.packets.len(), 5);
}

#[test]
fn query_packets_host_filter() {
    let store = make_store_with_packets();
    let page = store.query_packets(&PacketQuery { hosts: vec![ip([8, 8, 8, 8])], ..Default::default() });
    assert_eq!(page.total, 2);
}

#[test]
fn query_packets_protocol_filter() {
    let store = make_store_with_packets();
    let page = store.query_packets(&PacketQuery { protocols: vec!["HTTP".to_string()], ..Default::default() });
    assert_eq!(page.total, 2);
}

#[test]
fn query_packets_port_filter() {
    let store = make_store_with_packets();
    let page = store.query_packets(&PacketQuery { port: Some(443), ..Default::default() });
    assert_eq!(page.total, 1);
    assert_eq!(page.packets[0].protocol, "TLS");
}

#[test]
fn query_packets_pagination() {
    let store = make_store_with_packets();
    let page = store.query_packets(&PacketQuery { limit: 2, offset: 0, ..Default::default() });
    assert_eq!(page.total, 5);
    assert_eq!(page.packets.len(), 2);
    assert_eq!(page.offset, 0);
    assert_eq!(page.limit, 2);

    let page2 = store.query_packets(&PacketQuery { limit: 2, offset: 2, ..Default::default() });
    assert_eq!(page2.total, 5);
    assert_eq!(page2.packets.len(), 2);
    assert_eq!(page2.offset, 2);
}

#[test]
fn query_packets_pages_join_up() {
    let store = make_store_with_packets();
    let first = store.query_packets(&PacketQuery { limit: 2, offset: 1, ..Default::default() });
    let second = store.query_packets(&PacketQuery { limit: 3, offset: 3, ..Default::default() });
    let both = store.query_packets(&PacketQuery { limit: 5, offset: 1, ..Default::default() });
    let joined: Vec<u16> = first.packets.iter().chain(second.packets.iter()).map(|p| p.src_port).collect();
    let whole: Vec<u16> = both.packets.iter().map(|p| p.src_port).collect();
    assert_eq!(joined, vec![54322, 54323, 54324, 53]);
    assert_eq!(joined, whole);
}

#[test]
fn query_packets_offset_past_end() {
    let store = make_store_with_packets();
    let page = store.query_packets(&PacketQuery { limit: 10, offset: 99, ..Default::default() });
    assert_eq!(page.total, 5);
    assert!(page.packets.is_empty());
    let page = store.query_packets(&PacketQuery { limit: usize::MAX, offset: 4, ..Default::default() });
    assert_eq!(page.packets.len(), 1);
}

#[test]
fn query_packets_combined_filters() {
    let store = make_store_with_packets();
    let page =
        store.query_packets(&PacketQuery { hosts: vec![ip([10, 0, 0, 1])], port: Some(80), ..Default::default() });
    assert_eq!(page.total, 2);
    for p in &page.packets {
        assert_eq!(p.protocol, "HTTP");
    }
}

#[test]
fn query_packets_info_fields() {
    let mut store = PacketStore::new(LinkType::ethernet());
    store.add(&[1, 2, 3, 4, 5], 42, None);
    let page = store.query_packets(&PacketQuery::default());
    let info = &page.packets[0];
    assert_eq!(info.timestamp, 42);
    assert_eq!(info.src_ip, None);
    assert_eq!(info.src_port, 0);
    assert_eq!(info.dst_port, 0);
    assert_eq!(info.protocol, "OTHER");
    assert_eq!(info.size, 5);
}

#[test]
fn matching_indices_for_export() {
    let store = make_store_with_packets();
    let idx = store.matching_indices(&vec![], &vec!["dns".to_string()], None);
    assert_eq!(idx, vec![1, 4]);
}

// --- conversation tests ---

fn protocol_bytes(conv: &wiregraph::packet_store::ConversationInfo, name: &str) -> Option<u64> {
    conv.protocols.iter().find(|p| p.protocol == name).map(|p| p.bytes)
}

#[test]
fn conversation_basic() {
    let store = make_store_with_packets();
    let a = ip([10, 0, 0, 1]);
    let b = ip([10, 0, 0, 2]);
    let conv = store.conversation(a, b);
    assert_eq!(conv.host_a, ip([10, 0, 0, 1]));
    assert_eq!(conv.host_b, ip([10, 0, 0, 2]));
    // 10.0.0.1 -> 10.0.0.2: 2 HTTP packets (64 bytes each)
    assert_eq!(conv.a_to_b_packets, 2);
    assert_eq!(conv.a_to_b_bytes, 128);
    // 10.0.0.2 -> 10.0.0.1: 1 TLS packet
    assert_eq!(conv.b_to_a_packets, 1);
    assert_eq!(conv.b_to_a_bytes, 64);
    assert!(protocol_bytes(&conv, "HTTP").is_some());
    assert!(protocol_bytes(&conv, "TLS").is_some());
}

#[test]
fn conversation_protocol_bytes_and_times() {
    let mut store = PacketStore::new(LinkType::ethernet());
    let mut p1 = make_pkt([10, 0, 0, 1], [10, 0, 0, 2], "HTTP");
    p1.timestamp = 5_000;
    let mut p2 = make_pkt([10, 0, 0, 2], [10, 0, 0, 1], "HTTP");
    p2.timestamp = 2_000;
    p2.raw = vec![0; 10];
    let mut p3 = make_pkt([10, 0, 0, 1], [10, 0, 0, 2], "TLS");
    p3.timestamp = 9_000;
    store.insert(p1);
    store.insert(p2);
    store.insert(p3);
    let conv = store.conversation(ip([10, 0, 0, 1]), ip([10, 0, 0, 2]));
    assert_eq!(protocol_bytes(&conv, "HTTP"), Some(74));
    assert_eq!(protocol_bytes(&conv, "TLS"), Some(64));
    assert_eq!(conv.protocols.len(), 2);
    assert_eq!(conv.first_seen, 2_000);
    assert_eq!(conv.last_seen, 9_000);
    assert_eq!(conv.duration, 7_000);
}

#[test]
fn conversation_is_symmetric() {
    let store = make_store_with_packets();
    let a = ip([10, 0, 0, 1]);
    let b = ip([10, 0, 0, 2]);
    let ab = store.conversation(a, b);
    let ba = store.conversation(b, a);
    assert_eq!(ab.a_to_b_packets, ba.b_to_a_packets);
    assert_eq!(ab.a_to_b_bytes, ba.b_to_a_bytes);
    assert_eq!(ab.b_to_a_packets, ba.a_to_b_packets);
    assert_eq!(ab.b_to_a_bytes, ba.a_to_b_bytes);
}

#[test]
fn conversation_with_itself_counts_once() {
    let mut store = PacketStore::new(LinkType::ethernet());
    store.insert(make_pkt([10, 0, 0, 9], [10, 0, 0, 9], "TCP"));
    let conv = store.conversation(ip([10, 0, 0, 9]), ip([10, 0, 0, 9]));
    assert_eq!(conv.a_to_b_packets, 1);
    assert_eq!(conv.b_to_a_packets, 0);
}

// --- eviction tests ---

#[test]
fn eviction_by_packet_count() {
    let mut store = PacketStore::with_limits(LinkType::ethernet(), 3, u64::MAX);
    for i in 0..5u8 {
        store.insert(make_pkt_ports([10, 0, 0, i], [10, 0, 0, 2], "TCP", 1000 + i as u16, 80));
    }
    assert_eq!(store.len(), 3);
    assert_eq!(store.retention_info().evicted_packets, 2);
    // Oldest packets (i=0,1) should be gone, remaining are i=2,3,4
    assert_eq!(store.packets()[0].src_port, Some(1002));
}

#[test]
fn eviction_by_byte_limit() {
    // 64 bytes per packet, limit to 192 bytes = 3 packets
    let mut store = PacketStore::with_limits(LinkType::ethernet(), usize::MAX, 192);
    for _ in 0..5 {
        store.insert(make_pkt([10, 0, 0, 1], [10, 0, 0, 2], "TCP"));
    }
    let info = store.retention_info();
    assert_eq!(store.len(), 3);
    assert_eq!(info.stored_bytes, 192);
    assert_eq!(info.evicted_bytes, 128);
}

#[test]
fn eviction_keeps_single_oversized_packet() {
    let mut store = PacketStore::with_limits(LinkType::ethernet(), 10, 100);
    store.add(&[0u8; 60], 1, None);
    store.add(&[0u8; 500], 2, None);
    let info = store.retention_info();
    assert_eq!(store.len(), 1);
    assert_eq!(info.stored_bytes, 500);
    assert_eq!(info.evicted_packets, 1);
    assert_eq!(info.evicted_bytes, 60);
    assert_eq!(store.packets()[0].timestamp, 2);
}

#[test]
fn eviction_with_zero_packet_limit_keeps_nothing() {
    let mut store = PacketStore::with_limits(LinkType::ethernet(), 0, u64::MAX);
    store.add(&[0u8; 8], 1, None);
    assert_eq!(store.len(), 0);
    assert_eq!(store.retention_info().evicted_packets, 1);
    assert_eq!(store.retention_info().evicted_bytes, 8);
}

#[test]
fn add_evicts_automatically() {
    let mut store = PacketStore::with_limits(LinkType::ethernet(), 3, u64::MAX);
    for _ in 0..5 {
        store.add(&[0u8; 64], now_us(), None);
    }
    assert_eq!(store.len(), 3);
    assert_eq!(store.retention_info().evicted_packets, 2);
}

#[test]
fn add_classifies_parsed_frames() {
    let mut store = PacketStore::new(LinkType::ethernet());
    let parsed = ParsedPacket {
        src_ip: Some(ip([10, 0, 0, 1])),
        dst_ip: Some(ip([1, 1, 1, 1])),
        src_port: Some(40000),
        dst_port: Some(53),
        transport: Transport::Udp,
    };
    store.add(&[0u8; 70], 3, Some(parsed));
    store.add(&[0u8; 20], 4, None);
    let pkts = store.packets();
    assert_eq!(pkts[0].protocol, "DNS");
    assert_eq!(pkts[0].dst_ip, Some(ip([1, 1, 1, 1])));
    assert_eq!(pkts[1].protocol, "OTHER");
    assert_eq!(pkts[1].src_ip, None);
}

#[test]
fn retention_info_reports_correctly() {
    let mut store = PacketStore::with_limits(LinkType::ethernet(), 100, 10000);
    for _ in 0..5 {
        store.add(&[0u8; 64], now_us(), None);
    }
    let ri = store.retention_info();
    assert_eq!(ri.stored_packets, 5);
    assert_eq!(ri.max_packets, 100);
    assert_eq!(ri.max_bytes, 10000);
    assert_eq!(ri.evicted_packets, 0);
}

#[test]
fn retention_info_window() {
    let mut store = PacketStore::new(LinkType::ethernet());
    let ri = store.retention_info();
    assert_eq!((ri.oldest_timestamp, ri.newest_timestamp, ri.window), (0, 0, 0));
    store.add(&[0u8; 10], 1_000, None);
    store.add(&[0u8; 10], 4_500, None);
    let ri = store.retention_info();
    assert_eq!(ri.oldest_timestamp, 1_000);
    assert_eq!(ri.newest_timestamp, 4_500);
    assert_eq!(ri.window, 3_500);
    assert_eq!(ri.max_packets, DEFAULT_MAX_PACKETS);
    assert_eq!(ri.max_bytes, DEFAULT_MAX_BYTES);
}

#[test]
fn clear_keeps_limits_and_eviction_counters() {
    let mut store = PacketStore::with_limits(LinkType::ethernet(), 1, u64::MAX);
    store.add(&[0u8; 10], 1, None);
    store.add(&[0u8; 10], 2, None);
    store.clear();
    let ri = store.retention_info();
    assert_eq!(ri.stored_packets, 0);
    assert_eq!(ri.stored_bytes, 0);
    assert_eq!(ri.evicted_packets, 1);
    assert_eq!(ri.max_packets, 1);
}

#[test]
fn set_link_type_changes_only_link_type() {
    let mut store = PacketStore::new(LinkType::ethernet());
    store.set_link_type(LinkType { dlt: 101 });
    assert_eq!(store.link_type(), LinkType { dlt: 101 });
    assert_eq!(store.len(), 0);
}

#[test]
fn conversation_no_traffic() {
    let store = make_store_with_packets();
    let a = ip([1, 1, 1, 1]);
    let b = ip([2, 2, 2, 2]);
    let conv = store.conversation(a, b);
    assert_eq!(conv.a_to_b_packets, 0);
    assert_eq!(conv.b_to_a_packets, 0);
    assert_eq!(conv.duration, 0);
}
