//! The values the topology is made of: addresses, hosts (nodes), directed
//! flows (edges), per-packet events, summary statistics, and the protocol
//! classification of a packet.

use vstd::prelude::*;
use crate::text::{digits, push_digits, string_from_chars};

verus! {

/// An IPv4 address (four octets) or an IPv6 address (eight 16-bit segments).
#[derive(Clone, Copy, Debug, PartialEq, Eq, Structural, Hash)]
pub enum IpAddr {
    V4(u8, u8, u8, u8),
    V6(u16, u16, u16, u16, u16, u16, u16, u16),
}

/// The transport layer of a parsed packet.
#[derive(Clone, Copy, Debug, PartialEq, Eq, Structural)]
pub enum Transport {
    Tcp,
    Udp,
    Icmp,
    Other,
}

/// The `/24` subnet of an IPv4 address (`a.b.c.0/24`, decimal octets) or the
/// `/64` prefix of an IPv6 address (`s0:s1:s2:s3::/64`, lower-case hex
/// segments without leading zeros).
pub open spec fn subnet_spec(ip: IpAddr) -> Seq<char> {
    match ip {
        IpAddr::V4(a, b, c, _) => digits(a as nat, 10) + seq!['.'] + digits(b as nat, 10) + seq![
            '.',
        ] + digits(c as nat, 10) + seq!['.', '0', '/', '2', '4'],
        IpAddr::V6(s0, s1, s2, s3, _, _, _, _) => digits(s0 as nat, 16) + seq![':'] + digits(
            s1 as nat,
            16,
        ) + seq![':'] + digits(s2 as nat, 16) + seq![':'] + digits(s3 as nat, 16) + seq![
            ':',
            ':',
            '/',
            '6',
            '4',
        ],
    }
}

/// Whether an address is local to the site: IPv4 private ranges
/// (10/8, 172.16/12, 192.168/16), loopback (127/8) and link-local
/// (169.254/16); IPv6 loopback (`::1`), unique-local (`fc00::/7`) and
/// link-local (`fe80::/10`).
pub open spec fn is_local_spec(ip: IpAddr) -> bool {
    match ip {
        IpAddr::V4(a, b, _, _) => {
            ||| a == 10
            ||| (a == 172 && 16 <= b <= 31)
            ||| (a == 192 && b == 168)
            ||| a == 127
            ||| (a == 169 && b == 254)
        },
        IpAddr::V6(s0, s1, s2, s3, s4, s5, s6, s7) => {
            ||| (s0 == 0 && s1 == 0 && s2 == 0 && s3 == 0 && s4 == 0 && s5 == 0 && s6 == 0 && s7
                == 1)
            ||| (0xfc00 <= s0 <= 0xfdff)
            ||| (0xfe80 <= s0 <= 0xfebf)
        },
    }
}

/// The address ranges of [`is_local_spec`] are the usual IPv6 prefixes,
/// tested by masking the first segment: `fc00::/7` and `fe80::/10`.
pub proof fn lemma_ipv6_local_prefixes(s0: u16)
    ensures
        ((s0 & 0xfe00u16) == 0xfc00u16) == (0xfc00 <= s0 && s0 <= 0xfdff),
        ((s0 & 0xffc0u16) == 0xfe80u16) == (0xfe80 <= s0 && s0 <= 0xfebf),
{
    assert(((s0 & 0xfe00u16) == 0xfc00u16) == (0xfc00 <= s0 && s0 <= 0xfdff)) by (bit_vector);
    assert(((s0 & 0xffc0u16) == 0xfe80u16) == (0xfe80 <= s0 && s0 <= 0xfebf)) by (bit_vector);
}

/// The IPv4 private range `172.16.0.0/12` is the second octet masked with
/// `0xf0` equal to 16.
pub proof fn lemma_ipv4_private_prefix(b: u8)
    ensures
        ((b & 0xf0u8) == 16u8) == (16 <= b && b <= 31),
{
    assert(((b & 0xf0u8) == 16u8) == (16 <= b && b <= 31)) by (bit_vector);
}

/// An IPv4 address as one 32-bit number, first octet most significant.
pub open spec fn ipv4_bits(a: u8, b: u8, c: u8, d: u8) -> u32 {
    ((a as u32) << 24u32) | ((b as u32) << 16u32) | ((c as u32) << 8u32) | (d as u32)
}

/// Whether a 32-bit IPv4 address lies in the network `net` with netmask
/// `mask`.
pub open spec fn in_v4_network(x: u32, net: u32, mask: u32) -> bool {
    x & mask == net
}

/// The local address ranges written as networks and masks:
/// 10.0.0.0/8, 172.16.0.0/12, 192.168.0.0/16, 127.0.0.0/8, 169.254.0.0/16;
/// `::1`, `fc00::/7` and `fe80::/10`.
pub open spec fn in_local_network(ip: IpAddr) -> bool {
    match ip {
        IpAddr::V4(a, b, c, d) => {
            let x = ipv4_bits(a, b, c, d);
            ||| in_v4_network(x, 0x0a00_0000u32, 0xff00_0000u32)
            ||| in_v4_network(x, 0xac10_0000u32, 0xfff0_0000u32)
            ||| in_v4_network(x, 0xc0a8_0000u32, 0xffff_0000u32)
            ||| in_v4_network(x, 0x7f00_0000u32, 0xff00_0000u32)
            ||| in_v4_network(x, 0xa9fe_0000u32, 0xffff_0000u32)
        },
        IpAddr::V6(s0, s1, s2, s3, s4, s5, s6, s7) => {
            ||| (s0 | s1 | s2 | s3 | s4 | s5 | s6) == 0u16 && s7 == 1u16
            ||| s0 & 0xfe00u16 == 0xfc00u16
            ||| s0 & 0xffc0u16 == 0xfe80u16
        },
    }
}

/// An address is local exactly when it lies in one of the local networks,
/// tested with their netmasks: for instance `192.30.255.112` is not local,
/// since only `192.168.0.0/16` of the `192.x` addresses is.
pub proof fn lemma_local_is_network_membership(ip: IpAddr)
    ensures
        is_local_spec(ip) == in_local_network(ip),
{
    match ip {
        IpAddr::V4(a, b, c, d) => {
            let x = ipv4_bits(a, b, c, d);
            assert(in_v4_network(x, 0x0a00_0000u32, 0xff00_0000u32) == (a == 10)) by (bit_vector)
                requires x == ipv4_bits(a, b, c, d);
            assert(in_v4_network(x, 0xac10_0000u32, 0xfff0_0000u32) == (a == 172 && 16 <= b && b <= 31)) by (bit_vector)
                requires x == ipv4_bits(a, b, c, d);
            assert(in_v4_network(x, 0xc0a8_0000u32, 0xffff_0000u32) == (a == 192 && b == 168)) by (bit_vector)
                requires x == ipv4_bits(a, b, c, d);
            assert(in_v4_network(x, 0x7f00_0000u32, 0xff00_0000u32) == (a == 127)) by (bit_vector)
                requires x == ipv4_bits(a, b, c, d);
            assert(in_v4_network(x, 0xa9fe_0000u32, 0xffff_0000u32) == (a == 169 && b == 254)) by (bit_vector)
                requires x == ipv4_bits(a, b, c, d);
        },
        IpAddr::V6(s0, s1, s2, s3, s4, s5, s6, s7) => {
            assert(((s0 | s1 | s2 | s3 | s4 | s5 | s6) == 0u16) == (s0 == 0 && s1 == 0 && s2 == 0 && s3 == 0 && s4 == 0
                && s5 == 0 && s6 == 0)) by (bit_vector);
            lemma_ipv6_local_prefixes(s0);
        },
    }
}

/// The port a packet is classified by: the destination port, or the source
/// port when there is no destination port.
pub open spec fn service_port(src_port: Option<u16>, dst_port: Option<u16>) -> Option<u16> {
    match dst_port {
        Some(p) => Some(p),
        None => src_port,
    }
}

/// The application protocol name of a packet, from its transport and the
/// well-known port it uses.
pub open spec fn protocol_name(t: Transport, src_port: Option<u16>, dst_port: Option<u16>) -> Seq<
    char,
> {
    let port = service_port(src_port, dst_port);
    match t {
        Transport::Tcp => {
            if port == Some(80u16) || port == Some(8080u16) {
                "HTTP"@
            } else if port == Some(443u16) {
                "TLS"@
            } else if port == Some(22u16) {
                "SSH"@
            } else if port == Some(25u16) || port == Some(587u16) || port == Some(465u16) {
                "SMTP"@
            } else {
                "TCP"@
            }
        },
        Transport::Udp => {
            if port == Some(53u16) || port == Some(5353u16) {
                "DNS"@
            } else if port == Some(67u16) || port == Some(68u16) {
                "DHCP"@
            } else if port == Some(123u16) {
                "NTP"@
            } else {
                "UDP"@
            }
        },
        Transport::Icmp => "ICMP"@,
        Transport::Other => "OTHER"@,
    }
}

/// The destination port decides the classification; the source port only
/// counts when there is no destination port, and ICMP and other transports
/// ignore ports.
pub proof fn lemma_destination_port_decides(t: Transport, src_port: Option<u16>, d: u16)
    ensures
        protocol_name(t, src_port, Some(d)) == protocol_name(t, None, Some(d)),
        protocol_name(t, Some(d), None) == protocol_name(t, None, Some(d)),
        protocol_name(Transport::Icmp, src_port, Some(d)) == "ICMP"@,
        protocol_name(Transport::Other, src_port, Some(d)) == "OTHER"@,
{
}

/// Renders the subnet of an address (see [`subnet_spec`]).
pub fn subnet_of(ip: IpAddr) -> (s: String)
    ensures
        s@ == subnet_spec(ip),
{
    let mut out: Vec<char> = Vec::new();
    match ip {
        IpAddr::V4(a, b, c, _) => {
            push_digits(&mut out, a as u32, 10);
            out.push('.');
            push_digits(&mut out, b as u32, 10);
            out.push('.');
            push_digits(&mut out, c as u32, 10);
            out.push('.');
            out.push('0');
            out.push('/');
            out.push('2');
            out.push('4');
        },
        IpAddr::V6(s0, s1, s2, s3, _, _, _, _) => {
            push_digits(&mut out, s0 as u32, 16);
            out.push(':');
            push_digits(&mut out, s1 as u32, 16);
            out.push(':');
            push_digits(&mut out, s2 as u32, 16);
            out.push(':');
            push_digits(&mut out, s3 as u32, 16);
            out.push(':');
            out.push(':');
            out.push('/');
            out.push('6');
            out.push('4');
        },
    }
    proof {
        assert(out@ =~= subnet_spec(ip));
    }
    string_from_chars(&out)
}

/// Whether an address is local (see [`is_local_spec`]).
pub fn is_local_ip(ip: IpAddr) -> (r: bool)
    ensures
        r == is_local_spec(ip),
        r == in_local_network(ip),
{
    proof {
        lemma_local_is_network_membership(ip);
    }
    match ip {
        IpAddr::V4(a, b, _, _) => a == 10 || (a == 172 && 16 <= b && b <= 31) || (a == 192 && b
            == 168) || a == 127 || (a == 169 && b == 254),
        IpAddr::V6(s0, s1, s2, s3, s4, s5, s6, s7) => (s0 == 0 && s1 == 0 && s2 == 0 && s3 == 0
            && s4 == 0 && s5 == 0 && s6 == 0 && s7 == 1) || (0xfc00 <= s0 && s0 <= 0xfdff) || (
        0xfe80 <= s0 && s0 <= 0xfebf),
    }
}

/// Classifies a packet by transport and well-known port (see [`protocol_name`]).
pub fn classify_protocol(t: Transport, src_port: Option<u16>, dst_port: Option<u16>) -> (r:
    &'static str)
    ensures
        r@ == protocol_name(t, src_port, dst_port),
{
    let port = match dst_port {
        Some(p) => Some(p),
        None => src_port,
    };
    match t {
        Transport::Tcp => match port {
            Some(80) | Some(8080) => "HTTP",
            Some(443) => "TLS",
            Some(22) => "SSH",
            Some(25) | Some(587) | Some(465) => "SMTP",
            _ => "TCP",
        },
        Transport::Udp => match port {
            Some(53) | Some(5353) => "DNS",
            Some(67) | Some(68) => "DHCP",
            Some(123) => "NTP",
            _ => "UDP",
        },
        Transport::Icmp => "ICMP",
        Transport::Other => "OTHER",
    }
}

/// The protocol list after a packet of protocol `p` is seen: unchanged when
/// `p` is already listed, else `p` appended.
pub open spec fn insert_protocol(ps: Seq<Seq<char>>, p: Seq<char>) -> Seq<Seq<char>> {
    if ps.contains(p) {
        ps
    } else {
        ps.push(p)
    }
}

/// What a host is, as a mathematical value.
pub struct NodeView {
    pub ip: IpAddr,
    pub subnet: Seq<char>,
    pub bytes_sent: nat,
    pub bytes_recv: nat,
    pub packet_count: nat,
    pub protocols: Seq<Seq<char>>,
    pub is_local: bool,
    pub last_seen: u64,
}

/// A host seen in the traffic, with what it sent and received.
/// `last_seen` is a time in microseconds since the Unix epoch.
pub struct Node {
    pub ip: IpAddr,
    pub subnet: String,
    pub bytes_sent: u64,
    pub bytes_recv: u64,
    pub packet_count: u64,
    pub protocols: Vec<String>,
    pub is_local: bool,
    pub last_seen: u64,
}

/// The host record of an address that has not carried any traffic yet.
pub open spec fn fresh_node(ip: IpAddr) -> NodeView {
    NodeView {
        ip,
        subnet: subnet_spec(ip),
        bytes_sent: 0,
        bytes_recv: 0,
        packet_count: 0,
        protocols: Seq::empty(),
        is_local: is_local_spec(ip),
        last_seen: 0,
    }
}

impl View for Node {
    type V = NodeView;

    open spec fn view(&self) -> NodeView {
        NodeView {
            ip: self.ip,
            subnet: self.subnet@,
            bytes_sent: self.bytes_sent as nat,
            bytes_recv: self.bytes_recv as nat,
            packet_count: self.packet_count as nat,
            protocols: self.protocols@.map_values(|s: String| s@),
            is_local: self.is_local,
            last_seen: self.last_seen,
        }
    }
}

/// Copies a list of strings.
pub fn clone_strings(v: &Vec<String>) -> (r: Vec<String>)
    ensures
        r@.map_values(|s: String| s@) == v@.map_values(|s: String| s@),
{
    let mut r: Vec<String> = Vec::new();
    let mut i: usize = 0;
    while i < v.len()
        invariant
            i <= v.len(),
            r@.len() == i,
            forall|j: int| 0 <= j < i ==> #[trigger] r@[j]@ == v@[j]@,
        decreases v.len() - i,
    {
        let c = v[i].clone();
        r.push(c);
        i = i + 1;
    }
    proof {
        assert(r@.map_values(|s: String| s@) =~= v@.map_values(|s: String| s@));
    }
    r
}

impl Node {
    /// A host with no traffic yet: its subnet and locality computed from
    /// the address, all counters zero, no protocols.
    pub fn new(ip: IpAddr) -> (n: Node)
        ensures
            n@ == fresh_node(ip),
            n@.is_local == in_local_network(ip),
    {
        let n = Node {
            ip,
            subnet: subnet_of(ip),
            bytes_sent: 0,
            bytes_recv: 0,
            packet_count: 0,
            protocols: Vec::new(),
            is_local: is_local_ip(ip),
            last_seen: 0,
        };
        proof {
            assert(n@.protocols =~= Seq::<Seq<char>>::empty());
        }
        n
    }

    /// A copy of this host record.
    pub fn duplicate(&self) -> (r: Node)
        ensures
            r@ == self@,
    {
        Node {
            ip: self.ip,
            subnet: self.subnet.clone(),
            bytes_sent: self.bytes_sent,
            bytes_recv: self.bytes_recv,
            packet_count: self.packet_count,
            protocols: clone_strings(&self.protocols),
            is_local: self.is_local,
            last_seen: self.last_seen,
        }
    }

    /// Records that a packet of protocol `p` touched this host.
    pub fn add_protocol(&mut self, p: &str)
        ensures
            final(self)@ == (NodeView { protocols: insert_protocol(old(self)@.protocols, p@), ..old(self)@ }),
    {
        let ghost ps = old(self)@.protocols;
        let wanted = p.to_owned();
        let mut i: usize = 0;
        while i < self.protocols.len()
            invariant
                self@ == old(self)@,
                ps == self@.protocols,
                wanted@ == p@,
                i <= self.protocols.len(),
                forall|j: int| 0 <= j < i ==> ps[j] != p@,
            decreases self.protocols.len() - i,
        {
            if self.protocols[i] == wanted {
                proof {
                    assert(ps[i as int] == p@);
                    assert(ps.contains(p@));
                }
                return;
            }
            i = i + 1;
        }
        proof {
            assert(!ps.contains(p@));
        }
        self.protocols.push(wanted);
        proof {
            assert(self@.protocols =~= ps.push(p@));
        }
    }
}

/// The key an edge is found by: direction (source to target) and destination port.
#[derive(Clone, Copy, Debug, PartialEq, Eq, Structural, Hash)]
pub struct EdgeKey {
    pub source: IpAddr,
    pub target: IpAddr,
    pub dst_port: u16,
}

/// What a flow is, as a mathematical value.
pub struct EdgeView {
    pub source: IpAddr,
    pub target: IpAddr,
    pub dst_port: u16,
    pub protocol: Seq<char>,
    pub bytes: nat,
    pub packets: nat,
    pub active: bool,
    pub last_seen: u64,
}

/// Traffic from one host to another on one destination port. `protocol`
/// is the protocol of the first packet seen; `last_seen` is in
/// microseconds since the Unix epoch.
pub struct Edge {
    pub source: IpAddr,
    pub target: IpAddr,
    pub dst_port: u16,
    pub protocol: String,
    pub bytes: u64,
    pub packets: u64,
    pub active: bool,
    pub last_seen: u64,
}

impl View for Edge {
    type V = EdgeView;

    open spec fn view(&self) -> EdgeView {
        EdgeView {
            source: self.source,
            target: self.target,
            dst_port: self.dst_port,
            protocol: self.protocol@,
            bytes: self.bytes as nat,
            packets: self.packets as nat,
            active: self.active,
            last_seen: self.last_seen,
        }
    }
}

/// The flow record of a key that has not carried any traffic yet.
pub open spec fn fresh_edge(source: IpAddr, target: IpAddr, dst_port: u16, protocol: Seq<char>) -> EdgeView {
    EdgeView { source, target, dst_port, protocol, bytes: 0, packets: 0, active: true, last_seen: 0 }
}

impl EdgeView {
    pub open spec fn key(self) -> EdgeKey {
        EdgeKey { source: self.source, target: self.target, dst_port: self.dst_port }
    }
}

impl Edge {
    /// A flow with no traffic yet, marked active.
    pub fn new(source: IpAddr, target: IpAddr, dst_port: u16, protocol: &str) -> (e: Edge)
        ensures
            e@ == fresh_edge(source, target, dst_port, protocol@),
    {
        Edge {
            source,
            target,
            dst_port,
            protocol: protocol.to_owned(),
            bytes: 0,
            packets: 0,
            active: true,
            last_seen: 0,
        }
    }

    /// A copy of this flow record.
    pub fn duplicate(&self) -> (r: Edge)
        ensures
            r@ == self@,
    {
        Edge {
            source: self.source,
            target: self.target,
            dst_port: self.dst_port,
            protocol: self.protocol.clone(),
            bytes: self.bytes,
            packets: self.packets,
            active: self.active,
            last_seen: self.last_seen,
        }
    }
}

/// What a packet event is, as a mathematical value.
pub struct PacketEventView {
    pub timestamp: u64,
    pub source: IpAddr,
    pub target: IpAddr,
    pub bytes: u64,
    pub protocol: Seq<char>,
}

/// One packet, as shown in the live feed. `timestamp` is in microseconds
/// since the Unix epoch.
pub struct PacketEvent {
    pub timestamp: u64,
    pub source: IpAddr,
    pub target: IpAddr,
    pub bytes: u64,
    pub protocol: String,
}

impl View for PacketEvent {
    type V = PacketEventView;

    open spec fn view(&self) -> PacketEventView {
        PacketEventView {
            timestamp: self.timestamp,
            source: self.source,
            target: self.target,
            bytes: self.bytes,
            protocol: self.protocol@,
        }
    }
}

impl PacketEvent {
    /// A copy of this event.
    pub fn duplicate(&self) -> (r: PacketEvent)
        ensures
            r@ == self@,
    {
        PacketEvent {
            timestamp: self.timestamp,
            source: self.source,
            target: self.target,
            bytes: self.bytes,
            protocol: self.protocol.clone(),
        }
    }
}

/// Summary counters of the topology. `capture_duration` is the time since
/// the topology was created, in microseconds (negative if the clock went
/// back); the packet rate is derived from it and `total_packets`.
pub struct Stats {
    pub total_packets: u64,
    pub total_bytes: u64,
    pub host_count: usize,
    pub edge_count: usize,
    pub capture_duration: i128,
}

/// All hosts and flows of the topology.
pub struct TopologyResponse {
    pub nodes: Vec<Node>,
    pub edges: Vec<Edge>,
}

} // verus!
