//! The live topology: one record per host, one per directed flow
//! (source, target, destination port), a short buffer of recent packet
//! events, and running totals.

use vstd::prelude::*;
use std::collections::VecDeque;
use crate::models::{
    IpAddr, Node, NodeView, Edge, EdgeView, EdgeKey, PacketEvent, PacketEventView, Stats,
    TopologyResponse, fresh_node, fresh_edge, insert_protocol,
};

verus! {

/// How long events stay in the buffer, relative to the newest packet (5 s).
pub const EVENT_BUFFER_MICROS: u64 = 5_000_000;

/// How long a flow stays active without traffic (3 s).
pub const ACTIVE_TIMEOUT_MICROS: u64 = 3_000_000;

/// The current time in microseconds since the Unix epoch (0 if the clock
/// is before the epoch).
///
/// Trusted: reads the system clock through `SystemTime::now`; nothing is
/// claimed of the value.
#[verifier::external_body]
fn now_micros() -> (t: u64) {
    std::time::SystemTime::now().duration_since(std::time::UNIX_EPOCH).map(|d| d.as_micros() as u64).unwrap_or(0)
}

/// A host's record after a packet from `src` to `dst`: a source gains the
/// bytes as sent, a destination as received, each role counts one packet,
/// the protocol is listed and the host is last seen at `ts`. Hosts not in
/// the packet are unchanged.
pub open spec fn touch_node(n: NodeView, src: IpAddr, dst: IpAddr, bytes: u64, protocol: Seq<char>, ts: u64) -> NodeView {
    if n.ip == src || n.ip == dst {
        NodeView {
            bytes_sent: if n.ip == src { n.bytes_sent + bytes as nat } else { n.bytes_sent },
            bytes_recv: if n.ip == dst { n.bytes_recv + bytes as nat } else { n.bytes_recv },
            packet_count: n.packet_count + (if n.ip == src { 1nat } else { 0nat }) + (if n.ip == dst { 1nat } else { 0nat }),
            protocols: insert_protocol(n.protocols, protocol),
            last_seen: ts,
            ..n
        }
    } else {
        n
    }
}

/// Whether some host record has address `ip`.
pub open spec fn has_node(ns: Seq<NodeView>, ip: IpAddr) -> bool {
    exists|i: int| 0 <= i < ns.len() && #[trigger] ns[i].ip == ip
}

/// The hosts after a packet: every record touched, then a new record for
/// the source if it had none, then one for the destination if it had none.
pub open spec fn nodes_after(ns: Seq<NodeView>, src: IpAddr, dst: IpAddr, bytes: u64, protocol: Seq<char>, ts: u64) -> Seq<NodeView> {
    let touched = ns.map_values(|n: NodeView| touch_node(n, src, dst, bytes, protocol, ts));
    let with_src = if has_node(ns, src) {
        touched
    } else {
        touched.push(touch_node(fresh_node(src), src, dst, bytes, protocol, ts))
    };
    if has_node(ns, dst) || dst == src {
        with_src
    } else {
        with_src.push(touch_node(fresh_node(dst), src, dst, bytes, protocol, ts))
    }
}

/// A flow's record after one more packet of `bytes` bytes at `ts`.
pub open spec fn bump_edge(e: EdgeView, bytes: u64, ts: u64) -> EdgeView {
    EdgeView { bytes: e.bytes + bytes as nat, packets: e.packets + 1, active: true, last_seen: ts, ..e }
}

/// Whether some flow record has key `k`.
pub open spec fn has_edge(es: Seq<EdgeView>, k: EdgeKey) -> bool {
    exists|i: int| 0 <= i < es.len() && #[trigger] es[i].key() == k
}

/// The flows after a packet on key `k`: that flow's record bumped, or a new
/// record (with the packet's protocol) added and bumped.
pub open spec fn edges_after(es: Seq<EdgeView>, k: EdgeKey, protocol: Seq<char>, bytes: u64, ts: u64) -> Seq<EdgeView> {
    let touched = es.map_values(|e: EdgeView| if e.key() == k { bump_edge(e, bytes, ts) } else { e });
    if has_edge(es, k) {
        touched
    } else {
        touched.push(bump_edge(fresh_edge(k.source, k.target, k.dst_port, protocol), bytes, ts))
    }
}

/// Whether an event is older than the buffer window ending at `ts`.
pub open spec fn is_stale(e: PacketEventView, ts: u64) -> bool {
    (e.timestamp as int) < (ts as int) - (EVENT_BUFFER_MICROS as int)
}

/// Drops stale events from the front of the buffer, stopping at the first
/// fresh one.
pub open spec fn prune_front(s: Seq<PacketEventView>, ts: u64) -> Seq<PacketEventView>
    decreases s.len(),
{
    if s.len() > 0 && is_stale(s[0], ts) {
        prune_front(s.drop_first(), ts)
    } else {
        s
    }
}

/// The topology, as a mathematical value.
pub struct TopologyView {
    pub nodes: Seq<NodeView>,
    pub edges: Seq<EdgeView>,
    pub events: Seq<PacketEventView>,
    pub total_packets: nat,
    pub total_bytes: nat,
    pub start_time: u64,
}

/// The key a packet is grouped under: its direction and destination port
/// (0 when it has none).
pub open spec fn edge_key_of(src: IpAddr, dst: IpAddr, dst_port: Option<u16>) -> EdgeKey {
    EdgeKey {
        source: src,
        target: dst,
        dst_port: match dst_port {
            Some(p) => p,
            None => 0,
        },
    }
}

/// The topology after one packet from `src` to `dst` of `bytes` bytes at
/// time `ts`.
pub open spec fn after_ingest(
    t: TopologyView,
    src: IpAddr,
    dst: IpAddr,
    dst_port: Option<u16>,
    protocol: Seq<char>,
    bytes: u64,
    ts: u64,
) -> TopologyView {
    let event = PacketEventView { timestamp: ts, source: src, target: dst, bytes, protocol };
    TopologyView {
        nodes: nodes_after(t.nodes, src, dst, bytes, protocol, ts),
        edges: edges_after(t.edges, edge_key_of(src, dst, dst_port), protocol, bytes, ts),
        events: prune_front(t.events.push(event), ts),
        total_packets: t.total_packets + 1,
        total_bytes: t.total_bytes + bytes as nat,
        start_time: t.start_time,
    }
}

/// The flows after the inactivity sweep at time `now`: a flow last seen
/// more than the timeout before `now` is marked inactive; no flow becomes
/// active.
pub open spec fn edges_swept(es: Seq<EdgeView>, now: u64) -> Seq<EdgeView> {
    es.map_values(|e: EdgeView| if (now as int) - (e.last_seen as int) > ACTIVE_TIMEOUT_MICROS as int {
        EdgeView { active: false, ..e }
    } else {
        e
    })
}

/// The live topology of hosts and flows.
pub struct Topology {
    pub nodes: Vec<Node>,
    pub edges: Vec<Edge>,
    pub events: VecDeque<PacketEvent>,
    pub total_packets: u64,
    pub total_bytes: u64,
    pub start_time: u64,
}

impl View for Topology {
    type V = TopologyView;

    open spec fn view(&self) -> TopologyView {
        TopologyView {
            nodes: self.nodes@.map_values(|n: Node| n@),
            edges: self.edges@.map_values(|e: Edge| e@),
            events: self.events@.map_values(|e: PacketEvent| e@),
            total_packets: self.total_packets as nat,
            total_bytes: self.total_bytes as nat,
            start_time: self.start_time,
        }
    }
}

/// The topology's invariant: one record per host and per flow, no protocol
/// listed twice on a host, no byte or packet counter above the totals, and
/// the totals conserved across the records (see [`conserved`]).
pub open spec fn topology_wf(t: TopologyView) -> bool {
    &&& distinct_ips(t.nodes)
    &&& distinct_edge_keys(t.edges)
    &&& conserved(t)
    &&& forall|i: int| 0 <= i < t.nodes.len() ==> (#[trigger] t.nodes[i]).protocols.no_duplicates()
    &&& forall|i: int| 0 <= i < t.nodes.len() ==> (#[trigger] t.nodes[i]).bytes_sent <= t.total_bytes
        && t.nodes[i].bytes_recv <= t.total_bytes
    &&& forall|i: int| 0 <= i < t.edges.len() ==> (#[trigger] t.edges[i]).bytes <= t.total_bytes
        && t.edges[i].packets <= t.total_packets
}

/// Whether one more packet from `src` to `dst` of `bytes` bytes keeps every
/// counter within 64 bits.
pub open spec fn ingest_fits(t: TopologyView, src: IpAddr, dst: IpAddr, bytes: u64) -> bool {
    &&& t.total_packets + 1 <= u64::MAX
    &&& t.total_bytes + bytes <= u64::MAX
    &&& forall|i: int| 0 <= i < t.nodes.len() ==>
        (#[trigger] t.nodes[i]).packet_count + (if t.nodes[i].ip == src { 1nat } else { 0nat })
            + (if t.nodes[i].ip == dst { 1nat } else { 0nat }) <= u64::MAX
}

impl Node {
    /// Records a packet from `src` to `dst` on this host (see [`touch_node`]).
    pub fn touch(&mut self, src: IpAddr, dst: IpAddr, bytes: u64, protocol: &str, ts: u64)
        requires
            old(self)@.ip == src ==> old(self)@.bytes_sent + bytes <= u64::MAX,
            old(self)@.ip == dst ==> old(self)@.bytes_recv + bytes <= u64::MAX,
            old(self)@.packet_count + (if old(self)@.ip == src { 1nat } else { 0nat })
                + (if old(self)@.ip == dst { 1nat } else { 0nat }) <= u64::MAX,
        ensures
            final(self)@ == touch_node(old(self)@, src, dst, bytes, protocol@, ts),
            (old(self)@.ip == src || old(self)@.ip == dst) ==> final(self)@.protocols.contains(protocol@)
                && final(self)@.last_seen == ts,
            forall|x: Seq<char>| #[trigger] final(self)@.protocols.contains(x) <==> (old(self)@.protocols.contains(x)
                || ((old(self)@.ip == src || old(self)@.ip == dst) && x == protocol@)),
    {
        proof {
            lemma_insert_protocol_contains(old(self)@.protocols, protocol@);
        }
        if self.ip == src || self.ip == dst {
            if self.ip == src {
                self.bytes_sent = self.bytes_sent + bytes;
                self.packet_count = self.packet_count + 1;
            }
            if self.ip == dst {
                self.bytes_recv = self.bytes_recv + bytes;
                self.packet_count = self.packet_count + 1;
            }
            self.add_protocol(protocol);
            self.last_seen = ts;
        }
    }
}

impl Edge {
    /// Records one more packet on this flow (see [`bump_edge`]).
    pub fn bump(&mut self, bytes: u64, ts: u64)
        requires
            old(self)@.bytes + bytes <= u64::MAX,
            old(self)@.packets + 1 <= u64::MAX,
        ensures
            final(self)@ == bump_edge(old(self)@, bytes, ts),
    {
        self.bytes = self.bytes + bytes;
        self.packets = self.packets + 1;
        self.active = true;
        self.last_seen = ts;
    }

    /// The key this flow is found by.
    pub fn key(&self) -> (k: EdgeKey)
        ensures
            k == self@.key(),
    {
        EdgeKey { source: self.source, target: self.target, dst_port: self.dst_port }
    }
}

/// Touches every host record for a packet; reports whether the source and
/// the destination already had records.
fn touch_nodes(nodes: &mut Vec<Node>, src: IpAddr, dst: IpAddr, bytes: u64, protocol: &str, ts: u64) -> (found: (bool, bool))
    requires
        forall|i: int| 0 <= i < old(nodes)@.len() ==> {
            let n = #[trigger] old(nodes)@[i]@;
            &&& n.bytes_sent + bytes <= u64::MAX
            &&& n.bytes_recv + bytes <= u64::MAX
            &&& n.packet_count + (if n.ip == src { 1nat } else { 0nat }) + (if n.ip == dst { 1nat } else { 0nat }) <= u64::MAX
        },
    ensures
        final(nodes)@.map_values(|n: Node| n@) == old(nodes)@.map_values(|n: Node| n@).map_values(
            |n: NodeView| touch_node(n, src, dst, bytes, protocol@, ts),
        ),
        found.0 == has_node(old(nodes)@.map_values(|n: Node| n@), src),
        found.1 == has_node(old(nodes)@.map_values(|n: Node| n@), dst),
{
    let ghost before = old(nodes)@.map_values(|n: Node| n@);
    let n = nodes.len();
    let mut found_src = false;
    let mut found_dst = false;
    let mut i: usize = 0;
    while i < n
        invariant
            n == nodes@.len(),
            before.len() == n,
            i <= n,
            forall|j: int| 0 <= j < n ==> {
                let b = #[trigger] before[j];
                &&& b.bytes_sent + bytes <= u64::MAX
                &&& b.bytes_recv + bytes <= u64::MAX
                &&& b.packet_count + (if b.ip == src { 1nat } else { 0nat }) + (if b.ip == dst { 1nat } else { 0nat }) <= u64::MAX
            },
            forall|j: int| 0 <= j < i ==> #[trigger] nodes@[j]@ == touch_node(before[j], src, dst, bytes, protocol@, ts),
            forall|j: int| i <= j < n ==> #[trigger] nodes@[j]@ == before[j],
            found_src == (exists|j: int| 0 <= j < i && #[trigger] before[j].ip == src),
            found_dst == (exists|j: int| 0 <= j < i && #[trigger] before[j].ip == dst),
        decreases n - i,
    {
        let ip = nodes[i].ip;
        proof {
            assert(nodes@[i as int]@ == before[i as int]);
        }
        if ip == src {
            found_src = true;
        }
        if ip == dst {
            found_dst = true;
        }
        let node = &mut nodes[i];
        node.touch(src, dst, bytes, protocol, ts);
        i = i + 1;
    }
    proof {
        assert(nodes@.map_values(|n: Node| n@) =~= before.map_values(
            |n: NodeView| touch_node(n, src, dst, bytes, protocol@, ts),
        ));
    }
    (found_src, found_dst)
}

/// Bumps the flow record with key `k`, if there is one; reports whether
/// there was.
fn touch_edges(edges: &mut Vec<Edge>, k: EdgeKey, bytes: u64, ts: u64) -> (found: bool)
    requires
        forall|i: int| 0 <= i < old(edges)@.len() ==> {
            let e = #[trigger] old(edges)@[i]@;
            e.key() == k ==> (e.bytes + bytes <= u64::MAX && e.packets + 1 <= u64::MAX)
        },
    ensures
        final(edges)@.map_values(|e: Edge| e@) == old(edges)@.map_values(|e: Edge| e@).map_values(
            |e: EdgeView| if e.key() == k { bump_edge(e, bytes, ts) } else { e },
        ),
        found == has_edge(old(edges)@.map_values(|e: Edge| e@), k),
{
    let ghost before = old(edges)@.map_values(|e: Edge| e@);
    let n = edges.len();
    let mut found = false;
    let mut i: usize = 0;
    while i < n
        invariant
            n == edges@.len(),
            before.len() == n,
            i <= n,
            forall|j: int| 0 <= j < n ==> {
                let e = #[trigger] before[j];
                e.key() == k ==> (e.bytes + bytes <= u64::MAX && e.packets + 1 <= u64::MAX)
            },
            forall|j: int| 0 <= j < i ==> #[trigger] edges@[j]@ == (if before[j].key() == k { bump_edge(before[j], bytes, ts) } else { before[j] }),
            forall|j: int| i <= j < n ==> #[trigger] edges@[j]@ == before[j],
            found == (exists|j: int| 0 <= j < i && #[trigger] before[j].key() == k),
        decreases n - i,
    {
        proof {
            assert(edges@[i as int]@ == before[i as int]);
        }
        if edges[i].key() == k {
            found = true;
            let edge = &mut edges[i];
            edge.bump(bytes, ts);
        }
        i = i + 1;
    }
    proof {
        assert(edges@.map_values(|e: Edge| e@) =~= before.map_values(
            |e: EdgeView| if e.key() == k { bump_edge(e, bytes, ts) } else { e },
        ));
    }
    found
}

/// Appends an event and drops stale events from the front of the buffer.
fn push_event(events: &mut VecDeque<PacketEvent>, event: PacketEvent, ts: u64)
    ensures
        final(events)@.map_values(|e: PacketEvent| e@) == prune_front(
            old(events)@.map_values(|e: PacketEvent| e@).push(event@),
            ts,
        ),
{
    let ghost target = prune_front(old(events)@.map_values(|e: PacketEvent| e@).push(event@), ts);
    events.push_back(event);
    proof {
        assert(events@.map_values(|e: PacketEvent| e@) =~= old(events)@.map_values(|e: PacketEvent| e@).push(event@));
    }
    while events.len() > 0 && (ts >= EVENT_BUFFER_MICROS && events[0].timestamp < ts - EVENT_BUFFER_MICROS)
        invariant
            prune_front(events@.map_values(|e: PacketEvent| e@), ts) == target,
        decreases events@.len(),
    {
        let ghost cur = events@.map_values(|e: PacketEvent| e@);
        proof {
            assert(is_stale(cur[0], ts));
        }
        events.pop_front();
        proof {
            assert(events@.map_values(|e: PacketEvent| e@) =~= cur.drop_first());
        }
    }
    proof {
        let cur = events@.map_values(|e: PacketEvent| e@);
        if cur.len() > 0 {
            assert(!is_stale(cur[0], ts));
        }
    }
}

/// Marks inactive the flows last seen more than the timeout before `now`.
fn sweep_edges(edges: &mut Vec<Edge>, now: u64)
    ensures
        final(edges)@.map_values(|e: Edge| e@) == edges_swept(old(edges)@.map_values(|e: Edge| e@), now),
        final(edges)@.len() == old(edges)@.len(),
        forall|i: int| 0 <= i < old(edges)@.len() ==> #[trigger] final(edges)@[i]@ == (EdgeView {
            active: old(edges)@[i]@.active && (now as int) - (old(edges)@[i]@.last_seen as int) <= ACTIVE_TIMEOUT_MICROS as int,
            ..old(edges)@[i]@
        }),
{
    let ghost before = old(edges)@.map_values(|e: Edge| e@);
    let n = edges.len();
    let mut i: usize = 0;
    while i < n
        invariant
            n == edges@.len(),
            before.len() == n,
            i <= n,
            forall|j: int| 0 <= j < i ==> #[trigger] edges@[j]@ == edges_swept(before, now)[j],
            forall|j: int| 0 <= j < i ==> #[trigger] edges@[j]@ == (EdgeView {
                active: before[j].active && (now as int) - (before[j].last_seen as int) <= ACTIVE_TIMEOUT_MICROS as int,
                ..before[j]
            }),
            forall|j: int| i <= j < n ==> #[trigger] edges@[j]@ == before[j],
        decreases n - i,
    {
        proof {
            assert(edges@[i as int]@ == before[i as int]);
        }
        let last = edges[i].last_seen;
        if now > last && now - last > ACTIVE_TIMEOUT_MICROS {
            let edge = &mut edges[i];
            edge.active = false;
        }
        i = i + 1;
    }
    proof {
        assert(edges@.map_values(|e: Edge| e@) =~= edges_swept(before, now));
    }
}

impl Topology {
    /// An empty topology whose capture starts now.
    pub fn new() -> (t: Topology)
        ensures
            topology_wf(t@),
            t@.nodes.len() == 0,
            t@.edges.len() == 0,
            t@.events.len() == 0,
            t@.total_packets == 0,
            t@.total_bytes == 0,
    {
        let start = now_micros();
        Topology {
            nodes: Vec::new(),
            edges: Vec::new(),
            events: VecDeque::new(),
            total_packets: 0,
            total_bytes: 0,
            start_time: start,
        }
    }

    /// Decides [`ingest_fits`].
    pub fn can_ingest(&self, src: IpAddr, dst: IpAddr, bytes: u64) -> (r: bool)
        ensures
            r == ingest_fits(self@, src, dst, bytes),
    {
        if self.total_packets == u64::MAX || bytes > u64::MAX - self.total_bytes {
            return false;
        }
        let n = self.nodes.len();
        let mut i: usize = 0;
        while i < n
            invariant
                n == self.nodes@.len(),
                i <= n,
                forall|j: int| 0 <= j < i ==>
                    (#[trigger] self@.nodes[j]).packet_count + (if self@.nodes[j].ip == src { 1nat } else { 0nat })
                        + (if self@.nodes[j].ip == dst { 1nat } else { 0nat }) <= u64::MAX,
            decreases n - i,
        {
            let need: u64 = (if self.nodes[i].ip == src { 1 } else { 0 }) + (if self.nodes[i].ip == dst { 1 } else { 0 });
            if self.nodes[i].packet_count > u64::MAX - need {
                proof {
                    assert(self@.nodes[i as int] == self.nodes@[i as int]@);
                }
                return false;
            }
            i = i + 1;
        }
        true
    }

    /// Records one packet from `src_ip` to `dst_ip` of `bytes` bytes, seen at
    /// `ts` (microseconds since the Unix epoch): host and flow records,
    /// totals, and the event buffer (see [`after_ingest`]).
    pub fn ingest_at(
        &mut self,
        src_ip: IpAddr,
        dst_ip: IpAddr,
        src_port: Option<u16>,
        dst_port: Option<u16>,
        protocol: &str,
        bytes: u64,
        ts: u64,
    )
        requires
            topology_wf(old(self)@),
            ingest_fits(old(self)@, src_ip, dst_ip, bytes),
        ensures
            topology_wf(final(self)@),
            final(self)@ == after_ingest(old(self)@, src_ip, dst_ip, dst_port, protocol@, bytes, ts),
    {
        let ghost t = self@;
        proof {
            assert forall|i: int| 0 <= i < self.nodes@.len() implies {
                let n = #[trigger] self.nodes@[i]@;
                &&& n.bytes_sent + bytes <= u64::MAX
                &&& n.bytes_recv + bytes <= u64::MAX
                &&& n.packet_count + (if n.ip == src_ip { 1nat } else { 0nat }) + (if n.ip == dst_ip { 1nat } else { 0nat }) <= u64::MAX
            } by {
                assert(t.nodes[i] == self.nodes@[i]@);
            }
            assert forall|i: int| 0 <= i < self.edges@.len() implies {
                let e = #[trigger] self.edges@[i]@;
                e.bytes + bytes <= u64::MAX && e.packets + 1 <= u64::MAX
            } by {
                assert(t.edges[i] == self.edges@[i]@);
            }
        }
        self.total_packets = self.total_packets + 1;
        self.total_bytes = self.total_bytes + bytes;
        let (found_src, found_dst) = touch_nodes(&mut self.nodes, src_ip, dst_ip, bytes, protocol, ts);
        if !found_src {
            let mut node = Node::new(src_ip);
            node.touch(src_ip, dst_ip, bytes, protocol, ts);
            self.nodes.push(node);
        }
        if !found_dst && dst_ip != src_ip {
            let mut node = Node::new(dst_ip);
            node.touch(src_ip, dst_ip, bytes, protocol, ts);
            self.nodes.push(node);
        }
        let dp = match dst_port {
            Some(p) => p,
            None => 0,
        };
        let key = EdgeKey { source: src_ip, target: dst_ip, dst_port: dp };
        let found_edge = touch_edges(&mut self.edges, key, bytes, ts);
        if !found_edge {
            let mut edge = Edge::new(src_ip, dst_ip, dp, protocol);
            edge.bump(bytes, ts);
            self.edges.push(edge);
        }
        let event = PacketEvent {
            timestamp: ts,
            source: src_ip,
            target: dst_ip,
            bytes,
            protocol: protocol.to_owned(),
        };
        push_event(&mut self.events, event, ts);
        proof {
            lemma_ingest_keeps_wf(t, src_ip, dst_ip, dst_port, protocol@, bytes, ts);
            assert(self@.nodes =~= nodes_after(t.nodes, src_ip, dst_ip, bytes, protocol@, ts));
            assert(self@.edges =~= edges_after(t.edges, key, protocol@, bytes, ts));
        }
    }

    /// Records one packet, as [`Topology::ingest_at`] does, at `timestamp`
    /// or, when it has none, at the current time.
    pub fn ingest(
        &mut self,
        src_ip: IpAddr,
        dst_ip: IpAddr,
        src_port: Option<u16>,
        dst_port: Option<u16>,
        protocol: &str,
        bytes: u64,
        timestamp: Option<u64>,
    )
        requires
            topology_wf(old(self)@),
            ingest_fits(old(self)@, src_ip, dst_ip, bytes),
        ensures
            topology_wf(final(self)@),
            match timestamp {
                Some(t) => final(self)@ == after_ingest(old(self)@, src_ip, dst_ip, dst_port, protocol@, bytes, t),
                None => exists|t: u64| final(self)@ == after_ingest(old(self)@, src_ip, dst_ip, dst_port, protocol@, bytes, t),
            },
    {
        let ts = match timestamp {
            Some(t) => t,
            None => now_micros(),
        };
        self.ingest_at(src_ip, dst_ip, src_port, dst_port, protocol, bytes, ts);
    }

    /// Marks inactive every flow last seen more than the timeout before
    /// `now` (see [`edges_swept`]).
    pub fn mark_inactive_at(&mut self, now: u64)
        requires
            topology_wf(old(self)@),
        ensures
            topology_wf(final(self)@),
            final(self)@ == (TopologyView { edges: edges_swept(old(self)@.edges, now), ..old(self)@ }),
            final(self)@.edges.len() == old(self)@.edges.len(),
            forall|i: int| 0 <= i < old(self)@.edges.len() ==> #[trigger] final(self)@.edges[i] == (EdgeView {
                active: old(self)@.edges[i].active && (now as int) - (old(self)@.edges[i].last_seen as int)
                    <= ACTIVE_TIMEOUT_MICROS as int,
                ..old(self)@.edges[i]
            }),
    {
        let ghost t = self@;
        sweep_edges(&mut self.edges, now);
        proof {
            lemma_sweep_conserves(t, now);
            lemma_sweep_judges_each_flow(t.edges, now);
        }
    }

    /// Marks inactive the flows idle for longer than the timeout, as of now.
    pub fn mark_inactive(&mut self)
        requires
            topology_wf(old(self)@),
        ensures
            topology_wf(final(self)@),
            exists|now: u64| final(self)@ == (TopologyView { edges: #[trigger] edges_swept(old(self)@.edges, now), ..old(self)@ }),
    {
        let now = now_micros();
        self.mark_inactive_at(now);
    }

    /// Copies of all host and flow records.
    pub fn topology_response(&self) -> (r: TopologyResponse)
        ensures
            r.nodes@.map_values(|n: Node| n@) == self@.nodes,
            r.edges@.map_values(|e: Edge| e@) == self@.edges,
    {
        let mut nodes: Vec<Node> = Vec::new();
        let mut i: usize = 0;
        while i < self.nodes.len()
            invariant
                i <= self.nodes@.len(),
                nodes@.len() == i,
                forall|j: int| 0 <= j < i ==> #[trigger] nodes@[j]@ == self.nodes@[j]@,
            decreases self.nodes@.len() - i,
        {
            nodes.push(self.nodes[i].duplicate());
            i = i + 1;
        }
        let mut edges: Vec<Edge> = Vec::new();
        let mut k: usize = 0;
        while k < self.edges.len()
            invariant
                k <= self.edges@.len(),
                edges@.len() == k,
                forall|j: int| 0 <= j < k ==> #[trigger] edges@[j]@ == self.edges@[j]@,
            decreases self.edges@.len() - k,
        {
            edges.push(self.edges[k].duplicate());
            k = k + 1;
        }
        proof {
            assert(nodes@.map_values(|n: Node| n@) =~= self@.nodes);
            assert(edges@.map_values(|e: Edge| e@) =~= self@.edges);
        }
        TopologyResponse { nodes, edges }
    }

    /// The buffered events newer than `since` (microseconds since the Unix
    /// epoch), in buffer order.
    pub fn events_since(&self, since: i64) -> (r: Vec<PacketEvent>)
        ensures
            r@.map_values(|e: PacketEvent| e@) == self@.events.filter(newer_than(since as int)),
    {
        let ghost evs = self@.events;
        let ghost pred = newer_than(since as int);
        let mut r: Vec<PacketEvent> = Vec::new();
        let n = self.events.len();
        let mut i: usize = 0;
        proof {
            reveal_with_fuel(Seq::filter, 1);
            assert(evs.take(0) =~= Seq::<PacketEventView>::empty());
            assert(r@.map_values(|e: PacketEvent| e@) =~= evs.take(0).filter(pred));
        }
        while i < n
            invariant
                n == self.events@.len(),
                evs == self@.events,
                pred == newer_than(since as int),
                i <= n,
                r@.map_values(|e: PacketEvent| e@) == evs.take(i as int).filter(pred),
            decreases n - i,
        {
            proof {
                reveal_with_fuel(Seq::filter, 1);
                assert(evs.take(i + 1).drop_last() =~= evs.take(i as int));
                assert(evs.take(i + 1).last() == evs[i as int]);
                assert(evs[i as int] == self.events@[i as int]@);
            }
            let e = &self.events[i];
            if (e.timestamp as i128) > (since as i128) {
                let ghost before = r@.map_values(|e: PacketEvent| e@);
                r.push(e.duplicate());
                proof {
                    assert(r@.map_values(|e: PacketEvent| e@) =~= before.push(evs[i as int]));
                }
            }
            i = i + 1;
        }
        proof {
            assert(evs.take(n as int) =~= evs);
        }
        r
    }

    /// The totals, host and flow counts, and the time since the capture
    /// started, as of `now` (microseconds since the Unix epoch).
    pub fn stats_at(&self, now: u64) -> (s: Stats)
        ensures
            s.total_packets == self@.total_packets,
            s.total_bytes == self@.total_bytes,
            s.host_count == self@.nodes.len(),
            s.edge_count == self@.edges.len(),
            s.capture_duration == elapsed(now, self@.start_time),
    {
        Stats {
            total_packets: self.total_packets,
            total_bytes: self.total_bytes,
            host_count: self.nodes.len(),
            edge_count: self.edges.len(),
            capture_duration: (now as i128) - (self.start_time as i128),
        }
    }

    /// The statistics as of now.
    pub fn stats(&self) -> (s: Stats)
        ensures
            s.total_packets == self@.total_packets,
            s.total_bytes == self@.total_bytes,
            s.host_count == self@.nodes.len(),
            s.edge_count == self@.edges.len(),
            exists|now: u64| s.capture_duration == #[trigger] elapsed(now, self@.start_time),
    {
        let now = now_micros();
        self.stats_at(now)
    }

    /// The record of host `ip`, if it has carried traffic.
    pub fn node(&self, ip: IpAddr) -> (r: Option<&Node>)
        requires
            topology_wf(self@),
        ensures
            match r {
                Some(n) => n@.ip == ip && exists|i: int| 0 <= i < self@.nodes.len() && self@.nodes[i] == n@,
                None => !has_node(self@.nodes, ip),
            },
    {
        let mut i: usize = 0;
        while i < self.nodes.len()
            invariant
                i <= self.nodes@.len(),
                forall|j: int| 0 <= j < i ==> #[trigger] self@.nodes[j].ip != ip,
            decreases self.nodes@.len() - i,
        {
            proof {
                assert(self@.nodes[i as int] == self.nodes@[i as int]@);
            }
            if self.nodes[i].ip == ip {
                return Some(&self.nodes[i]);
            }
            i = i + 1;
        }
        None
    }

    /// The record of the flow with key `k`, if it has carried traffic.
    pub fn edge(&self, k: EdgeKey) -> (r: Option<&Edge>)
        requires
            topology_wf(self@),
        ensures
            match r {
                Some(e) => e@.key() == k && exists|i: int| 0 <= i < self@.edges.len() && self@.edges[i] == e@,
                None => !has_edge(self@.edges, k),
            },
    {
        let mut i: usize = 0;
        while i < self.edges.len()
            invariant
                i <= self.edges@.len(),
                forall|j: int| 0 <= j < i ==> #[trigger] self@.edges[j].key() != k,
            decreases self.edges@.len() - i,
        {
            proof {
                assert(self@.edges[i as int] == self.edges@[i as int]@);
            }
            if self.edges[i].key() == k {
                return Some(&self.edges[i]);
            }
            i = i + 1;
        }
        None
    }
}

/// The time from `start` to `now`, negative if `now` is earlier.
pub open spec fn elapsed(now: u64, start: u64) -> int {
    now as int - start as int
}

/// Events strictly newer than `since`.
pub open spec fn newer_than(since: int) -> spec_fn(PacketEventView) -> bool {
    |e: PacketEventView| e.timestamp as int > since
}

/// Bytes sent, summed over hosts.
pub open spec fn sum_sent(ns: Seq<NodeView>) -> nat
    decreases ns.len(),
{
    if ns.len() == 0 { 0 } else { sum_sent(ns.drop_last()) + ns.last().bytes_sent }
}

/// Bytes received, summed over hosts.
pub open spec fn sum_recv(ns: Seq<NodeView>) -> nat
    decreases ns.len(),
{
    if ns.len() == 0 { 0 } else { sum_recv(ns.drop_last()) + ns.last().bytes_recv }
}

/// Packet counts, summed over hosts.
pub open spec fn sum_node_packets(ns: Seq<NodeView>) -> nat
    decreases ns.len(),
{
    if ns.len() == 0 { 0 } else { sum_node_packets(ns.drop_last()) + ns.last().packet_count }
}

/// Bytes, summed over flows.
pub open spec fn sum_edge_bytes(es: Seq<EdgeView>) -> nat
    decreases es.len(),
{
    if es.len() == 0 { 0 } else { sum_edge_bytes(es.drop_last()) + es.last().bytes }
}

/// Packets, summed over flows.
pub open spec fn sum_edge_packets(es: Seq<EdgeView>) -> nat
    decreases es.len(),
{
    if es.len() == 0 { 0 } else { sum_edge_packets(es.drop_last()) + es.last().packets }
}

/// The totals are conserved across the records: every packet and byte is
/// counted once over the flows, once over the hosts as sent and once as
/// received (so the host packet counts add up to twice the packets), and
/// every flow joins two hosts that have records.
pub open spec fn conserved(t: TopologyView) -> bool {
    &&& sum_edge_packets(t.edges) == t.total_packets
    &&& sum_edge_bytes(t.edges) == t.total_bytes
    &&& sum_sent(t.nodes) == t.total_bytes
    &&& sum_recv(t.nodes) == t.total_bytes
    &&& sum_node_packets(t.nodes) == 2 * t.total_packets
    &&& forall|i: int| 0 <= i < t.edges.len() ==> has_node(t.nodes, (#[trigger] t.edges[i]).source)
        && has_node(t.nodes, t.edges[i].target)
}

/// No two host records share an address.
pub open spec fn distinct_ips(ns: Seq<NodeView>) -> bool {
    forall|i: int, j: int| 0 <= i < j < ns.len() ==> ns[i].ip != ns[j].ip
}

/// No two flow records share a key.
pub open spec fn distinct_edge_keys(es: Seq<EdgeView>) -> bool {
    forall|i: int, j: int| 0 <= i < j < es.len() ==> es[i].key() != es[j].key()
}

proof fn lemma_touch_sums(ns: Seq<NodeView>, src: IpAddr, dst: IpAddr, bytes: u64, protocol: Seq<char>, ts: u64)
    requires
        distinct_ips(ns),
    ensures
        ({
            let m = ns.map_values(|n: NodeView| touch_node(n, src, dst, bytes, protocol, ts));
            &&& sum_sent(m) == sum_sent(ns) + (if has_node(ns, src) { bytes as nat } else { 0nat })
            &&& sum_recv(m) == sum_recv(ns) + (if has_node(ns, dst) { bytes as nat } else { 0nat })
            &&& sum_node_packets(m) == sum_node_packets(ns) + (if has_node(ns, src) { 1nat } else { 0nat })
                + (if has_node(ns, dst) { 1nat } else { 0nat })
        }),
    decreases ns.len(),
{
    if ns.len() > 0 {
        let d = ns.drop_last();
        let m = ns.map_values(|n: NodeView| touch_node(n, src, dst, bytes, protocol, ts));
        assert(m.drop_last() =~= d.map_values(|n: NodeView| touch_node(n, src, dst, bytes, protocol, ts)));
        lemma_touch_sums(d, src, dst, bytes, protocol, ts);
        let l = ns.last();
        assert(ns[ns.len() - 1] == l);
        if has_node(ns, src) && l.ip != src {
            let i = choose|i: int| 0 <= i < ns.len() && #[trigger] ns[i].ip == src;
            assert(d[i].ip == src);
        }
        if has_node(d, src) {
            let i = choose|i: int| 0 <= i < d.len() && #[trigger] d[i].ip == src;
            assert(ns[i].ip == src);
            assert(l.ip != src);
        }
        if has_node(ns, dst) && l.ip != dst {
            let i = choose|i: int| 0 <= i < ns.len() && #[trigger] ns[i].ip == dst;
            assert(d[i].ip == dst);
        }
        if has_node(d, dst) {
            let i = choose|i: int| 0 <= i < d.len() && #[trigger] d[i].ip == dst;
            assert(ns[i].ip == dst);
            assert(l.ip != dst);
        }
    }
}

proof fn lemma_bump_sums(es: Seq<EdgeView>, k: EdgeKey, bytes: u64, ts: u64)
    requires
        distinct_edge_keys(es),
    ensures
        ({
            let m = es.map_values(|e: EdgeView| if e.key() == k { bump_edge(e, bytes, ts) } else { e });
            &&& sum_edge_bytes(m) == sum_edge_bytes(es) + (if has_edge(es, k) { bytes as nat } else { 0nat })
            &&& sum_edge_packets(m) == sum_edge_packets(es) + (if has_edge(es, k) { 1nat } else { 0nat })
        }),
    decreases es.len(),
{
    if es.len() > 0 {
        let d = es.drop_last();
        let m = es.map_values(|e: EdgeView| if e.key() == k { bump_edge(e, bytes, ts) } else { e });
        assert(m.drop_last() =~= d.map_values(|e: EdgeView| if e.key() == k { bump_edge(e, bytes, ts) } else { e }));
        lemma_bump_sums(d, k, bytes, ts);
        let l = es.last();
        assert(es[es.len() - 1] == l);
        if has_edge(es, k) && l.key() != k {
            let i = choose|i: int| 0 <= i < es.len() && #[trigger] es[i].key() == k;
            assert(d[i].key() == k);
        }
        if has_edge(d, k) {
            let i = choose|i: int| 0 <= i < d.len() && #[trigger] d[i].key() == k;
            assert(es[i].key() == k);
            assert(l.key() != k);
        }
    }
}

proof fn lemma_sweep_sums(es: Seq<EdgeView>, now: u64)
    ensures
        sum_edge_bytes(edges_swept(es, now)) == sum_edge_bytes(es),
        sum_edge_packets(edges_swept(es, now)) == sum_edge_packets(es),
    decreases es.len(),
{
    if es.len() > 0 {
        assert(edges_swept(es, now).drop_last() =~= edges_swept(es.drop_last(), now));
        lemma_sweep_sums(es.drop_last(), now);
    }
}

/// Ingesting a packet keeps the totals conserved across the host and flow
/// records (see [`conserved`]): the packet is counted once more over the
/// flows, once as sent, once as received, and twice over host packet
/// counts, and its flow joins two hosts that have records.
pub proof fn lemma_ingest_conserves(
    t: TopologyView,
    src: IpAddr,
    dst: IpAddr,
    dst_port: Option<u16>,
    protocol: Seq<char>,
    bytes: u64,
    ts: u64,
)
    requires
        distinct_ips(t.nodes),
        distinct_edge_keys(t.edges),
        conserved(t),
    ensures
        conserved(after_ingest(t, src, dst, dst_port, protocol, bytes, ts)),
{
    let a = after_ingest(t, src, dst, dst_port, protocol, bytes, ts);
    let ns = t.nodes;
    let touched = ns.map_values(|n: NodeView| touch_node(n, src, dst, bytes, protocol, ts));
    lemma_touch_sums(ns, src, dst, bytes, protocol, ts);
    let with_src = if has_node(ns, src) {
        touched
    } else {
        touched.push(touch_node(fresh_node(src), src, dst, bytes, protocol, ts))
    };
    let fs = touch_node(fresh_node(src), src, dst, bytes, protocol, ts);
    let fd = touch_node(fresh_node(dst), src, dst, bytes, protocol, ts);
    if !has_node(ns, src) {
        assert(with_src.drop_last() =~= touched);
        assert(sum_sent(with_src) == sum_sent(touched) + fs.bytes_sent);
        assert(sum_recv(with_src) == sum_recv(touched) + fs.bytes_recv);
        assert(fs.bytes_sent == bytes);
        assert(sum_node_packets(with_src) == sum_node_packets(touched) + fs.packet_count);
        assert(fs.packet_count == 1 + (if dst == src { 1nat } else { 0nat }));
    }
    if !(has_node(ns, dst) || dst == src) {
        assert(a.nodes.drop_last() =~= with_src);
        assert(sum_sent(a.nodes) == sum_sent(with_src) + fd.bytes_sent);
        assert(sum_recv(a.nodes) == sum_recv(with_src) + fd.bytes_recv);
        assert(fd.bytes_sent == 0);
        assert(fd.bytes_recv == bytes);
        assert(sum_node_packets(a.nodes) == sum_node_packets(with_src) + fd.packet_count);
        assert(fd.packet_count == 1);
    } else {
        assert(a.nodes == with_src);
    }
    let k = edge_key_of(src, dst, dst_port);
    let es = t.edges;
    let bumped = es.map_values(|e: EdgeView| if e.key() == k { bump_edge(e, bytes, ts) } else { e });
    lemma_bump_sums(es, k, bytes, ts);
    if !has_edge(es, k) {
        assert(a.edges.drop_last() =~= bumped);
    }
    // Every host keeps its record, and both ends of the packet have one.
    assert forall|ip: IpAddr| has_node(ns, ip) implies has_node(a.nodes, ip) by {
        let i = choose|i: int| 0 <= i < ns.len() && #[trigger] ns[i].ip == ip;
        assert(a.nodes[i].ip == ip);
    }
    assert(has_node(a.nodes, src)) by {
        if !has_node(ns, src) {
            assert(a.nodes[ns.len() as int].ip == src);
        }
    }
    assert(has_node(a.nodes, dst)) by {
        if !has_node(ns, dst) && dst != src {
            assert(a.nodes[a.nodes.len() - 1].ip == dst);
        }
    }
    assert forall|i: int| 0 <= i < a.edges.len() implies has_node(a.nodes, (#[trigger] a.edges[i]).source)
        && has_node(a.nodes, a.edges[i].target) by {
        if i < es.len() {
            assert(a.edges[i].source == es[i].source);
            assert(a.edges[i].target == es[i].target);
        }
    }
    assert(sum_edge_packets(a.edges) == a.total_packets);
    assert(sum_edge_bytes(a.edges) == a.total_bytes);
    assert(sum_sent(a.nodes) == a.total_bytes);
    assert(sum_recv(a.nodes) == a.total_bytes);
    assert(sum_node_packets(a.nodes) == 2 * a.total_packets);
}

/// The sweep judges each flow on its own: a flow whose last packet is more
/// than the timeout before `now` ends up inactive, and every other flow
/// keeps its active flag, whatever the other flows are; nothing else about
/// a flow changes, and no flow is added or dropped.
pub proof fn lemma_sweep_judges_each_flow(es: Seq<EdgeView>, now: u64)
    ensures
        edges_swept(es, now).len() == es.len(),
        forall|i: int| 0 <= i < es.len() ==> #[trigger] edges_swept(es, now)[i] == (EdgeView {
            active: es[i].active && (now as int) - (es[i].last_seen as int) <= ACTIVE_TIMEOUT_MICROS as int,
            ..es[i]
        }),
        forall|i: int| 0 <= i < es.len() && (now as int) - (es[i].last_seen as int) > ACTIVE_TIMEOUT_MICROS as int
            ==> !(#[trigger] edges_swept(es, now)[i]).active,
        forall|i: int| 0 <= i < es.len() && (now as int) - (es[i].last_seen as int) <= ACTIVE_TIMEOUT_MICROS as int
            ==> (#[trigger] edges_swept(es, now)[i]).active == es[i].active,
{
}

/// The inactivity sweep changes no counter, so it keeps the totals
/// conserved.
pub proof fn lemma_sweep_conserves(t: TopologyView, now: u64)
    requires
        conserved(t),
    ensures
        conserved(TopologyView { edges: edges_swept(t.edges, now), ..t }),
{
    lemma_sweep_sums(t.edges, now);
    let s = edges_swept(t.edges, now);
    assert forall|i: int| 0 <= i < s.len() implies has_node(t.nodes, (#[trigger] s[i]).source)
        && has_node(t.nodes, s[i].target) by {
        assert(s[i].source == t.edges[i].source);
        assert(s[i].target == t.edges[i].target);
    }
}

/// Listing a protocol adds exactly that protocol to the list's contents.
pub proof fn lemma_insert_protocol_contains(ps: Seq<Seq<char>>, p: Seq<char>)
    ensures
        insert_protocol(ps, p).contains(p),
        forall|x: Seq<char>| #[trigger] insert_protocol(ps, p).contains(x) <==> (ps.contains(x) || x == p),
{
    if !ps.contains(p) {
        let q = ps.push(p);
        assert(q[ps.len() as int] == p);
        assert forall|x: Seq<char>| #[trigger] q.contains(x) <==> (ps.contains(x) || x == p) by {
            if q.contains(x) {
                let i = choose|i: int| 0 <= i < q.len() && q[i] == x;
                if i < ps.len() {
                    assert(ps[i] == x);
                }
            }
            if ps.contains(x) {
                let i = choose|i: int| 0 <= i < ps.len() && ps[i] == x;
                assert(q[i] == x);
            }
        }
    }
}

/// A packet tags both of its hosts: after a packet of protocol `protocol`
/// from `src` to `dst`, both hosts have a record, and the record of each
/// (the destination's as well as the source's) lists the protocol and is
/// last seen at the packet's time.
pub proof fn lemma_ingest_tags_both_ends(
    t: TopologyView,
    src: IpAddr,
    dst: IpAddr,
    dst_port: Option<u16>,
    protocol: Seq<char>,
    bytes: u64,
    ts: u64,
)
    ensures
        ({
            let ns = after_ingest(t, src, dst, dst_port, protocol, bytes, ts).nodes;
            &&& has_node(ns, src)
            &&& has_node(ns, dst)
            &&& forall|i: int| 0 <= i < ns.len() && (#[trigger] ns[i].ip == src || ns[i].ip == dst) ==> ns[i].protocols.contains(protocol)
                && ns[i].last_seen == ts
        }),
{
    let ns = after_ingest(t, src, dst, dst_port, protocol, bytes, ts).nodes;
    let touched = t.nodes.map_values(|n: NodeView| touch_node(n, src, dst, bytes, protocol, ts));
    assert(ns == nodes_after(t.nodes, src, dst, bytes, protocol, ts));
    assert forall|i: int| 0 <= i < ns.len() implies (#[trigger] ns[i]) == touch_node(
        if i < t.nodes.len() { t.nodes[i] } else { fresh_node(ns[i].ip) }, src, dst, bytes, protocol, ts)
        && (i < t.nodes.len() ==> ns[i].ip == t.nodes[i].ip) by {
        if i < t.nodes.len() {
            assert(ns[i] == touched[i]);
        }
    }
    assert forall|i: int| 0 <= i < ns.len() && (#[trigger] ns[i].ip == src || ns[i].ip == dst) implies ns[i].protocols.contains(protocol)
        && ns[i].last_seen == ts by {
        let base = if i < t.nodes.len() { t.nodes[i] } else { fresh_node(ns[i].ip) };
        lemma_insert_protocol_contains(base.protocols, protocol);
        if i >= t.nodes.len() {
            assert(fresh_node(ns[i].ip).ip == ns[i].ip);
        }
        assert(base.ip == ns[i].ip);
    }
    if has_node(t.nodes, src) {
        let j = choose|j: int| 0 <= j < t.nodes.len() && #[trigger] t.nodes[j].ip == src;
        assert(ns[j].ip == src);
    } else {
        let k = t.nodes.len() as int;
        assert(ns[k] == touch_node(fresh_node(src), src, dst, bytes, protocol, ts));
        assert(ns[k].ip == src);
    }
    if has_node(t.nodes, dst) {
        let j = choose|j: int| 0 <= j < t.nodes.len() && #[trigger] t.nodes[j].ip == dst;
        assert(ns[j].ip == dst);
    } else if dst != src {
        let k = ns.len() - 1;
        assert(ns[k] == touch_node(fresh_node(dst), src, dst, bytes, protocol, ts));
        assert(ns[k].ip == dst);
    }
}

proof fn lemma_insert_protocol_no_duplicates(ps: Seq<Seq<char>>, p: Seq<char>)
    requires
        ps.no_duplicates(),
    ensures
        insert_protocol(ps, p).no_duplicates(),
{
    if !ps.contains(p) {
        let q = ps.push(p);
        assert forall|i: int, j: int| 0 <= i < q.len() && 0 <= j < q.len() && i != j implies q[i] != q[j] by {
            if i == ps.len() as int {
                assert(ps[j] == q[j]);
            } else if j == ps.len() as int {
                assert(ps[i] == q[i]);
            }
        }
    }
}

/// Ingesting a packet keeps the topology's invariant.
pub proof fn lemma_ingest_keeps_wf(
    t: TopologyView,
    src: IpAddr,
    dst: IpAddr,
    dst_port: Option<u16>,
    protocol: Seq<char>,
    bytes: u64,
    ts: u64,
)
    requires
        topology_wf(t),
        ingest_fits(t, src, dst, bytes),
    ensures
        topology_wf(after_ingest(t, src, dst, dst_port, protocol, bytes, ts)),
{
    let a = after_ingest(t, src, dst, dst_port, protocol, bytes, ts);
    lemma_ingest_conserves(t, src, dst, dst_port, protocol, bytes, ts);
    let ns = t.nodes;
    assert(distinct_ips(a.nodes)) by {
        assert forall|i: int, j: int| 0 <= i < j < a.nodes.len() implies a.nodes[i].ip != a.nodes[j].ip by {
            if j < ns.len() {
                assert(a.nodes[i].ip == ns[i].ip);
                assert(a.nodes[j].ip == ns[j].ip);
            } else if i < ns.len() {
                assert(a.nodes[i].ip == ns[i].ip);
            }
        }
    }
    let es = t.edges;
    let k = edge_key_of(src, dst, dst_port);
    assert(distinct_edge_keys(a.edges)) by {
        assert forall|i: int, j: int| 0 <= i < j < a.edges.len() implies a.edges[i].key() != a.edges[j].key() by {
            if j < es.len() {
                assert(a.edges[i].key() == es[i].key());
                assert(a.edges[j].key() == es[j].key());
            } else if i < es.len() {
                assert(a.edges[i].key() == es[i].key());
            }
        }
    }
    assert forall|i: int| 0 <= i < a.nodes.len() implies (#[trigger] a.nodes[i]).protocols.no_duplicates() && a.nodes[i].bytes_sent <= a.total_bytes
        && a.nodes[i].bytes_recv <= a.total_bytes by {
        if i < ns.len() {
            lemma_insert_protocol_no_duplicates(ns[i].protocols, protocol);
        } else {
            lemma_insert_protocol_no_duplicates(Seq::empty(), protocol);
        }
    }
    assert forall|i: int| 0 <= i < a.edges.len() implies (#[trigger] a.edges[i]).bytes <= a.total_bytes
        && a.edges[i].packets <= a.total_packets by {
        if i < es.len() {
            assert(es[i].bytes <= t.total_bytes);
        }
    }
}

/// Pruning drops a prefix: what is left is a suffix of the buffer.
pub proof fn lemma_prune_front_suffix(s: Seq<PacketEventView>, ts: u64)
    ensures
        exists|k: int| 0 <= k <= s.len() && prune_front(s, ts) == s.skip(k),
        prune_front(s, ts).len() > 0 ==> !is_stale(prune_front(s, ts)[0], ts),
        s.len() > 0 && !is_stale(s.last(), ts) ==> prune_front(s, ts).len() > 0 && prune_front(s, ts).last()
            == s.last(),
    decreases s.len(),
{
    if s.len() > 0 && is_stale(s[0], ts) {
        let d = s.drop_first();
        lemma_prune_front_suffix(d, ts);
        let k = choose|k: int| 0 <= k <= d.len() && prune_front(d, ts) == d.skip(k);
        assert(d.skip(k) =~= s.skip(k + 1));
        if s.len() > 0 && !is_stale(s.last(), ts) {
            assert(d.len() > 0);
            assert(d.last() == s.last());
        }
    } else {
        assert(s.skip(0) =~= s);
    }
}

/// After a packet is ingested, its event is the newest in the buffer, the
/// older events kept are the newest of those before, and the oldest event
/// kept is within the buffer window of the packet's time.
pub proof fn lemma_ingest_event_buffer(
    t: TopologyView,
    src: IpAddr,
    dst: IpAddr,
    dst_port: Option<u16>,
    protocol: Seq<char>,
    bytes: u64,
    ts: u64,
)
    ensures
        ({
            let a = after_ingest(t, src, dst, dst_port, protocol, bytes, ts);
            let event = PacketEventView { timestamp: ts, source: src, target: dst, bytes, protocol };
            &&& a.events.len() > 0
            &&& a.events.last() == event
            &&& !is_stale(a.events[0], ts)
            &&& exists|k: int| 0 <= k <= t.events.len() + 1 && a.events == t.events.push(event).skip(k)
        }),
{
    let event = PacketEventView { timestamp: ts, source: src, target: dst, bytes, protocol };
    let s = t.events.push(event);
    assert(s.last() == event);
    lemma_prune_front_suffix(s, ts);
}

} // verus!
