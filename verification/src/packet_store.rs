//! A bounded store of captured packets. Packets are kept in arrival order;
//! when the packet count or the byte total exceeds its limit, the oldest
//! packets are evicted first. The store answers filtered, paginated
//! queries and per-host-pair conversation summaries.

use vstd::prelude::*;
use vstd::slice::slice_to_vec;
use crate::models::{IpAddr, Transport, protocol_name, classify_protocol};
use crate::text::{eq_ignore_ascii_case, str_eq_ignore_ascii_case};

verus! {

/// Default packet-count limit of a store.
pub const DEFAULT_MAX_PACKETS: usize = 1_000_000;

/// Default byte limit of a store (500 MiB).
pub const DEFAULT_MAX_BYTES: u64 = 500 * 1024 * 1024;

/// The link-layer header type of the captured frames, as its pcap number
/// (1 is Ethernet).
#[derive(Clone, Copy, Debug, PartialEq, Eq, Structural)]
pub struct LinkType {
    pub dlt: u32,
}

impl LinkType {
    /// Ethernet framing (pcap link type 1).
    pub fn ethernet() -> (l: LinkType)
        ensures
            l.dlt == 1,
    {
        LinkType { dlt: 1 }
    }
}

/// The header fields a packet parser reports for one frame.
#[derive(Clone, Copy, Debug)]
pub struct ParsedPacket {
    pub src_ip: Option<IpAddr>,
    pub dst_ip: Option<IpAddr>,
    pub src_port: Option<u16>,
    pub dst_port: Option<u16>,
    pub transport: Transport,
}

/// A stored packet, as a mathematical value.
pub struct StoredPacketView {
    pub raw: Seq<u8>,
    pub timestamp: u64,
    pub src_ip: Option<IpAddr>,
    pub dst_ip: Option<IpAddr>,
    pub src_port: Option<u16>,
    pub dst_port: Option<u16>,
    pub protocol: Seq<char>,
}

/// A captured frame with the header fields extracted from it.
/// `timestamp` is in microseconds since the Unix epoch.
pub struct StoredPacket {
    pub raw: Vec<u8>,
    pub timestamp: u64,
    pub src_ip: Option<IpAddr>,
    pub dst_ip: Option<IpAddr>,
    pub src_port: Option<u16>,
    pub dst_port: Option<u16>,
    pub protocol: String,
}

impl View for StoredPacket {
    type V = StoredPacketView;

    open spec fn view(&self) -> StoredPacketView {
        StoredPacketView {
            raw: self.raw@,
            timestamp: self.timestamp,
            src_ip: self.src_ip,
            dst_ip: self.dst_ip,
            src_port: self.src_port,
            dst_port: self.dst_port,
            protocol: self.protocol@,
        }
    }
}

/// The stored form of a frame: the parsed header fields and the protocol
/// classified from them, or no addresses and protocol `OTHER` when the
/// frame could not be parsed.
pub open spec fn stored_packet_spec(raw: Seq<u8>, timestamp: u64, parsed: Option<ParsedPacket>) -> StoredPacketView {
    match parsed {
        Some(p) => StoredPacketView {
            raw,
            timestamp,
            src_ip: p.src_ip,
            dst_ip: p.dst_ip,
            src_port: p.src_port,
            dst_port: p.dst_port,
            protocol: protocol_name(p.transport, p.src_port, p.dst_port),
        },
        None => StoredPacketView {
            raw,
            timestamp,
            src_ip: None,
            dst_ip: None,
            src_port: None,
            dst_port: None,
            protocol: "OTHER"@,
        },
    }
}

impl StoredPacket {
    /// Builds the stored form of a frame (see [`stored_packet_spec`]).
    pub fn from_parsed(raw: &[u8], timestamp: u64, parsed: Option<ParsedPacket>) -> (p: StoredPacket)
        ensures
            p@ == stored_packet_spec(raw@, timestamp, parsed),
    {
        let bytes = slice_to_vec(raw);
        match parsed {
            Some(h) => StoredPacket {
                raw: bytes,
                timestamp,
                src_ip: h.src_ip,
                dst_ip: h.dst_ip,
                src_port: h.src_port,
                dst_port: h.dst_port,
                protocol: classify_protocol(h.transport, h.src_port, h.dst_port).to_owned(),
            },
            None => StoredPacket {
                raw: bytes,
                timestamp,
                src_ip: None,
                dst_ip: None,
                src_port: None,
                dst_port: None,
                protocol: "OTHER".to_owned(),
            },
        }
    }
}

/// The summed length of the frames of `ps`.
pub open spec fn total_size(ps: Seq<StoredPacketView>) -> nat
    decreases ps.len(),
{
    if ps.len() == 0 {
        0
    } else {
        total_size(ps.drop_last()) + ps.last().raw.len()
    }
}

/// Sizes add up over concatenation.
pub proof fn lemma_total_size_concat(a: Seq<StoredPacketView>, b: Seq<StoredPacketView>)
    ensures
        total_size(a + b) == total_size(a) + total_size(b),
    decreases b.len(),
{
    if b.len() == 0 {
        assert(a + b =~= a);
    } else {
        assert((a + b).drop_last() =~= a + b.drop_last());
        lemma_total_size_concat(a, b.drop_last());
    }
}

/// A prefix is never larger than the whole.
pub proof fn lemma_total_size_prefix(ps: Seq<StoredPacketView>, k: int)
    requires
        0 <= k <= ps.len(),
    ensures
        total_size(ps.take(k)) + total_size(ps.skip(k)) == total_size(ps),
        total_size(ps.take(k)) <= total_size(ps),
{
    assert(ps.take(k) + ps.skip(k) =~= ps);
    lemma_total_size_concat(ps.take(k), ps.skip(k));
}

/// Whether `count` packets holding `bytes` bytes exceed the limits: more
/// packets than allowed, or more bytes than allowed while holding more
/// than one packet (a single packet is kept whatever its size).
pub open spec fn over_limits(count: int, bytes: int, max_packets: int, max_bytes: int) -> bool {
    count > max_packets || (bytes > max_bytes && count > 1)
}

/// How many packets, taken from the front (oldest first), must go so that
/// the rest of `ps`, holding `bytes` bytes in all, is within the limits.
pub open spec fn evict_count(ps: Seq<StoredPacketView>, bytes: int, max_packets: int, max_bytes: int) -> nat
    decreases ps.len(),
{
    if ps.len() > 0 && over_limits(ps.len() as int, bytes, max_packets, max_bytes) {
        1 + evict_count(ps.drop_first(), bytes - ps[0].raw.len(), max_packets, max_bytes)
    } else {
        0
    }
}

/// Eviction never takes more packets than there are.
pub proof fn lemma_evict_count_bounded(ps: Seq<StoredPacketView>, bytes: int, max_packets: int, max_bytes: int)
    ensures
        evict_count(ps, bytes, max_packets, max_bytes) <= ps.len(),
    decreases ps.len(),
{
    if ps.len() > 0 && over_limits(ps.len() as int, bytes, max_packets, max_bytes) {
        lemma_evict_count_bounded(ps.drop_first(), bytes - ps[0].raw.len(), max_packets, max_bytes);
    }
}

/// Eviction evicts no more than the limits require: after evicting the
/// `evict_count` oldest packets of `ps` (holding `bytes` bytes, the summed
/// frame length) the rest is within the limits, and after evicting any
/// fewer it would not be.
pub proof fn lemma_eviction_is_minimal(ps: Seq<StoredPacketView>, bytes: int, max_packets: int, max_bytes: int, j: int)
    requires
        bytes == total_size(ps),
        max_packets >= 0,
        0 <= j <= evict_count(ps, bytes, max_packets, max_bytes),
    ensures
        j < evict_count(ps, bytes, max_packets, max_bytes) ==> over_limits(
            ps.len() - j,
            bytes - total_size(ps.take(j)),
            max_packets,
            max_bytes,
        ),
        j == evict_count(ps, bytes, max_packets, max_bytes) ==> !over_limits(
            ps.len() - j,
            bytes - total_size(ps.take(j)),
            max_packets,
            max_bytes,
        ),
    decreases ps.len(),
{
    lemma_evict_count_bounded(ps, bytes, max_packets, max_bytes);
    if j == 0 {
        assert(ps.take(0) =~= Seq::<StoredPacketView>::empty());
        assert(total_size(Seq::<StoredPacketView>::empty()) == 0);
    } else {
        let rest = ps.drop_first();
        assert(seq![ps[0]] + rest =~= ps);
        lemma_total_size_concat(seq![ps[0]], rest);
        assert(seq![ps[0]].drop_last() =~= Seq::<StoredPacketView>::empty());
        assert(total_size(Seq::<StoredPacketView>::empty()) == 0);
        lemma_eviction_is_minimal(rest, bytes - ps[0].raw.len(), max_packets, max_bytes, j - 1);
        assert(seq![ps[0]] + rest.take(j - 1) =~= ps.take(j));
        lemma_total_size_concat(seq![ps[0]], rest.take(j - 1));
    }
}

/// The newest packet survives its own arrival whenever the store may hold
/// any packet at all.
pub proof fn lemma_newest_packet_kept(ps: Seq<StoredPacketView>, bytes: int, max_packets: int, max_bytes: int)
    requires
        ps.len() >= 1,
        max_packets >= 1,
    ensures
        evict_count(ps, bytes, max_packets, max_bytes) < ps.len(),
    decreases ps.len(),
{
    if ps.len() > 1 && over_limits(ps.len() as int, bytes, max_packets, max_bytes) {
        lemma_newest_packet_kept(ps.drop_first(), bytes - ps[0].raw.len(), max_packets, max_bytes);
    }
}

/// The state of a packet store, as a mathematical value.
pub struct StoreView {
    pub packets: Seq<StoredPacketView>,
    pub link_type: LinkType,
    pub max_packets: nat,
    pub max_bytes: nat,
    pub current_bytes: nat,
    pub evicted_packets: nat,
    pub evicted_bytes: nat,
}

/// The store after `p` arrives: `p` is appended, then the oldest packets
/// are evicted until the limits hold, and the eviction counters grow by
/// what was evicted.
pub open spec fn after_insert(s: StoreView, p: StoredPacketView) -> StoreView {
    let pushed = s.packets.push(p);
    let bytes = s.current_bytes + p.raw.len();
    let k = evict_count(pushed, bytes as int, s.max_packets as int, s.max_bytes as int);
    let gone = total_size(pushed.take(k as int));
    StoreView {
        packets: pushed.skip(k as int),
        current_bytes: (bytes - gone) as nat,
        evicted_packets: s.evicted_packets + k,
        evicted_bytes: s.evicted_bytes + gone,
        ..s
    }
}

/// What arrives at a store is either held or counted as evicted: one more
/// packet and `p`'s bytes in all, with the held packets a suffix of the old
/// ones followed by `p`, within the limits. If the store may hold any
/// packet, `p` itself is held, as the newest.
pub proof fn lemma_insert_accounts_for_everything(s: StoreView, p: StoredPacketView)
    requires
        s.current_bytes == total_size(s.packets),
    ensures
        ({
            let t = after_insert(s, p);
            &&& t.evicted_packets + t.packets.len() == s.evicted_packets + s.packets.len() + 1
            &&& t.evicted_bytes + t.current_bytes == s.evicted_bytes + s.current_bytes + p.raw.len()
            &&& t.current_bytes == total_size(t.packets)
            &&& !over_limits(t.packets.len() as int, t.current_bytes as int, s.max_packets as int, s.max_bytes as int)
            &&& exists|k: int| 0 <= k <= s.packets.len() + 1 && t.packets == s.packets.push(p).skip(k)
            &&& s.max_packets >= 1 ==> t.packets.len() >= 1 && t.packets.last() == p
        }),
{
    let pushed = s.packets.push(p);
    let bytes = s.current_bytes + p.raw.len();
    assert(pushed.drop_last() =~= s.packets);
    let k = evict_count(pushed, bytes as int, s.max_packets as int, s.max_bytes as int);
    lemma_evict_count_bounded(pushed, bytes as int, s.max_packets as int, s.max_bytes as int);
    lemma_total_size_prefix(pushed, k as int);
    lemma_eviction_is_minimal(pushed, bytes as int, s.max_packets as int, s.max_bytes as int, k as int);
    if s.max_packets >= 1 {
        lemma_newest_packet_kept(pushed, bytes as int, s.max_packets as int, s.max_bytes as int);
    }
    let t = after_insert(s, p);
    assert(t.packets == pushed.skip(k as int));
}

/// A bounded, arrival-ordered store of captured packets.
pub struct PacketStore {
    packets: Vec<StoredPacket>,
    link_type: LinkType,
    max_packets: usize,
    max_bytes: u64,
    current_bytes: u64,
    evicted_packets: u64,
    evicted_bytes: u64,
}

/// What the store holds and how close it is to its limits. Timestamps are
/// in microseconds since the Unix epoch (0 when the store is empty).
pub struct RetentionInfo {
    pub stored_packets: usize,
    pub stored_bytes: u64,
    pub max_packets: usize,
    pub max_bytes: u64,
    pub evicted_packets: u64,
    pub evicted_bytes: u64,
    pub oldest_timestamp: u64,
    pub newest_timestamp: u64,
    pub window: u64,
}

impl View for PacketStore {
    type V = StoreView;

    closed spec fn view(&self) -> StoreView {
        StoreView {
            packets: self.packets@.map_values(|p: StoredPacket| p@),
            link_type: self.link_type,
            max_packets: self.max_packets as nat,
            max_bytes: self.max_bytes as nat,
            current_bytes: self.current_bytes as nat,
            evicted_packets: self.evicted_packets as nat,
            evicted_bytes: self.evicted_bytes as nat,
        }
    }
}

impl PacketStore {
    /// The store's invariant: the byte counter is the summed frame length,
    /// the store is within its limits, and the counters fit their types.
    pub open spec fn wf(&self) -> bool {
        &&& self@.current_bytes == total_size(self@.packets)
        &&& !over_limits(
            self@.packets.len() as int,
            self@.current_bytes as int,
            self@.max_packets as int,
            self@.max_bytes as int,
        )
    }

    /// The counters of a store always fit in 64 bits.
    pub proof fn lemma_view_bounds(&self)
        ensures
            self@.current_bytes <= u64::MAX,
            self@.evicted_packets <= u64::MAX,
            self@.evicted_bytes <= u64::MAX,
            self@.max_packets <= usize::MAX,
            self@.max_bytes <= u64::MAX,
    {
    }

    /// An empty store with the default limits.
    pub fn new(link_type: LinkType) -> (s: PacketStore)
        ensures
            s.wf(),
            s@ == (StoreView {
                packets: Seq::empty(),
                link_type,
                max_packets: DEFAULT_MAX_PACKETS as nat,
                max_bytes: DEFAULT_MAX_BYTES as nat,
                current_bytes: 0,
                evicted_packets: 0,
                evicted_bytes: 0,
            }),
    {
        Self::with_limits(link_type, DEFAULT_MAX_PACKETS, DEFAULT_MAX_BYTES)
    }

    /// An empty store with the given limits.
    pub fn with_limits(link_type: LinkType, max_packets: usize, max_bytes: u64) -> (s: PacketStore)
        ensures
            s.wf(),
            s@ == (StoreView {
                packets: Seq::empty(),
                link_type,
                max_packets: max_packets as nat,
                max_bytes: max_bytes as nat,
                current_bytes: 0,
                evicted_packets: 0,
                evicted_bytes: 0,
            }),
    {
        let s = PacketStore {
            packets: Vec::new(),
            link_type,
            max_packets,
            max_bytes,
            current_bytes: 0,
            evicted_packets: 0,
            evicted_bytes: 0,
        };
        proof {
            assert(s@.packets =~= Seq::<StoredPacketView>::empty());
        }
        s
    }

    /// Sets the link type that later frames are parsed and exported with.
    pub fn set_link_type(&mut self, lt: LinkType)
        requires
            old(self).wf(),
        ensures
            final(self).wf(),
            final(self)@ == (StoreView { link_type: lt, ..old(self)@ }),
    {
        self.link_type = lt;
    }

    /// The link type of the store.
    pub fn link_type(&self) -> (lt: LinkType)
        ensures
            lt == self@.link_type,
    {
        self.link_type
    }

    /// The number of stored packets.
    pub fn len(&self) -> (n: usize)
        ensures
            n == self@.packets.len(),
    {
        self.packets.len()
    }

    /// The stored packets, oldest first.
    pub fn packets(&self) -> (v: &Vec<StoredPacket>)
        ensures
            v@.map_values(|p: StoredPacket| p@) == self@.packets,
    {
        &self.packets
    }

    /// Whether a frame of `size` bytes can be added without a counter
    /// overflowing: the bytes ever held and the packets ever held must stay
    /// within 64 bits.
    pub open spec fn can_hold(&self, size: nat) -> bool {
        &&& self@.evicted_bytes + self@.current_bytes + size <= u64::MAX
        &&& self@.evicted_packets + self@.packets.len() + 1 <= u64::MAX
    }

    /// Evicts the oldest packets until the limits hold.
    fn evict(&mut self)
        requires
            old(self)@.current_bytes == total_size(old(self)@.packets),
            old(self)@.evicted_bytes + old(self)@.current_bytes <= u64::MAX,
            old(self)@.evicted_packets + old(self)@.packets.len() <= u64::MAX,
        ensures
            final(self).wf(),
            ({
                let s = old(self)@;
                let k = evict_count(s.packets, s.current_bytes as int, s.max_packets as int, s.max_bytes as int);
                let gone = total_size(s.packets.take(k as int));
                &&& k <= s.packets.len()
                &&& final(self)@ == (StoreView {
                    packets: s.packets.skip(k as int),
                    current_bytes: (s.current_bytes - gone) as nat,
                    evicted_packets: s.evicted_packets + k,
                    evicted_bytes: s.evicted_bytes + gone,
                    ..s
                })
            }),
    {
        let ghost s = self@;
        let ghost ps = s.packets;
        let n = self.packets.len();
        let mut to_remove: usize = 0;
        proof {
            assert(ps.skip(0) =~= ps);
            assert(ps.take(0) =~= Seq::<StoredPacketView>::empty());
        }
        while n - to_remove > self.max_packets || (self.current_bytes > self.max_bytes && n - to_remove > 1)
            invariant
                n == self.packets.len(),
                to_remove <= n,
                self@.packets == ps,
                self@.link_type == s.link_type,
                self@.max_packets == s.max_packets,
                self@.max_bytes == s.max_bytes,
                self@.current_bytes == total_size(ps.skip(to_remove as int)),
                self@.evicted_packets == s.evicted_packets + to_remove,
                self@.evicted_bytes == s.evicted_bytes + total_size(ps.take(to_remove as int)),
                s.current_bytes == total_size(ps),
                s.evicted_bytes + s.current_bytes <= u64::MAX,
                s.evicted_packets + ps.len() <= u64::MAX,
                evict_count(ps, s.current_bytes as int, s.max_packets as int, s.max_bytes as int)
                    == to_remove + evict_count(ps.skip(to_remove as int), self@.current_bytes as int, s.max_packets as int, s.max_bytes as int),
            decreases n - to_remove,
        {
            proof {
                let rest = ps.skip(to_remove as int);
                assert(rest.drop_first() =~= ps.skip(to_remove + 1));
                assert(rest[0] == ps[to_remove as int]);
                assert(seq![rest[0]] + rest.drop_first() =~= rest);
                lemma_total_size_concat(seq![rest[0]], rest.drop_first());
                assert(seq![rest[0]].drop_last() =~= Seq::<StoredPacketView>::empty());
                assert(total_size(Seq::<StoredPacketView>::empty()) == 0);
                assert(total_size(seq![rest[0]]) == rest[0].raw.len());
                assert(ps.take(to_remove + 1).drop_last() =~= ps.take(to_remove as int));
                lemma_total_size_prefix(ps, to_remove + 1);
            }
            let size = self.packets[to_remove].raw.len() as u64;
            self.current_bytes = self.current_bytes - size;
            self.evicted_packets = self.evicted_packets + 1;
            self.evicted_bytes = self.evicted_bytes + size;
            to_remove = to_remove + 1;
        }
        if to_remove > 0 {
            let rest = self.packets.split_off(to_remove);
            self.packets = rest;
        }
        proof {
            lemma_total_size_prefix(ps, to_remove as int);
            assert(self@.packets =~= ps.skip(to_remove as int));
        }
    }

    /// Adds a stored packet, then evicts the oldest packets until the
    /// limits hold again.
    pub fn insert(&mut self, pkt: StoredPacket)
        requires
            old(self).wf(),
            old(self).can_hold(pkt@.raw.len()),
        ensures
            final(self).wf(),
            final(self)@ == after_insert(old(self)@, pkt@),
    {
        let ghost s = self@;
        let size = pkt.raw.len() as u64;
        self.current_bytes = self.current_bytes + size;
        self.packets.push(pkt);
        proof {
            assert(self@.packets =~= s.packets.push(pkt@));
            assert(self@.packets.drop_last() =~= s.packets);
        }
        self.evict();
    }

    /// Stores a captured frame. `parsed` holds the header fields the packet
    /// parser reported for it under the store's link type, or `None` when
    /// it could not be parsed.
    pub fn add(&mut self, raw: &[u8], timestamp: u64, parsed: Option<ParsedPacket>)
        requires
            old(self).wf(),
            old(self).can_hold(raw@.len()),
        ensures
            final(self).wf(),
            final(self)@ == after_insert(old(self)@, stored_packet_spec(raw@, timestamp, parsed)),
    {
        let pkt = StoredPacket::from_parsed(raw, timestamp, parsed);
        self.insert(pkt);
    }

    /// Drops every stored packet; the limits and the eviction counters stay.
    pub fn clear(&mut self)
        requires
            old(self).wf(),
        ensures
            final(self).wf(),
            final(self)@ == (StoreView { packets: Seq::empty(), current_bytes: 0, ..old(self)@ }),
    {
        self.packets.clear();
        self.current_bytes = 0;
        proof {
            assert(self@.packets =~= Seq::<StoredPacketView>::empty());
        }
    }

    /// What the store holds, its limits and what it has evicted. The window
    /// is the time between the oldest and newest packet, or 0 when the
    /// oldest time is 0 or the newest is not later.
    pub fn retention_info(&self) -> (r: RetentionInfo)
        ensures
            r.stored_packets == self@.packets.len(),
            r.stored_bytes == self@.current_bytes,
            r.max_packets == self@.max_packets,
            r.max_bytes == self@.max_bytes,
            r.evicted_packets == self@.evicted_packets,
            r.evicted_bytes == self@.evicted_bytes,
            r.oldest_timestamp == (if self@.packets.len() > 0 { self@.packets[0].timestamp } else { 0 }),
            r.newest_timestamp == (if self@.packets.len() > 0 { self@.packets.last().timestamp } else { 0 }),
            r.window == (if r.oldest_timestamp > 0 && r.newest_timestamp > r.oldest_timestamp {
                r.newest_timestamp - r.oldest_timestamp
            } else {
                0
            }),
    {
        let n = self.packets.len();
        let oldest: u64 = if n > 0 { self.packets[0].timestamp } else { 0 };
        let newest: u64 = if n > 0 { self.packets[n - 1].timestamp } else { 0 };
        let window: u64 = if oldest > 0 && newest > oldest { newest - oldest } else { 0 };
        RetentionInfo {
            stored_packets: n,
            stored_bytes: self.current_bytes,
            max_packets: self.max_packets,
            max_bytes: self.max_bytes,
            evicted_packets: self.evicted_packets,
            evicted_bytes: self.evicted_bytes,
            oldest_timestamp: oldest,
            newest_timestamp: newest,
            window,
        }
    }
}

/// The character sequences of a list of strings.
pub open spec fn strings_view(s: Seq<String>) -> Seq<Seq<char>> {
    s.map_values(|x: String| x@)
}

/// A packet passes the host filter when no hosts are listed, or its source
/// or destination address is listed.
pub open spec fn host_matches(hosts: Seq<IpAddr>, p: StoredPacketView) -> bool {
    ||| hosts.len() == 0
    ||| (p.src_ip is Some && hosts.contains(p.src_ip->0))
    ||| (p.dst_ip is Some && hosts.contains(p.dst_ip->0))
}

/// A packet passes the protocol filter when no protocols are listed, or
/// its protocol equals a listed one up to ASCII case.
pub open spec fn protocol_matches(protocols: Seq<Seq<char>>, p: StoredPacketView) -> bool {
    ||| protocols.len() == 0
    ||| exists|i: int| 0 <= i < protocols.len() && eq_ignore_ascii_case(#[trigger] protocols[i], p.protocol)
}

/// A packet passes the port filter when no port is given, or its source or
/// destination port is the given one.
pub open spec fn port_matches(port: Option<u16>, p: StoredPacketView) -> bool {
    match port {
        None => true,
        Some(q) => p.src_port == Some(q) || p.dst_port == Some(q),
    }
}

/// Whether a packet passes all three filters.
pub open spec fn selected(hosts: Seq<IpAddr>, protocols: Seq<Seq<char>>, port: Option<u16>, p: StoredPacketView) -> bool {
    host_matches(hosts, p) && protocol_matches(protocols, p) && port_matches(port, p)
}

/// The filters as a predicate on packets.
pub open spec fn selection(hosts: Seq<IpAddr>, protocols: Seq<Seq<char>>, port: Option<u16>) -> spec_fn(StoredPacketView) -> bool {
    |p: StoredPacketView| selected(hosts, protocols, port, p)
}

fn contains_ip(hosts: &Vec<IpAddr>, ip: IpAddr) -> (r: bool)
    ensures
        r == hosts@.contains(ip),
{
    let mut i: usize = 0;
    while i < hosts.len()
        invariant
            i <= hosts.len(),
            forall|j: int| 0 <= j < i ==> hosts@[j] != ip,
        decreases hosts.len() - i,
    {
        if hosts[i] == ip {
            proof {
                assert(hosts@[i as int] == ip);
            }
            return true;
        }
        i = i + 1;
    }
    false
}

fn any_protocol_matches(protocols: &Vec<String>, protocol: &String) -> (r: bool)
    ensures
        r == exists|i: int| 0 <= i < protocols@.len() && eq_ignore_ascii_case(#[trigger] strings_view(protocols@)[i], protocol@),
{
    let ghost ps = strings_view(protocols@);
    let mut i: usize = 0;
    while i < protocols.len()
        invariant
            i <= protocols.len(),
            ps == strings_view(protocols@),
            forall|j: int| 0 <= j < i ==> !eq_ignore_ascii_case(#[trigger] ps[j], protocol@),
        decreases protocols.len() - i,
    {
        if str_eq_ignore_ascii_case(protocols[i].as_str(), protocol.as_str()) {
            proof {
                assert(eq_ignore_ascii_case(ps[i as int], protocol@));
            }
            return true;
        }
        i = i + 1;
    }
    false
}

/// Decides [`selected`] for one stored packet.
pub fn packet_selected(hosts: &Vec<IpAddr>, protocols: &Vec<String>, port: Option<u16>, pkt: &StoredPacket) -> (r: bool)
    ensures
        r == selected(hosts@, strings_view(protocols@), port, pkt@),
        r ==> host_matches(hosts@, pkt@) && protocol_matches(strings_view(protocols@), pkt@),
        port is None ==> r == (host_matches(hosts@, pkt@) && protocol_matches(strings_view(protocols@), pkt@)),
        forall|q: u16| #![auto] port == Some(q) ==> (r <==> (host_matches(hosts@, pkt@) && protocol_matches(strings_view(protocols@), pkt@)
            && (pkt@.src_port == Some(q) || pkt@.dst_port == Some(q)))),
{
    let host_ok = hosts.len() == 0 || {
        let src_ok = match pkt.src_ip {
            Some(ip) => contains_ip(hosts, ip),
            None => false,
        };
        let dst_ok = match pkt.dst_ip {
            Some(ip) => contains_ip(hosts, ip),
            None => false,
        };
        src_ok || dst_ok
    };
    let proto_ok = protocols.len() == 0 || any_protocol_matches(protocols, &pkt.protocol);
    let port_ok = match port {
        None => true,
        Some(q) => pkt.src_port == Some(q) || pkt.dst_port == Some(q),
    };
    host_ok && proto_ok && port_ok
}

/// Which packets an export keeps: those of the listed hosts and protocols
/// (an empty list keeps everything).
pub struct ExportFilter {
    pub hosts: Vec<IpAddr>,
    pub protocols: Vec<String>,
}

impl ExportFilter {
    /// Whether the filter keeps a packet: host and protocol filters both pass.
    pub fn matches(&self, pkt: &StoredPacket) -> (r: bool)
        ensures
            r == (host_matches(self.hosts@, pkt@) && protocol_matches(strings_view(self.protocols@), pkt@)),
    {
        packet_selected(&self.hosts, &self.protocols, None, pkt)
    }
}

/// A packet query: filters, and the page (`offset` matches skipped, at most
/// `limit` returned).
pub struct PacketQuery {
    pub hosts: Vec<IpAddr>,
    pub protocols: Vec<String>,
    pub port: Option<u16>,
    pub limit: usize,
    pub offset: usize,
}

impl Default for PacketQuery {
    /// No filters; the first 100 matches.
    fn default() -> (q: PacketQuery)
        ensures
            q.hosts@.len() == 0,
            q.protocols@.len() == 0,
            q.port is None,
            q.limit == 100,
            q.offset == 0,
    {
        PacketQuery { hosts: Vec::new(), protocols: Vec::new(), port: None, limit: 100, offset: 0 }
    }
}

/// One row of a query result, as a mathematical value.
pub struct PacketInfoView {
    pub timestamp: u64,
    pub src_ip: Option<IpAddr>,
    pub dst_ip: Option<IpAddr>,
    pub src_port: u16,
    pub dst_port: u16,
    pub protocol: Seq<char>,
    pub size: nat,
}

/// One row of a query result: a packet's time (microseconds since the Unix
/// epoch), addresses, ports (0 when absent), protocol and size.
pub struct PacketInfo {
    pub timestamp: u64,
    pub src_ip: Option<IpAddr>,
    pub dst_ip: Option<IpAddr>,
    pub src_port: u16,
    pub dst_port: u16,
    pub protocol: String,
    pub size: usize,
}

impl View for PacketInfo {
    type V = PacketInfoView;

    open spec fn view(&self) -> PacketInfoView {
        PacketInfoView {
            timestamp: self.timestamp,
            src_ip: self.src_ip,
            dst_ip: self.dst_ip,
            src_port: self.src_port,
            dst_port: self.dst_port,
            protocol: self.protocol@,
            size: self.size as nat,
        }
    }
}

/// The row shown for a stored packet.
pub open spec fn info_of(p: StoredPacketView) -> PacketInfoView {
    PacketInfoView {
        timestamp: p.timestamp,
        src_ip: p.src_ip,
        dst_ip: p.dst_ip,
        src_port: match p.src_port { Some(x) => x, None => 0 },
        dst_port: match p.dst_port { Some(x) => x, None => 0 },
        protocol: p.protocol,
        size: p.raw.len(),
    }
}

/// The page of `s` that skips `offset` items and holds at most `limit`.
pub open spec fn page_of<T>(s: Seq<T>, offset: nat, limit: nat) -> Seq<T> {
    let start = if offset < s.len() { offset } else { s.len() };
    let end = if limit < s.len() - start { start + limit } else { s.len() };
    s.subrange(start as int, end as int)
}

/// A page of query results, with the number of matches in all.
pub struct PacketPage {
    pub packets: Vec<PacketInfo>,
    pub total: usize,
    pub offset: usize,
    pub limit: usize,
}

fn info_from(pkt: &StoredPacket) -> (r: PacketInfo)
    ensures
        r@ == info_of(pkt@),
{
    PacketInfo {
        timestamp: pkt.timestamp,
        src_ip: pkt.src_ip,
        dst_ip: pkt.dst_ip,
        src_port: match pkt.src_port { Some(x) => x, None => 0 },
        dst_port: match pkt.dst_port { Some(x) => x, None => 0 },
        protocol: pkt.protocol.clone(),
        size: pkt.raw.len(),
    }
}

impl PacketStore {
    /// The positions of the packets that pass the filters, in store order.
    pub fn matching_indices(&self, hosts: &Vec<IpAddr>, protocols: &Vec<String>, port: Option<u16>) -> (r: Vec<usize>)
        ensures
            forall|j: int| 0 <= j < r@.len() ==> #[trigger] r@[j] < self@.packets.len(),
            forall|j: int, k: int| 0 <= j < k < r@.len() ==> r@[j] < r@[k],
            r@.map_values(|i: usize| self@.packets[i as int]) == self@.packets.filter(
                selection(hosts@, strings_view(protocols@), port),
            ),
    {
        let ghost ps = self@.packets;
        let ghost sel = selection(hosts@, strings_view(protocols@), port);
        let mut r: Vec<usize> = Vec::new();
        let n = self.packets.len();
        let mut i: usize = 0;
        proof {
            reveal_with_fuel(Seq::filter, 1);
            assert(ps.take(0) =~= Seq::<StoredPacketView>::empty());
            assert(r@.map_values(|i: usize| ps[i as int]) =~= ps.take(0).filter(sel));
        }
        while i < n
            invariant
                n == self.packets.len(),
                ps == self@.packets,
                sel == selection(hosts@, strings_view(protocols@), port),
                i <= n,
                forall|j: int| 0 <= j < r@.len() ==> #[trigger] r@[j] < i,
                forall|j: int, k: int| 0 <= j < k < r@.len() ==> r@[j] < r@[k],
                r@.map_values(|i: usize| ps[i as int]) == ps.take(i as int).filter(sel),
            decreases n - i,
        {
            let keep = packet_selected(hosts, protocols, port, &self.packets[i]);
            proof {
                reveal_with_fuel(Seq::filter, 1);
                assert(ps.take(i + 1).drop_last() =~= ps.take(i as int));
                assert(ps.take(i + 1).last() == ps[i as int]);
                assert(ps[i as int] == self.packets@[i as int]@);
            }
            if keep {
                r.push(i);
                proof {
                    assert(r@.map_values(|i: usize| ps[i as int]) =~= ps.take(i as int).filter(sel).push(ps[i as int]));
                }
            }
            i = i + 1;
        }
        proof {
            assert(ps.take(n as int) =~= ps);
        }
        r
    }

    /// The packets that pass the query's filters: how many there are, and
    /// the page of them that the query asks for, oldest first.
    pub fn query_packets(&self, query: &PacketQuery) -> (page: PacketPage)
        ensures
            ({
                let m = self@.packets.filter(selection(query.hosts@, strings_view(query.protocols@), query.port));
                &&& page.total == m.len()
                &&& page.offset == query.offset
                &&& page.limit == query.limit
                &&& page.packets@.map_values(|i: PacketInfo| i@) == page_of(m, query.offset as nat, query.limit as nat).map_values(|p: StoredPacketView| info_of(p))
            }),
    {
        let ghost ps = self@.packets;
        let ghost m = ps.filter(selection(query.hosts@, strings_view(query.protocols@), query.port));
        let idx = self.matching_indices(&query.hosts, &query.protocols, query.port);
        let total = idx.len();
        proof {
            assert(idx@.map_values(|i: usize| ps[i as int]).len() == m.len());
        }
        let start = if query.offset < total { query.offset } else { total };
        let end = if query.limit < total - start { start + query.limit } else { total };
        let mut infos: Vec<PacketInfo> = Vec::new();
        let mut j = start;
        while j < end
            invariant
                start <= j <= end <= total,
                total == idx@.len(),
                total == m.len(),
                ps == self@.packets,
                forall|t: int| 0 <= t < idx@.len() ==> #[trigger] idx@[t] < ps.len(),
                idx@.map_values(|i: usize| ps[i as int]) == m,
                infos@.map_values(|i: PacketInfo| i@) == m.subrange(start as int, j as int).map_values(|p: StoredPacketView| info_of(p)),
            decreases end - j,
        {
            let k = idx[j];
            let info = info_from(&self.packets[k]);
            proof {
                assert(m[j as int] == ps[k as int]);
                assert(ps[k as int] == self.packets@[k as int]@);
            }
            let ghost before = infos@.map_values(|i: PacketInfo| i@);
            let ghost info_v = info@;
            infos.push(info);
            proof {
                assert(infos@.map_values(|i: PacketInfo| i@) =~= before.push(info_v));
                assert(m.subrange(start as int, j + 1).map_values(|p: StoredPacketView| info_of(p))
                    =~= m.subrange(start as int, j as int).map_values(|p: StoredPacketView| info_of(p)).push(info_of(m[j as int])));
            }
            j = j + 1;
        }
        PacketPage { packets: infos, total, offset: query.offset, limit: query.limit }
    }
}

/// A packet goes from `a` to `b`.
pub open spec fn goes_a_to_b(a: IpAddr, b: IpAddr, p: StoredPacketView) -> bool {
    p.src_ip == Some(a) && p.dst_ip == Some(b)
}

/// A packet goes from `b` to `a` (and is not already counted from `a` to `b`).
pub open spec fn goes_b_to_a(a: IpAddr, b: IpAddr, p: StoredPacketView) -> bool {
    !goes_a_to_b(a, b, p) && p.src_ip == Some(b) && p.dst_ip == Some(a)
}

/// The packets from `a` to `b`.
pub open spec fn a_to_b_filter(a: IpAddr, b: IpAddr) -> spec_fn(StoredPacketView) -> bool {
    |p: StoredPacketView| goes_a_to_b(a, b, p)
}

/// The packets from `b` to `a`.
pub open spec fn b_to_a_filter(a: IpAddr, b: IpAddr) -> spec_fn(StoredPacketView) -> bool {
    |p: StoredPacketView| goes_b_to_a(a, b, p)
}

/// The packets between `a` and `b`, in either direction.
pub open spec fn conversation_filter(a: IpAddr, b: IpAddr) -> spec_fn(StoredPacketView) -> bool {
    |p: StoredPacketView| goes_a_to_b(a, b, p) || goes_b_to_a(a, b, p)
}

/// The earliest timestamp of `s`, or 0 when `s` is empty.
pub open spec fn earliest(s: Seq<StoredPacketView>) -> u64
    decreases s.len(),
{
    if s.len() == 0 {
        0
    } else if s.len() == 1 {
        s[0].timestamp
    } else {
        let e = earliest(s.drop_last());
        if s.last().timestamp < e {
            s.last().timestamp
        } else {
            e
        }
    }
}

/// The latest timestamp of `s`, or 0 when `s` is empty.
pub open spec fn latest(s: Seq<StoredPacketView>) -> u64
    decreases s.len(),
{
    if s.len() == 0 {
        0
    } else if s.len() == 1 {
        s[0].timestamp
    } else {
        let l = latest(s.drop_last());
        if s.last().timestamp > l {
            s.last().timestamp
        } else {
            l
        }
    }
}

/// The latest timestamp is never before the earliest.
pub proof fn lemma_earliest_le_latest(s: Seq<StoredPacketView>)
    ensures
        earliest(s) <= latest(s),
    decreases s.len(),
{
    if s.len() > 1 {
        lemma_earliest_le_latest(s.drop_last());
    }
}

/// The bytes of `s` per protocol.
pub open spec fn protocol_bytes(s: Seq<StoredPacketView>) -> Map<Seq<char>, nat>
    decreases s.len(),
{
    if s.len() == 0 {
        Map::empty()
    } else {
        let m = protocol_bytes(s.drop_last());
        let p = s.last().protocol;
        m.insert(p, (if m.contains_key(p) { m[p] } else { 0 }) + s.last().raw.len())
    }
}

/// Keeping a subset of the packets never gives more bytes.
pub proof fn lemma_filter_total_size(s: Seq<StoredPacketView>, pred: spec_fn(StoredPacketView) -> bool)
    ensures
        total_size(s.filter(pred)) <= total_size(s),
        s.filter(pred).len() <= s.len(),
    decreases s.len(),
{
    reveal_with_fuel(Seq::filter, 1);
    if s.len() > 0 {
        lemma_filter_total_size(s.drop_last(), pred);
        let f = s.drop_last().filter(pred);
        assert(f.push(s.last()).drop_last() =~= f);
    }
}

/// A protocol and the bytes seen for it.
pub struct ProtocolBytes {
    pub protocol: String,
    pub bytes: u64,
}

/// The (protocol, bytes) pairs of a list of [`ProtocolBytes`].
pub open spec fn protocol_entries(v: Seq<ProtocolBytes>) -> Seq<(Seq<char>, nat)> {
    v.map_values(|e: ProtocolBytes| (e.protocol@, e.bytes as nat))
}

/// The map a list of pairs stands for (a later pair wins).
pub open spec fn entries_map(e: Seq<(Seq<char>, nat)>) -> Map<Seq<char>, nat>
    decreases e.len(),
{
    if e.len() == 0 {
        Map::empty()
    } else {
        entries_map(e.drop_last()).insert(e.last().0, e.last().1)
    }
}

/// No protocol is listed twice.
pub open spec fn distinct_keys(e: Seq<(Seq<char>, nat)>) -> bool {
    forall|i: int, j: int| 0 <= i < j < e.len() ==> e[i].0 != e[j].0
}

/// With distinct keys, the map holds exactly the listed pairs.
pub proof fn lemma_entries_map_lookup(e: Seq<(Seq<char>, nat)>)
    requires
        distinct_keys(e),
    ensures
        forall|i: int| 0 <= i < e.len() ==> #[trigger] entries_map(e).contains_key(e[i].0) && entries_map(e)[e[i].0] == e[i].1,
        forall|k: Seq<char>| #[trigger] entries_map(e).contains_key(k) ==> exists|i: int| 0 <= i < e.len() && e[i].0 == k,
    decreases e.len(),
{
    if e.len() > 0 {
        let d = e.drop_last();
        lemma_entries_map_lookup(d);
        assert forall|i: int| 0 <= i < e.len() implies #[trigger] entries_map(e).contains_key(e[i].0) && entries_map(e)[e[i].0] == e[i].1 by {
            if i < e.len() - 1 {
                assert(d[i] == e[i]);
                assert(e[i].0 != e[e.len() - 1].0);
                assert(entries_map(d).contains_key(d[i].0));
            }
        }
        assert forall|k: Seq<char>| #[trigger] entries_map(e).contains_key(k) implies exists|i: int| 0 <= i < e.len() && e[i].0 == k by {
            if k != e.last().0 {
                assert(entries_map(d).contains_key(k));
                let i = choose|i: int| 0 <= i < d.len() && d[i].0 == k;
                assert(e[i].0 == k);
            } else {
                assert(e[e.len() - 1].0 == k);
            }
        }
    }
}

/// Changing the count of a listed protocol changes that entry of the map.
pub proof fn lemma_entries_map_update(e: Seq<(Seq<char>, nat)>, j: int, v: nat)
    requires
        distinct_keys(e),
        0 <= j < e.len(),
    ensures
        entries_map(e.update(j, (e[j].0, v))) == entries_map(e).insert(e[j].0, v),
    decreases e.len(),
{
    let u = e.update(j, (e[j].0, v));
    let d = e.drop_last();
    if j == e.len() - 1 {
        assert(u.drop_last() =~= d);
        assert(entries_map(u) =~= entries_map(e).insert(e[j].0, v));
    } else {
        assert(u.drop_last() =~= d.update(j, (d[j].0, v)));
        lemma_entries_map_update(d, j, v);
        assert(e[j].0 != e.last().0);
        assert(entries_map(u) =~= entries_map(e).insert(e[j].0, v));
    }
}

/// What the store holds of the traffic between two hosts.
pub struct ConversationInfo {
    pub host_a: IpAddr,
    pub host_b: IpAddr,
    pub a_to_b_bytes: u64,
    pub b_to_a_bytes: u64,
    pub a_to_b_packets: u64,
    pub b_to_a_packets: u64,
    pub protocols: Vec<ProtocolBytes>,
    pub first_seen: u64,
    pub last_seen: u64,
    pub duration: u64,
}

impl PacketStore {
    fn find_protocol(entries: &Vec<ProtocolBytes>, protocol: &String) -> (r: Option<usize>)
        ensures
            match r {
                Some(j) => j < entries@.len() && entries@[j as int].protocol@ == protocol@,
                None => forall|j: int| 0 <= j < entries@.len() ==> #[trigger] entries@[j].protocol@ != protocol@,
            },
    {
        let mut j: usize = 0;
        while j < entries.len()
            invariant
                j <= entries.len(),
                forall|t: int| 0 <= t < j ==> #[trigger] entries@[t].protocol@ != protocol@,
            decreases entries.len() - j,
        {
            if entries[j].protocol == *protocol {
                return Some(j);
            }
            j = j + 1;
        }
        None
    }

    /// The traffic between `a` and `b` that the store holds: bytes and
    /// packets in each direction, bytes per protocol, and the earliest and
    /// latest packet times (0 when there is none) and the time between them.
    pub fn conversation(&self, a: IpAddr, b: IpAddr) -> (info: ConversationInfo)
        requires
            self.wf(),
        ensures
            ({
                let ps = self@.packets;
                let ab = ps.filter(a_to_b_filter(a, b));
                let ba = ps.filter(b_to_a_filter(a, b));
                let c = ps.filter(conversation_filter(a, b));
                &&& info.host_a == a
                &&& info.host_b == b
                &&& info.a_to_b_packets == ab.len()
                &&& info.a_to_b_bytes == total_size(ab)
                &&& info.b_to_a_packets == ba.len()
                &&& info.b_to_a_bytes == total_size(ba)
                &&& distinct_keys(protocol_entries(info.protocols@))
                &&& entries_map(protocol_entries(info.protocols@)) == protocol_bytes(c)
                &&& info.first_seen == earliest(c)
                &&& info.last_seen == latest(c)
                &&& info.duration == latest(c) - earliest(c)
            }),
    {
        let ghost ps = self@.packets;
        let ghost fab = a_to_b_filter(a, b);
        let ghost fba = b_to_a_filter(a, b);
        let ghost fc = conversation_filter(a, b);
        let mut ab_bytes: u64 = 0;
        let mut ba_bytes: u64 = 0;
        let mut ab_packets: u64 = 0;
        let mut ba_packets: u64 = 0;
        let mut protocols: Vec<ProtocolBytes> = Vec::new();
        let mut seen = false;
        let mut first: u64 = 0;
        let mut last: u64 = 0;
        let n = self.packets.len();
        let mut i: usize = 0;
        proof {
            reveal_with_fuel(Seq::filter, 1);
            assert(ps.take(0) =~= Seq::<StoredPacketView>::empty());
            assert(protocol_entries(protocols@) =~= Seq::<(Seq<char>, nat)>::empty());
            assert(entries_map(Seq::<(Seq<char>, nat)>::empty()) =~= Map::<Seq<char>, nat>::empty());
        }
        while i < n
            invariant
                n == self.packets.len(),
                ps == self@.packets,
                self.wf(),
                fab == a_to_b_filter(a, b),
                fba == b_to_a_filter(a, b),
                fc == conversation_filter(a, b),
                i <= n,
                ab_packets == ps.take(i as int).filter(fab).len(),
                ab_bytes == total_size(ps.take(i as int).filter(fab)),
                ba_packets == ps.take(i as int).filter(fba).len(),
                ba_bytes == total_size(ps.take(i as int).filter(fba)),
                seen == (ps.take(i as int).filter(fc).len() > 0),
                first == earliest(ps.take(i as int).filter(fc)),
                last == latest(ps.take(i as int).filter(fc)),
                distinct_keys(protocol_entries(protocols@)),
                entries_map(protocol_entries(protocols@)) == protocol_bytes(ps.take(i as int).filter(fc)),
                forall|k: Seq<char>| #[trigger] protocol_bytes(ps.take(i as int).filter(fc)).contains_key(k)
                    ==> protocol_bytes(ps.take(i as int).filter(fc))[k] <= total_size(ps.take(i as int).filter(fc)),
            decreases n - i,
        {
            let ghost t = ps.take(i as int);
            let ghost t1 = ps.take(i + 1);
            let ghost p = ps[i as int];
            proof {
                reveal_with_fuel(Seq::filter, 1);
                assert(t1.drop_last() =~= t);
                assert(t1.last() == p);
                assert(p == self.packets@[i as int]@);
                lemma_total_size_prefix(ps, i + 1);
                lemma_filter_total_size(t1, fab);
                lemma_filter_total_size(t1, fba);
                lemma_filter_total_size(t1, fc);
                lemma_filter_total_size(t, fc);
            }
            let pkt = &self.packets[i];
            let (src, dst) = match (pkt.src_ip, pkt.dst_ip) {
                (Some(s), Some(d)) => (s, d),
                _ => {
                    i = i + 1;
                    continue;
                },
            };
            let is_a_to_b = src == a && dst == b;
            let is_b_to_a = src == b && dst == a;
            if !is_a_to_b && !is_b_to_a {
                i = i + 1;
                continue;
            }
            let ghost c0 = t.filter(fc);
            proof {
                assert(t1.filter(fc) == c0.push(p));
                assert(c0.push(p).drop_last() =~= c0);
            }
            let ts = pkt.timestamp;
            if !seen {
                first = ts;
                last = ts;
            } else {
                if ts < first {
                    first = ts;
                }
                if ts > last {
                    last = ts;
                }
            }
            seen = true;
            let size = pkt.raw.len() as u64;
            if is_a_to_b {
                proof {
                    let f0 = t.filter(fab);
                    assert(f0.push(p).drop_last() =~= f0);
                }
                ab_bytes = ab_bytes + size;
                ab_packets = ab_packets + 1;
            } else {
                proof {
                    let f0 = t.filter(fba);
                    assert(f0.push(p).drop_last() =~= f0);
                }
                ba_bytes = ba_bytes + size;
                ba_packets = ba_packets + 1;
            }
            let ghost e0 = protocol_entries(protocols@);
            proof {
                lemma_entries_map_lookup(e0);
            }
            match Self::find_protocol(&protocols, &pkt.protocol) {
                Some(j) => {
                    proof {
                        assert(e0[j as int].0 == p.protocol);
                        assert(entries_map(e0).contains_key(e0[j as int].0));
                        assert(protocol_bytes(c0).contains_key(p.protocol));
                        assert(protocol_bytes(c0)[p.protocol] <= total_size(c0));
                        assert(total_size(c0.push(p)) == total_size(c0) + p.raw.len());
                        self.lemma_view_bounds();
                        assert(total_size(t1.filter(fc)) <= total_size(ps));
                    }
                    let v = protocols[j].bytes + size;
                    protocols[j].bytes = v;
                    proof {
                        assert(protocol_entries(protocols@) =~= e0.update(j as int, (e0[j as int].0, v as nat)));
                        lemma_entries_map_update(e0, j as int, v as nat);
                    }
                },
                None => {
                    proof {
                        assert(!entries_map(e0).contains_key(p.protocol));
                    }
                    protocols.push(ProtocolBytes { protocol: pkt.protocol.clone(), bytes: size });
                    proof {
                        assert(protocol_entries(protocols@) =~= e0.push((p.protocol, size as nat)));
                        assert(protocol_entries(protocols@).drop_last() =~= e0);
                    }
                },
            }
            i = i + 1;
        }
        proof {
            assert(ps.take(n as int) =~= ps);
            lemma_earliest_le_latest(ps.filter(fc));
        }
        ConversationInfo {
            host_a: a,
            host_b: b,
            a_to_b_bytes: ab_bytes,
            b_to_a_bytes: ba_bytes,
            a_to_b_packets: ab_packets,
            b_to_a_packets: ba_packets,
            protocols,
            first_seen: first,
            last_seen: last,
            duration: last - first,
        }
    }
}

/// The port filter looks at both ends of a packet: among the packets that
/// pass the host and protocol filters, port `q` keeps exactly those whose
/// source port or destination port is `q`. A reply sent from port `q` is
/// kept as well as the request sent to it.
pub proof fn lemma_port_filter_either_end(hosts: Seq<IpAddr>, protocols: Seq<Seq<char>>, q: u16, p: StoredPacketView)
    requires
        host_matches(hosts, p),
        protocol_matches(protocols, p),
    ensures
        p.src_port == Some(q) ==> selected(hosts, protocols, Some(q), p),
        p.dst_port == Some(q) ==> selected(hosts, protocols, Some(q), p),
        selected(hosts, protocols, Some(q), p) ==> (p.src_port == Some(q) || p.dst_port == Some(q)),
        selected(hosts, protocols, Some(q), p) == selected(hosts, protocols, Some(q), StoredPacketView { src_port: p.dst_port, dst_port: p.src_port, ..p }),
{
}

/// The host filter looks at both ends of a packet too: a packet is kept
/// when its source address is listed, and when its destination address is.
pub proof fn lemma_host_filter_either_end(hosts: Seq<IpAddr>, p: StoredPacketView)
    ensures
        p.src_ip is Some && hosts.contains(p.src_ip->0) ==> host_matches(hosts, p),
        p.dst_ip is Some && hosts.contains(p.dst_ip->0) ==> host_matches(hosts, p),
        host_matches(hosts, p) == host_matches(hosts, StoredPacketView { src_ip: p.dst_ip, dst_ip: p.src_ip, ..p }),
{
}

/// Every stored packet whose source port is `q` and that passes the host
/// and protocol filters is among the matches of a query for port `q` (the
/// matches that [`PacketStore::query_packets`] counts and pages through).
pub proof fn lemma_port_query_keeps_source_port(ps: Seq<StoredPacketView>, hosts: Seq<IpAddr>, protocols: Seq<Seq<char>>, q: u16, i: int)
    requires
        0 <= i < ps.len(),
        ps[i].src_port == Some(q),
        host_matches(hosts, ps[i]),
        protocol_matches(protocols, ps[i]),
    ensures
        ps.filter(selection(hosts, protocols, Some(q))).contains(ps[i]),
{
    broadcast use vstd::seq_lib::group_filter_ensures;
    assert(selection(hosts, protocols, Some(q))(ps[i]));
}

/// A filter with no hosts and no protocols keeps every packet.
pub proof fn lemma_empty_filter_matches_all(p: StoredPacketView)
    ensures
        host_matches(Seq::empty(), p),
        protocol_matches(Seq::empty(), p),
        selected(Seq::empty(), Seq::empty(), None, p),
{
}

/// Consecutive pages join up: the page at `offset` of `l1` items followed
/// by the page right after it of `l2` items is the page at `offset` of
/// `l1 + l2` items.
pub proof fn lemma_pages_concatenate<T>(s: Seq<T>, offset: nat, l1: nat, l2: nat)
    ensures
        page_of(s, offset, l1) + page_of(s, offset + l1, l2) == page_of(s, offset, l1 + l2),
{
    assert(page_of(s, offset, l1) + page_of(s, offset + l1, l2) =~= page_of(s, offset, l1 + l2));
}

/// The conversation seen from the other host is the same traffic with the
/// directions swapped (for two different hosts).
pub proof fn lemma_conversation_symmetric(ps: Seq<StoredPacketView>, a: IpAddr, b: IpAddr)
    requires
        a != b,
    ensures
        ps.filter(a_to_b_filter(a, b)) == ps.filter(b_to_a_filter(b, a)),
        ps.filter(b_to_a_filter(a, b)) == ps.filter(a_to_b_filter(b, a)),
        ps.filter(conversation_filter(a, b)) == ps.filter(conversation_filter(b, a)),
{
    assert(a_to_b_filter(a, b) =~= b_to_a_filter(b, a));
    assert(b_to_a_filter(a, b) =~= a_to_b_filter(b, a));
    assert(conversation_filter(a, b) =~= conversation_filter(b, a));
}

/// Every packet of a conversation is counted in exactly one direction:
/// the two directions add up to the conversation, in packets and bytes.
pub proof fn lemma_conversation_partition(ps: Seq<StoredPacketView>, a: IpAddr, b: IpAddr)
    ensures
        ps.filter(a_to_b_filter(a, b)).len() + ps.filter(b_to_a_filter(a, b)).len() == ps.filter(
            conversation_filter(a, b),
        ).len(),
        total_size(ps.filter(a_to_b_filter(a, b))) + total_size(ps.filter(b_to_a_filter(a, b)))
            == total_size(ps.filter(conversation_filter(a, b))),
    decreases ps.len(),
{
    reveal_with_fuel(Seq::filter, 1);
    if ps.len() > 0 {
        let d = ps.drop_last();
        lemma_conversation_partition(d, a, b);
        let fab = d.filter(a_to_b_filter(a, b));
        let fba = d.filter(b_to_a_filter(a, b));
        let fc = d.filter(conversation_filter(a, b));
        let l = ps.last();
        assert(fab.push(l).drop_last() =~= fab);
        assert(fba.push(l).drop_last() =~= fba);
        assert(fc.push(l).drop_last() =~= fc);
    }
}

} // verus!
