//! What the capture loop does with each frame: a frame whose parsed header
//! has both addresses is classified and recorded in the topology.

use vstd::prelude::*;
use crate::models::{IpAddr, Transport, protocol_name, classify_protocol};
use crate::packet_store::ParsedPacket;
use crate::topology::{Topology, after_ingest, topology_wf, ingest_fits};

verus! {

/// The protocol name the capture loop records for a frame (the same
/// classification as [`classify_protocol`]).
pub fn transport_str(t: Transport, src_port: Option<u16>, dst_port: Option<u16>) -> (r: &'static str)
    ensures
        r@ == protocol_name(t, src_port, dst_port),
{
    classify_protocol(t, src_port, dst_port)
}

/// Whether a parsed frame can be recorded: it has a source and a
/// destination address.
pub open spec fn recordable(parsed: Option<ParsedPacket>) -> bool {
    match parsed {
        Some(p) => p.src_ip is Some && p.dst_ip is Some,
        None => false,
    }
}

/// The source and destination addresses of a parsed frame, when it has both.
pub fn recordable_header(parsed: &Option<ParsedPacket>) -> (r: Option<(IpAddr, IpAddr)>)
    ensures
        r is Some == recordable(*parsed),
        r matches Some((s, d)) ==> parsed->0.src_ip == Some(s) && parsed->0.dst_ip == Some(d),
{
    match parsed {
        Some(p) => match (p.src_ip, p.dst_ip) {
            (Some(s), Some(d)) => Some((s, d)),
            _ => None,
        },
        None => None,
    }
}

/// Handles one captured frame of `bytes` bytes: when its parsed header has
/// both addresses, records it in the topology with its classified protocol
/// at `timestamp` (the current time when there is none), and reports
/// whether it did.
pub fn capture_packet(topology: &mut Topology, parsed: Option<ParsedPacket>, bytes: u64, timestamp: Option<u64>) -> (recorded: bool)
    requires
        topology_wf(old(topology)@),
        recordable(parsed) ==> ingest_fits(old(topology)@, parsed->0.src_ip->0, parsed->0.dst_ip->0, bytes),
    ensures
        topology_wf(final(topology)@),
        recorded == recordable(parsed),
        !recorded ==> final(topology)@ == old(topology)@,
        recorded ==> ({
            let p = parsed->0;
            let protocol = protocol_name(p.transport, p.src_port, p.dst_port);
            match timestamp {
                Some(t) => final(topology)@ == after_ingest(old(topology)@, p.src_ip->0, p.dst_ip->0, p.dst_port, protocol, bytes, t),
                None => exists|t: u64| final(topology)@ == after_ingest(old(topology)@, p.src_ip->0, p.dst_ip->0, p.dst_port, protocol, bytes, t),
            }
        }),
{
    match parsed {
        Some(p) => match (p.src_ip, p.dst_ip) {
            (Some(src), Some(dst)) => {
                let protocol = transport_str(p.transport, p.src_port, p.dst_port);
                topology.ingest(src, dst, p.src_port, p.dst_port, protocol, bytes, timestamp);
                true
            },
            _ => false,
        },
        None => false,
    }
}

} // verus!
