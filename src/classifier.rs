//! Demultiplexing of received Ethernet frames, and the ARP responder.
use vstd::prelude::*;

verus! {

pub const ETHER_TYPE_ARP: u16 = 0x0806;

pub const ETHER_TYPE_IPV4: u16 = 0x0800;

pub const IP_PROTO_TCP: u8 = 6;

pub const ARP_REQUEST: u16 = 1;

pub const ARP_REPLY: u16 = 2;

/// Length of an Ethernet header.
pub const ETH_LEN: usize = 14;

/// Length of an Ethernet frame carrying an IPv4-over-Ethernet ARP message.
pub const ARP_FRAME_LEN: usize = 42;

/// Where a received frame goes.
#[derive(Clone, Copy, Debug, PartialEq, Eq, Structural)]
pub enum PacketClass {
    /// an ARP request for the proxy's address, answered by the pipeline
    ArpRequest,
    /// traffic for the host, handed to the kernel interface
    Kni,
    /// a TCP segment for the proxy's listen port
    ClientSide,
    /// a TCP segment for one of the proxy's ephemeral ports
    ServerSide,
    /// a frame too short for the headers it announces
    Malformed,
}

/// The proxy's own addresses and ports, as the classifier needs them.
#[derive(Clone, Copy, Debug)]
pub struct Endpoint {
    pub ip: u32,
    pub mac: [u8; 6],
    pub listen_port: u16,
    /// first ephemeral port of this core
    pub first_port: u16,
    /// number of ephemeral ports of this core
    pub port_count: u16,
}

/// Big-endian 16-bit value at `i`.
pub open spec fn be16(f: Seq<u8>, i: int) -> int {
    f[i] * 256 + f[i + 1]
}

/// Big-endian 32-bit value at `i`.
pub open spec fn be32(f: Seq<u8>, i: int) -> int {
    be16(f, i) * 65536 + be16(f, i + 2)
}

/// Length in bytes of the IPv4 header of an Ethernet frame.
pub open spec fn ip_header_len(f: Seq<u8>) -> int {
    (f[14] % 16) * 4
}

/// The class of frame `f` for endpoint `e`: ARP requests for the proxy's
/// address are answered here; frames not for the proxy's address, and
/// non-TCP traffic, go to the kernel; TCP goes to the client or the server
/// path by its destination port, and to the kernel for any other port.
pub open spec fn class_of(f: Seq<u8>, e: Endpoint) -> PacketClass {
    if f.len() < ETH_LEN {
        PacketClass::Malformed
    } else if be16(f, 12) == ETHER_TYPE_ARP {
        if f.len() >= ARP_FRAME_LEN && be16(f, 20) == ARP_REQUEST && be32(f, 38) == e.ip {
            PacketClass::ArpRequest
        } else {
            PacketClass::Kni
        }
    } else if be16(f, 12) != ETHER_TYPE_IPV4 {
        PacketClass::Kni
    } else if f.len() < 34 {
        PacketClass::Malformed
    } else if be32(f, 30) != e.ip || f[23] != IP_PROTO_TCP {
        PacketClass::Kni
    } else if ip_header_len(f) < 20 || f.len() < 14 + ip_header_len(f) + 4 {
        PacketClass::Malformed
    } else {
        let port = be16(f, 14 + ip_header_len(f) + 2);
        if port == e.listen_port {
            PacketClass::ClientSide
        } else if e.first_port <= port < e.first_port + e.port_count {
            PacketClass::ServerSide
        } else {
            PacketClass::Kni
        }
    }
}

fn read_be16(f: &[u8], i: usize) -> (r: u16)
    requires
        i + 2 <= f@.len(),
    ensures
        r == be16(f@, i as int),
{
    (f[i] as u16) * 256 + f[i + 1] as u16
}

fn read_be32(f: &[u8], i: usize) -> (r: u32)
    requires
        i + 4 <= f@.len(),
    ensures
        r == be32(f@, i as int),
{
    let _n = f.len();
    (read_be16(f, i) as u32) * 65536 + read_be16(f, i + 2) as u32
}

/// Classifies a received frame; see `class_of`.
pub fn classify(frame: &[u8], e: &Endpoint) -> (r: PacketClass)
    ensures
        r == class_of(frame@, *e),
{
    let n = frame.len();
    if n < ETH_LEN {
        return PacketClass::Malformed;
    }
    let ether_type = read_be16(frame, 12);
    if ether_type == ETHER_TYPE_ARP {
        if n >= ARP_FRAME_LEN && read_be16(frame, 20) == ARP_REQUEST && read_be32(frame, 38)
            == e.ip {
            return PacketClass::ArpRequest;
        }
        return PacketClass::Kni;
    }
    if ether_type != ETHER_TYPE_IPV4 {
        return PacketClass::Kni;
    }
    if n < 34 {
        return PacketClass::Malformed;
    }
    if read_be32(frame, 30) != e.ip || frame[23] != IP_PROTO_TCP {
        return PacketClass::Kni;
    }
    let ihl = ((frame[14] % 16) as usize) * 4;
    if ihl < 20 || n < 14 + ihl + 4 {
        return PacketClass::Malformed;
    }
    let port = read_be16(frame, 14 + ihl + 2);
    if port == e.listen_port {
        PacketClass::ClientSide
    } else if e.first_port <= port && (port as u32) < e.first_port as u32 + e.port_count as u32 {
        PacketClass::ServerSide
    } else {
        PacketClass::Kni
    }
}

pub open spec fn be16_bytes(v: int) -> Seq<u8> {
    seq![(v / 256) as u8, (v % 256) as u8]
}

pub open spec fn mac_bytes(m: [u8; 6]) -> Seq<u8> {
    m@
}

/// The reply to ARP request `f` from endpoint `e`: addressed to the
/// requester, telling that the proxy's address is at the proxy's MAC.
pub open spec fn arp_reply_of(f: Seq<u8>, e: Endpoint) -> Seq<u8> {
    f.subrange(6, 12)  // to the requester
     + mac_bytes(e.mac) + f.subrange(12, 20)  // ether type, hardware and protocol kinds
     + be16_bytes(ARP_REPLY as int) + mac_bytes(e.mac)  // sender: the proxy
     + f.subrange(38, 42) + f.subrange(22, 32)  // target: the requester
}

/// Builds the reply to an ARP request for the proxy's address.
pub fn arp_reply(frame: &[u8], e: &Endpoint) -> (r: Vec<u8>)
    requires
        class_of(frame@, *e) == PacketClass::ArpRequest,
    ensures
        r@ == arp_reply_of(frame@, *e),
        r@.len() == ARP_FRAME_LEN,
{
    let mut r: Vec<u8> = Vec::new();
    push_range(&mut r, frame, 6, 12);
    push_range(&mut r, &e.mac, 0, 6);
    push_range(&mut r, frame, 12, 20);
    r.push((ARP_REPLY / 256) as u8);
    r.push((ARP_REPLY % 256) as u8);
    push_range(&mut r, &e.mac, 0, 6);
    push_range(&mut r, frame, 38, 42);
    push_range(&mut r, frame, 22, 32);
    assert(r@ =~= arp_reply_of(frame@, *e));
    r
}

fn push_range(r: &mut Vec<u8>, src: &[u8], lo: usize, hi: usize)
    requires
        lo <= hi <= src@.len(),
    ensures
        final(r)@ == old(r)@ + src@.subrange(lo as int, hi as int),
{
    let ghost before = r@;
    let mut i: usize = lo;
    while i < hi
        invariant
            lo <= i <= hi,
            hi <= src@.len(),
            r@ == before + src@.subrange(lo as int, i as int),
        decreases hi - i,
    {
        r.push(src[i]);
        i = i + 1;
        assert(r@ =~= before + src@.subrange(lo as int, i as int));
    }
}

} // verus!
