//! TCP vocabulary of the proxy: states, release causes, segment headers,
//! four-tuples and modulo-2^32 sequence arithmetic.
use vstd::prelude::*;

verus! {

pub const TCP_FIN: u8 = 0x01;

pub const TCP_SYN: u8 = 0x02;

pub const TCP_RST: u8 = 0x04;

pub const TCP_PSH: u8 = 0x08;

pub const TCP_ACK: u8 = 0x10;

/// State of one side of a proxied connection.
#[derive(Clone, Copy, Debug, PartialEq, Eq, Structural)]
pub enum TcpState {
    Listen,
    SynReceived,
    SynSent,
    Established,
    CloseWait,
    FinWait1,
    FinWait2,
    LastAck,
    Closed,
}

/// Why a connection was released.
#[derive(Clone, Copy, Debug, PartialEq, Eq, Structural)]
pub enum ReleaseCause {
    Timeout,
    ClientFin,
    ServerFin,
    ClientRst,
    ServerRst,
    ProxyAbort,
    MaxLifetime,
}

/// The fields of a TCP/IPv4 segment that the proxy reads and rewrites.
#[derive(Clone, Copy, Debug, PartialEq, Eq, Structural)]
pub struct TcpHeader {
    pub src_ip: u32,
    pub src_port: u16,
    pub dst_ip: u32,
    pub dst_port: u16,
    pub seq: u32,
    pub ack: u32,
    pub flags: u8,
}

/// Client four-tuple: client IP and port, proxy IP and listen port.
#[derive(Clone, Copy, Debug, PartialEq, Eq, Structural)]
pub struct ClientTuple {
    pub client_ip: u32,
    pub client_port: u16,
    pub proxy_ip: u32,
    pub proxy_port: u16,
}

/// The backend a connection was spliced to.
#[derive(Clone, Copy, Debug, PartialEq, Eq, Structural)]
pub struct ServerId {
    /// index into the configured backend table
    pub index: usize,
    pub ip: u32,
    pub port: u16,
}

pub open spec fn mod32(x: int) -> u32 {
    (x % 0x1_0000_0000) as u32
}

/// `a + b` modulo 2^32.
pub open spec fn seq_add(a: u32, b: u32) -> u32 {
    mod32(a + b)
}

/// `a - b` modulo 2^32.
pub open spec fn seq_sub(a: u32, b: u32) -> u32 {
    mod32(a - b)
}

pub fn add32(a: u32, b: u32) -> (r: u32)
    ensures
        r == seq_add(a, b),
{
    a.wrapping_add(b)
}

pub fn sub32(a: u32, b: u32) -> (r: u32)
    ensures
        r == seq_sub(a, b),
{
    a.wrapping_sub(b)
}

/// The proxy's initial sequence number: a random value mixed with the low
/// bits of the cycle count.
pub fn isn_from(random: u32, now: u64) -> (r: u32)
    ensures
        r == random ^ (now as u32),
{
    random ^ (now as u32)
}

pub open spec fn has_flag(flags: u8, f: u8) -> bool {
    flags & f == f
}

pub open spec fn tuple_key(t: ClientTuple) -> u128 {
    (t.client_ip as u128) << 64u128 | (t.client_port as u128) << 48u128 | (t.proxy_ip as u128)
        << 16u128 | t.proxy_port as u128
}

/// The client four-tuple of a segment sent by the client.
pub open spec fn tuple_of(seg: TcpHeader) -> ClientTuple {
    ClientTuple {
        client_ip: seg.src_ip,
        client_port: seg.src_port,
        proxy_ip: seg.dst_ip,
        proxy_port: seg.dst_port,
    }
}

impl ClientTuple {
    /// The client four-tuple of a segment sent by the client.
    pub fn of_segment(seg: &TcpHeader) -> (r: ClientTuple)
        ensures
            r == tuple_of(*seg),
    {
        ClientTuple {
            client_ip: seg.src_ip,
            client_port: seg.src_port,
            proxy_ip: seg.dst_ip,
            proxy_port: seg.dst_port,
        }
    }

    /// The tuple packed into one integer, used as a hash key.
    pub fn key(&self) -> (r: u128)
        ensures
            r == tuple_key(*self),
    {
        (self.client_ip as u128) << 64u128 | (self.client_port as u128) << 48u128
            | (self.proxy_ip as u128) << 16u128 | self.proxy_port as u128
    }
}

/// Distinct tuples have distinct keys.
pub proof fn lemma_tuple_key_injective(a: ClientTuple, b: ClientTuple)
    ensures
        tuple_key(a) == tuple_key(b) ==> a == b,
{
    let (a1, a2, a3, a4) = (a.client_ip, a.client_port, a.proxy_ip, a.proxy_port);
    let (b1, b2, b3, b4) = (b.client_ip, b.client_port, b.proxy_ip, b.proxy_port);
    assert(((a1 as u128) << 64u128 | (a2 as u128) << 48u128 | (a3 as u128) << 16u128
        | a4 as u128) == ((b1 as u128) << 64u128 | (b2 as u128) << 48u128 | (b3 as u128)
        << 16u128 | b4 as u128) ==> a1 == b1 && a2 == b2 && a3 == b3 && a4 == b4) by (bit_vector);
}

} // verus!
