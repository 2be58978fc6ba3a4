//! The per-connection control block and the half-proxy transitions that
//! splice a client connection to a backend connection.
use vstd::prelude::*;
use crate::tcp::{
    add32, has_flag, mod32, seq_add, seq_sub, sub32, ClientTuple, ReleaseCause, ServerId,
    TcpHeader, TcpState, TCP_ACK, TCP_PSH, TCP_RST, TCP_SYN,
};

verus! {

/// Cycle counts at which the handshakes progressed, zero until then: client
/// SYN received, client ACK received, SYN sent to the server, ACK sent to the
/// server. They give the setup latency and hold time of a connection.
#[derive(Clone, Copy, Debug, PartialEq, Eq, Structural)]
pub struct Stamps {
    pub syn_received: u64,
    pub ack_received: u64,
    pub syn_sent: u64,
    pub ack_sent: u64,
}

/// The control block of one proxied connection: the client side, the server
/// side, the sequence offsets between them, and what the connection holds
/// while it waits for its backend.
pub struct ProxyConnection {
    pub client: ClientTuple,
    pub server: Option<ServerId>,
    /// proxy-side ephemeral port toward the server
    pub proxy_port: u16,
    pub c_state: TcpState,
    pub s_state: TcpState,
    /// initial sequence number of the client
    pub client_iss: u32,
    /// initial sequence number the proxy announced to the client
    pub proxy_iss_c: u32,
    /// initial sequence number the proxy announced to the server
    pub proxy_iss_s: u32,
    /// initial sequence number of the server
    pub server_iss: u32,
    /// the sequence number the server last acknowledged, in its own
    /// numbering of the proxy's stream
    pub server_expects: u32,
    pub delta_c2s: u32,
    pub delta_s2c: u32,
    /// client payload held until the server handshake completes
    pub payload: Vec<u8>,
    /// cycle count at which an idle connection expires
    pub deadline: u64,
    pub wheel_slot: u64,
    pub release_cause: Option<ReleaseCause>,
    pub stamps: Stamps,
}

/// The SYN-ACK answering a client SYN: from the proxy's listen endpoint, with
/// the proxy's initial sequence number, acknowledging the client's.
pub open spec fn syn_ack_of(c: ProxyConnection) -> TcpHeader {
    TcpHeader {
        src_ip: c.client.proxy_ip,
        src_port: c.client.proxy_port,
        dst_ip: c.client.client_ip,
        dst_port: c.client.client_port,
        seq: c.proxy_iss_c,
        ack: seq_add(c.client_iss, 1),
        flags: TCP_SYN | TCP_ACK,
    }
}

/// The record after a client SYN carrying `syn`, with `isn` as the candidate
/// initial sequence number of the proxy: a listening record takes the client's
/// tuple and sequence number and moves to SynReceived; any other is unchanged.
pub open spec fn after_client_syn(c: ProxyConnection, syn: TcpHeader, isn: u32) -> ProxyConnection {
    if c.c_state == TcpState::Listen {
        ProxyConnection {
            client: ClientTuple {
                client_ip: syn.src_ip,
                client_port: syn.src_port,
                proxy_ip: syn.dst_ip,
                proxy_port: syn.dst_port,
            },
            client_iss: syn.seq,
            proxy_iss_c: isn,
            c_state: TcpState::SynReceived,
            ..c
        }
    } else {
        c
    }
}

/// The answer to a client SYN: a SYN-ACK while the handshake is open, else none.
pub open spec fn client_syn_reply(c: ProxyConnection, syn: TcpHeader, isn: u32) -> Option<
    TcpHeader,
> {
    let n = after_client_syn(c, syn, isn);
    if n.c_state == TcpState::SynReceived {
        Some(syn_ack_of(n))
    } else {
        None
    }
}

/// A segment sent by the client, as the server must see it.
pub open spec fn c2s_of(c: ProxyConnection, h: TcpHeader) -> TcpHeader {
    TcpHeader {
        src_ip: c.client.proxy_ip,
        src_port: c.proxy_port,
        dst_ip: match c.server {
            Some(s) => s.ip,
            None => h.dst_ip,
        },
        dst_port: match c.server {
            Some(s) => s.port,
            None => h.dst_port,
        },
        seq: seq_add(h.seq, c.delta_c2s),
        ack: seq_sub(h.ack, c.delta_s2c),
        flags: h.flags,
    }
}

/// A segment sent by the server, as the client must see it.
pub open spec fn s2c_of(c: ProxyConnection, h: TcpHeader) -> TcpHeader {
    TcpHeader {
        src_ip: c.client.proxy_ip,
        src_port: c.client.proxy_port,
        dst_ip: c.client.client_ip,
        dst_port: c.client.client_port,
        seq: seq_add(h.seq, c.delta_s2c),
        ack: seq_sub(h.ack, c.delta_c2s),
        flags: h.flags,
    }
}

/// Most client payload bytes held while the server handshake is open.
pub const MAX_BUFFERED: usize = 16384;

/// The record after a client segment `seg` with payload `data` on the client
/// path: the ACK completing the handshake establishes the client side; every
/// other segment leaves the state as it is.
pub open spec fn after_client_ack(c: ProxyConnection, seg: TcpHeader, data: Seq<u8>) -> ProxyConnection {
    if c.c_state == TcpState::SynReceived && has_flag(seg.flags, TCP_ACK) && seg.ack == seq_add(
        c.proxy_iss_c,
        1,
    ) {
        ProxyConnection { c_state: TcpState::Established, ..c }
    } else {
        c
    }
}

/// Whether `after_client_ack` completed the client handshake.
pub open spec fn completes_client_handshake(c: ProxyConnection, seg: TcpHeader, data: Seq<u8>) -> bool {
    c.c_state == TcpState::SynReceived && after_client_ack(c, seg, data).c_state
        == TcpState::Established
}

/// Whether client payload `data` is held in the buffer: on the ACK that
/// completes the handshake, or while the server side is not yet established,
/// as long as the buffer stays within `MAX_BUFFERED`.
pub open spec fn buffers_payload(c: ProxyConnection, seg: TcpHeader, data: Seq<u8>) -> bool {
    &&& (completes_client_handshake(c, seg, data) || (c.c_state == TcpState::Established && (
    c.s_state == TcpState::Listen || c.s_state == TcpState::SynSent)))
    &&& c.payload@.len() + data.len() <= MAX_BUFFERED
}

/// The SYN toward the backend `server` with the proxy's sequence number `isn`.
pub open spec fn server_syn_of(c: ProxyConnection, server: ServerId, isn: u32) -> TcpHeader {
    TcpHeader {
        src_ip: c.client.proxy_ip,
        src_port: c.proxy_port,
        dst_ip: server.ip,
        dst_port: server.port,
        seq: isn,
        ack: 0,
        flags: TCP_SYN,
    }
}

/// The ACK completing the server handshake.
pub open spec fn server_ack_of(c: ProxyConnection) -> TcpHeader {
    TcpHeader {
        src_ip: c.client.proxy_ip,
        src_port: c.proxy_port,
        dst_ip: match c.server {
            Some(s) => s.ip,
            None => 0,
        },
        dst_port: match c.server {
            Some(s) => s.port,
            None => 0,
        },
        seq: seq_add(c.proxy_iss_s, 1),
        ack: seq_add(c.server_iss, 1),
        flags: TCP_ACK,
    }
}

/// The client segment that carried the first buffered byte, as the client sent it.
pub open spec fn first_data_of(c: ProxyConnection) -> TcpHeader {
    TcpHeader {
        src_ip: c.client.client_ip,
        src_port: c.client.client_port,
        dst_ip: c.client.proxy_ip,
        dst_port: c.client.proxy_port,
        seq: seq_add(c.client_iss, 1),
        ack: seq_add(c.proxy_iss_c, 1),
        flags: TCP_ACK | TCP_PSH,
    }
}

/// The sequence offsets are the ones the two handshakes call for: the server
/// sees the client's stream renumbered from the proxy's server-side sequence
/// number, and the client sees the server's from the proxy's client-side one.
pub open spec fn deltas_match(c: ProxyConnection) -> bool {
    &&& c.delta_c2s == seq_sub(c.proxy_iss_s, c.client_iss)
    &&& c.delta_s2c == seq_sub(c.proxy_iss_c, c.server_iss)
}

/// What a client segment on the client path does to the record: the state
/// as `after_client_ack` says, the payload buffered as `buffers_payload`
/// says, everything else unchanged.
pub open spec fn client_ack_post(c: ProxyConnection, n: ProxyConnection, seg: TcpHeader, data: Seq<u8>) -> bool {
    &&& n.c_state == after_client_ack(c, seg, data).c_state
    &&& n.payload@ == (if buffers_payload(c, seg, data) {
        c.payload@ + data
    } else {
        c.payload@
    })
    &&& n == ProxyConnection { c_state: n.c_state, payload: n.payload, ..c }
}

pub open spec fn can_open_server(c: ProxyConnection) -> bool {
    c.c_state == TcpState::Established && c.s_state == TcpState::Listen
}

/// The record after opening the server side toward `server` with the proxy's
/// server-side sequence number `isn`.
pub open spec fn after_open_server(c: ProxyConnection, server: ServerId, isn: u32) -> ProxyConnection {
    if can_open_server(c) {
        ProxyConnection {
            server: Some(server),
            proxy_iss_s: isn,
            delta_c2s: seq_sub(isn, c.client_iss),
            s_state: TcpState::SynSent,
            ..c
        }
    } else {
        c
    }
}

pub open spec fn open_server_reply(c: ProxyConnection, server: ServerId, isn: u32) -> Option<TcpHeader> {
    if can_open_server(c) {
        Some(server_syn_of(c, server, isn))
    } else {
        None
    }
}

/// Whether `seg` is the server's SYN-ACK to the proxy's SYN.
pub open spec fn answers_server_syn(c: ProxyConnection, seg: TcpHeader) -> bool {
    c.s_state == TcpState::SynSent && has_flag(seg.flags, TCP_SYN) && has_flag(seg.flags, TCP_ACK)
        && seg.ack == seq_add(c.proxy_iss_s, 1)
}

/// The record after the server's SYN-ACK: the server's sequence number is
/// stored, the server-to-client offset derived, the server side established.
pub open spec fn after_server_syn_ack(c: ProxyConnection, seg: TcpHeader) -> ProxyConnection {
    if answers_server_syn(c, seg) {
        ProxyConnection {
            server_iss: seg.seq,
            server_expects: seg.ack,
            delta_s2c: seq_sub(c.proxy_iss_c, seg.seq),
            s_state: TcpState::Established,
            ..c
        }
    } else {
        c
    }
}

pub open spec fn server_syn_ack_reply(c: ProxyConnection, seg: TcpHeader) -> Option<TcpHeader> {
    if answers_server_syn(c, seg) {
        Some(server_ack_of(after_server_syn_ack(c, seg)))
    } else {
        None
    }
}

/// The record after a client FIN: an established client side moves to
/// CloseWait.
pub open spec fn after_client_fin(c: ProxyConnection) -> ProxyConnection {
    if c.c_state == TcpState::Established {
        ProxyConnection { c_state: TcpState::CloseWait, ..c }
    } else {
        c
    }
}

/// The record after a server FIN: an established server side moves to
/// CloseWait.
pub open spec fn after_server_fin(c: ProxyConnection) -> ProxyConnection {
    if c.s_state == TcpState::Established {
        ProxyConnection { s_state: TcpState::CloseWait, ..c }
    } else {
        c
    }
}

/// A FIN from one side is forwarded, translated, when that side was
/// established and the other side is established or closing.
pub open spec fn forwards_client_fin(c: ProxyConnection) -> bool {
    c.c_state == TcpState::Established && (c.s_state == TcpState::Established || c.s_state
        == TcpState::CloseWait)
}

pub open spec fn forwards_server_fin(c: ProxyConnection) -> bool {
    c.s_state == TcpState::Established && (c.c_state == TcpState::Established || c.c_state
        == TcpState::CloseWait)
}

/// Once both sides have sent their FIN the record is released, with the cause
/// naming the side that closed first.
pub open spec fn fin_cause_after_client_fin(c: ProxyConnection) -> Option<ReleaseCause> {
    if c.c_state == TcpState::Established && c.s_state == TcpState::CloseWait {
        Some(ReleaseCause::ServerFin)
    } else {
        None
    }
}

pub open spec fn fin_cause_after_server_fin(c: ProxyConnection) -> Option<ReleaseCause> {
    if c.s_state == TcpState::Established && c.c_state == TcpState::CloseWait {
        Some(ReleaseCause::ClientFin)
    } else {
        None
    }
}

/// The cause under which a server RST releases a connection: an abort while
/// the proxy's own SYN is unanswered, else a server reset.
pub open spec fn server_rst_cause(c: ProxyConnection) -> ReleaseCause {
    if c.s_state == TcpState::SynSent {
        ReleaseCause::ProxyAbort
    } else {
        ReleaseCause::ServerRst
    }
}

/// The RST sent to the client when the proxy gives a connection up: from the
/// listen endpoint, at the sequence number following the proxy's SYN-ACK.
pub open spec fn client_reset_of(c: ProxyConnection) -> TcpHeader {
    TcpHeader {
        src_ip: c.client.proxy_ip,
        src_port: c.client.proxy_port,
        dst_ip: c.client.client_ip,
        dst_port: c.client.client_port,
        seq: seq_add(c.proxy_iss_c, 1),
        ack: 0,
        flags: TCP_RST,
    }
}

/// The cause under which an expired deadline releases a connection: an
/// abort while the proxy's own SYN is unanswered, else a timeout.
pub open spec fn timeout_cause(c: ProxyConnection) -> ReleaseCause {
    if c.s_state == TcpState::SynSent {
        ReleaseCause::ProxyAbort
    } else {
        ReleaseCause::Timeout
    }
}

/// The RST sent to the server when the proxy gives a connection up: at the
/// sequence number following its SYN while that is unanswered, else at the
/// one the server last acknowledged.
pub open spec fn server_reset_of(c: ProxyConnection) -> TcpHeader {
    TcpHeader {
        src_ip: c.client.proxy_ip,
        src_port: c.proxy_port,
        dst_ip: match c.server {
            Some(s) => s.ip,
            None => 0,
        },
        dst_port: match c.server {
            Some(s) => s.port,
            None => 0,
        },
        seq: if c.s_state == TcpState::SynSent {
            seq_add(c.proxy_iss_s, 1)
        } else {
            c.server_expects
        },
        ack: 0,
        flags: TCP_RST,
    }
}

/// The RST answering a segment that belongs to no connection: addressed back
/// to its sender, at the acknowledged sequence number when the segment carries
/// an ACK, else acknowledging the segment's sequence number.
pub open spec fn reset_reply_of(seg: TcpHeader) -> TcpHeader {
    if has_flag(seg.flags, TCP_ACK) {
        TcpHeader {
            src_ip: seg.dst_ip,
            src_port: seg.dst_port,
            dst_ip: seg.src_ip,
            dst_port: seg.src_port,
            seq: seg.ack,
            ack: 0,
            flags: TCP_RST,
        }
    } else {
        TcpHeader {
            src_ip: seg.dst_ip,
            src_port: seg.dst_port,
            dst_ip: seg.src_ip,
            dst_port: seg.src_port,
            seq: 0,
            ack: seq_add(seg.seq, 1),
            flags: TCP_RST | TCP_ACK,
        }
    }
}

fn append_bytes(buf: &mut Vec<u8>, data: &[u8])
    ensures
        final(buf)@ == old(buf)@ + data@,
{
    let ghost before = buf@;
    let mut i: usize = 0;
    while i < data.len()
        invariant
            i <= data@.len(),
            buf@ == before + data@.subrange(0, i as int),
        decreases data@.len() - i,
    {
        buf.push(data[i]);
        i = i + 1;
        assert(buf@ =~= before + data@.subrange(0, i as int));
    }
    assert(data@.subrange(0, data@.len() as int) =~= data@);
}

impl ProxyConnection {
    /// A fresh record in Listen on both sides, owning the ephemeral port
    /// `proxy_port`.
    pub fn new(proxy_port: u16) -> (c: ProxyConnection)
        ensures
            c.proxy_port == proxy_port,
            c.c_state == TcpState::Listen,
            c.s_state == TcpState::Listen,
            c.server.is_none(),
            c.payload@.len() == 0,
            c.release_cause.is_none(),
            c.delta_c2s == 0,
            c.delta_s2c == 0,
    {
        ProxyConnection {
            client: ClientTuple { client_ip: 0, client_port: 0, proxy_ip: 0, proxy_port: 0 },
            server: None,
            proxy_port,
            c_state: TcpState::Listen,
            s_state: TcpState::Listen,
            client_iss: 0,
            proxy_iss_c: 0,
            proxy_iss_s: 0,
            server_iss: 0,
            server_expects: 0,
            delta_c2s: 0,
            delta_s2c: 0,
            payload: Vec::new(),
            deadline: 0,
            wheel_slot: 0,
            release_cause: None,
            stamps: Stamps { syn_received: 0, ack_received: 0, syn_sent: 0, ack_sent: 0 },
        }
    }

    /// The SYN-ACK for the client, built from the stored sequence numbers.
    pub fn syn_ack(&self) -> (h: TcpHeader)
        ensures
            h == syn_ack_of(*self),
    {
        TcpHeader {
            src_ip: self.client.proxy_ip,
            src_port: self.client.proxy_port,
            dst_ip: self.client.client_ip,
            dst_port: self.client.client_port,
            seq: self.proxy_iss_c,
            ack: add32(self.client_iss, 1),
            flags: TCP_SYN | TCP_ACK,
        }
    }

    /// Handles a client SYN. In Listen the record takes the client's tuple and
    /// initial sequence number and `isn` becomes the proxy's; a retransmitted
    /// SYN in SynReceived is answered with the same SYN-ACK and changes
    /// nothing. In other states the SYN is dropped.
    pub fn on_client_syn(&mut self, syn: &TcpHeader, isn: u32) -> (r: Option<TcpHeader>)
        ensures
            *final(self) == after_client_syn(*old(self), *syn, isn),
            r == client_syn_reply(*old(self), *syn, isn),
    {
        match self.c_state {
            TcpState::Listen => {
                self.client = ClientTuple {
                    client_ip: syn.src_ip,
                    client_port: syn.src_port,
                    proxy_ip: syn.dst_ip,
                    proxy_port: syn.dst_port,
                };
                self.client_iss = syn.seq;
                self.proxy_iss_c = isn;
                self.c_state = TcpState::SynReceived;
                Some(self.syn_ack())
            },
            TcpState::SynReceived => Some(self.syn_ack()),
            _ => None,
        }
    }

    /// Handles a client segment with payload `data` on the client path: the
    /// ACK of the SYN-ACK establishes the client side, and payload is buffered
    /// until the server side is established. Returns whether the client
    /// handshake completed, upon which the caller opens the server side.
    pub fn on_client_ack(&mut self, seg: &TcpHeader, data: &[u8]) -> (r: bool)
        ensures
            r == completes_client_handshake(*old(self), *seg, data@),
            client_ack_post(*old(self), *final(self), *seg, data@),
    {
        let completes = self.c_state == TcpState::SynReceived && seg.flags & TCP_ACK == TCP_ACK
            && seg.ack == add32(self.proxy_iss_c, 1);
        let awaiting_server = self.c_state == TcpState::Established && (self.s_state
            == TcpState::Listen || self.s_state == TcpState::SynSent);
        let fits = self.payload.len() <= MAX_BUFFERED && data.len() <= MAX_BUFFERED
            - self.payload.len();
        if completes {
            self.c_state = TcpState::Established;
        }
        if (completes || awaiting_server) && fits {
            append_bytes(&mut self.payload, data);
        }
        completes
    }

    /// Opens the server side toward `server` once the client side is
    /// established: the proxy's server-side sequence number is `isn`, and the
    /// client-to-server offset follows from it. Returns the SYN to send, or
    /// none in any other state.
    pub fn open_server(&mut self, server: ServerId, isn: u32) -> (r: Option<TcpHeader>)
        ensures
            *final(self) == after_open_server(*old(self), server, isn),
            r == open_server_reply(*old(self), server, isn),
    {
        if self.c_state == TcpState::Established && self.s_state == TcpState::Listen {
            let h = TcpHeader {
                src_ip: self.client.proxy_ip,
                src_port: self.proxy_port,
                dst_ip: server.ip,
                dst_port: server.port,
                seq: isn,
                ack: 0,
                flags: TCP_SYN,
            };
            self.server = Some(server);
            self.proxy_iss_s = isn;
            self.delta_c2s = sub32(isn, self.client_iss);
            self.s_state = TcpState::SynSent;
            Some(h)
        } else {
            None
        }
    }

    /// Handles the server's SYN-ACK: records the server's sequence number,
    /// derives the server-to-client offset and establishes the server side.
    /// Returns the ACK to send to the server, or none if the segment does not
    /// answer the proxy's SYN.
    pub fn on_server_syn_ack(&mut self, seg: &TcpHeader) -> (r: Option<TcpHeader>)
        ensures
            *final(self) == after_server_syn_ack(*old(self), *seg),
            r == server_syn_ack_reply(*old(self), *seg),
    {
        if self.s_state == TcpState::SynSent && seg.flags & TCP_SYN == TCP_SYN && seg.flags
            & TCP_ACK == TCP_ACK && seg.ack == add32(self.proxy_iss_s, 1) {
            self.server_iss = seg.seq;
            self.server_expects = seg.ack;
            self.delta_s2c = sub32(self.proxy_iss_c, seg.seq);
            self.s_state = TcpState::Established;
            let (dst_ip, dst_port) = match self.server {
                Some(s) => (s.ip, s.port),
                None => (0, 0),
            };
            Some(
                TcpHeader {
                    src_ip: self.client.proxy_ip,
                    src_port: self.proxy_port,
                    dst_ip,
                    dst_port,
                    seq: add32(self.proxy_iss_s, 1),
                    ack: add32(self.server_iss, 1),
                    flags: TCP_ACK,
                },
            )
        } else {
            None
        }
    }

    /// The header under which the buffered payload goes to the server once
    /// both sides are established: the client's first data segment,
    /// translated.
    pub fn buffered_segment(&self) -> (r: TcpHeader)
        ensures
            r == c2s_of(*self, first_data_of(*self)),
    {
        let first = TcpHeader {
            src_ip: self.client.client_ip,
            src_port: self.client.client_port,
            dst_ip: self.client.proxy_ip,
            dst_port: self.client.proxy_port,
            seq: add32(self.client_iss, 1),
            ack: add32(self.proxy_iss_c, 1),
            flags: TCP_ACK | TCP_PSH,
        };
        self.translate_c2s(&first)
    }

    /// Handles a client FIN: an established client side moves to CloseWait
    /// and the FIN goes on to the server translated. Returns that FIN, and the
    /// release cause once both sides have sent theirs.
    pub fn on_client_fin(&mut self, seg: &TcpHeader) -> (r: (Option<TcpHeader>, Option<ReleaseCause>))
        ensures
            *final(self) == after_client_fin(*old(self)),
            r.0 == (if forwards_client_fin(*old(self)) {
                Some(c2s_of(*old(self), *seg))
            } else {
                None::<TcpHeader>
            }),
            r.1 == fin_cause_after_client_fin(*old(self)),
    {
        let forward = self.c_state == TcpState::Established && (self.s_state
            == TcpState::Established || self.s_state == TcpState::CloseWait);
        let cause = if self.c_state == TcpState::Established && self.s_state == TcpState::CloseWait {
            Some(ReleaseCause::ServerFin)
        } else {
            None
        };
        let fin = if forward {
            Some(self.translate_c2s(seg))
        } else {
            None
        };
        if self.c_state == TcpState::Established {
            self.c_state = TcpState::CloseWait;
        }
        (fin, cause)
    }

    /// Handles a server FIN, symmetrically to `on_client_fin`.
    pub fn on_server_fin(&mut self, seg: &TcpHeader) -> (r: (Option<TcpHeader>, Option<ReleaseCause>))
        ensures
            *final(self) == after_server_fin(*old(self)),
            r.0 == (if forwards_server_fin(*old(self)) {
                Some(s2c_of(*old(self), *seg))
            } else {
                None::<TcpHeader>
            }),
            r.1 == fin_cause_after_server_fin(*old(self)),
    {
        let forward = self.s_state == TcpState::Established && (self.c_state
            == TcpState::Established || self.c_state == TcpState::CloseWait);
        let cause = if self.s_state == TcpState::Established && self.c_state == TcpState::CloseWait {
            Some(ReleaseCause::ClientFin)
        } else {
            None
        };
        let fin = if forward {
            Some(self.translate_s2c(seg))
        } else {
            None
        };
        if self.s_state == TcpState::Established {
            self.s_state = TcpState::CloseWait;
        }
        (fin, cause)
    }

    /// The cause under which a server RST releases this connection.
    pub fn server_rst_cause(&self) -> (r: ReleaseCause)
        ensures
            r == server_rst_cause(*self),
    {
        if self.s_state == TcpState::SynSent {
            ReleaseCause::ProxyAbort
        } else {
            ReleaseCause::ServerRst
        }
    }

    /// The cause under which an expired deadline releases this connection.
    pub fn timeout_cause(&self) -> (r: ReleaseCause)
        ensures
            r == timeout_cause(*self),
    {
        if self.s_state == TcpState::SynSent {
            ReleaseCause::ProxyAbort
        } else {
            ReleaseCause::Timeout
        }
    }

    /// The RST for the server when the proxy gives this connection up.
    pub fn server_reset(&self) -> (r: TcpHeader)
        ensures
            r == server_reset_of(*self),
    {
        let (dst_ip, dst_port) = match self.server {
            Some(s) => (s.ip, s.port),
            None => (0, 0),
        };
        TcpHeader {
            src_ip: self.client.proxy_ip,
            src_port: self.proxy_port,
            dst_ip,
            dst_port,
            seq: if self.s_state == TcpState::SynSent {
                add32(self.proxy_iss_s, 1)
            } else {
                self.server_expects
            },
            ack: 0,
            flags: TCP_RST,
        }
    }

    /// The RST for the client when the proxy gives this connection up.
    pub fn client_reset(&self) -> (r: TcpHeader)
        ensures
            r == client_reset_of(*self),
    {
        TcpHeader {
            src_ip: self.client.proxy_ip,
            src_port: self.client.proxy_port,
            dst_ip: self.client.client_ip,
            dst_port: self.client.client_port,
            seq: add32(self.proxy_iss_c, 1),
            ack: 0,
            flags: TCP_RST,
        }
    }

    /// Rewrites a client segment for the server link: four-tuple toward the
    /// backend, `seq + delta_c2s`, `ack - delta_s2c`.
    pub fn translate_c2s(&self, h: &TcpHeader) -> (r: TcpHeader)
        ensures
            r == c2s_of(*self, *h),
    {
        let (dst_ip, dst_port) = match self.server {
            Some(s) => (s.ip, s.port),
            None => (h.dst_ip, h.dst_port),
        };
        TcpHeader {
            src_ip: self.client.proxy_ip,
            src_port: self.proxy_port,
            dst_ip,
            dst_port,
            seq: add32(h.seq, self.delta_c2s),
            ack: sub32(h.ack, self.delta_s2c),
            flags: h.flags,
        }
    }

    /// Rewrites a server segment for the client link: four-tuple toward the
    /// client, `seq + delta_s2c`, `ack - delta_c2s`.
    pub fn translate_s2c(&self, h: &TcpHeader) -> (r: TcpHeader)
        ensures
            r == s2c_of(*self, *h),
    {
        TcpHeader {
            src_ip: self.client.proxy_ip,
            src_port: self.client.proxy_port,
            dst_ip: self.client.client_ip,
            dst_port: self.client.client_port,
            seq: add32(h.seq, self.delta_s2c),
            ack: sub32(h.ack, self.delta_c2s),
            flags: h.flags,
        }
    }
}


/// The RST answering `seg` when it belongs to no connection.
pub fn reset_reply(seg: &TcpHeader) -> (r: TcpHeader)
    ensures
        r == reset_reply_of(*seg),
{
    if seg.flags & TCP_ACK == TCP_ACK {
        TcpHeader {
            src_ip: seg.dst_ip,
            src_port: seg.dst_port,
            dst_ip: seg.src_ip,
            dst_port: seg.src_port,
            seq: seg.ack,
            ack: 0,
            flags: TCP_RST,
        }
    } else {
        TcpHeader {
            src_ip: seg.dst_ip,
            src_port: seg.dst_port,
            dst_ip: seg.src_ip,
            dst_port: seg.src_port,
            seq: 0,
            ack: add32(seg.seq, 1),
            flags: TCP_RST | TCP_ACK,
        }
    }
}

/// A retransmitted client SYN before the handshake completes is answered with
/// the identical SYN-ACK (same proxy sequence number), whatever new candidate
/// sequence number is offered, and leaves the record as it was.
pub proof fn lemma_syn_retransmission_idempotent(
    c: ProxyConnection,
    syn: TcpHeader,
    isn1: u32,
    isn2: u32,
)
    requires
        c.c_state == TcpState::Listen,
    ensures
        ({
            let c1 = after_client_syn(c, syn, isn1);
            &&& client_syn_reply(c, syn, isn1) is Some
            &&& client_syn_reply(c1, syn, isn2) == client_syn_reply(c, syn, isn1)
            &&& after_client_syn(c1, syn, isn2) == c1
        }),
{
}


proof fn lemma_mod32_noop(x: int, y: int)
    ensures
        mod32((x % 0x1_0000_0000) + y) == mod32(x + y),
        mod32(x - (y % 0x1_0000_0000)) == mod32(x - y),
        mod32(x + (y % 0x1_0000_0000)) == mod32(x + y),
{
    let m: int = 0x1_0000_0000;
    vstd::arithmetic::div_mod::lemma_add_mod_noop_right(y, x, m);
    vstd::arithmetic::div_mod::lemma_add_mod_noop_right(x, y, m);
    vstd::arithmetic::div_mod::lemma_sub_mod_noop_right(x, y, m);
    assert(x % m + y == y + x % m);
}

proof fn lemma_offset_kept(q: u32, p: u32, c: u32)
    ensures
        seq_sub(seq_add(q, seq_sub(p, c)), seq_add(p, 1)) == seq_sub(q, seq_add(c, 1)),
{
    let m: int = 0x1_0000_0000;
    let (qi, pi, ci) = (q as int, p as int, c as int);
    let a = seq_sub(p, c);
    assert(a as int == (pi - ci) % m);
    let b = seq_add(q, a);
    lemma_mod32_noop(qi, pi - ci);
    assert(b == mod32(qi + pi - ci));
    assert(b as int == (qi + pi - ci) % m);
    let cc = seq_add(p, 1);
    assert(cc as int == (pi + 1) % m);
    lemma_mod32_noop(qi + pi - ci, -(cc as int));
    assert(seq_sub(b, cc) == mod32(qi + pi - ci - cc));
    lemma_mod32_noop(qi + pi - ci, pi + 1);
    assert(seq_sub(b, cc) == mod32(qi - ci - 1));
    let d = seq_add(c, 1);
    lemma_mod32_noop(qi, ci + 1);
    assert(seq_sub(q, d) == mod32(qi - (ci + 1)));
}

proof fn lemma_offset_undone(q: u32, p: u32, c: u32)
    ensures
        seq_sub(seq_add(q, seq_sub(p, c)), seq_sub(p, c)) == q,
{
    let m: int = 0x1_0000_0000;
    let (qi, pi, ci) = (q as int, p as int, c as int);
    let a = seq_sub(p, c);
    assert(a as int == (pi - ci) % m);
    let b = seq_add(q, a);
    lemma_mod32_noop(qi, pi - ci);
    assert(b == mod32(qi + (pi - ci)));
    assert(b as int == (qi + (pi - ci)) % m);
    lemma_mod32_noop(qi + (pi - ci), -(a as int));
    assert(seq_sub(b, a) == mod32(qi + (pi - ci) - a));
    lemma_mod32_noop(qi + (pi - ci), pi - ci);
    assert(seq_sub(b, a) == mod32(qi));
    vstd::arithmetic::div_mod::lemma_small_mod(q as nat, m as nat);
}

/// Sequence translation is an identity on byte streams: every client segment
/// reaches the server at the same offset from the first data byte, every
/// server segment reaches the client at the same offset, and each side's
/// acknowledgement of the other's translated stream is carried back to the
/// other's own numbering.
pub proof fn lemma_translation_preserves_offsets(c: ProxyConnection, h: TcpHeader)
    requires
        deltas_match(c),
    ensures
        seq_sub(c2s_of(c, h).seq, seq_add(c.proxy_iss_s, 1)) == seq_sub(
            h.seq,
            seq_add(c.client_iss, 1),
        ),
        seq_sub(s2c_of(c, h).seq, seq_add(c.proxy_iss_c, 1)) == seq_sub(
            h.seq,
            seq_add(c.server_iss, 1),
        ),
        c2s_of(c, TcpHeader { ack: s2c_of(c, h).seq, ..h }).ack == h.seq,
        s2c_of(c, TcpHeader { ack: c2s_of(c, h).seq, ..h }).ack == h.seq,
{
    lemma_offset_kept(h.seq, c.proxy_iss_s, c.client_iss);
    lemma_offset_kept(h.seq, c.proxy_iss_c, c.server_iss);
    lemma_offset_undone(h.seq, c.proxy_iss_c, c.server_iss);
    lemma_offset_undone(h.seq, c.proxy_iss_s, c.client_iss);
}

} // verus!
