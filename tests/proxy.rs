use delayed_proxy::classifier::{arp_reply, classify, Endpoint, PacketClass};
use delayed_proxy::cmanager::{ConnectionManager, PoolError};
use delayed_proxy::connection::{reset_reply, ProxyConnection};
use delayed_proxy::pipeline::{Output, Proxy};
use delayed_proxy::tcp::{
    ClientTuple, ReleaseCause, ServerId, TcpHeader, TcpState, TCP_ACK, TCP_FIN, TCP_PSH, TCP_RST,
    TCP_SYN,
};
use delayed_proxy::timer_wheel::MILLIS_TO_CYCLES;

const CLIENT_IP: u32 = 0x0A00_0002; // 10.0.0.2
const PROXY_IP: u32 = 0x0A00_0001; // 10.0.0.1
const SERVER_IP: u32 = 0x0A00_0105; // 10.0.1.5
const CLIENT_PORT: u16 = 54321;
const LISTEN_PORT: u16 = 3000;
const FIRST_PORT: u16 = 49152;
const NOW: u64 = 1_000_000_000_000;
const HANDSHAKE: u64 = 100 * MILLIS_TO_CYCLES;
const ESTABLISHED: u64 = 200 * MILLIS_TO_CYCLES;

const C_ISN: u32 = 1000;
const P_ISN: u32 = 0xFFFF_FFF0; // wraps during the stream
const Q_ISN: u32 = 7_000_000;
const S_ISN: u32 = 500_000;

fn proxy(capacity: usize) -> Proxy {
    Proxy::new(capacity, FIRST_PORT, 1024, MILLIS_TO_CYCLES, NOW, HANDSHAKE, ESTABLISHED, true)
}

fn from_client(port: u16, seq: u32, ack: u32, flags: u8) -> TcpHeader {
    TcpHeader {
        src_ip: CLIENT_IP,
        src_port: port,
        dst_ip: PROXY_IP,
        dst_port: LISTEN_PORT,
        seq,
        ack,
        flags,
    }
}

fn from_server(seq: u32, ack: u32, flags: u8) -> TcpHeader {
    TcpHeader {
        src_ip: SERVER_IP,
        src_port: 80,
        dst_ip: PROXY_IP,
        dst_port: FIRST_PORT,
        seq,
        ack,
        flags,
    }
}

fn t0() -> ServerId {
    ServerId { index: 0, ip: SERVER_IP, port: 80 }
}

/// Runs a client handshake with "hello" on the ACK and connects it to t0;
/// returns the handle.
fn established(p: &mut Proxy) -> usize {
    let out = p.client_segment(&from_client(CLIENT_PORT, C_ISN, 0, TCP_SYN), &[], NOW, P_ISN);
    assert_eq!(out.len(), 1);
    let out = p.client_segment(
        &from_client(CLIENT_PORT, C_ISN.wrapping_add(1), P_ISN.wrapping_add(1), TCP_ACK | TCP_PSH),
        b"hello",
        NOW,
        0,
    );
    let h = match out[..] {
        [Output::SelectServer(h)] => h,
        _ => panic!("no server selection"),
    };
    let out = p.connect(h, Some(t0()), Q_ISN, NOW);
    assert_eq!(out.len(), 1);
    let out = p.server_segment(&from_server(S_ISN, Q_ISN + 1, TCP_SYN | TCP_ACK), &[], NOW);
    assert_eq!(out.len(), 2);
    h
}

#[test]
fn happy_path() {
    let mut p = proxy(1024);
    let syn = from_client(CLIENT_PORT, C_ISN, 0, TCP_SYN);
    let out = p.client_segment(&syn, &[], NOW, P_ISN);
    assert_eq!(
        out,
        vec![Output::ToClient(TcpHeader {
            src_ip: PROXY_IP,
            src_port: LISTEN_PORT,
            dst_ip: CLIENT_IP,
            dst_port: CLIENT_PORT,
            seq: P_ISN,
            ack: C_ISN + 1,
            flags: TCP_SYN | TCP_ACK,
        })]
    );
    let ack = from_client(CLIENT_PORT, C_ISN + 1, P_ISN.wrapping_add(1), TCP_ACK | TCP_PSH);
    let out = p.client_segment(&ack, b"hello", NOW, 0);
    assert_eq!(out, vec![Output::SelectServer(0)]);
    assert_eq!(p.pool().conn(0).payload, b"hello".to_vec());

    let out = p.connect(0, Some(t0()), Q_ISN, NOW + 3);
    assert_eq!(
        out,
        vec![Output::ToServer(TcpHeader {
            src_ip: PROXY_IP,
            src_port: FIRST_PORT,
            dst_ip: SERVER_IP,
            dst_port: 80,
            seq: Q_ISN,
            ack: 0,
            flags: TCP_SYN,
        })]
    );

    let out = p.server_segment(&from_server(S_ISN, Q_ISN + 1, TCP_SYN | TCP_ACK), &[], NOW);
    let to_server = |seq: u32, ack: u32, flags: u8| TcpHeader {
        src_ip: PROXY_IP,
        src_port: FIRST_PORT,
        dst_ip: SERVER_IP,
        dst_port: 80,
        seq,
        ack,
        flags,
    };
    assert_eq!(
        out,
        vec![
            Output::ToServer(to_server(Q_ISN + 1, S_ISN + 1, TCP_ACK)),
            Output::ToServer(to_server(Q_ISN + 1, S_ISN + 1, TCP_ACK | TCP_PSH)),
        ]
    );

    // "HI!" from the server reaches the client at its ACK boundary
    let out = p.server_segment(&from_server(S_ISN + 1, Q_ISN + 6, TCP_ACK | TCP_PSH), b"HI!", NOW);
    let to_client = |seq: u32, ack: u32, flags: u8| TcpHeader {
        src_ip: PROXY_IP,
        src_port: LISTEN_PORT,
        dst_ip: CLIENT_IP,
        dst_port: CLIENT_PORT,
        seq,
        ack,
        flags,
    };
    assert_eq!(out, vec![Output::ToClient(to_client(P_ISN.wrapping_add(1), C_ISN + 6, TCP_ACK | TCP_PSH))]);

    // both sides close, the client first
    let fin = from_client(CLIENT_PORT, C_ISN + 6, P_ISN.wrapping_add(4), TCP_FIN | TCP_ACK);
    let out = p.client_segment(&fin, &[], NOW, 0);
    assert_eq!(out, vec![Output::ToServer(to_server(Q_ISN + 6, S_ISN + 4, TCP_FIN | TCP_ACK))]);
    let out = p.server_segment(&from_server(S_ISN + 4, Q_ISN + 7, TCP_FIN | TCP_ACK), &[], NOW);
    assert_eq!(out, vec![Output::ToClient(to_client(P_ISN.wrapping_add(4), C_ISN + 7, TCP_FIN | TCP_ACK))]);
    assert_eq!(p.pool().conn(0).release_cause, Some(ReleaseCause::ClientFin));
    assert!(!p.pool().is_active_handle(0));
    assert_eq!(p.pool().free_count(), 1024);
}

#[test]
fn no_backend() {
    let mut p = proxy(1024);
    p.client_segment(&from_client(CLIENT_PORT, C_ISN, 0, TCP_SYN), &[], NOW, P_ISN);
    assert_eq!(p.pool().free_count(), 1023);
    let ack = from_client(CLIENT_PORT, C_ISN + 1, P_ISN.wrapping_add(1), TCP_ACK);
    assert_eq!(p.client_segment(&ack, b"GET /", NOW, 0), vec![Output::SelectServer(0)]);
    let out = p.connect(0, None, Q_ISN, NOW);
    assert_eq!(
        out,
        vec![Output::ToClient(TcpHeader {
            src_ip: PROXY_IP,
            src_port: LISTEN_PORT,
            dst_ip: CLIENT_IP,
            dst_port: CLIENT_PORT,
            seq: P_ISN.wrapping_add(1),
            ack: 0,
            flags: TCP_RST,
        })]
    );
    assert_eq!(p.pool().conn(0).release_cause, Some(ReleaseCause::ProxyAbort));
    assert_eq!(p.pool().free_count(), 1024);
    // the ephemeral port no longer leads to a connection
    assert_eq!(p.pool().get_by_proxy_port(FIRST_PORT), None);
}

#[test]
fn pool_exhaustion() {
    let mut p = proxy(1024);
    for i in 0..1024u16 {
        let port = 10000 + i;
        let out = p.client_segment(&from_client(port, C_ISN, 0, TCP_SYN), &[], NOW, P_ISN);
        assert_eq!(out.len(), 1);
        let ack = from_client(port, C_ISN + 1, P_ISN.wrapping_add(1), TCP_ACK);
        let out = p.client_segment(&ack, b"x", NOW, 0);
        assert_eq!(out.len(), 1);
    }
    assert_eq!(p.pool().free_count(), 0);
    let syn = from_client(20000, C_ISN, 0, TCP_SYN);
    let out = p.client_segment(&syn, &[], NOW, P_ISN);
    assert_eq!(
        out,
        vec![Output::ToClient(TcpHeader {
            src_ip: PROXY_IP,
            src_port: LISTEN_PORT,
            dst_ip: CLIENT_IP,
            dst_port: 20000,
            seq: 0,
            ack: C_ISN + 1,
            flags: TCP_RST | TCP_ACK,
        })]
    );
    assert_eq!(p.pool().free_count(), 0);
    // one client resets; the next SYN succeeds
    p.client_segment(&from_client(10005, C_ISN + 2, P_ISN.wrapping_add(1), TCP_RST), &[], NOW, 0);
    assert_eq!(p.pool().free_count(), 1);
    let out = p.client_segment(&syn, &[], NOW, P_ISN);
    assert_eq!(out.len(), 1);
    assert!(matches!(out[0], Output::ToClient(h) if h.flags == TCP_SYN | TCP_ACK));
    assert_eq!(p.pool().free_count(), 0);
}

#[test]
fn handshake_timeout() {
    let mut p = proxy(16);
    p.client_segment(&from_client(CLIENT_PORT, C_ISN, 0, TCP_SYN), &[], NOW, P_ISN);
    // before the deadline nothing happens
    assert_eq!(p.tick(NOW + HANDSHAKE / 2), vec![]);
    assert!(p.pool().is_active_handle(0));
    let out = p.tick(NOW + HANDSHAKE + 2 * MILLIS_TO_CYCLES);
    assert_eq!(out.len(), 1);
    assert!(matches!(out[0], Output::ToClient(h) if h.flags == TCP_RST && h.seq == P_ISN.wrapping_add(1)));
    assert_eq!(p.pool().conn(0).release_cause, Some(ReleaseCause::Timeout));
    assert_eq!(p.pool().free_count(), 16);
    // the late ACK is answered with an RST
    let ack = from_client(CLIENT_PORT, C_ISN + 1, P_ISN.wrapping_add(1), TCP_ACK);
    let out = p.client_segment(&ack, &[], NOW + HANDSHAKE * 2, 0);
    assert_eq!(out, vec![Output::ToClient(reset_reply(&ack))]);
    assert_eq!(reset_reply(&ack).seq, P_ISN.wrapping_add(1));
}

#[test]
fn server_rst_mid_stream() {
    let mut p = proxy(16);
    let h = established(&mut p);
    let data = [7u8; 95];
    let seg = from_client(CLIENT_PORT, C_ISN + 6, P_ISN.wrapping_add(1), TCP_ACK | TCP_PSH);
    let out = p.client_segment(&seg, &data, NOW, 0);
    assert_eq!(out.len(), 1);
    // 5 + 95 = 100 bytes forwarded; the server resets at S_ISN + 101
    let out = p.server_segment(&from_server(S_ISN + 101, Q_ISN + 101, TCP_RST), &[], NOW);
    assert_eq!(out.len(), 1);
    match out[0] {
        Output::ToClient(x) => {
            assert_eq!(x.seq, P_ISN.wrapping_add(101));
            assert_eq!(x.flags, TCP_RST);
            assert_eq!(x.dst_port, CLIENT_PORT);
        }
        _ => panic!("RST not sent to the client"),
    }
    assert_eq!(p.pool().conn(h).release_cause, Some(ReleaseCause::ServerRst));
}

#[test]
fn server_rst_during_handshake_aborts() {
    let mut p = proxy(16);
    p.client_segment(&from_client(CLIENT_PORT, C_ISN, 0, TCP_SYN), &[], NOW, P_ISN);
    let ack = from_client(CLIENT_PORT, C_ISN + 1, P_ISN.wrapping_add(1), TCP_ACK);
    p.client_segment(&ack, b"a", NOW, 0);
    p.connect(0, Some(t0()), Q_ISN, NOW);
    let out = p.server_segment(&from_server(0, Q_ISN + 1, TCP_RST | TCP_ACK), &[], NOW);
    assert!(matches!(out[..], [Output::ToClient(x)] if x.flags == TCP_RST && x.seq == P_ISN.wrapping_add(1)));
    assert_eq!(p.pool().conn(0).release_cause, Some(ReleaseCause::ProxyAbort));
}

#[test]
fn unknown_server_port_gets_rst() {
    let mut p = proxy(16);
    let seg = from_server(S_ISN, 77, TCP_ACK);
    assert_eq!(p.server_segment(&seg, &[], NOW), vec![Output::ToServer(reset_reply(&seg))]);
    let rst = from_server(S_ISN, 77, TCP_RST);
    assert_eq!(p.server_segment(&rst, &[], NOW), vec![]);
}

#[test]
fn client_rst_is_passed_to_server() {
    let mut p = proxy(16);
    let h = established(&mut p);
    let rst = from_client(CLIENT_PORT, C_ISN + 6, 0, TCP_RST);
    let out = p.client_segment(&rst, &[], NOW, 0);
    assert!(matches!(out[..], [Output::ToServer(x)] if x.seq == Q_ISN + 6 && x.flags == TCP_RST));
    assert_eq!(p.pool().conn(h).release_cause, Some(ReleaseCause::ClientRst));
}

#[test]
fn retransmitted_syn_gets_identical_syn_ack() {
    let mut p = proxy(16);
    let syn = from_client(CLIENT_PORT, C_ISN, 0, TCP_SYN);
    let first = p.client_segment(&syn, &[], NOW, P_ISN);
    let second = p.client_segment(&syn, &[], NOW + 5, 12345);
    assert_eq!(first, second);
    assert_eq!(p.pool().free_count(), 15);

    let mut c = ProxyConnection::new(FIRST_PORT);
    let a = c.on_client_syn(&syn, 42);
    let b = c.on_client_syn(&syn, 43);
    assert_eq!(a, b);
    assert_eq!(c.proxy_iss_c, 42);
    assert_eq!(c.c_state, TcpState::SynReceived);
}

#[test]
fn translation_keeps_offsets() {
    let mut p = proxy(16);
    let h = established(&mut p);
    let c = p.pool().conn(h);
    assert_eq!(c.delta_c2s, Q_ISN.wrapping_sub(C_ISN));
    assert_eq!(c.delta_s2c, P_ISN.wrapping_sub(S_ISN));
    for i in [0u32, 1, 99, 0x1000_0000] {
        let from_c = from_client(CLIENT_PORT, C_ISN.wrapping_add(1).wrapping_add(i), 0, TCP_ACK);
        assert_eq!(c.translate_c2s(&from_c).seq, Q_ISN.wrapping_add(1).wrapping_add(i));
        let from_s = from_server(S_ISN.wrapping_add(1).wrapping_add(i), 0, TCP_ACK);
        let seen = c.translate_s2c(&from_s).seq;
        assert_eq!(seen, P_ISN.wrapping_add(1).wrapping_add(i));
        // the client's acknowledgement of what it saw is the server's own number
        let ack = from_client(CLIENT_PORT, 0, seen, TCP_ACK);
        assert_eq!(c.translate_c2s(&ack).ack, from_s.seq);
    }
}

#[test]
fn pool_conservation() {
    let mut m = ConnectionManager::new(4, 40000);
    let t = |port: u16| ClientTuple {
        client_ip: CLIENT_IP,
        client_port: port,
        proxy_ip: PROXY_IP,
        proxy_port: LISTEN_PORT,
    };
    assert_eq!(m.get_or_allocate_client(&t(1)), Ok((0, true)));
    assert_eq!(m.get_or_allocate_client(&t(2)), Ok((1, true)));
    assert_eq!(m.get_or_allocate_client(&t(1)), Ok((0, false)));
    assert_eq!(m.free_count(), 2);
    assert_eq!(m.get_by_client(&t(2)), Some(1));
    assert_eq!(m.get_by_proxy_port(40001), Some(1));
    assert_eq!(m.conn(1).proxy_port, 40001);
    assert_eq!(m.release(0, ReleaseCause::ClientFin), Ok(()));
    assert_eq!(m.release(0, ReleaseCause::Timeout), Err(PoolError::NotActive));
    assert_eq!(m.conn(0).release_cause, Some(ReleaseCause::ClientFin));
    assert_eq!(m.get_by_client(&t(1)), None);
    assert_eq!(m.get_by_proxy_port(40000), None);
    assert_eq!(m.free_count(), 3);
    let active = (0..4).filter(|h| m.is_active_handle(*h)).count();
    assert_eq!(m.free_count() + active, m.capacity_of());
    // the freed handle is reused first, with a fresh record
    assert_eq!(m.get_or_allocate_client(&t(3)), Ok((0, true)));
    assert_eq!(m.conn(0).release_cause, None);
    assert_eq!(m.conn(0).client, t(3));
}

#[test]
fn allocation_fails_when_exhausted() {
    let mut m = ConnectionManager::new(1, 40000);
    let t = |port: u16| ClientTuple {
        client_ip: CLIENT_IP,
        client_port: port,
        proxy_ip: PROXY_IP,
        proxy_port: LISTEN_PORT,
    };
    assert_eq!(m.get_or_allocate_client(&t(1)), Ok((0, true)));
    assert_eq!(m.get_or_allocate_client(&t(2)), Err(PoolError::Exhausted));
    assert_eq!(m.release(5, ReleaseCause::Timeout), Err(PoolError::NotActive));
}

fn endpoint() -> Endpoint {
    Endpoint {
        ip: PROXY_IP,
        mac: [0x02, 0, 0, 0, 0, 0x01],
        listen_port: LISTEN_PORT,
        first_port: FIRST_PORT,
        port_count: 1024,
    }
}

fn arp_request(target_ip: u32) -> Vec<u8> {
    let mut f = vec![0xff; 6];
    f.extend_from_slice(&[0x02, 0, 0, 0, 0, 0x99]); // requester MAC
    f.extend_from_slice(&[0x08, 0x06]);
    f.extend_from_slice(&[0, 1, 0x08, 0, 6, 4, 0, 1]);
    f.extend_from_slice(&[0x02, 0, 0, 0, 0, 0x99]);
    f.extend_from_slice(&CLIENT_IP.to_be_bytes());
    f.extend_from_slice(&[0; 6]);
    f.extend_from_slice(&target_ip.to_be_bytes());
    f
}

#[test]
fn arp_reply_for_proxy_ip() {
    let e = endpoint();
    let req = arp_request(PROXY_IP);
    assert_eq!(classify(&req, &e), PacketClass::ArpRequest);
    let r = arp_reply(&req, &e);
    let mut expected = vec![0x02, 0, 0, 0, 0, 0x99];
    expected.extend_from_slice(&e.mac);
    expected.extend_from_slice(&[0x08, 0x06, 0, 1, 0x08, 0, 6, 4, 0, 2]);
    expected.extend_from_slice(&e.mac);
    expected.extend_from_slice(&PROXY_IP.to_be_bytes());
    expected.extend_from_slice(&[0x02, 0, 0, 0, 0, 0x99]);
    expected.extend_from_slice(&CLIENT_IP.to_be_bytes());
    assert_eq!(r, expected);
    // an ARP request for another address goes to the kernel
    assert_eq!(classify(&arp_request(CLIENT_IP), &e), PacketClass::Kni);
}

fn ipv4_tcp(dst_ip: u32, proto: u8, dst_port: u16) -> Vec<u8> {
    let mut f = vec![0u8; 12];
    f.extend_from_slice(&[0x08, 0x00]);
    f.extend_from_slice(&[0x45, 0, 0, 40, 0, 0, 0, 0, 64, proto, 0, 0]);
    f.extend_from_slice(&CLIENT_IP.to_be_bytes());
    f.extend_from_slice(&dst_ip.to_be_bytes());
    f.extend_from_slice(&CLIENT_PORT.to_be_bytes());
    f.extend_from_slice(&dst_port.to_be_bytes());
    f.extend_from_slice(&[0u8; 16]);
    f
}

#[test]
fn classification_of_frames() {
    let e = endpoint();
    assert_eq!(classify(&ipv4_tcp(PROXY_IP, 6, LISTEN_PORT), &e), PacketClass::ClientSide);
    assert_eq!(classify(&ipv4_tcp(PROXY_IP, 6, FIRST_PORT + 5), &e), PacketClass::ServerSide);
    assert_eq!(classify(&ipv4_tcp(PROXY_IP, 6, FIRST_PORT + 1024), &e), PacketClass::Kni);
    assert_eq!(classify(&ipv4_tcp(PROXY_IP, 6, 22), &e), PacketClass::Kni);
    assert_eq!(classify(&ipv4_tcp(PROXY_IP, 17, LISTEN_PORT), &e), PacketClass::Kni);
    assert_eq!(classify(&ipv4_tcp(SERVER_IP, 6, LISTEN_PORT), &e), PacketClass::Kni);
    assert_eq!(classify(&[0u8; 10], &e), PacketClass::Malformed);
    assert_eq!(classify(&ipv4_tcp(PROXY_IP, 6, LISTEN_PORT)[..36], &e), PacketClass::Malformed);
    let mut ipv6 = ipv4_tcp(PROXY_IP, 6, LISTEN_PORT);
    ipv6[12] = 0x86;
    ipv6[13] = 0xdd;
    assert_eq!(classify(&ipv6, &e), PacketClass::Kni);
}

#[test]
fn server_handshake_timeout_aborts() {
    let mut p = proxy(16);
    p.client_segment(&from_client(CLIENT_PORT, C_ISN, 0, TCP_SYN), &[], NOW, P_ISN);
    let ack = from_client(CLIENT_PORT, C_ISN + 1, P_ISN.wrapping_add(1), TCP_ACK);
    p.client_segment(&ack, b"a", NOW, 0);
    let later = NOW + 10 * MILLIS_TO_CYCLES;
    p.connect(0, Some(t0()), Q_ISN, later);
    // the client deadline was re-armed by connect: nothing fires at the first one
    assert_eq!(p.tick(NOW + HANDSHAKE + 2 * MILLIS_TO_CYCLES), vec![]);
    let out = p.tick(later + HANDSHAKE + 2 * MILLIS_TO_CYCLES);
    assert_eq!(out.len(), 2);
    assert!(matches!(out[0], Output::ToClient(x) if x.flags == TCP_RST && x.seq == P_ISN.wrapping_add(1)));
    assert!(matches!(out[1], Output::ToServer(x) if x.flags == TCP_RST && x.seq == Q_ISN + 1
        && x.src_port == FIRST_PORT && x.dst_ip == SERVER_IP));
    assert_eq!(p.pool().conn(0).release_cause, Some(ReleaseCause::ProxyAbort));
}

#[test]
fn deadline_beyond_one_rotation_is_refiled() {
    // 8 slots of 1 ms, a 20 ms handshake timeout
    let mut p = Proxy::new(4, FIRST_PORT, 8, MILLIS_TO_CYCLES, NOW, 20 * MILLIS_TO_CYCLES, ESTABLISHED, true);
    p.client_segment(&from_client(CLIENT_PORT, C_ISN, 0, TCP_SYN), &[], NOW, P_ISN);
    let mut released_at = None;
    for k in 1..40u64 {
        let out = p.tick(NOW + k * MILLIS_TO_CYCLES);
        if !out.is_empty() {
            assert!(released_at.is_none());
            released_at = Some(k);
        }
    }
    assert_eq!(released_at, Some(20));
    assert_eq!(p.pool().conn(0).release_cause, Some(ReleaseCause::Timeout));
}

#[test]
fn deadline_expires_within_its_bucket() {
    // slots of 10 ms: a 15 ms deadline falls in the bucket starting at 10 ms
    let mut p = Proxy::new(4, FIRST_PORT, 16, 10 * MILLIS_TO_CYCLES, NOW, 15 * MILLIS_TO_CYCLES, ESTABLISHED, true);
    p.client_segment(&from_client(CLIENT_PORT, C_ISN, 0, TCP_SYN), &[], NOW, P_ISN);
    assert_eq!(p.tick(NOW + 9 * MILLIS_TO_CYCLES), vec![]);
    assert_eq!(p.tick(NOW + 10 * MILLIS_TO_CYCLES).len(), 1);
    assert!(!p.pool().is_active_handle(0));
}

#[test]
fn selection_waits_for_payload() {
    let mut p = proxy(4);
    p.client_segment(&from_client(CLIENT_PORT, C_ISN, 0, TCP_SYN), &[], NOW, P_ISN);
    let ack = from_client(CLIENT_PORT, C_ISN + 1, P_ISN.wrapping_add(1), TCP_ACK);
    assert_eq!(p.client_segment(&ack, &[], NOW, 0), vec![]);
    assert_eq!(p.pool().conn(0).c_state, TcpState::Established);
    let data = from_client(CLIENT_PORT, C_ISN + 1, P_ISN.wrapping_add(1), TCP_ACK | TCP_PSH);
    assert_eq!(p.client_segment(&data, b"GET", NOW, 0), vec![Output::SelectServer(0)]);
    // more payload before the backend is chosen is buffered, without a second request
    let more = from_client(CLIENT_PORT, C_ISN + 4, P_ISN.wrapping_add(1), TCP_ACK | TCP_PSH);
    assert_eq!(p.client_segment(&more, b" /", NOW, 0), vec![]);
    assert_eq!(p.pool().conn(0).payload, b"GET /".to_vec());
}

#[test]
fn selection_at_handshake_without_payload_mode() {
    let mut p = Proxy::new(4, FIRST_PORT, 1024, MILLIS_TO_CYCLES, NOW, HANDSHAKE, ESTABLISHED, false);
    p.client_segment(&from_client(CLIENT_PORT, C_ISN, 0, TCP_SYN), &[], NOW, P_ISN);
    let ack = from_client(CLIENT_PORT, C_ISN + 1, P_ISN.wrapping_add(1), TCP_ACK);
    assert_eq!(p.client_segment(&ack, &[], NOW, 0), vec![Output::SelectServer(0)]);
}

#[test]
fn handshake_times_are_stamped() {
    let mut p = proxy(4);
    p.client_segment(&from_client(CLIENT_PORT, C_ISN, 0, TCP_SYN), &[], NOW + 1, P_ISN);
    let ack = from_client(CLIENT_PORT, C_ISN + 1, P_ISN.wrapping_add(1), TCP_ACK | TCP_PSH);
    p.client_segment(&ack, b"hello", NOW + 2, 0);
    p.connect(0, Some(t0()), Q_ISN, NOW + 3);
    p.server_segment(&from_server(S_ISN, Q_ISN + 1, TCP_SYN | TCP_ACK), &[], NOW + 4);
    let s = p.pool().conn(0).stamps;
    assert_eq!((s.syn_received, s.ack_received, s.syn_sent, s.ack_sent), (NOW + 1, NOW + 2, NOW + 3, NOW + 4));
}

#[test]
fn empty_pool_refuses_every_syn() {
    let mut m = ConnectionManager::new(0, 40000);
    let t = ClientTuple { client_ip: CLIENT_IP, client_port: 1, proxy_ip: PROXY_IP, proxy_port: LISTEN_PORT };
    assert_eq!(m.get_or_allocate_client(&t), Err(PoolError::Exhausted));
    assert_eq!(m.get_by_proxy_port(40000), None);
}

#[test]
fn port_range_up_to_the_last_port() {
    let mut m = ConnectionManager::new(16384, 49152);
    for i in 0..16384u32 {
        let t = ClientTuple {
            client_ip: CLIENT_IP + i / 1000,
            client_port: (i % 1000) as u16,
            proxy_ip: PROXY_IP,
            proxy_port: LISTEN_PORT,
        };
        assert_eq!(m.get_or_allocate_client(&t), Ok((i as usize, true)));
    }
    assert_eq!(m.free_count(), 0);
    assert_eq!(m.get_by_proxy_port(65535), Some(16383));
    assert_eq!(m.conn(16383).proxy_port, 65535);
    assert_eq!(m.get_by_proxy_port(49151), None);
}

#[test]
fn idle_expiry_resets_both_sides() {
    let mut p = proxy(16);
    let h = established(&mut p);
    let out = p.server_segment(&from_server(S_ISN + 1, Q_ISN + 6, TCP_ACK | TCP_PSH), b"HI!", NOW + MILLIS_TO_CYCLES);
    assert_eq!(out.len(), 1);
    let out = p.tick(NOW + MILLIS_TO_CYCLES + ESTABLISHED + 2 * MILLIS_TO_CYCLES);
    assert_eq!(out.len(), 2);
    assert!(matches!(out[0], Output::ToClient(x) if x.flags == TCP_RST && x.dst_port == CLIENT_PORT));
    assert!(matches!(out[1], Output::ToServer(x) if x.flags == TCP_RST && x.seq == Q_ISN + 6
        && x.src_port == FIRST_PORT && x.dst_port == 80));
    assert_eq!(p.pool().conn(h).release_cause, Some(ReleaseCause::Timeout));
    assert_eq!(p.pool().free_count(), 16);
    assert_eq!(p.pool().get_by_proxy_port(FIRST_PORT), None);
}
