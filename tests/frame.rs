use delayed_proxy::frame::{parse_segment, rewrite_segment, segment_frame};
use delayed_proxy::tcp::{TcpHeader, TCP_ACK, TCP_PSH, TCP_RST, TCP_SYN};

const MAC_A: [u8; 6] = [0x02, 0, 0, 0, 0, 0x0a];
const MAC_B: [u8; 6] = [0x02, 0, 0, 0, 0, 0x0b];

fn ones_sum(words: &[u8]) -> u32 {
    let mut s: u32 = 0;
    for pair in words.chunks(2) {
        let w = (pair[0] as u32) << 8 | *pair.get(1).unwrap_or(&0) as u32;
        s += w;
    }
    while s > 0xffff {
        s = (s & 0xffff) + (s >> 16);
    }
    s
}

/// Both checksums of a 20-byte-header frame verify.
fn checksums_ok(f: &[u8]) -> bool {
    let ip_ok = ones_sum(&f[14..34]) == 0xffff;
    let tcp_len = f.len() - 34;
    let mut pseudo = Vec::new();
    pseudo.extend_from_slice(&f[26..34]);
    pseudo.extend_from_slice(&[0, 6]);
    pseudo.extend_from_slice(&(tcp_len as u16).to_be_bytes());
    pseudo.extend_from_slice(&f[34..]);
    ip_ok && ones_sum(&pseudo) == 0xffff
}

fn header() -> TcpHeader {
    TcpHeader {
        src_ip: 0x0A00_0001,
        src_port: 3000,
        dst_ip: 0x0A00_0002,
        dst_port: 54321,
        seq: 0xDEAD_BEEF,
        ack: 1001,
        flags: TCP_SYN | TCP_ACK,
    }
}

#[test]
fn built_segment_reads_back_with_valid_checksums() {
    let f = segment_frame(&header(), &MAC_A, &MAC_B);
    assert_eq!(f.len(), 54);
    assert_eq!(&f[0..6], &MAC_B);
    assert_eq!(&f[6..12], &MAC_A);
    assert_eq!(parse_segment(&f), Some((header(), 54, 54)));
    assert_eq!(&f[48..50], &[0xff, 0xff]);
    assert!(checksums_ok(&f));
}

#[test]
fn rewrite_keeps_payload_and_fixes_checksums() {
    let mut f = segment_frame(&header(), &MAC_A, &MAC_B);
    // append a 5-byte payload and fix the IP total length
    f.extend_from_slice(b"hello");
    f[16] = 0;
    f[17] = 45;
    assert_eq!(parse_segment(&f).map(|(_, lo, hi)| (lo, hi)), Some((54, 59)));
    let h = TcpHeader {
        src_ip: 0x0A00_0001,
        src_port: 49152,
        dst_ip: 0x0A00_0105,
        dst_port: 80,
        seq: 7_000_001,
        ack: 500_001,
        flags: TCP_ACK | TCP_PSH,
    };
    rewrite_segment(&mut f, &h, &MAC_B, &MAC_A);
    assert_eq!(parse_segment(&f), Some((h, 54, 59)));
    assert_eq!(&f[54..], b"hello");
    assert!(checksums_ok(&f));
}

#[test]
fn odd_length_payload_checksum() {
    let mut f = segment_frame(&header(), &MAC_A, &MAC_B);
    f.extend_from_slice(b"HI!");
    f[17] = 43;
    let mut h = header();
    h.flags = TCP_RST;
    rewrite_segment(&mut f, &h, &MAC_A, &MAC_B);
    assert!(checksums_ok(&f));
    assert_eq!(parse_segment(&f), Some((h, 54, 57)));
}

#[test]
fn parse_rejects_other_frames() {
    let mut f = segment_frame(&header(), &MAC_A, &MAC_B);
    assert!(parse_segment(&f[..40]).is_none());
    f[23] = 17; // UDP
    assert!(parse_segment(&f).is_none());
    let mut g = segment_frame(&header(), &MAC_A, &MAC_B);
    g[17] = 80; // total length beyond the frame
    assert!(parse_segment(&g).is_none());
}
