//! Reading TCP segments out of Ethernet/IPv4 frames, and writing rewritten
//! headers back with fresh IPv4 and TCP checksums.
use vstd::prelude::*;
use crate::classifier::{be16, be32, ip_header_len};
use crate::tcp::TcpHeader;

verus! {

/// Where the TCP header of frame `f` starts.
pub open spec fn tcp_start(f: Seq<u8>) -> int {
    14 + ip_header_len(f)
}

/// Length in bytes of the TCP header of frame `f`.
pub open spec fn tcp_header_len(f: Seq<u8>) -> int {
    (f[tcp_start(f) + 12] / 16) * 4
}

/// Where the IPv4 packet of frame `f` ends, by its total-length field.
pub open spec fn ip_end(f: Seq<u8>) -> int {
    14 + be16(f, 16)
}

/// Frame `f` holds an IPv4 packet carrying a complete TCP header, with
/// consistent lengths.
pub open spec fn is_tcp_frame(f: Seq<u8>) -> bool {
    &&& f.len() >= 34
    &&& be16(f, 12) == 0x0800
    &&& f[23] == 6
    &&& ip_header_len(f) >= 20
    &&& f.len() >= tcp_start(f) + 20
    &&& tcp_header_len(f) >= 20
    &&& tcp_start(f) + tcp_header_len(f) <= ip_end(f) <= f.len()
}

/// The header fields of the segment in frame `f`.
pub open spec fn header_of(f: Seq<u8>) -> TcpHeader {
    let t = tcp_start(f);
    TcpHeader {
        src_ip: be32(f, 26) as u32,
        dst_ip: be32(f, 30) as u32,
        src_port: be16(f, t) as u16,
        dst_port: be16(f, t + 2) as u16,
        seq: be32(f, t + 4) as u32,
        ack: be32(f, t + 8) as u32,
        flags: f[t + 13],
    }
}

/// The segment of a TCP frame: its header, and where its payload starts and
/// ends. None for any other frame.
pub open spec fn segment_of(f: Seq<u8>) -> Option<(TcpHeader, int, int)> {
    if is_tcp_frame(f) {
        Some((header_of(f), tcp_start(f) + tcp_header_len(f), ip_end(f)))
    } else {
        None
    }
}

fn get16(f: &[u8], i: usize) -> (r: u16)
    requires
        i + 2 <= f@.len(),
    ensures
        r == be16(f@, i as int),
{
    (f[i] as u16) * 256 + f[i + 1] as u16
}

fn get32(f: &[u8], i: usize) -> (r: u32)
    requires
        i + 4 <= f@.len(),
    ensures
        r == be32(f@, i as int),
{
    let _n = f.len();
    (get16(f, i) as u32) * 65536 + get16(f, i + 2) as u32
}

/// Reads the segment of a frame; see `segment_of`.
pub fn parse_segment(f: &[u8]) -> (r: Option<(TcpHeader, usize, usize)>)
    ensures
        match segment_of(f@) {
            Some((h, lo, hi)) => r == Some((h, lo as usize, hi as usize)),
            None => r is None,
        },
{
    let n = f.len();
    if n < 34 || get16(f, 12) != 0x0800 || f[23] != 6 {
        return None;
    }
    let ihl = ((f[14] % 16) as usize) * 4;
    if ihl < 20 || n < 14 + ihl + 20 {
        return None;
    }
    let t = 14 + ihl;
    let thl = ((f[t + 12] / 16) as usize) * 4;
    let end = 14 + get16(f, 16) as usize;
    if thl < 20 || t + thl > end || end > n {
        return None;
    }
    let h = TcpHeader {
        src_ip: get32(f, 26),
        dst_ip: get32(f, 30),
        src_port: get16(f, t),
        dst_port: get16(f, t + 2),
        seq: get32(f, t + 4),
        ack: get32(f, t + 8),
        flags: f[t + 13],
    };
    Some((h, t + thl, end))
}

/// Sum of the 16-bit big-endian words of `f[lo..hi]`, a last odd byte
/// padded with zero.
pub open spec fn sum_words(f: Seq<u8>, lo: int, hi: int) -> int
    decreases hi - lo,
{
    if lo >= hi {
        0
    } else if lo + 1 >= hi {
        f[lo] * 256
    } else {
        f[lo] * 256 + f[lo + 1] + sum_words(f, lo + 2, hi)
    }
}

/// `s` folded to 16 bits with end-around carry.
pub open spec fn fold16(s: nat) -> nat
    decreases s,
{
    if s < 0x10000 {
        s
    } else {
        fold16(s % 0x10000 + s / 0x10000)
    }
}

/// The Internet checksum of a word sum: the ones' complement of its fold.
pub open spec fn checksum_of(s: nat) -> int {
    0xffff - fold16(s)
}

fn sum_range(f: &[u8], lo: usize, hi: usize) -> (r: u64)
    requires
        lo <= hi <= f@.len(),
        f@.len() < 0x1_0000_0000,
    ensures
        r == sum_words(f@, lo as int, hi as int),
        r <= (hi - lo) * 0xffff,
{
    let mut acc: u64 = 0;
    let mut i: usize = lo;
    while i < hi
        invariant
            lo <= i <= hi,
            hi <= f@.len(),
            f@.len() < 0x1_0000_0000,
            acc + sum_words(f@, i as int, hi as int) == sum_words(f@, lo as int, hi as int),
            acc <= (i - lo) * 0xffff,
        decreases hi - i,
    {
        if i + 1 < hi {
            acc = acc + (f[i] as u64) * 256 + f[i + 1] as u64;
            i = i + 2;
        } else {
            acc = acc + (f[i] as u64) * 256;
            i = hi;
        }
    }
    acc
}

fn fold(s: u64) -> (r: u16)
    ensures
        r == fold16(s as nat),
    decreases s,
{
    if s < 0x10000 {
        s as u16
    } else {
        fold(s % 0x10000 + s / 0x10000)
    }
}

pub open spec fn put16(f: Seq<u8>, i: int, v: int) -> Seq<u8> {
    f.update(i, (v / 256) as u8).update(i + 1, (v % 256) as u8)
}

pub open spec fn put32(f: Seq<u8>, i: int, v: int) -> Seq<u8> {
    put16(put16(f, i, v / 65536), i + 2, v % 65536)
}

pub open spec fn put6(f: Seq<u8>, i: int, m: Seq<u8>) -> Seq<u8> {
    f.subrange(0, i) + m + f.subrange(i + 6, f.len() as int)
}

/// Frame `f` carrying header `h` between the given MAC addresses, with both
/// checksum fields cleared.
pub open spec fn with_fields(f: Seq<u8>, h: TcpHeader, src_mac: Seq<u8>, dst_mac: Seq<u8>) -> Seq<u8> {
    let t = tcp_start(f);
    let g = put6(put6(f, 0, dst_mac), 6, src_mac);
    let g = put32(put32(g, 26, h.src_ip as int), 30, h.dst_ip as int);
    let g = put16(put16(g, t, h.src_port as int), t + 2, h.dst_port as int);
    let g = put32(put32(g, t + 4, h.seq as int), t + 8, h.ack as int);
    let g = g.update(t + 13, h.flags);
    put16(put16(g, 24, 0), t + 16, 0)
}

/// Word sum of the TCP pseudo-header for header `h` and a segment of `len`
/// bytes.
pub open spec fn pseudo_sum(h: TcpHeader, len: int) -> int {
    h.src_ip / 65536 + h.src_ip % 65536 + h.dst_ip / 65536 + h.dst_ip % 65536 + 6 + len
}

/// Frame `f` rewritten to carry header `h` from `src_mac` to `dst_mac`: the
/// fields set, then the IPv4 header checksum, then the TCP checksum over the
/// pseudo-header and the segment.
pub open spec fn rewritten(f: Seq<u8>, h: TcpHeader, src_mac: Seq<u8>, dst_mac: Seq<u8>) -> Seq<u8> {
    let t = tcp_start(f);
    let g = with_fields(f, h, src_mac, dst_mac);
    let ip_sum = checksum_of(sum_words(g, 14, t) as nat);
    let tcp_sum = checksum_of((pseudo_sum(h, ip_end(f) - t) + sum_words(g, t, ip_end(f))) as nat);
    put16(put16(g, 24, ip_sum), t + 16, tcp_sum)
}

proof fn lemma_sum_words_agree(f: Seq<u8>, g: Seq<u8>, lo: int, hi: int)
    requires
        0 <= lo,
        hi <= f.len(),
        hi <= g.len(),
        forall|i: int| lo <= i < hi ==> f[i] == g[i],
    ensures
        sum_words(f, lo, hi) == sum_words(g, lo, hi),
    decreases hi - lo,
{
    if lo + 1 < hi {
        lemma_sum_words_agree(f, g, lo + 2, hi);
    }
}

fn set16(f: &mut Vec<u8>, i: usize, v: u16)
    requires
        i + 2 <= old(f)@.len(),
    ensures
        final(f)@ == put16(old(f)@, i as int, v as int),
{
    let _n = f.len();
    f.set(i, (v / 256) as u8);
    f.set(i + 1, (v % 256) as u8);
}

fn set32(f: &mut Vec<u8>, i: usize, v: u32)
    requires
        i + 4 <= old(f)@.len(),
    ensures
        final(f)@ == put32(old(f)@, i as int, v as int),
{
    let _n = f.len();
    set16(f, i, (v / 65536) as u16);
    set16(f, i + 2, (v % 65536) as u16);
}

fn set6(f: &mut Vec<u8>, i: usize, m: &[u8; 6])
    requires
        i + 6 <= old(f)@.len(),
    ensures
        final(f)@ == put6(old(f)@, i as int, m@),
{
    let ghost before = f@;
    let n = f.len();
    let mut j: usize = 0;
    while j < 6
        invariant
            j <= 6,
            i + 6 <= before.len(),
            n == before.len(),
            m@.len() == 6,
            f@ == before.subrange(0, i as int) + m@.subrange(0, j as int) + before.subrange(
                i + j,
                before.len() as int,
            ),
        decreases 6 - j,
    {
        f.set(i + j, m[j]);
        j = j + 1;
        assert(f@ =~= before.subrange(0, i as int) + m@.subrange(0, j as int) + before.subrange(
            i + j,
            before.len() as int,
        ));
    }
    assert(m@.subrange(0, 6) =~= m@);
}

/// Rewrites the TCP frame `f` to carry header `h` from `src_mac` to
/// `dst_mac`, with fresh checksums; see `rewritten`. The payload is kept.
pub fn rewrite_segment(f: &mut Vec<u8>, h: &TcpHeader, src_mac: &[u8; 6], dst_mac: &[u8; 6])
    requires
        is_tcp_frame(old(f)@),
        old(f)@.len() < 0x1_0000_0000,
    ensures
        final(f)@ == rewritten(old(f)@, *h, src_mac@, dst_mac@),
{
    let ghost f0 = f@;
    let t = 14 + ((f[14] % 16) as usize) * 4;
    let end = 14 + (f[16] as usize) * 256 + f[17] as usize;
    set6(f, 0, dst_mac);
    set6(f, 6, src_mac);
    set32(f, 26, h.src_ip);
    set32(f, 30, h.dst_ip);
    set16(f, t, h.src_port);
    set16(f, t + 2, h.dst_port);
    set32(f, t + 4, h.seq);
    set32(f, t + 8, h.ack);
    f.set(t + 13, h.flags);
    set16(f, 24, 0);
    set16(f, t + 16, 0);
    let ghost g = f@;
    assert(g == with_fields(f0, *h, src_mac@, dst_mac@));
    let ip_sum = sum_range(f.as_slice(), 14, t);
    let ip_csum = 0xffff - fold(ip_sum);
    set16(f, 24, ip_csum);
    let ghost g2 = f@;
    proof {
        lemma_sum_words_agree(g, g2, t as int, end as int);
    }
    let pseudo: u64 = (h.src_ip / 65536) as u64 + (h.src_ip % 65536) as u64 + (h.dst_ip / 65536) as u64
        + (h.dst_ip % 65536) as u64 + 6 + (end - t) as u64;
    let seg_sum = sum_range(f.as_slice(), t, end);
    let tcp_csum = 0xffff - fold(pseudo + seg_sum);
    set16(f, t + 16, tcp_csum);
}

/// Rewriting a frame and reading it back gives the header that was written,
/// with the segment's payload where it was.
pub proof fn lemma_rewritten_reads_back(f: Seq<u8>, h: TcpHeader, src_mac: Seq<u8>, dst_mac: Seq<u8>)
    requires
        is_tcp_frame(f),
        src_mac.len() == 6,
        dst_mac.len() == 6,
    ensures
        rewritten(f, h, src_mac, dst_mac).len() == f.len(),
        segment_of(rewritten(f, h, src_mac, dst_mac)) == Some(
            (h, tcp_start(f) + tcp_header_len(f), ip_end(f)),
        ),
{
    let t = tcp_start(f);
    let r = rewritten(f, h, src_mac, dst_mac);
    let g = with_fields(f, h, src_mac, dst_mac);
    assert(g.len() == f.len());
    assert forall|k: int|
        0 <= k < f.len() && k != 24 && k != 25 && k != t + 16 && k != t + 17 implies r[k] == g[k] by {}
    // bytes that fix the layout are untouched
    assert(r[12] == f[12] && r[13] == f[13] && r[14] == f[14] && r[16] == f[16] && r[17] == f[17]
        && r[23] == f[23]);
    assert(tcp_start(r) == t);
    assert(r[t + 12] == f[t + 12]);
    assert(ip_end(r) == ip_end(f));
    assert(tcp_header_len(r) == tcp_header_len(f));
    // the fields read back
    assert(be32(r, 26) == h.src_ip as int);
    assert(be32(r, 30) == h.dst_ip as int);
    assert(be16(r, t) == h.src_port as int);
    assert(be16(r, t + 2) == h.dst_port as int);
    assert(be32(r, t + 4) == h.seq as int);
    assert(be32(r, t + 8) == h.ack as int);
    assert(r[t + 13] == h.flags);
    assert(header_of(r) == h);
}

/// Window the proxy advertises on the segments it originates.
pub const PROXY_WINDOW: u16 = 0xffff;

/// Byte `i` of an empty TCP/IPv4 frame: version 4, 20-byte headers, total
/// length 40, time to live 64, the fixed window; every address, port, number
/// and checksum zero.
pub open spec fn blank_byte(i: int) -> u8 {
    if i == 12 {
        0x08
    } else if i == 14 {
        0x45
    } else if i == 17 {
        40
    } else if i == 22 {
        64
    } else if i == 23 {
        6
    } else if i == 46 {
        0x50
    } else if i == 48 || i == 49 {
        0xff
    } else {
        0
    }
}

pub open spec fn blank_segment_frame() -> Seq<u8> {
    Seq::new(54, |i: int| blank_byte(i))
}

/// A frame carrying a segment without payload with header `h`, from
/// `src_mac` to `dst_mac`, for the segments the proxy originates.
pub fn segment_frame(h: &TcpHeader, src_mac: &[u8; 6], dst_mac: &[u8; 6]) -> (r: Vec<u8>)
    ensures
        r@ == rewritten(blank_segment_frame(), *h, src_mac@, dst_mac@),
        segment_of(r@) == Some((*h, 54int, 54int)),
{
    let mut f: Vec<u8> = Vec::new();
    let mut i: usize = 0;
    while i < 54
        invariant
            i <= 54,
            f@.len() == i,
            forall|j: int| 0 <= j < i ==> f@[j] == blank_byte(j),
        decreases 54 - i,
    {
        let b: u8 = if i == 12 {
            0x08
        } else if i == 14 {
            0x45
        } else if i == 17 {
            40
        } else if i == 22 {
            64
        } else if i == 23 {
            6
        } else if i == 46 {
            0x50
        } else if i == 48 || i == 49 {
            0xff
        } else {
            0
        };
        f.push(b);
        i = i + 1;
    }
    assert(f@ =~= blank_segment_frame());
    assert(is_tcp_frame(f@));
    rewrite_segment(&mut f, h, src_mac, dst_mac);
    proof {
        lemma_rewritten_reads_back(blank_segment_frame(), *h, src_mac@, dst_mac@);
    }
    f
}

} // verus!
