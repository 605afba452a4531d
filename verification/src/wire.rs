//! The wire boundary: IPv4/TCP header parsing, serialization and the TCP
//! checksum, delegated to the `etherparse` header library.
//!
//! Every call into `etherparse` sits behind a trusted wrapper whose contract
//! names the bytes it produces or the fields it extracts. The verified
//! encoder [`encode_frame`] assembles a complete outbound IPv4 frame from
//! those pieces; the verified engine and dispatcher work on the plain
//! field structs declared here.

use vstd::prelude::*;

verus! {

/// Time-to-live carried by every IPv4 header this stack emits.
pub const IPV4_TTL: u8 = 64;

/// The IPv4 protocol number of TCP.
pub const PROTO_TCP: u8 = 6;

/// The fields of an inbound IPv4 header that the stack reads, as plain
/// values. Addresses are big-endian `u32`s.
#[derive(Clone, Copy, Debug, PartialEq, Eq, Structural)]
pub struct Ipv4Meta {
    /// Source address of the datagram.
    pub src: u32,
    /// Destination address of the datagram.
    pub dst: u32,
    /// Protocol number of the payload.
    pub protocol: u8,
    /// Length in bytes of the IPv4 header, options included.
    pub header_len: usize,
}

/// The fields of an inbound TCP header that the stack reads.
#[derive(Clone, Copy, Debug, PartialEq, Eq, Structural)]
pub struct TcpMeta {
    /// Source port of the segment.
    pub src_port: u16,
    /// Destination port of the segment.
    pub dst_port: u16,
    /// Sequence number of the first payload byte.
    pub seq: u32,
    /// Acknowledgment number, meaningful when `ack` is set.
    pub ack_no: u32,
    /// Window the peer advertises.
    pub wnd: u16,
    /// SYN flag.
    pub syn: bool,
    /// ACK flag.
    pub ack: bool,
    /// FIN flag.
    pub fin: bool,
    /// RST flag.
    pub rst: bool,
    /// Length in bytes of the TCP header, options included.
    pub header_len: usize,
}

/// The TCP header fields of an outbound segment. The ACK flag is carried
/// explicitly because the stack's very first segment of a connection is the
/// only one composed before an acknowledgment exists.
#[derive(Clone, Copy, Debug, PartialEq, Eq, Structural)]
pub struct SegmentHead {
    /// Our port (source of the emitted segment).
    pub src_port: u16,
    /// The peer's port.
    pub dst_port: u16,
    /// Sequence number of the segment.
    pub seq: u32,
    /// Acknowledgment number of the segment.
    pub ack_no: u32,
    /// Window we advertise.
    pub wnd: u16,
    /// SYN flag.
    pub syn: bool,
    /// ACK flag.
    pub ack: bool,
    /// FIN flag.
    pub fin: bool,
    /// RST flag.
    pub rst: bool,
}

/// What `etherparse::Ipv4HeaderSlice::from_slice` extracts from a byte
/// sequence: `None` where parsing fails. The result is a function of the
/// bytes alone.
pub uninterp spec fn parsed_ipv4(frame: Seq<u8>) -> Option<Ipv4Meta>;

/// What `etherparse::TcpHeaderSlice::from_slice` extracts from a byte
/// sequence: `None` where parsing fails. The result is a function of the
/// bytes alone.
pub uninterp spec fn parsed_tcp(buf: Seq<u8>) -> Option<TcpMeta>;

/// The 20 bytes `etherparse::Ipv4Header::write` produces for an option-less
/// header with the given addresses, time-to-live and payload length
/// (protocol TCP, identification 0, header checksum filled in).
pub uninterp spec fn ipv4_header_bytes(src: u32, dst: u32, ttl: u8, payload_len: u16) -> Seq<u8>;

/// The 20 bytes `etherparse::TcpHeader::write` produces for an option-less
/// header with the given fields and checksum.
pub uninterp spec fn tcp_header_bytes(head: SegmentHead, checksum: u16) -> Seq<u8>;

/// The checksum `etherparse::TcpHeader::calc_checksum_ipv4_raw` computes
/// over the IPv4 pseudo-header (addresses, protocol TCP, TCP length), the
/// TCP header fields and the payload.
pub uninterp spec fn tcp_checksum(src: u32, dst: u32, head: SegmentHead, payload: Seq<u8>) -> u16;

/// Relies on `etherparse::Ipv4HeaderSlice::from_slice` and its accessors:
/// parsing succeeds only on a well-formed IPv4 header, and the header length
/// it reports never exceeds the input. Addresses are converted to `u32`
/// big-endian, one for one.
#[verifier::external_body]
pub(crate) fn parse_ipv4_header(frame: &[u8]) -> (r: Option<Ipv4Meta>)
    ensures
        r == parsed_ipv4(frame@),
        r matches Some(m) ==> 20 <= m.header_len <= frame@.len(),
{
    match etherparse::Ipv4HeaderSlice::from_slice(frame) {
        Ok(h) => Some(Ipv4Meta {
            src: u32::from_be_bytes(h.source()),
            dst: u32::from_be_bytes(h.destination()),
            protocol: h.protocol(),
            header_len: h.slice().len(),
        }),
        Err(_) => None,
    }
}

/// Relies on `etherparse::TcpHeaderSlice::from_slice` and its accessors:
/// parsing succeeds only on a well-formed TCP header, and the header length
/// it reports never exceeds the input.
#[verifier::external_body]
pub(crate) fn parse_tcp_header(buf: &[u8]) -> (r: Option<TcpMeta>)
    ensures
        r == parsed_tcp(buf@),
        r matches Some(m) ==> 20 <= m.header_len <= buf@.len(),
{
    match etherparse::TcpHeaderSlice::from_slice(buf) {
        Ok(h) => Some(TcpMeta {
            src_port: h.source_port(),
            dst_port: h.destination_port(),
            seq: h.sequence_number(),
            ack_no: h.acknowledgment_number(),
            wnd: h.window_size(),
            syn: h.syn(),
            ack: h.ack(),
            fin: h.fin(),
            rst: h.rst(),
            header_len: h.slice().len(),
        }),
        Err(_) => None,
    }
}

/// Relies on `etherparse::Ipv4Header::write`: serializes an option-less
/// IPv4 header (20 bytes) with a freshly computed header checksum. With a
/// payload length under the IPv4 maximum and default field values the range
/// checks cannot fail, and writing to a `Vec` cannot fail.
#[verifier::external_body]
fn encode_ipv4_header(src: u32, dst: u32, payload_len: u16) -> (r: Vec<u8>)
    requires
        payload_len <= 65515,
    ensures
        r@ == ipv4_header_bytes(src, dst, IPV4_TTL, payload_len),
        r@.len() == 20,
{
    let h = etherparse::Ipv4Header::new(
        payload_len,
        IPV4_TTL,
        etherparse::ip_number::TCP,
        src.to_be_bytes(),
        dst.to_be_bytes(),
    );
    let mut out: Vec<u8> = Vec::with_capacity(20);
    h.write(&mut out).expect("ipv4 header serialization cannot fail");
    out
}

/// Relies on `etherparse::TcpHeader::write`: serializes an option-less TCP
/// header (20 bytes) with the given checksum field. Writing to a `Vec`
/// cannot fail.
#[verifier::external_body]
fn encode_tcp_header(head: &SegmentHead, checksum: u16) -> (r: Vec<u8>)
    ensures
        r@ == tcp_header_bytes(*head, checksum),
        r@.len() == 20,
{
    let mut h = etherparse::TcpHeader::new(head.src_port, head.dst_port, head.seq, head.wnd);
    h.acknowledgment_number = head.ack_no;
    h.syn = head.syn;
    h.ack = head.ack;
    h.fin = head.fin;
    h.rst = head.rst;
    h.checksum = checksum;
    let mut out: Vec<u8> = Vec::with_capacity(20);
    h.write(&mut out).expect("tcp header serialization cannot fail");
    out
}

/// Relies on `etherparse::TcpHeader::calc_checksum_ipv4_raw`: computes the
/// TCP checksum over the IPv4 pseudo-header, the header fields and the
/// payload. It fails only when header plus payload exceed 65535 bytes,
/// which the precondition rules out.
#[verifier::external_body]
fn compute_tcp_checksum(src: u32, dst: u32, head: &SegmentHead, payload: &[u8]) -> (r: u16)
    requires
        payload@.len() <= 65515,
    ensures
        r == tcp_checksum(src, dst, *head, payload@),
{
    let mut h = etherparse::TcpHeader::new(head.src_port, head.dst_port, head.seq, head.wnd);
    h.acknowledgment_number = head.ack_no;
    h.syn = head.syn;
    h.ack = head.ack;
    h.fin = head.fin;
    h.rst = head.rst;
    h.calc_checksum_ipv4_raw(src.to_be_bytes(), dst.to_be_bytes(), payload)
        .expect("tcp length was checked against the checksum limit")
}

/// The complete IPv4 frame carrying one TCP segment: IPv4 header, TCP
/// header whose checksum covers the pseudo-header and the payload, then the
/// payload itself.
pub open spec fn frame_bytes(src: u32, dst: u32, head: SegmentHead, payload: Seq<u8>) -> Seq<u8> {
    ipv4_header_bytes(src, dst, IPV4_TTL, (20 + payload.len()) as u16)
        + tcp_header_bytes(head, tcp_checksum(src, dst, head, payload))
        + payload
}

/// Assemble the wire bytes of one outbound segment. The TCP checksum is
/// computed over the IPv4 pseudo-header, the TCP header and the payload.
pub fn encode_frame(src: u32, dst: u32, head: &SegmentHead, payload: &[u8]) -> (r: Vec<u8>)
    requires
        payload@.len() <= 1460,
    ensures
        r@ == frame_bytes(src, dst, *head, payload@),
        r@.len() == 40 + payload@.len(),
{
    let checksum = compute_tcp_checksum(src, dst, head, payload);
    let mut out = encode_ipv4_header(src, dst, 20 + payload.len() as u16);
    let tcp_bytes = encode_tcp_header(head, checksum);
    out.extend_from_slice(tcp_bytes.as_slice());
    out.extend_from_slice(payload);
    assert(out@ =~= frame_bytes(src, dst, *head, payload@));
    out
}

} // verus!
