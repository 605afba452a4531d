//! Tests for the dispatcher, the tables and the wire boundary, with
//! frames built and checked by etherparse itself.

use trust::err::TcpErr;
use trust::manager::{ConnectionManager, Quad};
use trust::wire::{Ipv4Meta, TcpMeta};

const PEER_IP: u32 = 0x0a00020a;
const OUR_IP: u32 = 0x0a000201;

fn quad() -> Quad {
    Quad { src_ip: PEER_IP, src_port: 45000, dst_ip: OUR_IP, dst_port: 6000 }
}

fn ip_meta() -> Ipv4Meta {
    Ipv4Meta { src: PEER_IP, dst: OUR_IP, protocol: 6, header_len: 20 }
}

fn tcp_meta(seq: u32, ack_no: u32, syn: bool, ack: bool, fin: bool) -> TcpMeta {
    TcpMeta {
        src_port: 45000,
        dst_port: 6000,
        seq,
        ack_no,
        wnd: 4096,
        syn,
        ack,
        fin,
        rst: false,
        header_len: 20,
    }
}

/// Build a complete inbound frame with etherparse.
fn build_frame(seq: u32, ack_no: u32, syn: bool, ack: bool, payload: &[u8]) -> Vec<u8> {
    let mut tcp = etherparse::TcpHeader::new(45000, 6000, seq, 4096);
    tcp.acknowledgment_number = ack_no;
    tcp.syn = syn;
    tcp.ack = ack;
    let ip = etherparse::Ipv4Header::new(
        20 + payload.len() as u16,
        64,
        etherparse::ip_number::TCP,
        PEER_IP.to_be_bytes(),
        OUR_IP.to_be_bytes(),
    );
    tcp.checksum = tcp.calc_checksum_ipv4(&ip, payload).expect("checksum");
    let mut out = Vec::new();
    ip.write(&mut out).expect("ip");
    tcp.write(&mut out).expect("tcp");
    out.extend_from_slice(payload);
    out
}

/// A stack with a listener on 6000 and one established connection.
fn established_stack() -> ConnectionManager {
    let mut mgr = ConnectionManager::new();
    mgr.bind(6000).expect("bind");
    let d = mgr.on_segment(&ip_meta(), &tcp_meta(1000, 0, true, false, false), &[], 0);
    assert!(d.wake_pending);
    assert_eq!(mgr.accept_pop(6000), Some(quad()));
    let d = mgr.on_segment(&ip_meta(), &tcp_meta(1001, 1, false, true, false), &[], 0);
    assert!(!d.wake_pending);
    mgr
}

#[test]
fn bind_conflict() {
    let mut mgr = ConnectionManager::new();
    assert_eq!(mgr.bind(6000), Ok(()));
    assert_eq!(mgr.bind(6000), Err(TcpErr::AddrInUse));
    assert_eq!(mgr.bind(6001), Ok(()));
}

#[test]
fn syn_queues_quad_for_accept() {
    let mut mgr = ConnectionManager::new();
    mgr.bind(6000).expect("bind");
    assert_eq!(mgr.accept_pop(6000), None);
    let d = mgr.on_segment(&ip_meta(), &tcp_meta(1000, 0, true, false, false), &[], 0);
    assert!(d.wake_pending);
    assert_eq!(d.frames.len(), 1); // the SYN|ACK
    assert_eq!(mgr.connections.len(), 1);
    assert_eq!(mgr.accept_pop(6000), Some(quad()));
    assert_eq!(mgr.accept_pop(6000), None);
}

#[test]
fn syn_to_unbound_port_is_dropped() {
    let mut mgr = ConnectionManager::new();
    let d = mgr.on_segment(&ip_meta(), &tcp_meta(1000, 0, true, false, false), &[], 0);
    assert!(d.frames.is_empty());
    assert!(mgr.connections.is_empty());
}

#[test]
fn echo_read_through_the_stack() {
    let mut mgr = established_stack();
    let d = mgr.on_segment(&ip_meta(), &tcp_meta(1001, 1, false, true, false), b"hello", 0);
    assert!(d.wake_read);
    let got = mgr.read_conn(&quad(), 512).expect("connection lives");
    assert_eq!(got, Some(b"hello".to_vec()));
    // nothing more queued: the reader would wait
    assert_eq!(mgr.read_conn(&quad(), 512), Ok(None));
}

#[test]
fn read_write_flush_on_missing_quad() {
    let mut mgr = ConnectionManager::new();
    let q = quad();
    assert_eq!(mgr.read_conn(&q, 16), Err(TcpErr::ConnectionAborted));
    assert_eq!(mgr.write_conn(&q, b"x"), Err(TcpErr::ConnectionAborted));
    assert_eq!(mgr.flush_conn(&q), Err(TcpErr::ConnectionAborted));
    assert_eq!(mgr.close_conn(&q), Err(TcpErr::ConnectionAborted));
}

#[test]
fn write_tick_ack_flush_cycle() {
    let mut mgr = established_stack();
    assert_eq!(mgr.write_conn(&quad(), b"ping"), Ok(4));
    assert_eq!(mgr.flush_conn(&quad()), Err(TcpErr::WouldBlock));

    let frames = mgr.on_tick_all(10);
    assert_eq!(frames.len(), 1);
    let tcp = etherparse::TcpHeaderSlice::from_slice(&frames[0][20..]).expect("tcp parses");
    assert_eq!(tcp.sequence_number(), 1);
    assert_eq!(&frames[0][40..], b"ping");

    // the peer acknowledges; the queue drains and flush succeeds
    let _ = mgr.on_segment(&ip_meta(), &tcp_meta(1001, 5, false, true, false), &[], 20);
    assert_eq!(mgr.flush_conn(&quad()), Ok(()));
    // with nothing queued and nothing due, a tick emits nothing
    assert_eq!(mgr.on_tick_all(30).len(), 0);
}

#[test]
fn write_full_queue_would_block() {
    let mut mgr = established_stack();
    assert_eq!(mgr.write_conn(&quad(), &vec![1u8; 5000]), Ok(1024));
    assert_eq!(mgr.write_conn(&quad(), b"x"), Err(TcpErr::WouldBlock));
}

#[test]
fn on_frame_runs_the_handshake() {
    let mut mgr = ConnectionManager::new();
    mgr.bind(6000).expect("bind");
    let d = mgr.on_frame(&build_frame(1000, 0, true, false, &[]), 0);
    assert!(d.wake_pending);
    assert_eq!(d.frames.len(), 1);
    let ip = etherparse::Ipv4HeaderSlice::from_slice(&d.frames[0]).expect("ipv4 parses");
    assert_eq!(ip.source(), OUR_IP.to_be_bytes());
    assert_eq!(ip.destination(), PEER_IP.to_be_bytes());
    assert_eq!(ip.protocol(), 6);
    let tcp = etherparse::TcpHeaderSlice::from_slice(&d.frames[0][ip.slice().len()..])
        .expect("tcp parses");
    assert!(tcp.syn() && tcp.ack());
    assert_eq!(tcp.sequence_number(), 0);
    assert_eq!(tcp.acknowledgment_number(), 1001);

    let d = mgr.on_frame(&build_frame(1001, 1, false, true, &[]), 0);
    assert!(d.wake_read == false);
    assert_eq!(mgr.connections.len(), 1);
    assert_eq!(mgr.connections[0].1.state, trust::tcp::State::Estab);
}

#[test]
fn on_frame_drops_junk() {
    let mut mgr = ConnectionManager::new();
    mgr.bind(6000).expect("bind");
    // not IPv4 at all
    let d = mgr.on_frame(&[0u8; 7], 0);
    assert!(d.frames.is_empty() && !d.wake_read && !d.wake_pending);
    // IPv4 but not TCP
    let mut frame = build_frame(1000, 0, true, false, &[]);
    frame[9] = 17; // claim UDP
    let d = mgr.on_frame(&frame, 0);
    assert!(d.frames.is_empty());
    assert!(mgr.connections.is_empty());
}

#[test]
fn emitted_checksum_verifies_against_pseudo_header() {
    let mut mgr = established_stack();
    assert_eq!(mgr.write_conn(&quad(), b"data!"), Ok(5));
    let frames = mgr.on_tick_all(10);
    assert_eq!(frames.len(), 1);
    let frame = &frames[0];
    let ip = etherparse::Ipv4HeaderSlice::from_slice(frame).expect("ipv4 parses");
    let tcp = etherparse::TcpHeaderSlice::from_slice(&frame[ip.slice().len()..])
        .expect("tcp parses");
    let payload = &frame[ip.slice().len() + tcp.slice().len()..];
    let expected = tcp
        .to_header()
        .calc_checksum_ipv4_raw(ip.source(), ip.destination(), payload)
        .expect("checksum computes");
    assert_eq!(tcp.checksum(), expected);
    assert_eq!(payload, b"data!");
}

#[test]
fn unbind_aborts_queued_connections_with_rst() {
    let mut mgr = ConnectionManager::new();
    mgr.bind(6000).expect("bind");
    let _ = mgr.on_segment(&ip_meta(), &tcp_meta(1000, 0, true, false, false), &[], 0);
    assert_eq!(mgr.connections.len(), 1);

    let frames = mgr.unbind(6000);
    assert_eq!(frames.len(), 1);
    let tcp = etherparse::TcpHeaderSlice::from_slice(&frames[0][20..]).expect("tcp parses");
    assert!(tcp.rst());
    assert!(mgr.connections.is_empty());
    // the port can be bound again
    assert_eq!(mgr.bind(6000), Ok(()));
}

#[test]
fn unbind_leaves_accepted_connections_alone() {
    let mut mgr = established_stack();
    // the quad was popped by accept: tearing the listener down must not
    // abort the running connection
    let frames = mgr.unbind(6000);
    assert!(frames.is_empty());
    assert_eq!(mgr.connections.len(), 1);
}

#[test]
fn close_through_the_stack() {
    let mut mgr = established_stack();
    assert_eq!(mgr.close_conn(&quad()), Ok(()));
    assert_eq!(mgr.connections[0].1.state, trust::tcp::State::FinWait1);
    let frames = mgr.on_tick_all(10);
    assert_eq!(frames.len(), 1);
    let tcp = etherparse::TcpHeaderSlice::from_slice(&frames[0][20..]).expect("tcp parses");
    assert!(tcp.fin());
}

#[test]
fn terminated_flag() {
    let mut mgr = ConnectionManager::new();
    assert!(!mgr.terminated);
    mgr.set_terminated();
    assert!(mgr.terminated);
}

#[test]
fn truncated_frames_are_dropped() {
    let mut mgr = ConnectionManager::new();
    mgr.bind(6000).expect("bind");
    let frame = build_frame(1000, 0, true, false, &[]);
    // a frame cut inside the TCP header parses as IPv4 but not as TCP
    let d = mgr.on_frame(&frame[..25], 0);
    assert!(d.frames.is_empty() && !d.wake_pending);
    assert!(mgr.connections.is_empty());
    // the intact frame is accepted
    let d = mgr.on_frame(&frame, 0);
    assert_eq!(d.frames.len(), 1);
}
