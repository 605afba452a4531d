//! Scenario tests for the per-connection protocol engine.

use trust::tcp::{Connection, State};
use trust::wire::{Ipv4Meta, TcpMeta};
use trust::{is_between_wrapping, wrapping_lt};

const PEER_IP: u32 = 0x0a00020a; // 10.0.2.10
const OUR_IP: u32 = 0x0a000201; // 10.0.2.1

fn syn_meta(seq: u32, wnd: u16) -> TcpMeta {
    TcpMeta {
        src_port: 45000,
        dst_port: 6000,
        seq,
        ack_no: 0,
        wnd,
        syn: true,
        ack: false,
        fin: false,
        rst: false,
        header_len: 20,
    }
}

fn ack_meta(seq: u32, ack_no: u32, wnd: u16) -> TcpMeta {
    TcpMeta {
        src_port: 45000,
        dst_port: 6000,
        seq,
        ack_no,
        wnd,
        syn: false,
        ack: true,
        fin: false,
        rst: false,
        header_len: 20,
    }
}

fn fin_meta(seq: u32, ack_no: u32, wnd: u16) -> TcpMeta {
    TcpMeta {
        src_port: 45000,
        dst_port: 6000,
        seq,
        ack_no,
        wnd,
        syn: false,
        ack: true,
        fin: true,
        rst: false,
        header_len: 20,
    }
}

fn ip_meta() -> Ipv4Meta {
    Ipv4Meta { src: PEER_IP, dst: OUR_IP, protocol: 6, header_len: 20 }
}

/// Decode the TCP header fields of an emitted frame with etherparse.
fn decode(frame: &[u8]) -> (etherparse::Ipv4Header, etherparse::TcpHeader, Vec<u8>) {
    let (ip, rest) = etherparse::Ipv4Header::from_slice(frame).expect("ipv4 parses");
    let (tcp, payload) = etherparse::TcpHeader::from_slice(rest).expect("tcp parses");
    (ip, tcp, payload.to_vec())
}

/// Run the three-way handshake and return the established connection.
fn established() -> Connection {
    let (mut conn, synack) = Connection::accpect(&ip_meta(), &syn_meta(1000, 4096), &[], 0)
        .expect("SYN accepted");
    assert_eq!(conn.state, State::SynRcvd);
    let (_, tcp, _) = decode(&synack);
    assert!(tcp.syn && tcp.ack);
    let (_, frames) = conn.on_packet(&ack_meta(1001, 1, 4096), &[], 0);
    assert_eq!(conn.state, State::Estab);
    assert_eq!(frames.len(), 1); // the engine acknowledges the handshake ACK
    conn
}

#[test]
fn wrapping_lt_half_space() {
    assert!(wrapping_lt(1, 2));
    assert!(!wrapping_lt(2, 1));
    assert!(!wrapping_lt(5, 5));
    // across the wrap: 0xFFFFFFFE is "before" 2
    assert!(wrapping_lt(0xFFFF_FFFE, 2));
    assert!(!wrapping_lt(2, 0xFFFF_FFFE));
}

#[test]
fn between_wrapping_strict_interval() {
    assert!(is_between_wrapping(10, 11, 12));
    assert!(!is_between_wrapping(10, 10, 12));
    assert!(!is_between_wrapping(10, 12, 12));
    // interval straddling the wrap
    assert!(is_between_wrapping(0xFFFF_FFFE, 0, 5));
    assert!(!is_between_wrapping(0xFFFF_FFFE, 7, 5));
}

#[test]
fn state_synchronized() {
    assert!(!State::SynRcvd.is_synchronized());
    assert!(State::Estab.is_synchronized());
    assert!(State::FinWait1.is_synchronized());
    assert!(State::FinWait2.is_synchronized());
    assert!(State::Closing.is_synchronized());
    assert!(State::TimeWait.is_synchronized());
}

#[test]
fn three_way_handshake() {
    let (conn, synack) = Connection::accpect(&ip_meta(), &syn_meta(1000, 4096), &[], 0)
        .expect("SYN accepted");
    assert_eq!(conn.state, State::SynRcvd);
    assert_eq!(conn.rcv.irs, 1000);
    assert_eq!(conn.rcv.nxt, 1001);
    assert_eq!(conn.snd.una, 0);
    assert_eq!(conn.snd.nxt, 1); // the SYN consumed sequence 0
    let (ip, tcp, payload) = decode(&synack);
    assert_eq!(ip.protocol, 6);
    assert_eq!(ip.source, OUR_IP.to_be_bytes());
    assert_eq!(ip.destination, PEER_IP.to_be_bytes());
    assert!(tcp.syn && tcp.ack && !tcp.fin && !tcp.rst);
    assert_eq!(tcp.sequence_number, 0);
    assert_eq!(tcp.acknowledgment_number, 1001);
    assert_eq!(tcp.source_port, 6000);
    assert_eq!(tcp.destination_port, 45000);
    assert!(payload.is_empty());

    let mut conn = conn;
    let (_, _) = conn.on_packet(&ack_meta(1001, 1, 4096), &[], 0);
    assert_eq!(conn.state, State::Estab);
}

#[test]
fn syn_with_ack_is_dropped() {
    let mut meta = syn_meta(1000, 4096);
    meta.ack = true;
    assert!(Connection::accpect(&ip_meta(), &meta, &[], 0).is_none());
    let not_syn = ack_meta(1000, 0, 4096);
    assert!(Connection::accpect(&ip_meta(), &not_syn, &[], 0).is_none());
}

#[test]
fn single_segment_echo_read() {
    let mut conn = established();
    let (avail, frames) = conn.on_packet(&ack_meta(1001, 1, 4096), b"hello", 5);
    assert!(avail.read);
    assert_eq!(frames.len(), 1);
    let (_, tcp, payload) = decode(&frames[0]);
    assert_eq!(tcp.sequence_number, 1);
    assert_eq!(tcp.acknowledgment_number, 1006);
    assert!(tcp.ack && !tcp.syn && !tcp.fin);
    assert!(payload.is_empty());
    let data = conn.take_incoming(512);
    assert_eq!(data, b"hello".to_vec());
    assert_eq!(conn.rcv.nxt, 1006);
}

#[test]
fn retransmission_on_timeout() {
    let mut conn = established();
    let n = conn.enqueue(b"ping").expect("queue has room");
    assert_eq!(n, 4);

    // first tick puts the 4 bytes on the wire
    let frame = conn.on_tick(10).expect("data to send");
    let (_, tcp, payload) = decode(&frame);
    assert_eq!(tcp.sequence_number, 1);
    assert_eq!(payload, b"ping".to_vec());
    assert_eq!(conn.snd.nxt, 5);

    // the handshake ACK already fed one (zero-age) sample into the EWMA:
    // 0.8 * 120000 + 0.2 * 0
    let srtt0 = 4 * 120_000 / 5;
    assert_eq!(conn.timer.srtt, srtt0);

    // shortly after: nothing is overdue yet
    assert!(conn.on_tick(500).is_none());
    assert_eq!(conn.timer.srtt, srtt0);

    // once the wait exceeds one second and 1.5 x SRTT, resend from SND.UNA
    let frame = conn.on_tick(190_010).expect("retransmission");
    let (_, tcp, payload) = decode(&frame);
    assert_eq!(tcp.sequence_number, 1);
    assert_eq!(payload, b"ping".to_vec());
    assert_eq!(conn.timer.srtt, srtt0); // retransmission itself never moves SRTT

    // the eventual ACK drains the queue and feeds the EWMA with the age
    // since the last transmission: 0.8 * srtt + 0.2 * (200010 - 190010)
    let (_, _) = conn.on_packet(&ack_meta(1001, 5, 4096), &[], 200_010);
    assert_eq!(conn.snd.una, 5);
    assert_eq!(conn.unacked.len(), 0);
    assert_eq!(conn.timer.srtt, (4 * srtt0 + 10_000) / 5);
}

fn synthetic_at(rcv_nxt: u32) -> Connection {
    let (mut conn, _) = Connection::accpect(&ip_meta(), &syn_meta(1000, 8), &[], 0)
        .expect("SYN accepted");
    conn.state = State::Estab;
    conn.rcv.nxt = rcv_nxt;
    conn.snd.una = 1;
    conn.snd.nxt = 1;
    conn
}

#[test]
fn wraparound_rejected_before_window() {
    // RCV.NXT = 2: the four bytes at 0xFFFFFFFE..2 were all consumed, so
    // replaying them finds the segment entirely before the window
    let mut conn = synthetic_at(0x0000_0002);
    let (_, frames) = conn.on_packet(&ack_meta(0xFFFF_FFFE, 1, 8), b"abcd", 0);
    assert_eq!(conn.rcv.nxt, 0x0000_0002);
    assert!(conn.incoming.is_empty());
    // the rejection elicits exactly one bare ACK
    assert_eq!(frames.len(), 1);
    let (_, tcp, payload) = decode(&frames[0]);
    assert_eq!(tcp.acknowledgment_number, 0x0000_0002);
    assert!(payload.is_empty());
}

#[test]
fn wraparound_accepted_across_boundary() {
    // RCV.NXT = 0xFFFFFFFE, window 8: the same segment is in window and
    // RCV.NXT advances to 2, across the wrap
    let mut conn = synthetic_at(0xFFFF_FFFE);
    let (_, frames) = conn.on_packet(&ack_meta(0xFFFF_FFFE, 1, 8), b"abcd", 0);
    assert_eq!(conn.rcv.nxt, 2);
    assert_eq!(conn.take_incoming(16), b"abcd".to_vec());
    assert_eq!(frames.len(), 1);
    let (_, tcp, _) = decode(&frames[0]);
    assert_eq!(tcp.acknowledgment_number, 2);
}

#[test]
fn zero_window_only_admits_empty_at_nxt() {
    let mut conn = synthetic_at(5000);
    conn.rcv.wnd = 0;
    // an empty segment exactly at RCV.NXT is accepted (and acknowledged)
    let (_, frames) = conn.on_packet(&ack_meta(5000, 1, 0), &[], 0);
    assert_eq!(conn.rcv.nxt, 5000);
    assert_eq!(frames.len(), 1);
    // any payload is rejected: bare ACK, nothing delivered
    let (_, frames) = conn.on_packet(&ack_meta(5000, 1, 0), b"x", 0);
    assert!(conn.incoming.is_empty());
    assert_eq!(conn.rcv.nxt, 5000);
    assert_eq!(frames.len(), 1);
    let (_, tcp, payload) = decode(&frames[0]);
    assert_eq!(tcp.acknowledgment_number, 5000);
    assert!(payload.is_empty());
}

#[test]
fn graceful_close_from_peer() {
    let mut conn = established();
    // deliver "hello" so the close runs after data, as in the echo flow
    let (_, _) = conn.on_packet(&ack_meta(1001, 1, 4096), b"hello", 0);
    assert_eq!(conn.rcv.nxt, 1006);

    // local close schedules our FIN
    conn.close().expect("close from ESTABLISHED");
    assert_eq!(conn.state, State::FinWait1);
    let frame = conn.on_tick(10).expect("the FIN goes out");
    let (_, tcp, _) = decode(&frame);
    assert!(tcp.fin);
    assert_eq!(tcp.sequence_number, 1);
    assert_eq!(conn.closed_at, Some(1));

    // peer acknowledges our FIN (ISS + 2 = 2)
    let (_, _) = conn.on_packet(&ack_meta(1006, 2, 4096), &[], 20);
    assert_eq!(conn.state, State::FinWait2);

    // peer's FIN drives TIME_WAIT; the reader sees end of stream
    let (avail, frames) = conn.on_packet(&fin_meta(1006, 2, 4096), &[], 30);
    assert_eq!(conn.state, State::TimeWait);
    assert!(avail.read);
    assert!(conn.is_rcv_closed());
    assert_eq!(frames.len(), 2); // the data ACK and the FIN ACK
    let (_, tcp, _) = decode(&frames[1]);
    assert_eq!(tcp.acknowledgment_number, 1007);
}

#[test]
fn retransmitted_fin_leaves_incoming_alone() {
    let mut conn = established();
    let (_, _) = conn.on_packet(&ack_meta(1001, 1, 4096), b"hello", 0);
    conn.close().expect("close");
    let _ = conn.on_tick(10);
    let (_, _) = conn.on_packet(&ack_meta(1006, 2, 4096), &[], 20);
    let (_, _) = conn.on_packet(&fin_meta(1006, 2, 4096), &[], 30);
    assert_eq!(conn.state, State::TimeWait);
    assert_eq!(conn.rcv.nxt, 1007);

    // the peer retransmits its FIN: nothing may corrupt `incoming`
    let before = conn.incoming.clone();
    let (_, frames) = conn.on_packet(&fin_meta(1006, 2, 4096), &[], 40);
    assert_eq!(conn.incoming, before);
    assert_eq!(conn.rcv.nxt, 1007);
    assert_eq!(frames.len(), 1); // a bare ACK, nothing more
    assert_eq!(conn.take_incoming(64), b"hello".to_vec());
}

#[test]
fn duplicate_segment_delivery_is_idempotent() {
    let mut conn = established();
    let (_, _) = conn.on_packet(&ack_meta(1001, 1, 4096), b"hello", 0);
    assert_eq!(conn.rcv.nxt, 1006);

    // the same segment again: dropped with a bare ACK, no duplicate bytes
    let (_, frames) = conn.on_packet(&ack_meta(1001, 1, 4096), b"hello", 5);
    assert_eq!(conn.rcv.nxt, 1006);
    assert_eq!(frames.len(), 1);
    let (_, _, payload) = decode(&frames[0]);
    assert!(payload.is_empty());
    assert_eq!(conn.take_incoming(64), b"hello".to_vec());
    assert!(conn.take_incoming(64).is_empty());
}

#[test]
fn close_twice_and_from_time_wait() {
    let mut conn = established();
    conn.close().expect("first close");
    assert_eq!(conn.state, State::FinWait1);
    conn.close().expect("second close is idempotent");
    conn.state = State::TimeWait;
    assert_eq!(conn.close(), Err(trust::err::TcpErr::NotConnected));
}

#[test]
fn enqueue_respects_capacity() {
    let mut conn = established();
    let big = vec![7u8; 2000];
    let n = conn.enqueue(&big).expect("partial write");
    assert_eq!(n, 1024); // SENDQUEUE_SIZE
    assert_eq!(conn.enqueue(b"more"), Err(trust::err::TcpErr::WouldBlock));
    assert_eq!(conn.unacked.len(), 1024);
    assert_eq!(&conn.unacked[..], &big[..1024]);
}

#[test]
fn two_segments_deliver_in_order() {
    let mut conn = established();
    let (_, _) = conn.on_packet(&ack_meta(1001, 1, 4096), b"hello ", 0);
    let (_, _) = conn.on_packet(&ack_meta(1007, 1, 4096), b"world", 0);
    assert_eq!(conn.rcv.nxt, 1012);
    assert_eq!(conn.take_incoming(4), b"hell".to_vec());
    assert_eq!(conn.take_incoming(64), b"o world".to_vec());
    assert!(conn.take_incoming(64).is_empty());
}

#[test]
fn send_times_ordered_map() {
    let mut st = trust::timer::SendTimes::new();
    st.record(50, 500);
    st.record(10, 100);
    st.record(30, 300);
    assert_eq!(st.first_at_or_after(0), Some((10, 100)));
    assert_eq!(st.first_at_or_after(11), Some((30, 300)));
    assert_eq!(st.first_at_or_after(51), None);
    // re-recording a start replaces its instant
    st.record(30, 333);
    assert_eq!(st.first_at_or_after(30), Some((30, 333)));
    // retiring [10, 50) folds the two covered samples into the estimate,
    // in ascending key order
    let srtt = st.retire(10, 50, 1000, 100_000);
    let after_10 = (4 * 100_000u64 + 900) / 5;
    let after_30 = (4 * after_10 + 667) / 5;
    assert_eq!(srtt, after_30);
    assert_eq!(st.first_at_or_after(0), Some((50, 500)));
    assert_eq!(st.entries.len(), 1);
}

#[test]
fn fin_piggybacks_after_queue_drains() {
    let mut conn = established();
    conn.enqueue(b"bye").expect("queued");
    conn.close().expect("close");
    // one tick: data and FIN fit the window together
    let frame = conn.on_tick(10).expect("data + FIN");
    let (_, tcp, payload) = decode(&frame);
    assert_eq!(payload, b"bye".to_vec());
    assert!(tcp.fin);
    assert_eq!(conn.closed_at, Some(4)); // FIN occupies sequence 4 = 1 + 3
    assert_eq!(conn.snd.nxt, 5);
}
