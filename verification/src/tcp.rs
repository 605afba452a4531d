//! The per-connection TCP protocol engine.
//!
//! A [`Connection`] holds the RFC 793 state machine, the send and receive
//! sequence spaces, the two byte queues (`incoming` for reassembled data
//! not yet read, `unacked` for data handed to the stack and not yet
//! acknowledged) and the retransmission timer. Every observable transition
//! is specified by a spec-level step function over [`ConnModel`], the
//! mathematical image of a connection; the executable methods are proved
//! to follow those steps exactly and to emit precisely the segments the
//! steps prescribe.

use vstd::prelude::*;

use crate::seqnum::{
    is_between_wrapping, spec_is_between_wrapping, spec_wrapping_lt, wadd, wdist, wrapping_lt,
    wsub,
};
use crate::err::TcpErr;
use crate::timer::{
    st_bounded, st_first_at_or_after, st_insert, st_retire, st_sorted, st_srtt_after, Timer,
    INITIAL_SRTT_MS, TIME_MAX_MS,
};
use crate::wire::{encode_frame, frame_bytes, Ipv4Meta, SegmentHead, TcpMeta};

verus! {

/// Capacity of the outbound queue: an application write beyond it would
/// block.
pub const SENDQUEUE_SIZE: usize = 1024;

/// Largest payload of one emitted segment: the 1500-byte MTU minus the two
/// 20-byte headers.
pub const MAX_SEGMENT_PAYLOAD: usize = 1460;

/// Largest inbound TCP payload the dispatcher can hand over: a 1504-byte
/// frame minus the two minimal headers.
pub const MAX_INBOUND_PAYLOAD: usize = 1464;

/// The states of a connection. LISTEN and CLOSED are not materialized:
/// listeners are tracked separately, and CLOSED means absent from the
/// connection table.
#[derive(Clone, Copy, Debug, PartialEq, Eq, Structural)]
pub enum State {
    /// A SYN arrived and the SYN|ACK went out; waiting for its ACK.
    SynRcvd,
    /// The handshake completed; data flows.
    Estab,
    /// The application closed; our FIN is scheduled or in flight.
    FinWait1,
    /// Our FIN is acknowledged; waiting for the peer's.
    FinWait2,
    /// Both sides closed simultaneously (never entered by this core).
    Closing,
    /// The peer's FIN is acknowledged; the connection is done.
    TimeWait,
}

impl State {
    /// A synchronized state: every state after the handshake completed.
    pub fn is_synchronized(&self) -> (r: bool)
        ensures
            r == (*self != State::SynRcvd),
    {
        match self {
            State::Estab | State::FinWait1 | State::Closing | State::FinWait2
            | State::TimeWait => true,
            State::SynRcvd => false,
        }
    }
}

/// The send sequence space (RFC 793 section 3.2).
#[derive(Clone, Copy, Debug, PartialEq, Eq, Structural)]
pub struct SendSeuquenceSpace {
    /// Oldest unacknowledged sequence number.
    pub una: u32,
    /// Next sequence number to assign.
    pub nxt: u32,
    /// The peer's advertised receive window.
    pub wnd: u16,
    /// Urgent pointer (unused).
    pub up: u16,
    /// Segment sequence of the last window update (unused).
    pub wl1: usize,
    /// Segment acknowledgment of the last window update (unused).
    pub wl2: usize,
    /// Initial send sequence number.
    pub iss: u32,
}

/// The receive sequence space (RFC 793 section 3.2).
#[derive(Clone, Copy, Debug, PartialEq, Eq, Structural)]
pub struct ReceiveSequenceSpace {
    /// Next sequence number expected.
    pub nxt: u32,
    /// The window we advertise.
    pub wnd: u16,
    /// Urgent pointer (unused).
    pub up: u16,
    /// Initial receive sequence number.
    pub irs: u32,
}

/// What a connection reports back to the blocked application threads.
#[derive(Clone, Copy, Debug, PartialEq, Eq, Structural)]
pub struct Available {
    /// A reader may proceed: data is queued or no more will come.
    pub read: bool,
    /// A writer may proceed (reserved, never set by this core).
    pub write: bool,
}

/// An inbound segment, as the engine sees it: the TCP header fields that
/// matter plus the payload bytes.
pub struct SegIn {
    /// Sequence number of the first payload byte.
    pub seq: u32,
    /// Acknowledgment number.
    pub ack_no: u32,
    /// The window the peer advertises.
    pub wnd: u16,
    /// SYN flag.
    pub syn: bool,
    /// ACK flag.
    pub ack: bool,
    /// FIN flag.
    pub fin: bool,
    /// RST flag.
    pub rst: bool,
    /// The payload.
    pub payload: Seq<u8>,
}

/// An outbound segment at the model level. Every segment this stack emits
/// after the connection exists carries ACK, so only the other flags vary.
pub struct SegOut {
    /// Sequence number.
    pub seq: u32,
    /// Acknowledgment number.
    pub ack_no: u32,
    /// The window we advertise.
    pub wnd: u16,
    /// SYN flag.
    pub syn: bool,
    /// FIN flag.
    pub fin: bool,
    /// RST flag.
    pub rst: bool,
    /// The payload.
    pub payload: Seq<u8>,
}

/// The mathematical image of a connection: every field the protocol reads
/// or writes, with byte queues as sequences and the timer as an ordered
/// sequence of (start, instant) pairs.
#[verifier::ext_equal]
pub struct ConnModel {
    /// Protocol state.
    pub state: State,
    /// Send sequence space.
    pub snd: SendSeuquenceSpace,
    /// Receive sequence space.
    pub rcv: ReceiveSequenceSpace,
    /// A SYN is staged for the next emitted segment.
    pub tpl_syn: bool,
    /// A FIN is staged for the next emitted segment.
    pub tpl_fin: bool,
    /// An RST is staged for the next emitted segment (never staged by this
    /// core).
    pub tpl_rst: bool,
    /// Received, acknowledged bytes not yet consumed by the reader.
    pub incoming: Seq<u8>,
    /// Bytes the application handed over; the prefix up to `snd.nxt -
    /// snd.una` is on the wire.
    pub unacked: Seq<u8>,
    /// The application asked to close.
    pub closed: bool,
    /// The sequence number our FIN occupies, once scheduled.
    pub closed_at: Option<u32>,
    /// Transmission instants keyed by segment start, keys ascending.
    pub send_times: Seq<(u32, u64)>,
    /// Smoothed round-trip time, milliseconds.
    pub srtt: u64,
}

/// The outcome of one model step: the successor connection and the
/// segments emitted, in order.
#[verifier::ext_equal]
pub struct StepOut {
    /// The connection after the step.
    pub conn: ConnModel,
    /// The emitted segments.
    pub segs: Seq<SegOut>,
}

/// The smaller of two integers.
pub open spec fn imin(a: int, b: int) -> int {
    if a < b {
        a
    } else {
        b
    }
}

/// The octets a segment occupies in sequence space: payload plus one for
/// SYN plus one for FIN.
pub open spec fn seg_len(s: SegIn) -> int {
    s.payload.len() + (if s.syn {
        1int
    } else {
        0int
    }) + (if s.fin {
        1int
    } else {
        0int
    })
}

/// RFC 793 section 3.3 acceptance of an inbound segment: does it occupy a
/// portion of the receive window `[rcv_nxt, rcv_nxt + rcv_wnd)`?
pub open spec fn acceptable(rcv_nxt: u32, rcv_wnd: u16, seqn: u32, slen: int) -> bool {
    let wend = wadd(rcv_nxt, rcv_wnd as u32);
    if slen == 0 {
        if rcv_wnd == 0 {
            seqn == rcv_nxt
        } else {
            spec_is_between_wrapping(wsub(rcv_nxt, 1), seqn, wend)
        }
    } else if rcv_wnd == 0 {
        false
    } else {
        spec_is_between_wrapping(wsub(rcv_nxt, 1), seqn, wend) || spec_is_between_wrapping(
            wsub(rcv_nxt, 1),
            wadd(seqn, (slen - 1) as u32),
            wend,
        )
    }
}

/// States in which data is accepted and acknowledgments move `snd.una`.
pub open spec fn est_like(s: State) -> bool {
    s == State::Estab || s == State::FinWait1 || s == State::FinWait2
}

/// Composing one segment starting at `seq` with at most `limit` payload
/// bytes, exactly as the engine's emitter does it: select payload from
/// `unacked` at offset `seq - snd.una` (zero when `seq` sits just past the
/// scheduled FIN, and clamped into the queue), cap it at `limit` and at
/// the MTU allowance, consume any staged SYN/FIN, advance `snd.nxt` if the
/// segment ends beyond it, and record the transmission instant.
pub open spec fn step_write(c: ConnModel, seq: u32, limit: int, now: u64) -> StepOut {
    let off0 = wdist(seq, c.snd.una);
    let off1 = if c.closed_at matches Some(ca) && seq == wadd(ca, 1) {
        0int
    } else {
        off0
    };
    let off = imin(off1, c.unacked.len() as int);
    let pl_len = imin(imin(limit, c.unacked.len() - off), MAX_SEGMENT_PAYLOAD as int);
    let payload = c.unacked.subrange(off, off + pl_len);
    let next0 = wadd(seq, pl_len as u32);
    let next1 = if c.tpl_syn {
        wadd(next0, 1)
    } else {
        next0
    };
    let next2 = if c.tpl_fin {
        wadd(next1, 1)
    } else {
        next1
    };
    let nxt = if spec_wrapping_lt(c.snd.nxt, next2) {
        next2
    } else {
        c.snd.nxt
    };
    StepOut {
        conn: ConnModel {
            snd: (SendSeuquenceSpace { nxt, ..c.snd }),
            tpl_syn: false,
            tpl_fin: false,
            send_times: st_insert(c.send_times, seq, now),
            ..c
        },
        segs: seq![
            (SegOut {
                seq,
                ack_no: c.rcv.nxt,
                wnd: c.rcv.wnd,
                syn: c.tpl_syn,
                fin: c.tpl_fin,
                rst: c.tpl_rst,
                payload,
            }),
        ],
    }
}

/// The one segment of a singleton step.
pub open spec fn first_seg(w: StepOut) -> SegOut {
    w.segs[0]
}

/// The availability a connection reports: readable when data waits or no
/// more data will come.
pub open spec fn avail_of(c: ConnModel) -> Available {
    Available { read: c.state == State::TimeWait || c.incoming.len() > 0, write: false }
}

/// The model image of an inbound segment handed over by the dispatcher.
pub open spec fn seg_in_of(m: TcpMeta, payload: Seq<u8>) -> SegIn {
    SegIn {
        seq: m.seq,
        ack_no: m.ack_no,
        wnd: m.wnd,
        syn: m.syn,
        ack: m.ack,
        fin: m.fin,
        rst: m.rst,
        payload,
    }
}

/// The acknowledgment that completes the handshake: `SND.UNA - 1 < ack <=
/// SND.NXT`, all wrapping.
pub open spec fn ack_ok_synrcvd(c: ConnModel, ackn: u32) -> bool {
    spec_is_between_wrapping(wsub(c.snd.una, 1), ackn, wadd(c.snd.nxt, 1))
}

/// An acceptable acknowledgment in a synchronized state: `SND.UNA < ack
/// <= SND.NXT`, all wrapping.
pub open spec fn ack_ok(c: ConnModel, ackn: u32) -> bool {
    spec_is_between_wrapping(c.snd.una, ackn, wadd(c.snd.nxt, 1))
}

/// Step 3 of segment handling: in SYN_RCVD, an acknowledgment of our SYN
/// establishes the connection.
pub open spec fn step_establish(c: ConnModel, s: SegIn) -> ConnModel {
    if c.state == State::SynRcvd && ack_ok_synrcvd(c, s.ack_no) {
        ConnModel { state: State::Estab, ..c }
    } else {
        c
    }
}

/// Step 4 of segment handling: an acceptable acknowledgment drains the
/// acknowledged bytes from `unacked`, retires their send times into the
/// smoothed RTT in key order, and moves `SND.UNA` up to the acknowledgment.
pub open spec fn step_ack(c: ConnModel, s: SegIn, now: u64) -> ConnModel {
    if est_like(c.state) && ack_ok(c, s.ack_no) {
        let drained = imin(wdist(s.ack_no, c.snd.una), c.unacked.len() as int);
        ConnModel {
            snd: (SendSeuquenceSpace { una: s.ack_no, ..c.snd }),
            unacked: c.unacked.skip(drained),
            send_times: st_retire(c.send_times, c.snd.una, s.ack_no),
            srtt: st_srtt_after(c.send_times, c.srtt, c.snd.una, s.ack_no, now),
            ..c
        }
    } else {
        c
    }
}

/// Step 5 of segment handling: once both our SYN and our FIN are
/// acknowledged (`SND.UNA = ISS + 2`), FIN_WAIT_1 gives way to FIN_WAIT_2.
pub open spec fn step_finwait(c: ConnModel) -> ConnModel {
    if c.state == State::FinWait1 && c.snd.una == wadd(c.snd.iss, 2) {
        ConnModel { state: State::FinWait2, ..c }
    } else {
        c
    }
}

/// The offset into the segment payload where unread data begins:
/// `RCV.NXT - SEG.SEQ`, or zero when that lands past the payload (a
/// retransmitted FIN we already consumed).
pub open spec fn ingress_unread(c: ConnModel, s: SegIn) -> int {
    let u0 = wdist(c.rcv.nxt, s.seq);
    if u0 > s.payload.len() {
        0int
    } else {
        u0
    }
}

/// Step 6 of segment handling: append the unread part of the payload to
/// `incoming` and advance `RCV.NXT` over the data and any FIN.
pub open spec fn step_ingress(c: ConnModel, s: SegIn) -> ConnModel {
    ConnModel {
        incoming: c.incoming + s.payload.skip(ingress_unread(c, s)),
        rcv: (ReceiveSequenceSpace {
            nxt: wadd(s.seq, (s.payload.len() + (if s.fin {
                1int
            } else {
                0int
            })) as u32),
            ..c.rcv
        }),
        ..c
    }
}

/// The whole of inbound segment handling. An unacceptable segment elicits
/// one bare acknowledgment and changes nothing else; a segment without ACK
/// is ignored past the acceptance check; an acceptable ACK runs
/// establishment, acknowledgment processing, the FIN_WAIT transition, data
/// ingress with its acknowledgment, and — in FIN_WAIT_2 with a FIN — one
/// more acknowledgment and the move to TIME_WAIT.
pub open spec fn step_packet(c: ConnModel, s: SegIn, now: u64) -> StepOut {
    if !acceptable(c.rcv.nxt, c.rcv.wnd, s.seq, seg_len(s)) {
        step_write(c, c.snd.nxt, 0, now)
    } else if !s.ack {
        StepOut { conn: c, segs: Seq::empty() }
    } else {
        let c3 = step_finwait(step_ack(step_establish(c, s), s, now));
        if est_like(c3.state) {
            let c4 = step_ingress(c3, s);
            let w = step_write(c4, c4.snd.nxt, 0, now);
            if s.fin && c3.state == State::FinWait2 {
                let w2 = step_write(w.conn, w.conn.snd.nxt, 0, now);
                StepOut {
                    conn: (ConnModel { state: State::TimeWait, ..w2.conn }),
                    segs: w.segs + w2.segs,
                }
            } else {
                w
            }
        } else {
            StepOut { conn: c3, segs: Seq::empty() }
        }
    }
}

/// `a - b`, stopping at zero.
pub open spec fn sat_sub64(a: u64, b: u64) -> u64 {
    if a >= b {
        (a - b) as u64
    } else {
        0u64
    }
}

/// The retransmission test: the oldest send time at or after `SND.UNA`
/// has waited longer than one second and longer than one and a half times
/// the smoothed RTT.
pub open spec fn retransmit_due(c: ConnModel, now: u64) -> bool {
    st_first_at_or_after(c.send_times, c.snd.una) matches Some(e) && ({
        let waited = sat_sub64(now, e.1);
        waited > 1000 && 2 * waited > 3 * c.srtt
    })
}

/// One timer tick. Retransmission resends from `SND.UNA` up to the peer's
/// window, scheduling a FIN when the application closed and the window
/// leaves room, and pins `SND.NXT` back to the end of what was resent.
/// Otherwise new data up to the window is emitted, with the FIN
/// piggybacked once everything queued fits; with nothing to put on the
/// wire the tick changes nothing.
pub open spec fn step_tick(c: ConnModel, now: u64) -> StepOut {
    let nunacked = wdist(c.snd.nxt, c.snd.una);
    let unsent = if c.unacked.len() >= nunacked {
        c.unacked.len() - nunacked
    } else {
        0int
    };
    if retransmit_due(c, now) {
        let resend = imin(c.unacked.len() as int, c.snd.wnd as int);
        let c1 = if resend < c.snd.wnd as int && c.closed {
            ConnModel {
                tpl_fin: true,
                closed_at: Some(wadd(c.snd.una, c.unacked.len() as u32)),
                ..c
            }
        } else {
            c
        };
        let w = step_write(c1, c1.snd.una, resend, now);
        StepOut {
            conn: (ConnModel {
                snd: (SendSeuquenceSpace { nxt: wadd(c.snd.una, resend as u32), ..w.conn.snd }),
                ..w.conn
            }),
            segs: w.segs,
        }
    } else if unsent == 0 && c.closed_at is Some {
        StepOut { conn: c, segs: Seq::empty() }
    } else {
        let allowed = if c.snd.wnd as int >= nunacked {
            c.snd.wnd as int - nunacked
        } else {
            0int
        };
        if allowed == 0 {
            StepOut { conn: c, segs: Seq::empty() }
        } else {
            let send = imin(unsent, allowed);
            let schedule_fin = send < allowed && c.closed && c.closed_at is None;
            if send == 0 && !schedule_fin {
                StepOut { conn: c, segs: Seq::empty() }
            } else {
                let c1 = if schedule_fin {
                    ConnModel {
                        tpl_fin: true,
                        closed_at: Some(wadd(c.snd.nxt, unsent as u32)),
                        ..c
                    }
                } else {
                    c
                };
                step_write(c1, c1.snd.nxt, send, now)
            }
        }
    }
}

/// The connection a SYN creates: sequence spaces seeded from the segment
/// (ISS fixed at 0), empty queues, the SYN|ACK staged.
pub open spec fn accept_model(s: SegIn) -> ConnModel {
    ConnModel {
        state: State::SynRcvd,
        snd: (SendSeuquenceSpace { una: 0, nxt: 0, wnd: s.wnd, up: 0, wl1: 0, wl2: 0, iss: 0 }),
        rcv: (ReceiveSequenceSpace { nxt: wadd(s.seq, 1), wnd: s.wnd, up: 0, irs: s.seq }),
        tpl_syn: true,
        tpl_fin: false,
        tpl_rst: false,
        incoming: Seq::empty(),
        unacked: Seq::empty(),
        closed: false,
        closed_at: None,
        send_times: Seq::empty(),
        srtt: INITIAL_SRTT_MS,
    }
}

/// Accepting a SYN: the new connection and its SYN|ACK (which consumes
/// sequence number 0, so `SND.NXT` comes out 1).
pub open spec fn step_accept(s: SegIn, now: u64) -> StepOut {
    step_write(accept_model(s), 0, 0, now)
}

/// Closing from the application side: the close flag is set; from
/// SYN_RCVD or ESTABLISHED the state moves to FIN_WAIT_1; a second close
/// while FIN_WAIT is pending is idempotent; later states refuse.
pub open spec fn step_close(c: ConnModel) -> ConnModel {
    let c1 = ConnModel { closed: true, ..c };
    if c.state == State::SynRcvd || c.state == State::Estab {
        ConnModel { state: State::FinWait1, ..c1 }
    } else {
        c1
    }
}

/// The reset segment that aborts a connection: RST|ACK, no payload,
/// current send and receive cursors.
pub open spec fn rst_seg(c: ConnModel) -> SegOut {
    SegOut {
        seq: c.snd.nxt,
        ack_no: c.rcv.nxt,
        wnd: c.rcv.wnd,
        syn: false,
        fin: false,
        rst: true,
        payload: Seq::empty(),
    }
}

/// Whether a close is allowed in this state.
pub open spec fn close_ok(c: ConnModel) -> bool {
    c.state == State::SynRcvd || c.state == State::Estab || c.state == State::FinWait1
        || c.state == State::FinWait2
}

/// How many virtual octets may stand in the send window beyond queued
/// data: one for the SYN (ISS is acknowledged once and the slack is never
/// exceeded again) and one for the FIN once it is scheduled.
pub open spec fn virt_octets(c: ConnModel) -> int {
    1 + if c.closed_at is Some {
        1int
    } else {
        0int
    }
}

/// A connection as it stands between engine calls.
///
/// The invariant: no SYN, FIN or RST left staged in the header template
/// (each emission consumes them), the outbound queue within its capacity,
/// `snd.nxt` at most the queue length plus the virtual octets past
/// `snd.una`, a well-formed timer, and every recorded send time inside
/// that same window.
pub open spec fn conn_wf(c: ConnModel) -> bool {
    &&& !c.tpl_syn
    &&& !c.tpl_fin
    &&& !c.tpl_rst
    &&& c.unacked.len() <= SENDQUEUE_SIZE as int
    &&& wdist(c.snd.nxt, c.snd.una) <= c.unacked.len() + virt_octets(c)
    &&& st_sorted(c.send_times)
    &&& st_bounded(c.send_times)
    &&& c.srtt <= TIME_MAX_MS
    &&& forall|i: int|
        0 <= i < c.send_times.len() ==> wdist(#[trigger] c.send_times[i].0, c.snd.una)
            <= c.unacked.len() + virt_octets(c)
}

/// One TCP connection: the verified protocol engine.
pub struct Connection {
    /// Protocol state.
    pub state: State,
    /// Send sequence space.
    pub snd: SendSeuquenceSpace,
    /// Receive sequence space.
    pub rcv: ReceiveSequenceSpace,
    /// Our IPv4 address (big-endian `u32`), fixed at accept time.
    pub local_ip: u32,
    /// The peer's IPv4 address, fixed at accept time.
    pub remote_ip: u32,
    /// Our port.
    pub local_port: u16,
    /// The peer's port.
    pub remote_port: u16,
    /// A SYN is staged for the next emitted segment.
    pub tpl_syn: bool,
    /// A FIN is staged for the next emitted segment.
    pub tpl_fin: bool,
    /// An RST is staged for the next emitted segment.
    pub tpl_rst: bool,
    /// The retransmission timer.
    pub timer: Timer,
    /// Received, acknowledged bytes not yet consumed by the reader.
    pub incoming: Vec<u8>,
    /// Bytes the application handed over and the peer has not acknowledged.
    pub unacked: Vec<u8>,
    /// The application asked to close.
    pub closed: bool,
    /// The sequence number our FIN occupies, once scheduled.
    pub closed_at: Option<u32>,
}

impl Connection {
    /// The mathematical image of this connection.
    pub open spec fn model(self) -> ConnModel {
        ConnModel {
            state: self.state,
            snd: self.snd,
            rcv: self.rcv,
            tpl_syn: self.tpl_syn,
            tpl_fin: self.tpl_fin,
            tpl_rst: self.tpl_rst,
            incoming: self.incoming@,
            unacked: self.unacked@,
            closed: self.closed,
            closed_at: self.closed_at,
            send_times: self.timer.send_times.entries@,
            srtt: self.timer.srtt,
        }
    }

    /// The addresses and ports that never change after accept.
    pub open spec fn same_endpoints(self, other: Connection) -> bool {
        &&& self.local_ip == other.local_ip
        &&& self.remote_ip == other.remote_ip
        &&& self.local_port == other.local_port
        &&& self.remote_port == other.remote_port
    }

    /// The TCP header an emitted model segment translates to, on this
    /// connection's endpoints. ACK is always set.
    pub open spec fn head_for(self, s: SegOut) -> SegmentHead {
        SegmentHead {
            src_port: self.local_port,
            dst_port: self.remote_port,
            seq: s.seq,
            ack_no: s.ack_no,
            wnd: s.wnd,
            syn: s.syn,
            ack: true,
            fin: s.fin,
            rst: s.rst,
        }
    }

    /// The emitted frames carry exactly the model's segments, in order,
    /// each one encoded on this connection's endpoints.
    pub open spec fn emits(self, frames: Seq<Vec<u8>>, segs: Seq<SegOut>) -> bool {
        &&& frames.len() == segs.len()
        &&& forall|i: int|
            0 <= i < segs.len() ==> (#[trigger] frames[i])@ == frame_bytes(
                self.local_ip,
                self.remote_ip,
                self.head_for(segs[i]),
                segs[i].payload,
            )
    }

    /// Compose and return one outbound segment starting at `seq`, carrying
    /// at most `limit` bytes of queued data, exactly as [`step_write`]
    /// prescribes.
    #[verifier::rlimit(60)]
    fn write_segment(&mut self, seq: u32, limit: usize, now: u64) -> (frame: Vec<u8>)
        requires
            old(self).timer.wf(),
            now <= TIME_MAX_MS,
        ensures
            final(self).model() == step_write(old(self).model(), seq, limit as int, now).conn,
            frame@ == frame_bytes(
                old(self).local_ip,
                old(self).remote_ip,
                old(self).head_for(first_seg(step_write(old(self).model(), seq, limit as int, now))),
                first_seg(step_write(old(self).model(), seq, limit as int, now)).payload,
            ),
            final(self).same_endpoints(*old(self)),
            final(self).timer.wf(),
    {
        let ghost c0 = self.model();
        let ghost w = step_write(c0, seq, limit as int, now);
        let mut off: usize = seq.wrapping_sub(self.snd.una) as usize;
        if let Some(ca) = self.closed_at {
            if seq == ca.wrapping_add(1) {
                off = 0;
            }
        }
        if off > self.unacked.len() {
            off = self.unacked.len();
        }
        let mut pl_len: usize = self.unacked.len() - off;
        if pl_len > limit {
            pl_len = limit;
        }
        if pl_len > MAX_SEGMENT_PAYLOAD {
            pl_len = MAX_SEGMENT_PAYLOAD;
        }
        proof {
            let off1 = if c0.closed_at matches Some(ca) && seq == wadd(ca, 1) {
                0int
            } else {
                wdist(seq, c0.snd.una)
            };
            assert(off as int == imin(off1, c0.unacked.len() as int));
            assert(pl_len as int == imin(
                imin(limit as int, c0.unacked.len() - off),
                MAX_SEGMENT_PAYLOAD as int,
            ));
        }
        let head = SegmentHead {
            src_port: self.local_port,
            dst_port: self.remote_port,
            seq,
            ack_no: self.rcv.nxt,
            wnd: self.rcv.wnd,
            syn: self.tpl_syn,
            ack: true,
            fin: self.tpl_fin,
            rst: self.tpl_rst,
        };
        let payload = &self.unacked.as_slice()[off..off + pl_len];
        proof {
            assert(payload@ == first_seg(w).payload);
            assert(head == old(self).head_for(first_seg(w)));
        }
        let frame = encode_frame(self.local_ip, self.remote_ip, &head, payload);
        let mut next_seq = seq.wrapping_add(pl_len as u32);
        if self.tpl_syn {
            next_seq = next_seq.wrapping_add(1);
            self.tpl_syn = false;
        }
        if self.tpl_fin {
            next_seq = next_seq.wrapping_add(1);
            self.tpl_fin = false;
        }
        if wrapping_lt(self.snd.nxt, next_seq) {
            self.snd.nxt = next_seq;
        }
        proof {
            assert(self.snd == w.conn.snd);
        }
        self.timer.send_times.record(seq, now);
        proof {
            assert(self.model() =~= w.conn);
        }
        frame
    }

    /// No more data will arrive: the peer's FIN has been processed to the
    /// end.
    pub fn is_rcv_closed(&self) -> (r: bool)
        ensures
            r == (self.state == State::TimeWait),
    {
        self.state == State::TimeWait
    }

    /// What the blocked application threads may do now.
    pub fn availability(&self) -> (r: Available)
        ensures
            r == avail_of(self.model()),
    {
        let read = self.is_rcv_closed() || !self.incoming.is_empty();
        Available { read, write: false }
    }

    /// Handle one inbound segment addressed to this connection, following
    /// [`step_packet`] exactly: the returned frames are the emitted
    /// segments in order, and the availability reflects the new state.
    #[verifier::rlimit(100)]
    pub fn on_packet(&mut self, tcph: &TcpMeta, data: &[u8], now: u64) -> (r: (
        Available,
        Vec<Vec<u8>>,
    ))
        requires
            old(self).timer.wf(),
            now <= TIME_MAX_MS,
            data@.len() <= MAX_INBOUND_PAYLOAD,
        ensures
            ({
                let step = step_packet(old(self).model(), seg_in_of(*tcph, data@), now);
                &&& final(self).model() == step.conn
                &&& old(self).emits(r.1@, step.segs)
                &&& r.0 == avail_of(step.conn)
                &&& final(self).same_endpoints(*old(self))
                &&& final(self).timer.wf()
            }),
    {
        let ghost c0 = self.model();
        let ghost s = seg_in_of(*tcph, data@);
        let ghost step = step_packet(c0, s, now);
        let mut out: Vec<Vec<u8>> = Vec::new();

        let seqn = tcph.seq;
        let mut slen: u32 = data.len() as u32;
        if tcph.syn {
            slen = slen + 1;
        }
        if tcph.fin {
            slen = slen + 1;
        }
        let wend = self.rcv.nxt.wrapping_add(self.rcv.wnd as u32);
        let okay = if slen == 0 {
            if self.rcv.wnd == 0 {
                seqn == self.rcv.nxt
            } else {
                is_between_wrapping(self.rcv.nxt.wrapping_sub(1), seqn, wend)
            }
        } else if self.rcv.wnd == 0 {
            false
        } else {
            is_between_wrapping(self.rcv.nxt.wrapping_sub(1), seqn, wend) || is_between_wrapping(
                self.rcv.nxt.wrapping_sub(1),
                seqn.wrapping_add(slen - 1),
                wend,
            )
        };
        proof {
            assert(slen as int == seg_len(s));
            assert(okay == acceptable(c0.rcv.nxt, c0.rcv.wnd, s.seq, seg_len(s)));
        }
        if !okay {
            let nxt = self.snd.nxt;
            let frame = self.write_segment(nxt, 0, now);
            out.push(frame);
            let avail = self.availability();
            return (avail, out);
        }
        if !tcph.ack {
            let avail = self.availability();
            return (avail, out);
        }

        let ackn = tcph.ack_no;
        if self.state == State::SynRcvd {
            if is_between_wrapping(
                self.snd.una.wrapping_sub(1),
                ackn,
                self.snd.nxt.wrapping_add(1),
            ) {
                self.state = State::Estab;
            }
        }
        let ghost c1 = step_establish(c0, s);
        proof {
            assert(self.model() =~= c1);
        }

        let est = self.state == State::Estab || self.state == State::FinWait1 || self.state
            == State::FinWait2;
        if est && is_between_wrapping(self.snd.una, ackn, self.snd.nxt.wrapping_add(1)) {
            let mut drained: usize = ackn.wrapping_sub(self.snd.una) as usize;
            if drained > self.unacked.len() {
                drained = self.unacked.len();
            }
            let rest = self.unacked.split_off(drained);
            self.unacked = rest;
            let new_srtt = self.timer.send_times.retire(self.snd.una, ackn, now, self.timer.srtt);
            self.timer.srtt = new_srtt;
            self.snd.una = ackn;
        }
        let ghost c2 = step_ack(c1, s, now);
        proof {
            assert(self.model() =~= c2);
        }

        if self.state == State::FinWait1 && self.snd.una == self.snd.iss.wrapping_add(2) {
            self.state = State::FinWait2;
        }
        let ghost c3 = step_finwait(c2);
        proof {
            assert(self.model() =~= c3);
        }

        let est2 = self.state == State::Estab || self.state == State::FinWait1 || self.state
            == State::FinWait2;
        if est2 {
            let mut unread: usize = self.rcv.nxt.wrapping_sub(seqn) as usize;
            if unread > data.len() {
                unread = 0;
            }
            self.incoming.extend_from_slice(&data[unread..data.len()]);
            let mut adv: u32 = data.len() as u32;
            if tcph.fin {
                adv = adv + 1;
            }
            self.rcv.nxt = seqn.wrapping_add(adv);
            let ghost c4 = step_ingress(c3, s);
            proof {
                assert(unread as int == ingress_unread(c3, s));
                assert(self.model() =~= c4);
            }
            let nxt = self.snd.nxt;
            let frame = self.write_segment(nxt, 0, now);
            out.push(frame);
            let ghost w = step_write(c4, c4.snd.nxt, 0, now);
            if tcph.fin && self.state == State::FinWait2 {
                let nxt2 = self.snd.nxt;
                let frame2 = self.write_segment(nxt2, 0, now);
                out.push(frame2);
                self.state = State::TimeWait;
                proof {
                    let w2 = step_write(w.conn, w.conn.snd.nxt, 0, now);
                    assert(self.model() =~= step.conn);
                    assert(out@.len() == 2 && step.segs =~= w.segs + w2.segs);
                    assert(out@[0] == frame && out@[1] == frame2);
                }
            } else {
                proof {
                    assert(self.model() =~= step.conn);
                    assert(out@.len() == 1 && out@[0] == frame);
                }
            }
        }
        let avail = self.availability();
        (avail, out)
    }

    /// Advance the retransmission timer once, following [`step_tick`]:
    /// resend from `SND.UNA` when the oldest in-flight segment has waited
    /// too long, otherwise put queued data (and the FIN, once everything
    /// fits) on the wire up to the peer's window.
    #[verifier::rlimit(100)]
    pub fn on_tick(&mut self, now: u64) -> (r: Option<Vec<u8>>)
        requires
            old(self).timer.wf(),
            now <= TIME_MAX_MS,
        ensures
            ({
                let step = step_tick(old(self).model(), now);
                &&& final(self).model() == step.conn
                &&& (r is Some <==> step.segs.len() == 1)
                &&& (r matches Some(f) ==> step.segs.len() == 1 && f@ == frame_bytes(
                    old(self).local_ip,
                    old(self).remote_ip,
                    old(self).head_for(step.segs[0]),
                    step.segs[0].payload,
                ))
                &&& (r is None ==> step.segs.len() == 0)
                &&& final(self).same_endpoints(*old(self))
                &&& final(self).timer.wf()
            }),
    {
        let ghost c0 = self.model();
        let ghost step = step_tick(c0, now);

        let nunacked_u32 = self.snd.nxt.wrapping_sub(self.snd.una);
        let nunacked = nunacked_u32 as usize;
        let unsent = if self.unacked.len() >= nunacked {
            self.unacked.len() - nunacked
        } else {
            0
        };

        let oldest = self.timer.send_times.first_at_or_after(self.snd.una);
        let due = match oldest {
            Some(e) => {
                let waited = now.saturating_sub(e.1);
                waited > 1000 && 2 * waited > 3 * self.timer.srtt
            },
            None => false,
        };
        proof {
            assert(due == retransmit_due(c0, now));
        }

        if due {
            let resend = if self.unacked.len() < self.snd.wnd as usize {
                self.unacked.len()
            } else {
                self.snd.wnd as usize
            };
            if resend < self.snd.wnd as usize && self.closed {
                self.tpl_fin = true;
                self.closed_at = Some(self.snd.una.wrapping_add(self.unacked.len() as u32));
            }
            let una = self.snd.una;
            let frame = self.write_segment(una, resend, now);
            self.snd.nxt = self.snd.una.wrapping_add(resend as u32);
            proof {
                assert(self.model() =~= step.conn);
            }
            Some(frame)
        } else if unsent == 0 && self.closed_at.is_some() {
            None
        } else {
            let allowed = if self.snd.wnd as usize >= nunacked {
                self.snd.wnd as usize - nunacked
            } else {
                0
            };
            if allowed == 0 {
                return None;
            }
            let send = if unsent < allowed {
                unsent
            } else {
                allowed
            };
            let schedule_fin = send < allowed && self.closed && self.closed_at.is_none();
            if send == 0 && !schedule_fin {
                return None;
            }
            if schedule_fin {
                self.tpl_fin = true;
                self.closed_at = Some(self.snd.nxt.wrapping_add(unsent as u32));
            }
            let nxt = self.snd.nxt;
            let frame = self.write_segment(nxt, send, now);
            proof {
                assert(self.model() =~= step.conn);
            }
            Some(frame)
        }
    }

    /// Accept a SYN addressed to a bound port: create the connection (our
    /// address and port are the segment's destination) and compose its
    /// SYN|ACK. Any segment without SYN, or with ACK, is dropped.
    pub fn accpect(iph: &Ipv4Meta, tcph: &TcpMeta, data: &[u8], now: u64) -> (r: Option<
        (Connection, Vec<u8>),
    >)
        requires
            now <= TIME_MAX_MS,
        ensures
            (r is Some <==> (tcph.syn && !tcph.ack)),
            (r matches Some(p) ==> {
                let step = step_accept(seg_in_of(*tcph, data@), now);
                &&& p.0.model() == step.conn
                &&& p.0.local_ip == iph.dst
                &&& p.0.remote_ip == iph.src
                &&& p.0.local_port == tcph.dst_port
                &&& p.0.remote_port == tcph.src_port
                &&& p.0.timer.wf()
                &&& p.1@ == frame_bytes(
                    iph.dst,
                    iph.src,
                    p.0.head_for(first_seg(step)),
                    first_seg(step).payload,
                )
            }),
    {
        if !tcph.syn || tcph.ack {
            return None;
        }
        let mut conn = Connection {
            state: State::SynRcvd,
            snd: SendSeuquenceSpace {
                una: 0,
                nxt: 0,
                wnd: tcph.wnd,
                up: 0,
                wl1: 0,
                wl2: 0,
                iss: 0,
            },
            rcv: ReceiveSequenceSpace {
                nxt: tcph.seq.wrapping_add(1),
                wnd: tcph.wnd,
                up: 0,
                irs: tcph.seq,
            },
            local_ip: iph.dst,
            remote_ip: iph.src,
            local_port: tcph.dst_port,
            remote_port: tcph.src_port,
            tpl_syn: true,
            tpl_fin: false,
            tpl_rst: false,
            timer: Timer::new(),
            incoming: Vec::new(),
            unacked: Vec::new(),
            closed: false,
            closed_at: None,
        };
        proof {
            assert(conn.model() =~= accept_model(seg_in_of(*tcph, data@)));
        }
        let frame = conn.write_segment(0, 0, now);
        Some((conn, frame))
    }

    /// Close from the application side: schedule the FIN. Fails with
    /// `NotConnected` in a state that cannot close again; the close flag
    /// is set either way, as the engine has always done.
    pub fn close(&mut self) -> (r: Result<(), TcpErr>)
        ensures
            final(self).model() == step_close(old(self).model()),
            r is Ok <==> close_ok(old(self).model()),
            r matches Err(e) ==> e == TcpErr::NotConnected,
            final(self).same_endpoints(*old(self)),
            final(self).timer.wf() == old(self).timer.wf(),
    {
        self.closed = true;
        match self.state {
            State::Estab | State::SynRcvd => {
                self.state = State::FinWait1;
                Ok(())
            },
            State::FinWait1 | State::FinWait2 => Ok(()),
            _ => Err(TcpErr::NotConnected),
        }
    }

    /// Append what fits of `buf` to the outbound queue: everything up to
    /// the queue's remaining capacity. With the queue already full the
    /// caller would have to wait.
    pub fn enqueue(&mut self, buf: &[u8]) -> (r: Result<usize, TcpErr>)
        ensures
            old(self).unacked@.len() >= SENDQUEUE_SIZE ==> (r == Result::<
                usize,
                TcpErr,
            >::Err(TcpErr::WouldBlock) && *final(self) == *old(self)),
            old(self).unacked@.len() < SENDQUEUE_SIZE ==> ({
                let n = imin(SENDQUEUE_SIZE - old(self).unacked@.len(), buf@.len() as int);
                &&& r == Result::<usize, TcpErr>::Ok(n as usize)
                &&& final(self).unacked@ == old(self).unacked@ + buf@.take(n)
                &&& *final(self) == (Connection { unacked: final(self).unacked, ..*old(self) })
            }),
    {
        if self.unacked.len() >= SENDQUEUE_SIZE {
            return Err(TcpErr::WouldBlock);
        }
        let room = SENDQUEUE_SIZE - self.unacked.len();
        let n = if room < buf.len() {
            room
        } else {
            buf.len()
        };
        self.unacked.extend_from_slice(&buf[0..n]);
        Ok(n)
    }

    /// The wire bytes of the reset that aborts this connection (RST|ACK,
    /// no payload). Composing it changes nothing: the connection is about
    /// to be dropped.
    pub fn rst_frame(&self) -> (r: Vec<u8>)
        ensures
            r@ == frame_bytes(
                self.local_ip,
                self.remote_ip,
                self.head_for(rst_seg(self.model())),
                Seq::<u8>::empty(),
            ),
    {
        let head = SegmentHead {
            src_port: self.local_port,
            dst_port: self.remote_port,
            seq: self.snd.nxt,
            ack_no: self.rcv.nxt,
            wnd: self.rcv.wnd,
            syn: false,
            ack: true,
            fin: false,
            rst: true,
        };
        let nothing: Vec<u8> = Vec::new();
        let frame = encode_frame(self.local_ip, self.remote_ip, &head, nothing.as_slice());
        proof {
            assert(rst_seg(self.model()).payload =~= nothing@);
        }
        frame
    }

    /// Hand at most `max` bytes from the front of `incoming` to the
    /// reader, in order, draining exactly what is returned.
    pub fn take_incoming(&mut self, max: usize) -> (r: Vec<u8>)
        ensures
            ({
                let n = imin(max as int, old(self).incoming@.len() as int);
                &&& r@ == old(self).incoming@.take(n)
                &&& final(self).incoming@ == old(self).incoming@.skip(n)
                &&& *final(self) == (Connection { incoming: final(self).incoming, ..*old(self) })
            }),
    {
        let n = if max < self.incoming.len() {
            max
        } else {
            self.incoming.len()
        };
        let mut rest = self.incoming.split_off(n);
        core::mem::swap(&mut self.incoming, &mut rest);
        rest
    }
}

} // verus!
