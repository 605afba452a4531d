//! The protocol laws: what holds of every reachable connection.
//!
//! [`conn_wf`] is the connection invariant. The lemmas here prove that
//! accepting a SYN establishes it and that every engine step — inbound
//! segment, timer tick, application close — preserves it; and they state
//! the observable laws of the engine: what an out-of-window segment does,
//! what a duplicate delivery does, what the zero-window rule admits, which
//! cursors every emitted acknowledgment carries, and in what order
//! received bytes reach the reader.

use vstd::prelude::*;

use crate::seqnum::{spec_is_between_wrapping, spec_wrapping_lt, wadd, wdist, wsub};
use crate::tcp::{
    acceptable, accept_model, conn_wf, est_like, imin, ingress_unread, seg_len, step_accept,
    step_ack, step_close, step_establish, step_finwait, step_ingress, step_packet, step_tick,
    step_write, virt_octets, ConnModel, SegIn, SegOut, State, MAX_INBOUND_PAYLOAD,
    SENDQUEUE_SIZE,
};
use crate::timer::{
    lemma_st_insert_props, lemma_st_retire_props, lemma_st_srtt_bound, st_bounded, st_insert,
    st_retired, st_sorted, TIME_MAX_MS,
};

verus! {

/// Adding a small count to a point and measuring back gives the count.
proof fn lemma_wadd_cancel(a: u32, k: u32)
    ensures
        wsub(wadd(a, k), a) == k,
{
    assert(wsub(wadd(a, k), a) == k) by (bit_vector);
}

/// A segment starting at sequence zero never lands just past a FIN that
/// sits within a small window of it.
proof fn lemma_small_window_no_collision(una: u32, ca: u32, d: u32)
    requires
        ca == wadd(una, d),
        0 < wadd(d, 1) < 0x8000_0000u32,
    ensures
        una != wadd(ca, 1),
{
    assert(una != wadd(wadd(una, d), 1)) by (bit_vector)
        requires
            0 < wadd(d, 1) < 0x8000_0000u32,
    ;
}

/// An acceptable acknowledgment splits the send window: it sits at a
/// positive distance from `una`, no farther than `nxt`, and what remains
/// in flight is the window minus that distance.
proof fn lemma_ack_distance(una: u32, ackn: u32, nxt: u32)
    requires
        spec_is_between_wrapping(una, ackn, wadd(nxt, 1)),
        wsub(nxt, una) <= 1026,
    ensures
        1 <= wsub(ackn, una) <= wsub(nxt, una),
        wsub(nxt, ackn) == wsub(nxt, una) - wsub(ackn, una),
{
    assert(1 <= wsub(ackn, una) <= wsub(nxt, una) && wsub(nxt, ackn) == wsub(nxt, una) - wsub(
        ackn,
        una,
    )) by (bit_vector)
        requires
            spec_is_between_wrapping(una, ackn, wadd(nxt, 1)),
            wsub(nxt, una) <= 1026,
    ;
}

/// A key inside a small window that the acknowledgment `[una, ackn)` did
/// not cover lies at or past `ackn`, at the expected distance.
proof fn lemma_key_survives(una: u32, ackn: u32, k: u32)
    requires
        !st_retired(k, una, ackn),
        wsub(k, una) <= 1026,
        1 <= wsub(ackn, una) <= 1026,
    ensures
        wsub(ackn, una) <= wsub(k, una),
        wsub(k, ackn) == wsub(k, una) - wsub(ackn, una),
{
    assert(wsub(ackn, una) <= wsub(k, una) && wsub(k, ackn) == wsub(k, una) - wsub(ackn, una))
        by (bit_vector)
        requires
            !(k == una || spec_is_between_wrapping(una, k, ackn)),
            wsub(k, una) <= 1026,
            1 <= wsub(ackn, una) <= 1026,
    ;
}

/// **Send-window invariant.** In every well-formed connection the left
/// edge sits no later than the right edge plus slack — `wrapping_lt(una -
/// 1, nxt + 1)` — and the span of the window never exceeds the queued
/// bytes plus the virtual SYN and FIN octets. (The span can exceed the
/// queue alone: right after the SYN|ACK the window holds the SYN octet
/// and the queue is empty, and a scheduled FIN adds one more.)
pub proof fn lemma_send_window_invariant(c: ConnModel)
    requires
        conn_wf(c),
    ensures
        spec_wrapping_lt(wsub(c.snd.una, 1), wadd(c.snd.nxt, 1)),
        wdist(c.snd.nxt, c.snd.una) <= c.unacked.len() + virt_octets(c),
{
    let una = c.snd.una;
    let nxt = c.snd.nxt;
    assert(spec_wrapping_lt(wsub(una, 1), wadd(nxt, 1))) by (bit_vector)
        requires
            wsub(nxt, una) <= 1026,
    ;
}

/// The segment a bare acknowledgment write composes, and what it leaves
/// behind: everything unchanged but the send-time record for `snd.nxt`.
pub proof fn lemma_step_write_bare(c: ConnModel, now: u64)
    requires
        !c.tpl_syn,
        !c.tpl_fin,
    ensures
        ({
            let w = step_write(c, c.snd.nxt, 0, now);
            &&& w.conn == (ConnModel {
                send_times: st_insert(c.send_times, c.snd.nxt, now),
                ..c
            })
            &&& w.segs =~= seq![
                (SegOut {
                    seq: c.snd.nxt,
                    ack_no: c.rcv.nxt,
                    wnd: c.rcv.wnd,
                    syn: false,
                    fin: false,
                    rst: c.tpl_rst,
                    payload: Seq::empty(),
                }),
            ]
        }),
{
    let w = step_write(c, c.snd.nxt, 0, now);
    let nxt = c.snd.nxt;
    assert(spec_wrapping_lt(nxt, nxt) == false) by (bit_vector);
    assert(wadd(nxt, 0) == nxt) by (bit_vector);
    let off0 = wdist(c.snd.nxt, c.snd.una);
    let off1 = if c.closed_at matches Some(ca) && c.snd.nxt == wadd(ca, 1) {
        0int
    } else {
        off0
    };
    let off = imin(off1, c.unacked.len() as int);
    assert(c.unacked.subrange(off, off) =~= Seq::empty());
    assert(w.conn =~= (ConnModel { send_times: st_insert(c.send_times, c.snd.nxt, now), ..c }));
}

/// **Out-of-window replay.** A segment the acceptance test rejects is
/// dropped: the connection is unchanged but for the bare acknowledgment's
/// send-time record, and that one acknowledgment — current `SND.NXT`,
/// current `RCV.NXT`, no payload, no flags — is all that goes out.
pub proof fn lemma_replay_dropped(c: ConnModel, s: SegIn, now: u64)
    requires
        conn_wf(c),
        !acceptable(c.rcv.nxt, c.rcv.wnd, s.seq, seg_len(s)),
    ensures
        ({
            let step = step_packet(c, s, now);
            &&& step.conn == (ConnModel {
                send_times: st_insert(c.send_times, c.snd.nxt, now),
                ..c
            })
            &&& step.segs =~= seq![
                (SegOut {
                    seq: c.snd.nxt,
                    ack_no: c.rcv.nxt,
                    wnd: c.rcv.wnd,
                    syn: false,
                    fin: false,
                    rst: false,
                    payload: Seq::empty(),
                }),
            ]
        }),
{
    lemma_step_write_bare(c, now);
}

/// **Zero-window rule.** With a closed receive window, exactly the empty
/// segments standing at `RCV.NXT` are acceptable; everything else is
/// rejected (and, by the replay law, elicits only a bare acknowledgment).
pub proof fn lemma_zero_window(rcv_nxt: u32, seqn: u32, slen: int)
    ensures
        acceptable(rcv_nxt, 0, seqn, slen) <==> (slen == 0 && seqn == rcv_nxt),
{
}

/// **Retransmitted FIN.** A bare FIN whose sequence number this
/// connection has already consumed (`RCV.NXT` is one past it) is
/// rejected, so neither `incoming` nor `RCV.NXT` moves: the reassembled
/// stream cannot be corrupted by it.
pub proof fn lemma_old_fin_ignored(c: ConnModel, s: SegIn, now: u64)
    requires
        conn_wf(c),
        s.fin,
        !s.syn,
        s.payload.len() == 0,
        s.seq == wsub(c.rcv.nxt, 1),
    ensures
        step_packet(c, s, now).conn.incoming == c.incoming,
        step_packet(c, s, now).conn.rcv.nxt == c.rcv.nxt,
{
    let nxt = c.rcv.nxt;
    assert(!spec_wrapping_lt(wsub(nxt, 1), wsub(nxt, 1))) by (bit_vector);
    assert(wadd(wsub(nxt, 1), 0) == wsub(nxt, 1)) by (bit_vector);
    assert(!acceptable(c.rcv.nxt, c.rcv.wnd, s.seq, seg_len(s)));
    lemma_replay_dropped(c, s, now);
}

/// **Acknowledgment cursors.** Every segment a packet step emits carries
/// the acknowledgment and sequence cursors the connection holds when the
/// step completes: `ack = RCV.NXT` and `seq = SND.NXT`.
pub proof fn lemma_ack_carries_cursors(c: ConnModel, s: SegIn, now: u64)
    requires
        conn_wf(c),
    ensures
        ({
            let step = step_packet(c, s, now);
            forall|i: int|
                0 <= i < step.segs.len() ==> (#[trigger] step.segs[i]).ack_no == step.conn.rcv.nxt
                    && step.segs[i].seq == step.conn.snd.nxt
        }),
{
    if !acceptable(c.rcv.nxt, c.rcv.wnd, s.seq, seg_len(s)) {
        lemma_replay_dropped(c, s, now);
    } else if s.ack {
        let c3 = step_finwait(step_ack(step_establish(c, s), s, now));
        if est_like(c3.state) {
            let c4 = step_ingress(c3, s);
            lemma_step_write_bare(c4, now);
            let w = step_write(c4, c4.snd.nxt, 0, now);
            if s.fin && c3.state == State::FinWait2 {
                lemma_step_write_bare(w.conn, now);
            }
        }
    }
}

/// **Send times are recorded.** Every composed segment leaves its
/// starting sequence number in `send_times`, stamped with the
/// transmission instant; and in a well-formed connection no recorded key
/// lies outside the send window (none strictly before `SND.UNA`).
pub proof fn lemma_send_time_recorded(c: ConnModel, seq: u32, limit: int, now: u64)
    requires
        st_sorted(c.send_times),
    ensures
        step_write(c, seq, limit, now).conn.send_times.contains((seq, now)),
{
    lemma_st_insert_props(c.send_times, seq, now);
}

/// Accepting a SYN yields a well-formed connection, and its SYN|ACK
/// carries sequence 0, acknowledges one past the peer's sequence, and
/// advertises the peer's own window back.
pub proof fn lemma_accept_wf(s: SegIn, now: u64)
    requires
        now <= TIME_MAX_MS,
    ensures
        conn_wf(step_accept(s, now).conn),
        step_accept(s, now).conn.snd.nxt == 1,
        step_accept(s, now).conn.snd.una == 0,
        step_accept(s, now).conn.rcv.nxt == wadd(s.seq, 1),
        step_accept(s, now).segs =~= seq![
            (SegOut {
                seq: 0,
                ack_no: wadd(s.seq, 1),
                wnd: s.wnd,
                syn: true,
                fin: false,
                rst: false,
                payload: Seq::empty(),
            }),
        ],
{
    let a = accept_model(s);
    let w = step_write(a, 0, 0, now);
    assert(wadd(0u32, 0u32) == 0u32) by (bit_vector);
    assert(wadd(0u32, 1u32) == 1u32) by (bit_vector);
    assert(spec_wrapping_lt(0u32, 1u32)) by (bit_vector);
    assert(wsub(0u32, 0u32) == 0u32) by (bit_vector);
    assert(wsub(1u32, 0u32) == 1u32) by (bit_vector);
    assert(a.unacked.subrange(0, 0) =~= Seq::empty());
    assert(st_insert(a.send_times, 0, now) =~= seq![(0u32, now)]);
    assert(st_sorted(w.conn.send_times));
    assert(st_bounded(w.conn.send_times));
}

/// Measuring from a point after moving it by a small count cancels.
proof fn lemma_wadd_shift(una: u32, nxt: u32, e: u32)
    requires
        wsub(nxt, una) <= 1026,
        e <= 3000,
    ensures
        wsub(wadd(nxt, e), una) == wsub(nxt, una) + e,
{
    assert(wsub(wadd(nxt, e), una) == wsub(nxt, una) + e) by (bit_vector)
        requires
            wsub(nxt, una) <= 1026,
            e <= 3000,
    ;
}

/// A bare acknowledgment write preserves the invariant.
proof fn lemma_wf_after_bare(c: ConnModel, now: u64)
    requires
        conn_wf(c),
        now <= TIME_MAX_MS,
    ensures
        conn_wf(step_write(c, c.snd.nxt, 0, now).conn),
{
    lemma_step_write_bare(c, now);
    lemma_st_insert_props(c.send_times, c.snd.nxt, now);
    let t = st_insert(c.send_times, c.snd.nxt, now);
    assert forall|i: int| 0 <= i < t.len() implies wdist(#[trigger] t[i].0, c.snd.una)
        <= c.unacked.len() + virt_octets(c) by {
        if t[i] == (c.snd.nxt, now) {
        } else {
            let j = choose|j: int| 0 <= j < c.send_times.len() && c.send_times[j] == t[i];
            assert(wdist(c.send_times[j].0, c.snd.una) <= c.unacked.len() + virt_octets(c));
        }
    }
}

/// **Invariant preservation: inbound segments.** Handling any segment
/// keeps a well-formed connection well-formed.
pub proof fn lemma_packet_preserves_wf(c: ConnModel, s: SegIn, now: u64)
    requires
        conn_wf(c),
        now <= TIME_MAX_MS,
    ensures
        conn_wf(step_packet(c, s, now).conn),
{
    if !acceptable(c.rcv.nxt, c.rcv.wnd, s.seq, seg_len(s)) {
        lemma_wf_after_bare(c, now);
    } else if s.ack {
        let c1 = step_establish(c, s);
        assert(conn_wf(c1));
        let c2 = step_ack(c1, s, now);
        if est_like(c1.state) && spec_is_between_wrapping(
            c1.snd.una,
            s.ack_no,
            wadd(c1.snd.nxt, 1),
        ) {
            let una = c1.snd.una;
            let nxt = c1.snd.nxt;
            let ackn = s.ack_no;
            let len = c1.unacked.len() as int;
            lemma_ack_distance(una, ackn, nxt);
            let d = wsub(ackn, una) as int;
            lemma_st_retire_props(c1.send_times, una, ackn);
            lemma_st_srtt_bound(c1.send_times, c1.srtt, una, ackn, now);
            assert forall|i: int|
                0 <= i < c2.send_times.len() implies wdist(#[trigger] c2.send_times[i].0, ackn)
                <= c2.unacked.len() + virt_octets(c2) by {
                let e = c2.send_times[i];
                let j = choose|j: int| 0 <= j < c1.send_times.len() && c1.send_times[j] == e;
                assert(wdist(c1.send_times[j].0, una) <= len + virt_octets(c1));
                lemma_key_survives(una, ackn, e.0);
            }
            assert(c2.unacked.len() == len - imin(d, len));
        }
        assert(conn_wf(c2));
        let c3 = step_finwait(c2);
        assert(conn_wf(c3));
        if est_like(c3.state) {
            let c4 = step_ingress(c3, s);
            assert(conn_wf(c4));
            lemma_wf_after_bare(c4, now);
            let w = step_write(c4, c4.snd.nxt, 0, now);
            if s.fin && c3.state == State::FinWait2 {
                lemma_wf_after_bare(w.conn, now);
            }
        }
    }
}

/// **Invariant preservation: timer ticks.** One tick keeps a well-formed
/// connection well-formed, whether it retransmits, sends new data,
/// schedules the FIN, or does nothing.
#[verifier::rlimit(50)]
pub proof fn lemma_tick_preserves_wf(c: ConnModel, now: u64)
    requires
        conn_wf(c),
        now <= TIME_MAX_MS,
    ensures
        conn_wf(step_tick(c, now).conn),
{
    let una = c.snd.una;
    let nxt = c.snd.nxt;
    let len = c.unacked.len() as int;
    let span = wdist(nxt, una);
    let nunacked = span;
    let unsent = if len >= nunacked {
        len - nunacked
    } else {
        0int
    };
    assert(wsub(una, una) == 0) by (bit_vector);
    if crate::tcp::retransmit_due(c, now) {
        let resend = imin(len, c.snd.wnd as int);
        let c1 = if resend < c.snd.wnd as int && c.closed {
            ConnModel { tpl_fin: true, closed_at: Some(wadd(una, c.unacked.len() as u32)), ..c }
        } else {
            c
        };
        let w = step_write(c1, una, resend, now);
        let out = step_tick(c, now).conn;
        lemma_wadd_cancel(una, resend as u32);
        lemma_st_insert_props(c.send_times, una, now);
        assert(out.unacked == c.unacked);
        assert(wdist(out.snd.nxt, una) == resend);
        assert forall|i: int|
            0 <= i < out.send_times.len() implies wdist(#[trigger] out.send_times[i].0, una)
            <= out.unacked.len() + virt_octets(out) by {
            let e = out.send_times[i];
            if e == (una, now) {
            } else {
                let j = choose|j: int| 0 <= j < c.send_times.len() && c.send_times[j] == e;
                assert(wdist(c.send_times[j].0, una) <= len + virt_octets(c));
            }
        }
    } else if unsent == 0 && c.closed_at is Some {
    } else {
        let allowed = if c.snd.wnd as int >= nunacked {
            c.snd.wnd as int - nunacked
        } else {
            0int
        };
        if allowed == 0 {
        } else {
            let send = imin(unsent, allowed);
            let schedule_fin = send < allowed && c.closed && c.closed_at is None;
            if send == 0 && !schedule_fin {
            } else {
                let c1 = if schedule_fin {
                    ConnModel {
                        tpl_fin: true,
                        closed_at: Some(wadd(nxt, unsent as u32)),
                        ..c
                    }
                } else {
                    c
                };
                let w = step_write(c1, nxt, send, now);
                let off0 = wdist(nxt, una);
                let off1 = if c1.closed_at matches Some(ca) && nxt == wadd(ca, 1) {
                    0int
                } else {
                    off0
                };
                let off = imin(off1, len);
                let pl_len = imin(imin(send, len - off), 1460);
                let fin_add = if schedule_fin {
                    1int
                } else {
                    0int
                };
                if schedule_fin {
                    lemma_small_window_no_collision(nxt, wadd(nxt, unsent as u32), unsent as u32);
                }
                assert(pl_len + fin_add <= 3000);
                lemma_wadd_shift(una, nxt, (pl_len + fin_add) as u32);
                assert(wdist(w.conn.snd.nxt, una) <= len + virt_octets(w.conn)) by {
                    if off == off0 {
                        assert(pl_len <= len - off);
                    } else {
                        assert(pl_len <= send);
                        assert(send <= unsent);
                    }
                }
                lemma_st_insert_props(c.send_times, nxt, now);
                assert forall|i: int|
                    0 <= i < w.conn.send_times.len() implies wdist(
                    #[trigger] w.conn.send_times[i].0,
                    una,
                ) <= w.conn.unacked.len() + virt_octets(w.conn) by {
                    let e = w.conn.send_times[i];
                    if e == (nxt, now) {
                    } else {
                        let j = choose|j: int| 0 <= j < c.send_times.len() && c.send_times[j] == e;
                        assert(wdist(c.send_times[j].0, una) <= len + virt_octets(c));
                    }
                }
            }
        }
    }
}

/// **Invariant preservation: close.** Scheduling a close keeps the
/// connection well-formed.
pub proof fn lemma_close_preserves_wf(c: ConnModel)
    requires
        conn_wf(c),
    ensures
        conn_wf(step_close(c)),
{
}

/// **Invariant preservation: application writes.** Appending to the
/// outbound queue, within its capacity, keeps the connection well-formed.
pub proof fn lemma_enqueue_preserves_wf(c: ConnModel, extra: Seq<u8>)
    requires
        conn_wf(c),
        c.unacked.len() + extra.len() <= SENDQUEUE_SIZE,
    ensures
        conn_wf(ConnModel { unacked: c.unacked + extra, ..c }),
{
}

/// **Invariant preservation: application reads.** Draining the front of
/// `incoming` keeps the connection well-formed.
pub proof fn lemma_read_preserves_wf(c: ConnModel, n: int)
    requires
        conn_wf(c),
    ensures
        conn_wf(ConnModel { incoming: c.incoming.skip(n), ..c }),
{
}

/// An empty segment standing exactly at `RCV.NXT` is always acceptable.
proof fn lemma_replay_empty_accepted(seqn: u32, wnd: u16)
    ensures
        acceptable(seqn, wnd, seqn, 0),
{
    if wnd > 0 {
        let w32 = wnd as u32;
        assert(spec_is_between_wrapping(wsub(seqn, 1), seqn, wadd(seqn, w32))) by (bit_vector)
            requires
                1 <= w32 <= 65535,
        ;
    }
}

/// A SYN-less segment whose octets were all consumed — `RCV.NXT` stands
/// `adv` past its sequence number, `adv` being its whole length — fails
/// the acceptance test.
proof fn lemma_replay_unacceptable(seqn: u32, adv: u32, wnd: u16)
    requires
        1 <= adv <= 1465,
    ensures
        !acceptable(wadd(seqn, adv), wnd, seqn, adv as int),
{
    if wnd > 0 {
        let w32 = wnd as u32;
        assert((adv as int - 1) as u32 == wsub(adv, 1));
        assert(!spec_is_between_wrapping(
            wsub(wadd(seqn, adv), 1),
            seqn,
            wadd(wadd(seqn, adv), w32),
        ) && !spec_is_between_wrapping(
            wsub(wadd(seqn, adv), 1),
            wadd(seqn, wsub(adv, 1)),
            wadd(wadd(seqn, adv), w32),
        )) by (bit_vector)
            requires
                1 <= adv <= 1465,
                1 <= w32 <= 65535,
        ;
    }
}

/// **Duplicate delivery.** Delivering the same acceptable, SYN-less
/// segment a second time leaves the connection exactly as the first
/// delivery left it, except that the duplicate's bare acknowledgment may
/// re-stamp one send-time record: every protocol field — state, both
/// sequence spaces, both byte queues, the close marks, the smoothed RTT —
/// is unchanged.
#[verifier::rlimit(100)]
pub proof fn lemma_duplicate_delivery(c: ConnModel, s: SegIn, now1: u64, now2: u64)
    requires
        conn_wf(c),
        now1 <= TIME_MAX_MS,
        !s.syn,
        s.payload.len() <= MAX_INBOUND_PAYLOAD,
        acceptable(c.rcv.nxt, c.rcv.wnd, s.seq, seg_len(s)),
    ensures
        ({
            let c1 = step_packet(c, s, now1).conn;
            let again = step_packet(c1, s, now2).conn;
            &&& again.state == c1.state
            &&& again.snd == c1.snd
            &&& again.rcv == c1.rcv
            &&& again.incoming == c1.incoming
            &&& again.unacked == c1.unacked
            &&& again.closed == c1.closed
            &&& again.closed_at == c1.closed_at
            &&& again.srtt == c1.srtt
            &&& (again.send_times == c1.send_times || again.send_times == st_insert(
                c1.send_times,
                c1.snd.nxt,
                now2,
            ))
        }),
{
    let c1 = step_packet(c, s, now1).conn;
    let slen = seg_len(s);
    if !s.ack {
        assert(c1 == c);
    } else {
        let ce = step_establish(c, s);
        let c2 = step_ack(ce, s, now1);
        let c3 = step_finwait(c2);
        if !est_like(c3.state) {
            assert(c3 == c);
            assert(c1 == c);
        } else {
            let c4 = step_ingress(c3, s);
            lemma_step_write_bare(c4, now1);
            let w = step_write(c4, c4.snd.nxt, 0, now1);
            let adv = (s.payload.len() + (if s.fin {
                1int
            } else {
                0int
            })) as u32;
            assert(c1.rcv.nxt == wadd(s.seq, adv));
            assert(c1.rcv.wnd == c.rcv.wnd);
            assert(c1.snd.una == c3.snd.una && c1.snd.nxt == c3.snd.nxt);
            assert(c1.state == c3.state || (s.fin && c1.state == State::TimeWait));
            if adv == 0 {
                // An empty acknowledgment: accepted again, and every
                // phase repeats without effect.
                assert(!s.fin && s.payload.len() == 0);
                let seqn = s.seq;
                assert(wadd(seqn, 0) == seqn) by (bit_vector);
                lemma_replay_empty_accepted(s.seq, c.rcv.wnd);
                assert(acceptable(c1.rcv.nxt, c1.rcv.wnd, s.seq, slen));
                let ce2 = step_establish(c1, s);
                assert(ce2 == c1);
                let ackn = s.ack_no;
                let cb2 = step_ack(ce2, s, now2);
                assert(cb2 == c1) by {
                    if est_like(c1.state) && spec_is_between_wrapping(
                        c1.snd.una,
                        ackn,
                        wadd(c1.snd.nxt, 1),
                    ) {
                        let una1 = c1.snd.una;
                        assert(!spec_is_between_wrapping(una1, una1, wadd(c1.snd.nxt, 1)))
                            by (bit_vector);
                        // so the second acknowledgment is fresh only if
                        // the first one was never applied, which the
                        // unchanged cursors rule out
                        if est_like(ce.state) && spec_is_between_wrapping(
                            ce.snd.una,
                            ackn,
                            wadd(ce.snd.nxt, 1),
                        ) {
                            assert(c1.snd.una == ackn);
                            assert(false);
                        } else {
                            assert(c1.snd.una == ce.snd.una && c1.snd.nxt == ce.snd.nxt);
                            assert(ce.snd == c.snd);
                            assert(est_like(c1.state) ==> est_like(ce.state) || ce.state
                                == State::SynRcvd);
                            if !est_like(ce.state) {
                                assert(ce.state == State::SynRcvd);
                                assert(c2 == ce && c3.state == State::SynRcvd);
                                assert(false);
                            }
                            assert(false);
                        }
                    }
                }
                let cf2 = step_finwait(cb2);
                assert(cf2 == c1) by {
                    if c1.state == State::FinWait1 && c1.snd.una == wadd(c1.snd.iss, 2) {
                        assert(c3.state == State::FinWait1);
                        assert(c2.state == State::FinWait1);
                        assert(c2.snd.una == c1.snd.una && c2.snd.iss == c1.snd.iss);
                        assert(false);
                    }
                }
                assert(est_like(c1.state));
                let cg2 = step_ingress(cf2, s);
                assert(wsub(s.seq, s.seq) == 0) by (bit_vector);
                assert(wsub(seqn, seqn) == 0) by (bit_vector);
                assert(cg2.incoming =~= c1.incoming + s.payload.skip(0));
                assert(s.payload.skip(0) =~= s.payload);
                assert(s.payload =~= Seq::<u8>::empty());
                assert(cg2.incoming =~= c1.incoming);
                assert(cg2 =~= c1);
                lemma_step_write_bare(cg2, now2);
                let w2 = step_write(cg2, cg2.snd.nxt, 0, now2);
                assert(step_packet(c1, s, now2).conn == w2.conn);
                assert(w2.conn =~= (ConnModel {
                    send_times: st_insert(c1.send_times, c1.snd.nxt, now2),
                    ..c1
                }));
            } else {
                // The octets were consumed: the duplicate fails the
                // acceptance test and elicits only a bare acknowledgment.
                assert(1 <= adv <= 1465);
                lemma_replay_unacceptable(s.seq, adv, c.rcv.wnd);
                assert(slen == adv as int);
                assert(!acceptable(c1.rcv.nxt, c1.rcv.wnd, s.seq, slen));
                lemma_packet_preserves_wf(c, s, now1);
                lemma_replay_dropped(c1, s, now2);
            }
        }
    }
}

/// **In-order delivery to the reader.** When a segment's data begins at
/// or before `RCV.NXT` (no gap), ingress appends exactly the unread
/// suffix of its payload to `incoming`, and every appended byte stands at
/// a wire sequence number strictly before the new `RCV.NXT`.
pub proof fn lemma_ingress_ordered(c: ConnModel, s: SegIn)
    requires
        s.payload.len() <= MAX_INBOUND_PAYLOAD,
        wdist(c.rcv.nxt, s.seq) <= s.payload.len(),
    ensures
        ({
            let c4 = step_ingress(c, s);
            let unread = ingress_unread(c, s);
            &&& c4.incoming == c.incoming + s.payload.skip(unread)
            &&& forall|j: int|
                unread <= j < s.payload.len() ==> spec_wrapping_lt(
                    #[trigger] wadd(s.seq, j as u32),
                    c4.rcv.nxt,
                )
        }),
{
    let c4 = step_ingress(c, s);
    let unread = ingress_unread(c, s);
    let adv = (s.payload.len() + (if s.fin {
        1int
    } else {
        0int
    })) as u32;
    assert forall|j: int| unread <= j < s.payload.len() implies spec_wrapping_lt(
        #[trigger] wadd(s.seq, j as u32),
        c4.rcv.nxt,
    ) by {
        let ju = j as u32;
        let seqn = s.seq;
        assert(spec_wrapping_lt(wadd(seqn, ju), wadd(seqn, adv))) by (bit_vector)
            requires
                ju < adv,
                adv <= 1465,
        ;
    }
}

/// **Only appends.** An inbound segment never rewrites or reorders what
/// is already queued for the reader: the new `incoming` is the old one
/// with some suffix appended.
pub proof fn lemma_incoming_append_only(c: ConnModel, s: SegIn, now: u64)
    requires
        conn_wf(c),
    ensures
        exists|tail: Seq<u8>|
            step_packet(c, s, now).conn.incoming == #[trigger] (c.incoming + tail),
{
    let step = step_packet(c, s, now);
    if !acceptable(c.rcv.nxt, c.rcv.wnd, s.seq, seg_len(s)) {
        assert(step.conn.incoming =~= c.incoming + Seq::<u8>::empty());
    } else if !s.ack {
        assert(step.conn.incoming =~= c.incoming + Seq::<u8>::empty());
    } else {
        let c3 = step_finwait(step_ack(step_establish(c, s), s, now));
        if est_like(c3.state) {
            let tail = s.payload.skip(ingress_unread(c3, s));
            assert(step.conn.incoming == c.incoming + tail);
        } else {
            assert(step.conn.incoming =~= c.incoming + Seq::<u8>::empty());
        }
    }
}

/// **In-order transmission.** With nothing overdue, queued bytes beyond
/// the in-flight window, room in the peer's window and no FIN scheduled,
/// a tick puts exactly the next stretch of the queue on the wire, in
/// order, starting at `SND.NXT`.
pub proof fn lemma_tick_sends_in_order(c: ConnModel, now: u64)
    requires
        conn_wf(c),
        !crate::tcp::retransmit_due(c, now),
        c.closed_at is None,
        wdist(c.snd.nxt, c.snd.una) < c.unacked.len(),
        c.snd.wnd as int > wdist(c.snd.nxt, c.snd.una),
    ensures
        ({
            let nunacked = wdist(c.snd.nxt, c.snd.una);
            let send = imin(
                c.unacked.len() - nunacked,
                c.snd.wnd as int - nunacked,
            );
            let step = step_tick(c, now);
            &&& step.segs.len() == 1
            &&& step.segs[0].seq == c.snd.nxt
            &&& step.segs[0].payload == c.unacked.subrange(nunacked, nunacked + send)
        }),
{
    let una = c.snd.una;
    let nxt = c.snd.nxt;
    let nunacked = wdist(nxt, una);
    let len = c.unacked.len() as int;
    let unsent = len - nunacked;
    let allowed = c.snd.wnd as int - nunacked;
    let send = imin(unsent, allowed);
    let schedule_fin = send < allowed && c.closed && c.closed_at is None;
    let c1 = if schedule_fin {
        ConnModel { tpl_fin: true, closed_at: Some(wadd(nxt, unsent as u32)), ..c }
    } else {
        c
    };
    let w = step_write(c1, nxt, send, now);
    if schedule_fin {
        lemma_small_window_no_collision(nxt, wadd(nxt, unsent as u32), unsent as u32);
    }
    assert(w.segs[0].payload == c.unacked.subrange(nunacked, nunacked + send));
}

/// **Single-segment round trip.** Let one connection transmit on a tick —
/// nothing overdue, fresh bytes queued, room in the window, no close in
/// progress — and deliver the emitted segment to a peer whose `RCV.NXT`
/// stands exactly where the segment begins. The peer appends precisely
/// the transmitted stretch of the sender's queue to its own `incoming`,
/// in order: the bytes written on one end are the bytes read on the
/// other.
pub proof fn lemma_segment_round_trip(a: ConnModel, b: ConnModel, now_a: u64, now_b: u64)
    requires
        conn_wf(a),
        conn_wf(b),
        !crate::tcp::retransmit_due(a, now_a),
        !a.closed,
        a.closed_at is None,
        wdist(a.snd.nxt, a.snd.una) < a.unacked.len(),
        a.snd.wnd as int > wdist(a.snd.nxt, a.snd.una),
        est_like(b.state),
        b.rcv.nxt == a.snd.nxt,
        b.rcv.wnd > 0,
    ensures
        ({
            let seg = step_tick(a, now_a).segs[0];
            let sin = SegIn {
                seq: seg.seq,
                ack_no: seg.ack_no,
                wnd: seg.wnd,
                syn: seg.syn,
                ack: true,
                fin: seg.fin,
                rst: seg.rst,
                payload: seg.payload,
            };
            let nunacked = wdist(a.snd.nxt, a.snd.una);
            let send = imin(a.unacked.len() - nunacked, a.snd.wnd as int - nunacked);
            &&& step_tick(a, now_a).segs.len() == 1
            &&& step_packet(b, sin, now_b).conn.incoming == b.incoming + a.unacked.subrange(
                nunacked,
                nunacked + send,
            )
        }),
{
    lemma_tick_sends_in_order(a, now_a);
    let seg = step_tick(a, now_a).segs[0];
    let sin = SegIn {
        seq: seg.seq,
        ack_no: seg.ack_no,
        wnd: seg.wnd,
        syn: seg.syn,
        ack: true,
        fin: seg.fin,
        rst: seg.rst,
        payload: seg.payload,
    };
    let nunacked = wdist(a.snd.nxt, a.snd.una);
    let send = imin(a.unacked.len() - nunacked, a.snd.wnd as int - nunacked);
    assert(1 <= send <= 1024);
    assert(seg.payload.len() == send);
    assert(!seg.syn && !seg.fin);
    let nxt = b.rcv.nxt;
    let w32 = b.rcv.wnd as u32;
    assert(spec_is_between_wrapping(wsub(nxt, 1), nxt, wadd(nxt, w32))) by (bit_vector)
        requires
            1 <= w32 <= 65535,
    ;
    assert(acceptable(b.rcv.nxt, b.rcv.wnd, sin.seq, seg_len(sin)));
    let c3 = step_finwait(step_ack(step_establish(b, sin), sin, now_b));
    assert(c3.rcv == b.rcv && c3.incoming == b.incoming && est_like(c3.state));
    assert(wsub(nxt, nxt) == 0) by (bit_vector);
    let c4 = step_ingress(c3, sin);
    assert(ingress_unread(c3, sin) == 0);
    assert(sin.payload.skip(0) =~= sin.payload);
    assert(step_packet(b, sin, now_b).conn.incoming == c4.incoming);
}

} // verus!
