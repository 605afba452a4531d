//! The connection table and the packet dispatcher.
//!
//! One [`ConnectionManager`] holds every live connection keyed by its
//! four-tuple, and one backlog of completed handshakes per bound port.
//! Inbound frames are parsed at the wire boundary and demultiplexed: to
//! the owning connection, to a listener that accepts the SYN, or dropped.
//! The embedding program serializes access (one lock around the manager),
//! performs the TUN reads and writes, and parks application threads on the
//! wake flags a dispatch reports.

use vstd::prelude::*;

use crate::err::TcpErr;
use crate::laws::{
    lemma_accept_wf, lemma_close_preserves_wf, lemma_enqueue_preserves_wf,
    lemma_packet_preserves_wf, lemma_read_preserves_wf, lemma_tick_preserves_wf,
};
use crate::tcp::{
    avail_of, close_ok, conn_wf, first_seg, rst_seg, seg_in_of, step_accept, step_close,
    step_packet, step_tick, ConnModel, Connection, State, MAX_INBOUND_PAYLOAD, SENDQUEUE_SIZE,
};
use crate::timer::TIME_MAX_MS;
use crate::wire::{
    frame_bytes, parse_ipv4_header, parse_tcp_header, parsed_ipv4, parsed_tcp, Ipv4Meta, TcpMeta,
    PROTO_TCP,
};

verus! {

/// Largest frame the TUN device delivers.
pub const MAX_FRAME_LEN: usize = 1504;

/// The four-tuple identifying a flow: the peer's address and port
/// (`src`, as on inbound frames) and ours (`dst`). Addresses are
/// big-endian `u32`s.
#[derive(Clone, Copy, Debug, Hash, PartialEq, Eq, Structural)]
pub struct Quad {
    /// The peer's address.
    pub src_ip: u32,
    /// The peer's port.
    pub src_port: u16,
    /// Our address.
    pub dst_ip: u32,
    /// Our port.
    pub dst_port: u16,
}

/// The four-tuple an inbound segment belongs to.
pub open spec fn quad_of(iph: Ipv4Meta, tcph: TcpMeta) -> Quad {
    Quad { src_ip: iph.src, src_port: tcph.src_port, dst_ip: iph.dst, dst_port: tcph.dst_port }
}

/// Each key appears at most once.
pub open spec fn keys_unique<K, V>(s: Seq<(K, V)>) -> bool {
    forall|i: int, j: int| 0 <= i < j < s.len() ==> s[i].0 != s[j].0
}

/// The index of the first entry with key `k`, or -1.
pub open spec fn index_of_key<K, V>(s: Seq<(K, V)>, k: K) -> int
    decreases s.len(),
{
    if s.len() == 0 {
        -1
    } else if s[0].0 == k {
        0
    } else if index_of_key(s.drop_first(), k) < 0 {
        -1
    } else {
        1 + index_of_key(s.drop_first(), k)
    }
}

/// Whether some entry has key `k`.
pub open spec fn has_key<K, V>(s: Seq<(K, V)>, k: K) -> bool {
    index_of_key(s, k) >= 0
}

/// `index_of_key` lands in bounds, on the key, and only misses when the
/// key is absent.
pub proof fn lemma_index_of_key_props<K, V>(s: Seq<(K, V)>, k: K)
    ensures
        -1 <= index_of_key(s, k) < s.len(),
        index_of_key(s, k) >= 0 ==> s[index_of_key(s, k)].0 == k,
        index_of_key(s, k) == -1 ==> forall|i: int| 0 <= i < s.len() ==> s[i].0 != k,
    decreases s.len(),
{
    if s.len() > 0 && s[0].0 != k {
        lemma_index_of_key_props(s.drop_first(), k);
        let r = index_of_key(s.drop_first(), k);
        if r >= 0 {
            assert(s.drop_first()[r] == s[r + 1]);
        } else {
            assert forall|i: int| 0 <= i < s.len() implies s[i].0 != k by {
                if i > 0 {
                    assert(s.drop_first()[i - 1] == s[i]);
                }
            }
        }
    }
}

/// A scan that stops at the first entry with key `k` computes
/// `index_of_key`.
pub proof fn lemma_index_of_key_scan<K, V>(s: Seq<(K, V)>, k: K, i: int)
    requires
        0 <= i <= s.len(),
        forall|j: int| 0 <= j < i ==> s[j].0 != k,
        i < s.len() ==> s[i].0 == k,
    ensures
        index_of_key(s, k) == if i < s.len() {
            i
        } else {
            -1
        },
    decreases s.len(),
{
    if s.len() > 0 && s[0].0 != k {
        assert forall|j: int| 0 <= j < i - 1 implies s.drop_first()[j].0 != k by {
            assert(s.drop_first()[j] == s[j + 1]);
        }
        if i < s.len() {
            assert(s.drop_first()[i - 1] == s[i]);
        }
        lemma_index_of_key_scan(s.drop_first(), k, i - 1);
    }
}

/// The table entries after removing the entry with key `k`, if present.
pub open spec fn remove_key<K, V>(s: Seq<(K, V)>, k: K) -> Seq<(K, V)> {
    if index_of_key(s, k) >= 0 {
        s.remove(index_of_key(s, k))
    } else {
        s
    }
}

/// The table entries after removing, one by one, the entries keyed by
/// `ks`.
pub open spec fn remove_keys<K, V>(s: Seq<(K, V)>, ks: Seq<K>) -> Seq<(K, V)>
    decreases ks.len(),
{
    if ks.len() == 0 {
        s
    } else {
        remove_keys(remove_key(s, ks[0]), ks.drop_first())
    }
}

/// The reset frames an abort of the connections keyed by `ks` emits, in
/// order: one for each key that is present.
pub open spec fn abort_frames(s: Seq<(Quad, Connection)>, ks: Seq<Quad>) -> Seq<Seq<u8>>
    decreases ks.len(),
{
    if ks.len() == 0 {
        Seq::empty()
    } else {
        let i = index_of_key(s, ks[0]);
        let rest = abort_frames(remove_key(s, ks[0]), ks.drop_first());
        if i >= 0 {
            seq![
                frame_bytes(
                    s[i].1.local_ip,
                    s[i].1.remote_ip,
                    s[i].1.head_for(rst_seg(s[i].1.model())),
                    Seq::<u8>::empty(),
                ),
            ] + rest
        } else {
            rest
        }
    }
}

/// The frames one timer tick emits over a table of connections, in table
/// order: each connection contributes its retransmission or transmission,
/// if the tick prescribes one.
pub open spec fn tick_frames(cs: Seq<(Quad, Connection)>, now: u64) -> Seq<Seq<u8>>
    decreases cs.len(),
{
    if cs.len() == 0 {
        Seq::empty()
    } else {
        let c = cs[0].1;
        let st = step_tick(c.model(), now);
        let rest = tick_frames(cs.drop_first(), now);
        if st.segs.len() == 1 {
            seq![
                frame_bytes(c.local_ip, c.remote_ip, c.head_for(st.segs[0]), st.segs[0].payload),
            ] + rest
        } else {
            rest
        }
    }
}

/// What one dispatched frame asks of the embedding program: the frames to
/// put on the wire, and which waiters to wake.
pub struct Dispatch {
    /// Complete IPv4 frames to transmit, in order.
    pub frames: Vec<Vec<u8>>,
    /// Wake threads blocked in `read`: data or EOF became available.
    pub wake_read: bool,
    /// Wake threads blocked in `accept`: a handshake completed.
    pub wake_pending: bool,
}

/// The shared state behind the one lock: the connection table, the
/// per-port backlogs, and the teardown flag.
pub struct ConnectionManager {
    /// The embedding program is shutting down.
    pub terminated: bool,
    /// Live connections by four-tuple.
    pub connections: Vec<(Quad, Connection)>,
    /// For each bound port, the four-tuples that completed a handshake
    /// and await `accept`.
    pub pending: Vec<(u16, Vec<Quad>)>,
}

impl ConnectionManager {
    /// Well-formed: unique keys in both tables, every connection's timer
    /// in shape, and every connection satisfying the protocol invariant
    /// [`conn_wf`] — so the send-window and send-times laws hold of every
    /// connection a running stack can reach.
    pub open spec fn wf(self) -> bool {
        &&& keys_unique(self.connections@)
        &&& keys_unique(self.pending@)
        &&& forall|i: int|
            0 <= i < self.connections@.len() ==> (#[trigger] self.connections@[i]).1.timer.wf()
        &&& forall|i: int|
            0 <= i < self.connections@.len() ==> conn_wf(
                (#[trigger] self.connections@[i]).1.model(),
            )
    }

    /// An empty manager: no connections, no listeners.
    pub fn new() -> (r: ConnectionManager)
        ensures
            r.wf(),
            !r.terminated,
            r.connections@.len() == 0,
            r.pending@.len() == 0,
    {
        ConnectionManager { terminated: false, connections: Vec::new(), pending: Vec::new() }
    }

    /// Bind a listener to `port`: installs an empty backlog, or fails
    /// with `AddrInUse` when the port already has one.
    pub fn bind(&mut self, port: u16) -> (r: Result<(), TcpErr>)
        requires
            old(self).wf(),
        ensures
            final(self).wf(),
            has_key(old(self).pending@, port) ==> r == Result::<(), TcpErr>::Err(
                TcpErr::AddrInUse,
            ) && *final(self) == *old(self),
            !has_key(old(self).pending@, port) ==> {
                &&& r == Result::<(), TcpErr>::Ok(())
                &&& final(self).pending@.len() == old(self).pending@.len() + 1
                &&& final(self).pending@.take(old(self).pending@.len() as int) == old(
                    self,
                ).pending@
                &&& final(self).pending@.last().0 == port
                &&& final(self).pending@.last().1@ == Seq::<Quad>::empty()
                &&& final(self).connections@ == old(self).connections@
                &&& final(self).terminated == old(self).terminated
            },
    {
        let ghost ps = self.pending@;
        let mut i: usize = 0;
        while i < self.pending.len() && self.pending[i].0 != port
            invariant
                0 <= i <= self.pending@.len(),
                self.pending@ == ps,
                forall|j: int| 0 <= j < i ==> ps[j].0 != port,
            decreases self.pending@.len() - i,
        {
            i = i + 1;
        }
        proof {
            lemma_index_of_key_scan(ps, port, i as int);
        }
        if i < self.pending.len() {
            Err(TcpErr::AddrInUse)
        } else {
            let backlog: Vec<Quad> = Vec::new();
            self.pending.push((port, backlog));
            proof {
                assert forall|a: int, b: int|
                    0 <= a < b < self.pending@.len() implies self.pending@[a].0
                    != self.pending@[b].0 by {
                    if b == self.pending@.len() - 1 {
                        assert(ps[a].0 != port);
                    }
                }
            }
            Ok(())
        }
    }

    /// Pop the next completed handshake for `port`, if any. The listener
    /// holding `port` must still be bound.
    pub fn accept_pop(&mut self, port: u16) -> (r: Option<Quad>)
        requires
            old(self).wf(),
            has_key(old(self).pending@, port),
        ensures
            final(self).wf(),
            final(self).connections@ == old(self).connections@,
            final(self).terminated == old(self).terminated,
            ({
                let i = index_of_key(old(self).pending@, port);
                let bl = old(self).pending@[i].1@;
                if bl.len() == 0 {
                    r is None && final(self).pending@ == old(self).pending@
                } else {
                    &&& r == Some(bl[0])
                    &&& final(self).pending@.len() == old(self).pending@.len()
                    &&& forall|j: int|
                        0 <= j < old(self).pending@.len() && j != i ==> final(self).pending@[j]
                            == old(self).pending@[j]
                    &&& final(self).pending@[i].0 == port
                    &&& final(self).pending@[i].1@ == bl.skip(1)
                }
            }),
    {
        let ghost ps = self.pending@;
        let mut i: usize = 0;
        while i < self.pending.len() && self.pending[i].0 != port
            invariant
                0 <= i <= self.pending@.len(),
                self.pending@ == ps,
                forall|j: int| 0 <= j < i ==> ps[j].0 != port,
            decreases self.pending@.len() - i,
        {
            i = i + 1;
        }
        proof {
            lemma_index_of_key_scan(ps, port, i as int);
            lemma_index_of_key_props(ps, port);
        }
        let mut entry = self.pending.remove(i);
        let r = if entry.1.len() > 0 {
            let q = entry.1.remove(0);
            Some(q)
        } else {
            None
        };
        self.pending.insert(i, entry);
        proof {
            assert(self.pending@ =~= ps.update(i as int, self.pending@[i as int]));
            if ps[i as int].1@.len() == 0 {
                assert(self.pending@ =~= ps);
            } else {
                assert(self.pending@[i as int].1@ =~= ps[i as int].1@.skip(1));
            }
            assert forall|a: int, b: int|
                0 <= a < b < self.pending@.len() implies self.pending@[a].0
                != self.pending@[b].0 by {
                assert(ps[a].0 != ps[b].0);
            }
        }
        r
    }

    /// Tear down a listener: drop the backlog for `port` and abort every
    /// connection still queued on it, returning their reset frames in
    /// queue order.
    pub fn unbind(&mut self, port: u16) -> (r: Vec<Vec<u8>>)
        requires
            old(self).wf(),
        ensures
            final(self).wf(),
            final(self).terminated == old(self).terminated,
            final(self).pending@ == remove_key(old(self).pending@, port),
            ({
                let i = index_of_key(old(self).pending@, port);
                if i >= 0 {
                    let bl = old(self).pending@[i].1@;
                    &&& final(self).connections@ == remove_keys(old(self).connections@, bl)
                    &&& r@.map_values(|f: Vec<u8>| f@) == abort_frames(old(self).connections@, bl)
                } else {
                    *final(self) == *old(self) && r@.len() == 0
                }
            }),
    {
        let ghost ps = self.pending@;
        let ghost cs0 = self.connections@;
        let mut i: usize = 0;
        while i < self.pending.len() && self.pending[i].0 != port
            invariant
                0 <= i <= self.pending@.len(),
                self.pending@ == ps,
                forall|j: int| 0 <= j < i ==> ps[j].0 != port,
            decreases self.pending@.len() - i,
        {
            i = i + 1;
        }
        proof {
            lemma_index_of_key_scan(ps, port, i as int);
        }
        if i >= self.pending.len() {
            return Vec::new();
        }
        let entry = self.pending.remove(i);
        let backlog = entry.1;
        proof {
            assert forall|a: int, b: int|
                0 <= a < b < self.pending@.len() implies self.pending@[a].0
                != self.pending@[b].0 by {
                let sa = if a < i as int {
                    a
                } else {
                    a + 1
                };
                let sb = if b < i as int {
                    b
                } else {
                    b + 1
                };
                assert(ps[sa].0 != ps[sb].0);
            }
        }
        let mut frames: Vec<Vec<u8>> = Vec::new();
        let mut t: usize = 0;
        let ghost bl = backlog@;
        proof {
            assert(bl.skip(0) =~= bl);
        }
        while t < backlog.len()
            invariant
                0 <= t <= bl.len(),
                backlog@ == bl,
                self.pending@ == ps.remove(index_of_key(ps, port)),
                self.terminated == old(self).terminated,
                keys_unique(self.pending@),
                keys_unique(self.connections@),
                forall|k: int|
                    0 <= k < self.connections@.len() ==> (#[trigger] self.connections@[k]).1.timer.wf(),
                forall|k: int|
                    0 <= k < self.connections@.len() ==> conn_wf(
                        (#[trigger] self.connections@[k]).1.model(),
                    ),
                remove_keys(cs0, bl) == remove_keys(self.connections@, bl.skip(t as int)),
                abort_frames(cs0, bl) == frames@.map_values(|f: Vec<u8>| f@) + abort_frames(
                    self.connections@,
                    bl.skip(t as int),
                ),
            decreases bl.len() - t,
        {
            let q = backlog[t];
            let ghost cs = self.connections@;
            proof {
                assert(bl.skip(t as int)[0] == bl[t as int]);
                assert(bl.skip(t as int).drop_first() =~= bl.skip(t as int + 1));
            }
            let mut k: usize = 0;
            while k < self.connections.len() && !(self.connections[k].0 == q)
                invariant
                    0 <= k <= self.connections@.len(),
                    self.connections@ == cs,
                    forall|j: int| 0 <= j < k ==> cs[j].0 != q,
                decreases self.connections@.len() - k,
            {
                k = k + 1;
            }
            proof {
                lemma_index_of_key_scan(cs, q, k as int);
            }
            if k < self.connections.len() {
                let pair = self.connections.remove(k);
                let frame = pair.1.rst_frame();
                let ghost fs0 = frames@;
                frames.push(frame);
                proof {
                    assert(frames@.map_values(|f: Vec<u8>| f@) =~= fs0.map_values(
                        |f: Vec<u8>| f@,
                    ).push(frame@));
                    assert(fs0.map_values(|f: Vec<u8>| f@).push(frame@) =~= fs0.map_values(
                        |f: Vec<u8>| f@,
                    ) + seq![frame@]);
                    assert forall|a: int, b: int|
                        0 <= a < b < self.connections@.len() implies self.connections@[a].0
                        != self.connections@[b].0 by {
                        let sa = if a < k as int {
                            a
                        } else {
                            a + 1
                        };
                        let sb = if b < k as int {
                            b
                        } else {
                            b + 1
                        };
                        assert(cs[sa].0 != cs[sb].0);
                    }
                    assert forall|a: int|
                        0 <= a < self.connections@.len() implies (#[trigger] self.connections@[a]).1.timer.wf()
                        && conn_wf(self.connections@[a].1.model()) by {
                        let sa = if a < k as int {
                            a
                        } else {
                            a + 1
                        };
                        assert(self.connections@[a] == cs[sa]);
                        assert(cs[sa].1.timer.wf() && conn_wf(cs[sa].1.model()));
                    }
                    assert(frames@.map_values(|f: Vec<u8>| f@) + abort_frames(
                        self.connections@,
                        bl.skip(t as int + 1),
                    ) =~= (fs0.map_values(|f: Vec<u8>| f@) + seq![frame@]) + abort_frames(
                        self.connections@,
                        bl.skip(t as int + 1),
                    ));
                }
            }
            t = t + 1;
        }
        proof {
            assert(bl.skip(bl.len() as int) =~= Seq::<Quad>::empty());
            assert(frames@.map_values(|f: Vec<u8>| f@) + abort_frames(
                self.connections@,
                bl.skip(bl.len() as int),
            ) =~= frames@.map_values(|f: Vec<u8>| f@));
        }
        frames
    }

    /// What routing one parsed segment at instant `now` does to the
    /// tables and reports back: `pre` and `post` are the manager around
    /// the dispatch. To the connection owning the four-tuple the segment
    /// goes through [`step_packet`]; a SYN for a bound port goes through
    /// [`step_accept`], joins both tables and answers its SYN|ACK; and
    /// anything else changes nothing and emits nothing.
    pub open spec fn dispatched(
        pre: ConnectionManager,
        post: ConnectionManager,
        iph: Ipv4Meta,
        tcph: TcpMeta,
        data: Seq<u8>,
        now: u64,
        r: Dispatch,
    ) -> bool {
        let q = quad_of(iph, tcph);
        let cs = pre.connections@;
        let ci = index_of_key(cs, q);
        if ci >= 0 {
            let step = step_packet(cs[ci].1.model(), seg_in_of(tcph, data), now);
            &&& post.pending@ == pre.pending@
            &&& post.connections@.len() == cs.len()
            &&& forall|k: int| 0 <= k < cs.len() && k != ci ==> post.connections@[k] == cs[k]
            &&& post.connections@[ci].0 == q
            &&& post.connections@[ci].1.model() == step.conn
            &&& post.connections@[ci].1.same_endpoints(cs[ci].1)
            &&& cs[ci].1.emits(r.frames@, step.segs)
            &&& r.wake_read == avail_of(step.conn).read
            &&& !r.wake_pending
        } else {
            let pi = index_of_key(pre.pending@, tcph.dst_port);
            if pi >= 0 && tcph.syn && !tcph.ack {
                let step = step_accept(seg_in_of(tcph, data), now);
                let c = post.connections@.last().1;
                &&& post.connections@.len() == cs.len() + 1
                &&& post.connections@.take(cs.len() as int) == cs
                &&& post.connections@.last().0 == q
                &&& c.model() == step.conn
                &&& c.local_ip == iph.dst
                &&& c.remote_ip == iph.src
                &&& c.local_port == tcph.dst_port
                &&& c.remote_port == tcph.src_port
                &&& post.pending@.len() == pre.pending@.len()
                &&& forall|j: int|
                    0 <= j < pre.pending@.len() && j != pi ==> post.pending@[j] == pre.pending@[j]
                &&& post.pending@[pi].0 == tcph.dst_port
                &&& post.pending@[pi].1@ == pre.pending@[pi].1@.push(q)
                &&& r.frames@.len() == 1
                &&& r.frames@[0]@ == frame_bytes(
                    iph.dst,
                    iph.src,
                    c.head_for(first_seg(step)),
                    first_seg(step).payload,
                )
                &&& !r.wake_read
                &&& r.wake_pending
            } else {
                &&& post.connections@ == pre.connections@
                &&& post.pending@ == pre.pending@
                &&& r.frames@.len() == 0
                &&& !r.wake_read
                &&& !r.wake_pending
            }
        }
    }

    /// Route one parsed segment: to the connection owning its four-tuple,
    /// to a listener on the destination port (a SYN creates a connection,
    /// queues it for `accept` and answers SYN|ACK), or nowhere.
    #[verifier::rlimit(100)]
    pub fn on_segment(&mut self, iph: &Ipv4Meta, tcph: &TcpMeta, data: &[u8], now: u64) -> (r:
        Dispatch)
        requires
            old(self).wf(),
            now <= TIME_MAX_MS,
            data@.len() <= MAX_INBOUND_PAYLOAD,
        ensures
            final(self).wf(),
            final(self).terminated == old(self).terminated,
            ConnectionManager::dispatched(*old(self), *final(self), *iph, *tcph, data@, now, r),
    {
        let q = Quad {
            src_ip: iph.src,
            src_port: tcph.src_port,
            dst_ip: iph.dst,
            dst_port: tcph.dst_port,
        };
        let ghost cs = self.connections@;
        let mut i: usize = 0;
        while i < self.connections.len() && !(self.connections[i].0 == q)
            invariant
                0 <= i <= self.connections@.len(),
                self.connections@ == cs,
                forall|j: int| 0 <= j < i ==> cs[j].0 != q,
            decreases self.connections@.len() - i,
        {
            i = i + 1;
        }
        proof {
            lemma_index_of_key_scan(cs, q, i as int);
        }
        if i < self.connections.len() {
            let mut pair = self.connections.remove(i);
            let (avail, frames) = pair.1.on_packet(tcph, data, now);
            self.connections.insert(i, pair);
            proof {
                lemma_packet_preserves_wf(cs[i as int].1.model(), seg_in_of(*tcph, data@), now);
                assert(self.connections@ =~= cs.update(i as int, self.connections@[i as int]));
                assert forall|a: int, b: int|
                    0 <= a < b < self.connections@.len() implies self.connections@[a].0
                    != self.connections@[b].0 by {
                    assert(cs[a].0 != cs[b].0);
                }
                assert forall|a: int|
                    0 <= a < self.connections@.len() implies conn_wf(
                    (#[trigger] self.connections@[a]).1.model(),
                ) by {
                    if a != i as int {
                        assert(self.connections@[a] == cs[a]);
                        assert(conn_wf(cs[a].1.model()));
                    }
                }
            }
            return Dispatch { frames, wake_read: avail.read, wake_pending: false };
        }
        let ghost ps = self.pending@;
        let mut p: usize = 0;
        while p < self.pending.len() && self.pending[p].0 != tcph.dst_port
            invariant
                0 <= p <= self.pending@.len(),
                self.pending@ == ps,
                forall|j: int| 0 <= j < p ==> ps[j].0 != tcph.dst_port,
            decreases self.pending@.len() - p,
        {
            p = p + 1;
        }
        proof {
            lemma_index_of_key_scan(ps, tcph.dst_port, p as int);
        }
        if p >= self.pending.len() {
            return Dispatch { frames: Vec::new(), wake_read: false, wake_pending: false };
        }
        match Connection::accpect(iph, tcph, data, now) {
            Some((c, frame)) => {
                self.connections.push((q, c));
                let mut entry = self.pending.remove(p);
                entry.1.push(q);
                self.pending.insert(p, entry);
                let mut frames: Vec<Vec<u8>> = Vec::new();
                frames.push(frame);
                proof {
                    lemma_accept_wf(seg_in_of(*tcph, data@), now);
                    assert(self.connections@.take(cs.len() as int) =~= cs);
                    assert forall|a: int, b: int|
                        0 <= a < b < self.connections@.len() implies self.connections@[a].0
                        != self.connections@[b].0 by {
                        if b < cs.len() {
                            assert(cs[a].0 != cs[b].0);
                        } else {
                            assert(cs[a].0 != q);
                        }
                    }
                    assert forall|a: int|
                        0 <= a < self.connections@.len() implies conn_wf(
                        (#[trigger] self.connections@[a]).1.model(),
                    ) by {
                        if a < cs.len() {
                            assert(self.connections@[a] == cs[a]);
                            assert(conn_wf(cs[a].1.model()));
                        }
                    }
                    assert(self.pending@ =~= ps.update(p as int, self.pending@[p as int]));
                    assert forall|a: int, b: int|
                        0 <= a < b < self.pending@.len() implies self.pending@[a].0
                        != self.pending@[b].0 by {
                        assert(ps[a].0 != ps[b].0);
                    }
                }
                Dispatch { frames, wake_read: false, wake_pending: true }
            },
            None => Dispatch { frames: Vec::new(), wake_read: false, wake_pending: false },
        }
    }

    /// Take one raw frame from the device: parse the IPv4 and TCP headers
    /// at the wire boundary and route the segment. A frame that is not
    /// well-formed TCP over IPv4 is dropped and changes nothing; a frame
    /// that parses is routed exactly as
    /// [`ConnectionManager::dispatched`] says, on the parsed header
    /// fields and the payload past both headers.
    pub fn on_frame(&mut self, frame: &[u8], now: u64) -> (r: Dispatch)
        requires
            old(self).wf(),
            now <= TIME_MAX_MS,
            frame@.len() <= MAX_FRAME_LEN,
        ensures
            final(self).wf(),
            final(self).terminated == old(self).terminated,
            ({
                let dropped = {
                    ||| parsed_ipv4(frame@) is None
                    ||| (parsed_ipv4(frame@) matches Some(m) && (m.protocol != PROTO_TCP
                        || parsed_tcp(frame@.skip(m.header_len as int)) is None))
                };
                dropped ==> {
                    &&& final(self).connections@ == old(self).connections@
                    &&& final(self).pending@ == old(self).pending@
                    &&& r.frames@.len() == 0
                    &&& !r.wake_read
                    &&& !r.wake_pending
                }
            }),
            ({
                match parsed_ipv4(frame@) {
                    Some(m) => if m.protocol == PROTO_TCP {
                        match parsed_tcp(frame@.skip(m.header_len as int)) {
                            Some(t) => ConnectionManager::dispatched(
                                *old(self),
                                *final(self),
                                m,
                                t,
                                frame@.skip(m.header_len as int).skip(t.header_len as int),
                                now,
                                r,
                            ),
                            None => true,
                        }
                    } else {
                        true
                    },
                    None => true,
                }
            }),
    {
        let parsed = parse_ipv4_header(frame);
        match parsed {
            None => Dispatch { frames: Vec::new(), wake_read: false, wake_pending: false },
            Some(m) => {
                if m.protocol != PROTO_TCP {
                    return Dispatch { frames: Vec::new(), wake_read: false, wake_pending: false };
                }
                let rest = &frame[m.header_len..frame.len()];
                let parsed_t = parse_tcp_header(rest);
                match parsed_t {
                    None => Dispatch {
                        frames: Vec::new(),
                        wake_read: false,
                        wake_pending: false,
                    },
                    Some(t) => {
                        let data = &rest[t.header_len..rest.len()];
                        proof {
                            assert(rest@ == frame@.skip(m.header_len as int));
                            assert(data@ =~= frame@.skip(m.header_len as int).skip(
                                t.header_len as int,
                            ));
                        }
                        self.on_segment(&m, &t, data, now)
                    },
                }
            },
        }
    }

    /// Drive every connection's retransmission timer once: the returned
    /// frames are, in table order, exactly what each connection's tick
    /// step prescribes.
    #[verifier::rlimit(60)]
    pub fn on_tick_all(&mut self, now: u64) -> (r: Vec<Vec<u8>>)
        requires
            old(self).wf(),
            now <= TIME_MAX_MS,
        ensures
            final(self).wf(),
            final(self).terminated == old(self).terminated,
            final(self).pending@ == old(self).pending@,
            final(self).connections@.len() == old(self).connections@.len(),
            forall|i: int|
                0 <= i < old(self).connections@.len() ==> {
                    let prev = old(self).connections@[i];
                    &&& (#[trigger] final(self).connections@[i]).0 == prev.0
                    &&& final(self).connections@[i].1.model() == step_tick(
                        prev.1.model(),
                        now,
                    ).conn
                    &&& final(self).connections@[i].1.same_endpoints(prev.1)
                },
            r@.map_values(|f: Vec<u8>| f@) == tick_frames(old(self).connections@, now),
    {
        let ghost cs = self.connections@;
        let mut frames: Vec<Vec<u8>> = Vec::new();
        let mut i: usize = 0;
        proof {
            assert(cs.skip(0) =~= cs);
            assert(frames@.map_values(|f: Vec<u8>| f@) + tick_frames(cs, now) =~= tick_frames(
                cs,
                now,
            ));
        }
        while i < self.connections.len()
            invariant
                0 <= i <= cs.len(),
                self.connections@.len() == cs.len(),
                self.terminated == old(self).terminated,
                self.pending@ == old(self).pending@,
                now <= TIME_MAX_MS,
                keys_unique(self.pending@),
                forall|j: int| i <= j < cs.len() ==> self.connections@[j] == cs[j],
                forall|j: int|
                    0 <= j < i ==> {
                        let prev = cs[j];
                        &&& (#[trigger] self.connections@[j]).0 == prev.0
                        &&& self.connections@[j].1.model() == step_tick(prev.1.model(), now).conn
                        &&& self.connections@[j].1.same_endpoints(prev.1)
                        &&& self.connections@[j].1.timer.wf()
                        &&& conn_wf(self.connections@[j].1.model())
                    },
                keys_unique(cs),
                forall|j: int| 0 <= j < cs.len() ==> (#[trigger] cs[j]).1.timer.wf(),
                forall|j: int| 0 <= j < cs.len() ==> conn_wf((#[trigger] cs[j]).1.model()),
                tick_frames(cs, now) == frames@.map_values(|f: Vec<u8>| f@) + tick_frames(
                    cs.skip(i as int),
                    now,
                ),
            decreases cs.len() - i,
        {
            proof {
                assert(cs.skip(i as int)[0] == cs[i as int]);
                assert(cs.skip(i as int).drop_first() =~= cs.skip(i as int + 1));
            }
            let ghost before = self.connections@;
            let mut pair = self.connections.remove(i);
            let emitted = pair.1.on_tick(now);
            self.connections.insert(i, pair);
            proof {
                lemma_tick_preserves_wf(cs[i as int].1.model(), now);
                assert(self.connections@ =~= before.update(i as int, self.connections@[i as int]));
            }
            match emitted {
                Some(frame) => {
                    let ghost fs0 = frames@;
                    frames.push(frame);
                    proof {
                        assert(frames@.map_values(|f: Vec<u8>| f@) =~= fs0.map_values(
                            |f: Vec<u8>| f@,
                        ) + seq![frame@]);
                        assert((fs0.map_values(|f: Vec<u8>| f@) + seq![frame@]) + tick_frames(
                            cs.skip(i as int + 1),
                            now,
                        ) =~= fs0.map_values(|f: Vec<u8>| f@) + (seq![frame@] + tick_frames(
                            cs.skip(i as int + 1),
                            now,
                        )));
                    }
                },
                None => (),
            }
            i = i + 1;
        }
        proof {
            assert(cs.skip(cs.len() as int) =~= Seq::<(Quad, Connection)>::empty());
            assert(tick_frames(cs.skip(cs.len() as int), now) =~= Seq::<Seq<u8>>::empty());
            assert(frames@.map_values(|f: Vec<u8>| f@) + Seq::<Seq<u8>>::empty() =~= frames@
                .map_values(|f: Vec<u8>| f@));
            assert forall|a: int, b: int|
                0 <= a < b < self.connections@.len() implies self.connections@[a].0
                != self.connections@[b].0 by {
                assert(cs[a].0 != cs[b].0);
            }
        }
        frames
    }

    /// Serve a reader: `Err` when the four-tuple is gone, `Ok(None)` when
    /// the caller must wait, `Ok(Some(empty))` at end of stream, and
    /// otherwise up to `max` queued bytes, drained in order.
    pub fn read_conn(&mut self, q: &Quad, max: usize) -> (r: Result<Option<Vec<u8>>, TcpErr>)
        requires
            old(self).wf(),
        ensures
            final(self).wf(),
            final(self).terminated == old(self).terminated,
            final(self).pending@ == old(self).pending@,
            ({
                let cs = old(self).connections@;
                let ci = index_of_key(cs, *q);
                if ci < 0 {
                    r == Result::<Option<Vec<u8>>, TcpErr>::Err(TcpErr::ConnectionAborted)
                        && final(self).connections@ == cs
                } else {
                    let c = cs[ci].1;
                    &&& final(self).connections@.len() == cs.len()
                    &&& forall|k: int|
                        0 <= k < cs.len() && k != ci ==> final(self).connections@[k] == cs[k]
                    &&& final(self).connections@[ci].0 == *q
                    &&& if c.state == State::TimeWait && c.incoming@.len() == 0 {
                        &&& r matches Ok(Some(v)) && v@ == Seq::<u8>::empty()
                        &&& final(self).connections@[ci].1.incoming@ == c.incoming@
                    } else if c.incoming@.len() > 0 {
                        let n = if max as int <= c.incoming@.len() {
                            max as int
                        } else {
                            c.incoming@.len() as int
                        };
                        &&& r matches Ok(Some(v)) && v@ == c.incoming@.take(n)
                        &&& final(self).connections@[ci].1.incoming@ == c.incoming@.skip(n)
                        &&& final(self).connections@[ci].1 == (Connection {
                            incoming: final(self).connections@[ci].1.incoming,
                            ..c
                        })
                    } else {
                        &&& r == Result::<Option<Vec<u8>>, TcpErr>::Ok(None)
                        &&& final(self).connections@[ci].1.incoming@ == c.incoming@
                    }
                }
            }),
    {
        let ghost cs = self.connections@;
        let mut i: usize = 0;
        while i < self.connections.len() && !(self.connections[i].0 == *q)
            invariant
                0 <= i <= self.connections@.len(),
                self.connections@ == cs,
                forall|j: int| 0 <= j < i ==> cs[j].0 != *q,
            decreases self.connections@.len() - i,
        {
            i = i + 1;
        }
        proof {
            lemma_index_of_key_scan(cs, *q, i as int);
        }
        if i >= self.connections.len() {
            return Err(TcpErr::ConnectionAborted);
        }
        let mut pair = self.connections.remove(i);
        let ghost m0 = pair.1.model();
        let r = if pair.1.is_rcv_closed() && pair.1.incoming.len() == 0 {
            Ok(Some(Vec::new()))
        } else if pair.1.incoming.len() > 0 {
            Ok(Some(pair.1.take_incoming(max)))
        } else {
            Ok(None)
        };
        proof {
            let n = if max as int <= m0.incoming.len() {
                max as int
            } else {
                m0.incoming.len() as int
            };
            lemma_read_preserves_wf(m0, n);
            assert(conn_wf(pair.1.model())) by {
                if pair.1.model() != m0 {
                    assert(pair.1.model() =~= (ConnModel { incoming: m0.incoming.skip(n), ..m0 }));
                }
            }
        }
        self.connections.insert(i, pair);
        proof {
            assert(self.connections@ =~= cs.update(i as int, self.connections@[i as int]));
            assert forall|a: int, b: int|
                0 <= a < b < self.connections@.len() implies self.connections@[a].0
                != self.connections@[b].0 by {
                assert(cs[a].0 != cs[b].0);
            }
            assert forall|a: int|
                0 <= a < self.connections@.len() implies conn_wf(
                (#[trigger] self.connections@[a]).1.model(),
            ) by {
                if a != i as int {
                    assert(self.connections@[a] == cs[a]);
                    assert(conn_wf(cs[a].1.model()));
                }
            }
        }
        r
    }

    /// Serve a writer: `Err(ConnectionAborted)` when the four-tuple is
    /// gone, `Err(WouldBlock)` when the outbound queue is full, otherwise
    /// append what fits and report how much.
    pub fn write_conn(&mut self, q: &Quad, buf: &[u8]) -> (r: Result<usize, TcpErr>)
        requires
            old(self).wf(),
        ensures
            final(self).wf(),
            final(self).terminated == old(self).terminated,
            final(self).pending@ == old(self).pending@,
            ({
                let cs = old(self).connections@;
                let ci = index_of_key(cs, *q);
                if ci < 0 {
                    r == Result::<usize, TcpErr>::Err(TcpErr::ConnectionAborted) && final(self).connections@ == cs
                } else {
                    let c = cs[ci].1;
                    &&& final(self).connections@.len() == cs.len()
                    &&& forall|k: int|
                        0 <= k < cs.len() && k != ci ==> final(self).connections@[k] == cs[k]
                    &&& final(self).connections@[ci].0 == *q
                    &&& if c.unacked@.len() >= SENDQUEUE_SIZE {
                        r == Result::<usize, TcpErr>::Err(TcpErr::WouldBlock) && final(self).connections@[ci].1.unacked@ == c.unacked@
                    } else {
                        let n = if SENDQUEUE_SIZE - c.unacked@.len() <= buf@.len() {
                            SENDQUEUE_SIZE - c.unacked@.len() as int
                        } else {
                            buf@.len() as int
                        };
                        &&& r == Result::<usize, TcpErr>::Ok(n as usize)
                        &&& final(self).connections@[ci].1.unacked@ == c.unacked@ + buf@.take(n)
                        &&& final(self).connections@[ci].1 == (Connection {
                            unacked: final(self).connections@[ci].1.unacked,
                            ..c
                        })
                    }
                }
            }),
    {
        let ghost cs = self.connections@;
        let mut i: usize = 0;
        while i < self.connections.len() && !(self.connections[i].0 == *q)
            invariant
                0 <= i <= self.connections@.len(),
                self.connections@ == cs,
                forall|j: int| 0 <= j < i ==> cs[j].0 != *q,
            decreases self.connections@.len() - i,
        {
            i = i + 1;
        }
        proof {
            lemma_index_of_key_scan(cs, *q, i as int);
        }
        if i >= self.connections.len() {
            return Err(TcpErr::ConnectionAborted);
        }
        let mut pair = self.connections.remove(i);
        let ghost m0 = pair.1.model();
        let r = pair.1.enqueue(buf);
        proof {
            if m0.unacked.len() < SENDQUEUE_SIZE {
                let n = if SENDQUEUE_SIZE - m0.unacked.len() <= buf@.len() {
                    SENDQUEUE_SIZE - m0.unacked.len() as int
                } else {
                    buf@.len() as int
                };
                lemma_enqueue_preserves_wf(m0, buf@.take(n));
                assert(pair.1.model() =~= (ConnModel { unacked: m0.unacked + buf@.take(n), ..m0 }));
            }
            assert(conn_wf(pair.1.model()));
        }
        self.connections.insert(i, pair);
        proof {
            assert(self.connections@ =~= cs.update(i as int, self.connections@[i as int]));
            assert forall|a: int|
                0 <= a < self.connections@.len() implies conn_wf(
                (#[trigger] self.connections@[a]).1.model(),
            ) by {
                if a != i as int {
                    assert(self.connections@[a] == cs[a]);
                    assert(conn_wf(cs[a].1.model()));
                }
            }
            assert forall|a: int, b: int|
                0 <= a < b < self.connections@.len() implies self.connections@[a].0
                != self.connections@[b].0 by {
                assert(cs[a].0 != cs[b].0);
            }
        }
        r
    }

    /// Serve a flush: `Ok` once nothing is left unacknowledged,
    /// `Err(WouldBlock)` while bytes remain, `Err(ConnectionAborted)`
    /// when the four-tuple is gone. Changes nothing.
    pub fn flush_conn(&self, q: &Quad) -> (r: Result<(), TcpErr>)
        requires
            self.wf(),
        ensures
            ({
                let ci = index_of_key(self.connections@, *q);
                if ci < 0 {
                    r == Result::<(), TcpErr>::Err(TcpErr::ConnectionAborted)
                } else if self.connections@[ci].1.unacked@.len() == 0 {
                    r == Result::<(), TcpErr>::Ok(())
                } else {
                    r == Result::<(), TcpErr>::Err(TcpErr::WouldBlock)
                }
            }),
    {
        let ghost cs = self.connections@;
        let mut i: usize = 0;
        while i < self.connections.len() && !(self.connections[i].0 == *q)
            invariant
                0 <= i <= self.connections@.len(),
                self.connections@ == cs,
                forall|j: int| 0 <= j < i ==> cs[j].0 != *q,
            decreases self.connections@.len() - i,
        {
            i = i + 1;
        }
        proof {
            lemma_index_of_key_scan(cs, *q, i as int);
        }
        if i >= self.connections.len() {
            Err(TcpErr::ConnectionAborted)
        } else if self.connections[i].1.unacked.len() == 0 {
            Ok(())
        } else {
            Err(TcpErr::WouldBlock)
        }
    }

    /// Serve a close: schedule the FIN on the connection owning `q`.
    /// `Err(ConnectionAborted)` when the four-tuple is gone,
    /// `Err(NotConnected)` when the state cannot close again.
    pub fn close_conn(&mut self, q: &Quad) -> (r: Result<(), TcpErr>)
        requires
            old(self).wf(),
        ensures
            final(self).wf(),
            final(self).terminated == old(self).terminated,
            final(self).pending@ == old(self).pending@,
            ({
                let cs = old(self).connections@;
                let ci = index_of_key(cs, *q);
                if ci < 0 {
                    r == Result::<(), TcpErr>::Err(TcpErr::ConnectionAborted) && final(self).connections@ == cs
                } else {
                    let c = cs[ci].1;
                    &&& final(self).connections@.len() == cs.len()
                    &&& forall|k: int|
                        0 <= k < cs.len() && k != ci ==> final(self).connections@[k] == cs[k]
                    &&& final(self).connections@[ci].0 == *q
                    &&& final(self).connections@[ci].1.model() == step_close(c.model())
                    &&& final(self).connections@[ci].1.same_endpoints(c)
                    &&& (r is Ok <==> close_ok(c.model()))
                    &&& (r matches Err(e) ==> e == TcpErr::NotConnected)
                }
            }),
    {
        let ghost cs = self.connections@;
        let mut i: usize = 0;
        while i < self.connections.len() && !(self.connections[i].0 == *q)
            invariant
                0 <= i <= self.connections@.len(),
                self.connections@ == cs,
                forall|j: int| 0 <= j < i ==> cs[j].0 != *q,
            decreases self.connections@.len() - i,
        {
            i = i + 1;
        }
        proof {
            lemma_index_of_key_scan(cs, *q, i as int);
        }
        if i >= self.connections.len() {
            return Err(TcpErr::ConnectionAborted);
        }
        let mut pair = self.connections.remove(i);
        let ghost m0 = pair.1.model();
        let r = pair.1.close();
        proof {
            lemma_close_preserves_wf(m0);
        }
        self.connections.insert(i, pair);
        proof {
            assert(self.connections@ =~= cs.update(i as int, self.connections@[i as int]));
            assert forall|a: int, b: int|
                0 <= a < b < self.connections@.len() implies self.connections@[a].0
                != self.connections@[b].0 by {
                assert(cs[a].0 != cs[b].0);
            }
            assert forall|a: int|
                0 <= a < self.connections@.len() implies conn_wf(
                (#[trigger] self.connections@[a]).1.model(),
            ) by {
                if a != i as int {
                    assert(self.connections@[a] == cs[a]);
                    assert(conn_wf(cs[a].1.model()));
                }
            }
        }
        r
    }

    /// Record that the embedding program is tearing down.
    pub fn set_terminated(&mut self)
        requires
            old(self).wf(),
        ensures
            final(self).wf(),
            final(self).terminated,
            final(self).connections@ == old(self).connections@,
            final(self).pending@ == old(self).pending@,
    {
        self.terminated = true;
    }
}

} // verus!
