//! The retransmission timer: per-segment send times and the smoothed
//! round-trip estimate.
//!
//! `send_times` records, for each transmitted segment, the starting sequence
//! number and the instant (milliseconds) it was last put on the wire,
//! ordered by sequence number. On acknowledgment the acked entries are
//! retired in ascending key order and each one feeds the smoothed RTT
//! through an exponentially weighted moving average with weight 4/5 on the
//! old estimate.

use vstd::prelude::*;

use crate::seqnum::spec_is_between_wrapping;

verus! {

/// Upper bound on every instant this stack handles, in milliseconds from
/// process start: about 8900 years, far beyond any run, and small enough
/// that the RTT arithmetic stays inside `u64`.
pub const TIME_MAX_MS: u64 = 0x1_0000_0000_0000;

/// Initial smoothed RTT: two minutes, in milliseconds.
pub const INITIAL_SRTT_MS: u64 = 120_000;

/// Keys strictly ascend: at most one entry per starting sequence number,
/// in sequence order.
pub open spec fn st_sorted(s: Seq<(u32, u64)>) -> bool {
    forall|i: int, j: int| 0 <= i < j < s.len() ==> s[i].0 < s[j].0
}

/// Every recorded instant is within the stack's time bound.
pub open spec fn st_bounded(s: Seq<(u32, u64)>) -> bool {
    forall|i: int| 0 <= i < s.len() ==> s[i].1 <= TIME_MAX_MS
}

/// Number of entries whose key is below `k`; in a sorted sequence, the
/// index where `k` lives or would be inserted.
pub open spec fn st_lb(s: Seq<(u32, u64)>, k: u32) -> int
    decreases s.len(),
{
    if s.len() == 0 {
        0
    } else if s[0].0 < k {
        1 + st_lb(s.drop_first(), k)
    } else {
        0
    }
}

/// The sequence after recording instant `v` for key `k`: replaces the
/// existing entry or splices a new one in at its ordered position.
pub open spec fn st_insert(s: Seq<(u32, u64)>, k: u32, v: u64) -> Seq<(u32, u64)> {
    let i = st_lb(s, k);
    if i < s.len() && s[i].0 == k {
        s.update(i, (k, v))
    } else {
        s.insert(i, (k, v))
    }
}

/// The earliest entry at or after `k` in plain `u32` order, if any.
pub open spec fn st_first_at_or_after(s: Seq<(u32, u64)>, k: u32) -> Option<(u32, u64)> {
    if st_lb(s, k) < s.len() {
        Some(s[st_lb(s, k)])
    } else {
        None
    }
}

/// An entry with key `k` is retired by an acknowledgment that moves the
/// left window edge from `una` to `ackn`: the keys of the half-open
/// wrapping range `[una, ackn)`.
pub open spec fn st_retired(k: u32, una: u32, ackn: u32) -> bool {
    k == una || spec_is_between_wrapping(una, k, ackn)
}

/// The entries that survive retiring the keys of `[una, ackn)`, in order.
pub open spec fn st_retire(s: Seq<(u32, u64)>, una: u32, ackn: u32) -> Seq<(u32, u64)>
    decreases s.len(),
{
    if s.len() == 0 {
        Seq::empty()
    } else if st_retired(s[0].0, una, ackn) {
        st_retire(s.drop_first(), una, ackn)
    } else {
        seq![s[0]] + st_retire(s.drop_first(), una, ackn)
    }
}

/// One smoothed-RTT step: the new estimate keeps 4/5 of the old one and
/// takes 1/5 from the fresh sample, in integer milliseconds.
pub open spec fn ewma(srtt: u64, rtt: u64) -> u64 {
    ((4 * srtt + rtt) / 5) as u64
}

/// The smoothed RTT after feeding it, in ascending key order, the age of
/// every entry retired by the move from `una` to `ackn` at instant `now`.
pub open spec fn st_srtt_after(
    s: Seq<(u32, u64)>,
    srtt: u64,
    una: u32,
    ackn: u32,
    now: u64,
) -> u64
    decreases s.len(),
{
    if s.len() == 0 {
        srtt
    } else if st_retired(s[0].0, una, ackn) {
        st_srtt_after(
            s.drop_first(),
            ewma(srtt, if now >= s[0].1 { (now - s[0].1) as u64 } else { 0u64 }),
            una,
            ackn,
            now,
        )
    } else {
        st_srtt_after(s.drop_first(), srtt, una, ackn, now)
    }
}

/// In a sorted sequence, `st_lb` is the unique index with everything below
/// it under `k` and everything from it on at or above `k`.
pub proof fn lemma_st_lb_bounds(s: Seq<(u32, u64)>, k: u32)
    requires
        st_sorted(s),
    ensures
        0 <= st_lb(s, k) <= s.len(),
        forall|j: int| 0 <= j < st_lb(s, k) ==> s[j].0 < k,
        st_lb(s, k) < s.len() ==> s[st_lb(s, k)].0 >= k,
    decreases s.len(),
{
    if s.len() > 0 && s[0].0 < k {
        assert(st_sorted(s.drop_first()));
        lemma_st_lb_bounds(s.drop_first(), k);
        assert forall|j: int| 0 <= j < st_lb(s, k) implies s[j].0 < k by {
            if j > 0 {
                assert(s.drop_first()[j - 1] == s[j]);
            }
        }
        if st_lb(s, k) < s.len() {
            assert(s.drop_first()[st_lb(s, k) - 1] == s[st_lb(s, k)]);
        }
    }
}

/// A scan that stops at the first key at or above `k` lands on `st_lb`.
pub proof fn lemma_st_lb_unique(s: Seq<(u32, u64)>, k: u32, i: int)
    requires
        st_sorted(s),
        0 <= i <= s.len(),
        forall|j: int| 0 <= j < i ==> s[j].0 < k,
        i < s.len() ==> s[i].0 >= k,
    ensures
        i == st_lb(s, k),
{
    lemma_st_lb_bounds(s, k);
    let lb = st_lb(s, k);
    if i < lb {
        assert(s[i].0 < k);
    } else if lb < i {
        assert(s[lb].0 < k);
    }
}

/// Recording keeps the keys ordered and bounded instants bounded, records
/// exactly the new entry, and leaves every other key's entry alone.
pub proof fn lemma_st_insert_props(s: Seq<(u32, u64)>, k: u32, v: u64)
    requires
        st_sorted(s),
    ensures
        st_sorted(st_insert(s, k, v)),
        st_bounded(s) && v <= TIME_MAX_MS ==> st_bounded(st_insert(s, k, v)),
        st_insert(s, k, v).contains((k, v)),
        forall|i: int|
            0 <= i < st_insert(s, k, v).len() ==> (#[trigger] st_insert(s, k, v)[i]) == (k, v)
                || s.contains(st_insert(s, k, v)[i]),
{
    lemma_st_lb_bounds(s, k);
    let t = st_insert(s, k, v);
    let lb = st_lb(s, k);
    if lb < s.len() && s[lb].0 == k {
        assert(t.contains((k, v))) by {
            assert(t[lb] == (k, v));
        }
        assert forall|i: int| 0 <= i < t.len() implies (#[trigger] t[i]) == (k, v) || s.contains(
            t[i],
        ) by {
            if i != lb {
                assert(t[i] == s[i]);
            }
        }
    } else {
        assert(t.contains((k, v))) by {
            assert(t[lb] == (k, v));
        }
        assert forall|i: int| 0 <= i < t.len() implies (#[trigger] t[i]) == (k, v) || s.contains(
            t[i],
        ) by {
            if i < lb {
                assert(t[i] == s[i]);
            } else if i > lb {
                assert(t[i] == s[i - 1]);
            }
        }
        assert forall|a: int, b: int| 0 <= a < b < t.len() implies t[a].0 < t[b].0 by {
            if a < lb {
                assert(t[a] == s[a]);
            } else if a > lb {
                assert(t[a] == s[a - 1]);
            }
            if b < lb {
                assert(t[b] == s[b]);
            } else if b > lb {
                assert(t[b] == s[b - 1]);
            }
            if lb < s.len() {
                assert(s[lb].0 > k);
            }
        }
    }
}

/// Retiring keeps order and bounds, keeps only entries of the original
/// map, and keeps none whose key the acknowledgment covered.
pub proof fn lemma_st_retire_props(s: Seq<(u32, u64)>, una: u32, ackn: u32)
    requires
        st_sorted(s),
    ensures
        st_sorted(st_retire(s, una, ackn)),
        st_bounded(s) ==> st_bounded(st_retire(s, una, ackn)),
        forall|i: int|
            0 <= i < st_retire(s, una, ackn).len() ==> s.contains(
                #[trigger] st_retire(s, una, ackn)[i],
            ) && !st_retired(st_retire(s, una, ackn)[i].0, una, ackn),
    decreases s.len(),
{
    let t = st_retire(s, una, ackn);
    if s.len() > 0 {
        assert(st_sorted(s.drop_first()));
        lemma_st_retire_props(s.drop_first(), una, ackn);
        let r = st_retire(s.drop_first(), una, ackn);
        assert forall|i: int|
            0 <= i < r.len() implies s.contains(#[trigger] r[i]) && !st_retired(
            r[i].0,
            una,
            ackn,
        ) by {
            let j = choose|j: int| 0 <= j < s.drop_first().len() && s.drop_first()[j] == r[i];
            assert(s[j + 1] == r[i]);
        }
        if !st_retired(s[0].0, una, ackn) {
            assert(t[0] == s[0]);
            assert forall|a: int, b: int| 0 <= a < b < t.len() implies t[a].0 < t[b].0 by {
                if a == 0 {
                    let j = choose|j: int|
                        0 <= j < s.drop_first().len() && s.drop_first()[j] == r[b - 1];
                    assert(s[0].0 < s[j + 1].0);
                } else {
                    assert(t[a] == r[a - 1] && t[b] == r[b - 1]);
                }
            }
        }
    }
}

/// The smoothed RTT stays within the time bound as samples are folded in.
pub proof fn lemma_st_srtt_bound(s: Seq<(u32, u64)>, srtt: u64, una: u32, ackn: u32, now: u64)
    requires
        srtt <= TIME_MAX_MS,
        now <= TIME_MAX_MS,
    ensures
        st_srtt_after(s, srtt, una, ackn, now) <= TIME_MAX_MS,
    decreases s.len(),
{
    if s.len() > 0 {
        if st_retired(s[0].0, una, ackn) {
            let rtt = if now >= s[0].1 {
                (now - s[0].1) as u64
            } else {
                0u64
            };
            lemma_st_srtt_bound(s.drop_first(), ewma(srtt, rtt), una, ackn, now);
        } else {
            lemma_st_srtt_bound(s.drop_first(), srtt, una, ackn, now);
        }
    }
}

/// The ordered map of send times.
pub struct SendTimes {
    /// The entries, keyed by starting sequence number, keys strictly
    /// ascending.
    pub entries: Vec<(u32, u64)>,
}

impl SendTimes {
    /// Well-formed: ordered keys, bounded instants.
    pub open spec fn wf(self) -> bool {
        st_sorted(self.entries@) && st_bounded(self.entries@)
    }

    /// An empty map.
    pub fn new() -> (r: SendTimes)
        ensures
            r.entries@ == Seq::<(u32, u64)>::empty(),
            r.wf(),
    {
        SendTimes { entries: Vec::new() }
    }

    /// Record that the segment starting at `k` was transmitted at `now`,
    /// replacing any earlier record for the same start.
    pub fn record(&mut self, k: u32, now: u64)
        requires
            old(self).wf(),
            now <= TIME_MAX_MS,
        ensures
            final(self).entries@ == st_insert(old(self).entries@, k, now),
            final(self).wf(),
    {
        let ghost s = self.entries@;
        let mut i: usize = 0;
        while i < self.entries.len() && self.entries[i].0 < k
            invariant
                0 <= i <= self.entries.len(),
                self.entries@ == s,
                forall|j: int| 0 <= j < i ==> s[j].0 < k,
            decreases self.entries.len() - i,
        {
            i = i + 1;
        }
        proof {
            lemma_st_lb_unique(s, k, i as int);
        }
        if i < self.entries.len() && self.entries[i].0 == k {
            self.entries.set(i, (k, now));
        } else {
            self.entries.insert(i, (k, now));
        }
        proof {
            lemma_st_lb_bounds(s, k);
            assert forall|a: int, b: int|
                0 <= a < b < self.entries@.len() implies self.entries@[a].0
                < self.entries@[b].0 by {}
        }
    }

    /// The earliest recorded entry with key at or after `k`, in plain
    /// `u32` order.
    pub fn first_at_or_after(&self, k: u32) -> (r: Option<(u32, u64)>)
        requires
            self.wf(),
        ensures
            r == st_first_at_or_after(self.entries@, k),
    {
        let mut i: usize = 0;
        while i < self.entries.len() && self.entries[i].0 < k
            invariant
                0 <= i <= self.entries.len(),
                forall|j: int| 0 <= j < i ==> self.entries@[j].0 < k,
                self.wf(),
            decreases self.entries.len() - i,
        {
            i = i + 1;
        }
        proof {
            lemma_st_lb_unique(self.entries@, k, i as int);
        }
        if i < self.entries.len() {
            Some(self.entries[i])
        } else {
            None
        }
    }

    /// Retire every entry whose key the acknowledgment `[una, ackn)`
    /// covers, feeding each one's age into the smoothed RTT in ascending
    /// key order; returns the new estimate.
    pub fn retire(&mut self, una: u32, ackn: u32, now: u64, srtt: u64) -> (r: u64)
        requires
            old(self).wf(),
            now <= TIME_MAX_MS,
            srtt <= TIME_MAX_MS,
        ensures
            final(self).entries@ == st_retire(old(self).entries@, una, ackn),
            r == st_srtt_after(old(self).entries@, srtt, una, ackn, now),
            r <= TIME_MAX_MS,
            final(self).wf(),
    {
        let ghost s = self.entries@;
        let mut kept: Vec<(u32, u64)> = Vec::new();
        let mut cur: u64 = srtt;
        let mut i: usize = 0;
        proof {
            assert(s.skip(0) =~= s);
            assert(kept@ + st_retire(s, una, ackn) =~= st_retire(s, una, ackn));
        }
        while i < self.entries.len()
            invariant
                0 <= i <= self.entries.len(),
                self.entries@ == s,
                st_sorted(s),
                st_bounded(s),
                now <= TIME_MAX_MS,
                cur <= TIME_MAX_MS,
                st_retire(s, una, ackn) == kept@ + st_retire(s.skip(i as int), una, ackn),
                st_srtt_after(s, srtt, una, ackn, now) == st_srtt_after(
                    s.skip(i as int),
                    cur,
                    una,
                    ackn,
                    now,
                ),
                forall|a: int, b: int| 0 <= a < b < kept@.len() ==> kept@[a].0 < kept@[b].0,
                st_bounded(kept@),
                forall|a: int|
                    0 <= a < kept@.len() ==> (exists|b: int|
                        0 <= b < i && #[trigger] kept@[a] == #[trigger] s[b]),
            decreases self.entries.len() - i,
        {
            let (k, sent) = self.entries[i];
            proof {
                assert(s.skip(i as int)[0] == s[i as int]);
                assert(s.skip(i as int).drop_first() =~= s.skip(i as int + 1));
            }
            let retired: bool = k == una || crate::seqnum::is_between_wrapping(una, k, ackn);
            if retired {
                let rtt = now.saturating_sub(sent);
                cur = (4 * cur + rtt) / 5;
            } else {
                let ghost kept0 = kept@;
                kept.push((k, sent));
                proof {
                    assert(kept@ + st_retire(s.skip(i as int + 1), una, ackn) =~= kept0 + (seq![
                        s[i as int],
                    ] + st_retire(s.skip(i as int + 1), una, ackn)));
                    assert forall|a: int, b: int|
                        0 <= a < b < kept@.len() implies kept@[a].0 < kept@[b].0 by {
                        if b == kept@.len() - 1 {
                            let bb = choose|bb: int| 0 <= bb < i && kept0[a] == s[bb];
                            assert(s[bb].0 < s[i as int].0);
                        }
                    }
                }
            }
            i = i + 1;
        }
        proof {
            assert(s.skip(s.len() as int) =~= Seq::<(u32, u64)>::empty());
            assert(kept@ + st_retire(s.skip(s.len() as int), una, ackn) =~= kept@);
        }
        self.entries = kept;
        cur
    }
}

/// The retransmission timer of one connection.
pub struct Timer {
    /// Transmission instants by starting sequence number.
    pub send_times: SendTimes,
    /// Smoothed round-trip time, in milliseconds.
    pub srtt: u64,
}

impl Timer {
    /// Well-formed: ordered send times, estimates within the time bound.
    pub open spec fn wf(self) -> bool {
        self.send_times.wf() && self.srtt <= TIME_MAX_MS
    }

    /// A fresh timer: no send times, the initial two-minute estimate.
    pub fn new() -> (r: Timer)
        ensures
            r.send_times.entries@ == Seq::<(u32, u64)>::empty(),
            r.srtt == INITIAL_SRTT_MS,
            r.wf(),
    {
        Timer { send_times: SendTimes::new(), srtt: INITIAL_SRTT_MS }
    }
}

} // verus!
