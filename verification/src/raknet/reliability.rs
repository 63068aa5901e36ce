//! Acknowledgements: ACK and NACK datagrams, round-trip time smoothing, congestion
//! window updates and retransmission of overdue reliable frames.
use crate::raknet::server::{sat_sub, session_pos, PeerAddr, RakNetServer};
use crate::raknet::session::{pending_view, pending_views, ClientSession, PendingMessage};
use crate::util::buffer::{be16, le24};
use vstd::prelude::*;

verus! {

/// The lower bound of the retransmission timeout after an acknowledgement (150 ms).
pub const MIN_RTO_NS: u64 = 150_000_000;

/// The upper bound of the retransmission timeout (2 s).
pub const MAX_RTO_NS: u64 = 2_000_000_000;

/// The reliability state of a session as values.
#[verifier::ext_equal]
pub struct RelView {
    pub pending: Seq<(u32, Seq<u8>, usize, u64, u32, u8)>,
    pub in_flight: usize,
    pub smoothed_rtt: Option<u64>,
    pub rto: u64,
    pub cwnd: usize,
    pub ssthresh: usize,
}

/// The reliability state of a session.
pub open spec fn rel_view(s: ClientSession) -> RelView {
    RelView {
        pending: pending_views(s.pending_messages@),
        in_flight: s.in_flight_bytes,
        smoothed_rtt: s.smoothed_rtt_ns,
        rto: s.retransmit_timeout_ns,
        cwnd: s.congestion_window_bytes,
        ssthresh: s.slow_start_threshold_bytes,
    }
}

/// The fields of a session other than its reliability state are the same.
pub open spec fn same_but_reliability(a: ClientSession, b: ClientSession) -> bool {
    &&& a.address@ == b.address@
    &&& a.guid == b.guid
    &&& a.connected == b.connected
    &&& a.packet_seq == b.packet_seq
    &&& a.reliable_seq == b.reliable_seq
    &&& a.order_index == b.order_index
    &&& a.raknet_protocol == b.raknet_protocol
    &&& a.bedrock_protocol == b.bedrock_protocol
    &&& a.bedrock_version@ == b.bedrock_version@
    &&& a.compression_enabled == b.compression_enabled
    &&& a.ordered_channels@ == b.ordered_channels@
}

/// The first position of sequence number `seq` among pending values.
pub open spec fn pending_at(ms: Seq<(u32, Seq<u8>, usize, u64, u32, u8)>, seq: u32) -> Option<int>
    decreases ms.len(),
{
    if ms.len() == 0 {
        None
    } else if ms[0].0 == seq {
        Some(0)
    } else {
        match pending_at(ms.drop_first(), seq) {
            Some(i) => Some(i + 1),
            None => None,
        }
    }
}

/// The smoothed round-trip time after a sample: the first sample as it is, later ones
/// moving the estimate an eighth of the way toward the sample.
pub open spec fn smoothed_after(prev: Option<u64>, rtt: u64) -> u64 {
    match prev {
        Some(p) => if rtt >= p {
            (p + (rtt - p) / 8) as u64
        } else {
            (p - (p - rtt) / 8) as u64
        },
        None => rtt,
    }
}

/// Twice the smoothed round-trip time, kept between 150 ms and 2 s.
pub open spec fn rto_for(smoothed: u64) -> u64 {
    let base = if smoothed > u64::MAX / 2 {
        u64::MAX
    } else {
        (2 * smoothed) as u64
    };
    if base < MIN_RTO_NS {
        MIN_RTO_NS
    } else if base > MAX_RTO_NS {
        MAX_RTO_NS
    } else {
        base
    }
}

/// `a + b` capped at `usize::MAX`.
pub open spec fn sat_add_usize(a: usize, b: usize) -> usize {
    if a + b > usize::MAX {
        usize::MAX
    } else {
        (a + b) as usize
    }
}

/// The congestion window after acknowledging `size` bytes: slow start adds the size,
/// congestion avoidance half of it (at least one byte either way).
pub open spec fn cwnd_after_ack(cwnd: usize, ssthresh: usize, size: usize) -> usize {
    let s = if size > 1 {
        size
    } else {
        1
    };
    if cwnd < ssthresh {
        sat_add_usize(cwnd, s)
    } else {
        sat_add_usize(
            cwnd,
            if s / 2 > 1 {
                (s / 2) as usize
            } else {
                1
            },
        )
    }
}

/// Acknowledging sequence number `seq` at `now`: its pending message leaves, its bytes
/// leave the flight, its round trip feeds the estimate and the timeout, and the window
/// grows.  An unknown number changes nothing.
pub open spec fn ack_one(v: RelView, seq: u32, now: u64) -> RelView {
    match pending_at(v.pending, seq) {
        None => v,
        Some(i) => {
            let m = v.pending[i];
            let rtt = sat_sub(now, m.3);
            let sm = smoothed_after(v.smoothed_rtt, rtt);
            RelView {
                pending: v.pending.remove(i),
                in_flight: if v.in_flight >= m.2 {
                    (v.in_flight - m.2) as usize
                } else {
                    0
                },
                smoothed_rtt: Some(sm),
                rto: rto_for(sm),
                cwnd: cwnd_after_ack(v.cwnd, v.ssthresh, m.2),
                ssthresh: v.ssthresh,
            }
        },
    }
}

/// Acknowledging the sequence numbers `start..=end` in order.
pub open spec fn ack_range(v: RelView, start: int, end: int, now: u64) -> RelView
    decreases end - start + 1,
{
    if start > end || start < 0 || start > u32::MAX {
        v
    } else {
        ack_range(ack_one(v, start as u32, now), start + 1, end, now)
    }
}

/// The window after a loss: the threshold halves (at least 1024 bytes), the window
/// drops to it, and the timeout doubles (at most 2 s).
pub open spec fn after_loss(v: RelView) -> RelView {
    let half = v.cwnd / 2;
    let th: usize = if half > 1024 {
        half as usize
    } else {
        1024
    };
    RelView {
        ssthresh: th,
        cwnd: th,
        rto: if v.rto > MAX_RTO_NS / 2 {
            MAX_RTO_NS
        } else {
            (2 * v.rto) as u64
        },
        ..v
    }
}

/// A negative acknowledgement of `seq` at `now`: a pending message is sent again (one
/// more attempt, sent now) and the window shrinks as after a loss; the frame to resend
/// comes with it.
pub open spec fn nack_one(v: RelView, seq: u32, now: u64) -> (RelView, Option<Seq<u8>>) {
    match pending_at(v.pending, seq) {
        None => (v, None),
        Some(i) => {
            let m = v.pending[i];
            let m2 = (m.0, m.1, m.2, now, if m.4 == u32::MAX {
                u32::MAX
            } else {
                (m.4 + 1) as u32
            }, m.5);
            (after_loss(RelView { pending: v.pending.update(i, m2), ..v }), Some(m.1))
        },
    }
}

/// Negative acknowledgements of `start..=end` in order: the final state and the frames
/// to resend.
pub open spec fn nack_range(v: RelView, start: int, end: int, now: u64) -> (RelView, Seq<Seq<u8>>)
    decreases end - start + 1,
{
    if start > end || start < 0 || start > u32::MAX {
        (v, Seq::empty())
    } else {
        let (v1, f) = nack_one(v, start as u32, now);
        let (v2, fs) = nack_range(v1, start + 1, end, now);
        (
            v2,
            match f {
                Some(fr) => seq![fr] + fs,
                None => fs,
            },
        )
    }
}

/// A 24-bit little-endian value at `pos` and the position after it; 0 and no move
/// when fewer than 3 bytes are left.
pub open spec fn triad_at(data: Seq<u8>, pos: int) -> (u32, int) {
    if 0 <= pos && pos + 3 <= data.len() {
        (le24(data[pos], data[pos + 1], data[pos + 2]), pos + 3)
    } else {
        (0, pos)
    }
}

/// The segment count of an ACK or NACK datagram and where its ranges start: the id, a
/// big-endian 16-bit count (0 when missing) and a flag byte are read in turn, each only
/// when present.
pub open spec fn ack_header(data: Seq<u8>) -> (u16, int) {
    let p0 = if data.len() >= 1 {
        1int
    } else {
        0int
    };
    let count = if p0 + 2 <= data.len() {
        be16(data[p0], data[p0 + 1])
    } else {
        0u16
    };
    let p1 = if p0 + 2 <= data.len() {
        p0 + 2
    } else {
        p0
    };
    let p2 = if p1 < data.len() {
        p1 + 1
    } else {
        p1
    };
    (count, p2)
}

/// The `n` ranges read from `pos` on: two triads each (start and end).
pub open spec fn ranges_from(data: Seq<u8>, pos: int, n: nat) -> Seq<(u32, u32)>
    decreases n,
{
    if n == 0 {
        Seq::empty()
    } else {
        let (s, p1) = triad_at(data, pos);
        let (e, p2) = triad_at(data, p1);
        seq![(s, e)] + ranges_from(data, p2, (n - 1) as nat)
    }
}

/// The ranges of an ACK or NACK datagram.
pub open spec fn ack_ranges(data: Seq<u8>) -> Seq<(u32, u32)> {
    let (count, pos) = ack_header(data);
    ranges_from(data, pos, count as nat)
}

/// Acknowledging every range in turn.
pub open spec fn ack_all(v: RelView, ranges: Seq<(u32, u32)>, now: u64) -> RelView
    decreases ranges.len(),
{
    if ranges.len() == 0 {
        v
    } else {
        ack_all(ack_range(v, ranges[0].0 as int, ranges[0].1 as int, now), ranges.drop_first(), now)
    }
}

/// Negative acknowledgements of every range in turn, with the frames to resend.
pub open spec fn nack_all(v: RelView, ranges: Seq<(u32, u32)>, now: u64) -> (RelView, Seq<Seq<u8>>)
    decreases ranges.len(),
{
    if ranges.len() == 0 {
        (v, Seq::empty())
    } else {
        let (v1, f1) = nack_range(v, ranges[0].0 as int, ranges[0].1 as int, now);
        let (v2, f2) = nack_all(v1, ranges.drop_first(), now);
        (v2, f1 + f2)
    }
}

/// The pending messages carry distinct sequence numbers.
pub open spec fn distinct_pending(ms: Seq<(u32, Seq<u8>, usize, u64, u32, u8)>) -> bool {
    forall|a: int, b: int| 0 <= a < b < ms.len() ==> #[trigger] ms[a].0 != #[trigger] ms[b].0
}

proof fn lemma_pending_at_spec(ms: Seq<(u32, Seq<u8>, usize, u64, u32, u8)>, seq: u32)
    ensures
        match pending_at(ms, seq) {
            Some(i) => 0 <= i < ms.len() && ms[i].0 == seq,
            None => forall|j: int| 0 <= j < ms.len() ==> #[trigger] ms[j].0 != seq,
        },
    decreases ms.len(),
{
    if ms.len() > 0 {
        lemma_pending_at_spec(ms.drop_first(), seq);
        if ms[0].0 != seq {
            assert forall|j: int| 0 <= j < ms.len() && pending_at(ms, seq) is None implies #[trigger] ms[j].0
                != seq by {
                if j > 0 {
                    assert(ms[j] == ms.drop_first()[j - 1]);
                }
            }
        }
    }
}

/// An acknowledged sequence number is no longer pending, and acknowledging it again
/// changes nothing (for pending messages with distinct sequence numbers).
pub proof fn lemma_ack_clears_sequence(v: RelView, seq: u32, now: u64, later: u64)
    requires
        distinct_pending(v.pending),
    ensures
        pending_at(ack_one(v, seq, now).pending, seq) is None,
        ack_one(ack_one(v, seq, now), seq, later) == ack_one(v, seq, now),
{
    lemma_pending_at_spec(v.pending, seq);
    let w = ack_one(v, seq, now);
    match pending_at(v.pending, seq) {
        None => {},
        Some(i) => {
            assert forall|j: int| 0 <= j < w.pending.len() implies #[trigger] w.pending[j].0 != seq by {
                if j < i {
                    assert(w.pending[j] == v.pending[j]);
                    assert(v.pending[j].0 != v.pending[i].0);
                } else {
                    assert(w.pending[j] == v.pending[j + 1]);
                    assert(v.pending[i].0 != v.pending[j + 1].0);
                }
            }
        },
    }
    lemma_pending_at_spec(w.pending, seq);
    if let Some(k) = pending_at(w.pending, seq) {
        assert(w.pending[k].0 == seq);
    }
}

/// The sessions after an ACK datagram from `key` at `now`: the peer's session (if any)
/// has every acknowledged range applied in turn (`ack_all`); nothing else changes.
pub open spec fn acks_applied(
    before: Seq<ClientSession>,
    after: Seq<ClientSession>,
    key: Seq<char>,
    data: Seq<u8>,
    now: u64,
) -> bool {
    match session_pos(before, key) {
        Some(i) => after.len() == before.len() && rel_view(after[i]) == ack_all(
            rel_view(before[i]),
            ack_ranges(data),
            now,
        ) && same_but_reliability(after[i], before[i]) && forall|k: int|
            0 <= k < before.len() && k != i ==> after[k] == before[k],
        None => after == before,
    }
}

/// The sessions after a NACK datagram from `key` at `now`, with the frames it resends:
/// the peer's session (if any) has every range applied in turn (`nack_all`); nothing else
/// changes, and a peer without a session gets nothing.
pub open spec fn nacks_applied(
    before: Seq<ClientSession>,
    after: Seq<ClientSession>,
    key: Seq<char>,
    data: Seq<u8>,
    now: u64,
    resent: Seq<Seq<u8>>,
) -> bool {
    match session_pos(before, key) {
        Some(i) => {
            let (v, fs) = nack_all(rel_view(before[i]), ack_ranges(data), now);
            &&& after.len() == before.len()
            &&& rel_view(after[i]) == v
            &&& resent == fs
            &&& same_but_reliability(after[i], before[i])
            &&& forall|k: int| 0 <= k < before.len() && k != i ==> after[k] == before[k]
        },
        None => after == before && resent.len() == 0,
    }
}

proof fn lemma_pending_at_views(ms: Seq<PendingMessage>, seq: u32)
    ensures
        pending_at(pending_views(ms), seq) == crate::raknet::session::pending_pos(ms, seq),
    decreases ms.len(),
{
    if ms.len() > 0 {
        assert(pending_views(ms).drop_first() =~= pending_views(ms.drop_first()));
        lemma_pending_at_views(ms.drop_first(), seq);
    }
}

fn smoothed_of(prev: Option<u64>, rtt: u64) -> (r: u64)
    ensures
        r == smoothed_after(prev, rtt),
{
    match prev {
        Some(p) => if rtt >= p {
            p + (rtt - p) / 8
        } else {
            p - (p - rtt) / 8
        },
        None => rtt,
    }
}

fn rto_of(smoothed: u64) -> (r: u64)
    ensures
        r == rto_for(smoothed),
{
    let base = if smoothed > u64::MAX / 2 {
        u64::MAX
    } else {
        smoothed * 2
    };
    if base < MIN_RTO_NS {
        MIN_RTO_NS
    } else if base > MAX_RTO_NS {
        MAX_RTO_NS
    } else {
        base
    }
}

/// Acknowledge one sequence number on a session (see `ack_one`).
pub fn ack_sequence(session: &mut ClientSession, seq: u32, now_ns: u64)
    ensures
        rel_view(*final(session)) == ack_one(rel_view(*old(session)), seq, now_ns),
        same_but_reliability(*final(session), *old(session)),
        old(session).retransmit_timeout_ns <= MAX_RTO_NS ==> final(session).retransmit_timeout_ns
            <= MAX_RTO_NS,
{
    let ghost v0 = rel_view(*session);
    proof {
        lemma_pending_at_views(session.pending_messages@, seq);
    }
    if let Some(i) = crate::raknet::session::find_pending(&session.pending_messages, seq) {
        let ghost ms = session.pending_messages@;
        let msg = session.pending_messages.remove(i);
        session.in_flight_bytes = session.in_flight_bytes.saturating_sub(msg.size_bytes);
        let rtt = now_ns.saturating_sub(msg.last_sent_ns);
        let sm = smoothed_of(session.smoothed_rtt_ns, rtt);
        session.smoothed_rtt_ns = Some(sm);
        session.retransmit_timeout_ns = rto_of(sm);
        let size = if msg.size_bytes > 1 {
            msg.size_bytes
        } else {
            1
        };
        if session.congestion_window_bytes < session.slow_start_threshold_bytes {
            session.congestion_window_bytes = session.congestion_window_bytes.saturating_add(size);
        } else {
            let half = if size / 2 > 1 {
                size / 2
            } else {
                1
            };
            session.congestion_window_bytes = session.congestion_window_bytes.saturating_add(half);
        }
        proof {
            assert(pending_views(session.pending_messages@) =~= pending_views(ms).remove(i as int));
            assert(rel_view(*session) =~= ack_one(v0, seq, now_ns));
        }
    }
}

/// A negative acknowledgement of one sequence number on a session (see `nack_one`);
/// the frame to resend, if the number is pending.
pub fn nack_sequence(session: &mut ClientSession, seq: u32, now_ns: u64) -> (r: Option<Vec<u8>>)
    ensures
        ({
            let (v, f) = nack_one(rel_view(*old(session)), seq, now_ns);
            &&& rel_view(*final(session)) == v
            &&& match f {
                Some(fr) => r matches Some(x) && x@ == fr,
                None => r is None,
            }
        }),
        same_but_reliability(*final(session), *old(session)),
        final(session).retransmit_timeout_ns <= MAX_RTO_NS || final(session).retransmit_timeout_ns
            == old(session).retransmit_timeout_ns,
{
    let ghost v0 = rel_view(*session);
    proof {
        lemma_pending_at_views(session.pending_messages@, seq);
    }
    match crate::raknet::session::find_pending(&session.pending_messages, seq) {
        None => None,
        Some(i) => {
            let ghost ms = session.pending_messages@;
            let mut msg = session.pending_messages.remove(i);
            msg.attempts = msg.attempts.saturating_add(1);
            msg.last_sent_ns = now_ns;
            let frame = vstd::slice::slice_to_vec(msg.frame.as_slice());
            session.pending_messages.insert(i, msg);
            let half = session.congestion_window_bytes / 2;
            session.slow_start_threshold_bytes = if half > 1024 {
                half
            } else {
                1024
            };
            session.congestion_window_bytes = session.slow_start_threshold_bytes;
            session.retransmit_timeout_ns = if session.retransmit_timeout_ns > MAX_RTO_NS / 2 {
                MAX_RTO_NS
            } else {
                session.retransmit_timeout_ns * 2
            };
            proof {
                assert(pending_views(session.pending_messages@) =~= pending_views(ms).update(
                    i as int,
                    pending_view(msg),
                ));
                assert(rel_view(*session) =~= nack_one(v0, seq, now_ns).0);
            }
            Some(frame)
        },
    }
}


/// Reads the ranges of an ACK or NACK datagram.
pub fn read_ack_ranges(data: &[u8]) -> (r: Vec<(u32, u32)>)
    ensures
        r@ == ack_ranges(data@),
{
    let n = data.len();
    let p0: usize = if n >= 1 {
        1
    } else {
        0
    };
    let count: u16 = if p0 + 2 <= n {
        ((data[p0] as u16) << 8u16) | (data[p0 + 1] as u16)
    } else {
        0
    };
    let p1: usize = if p0 + 2 <= n {
        p0 + 2
    } else {
        p0
    };
    let mut pos: usize = if p1 < n {
        p1 + 1
    } else {
        p1
    };
    let mut out: Vec<(u32, u32)> = Vec::new();
    let mut k: u16 = 0;
    proof {
        assert(out@ + ranges_from(data@, pos as int, count as nat) =~= ack_ranges(data@));
    }
    while k < count
        invariant
            k <= count,
            pos <= n,
            n == data@.len(),
            out@ + ranges_from(data@, pos as int, (count - k) as nat) == ack_ranges(data@),
        decreases count - k,
    {
        let start: u32 = if n - pos >= 3 {
            (data[pos] as u32) | ((data[pos + 1] as u32) << 8u32) | ((data[pos + 2] as u32) << 16u32)
        } else {
            0
        };
        let q: usize = if n - pos >= 3 {
            pos + 3
        } else {
            pos
        };
        let end: u32 = if n - q >= 3 {
            (data[q] as u32) | ((data[q + 1] as u32) << 8u32) | ((data[q + 2] as u32) << 16u32)
        } else {
            0
        };
        let next: usize = if n - q >= 3 {
            q + 3
        } else {
            q
        };
        let ghost before = out@;
        out.push((start, end));
        proof {
            let rest = ranges_from(data@, next as int, (count - k - 1) as nat);
            assert(ranges_from(data@, pos as int, (count - k) as nat) == seq![(start, end)] + rest);
            assert(out@ + rest =~= before + (seq![(start, end)] + rest));
        }
        pos = next;
        k = k + 1;
    }
    proof {
        assert(out@ + ranges_from(data@, pos as int, 0) =~= out@);
    }
    out
}

/// Acknowledge the sequence numbers `start..=end` on a session (see `ack_range`).
fn ack_span(session: &mut ClientSession, start: u32, end: u32, now_ns: u64)
    requires
        old(session).retransmit_timeout_ns <= MAX_RTO_NS,
    ensures
        rel_view(*final(session)) == ack_range(rel_view(*old(session)), start as int, end as int, now_ns),
        same_but_reliability(*final(session), *old(session)),
        final(session).retransmit_timeout_ns <= MAX_RTO_NS,
{
    let ghost v0 = rel_view(*session);
    let mut q: u64 = start as u64;
    while q <= end as u64
        invariant
            start <= q,
            q <= end as u64 + 1 || q == start as u64,
            ack_range(rel_view(*session), q as int, end as int, now_ns) == ack_range(
                v0,
                start as int,
                end as int,
                now_ns,
            ),
            same_but_reliability(*session, *old(session)),
            session.retransmit_timeout_ns <= MAX_RTO_NS,
        decreases end as u64 + 1 - q,
    {
        ack_sequence(session, q as u32, now_ns);
        q = q + 1;
    }
}

/// Negative acknowledgements of `start..=end` on a session (see `nack_range`).
fn nack_span(session: &mut ClientSession, start: u32, end: u32, now_ns: u64, out: &mut Vec<Vec<u8>>)
    requires
        old(session).retransmit_timeout_ns <= MAX_RTO_NS,
    ensures
        ({
            let (v, fs) = nack_range(rel_view(*old(session)), start as int, end as int, now_ns);
            &&& rel_view(*final(session)) == v
            &&& final(out)@.map_values(|f: Vec<u8>| f@) == old(out)@.map_values(|f: Vec<u8>| f@) + fs
        }),
        same_but_reliability(*final(session), *old(session)),
        final(session).retransmit_timeout_ns <= MAX_RTO_NS,
{
    let ghost v0 = rel_view(*session);
    let ghost out0 = out@.map_values(|f: Vec<u8>| f@);
    let mut q: u64 = start as u64;
    proof {
        assert(out0 + nack_range(v0, start as int, end as int, now_ns).1 =~= out0 + nack_range(
            v0,
            start as int,
            end as int,
            now_ns,
        ).1);
    }
    while q <= end as u64
        invariant
            start <= q,
            q <= end as u64 + 1 || q == start as u64,
            nack_range(rel_view(*session), q as int, end as int, now_ns).0 == nack_range(
                v0,
                start as int,
                end as int,
                now_ns,
            ).0,
            out@.map_values(|f: Vec<u8>| f@) + nack_range(rel_view(*session), q as int, end as int, now_ns).1
                == out0 + nack_range(v0, start as int, end as int, now_ns).1,
            same_but_reliability(*session, *old(session)),
            session.retransmit_timeout_ns <= MAX_RTO_NS,
        decreases end as u64 + 1 - q,
    {
        let ghost vq = rel_view(*session);
        let ghost before = out@.map_values(|f: Vec<u8>| f@);
        let f = nack_sequence(session, q as u32, now_ns);
        match f {
            Some(fr) => {
                out.push(fr);
            },
            None => {},
        }
        proof {
            let (v1, f1) = nack_one(vq, q as u32, now_ns);
            let rest = nack_range(v1, q + 1, end as int, now_ns);
            assert(nack_range(vq, q as int, end as int, now_ns).1 == match f1 {
                Some(fr) => seq![fr] + rest.1,
                None => rest.1,
            });
            match f1 {
                Some(fr) => {
                    assert(out@.map_values(|f: Vec<u8>| f@) =~= before.push(fr));
                    assert(before.push(fr) + rest.1 =~= before + (seq![fr] + rest.1));
                },
                None => {
                    assert(out@.map_values(|f: Vec<u8>| f@) =~= before);
                },
            }
        }
        q = q + 1;
    }
    proof {
        assert(out@.map_values(|f: Vec<u8>| f@) + Seq::<Seq<u8>>::empty() =~= out@.map_values(
            |f: Vec<u8>| f@,
        ));
    }
}

impl RakNetServer {
    /// Handle an ACK datagram (0xC0) from `from`: every acknowledged range is applied to
    /// the peer's session in turn (see `ack_all`); nothing changes for a peer without one.
    pub fn handle_ack_packet(&mut self, data: &[u8], from: &PeerAddr, now_ns: u64)
        requires
            old(self).wf(),
        ensures
            final(self).wf(),
            acks_applied(old(self).connections@, final(self).connections@, from.text@, data@, now_ns),
            final(self).split_buffers@ == old(self).split_buffers@,
            final(self).config == old(self).config,
            final(self).runtime_protocol_version == old(self).runtime_protocol_version,
            final(self).runtime_version@ == old(self).runtime_version@,
    {
        let ranges = read_ack_ranges(data);
        if let Some(i) = self.find_session(from.text.as_str()) {
            let ghost conns = self.connections@;
            let mut s = self.take_session(i);
            let ghost v0 = rel_view(s);
            let ghost s0 = s;
            let mut k: usize = 0;
            proof {
                assert(ranges@.skip(0) =~= ranges@);
            }
            while k < ranges.len()
                invariant
                    k <= ranges@.len(),
                    ack_all(rel_view(s), ranges@.skip(k as int), now_ns) == ack_all(v0, ranges@, now_ns),
                    same_but_reliability(s, s0),
                    s.retransmit_timeout_ns <= MAX_RTO_NS,
                decreases ranges.len() - k,
            {
                let (start, end) = ranges[k];
                proof {
                    assert(ranges@.skip(k as int)[0] == (start, end));
                    assert(ranges@.skip(k as int).drop_first() =~= ranges@.skip(k + 1));
                }
                ack_span(&mut s, start, end, now_ns);
                k = k + 1;
            }
            proof {
                assert(ranges@.skip(k as int).len() == 0);
            }
            self.put_session(i, s, Ghost(conns));
        }
    }

    /// Handle a NACK datagram (0xA0) from `from`: every range is applied to the peer's
    /// session in turn (see `nack_all`); the frames to send again.
    pub fn handle_nack_packet(&mut self, data: &[u8], from: &PeerAddr, now_ns: u64) -> (r: Vec<Vec<u8>>)
        requires
            old(self).wf(),
        ensures
            final(self).wf(),
            nacks_applied(
                old(self).connections@,
                final(self).connections@,
                from.text@,
                data@,
                now_ns,
                r@.map_values(|f: Vec<u8>| f@),
            ),
            final(self).split_buffers@ == old(self).split_buffers@,
            final(self).config == old(self).config,
            final(self).runtime_protocol_version == old(self).runtime_protocol_version,
            final(self).runtime_version@ == old(self).runtime_version@,
    {
        let ranges = read_ack_ranges(data);
        let mut out: Vec<Vec<u8>> = Vec::new();
        if let Some(i) = self.find_session(from.text.as_str()) {
            let ghost conns = self.connections@;
            let mut s = self.take_session(i);
            let ghost v0 = rel_view(s);
            let ghost s0 = s;
            let mut k: usize = 0;
            proof {
                assert(ranges@.skip(0) =~= ranges@);
                assert(out@.map_values(|f: Vec<u8>| f@) + nack_all(v0, ranges@, now_ns).1 =~= nack_all(v0, ranges@, now_ns).1);
            }
            while k < ranges.len()
                invariant
                    k <= ranges@.len(),
                    nack_all(rel_view(s), ranges@.skip(k as int), now_ns).0 == nack_all(v0, ranges@, now_ns).0,
                    out@.map_values(|f: Vec<u8>| f@) + nack_all(rel_view(s), ranges@.skip(k as int), now_ns).1
                        == nack_all(v0, ranges@, now_ns).1,
                    same_but_reliability(s, s0),
                    s.retransmit_timeout_ns <= MAX_RTO_NS,
                decreases ranges.len() - k,
            {
                let (start, end) = ranges[k];
                let ghost vk = rel_view(s);
                let ghost before = out@.map_values(|f: Vec<u8>| f@);
                proof {
                    assert(ranges@.skip(k as int)[0] == (start, end));
                    assert(ranges@.skip(k as int).drop_first() =~= ranges@.skip(k + 1));
                }
                nack_span(&mut s, start, end, now_ns, &mut out);
                proof {
                    let (v1, f1) = nack_range(vk, start as int, end as int, now_ns);
                    let rest = nack_all(v1, ranges@.skip(k + 1), now_ns);
                    assert(before + f1 + rest.1 =~= before + (f1 + rest.1));
                }
                k = k + 1;
            }
            proof {
                assert(ranges@.skip(k as int).len() == 0);
                assert(out@.map_values(|f: Vec<u8>| f@) + Seq::<Seq<u8>>::empty() =~= out@.map_values(|f: Vec<u8>| f@));
            }
            self.put_session(i, s, Ghost(conns));
        }
        out
    }
}


/// A pending message is overdue when it has waited longer than the timeout and has
/// been sent fewer than 5 times.
pub open spec fn overdue(m: (u32, Seq<u8>, usize, u64, u32, u8), now: u64, timeout: u64) -> bool {
    sat_sub(now, m.3) > timeout && m.4 < 5
}

/// Retransmitting the overdue pending messages from position `j` on (judged against the
/// timeout the pass started with): each is marked sent now with one more attempt and
/// shrinks the window as a loss does; its frame is sent again.
pub open spec fn resend_from(v: RelView, timeout: u64, now: u64, j: int) -> (RelView, Seq<Seq<u8>>)
    decreases v.pending.len() - j,
{
    if j < 0 || j >= v.pending.len() {
        (v, Seq::empty())
    } else {
        let m = v.pending[j];
        if overdue(m, now, timeout) {
            let m2 = (m.0, m.1, m.2, now, (m.4 + 1) as u32, m.5);
            let v1 = after_loss(RelView { pending: v.pending.update(j, m2), ..v });
            let (v2, fs) = resend_from(v1, timeout, now, j + 1);
            (v2, seq![m.1] + fs)
        } else {
            resend_from(v, timeout, now, j + 1)
        }
    }
}

/// The frames the resend pass sends, with the address of each session, for the sessions
/// from `i` on.
pub open spec fn resend_output(conns: Seq<ClientSession>, now: u64, i: int) -> Seq<(Seq<char>, Seq<u8>)>
    decreases conns.len() - i,
{
    if i < 0 || i >= conns.len() {
        Seq::empty()
    } else {
        let s = conns[i];
        let fs = resend_from(rel_view(s), s.retransmit_timeout_ns, now, 0).1;
        fs.map_values(|f: Seq<u8>| (s.address@, f)) + resend_output(conns, now, i + 1)
    }
}

/// The resend pass over one session.
fn resend_session(session: &mut ClientSession, now_ns: u64, out: &mut Vec<(String, Vec<u8>)>)
    requires
        old(session).retransmit_timeout_ns <= MAX_RTO_NS,
    ensures
        ({
            let (v, fs) = resend_from(
                rel_view(*old(session)),
                old(session).retransmit_timeout_ns,
                now_ns,
                0,
            );
            &&& rel_view(*final(session)) == v
            &&& final(out)@.map_values(|p: (String, Vec<u8>)| (p.0@, p.1@)) == old(out)@.map_values(
                |p: (String, Vec<u8>)| (p.0@, p.1@),
            ) + fs.map_values(|f: Seq<u8>| (old(session).address@, f))
        }),
        same_but_reliability(*final(session), *old(session)),
        final(session).retransmit_timeout_ns <= MAX_RTO_NS,
{
    let timeout = session.retransmit_timeout_ns;
    let ghost v0 = rel_view(*session);
    let ghost out0 = out@.map_values(|p: (String, Vec<u8>)| (p.0@, p.1@));
    let ghost addr = session.address@;
    let mut j: usize = 0;
    proof {
        assert(out0 + resend_from(v0, timeout, now_ns, 0).1.map_values(|f: Seq<u8>| (addr, f))
            =~= out0 + resend_from(v0, timeout, now_ns, 0).1.map_values(|f: Seq<u8>| (addr, f)));
    }
    while j < session.pending_messages.len()
        invariant
            j <= session.pending_messages@.len(),
            timeout <= MAX_RTO_NS,
            addr == old(session).address@,
            resend_from(rel_view(*session), timeout, now_ns, j as int).0 == resend_from(v0, timeout, now_ns, 0).0,
            out@.map_values(|p: (String, Vec<u8>)| (p.0@, p.1@)) + resend_from(
                rel_view(*session),
                timeout,
                now_ns,
                j as int,
            ).1.map_values(|f: Seq<u8>| (addr, f)) == out0 + resend_from(v0, timeout, now_ns, 0).1.map_values(
                |f: Seq<u8>| (addr, f),
            ),
            same_but_reliability(*session, *old(session)),
            session.retransmit_timeout_ns <= MAX_RTO_NS,
        decreases session.pending_messages@.len() - j,
    {
        let ghost vj = rel_view(*session);
        let ghost before = out@.map_values(|p: (String, Vec<u8>)| (p.0@, p.1@));
        let age = now_ns.saturating_sub(session.pending_messages[j].last_sent_ns);
        if age > timeout && session.pending_messages[j].attempts < 5 {
            let ghost ms = session.pending_messages@;
            let mut msg = session.pending_messages.remove(j);
            msg.attempts = msg.attempts + 1;
            msg.last_sent_ns = now_ns;
            let frame = vstd::slice::slice_to_vec(msg.frame.as_slice());
            session.pending_messages.insert(j, msg);
            let half = session.congestion_window_bytes / 2;
            session.slow_start_threshold_bytes = if half > 1024 {
                half
            } else {
                1024
            };
            session.congestion_window_bytes = session.slow_start_threshold_bytes;
            session.retransmit_timeout_ns = if session.retransmit_timeout_ns > MAX_RTO_NS / 2 {
                MAX_RTO_NS
            } else {
                session.retransmit_timeout_ns * 2
            };
            let addr_text = session.address.clone();
            out.push((addr_text, frame));
            proof {
                assert(pending_views(session.pending_messages@) =~= pending_views(ms).update(
                    j as int,
                    pending_view(msg),
                ));
                let m = vj.pending[j as int];
                let m2 = (m.0, m.1, m.2, now_ns, (m.4 + 1) as u32, m.5);
                let v1 = after_loss(RelView { pending: vj.pending.update(j as int, m2), ..vj });
                assert(rel_view(*session) =~= v1);
                let rest = resend_from(v1, timeout, now_ns, j + 1);
                assert(resend_from(vj, timeout, now_ns, j as int) == (rest.0, seq![m.1] + rest.1));
                assert(out@.map_values(|p: (String, Vec<u8>)| (p.0@, p.1@)) =~= before.push((addr, m.1)));
                assert((seq![m.1] + rest.1).map_values(|f: Seq<u8>| (addr, f)) =~= seq![(addr, m.1)]
                    + rest.1.map_values(|f: Seq<u8>| (addr, f)));
                assert(before.push((addr, m.1)) + rest.1.map_values(|f: Seq<u8>| (addr, f)) =~= before
                    + (seq![(addr, m.1)] + rest.1.map_values(|f: Seq<u8>| (addr, f))));
            }
        }
        j = j + 1;
    }
    proof {
        let fin = resend_from(rel_view(*session), timeout, now_ns, j as int);
        assert(fin.1.map_values(|f: Seq<u8>| (addr, f)) =~= Seq::<(Seq<char>, Seq<u8>)>::empty());
        assert(out@.map_values(|p: (String, Vec<u8>)| (p.0@, p.1@)) + fin.1.map_values(
            |f: Seq<u8>| (addr, f),
        ) =~= out@.map_values(|p: (String, Vec<u8>)| (p.0@, p.1@)));
    }
}

impl RakNetServer {
    /// One pass of the resend worker at `now_ns`: every session retransmits its overdue
    /// reliable frames (see `resend_from`); the frames come with the address to send them to.
    pub fn resend_due(&mut self, now_ns: u64) -> (r: Vec<(String, Vec<u8>)>)
        requires
            old(self).wf(),
        ensures
            final(self).wf(),
            r@.map_values(|p: (String, Vec<u8>)| (p.0@, p.1@)) == resend_output(
                old(self).connections@,
                now_ns,
                0,
            ),
            final(self).connections@.len() == old(self).connections@.len(),
            forall|i: int|
                0 <= i < old(self).connections@.len() ==> rel_view(#[trigger] final(self).connections@[i])
                    == resend_from(
                    rel_view(old(self).connections@[i]),
                    old(self).connections@[i].retransmit_timeout_ns,
                    now_ns,
                    0,
                ).0 && same_but_reliability(final(self).connections@[i], old(self).connections@[i]),
            final(self).split_buffers@ == old(self).split_buffers@,
            final(self).config == old(self).config,
    {
        let mut out: Vec<(String, Vec<u8>)> = Vec::new();
        let ghost c0 = self.connections@;
        let mut i: usize = 0;
        proof {
            assert(out@.map_values(|p: (String, Vec<u8>)| (p.0@, p.1@)) + resend_output(c0, now_ns, 0)
                =~= resend_output(c0, now_ns, 0));
        }
        while i < self.connections.len()
            invariant
                i <= self.connections@.len(),
                self.wf(),
                self.connections@.len() == c0.len(),
                out@.map_values(|p: (String, Vec<u8>)| (p.0@, p.1@)) + resend_output(c0, now_ns, i as int)
                    == resend_output(c0, now_ns, 0),
                forall|k: int| i <= k < c0.len() ==> #[trigger] self.connections@[k] == c0[k],
                forall|k: int|
                    0 <= k < i ==> rel_view(#[trigger] self.connections@[k]) == resend_from(
                        rel_view(c0[k]),
                        c0[k].retransmit_timeout_ns,
                        now_ns,
                        0,
                    ).0 && same_but_reliability(self.connections@[k], c0[k]),
                self.split_buffers@ == old(self).split_buffers@,
                self.config == old(self).config,
                self.runtime_protocol_version == old(self).runtime_protocol_version,
                self.runtime_version@ == old(self).runtime_version@,
                self.version_fallback == old(self).version_fallback,
            decreases c0.len() - i,
        {
            let ghost conns = self.connections@;
            let ghost before = out@.map_values(|p: (String, Vec<u8>)| (p.0@, p.1@));
            let mut s = self.take_session(i);
            assert(s == c0[i as int]);
            resend_session(&mut s, now_ns, &mut out);
            self.put_session(i, s, Ghost(conns));
            proof {
                let fs = resend_from(rel_view(c0[i as int]), c0[i as int].retransmit_timeout_ns, now_ns, 0).1;
                let mapped = fs.map_values(|f: Seq<u8>| (c0[i as int].address@, f));
                assert(resend_output(c0, now_ns, i as int) == mapped + resend_output(c0, now_ns, i + 1));
                assert(before + mapped + resend_output(c0, now_ns, i + 1) =~= before + (mapped
                    + resend_output(c0, now_ns, i + 1)));
            }
            i = i + 1;
        }
        proof {
            assert(out@.map_values(|p: (String, Vec<u8>)| (p.0@, p.1@)) + resend_output(c0, now_ns, i as int)
                =~= out@.map_values(|p: (String, Vec<u8>)| (p.0@, p.1@)));
        }
        out
    }
}

} // verus!
