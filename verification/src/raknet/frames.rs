//! Outgoing RakNet frames: single datagrams, fragmentation and reliable-send
//! bookkeeping.
use crate::raknet::protocol::{
    be32_at, has_ordering_index, has_reliable_index, spec_frame_set_frames, spec_frames_from,
    spec_parse_frame, FrameLengthMode, FrameSpec,
};
use crate::raknet::session::{
    allocate_sequence, pending_inserted, pending_views, register_pending, sat_add, wrap_add,
    ClientSession,
};
use crate::util::buffer::{
    be16, le24, lemma_u16_be_roundtrip, u16_be_bytes, u24_le_bytes, u32_be_bytes,
};
use vstd::prelude::*;

verus! {

/// Append a 24-bit little-endian value (a RakNet triad).
pub fn write_u24_le(buf: &mut Vec<u8>, value: u32)
    ensures
        final(buf)@ == old(buf)@ + u24_le_bytes(value),
{
    buf.push((value & 0xFF) as u8);
    buf.push(((value >> 8u32) & 0xFF) as u8);
    buf.push(((value >> 16u32) & 0xFF) as u8);
    proof {
        assert(final(buf)@ =~= old(buf)@ + u24_le_bytes(value));
    }
}

/// Append a 32-bit big-endian value.
fn write_u32_be(buf: &mut Vec<u8>, value: u32)
    ensures
        final(buf)@ == old(buf)@ + u32_be_bytes(value),
{
    buf.push(((value >> 24u32) & 0xFF) as u8);
    buf.push(((value >> 16u32) & 0xFF) as u8);
    buf.push(((value >> 8u32) & 0xFF) as u8);
    buf.push((value & 0xFF) as u8);
    proof {
        assert(final(buf)@ =~= old(buf)@ + u32_be_bytes(value));
    }
}

/// Append a 16-bit big-endian value.
fn write_u16_be(buf: &mut Vec<u8>, value: u16)
    ensures
        final(buf)@ == old(buf)@ + u16_be_bytes(value),
{
    buf.push(((value >> 8u16) & 0xFF) as u8);
    buf.push((value & 0xFF) as u8);
    proof {
        assert(final(buf)@ =~= old(buf)@ + u16_be_bytes(value));
    }
}

/// A datagram holding one frame: id 0x84, the packet sequence number, the flags, the
/// length in bits (big-endian) of the frame's data, the reliable index and the ordering
/// index with channel 0 when the reliability has them, then the split header (empty for
/// an unsplit frame) and the data.  The length counts the data after the split header.
#[verifier::opaque]
pub open spec fn frame_datagram(
    seq: u32,
    flags: u8,
    reliability: u8,
    rel_seq: u32,
    order_idx: u32,
    split_head: Seq<u8>,
    body: Seq<u8>,
) -> Seq<u8> {
    seq![0x84u8] + u24_le_bytes(seq) + seq![flags] + u16_be_bytes((body.len() * 8) as u16) + (
    if has_reliable_index(reliability) {
        u24_le_bytes(rel_seq)
    } else {
        Seq::empty()
    }) + (if has_ordering_index(reliability) {
        u24_le_bytes(order_idx) + seq![0u8]
    } else {
        Seq::empty()
    }) + split_head + body
}

/// The header bytes a frame of this reliability carries besides the 4-byte datagram
/// header: flags and length, then the reliable and ordering fields.
pub open spec fn frame_overhead(reliability: u8) -> int {
    3 + (if has_reliable_index(reliability) {
        3int
    } else {
        0int
    }) + (if has_ordering_index(reliability) {
        4int
    } else {
        0int
    })
}

/// The largest payload sent in a single datagram for this MTU (0 when none fits).
pub open spec fn max_single_payload(mtu: u16, reliability: u8) -> int {
    if mtu > 4 + frame_overhead(reliability) {
        mtu - 4 - frame_overhead(reliability)
    } else {
        0
    }
}

/// The largest chunk of a fragment for this MTU (at least 1): the split header takes
/// 10 more bytes.
pub open spec fn max_fragment_payload(mtu: u16, reliability: u8) -> int {
    if mtu > 4 + frame_overhead(reliability) + 10 {
        mtu - 14 - frame_overhead(reliability)
    } else {
        1
    }
}

/// Whether a payload of `len` bytes goes out unsplit.
pub open spec fn sent_whole(len: int, mtu: u16, reliability: u8) -> bool {
    len <= max_single_payload(mtu, reliability) && max_single_payload(mtu, reliability) > 0
}

/// The number of fragments a payload of `len` bytes is cut into.
pub open spec fn fragment_count(len: int, mtu: u16, reliability: u8) -> int {
    let m = max_fragment_payload(mtu, reliability);
    (len + m - 1) / m
}

/// The number of datagrams a payload of `len` bytes goes out in.
pub open spec fn datagram_count(len: int, mtu: u16, reliability: u8) -> int {
    if sent_whole(len, mtu, reliability) {
        1
    } else {
        fragment_count(len, mtu, reliability)
    }
}

/// The split header of fragment `k`: split count, split id and split index (big-endian).
pub open spec fn fragment_head(count: u32, split_id: u16, k: int) -> Seq<u8> {
    u32_be_bytes(count) + u16_be_bytes(split_id) + u32_be_bytes(k as u32)
}

/// The `k`-th chunk of `m` bytes of the payload (the last one may be shorter).
pub open spec fn fragment_chunk(payload: Seq<u8>, m: int, k: int) -> Seq<u8> {
    let start = k * m;
    let end = if (k + 1) * m <= payload.len() {
        (k + 1) * m
    } else {
        payload.len() as int
    };
    payload.subrange(start, end)
}

/// Fragment `k` of a payload too large for one datagram, given the session counters
/// before the send.
#[verifier::opaque]
pub open spec fn split_datagram(
    payload: Seq<u8>,
    reliability: u8,
    mtu: u16,
    split_id: u16,
    packet_seq: u32,
    reliable_seq: u32,
    order_index: u32,
    k: int,
) -> Seq<u8> {
    let rs = if has_reliable_index(reliability) {
        wrap_add(reliable_seq, k as nat)
    } else {
        reliable_seq
    };
    let oi = if has_ordering_index(reliability) {
        wrap_add(order_index, k as nat)
    } else {
        order_index
    };
    let m = max_fragment_payload(mtu, reliability);
    frame_datagram(
        wrap_add(packet_seq, k as nat),
        (reliability << 5u8) | 0x10u8,
        reliability,
        rs,
        oi,
        fragment_head(fragment_count(payload.len() as int, mtu, reliability) as u32, split_id, k),
        fragment_chunk(payload, m, k),
    )
}

/// The `k`-th datagram sent for a payload, given the session counters before the send.
pub open spec fn outgoing_datagram(
    payload: Seq<u8>,
    reliability: u8,
    mtu: u16,
    split_id: u16,
    packet_seq: u32,
    reliable_seq: u32,
    order_index: u32,
    k: int,
) -> Seq<u8> {
    if sent_whole(payload.len() as int, mtu, reliability) {
        frame_datagram(
            packet_seq,
            reliability << 5u8,
            reliability,
            reliable_seq,
            order_index,
            Seq::empty(),
            payload,
        )
    } else {
        split_datagram(payload, reliability, mtu, split_id, packet_seq, reliable_seq, order_index, k)
    }
}

/// The pending messages after registering the first `n` datagrams of a reliable send.
pub open spec fn registered(
    ms: Seq<(u32, Seq<u8>, usize, u64, u32, u8)>,
    dgs: Seq<Seq<u8>>,
    packet_seq: u32,
    reliability: u8,
    now_ns: u64,
    n: nat,
) -> Seq<(u32, Seq<u8>, usize, u64, u32, u8)>
    decreases n,
{
    if n == 0 {
        ms
    } else {
        let k = (n - 1) as nat;
        pending_inserted(
            registered(ms, dgs, packet_seq, reliability, now_ns, k),
            (wrap_add(packet_seq, k), dgs[k as int], dgs[k as int].len() as usize, now_ns, 1u32, reliability),
        )
    }
}

/// The bytes in flight after adding the first `n` datagrams.
pub open spec fn in_flight_after(x: usize, dgs: Seq<Seq<u8>>, n: nat) -> usize
    decreases n,
{
    if n == 0 {
        x
    } else {
        sat_add(in_flight_after(x, dgs, (n - 1) as nat), dgs[n - 1].len() as int)
    }
}

/// Builds one frame datagram.
fn build_frame(
    seq: u32,
    flags: u8,
    reliability: u8,
    rel_seq: u32,
    order_idx: u32,
    split_head: &[u8],
    body: &[u8],
) -> (r: Vec<u8>)
    requires
        body@.len() <= 8191,
    ensures
        r@ == frame_datagram(seq, flags, reliability, rel_seq, order_idx, split_head@, body@),
{
    let mut frame: Vec<u8> = Vec::new();
    frame.push(0x84);
    write_u24_le(&mut frame, seq);
    frame.push(flags);
    let len_bits: u16 = (body.len() as u16) * 8;
    write_u16_be(&mut frame, len_bits);
    if reliability == 2 || reliability == 3 || reliability == 4 || reliability == 6 || reliability
        == 7 {
        write_u24_le(&mut frame, rel_seq);
    }
    if reliability == 1 || reliability == 3 || reliability == 4 || reliability == 7 {
        write_u24_le(&mut frame, order_idx);
        frame.push(0);
    }
    frame.extend_from_slice(split_head);
    frame.extend_from_slice(body);
    proof {
        reveal(frame_datagram);
        assert(frame@ =~= frame_datagram(seq, flags, reliability, rel_seq, order_idx, split_head@, body@));
    }
    frame
}

/// The split header of fragment `idx`.
fn fragment_head_bytes(split_count: u32, split_id: u16, idx: u32) -> (r: Vec<u8>)
    ensures
        r@ == fragment_head(split_count, split_id, idx as int),
{
    let mut head: Vec<u8> = Vec::new();
    write_u32_be(&mut head, split_count);
    write_u16_be(&mut head, split_id);
    write_u32_be(&mut head, idx);
    proof {
        assert(head@ =~= fragment_head(split_count, split_id, idx as int));
    }
    head
}

/// The chunk of fragment `idx`, which starts at `offset`.
fn fragment_chunk_slice(payload: &[u8], idx: u32, offset: usize, max_frag: usize) -> (r: &[u8])
    requires
        max_frag >= 1,
        offset as int == idx * max_frag,
        offset < payload@.len(),
    ensures
        r@ == fragment_chunk(payload@, max_frag as int, idx as int),
        r@.len() <= max_frag,
{
    let total = payload.len();
    let take = if max_frag <= total - offset {
        max_frag
    } else {
        total - offset
    };
    proof {
        assert((idx + 1) * max_frag == offset + max_frag) by (nonlinear_arith)
            requires
                offset as int == idx * max_frag,
        ;
    }
    vstd::slice::slice_subrange(payload, offset, offset + take)
}

/// Builds fragment `idx` of a split send and records it on the session.
#[verifier::spinoff_prover]
fn push_fragment(
    session: &mut ClientSession,
    payload: &[u8],
    reliability: u8,
    mtu: u16,
    split_id: u16,
    split_count: u32,
    idx: u32,
    offset: usize,
    max_frag: usize,
    now_ns: u64,
    ps0: Ghost<u32>,
    rs0: Ghost<u32>,
    oi0: Ghost<u32>,
) -> (r: Vec<u8>)
    requires
        mtu <= 8198,
        max_frag as int == max_fragment_payload(mtu, reliability),
        split_count as int == fragment_count(payload@.len() as int, mtu, reliability),
        idx < split_count,
        offset as int == idx * max_frag,
        offset < payload@.len(),
        old(session).packet_seq == wrap_add(ps0@, idx as nat),
        old(session).reliable_seq == if has_reliable_index(reliability) {
            wrap_add(rs0@, idx as nat)
        } else {
            rs0@
        },
        old(session).order_index == if has_ordering_index(reliability) {
            wrap_add(oi0@, idx as nat)
        } else {
            oi0@
        },
    ensures
        r@ == split_datagram(payload@, reliability, mtu, split_id, ps0@, rs0@, oi0@, idx as int),
        final(session).packet_seq == wrap_add(ps0@, (idx + 1) as nat),
        final(session).reliable_seq == if has_reliable_index(reliability) {
            wrap_add(rs0@, (idx + 1) as nat)
        } else {
            rs0@
        },
        final(session).order_index == if has_ordering_index(reliability) {
            wrap_add(oi0@, (idx + 1) as nat)
        } else {
            oi0@
        },
        pending_views(final(session).pending_messages@) == if has_reliable_index(reliability) {
            pending_inserted(
                pending_views(old(session).pending_messages@),
                (wrap_add(ps0@, idx as nat), r@, r@.len() as usize, now_ns, 1u32, reliability),
            )
        } else {
            pending_views(old(session).pending_messages@)
        },
        final(session).in_flight_bytes == if has_reliable_index(reliability) {
            sat_add(old(session).in_flight_bytes, r@.len() as int)
        } else {
            old(session).in_flight_bytes
        },
        final(session).ordered_channels@ == old(session).ordered_channels@,
        final(session).retransmit_timeout_ns == old(session).retransmit_timeout_ns,
        final(session).connected == old(session).connected,
        final(session).compression_enabled == old(session).compression_enabled,
        final(session).address@ == old(session).address@,
{
    let has_reliable = reliability == 2 || reliability == 3 || reliability == 4 || reliability == 6
        || reliability == 7;
    let has_ordering = reliability == 1 || reliability == 3 || reliability == 4 || reliability
        == 7;
    let head = fragment_head_bytes(split_count, split_id, idx);
    let chunk = fragment_chunk_slice(payload, idx, offset, max_frag);
    assert(max_frag <= 8181 || max_frag == 1);
    assert(chunk@.len() <= 8191);
    let (seq, rel_seq, order_idx) = allocate_sequence(session, has_reliable, has_ordering);
    let frame = build_frame(
        seq,
        (reliability << 5u8) | 0x10u8,
        reliability,
        rel_seq,
        order_idx,
        head.as_slice(),
        chunk,
    );
    if has_reliable {
        register_pending(session, seq, frame.as_slice(), reliability, now_ns);
    }
    proof {
        lemma_split_datagram_def(payload@, reliability, mtu, split_id, ps0@, rs0@, oi0@, idx as int, max_frag as int, split_count);
        lemma_wrap_add_succ(ps0@, idx as nat);
        lemma_wrap_add_succ(rs0@, idx as nat);
        lemma_wrap_add_succ(oi0@, idx as nat);
    }
    frame
}

/// Adding one more wraps like a single increment.
pub proof fn lemma_wrap_add_succ(x: u32, k: nat)
    ensures
        wrap_add(x, k + 1) == crate::raknet::session::wrap_inc(wrap_add(x, k)),
{
    let y = (x + k) % 0x1_0000_0000;
    assert((x + k + 1) % 0x1_0000_0000 == if y == 0xFFFF_FFFF { 0 } else { y + 1 }) by (nonlinear_arith)
        requires
            y == (x + k) % 0x1_0000_0000,
            x + k >= 0,
    ;
}

proof fn lemma_split_datagram_def(
    payload: Seq<u8>,
    reliability: u8,
    mtu: u16,
    split_id: u16,
    ps: u32,
    rs: u32,
    oi: u32,
    k: int,
    m: int,
    count: u32,
)
    requires
        m == max_fragment_payload(mtu, reliability),
        count as int == fragment_count(payload.len() as int, mtu, reliability),
    ensures
        split_datagram(payload, reliability, mtu, split_id, ps, rs, oi, k) == frame_datagram(
            wrap_add(ps, k as nat),
            (reliability << 5u8) | 0x10u8,
            reliability,
            if has_reliable_index(reliability) {
                wrap_add(rs, k as nat)
            } else {
                rs
            },
            if has_ordering_index(reliability) {
                wrap_add(oi, k as nat)
            } else {
                oi
            },
            fragment_head(count, split_id, k),
            fragment_chunk(payload, m, k),
        ),
{
    reveal(split_datagram);
}

/// The datagrams that carry `payload` to a session, with the session's counters and
/// pending messages updated as each is sent.  A payload that fits goes out in one
/// datagram; a larger one is cut into fragments of `max_fragment_payload` bytes that
/// share `split_id`.  Reliable datagrams are kept pending until acknowledged.
#[verifier::rlimit(100)]
#[verifier::spinoff_prover]
pub fn session_datagrams(
    session: &mut ClientSession,
    payload: &[u8],
    reliability: u8,
    mtu: u16,
    split_id: u16,
    now_ns: u64,
) -> (r: Vec<Vec<u8>>)
    requires
        mtu <= 8198,
        payload@.len() <= 0xFFFF_FFFF,
    ensures
        ({
            let n = datagram_count(payload@.len() as int, mtu, reliability);
            let dgs = r@.map_values(|d: Vec<u8>| d@);
            let rel = has_reliable_index(reliability);
            let ord = has_ordering_index(reliability);
            &&& r@.len() == n
            &&& forall|k: int|
                0 <= k < n ==> #[trigger] dgs[k] == outgoing_datagram(
                    payload@,
                    reliability,
                    mtu,
                    split_id,
                    old(session).packet_seq,
                    old(session).reliable_seq,
                    old(session).order_index,
                    k,
                )
            &&& final(session).packet_seq == wrap_add(old(session).packet_seq, n as nat)
            &&& final(session).reliable_seq == if rel {
                wrap_add(old(session).reliable_seq, n as nat)
            } else {
                old(session).reliable_seq
            }
            &&& final(session).order_index == if ord {
                wrap_add(old(session).order_index, n as nat)
            } else {
                old(session).order_index
            }
            &&& pending_views(final(session).pending_messages@) == if rel {
                registered(
                    pending_views(old(session).pending_messages@),
                    dgs,
                    old(session).packet_seq,
                    reliability,
                    now_ns,
                    n as nat,
                )
            } else {
                pending_views(old(session).pending_messages@)
            }
            &&& final(session).in_flight_bytes == if rel {
                in_flight_after(old(session).in_flight_bytes, dgs, n as nat)
            } else {
                old(session).in_flight_bytes
            }
        }),
        final(session).ordered_channels@ == old(session).ordered_channels@,
        final(session).retransmit_timeout_ns == old(session).retransmit_timeout_ns,
        final(session).connected == old(session).connected,
        final(session).compression_enabled == old(session).compression_enabled,
        final(session).address@ == old(session).address@,
{
    let has_reliable = reliability == 2 || reliability == 3 || reliability == 4 || reliability == 6
        || reliability == 7;
    let has_ordering = reliability == 1 || reliability == 3 || reliability == 4 || reliability
        == 7;
    let overhead: usize = 3 + if has_reliable {
        3
    } else {
        0
    } + if has_ordering {
        4
    } else {
        0
    };
    let mtu_u = mtu as usize;
    let max_single: usize = if mtu_u > 4 + overhead {
        mtu_u - 4 - overhead
    } else {
        0
    };
    let ghost old_pending = pending_views(session.pending_messages@);
    let ghost ps0 = session.packet_seq;
    let ghost rs0 = session.reliable_seq;
    let ghost oi0 = session.order_index;
    let ghost fl0 = session.in_flight_bytes;
    let mut out: Vec<Vec<u8>> = Vec::new();
    if payload.len() <= max_single && max_single > 0 {
        let (seq, rel_seq, order_idx) = allocate_sequence(session, has_reliable, has_ordering);
        let no_split_head: Vec<u8> = Vec::new();
        let frame = build_frame(
            seq,
            reliability << 5u8,
            reliability,
            rel_seq,
            order_idx,
            no_split_head.as_slice(),
            payload,
        );
        if has_reliable {
            register_pending(session, seq, frame.as_slice(), reliability, now_ns);
        }
        out.push(frame);
        proof {
            let dgs = out@.map_values(|d: Vec<u8>| d@);
            assert(dgs[0] == frame@);
            assert(wrap_add(ps0, 1) == crate::raknet::session::wrap_inc(ps0));
            assert(wrap_add(rs0, 1) == crate::raknet::session::wrap_inc(rs0));
            assert(wrap_add(oi0, 1) == crate::raknet::session::wrap_inc(oi0));
            assert(wrap_add(ps0, 0) == ps0);
            assert(wrap_add(rs0, 0) == rs0);
            assert(wrap_add(oi0, 0) == oi0);
            assert(registered(old_pending, dgs, ps0, reliability, now_ns, 0) == old_pending);
            assert(in_flight_after(fl0, dgs, 0) == fl0);
        }
        return out;
    }
    let max_frag: usize = if mtu_u > 14 + overhead {
        mtu_u - 14 - overhead
    } else {
        1
    };
    let total = payload.len();
    let count_wide: u64 = (total as u64 + max_frag as u64 - 1) / max_frag as u64;
    assert(count_wide <= total) by (nonlinear_arith)
        requires
            count_wide as int == (total + max_frag - 1) / (max_frag as int),
            max_frag >= 1,
    ;
    let split_count = count_wide as u32;
    let mut offset: usize = 0;
    let mut idx: u32 = 0;
    while idx < split_count
        invariant
            0 <= idx <= split_count,
            split_count as int == fragment_count(total as int, mtu, reliability),
            max_frag as int == max_fragment_payload(mtu, reliability),
            max_frag >= 1,
            total == payload@.len(),
            !sent_whole(total as int, mtu, reliability),
            idx < split_count ==> offset as int == idx * max_frag,
            mtu <= 8198,
            has_reliable == has_reliable_index(reliability),
            has_ordering == has_ordering_index(reliability),
            out@.len() == idx,
            forall|k: int|
                0 <= k < idx ==> #[trigger] out@[k]@ == outgoing_datagram(
                    payload@,
                    reliability,
                    mtu,
                    split_id,
                    ps0,
                    rs0,
                    oi0,
                    k,
                ),
            session.packet_seq == wrap_add(ps0, idx as nat),
            session.reliable_seq == if has_reliable {
                wrap_add(rs0, idx as nat)
            } else {
                rs0
            },
            session.order_index == if has_ordering {
                wrap_add(oi0, idx as nat)
            } else {
                oi0
            },
            pending_views(session.pending_messages@) == if has_reliable {
                registered(old_pending, out@.map_values(|d: Vec<u8>| d@), ps0, reliability, now_ns, idx as nat)
            } else {
                old_pending
            },
            session.in_flight_bytes == if has_reliable {
                in_flight_after(fl0, out@.map_values(|d: Vec<u8>| d@), idx as nat)
            } else {
                fl0
            },
            session.ordered_channels@ == old(session).ordered_channels@,
            session.retransmit_timeout_ns == old(session).retransmit_timeout_ns,
            session.connected == old(session).connected,
            session.compression_enabled == old(session).compression_enabled,
            session.address@ == old(session).address@,
        decreases split_count - idx,
    {
        proof {
            lemma_fragment_bounds(total as int, max_frag as int, split_count as int, idx as int);
        }
        let take = if max_frag <= total - offset {
            max_frag
        } else {
            total - offset
        };
        let ghost before_out = out@.map_values(|d: Vec<u8>| d@);
        let frame = push_fragment(
            session,
            payload,
            reliability,
            mtu,
            split_id,
            split_count,
            idx,
            offset,
            max_frag,
            now_ns,
            Ghost(ps0),
            Ghost(rs0),
            Ghost(oi0),
        );
        out.push(frame);
        proof {
            let dgs = out@.map_values(|d: Vec<u8>| d@);
            assert(dgs =~= before_out.push(frame@));
            lemma_registered_prefix(old_pending, before_out, dgs, ps0, reliability, now_ns, idx as nat);
            lemma_in_flight_prefix(fl0, before_out, dgs, idx as nat);
        }
        offset = offset + take;
        idx = idx + 1;
    }
    out
}

proof fn lemma_fragment_bounds(total: int, m: int, count: int, idx: int)
    by (nonlinear_arith)
    requires
        m >= 1,
        total >= 0,
        count == (total + m - 1) / m,
        0 <= idx < count,
    ensures
        idx * m < total,
        (idx + 1) * m == idx * m + m,
        idx + 1 < count ==> (idx + 1) * m < total,
{
}

proof fn lemma_registered_prefix(
    ms: Seq<(u32, Seq<u8>, usize, u64, u32, u8)>,
    a: Seq<Seq<u8>>,
    b: Seq<Seq<u8>>,
    packet_seq: u32,
    reliability: u8,
    now_ns: u64,
    n: nat,
)
    requires
        n <= a.len(),
        n <= b.len(),
        forall|k: int| 0 <= k < n ==> a[k] == b[k],
    ensures
        registered(ms, a, packet_seq, reliability, now_ns, n) == registered(
            ms,
            b,
            packet_seq,
            reliability,
            now_ns,
            n,
        ),
    decreases n,
{
    if n > 0 {
        lemma_registered_prefix(ms, a, b, packet_seq, reliability, now_ns, (n - 1) as nat);
    }
}

proof fn lemma_in_flight_prefix(x: usize, a: Seq<Seq<u8>>, b: Seq<Seq<u8>>, n: nat)
    requires
        n <= a.len(),
        n <= b.len(),
        forall|k: int| 0 <= k < n ==> a[k] == b[k],
    ensures
        in_flight_after(x, a, n) == in_flight_after(x, b, n),
    decreases n,
{
    if n > 0 {
        lemma_in_flight_prefix(x, a, b, (n - 1) as nat);
    }
}

/// The frame a payload sent whole reads back as: unsplit, with its reliability and, as
/// the reliability calls for, the reliable index, the ordering index (both as 24-bit
/// triads) and ordering channel 0.
pub open spec fn whole_frame(payload: Seq<u8>, reliability: u8, reliable_seq: u32, order_index: u32) -> FrameSpec {
    FrameSpec {
        reliability,
        is_split: false,
        payload,
        reliable_seq: if has_reliable_index(reliability) {
            Some(reliable_seq & 0xFFFFFFu32)
        } else {
            None
        },
        order_index: if has_ordering_index(reliability) {
            Some(order_index & 0xFFFFFFu32)
        } else {
            None
        },
        order_channel: if has_ordering_index(reliability) {
            Some(0u8)
        } else {
            None
        },
        split_count: None,
        split_id: None,
        split_index: None,
    }
}

/// Reading a triad from the bytes written for `v` gives its low 24 bits.
pub proof fn lemma_triad_reads_back(v: u32)
    ensures
        le24(u24_le_bytes(v)[0], u24_le_bytes(v)[1], u24_le_bytes(v)[2]) == v & 0xFFFFFFu32,
{
    assert((((v & 0xFF) as u8) as u32) | (((((v >> 8u32) & 0xFF) as u8) as u32) << 8u32) | (((((v
        >> 16u32) & 0xFF) as u8) as u32) << 16u32) == v & 0xFFFFFFu32) by (bit_vector);
}

/// The split header carried for `split` (count, id, index), empty for an unsplit frame.
pub open spec fn split_meta_head(split: Option<(u32, u16, u32)>) -> Seq<u8> {
    match split {
        Some((c, i, k)) => fragment_head(c, i, k as int),
        None => Seq::empty(),
    }
}

/// The flags byte of a frame: the reliability in the top three bits, 0x10 when split.
pub open spec fn frame_flags(reliability: u8, split: bool) -> u8 {
    (reliability << 5u8) | (if split {
        0x10u8
    } else {
        0u8
    })
}

/// The frame a built datagram reads back as: the data, the reliability, the indexes the
/// reliability calls for (as 24-bit triads), channel 0, and the split fields when split.
pub open spec fn sent_frame(
    body: Seq<u8>,
    reliability: u8,
    reliable_seq: u32,
    order_index: u32,
    split: Option<(u32, u16, u32)>,
) -> FrameSpec {
    FrameSpec {
        split_count: match split {
            Some((c, _, _)) => Some(c),
            None => None,
        },
        split_id: match split {
            Some((_, i, _)) => Some(i),
            None => None,
        },
        split_index: match split {
            Some((_, _, k)) => Some(k),
            None => None,
        },
        is_split: split is Some,
        ..whole_frame(body, reliability, reliable_seq, order_index)
    }
}

/// Parsing and building frames agree: a datagram built with one frame (unsplit, or split
/// with at most 1024 parts, the most the parser takes) is a frame set (id 0x84, the
/// sequence number as a triad) whose only frame is the one that was built; with the
/// contract of `RakNetProtocol::parse_frame_set`, that call returns exactly this frame.
pub proof fn lemma_frame_datagram_reads_back(
    seq: u32,
    reliability: u8,
    reliable_seq: u32,
    order_index: u32,
    split: Option<(u32, u16, u32)>,
    body: Seq<u8>,
)
    requires
        reliability <= 7,
        body.len() <= 8191,
        split matches Some((c, _, _)) ==> c <= 1024,
    ensures
        ({
            let d = frame_datagram(
                seq,
                frame_flags(reliability, split is Some),
                reliability,
                reliable_seq,
                order_index,
                split_meta_head(split),
                body,
            );
            &&& d.len() >= 4
            &&& d[0] == 0x84
            &&& le24(d[1], d[2], d[3]) == seq & 0xFFFFFFu32
            &&& spec_frame_set_frames(d) == seq![
                sent_frame(body, reliability, reliable_seq, order_index, split),
            ]
        }),
{
    reveal(frame_datagram);
    let is_split = split is Some;
    let flags = frame_flags(reliability, is_split);
    assert((flags >> 5u8) & 0x07u8 == reliability && ((flags & 0x10u8) != 0) == is_split)
        by (bit_vector)
        requires
            flags == (reliability << 5u8) | (if is_split {
                0x10u8
            } else {
                0u8
            }),
            reliability <= 7,
    ;
    let n = body.len();
    let bits = (n * 8) as u16;
    assert(n * 8 < 0x10000);
    lemma_u16_be_roundtrip(bits);
    lemma_triad_reads_back(seq);
    lemma_triad_reads_back(reliable_seq);
    lemma_triad_reads_back(order_index);
    let rel = has_reliable_index(reliability);
    let ord = has_ordering_index(reliability);
    let rp = if rel {
        u24_le_bytes(reliable_seq)
    } else {
        Seq::<u8>::empty()
    };
    let op = if ord {
        u24_le_bytes(order_index) + seq![0u8]
    } else {
        Seq::<u8>::empty()
    };
    let sh = split_meta_head(split);
    let head = seq![0x84u8] + u24_le_bytes(seq) + seq![flags] + u16_be_bytes(bits);
    let d = frame_datagram(seq, flags, reliability, reliable_seq, order_index, sh, body);
    assert(d =~= head + rp + op + sh + body);
    let off1: int = if rel { 10 } else { 7 };
    let off2: int = if ord { off1 + 4 } else { off1 };
    let off3: int = if is_split { off2 + 10 } else { off2 };
    assert(head.len() == 7);
    assert(d[4] == flags);
    assert(be16(d[5], d[6]) == bits);
    assert(((bits as int) + 7) / 8 == n);
    if rel {
        assert(d[7] == u24_le_bytes(reliable_seq)[0] && d[8] == u24_le_bytes(reliable_seq)[1] && d[9]
            == u24_le_bytes(reliable_seq)[2]);
    }
    if ord {
        assert(d[off1] == u24_le_bytes(order_index)[0] && d[off1 + 1] == u24_le_bytes(order_index)[1]
            && d[off1 + 2] == u24_le_bytes(order_index)[2] && d[off1 + 3] == 0);
    }
    if let Some((c, i, k)) = split {
        assert(sh =~= u32_be_bytes(c) + u16_be_bytes(i) + u32_be_bytes(k));
        crate::util::buffer::lemma_u32_be_roundtrip(c);
        crate::util::buffer::lemma_u32_be_roundtrip(k);
        lemma_u16_be_roundtrip(i);
        assert(d[off2] == u32_be_bytes(c)[0] && d[off2 + 1] == u32_be_bytes(c)[1] && d[off2 + 2]
            == u32_be_bytes(c)[2] && d[off2 + 3] == u32_be_bytes(c)[3]);
        assert(be32_at(d, off2) == c);
        assert(d[off2 + 4] == u16_be_bytes(i)[0] && d[off2 + 5] == u16_be_bytes(i)[1]);
        assert(d[off2 + 6] == u32_be_bytes(k)[0] && d[off2 + 7] == u32_be_bytes(k)[1] && d[off2 + 8]
            == u32_be_bytes(k)[2] && d[off2 + 9] == u32_be_bytes(k)[3]);
        assert(be32_at(d, off2 + 6) == k);
    }
    assert(d.len() == off3 + n);
    assert(d.subrange(off3, off3 + n) =~= body);
    let f = sent_frame(body, reliability, reliable_seq, order_index, split);
    assert(spec_parse_frame(d, 4, FrameLengthMode::Bits) == Some((f, d.len() as int)));
    reveal_with_fuel(spec_frames_from, 2);
    assert(spec_frames_from(d, 4, FrameLengthMode::Bits, Seq::empty()) == (
        seq![f],
        d.len() as int,
        false,
    ));
}

/// What is sent whole reads back: the datagram of a payload that fits in one frame is a
/// frame set (id 0x84, the packet sequence number as a triad) whose only frame carries
/// the payload, with the reliability and the indexes it was sent with.
pub proof fn lemma_whole_datagram_reads_back(
    payload: Seq<u8>,
    reliability: u8,
    mtu: u16,
    split_id: u16,
    packet_seq: u32,
    reliable_seq: u32,
    order_index: u32,
)
    requires
        reliability <= 7,
        mtu <= 8198,
        sent_whole(payload.len() as int, mtu, reliability),
    ensures
        ({
            let d = outgoing_datagram(
                payload,
                reliability,
                mtu,
                split_id,
                packet_seq,
                reliable_seq,
                order_index,
                0,
            );
            &&& d.len() >= 4
            &&& d[0] == 0x84
            &&& le24(d[1], d[2], d[3]) == packet_seq & 0xFFFFFFu32
            &&& spec_frame_set_frames(d) == seq![
                whole_frame(payload, reliability, reliable_seq, order_index),
            ]
        }),
{
    assert(frame_flags(reliability, false) == reliability << 5u8) by (bit_vector);
    assert(split_meta_head(None) =~= Seq::<u8>::empty());
    lemma_frame_datagram_reads_back(packet_seq, reliability, reliable_seq, order_index, None, payload);
    assert(sent_frame(payload, reliability, reliable_seq, order_index, None) == whole_frame(
        payload,
        reliability,
        reliable_seq,
        order_index,
    ));
}

/// What is sent split reads back: fragment `k` of a payload too large for one datagram
/// (cut into at most 1024 fragments, the most the parser takes) is a frame set whose only
/// frame is split, carries the `k`-th chunk, the split count, id and index `k`, and the
/// reliability and indexes it was sent with; the chunks in order make up the payload.
pub proof fn lemma_split_datagram_reads_back(
    payload: Seq<u8>,
    reliability: u8,
    mtu: u16,
    split_id: u16,
    packet_seq: u32,
    reliable_seq: u32,
    order_index: u32,
    k: int,
)
    requires
        reliability <= 7,
        mtu <= 8198,
        !sent_whole(payload.len() as int, mtu, reliability),
        0 <= k < fragment_count(payload.len() as int, mtu, reliability),
        fragment_count(payload.len() as int, mtu, reliability) <= 1024,
    ensures
        ({
            let d = outgoing_datagram(
                payload,
                reliability,
                mtu,
                split_id,
                packet_seq,
                reliable_seq,
                order_index,
                k,
            );
            let m = max_fragment_payload(mtu, reliability);
            let count = fragment_count(payload.len() as int, mtu, reliability) as u32;
            let rs = if has_reliable_index(reliability) {
                wrap_add(reliable_seq, k as nat)
            } else {
                reliable_seq
            };
            let oi = if has_ordering_index(reliability) {
                wrap_add(order_index, k as nat)
            } else {
                order_index
            };
            &&& d.len() >= 4
            &&& d[0] == 0x84
            &&& le24(d[1], d[2], d[3]) == wrap_add(packet_seq, k as nat) & 0xFFFFFFu32
            &&& spec_frame_set_frames(d) == seq![
                sent_frame(
                    fragment_chunk(payload, m, k),
                    reliability,
                    rs,
                    oi,
                    Some((count, split_id, k as u32)),
                ),
            ]
        }),
{
    let m = max_fragment_payload(mtu, reliability);
    let count = fragment_count(payload.len() as int, mtu, reliability) as u32;
    reveal(split_datagram);
    assert(frame_flags(reliability, true) == (reliability << 5u8) | 0x10u8);
    lemma_fragment_bounds(payload.len() as int, m, count as int, k);
    let chunk = fragment_chunk(payload, m, k);
    assert(chunk.len() <= m);
    assert(m <= 8181 || m == 1);
    assert(split_meta_head(Some((count, split_id, k as u32))) == fragment_head(count, split_id, k));
    lemma_frame_datagram_reads_back(
        wrap_add(packet_seq, k as nat),
        reliability,
        if has_reliable_index(reliability) {
            wrap_add(reliable_seq, k as nat)
        } else {
            reliable_seq
        },
        if has_ordering_index(reliability) {
            wrap_add(order_index, k as nat)
        } else {
            order_index
        },
        Some((count, split_id, k as u32)),
        chunk,
    );
}

/// The first `n` chunks of a split payload, joined in order.
pub open spec fn chunks_joined(payload: Seq<u8>, m: int, n: nat) -> Seq<u8>
    decreases n,
{
    if n == 0 {
        Seq::empty()
    } else {
        chunks_joined(payload, m, (n - 1) as nat) + fragment_chunk(payload, m, n - 1)
    }
}

proof fn lemma_chunks_prefix(payload: Seq<u8>, m: int, n: nat)
    requires
        m >= 1,
        n <= (payload.len() + m - 1) / m,
    ensures
        chunks_joined(payload, m, n) == payload.take(
            if n * m <= payload.len() {
                n * m
            } else {
                payload.len() as int
            },
        ),
    decreases n,
{
    if n == 0 {
        assert(n * m == 0) by (nonlinear_arith)
            requires
                n == 0,
        ;
        assert(payload.take(0) =~= Seq::<u8>::empty());
    } else {
        let k = n - 1;
        lemma_chunks_prefix(payload, m, k as nat);
        assert(chunks_joined(payload, m, n) == chunks_joined(payload, m, k as nat) + fragment_chunk(
            payload,
            m,
            k,
        ));
        assert(k * m < payload.len()) by (nonlinear_arith)
            requires
                m >= 1,
                k + 1 <= (payload.len() + m - 1) / m,
                k >= 0,
        ;
        assert((k + 1) * m == k * m + m) by (nonlinear_arith);
        assert(n * m == k * m + m) by (nonlinear_arith)
            requires
                n == k + 1,
        ;
        let end = if n * m <= payload.len() {
            n * m
        } else {
            payload.len() as int
        };
        assert(payload.take(k * m) + payload.subrange(k * m, end) =~= payload.take(end));
    }
}

/// What a split send puts on the wire: a payload too large for one datagram goes out in
/// `fragment_count` datagrams (at most 1024, the most the parser takes), each within the
/// MTU; fragment `k` reads back as a split frame with the common split count and id,
/// index `k` and the `k`-th chunk, and the chunks in order make up the payload.
pub proof fn lemma_split_send(
    payload: Seq<u8>,
    reliability: u8,
    mtu: u16,
    split_id: u16,
    packet_seq: u32,
    reliable_seq: u32,
    order_index: u32,
)
    requires
        reliability <= 7,
        mtu <= 8198,
        mtu > 14 + frame_overhead(reliability),
        !sent_whole(payload.len() as int, mtu, reliability),
        fragment_count(payload.len() as int, mtu, reliability) <= 1024,
    ensures
        ({
            let m = max_fragment_payload(mtu, reliability);
            let count = fragment_count(payload.len() as int, mtu, reliability);
            &&& datagram_count(payload.len() as int, mtu, reliability) == count
            &&& chunks_joined(payload, m, count as nat) == payload
            &&& forall|k: int|
                0 <= k < count ==> {
                    let d = #[trigger] outgoing_datagram(
                        payload,
                        reliability,
                        mtu,
                        split_id,
                        packet_seq,
                        reliable_seq,
                        order_index,
                        k,
                    );
                    &&& d.len() <= mtu
                    &&& spec_frame_set_frames(d) == seq![
                        sent_frame(
                            fragment_chunk(payload, m, k),
                            reliability,
                            if has_reliable_index(reliability) {
                                wrap_add(reliable_seq, k as nat)
                            } else {
                                reliable_seq
                            },
                            if has_ordering_index(reliability) {
                                wrap_add(order_index, k as nat)
                            } else {
                                order_index
                            },
                            Some((count as u32, split_id, k as u32)),
                        ),
                    ]
                }
        }),
{
    let m = max_fragment_payload(mtu, reliability);
    let count = fragment_count(payload.len() as int, mtu, reliability);
    assert(m >= 1);
    lemma_chunks_prefix(payload, m, count as nat);
    assert(count * m >= payload.len()) by (nonlinear_arith)
        requires
            m >= 1,
            count == (payload.len() + m - 1) / m,
    ;
    assert(payload.take(payload.len() as int) =~= payload);
    assert forall|k: int| 0 <= k < count implies {
        let d = #[trigger] outgoing_datagram(
            payload,
            reliability,
            mtu,
            split_id,
            packet_seq,
            reliable_seq,
            order_index,
            k,
        );
        &&& d.len() <= mtu
        &&& spec_frame_set_frames(d) == seq![
            sent_frame(
                fragment_chunk(payload, m, k),
                reliability,
                if has_reliable_index(reliability) {
                    wrap_add(reliable_seq, k as nat)
                } else {
                    reliable_seq
                },
                if has_ordering_index(reliability) {
                    wrap_add(order_index, k as nat)
                } else {
                    order_index
                },
                Some((count as u32, split_id, k as u32)),
            ),
        ]
    } by {
        lemma_split_datagram_reads_back(
            payload,
            reliability,
            mtu,
            split_id,
            packet_seq,
            reliable_seq,
            order_index,
            k,
        );
        lemma_fragment_bounds(payload.len() as int, m, count, k);
        reveal(split_datagram);
        reveal(frame_datagram);
        assert(fragment_chunk(payload, m, k).len() <= m);
        assert(fragment_head(count as u32, split_id, k).len() == 10);
    }
}

} // verus!
