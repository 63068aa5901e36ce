//! Per-client session state: reliability counters, congestion control, ordered
//! channels, pending reliable messages and split-packet reassembly buffers.
//!
//! Times are nanoseconds on a monotonic clock handed in by the caller.
use crate::util::buffer::u24_le_bytes;
use vstd::prelude::*;

verus! {

/// Maximum number of split fragments accepted per packet.
pub const MAX_SPLIT_PARTS: u32 = 512;

/// Time-to-live for buffered session queues (split, ordered, pending), in nanoseconds.
pub const SESSION_QUEUE_TTL_NS: u64 = 30_000_000_000;

/// The initial retransmission timeout, in nanoseconds.
pub const INITIAL_RTO_NS: u64 = 300_000_000;

/// A payload waiting in an ordered channel for the indices before it.
#[derive(Debug, Clone)]
pub struct BufferedPayload {
    pub index: u32,
    pub payload: Vec<u8>,
    pub created_ns: u64,
}

/// Ordered channel buffer for ReliableOrdered handling
#[derive(Debug, Clone)]
pub struct OrderedChannel {
    pub channel: u8,
    pub next_index: u32,
    pub buffer: Vec<BufferedPayload>,
}

/// A reliable frame sent and not yet acknowledged.
#[derive(Debug, Clone)]
pub struct PendingMessage {
    pub seq: u32,
    pub frame: Vec<u8>,
    pub size_bytes: usize,
    pub last_sent_ns: u64,
    pub attempts: u32,
    pub reliability: u8,
}

/// Split packet reassembly state of one (peer, split id)
#[derive(Debug, Clone)]
pub struct SplitBuffer {
    pub peer: String,
    pub split_id: u16,
    pub count: u32,
    pub received_count: u32,
    pub created_ns: u64,
    pub fragments: Vec<Vec<u8>>,
    pub received: Vec<bool>,
    // metadata carried with split packet (same across fragments)
    pub reliability: u8,
    pub reliable_seq: Option<u32>,
    pub order_index: Option<u32>,
    pub order_channel: Option<u8>,
}

/// Client session information
#[derive(Debug, Clone)]
pub struct ClientSession {
    pub address: String,
    pub guid: u64,
    pub connected: bool,
    pub packet_seq: u32,
    pub reliable_seq: u32,
    pub sequenced_seq: u32,
    pub order_index: u32,
    pub raknet_protocol: u8,
    pub bedrock_protocol: u16,
    pub bedrock_version: String,
    pub smoothed_rtt_ns: Option<u64>,
    pub retransmit_timeout_ns: u64,
    pub congestion_window_bytes: usize,
    pub slow_start_threshold_bytes: usize,
    pub in_flight_bytes: usize,
    // Compression state: whether NetworkSettings negotiation completed
    pub compression_enabled: bool,
    pub compression_algo: Option<u8>,
    // Optional metadata populated during LOGIN
    pub username: Option<String>,
    pub xuid: Option<String>,
    pub uuid: Option<String>,
    pub skin_path: Option<String>,
    // Ordered channels (per-order-channel buffering)
    pub ordered_channels: Vec<OrderedChannel>,
    // Pending reliable messages awaiting ACK
    pub pending_messages: Vec<PendingMessage>,
}

/// `n + 1` wrapping at `u32::MAX`.
pub open spec fn wrap_inc(n: u32) -> u32 {
    if n == u32::MAX {
        0
    } else {
        (n + 1) as u32
    }
}

/// `n + k` wrapping at `u32::MAX`.
pub open spec fn wrap_add(n: u32, k: nat) -> u32 {
    ((n + k) % 0x1_0000_0000) as u32
}

/// A buffered payload as values: index, bytes, arrival time.
pub open spec fn buffered_view(b: BufferedPayload) -> (u32, Seq<u8>, u64) {
    (b.index, b.payload@, b.created_ns)
}

/// The buffer of an ordered channel as values.
pub open spec fn buffer_view(buf: Seq<BufferedPayload>) -> Seq<(u32, Seq<u8>, u64)> {
    buf.map_values(|b: BufferedPayload| buffered_view(b))
}

/// The first position of index `idx` in a channel buffer.
pub open spec fn index_pos(buf: Seq<(u32, Seq<u8>, u64)>, idx: u32) -> Option<int>
    decreases buf.len(),
{
    if buf.len() == 0 {
        None
    } else if buf[0].0 == idx {
        Some(0)
    } else {
        match index_pos(buf.drop_first(), idx) {
            Some(i) => Some(i + 1),
            None => None,
        }
    }
}

/// Storing a payload under `idx`: replaces what the index held, or adds it at the end.
pub open spec fn ordered_insert(buf: Seq<(u32, Seq<u8>, u64)>, idx: u32, p: Seq<u8>, t: u64) -> Seq<
    (u32, Seq<u8>, u64),
> {
    match index_pos(buf, idx) {
        Some(i) => buf.update(i, (idx, p, t)),
        None => buf.push((idx, p, t)),
    }
}

/// Delivering from index `n` on: the payloads of `n`, `n + 1`, ... as long as they are
/// buffered, the buffer without them, and the next index still awaited.
pub open spec fn flush_from(buf: Seq<(u32, Seq<u8>, u64)>, n: u32) -> (
    Seq<Seq<u8>>,
    Seq<(u32, Seq<u8>, u64)>,
    u32,
)
    decreases buf.len(),
{
    match index_pos(buf, n) {
        None => (Seq::empty(), buf, n),
        Some(i) => {
            proof {
                lemma_index_pos_bounds(buf, n);
            }
            let rest = flush_from(buf.remove(i), wrap_inc(n));
            (seq![buf[i].1] + rest.0, rest.1, rest.2)
        },
    }
}

/// One ordered payload arriving: it is stored; a channel whose buffer now holds only it
/// and that still awaits index 0 starts at its index; then the run from the awaited
/// index is delivered.
pub open spec fn ordered_step(
    next: u32,
    buf: Seq<(u32, Seq<u8>, u64)>,
    idx: u32,
    p: Seq<u8>,
    t: u64,
) -> (Seq<Seq<u8>>, Seq<(u32, Seq<u8>, u64)>, u32) {
    let b1 = ordered_insert(buf, idx, p, t);
    let n0 = if b1.len() == 1 && next == 0 {
        idx
    } else {
        next
    };
    flush_from(b1, n0)
}

pub proof fn lemma_index_pos_bounds(buf: Seq<(u32, Seq<u8>, u64)>, idx: u32)
    ensures
        index_pos(buf, idx) matches Some(i) ==> 0 <= i < buf.len() && buf[i].0 == idx && forall|k: int|
            0 <= k < i ==> buf[k].0 != idx,
        index_pos(buf, idx) is None ==> forall|k: int| 0 <= k < buf.len() ==> buf[k].0 != idx,
    decreases buf.len(),
{
    if buf.len() > 0 && buf[0].0 != idx {
        lemma_index_pos_bounds(buf.drop_first(), idx);
        if let Some(i) = index_pos(buf, idx) {
            assert forall|k: int| 0 <= k < i implies buf[k].0 != idx by {
                if k > 0 {
                    assert(buf[k] == buf.drop_first()[k - 1]);
                }
            }
        }
        if index_pos(buf, idx) is None {
            assert forall|k: int| 0 <= k < buf.len() implies buf[k].0 != idx by {
                if k > 0 {
                    assert(buf[k] == buf.drop_first()[k - 1]);
                }
            }
        }
    }
}

/// Delivery stops at a gap: the index awaited after a flush is not buffered.
pub proof fn lemma_flush_stops_at_gap(buf: Seq<(u32, Seq<u8>, u64)>, n: u32)
    ensures
        index_pos(flush_from(buf, n).1, flush_from(buf, n).2) is None,
    decreases buf.len(),
{
    lemma_index_pos_bounds(buf, n);
    if let Some(i) = index_pos(buf, n) {
        lemma_flush_stops_at_gap(buf.remove(i), wrap_inc(n));
    }
}

/// A payload that arrives exactly at the awaited index of a channel with nothing
/// buffered is delivered at once, and the channel then awaits the following index.
pub proof fn lemma_in_order_arrival_delivered(next: u32, p: Seq<u8>, t: u64)
    requires
        next != 0,
    ensures
        ordered_step(next, Seq::empty(), next, p, t) == (
            seq![p],
            Seq::<(u32, Seq<u8>, u64)>::empty(),
            wrap_inc(next),
        ),
{
    let b1 = ordered_insert(Seq::empty(), next, p, t);
    assert(b1 =~= seq![(next, p, t)]);
    assert(index_pos(b1, next) == Some(0int));
    assert(b1.remove(0) =~= Seq::<(u32, Seq<u8>, u64)>::empty());
    let rest = flush_from(b1.remove(0), wrap_inc(next));
    assert(index_pos(b1.remove(0), wrap_inc(next)) is None);
    assert(rest == (Seq::<Seq<u8>>::empty(), Seq::<(u32, Seq<u8>, u64)>::empty(), wrap_inc(next)));
    assert(seq![p] + Seq::<Seq<u8>>::empty() =~= seq![p]);
}

fn find_index(buf: &Vec<BufferedPayload>, idx: u32) -> (r: Option<usize>)
    ensures
        match index_pos(buffer_view(buf@), idx) {
            Some(i) => r matches Some(x) && x as int == i && 0 <= i < buf@.len() && buf@[i].index == idx,
            None => r is None,
        },
{
    let ghost bv = buffer_view(buf@);
    let mut k: usize = 0;
    while k < buf.len()
        invariant
            k <= buf@.len(),
            bv == buffer_view(buf@),
            forall|j: int| 0 <= j < k ==> buf@[j].index != idx,
        decreases buf.len() - k,
    {
        if buf[k].index == idx {
            proof {
                lemma_index_pos_bounds(bv, idx);
                lemma_index_pos_first(bv, idx, k as int);
            }
            return Some(k);
        }
        k = k + 1;
    }
    proof {
        lemma_index_pos_bounds(bv, idx);
        if let Some(i) = index_pos(bv, idx) {
            assert(bv[i].0 == buf@[i].index);
        }
    }
    None
}

proof fn lemma_index_pos_first(buf: Seq<(u32, Seq<u8>, u64)>, idx: u32, k: int)
    requires
        0 <= k < buf.len(),
        buf[k].0 == idx,
        forall|j: int| 0 <= j < k ==> buf[j].0 != idx,
    ensures
        index_pos(buf, idx) == Some(k),
    decreases buf.len(),
{
    if k > 0 {
        assert forall|j: int| 0 <= j < k - 1 implies buf.drop_first()[j].0 != idx by {
            assert(buf.drop_first()[j] == buf[j + 1]);
        }
        lemma_index_pos_first(buf.drop_first(), idx, k - 1);
    }
}

impl OrderedChannel {
    /// One ordered payload arriving on this channel (see `ordered_step`); the delivered
    /// payloads are appended to `emit`.
    pub fn accept(&mut self, idx: u32, payload: Vec<u8>, now_ns: u64, emit: &mut Vec<Vec<u8>>)
        ensures
            ({
                let st = ordered_step(
                    old(self).next_index,
                    buffer_view(old(self).buffer@),
                    idx,
                    payload@,
                    now_ns,
                );
                &&& final(emit)@.map_values(|v: Vec<u8>| v@) == old(emit)@.map_values(
                    |v: Vec<u8>| v@,
                ) + st.0
                &&& buffer_view(final(self).buffer@) == st.1
                &&& final(self).next_index == st.2
                &&& final(self).channel == old(self).channel
            }),
    {
        let ghost b0 = buffer_view(self.buffer@);
        let ghost p = payload@;
        match find_index(&self.buffer, idx) {
            Some(i) => {
                self.buffer.set(i, BufferedPayload { index: idx, payload, created_ns: now_ns });
            },
            None => {
                self.buffer.push(BufferedPayload { index: idx, payload, created_ns: now_ns });
            },
        }
        proof {
            assert(buffer_view(self.buffer@) =~= ordered_insert(b0, idx, p, now_ns));
        }
        if self.buffer.len() == 1 && self.next_index == 0 {
            self.next_index = idx;
        }
        let ghost start_buf = buffer_view(self.buffer@);
        let ghost start_next = self.next_index;
        let ghost emit0 = emit@.map_values(|v: Vec<u8>| v@);
        assert(emit0 + Seq::<Seq<u8>>::empty() =~= emit0);
        let mut done = false;
        while !done
            invariant
                ({
                    let whole = flush_from(start_buf, start_next);
                    let cur = flush_from(buffer_view(self.buffer@), self.next_index);
                    &&& emit@.map_values(|v: Vec<u8>| v@) + cur.0 == emit0 + whole.0
                    &&& cur.1 == whole.1
                    &&& cur.2 == whole.2
                }),
                done ==> index_pos(buffer_view(self.buffer@), self.next_index) is None,
                self.channel == old(self).channel,
            decreases self.buffer@.len() + if done { 0int } else { 1int },
        {
            match find_index(&self.buffer, self.next_index) {
                None => {
                    done = true;
                },
                Some(i) => {
                    let ghost bv = buffer_view(self.buffer@);
                    let ghost n = self.next_index;
                    let ghost before = emit@.map_values(|v: Vec<u8>| v@);
                    proof {
                        lemma_index_pos_bounds(bv, n);
                        assert(index_pos(bv, n) == Some(i as int));
                    }
                    let item = self.buffer.remove(i);
                    proof {
                        assert(buffer_view(self.buffer@) =~= bv.remove(i as int));
                    }
                    emit.push(item.payload);
                    self.next_index = if self.next_index == u32::MAX {
                        0
                    } else {
                        self.next_index + 1
                    };
                    proof {
                        assert(self.next_index == wrap_inc(n));
                        assert(emit@.map_values(|v: Vec<u8>| v@) =~= before.push(bv[i as int].1));
                        let rest = flush_from(bv.remove(i as int), wrap_inc(n));
                        assert(flush_from(bv, n) == (seq![bv[i as int].1] + rest.0, rest.1, rest.2));
                        assert(before.push(bv[i as int].1) + rest.0 =~= before + (seq![bv[i as int].1]
                            + rest.0));
                    }
                },
            }
        }
        proof {
            let cur = flush_from(buffer_view(self.buffer@), self.next_index);
            assert(cur.0 =~= Seq::<Seq<u8>>::empty());
            assert(emit@.map_values(|v: Vec<u8>| v@) + cur.0 =~= emit@.map_values(|v: Vec<u8>| v@));
        }
    }
}

/// The first position of channel `ch` among the ordered channels.
pub open spec fn channel_pos(chs: Seq<OrderedChannel>, ch: u8) -> Option<int>
    decreases chs.len(),
{
    if chs.len() == 0 {
        None
    } else if chs[0].channel == ch {
        Some(0)
    } else {
        match channel_pos(chs.drop_first(), ch) {
            Some(i) => Some(i + 1),
            None => None,
        }
    }
}

pub proof fn lemma_channel_pos_bounds(chs: Seq<OrderedChannel>, ch: u8)
    ensures
        channel_pos(chs, ch) matches Some(i) ==> 0 <= i < chs.len() && chs[i].channel == ch
            && forall|k: int| 0 <= k < i ==> chs[k].channel != ch,
        channel_pos(chs, ch) is None ==> forall|k: int| 0 <= k < chs.len() ==> chs[k].channel != ch,
    decreases chs.len(),
{
    if chs.len() > 0 && chs[0].channel != ch {
        lemma_channel_pos_bounds(chs.drop_first(), ch);
        if let Some(i) = channel_pos(chs, ch) {
            assert forall|k: int| 0 <= k < i implies chs[k].channel != ch by {
                if k > 0 {
                    assert(chs[k] == chs.drop_first()[k - 1]);
                }
            }
        }
        if channel_pos(chs, ch) is None {
            assert forall|k: int| 0 <= k < chs.len() implies chs[k].channel != ch by {
                if k > 0 {
                    assert(chs[k] == chs.drop_first()[k - 1]);
                }
            }
        }
    }
}

proof fn lemma_channel_pos_first(chs: Seq<OrderedChannel>, ch: u8, k: int)
    requires
        0 <= k < chs.len(),
        chs[k].channel == ch,
        forall|j: int| 0 <= j < k ==> chs[j].channel != ch,
    ensures
        channel_pos(chs, ch) == Some(k),
    decreases chs.len(),
{
    if k > 0 {
        assert forall|j: int| 0 <= j < k - 1 implies chs.drop_first()[j].channel != ch by {
            assert(chs.drop_first()[j] == chs[j + 1]);
        }
        lemma_channel_pos_first(chs.drop_first(), ch, k - 1);
    }
}

fn find_channel(chs: &Vec<OrderedChannel>, ch: u8) -> (r: Option<usize>)
    ensures
        match channel_pos(chs@, ch) {
            Some(i) => r matches Some(x) && x as int == i && 0 <= i < chs@.len() && chs@[i].channel == ch,
            None => r is None,
        },
{
    let mut k: usize = 0;
    while k < chs.len()
        invariant
            k <= chs@.len(),
            forall|j: int| 0 <= j < k ==> chs@[j].channel != ch,
        decreases chs.len() - k,
    {
        if chs[k].channel == ch {
            proof {
                lemma_channel_pos_first(chs@, ch, k as int);
            }
            return Some(k);
        }
        k = k + 1;
    }
    proof {
        lemma_channel_pos_bounds(chs@, ch);
    }
    None
}

/// The state of channel `ch` before a payload arrives: its next index and buffer, or a
/// fresh channel awaiting index 0.
pub open spec fn channel_state(chs: Seq<OrderedChannel>, ch: u8) -> (u32, Seq<(u32, Seq<u8>, u64)>) {
    match channel_pos(chs, ch) {
        Some(i) => (chs[i].next_index, buffer_view(chs[i].buffer@)),
        None => (0, Seq::empty()),
    }
}

/// The payloads of a list of byte vectors as values.
pub open spec fn bytes_seq(v: Seq<Vec<u8>>) -> Seq<Seq<u8>> {
    v.map_values(|b: Vec<u8>| b@)
}

/// The ordered channels as values: channel, next index awaited, buffered payloads.
pub open spec fn channels_view(chs: Seq<OrderedChannel>) -> Seq<(u8, u32, Seq<(u32, Seq<u8>, u64)>)> {
    chs.map_values(|c: OrderedChannel| channel_view(c))
}

/// The ordered channels after a payload arrives with this ordering index and channel
/// (channel 0 when none is given): its channel, made when missing, takes the step
/// `ordered_step` describes.  Unordered payloads leave the channels as they are.
pub open spec fn channels_after(
    chs: Seq<OrderedChannel>,
    p: Seq<u8>,
    oi: Option<u32>,
    oc: Option<u8>,
    now: u64,
) -> Seq<(u8, u32, Seq<(u32, Seq<u8>, u64)>)> {
    match oi {
        None => channels_view(chs),
        Some(idx) => {
            let ch = match oc {
                Some(c) => c,
                None => 0u8,
            };
            let (next, buf) = channel_state(chs, ch);
            let st = ordered_step(next, buf, idx, p, now);
            match channel_pos(chs, ch) {
                Some(j) => channels_view(chs).update(j, (ch, st.2, st.1)),
                None => channels_view(chs).push((ch, st.2, st.1)),
            }
        },
    }
}

/// Insert an ordered payload into a session's ordered-channel buffer, flushing any
/// now-contiguous packets to `emit`. Non-ordered payloads are emitted immediately.
/// Everything but the ordered channels is left as it is.
pub fn buffer_ordered_payload(
    session: &mut ClientSession,
    payload: Vec<u8>,
    order_index: Option<u32>,
    order_channel: Option<u8>,
    now_ns: u64,
    emit: &mut Vec<Vec<u8>>,
)
    ensures
        *final(session) == (ClientSession {
            ordered_channels: final(session).ordered_channels,
            ..*old(session)
        }),
        channels_view(final(session).ordered_channels@) == channels_after(
            old(session).ordered_channels@,
            payload@,
            order_index,
            order_channel,
            now_ns,
        ),
        final(session).pending_messages@ == old(session).pending_messages@,
        final(session).connected == old(session).connected,
        final(session).compression_enabled == old(session).compression_enabled,
        final(session).address@ == old(session).address@,
        final(session).retransmit_timeout_ns == old(session).retransmit_timeout_ns,
        match order_index {
            None => bytes_seq(final(emit)@) == bytes_seq(old(emit)@).push(payload@)
                && final(session).ordered_channels@ == old(session).ordered_channels@,
            Some(idx) => {
                let ch = match order_channel {
                    Some(c) => c,
                    None => 0u8,
                };
                let (next, buf) = channel_state(old(session).ordered_channels@, ch);
                let st = ordered_step(next, buf, idx, payload@, now_ns);
                &&& bytes_seq(final(emit)@) == bytes_seq(old(emit)@) + st.0
                &&& channel_pos(final(session).ordered_channels@, ch) matches Some(j)
                    && final(session).ordered_channels@[j].next_index == st.2 && buffer_view(
                    final(session).ordered_channels@[j].buffer@,
                ) == st.1
                &&& forall|k: int|
                    0 <= k < old(session).ordered_channels@.len() && old(
                        session,
                    ).ordered_channels@[k].channel != ch ==> final(session).ordered_channels@[k]
                        == old(session).ordered_channels@[k]
            },
        },
{
    match order_index {
        None => {
            emit.push(payload);
            proof {
                assert(bytes_seq(emit@) =~= bytes_seq(old(emit)@).push(payload@));
            }
        },
        Some(idx) => {
            let ch = match order_channel {
                Some(c) => c,
                None => 0u8,
            };
            let pos = match find_channel(&session.ordered_channels, ch) {
                Some(i) => i,
                None => {
                    session.ordered_channels.push(
                        OrderedChannel { channel: ch, next_index: 0, buffer: Vec::new() },
                    );
                    proof {
                        lemma_channel_pos_bounds(old(session).ordered_channels@, ch);
                        lemma_channel_pos_first(
                            session.ordered_channels@,
                            ch,
                            session.ordered_channels@.len() - 1,
                        );
                        assert(buffer_view(Seq::<BufferedPayload>::empty()) =~= Seq::<
                            (u32, Seq<u8>, u64),
                        >::empty());
                    }
                    session.ordered_channels.len() - 1
                },
            };
            let ghost chs_before = session.ordered_channels@;
            assert(chs_before[pos as int].channel == ch);
            let ghost pv = payload@;
            let mut channel = session.ordered_channels.remove(pos);
            channel.accept(idx, payload, now_ns, emit);
            let ghost cv = channel_view(channel);
            session.ordered_channels.insert(pos, channel);
            proof {
                let old_chs = old(session).ordered_channels@;
                assert(session.ordered_channels@ =~= chs_before.update(pos as int, session.ordered_channels@[pos as int]));
                lemma_channel_pos_bounds(old_chs, ch);
                let (next, buf) = channel_state(old_chs, ch);
                let st = ordered_step(next, buf, idx, pv, now_ns);
                assert(cv == (ch, st.2, st.1));
                match channel_pos(old_chs, ch) {
                    Some(j) => {
                        assert(chs_before == old_chs);
                        assert(channels_view(session.ordered_channels@) =~= channels_view(old_chs).update(
                            j,
                            (ch, st.2, st.1),
                        ));
                    },
                    None => {
                        assert(chs_before.drop_last() =~= old_chs);
                        assert(channels_view(session.ordered_channels@) =~= channels_view(old_chs).push(
                            (ch, st.2, st.1),
                        ));
                    },
                }
                lemma_channel_pos_bounds(chs_before, ch);
                assert forall|k: int| 0 <= k < chs_before.len() && k != pos implies #[trigger] session.ordered_channels@[k]
                    == chs_before[k] by {}
                assert forall|j: int| 0 <= j < pos implies session.ordered_channels@[j].channel != ch by {
                    assert(session.ordered_channels@[j] == chs_before[j]);
                }
                lemma_channel_pos_first(session.ordered_channels@, ch, pos as int);
                assert(bytes_seq(emit@) == emit@.map_values(|v: Vec<u8>| v@));
            }
        },
    }
}

/// Read the packet, reliable and ordering counters for one outgoing frame and advance
/// them (wrapping); the reliable counter moves only for reliable frames and the ordering
/// counter only for ordered ones.  Returns the values before the advance.
pub fn allocate_sequence(session: &mut ClientSession, has_reliable: bool, has_ordering: bool) -> (r: (
    u32,
    u32,
    u32,
))
    ensures
        r == (old(session).packet_seq, old(session).reliable_seq, old(session).order_index),
        final(session).packet_seq == wrap_inc(old(session).packet_seq),
        final(session).reliable_seq == if has_reliable {
            wrap_inc(old(session).reliable_seq)
        } else {
            old(session).reliable_seq
        },
        final(session).order_index == if has_ordering {
            wrap_inc(old(session).order_index)
        } else {
            old(session).order_index
        },
        final(session).pending_messages@ == old(session).pending_messages@,
        final(session).ordered_channels@ == old(session).ordered_channels@,
        final(session).in_flight_bytes == old(session).in_flight_bytes,
        final(session).retransmit_timeout_ns == old(session).retransmit_timeout_ns,
        final(session).connected == old(session).connected,
        final(session).compression_enabled == old(session).compression_enabled,
        final(session).address@ == old(session).address@,
{
    let seq = session.packet_seq;
    let rel_seq = session.reliable_seq;
    let order_idx = session.order_index;
    session.packet_seq = if seq == u32::MAX {
        0
    } else {
        seq + 1
    };
    if has_reliable {
        session.reliable_seq = if rel_seq == u32::MAX {
            0
        } else {
            rel_seq + 1
        };
    }
    if has_ordering {
        session.order_index = if order_idx == u32::MAX {
            0
        } else {
            order_idx + 1
        };
    }
    (seq, rel_seq, order_idx)
}

/// A pending message as values: sequence number, frame, size, send time, attempts,
/// reliability.
pub open spec fn pending_view(m: PendingMessage) -> (u32, Seq<u8>, usize, u64, u32, u8) {
    (m.seq, m.frame@, m.size_bytes, m.last_sent_ns, m.attempts, m.reliability)
}

/// The pending messages as values.
pub open spec fn pending_views(ms: Seq<PendingMessage>) -> Seq<(u32, Seq<u8>, usize, u64, u32, u8)> {
    ms.map_values(|m: PendingMessage| pending_view(m))
}

/// The first position of sequence number `seq` among the pending messages.
pub open spec fn pending_pos(ms: Seq<PendingMessage>, seq: u32) -> Option<int>
    decreases ms.len(),
{
    if ms.len() == 0 {
        None
    } else if ms[0].seq == seq {
        Some(0)
    } else {
        match pending_pos(ms.drop_first(), seq) {
            Some(i) => Some(i + 1),
            None => None,
        }
    }
}

/// The first position of sequence number `seq` among pending message values.
pub open spec fn pv_pos(ms: Seq<(u32, Seq<u8>, usize, u64, u32, u8)>, seq: u32) -> Option<int>
    decreases ms.len(),
{
    if ms.len() == 0 {
        None
    } else if ms[0].0 == seq {
        Some(0)
    } else {
        match pv_pos(ms.drop_first(), seq) {
            Some(i) => Some(i + 1),
            None => None,
        }
    }
}

/// Storing message `m` under its sequence number: it replaces the first message of that
/// number, or is added at the end.
pub open spec fn pending_inserted(
    ms: Seq<(u32, Seq<u8>, usize, u64, u32, u8)>,
    m: (u32, Seq<u8>, usize, u64, u32, u8),
) -> Seq<(u32, Seq<u8>, usize, u64, u32, u8)> {
    match pv_pos(ms, m.0) {
        Some(i) => ms.update(i, m),
        None => ms.push(m),
    }
}

pub proof fn lemma_pv_pos_matches(ms: Seq<PendingMessage>, seq: u32)
    ensures
        pv_pos(pending_views(ms), seq) == pending_pos(ms, seq),
    decreases ms.len(),
{
    if ms.len() > 0 {
        assert(pending_views(ms).drop_first() =~= pending_views(ms.drop_first()));
        lemma_pv_pos_matches(ms.drop_first(), seq);
    }
}

pub proof fn lemma_pending_pos_bounds(ms: Seq<PendingMessage>, seq: u32)
    ensures
        pending_pos(ms, seq) matches Some(i) ==> 0 <= i < ms.len() && ms[i].seq == seq && forall|k: int|
            0 <= k < i ==> ms[k].seq != seq,
        pending_pos(ms, seq) is None ==> forall|k: int| 0 <= k < ms.len() ==> ms[k].seq != seq,
    decreases ms.len(),
{
    if ms.len() > 0 && ms[0].seq != seq {
        lemma_pending_pos_bounds(ms.drop_first(), seq);
        if let Some(i) = pending_pos(ms, seq) {
            assert forall|k: int| 0 <= k < i implies ms[k].seq != seq by {
                if k > 0 {
                    assert(ms[k] == ms.drop_first()[k - 1]);
                }
            }
        }
        if pending_pos(ms, seq) is None {
            assert forall|k: int| 0 <= k < ms.len() implies ms[k].seq != seq by {
                if k > 0 {
                    assert(ms[k] == ms.drop_first()[k - 1]);
                }
            }
        }
    }
}

proof fn lemma_pending_pos_first(ms: Seq<PendingMessage>, seq: u32, k: int)
    requires
        0 <= k < ms.len(),
        ms[k].seq == seq,
        forall|j: int| 0 <= j < k ==> ms[j].seq != seq,
    ensures
        pending_pos(ms, seq) == Some(k),
    decreases ms.len(),
{
    if k > 0 {
        assert forall|j: int| 0 <= j < k - 1 implies ms.drop_first()[j].seq != seq by {
            assert(ms.drop_first()[j] == ms[j + 1]);
        }
        lemma_pending_pos_first(ms.drop_first(), seq, k - 1);
    }
}

/// Finds the pending message with sequence number `seq`.
pub fn find_pending(ms: &Vec<PendingMessage>, seq: u32) -> (r: Option<usize>)
    ensures
        match pending_pos(ms@, seq) {
            Some(i) => r matches Some(x) && x as int == i && 0 <= i < ms@.len() && ms@[i].seq == seq,
            None => r is None,
        },
{
    let mut k: usize = 0;
    while k < ms.len()
        invariant
            k <= ms@.len(),
            forall|j: int| 0 <= j < k ==> ms@[j].seq != seq,
        decreases ms.len() - k,
    {
        if ms[k].seq == seq {
            proof {
                lemma_pending_pos_first(ms@, seq, k as int);
            }
            return Some(k);
        }
        k = k + 1;
    }
    proof {
        lemma_pending_pos_bounds(ms@, seq);
    }
    None
}

/// `a + b` capped at `usize::MAX`.
pub open spec fn sat_add(a: usize, b: int) -> usize {
    if a + b > usize::MAX {
        usize::MAX
    } else {
        (a + b) as usize
    }
}

/// Track an outgoing reliable frame so it can be retransmitted on NACK/timeout: it is
/// stored under `seq` (replacing an earlier message of that number) with one attempt,
/// and its size is added to the bytes in flight.
pub fn register_pending(session: &mut ClientSession, seq: u32, frame: &[u8], reliability: u8, now_ns: u64)
    ensures
        final(session).in_flight_bytes == sat_add(old(session).in_flight_bytes, frame@.len() as int),
        pending_views(final(session).pending_messages@) == pending_inserted(
            pending_views(old(session).pending_messages@),
            (seq, frame@, frame@.len() as usize, now_ns, 1u32, reliability),
        ),
        final(session).packet_seq == old(session).packet_seq,
        final(session).reliable_seq == old(session).reliable_seq,
        final(session).order_index == old(session).order_index,
        final(session).ordered_channels@ == old(session).ordered_channels@,
        final(session).retransmit_timeout_ns == old(session).retransmit_timeout_ns,
        final(session).connected == old(session).connected,
        final(session).compression_enabled == old(session).compression_enabled,
        final(session).address@ == old(session).address@,
{
    let len = frame.len();
    session.in_flight_bytes = session.in_flight_bytes.saturating_add(len);
    let msg = PendingMessage {
        seq,
        frame: vstd::slice::slice_to_vec(frame),
        size_bytes: len,
        last_sent_ns: now_ns,
        attempts: 1,
        reliability,
    };
    let ghost before = session.pending_messages@;
    proof {
        lemma_pv_pos_matches(before, seq);
    }
    match find_pending(&session.pending_messages, seq) {
        Some(i) => {
            session.pending_messages.set(i, msg);
        },
        None => {
            session.pending_messages.push(msg);
        },
    }
    proof {
        assert(pending_views(session.pending_messages@) =~= pending_inserted(
            pending_views(before),
            (seq, frame@, frame@.len() as usize, now_ns, 1u32, reliability),
        ));
    }
}

impl ClientSession {
    /// A fresh session: packet counter 1, other counters 0, retransmission timeout
    /// 300 ms, congestion window 16 KiB, slow-start threshold 64 KiB, nothing in flight,
    /// no compression, no login data, no channels, nothing pending.
    pub fn new(
        address: String,
        guid: u64,
        connected: bool,
        raknet_protocol: u8,
        bedrock_protocol: u16,
        bedrock_version: String,
    ) -> (r: Self)
        ensures
            r.address@ == address@,
            r.guid == guid,
            r.connected == connected,
            r.packet_seq == 1,
            r.reliable_seq == 0,
            r.sequenced_seq == 0,
            r.order_index == 0,
            r.raknet_protocol == raknet_protocol,
            r.bedrock_protocol == bedrock_protocol,
            r.bedrock_version@ == bedrock_version@,
            r.smoothed_rtt_ns is None,
            r.retransmit_timeout_ns == INITIAL_RTO_NS,
            r.congestion_window_bytes == 16 * 1024,
            r.slow_start_threshold_bytes == 64 * 1024,
            r.in_flight_bytes == 0,
            !r.compression_enabled,
            r.compression_algo is None,
            r.username is None,
            r.xuid is None,
            r.uuid is None,
            r.skin_path is None,
            r.ordered_channels@.len() == 0,
            r.pending_messages@.len() == 0,
    {
        ClientSession {
            address,
            guid,
            connected,
            packet_seq: 1,
            reliable_seq: 0,
            sequenced_seq: 0,
            order_index: 0,
            raknet_protocol,
            bedrock_protocol,
            bedrock_version,
            smoothed_rtt_ns: None,
            retransmit_timeout_ns: INITIAL_RTO_NS,
            congestion_window_bytes: 16 * 1024,
            slow_start_threshold_bytes: 64 * 1024,
            in_flight_bytes: 0,
            compression_enabled: false,
            compression_algo: None,
            username: None,
            xuid: None,
            uuid: None,
            skin_path: None,
            ordered_channels: Vec::new(),
            pending_messages: Vec::new(),
        }
    }
}


/// The buffered payloads at most 30 seconds old at `now`.
pub open spec fn young_payloads(buf: Seq<(u32, Seq<u8>, u64)>, now: u64) -> Seq<(u32, Seq<u8>, u64)>
    decreases buf.len(),
{
    if buf.len() == 0 {
        Seq::empty()
    } else {
        let rest = young_payloads(buf.drop_last(), now);
        let b = buf.last();
        if age(now, b.2) <= SESSION_QUEUE_TTL_NS {
            rest.push(b)
        } else {
            rest
        }
    }
}

/// How long ago `t` was at `now` (0 when `t` is later).
pub open spec fn age(now: u64, t: u64) -> u64 {
    if now >= t {
        (now - t) as u64
    } else {
        0
    }
}

/// An ordered channel as values: number, next index, buffer.
pub open spec fn channel_view(c: OrderedChannel) -> (u8, u32, Seq<(u32, Seq<u8>, u64)>) {
    (c.channel, c.next_index, buffer_view(c.buffer@))
}

/// The ordered channels after dropping payloads older than 30 seconds: channels left
/// empty are dropped.
pub open spec fn pruned_channels(chs: Seq<OrderedChannel>, now: u64) -> Seq<(u8, u32, Seq<(u32, Seq<u8>, u64)>)>
    decreases chs.len(),
{
    if chs.len() == 0 {
        Seq::empty()
    } else {
        let rest = pruned_channels(chs.drop_last(), now);
        let c = chs.last();
        let kept = young_payloads(buffer_view(c.buffer@), now);
        if kept.len() > 0 {
            rest.push((c.channel, c.next_index, kept))
        } else {
            rest
        }
    }
}

/// The pending messages sent at most 30 seconds ago.
pub open spec fn young_pending(ms: Seq<(u32, Seq<u8>, usize, u64, u32, u8)>, now: u64) -> Seq<
    (u32, Seq<u8>, usize, u64, u32, u8),
>
    decreases ms.len(),
{
    if ms.len() == 0 {
        Seq::empty()
    } else {
        let rest = young_pending(ms.drop_last(), now);
        let m = ms.last();
        if age(now, m.3) <= SESSION_QUEUE_TTL_NS {
            rest.push(m)
        } else {
            rest
        }
    }
}

fn prune_buffer(buf: Vec<BufferedPayload>, now_ns: u64) -> (r: Vec<BufferedPayload>)
    ensures
        buffer_view(r@) == young_payloads(buffer_view(buf@), now_ns),
{
    let ghost all = buffer_view(buf@);
    let mut src = buf;
    let mut kept: Vec<BufferedPayload> = Vec::new();
    let mut k: usize = 0;
    let n = src.len();
    while src.len() > 0
        invariant
            k <= n,
            n == all.len(),
            buffer_view(src@) == all.skip(k as int),
            src@.len() == n - k,
            buffer_view(kept@) == young_payloads(all.take(k as int), now_ns),
        decreases src@.len(),
    {
        proof {
            assert(all.take(k + 1).drop_last() =~= all.take(k as int));
            assert(buffer_view(src@)[0] == all[k as int]);
        }
        let ghost sv = buffer_view(src@);
        let b = src.remove(0);
        let a = if now_ns >= b.created_ns {
            now_ns - b.created_ns
        } else {
            0
        };
        let ghost kv = buffer_view(kept@);
        if a <= SESSION_QUEUE_TTL_NS {
            kept.push(b);
            proof {
                assert(buffer_view(kept@) =~= kv.push(buffered_view(b)));
            }
        }
        proof {
            assert(buffer_view(src@) =~= sv.drop_first());
            assert(sv.drop_first() =~= all.skip(k + 1));
        }
        k = k + 1;
    }
    proof {
        assert(all.take(k as int) =~= all);
    }
    kept
}

/// Drop what waited too long in a session: ordered payloads and pending reliable
/// messages older than 30 seconds, and ordered channels left empty.
pub fn prune_session_queues(session: &mut ClientSession, now_ns: u64)
    ensures
        *final(session) == (ClientSession {
            ordered_channels: final(session).ordered_channels,
            pending_messages: final(session).pending_messages,
            ..*old(session)
        }),
        final(session).ordered_channels@.map_values(|c: OrderedChannel| channel_view(c))
            == pruned_channels(old(session).ordered_channels@, now_ns),
        pending_views(final(session).pending_messages@) == young_pending(
            pending_views(old(session).pending_messages@),
            now_ns,
        ),
        final(session).address@ == old(session).address@,
        final(session).connected == old(session).connected,
        final(session).retransmit_timeout_ns == old(session).retransmit_timeout_ns,
        final(session).compression_enabled == old(session).compression_enabled,
        final(session).packet_seq == old(session).packet_seq,
        final(session).reliable_seq == old(session).reliable_seq,
        final(session).order_index == old(session).order_index,
        final(session).in_flight_bytes == old(session).in_flight_bytes,
        final(session).bedrock_protocol == old(session).bedrock_protocol,
        final(session).bedrock_version@ == old(session).bedrock_version@,
{
    let ghost chs = session.ordered_channels@;
    let mut channels: Vec<OrderedChannel> = Vec::new();
    let mut k: usize = 0;
    let n = session.ordered_channels.len();
    while session.ordered_channels.len() > 0
        invariant
            k <= n,
            n == chs.len(),
            session.ordered_channels@ == chs.skip(k as int),
            channels@.map_values(|c: OrderedChannel| channel_view(c)) == pruned_channels(
                chs.take(k as int),
                now_ns,
            ),
            *session == (ClientSession { ordered_channels: session.ordered_channels, ..*old(session) }),
        decreases session.ordered_channels@.len(),
    {
        proof {
            assert(chs.take(k + 1).drop_last() =~= chs.take(k as int));
            assert(session.ordered_channels@[0] == chs[k as int]);
        }
        let c = session.ordered_channels.remove(0);
        let channel = c.channel;
        let next_index = c.next_index;
        let buffer = prune_buffer(c.buffer, now_ns);
        let ghost cv = channels@.map_values(|c: OrderedChannel| channel_view(c));
        if buffer.len() > 0 {
            let nc = OrderedChannel { channel, next_index, buffer };
            channels.push(nc);
            proof {
                assert(channels@.map_values(|c: OrderedChannel| channel_view(c)) =~= cv.push(channel_view(nc)));
            }
        }
        proof {
            assert(session.ordered_channels@ =~= chs.skip(k + 1));
        }
        k = k + 1;
    }
    proof {
        assert(chs.take(k as int) =~= chs);
    }
    session.ordered_channels = channels;
    let ghost ms = pending_views(session.pending_messages@);
    let mut pending: Vec<PendingMessage> = Vec::new();
    let mut j: usize = 0;
    let m = session.pending_messages.len();
    while session.pending_messages.len() > 0
        invariant
            j <= m,
            m == ms.len(),
            pending_views(session.pending_messages@) == ms.skip(j as int),
            session.pending_messages@.len() == m - j,
            pending_views(pending@) == young_pending(ms.take(j as int), now_ns),
            *session == (ClientSession {
                ordered_channels: session.ordered_channels,
                pending_messages: session.pending_messages,
                ..*old(session)
            }),
            session.ordered_channels@.map_values(|c: OrderedChannel| channel_view(c))
                == pruned_channels(old(session).ordered_channels@, now_ns),
        decreases session.pending_messages@.len(),
    {
        proof {
            assert(ms.take(j + 1).drop_last() =~= ms.take(j as int));
            assert(pending_views(session.pending_messages@)[0] == ms[j as int]);
        }
        let ghost sv = pending_views(session.pending_messages@);
        let p = session.pending_messages.remove(0);
        let a = if now_ns >= p.last_sent_ns {
            now_ns - p.last_sent_ns
        } else {
            0
        };
        let ghost pv = pending_views(pending@);
        if a <= SESSION_QUEUE_TTL_NS {
            pending.push(p);
            proof {
                assert(pending_views(pending@) =~= pv.push(pending_view(p)));
            }
        }
        proof {
            assert(pending_views(session.pending_messages@) =~= sv.drop_first());
            assert(sv.drop_first() =~= ms.skip(j + 1));
        }
        j = j + 1;
    }
    proof {
        assert(ms.take(j as int) =~= ms);
    }
    session.pending_messages = pending;
}

} // verus!
