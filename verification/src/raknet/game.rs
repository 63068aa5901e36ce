//! Connected traffic: frame sets, split-packet reassembly, ordered delivery and the
//! dispatch of RakNet packets carried in frames.
use crate::bedrock::batch::{batch_packets, decompress_batch, parse_batch, spec_decompress};
use crate::raknet::bedrock_session::{session_compression, single_packet_step};
use crate::raknet::handshake::accept_bytes;
use crate::raknet::handshake::request_time;
use crate::raknet::protocol::{
    frames_view, is_frame_set_id, spec_frame_set_frames, FrameSpec, RakNetFrame, RakNetProtocol,
};
use crate::raknet::server::{
    is_fresh_but_channels, is_fresh_session, session_pos, split_wf, splits_kept, splits_of_others, splits_wf, Clock, Outgoing,
    PeerAddr, RakNetServer,
};
use crate::raknet::server::lemma_session_pos_bounds;
use crate::raknet::session::{
    buffer_ordered_payload, bytes_seq, channel_state, channels_after, channels_view, ordered_step,
    pending_views, pruned_channels, young_pending, ClientSession, OrderedChannel, SplitBuffer,
    MAX_SPLIT_PARTS,
};
use crate::util::buffer::{be64_at, le24, u64_be_bytes};
use crate::util::text::same_text;
use vstd::prelude::*;

verus! {

/// The first position of the split buffer of (`peer`, `sid`).
pub open spec fn split_pos(bufs: Seq<SplitBuffer>, peer: Seq<char>, sid: u16) -> Option<int>
    decreases bufs.len(),
{
    if bufs.len() == 0 {
        None
    } else if bufs[0].peer@ == peer && bufs[0].split_id == sid {
        Some(0)
    } else {
        match split_pos(bufs.drop_first(), peer, sid) {
            Some(i) => Some(i + 1),
            None => None,
        }
    }
}

proof fn lemma_split_pos_bounds(bufs: Seq<SplitBuffer>, peer: Seq<char>, sid: u16)
    ensures
        split_pos(bufs, peer, sid) matches Some(i) ==> 0 <= i < bufs.len() && bufs[i].peer@ == peer
            && bufs[i].split_id == sid,
        split_pos(bufs, peer, sid) is None ==> forall|k: int|
            0 <= k < bufs.len() ==> !(bufs[k].peer@ == peer && bufs[k].split_id == sid),
    decreases bufs.len(),
{
    if bufs.len() > 0 && !(bufs[0].peer@ == peer && bufs[0].split_id == sid) {
        lemma_split_pos_bounds(bufs.drop_first(), peer, sid);
        assert forall|k: int| 1 <= k < bufs.len() implies bufs[k] == bufs.drop_first()[k - 1] by {}
    }
}

proof fn lemma_split_pos_first(bufs: Seq<SplitBuffer>, peer: Seq<char>, sid: u16, k: int)
    requires
        0 <= k < bufs.len(),
        bufs[k].peer@ == peer && bufs[k].split_id == sid,
        forall|j: int| 0 <= j < k ==> !(bufs[j].peer@ == peer && bufs[j].split_id == sid),
    ensures
        split_pos(bufs, peer, sid) == Some(k),
    decreases bufs.len(),
{
    if k > 0 {
        assert forall|j: int| 0 <= j < k - 1 implies !(bufs.drop_first()[j].peer@ == peer
            && bufs.drop_first()[j].split_id == sid) by {
            assert(bufs.drop_first()[j] == bufs[j + 1]);
        }
        lemma_split_pos_first(bufs.drop_first(), peer, sid, k - 1);
    }
}

/// The fragments joined in order.
pub open spec fn joined(fs: Seq<Seq<u8>>) -> Seq<u8>
    decreases fs.len(),
{
    if fs.len() == 0 {
        Seq::empty()
    } else {
        joined(fs.drop_last()) + fs.last()
    }
}

/// The bytes of each fragment.
pub open spec fn fragment_bytes(b: SplitBuffer) -> Seq<Seq<u8>> {
    b.fragments@.map_values(|f: Vec<u8>| f@)
}

fn join_fragments(b: &SplitBuffer) -> (r: Vec<u8>)
    ensures
        r@ == joined(fragment_bytes(*b)),
{
    let mut out: Vec<u8> = Vec::new();
    let mut k: usize = 0;
    while k < b.fragments.len()
        invariant
            k <= b.fragments@.len(),
            out@ == joined(fragment_bytes(*b).take(k as int)),
        decreases b.fragments.len() - k,
    {
        proof {
            assert(fragment_bytes(*b).take(k + 1).drop_last() =~= fragment_bytes(*b).take(k as int));
        }
        out.extend_from_slice(b.fragments[k].as_slice());
        k = k + 1;
    }
    proof {
        assert(fragment_bytes(*b).take(k as int) =~= fragment_bytes(*b));
    }
    out
}

/// A split buffer as values.
#[verifier::ext_equal]
pub struct SplitView {
    pub peer: Seq<char>,
    pub split_id: u16,
    pub count: u32,
    pub received_count: u32,
    pub created_ns: u64,
    pub fragments: Seq<Seq<u8>>,
    pub received: Seq<bool>,
    pub reliability: u8,
    pub reliable_seq: Option<u32>,
    pub order_index: Option<u32>,
    pub order_channel: Option<u8>,
}

/// The values of a split buffer.
pub open spec fn split_view(b: SplitBuffer) -> SplitView {
    SplitView {
        peer: b.peer@,
        split_id: b.split_id,
        count: b.count,
        received_count: b.received_count,
        created_ns: b.created_ns,
        fragments: fragment_bytes(b),
        received: b.received@,
        reliability: b.reliability,
        reliable_seq: b.reliable_seq,
        order_index: b.order_index,
        order_channel: b.order_channel,
    }
}

/// The values of a list of split buffers.
pub open spec fn split_views(bs: Seq<SplitBuffer>) -> Seq<SplitView> {
    bs.map_values(|b: SplitBuffer| split_view(b))
}

/// The buffer the first fragment of a split packet opens: `count` empty parts, none
/// received, the packet's metadata from the frame.
pub open spec fn fresh_split(peer: Seq<char>, sid: u16, count: u32, f: FrameSpec, now: u64) -> SplitView {
    SplitView {
        peer,
        split_id: sid,
        count,
        received_count: 0,
        created_ns: now,
        fragments: Seq::new(count as nat, |i: int| Seq::<u8>::empty()),
        received: Seq::new(count as nat, |i: int| false),
        reliability: f.reliability,
        reliable_seq: f.reliable_seq,
        order_index: f.order_index,
        order_channel: f.order_channel,
    }
}

/// A buffer after part `idx` arrives: stored once, when it is in range.
pub open spec fn with_part(b: SplitView, idx: int, p: Seq<u8>) -> SplitView {
    if 0 <= idx < b.fragments.len() && idx < b.received.len() && !b.received[idx] {
        SplitView {
            fragments: b.fragments.update(idx, p),
            received: b.received.update(idx, true),
            received_count: (b.received_count + 1) as u32,
            ..b
        }
    } else {
        b
    }
}

/// The buffer of (`peer`, `sid`) after fragment `f` arrives at `now`: the existing buffer
/// or a fresh one, with the fragment's part stored.
pub open spec fn split_after(bufs: Seq<SplitBuffer>, peer: Seq<char>, sid: u16, f: FrameSpec, now: u64) -> SplitView {
    let count = match f.split_count {
        Some(c) => c,
        None => 0u32,
    };
    let base = match split_pos(bufs, peer, sid) {
        Some(j) => split_view(bufs[j]),
        None => fresh_split(peer, sid, count, f, now),
    };
    with_part(
        base,
        match f.split_index {
            Some(i) => i as int,
            None => 0,
        },
        f.payload,
    )
}

/// The packet a fragment from `peer` completes, with its ordering index and channel:
/// none for a fragment without a split id, with a part count of 0 or above 512, or
/// that leaves parts missing.
pub open spec fn split_delivery(bufs: Seq<SplitBuffer>, peer: Seq<char>, f: FrameSpec, now: u64) -> Option<
    (Seq<u8>, Option<u32>, Option<u8>),
> {
    match f.split_id {
        None => None,
        Some(sid) => {
            let count = match f.split_count {
                Some(c) => c,
                None => 0u32,
            };
            if count == 0 || count > MAX_SPLIT_PARTS {
                None
            } else {
                let nb = split_after(bufs, peer, sid, f, now);
                if nb.received_count == nb.count {
                    Some((joined(nb.fragments), nb.order_index, nb.order_channel))
                } else {
                    None
                }
            }
        },
    }
}

/// The ordered channels of the session of `key` (none for a peer without a session).
pub open spec fn session_channels(conns: Seq<ClientSession>, key: Seq<char>) -> Seq<OrderedChannel> {
    match session_pos(conns, key) {
        Some(j) => conns[j].ordered_channels@,
        None => Seq::empty(),
    }
}

/// What a payload delivers on a session with these channels: itself when unordered,
/// otherwise the run its channel releases (`ordered_step`; channel 0 when none is given).
pub open spec fn delivered(
    chs: Seq<OrderedChannel>,
    p: Seq<u8>,
    oi: Option<u32>,
    oc: Option<u8>,
    now: u64,
) -> Seq<Seq<u8>> {
    match oi {
        None => seq![p],
        Some(idx) => {
            let ch = match oc {
                Some(c) => c,
                None => 0u8,
            };
            let (next, buf) = channel_state(chs, ch);
            ordered_step(next, buf, idx, p, now).0
        },
    }
}

impl RakNetServer {
    fn find_split(&self, peer: &str, sid: u16) -> (r: Option<usize>)
        ensures
            match split_pos(self.split_buffers@, peer@, sid) {
                Some(i) => r matches Some(x) && x as int == i && 0 <= i < self.split_buffers@.len(),
                None => r is None,
            },
    {
        let mut k: usize = 0;
        while k < self.split_buffers.len()
            invariant
                k <= self.split_buffers@.len(),
                forall|j: int|
                    0 <= j < k ==> !(self.split_buffers@[j].peer@ == peer@
                        && self.split_buffers@[j].split_id == sid),
            decreases self.split_buffers.len() - k,
        {
            if self.split_buffers[k].split_id == sid && same_text(
                self.split_buffers[k].peer.as_str(),
                peer,
            ) {
                proof {
                    lemma_split_pos_first(self.split_buffers@, peer@, sid, k as int);
                }
                return Some(k);
            }
            k = k + 1;
        }
        proof {
            lemma_split_pos_bounds(self.split_buffers@, peer@, sid);
        }
        None
    }

    /// A fragment of a split packet from `peer` arriving at `now_ns`.  Fragments without a
    /// split id, with a count of 0 or above 512 are dropped.  The first fragment of a
    /// split id opens a buffer with one slot per part and the packet's metadata; each
    /// part is stored once; when the last part arrives the parts are joined in order, the
    /// buffer is dropped, and the packet comes back with its ordering index and channel.
    pub fn accept_fragment(&mut self, peer: &PeerAddr, frame: &RakNetFrame, now_ns: u64) -> (r: Option<
        (Vec<u8>, Option<u32>, Option<u8>),
    >)
        requires
            old(self).wf(),
        ensures
            final(self).wf(),
            final(self).connections@ == old(self).connections@,
            final(self).config == old(self).config,
            final(self).runtime_protocol_version == old(self).runtime_protocol_version,
            final(self).runtime_version@ == old(self).runtime_version@,
            final(self).version_fallback == old(self).version_fallback,
            match frame.split_id {
                None => r is None && final(self).split_buffers@ == old(self).split_buffers@,
                Some(sid) => {
                    let count = match frame.split_count {
                        Some(c) => c,
                        None => 0u32,
                    };
                    if count == 0 || count > MAX_SPLIT_PARTS {
                        r is None && final(self).split_buffers@ == old(self).split_buffers@
                    } else {
                        let nb = split_after(old(self).split_buffers@, peer.text@, sid, frame@, now_ns);
                        let pos = split_pos(old(self).split_buffers@, peer.text@, sid);
                        if nb.received_count == nb.count {
                            &&& r matches Some((p, oi, oc)) && p@ == joined(nb.fragments) && oi
                                == nb.order_index && oc == nb.order_channel
                            &&& final(self).split_buffers@ == match pos {
                                Some(j) => old(self).split_buffers@.remove(j),
                                None => old(self).split_buffers@,
                            }
                        } else {
                            &&& r is None
                            &&& split_views(final(self).split_buffers@) == match pos {
                                Some(j) => split_views(old(self).split_buffers@).update(j, nb),
                                None => split_views(old(self).split_buffers@).push(nb),
                            }
                        }
                    }
                },
            },
    {
        let sid = match frame.split_id {
            Some(s) => s,
            None => {
                return None;
            },
        };
        let count = match frame.split_count {
            Some(c) => c,
            None => 0,
        };
        if count == 0 || count > MAX_SPLIT_PARTS {
            return None;
        }
        let idx_u32 = match frame.split_index {
            Some(i) => i,
            None => 0,
        };
        let idx = idx_u32 as usize;
        let ghost bufs0 = self.split_buffers@;
        let ghost nb = split_after(bufs0, peer.text@, sid, frame@, now_ns);
        let found = self.find_split(peer.text.as_str(), sid);
        proof {
            lemma_split_pos_bounds(bufs0, peer.text@, sid);
        }
        let mut buf = match found {
            Some(j) => self.split_buffers.remove(j),
            None => {
                let mut fragments: Vec<Vec<u8>> = Vec::new();
                let mut received: Vec<bool> = Vec::new();
                let mut k: u32 = 0;
                while k < count
                    invariant
                        k <= count,
                        fragments@.len() == k,
                        received@.len() == k,
                        fragments@.map_values(|f: Vec<u8>| f@) =~= Seq::new(
                            k as nat,
                            |i: int| Seq::<u8>::empty(),
                        ),
                        received@ =~= Seq::new(k as nat, |i: int| false),
                    decreases count - k,
                {
                    let ghost before = fragments@;
                    let empty: Vec<u8> = Vec::new();
                    assert(empty@ =~= Seq::<u8>::empty());
                    fragments.push(empty);
                    received.push(false);
                    proof {
                        assert(fragments@.map_values(|f: Vec<u8>| f@) =~= before.map_values(
                            |f: Vec<u8>| f@,
                        ).push(Seq::<u8>::empty()));
                    }
                    k = k + 1;
                }
                SplitBuffer {
                    peer: peer.text.clone(),
                    split_id: sid,
                    count,
                    received_count: 0,
                    created_ns: now_ns,
                    fragments,
                    received,
                    reliability: frame.reliability,
                    reliable_seq: frame.reliable_seq,
                    order_index: frame.order_index,
                    order_channel: frame.order_channel,
                }
            },
        };
        let ghost removed = self.split_buffers@;
        let ghost base = split_view(buf);
        proof {
            match found {
                Some(j) => {
                    assert(base == split_view(bufs0[j as int]));
                },
                None => {
                    assert(base == fresh_split(peer.text@, sid, count, frame@, now_ns));
                },
            }
        }
        assert(split_wf(buf));
        let mut complete = false;
        if idx < buf.fragments.len() && !buf.received[idx] {
            buf.fragments.set(idx, vstd::slice::slice_to_vec(frame.payload.as_slice()));
            buf.received.set(idx, true);
            buf.received_count = buf.received_count + 1;
            complete = buf.received_count == buf.count;
        }
        proof {
            assert(split_view(buf) =~= nb);
        }
        if complete {
            let full = join_fragments(&buf);
            let oi = buf.order_index;
            let oc = buf.order_channel;
            proof {
                if let Some(j) = found {
                    assert(self.split_buffers@ == bufs0.remove(j as int));
                } else {
                    assert(self.split_buffers@ == bufs0);
                }
            }
            return Some((full, oi, oc));
        }
        match found {
            Some(j) => {
                self.split_buffers.insert(j, buf);
                proof {
                    assert(split_views(self.split_buffers@) =~= split_views(bufs0).update(j as int, nb));
                }
            },
            None => {
                self.split_buffers.push(buf);
                proof {
                    assert(split_views(self.split_buffers@) =~= split_views(bufs0).push(nb));
                }
            },
        }
        proof {
            assert forall|k: int| 0 <= k < self.split_buffers@.len() implies split_wf(#[trigger] self.split_buffers@[k]) by {
                match found {
                    Some(j) => {
                        if k < j {
                            assert(self.split_buffers@[k] == bufs0[k]);
                        } else if k > j {
                            assert(self.split_buffers@[k] == bufs0[k]);
                        }
                    },
                    None => {
                        if k < bufs0.len() {
                            assert(self.split_buffers@[k] == bufs0[k]);
                        }
                    },
                }
            }
        }
        None
    }
}


/// A plausible first packet for a batch read at a shifted start: non-empty, and a LOGIN
/// (0x01) of at least 16 bytes or a RequestNetworkSettings (0xC1) of at least 5.
pub open spec fn first_packet_plausible(p: Seq<u8>) -> bool {
    p.len() > 0 && if p[0] == 0x01 {
        p.len() >= 16
    } else if p[0] == 0xC1 {
        p.len() >= 5
    } else {
        true
    }
}

/// Reading a batch that yields no packet at shifted starts `s`, `s + 1`, ... up to 3:
/// the first shift that yields packets starting with a plausible one.
pub open spec fn shifted_packets(d: Seq<u8>, s: int) -> Seq<Seq<u8>>
    decreases 4 - s,
{
    if s < 1 || s > 3 || d.len() <= s {
        Seq::empty()
    } else {
        let ps = batch_packets(d.skip(s), 0);
        if ps.len() > 0 && first_packet_plausible(ps[0]) {
            ps
        } else {
            shifted_packets(d, s + 1)
        }
    }
}

/// The Bedrock packets of a decompressed batch body: its packets, or when it yields
/// none, those found at a start shifted by one to three bytes.
pub open spec fn recovered_packets(d: Seq<u8>) -> Seq<Seq<u8>> {
    let ps = batch_packets(d, 0);
    if ps.len() > 0 {
        ps
    } else {
        shifted_packets(d, 1)
    }
}

/// The Bedrock packets a RakNet packet carries for a peer with or without negotiated
/// compression: a batch (0xFE) is decompressed after its id; a packet starting with 0x00
/// that is not a 9-byte connected ping is read whole as a compressed batch when
/// compression is on.
pub open spec fn carried_packets(data: Seq<u8>, compression: bool) -> Seq<Seq<u8>> {
    if data.len() == 0 {
        Seq::empty()
    } else if data[0] == 0xFE {
        if data.len() <= 1 {
            Seq::empty()
        } else {
            match spec_decompress(data.skip(1), compression) {
                Some(d) => recovered_packets(d),
                None => Seq::empty(),
            }
        }
    } else if data[0] == 0x00 && data.len() != 9 && compression {
        match spec_decompress(data, true) {
            Some(d) => batch_packets(d, 0),
            None => Seq::empty(),
        }
    } else {
        Seq::empty()
    }
}

/// Connected Pong: id 0x03, the client's time and the server guid (big-endian).
pub open spec fn connected_pong_bytes(time: u64, guid: u64) -> Seq<u8> {
    seq![0x03u8] + u64_be_bytes(time) + u64_be_bytes(guid)
}

/// The ACK for a frame set: one range holding just its sequence number.
pub open spec fn ack_bytes(seq: u32) -> Seq<u8> {
    seq![0xC0u8, 0x00u8, 0x01u8, 0x01u8] + crate::util::buffer::u24_le_bytes(seq)
        + crate::util::buffer::u24_le_bytes(seq)
}

fn shifted_recovery(d: &Vec<u8>) -> (r: Vec<Vec<u8>>)
    ensures
        r@.map_values(|p: Vec<u8>| p@) == shifted_packets(d@, 1),
{
    let mut shift: usize = 1;
    while shift <= 3
        invariant
            1 <= shift <= 4,
            shifted_packets(d@, 1) == shifted_packets(d@, shift as int),
        decreases 4 - shift,
    {
        if d.len() <= shift {
            return Vec::new();
        }
        let sub = vstd::slice::slice_subrange(d.as_slice(), shift, d.len());
        proof {
            assert(sub@ =~= d@.skip(shift as int));
        }
        let packets = match parse_batch(sub) {
            Ok(p) => p,
            Err(_) => Vec::new(),
        };
        let ghost pv = packets@.map_values(|p: Vec<u8>| p@);
        proof {
            assert(pv == crate::bedrock::batch::bytes_list(packets@));
        }
        if packets.len() > 0 {
            let first_ok = if packets[0].len() == 0 {
                false
            } else if packets[0][0] == 0x01 {
                packets[0].len() >= 16
            } else if packets[0][0] == 0xC1 {
                packets[0].len() >= 5
            } else {
                true
            };
            proof {
                assert(pv[0] == packets@[0]@);
            }
            if first_ok {
                return packets;
            }
        }
        shift = shift + 1;
    }
    Vec::new()
}

impl RakNetServer {
    /// Whether the peer's session negotiated compression (no session: no).
    pub fn compression_for(&self, key: &str) -> (r: bool)
        ensures
            r == match session_pos(self.connections@, key@) {
                Some(i) => self.connections@[i].compression_enabled,
                None => false,
            },
    {
        match self.find_session(key) {
            Some(i) => self.connections[i].compression_enabled,
            None => false,
        }
    }

    /// The Bedrock packets a RakNet packet from `from` carries (see `carried_packets`).
    pub fn bedrock_packets_in(&self, data: &[u8], from: &PeerAddr) -> (r: Vec<Vec<u8>>)
        ensures
            r@.map_values(|p: Vec<u8>| p@) == carried_packets(
                data@,
                match session_pos(self.connections@, from.text@) {
                    Some(i) => self.connections@[i].compression_enabled,
                    None => false,
                },
            ),
    {
        let compression = self.compression_for(from.text.as_str());
        if data.len() == 0 {
            return Vec::new();
        }
        if data[0] == 0xFE {
            if data.len() <= 1 {
                return Vec::new();
            }
            let body = vstd::slice::slice_subrange(data, 1, data.len());
            proof {
                assert(body@ =~= data@.skip(1));
            }
            let d = match decompress_batch(body, compression) {
                Ok(d) => d,
                Err(_) => {
                    return Vec::new();
                },
            };
            let packets = match parse_batch(d.as_slice()) {
                Ok(p) => p,
                Err(_) => Vec::new(),
            };
            proof {
                assert(packets@.map_values(|p: Vec<u8>| p@) == crate::bedrock::batch::bytes_list(packets@));
            }
            if packets.len() > 0 {
                return packets;
            }
            return shifted_recovery(&d);
        }
        if data[0] == 0x00 && data.len() != 9 && compression {
            let d = match decompress_batch(data, true) {
                Ok(d) => d,
                Err(_) => {
                    return Vec::new();
                },
            };
            let packets = match parse_batch(d.as_slice()) {
                Ok(p) => p,
                Err(_) => Vec::new(),
            };
            proof {
                assert(packets@.map_values(|p: Vec<u8>| p@) == crate::bedrock::batch::bytes_list(packets@));
            }
            return packets;
        }
        Vec::new()
    }
}


impl RakNetServer {
    /// Mark the session of peer `key` connected, when it has one.
    fn mark_connected(&mut self, key: &str, connected: bool)
        requires
            old(self).wf(),
        ensures
            final(self).wf(),
            final(self).connections@.len() == old(self).connections@.len(),
            match session_pos(old(self).connections@, key@) {
                Some(i) => final(self).connections@[i] == (ClientSession {
                    connected: connected,
                    ..old(self).connections@[i]
                }) && forall|k: int|
                    0 <= k < old(self).connections@.len() && k != i ==> final(self).connections@[k]
                        == old(self).connections@[k],
                None => final(self).connections@ == old(self).connections@,
            },
            forall|k: Seq<char>| #[trigger] session_pos(final(self).connections@, k) == session_pos(old(self).connections@, k),
            final(self).split_buffers@ == old(self).split_buffers@,
            final(self).config == old(self).config,
            final(self).runtime_protocol_version == old(self).runtime_protocol_version,
            final(self).runtime_version@ == old(self).runtime_version@,
            final(self).version_fallback == old(self).version_fallback,
    {
        if let Some(i) = self.find_session(key) {
            let ghost conns = self.connections@;
            let mut s = self.take_session(i);
            s.connected = connected;
            self.put_session(i, s, Ghost(conns));
        }
    }

    /// The payloads a frame from `peer` delivers, in order: a split part delivers its
    /// packet once complete; ordered payloads go through their channel
    /// (`buffer_ordered_payload`), others are delivered at once.  The peer's session is
    /// made (connected) when it has none.
    pub fn frame_payloads(&mut self, peer: &PeerAddr, frame: RakNetFrame, now_ns: u64) -> (r: Vec<Vec<u8>>)
        requires
            old(self).wf(),
        ensures
            final(self).wf(),
            frame_step(*old(self), *final(self), peer.text@, frame@, now_ns, bytes_seq(r@)),
    {
        let ghost chs = session_channels(self.connections@, peer.text@);
        let ghost bufs0 = self.split_buffers@;
        let ghost c0 = self.connections@;
        let ghost fv = frame@;
        let i = self.ensure_session(peer, true, 0);
        let ghost c1 = self.connections@;
        proof {
            assert(self.connections@[i as int].ordered_channels@ == chs);
            lemma_session_pos_bounds(c0, peer.text@);
        }
        let mut emit: Vec<Vec<u8>> = Vec::new();
        proof {
            assert(bytes_seq(emit@) =~= Seq::<Seq<u8>>::empty());
        }
        let is_split = frame.is_split;
        if is_split {
            let got = self.accept_fragment(peer, &frame, now_ns);
            proof {
                assert(split_views(self.split_buffers@) == splits_after(bufs0, peer.text@, fv, now_ns));
            }
            match got {
                Some((payload, oi, oc)) => {
                    let ghost conns = self.connections@;
                    let mut s = self.take_session(i);
                    buffer_ordered_payload(&mut s, payload, oi, oc, now_ns, &mut emit);
                    self.put_session(i, s, Ghost(conns));
                    proof {
                        assert(Seq::<Seq<u8>>::empty() + delivered(chs, payload@, oi, oc, now_ns)
                            =~= delivered(chs, payload@, oi, oc, now_ns));
                    }
                },
                None => {},
            }
        } else {
            let ghost conns = self.connections@;
            let mut s = self.take_session(i);
            buffer_ordered_payload(&mut s, frame.payload, frame.order_index, frame.order_channel, now_ns, &mut emit);
            self.put_session(i, s, Ghost(conns));
            proof {
                assert(Seq::<Seq<u8>>::empty() + delivered(
                    chs,
                    fv.payload,
                    fv.order_index,
                    fv.order_channel,
                    now_ns,
                ) =~= delivered(chs, fv.payload, fv.order_index, fv.order_channel, now_ns));
            }
        }
        proof {
            let a = self.connections@;
            assert(session_pos(a, peer.text@) == session_pos(c1, peer.text@));
            if session_pos(c0, peer.text@) is None {
                assert(a.take(c0.len() as int) =~= c1.take(c0.len() as int));
            }
        }
        emit
    }

    /// Dispatch a RakNet packet carried in a frame from `from`:
    /// a connection request (0x09) marks the session connected and is answered with a
    /// reliable ordered Connection Request Accepted; New Incoming Connection (0x13) marks
    /// the session connected; a disconnection notification (0x15) drops the peer's state;
    /// a 9-byte connected ping (0x00) is answered with a pong; batches go to
    /// `process_single_bedrock_packet`, one Bedrock packet at a time (see
    /// `bedrock_packets_in`).  Other packets change nothing.
    pub fn dispatch_raknet_packet(&mut self, data: &[u8], from: &PeerAddr, now: &Clock) -> (r: Vec<Outgoing>)
        requires
            old(self).wf(),
        ensures
            final(self).wf(),
            dispatch_step(*old(self), *final(self), data@, *from, *now, r@),
    {
        let mut out: Vec<Outgoing> = Vec::new();
        if data.len() == 0 {
            return out;
        }
        let id = data[0];
        if id == 0x09 {
            let ghost c0 = self.connections@;
            self.ensure_session(from, true, 0);
            let ghost c1 = self.connections@;
            self.mark_connected(from.text.as_str(), true);
            proof {
                assert(self.connections@ =~= marked_connected(c1, from.text@));
                if session_pos(c0, from.text@) is None {
                    let n = c0.len() as int;
                    assert(session_pos(c1, from.text@) == Some(n));
                    assert(self.connections@.take(n) =~= c1.take(n));
                }
            }
            let response = Self::connection_accepted_payload(data, from, now);
            out.push(Outgoing::Frame(response, 3));
            return out;
        }
        if id == 0x13 {
            let ghost c0 = self.connections@;
            let key = from.text.as_str();
            assert(key@ == from.text@);
            self.mark_connected(key, true);
            proof {
                crate::raknet::server::lemma_session_pos_bounds(c0, from.text@);
                match session_pos(c0, from.text@) {
                    Some(i) => {
                        assert forall|k: int| 0 <= k < c0.len() implies #[trigger] self.connections@[k]
                            == marked_connected(c0, from.text@)[k] by {
                            if k != i {
                                assert(self.connections@[k] == c0[k]);
                            }
                        }
                        assert(self.connections@ =~= marked_connected(c0, from.text@));
                    },
                    None => {},
                }
            }
            return out;
        }
        if id == 0x15 {
            self.drop_connection_state(from.text.as_str());
            return out;
        }
        if id == 0x00 && data.len() == 9 {
            let mut response: Vec<u8> = Vec::new();
            response.push(0x03);
            let time = read_be64_at(data, 1);
            crate::raknet::handshake::push_u64_be(&mut response, time);
            crate::raknet::handshake::push_u64_be(&mut response, self.config.server_guid);
            proof {
                assert(response@ =~= connected_pong_bytes(be64_at(data@, 1), self.config.server_guid));
            }
            out.push(Outgoing::Frame(response, 0));
            return out;
        }
        if id == 0x00 || id == 0xFE {
            let packets = self.bedrock_packets_in(data, from);
            let ghost ps = packets@.map_values(|p: Vec<u8>| p@);
            let ghost mut states: Seq<RakNetServer> = seq![*self];
            let ghost mut outs: Seq<Seq<Outgoing>> = Seq::empty();
            proof {
                assert(out@ =~= outputs_joined(outs));
            }
            let mut k: usize = 0;
            while k < packets.len()
                invariant
                    k <= packets@.len(),
                    ps == packets@.map_values(|p: Vec<u8>| p@),
                    self.wf(),
                    self.config == old(self).config,
                    self.version_fallback == old(self).version_fallback,
                    states.len() == k + 1,
                    states[0] == *old(self),
                    states.last() == *self,
                    packets_taken_in(states, outs, ps.take(k as int), from.text@),
                    out@ == outputs_joined(outs),
                decreases packets.len() - k,
            {
                let ghost pre = *self;
                let mut more = self.process_single_bedrock_packet(packets[k].as_slice(), from);
                let ghost mv = more@;
                let ghost before = out@;
                out.append(&mut more);
                proof {
                    let s2 = states.push(*self);
                    let o2 = outs.push(mv);
                    assert(ps.take(k + 1)[k as int] == packets@[k as int]@);
                    assert forall|j: int| 0 <= j < k + 1 implies #[trigger] single_packet_step(
                        s2[j],
                        s2[j + 1],
                        ps.take(k + 1)[j],
                        from.text@,
                        o2[j],
                    ) by {
                        if j < k {
                            assert(ps.take(k + 1)[j] == ps.take(k as int)[j]);
                            assert(single_packet_step(
                                states[j],
                                states[j + 1],
                                ps.take(k as int)[j],
                                from.text@,
                                outs[j],
                            ));
                        }
                    }
                    assert(o2.drop_last() =~= outs);
                    assert(out@ =~= outputs_joined(o2));
                    states = s2;
                    outs = o2;
                }
                k = k + 1;
            }
            proof {
                assert(ps.take(k as int) =~= ps);
                assert(ps == carried_packets(data@, session_compression(*old(self), from.text@)));
                assert(packets_taken_in(
                    states,
                    outs,
                    carried_packets(data@, session_compression(*old(self), from.text@)),
                    from.text@,
                ));
                assert(states[0] == *old(self) && states.last() == *self && out@ == outputs_joined(outs));
            }
        }
        out
    }

    /// Handle a frame set (0x80 - 0x8D) from `from`.  A peer without a session is ignored.
    /// Otherwise its expired split buffers and queued payloads are dropped; a frame set that
    /// parses marks the session connected, each frame delivers its payloads
    /// (`frame_payloads`), each payload is dispatched (`dispatch_raknet_packet`), and the
    /// frame set's sequence number is acknowledged last.
    pub fn handle_game_packet(&mut self, data: &[u8], from: &PeerAddr, now: &Clock) -> (r: Vec<Outgoing>)
        requires
            old(self).wf(),
        ensures
            final(self).wf(),
            session_pos(old(self).connections@, from.text@) is None ==> r@.len() == 0
                && final(self).connections@ == old(self).connections@
                && final(self).split_buffers@ == old(self).split_buffers@,
            session_pos(old(self).connections@, from.text@) is Some ==> game_handled(
                *old(self),
                *final(self),
                data@,
                *from,
                *now,
                r@,
            ),
            session_pos(old(self).connections@, from.text@) is Some && data@.len() >= 4
                && crate::raknet::protocol::is_frame_set_id(data@[0]) ==> r@.len() >= 1 && (r@.last() matches Outgoing::Datagram(a)
                && a@ == ack_bytes(crate::util::buffer::le24(data@[1], data@[2], data@[3]))),
            final(self).config == old(self).config,
            final(self).version_fallback == old(self).version_fallback,
    {
        let mut out: Vec<Outgoing> = Vec::new();
        let i = match self.find_session(from.text.as_str()) {
            Some(i) => i,
            None => {
                return out;
            },
        };
        proof {
            lemma_session_pos_bounds(self.connections@, from.text@);
        }
        self.prune_split_buffers_for_peer(from.text.as_str(), now.mono_ns);
        let ghost conns = self.connections@;
        let mut s = self.take_session(i);
        crate::raknet::session::prune_session_queues(&mut s, now.mono_ns);
        self.put_session(i, s, Ghost(conns));
        let ghost pruned = *self;
        proof {
            assert(conns == old(self).connections@);
            assert forall|k: int| 0 <= k < conns.len() && k != i implies #[trigger] pruned.connections@[k]
                == conns[k] by {}
            assert(pruned_for(*old(self), pruned, from.text@, now.mono_ns));
        }
        if data.len() < 4 {
            return out;
        }
        let frameset = match RakNetProtocol::parse_frame_set(data) {
            Ok(f) => f,
            Err(_) => {
                return out;
            },
        };
        let seq = frameset.seq;
        let ghost fs = frames_view(frameset.frames@);
        self.ensure_session(from, true, 0);
        let ghost c1 = self.connections@;
        let key = from.text.as_str();
        assert(key@ == from.text@);
        self.mark_connected(key, true);
        let ghost start = *self;
        proof {
            assert(c1 == pruned.connections@);
            lemma_session_pos_bounds(c1, from.text@);
            assert(session_pos(c1, from.text@) == Some(i as int));
            assert forall|k: int| 0 <= k < c1.len() implies #[trigger] start.connections@[k]
                == marked_connected(c1, from.text@)[k] by {}
            assert(start.connections@ =~= marked_connected(c1, from.text@));
        }
        let mut frames = frameset.frames;
        let ghost mut states: Seq<RakNetServer> = seq![*self];
        let ghost mut outs: Seq<Seq<Outgoing>> = Seq::empty();
        let ghost mut kk: int = 0;
        proof {
            assert(out@ =~= outputs_joined(outs));
            assert(fs.skip(0) =~= fs);
        }
        let nf = frames.len();
        while frames.len() > 0
            invariant
                self.wf(),
                self.config == old(self).config,
                self.version_fallback == old(self).version_fallback,
                fs.len() == nf,
                0 <= kk <= fs.len(),
                kk + frames@.len() == fs.len(),
                frames_view(frames@) == fs.skip(kk),
                states.len() == kk + 1,
                states[0] == start,
                states.last() == *self,
                frames_trace(states, outs, fs.take(kk), *from, *now),
                out@ == outputs_joined(outs),
            decreases frames@.len(),
        {
            let ghost pre = *self;
            let ghost fr0 = frames@;
            let frame = frames.remove(0);
            proof {
                assert(frame@ == frames_view(fr0)[0]);
                assert(frame@ == fs[kk]);
                assert(frames_view(frames@) =~= fs.skip(kk + 1)) by {
                    assert forall|j: int| 0 <= j < frames@.len() implies frames_view(frames@)[j]
                        == #[trigger] fs.skip(kk + 1)[j] by {
                        assert(frames@[j] == fr0[j + 1]);
                        assert(frames_view(fr0)[j + 1] == fs.skip(kk)[j + 1]);
                    }
                }
            }
            let ghost fv = frame@;
            let payloads = self.frame_payloads(from, frame, now.mono_ns);
            let ghost mid = *self;
            let ghost ps = bytes_seq(payloads@);
            let mut fout: Vec<Outgoing> = Vec::new();
            let ghost mut dstates: Seq<RakNetServer> = seq![*self];
            let ghost mut douts: Seq<Seq<Outgoing>> = Seq::empty();
            proof {
                assert(fout@ =~= outputs_joined(douts));
            }
            let mut k: usize = 0;
            while k < payloads.len()
                invariant
                    k <= payloads@.len(),
                    ps == bytes_seq(payloads@),
                    self.wf(),
                    self.config == old(self).config,
                    self.version_fallback == old(self).version_fallback,
                    dstates.len() == k + 1,
                    dstates[0] == mid,
                    dstates.last() == *self,
                    dispatch_trace(dstates, douts, ps.take(k as int), *from, *now),
                    fout@ == outputs_joined(douts),
                decreases payloads.len() - k,
            {
                let mut more = self.dispatch_raknet_packet(payloads[k].as_slice(), from, now);
                let ghost mv = more@;
                fout.append(&mut more);
                proof {
                    let s2 = dstates.push(*self);
                    let o2 = douts.push(mv);
                    assert(ps.take(k + 1)[k as int] == payloads@[k as int]@);
                    assert forall|j: int| 0 <= j < k + 1 implies #[trigger] dispatch_step(
                        s2[j],
                        s2[j + 1],
                        ps.take(k + 1)[j],
                        *from,
                        *now,
                        o2[j],
                    ) by {
                        if j < k {
                            assert(ps.take(k + 1)[j] == ps.take(k as int)[j]);
                            assert(dispatch_step(
                                dstates[j],
                                dstates[j + 1],
                                ps.take(k as int)[j],
                                *from,
                                *now,
                                douts[j],
                            ));
                        }
                    }
                    assert(o2.drop_last() =~= douts);
                    assert(fout@ =~= outputs_joined(o2));
                    dstates = s2;
                    douts = o2;
                }
                k = k + 1;
            }
            proof {
                assert(ps.take(k as int) =~= ps);
                assert(dispatch_trace(dstates, douts, ps, *from, *now));
                assert(payloads_dispatched(mid, *self, ps, *from, *now, fout@));
                assert(frame_step(pre, mid, from.text@, fv, now.mono_ns, ps));
                assert(frame_handled(pre, *self, *from, fv, *now, fout@));
            }
            let ghost fo = fout@;
            let ghost before_out = out@;
            out.append(&mut fout);
            proof {
                let s2 = states.push(*self);
                let o2 = outs.push(fo);
                assert(fs.take(kk + 1)[kk] == fv);
                assert forall|j: int| 0 <= j < kk + 1 implies #[trigger] frame_handled(
                    s2[j],
                    s2[j + 1],
                    *from,
                    fs.take(kk + 1)[j],
                    *now,
                    o2[j],
                ) by {
                    if j < kk {
                        assert(fs.take(kk + 1)[j] == fs.take(kk)[j]);
                        assert(frame_handled(states[j], states[j + 1], *from, fs.take(kk)[j], *now, outs[j]));
                    }
                }
                assert(o2.drop_last() =~= outs);
                assert(out@ =~= outputs_joined(o2));
                states = s2;
                outs = o2;
                kk = kk + 1;
            }
        }
        proof {
            assert(fs.take(kk) =~= fs);
            assert(fs == spec_frame_set_frames(data@));
            assert(frames_trace(states, outs, spec_frame_set_frames(data@), *from, *now));
        }
        let mut ack: Vec<u8> = Vec::new();
        ack.push(0xC0);
        ack.push(0x00);
        ack.push(0x01);
        ack.push(0x01);
        crate::raknet::frames::write_u24_le(&mut ack, seq);
        crate::raknet::frames::write_u24_le(&mut ack, seq);
        proof {
            assert(ack@ =~= ack_bytes(seq));
        }
        let ghost before_ack = out@;
        out.push(Outgoing::Datagram(ack));
        proof {
            assert(out@.take(out@.len() - 1) =~= before_ack);
            assert(states[0].connections@ == marked_connected(pruned.connections@, from.text@));
        }
        out
    }
}

fn read_be64_at(data: &[u8], i: usize) -> (r: u64)
    requires
        i + 8 <= data@.len(),
    ensures
        r == be64_at(data@, i as int),
{
    ((data[i] as u64) << 56u64) | ((data[i + 1] as u64) << 48u64) | ((data[i + 2] as u64)
        << 40u64) | ((data[i + 3] as u64) << 32u64) | ((data[i + 4] as u64) << 24u64) | ((data[i
        + 5] as u64) << 16u64) | ((data[i + 6] as u64) << 8u64) | (data[i + 7] as u64)
}


/// The outputs of several steps, one after the other.
pub open spec fn outputs_joined(outs: Seq<Seq<Outgoing>>) -> Seq<Outgoing>
    decreases outs.len(),
{
    if outs.len() == 0 {
        Seq::empty()
    } else {
        outputs_joined(outs.drop_last()) + outs.last()
    }
}

/// `states` and `outs` trace the Bedrock packets of peer `from` taken in one after the
/// other (`single_packet_step`), from `states[0]` on.
pub open spec fn packets_taken_in(
    states: Seq<RakNetServer>,
    outs: Seq<Seq<Outgoing>>,
    packets: Seq<Seq<u8>>,
    from: Seq<char>,
) -> bool {
    &&& states.len() == packets.len() + 1
    &&& outs.len() == packets.len()
    &&& forall|k: int|
        0 <= k < packets.len() ==> #[trigger] single_packet_step(
            states[k],
            states[k + 1],
            packets[k],
            from,
            outs[k],
        )
}

/// The split buffers after fragment `f` from `peer` arrives at `now` (see
/// `accept_fragment`), as values.
pub open spec fn splits_after(bufs: Seq<SplitBuffer>, peer: Seq<char>, f: FrameSpec, now: u64) -> Seq<SplitView> {
    match f.split_id {
        None => split_views(bufs),
        Some(sid) => {
            let count = match f.split_count {
                Some(c) => c,
                None => 0u32,
            };
            if count == 0 || count > MAX_SPLIT_PARTS {
                split_views(bufs)
            } else {
                let nb = split_after(bufs, peer, sid, f, now);
                let pos = split_pos(bufs, peer, sid);
                if nb.received_count == nb.count {
                    match pos {
                        Some(j) => split_views(bufs.remove(j)),
                        None => split_views(bufs),
                    }
                } else {
                    match pos {
                        Some(j) => split_views(bufs).update(j, nb),
                        None => split_views(bufs).push(nb),
                    }
                }
            }
        },
    }
}

/// The packet a frame from `peer` hands to its ordered channel: the frame's own payload
/// when it is not split, the packet a split part completes otherwise.
pub open spec fn frame_delivery(bufs: Seq<SplitBuffer>, peer: Seq<char>, f: FrameSpec, now: u64) -> Option<
    (Seq<u8>, Option<u32>, Option<u8>),
> {
    if f.is_split {
        split_delivery(bufs, peer, f, now)
    } else {
        Some((f.payload, f.order_index, f.order_channel))
    }
}

/// One frame from `peer` taken in at `now` (`frame_payloads`): the payloads it delivers,
/// the split buffers it leaves, and the peer's session (made, connected, when missing)
/// with its ordered channels stepped; the other sessions are unchanged.
pub open spec fn frame_step(
    before: RakNetServer,
    after: RakNetServer,
    peer: Seq<char>,
    f: FrameSpec,
    now: u64,
    payloads: Seq<Seq<u8>>,
) -> bool {
    let chs = session_channels(before.connections@, peer);
    let d = frame_delivery(before.split_buffers@, peer, f, now);
    let b = before.connections@;
    let a = after.connections@;
    &&& payloads == match d {
        Some((p, oi, oc)) => delivered(chs, p, oi, oc, now),
        None => Seq::empty(),
    }
    &&& if f.is_split {
        split_views(after.split_buffers@) == splits_after(before.split_buffers@, peer, f, now)
    } else {
        after.split_buffers@ == before.split_buffers@
    }
    &&& session_pos(a, peer) matches Some(i) && {
        &&& channels_view(a[i].ordered_channels@) == match d {
            Some((p, oi, oc)) => channels_after(chs, p, oi, oc, now),
            None => channels_view(chs),
        }
        &&& match session_pos(b, peer) {
            Some(j) => {
                &&& i == j
                &&& a.len() == b.len()
                &&& a[i] == (ClientSession { ordered_channels: a[i].ordered_channels, ..b[j] })
                &&& forall|k: int| 0 <= k < b.len() && k != j ==> #[trigger] a[k] == b[k]
            },
            None => {
                &&& i == b.len()
                &&& a.len() == b.len() + 1
                &&& a.take(b.len() as int) == b
                &&& is_fresh_but_channels(
                    a[i],
                    peer,
                    true,
                    0,
                    before.runtime_protocol_version,
                    before.runtime_version@,
                )
            },
        }
    }
    &&& after.config == before.config
    &&& after.runtime_protocol_version == before.runtime_protocol_version
    &&& after.runtime_version@ == before.runtime_version@
    &&& after.version_fallback == before.version_fallback
}

/// The sessions with that of peer `key` (if any) marked connected.
pub open spec fn marked_connected(conns: Seq<ClientSession>, key: Seq<char>) -> Seq<ClientSession> {
    match session_pos(conns, key) {
        Some(i) => conns.update(i, ClientSession { connected: true, ..conns[i] }),
        None => conns,
    }
}

/// The sessions after a connection request from `key`: its session marked connected, or
/// a fresh connected session added last (advertising these protocol and version).
pub open spec fn connected_on_request(
    before: Seq<ClientSession>,
    after: Seq<ClientSession>,
    key: Seq<char>,
    protocol: u16,
    version: Seq<char>,
) -> bool {
    match session_pos(before, key) {
        Some(i) => after == marked_connected(before, key),
        None => {
            &&& after.len() == before.len() + 1
            &&& after.take(before.len() as int) == before
            &&& is_fresh_session(after[before.len() as int], key, true, 0, protocol, version)
        },
    }
}

/// One RakNet packet carried in a frame from `from`, dispatched at `now`
/// (`dispatch_raknet_packet`).
pub open spec fn dispatch_step(
    before: RakNetServer,
    after: RakNetServer,
    data: Seq<u8>,
    from: PeerAddr,
    now: Clock,
    r: Seq<Outgoing>,
) -> bool {
    let key = from.text@;
    let unchanged = after == before;
    &&& after.config == before.config
    &&& after.version_fallback == before.version_fallback
    &&& (data.len() == 0 ==> r.len() == 0 && unchanged)
    &&& (data.len() > 0 && data[0] == 0x09 ==> {
        &&& r.len() == 1
        &&& r[0] matches Outgoing::Frame(p, rel) && rel == 3 && p@ == accept_bytes(
            from.ipv4,
            from.port,
            request_time(data),
            now.wall_ms,
        )
        &&& connected_on_request(
            before.connections@,
            after.connections@,
            key,
            before.runtime_protocol_version,
            before.runtime_version@,
        )
        &&& after.split_buffers@ == before.split_buffers@
        &&& after.runtime_protocol_version == before.runtime_protocol_version
        &&& after.runtime_version@ == before.runtime_version@
    })
    &&& (data.len() > 0 && data[0] == 0x13 ==> {
        &&& r.len() == 0
        &&& after.connections@ == marked_connected(before.connections@, key)
        &&& after.split_buffers@ == before.split_buffers@
        &&& after.runtime_protocol_version == before.runtime_protocol_version
        &&& after.runtime_version@ == before.runtime_version@
    })
    &&& (data.len() > 0 && data[0] == 0x15 ==> {
        &&& r.len() == 0
        &&& after.connections@ == match session_pos(before.connections@, key) {
            Some(i) => before.connections@.remove(i),
            None => before.connections@,
        }
        &&& after.split_buffers@ == splits_of_others(before.split_buffers@, key)
        &&& after.runtime_protocol_version == before.runtime_protocol_version
        &&& after.runtime_version@ == before.runtime_version@
    })
    &&& (data.len() == 9 && data[0] == 0x00 ==> {
        &&& r.len() == 1
        &&& r[0] matches Outgoing::Frame(p, rel) && rel == 0 && p@ == connected_pong_bytes(
            be64_at(data, 1),
            before.config.server_guid,
        )
        &&& unchanged
    })
    &&& (data.len() > 0 && data[0] != 0x09 && data[0] != 0x13 && data[0] != 0x15 && data[0] != 0x00
        && data[0] != 0xFE ==> r.len() == 0 && unchanged)
    &&& (data.len() > 0 && (data[0] == 0xFE || (data[0] == 0x00 && data.len() != 9)) ==> exists|
        states: Seq<RakNetServer>,
        outs: Seq<Seq<Outgoing>>,
    |
        #[trigger] packets_taken_in(
            states,
            outs,
            carried_packets(data, session_compression(before, key)),
            key,
        ) && states[0] == before && states.last() == after && r == outputs_joined(outs))
}

/// `states` and `outs` trace the payloads `ps` of peer `from` dispatched one after the
/// other at `now` (`dispatch_step`), from `states[0]` on.
pub open spec fn dispatch_trace(
    states: Seq<RakNetServer>,
    outs: Seq<Seq<Outgoing>>,
    ps: Seq<Seq<u8>>,
    from: PeerAddr,
    now: Clock,
) -> bool {
    &&& states.len() == ps.len() + 1
    &&& outs.len() == ps.len()
    &&& forall|k: int|
        0 <= k < ps.len() ==> #[trigger] dispatch_step(states[k], states[k + 1], ps[k], from, now, outs[k])
}

/// The payloads `ps` dispatched in turn take the server from `before` to `after` and
/// give the outputs `r`.
pub open spec fn payloads_dispatched(
    before: RakNetServer,
    after: RakNetServer,
    ps: Seq<Seq<u8>>,
    from: PeerAddr,
    now: Clock,
    r: Seq<Outgoing>,
) -> bool {
    exists|states: Seq<RakNetServer>, outs: Seq<Seq<Outgoing>>|
        #[trigger] dispatch_trace(states, outs, ps, from, now) && states[0] == before && states.last()
            == after && r == outputs_joined(outs)
}

/// One frame taken in (`frame_step`) and the payloads it delivers dispatched.
pub open spec fn frame_handled(
    before: RakNetServer,
    after: RakNetServer,
    from: PeerAddr,
    f: FrameSpec,
    now: Clock,
    r: Seq<Outgoing>,
) -> bool {
    exists|mid: RakNetServer, ps: Seq<Seq<u8>>|
        #[trigger] frame_step(before, mid, from.text@, f, now.mono_ns, ps) && payloads_dispatched(
            mid,
            after,
            ps,
            from,
            now,
            r,
        )
}

/// `states` and `outs` trace the frames `fs` handled one after the other.
pub open spec fn frames_trace(
    states: Seq<RakNetServer>,
    outs: Seq<Seq<Outgoing>>,
    fs: Seq<FrameSpec>,
    from: PeerAddr,
    now: Clock,
) -> bool {
    &&& states.len() == fs.len() + 1
    &&& outs.len() == fs.len()
    &&& forall|k: int|
        0 <= k < fs.len() ==> #[trigger] frame_handled(states[k], states[k + 1], from, fs[k], now, outs[k])
}

/// A session with what waited too long dropped (`prune_session_queues`).
pub open spec fn session_pruned(s: ClientSession, t: ClientSession, now: u64) -> bool {
    &&& t == (ClientSession {
        ordered_channels: t.ordered_channels,
        pending_messages: t.pending_messages,
        ..s
    })
    &&& channels_view(t.ordered_channels@) == pruned_channels(s.ordered_channels@, now)
    &&& pending_views(t.pending_messages@) == young_pending(pending_views(s.pending_messages@), now)
}

/// The server with the expired split buffers and queued payloads of peer `key` dropped.
pub open spec fn pruned_for(before: RakNetServer, after: RakNetServer, key: Seq<char>, now: u64) -> bool {
    let b = before.connections@;
    let a = after.connections@;
    &&& after.split_buffers@ == splits_kept(before.split_buffers@, key, now)
    &&& match session_pos(b, key) {
        Some(i) => {
            &&& a.len() == b.len()
            &&& session_pruned(b[i], a[i], now)
            &&& forall|k: int| 0 <= k < b.len() && k != i ==> #[trigger] a[k] == b[k]
        },
        None => a == b,
    }
    &&& after.config == before.config
    &&& after.runtime_protocol_version == before.runtime_protocol_version
    &&& after.runtime_version@ == before.runtime_version@
    &&& after.version_fallback == before.version_fallback
}

/// A frame set from a peer with a session, handled at `now` (`handle_game_packet`): the
/// peer's expired state is dropped; a frame set that parses marks the session connected,
/// each of its frames is handled in turn, and its sequence number is acknowledged last.
pub open spec fn game_handled(
    before: RakNetServer,
    after: RakNetServer,
    data: Seq<u8>,
    from: PeerAddr,
    now: Clock,
    r: Seq<Outgoing>,
) -> bool {
    let key = from.text@;
    exists|pruned: RakNetServer|
        #[trigger] pruned_for(before, pruned, key, now.mono_ns) && if data.len() >= 4 && is_frame_set_id(
            data[0],
        ) {
            exists|states: Seq<RakNetServer>, outs: Seq<Seq<Outgoing>>|
                #[trigger] frames_trace(states, outs, spec_frame_set_frames(data), from, now) && {
                    &&& states[0].connections@ == marked_connected(pruned.connections@, key)
                    &&& states[0].split_buffers@ == pruned.split_buffers@
                    &&& states[0].config == pruned.config
                    &&& states[0].runtime_protocol_version == pruned.runtime_protocol_version
                    &&& states[0].runtime_version@ == pruned.runtime_version@
                    &&& states[0].version_fallback == pruned.version_fallback
                    &&& states.last() == after
                    &&& r.len() == outputs_joined(outs).len() + 1
                    &&& r.take(r.len() - 1) == outputs_joined(outs)
                    &&& r.last() matches Outgoing::Datagram(a) && a@ == ack_bytes(
                        le24(data[1], data[2], data[3]),
                    )
                }
        } else {
            r.len() == 0 && after == pruned
        }
}

/// `v` is the datagrams `ds`, in order.
pub open spec fn all_datagrams(v: Seq<Outgoing>, ds: Seq<Seq<u8>>) -> bool {
    &&& v.len() == ds.len()
    &&& forall|k: int| 0 <= k < v.len() ==> (#[trigger] v[k] matches Outgoing::Datagram(p) && p@ == ds[k])
}

/// The frames a NACK datagram from `key` has resent (none for a peer without a session).
pub open spec fn nacked_frames(conns: Seq<ClientSession>, key: Seq<char>, data: Seq<u8>, now: u64) -> Seq<Seq<u8>> {
    match session_pos(conns, key) {
        Some(i) => crate::raknet::reliability::nack_all(
            crate::raknet::reliability::rel_view(conns[i]),
            crate::raknet::reliability::ack_ranges(data),
            now,
        ).1,
        None => Seq::empty(),
    }
}

impl RakNetServer {
    /// Handle an incoming RakNet datagram from `from` and say what to do in answer.
    /// Empty datagrams are refused; the unconnected handshake is answered directly
    /// (see the `handle_*` functions), frame sets go to `handle_game_packet`, ACKs and
    /// NACKs update the peer's reliability state (NACKs resend frames); other ids are
    /// ignored.
    pub fn handle_packet(&mut self, data: &[u8], from: &PeerAddr, now: &Clock) -> (r: crate::error::Result<
        Vec<Outgoing>,
    >)
        requires
            old(self).wf(),
        ensures
            final(self).wf(),
            data@.len() == 0 ==> (r matches Err(e) && e is InvalidData),
            data@.len() > 0 && data@[0] == 0x01 ==> (data@.len() < 25 <==> r is Err),
            data@.len() >= 25 && data@[0] == 0x01 ==> (r matches Ok(v) && v@.len() == 1 && (v@[0] matches Outgoing::Datagram(
                p,
            ) && p@ == crate::raknet::handshake::ping_reply(*old(self), from.text@, data@, now.wall_ms))),
            data@.len() > 0 && data@[0] == 0x05 ==> (data@.len() < 17 <==> r is Err),
            data@.len() > 17 && data@[0] == 0x05 ==> (session_pos(final(self).connections@, from.text@) matches Some(
                i,
            ) && final(self).connections@[i].raknet_protocol == data@[17]),
            data@.len() > 0 && data@[0] == 0x07 ==> (data@.len() < 19 <==> r is Err),
            data@.len() > 0 && data@[0] == 0x07 && data@.len() >= 19 ==> (r matches Ok(v) && v@.len()
                == 1 && (v@[0] matches Outgoing::Datagram(p) && p@
                == crate::raknet::handshake::reply2_bytes(
                old(self).config.server_guid,
                crate::raknet::handshake::seen_address(from.ipv4, from.ipv6, from.port),
                old(self).config.mtu_size,
            ))),
            data@.len() > 0 && data@[0] == 0x05 && data@.len() >= 17 ==> (r matches Ok(v) && v@.len()
                == 1 && (v@[0] matches Outgoing::Datagram(p) && p@
                == crate::raknet::handshake::reply1_bytes(
                old(self).config.server_guid,
                old(self).config.mtu_size,
            ))),
            data@.len() > 0 && data@[0] == 0x09 ==> (r matches Ok(v) && v@.len() == 1 && (v@[0] matches Outgoing::Datagram(
                p,
            ) && p@ == crate::raknet::handshake::unframed_accept_bytes(
                from.ipv4,
                from.port,
                request_time(data@),
                now.wall_ms,
            ))),
            data@.len() > 0 && (data@[0] == 0xC0 || crate::raknet::protocol::is_frame_set_id(data@[0])
                || data@[0] == 0xA0) ==> r is Ok,
            data@.len() > 0 && (data@[0] == 0x01 || data@[0] == 0x07) ==> *final(self) == *old(self),
            data@.len() > 0 && data@[0] == 0x09 ==> session_pos(final(self).connections@, from.text@) is Some
                && (session_pos(old(self).connections@, from.text@) is Some ==> final(self).connections@
                == old(self).connections@) && final(self).split_buffers@ == old(self).split_buffers@,
            data@.len() > 0 && data@[0] == 0xC0 ==> (r matches Ok(v) && v@.len() == 0)
                && crate::raknet::reliability::acks_applied(
                old(self).connections@,
                final(self).connections@,
                from.text@,
                data@,
                now.mono_ns,
            ),
            data@.len() > 0 && data@[0] == 0xA0 ==> crate::raknet::reliability::nacks_applied(
                old(self).connections@,
                final(self).connections@,
                from.text@,
                data@,
                now.mono_ns,
                nacked_frames(old(self).connections@, from.text@, data@, now.mono_ns),
            ),
            data@.len() > 0 && is_frame_set_id(data@[0]) && session_pos(
                old(self).connections@,
                from.text@,
            ) is Some ==> (r matches Ok(v) && game_handled(*old(self), *final(self), data@, *from, *now, v@)),
            data@.len() > 0 && crate::raknet::protocol::is_frame_set_id(data@[0]) && session_pos(
                old(self).connections@,
                from.text@,
            ) is None ==> (r matches Ok(v) && v@.len() == 0) && final(self).connections@ == old(
                self,
            ).connections@,
            data@.len() >= 4 && crate::raknet::protocol::is_frame_set_id(data@[0]) && session_pos(
                old(self).connections@,
                from.text@,
            ) is Some ==> (r matches Ok(v) && v@.len() >= 1 && (v@.last() matches Outgoing::Datagram(a)
                && a@ == ack_bytes(crate::util::buffer::le24(data@[1], data@[2], data@[3])))),
            data@.len() > 0 && data@[0] == 0xA0 ==> (r matches Ok(v) && all_datagrams(
                v@,
                nacked_frames(old(self).connections@, from.text@, data@, now.mono_ns),
            )),
            data@.len() > 0 && data@[0] != 0x01 && data@[0] != 0x05 && data@[0] != 0x07 && data@[0]
                != 0x09 && data@[0] != 0xC0 && data@[0] != 0xA0
                && !crate::raknet::protocol::is_frame_set_id(data@[0]) ==> (r matches Ok(v) && v@.len()
                == 0) && final(self).connections@ == old(self).connections@,
            final(self).config == old(self).config,
    {
        if data.len() == 0 {
            return Err(crate::error::Error::InvalidData(String::from_str("Empty packet")));
        }
        let id = data[0];
        let mut out: Vec<Outgoing> = Vec::new();
        if id == 0x01 {
            let pong = self.handle_unconnected_ping(data, from, now)?;
            out.push(Outgoing::Datagram(pong));
        } else if id == 0x05 {
            let reply = self.handle_open_connection_request_1(data, from)?;
            out.push(Outgoing::Datagram(reply));
        } else if id == 0x07 {
            let reply = self.handle_open_connection_request_2(data, from)?;
            out.push(Outgoing::Datagram(reply));
        } else if id == 0x09 {
            let reply = self.handle_connection_request(data, from, now);
            out.push(Outgoing::Datagram(reply));
        } else if 0x80 <= id && id <= 0x8D {
            out = self.handle_game_packet(data, from, now);
        } else if id == 0xC0 {
            self.handle_ack_packet(data, from, now.mono_ns);
        } else if id == 0xA0 {
            let ghost conns0 = self.connections@;
            let mut frames = self.handle_nack_packet(data, from, now.mono_ns);
            let ghost fs = frames@.map_values(|f: Vec<u8>| f@);
            proof {
                assert(fs == nacked_frames(conns0, from.text@, data@, now.mono_ns));
            }
            let mut k: usize = 0;
            let n0 = frames.len();
            while frames.len() > 0
                invariant
                    fs.len() == n0,
                    k <= fs.len(),
                    k + frames@.len() == fs.len(),
                    frames@.map_values(|f: Vec<u8>| f@) == fs.skip(k as int),
                    all_datagrams(out@, fs.take(k as int)),
                decreases frames@.len(),
            {
                let ghost before = out@;
                let ghost fr = frames@;
                proof {
                    assert(fs.skip(k as int)[0] == fr.map_values(|f: Vec<u8>| f@)[0]);
                }
                let f = frames.remove(0);
                out.push(Outgoing::Datagram(f));
                proof {
                    assert forall|j: int| 0 <= j < frames@.len() implies frames@.map_values(
                        |f: Vec<u8>| f@,
                    )[j] == #[trigger] fs.skip(k + 1)[j] by {
                        assert(frames@[j] == fr[j + 1]);
                        assert(fr.map_values(|f: Vec<u8>| f@)[j + 1] == fs.skip(k as int)[j + 1]);
                    }
                    assert(frames@.map_values(|f: Vec<u8>| f@) =~= fs.skip(k + 1));
                    assert(fs.take(k + 1) =~= fs.take(k as int).push(fs[k as int]));
                    assert forall|j: int| 0 <= j < out@.len() implies (#[trigger] out@[j] matches Outgoing::Datagram(p) && p@ == fs.take(k + 1)[j]) by {
                        if j < before.len() {
                            assert(out@[j] == before[j]);
                        }
                    }
                }
                k = k + 1;
            }
            proof {
                assert(fs.take(k as int) =~= fs);
            }
        }
        Ok(out)
    }
}

} // verus!
