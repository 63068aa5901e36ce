//! The RakNet server state machine: sessions by peer, split-packet buffers and the
//! runtime client version.
//!
//! The server does no I/O.  Each call takes what arrived and the time, updates the
//! state and returns what is to be done: datagrams to send, payloads to send in frames
//! (through `send_frame`), pauses and captures to save.
use crate::bedrock::login::LoginMetadata;
use crate::bedrock::skin::ExtractedSkin;
use crate::bedrock::version::{resolve_version, resolved_version, VersionFallback};
use crate::raknet::config::RakNetConfig;
use crate::raknet::frames::{
    datagram_count, in_flight_after, outgoing_datagram, registered, session_datagrams,
};
use crate::raknet::protocol::{has_ordering_index, has_reliable_index};
use crate::raknet::session::{
    pending_views, wrap_add, ClientSession, SplitBuffer, INITIAL_RTO_NS, SESSION_QUEUE_TTL_NS,
};
use crate::util::random::{random_u16, random_u64};
use crate::util::text::same_text;
use vstd::prelude::*;

verus! {

/// A peer address: its text (as the socket address prints), its IPv4 octets when it is
/// an IPv4 address, its IPv6 octets when it is an IPv6 address, and its port.
#[derive(Debug, Clone)]
pub struct PeerAddr {
    pub text: String,
    pub ipv4: Option<[u8; 4]>,
    pub ipv6: Option<[u8; 16]>,
    pub port: u16,
}

/// The time of an event: a monotonic clock in nanoseconds and the wall clock in
/// milliseconds since the Unix epoch.
#[derive(Debug, Clone, Copy)]
pub struct Clock {
    pub mono_ns: u64,
    pub wall_ms: u64,
}

/// What a captured login asks to be saved.
#[derive(Debug, Clone)]
pub struct CaptureRequest {
    pub protocol: u32,
    pub player_name: String,
    pub skin_id: String,
    pub metadata: LoginMetadata,
    pub skin: ExtractedSkin,
    pub savemode: u8,
}

/// One thing the caller does for the server, in order.
#[derive(Debug, Clone)]
pub enum Outgoing {
    /// Send this datagram to the peer.
    Datagram(Vec<u8>),
    /// Send this payload to the peer in RakNet frames of this reliability (`send_frame`).
    Frame(Vec<u8>, u8),
    /// Pause for this many milliseconds.
    Wait(u64),
    /// Save the capture, then report the outcome with `capture_saved` and carry out what
    /// it returns before going on.
    SaveCapture(CaptureRequest),
    /// Drop the peer's session and buffers (`remove_connection`).
    RemoveConnection,
}

/// The first position of the session of peer `key`.
pub open spec fn session_pos(conns: Seq<ClientSession>, key: Seq<char>) -> Option<int>
    decreases conns.len(),
{
    if conns.len() == 0 {
        None
    } else if conns[0].address@ == key {
        Some(0)
    } else {
        match session_pos(conns.drop_first(), key) {
            Some(i) => Some(i + 1),
            None => None,
        }
    }
}

pub proof fn lemma_session_pos_bounds(conns: Seq<ClientSession>, key: Seq<char>)
    ensures
        session_pos(conns, key) matches Some(i) ==> 0 <= i < conns.len() && conns[i].address@ == key
            && forall|k: int| 0 <= k < i ==> conns[k].address@ != key,
        session_pos(conns, key) is None ==> forall|k: int|
            0 <= k < conns.len() ==> conns[k].address@ != key,
    decreases conns.len(),
{
    if conns.len() > 0 && conns[0].address@ != key {
        lemma_session_pos_bounds(conns.drop_first(), key);
        assert forall|k: int| 1 <= k < conns.len() implies conns[k] == conns.drop_first()[k - 1] by {}
    }
}

pub proof fn lemma_session_pos_first(conns: Seq<ClientSession>, key: Seq<char>, k: int)
    requires
        0 <= k < conns.len(),
        conns[k].address@ == key,
        forall|j: int| 0 <= j < k ==> conns[j].address@ != key,
    ensures
        session_pos(conns, key) == Some(k),
    decreases conns.len(),
{
    if k > 0 {
        assert forall|j: int| 0 <= j < k - 1 implies conns.drop_first()[j].address@ != key by {
            assert(conns.drop_first()[j] == conns[j + 1]);
        }
        lemma_session_pos_first(conns.drop_first(), key, k - 1);
    }
}

/// Sessions at the same positions with the same addresses are found at the same
/// positions.
pub proof fn lemma_session_pos_same_addresses(a: Seq<ClientSession>, b: Seq<ClientSession>, key: Seq<char>)
    requires
        a.len() == b.len(),
        forall|k: int| 0 <= k < a.len() ==> #[trigger] a[k].address@ == b[k].address@,
    ensures
        session_pos(a, key) == session_pos(b, key),
    decreases a.len(),
{
    if a.len() > 0 {
        assert forall|k: int| 0 <= k < a.drop_first().len() implies #[trigger] a.drop_first()[k].address@
            == b.drop_first()[k].address@ by {
            assert(a.drop_first()[k] == a[k + 1]);
            assert(b.drop_first()[k] == b[k + 1]);
        }
        lemma_session_pos_same_addresses(a.drop_first(), b.drop_first(), key);
        assert(a[0].address@ == b[0].address@);
    }
}

/// Whether `s` is a session as `ClientSession::new` makes it (whatever its guid), but
/// for its ordered channels.
pub open spec fn is_fresh_but_channels(
    s: ClientSession,
    address: Seq<char>,
    connected: bool,
    raknet_protocol: u8,
    bedrock_protocol: u16,
    bedrock_version: Seq<char>,
) -> bool {
    &&& s.address@ == address
    &&& s.connected == connected
    &&& s.packet_seq == 1
    &&& s.reliable_seq == 0
    &&& s.sequenced_seq == 0
    &&& s.order_index == 0
    &&& s.raknet_protocol == raknet_protocol
    &&& s.bedrock_protocol == bedrock_protocol
    &&& s.bedrock_version@ == bedrock_version
    &&& s.smoothed_rtt_ns is None
    &&& s.retransmit_timeout_ns == INITIAL_RTO_NS
    &&& s.congestion_window_bytes == 16 * 1024
    &&& s.slow_start_threshold_bytes == 64 * 1024
    &&& s.in_flight_bytes == 0
    &&& !s.compression_enabled
    &&& s.compression_algo is None
    &&& s.username is None
    &&& s.xuid is None
    &&& s.uuid is None
    &&& s.skin_path is None
    &&& s.pending_messages@.len() == 0
}

/// Whether `s` is a session as `ClientSession::new` makes it (whatever its guid).
pub open spec fn is_fresh_session(
    s: ClientSession,
    address: Seq<char>,
    connected: bool,
    raknet_protocol: u8,
    bedrock_protocol: u16,
    bedrock_version: Seq<char>,
) -> bool {
    &&& is_fresh_but_channels(s, address, connected, raknet_protocol, bedrock_protocol, bedrock_version)
    &&& s.ordered_channels@.len() == 0
}

/// RakNet server state
#[derive(Debug)]
pub struct RakNetServer {
    pub config: RakNetConfig,
    pub connections: Vec<ClientSession>,
    pub split_buffers: Vec<SplitBuffer>,
    pub runtime_protocol_version: u16,
    pub runtime_version: String,
    pub version_fallback: VersionFallback,
}

/// Whether the split buffer belongs to peer `key`.
pub open spec fn split_of_peer(b: SplitBuffer, key: Seq<char>) -> bool {
    b.peer@ == key
}

/// The split buffers kept when `key`'s expired ones are dropped at `now`: those of other
/// peers, and those of `key` at most 30 seconds old.
pub open spec fn splits_kept(bufs: Seq<SplitBuffer>, key: Seq<char>, now: u64) -> Seq<SplitBuffer>
    decreases bufs.len(),
{
    if bufs.len() == 0 {
        Seq::empty()
    } else {
        let rest = splits_kept(bufs.drop_last(), key, now);
        let b = bufs.last();
        if !split_of_peer(b, key) || sat_sub(now, b.created_ns) <= SESSION_QUEUE_TTL_NS {
            rest.push(b)
        } else {
            rest
        }
    }
}

/// The split buffers of the peers other than `key`.
pub open spec fn splits_of_others(bufs: Seq<SplitBuffer>, key: Seq<char>) -> Seq<SplitBuffer>
    decreases bufs.len(),
{
    if bufs.len() == 0 {
        Seq::empty()
    } else {
        let rest = splits_of_others(bufs.drop_last(), key);
        if !split_of_peer(bufs.last(), key) {
            rest.push(bufs.last())
        } else {
            rest
        }
    }
}

/// A split buffer in the shape reassembly keeps: as many slots as parts (at most 512),
/// and fewer parts received than expected (complete ones are taken out at once).
pub open spec fn split_wf(b: SplitBuffer) -> bool {
    &&& 1 <= b.count <= crate::raknet::session::MAX_SPLIT_PARTS
    &&& b.fragments@.len() == b.count
    &&& b.received@.len() == b.count
    &&& b.received_count < b.count
}

/// The split buffers are all in shape.
pub open spec fn splits_wf(bufs: Seq<SplitBuffer>) -> bool {
    forall|k: int| 0 <= k < bufs.len() ==> split_wf(#[trigger] bufs[k])
}

/// The buffers a filter keeps are buffers it was given.
proof fn lemma_splits_kept_wf(bufs: Seq<SplitBuffer>, key: Seq<char>, now: u64)
    requires
        splits_wf(bufs),
    ensures
        splits_wf(splits_kept(bufs, key, now)),
        splits_wf(splits_of_others(bufs, key)),
    decreases bufs.len(),
{
    if bufs.len() > 0 {
        assert(splits_wf(bufs.drop_last())) by {
            assert forall|k: int| 0 <= k < bufs.drop_last().len() implies split_wf(#[trigger] bufs.drop_last()[k]) by {
                assert(bufs.drop_last()[k] == bufs[k]);
            }
        }
        lemma_splits_kept_wf(bufs.drop_last(), key, now);
        assert(split_wf(bufs.last()));
    }
}

/// `a - b`, or 0 when `b` is later.
pub open spec fn sat_sub(a: u64, b: u64) -> u64 {
    if a >= b {
        (a - b) as u64
    } else {
        0
    }
}

/// No two sessions share an address.
pub open spec fn distinct_addresses(conns: Seq<ClientSession>) -> bool {
    forall|a: int, b: int|
        0 <= a < b < conns.len() ==> #[trigger] conns[a].address@ != #[trigger] conns[b].address@
}

/// Once a peer's session is removed, the peer has none (when no two sessions share an
/// address).
pub proof fn lemma_removed_peer_has_no_session(conns: Seq<ClientSession>, key: Seq<char>)
    requires
        distinct_addresses(conns),
    ensures
        match session_pos(conns, key) {
            Some(i) => session_pos(conns.remove(i), key) is None,
            None => true,
        },
{
    lemma_session_pos_bounds(conns, key);
    if let Some(i) = session_pos(conns, key) {
        let rest = conns.remove(i);
        lemma_session_pos_bounds(rest, key);
        if let Some(k) = session_pos(rest, key) {
            if k < i {
                assert(rest[k] == conns[k]);
            } else {
                assert(rest[k] == conns[k + 1]);
                assert(conns[i].address@ != conns[k + 1].address@);
            }
        }
    }
}

proof fn lemma_distinct_remove(conns: Seq<ClientSession>, i: int)
    requires
        distinct_addresses(conns),
        0 <= i < conns.len(),
    ensures
        distinct_addresses(conns.remove(i)),
{
    let r = conns.remove(i);
    assert forall|a: int, b: int| 0 <= a < b < r.len() implies #[trigger] r[a].address@ != #[trigger] r[b].address@ by {
        let a0 = if a < i { a } else { a + 1 };
        let b0 = if b < i { b } else { b + 1 };
        assert(r[a] == conns[a0] && r[b] == conns[b0]);
    }
}

proof fn lemma_distinct_update(conns: Seq<ClientSession>, i: int, s: ClientSession)
    requires
        distinct_addresses(conns),
        0 <= i < conns.len(),
        s.address@ == conns[i].address@,
    ensures
        distinct_addresses(conns.update(i, s)),
{
    let r = conns.update(i, s);
    assert forall|a: int, b: int| 0 <= a < b < r.len() implies #[trigger] r[a].address@ != #[trigger] r[b].address@ by {
        assert(r[a].address@ == conns[a].address@ && r[b].address@ == conns[b].address@);
    }
}

/// The packet, reliable and order counters a send to `key` starts from: the session's,
/// or those of a fresh session.
pub open spec fn send_counters(conns: Seq<ClientSession>, key: Seq<char>) -> (u32, u32, u32) {
    match session_pos(conns, key) {
        Some(j) => (conns[j].packet_seq, conns[j].reliable_seq, conns[j].order_index),
        None => (1u32, 0u32, 0u32),
    }
}

/// `r` are the datagrams that carry `payload` to `key` with this split id, numbered from
/// the counters of `key`'s session in `conns`.
pub open spec fn frames_sent(
    conns: Seq<ClientSession>,
    key: Seq<char>,
    payload: Seq<u8>,
    reliability: u8,
    mtu: u16,
    split_id: u16,
    r: Seq<Vec<u8>>,
) -> bool {
    let c = send_counters(conns, key);
    let n = datagram_count(payload.len() as int, mtu, reliability);
    &&& r.len() == n
    &&& forall|k: int|
        0 <= k < n ==> #[trigger] r[k]@ == outgoing_datagram(
            payload,
            reliability,
            mtu,
            split_id,
            c.0,
            c.1,
            c.2,
            k,
        )
}

/// The pending messages and bytes in flight a send to `key` starts from: the session's,
/// or none for a fresh session.
pub open spec fn send_backlog(conns: Seq<ClientSession>, key: Seq<char>) -> (
    Seq<(u32, Seq<u8>, usize, u64, u32, u8)>,
    usize,
) {
    match session_pos(conns, key) {
        Some(j) => (pending_views(conns[j].pending_messages@), conns[j].in_flight_bytes),
        None => (Seq::empty(), 0usize),
    }
}

/// The sessions after the datagrams `dgs` of this reliability went to `key` at `now`: its
/// session (the same, or a fresh one added last) has its counters advanced by their
/// number (the reliable and order counters only for reliabilities that use them) and,
/// for a reliable send, the datagrams registered as pending and counted in flight; the
/// other sessions are unchanged.
pub open spec fn sessions_after_send(
    before: Seq<ClientSession>,
    after: Seq<ClientSession>,
    key: Seq<char>,
    dgs: Seq<Seq<u8>>,
    reliability: u8,
    now: u64,
) -> bool {
    let c = send_counters(before, key);
    let (pending, in_flight) = send_backlog(before, key);
    let n = dgs.len();
    let rel = has_reliable_index(reliability);
    match session_pos(after, key) {
        Some(j) => {
            &&& after.len() == if session_pos(before, key) is Some {
                before.len()
            } else {
                before.len() + 1
            }
            &&& forall|k: int| 0 <= k < before.len() && k != j ==> #[trigger] after[k] == before[k]
            &&& after[j].packet_seq == wrap_add(c.0, n)
            &&& after[j].reliable_seq == if rel {
                wrap_add(c.1, n)
            } else {
                c.1
            }
            &&& after[j].order_index == if has_ordering_index(reliability) {
                wrap_add(c.2, n)
            } else {
                c.2
            }
            &&& pending_views(after[j].pending_messages@) == if rel {
                registered(pending, dgs, c.0, reliability, now, n)
            } else {
                pending
            }
            &&& after[j].in_flight_bytes == if rel {
                in_flight_after(in_flight, dgs, n)
            } else {
                in_flight
            }
        },
        None => false,
    }
}

impl RakNetServer {
    /// The state every operation keeps: frames fit the 16-bit bit length (MTU at most
    /// 8198) and every retransmission timeout is at most 2 seconds.
    pub open spec fn wf(&self) -> bool {
        &&& self.config.mtu_size <= 8198
        &&& splits_wf(self.split_buffers@)
        &&& distinct_addresses(self.connections@)
        &&& forall|i: int|
            0 <= i < self.connections@.len() ==> #[trigger] self.connections@[i].retransmit_timeout_ns
                <= 2_000_000_000
    }

    /// A server with no sessions, using the configured protocol and version until a
    /// client reports its own.
    pub fn new(config: RakNetConfig) -> (r: Self)
        requires
            config.mtu_size <= 8198,
        ensures
            r.wf(),
            r.connections@.len() == 0,
            r.split_buffers@.len() == 0,
            r.runtime_protocol_version == config.protocol_version,
            r.runtime_version@ == config.version@,
            r.config == config,
            r.version_fallback.version@.len() == 0,
            r.version_fallback.warned_unknown@.len() == 0,
    {
        let protocol = config.protocol_version;
        let version = config.version.clone();
        RakNetServer {
            config,
            connections: Vec::new(),
            split_buffers: Vec::new(),
            runtime_protocol_version: protocol,
            runtime_version: version,
            version_fallback: VersionFallback::new(),
        }
    }

    /// The Bedrock protocol advertised to clients without a session.
    pub fn effective_protocol_version(&self) -> (r: u16)
        ensures
            r == self.runtime_protocol_version,
    {
        self.runtime_protocol_version
    }

    /// The Bedrock version advertised to clients without a session.
    pub fn effective_version(&self) -> (r: String)
        ensures
            r@ == self.runtime_version@,
    {
        self.runtime_version.clone()
    }

    /// Adopt the protocol a client reported, with its version string.
    pub fn sync_client_version(&mut self, protocol: u16)
        ensures
            final(self).runtime_protocol_version == protocol,
            final(self).runtime_version@ == resolved_version(
                old(self).version_fallback.version@,
                protocol as u32,
            ),
            final(self).connections@ == old(self).connections@,
            final(self).split_buffers@ == old(self).split_buffers@,
            final(self).config == old(self).config,
            final(self).version_fallback == old(self).version_fallback,
    {
        let version = resolve_version(&self.version_fallback, protocol as u32);
        self.runtime_protocol_version = protocol;
        self.runtime_version = version;
    }

    /// The RakNet protocol byte of an Open Connection Request 1: the byte after the id and
    /// the 16 magic bytes.
    pub fn extract_open_connection_protocol(data: &[u8]) -> (r: Option<u8>)
        ensures
            r == if data@.len() > 17 {
                Some(data@[17])
            } else {
                None::<u8>
            },
    {
        if data.len() > 17 {
            Some(data[17])
        } else {
            None
        }
    }

    /// The position of the session of peer `key`.
    pub fn find_session(&self, key: &str) -> (r: Option<usize>)
        ensures
            match session_pos(self.connections@, key@) {
                Some(i) => r matches Some(x) && x as int == i && 0 <= i < self.connections@.len()
                    && self.connections@[i].address@ == key@,
                None => r is None,
            },
    {
        let mut k: usize = 0;
        while k < self.connections.len()
            invariant
                k <= self.connections@.len(),
                forall|j: int| 0 <= j < k ==> self.connections@[j].address@ != key@,
            decreases self.connections.len() - k,
        {
            if same_text(self.connections[k].address.as_str(), key) {
                proof {
                    lemma_session_pos_first(self.connections@, key@, k as int);
                }
                return Some(k);
            }
            k = k + 1;
        }
        proof {
            lemma_session_pos_bounds(self.connections@, key@);
        }
        None
    }

    /// Whether peer `key` has a session.
    pub fn is_active_connection(&self, key: &str) -> (r: bool)
        ensures
            r == session_pos(self.connections@, key@) is Some,
    {
        self.find_session(key).is_some()
    }

    /// The position of the session of `peer`, made fresh (connected as given, with the
    /// given RakNet protocol, the advertised Bedrock protocol and version, and a random
    /// GUID, 0 when the system random source fails) when the peer has none.  An existing
    /// session is left as it is.
    pub fn ensure_session(&mut self, peer: &PeerAddr, connected: bool, raknet_protocol: u8) -> (r:
        usize)
        requires
            old(self).wf(),
        ensures
            final(self).wf(),
            r < final(self).connections@.len(),
            final(self).connections@[r as int].address@ == peer.text@,
            session_pos(final(self).connections@, peer.text@) == Some(r as int),
            match session_pos(old(self).connections@, peer.text@) {
                Some(i) => r == i && final(self).connections@ == old(self).connections@,
                None => r == old(self).connections@.len() && final(self).connections@.len() == r
                    + 1 && final(self).connections@.take(r as int) == old(self).connections@
                    && is_fresh_session(
                    final(self).connections@[r as int],
                    peer.text@,
                    connected,
                    raknet_protocol,
                    old(self).runtime_protocol_version,
                    old(self).runtime_version@,
                ),
            },
            final(self).split_buffers@ == old(self).split_buffers@,
            final(self).config == old(self).config,
            final(self).runtime_protocol_version == old(self).runtime_protocol_version,
            final(self).runtime_version@ == old(self).runtime_version@,
            final(self).version_fallback == old(self).version_fallback,
    {
        match self.find_session(peer.text.as_str()) {
            Some(i) => {
                proof {
                    lemma_session_pos_bounds(self.connections@, peer.text@);
                }
                i
            },
            None => {
                let s = ClientSession::new(
                    peer.text.clone(),
                    match random_u64() {
                        Some(g) => g,
                        None => 0,
                    },
                    connected,
                    raknet_protocol,
                    self.effective_protocol_version(),
                    self.effective_version(),
                );
                let ghost before = self.connections@;
                self.connections.push(s);
                proof {
                    lemma_session_pos_bounds(before, peer.text@);
                    assert forall|a: int, b: int| 0 <= a < b < self.connections@.len() implies #[trigger] self.connections@[a].address@
                        != #[trigger] self.connections@[b].address@ by {
                        assert(self.connections@[a] == before[a]);
                        if b < before.len() {
                            assert(self.connections@[b] == before[b]);
                        }
                    }
                    lemma_session_pos_first(self.connections@, peer.text@, before.len() as int);
                    assert(self.connections@.take(before.len() as int) =~= before);
                }
                self.connections.len() - 1
            },
        }
    }

    /// Take session `i` out to change it; `put_session` puts it back.
    pub fn take_session(&mut self, i: usize) -> (s: ClientSession)
        requires
            old(self).wf(),
            i < old(self).connections@.len(),
        ensures
            s == old(self).connections@[i as int],
            final(self).connections@ == old(self).connections@.remove(i as int),
            final(self).wf(),
            final(self).split_buffers@ == old(self).split_buffers@,
            final(self).config == old(self).config,
            final(self).runtime_protocol_version == old(self).runtime_protocol_version,
            final(self).runtime_version@ == old(self).runtime_version@,
            final(self).version_fallback == old(self).version_fallback,
    {
        let ghost before = self.connections@;
        let s = self.connections.remove(i);
        proof {
            lemma_distinct_remove(before, i as int);
            assert forall|k: int| 0 <= k < self.connections@.len() implies #[trigger] self.connections@[k].retransmit_timeout_ns
                <= 2_000_000_000 by {
                if k < i {
                    assert(self.connections@[k] == before[k]);
                } else {
                    assert(self.connections@[k] == before[k + 1]);
                }
            }
        }
        s
    }

    /// Put back a session taken out with `take_session` (its address kept): the sessions
    /// are as before but for that one, and every peer is found where it was.
    pub fn put_session(&mut self, i: usize, s: ClientSession, taken_from: Ghost<Seq<ClientSession>>)
        requires
            old(self).wf(),
            i < taken_from@.len(),
            old(self).connections@ == taken_from@.remove(i as int),
            distinct_addresses(taken_from@),
            s.address@ == taken_from@[i as int].address@,
            s.retransmit_timeout_ns <= 2_000_000_000,
        ensures
            final(self).wf(),
            final(self).connections@ == taken_from@.update(i as int, s),
            forall|key: Seq<char>|
                #[trigger] session_pos(final(self).connections@, key) == session_pos(taken_from@, key),
            final(self).split_buffers@ == old(self).split_buffers@,
            final(self).config == old(self).config,
            final(self).runtime_protocol_version == old(self).runtime_protocol_version,
            final(self).runtime_version@ == old(self).runtime_version@,
            final(self).version_fallback == old(self).version_fallback,
    {
        let ghost before = taken_from@;
        self.connections.insert(i, s);
        proof {
            assert(self.connections@ =~= before.update(i as int, s));
            lemma_distinct_update(before, i as int, s);
            assert forall|k: int| 0 <= k < self.connections@.len() implies #[trigger] self.connections@[k].retransmit_timeout_ns
                <= 2_000_000_000 by {
                if k < i {
                    assert(self.connections@[k] == old(self).connections@[k]);
                } else if k > i {
                    assert(self.connections@[k] == old(self).connections@[k - 1]);
                }
            }
            assert forall|key: Seq<char>| #[trigger] session_pos(self.connections@, key) == session_pos(before, key) by {
                assert forall|k: int| 0 <= k < before.len() implies #[trigger] self.connections@[k].address@
                    == before[k].address@ by {}
                lemma_session_pos_same_addresses(self.connections@, before, key);
            }
        }
    }

    /// Get active connections count
    pub fn connection_count(&self) -> (r: usize)
        ensures
            r == self.connections@.len(),
    {
        self.connections.len()
    }

    /// The number of sessions marked connected.
    pub fn active_connection_count(&self) -> (r: usize)
        ensures
            r == connected_count(self.connections@),
    {
        let mut n: usize = 0;
        let mut k: usize = 0;
        while k < self.connections.len()
            invariant
                k <= self.connections@.len(),
                n == connected_count(self.connections@.take(k as int)),
                n <= k,
            decreases self.connections.len() - k,
        {
            proof {
                assert(self.connections@.take(k + 1).drop_last() =~= self.connections@.take(
                    k as int,
                ));
            }
            if self.connections[k].connected {
                n = n + 1;
            }
            k = k + 1;
        }
        proof {
            assert(self.connections@.take(k as int) =~= self.connections@);
        }
        n
    }

    /// Drop the session of peer `key`, if any.
    fn remove_session(&mut self, key: &str)
        requires
            old(self).wf(),
        ensures
            final(self).wf(),
            final(self).connections@ == match session_pos(old(self).connections@, key@) {
                Some(i) => old(self).connections@.remove(i),
                None => old(self).connections@,
            },
            session_pos(final(self).connections@, key@) is None,
            final(self).split_buffers@ == old(self).split_buffers@,
            final(self).config == old(self).config,
            final(self).runtime_protocol_version == old(self).runtime_protocol_version,
            final(self).runtime_version@ == old(self).runtime_version@,
            final(self).version_fallback == old(self).version_fallback,
    {
        proof {
            lemma_removed_peer_has_no_session(self.connections@, key@);
        }
        if let Some(i) = self.find_session(key) {
            let ghost before = self.connections@;
            self.connections.remove(i);
            proof {
                lemma_distinct_remove(before, i as int);
                assert forall|k: int| 0 <= k < self.connections@.len() implies #[trigger] self.connections@[k].retransmit_timeout_ns
                    <= 2_000_000_000 by {
                    if k < i {
                        assert(self.connections@[k] == before[k]);
                    } else {
                        assert(self.connections@[k] == before[k + 1]);
                    }
                }
            }
        }
    }

    /// Drop the session of peer `key` and every split buffer of that peer.
    pub fn drop_connection_state(&mut self, key: &str)
        requires
            old(self).wf(),
        ensures
            final(self).wf(),
            final(self).connections@ == match session_pos(old(self).connections@, key@) {
                Some(i) => old(self).connections@.remove(i),
                None => old(self).connections@,
            },
            session_pos(final(self).connections@, key@) is None,
            final(self).split_buffers@ == splits_of_others(old(self).split_buffers@, key@),
            final(self).config == old(self).config,
            final(self).runtime_protocol_version == old(self).runtime_protocol_version,
            final(self).runtime_version@ == old(self).runtime_version@,
            final(self).version_fallback == old(self).version_fallback,
    {
        self.remove_session(key);
        let ghost bufs = self.split_buffers@;
        self.split_buffers = splits_without(&mut self.split_buffers, key, None);
        proof {
            lemma_splits_kept_wf(bufs, key@, 0);
        }
    }

    /// Remove connection: the session and split buffers of a peer given by address text;
    /// only the session when the text does not parse as a socket address, which the
    /// caller reports in `is_socket_addr`.
    pub fn remove_connection(&mut self, addr: &str, is_socket_addr: bool)
        requires
            old(self).wf(),
        ensures
            final(self).wf(),
            final(self).connections@ == match session_pos(old(self).connections@, addr@) {
                Some(i) => old(self).connections@.remove(i),
                None => old(self).connections@,
            },
            session_pos(final(self).connections@, addr@) is None,
            final(self).split_buffers@ == if is_socket_addr {
                splits_of_others(old(self).split_buffers@, addr@)
            } else {
                old(self).split_buffers@
            },
            final(self).config == old(self).config,
            final(self).runtime_protocol_version == old(self).runtime_protocol_version,
            final(self).runtime_version@ == old(self).runtime_version@,
            final(self).version_fallback == old(self).version_fallback,
    {
        if is_socket_addr {
            self.drop_connection_state(addr);
        } else {
            self.remove_session(addr);
        }
    }

    /// Drop the split buffers of peer `key` older than 30 seconds.
    pub fn prune_split_buffers_for_peer(&mut self, key: &str, now_ns: u64)
        requires
            old(self).wf(),
        ensures
            final(self).wf(),
            final(self).split_buffers@ == splits_kept(old(self).split_buffers@, key@, now_ns),
            final(self).connections@ == old(self).connections@,
            final(self).config == old(self).config,
            final(self).runtime_protocol_version == old(self).runtime_protocol_version,
            final(self).runtime_version@ == old(self).runtime_version@,
            final(self).version_fallback == old(self).version_fallback,
    {
        let ghost bufs = self.split_buffers@;
        self.split_buffers = splits_without(&mut self.split_buffers, key, Some(now_ns));
        proof {
            lemma_splits_kept_wf(bufs, key@, now_ns);
        }
    }

    /// Send a payload to `to` in RakNet frames: the datagrams to send, with the peer's
    /// session (made fresh and connected when missing) updated as `session_datagrams`
    /// describes.  `split_id` marks the fragments of a split payload.
    pub fn send_frame_with_split_id(
        &mut self,
        payload: &[u8],
        reliability: u8,
        to: &PeerAddr,
        now_ns: u64,
        split_id: u16,
    ) -> (r: Vec<Vec<u8>>)
        requires
            old(self).wf(),
            payload@.len() <= 0xFFFF_FFFF,
        ensures
            final(self).wf(),
            session_pos(final(self).connections@, to.text@) is Some,
            frames_sent(
                old(self).connections@,
                to.text@,
                payload@,
                reliability,
                old(self).config.mtu_size,
                split_id,
                r@,
            ),
            sessions_after_send(
                old(self).connections@,
                final(self).connections@,
                to.text@,
                r@.map_values(|d: Vec<u8>| d@),
                reliability,
                now_ns,
            ),
            final(self).split_buffers@ == old(self).split_buffers@,
            final(self).config == old(self).config,
            final(self).runtime_protocol_version == old(self).runtime_protocol_version,
            final(self).runtime_version@ == old(self).runtime_version@,
            final(self).version_fallback == old(self).version_fallback,
    {
        let ghost before = self.connections@;
        let i = self.ensure_session(to, true, 0);
        let ghost conns = self.connections@;
        let mut s = self.connections.remove(i);
        let ghost s0 = s;
        proof {
            let c = send_counters(before, to.text@);
            assert(s0.packet_seq == c.0 && s0.reliable_seq == c.1 && s0.order_index == c.2);
            let b = send_backlog(before, to.text@);
            assert(pending_views(s0.pending_messages@) =~= b.0);
            assert(s0.in_flight_bytes == b.1);
        }
        let out = session_datagrams(&mut s, payload, reliability, self.config.mtu_size, split_id, now_ns);
        self.connections.insert(i, s);
        proof {
            assert(self.connections@ =~= conns.update(i as int, s));
            lemma_distinct_update(conns, i as int, s);
            assert forall|k: int| 0 <= k < before.len() && k != i implies #[trigger] self.connections@[k]
                == before[k] by {
                if session_pos(before, to.text@) is None {
                    assert(conns.take(i as int)[k] == conns[k]);
                }
            }
            assert(self.connections@ =~= conns.update(i as int, s));
            assert forall|k: int| 0 <= k < self.connections@.len() implies #[trigger] self.connections@[k].retransmit_timeout_ns
                <= 2_000_000_000 by {
                if k != i {
                    assert(self.connections@[k] == conns[k]);
                }
            }
            lemma_session_pos_bounds(conns, to.text@);
            assert forall|j: int| 0 <= j < i implies self.connections@[j].address@ != to.text@ by {
                assert(self.connections@[j] == conns[j]);
            }
            lemma_session_pos_first(self.connections@, to.text@, i as int);
            assert forall|k: int| 0 <= k < out@.len() implies #[trigger] out@[k]@ == out@.map_values(
                |d: Vec<u8>| d@,
            )[k] by {}
        }
        out
    }

    /// Send a payload to `to` in RakNet frames (see `send_frame_with_split_id`); a split
    /// payload gets a random split id (0 when the system random source fails).
    pub fn send_frame(&mut self, payload: &[u8], reliability: u8, to: &PeerAddr, now_ns: u64) -> (r:
        Vec<Vec<u8>>)
        requires
            old(self).wf(),
            payload@.len() <= 0xFFFF_FFFF,
        ensures
            final(self).wf(),
            session_pos(final(self).connections@, to.text@) is Some,
            exists|split_id: u16|
                #[trigger] frames_sent(
                    old(self).connections@,
                    to.text@,
                    payload@,
                    reliability,
                    old(self).config.mtu_size,
                    split_id,
                    r@,
                ),
            sessions_after_send(
                old(self).connections@,
                final(self).connections@,
                to.text@,
                r@.map_values(|d: Vec<u8>| d@),
                reliability,
                now_ns,
            ),
            final(self).split_buffers@ == old(self).split_buffers@,
            final(self).config == old(self).config,
    {
        let split_id = match random_u16() {
            Some(v) => v,
            None => 0,
        };
        let r = self.send_frame_with_split_id(payload, reliability, to, now_ns, split_id);
        proof {
            assert(frames_sent(
                old(self).connections@,
                to.text@,
                payload@,
                reliability,
                old(self).config.mtu_size,
                split_id,
                r@,
            ));
        }
        r
    }
}

/// The split buffers kept from `bufs`: those of peers other than `key`, and, when
/// `now_ns` is given, those of `key` at most 30 seconds old.  `bufs` is emptied.
fn splits_without(bufs: &mut Vec<SplitBuffer>, key: &str, now_ns: Option<u64>) -> (r: Vec<SplitBuffer>)
    ensures
        r@ == match now_ns {
            Some(now) => splits_kept(old(bufs)@, key@, now),
            None => splits_of_others(old(bufs)@, key@),
        },
{
    let ghost all = bufs@;
    let mut kept: Vec<SplitBuffer> = Vec::new();
    let mut k: usize = 0;
    let n = bufs.len();
    while bufs.len() > 0
        invariant
            k <= n,
            n == all.len(),
            bufs@ == all.skip(k as int),
            kept@ == match now_ns {
                Some(now) => splits_kept(all.take(k as int), key@, now),
                None => splits_of_others(all.take(k as int), key@),
            },
        decreases bufs@.len(),
    {
        proof {
            assert(all.take(k + 1).drop_last() =~= all.take(k as int));
            assert(all.skip(k as int)[0] == all[k as int]);
        }
        let b = bufs.remove(0);
        let other = !same_text(b.peer.as_str(), key);
        let keep = match now_ns {
            Some(now) => {
                let age = if now >= b.created_ns {
                    now - b.created_ns
                } else {
                    0
                };
                other || age <= SESSION_QUEUE_TTL_NS
            },
            None => other,
        };
        if keep {
            kept.push(b);
        }
        proof {
            assert(bufs@ =~= all.skip(k + 1));
        }
        k = k + 1;
    }
    proof {
        assert(all.take(k as int) =~= all);
    }
    kept
}

/// A summary of one session for dashboards.
#[derive(Debug, Clone, Default)]
pub struct SessionSnapshot {
    pub address: String,
    pub connected: bool,
    pub username: Option<String>,
    pub bedrock_protocol: u16,
    pub bedrock_version: String,
    pub compression_enabled: bool,
    pub skin_path: Option<String>,
    pub pending_messages: usize,
}

/// A summary of the server for dashboards.
#[derive(Debug, Clone, Default)]
pub struct ServerSnapshot {
    pub active_connections: usize,
    pub sessions: Vec<SessionSnapshot>,
}

/// Whether snapshot `p` summarizes session `s`.
pub open spec fn summarizes(p: SessionSnapshot, s: ClientSession) -> bool {
    &&& p.address@ == s.address@
    &&& p.connected == s.connected
    &&& p.username.deep_view() == s.username.deep_view()
    &&& p.bedrock_protocol == s.bedrock_protocol
    &&& p.bedrock_version@ == s.bedrock_version@
    &&& p.compression_enabled == s.compression_enabled
    &&& p.skin_path.deep_view() == s.skin_path.deep_view()
    &&& p.pending_messages == s.pending_messages@.len()
}

/// Text order: the first differing character decides, and a prefix comes first.
pub open spec fn text_le(a: Seq<char>, b: Seq<char>) -> bool
    decreases a.len(),
{
    if a.len() == 0 {
        true
    } else if b.len() == 0 {
        false
    } else if a[0] != b[0] {
        a[0] < b[0]
    } else {
        text_le(a.drop_first(), b.drop_first())
    }
}

fn text_le_exec(a: &str, b: &str) -> (r: bool)
    ensures
        r == text_le(a@, b@),
{
    let ac = crate::util::text::str_chars(a);
    let bc = crate::util::text::str_chars(b);
    let mut i: usize = 0;
    proof {
        assert(ac@.skip(0) =~= ac@);
        assert(bc@.skip(0) =~= bc@);
    }
    while i < ac.len() && i < bc.len() && ac[i] == bc[i]
        invariant
            i <= ac@.len(),
            i <= bc@.len(),
            ac@ == a@,
            bc@ == b@,
            text_le(a@, b@) == text_le(ac@.skip(i as int), bc@.skip(i as int)),
        decreases ac.len() - i,
    {
        proof {
            assert(ac@.skip(i as int).drop_first() =~= ac@.skip(i + 1));
            assert(bc@.skip(i as int).drop_first() =~= bc@.skip(i + 1));
        }
        i = i + 1;
    }
    if i == ac.len() {
        return true;
    }
    if i == bc.len() {
        return false;
    }
    proof {
        assert(ac@.skip(i as int)[0] == ac@[i as int]);
        assert(bc@.skip(i as int)[0] == bc@[i as int]);
    }
    ac[i] < bc[i]
}

fn snapshot_of(s: &ClientSession) -> (r: SessionSnapshot)
    ensures
        summarizes(r, *s),
{
    SessionSnapshot {
        address: s.address.clone(),
        connected: s.connected,
        username: match &s.username {
            Some(u) => Some(u.clone()),
            None => None,
        },
        bedrock_protocol: s.bedrock_protocol,
        bedrock_version: s.bedrock_version.clone(),
        compression_enabled: s.compression_enabled,
        skin_path: match &s.skin_path {
            Some(p) => Some(p.clone()),
            None => None,
        },
        pending_messages: s.pending_messages.len(),
    }
}

impl RakNetServer {
    /// The session of peer `addr`, if any.
    pub fn get_connection(&self, addr: &str) -> (r: Option<&ClientSession>)
        ensures
            match session_pos(self.connections@, addr@) {
                Some(i) => r matches Some(s) && *s == self.connections@[i],
                None => r is None,
            },
    {
        match self.find_session(addr) {
            Some(i) => Some(&self.connections[i]),
            None => None,
        }
    }

    /// Capture a snapshot of current server state for dashboards: a summary of every
    /// session, ordered by address, and how many are connected.
    pub fn snapshot(&self) -> (r: ServerSnapshot)
        ensures
            r.active_connections == connected_count(self.connections@),
            r.sessions@.len() == self.connections@.len(),
            forall|a: int, b: int|
                0 <= a < b < r.sessions@.len() ==> text_le(
                    #[trigger] r.sessions@[a].address@,
                    #[trigger] r.sessions@[b].address@,
                ),
            forall|a: int|
                0 <= a < r.sessions@.len() ==> exists|k: int|
                    0 <= k < self.connections@.len() && summarizes(
                        #[trigger] r.sessions@[a],
                        self.connections@[k],
                    ),
            forall|k: int|
                0 <= k < self.connections@.len() ==> #[trigger] summarized_in(
                    r.sessions@,
                    self.connections@[k],
                ),
    {
        let mut sessions: Vec<SessionSnapshot> = Vec::new();
        let mut k: usize = 0;
        while k < self.connections.len()
            invariant
                k <= self.connections@.len(),
                sessions@.len() == k,
                forall|a: int, b: int|
                    0 <= a < b < sessions@.len() ==> text_le(
                        #[trigger] sessions@[a].address@,
                        #[trigger] sessions@[b].address@,
                    ),
                forall|a: int|
                    0 <= a < sessions@.len() ==> exists|j: int|
                        0 <= j < self.connections@.len() && summarizes(
                            #[trigger] sessions@[a],
                            self.connections@[j],
                        ),
                forall|j: int|
                    0 <= j < k ==> #[trigger] summarized_in(sessions@, self.connections@[j]),
            decreases self.connections.len() - k,
        {
            let snap = snapshot_of(&self.connections[k]);
            let mut pos: usize = 0;
            while pos < sessions.len() && text_le_exec(
                sessions[pos].address.as_str(),
                snap.address.as_str(),
            )
                invariant
                    pos <= sessions@.len(),
                    forall|a: int| 0 <= a < pos ==> text_le(#[trigger] sessions@[a].address@, snap.address@),
                decreases sessions.len() - pos,
            {
                pos = pos + 1;
            }
            let ghost before = sessions@;
            proof {
                lemma_text_le_total_after(before, snap.address@, pos as int);
            }
            sessions.insert(pos, snap);
            proof {
                assert forall|a: int, b: int|
                    0 <= a < b < sessions@.len() implies text_le(
                        #[trigger] sessions@[a].address@,
                        #[trigger] sessions@[b].address@,
                    ) by {
                    if a < pos && b < pos {
                        assert(sessions@[a] == before[a] && sessions@[b] == before[b]);
                    } else if a < pos && b == pos {
                    } else if a < pos && b > pos {
                        assert(sessions@[b] == before[b - 1]);
                        assert(sessions@[a] == before[a]);
                    } else if a == pos {
                        assert(sessions@[b] == before[b - 1]);
                    } else {
                        assert(sessions@[a] == before[a - 1] && sessions@[b] == before[b - 1]);
                    }
                }
                assert forall|a: int| 0 <= a < sessions@.len() implies exists|j: int|
                    0 <= j < self.connections@.len() && summarizes(
                        #[trigger] sessions@[a],
                        self.connections@[j],
                    ) by {
                    if a < pos {
                        assert(sessions@[a] == before[a]);
                    } else if a == pos {
                        assert(summarizes(sessions@[a], self.connections@[k as int]));
                    } else {
                        assert(sessions@[a] == before[a - 1]);
                    }
                }
                lemma_insert_keeps_cover(before, sessions@, pos as int, self.connections@, k as int);
            }
            k = k + 1;
        }
        ServerSnapshot { active_connections: self.active_connection_count(), sessions }
    }
}

/// Some summary in `sums` summarizes session `s`.
pub open spec fn summarized_in(sums: Seq<SessionSnapshot>, s: ClientSession) -> bool {
    exists|a: int| 0 <= a < sums.len() && #[trigger] summarizes(sums[a], s)
}

/// Inserting the summary of session `k` into summaries that cover sessions `0..k` gives
/// summaries that cover sessions `0..k + 1`.
proof fn lemma_insert_keeps_cover(
    before: Seq<SessionSnapshot>,
    after: Seq<SessionSnapshot>,
    pos: int,
    conns: Seq<ClientSession>,
    k: int,
)
    requires
        0 <= pos <= before.len(),
        0 <= k < conns.len(),
        after == before.insert(pos, after[pos]),
        summarizes(after[pos], conns[k]),
        forall|j: int| 0 <= j < k ==> #[trigger] summarized_in(before, conns[j]),
    ensures
        forall|j: int| 0 <= j < k + 1 ==> #[trigger] summarized_in(after, conns[j]),
{
    assert forall|j: int| 0 <= j < k + 1 implies #[trigger] summarized_in(after, conns[j]) by {
        if j == k {
            assert(summarizes(after[pos], conns[j]));
        } else {
            assert(summarized_in(before, conns[j]));
            let a0 = choose|a: int| 0 <= a < before.len() && #[trigger] summarizes(before[a], conns[j]);
            if a0 < pos {
                assert(after[a0] == before[a0]);
                assert(summarizes(after[a0], conns[j]));
            } else {
                assert(after[a0 + 1] == before[a0]);
                assert(summarizes(after[a0 + 1], conns[j]));
            }
        }
    }
}

/// Text order is total and transitive where the insertion needs it: what follows the
/// insertion point comes after the inserted text, and so does all that follows it.
proof fn lemma_text_le_total_after(sorted: Seq<SessionSnapshot>, x: Seq<char>, pos: int)
    requires
        0 <= pos <= sorted.len(),
        forall|a: int, b: int|
            0 <= a < b < sorted.len() ==> text_le(#[trigger] sorted[a].address@, #[trigger] sorted[b].address@),
        pos < sorted.len() ==> !text_le(sorted[pos].address@, x),
    ensures
        forall|b: int| pos <= b < sorted.len() ==> text_le(x, #[trigger] sorted[b].address@),
{
    assert forall|b: int| pos <= b < sorted.len() implies text_le(x, #[trigger] sorted[b].address@) by {
        lemma_text_le_not(sorted[pos].address@, x);
        if b > pos {
            assert(text_le(sorted[pos].address@, sorted[b].address@));
            lemma_text_le_trans(x, sorted[pos].address@, sorted[b].address@);
        }
    }
}

proof fn lemma_text_le_not(a: Seq<char>, b: Seq<char>)
    ensures
        !text_le(a, b) ==> text_le(b, a),
    decreases a.len(),
{
    if a.len() > 0 && b.len() > 0 && a[0] == b[0] {
        lemma_text_le_not(a.drop_first(), b.drop_first());
    }
}

proof fn lemma_text_le_trans(a: Seq<char>, b: Seq<char>, c: Seq<char>)
    requires
        text_le(a, b),
        text_le(b, c),
    ensures
        text_le(a, c),
    decreases a.len(),
{
    if a.len() > 0 && b.len() > 0 && c.len() > 0 && a[0] == b[0] && b[0] == c[0] {
        lemma_text_le_trans(a.drop_first(), b.drop_first(), c.drop_first());
    }
}

/// How many sessions are marked connected.
pub open spec fn connected_count(conns: Seq<ClientSession>) -> nat
    decreases conns.len(),
{
    if conns.len() == 0 {
        0
    } else {
        connected_count(conns.drop_last()) + if conns.last().connected {
            1nat
        } else {
            0nat
        }
    }
}

} // verus!
