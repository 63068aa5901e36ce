//! The unconnected RakNet handshake: ping/pong with the server list MOTD, the two open
//! connection requests and the connection request, with the replies Bedrock clients
//! expect.
use crate::error::{Error, Result};
use crate::raknet::constants::{magic, MAGIC};
use crate::raknet::server::{is_fresh_session, session_pos, Clock, PeerAddr, RakNetServer};
use crate::util::buffer::{be64_at, u16_be_bytes, u64_be_bytes, u64_le_bytes};
use crate::util::text::{decimal, push_decimal};
use vstd::prelude::*;

verus! {

/// Append a 64-bit big-endian value.
pub fn push_u64_be(v: &mut Vec<u8>, x: u64)
    ensures
        final(v)@ == old(v)@ + u64_be_bytes(x),
{
    let b = [
        ((x >> 56u64) & 0xFF) as u8,
        ((x >> 48u64) & 0xFF) as u8,
        ((x >> 40u64) & 0xFF) as u8,
        ((x >> 32u64) & 0xFF) as u8,
        ((x >> 24u64) & 0xFF) as u8,
        ((x >> 16u64) & 0xFF) as u8,
        ((x >> 8u64) & 0xFF) as u8,
        (x & 0xFF) as u8,
    ];
    v.extend_from_slice(&b);
    proof {
        assert(b@ =~= u64_be_bytes(x));
    }
}

/// Append a 64-bit little-endian value.
pub fn push_u64_le(v: &mut Vec<u8>, x: u64)
    ensures
        final(v)@ == old(v)@ + u64_le_bytes(x),
{
    let b = [
        (x & 0xFF) as u8,
        ((x >> 8u64) & 0xFF) as u8,
        ((x >> 16u64) & 0xFF) as u8,
        ((x >> 24u64) & 0xFF) as u8,
        ((x >> 32u64) & 0xFF) as u8,
        ((x >> 40u64) & 0xFF) as u8,
        ((x >> 48u64) & 0xFF) as u8,
        ((x >> 56u64) & 0xFF) as u8,
    ];
    v.extend_from_slice(&b);
    proof {
        assert(b@ =~= u64_le_bytes(x));
    }
}

/// Append a 16-bit big-endian value.
pub fn push_u16_be(v: &mut Vec<u8>, x: u16)
    ensures
        final(v)@ == old(v)@ + u16_be_bytes(x),
{
    v.push(((x >> 8u16) & 0xFF) as u8);
    v.push((x & 0xFF) as u8);
    proof {
        assert(final(v)@ =~= old(v)@ + u16_be_bytes(x));
    }
}

fn push_magic(v: &mut Vec<u8>)
    ensures
        final(v)@ == old(v)@ + magic(),
{
    let m = MAGIC;
    v.extend_from_slice(&m);
    proof {
        assert(m@ =~= magic());
    }
}

/// The server-list title shown at a wall-clock second: it changes every 5 seconds.
pub open spec fn motd_title(wall_secs: u64) -> Seq<char> {
    let stage = (wall_secs / 5) % 3;
    if stage == 0 {
        "Skin acquisition software!!"@
    } else if stage == 1 {
        "SkinGetBE"@
    } else {
        "Created by androidprod"@
    }
}

/// The server-list MOTD: `MCPE;title;protocol;version;0;100;guid;SkinGetBE;Creative;1;port;port;`.
pub open spec fn motd_text(title: Seq<char>, protocol: u16, version: Seq<char>, guid: u64, port: u16) -> Seq<
    char,
> {
    "MCPE;"@ + title + ";"@ + decimal(protocol as nat) + ";"@ + version + ";0;100;"@ + decimal(
        guid as nat,
    ) + ";SkinGetBE;Creative;1;"@ + decimal(port as nat) + ";"@ + decimal(port as nat) + ";"@
}

/// Unconnected Pong: id 0x1C, the client's time, the server guid, the magic, then the
/// MOTD as UTF-8 with its big-endian 16-bit length.
pub open spec fn pong_bytes(time: Seq<u8>, guid: u64, motd: Seq<char>) -> Seq<u8> {
    let m = vstd::utf8::encode_utf8(motd);
    seq![0x1Cu8] + time + u64_be_bytes(guid) + magic() + u16_be_bytes(m.len() as u16) + m
}

/// Open Connection Reply 1: id 0x06, magic, server guid, security flag 0, MTU.
pub open spec fn reply1_bytes(guid: u64, mtu: u16) -> Seq<u8> {
    seq![0x06u8] + magic() + u64_be_bytes(guid) + seq![0u8] + u16_be_bytes(mtu)
}

/// The client address as the server sees it, as Open Connection Reply 2 writes it:
/// family 4 and the four octets, or family 6 and the sixteen, then the big-endian port.
/// A peer of neither family (no socket address is one) is written as the unspecified
/// IPv6 address.
pub open spec fn seen_address(ipv4: Option<[u8; 4]>, ipv6: Option<[u8; 16]>, port: u16) -> Seq<u8> {
    match ipv4 {
        Some(o) => seq![0x04u8] + o@ + u16_be_bytes(port),
        None => seq![0x06u8] + match ipv6 {
            Some(o) => o@,
            None => Seq::new(16, |i: int| 0u8),
        } + u16_be_bytes(port),
    }
}

/// Open Connection Reply 2: id 0x08, magic, server guid, the client address as the
/// server sees it, MTU, security flag 0.
pub open spec fn reply2_bytes(guid: u64, client: Seq<u8>, mtu: u16) -> Seq<u8> {
    seq![0x08u8] + magic() + u64_be_bytes(guid) + client + u16_be_bytes(mtu) + seq![0u8]
}

/// The four address bytes RakNet writes for a peer: each octet inverted, and the
/// inverted loopback address for a peer that is not IPv4.
pub open spec fn inverted_ip(ipv4: Option<[u8; 4]>) -> Seq<u8> {
    match ipv4 {
        Some(o) => seq![!o[0], !o[1], !o[2], !o[3]],
        None => seq![!127u8, !0u8, !0u8, !1u8],
    }
}

/// A RakNet IPv4 address block: type 4, inverted octets, big-endian port.
pub open spec fn raknet_address(ipv4: Option<[u8; 4]>, port: u16) -> Seq<u8> {
    seq![0x04u8] + inverted_ip(ipv4) + u16_be_bytes(port)
}

/// `n` copies of `block`.
pub open spec fn repeated(block: Seq<u8>, n: nat) -> Seq<u8>
    decreases n,
{
    if n == 0 {
        Seq::empty()
    } else {
        repeated(block, (n - 1) as nat) + block
    }
}

/// The client's request time in a connection request: the big-endian u64 after the id
/// and the client guid, or 0 when the request is shorter than 17 bytes.
pub open spec fn request_time(data: Seq<u8>) -> u64 {
    if data.len() >= 17 {
        be64_at(data, 9)
    } else {
        0
    }
}

/// The request time a connection request carries is what the answer echoes: for a
/// request made of the id, the client guid and the request time (both big-endian) and
/// anything after them, `request_time` is the request time, whatever the guid.
pub proof fn lemma_request_time_is_echoed(id: u8, guid: u64, time: u64, rest: Seq<u8>)
    ensures
        request_time(seq![id] + crate::util::buffer::u64_be_bytes(guid)
            + crate::util::buffer::u64_be_bytes(time) + rest) == time,
{
    let head = seq![id] + crate::util::buffer::u64_be_bytes(guid);
    let tb = crate::util::buffer::u64_be_bytes(time);
    let d = head + tb + rest;
    crate::util::buffer::lemma_u64_written_reads_back(head, time);
    let e = head + tb;
    assert(head.len() == 9);
    assert forall|i: int| 0 <= i < 17 implies d[i] == e[i] by {}
    assert(d.len() >= 17);
    assert(be64_at(d, 9) == be64_at(e, 9));
}

/// Connection Request Accepted as sent before a session is framed: id 0x10, type 4, the
/// inverted client IP, its port, ten `0.0.0.0:0` blocks, request and accept times
/// (big-endian).
pub open spec fn unframed_accept_bytes(peer_ip: Option<[u8; 4]>, port: u16, request: u64, now_ms: u64) -> Seq<
    u8,
> {
    seq![0x10u8, 0x04u8] + inverted_ip(peer_ip) + u16_be_bytes(port) + repeated(
        seq![0x04u8, 0xFFu8, 0xFFu8, 0xFFu8, 0xFFu8, 0x00u8, 0x00u8],
        10,
    ) + u64_be_bytes(request) + u64_be_bytes(now_ms)
}

/// Connection Request Accepted as sent in a frame: id 0x10, the client address, a zero
/// short, ten loopback `127.0.0.1:0` addresses, request and accept times (little-endian).
pub open spec fn accept_bytes(peer_ip: Option<[u8; 4]>, port: u16, request: u64, now_ms: u64) -> Seq<u8> {
    seq![0x10u8] + raknet_address(peer_ip, port) + seq![0u8, 0u8] + repeated(
        raknet_address(Some([127u8, 0u8, 0u8, 1u8]), 0),
        10,
    ) + u64_le_bytes(request) + u64_le_bytes(now_ms)
}

fn push_inverted_ip(v: &mut Vec<u8>, ipv4: Option<[u8; 4]>)
    ensures
        final(v)@ == old(v)@ + inverted_ip(ipv4),
{
    match ipv4 {
        Some(o) => {
            v.push(!o[0]);
            v.push(!o[1]);
            v.push(!o[2]);
            v.push(!o[3]);
        },
        None => {
            v.push(!127u8);
            v.push(!0u8);
            v.push(!0u8);
            v.push(!1u8);
        },
    }
    proof {
        assert(final(v)@ =~= old(v)@ + inverted_ip(ipv4));
    }
}

fn push_seen_address(v: &mut Vec<u8>, from: &PeerAddr)
    ensures
        final(v)@ == old(v)@ + seen_address(from.ipv4, from.ipv6, from.port),
{
    let ghost v0 = v@;
    match from.ipv4 {
        Some(o) => {
            v.push(0x04);
            v.extend_from_slice(&o);
        },
        None => {
            v.push(0x06);
            match from.ipv6 {
                Some(o) => {
                    v.extend_from_slice(&o);
                },
                None => {
                    let z: [u8; 16] = [0u8; 16];
                    v.extend_from_slice(&z);
                    assert(z@ =~= Seq::new(16, |i: int| 0u8));
                },
            }
        },
    }
    push_u16_be(v, from.port);
    proof {
        assert(v@ =~= v0 + seen_address(from.ipv4, from.ipv6, from.port));
    }
}

fn push_raknet_address(v: &mut Vec<u8>, ipv4: Option<[u8; 4]>, port: u16)
    ensures
        final(v)@ == old(v)@ + raknet_address(ipv4, port),
{
    let ghost v0 = v@;
    v.push(0x04);
    push_inverted_ip(v, ipv4);
    push_u16_be(v, port);
    proof {
        assert(v@ =~= v0 + raknet_address(ipv4, port));
    }
}

fn push_repeated(v: &mut Vec<u8>, block: &[u8], n: usize)
    ensures
        final(v)@ == old(v)@ + repeated(block@, n as nat),
{
    let mut i: usize = 0;
    while i < n
        invariant
            i <= n,
            v@ == old(v)@ + repeated(block@, i as nat),
        decreases n - i,
    {
        let ghost before = v@;
        v.extend_from_slice(block);
        proof {
            assert(v@ =~= old(v)@ + repeated(block@, (i + 1) as nat));
        }
        i = i + 1;
    }
}

fn read_be64(data: &[u8], i: usize) -> (r: u64)
    requires
        i + 8 <= data@.len(),
    ensures
        r == be64_at(data@, i as int),
{
    ((data[i] as u64) << 56u64) | ((data[i + 1] as u64) << 48u64) | ((data[i + 2] as u64)
        << 40u64) | ((data[i + 3] as u64) << 32u64) | ((data[i + 4] as u64) << 24u64) | ((data[i
        + 5] as u64) << 16u64) | ((data[i + 6] as u64) << 8u64) | (data[i + 7] as u64)
}

/// The Unconnected Pong a ping gets at a wall-clock time: it echoes the client's time
/// and advertises the protocol and version of the peer's session when it has one, the
/// server's runtime ones otherwise.
pub open spec fn ping_reply(server: RakNetServer, from: Seq<char>, data: Seq<u8>, wall_ms: u64) -> Seq<u8> {
    let (proto, ver) = match session_pos(server.connections@, from) {
        Some(i) => (server.connections@[i].bedrock_protocol, server.connections@[i].bedrock_version@),
        None => (server.runtime_protocol_version, server.runtime_version@),
    };
    let motd = motd_text(
        motd_title(wall_ms / 1000),
        proto,
        ver,
        server.config.server_guid,
        server.config.server_port,
    );
    pong_bytes(data.subrange(1, 9), server.config.server_guid, motd)
}

impl RakNetServer {
    /// Handle UNCONNECTED_PING (0x01): the pong carries the protocol and version of the
    /// peer's session when it has one, the advertised ones otherwise.
    pub fn handle_unconnected_ping(&self, data: &[u8], from: &PeerAddr, now: &Clock) -> (r: Result<
        Vec<u8>,
    >)
        ensures
            data@.len() < 25 ==> (r matches Err(e) && e is ProtocolError),
            data@.len() >= 25 ==> (r matches Ok(p) && p@ == ping_reply(*self, from.text@, data@, now.wall_ms)),
    {
        if data.len() < 25 {
            return Err(Error::ProtocolError(String::from_str("Ping packet too short")));
        }
        let (proto, ver) = match self.find_session(from.text.as_str()) {
            Some(i) => (self.connections[i].bedrock_protocol, self.connections[i].bedrock_version.clone()),
            None => (self.effective_protocol_version(), self.effective_version()),
        };
        let secs = now.wall_ms / 1000;
        let stage = (secs / 5) % 3;
        let mut motd = String::from_str("MCPE;");
        if stage == 0 {
            motd.append("Skin acquisition software!!");
        } else if stage == 1 {
            motd.append("SkinGetBE");
        } else {
            motd.append("Created by androidprod");
        }
        motd.append(";");
        push_decimal(&mut motd, proto as u128);
        motd.append(";");
        motd.append(ver.as_str());
        motd.append(";0;100;");
        push_decimal(&mut motd, self.config.server_guid as u128);
        motd.append(";SkinGetBE;Creative;1;");
        push_decimal(&mut motd, self.config.server_port as u128);
        motd.append(";");
        push_decimal(&mut motd, self.config.server_port as u128);
        motd.append(";");
        let mut response: Vec<u8> = Vec::new();
        response.push(0x1C);
        let time = vstd::slice::slice_subrange(data, 1, 9);
        response.extend_from_slice(time);
        push_u64_be(&mut response, self.config.server_guid);
        push_magic(&mut response);
        let motd_bytes = motd.as_str().as_bytes();
        push_u16_be(&mut response, motd_bytes.len() as u16);
        response.extend_from_slice(motd_bytes);
        proof {
            let title = motd_title(secs);
            assert(motd@ =~= motd_text(
                title,
                proto,
                ver@,
                self.config.server_guid,
                self.config.server_port,
            ));
            assert(response@ =~= pong_bytes(data@.subrange(1, 9), self.config.server_guid, motd@));
        }
        Ok(response)
    }

    /// Handle OPEN_CONNECTION_REQUEST_1 (0x05): a session is made (not connected) for a
    /// peer without one, and its RakNet protocol set from the request.
    pub fn handle_open_connection_request_1(&mut self, data: &[u8], from: &PeerAddr) -> (r: Result<
        Vec<u8>,
    >)
        requires
            old(self).wf(),
        ensures
            final(self).wf(),
            data@.len() < 17 ==> (r matches Err(e) && e is ProtocolError) && final(self).connections@
                == old(self).connections@,
            data@.len() >= 17 ==> (r matches Ok(p) && p@ == reply1_bytes(
                old(self).config.server_guid,
                old(self).config.mtu_size,
            )),
            data@.len() > 17 ==> (session_pos(final(self).connections@, from.text@) matches Some(i)
                && final(self).connections@[i].raknet_protocol == data@[17]),
            final(self).split_buffers@ == old(self).split_buffers@,
            final(self).config == old(self).config,
            final(self).runtime_protocol_version == old(self).runtime_protocol_version,
            final(self).runtime_version@ == old(self).runtime_version@,
            final(self).version_fallback == old(self).version_fallback,
    {
        if data.len() < 17 {
            return Err(Error::ProtocolError(String::from_str("OCR1 packet too short")));
        }
        if let Some(protocol) = Self::extract_open_connection_protocol(data) {
            let i = self.ensure_session(from, false, protocol);
            let ghost conns = self.connections@;
            let mut s = self.take_session(i);
            s.raknet_protocol = protocol;
            self.put_session(i, s, Ghost(conns));
        }
        let mut response: Vec<u8> = Vec::new();
        response.push(0x06);
        push_magic(&mut response);
        push_u64_be(&mut response, self.config.server_guid);
        response.push(0);
        push_u16_be(&mut response, self.config.mtu_size);
        proof {
            assert(response@ =~= reply1_bytes(self.config.server_guid, self.config.mtu_size));
        }
        Ok(response)
    }

    /// Handle OPEN_CONNECTION_REQUEST_2 (0x07).
    pub fn handle_open_connection_request_2(&self, data: &[u8], from: &PeerAddr) -> (r: Result<
        Vec<u8>,
    >)
        ensures
            data@.len() < 19 ==> (r matches Err(e) && e is ProtocolError),
            data@.len() >= 19 ==> (r matches Ok(p) && p@ == reply2_bytes(
                self.config.server_guid,
                seen_address(from.ipv4, from.ipv6, from.port),
                self.config.mtu_size,
            )),
    {
        if data.len() < 19 {
            return Err(Error::ProtocolError(String::from_str("OCR2 packet too short")));
        }
        let mut response: Vec<u8> = Vec::new();
        response.push(0x08);
        push_magic(&mut response);
        push_u64_be(&mut response, self.config.server_guid);
        push_seen_address(&mut response, from);
        push_u16_be(&mut response, self.config.mtu_size);
        response.push(0);
        proof {
            assert(response@ =~= reply2_bytes(
                self.config.server_guid,
                seen_address(from.ipv4, from.ipv6, from.port),
                self.config.mtu_size,
            ));
        }
        Ok(response)
    }

    /// Handle CONNECTION_REQUEST (0x09) outside a frame: a connected session is made for a
    /// peer without one, and the acceptance is answered directly.
    pub fn handle_connection_request(&mut self, data: &[u8], from: &PeerAddr, now: &Clock) -> (r:
        Vec<u8>)
        requires
            old(self).wf(),
        ensures
            final(self).wf(),
            r@ == unframed_accept_bytes(from.ipv4, from.port, request_time(data@), now.wall_ms),
            session_pos(final(self).connections@, from.text@) is Some,
            session_pos(old(self).connections@, from.text@) is Some ==> final(self).connections@
                == old(self).connections@,
            session_pos(old(self).connections@, from.text@) is None ==> ({
                let n = old(self).connections@.len() as int;
                &&& final(self).connections@.len() == n + 1
                &&& final(self).connections@.take(n) == old(self).connections@
                &&& is_fresh_session(
                    final(self).connections@[n],
                    from.text@,
                    true,
                    0,
                    old(self).runtime_protocol_version,
                    old(self).runtime_version@,
                )
            }),
            final(self).split_buffers@ == old(self).split_buffers@,
            final(self).config == old(self).config,
            final(self).runtime_protocol_version == old(self).runtime_protocol_version,
            final(self).runtime_version@ == old(self).runtime_version@,
            final(self).version_fallback == old(self).version_fallback,
    {
        let request: u64 = if data.len() >= 17 {
            read_be64(data, 9)
        } else {
            0
        };
        self.ensure_session(from, true, 0);
        let mut response: Vec<u8> = Vec::new();
        response.push(0x10);
        response.push(0x04);
        push_inverted_ip(&mut response, from.ipv4);
        push_u16_be(&mut response, from.port);
        let block: [u8; 7] = [0x04, 0xFF, 0xFF, 0xFF, 0xFF, 0x00, 0x00];
        push_repeated(&mut response, &block, 10);
        push_u64_be(&mut response, request);
        push_u64_be(&mut response, now.wall_ms);
        proof {
            assert(block@ =~= seq![0x04u8, 0xFFu8, 0xFFu8, 0xFFu8, 0xFFu8, 0x00u8, 0x00u8]);
            assert(response@ =~= unframed_accept_bytes(
                from.ipv4,
                from.port,
                request_time(data@),
                now.wall_ms,
            ));
        }
        response
    }

    /// The Connection Request Accepted payload for a framed CONNECTION_REQUEST (0x09).
    pub fn connection_accepted_payload(data: &[u8], from: &PeerAddr, now: &Clock) -> (r: Vec<u8>)
        ensures
            r@ == accept_bytes(from.ipv4, from.port, request_time(data@), now.wall_ms),
    {
        let request: u64 = if data.len() >= 17 {
            read_be64(data, 9)
        } else {
            0
        };
        let mut response: Vec<u8> = Vec::new();
        response.push(0x10);
        push_raknet_address(&mut response, from.ipv4, from.port);
        response.push(0);
        response.push(0);
        let mut loopback: Vec<u8> = Vec::new();
        push_raknet_address(&mut loopback, Some([127u8, 0u8, 0u8, 1u8]), 0);
        push_repeated(&mut response, loopback.as_slice(), 10);
        push_u64_le(&mut response, request);
        push_u64_le(&mut response, now.wall_ms);
        proof {
            assert(response@ =~= accept_bytes(
                from.ipv4,
                from.port,
                request_time(data@),
                now.wall_ms,
            ));
        }
        response
    }
}

} // verus!
