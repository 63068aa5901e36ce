//! Bedrock packets inside a RakNet session: network settings negotiation, the login
//! capture and the responses sent back in batches.
use crate::bedrock::batch::{compress_batch, encode_batch};
use crate::bedrock::compress::raw_deflated;
use crate::bedrock::login::{parse_login_packet, parsed_login};
use crate::bedrock::responses::{
    build_disconnect, build_network_settings, build_play_status, disconnect_bytes,
    network_settings_bytes, play_status_bytes,
};
use crate::bedrock::skin::ExtractedSkin;
use crate::bedrock::version::{resolve_version, resolved_version};
use crate::raknet::session::ClientSession;
use crate::raknet::server::{
    session_pos, CaptureRequest, Outgoing, PeerAddr, RakNetServer,
};
use crate::util::buffer::{be32, read_var_int_at, var_int_bytes, Buffer};
use vstd::prelude::*;

verus! {

/// Whether the peer's session has negotiated compression (no session: no).
pub open spec fn session_compression(server: RakNetServer, key: Seq<char>) -> bool {
    match session_pos(server.connections@, key) {
        Some(i) => server.connections@[i].compression_enabled,
        None => false,
    }
}

/// The batch carrying one Bedrock packet: 0xFE and the length-prefixed packet, stored
/// as it is or, when compressed, as 0x00 and the raw DEFLATE stream (level 7) of it
/// (stored after all when the encoder fails).
pub open spec fn response_batch(packet: Seq<u8>, compressed: bool) -> Seq<u8> {
    let wrapped = var_int_bytes(packet.len() as u32) + packet;
    if compressed {
        match raw_deflated(wrapped, 7) {
            Some(z) => seq![0xFEu8, 0x00u8] + z,
            None => seq![0xFEu8] + wrapped,
        }
    } else {
        seq![0xFEu8] + wrapped
    }
}

/// The batch carrying several Bedrock packets: 0xFE, then with compression 0x00 and the
/// DEFLATE stream of the length-prefixed packets (or the packets themselves when the
/// encoder fails), without compression the length-prefixed packets.
pub open spec fn bundle_batch(packets: Seq<Seq<u8>>, compressed: bool) -> Seq<u8> {
    let combined = encode_batch(packets);
    if !compressed {
        seq![0xFEu8] + combined
    } else {
        match raw_deflated(combined, 7) {
            Some(z) => seq![0xFEu8, 0x00u8] + z,
            None => seq![0xFEu8, 0x00u8] + combined,
        }
    }
}

/// The packet id of a Bedrock packet and where its body starts: a VarInt, or the first
/// byte when no VarInt reads (the body then starts after at most 5 bytes).
pub open spec fn bedrock_packet_head(d: Seq<u8>) -> (u32, int) {
    match read_var_int_at(d, 0) {
        Some((id, p)) => (id, p),
        None => (
            d[0] as u32,
            if 5 <= d.len() {
                5
            } else {
                d.len() as int
            },
        ),
    }
}

/// The protocol a RequestNetworkSettings body carries: a big-endian u32, or `fallback`
/// when fewer than 4 bytes follow the id.
pub open spec fn requested_protocol(d: Seq<u8>, fallback: u32) -> u32 {
    let p = bedrock_packet_head(d).1;
    if p + 4 <= d.len() {
        be32(d[p], d[p + 1], d[p + 2], d[p + 3])
    } else {
        fallback
    }
}

/// What a Login packet with this body does: a login that parses brings the runtime
/// protocol and version to the client's and, when its image has the size its dimensions
/// call for, asks for the capture to be saved (with the server's save mode); otherwise
/// nothing is asked and the runtime protocol and version stay.
pub open spec fn login_handled(before: RakNetServer, after: RakNetServer, r: Seq<Outgoing>, body: Seq<u8>) -> bool {
    match parsed_login(body) {
        Some(c) => {
            &&& after.runtime_protocol_version == c.protocol as u16
            &&& after.runtime_version@ == resolved_version(
                before.version_fallback.version@,
                (c.protocol as u16) as u32,
            )
            &&& if c.skin_data.len() == c.skin_width * c.skin_height * 4 {
                &&& r.len() == 1
                &&& r[0] matches Outgoing::SaveCapture(req) && req.protocol == c.protocol
                    && req.player_name@ == c.player_name && req.skin_id@ == c.skin_id
                    && req.metadata@ == c.metadata && req.skin.width == c.skin_width
                    && req.skin.height == c.skin_height && req.skin.data@ == c.skin_data
                    && req.savemode == before.config.savemode
            } else {
                r.len() == 0
            }
        },
        None => r.len() == 0 && after.runtime_protocol_version == before.runtime_protocol_version
            && after.runtime_version@ == before.runtime_version@,
    }
}

/// One Bedrock packet from peer `from` taken in by the server (`process_single_bedrock_packet`):
/// nothing happens for an empty packet or a peer without a session; a
/// RequestNetworkSettings (0xC1) records the client's protocol and version on its session,
/// turns compression on and is answered with NetworkSettings, uncompressed; a Login
/// (0x01) is handled as `login_handled` says; other packets change nothing.
pub open spec fn single_packet_step(
    before: RakNetServer,
    after: RakNetServer,
    data: Seq<u8>,
    from: Seq<char>,
    r: Seq<Outgoing>,
) -> bool {
    &&& (data.len() == 0 || session_pos(before.connections@, from) is None ==> r.len()
            == 0 && after.connections@ == before.connections@
            && after.runtime_protocol_version == before.runtime_protocol_version)
    &&& (data.len() > 0 && session_pos(before.connections@, from) is Some
            && bedrock_packet_head(data).0 == 0xc1 ==> ({
            let i = session_pos(before.connections@, from)->0;
            let proto = requested_protocol(data, before.runtime_protocol_version as u32);
            let s = after.connections@[i];
            &&& after.connections@.len() == before.connections@.len()
            &&& s.bedrock_protocol == proto as u16
            &&& s.bedrock_version@ == resolved_version(before.version_fallback.version@, proto)
            &&& s == (ClientSession {
                bedrock_protocol: s.bedrock_protocol,
                bedrock_version: s.bedrock_version,
                compression_enabled: true,
                compression_algo: None,
                ..before.connections@[i]
            })
            &&& forall|k: int|
                0 <= k < before.connections@.len() && k != i ==> after.connections@[k]
                    == before.connections@[k]
            &&& r.len() == 1
            &&& r[0] matches Outgoing::Frame(p, rel) && rel == 3 && p@ == response_batch(
                network_settings_bytes(),
                false,
            )
            &&& after.runtime_protocol_version == before.runtime_protocol_version
            &&& after.runtime_version@ == before.runtime_version@
        }))
    &&& (data.len() > 0 && session_pos(before.connections@, from) is Some
            && bedrock_packet_head(data).0 != 0xc1 && bedrock_packet_head(data).0 != 0x01
            ==> r.len() == 0 && after.connections@ == before.connections@
            && after.runtime_protocol_version == before.runtime_protocol_version
            && after.runtime_version@ == before.runtime_version@)
    &&& (data.len() > 0 && session_pos(before.connections@, from) is Some
            && bedrock_packet_head(data).0 == 0x01 ==> login_handled(
            before,
            after,
            r,
            data.subrange(bedrock_packet_head(data).1, data.len() as int),
        ) && after.connections@ == before.connections@)
    &&& after.split_buffers@ == before.split_buffers@
    &&& after.config == before.config
    &&& after.version_fallback == before.version_fallback
}

impl RakNetServer {
    /// The batch that carries one Bedrock packet to `to`; compressed when the peer
    /// negotiated compression and `force_uncompressed` is not set.  When compressing
    /// fails the packet is sent stored.
    pub fn bedrock_response_payload(&self, packet: &[u8], to: &PeerAddr, force_uncompressed: bool) -> (r:
        Vec<u8>)
        requires
            packet@.len() <= u32::MAX,
        ensures
            ({
                let compressed = !force_uncompressed && session_compression(*self, to.text@);
                r@ == response_batch(packet@, compressed)
            }),
    {
        let compressed = if force_uncompressed {
            false
        } else {
            match self.find_session(to.text.as_str()) {
                Some(i) => self.connections[i].compression_enabled,
                None => false,
            }
        };
        let mut wrapped = Buffer::new();
        let _ = wrapped.write_var_int(packet.len() as u32);
        let _ = wrapped.write_bytes(packet);
        let mut batch: Vec<u8> = Vec::new();
        batch.push(0xFE);
        if compressed {
            match compress_batch(wrapped.as_slice()) {
                Ok(c) => {
                    batch.extend_from_slice(c.as_slice());
                    proof {
                        assert(batch@ =~= response_batch(packet@, compressed));
                    }
                    return batch;
                },
                Err(_) => {},
            }
        }
        batch.extend_from_slice(wrapped.as_slice());
        proof {
            assert(batch@ =~= response_batch(packet@, compressed));
        }
        batch
    }

    /// The batch that carries several Bedrock packets to `to` at once.
    pub fn bundle_payload(&self, packets: &Vec<Vec<u8>>, to: &PeerAddr) -> (r: Vec<u8>)
        requires
            forall|i: int| 0 <= i < packets@.len() ==> #[trigger] packets@[i]@.len() <= u32::MAX,
        ensures
            ({
                let compressed = session_compression(*self, to.text@);
                let ps = packets@.map_values(|p: Vec<u8>| p@);
                r@ == bundle_batch(ps, compressed)
            }),
    {
        let compressed = match self.find_session(to.text.as_str()) {
            Some(i) => self.connections[i].compression_enabled,
            None => false,
        };
        let ghost ps = packets@.map_values(|p: Vec<u8>| p@);
        let mut combined: Vec<u8> = Vec::new();
        let mut k: usize = packets.len();
        proof {
            assert(ps.skip(k as int) =~= Seq::<Seq<u8>>::empty());
        }
        let mut tail: Vec<u8> = Vec::new();
        while k > 0
            invariant
                k <= packets@.len(),
                ps == packets@.map_values(|p: Vec<u8>| p@),
                forall|i: int| 0 <= i < packets@.len() ==> #[trigger] packets@[i]@.len() <= u32::MAX,
                tail@ == encode_batch(ps.skip(k as int)),
            decreases k,
        {
            k = k - 1;
            let mut item = Buffer::new();
            let _ = item.write_var_int(packets[k].len() as u32);
            let _ = item.write_bytes(packets[k].as_slice());
            let mut v = item.to_vec();
            v.append(&mut tail);
            tail = v;
            proof {
                assert(ps.skip(k as int).drop_first() =~= ps.skip(k + 1));
                assert(ps.skip(k as int)[0] == packets@[k as int]@);
            }
        }
        proof {
            assert(ps.skip(0) =~= ps);
        }
        combined = tail;
        let mut body: Vec<u8> = Vec::new();
        body.push(0xFE);
        if compressed {
            match compress_batch(combined.as_slice()) {
                Ok(c) => {
                    body.extend_from_slice(c.as_slice());
                    proof {
                        assert(body@ =~= bundle_batch(ps, compressed));
                    }
                },
                Err(_) => {
                    body.push(0x00);
                    body.extend_from_slice(combined.as_slice());
                    proof {
                        assert(body@ =~= bundle_batch(ps, compressed));
                    }
                },
            }
        } else {
            body.extend_from_slice(combined.as_slice());
            proof {
                assert(body@ =~= bundle_batch(ps, compressed));
            }
        }
        body
    }

    /// Handle LOGIN packet (0x01) whose body is what is left in `buf`: a login that parses
    /// brings the runtime protocol to the client's and, when its image has the size its
    /// dimensions call for, asks for the capture to be saved.
    pub fn handle_login_packet(&mut self, buf: &mut Buffer, from: &PeerAddr) -> (r: Vec<Outgoing>)
        requires
            old(self).wf(),
        ensures
            final(self).wf(),
            login_handled(
                *old(self),
                *final(self),
                r@,
                old(buf).bytes().subrange(old(buf).pos() as int, old(buf).bytes().len() as int),
            ),
            final(self).connections@ == old(self).connections@,
            final(self).split_buffers@ == old(self).split_buffers@,
            final(self).config == old(self).config,
            final(self).version_fallback == old(self).version_fallback,
    {
        let remaining = buf.read_remaining();
        let mut out: Vec<Outgoing> = Vec::new();
        match parse_login_packet(remaining.as_slice()) {
            Ok(Some(parsed)) => {
                self.sync_client_version(parsed.protocol as u16);
                let width = parsed.skin_width;
                let height = parsed.skin_height;
                match ExtractedSkin::new(width, height, parsed.skin_data) {
                    Ok(skin) => {
                        out.push(
                            Outgoing::SaveCapture(
                                CaptureRequest {
                                    protocol: parsed.protocol,
                                    player_name: parsed.player_name,
                                    skin_id: parsed.skin_id,
                                    metadata: parsed.metadata,
                                    skin,
                                    savemode: self.config.savemode,
                                },
                            ),
                        );
                    },
                    Err(_) => {},
                }
                out
            },
            _ => out,
        }
    }

    /// RequestNetworkSettings (0xC1) from the peer of session `i`, whose body is what is
    /// left in `buf`.
    fn handle_network_settings_request(&mut self, i: usize, buf: &mut Buffer, from: &PeerAddr) -> (r:
        Vec<Outgoing>)
        requires
            old(self).wf(),
            i < old(self).connections@.len(),
            old(self).connections@[i as int].address@ == from.text@,
            session_pos(old(self).connections@, from.text@) == Some(i as int),
        ensures
            final(self).wf(),
            ({
                let p = old(buf).pos() as int;
                let d = old(buf).bytes();
                let proto = if p + 4 <= d.len() {
                    be32(d[p], d[p + 1], d[p + 2], d[p + 3])
                } else {
                    old(self).runtime_protocol_version as u32
                };
                let s = final(self).connections@[i as int];
                &&& final(self).connections@.len() == old(self).connections@.len()
                &&& s.bedrock_protocol == proto as u16
                &&& s.bedrock_version@ == resolved_version(old(self).version_fallback.version@, proto)
                &&& s == (ClientSession {
                    bedrock_protocol: s.bedrock_protocol,
                    bedrock_version: s.bedrock_version,
                    compression_enabled: true,
                    compression_algo: None,
                    ..old(self).connections@[i as int]
                })
                &&& forall|k: int|
                    0 <= k < old(self).connections@.len() && k != i ==> final(self).connections@[k]
                        == old(self).connections@[k]
                &&& r@.len() == 1
                &&& r@[0] matches Outgoing::Frame(pl, rel) && rel == 3 && pl@ == response_batch(
                    network_settings_bytes(),
                    false,
                )
            }),
            final(self).runtime_protocol_version == old(self).runtime_protocol_version,
            final(self).runtime_version@ == old(self).runtime_version@,
            final(self).split_buffers@ == old(self).split_buffers@,
            final(self).config == old(self).config,
            final(self).version_fallback == old(self).version_fallback,
    {
        let mut out: Vec<Outgoing> = Vec::new();
        let proto = match buf.read_u32() {
            Ok(v) => v,
            Err(_) => self.effective_protocol_version() as u32,
        };
        let ver = resolve_version(&self.version_fallback, proto);
        let ghost conns = self.connections@;
        let mut s = self.take_session(i);
        s.bedrock_protocol = proto as u16;
        s.bedrock_version = ver;
        s.compression_enabled = true;
        s.compression_algo = None;
        self.put_session(i, s, Ghost(conns));
        let settings = build_network_settings();
        proof {
            crate::util::buffer::lemma_var_int_len(0x8f);
        }
        let payload = self.bedrock_response_payload(settings.as_slice(), from, true);
        out.push(Outgoing::Frame(payload, 3));
        out
    }

    /// Process a single Bedrock packet (already decompressed) from `from`.  Packets of a
    /// peer without a session are ignored.  LOGIN (0x01) goes to `handle_login_packet`;
    /// RequestNetworkSettings (0xC1) records the client's protocol and version on its
    /// session, turns compression on and answers with NetworkSettings, uncompressed.
    /// Other packets change nothing.
    pub fn process_single_bedrock_packet(&mut self, data: &[u8], from: &PeerAddr) -> (r: Vec<Outgoing>)
        requires
            old(self).wf(),
        ensures
            final(self).wf(),
            single_packet_step(*old(self), *final(self), data@, from.text@, r@),
            final(self).split_buffers@ == old(self).split_buffers@,
            final(self).config == old(self).config,
            final(self).version_fallback == old(self).version_fallback,
    {
        let mut out: Vec<Outgoing> = Vec::new();
        if data.len() == 0 {
            return out;
        }
        let i = match self.find_session(from.text.as_str()) {
            Some(i) => i,
            None => {
                return out;
            },
        };
        let mut buf = Buffer::from(data);
        let packet_id = match buf.read_var_int() {
            Ok(id) => id,
            Err(_) => data[0] as u32,
        };
        if packet_id == 0x01 {
            return self.handle_login_packet(&mut buf, from);
        }
        if packet_id == 0xc1 {
            return self.handle_network_settings_request(i, &mut buf, from);
        }
        out
    }

    /// The outcome of saving a capture for `from`: after a failure nothing more is done;
    /// after a success the peer's session records the player, the file and the client's
    /// protocol and version, and the client is sent the capture bundle (PlayStatus and
    /// Disconnect), a Disconnect, and a RakNet disconnection notification, with pauses of
    /// 150 and 100 ms between them; the session is then marked disconnected and, 1.5
    /// seconds later, dropped.
    pub fn capture_saved(
        &mut self,
        from: &PeerAddr,
        req: &CaptureRequest,
        saved: Result<Option<String>, String>,
    ) -> (r: Vec<Outgoing>)
        requires
            old(self).wf(),
        ensures
            final(self).wf(),
            saved is Err ==> r@.len() == 0 && final(self).connections@ == old(self).connections@,
            saved matches Ok(path) ==> ({
                &&& final(self).connections@.len() == old(self).connections@.len()
                &&& (session_pos(old(self).connections@, from.text@) matches Some(i) ==> {
                    let s = final(self).connections@[i];
                    &&& s.username.deep_view() == Some(req.player_name@)
                    &&& s.skin_path.deep_view() == path.deep_view()
                    &&& s.bedrock_protocol == req.protocol as u16
                    &&& s.bedrock_version@ == resolved_version(
                        old(self).version_fallback.version@,
                        req.protocol,
                    )
                    &&& s == (ClientSession {
                        username: s.username,
                        skin_path: s.skin_path,
                        bedrock_protocol: s.bedrock_protocol,
                        bedrock_version: s.bedrock_version,
                        connected: false,
                        ..old(self).connections@[i]
                    })
                    &&& forall|k: int|
                        0 <= k < old(self).connections@.len() && k != i ==> #[trigger] final(self).connections@[k]
                            == old(self).connections@[k]
                })
                &&& (session_pos(old(self).connections@, from.text@) is None ==> final(self).connections@
                    == old(self).connections@)
                &&& r@.len() == 7
                &&& r@[0] matches Outgoing::Frame(p, rel) && rel == 3 && ({
                    let ps = seq![play_status_bytes(0), disconnect_bytes(0, "Skin captured"@)];
                    let c = session_compression(*old(self), from.text@);
                    p@ == bundle_batch(ps, c)
                })
                &&& r@[1] == Outgoing::Wait(150)
                &&& r@[2] matches Outgoing::Frame(p, rel) && rel == 3 && p@ == response_batch(
                    disconnect_bytes(0, "Skin captured"@),
                    session_compression(*old(self), from.text@),
                )
                &&& r@[3] == Outgoing::Wait(100)
                &&& r@[4] matches Outgoing::Frame(p, rel) && rel == 3 && p@ == seq![0x15u8]
                &&& r@[5] == Outgoing::Wait(1500)
                &&& r@[6] is RemoveConnection
            }),
            final(self).split_buffers@ == old(self).split_buffers@,
            final(self).config == old(self).config,
            final(self).version_fallback == old(self).version_fallback,
    {
        let mut out: Vec<Outgoing> = Vec::new();
        let path = match saved {
            Ok(p) => p,
            Err(_) => {
                return out;
            },
        };
        let version = resolve_version(&self.version_fallback, req.protocol);
        let ghost before = self.connections@;
        if let Some(i) = self.find_session(from.text.as_str()) {
            let ghost conns = self.connections@;
            let mut s = self.take_session(i);
            s.username = Some(req.player_name.clone());
            s.skin_path = path;
            s.bedrock_protocol = req.protocol as u16;
            s.bedrock_version = version;
            s.connected = true;
            self.put_session(i, s, Ghost(conns));
        }
        proof {
            crate::bedrock::responses::lemma_skin_captured_len();
            crate::bedrock::responses::lemma_disconnect_len(0, "Skin captured"@);
            crate::bedrock::responses::lemma_play_status_len(0);
        }
        let mut packets: Vec<Vec<u8>> = Vec::new();
        packets.push(build_play_status(0));
        packets.push(build_disconnect(0, "Skin captured"));
        assert(forall|i: int| 0 <= i < packets@.len() ==> #[trigger] packets@[i]@.len() <= u32::MAX);
        let bundle = self.bundle_payload(&packets, from);
        proof {
            assert(packets@.map_values(|p: Vec<u8>| p@) =~= seq![
                play_status_bytes(0),
                disconnect_bytes(0, "Skin captured"@),
            ]);
        }
        out.push(Outgoing::Frame(bundle, 3));
        out.push(Outgoing::Wait(150));
        let disconnect = build_disconnect(0, "Skin captured");
        let disc = self.bedrock_response_payload(disconnect.as_slice(), from, false);
        out.push(Outgoing::Frame(disc, 3));
        out.push(Outgoing::Wait(100));
        let mut note: Vec<u8> = Vec::new();
        note.push(0x15);
        out.push(Outgoing::Frame(note, 3));
        if let Some(i) = self.find_session(from.text.as_str()) {
            let ghost conns = self.connections@;
            let mut s = self.take_session(i);
            s.connected = false;
            self.put_session(i, s, Ghost(conns));
        }
        out.push(Outgoing::Wait(1500));
        out.push(Outgoing::RemoveConnection);
        out
    }
}

} // verus!
