//! Bedrock login packets: layout probing, player name, skin image and client metadata.
use crate::bedrock::skin::{sanitize_component, sanitized, skin_dimensions, skin_dimensions_of};
use crate::crypto::codec::{decode_standard, standard_decoded};
use crate::crypto::jwt::{
    auth_chain_from, json_value, jwt_payload, lemma_find_char_bounds, pad_to_four,
    parse_auth_chain, JWT,
};
use crate::error::{Error, Result};
use crate::util::buffer::{be32, le32, read_var_int_at, Buffer};
use crate::util::random::random_u32;
use crate::util::text::{
    count_char, count_char_in, decimal, find_char, find_char_from, parse_i32, parse_i32_str,
    parse_u32, parse_unsigned, push_decimal, str_chars, string_of, utf8_to_string,
};
use vstd::prelude::*;

verus! {

/// Login packet data structure
#[derive(Debug, Clone)]
pub struct LoginData {
    pub protocol: u32,
    pub username: String,
    pub xuid: String,
    pub uuid: String,
    pub device_os: i32,
    pub device_model: String,
}

impl LoginData {
    /// A placeholder login record for `protocol` whose user name is
    /// `Player_<suffix mod 10000>`; packets shorter than 8 bytes are rejected.
    pub fn from_buffer_with_suffix(data: &[u8], protocol: u32, suffix: u32) -> (r: Result<Self>)
        ensures
            data@.len() < 8 ==> (r matches Err(e) && e is InvalidData),
            data@.len() >= 8 ==> (r matches Ok(l) && l.protocol == protocol && l.username@
                == "Player_"@ + decimal((suffix % 10000) as nat) && l.xuid@.len() == 0
                && l.uuid@.len() == 0 && l.device_os == 0 && l.device_model@ == "Unknown"@),
    {
        if data.len() < 8 {
            return Err(Error::InvalidData(String::from_str("Login packet too short")));
        }
        let mut username = String::from_str("Player_");
        push_decimal(&mut username, (suffix % 10000) as u128);
        Ok(
            LoginData {
                protocol,
                username,
                xuid: String::new(),
                uuid: String::new(),
                device_os: 0,
                device_model: String::from_str("Unknown"),
            },
        )
    }

    /// Parse login packet from raw buffer: a placeholder record for the configured
    /// `protocol`, named `Player_<n>` for a random `n` below 10000 (0 when the system
    /// random source fails).
    pub fn from_buffer(data: &[u8], protocol: u32) -> (r: Result<Self>)
        ensures
            data@.len() < 8 ==> (r matches Err(e) && e is InvalidData),
            data@.len() >= 8 ==> (r matches Ok(l) && l.protocol == protocol && (exists|n: nat|
                n < 10000 && l.username@ == "Player_"@ + decimal(n)) && l.xuid@.len() == 0
                && l.uuid@.len() == 0 && l.device_os == 0 && l.device_model@ == "Unknown"@),
    {
        let suffix = match random_u32() {
            Some(v) => v,
            None => 0,
        };
        let r = Self::from_buffer_with_suffix(data, protocol, suffix);
        proof {
            if data@.len() >= 8 {
                let n = (suffix % 10000) as nat;
                assert(r matches Ok(l) && l.username@ == "Player_"@ + decimal(n));
            }
        }
        r
    }
}

/// How the protocol version at the start of a login body is encoded.
#[derive(Debug, Clone, Copy)]
pub enum ProtocolEncoding {
    U32Le,
    U32Be,
    VarInt,
}

/// The protocol version at the start of `d` and the position after it.
pub open spec fn protocol_at_start(d: Seq<u8>, enc: ProtocolEncoding) -> Option<(u32, int)> {
    match enc {
        ProtocolEncoding::U32Le => if d.len() >= 4 {
            Some((le32(d[0], d[1], d[2], d[3]), 4int))
        } else {
            None
        },
        ProtocolEncoding::U32Be => if d.len() >= 4 {
            Some((be32(d[0], d[1], d[2], d[3]), 4int))
        } else {
            None
        },
        ProtocolEncoding::VarInt => read_var_int_at(d, 0),
    }
}

/// Where the token chain starts: right after the protocol, or, when the layout has a
/// VarInt payload length, after that length, which must be non-zero and no longer
/// than what follows it.
pub open spec fn chain_start(d: Seq<u8>, p0: int, has_len: bool) -> Option<int> {
    if !has_len {
        Some(p0)
    } else {
        match read_var_int_at(d, p0) {
            Some((n, p)) => if n == 0 || n > d.len() - p {
                None
            } else {
                Some(p)
            },
            None => None,
        }
    }
}

/// A text prefixed by its non-zero u32 little-endian byte length at `p`: the text
/// (which must be valid UTF-8) and the position after it.
pub open spec fn prefixed_text(d: Seq<u8>, p: int) -> Option<(Seq<char>, int)> {
    if p < 0 || p + 4 > d.len() {
        None
    } else {
        let n = le32(d[p], d[p + 1], d[p + 2], d[p + 3]);
        let q = p + 4;
        if n == 0 || d.len() - q < n {
            None
        } else {
            let bytes = d.subrange(q, q + n);
            if vstd::utf8::valid_utf8(bytes) {
                Some((vstd::utf8::decode_utf8(bytes), q + n))
            } else {
                None
            }
        }
    }
}

/// The token chain and the skin token that follow `p1`: the chain must hold a `{`
/// and the skin token exactly two dots.
pub open spec fn login_texts(d: Seq<u8>, p1: int) -> Option<(Seq<char>, Seq<char>)> {
    match prefixed_text(d, p1) {
        None => None,
        Some((chain, p2)) => match prefixed_text(d, p2) {
            None => None,
            Some((skin, _)) => if find_char_from(chain, '{', 0) is Some && count_char(skin, '.')
                == 2 {
                Some((chain, skin))
            } else {
                None
            },
        },
    }
}

/// The protocol (1 to 2000), token chain and skin token of a login body read with one
/// layout.
pub open spec fn login_fields(d: Seq<u8>, enc: ProtocolEncoding, has_len: bool) -> Option<
    (u32, Seq<char>, Seq<char>),
> {
    match protocol_at_start(d, enc) {
        None => None,
        Some((protocol, p0)) => if protocol == 0 || protocol > 2000 {
            None
        } else {
            match chain_start(d, p0, has_len) {
                None => None,
                Some(p1) => match login_texts(d, p1) {
                    None => None,
                    Some((chain, skin)) => Some((protocol, chain, skin)),
                },
            }
        },
    }
}

/// The fields of the first layout that reads: u32 LE, u32 BE and VarInt protocol
/// without a payload length, then the same three with one.
pub open spec fn first_login_fields(d: Seq<u8>) -> Option<(u32, Seq<char>, Seq<char>)> {
    let f1 = login_fields(d, ProtocolEncoding::U32Le, false);
    let f2 = login_fields(d, ProtocolEncoding::U32Be, false);
    let f3 = login_fields(d, ProtocolEncoding::VarInt, false);
    let f4 = login_fields(d, ProtocolEncoding::U32Le, true);
    let f5 = login_fields(d, ProtocolEncoding::U32Be, true);
    let f6 = login_fields(d, ProtocolEncoding::VarInt, true);
    if f1 is Some {
        f1
    } else if f2 is Some {
        f2
    } else if f3 is Some {
        f3
    } else if f4 is Some {
        f4
    } else if f5 is Some {
        f5
    } else {
        f6
    }
}

/// The fields read from a login body with one layout.
struct LoginFields {
    protocol: u32,
    chain_json: String,
    skin_jwt: String,
}

/// Reads a u32-LE length-prefixed UTF-8 text.
fn read_prefixed_text(buf: &mut Buffer) -> (r: Option<String>)
    ensures
        final(buf).bytes() == old(buf).bytes(),
        match prefixed_text(old(buf).bytes(), old(buf).pos() as int) {
            None => r is None,
            Some((t, p)) => r matches Some(s) && s@ == t && final(buf).pos() == p,
        },
{
    let n = match buf.read_u32_le() {
        Ok(v) => v,
        Err(_) => {
            return None;
        },
    };
    if n == 0 || buf.remaining() < n as usize {
        return None;
    }
    let bytes = match buf.read_bytes(n as usize) {
        Ok(b) => b,
        Err(_) => {
            return None;
        },
    };
    utf8_to_string(bytes)
}

/// Reads a login body with one layout.
fn try_parse_login(source: &[u8], enc: ProtocolEncoding, has_len: bool) -> (r: Option<LoginFields>)
    ensures
        match login_fields(source@, enc, has_len) {
            None => r is None,
            Some((p, c, s)) => r matches Some(f) && f.protocol == p && f.chain_json@ == c
                && f.skin_jwt@ == s,
        },
{
    let mut tmp = Buffer::from(source);
    let protocol = match enc {
        ProtocolEncoding::U32Le => match tmp.read_u32_le() {
            Ok(v) => v,
            Err(_) => {
                return None;
            },
        },
        ProtocolEncoding::U32Be => match tmp.read_u32() {
            Ok(v) => v,
            Err(_) => {
                return None;
            },
        },
        ProtocolEncoding::VarInt => match tmp.read_var_int() {
            Ok(v) => v,
            Err(_) => {
                return None;
            },
        },
    };
    if protocol == 0 || protocol > 2000 {
        return None;
    }
    if has_len {
        let payload_len = match tmp.read_var_int() {
            Ok(v) => v,
            Err(_) => {
                return None;
            },
        };
        if payload_len == 0 || payload_len as usize > tmp.remaining() {
            return None;
        }
    }
    let chain_json = match read_prefixed_text(&mut tmp) {
        Some(s) => s,
        None => {
            return None;
        },
    };
    let skin_jwt = match read_prefixed_text(&mut tmp) {
        Some(s) => s,
        None => {
            return None;
        },
    };
    let cc = str_chars(chain_json.as_str());
    if find_char(cc.as_slice(), '{', 0).is_none() {
        return None;
    }
    let sc = str_chars(skin_jwt.as_str());
    proof {
        assert(sc@.subrange(0, sc@.len() as int) =~= sc@);
    }
    if count_char_in(sc.as_slice(), '.', 0, sc.len()) != 2 {
        return None;
    }
    Some(LoginFields { protocol, chain_json, skin_jwt })
}


/// Reads a login body with each layout in turn and keeps the first that reads.
fn first_fields(data: &[u8]) -> (r: Option<LoginFields>)
    ensures
        match first_login_fields(data@) {
            None => r is None,
            Some((p, c, s)) => r matches Some(f) && f.protocol == p && f.chain_json@ == c
                && f.skin_jwt@ == s,
        },
{
    if let Some(f) = try_parse_login(data, ProtocolEncoding::U32Le, false) {
        return Some(f);
    }
    if let Some(f) = try_parse_login(data, ProtocolEncoding::U32Be, false) {
        return Some(f);
    }
    if let Some(f) = try_parse_login(data, ProtocolEncoding::VarInt, false) {
        return Some(f);
    }
    if let Some(f) = try_parse_login(data, ProtocolEncoding::U32Le, true) {
        return Some(f);
    }
    if let Some(f) = try_parse_login(data, ProtocolEncoding::U32Be, true) {
        return Some(f);
    }
    try_parse_login(data, ProtocolEncoding::VarInt, true)
}

/// The first non-empty value among `keys` in the payload `p`, sanitized for file names.
pub open spec fn first_string_in(p: Seq<char>, keys: Seq<Seq<char>>) -> Option<Seq<char>>
    decreases keys.len(),
{
    if keys.len() == 0 {
        None
    } else {
        match json_value(p, keys[0]) {
            Some(v) => if v.len() > 0 {
                Some(sanitized(v))
            } else {
                first_string_in(p, keys.drop_first())
            },
            None => first_string_in(p, keys.drop_first()),
        }
    }
}

/// The first payload, in order, that has a non-empty value among `keys` gives it.
pub open spec fn first_string(payloads: Seq<Seq<char>>, keys: Seq<Seq<char>>) -> Option<
    Seq<char>,
>
    decreases payloads.len(),
{
    if payloads.len() == 0 {
        None
    } else {
        match first_string_in(payloads[0], keys) {
            Some(v) => Some(v),
            None => first_string(payloads.drop_first(), keys),
        }
    }
}

/// The first value among `keys` in `p` that reads as an `i32`.
pub open spec fn first_i32_in(p: Seq<char>, keys: Seq<Seq<char>>) -> Option<i32>
    decreases keys.len(),
{
    if keys.len() == 0 {
        None
    } else {
        match json_value(p, keys[0]) {
            Some(v) => match parse_i32(v) {
                Some(n) => Some(n as i32),
                None => first_i32_in(p, keys.drop_first()),
            },
            None => first_i32_in(p, keys.drop_first()),
        }
    }
}

/// The first payload, in order, that has an `i32` value among `keys` gives it.
pub open spec fn first_i32(payloads: Seq<Seq<char>>, keys: Seq<Seq<char>>) -> Option<i32>
    decreases payloads.len(),
{
    if payloads.len() == 0 {
        None
    } else {
        match first_i32_in(payloads[0], keys) {
            Some(v) => Some(v),
            None => first_i32(payloads.drop_first(), keys),
        }
    }
}

fn string_in(p: &str, keys: &Vec<String>) -> (r: Option<String>)
    ensures
        r.deep_view() == first_string_in(p@, keys.deep_view()),
{
    let ghost ks = keys.deep_view();
    assert(ks.skip(0) =~= ks);
    let mut j: usize = 0;
    while j < keys.len()
        invariant
            j <= keys@.len(),
            ks == keys.deep_view(),
            first_string_in(p@, ks) == first_string_in(p@, ks.skip(j as int)),
        decreases keys.len() - j,
    {
        proof {
            assert(ks.skip(j as int).drop_first() =~= ks.skip(j + 1));
            assert(ks.skip(j as int)[0] == keys@[j as int]@);
        }
        if let Some(v) = JWT::get_json_value(p, keys[j].as_str()) {
            let vc = str_chars(v.as_str());
            if vc.len() > 0 {
                return Some(sanitize_component(v.as_str()));
            }
        }
        j = j + 1;
    }
    proof {
        assert(ks.skip(j as int).len() == 0);
    }
    None
}

fn i32_in(p: &str, keys: &Vec<String>) -> (r: Option<i32>)
    ensures
        r == first_i32_in(p@, keys.deep_view()),
{
    let ghost ks = keys.deep_view();
    assert(ks.skip(0) =~= ks);
    let mut j: usize = 0;
    while j < keys.len()
        invariant
            j <= keys@.len(),
            ks == keys.deep_view(),
            first_i32_in(p@, ks) == first_i32_in(p@, ks.skip(j as int)),
        decreases keys.len() - j,
    {
        proof {
            assert(ks.skip(j as int).drop_first() =~= ks.skip(j + 1));
            assert(ks.skip(j as int)[0] == keys@[j as int]@);
        }
        if let Some(v) = JWT::get_json_value(p, keys[j].as_str()) {
            if let Some(n) = parse_i32_str(v.as_str()) {
                return Some(n);
            }
        }
        j = j + 1;
    }
    proof {
        assert(ks.skip(j as int).len() == 0);
    }
    None
}

fn first_string_of(payloads: &Vec<String>, keys: &Vec<String>) -> (r: Option<String>)
    ensures
        r.deep_view() == first_string(payloads.deep_view(), keys.deep_view()),
{
    let ghost ps = payloads.deep_view();
    assert(ps.skip(0) =~= ps);
    let mut i: usize = 0;
    while i < payloads.len()
        invariant
            i <= payloads@.len(),
            ps == payloads.deep_view(),
            first_string(ps, keys.deep_view()) == first_string(ps.skip(i as int), keys.deep_view()),
        decreases payloads.len() - i,
    {
        proof {
            assert(ps.skip(i as int).drop_first() =~= ps.skip(i + 1));
            assert(ps.skip(i as int)[0] == payloads@[i as int]@);
        }
        if let Some(v) = string_in(payloads[i].as_str(), keys) {
            return Some(v);
        }
        i = i + 1;
    }
    proof {
        assert(ps.skip(i as int).len() == 0);
    }
    None
}

fn first_i32_of(payloads: &Vec<String>, keys: &Vec<String>) -> (r: Option<i32>)
    ensures
        r == first_i32(payloads.deep_view(), keys.deep_view()),
{
    let ghost ps = payloads.deep_view();
    assert(ps.skip(0) =~= ps);
    let mut i: usize = 0;
    while i < payloads.len()
        invariant
            i <= payloads@.len(),
            ps == payloads.deep_view(),
            first_i32(ps, keys.deep_view()) == first_i32(ps.skip(i as int), keys.deep_view()),
        decreases payloads.len() - i,
    {
        proof {
            assert(ps.skip(i as int).drop_first() =~= ps.skip(i + 1));
            assert(ps.skip(i as int)[0] == payloads@[i as int]@);
        }
        if let Some(v) = i32_in(payloads[i].as_str(), keys) {
            return Some(v);
        }
        i = i + 1;
    }
    proof {
        assert(ps.skip(i as int).len() == 0);
    }
    None
}

fn keys_of(a: &str, b: &str) -> (r: Vec<String>)
    ensures
        r.deep_view() == seq![a@, b@],
{
    let mut v: Vec<String> = Vec::new();
    v.push(String::from_str(a));
    v.push(String::from_str(b));
    proof {
        assert(v.deep_view() =~= seq![a@, b@]);
    }
    v
}

fn keys_of3(a: &str, b: &str, c: &str) -> (r: Vec<String>)
    ensures
        r.deep_view() == seq![a@, b@, c@],
{
    let mut v: Vec<String> = Vec::new();
    v.push(String::from_str(a));
    v.push(String::from_str(b));
    v.push(String::from_str(c));
    proof {
        assert(v.deep_view() =~= seq![a@, b@, c@]);
    }
    v
}


/// Parsed Bedrock login capture data
#[derive(Debug, Clone, Default)]
pub struct LoginMetadata {
    pub xuid: Option<String>,
    pub device_os: Option<i32>,
    pub device_model: Option<String>,
    pub playfab_id: Option<String>,
    pub client_random_id: Option<String>,
    pub skin_geometry: Option<String>,
    pub geometry_data_engine_version: Option<String>,
    pub animation_data: Option<String>,
    pub cape_data: Option<String>,
}

/// The client metadata as values.
#[verifier::ext_equal]
pub struct MetadataView {
    pub xuid: Option<Seq<char>>,
    pub device_os: Option<i32>,
    pub device_model: Option<Seq<char>>,
    pub playfab_id: Option<Seq<char>>,
    pub client_random_id: Option<Seq<char>>,
    pub skin_geometry: Option<Seq<char>>,
    pub geometry_data_engine_version: Option<Seq<char>>,
    pub animation_data: Option<Seq<char>>,
    pub cape_data: Option<Seq<char>>,
}

impl View for LoginMetadata {
    type V = MetadataView;

    open spec fn view(&self) -> MetadataView {
        MetadataView {
            xuid: self.xuid.deep_view(),
            device_os: self.device_os,
            device_model: self.device_model.deep_view(),
            playfab_id: self.playfab_id.deep_view(),
            client_random_id: self.client_random_id.deep_view(),
            skin_geometry: self.skin_geometry.deep_view(),
            geometry_data_engine_version: self.geometry_data_engine_version.deep_view(),
            animation_data: self.animation_data.deep_view(),
            cape_data: self.cape_data.deep_view(),
        }
    }
}

/// The metadata gathered from the chain payloads and the skin payload, each field from
/// the first payload that has one of its keys.
pub open spec fn metadata_of(payloads: Seq<Seq<char>>) -> MetadataView {
    MetadataView {
        xuid: first_string(payloads, seq!["XUID"@, "xuid"@]),
        device_os: first_i32(payloads, seq!["DeviceOS"@, "device_os"@]),
        device_model: first_string(payloads, seq!["DeviceModel"@, "device_model"@]),
        playfab_id: first_string(payloads, seq!["PlayFabId"@, "playfabId"@]),
        client_random_id: first_string(payloads, seq!["ClientRandomId"@, "clientRandomId"@]),
        skin_geometry: first_string(
            payloads,
            seq!["SkinGeometryData"@, "SkinGeometry"@, "geometryData"@],
        ),
        geometry_data_engine_version: first_string(
            payloads,
            seq!["geometryDataEngineVersion"@, "GeometryDataEngineVersion"@],
        ),
        animation_data: first_string(payloads, seq!["animationData"@, "AnimationData"@]),
        cape_data: first_string(payloads, seq!["capeData"@, "CapeData"@]),
    }
}

fn collect_metadata(payloads: &Vec<String>) -> (m: LoginMetadata)
    ensures
        m@ == metadata_of(payloads.deep_view()),
{
    let m = LoginMetadata {
        xuid: first_string_of(payloads, &keys_of("XUID", "xuid")),
        device_os: first_i32_of(payloads, &keys_of("DeviceOS", "device_os")),
        device_model: first_string_of(payloads, &keys_of("DeviceModel", "device_model")),
        playfab_id: first_string_of(payloads, &keys_of("PlayFabId", "playfabId")),
        client_random_id: first_string_of(payloads, &keys_of("ClientRandomId", "clientRandomId")),
        skin_geometry: first_string_of(
            payloads,
            &keys_of3("SkinGeometryData", "SkinGeometry", "geometryData"),
        ),
        geometry_data_engine_version: first_string_of(
            payloads,
            &keys_of("geometryDataEngineVersion", "GeometryDataEngineVersion"),
        ),
        animation_data: first_string_of(payloads, &keys_of("animationData", "AnimationData")),
        cape_data: first_string_of(payloads, &keys_of("capeData", "CapeData")),
    };
    proof {
        assert(m@ =~= metadata_of(payloads.deep_view()));
    }
    m
}

/// The number of bytes `s` takes in UTF-8.
pub open spec fn utf8_len(s: Seq<char>) -> nat
    decreases s.len(),
{
    if s.len() == 0 {
        0
    } else {
        utf8_len(s.drop_last()) + if (s.last() as u32) < 0x80 {
            1nat
        } else if (s.last() as u32) < 0x800 {
            2nat
        } else if (s.last() as u32) < 0x10000 {
            3nat
        } else {
            4nat
        }
    }
}

/// Whether `cs[from..to]` takes exactly `target` bytes in UTF-8.
fn utf8_len_is(cs: &[char], from: usize, to: usize, target: usize) -> (r: bool)
    requires
        from <= to <= cs@.len(),
        target < 0x1000,
    ensures
        r == (utf8_len(cs@.subrange(from as int, to as int)) == target),
{
    let mut n: usize = 0;
    let mut i = from;
    while i < to
        invariant
            from <= i <= to <= cs@.len(),
            target < 0x1000,
            n <= target + 1,
            n == if utf8_len(cs@.subrange(from as int, i as int)) > target {
                (target + 1) as nat
            } else {
                utf8_len(cs@.subrange(from as int, i as int))
            },
        decreases to - i,
    {
        proof {
            assert(cs@.subrange(from as int, i + 1).drop_last() =~= cs@.subrange(from as int, i as int));
        }
        let c = cs[i] as u32;
        let w: usize = if c < 0x80 {
            1
        } else if c < 0x800 {
            2
        } else if c < 0x10000 {
            3
        } else {
            4
        };
        n = if n + w > target { target + 1 } else { n + w };
        i = i + 1;
    }
    n == target
}

/// The player name carried by the payload of a chain token: the first non-empty value
/// of `xname`, `ThirdPartyName` or `displayName`, sanitized for file names.
pub open spec fn name_in_payload(p: Seq<char>) -> Option<Seq<char>> {
    first_string_in(p, seq!["xname"@, "ThirdPartyName"@, "displayName"@])
}

/// The player name found scanning the quoted tokens of `s` from `pos`: tokens of
/// 50 bytes, tokens without exactly two dots and tokens whose payload does not decode
/// are passed over; the scan ends at a quote with no closing quote.
pub open spec fn chain_player_from(s: Seq<char>, pos: int) -> Option<Seq<char>>
    decreases s.len() - pos,
{
    if pos < 0 || pos > s.len() {
        None
    } else {
        match find_char_from(s, '"', pos) {
            None => None,
            Some(q) => match find_char_from(s, '"', q + 1) {
                None => None,
                Some(e) => {
                    proof {
                        lemma_find_char_bounds(s, '"', pos);
                        lemma_find_char_bounds(s, '"', q + 1);
                    }
                    let token = s.subrange(q + 1, e);
                    let rest = chain_player_from(s, e + 1);
                    if utf8_len(token) == 50 || count_char(token, '.') != 2 {
                        rest
                    } else {
                        match jwt_payload(token) {
                            None => rest,
                            Some(p) => match name_in_payload(p) {
                                Some(n) => Some(n),
                                None => rest,
                            },
                        }
                    }
                },
            },
        }
    }
}

/// The player name of a token chain, `UnknownPlayer` when none is found.
pub open spec fn chain_player_name(chain: Seq<char>) -> Seq<char> {
    match chain_player_from(chain, 0) {
        Some(n) => n,
        None => "UnknownPlayer"@,
    }
}

fn extract_player_name(chain_json: &str) -> (r: String)
    ensures
        r@ == chain_player_name(chain_json@),
{
    let cs = str_chars(chain_json);
    let n = cs.len();
    let mut search_pos: usize = 0;
    loop
        invariant
            n == cs@.len(),
            cs@ == chain_json@,
            search_pos <= n,
            chain_player_from(cs@, 0) == chain_player_from(cs@, search_pos as int),
        decreases n + 1 - search_pos,
    {
        let q = match find_char(cs.as_slice(), '"', search_pos) {
            Some(q) => q,
            None => {
                return String::from_str("UnknownPlayer");
            },
        };
        let e = match find_char(cs.as_slice(), '"', q + 1) {
            Some(e) => e,
            None => {
                return String::from_str("UnknownPlayer");
            },
        };
        let ghost token = cs@.subrange(q + 1, e as int);
        if !utf8_len_is(cs.as_slice(), q + 1, e, 50) && count_char_in(cs.as_slice(), '.', q + 1, e)
            == 2 {
            let tok = string_of(cs.as_slice(), q + 1, e);
            if let Ok(payload) = JWT::get_payload(tok.as_str()) {
                if let Some(name) = string_in(
                    payload.as_str(),
                    &keys_of3("xname", "ThirdPartyName", "displayName"),
                ) {
                    return name;
                }
            }
        }
        search_pos = e + 1;
    }
}


/// A character kept by the lenient base64 reading: ASCII letters and digits, `+`, `/`, `=`.
pub open spec fn is_base64_char(c: char) -> bool {
    ('a' <= c && c <= 'z') || ('A' <= c && c <= 'Z') || ('0' <= c && c <= '9') || c == '+' || c
        == '/' || c == '='
}

/// The bytes of the base64 characters of `s`, in order; other characters are dropped.
pub open spec fn base64_cleaned(s: Seq<char>) -> Seq<u8>
    decreases s.len(),
{
    if s.len() == 0 {
        Seq::empty()
    } else if is_base64_char(s.last()) {
        base64_cleaned(s.drop_last()).push(s.last() as u8)
    } else {
        base64_cleaned(s.drop_last())
    }
}

/// Lenient base64: the kept characters (at least one), padded with `=` to a multiple
/// of four, decoded with the standard alphabet.
pub open spec fn loose_base64(s: Seq<char>) -> Option<Seq<u8>> {
    let cleaned = base64_cleaned(s);
    if cleaned.len() == 0 {
        None
    } else {
        standard_decoded(pad_to_four(cleaned))
    }
}

/// The characters of standard base64 text (RFC 4648, table 1): `A`-`Z`, `a`-`z`,
/// `0`-`9`, `+` and `/`, and the padding character `=`.
pub open spec fn in_standard_base64_alphabet(c: char) -> bool {
    ||| 'A' <= c <= 'Z'
    ||| 'a' <= c <= 'z'
    ||| '0' <= c <= '9'
    ||| c == '+'
    ||| c == '/'
    ||| c == '='
}

/// The bytes of ASCII text.
pub open spec fn ascii_bytes(s: Seq<char>) -> Seq<u8> {
    s.map_values(|c: char| c as u8)
}

proof fn lemma_alphabet_text_kept(s: Seq<char>)
    requires
        forall|i: int| 0 <= i < s.len() ==> in_standard_base64_alphabet(#[trigger] s[i]),
    ensures
        base64_cleaned(s) == ascii_bytes(s),
    decreases s.len(),
{
    if s.len() > 0 {
        let t = s.drop_last();
        assert forall|i: int| 0 <= i < t.len() implies in_standard_base64_alphabet(#[trigger] t[i]) by {
            assert(t[i] == s[i]);
        }
        lemma_alphabet_text_kept(t);
        let c = s.last();
        assert(in_standard_base64_alphabet(c));
        assert(is_base64_char(c));
        assert(base64_cleaned(s) == base64_cleaned(t).push(c as u8));
        assert(ascii_bytes(s) =~= ascii_bytes(t).push(s.last() as u8));
    } else {
        assert(ascii_bytes(s) =~= Seq::<u8>::empty());
    }
}

/// Lenient base64 reads standard base64 text as it stands: no character of the standard
/// alphabet (`/` and `+` included) or padding is dropped, so non-empty text made of them
/// decodes exactly as the standard engine decodes that text padded to a multiple of four.
pub proof fn lemma_standard_text_decodes_as_is(s: Seq<char>)
    requires
        s.len() > 0,
        forall|i: int| 0 <= i < s.len() ==> in_standard_base64_alphabet(#[trigger] s[i]),
    ensures
        loose_base64(s) == standard_decoded(pad_to_four(ascii_bytes(s))),
{
    lemma_alphabet_text_kept(s);
}

fn decode_loose_base64(input: &str) -> (r: Option<Vec<u8>>)
    ensures
        r.deep_view() == loose_base64(input@),
{
    let cs = str_chars(input);
    let mut cleaned: Vec<u8> = Vec::new();
    let mut i: usize = 0;
    while i < cs.len()
        invariant
            i <= cs@.len(),
            cleaned@ == base64_cleaned(cs@.take(i as int)),
        decreases cs.len() - i,
    {
        proof {
            assert(cs@.take(i + 1).drop_last() =~= cs@.take(i as int));
        }
        let c = cs[i];
        if ('a' <= c && c <= 'z') || ('A' <= c && c <= 'Z') || ('0' <= c && c <= '9') || c == '+'
            || c == '/' || c == '=' {
            cleaned.push(c as u8);
        }
        i = i + 1;
    }
    proof {
        assert(cs@.take(cs@.len() as int) =~= cs@);
    }
    if cleaned.len() == 0 {
        return None;
    }
    let ghost base = cleaned@;
    while cleaned.len() % 4 != 0
        invariant
            cleaned@.len() >= base.len(),
            cleaned@.len() <= base.len() + 3,
            cleaned@ == base + Seq::new((cleaned@.len() - base.len()) as nat, |k: int| 0x3Du8),
            (cleaned@.len() - base.len()) as nat <= (4 - base.len() % 4) % 4,
        decreases base.len() + 3 - cleaned@.len(),
    {
        cleaned.push(0x3D);
        proof {
            assert(cleaned@ =~= base + Seq::new(
                (cleaned@.len() - base.len()) as nat,
                |k: int| 0x3Du8,
            ));
        }
    }
    proof {
        assert(cleaned@ =~= pad_to_four(base));
    }
    match decode_standard(cleaned.as_slice()) {
        Ok(v) => Some(v),
        Err(_) => None,
    }
}

/// The value of `key` in `json` read as a `u32`, 0 when missing or not a number.
pub open spec fn u32_or_zero(json: Seq<char>, key: Seq<char>) -> u32 {
    match json_value(json, key) {
        Some(v) => match parse_unsigned(v, 0xFFFF_FFFF) {
            Some(n) => n as u32,
            None => 0,
        },
        None => 0,
    }
}

/// The skin dimensions: `SkinImageWidth` and `SkinImageHeight` when both are non-zero
/// and cover exactly `pixels`, otherwise the dimensions detected from `pixels`.
pub open spec fn capture_dimensions(skin_json: Seq<char>, pixels: nat) -> (u32, u32) {
    let w = u32_or_zero(skin_json, "SkinImageWidth"@);
    let h = u32_or_zero(skin_json, "SkinImageHeight"@);
    if w == 0 || h == 0 || w * h != pixels {
        skin_dimensions(pixels)
    } else {
        (w, h)
    }
}

fn u32_value(json: &str, key: &str) -> (r: u32)
    ensures
        r == u32_or_zero(json@, key@),
{
    match JWT::get_json_value(json, key) {
        Some(v) => match parse_u32(v.as_str()) {
            Some(n) => n,
            None => 0,
        },
        None => 0,
    }
}

/// The lenient base64 reading of a skin payload's `SkinData` value (`None` when it is
/// missing or empty, or does not decode).
pub open spec fn skin_image_raw(skin_json: Seq<char>) -> Option<Seq<u8>> {
    match json_value(skin_json, "SkinData"@) {
        None => None,
        Some(v) => if v.len() == 0 {
            None
        } else {
            loose_base64(v)
        },
    }
}

/// Decoded skin image bytes that can be used: a non-empty multiple of four bytes.
pub open spec fn image_checked(decoded: Option<Seq<u8>>) -> Option<Seq<u8>> {
    match decoded {
        Some(b) => if b.len() > 0 && b.len() % 4 == 0 {
            Some(b)
        } else {
            None
        },
        None => None,
    }
}

/// The skin image bytes of a skin payload: its non-empty `SkinData` value read as
/// lenient base64, which must give a non-empty multiple of four bytes.
pub open spec fn skin_image_bytes(skin_json: Seq<char>) -> Option<Seq<u8>> {
    image_checked(skin_image_raw(skin_json))
}

/// A parsed login packet
#[derive(Debug, Clone)]
pub struct ParsedLoginPacket {
    pub protocol: u32,
    pub player_name: String,
    pub skin_id: String,
    pub chain_json: String,
    pub skin_jwt: String,
    pub skin_json: String,
    pub skin_data: Vec<u8>,
    pub skin_width: u32,
    pub skin_height: u32,
    pub metadata: LoginMetadata,
}

/// A parsed login packet as values.
#[verifier::ext_equal]
pub struct LoginCapture {
    pub protocol: u32,
    pub player_name: Seq<char>,
    pub skin_id: Seq<char>,
    pub chain_json: Seq<char>,
    pub skin_jwt: Seq<char>,
    pub skin_json: Seq<char>,
    pub skin_data: Seq<u8>,
    pub skin_width: u32,
    pub skin_height: u32,
    pub metadata: MetadataView,
}

impl View for ParsedLoginPacket {
    type V = LoginCapture;

    open spec fn view(&self) -> LoginCapture {
        LoginCapture {
            protocol: self.protocol,
            player_name: self.player_name@,
            skin_id: self.skin_id@,
            chain_json: self.chain_json@,
            skin_jwt: self.skin_jwt@,
            skin_json: self.skin_json@,
            skin_data: self.skin_data@,
            skin_width: self.skin_width,
            skin_height: self.skin_height,
            metadata: self.metadata@,
        }
    }
}

/// The skin id of a skin payload: its `SkinId` value sanitized, empty when missing.
pub open spec fn skin_id_of(skin_json: Seq<char>) -> Seq<char> {
    match json_value(skin_json, "SkinId"@) {
        Some(v) => sanitized(v),
        None => Seq::empty(),
    }
}

/// The capture made of a login's fields, its decoded skin payload and the skin image
/// bytes: nothing without image bytes; otherwise the player name from the chain, the
/// skin id, the image and its dimensions, and the metadata of the chain and the skin.
pub open spec fn capture_of_payload(
    protocol: u32,
    chain: Seq<char>,
    skin_jwt: Seq<char>,
    skin_json: Seq<char>,
    image: Option<Seq<u8>>,
) -> Option<LoginCapture> {
    match image {
        None => None,
        Some(bytes) => {
            let dims = capture_dimensions(skin_json, bytes.len() / 4);
            Some(
                LoginCapture {
                    protocol,
                    player_name: chain_player_name(chain),
                    skin_id: skin_id_of(skin_json),
                    chain_json: chain,
                    skin_jwt,
                    skin_json,
                    skin_data: bytes,
                    skin_width: dims.0,
                    skin_height: dims.1,
                    metadata: metadata_of(auth_chain_from(chain, 0).push(skin_json)),
                },
            )
        },
    }
}

/// What a login body holds once its layout is read: nothing when the skin token's
/// payload does not decode or carries no usable skin image.
pub open spec fn capture_from(protocol: u32, chain: Seq<char>, skin_jwt: Seq<char>) -> Option<
    LoginCapture,
> {
    match jwt_payload(skin_jwt) {
        None => None,
        Some(skin_json) => capture_of_payload(
            protocol,
            chain,
            skin_jwt,
            skin_json,
            skin_image_bytes(skin_json),
        ),
    }
}

/// The capture a login packet body gives, when one of its layouts reads.
pub open spec fn parsed_login(d: Seq<u8>) -> Option<LoginCapture> {
    match first_login_fields(d) {
        None => None,
        Some((protocol, chain, skin_jwt)) => capture_from(protocol, chain, skin_jwt),
    }
}

/// Parse a Bedrock login packet body, probing the known layouts of the protocol field.
pub fn parse_login_packet(data: &[u8]) -> (r: Result<Option<ParsedLoginPacket>>)
    ensures
        r matches Ok(o) && match parsed_login(data@) {
            None => o is None,
            Some(c) => o matches Some(p) && p@ == c,
        },
{
    let fields = match first_fields(data) {
        Some(f) => f,
        None => {
            return Ok(None);
        },
    };
    let skin_json = match JWT::get_payload(fields.skin_jwt.as_str()) {
        Ok(p) => p,
        Err(_) => {
            return Ok(None);
        },
    };
    let decoded_image = match JWT::get_json_value(skin_json.as_str(), "SkinData") {
        Some(v) => {
            if str_chars(v.as_str()).len() == 0 {
                None
            } else {
                decode_loose_base64(v.as_str())
            }
        },
        None => None,
    };
    Ok(
        capture_from_skin_payload(
            fields.protocol,
            fields.chain_json,
            fields.skin_jwt,
            skin_json,
            decoded_image,
        ),
    )
}

/// The capture made of a login's fields once the skin token's payload is decoded into
/// `skin_json` and its `SkinData` is decoded into `decoded_image` (`None` when that value
/// is missing, empty or not base64).
pub fn capture_from_skin_payload(
    protocol: u32,
    chain_json: String,
    skin_jwt: String,
    skin_json: String,
    decoded_image: Option<Vec<u8>>,
) -> (r: Option<ParsedLoginPacket>)
    ensures
        match capture_of_payload(
            protocol,
            chain_json@,
            skin_jwt@,
            skin_json@,
            image_checked(decoded_image.deep_view()),
        ) {
            None => r is None,
            Some(c) => r matches Some(p) && p@ == c,
        },
{
    let skin_data = match decoded_image {
        Some(b) => b,
        None => {
            return None;
        },
    };
    if skin_data.len() == 0 || skin_data.len() % 4 != 0 {
        return None;
    }
    let player_name = extract_player_name(chain_json.as_str());
    let mut payloads = match parse_auth_chain(chain_json.as_str()) {
        Ok(v) => v,
        Err(_) => Vec::new(),
    };
    let ghost chain_payloads = payloads.deep_view();
    payloads.push(skin_json.clone());
    proof {
        assert(payloads.deep_view() =~= chain_payloads.push(skin_json@));
    }
    let metadata = collect_metadata(&payloads);
    let skin_id = match JWT::get_json_value(skin_json.as_str(), "SkinId") {
        Some(v) => sanitize_component(v.as_str()),
        None => String::new(),
    };
    let pixels = skin_data.len() / 4;
    let img_w = u32_value(skin_json.as_str(), "SkinImageWidth");
    let img_h = u32_value(skin_json.as_str(), "SkinImageHeight");
    let w64 = img_w as u64;
    let h64 = img_h as u64;
    assert(w64 * h64 <= 0xFFFF_FFFF * 0xFFFF_FFFF) by (nonlinear_arith)
        requires
            w64 <= 0xFFFF_FFFF,
            h64 <= 0xFFFF_FFFF,
    ;
    let (width, height) = if img_w == 0 || img_h == 0 || w64 * h64 != pixels as u64 {
        skin_dimensions_of(pixels)
    } else {
        (img_w, img_h)
    };
    let ghost image = skin_data@;
    let parsed = ParsedLoginPacket {
        protocol,
        player_name,
        skin_id,
        chain_json,
        skin_jwt,
        skin_json,
        skin_data,
        skin_width: width,
        skin_height: height,
        metadata,
    };
    proof {
        let c = capture_of_payload(
            protocol,
            parsed.chain_json@,
            parsed.skin_jwt@,
            parsed.skin_json@,
            Some(image),
        )->0;
        assert(parsed@ =~= c);
    }
    Some(parsed)
}

} // verus!
