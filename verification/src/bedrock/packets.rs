//! Bedrock packet ids and the one-byte packet header.
use crate::error::{Error, Result};
use vstd::prelude::*;

verus! {

/// Bedrock packet ids.
pub struct BedrockPackets;

impl BedrockPackets {
    pub const LOGIN: u32 = 0x01;
    pub const PLAY_STATUS: u32 = 0x02;
    pub const SERVER_TO_CLIENT_HANDSHAKE: u32 = 0x03;
    pub const CLIENT_TO_SERVER_HANDSHAKE: u32 = 0x04;
    pub const DISCONNECT: u32 = 0x05;
    pub const RESOURCE_PACKS_INFO: u32 = 0x06;
    pub const RESOURCE_PACK_STACK: u32 = 0x07;
    pub const RESOURCE_PACK_CLIENT_RESPONSE: u32 = 0x08;
    pub const TEXT: u32 = 0x09;
    pub const SET_TIME: u32 = 0x0a;
    pub const START_GAME: u32 = 0x0b;
    pub const ADD_PLAYER: u32 = 0x0c;
    pub const ADD_ENTITY: u32 = 0x0d;
    pub const REMOVE_ENTITY: u32 = 0x0e;
    pub const CHUNK_RADIUS_UPDATED: u32 = 0x46;
    pub const NETWORK_CHUNK_PUBLISHER_UPDATE: u32 = 0x79;
    pub const NETWORK_SETTINGS: u32 = 0x8f;
    pub const REQUEST_NETWORK_SETTINGS: u32 = 0xc1;
    pub const BATCH: u32 = 0xfe;
}

/// Bedrock packet types
#[derive(Debug, Clone, Copy, PartialEq, Eq, Structural)]
pub enum BedrockPacketType {
    Login,
    PlayStatus,
    ServerHandshake,
    ClientHandshake,
    Disconnect,
    ResourcePacksInfo,
    ResourcePackStack,
    ResourcePackClientResponse,
    Text,
    SetTime,
    StartGame,
    AddPlayer,
    AddEntity,
    RemoveEntity,
    ChunkRadiusUpdated,
    NetworkChunkPublisherUpdate,
    NetworkSettings,
    RequestNetworkSettings,
}

/// The packet type a first byte stands for.
pub open spec fn packet_type_of(id: u8) -> Option<BedrockPacketType> {
    if id == 0x01 {
        Some(BedrockPacketType::Login)
    } else if id == 0x02 {
        Some(BedrockPacketType::PlayStatus)
    } else if id == 0x03 {
        Some(BedrockPacketType::ServerHandshake)
    } else if id == 0x04 {
        Some(BedrockPacketType::ClientHandshake)
    } else if id == 0x05 {
        Some(BedrockPacketType::Disconnect)
    } else if id == 0x06 {
        Some(BedrockPacketType::ResourcePacksInfo)
    } else if id == 0x07 {
        Some(BedrockPacketType::ResourcePackStack)
    } else if id == 0x08 {
        Some(BedrockPacketType::ResourcePackClientResponse)
    } else if id == 0x09 {
        Some(BedrockPacketType::Text)
    } else if id == 0x0a {
        Some(BedrockPacketType::SetTime)
    } else if id == 0x0b {
        Some(BedrockPacketType::StartGame)
    } else if id == 0x0c {
        Some(BedrockPacketType::AddPlayer)
    } else if id == 0x0d {
        Some(BedrockPacketType::AddEntity)
    } else if id == 0x0e {
        Some(BedrockPacketType::RemoveEntity)
    } else if id == 0x46 {
        Some(BedrockPacketType::ChunkRadiusUpdated)
    } else if id == 0x79 {
        Some(BedrockPacketType::NetworkChunkPublisherUpdate)
    } else if id == 0x8f {
        Some(BedrockPacketType::NetworkSettings)
    } else if id == 0xc1 {
        Some(BedrockPacketType::RequestNetworkSettings)
    } else {
        None
    }
}

impl BedrockPacketType {
    /// The packet id byte of this type.
    pub open spec fn spec_id(self) -> u8 {
        match self {
            BedrockPacketType::Login => 0x01,
            BedrockPacketType::PlayStatus => 0x02,
            BedrockPacketType::ServerHandshake => 0x03,
            BedrockPacketType::ClientHandshake => 0x04,
            BedrockPacketType::Disconnect => 0x05,
            BedrockPacketType::ResourcePacksInfo => 0x06,
            BedrockPacketType::ResourcePackStack => 0x07,
            BedrockPacketType::ResourcePackClientResponse => 0x08,
            BedrockPacketType::Text => 0x09,
            BedrockPacketType::SetTime => 0x0a,
            BedrockPacketType::StartGame => 0x0b,
            BedrockPacketType::AddPlayer => 0x0c,
            BedrockPacketType::AddEntity => 0x0d,
            BedrockPacketType::RemoveEntity => 0x0e,
            BedrockPacketType::ChunkRadiusUpdated => 0x46,
            BedrockPacketType::NetworkChunkPublisherUpdate => 0x79,
            BedrockPacketType::NetworkSettings => 0x8f,
            BedrockPacketType::RequestNetworkSettings => 0xc1,
        }
    }

    /// The packet id byte of this type.
    pub fn id(self) -> (r: u8)
        ensures
            r == self.spec_id(),
    {
        match self {
            BedrockPacketType::Login => 0x01,
            BedrockPacketType::PlayStatus => 0x02,
            BedrockPacketType::ServerHandshake => 0x03,
            BedrockPacketType::ClientHandshake => 0x04,
            BedrockPacketType::Disconnect => 0x05,
            BedrockPacketType::ResourcePacksInfo => 0x06,
            BedrockPacketType::ResourcePackStack => 0x07,
            BedrockPacketType::ResourcePackClientResponse => 0x08,
            BedrockPacketType::Text => 0x09,
            BedrockPacketType::SetTime => 0x0a,
            BedrockPacketType::StartGame => 0x0b,
            BedrockPacketType::AddPlayer => 0x0c,
            BedrockPacketType::AddEntity => 0x0d,
            BedrockPacketType::RemoveEntity => 0x0e,
            BedrockPacketType::ChunkRadiusUpdated => 0x46,
            BedrockPacketType::NetworkChunkPublisherUpdate => 0x79,
            BedrockPacketType::NetworkSettings => 0x8f,
            BedrockPacketType::RequestNetworkSettings => 0xc1,
        }
    }
}

/// Every packet type is recognized again from its own id byte.
pub proof fn lemma_packet_type_id_roundtrip(t: BedrockPacketType)
    ensures
        packet_type_of(t.spec_id()) == Some(t),
{
}

/// Bedrock packet utilities
pub struct Packets;

impl Packets {
    /// Parse a Bedrock packet: its type (from the first byte) and the bytes after it.
    pub fn parse(data: &[u8]) -> (r: Result<(BedrockPacketType, Vec<u8>)>)
        ensures
            data@.len() == 0 ==> (r matches Err(e) && e is InvalidData),
            data@.len() > 0 ==> match packet_type_of(data@[0]) {
                Some(t) => r matches Ok((rt, rest)) && rt == t && rest@ == data@.drop_first(),
                None => r matches Err(e) && e is ProtocolError,
            },
    {
        if data.len() == 0 {
            return Err(Error::InvalidData(String::from_str("Empty packet")));
        }
        let b = data[0];
        let packet_id = if b == 0x01 {
            BedrockPacketType::Login
        } else if b == 0x02 {
            BedrockPacketType::PlayStatus
        } else if b == 0x03 {
            BedrockPacketType::ServerHandshake
        } else if b == 0x04 {
            BedrockPacketType::ClientHandshake
        } else if b == 0x05 {
            BedrockPacketType::Disconnect
        } else if b == 0x06 {
            BedrockPacketType::ResourcePacksInfo
        } else if b == 0x07 {
            BedrockPacketType::ResourcePackStack
        } else if b == 0x08 {
            BedrockPacketType::ResourcePackClientResponse
        } else if b == 0x09 {
            BedrockPacketType::Text
        } else if b == 0x0a {
            BedrockPacketType::SetTime
        } else if b == 0x0b {
            BedrockPacketType::StartGame
        } else if b == 0x0c {
            BedrockPacketType::AddPlayer
        } else if b == 0x0d {
            BedrockPacketType::AddEntity
        } else if b == 0x0e {
            BedrockPacketType::RemoveEntity
        } else if b == 0x46 {
            BedrockPacketType::ChunkRadiusUpdated
        } else if b == 0x79 {
            BedrockPacketType::NetworkChunkPublisherUpdate
        } else if b == 0x8f {
            BedrockPacketType::NetworkSettings
        } else if b == 0xc1 {
            BedrockPacketType::RequestNetworkSettings
        } else if b == 0xfe {
            return Err(
                Error::ProtocolError(String::from_str("Batch packet should be decompressed")),
            );
        } else {
            let mut msg = String::from_str("Unknown packet type: 0x");
            crate::util::text::push_hex_byte(&mut msg, b);
            return Err(Error::ProtocolError(msg));
        };
        let rest = vstd::slice::slice_to_vec(vstd::slice::slice_subrange(data, 1, data.len()));
        Ok((packet_id, rest))
    }

    /// Encode a Bedrock packet: its id byte followed by the payload.
    pub fn encode(packet_type: BedrockPacketType, payload: &[u8]) -> (r: Vec<u8>)
        ensures
            r@ == seq![packet_type.spec_id()] + payload@,
    {
        let mut result: Vec<u8> = Vec::new();
        result.push(packet_type.id());
        let mut p = vstd::slice::slice_to_vec(payload);
        result.append(&mut p);
        result
    }
}

/// Parsing an encoded packet gives back its type and payload.
pub proof fn lemma_encode_parse_roundtrip(t: BedrockPacketType, payload: Seq<u8>)
    ensures
        packet_type_of((seq![t.spec_id()] + payload)[0]) == Some(t),
        (seq![t.spec_id()] + payload).drop_first() == payload,
{
    assert((seq![t.spec_id()] + payload).drop_first() =~= payload);
}

} // verus!
