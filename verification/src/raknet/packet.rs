//! RakNet packet definitions
use vstd::prelude::*;

verus! {

/// RakNet packet types
#[derive(Debug, Clone, Copy, PartialEq, Eq, Structural)]
pub enum RakNetPacketType {
    /// Open Connection Request 1
    OpenConnectionRequest1,
    /// Open Connection Reply 1
    OpenConnectionReply1,
    /// Open Connection Request 2
    OpenConnectionRequest2,
    /// Open Connection Reply 2
    OpenConnectionReply2,
    /// Incompatible Protocol Version
    IncompatibleProtocolVersion,
    /// Already Connected
    AlreadyConnected,
    /// Game Packet
    GamePacket,
}

/// The wire id of each packet type.
pub open spec fn packet_type_id(t: RakNetPacketType) -> u8 {
    match t {
        RakNetPacketType::OpenConnectionRequest1 => 0x01,
        RakNetPacketType::OpenConnectionReply1 => 0x1F,
        RakNetPacketType::OpenConnectionRequest2 => 0x02,
        RakNetPacketType::OpenConnectionReply2 => 0x1E,
        RakNetPacketType::IncompatibleProtocolVersion => 0x19,
        RakNetPacketType::AlreadyConnected => 0x12,
        RakNetPacketType::GamePacket => 0x60,
    }
}

impl RakNetPacketType {
    /// The wire id of the packet type.
    pub fn id(self) -> (r: u8)
        ensures
            r == packet_type_id(self),
    {
        match self {
            RakNetPacketType::OpenConnectionRequest1 => 0x01,
            RakNetPacketType::OpenConnectionReply1 => 0x1F,
            RakNetPacketType::OpenConnectionRequest2 => 0x02,
            RakNetPacketType::OpenConnectionReply2 => 0x1E,
            RakNetPacketType::IncompatibleProtocolVersion => 0x19,
            RakNetPacketType::AlreadyConnected => 0x12,
            RakNetPacketType::GamePacket => 0x60,
        }
    }
}

/// Distinct packet types have distinct wire ids.
pub proof fn lemma_packet_type_ids_distinct(a: RakNetPacketType, b: RakNetPacketType)
    ensures
        packet_type_id(a) == packet_type_id(b) ==> a == b,
{
}

/// RakNet packet structure
#[derive(Debug, Clone)]
pub struct RakNetPacket {
    pub packet_id: RakNetPacketType,
    pub payload: Vec<u8>,
}

impl RakNetPacket {
    /// Create a new RakNet packet
    pub fn new(packet_id: RakNetPacketType, payload: Vec<u8>) -> (r: Self)
        ensures
            r.packet_id == packet_id,
            r.payload@ == payload@,
    {
        RakNetPacket { packet_id, payload }
    }
}

} // verus!
