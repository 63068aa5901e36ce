//! Bedrock response packet builders.
use crate::util::buffer::{u16_le_bytes, u32_le_bytes, var_int_bytes, Buffer};
use vstd::prelude::*;
use vstd::string::StringSliceAdditionalSpecFns;

verus! {

/// A VarString: the byte length as a VarInt, then the UTF-8 bytes.
pub open spec fn var_string_bytes(s: Seq<char>) -> Seq<u8> {
    var_int_bytes(vstd::utf8::encode_utf8(s).len() as u32) + vstd::utf8::encode_utf8(s)
}

/// The PlayStatus packet: VarInt id 0x02 and the status as a little-endian u32.
pub open spec fn play_status_bytes(status: u32) -> Seq<u8> {
    var_int_bytes(0x02) + u32_le_bytes(status)
}

/// The Disconnect packet: VarInt id 0x05, the reason as a (two's complement) VarInt,
/// hide-reason `false`, then the message twice (message and filtered message).
pub open spec fn disconnect_bytes(reason: i32, message: Seq<char>) -> Seq<u8> {
    var_int_bytes(0x05) + var_int_bytes(reason as u32) + seq![0u8] + var_string_bytes(message)
        + var_string_bytes(message)
}

/// The NetworkSettings packet: VarInt id 0x8f, compression threshold 1 and algorithm 0
/// (little-endian u16 each), throttling off, threshold 0 and rate 0.0 (little-endian f32).
pub open spec fn network_settings_bytes() -> Seq<u8> {
    var_int_bytes(0x8f) + u16_le_bytes(1) + u16_le_bytes(0) + seq![0u8, 0u8] + u32_le_bytes(0)
}

/// Build PlayStatus packet (0x02)
pub fn build_play_status(status: u32) -> (r: Vec<u8>)
    ensures
        r@ == play_status_bytes(status),
{
    let mut buf = Buffer::new();
    let _ = buf.write_var_int(0x02);
    let _ = buf.write_u32_le(status);
    buf.to_vec()
}

/// Build Disconnect packet (0x05)
pub fn build_disconnect(reason: i32, message: &str) -> (r: Vec<u8>)
    ensures
        r@ == disconnect_bytes(reason, message@),
{
    let mut buf = Buffer::new();
    let _ = buf.write_var_int(0x05);
    let _ = buf.write_signed_var_int(reason);
    let _ = buf.write_bool(false);
    let _ = buf.write_var_string(message);
    let _ = buf.write_var_string(message);
    proof {
        assert(message.spec_bytes() == vstd::utf8::encode_utf8(message@));
        assert(buf.bytes() =~= disconnect_bytes(reason, message@));
    }
    buf.to_vec()
}

/// Build NetworkSettings packet (0x8f)
pub fn build_network_settings() -> (r: Vec<u8>)
    ensures
        r@ == network_settings_bytes(),
{
    let mut buf = Buffer::new();
    let _ = buf.write_var_int(0x8f);
    let _ = buf.write_u16_le(1);
    let _ = buf.write_u16_le(0);
    let _ = buf.write_bool(false);
    let _ = buf.write_u8(0);
    // the throttle rate 0.0 is written as the four bytes of its bit pattern
    let _ = buf.write_u32_le(0);
    proof {
        assert(buf.bytes() =~= network_settings_bytes());
    }
    buf.to_vec()
}

/// A PlayStatus packet is 5 to 9 bytes long.
pub proof fn lemma_play_status_len(status: u32)
    ensures
        play_status_bytes(status).len() <= 9,
{
    crate::util::buffer::lemma_var_int_len(0x02);
}

/// A Disconnect packet with a message of at most 1000 UTF-8 bytes fits in 2100 bytes.
pub proof fn lemma_disconnect_len(reason: i32, message: Seq<char>)
    requires
        vstd::utf8::encode_utf8(message).len() <= 1000,
    ensures
        disconnect_bytes(reason, message).len() <= 2100,
{
    crate::util::buffer::lemma_var_int_len(0x05);
    crate::util::buffer::lemma_var_int_len(reason as u32);
    crate::util::buffer::lemma_var_int_len(vstd::utf8::encode_utf8(message).len() as u32);
}

/// The capture's farewell message is 13 bytes of ASCII.
pub proof fn lemma_skin_captured_len()
    ensures
        vstd::utf8::encode_utf8("Skin captured"@).len() == 13,
{
    reveal_strlit("Skin captured");
    assert(vstd::utf8::is_ascii_chars("Skin captured"@));
    vstd::utf8::is_ascii_chars_encode_utf8("Skin captured"@);
}

} // verus!
