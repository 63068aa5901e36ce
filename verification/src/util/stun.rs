//! STUN (Session Traversal Utilities for NAT): binding requests and the mapped address
//! of a binding response.
use crate::util::buffer::be16;
use crate::util::random::random_u8;
use crate::util::text::{decimal, push_char, push_decimal};
use vstd::prelude::*;

verus! {

/// STUN client for external IP discovery; requests wait `timeout_ms` milliseconds.
pub struct StunClient {
    pub timeout_ms: u64,
}

/// The 8 bytes that start a binding request: type 0x0001, length 0, magic cookie.
pub open spec fn stun_request_header() -> Seq<u8> {
    seq![0x00u8, 0x01u8, 0x00u8, 0x00u8, 0x21u8, 0x12u8, 0xa4u8, 0x42u8]
}

/// The dotted text of an IPv4 address.
pub open spec fn dotted_quad(a: u8, b: u8, c: u8, d: u8) -> Seq<char> {
    decimal(a as nat) + seq!['.'] + decimal(b as nat) + seq!['.'] + decimal(c as nat) + seq!['.']
        + decimal(d as nat)
}

/// The mapped address found in the attributes of `p` from offset `off` on: the first
/// XOR-MAPPED-ADDRESS (0x0020) or MAPPED-ADDRESS (0x0001) of the IPv4 family with at
/// least 8 bytes of value; attributes are padded to 4 bytes, and one that runs past the
/// end stops the search.
pub open spec fn stun_attrs_from(p: Seq<u8>, off: int) -> Option<Seq<char>>
    decreases p.len() - off,
{
    if off < 0 || off + 4 > p.len() {
        None
    } else {
        let t = be16(p[off], p[off + 1]);
        let l = be16(p[off + 2], p[off + 3]) as int;
        let o = off + 4;
        if o + l > p.len() {
            None
        } else if t == 0x0020 && l >= 8 && p[o + 1] == 0x01 {
            Some(
                dotted_quad(
                    p[o + 4] ^ 0x21u8,
                    p[o + 5] ^ 0x12u8,
                    p[o + 6] ^ 0xa4u8,
                    p[o + 7] ^ 0x42u8,
                ),
            )
        } else if t == 0x0001 && l >= 8 && p[o + 1] == 0x01 {
            Some(dotted_quad(p[o + 4], p[o + 5], p[o + 6], p[o + 7]))
        } else {
            let next = o + (l + 3) / 4 * 4;
            proof {
                assert((l + 3) / 4 * 4 >= 0) by (nonlinear_arith)
                    requires
                        l >= 0,
                ;
            }
            if next >= p.len() {
                None
            } else {
                stun_attrs_from(p, next)
            }
        }
    }
}

/// The external address a binding response reports: the packet needs its 20-byte
/// header with the magic cookie at offset 4.
pub open spec fn stun_mapped_address(p: Seq<u8>) -> Option<Seq<char>> {
    if p.len() < 20 {
        None
    } else if p[4] != 0x21 || p[5] != 0x12 || p[6] != 0xa4 || p[7] != 0x42 {
        None
    } else {
        stun_attrs_from(p, 20)
    }
}

fn dotted(a: u8, b: u8, c: u8, d: u8) -> (r: String)
    ensures
        r@ == dotted_quad(a, b, c, d),
{
    let mut s = String::new();
    push_decimal(&mut s, a as u128);
    push_char(&mut s, '.');
    push_decimal(&mut s, b as u128);
    push_char(&mut s, '.');
    push_decimal(&mut s, c as u128);
    push_char(&mut s, '.');
    push_decimal(&mut s, d as u128);
    s
}

impl StunClient {
    /// Create a new STUN client
    pub fn new(timeout_ms: u64) -> (r: Self)
        ensures
            r.timeout_ms == timeout_ms,
    {
        StunClient { timeout_ms }
    }

    /// A binding request with the given 12-byte transaction id.
    pub fn build_stun_request_with_id(&self, transaction_id: &[u8]) -> (r: Vec<u8>)
        requires
            transaction_id@.len() == 12,
        ensures
            r@ == stun_request_header() + transaction_id@,
    {
        let mut packet: Vec<u8> = Vec::new();
        packet.push(0x00);
        packet.push(0x01);
        packet.push(0x00);
        packet.push(0x00);
        packet.push(0x21);
        packet.push(0x12);
        packet.push(0xa4);
        packet.push(0x42);
        packet.extend_from_slice(transaction_id);
        proof {
            assert(packet@ =~= stun_request_header() + transaction_id@);
        }
        packet
    }

    /// Build a minimal STUN Binding Request packet with a random transaction id (a byte
    /// the system random source cannot give is 0).
    pub fn build_stun_request(&self) -> (r: Vec<u8>)
        ensures
            r@.len() == 20,
            r@.take(8) == stun_request_header(),
    {
        let mut id: Vec<u8> = Vec::new();
        let mut i: usize = 0;
        while i < 12
            invariant
                i <= 12,
                id@.len() == i,
            decreases 12 - i,
        {
            id.push(
                match random_u8() {
                    Some(b) => b,
                    None => 0,
                },
            );
            i = i + 1;
        }
        let r = self.build_stun_request_with_id(id.as_slice());
        proof {
            assert(r@.take(8) =~= stun_request_header());
        }
        r
    }

    /// Parse a STUN response to extract the external IP.
    pub fn parse_stun_response(&self, packet: &[u8]) -> (r: Option<String>)
        ensures
            r.deep_view() == stun_mapped_address(packet@),
    {
        let n = packet.len();
        if n < 20 {
            return None;
        }
        if packet[4] != 0x21 || packet[5] != 0x12 || packet[6] != 0xa4 || packet[7] != 0x42 {
            return None;
        }
        let mut offset: usize = 20;
        while offset < n
            invariant
                n == packet@.len(),
                20 <= offset,
                stun_mapped_address(packet@) == stun_attrs_from(packet@, offset as int),
            decreases n - offset,
        {
            if n - offset < 4 {
                return None;
            }
            let attr_type: u16 = ((packet[offset] as u16) << 8u16) | (packet[offset + 1] as u16);
            let attr_length: usize = (((packet[offset + 2] as u16) << 8u16) | (packet[offset
                + 3] as u16)) as usize;
            let o = offset + 4;
            if attr_length > n - o {
                return None;
            }
            if attr_type == 0x0020 && attr_length >= 8 && packet[o + 1] == 0x01 {
                return Some(
                    dotted(
                        packet[o + 4] ^ 0x21,
                        packet[o + 5] ^ 0x12,
                        packet[o + 6] ^ 0xa4,
                        packet[o + 7] ^ 0x42,
                    ),
                );
            }
            if attr_type == 0x0001 && attr_length >= 8 && packet[o + 1] == 0x01 {
                return Some(dotted(packet[o + 4], packet[o + 5], packet[o + 6], packet[o + 7]));
            }
            let step = (attr_length + 3) / 4 * 4;
            if step >= n - o {
                proof {
                    assert(stun_attrs_from(packet@, (o + step) as int) is None);
                }
                return None;
            }
            offset = o + step;
        }
        None
    }
}

} // verus!
