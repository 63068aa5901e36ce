//! Bedrock batch packets: compression framing and the VarInt-length packet list.
use crate::bedrock::compress::{deflate_raw, inflate_raw, raw_deflated, raw_inflated};
use crate::error::{Error, Result};
use crate::util::buffer::{read_var_int_at, var_int_bytes, lemma_var_int_roundtrip, Buffer};
use vstd::prelude::*;

verus! {

/// Maximum allowed decompressed batch size (10 MiB).
pub const MAX_DECOMPRESSED_SIZE: usize = 10485760;

/// What decompressing a batch body gives: the body itself while compression is not
/// negotiated; otherwise a leading 0xFF marks stored data, a leading 0x00 is stripped,
/// and the rest is raw DEFLATE, whose output may not exceed `MAX_DECOMPRESSED_SIZE`.
pub open spec fn spec_decompress(data: Seq<u8>, compression_enabled: bool) -> Option<Seq<u8>> {
    if data.len() == 0 {
        None
    } else if !compression_enabled {
        Some(data)
    } else if data[0] == 0xFF {
        Some(data.drop_first())
    } else {
        let payload = if data[0] == 0x00 {
            data.drop_first()
        } else {
            data
        };
        match raw_inflated(payload) {
            Some(out) => if out.len() > MAX_DECOMPRESSED_SIZE {
                None
            } else {
                Some(out)
            },
            None => None,
        }
    }
}

/// A batch body sent without an algorithm byte (first byte neither 0x00 nor 0xFF, as
/// clients did before the compression header) is inflated whole once compression is
/// negotiated: decompressing it gives exactly what the raw DEFLATE decoder makes of it,
/// unless that is larger than `MAX_DECOMPRESSED_SIZE` or the body does not inflate.
pub proof fn lemma_headerless_body_is_inflated(data: Seq<u8>)
    requires
        data.len() > 0,
        data[0] != 0x00,
        data[0] != 0xFF,
    ensures
        spec_decompress(data, true) == match raw_inflated(data) {
            Some(out) => if out.len() <= MAX_DECOMPRESSED_SIZE {
                Some(out)
            } else {
                None
            },
            None => None,
        },
{
}

/// A body whose raw DEFLATE stream inflates to `x` decompresses to `x` whether it is sent
/// with the algorithm byte 0x00 or, when the stream does not itself start with 0x00 or
/// 0xFF, without one.
pub proof fn lemma_inflating_body_decompresses(x: Seq<u8>, z: Seq<u8>)
    requires
        raw_inflated(z) == Some(x),
        x.len() <= MAX_DECOMPRESSED_SIZE,
    ensures
        spec_decompress(seq![0x00u8] + z, true) == Some(x),
        z.len() > 0 && z[0] != 0x00 && z[0] != 0xFF ==> spec_decompress(z, true) == Some(x),
{
    assert((seq![0x00u8] + z).drop_first() =~= z);
}

fn decompress_raw_deflate(data: &[u8]) -> (r: Result<Vec<u8>>)
    ensures
        match raw_inflated(data@) {
            Some(out) => if out.len() > MAX_DECOMPRESSED_SIZE {
                r matches Err(e) && e is Other
            } else {
                r matches Ok(v) && v@ == out
            },
            None => r matches Err(e) && e is Other,
        },
{
    let out = match inflate_raw(data) {
        Ok(v) => v,
        Err(e) => {
            return Err(
                Error::Other(crate::util::text::concat_str("raw deflate decode failed: ", e.as_str())),
            );
        },
    };
    if out.len() > MAX_DECOMPRESSED_SIZE {
        let mut msg = String::from_str("decompressed too large: ");
        crate::util::text::push_decimal(&mut msg, out.len() as u128);
        msg.append(" bytes");
        return Err(Error::Other(msg));
    }
    Ok(out)
}

/// Decompress a batch packet using the appropriate algorithm.
pub fn decompress_batch(data: &[u8], compression_enabled: bool) -> (r: Result<Vec<u8>>)
    ensures
        data@.len() == 0 ==> (r matches Err(Error::InvalidData(m)) && m@ == "Empty batch data"@),
        match spec_decompress(data@, compression_enabled) {
            Some(out) => r matches Ok(v) && v@ == out,
            None => r is Err,
        },
{
    if data.len() == 0 {
        return Err(Error::InvalidData(String::from_str("Empty batch data")));
    }
    if !compression_enabled {
        return Ok(vstd::slice::slice_to_vec(data));
    }
    if data[0] == 0xFF {
        let rest = vstd::slice::slice_subrange(data, 1, data.len());
        return Ok(vstd::slice::slice_to_vec(rest));
    }
    if data[0] == 0x00 {
        let rest = vstd::slice::slice_subrange(data, 1, data.len());
        proof { assert(rest@ == data@.drop_first()); }
        decompress_raw_deflate(rest)
    } else {
        decompress_raw_deflate(data)
    }
}

/// Compress batch data as a raw-deflate stream (level 7) prefixed with algorithm 0x00.
/// It succeeds exactly when the encoder does; with compression negotiated, decompressing
/// the result gives the data back (unless it is larger than `MAX_DECOMPRESSED_SIZE`).
pub fn compress_batch(data: &[u8]) -> (r: Result<Vec<u8>>)
    ensures
        match raw_deflated(data@, 7) {
            Some(s) => r matches Ok(v) && v@ == seq![0x00u8] + s && spec_decompress(v@, true)
                == if data@.len() <= MAX_DECOMPRESSED_SIZE {
                Some(data@)
            } else {
                None
            },
            None => r matches Err(e) && e is Other,
        },
{
    let compressed = match deflate_raw(data, 7) {
        Ok(c) => c,
        Err(e) => {
            return Err(Error::Other(crate::util::text::concat_str("zlib encode error: ", e.as_str())));
        },
    };
    let mut out: Vec<u8> = Vec::new();
    out.push(0x00);
    let mut c = compressed;
    out.append(&mut c);
    proof {
        assert(out@.drop_first() =~= raw_deflated(data@, 7)->0);
    }
    Ok(out)
}

/// The contents of a list of byte vectors.
pub open spec fn bytes_list(v: Seq<Vec<u8>>) -> Seq<Seq<u8>> {
    v.map_values(|p: Vec<u8>| p@)
}

/// The packets of a batch from `pos` on: each is a VarInt length followed by that many
/// bytes; the list ends at the end of the data, at a VarInt that does not decode, or at
/// a length larger than what is left.
pub open spec fn batch_packets(data: Seq<u8>, pos: int) -> Seq<Seq<u8>>
    decreases data.len() - pos,
{
    if pos < 0 || pos >= data.len() {
        Seq::empty()
    } else {
        match read_var_int_at(data, pos) {
            None => Seq::empty(),
            Some((len, next)) => {
                if next <= pos || next > data.len() || data.len() - next < len {
                    Seq::empty()
                } else {
                    seq![data.subrange(next, next + len)] + batch_packets(data, next + len)
                }
            },
        }
    }
}

/// Parse the packets of a decompressed batch.
pub fn parse_batch(data: &[u8]) -> (r: Result<Vec<Vec<u8>>>)
    ensures
        r matches Ok(v) && bytes_list(v@) == batch_packets(data@, 0),
{
    let mut packets: Vec<Vec<u8>> = Vec::new();
    let mut buf = Buffer::from(data);
    proof {
        assert(bytes_list(packets@) =~= Seq::<Seq<u8>>::empty());
    }
    let mut done = false;
    while !done && buf.has_remaining()
        invariant
            buf.bytes() == data@,
            buf.wf(),
            !done ==> batch_packets(data@, 0) == bytes_list(packets@) + batch_packets(
                data@,
                buf.pos() as int,
            ),
            done ==> batch_packets(data@, 0) == bytes_list(packets@),
        decreases data@.len() - buf.pos() + if done { 0int } else { 1int },
    {
        let start = buf.position();
        proof {
            crate::util::buffer::lemma_var_int_advances(data@, start as int);
        }
        let ghost before = bytes_list(packets@);
        let ghost old_packets = packets@;
        match buf.read_var_int() {
            Ok(l) => {
                let length = l as usize;
                if buf.remaining() < length {
                    done = true;
                    proof {
                        assert(bytes_list(packets@) =~= bytes_list(packets@) + Seq::<Seq<u8>>::empty());
                    }
                } else {
                    match buf.read_bytes(length) {
                        Ok(p) => {
                            let ghost pv = p@;
                            packets.push(p);
                            proof {
                                assert(packets@ == old_packets.push(packets@.last()));
                                assert(bytes_list(packets@) =~= before.push(
                                    data@.subrange(buf.pos() - length, buf.pos() as int),
                                ));
                                assert(before + (seq![
                                    data@.subrange(buf.pos() - length, buf.pos() as int),
                                ] + batch_packets(data@, buf.pos() as int)) =~= bytes_list(packets@)
                                    + batch_packets(data@, buf.pos() as int));
                            }
                        },
                        Err(_) => {
                            done = true;
                        },
                    }
                }
            },
            Err(_) => {
                done = true;
                proof {
                    assert(bytes_list(packets@) =~= bytes_list(packets@) + Seq::<Seq<u8>>::empty());
                }
            },
        }
    }
    proof {
        if !done {
            assert(batch_packets(data@, buf.pos() as int) == Seq::<Seq<u8>>::empty());
            assert(bytes_list(packets@) + Seq::<Seq<u8>>::empty() =~= bytes_list(packets@));
        }
    }
    Ok(packets)
}

/// The batch body that carries `packets`: each as its VarInt length and its bytes.
pub open spec fn encode_batch(packets: Seq<Seq<u8>>) -> Seq<u8>
    decreases packets.len(),
{
    if packets.len() == 0 {
        Seq::empty()
    } else {
        var_int_bytes(packets[0].len() as u32) + packets[0] + encode_batch(packets.drop_first())
    }
}

/// Parsing a batch body gives back the packets it was built from, as long as each
/// length fits in 32 bits.
pub proof fn lemma_batch_roundtrip(packets: Seq<Seq<u8>>)
    requires
        forall|i: int| 0 <= i < packets.len() ==> #[trigger] packets[i].len() <= u32::MAX,
    ensures
        batch_packets(encode_batch(packets), 0) == packets,
    decreases packets.len(),
{
    if packets.len() == 0 {
        assert(batch_packets(encode_batch(packets), 0) =~= packets);
    } else {
        let p = packets[0];
        let rest = packets.drop_first();
        assert forall|i: int| 0 <= i < rest.len() implies #[trigger] rest[i].len() <= u32::MAX by {
            assert(rest[i] == packets[i + 1]);
        }
        lemma_batch_roundtrip(rest);
        let head = var_int_bytes(p.len() as u32);
        let data = encode_batch(packets);
        assert(data == head + p + encode_batch(rest));
        assert(data.subrange(0, head.len() as int) =~= head);
        lemma_var_int_roundtrip(p.len() as u32, data, 0);
        crate::util::buffer::lemma_var_int_len(p.len() as u32);
        let next = head.len() as int;
        assert(data.subrange(next, next + p.len()) =~= p);
        lemma_batch_shift(head + p, encode_batch(rest), 0);
        assert(data.len() - next >= p.len());
        assert(batch_packets(data, 0) == seq![p] + batch_packets(data, next + p.len()));
        assert(seq![p] + rest =~= packets);
    }
}

/// The bytes one packet takes in a batch body: its VarInt length and its bytes.
pub open spec fn encoded_packet(p: Seq<u8>) -> Seq<u8> {
    var_int_bytes(p.len() as u32) + p
}

/// Parsing a batch body made of encoded packets followed by more data gives those
/// packets, then whatever the rest parses to.
proof fn lemma_batch_concat(packets: Seq<Seq<u8>>, rest: Seq<u8>)
    requires
        forall|i: int| 0 <= i < packets.len() ==> #[trigger] packets[i].len() <= u32::MAX,
    ensures
        batch_packets(encode_batch(packets) + rest, 0) == packets + batch_packets(rest, 0),
    decreases packets.len(),
{
    if packets.len() == 0 {
        assert(encode_batch(packets) + rest =~= rest);
        assert(packets + batch_packets(rest, 0) =~= batch_packets(rest, 0));
    } else {
        let p = packets[0];
        let others = packets.drop_first();
        assert forall|i: int| 0 <= i < others.len() implies #[trigger] others[i].len() <= u32::MAX by {
            assert(others[i] == packets[i + 1]);
        }
        lemma_batch_concat(others, rest);
        let head = var_int_bytes(p.len() as u32);
        let data = encode_batch(packets) + rest;
        assert(data =~= (head + p) + (encode_batch(others) + rest));
        assert(data.subrange(0, head.len() as int) =~= head);
        lemma_var_int_roundtrip(p.len() as u32, data, 0);
        crate::util::buffer::lemma_var_int_len(p.len() as u32);
        let next = head.len() as int;
        assert(data.subrange(next, next + p.len()) =~= p);
        lemma_batch_shift(head + p, encode_batch(others) + rest, 0);
        assert(batch_packets(data, 0) == seq![p] + batch_packets(data, next + p.len()));
        assert(seq![p] + (others + batch_packets(rest, 0)) =~= packets + batch_packets(rest, 0));
    }
}

/// VarInt decoding fails on data that ends while every byte so far announces more.
proof fn lemma_var_from_cut(data: Seq<u8>, i: nat, acc: u32)
    requires
        data.len() <= 5,
        forall|k: int| i <= k < data.len() ==> #[trigger] data[k] & 0x80 != 0,
    ensures
        crate::util::buffer::var_int_from(data, 0, i, acc) is None,
    decreases 5 - i,
{
    if i < 5 && i < data.len() {
        let b = data[i as int];
        lemma_var_from_cut(data, i + 1, acc | (((b & 0x7F) as u32) << ((7 * i) as u32)));
    }
}

/// A packet cut short (inside its length or inside its bytes) parses to no packet.
proof fn lemma_cut_packet_is_dropped(q: Seq<u8>, j: int)
    requires
        q.len() <= u32::MAX,
        0 <= j < encoded_packet(q).len(),
    ensures
        batch_packets(encoded_packet(q).take(j), 0) == Seq::<Seq<u8>>::empty(),
{
    let head = var_int_bytes(q.len() as u32);
    let t = encoded_packet(q).take(j);
    crate::util::buffer::lemma_var_int_bytes_shape(q.len() as u32);
    if j > 0 {
        if j < head.len() {
            assert forall|k: int| 0 <= k < t.len() implies #[trigger] t[k] & 0x80 != 0 by {
                assert(t[k] == head[k]);
            }
            lemma_var_from_cut(t, 0, 0);
        } else {
            assert(t.subrange(0, head.len() as int) =~= head);
            lemma_var_int_roundtrip(q.len() as u32, t, 0);
        }
    }
}

/// A batch body whose last packet is cut short parses to the whole packets before it:
/// the cut packet is dropped, and parsing never fails (`parse_batch` always returns `Ok`).
pub proof fn lemma_batch_drops_cut_tail(packets: Seq<Seq<u8>>, q: Seq<u8>, j: int)
    requires
        forall|i: int| 0 <= i < packets.len() ==> #[trigger] packets[i].len() <= u32::MAX,
        q.len() <= u32::MAX,
        0 <= j < encoded_packet(q).len(),
    ensures
        batch_packets(encode_batch(packets) + encoded_packet(q).take(j), 0) == packets,
{
    lemma_batch_concat(packets, encoded_packet(q).take(j));
    lemma_cut_packet_is_dropped(q, j);
    assert(packets + Seq::<Seq<u8>>::empty() =~= packets);
}

/// Parsing the tail of a batch body does not depend on what precedes it.
pub proof fn lemma_batch_shift(prefix: Seq<u8>, tail: Seq<u8>, pos: int)
    requires
        0 <= pos <= tail.len(),
    ensures
        batch_packets(prefix + tail, prefix.len() + pos) == batch_packets(tail, pos),
    decreases tail.len() - pos,
{
    let data = prefix + tail;
    let q = prefix.len() + pos;
    if pos < tail.len() {
        lemma_var_int_shift(prefix, tail, pos);
        match read_var_int_at(tail, pos) {
            None => {},
            Some((len, next)) => {
                if next <= pos || next > tail.len() || tail.len() - next < len {
                } else {
                    assert(data.subrange(prefix.len() + next, prefix.len() + next + len)
                        =~= tail.subrange(next, next + len));
                    lemma_batch_shift(prefix, tail, next + len);
                }
            },
        }
    }
}

/// Decoding a VarInt does not depend on what precedes it.
pub proof fn lemma_var_int_shift(prefix: Seq<u8>, tail: Seq<u8>, pos: int)
    requires
        0 <= pos <= tail.len(),
    ensures
        read_var_int_at(prefix + tail, prefix.len() + pos) == match read_var_int_at(tail, pos) {
            Some((v, next)) => Some((v, prefix.len() + next)),
            None => None,
        },
{
    lemma_var_from_shift(prefix, tail, pos, 0, 0);
}

proof fn lemma_var_from_shift(prefix: Seq<u8>, tail: Seq<u8>, pos: int, i: nat, acc: u32)
    requires
        0 <= pos <= tail.len(),
    ensures
        crate::util::buffer::var_int_from(prefix + tail, prefix.len() + pos, i, acc) == match
            crate::util::buffer::var_int_from(tail, pos, i, acc) {
            Some((v, next)) => Some((v, prefix.len() + next)),
            None => None,
        },
    decreases 5 - i,
{
    if i < 5 && pos + i < tail.len() {
        assert((prefix + tail)[prefix.len() + pos + i] == tail[pos + i]);
        lemma_var_from_shift(
            prefix,
            tail,
            pos,
            i + 1,
            acc | (((tail[pos + i] & 0x7F) as u32) << ((7 * i) as u32)),
        );
    }
}

} // verus!
