//! RakNet frame-set parsing: frames, reliability headers and split metadata.
use crate::error::{Error, Result};
use crate::util::buffer::{be16, le24};
use vstd::prelude::*;

verus! {

/// A single RakNet frame extracted from a frame set
#[derive(Debug, Clone)]
pub struct RakNetFrame {
    pub reliability: u8,
    pub is_split: bool,
    pub payload: Vec<u8>,
    pub reliable_seq: Option<u32>,
    pub order_index: Option<u32>,
    pub order_channel: Option<u8>,
    pub split_count: Option<u32>,
    pub split_id: Option<u16>,
    pub split_index: Option<u32>,
}

/// The mathematical content of a frame.
pub struct FrameSpec {
    pub reliability: u8,
    pub is_split: bool,
    pub payload: Seq<u8>,
    pub reliable_seq: Option<u32>,
    pub order_index: Option<u32>,
    pub order_channel: Option<u8>,
    pub split_count: Option<u32>,
    pub split_id: Option<u16>,
    pub split_index: Option<u32>,
}

impl View for RakNetFrame {
    type V = FrameSpec;

    open spec fn view(&self) -> FrameSpec {
        FrameSpec {
            reliability: self.reliability,
            is_split: self.is_split,
            payload: self.payload@,
            reliable_seq: self.reliable_seq,
            order_index: self.order_index,
            order_channel: self.order_channel,
            split_count: self.split_count,
            split_id: self.split_id,
            split_index: self.split_index,
        }
    }
}

/// The views of a list of frames.
pub open spec fn frames_view(v: Seq<RakNetFrame>) -> Seq<FrameSpec> {
    v.map_values(|f: RakNetFrame| f@)
}

/// Parsed frame set container
#[derive(Debug, Clone)]
pub struct FrameSet {
    pub id: u8,
    pub seq: u32,
    pub frames: Vec<RakNetFrame>,
}

pub struct RakNetProtocol;

/// How the 16-bit length field of a frame is read.
#[derive(Debug, Clone, Copy, PartialEq, Eq, Structural)]
pub enum FrameLengthMode {
    /// The field counts bits (the RakNet standard).
    Bits,
    /// The field counts bytes (seen in oversized localhost login frames).
    Bytes,
}

/// Reliabilities that carry a reliable message index.
pub open spec fn has_reliable_index(reliability: u8) -> bool {
    reliability == 2 || reliability == 3 || reliability == 4 || reliability == 6 || reliability == 7
}

/// Reliabilities that carry an ordering index and channel.
pub open spec fn has_ordering_index(reliability: u8) -> bool {
    reliability == 1 || reliability == 3 || reliability == 4 || reliability == 7
}

pub open spec fn be32_at(s: Seq<u8>, i: int) -> u32 {
    ((s[i] as u32) << 24u32) | ((s[i + 1] as u32) << 16u32) | ((s[i + 2] as u32) << 8u32) | (s[i
        + 3] as u32)
}

/// Parses one frame starting at `start`: flags, 16-bit big-endian length, the reliable
/// index and ordering fields the reliability calls for, split metadata (count, id, index;
/// big-endian; at most 1024 parts) and the payload.  The order channel must be at most 31.
/// Returns the frame and the offset after it.
pub open spec fn spec_parse_frame(data: Seq<u8>, start: int, mode: FrameLengthMode) -> Option<
    (FrameSpec, int),
> {
    if start < 0 || start + 3 > data.len() {
        None
    } else {
        let flags = data[start];
        let reliability = (flags >> 5u8) & 0x07u8;
        let is_split = (flags & 0x10u8) != 0;
        let len_field = be16(data[start + 1], data[start + 2]) as int;
        let byte_len = match mode {
            FrameLengthMode::Bits => (len_field + 7) / 8,
            FrameLengthMode::Bytes => len_field,
        };
        let off0 = start + 3;
        let rel = has_reliable_index(reliability);
        let ord = has_ordering_index(reliability);
        let overhead = (if rel { 3int } else { 0int }) + (if ord { 4int } else { 0int });
        let remaining_after_headers = if data.len() > off0 + overhead {
            data.len() - (off0 + overhead)
        } else {
            0
        };
        let off1 = if rel { off0 + 3 } else { off0 };
        let off2 = if ord { off1 + 4 } else { off1 };
        let off3 = if is_split { off2 + 10 } else { off2 };
        if byte_len > remaining_after_headers {
            None
        } else if rel && off0 + 3 > data.len() {
            None
        } else if ord && (off1 + 3 > data.len() || off1 + 3 >= data.len()) {
            None
        } else if ord && data[off1 + 3] > 31 {
            None
        } else if is_split && off3 > data.len() {
            None
        } else if is_split && be32_at(data, off2) > 1024 {
            None
        } else if off3 + byte_len > data.len() {
            None
        } else {
            Some(
                (
                    FrameSpec {
                        reliability,
                        is_split,
                        payload: data.subrange(off3, off3 + byte_len),
                        reliable_seq: if rel {
                            Some(le24(data[off0], data[off0 + 1], data[off0 + 2]))
                        } else {
                            None
                        },
                        order_index: if ord {
                            Some(le24(data[off1], data[off1 + 1], data[off1 + 2]))
                        } else {
                            None
                        },
                        order_channel: if ord {
                            Some(data[off1 + 3])
                        } else {
                            None
                        },
                        split_count: if is_split {
                            Some(be32_at(data, off2))
                        } else {
                            None
                        },
                        split_id: if is_split {
                            Some(be16(data[off2 + 4], data[off2 + 5]))
                        } else {
                            None
                        },
                        split_index: if is_split {
                            Some(be32_at(data, off2 + 6))
                        } else {
                            None
                        },
                    },
                    off3 + byte_len,
                ),
            )
        }
    }
}

/// A parsed frame ends after its three header bytes, inside the data.
pub proof fn lemma_parse_frame_advances(data: Seq<u8>, start: int, mode: FrameLengthMode)
    ensures
        spec_parse_frame(data, start, mode) matches Some((f, next)) ==> start + 3 <= next
            <= data.len(),
{
}

/// A Bedrock batch payload (compressed with algorithm 0x00 or stored with 0xFF).
pub open spec fn is_batch_payload(p: Seq<u8>) -> bool {
    p.len() >= 2 && p[0] == 0xFE && (p[1] == 0x00 || p[1] == 0xFF)
}

/// Parses the frames of `data` from `offset` on, with `acc` already parsed.
/// Parsing stops at the end of the data, after a split frame that is not the last
/// thing in the datagram, or at the first frame that does not parse.  In byte mode a
/// failure right after a single batch frame appends the rest of the datagram to that
/// frame instead of failing.  Returns the frames, the final offset and whether it failed.
pub open spec fn spec_frames_from(
    data: Seq<u8>,
    offset: int,
    mode: FrameLengthMode,
    acc: Seq<FrameSpec>,
) -> (Seq<FrameSpec>, int, bool)
    decreases data.len() - offset,
{
    if offset < 0 || offset >= data.len() {
        (acc, offset, false)
    } else {
        match spec_parse_frame(data, offset, mode) {
            Some((f, next)) => {
                if f.is_split && next < data.len() {
                    (acc.push(f), next, false)
                } else if next <= offset {
                    (acc.push(f), next, false)
                } else {
                    spec_frames_from(data, next, mode, acc.push(f))
                }
            },
            None => {
                if mode == FrameLengthMode::Bytes && acc.len() == 1 && is_batch_payload(
                    acc[0].payload,
                ) {
                    (
                        acc.update(
                            0,
                            FrameSpec {
                                payload: acc[0].payload + data.subrange(offset, data.len() as int),
                                ..acc[0]
                            },
                        ),
                        data.len() as int,
                        false,
                    )
                } else {
                    (acc, offset, true)
                }
            },
        }
    }
}

/// The frames of a frame set read in one length mode, starting after the 4-byte header.
pub open spec fn spec_frames(data: Seq<u8>, mode: FrameLengthMode) -> (Seq<FrameSpec>, int, bool) {
    spec_frames_from(data, 4, mode, Seq::empty())
}

/// The frames a frame set yields: the bit-length reading, unless it failed or stopped
/// early and the byte-length reading got further (or succeeded where bits failed).
pub open spec fn spec_frame_set_frames(data: Seq<u8>) -> Seq<FrameSpec> {
    let (bf, bo, bfail) = spec_frames(data, FrameLengthMode::Bits);
    if bfail || bo < data.len() {
        let (yf, yo, yfail) = spec_frames(data, FrameLengthMode::Bytes);
        if yf.len() > 0 && (yo > bo || (bfail && !yfail)) {
            yf
        } else {
            bf
        }
    } else {
        bf
    }
}

/// A frame-set packet id (0x80 to 0x8D).
pub open spec fn is_frame_set_id(id: u8) -> bool {
    0x80 <= id <= 0x8d
}

fn read_u24_le_at(data: &[u8], off: usize) -> (r: u32)
    requires
        off + 3 <= data@.len(),
    ensures
        r == le24(data@[off as int], data@[off + 1], data@[off + 2]),
{
    (data[off] as u32) | ((data[off + 1] as u32) << 8u32) | ((data[off + 2] as u32) << 16u32)
}

fn read_u32_be_at(data: &[u8], off: usize) -> (r: u32)
    requires
        off + 4 <= data@.len(),
    ensures
        r == be32_at(data@, off as int),
{
    ((data[off] as u32) << 24u32) | ((data[off + 1] as u32) << 16u32) | ((data[off + 2] as u32)
        << 8u32) | (data[off + 3] as u32)
}

fn copy_range(data: &[u8], from: usize, to: usize) -> (r: Vec<u8>)
    requires
        from <= to <= data@.len(),
    ensures
        r@ == data@.subrange(from as int, to as int),
{
    vstd::slice::slice_to_vec(vstd::slice::slice_subrange(data, from, to))
}

impl RakNetProtocol {
    /// Parse a single frame starting at `start`; `None` when it does not parse.
    pub fn parse_frame(data: &[u8], start: usize, length_mode: FrameLengthMode) -> (r: Option<
        (RakNetFrame, usize),
    >)
        ensures
            match spec_parse_frame(data@, start as int, length_mode) {
                Some((f, next)) => r matches Some((fr, n)) && fr@ == f && n == next,
                None => r is None,
            },
    {
        let len = data.len();
        if len < 3 || start > len - 3 {
            return None;
        }
        let flags = data[start];
        let reliability = (flags >> 5u8) & 0x07u8;
        let is_split = (flags & 0x10u8) != 0;
        let len_be = (((data[start + 1] as u16) << 8u16) | (data[start + 2] as u16)) as usize;
        let byte_len = match length_mode {
            FrameLengthMode::Bits => (len_be + 7) / 8,
            FrameLengthMode::Bytes => len_be,
        };
        let off0 = start + 3;
        let has_reliable = reliability == 2 || reliability == 3 || reliability == 4 || reliability
            == 6 || reliability == 7;
        let has_ordering = reliability == 1 || reliability == 3 || reliability == 4 || reliability
            == 7;
        let overhead: usize = (if has_reliable { 3 } else { 0 }) + (if has_ordering { 4 } else { 0 });
        let remaining_after_headers = if len - off0 > overhead {
            len - off0 - overhead
        } else {
            0
        };
        if byte_len > remaining_after_headers {
            return None;
        }
        let mut offset = off0;
        let mut reliable_seq: Option<u32> = None;
        let mut order_index: Option<u32> = None;
        let mut order_channel: Option<u8> = None;
        if has_reliable {
            if len - offset < 3 {
                return None;
            }
            reliable_seq = Some(read_u24_le_at(data, offset));
            offset = offset + 3;
        }
        if has_ordering {
            if len - offset < 3 {
                return None;
            }
            order_index = Some(read_u24_le_at(data, offset));
            offset = offset + 3;
            if offset >= len {
                return None;
            }
            order_channel = Some(data[offset]);
            if data[offset] > 31 {
                return None;
            }
            offset = offset + 1;
        }
        let mut split_count: Option<u32> = None;
        let mut split_id: Option<u16> = None;
        let mut split_index: Option<u32> = None;
        if is_split {
            if len - offset < 10 {
                return None;
            }
            let count = read_u32_be_at(data, offset);
            let id = ((data[offset + 4] as u16) << 8u16) | (data[offset + 5] as u16);
            let index = read_u32_be_at(data, offset + 6);
            if count > 1024 {
                return None;
            }
            split_count = Some(count);
            split_id = Some(id);
            split_index = Some(index);
            offset = offset + 10;
        }
        if byte_len > len - offset {
            return None;
        }
        let payload = copy_range(data, offset, offset + byte_len);
        let frame = RakNetFrame {
            reliability,
            is_split,
            payload,
            reliable_seq,
            order_index,
            order_channel,
            split_count,
            split_id,
            split_index,
        };
        Some((frame, offset + byte_len))
    }

    /// Parse all frames of a frame set in one length mode.
    pub fn parse_frame_set_with_mode(data: &[u8], length_mode: FrameLengthMode) -> (r: (
        Vec<RakNetFrame>,
        usize,
        bool,
    ))
        requires
            data@.len() >= 4,
        ensures
            ({
                let (sf, so, sfail) = spec_frames(data@, length_mode);
                frames_view(r.0@) == sf && r.1 == so && r.2 == sfail
            }),
    {
        let len = data.len();
        let mut offset: usize = 4;
        let mut frames: Vec<RakNetFrame> = Vec::new();
        let mut failed = false;
        let mut done = false;
        proof {
            assert(frames_view(frames@) =~= Seq::<FrameSpec>::empty());
        }
        while !done && offset < len
            invariant
                len == data@.len(),
                4 <= offset <= len,
                !done ==> spec_frames(data@, length_mode) == spec_frames_from(
                    data@,
                    offset as int,
                    length_mode,
                    frames_view(frames@),
                ),
                done ==> spec_frames(data@, length_mode) == (
                    frames_view(frames@),
                    offset as int,
                    failed,
                ),
                !done ==> !failed,
            decreases len - offset + if done { 0int } else { 1int },
        {
            let ghost acc = frames_view(frames@);
            match RakNetProtocol::parse_frame(data, offset, length_mode) {
                Some((frame, new_offset)) => {
                    proof {
                        lemma_parse_frame_advances(data@, offset as int, length_mode);
                    }
                    let is_split = frame.is_split;
                    frames.push(frame);
                    proof {
                        assert(frames_view(frames@) =~= acc.push(frames@.last()@));
                    }
                    offset = new_offset;
                    if is_split && offset < len {
                        done = true;
                    }
                },
                None => {
                    let n = frames.len();
                    if matches!(length_mode, FrameLengthMode::Bytes) && n == 1 && frames[0].payload.len()
                        >= 2 && frames[0].payload[0] == 0xFE && (frames[0].payload[1] == 0x00
                        || frames[0].payload[1] == 0xFF) {
                        let tail = copy_range(data, offset, len);
                        let mut last = frames.pop().unwrap();
                        last.payload.extend_from_slice(tail.as_slice());
                        frames.push(last);
                        proof {
                            assert(frames@[0].payload@ =~= acc[0].payload + data@.subrange(
                                offset as int,
                                len as int,
                            ));
                            assert(frames_view(frames@) =~= acc.update(
                                0,
                                FrameSpec {
                                    payload: acc[0].payload + data@.subrange(
                                        offset as int,
                                        len as int,
                                    ),
                                    ..acc[0]
                                },
                            ));
                        }
                        offset = len;
                        done = true;
                    } else {
                        failed = true;
                        done = true;
                    }
                },
            }
        }
        (frames, offset, failed)
    }

    /// Parse a RakNet frame set (packet id 0x80 - 0x8D): the sequence number and the frames.
    pub fn parse_frame_set(data: &[u8]) -> (r: Result<FrameSet>)
        ensures
            data@.len() < 4 ==> (r matches Err(e) && e is InvalidData),
            data@.len() >= 4 && !is_frame_set_id(data@[0]) ==> (r matches Err(e)
                && e is ProtocolError),
            data@.len() >= 4 && is_frame_set_id(data@[0]) ==> (r matches Ok(fs) && fs.id
                == data@[0] && fs.seq == le24(data@[1], data@[2], data@[3]) && frames_view(
                fs.frames@,
            ) == spec_frame_set_frames(data@)),
    {
        if data.len() < 4 {
            return Err(Error::InvalidData(String::from_str("Frame set too short")));
        }
        let id = data[0];
        if !(0x80 <= id && id <= 0x8d) {
            let mut msg = String::from_str("Not a frame set: 0x");
            crate::util::text::push_hex_byte(&mut msg, id);
            return Err(Error::ProtocolError(msg));
        }
        let seq = read_u24_le_at(data, 1);
        let (bits_frames, bits_offset, bits_failed) = RakNetProtocol::parse_frame_set_with_mode(
            data,
            FrameLengthMode::Bits,
        );
        let frames = if bits_failed || bits_offset < data.len() {
            let (byte_frames, byte_offset, byte_failed) =
                RakNetProtocol::parse_frame_set_with_mode(data, FrameLengthMode::Bytes);
            if byte_frames.len() > 0 && (byte_offset > bits_offset || (bits_failed
                && !byte_failed)) {
                byte_frames
            } else {
                bits_frames
            }
        } else {
            bits_frames
        };
        Ok(FrameSet { id, seq, frames })
    }
}

} // verus!
