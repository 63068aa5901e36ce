//! Binary buffer with a read cursor: big/little-endian integers, triads and VarInts.
use crate::error::{Error, Result};
use vstd::prelude::*;
use vstd::string::StringSliceAdditionalSpecFns;

verus! {

// ---------- byte-level decoding of integers ----------

pub open spec fn be16(b0: u8, b1: u8) -> u16 {
    ((b0 as u16) << 8u16) | (b1 as u16)
}

pub open spec fn le16(b0: u8, b1: u8) -> u16 {
    (b0 as u16) | ((b1 as u16) << 8u16)
}

pub open spec fn le24(b0: u8, b1: u8, b2: u8) -> u32 {
    (b0 as u32) | ((b1 as u32) << 8u32) | ((b2 as u32) << 16u32)
}

pub open spec fn be32(b0: u8, b1: u8, b2: u8, b3: u8) -> u32 {
    ((b0 as u32) << 24u32) | ((b1 as u32) << 16u32) | ((b2 as u32) << 8u32) | (b3 as u32)
}

pub open spec fn le32(b0: u8, b1: u8, b2: u8, b3: u8) -> u32 {
    (b0 as u32) | ((b1 as u32) << 8u32) | ((b2 as u32) << 16u32) | ((b3 as u32) << 24u32)
}

/// Big-endian u64 of the eight bytes of `s` starting at `i`.
pub open spec fn be64_at(s: Seq<u8>, i: int) -> u64 {
    ((s[i] as u64) << 56u64) | ((s[i + 1] as u64) << 48u64) | ((s[i + 2] as u64) << 40u64)
        | ((s[i + 3] as u64) << 32u64) | ((s[i + 4] as u64) << 24u64) | ((s[i + 5] as u64)
        << 16u64) | ((s[i + 6] as u64) << 8u64) | (s[i + 7] as u64)
}

/// Little-endian u64 of the eight bytes of `s` starting at `i`.
pub open spec fn le64_at(s: Seq<u8>, i: int) -> u64 {
    (s[i] as u64) | ((s[i + 1] as u64) << 8u64) | ((s[i + 2] as u64) << 16u64) | ((s[i + 3] as u64)
        << 24u64) | ((s[i + 4] as u64) << 32u64) | ((s[i + 5] as u64) << 40u64) | ((s[i + 6] as u64)
        << 48u64) | ((s[i + 7] as u64) << 56u64)
}

// ---------- byte-level encoding of integers ----------

pub open spec fn u16_be_bytes(v: u16) -> Seq<u8> {
    seq![((v >> 8u16) & 0xFF) as u8, (v & 0xFF) as u8]
}

pub open spec fn u16_le_bytes(v: u16) -> Seq<u8> {
    seq![(v & 0xFF) as u8, ((v >> 8u16) & 0xFF) as u8]
}

pub open spec fn u24_le_bytes(v: u32) -> Seq<u8> {
    seq![(v & 0xFF) as u8, ((v >> 8u32) & 0xFF) as u8, ((v >> 16u32) & 0xFF) as u8]
}

pub open spec fn u32_be_bytes(v: u32) -> Seq<u8> {
    seq![
        ((v >> 24u32) & 0xFF) as u8,
        ((v >> 16u32) & 0xFF) as u8,
        ((v >> 8u32) & 0xFF) as u8,
        (v & 0xFF) as u8,
    ]
}

pub open spec fn u32_le_bytes(v: u32) -> Seq<u8> {
    seq![
        (v & 0xFF) as u8,
        ((v >> 8u32) & 0xFF) as u8,
        ((v >> 16u32) & 0xFF) as u8,
        ((v >> 24u32) & 0xFF) as u8,
    ]
}

pub open spec fn u64_be_bytes(v: u64) -> Seq<u8> {
    seq![
        ((v >> 56u64) & 0xFF) as u8,
        ((v >> 48u64) & 0xFF) as u8,
        ((v >> 40u64) & 0xFF) as u8,
        ((v >> 32u64) & 0xFF) as u8,
        ((v >> 24u64) & 0xFF) as u8,
        ((v >> 16u64) & 0xFF) as u8,
        ((v >> 8u64) & 0xFF) as u8,
        (v & 0xFF) as u8,
    ]
}

pub open spec fn u64_le_bytes(v: u64) -> Seq<u8> {
    seq![
        (v & 0xFF) as u8,
        ((v >> 8u64) & 0xFF) as u8,
        ((v >> 16u64) & 0xFF) as u8,
        ((v >> 24u64) & 0xFF) as u8,
        ((v >> 32u64) & 0xFF) as u8,
        ((v >> 40u64) & 0xFF) as u8,
        ((v >> 48u64) & 0xFF) as u8,
        ((v >> 56u64) & 0xFF) as u8,
    ]
}

/// The VarInt (LEB128, 7 bits per byte, least significant group first) encoding of `v`.
pub open spec fn var_int_bytes(v: u32) -> Seq<u8>
    decreases v,
{
    if v > 0x7F {
        proof {
            assert(v >> 7u32 < v) by (bit_vector)
                requires
                    v > 0x7F,
            ;
        }
        seq![((v & 0x7F) | 0x80) as u8] + var_int_bytes(v >> 7u32)
    } else {
        seq![(v & 0x7F) as u8]
    }
}

/// Decodes a VarInt from `data` at `pos`, having already consumed `i` bytes into `acc`.
/// At most five bytes are read; later groups are shifted into a 32-bit value
/// and bits above 32 are lost.  Returns the value and the position after it.
pub open spec fn var_int_from(data: Seq<u8>, pos: int, i: nat, acc: u32) -> Option<(u32, int)>
    decreases 5 - i,
{
    if i >= 5 {
        None
    } else if pos < 0 || pos + i >= data.len() {
        None
    } else {
        let b = data[pos + i];
        let acc2 = acc | (((b & 0x7F) as u32) << ((7 * i) as u32));
        if b & 0x80 == 0 {
            Some((acc2, pos + i + 1))
        } else {
            var_int_from(data, pos, i + 1, acc2)
        }
    }
}

/// The VarInt starting at `pos` in `data`, with the position after it.
pub open spec fn read_var_int_at(data: Seq<u8>, pos: int) -> Option<(u32, int)> {
    var_int_from(data, pos, 0, 0)
}

// ---------- what a read gives back of a write ----------

/// Reading a big-endian u16 from the bytes written for `v` gives `v` back.
pub proof fn lemma_u16_be_roundtrip(v: u16)
    ensures
        be16(u16_be_bytes(v)[0], u16_be_bytes(v)[1]) == v,
{
    assert((((((v >> 8u16) & 0xFF) as u8) as u16) << 8u16) | (((v & 0xFF) as u8) as u16) == v)
        by (bit_vector);
}

/// Reading a little-endian u16 from the bytes written for `v` gives `v` back.
pub proof fn lemma_u16_le_roundtrip(v: u16)
    ensures
        le16(u16_le_bytes(v)[0], u16_le_bytes(v)[1]) == v,
{
    assert((((v & 0xFF) as u8) as u16) | (((((v >> 8u16) & 0xFF) as u8) as u16) << 8u16) == v)
        by (bit_vector);
}

/// Reading a triad from the bytes written for `v` gives `v` back when `v` fits in 24 bits.
pub proof fn lemma_u24_le_roundtrip(v: u32)
    requires
        v < 0x1000000,
    ensures
        le24(u24_le_bytes(v)[0], u24_le_bytes(v)[1], u24_le_bytes(v)[2]) == v,
{
    assert((((v & 0xFF) as u8) as u32) | (((((v >> 8u32) & 0xFF) as u8) as u32) << 8u32) | (((((v
        >> 16u32) & 0xFF) as u8) as u32) << 16u32) == v) by (bit_vector)
        requires
            v < 0x1000000,
    ;
}

/// Reading a big-endian u32 from the bytes written for `v` gives `v` back.
pub proof fn lemma_u32_be_roundtrip(v: u32)
    ensures
        be32(u32_be_bytes(v)[0], u32_be_bytes(v)[1], u32_be_bytes(v)[2], u32_be_bytes(v)[3]) == v,
{
    assert((((((v >> 24u32) & 0xFF) as u8) as u32) << 24u32) | (((((v >> 16u32) & 0xFF) as u8)
        as u32) << 16u32) | (((((v >> 8u32) & 0xFF) as u8) as u32) << 8u32) | (((v & 0xFF) as u8)
        as u32) == v) by (bit_vector);
}

/// Reading a little-endian u32 from the bytes written for `v` gives `v` back.
pub proof fn lemma_u32_le_roundtrip(v: u32)
    ensures
        le32(u32_le_bytes(v)[0], u32_le_bytes(v)[1], u32_le_bytes(v)[2], u32_le_bytes(v)[3]) == v,
{
    assert((((v & 0xFF) as u8) as u32) | (((((v >> 8u32) & 0xFF) as u8) as u32) << 8u32) | (((((v
        >> 16u32) & 0xFF) as u8) as u32) << 16u32) | (((((v >> 24u32) & 0xFF) as u8) as u32)
        << 24u32) == v) by (bit_vector);
}

/// Reading a big-endian u64 from the bytes written for `v` gives `v` back.
pub proof fn lemma_u64_be_roundtrip(v: u64)
    ensures
        be64_at(u64_be_bytes(v), 0) == v,
{
    let s = u64_be_bytes(v);
    assert(be64_at(s, 0) == ((((((v >> 56u64) & 0xFF) as u8) as u64) << 56u64) | (((((v >> 48u64)
        & 0xFF) as u8) as u64) << 48u64) | (((((v >> 40u64) & 0xFF) as u8) as u64) << 40u64) | (((((v
        >> 32u64) & 0xFF) as u8) as u64) << 32u64) | (((((v >> 24u64) & 0xFF) as u8) as u64)
        << 24u64) | (((((v >> 16u64) & 0xFF) as u8) as u64) << 16u64) | (((((v >> 8u64) & 0xFF)
        as u8) as u64) << 8u64) | (((v & 0xFF) as u8) as u64)));
    assert((((((v >> 56u64) & 0xFF) as u8) as u64) << 56u64) | (((((v >> 48u64) & 0xFF) as u8)
        as u64) << 48u64) | (((((v >> 40u64) & 0xFF) as u8) as u64) << 40u64) | (((((v >> 32u64)
        & 0xFF) as u8) as u64) << 32u64) | (((((v >> 24u64) & 0xFF) as u8) as u64) << 24u64) | (((((v
        >> 16u64) & 0xFF) as u8) as u64) << 16u64) | (((((v >> 8u64) & 0xFF) as u8) as u64) << 8u64)
        | (((v & 0xFF) as u8) as u64) == v) by (bit_vector);
}

/// Reading a little-endian u64 from the bytes written for `v` gives `v` back.
pub proof fn lemma_u64_le_roundtrip(v: u64)
    ensures
        le64_at(u64_le_bytes(v), 0) == v,
{
    let s = u64_le_bytes(v);
    assert(le64_at(s, 0) == ((((v & 0xFF) as u8) as u64) | (((((v >> 8u64) & 0xFF) as u8) as u64)
        << 8u64) | (((((v >> 16u64) & 0xFF) as u8) as u64) << 16u64) | (((((v >> 24u64) & 0xFF)
        as u8) as u64) << 24u64) | (((((v >> 32u64) & 0xFF) as u8) as u64) << 32u64) | (((((v
        >> 40u64) & 0xFF) as u8) as u64) << 40u64) | (((((v >> 48u64) & 0xFF) as u8) as u64)
        << 48u64) | (((((v >> 56u64) & 0xFF) as u8) as u64) << 56u64)));
    assert((((v & 0xFF) as u8) as u64) | (((((v >> 8u64) & 0xFF) as u8) as u64) << 8u64) | (((((v
        >> 16u64) & 0xFF) as u8) as u64) << 16u64) | (((((v >> 24u64) & 0xFF) as u8) as u64)
        << 24u64) | (((((v >> 32u64) & 0xFF) as u8) as u64) << 32u64) | (((((v >> 40u64) & 0xFF)
        as u8) as u64) << 40u64) | (((((v >> 48u64) & 0xFF) as u8) as u64) << 48u64) | (((((v
        >> 56u64) & 0xFF) as u8) as u64) << 56u64) == v) by (bit_vector);
}

/// What a buffer reads back of a `u64` written after any bytes: reading eight bytes at
/// the position where `write_u64_le` (or `write_u64`) started gives the value back in the
/// same byte order.
pub proof fn lemma_u64_written_reads_back(prefix: Seq<u8>, v: u64)
    ensures
        le64_at(prefix + u64_le_bytes(v), prefix.len() as int) == v,
        be64_at(prefix + u64_be_bytes(v), prefix.len() as int) == v,
{
    lemma_u64_le_roundtrip(v);
    lemma_u64_be_roundtrip(v);
    let n = prefix.len() as int;
    let a = prefix + u64_le_bytes(v);
    let b = prefix + u64_be_bytes(v);
    assert(forall|i: int| 0 <= i < 8 ==> a[n + i] == u64_le_bytes(v)[i]);
    assert(forall|i: int| 0 <= i < 8 ==> b[n + i] == u64_be_bytes(v)[i]);
    assert(a[n] == u64_le_bytes(v)[0] && a[n + 1] == u64_le_bytes(v)[1] && a[n + 2] == u64_le_bytes(
        v,
    )[2] && a[n + 3] == u64_le_bytes(v)[3] && a[n + 4] == u64_le_bytes(v)[4] && a[n + 5]
        == u64_le_bytes(v)[5] && a[n + 6] == u64_le_bytes(v)[6] && a[n + 7] == u64_le_bytes(v)[7]);
    assert(b[n] == u64_be_bytes(v)[0] && b[n + 1] == u64_be_bytes(v)[1] && b[n + 2] == u64_be_bytes(
        v,
    )[2] && b[n + 3] == u64_be_bytes(v)[3] && b[n + 4] == u64_be_bytes(v)[4] && b[n + 5]
        == u64_be_bytes(v)[5] && b[n + 6] == u64_be_bytes(v)[6] && b[n + 7] == u64_be_bytes(v)[7]);
}

/// A VarInt is one to five bytes long.
pub proof fn lemma_var_int_len(v: u32)
    ensures
        1 <= var_int_bytes(v).len() <= 5,
        var_int_bytes(v).len() == 1 <==> v <= 0x7F,
{
    reveal_with_fuel(var_int_bytes, 6);
    assert((v >> 7u32) >> 7u32 == v >> 14u32) by (bit_vector);
    assert(((v >> 7u32) >> 14u32) == v >> 21u32) by (bit_vector);
    assert(((v >> 7u32) >> 21u32) == v >> 28u32) by (bit_vector);
    assert(v >> 28u32 <= 0x7F) by (bit_vector);
    assert((v >> 14u32) >> 7u32 == v >> 21u32) by (bit_vector);
    assert((v >> 21u32) >> 7u32 == v >> 28u32) by (bit_vector);
}

/// The seven payload bits a VarInt byte carries.
pub open spec fn var_group(b: u8) -> u32 {
    (b & 0x7F) as u32
}

/// A VarInt byte that announces more bytes.
pub open spec fn var_more(x: u32) -> u8 {
    ((x & 0x7F) | 0x80) as u8
}

/// The final VarInt byte.
pub open spec fn var_last(x: u32) -> u8 {
    (x & 0x7F) as u8
}

proof fn lemma_var_bytes_bits(x: u32)
    ensures
        var_more(x) & 0x80 != 0,
        var_group(var_more(x)) == x & 0x7F,
        x <= 0x7F ==> var_last(x) & 0x80 == 0,
        x <= 0x7F ==> var_group(var_last(x)) == x,
{
    assert(((((x & 0x7F) | 0x80) as u8) & 0x80) != 0) by (bit_vector);
    assert(((((x & 0x7F) | 0x80) as u8) & 0x7F) as u32 == x & 0x7F) by (bit_vector);
    assert(x <= 0x7F ==> (((x & 0x7F) as u8) & 0x80) == 0) by (bit_vector);
    assert(x <= 0x7F ==> ((((x & 0x7F) as u8) & 0x7F) as u32) == x) by (bit_vector);
}

/// Decoding the bytes that `write_var_int` appends for `v` gives `v` back and stops
/// right after them, whatever surrounds them.
pub proof fn lemma_var_int_roundtrip(v: u32, data: Seq<u8>, pos: int)
    requires
        0 <= pos,
        pos + var_int_bytes(v).len() <= data.len(),
        data.subrange(pos, pos + var_int_bytes(v).len()) == var_int_bytes(v),
    ensures
        read_var_int_at(data, pos) == Some((v, pos + var_int_bytes(v).len())),
{
    reveal_with_fuel(var_int_bytes, 6);
    reveal_with_fuel(var_int_from, 6);
    lemma_var_int_len(v);
    let e = var_int_bytes(v);
    let sub = data.subrange(pos, pos + e.len());
    assert(sub[0] == data[pos]);
    assert(e.len() > 1 ==> sub[1] == data[pos + 1]);
    assert(e.len() > 2 ==> sub[2] == data[pos + 2]);
    assert(e.len() > 3 ==> sub[3] == data[pos + 3]);
    assert(e.len() > 4 ==> sub[4] == data[pos + 4]);
    let v1 = v >> 7u32;
    let v2 = v >> 14u32;
    let v3 = v >> 21u32;
    let v4 = v >> 28u32;
    assert((v >> 7u32) >> 7u32 == v >> 14u32) by (bit_vector);
    assert((v >> 14u32) >> 7u32 == v >> 21u32) by (bit_vector);
    assert((v >> 21u32) >> 7u32 == v >> 28u32) by (bit_vector);
    assert(v >> 28u32 <= 0x7F) by (bit_vector);
    lemma_var_bytes_bits(v);
    lemma_var_bytes_bits(v1);
    lemma_var_bytes_bits(v2);
    lemma_var_bytes_bits(v3);
    lemma_var_bytes_bits(v4);
    let g0 = v & 0x7F;
    let g1 = v1 & 0x7F;
    let g2 = v2 & 0x7F;
    let g3 = v3 & 0x7F;
    assert(0u32 | (g0 << 0u32) == g0) by (bit_vector);
    if v <= 0x7F {
        assert(g0 == v) by (bit_vector)
            requires
                g0 == v & 0x7F,
                v <= 0x7F,
        ;
    } else if v1 <= 0x7F {
        assert(g0 | (v1 << 7u32) == v) by (bit_vector)
            requires
                g0 == v & 0x7F,
                v1 == v >> 7u32,
        ;
    } else if v2 <= 0x7F {
        assert(g0 | (g1 << 7u32) | (v2 << 14u32) == v) by (bit_vector)
            requires
                g0 == v & 0x7F,
                g1 == v1 & 0x7F,
                v1 == v >> 7u32,
                v2 == v >> 14u32,
        ;
    } else if v3 <= 0x7F {
        assert(g0 | (g1 << 7u32) | (g2 << 14u32) | (v3 << 21u32) == v) by (bit_vector)
            requires
                g0 == v & 0x7F,
                g1 == v1 & 0x7F,
                g2 == v2 & 0x7F,
                v1 == v >> 7u32,
                v2 == v >> 14u32,
                v3 == v >> 21u32,
        ;
    } else {
        assert(g0 | (g1 << 7u32) | (g2 << 14u32) | (g3 << 21u32) | (v4 << 28u32) == v)
            by (bit_vector)
            requires
                g0 == v & 0x7F,
                g1 == v1 & 0x7F,
                g2 == v2 & 0x7F,
                g3 == v3 & 0x7F,
                v1 == v >> 7u32,
                v2 == v >> 14u32,
                v3 == v >> 21u32,
                v4 == v >> 28u32,
        ;
    }
}

/// The value the seven-bit groups of VarInt bytes stand for, least significant first.
pub open spec fn var_int_sum(e: Seq<u8>) -> int
    decreases e.len(),
{
    if e.len() == 0 {
        0
    } else {
        var_group(e[0]) + 128 * var_int_sum(e.drop_first())
    }
}

/// The shape of the bytes written for a VarInt (minimal LEB128): one to five bytes, the
/// high bit set on every byte but the last, the seven-bit groups adding up to `v`, and
/// no trailing zero byte unless `v` is 0.
pub proof fn lemma_var_int_bytes_shape(v: u32)
    ensures
        ({
            let e = var_int_bytes(v);
            &&& 1 <= e.len() <= 5
            &&& forall|i: int| 0 <= i < e.len() ==> ((#[trigger] e[i] & 0x80 != 0) <==> i < e.len()
                - 1)
            &&& var_int_sum(e) == v
            &&& (e[e.len() - 1] != 0 || v == 0)
        }),
    decreases v,
{
    lemma_var_int_len(v);
    lemma_var_bytes_bits(v);
    let e = var_int_bytes(v);
    if v > 0x7F {
        let w = v >> 7u32;
        assert(w < v && w >= 1) by (bit_vector)
            requires
                w == v >> 7u32,
                v > 0x7F,
        ;
        lemma_var_int_bytes_shape(w);
        let t = var_int_bytes(w);
        assert(e == seq![var_more(v)] + t);
        assert(e.drop_first() =~= t);
        assert(e[0] == var_more(v));
        assert(var_int_sum(e) == var_group(e[0]) + 128 * var_int_sum(t));
        assert(var_group(var_more(v)) + 128 * (w as int) == v) by (bit_vector)
            requires
                var_group(var_more(v)) == v & 0x7F,
                w == v >> 7u32,
        ;
        assert forall|i: int| 0 <= i < e.len() implies ((#[trigger] e[i] & 0x80 != 0) <==> i < e.len()
            - 1) by {
            if i > 0 {
                assert(e[i] == t[i - 1]);
            }
        }
        assert(e[e.len() - 1] == t[t.len() - 1]);
    } else {
        assert(var_group(var_last(v)) == v);
        assert(v <= 0x7F ==> (((v & 0x7F) as u8) as u32) == v) by (bit_vector);
        assert(e[0] == var_last(v));
        assert(e.drop_first() =~= Seq::<u8>::empty());
        assert(var_int_sum(Seq::<u8>::empty()) == 0);
        assert(var_int_sum(e) == var_group(e[0]) + 128 * var_int_sum(e.drop_first()));
    }
}

/// A decoded VarInt ends after its start and inside the data.
pub proof fn lemma_var_int_advances(data: Seq<u8>, pos: int)
    ensures
        read_var_int_at(data, pos) matches Some((v, next)) ==> pos < next <= data.len(),
{
    lemma_var_from_advances(data, pos, 0, 0);
}

proof fn lemma_var_from_advances(data: Seq<u8>, pos: int, i: nat, acc: u32)
    ensures
        var_int_from(data, pos, i, acc) matches Some((v, next)) ==> pos + i < next <= data.len(),
    decreases 5 - i,
{
    if i < 5 && pos >= 0 && pos + i < data.len() {
        let b = data[pos + i];
        lemma_var_from_advances(data, pos, i + 1, acc | (((b & 0x7F) as u32) << ((7 * i) as u32)));
    }
}

/// Binary buffer for reading and writing data.
///
/// Writes always append to the end; reads consume bytes from the cursor.
#[derive(Debug)]
pub struct Buffer {
    data: Vec<u8>,
    position: usize,
}

/// The error every out-of-range read reports.
pub open spec fn is_overflow_error(e: Error) -> bool {
    e matches Error::InvalidData(m) && m@ == "Buffer overflow"@
}

fn overflow() -> (e: Error)
    ensures
        is_overflow_error(e),
{
    Error::InvalidData(String::from_str("Buffer overflow"))
}

impl Buffer {
    /// The cursor never passes the end of the data: the type's invariant, which every
    /// operation keeps.
    #[verifier::type_invariant]
    pub open spec fn wf(&self) -> bool {
        self.pos() <= self.bytes().len()
    }

    /// All bytes held by the buffer.
    pub closed spec fn bytes(&self) -> Seq<u8> {
        self.data@
    }

    /// The read cursor.
    pub closed spec fn pos(&self) -> nat {
        self.position as nat
    }

    /// Create a new empty buffer
    pub fn new() -> (b: Self)
        ensures
            b.bytes() == Seq::<u8>::empty(),
            b.pos() == 0,
            b.wf(),
    {
        Buffer { data: Vec::new(), position: 0 }
    }

    /// Create a buffer from existing data
    pub fn from(data: &[u8]) -> (b: Self)
        ensures
            b.bytes() == data@,
            b.pos() == 0,
            b.wf(),
    {
        Buffer { data: vstd::slice::slice_to_vec(data), position: 0 }
    }

    /// Check if buffer has remaining data to read
    pub fn has_remaining(&self) -> (r: bool)
        ensures
            r == (self.pos() < self.bytes().len()),
    {
        self.position < self.data.len()
    }

    /// Get remaining bytes count
    pub fn remaining(&self) -> (r: usize)
        ensures
            r == if self.pos() < self.bytes().len() {
                self.bytes().len() - self.pos()
            } else {
                0
            },
    {
        if self.position < self.data.len() {
            self.data.len() - self.position
        } else {
            0
        }
    }

    /// True when `n` more bytes can be read from the cursor.
    fn fits(&self, n: usize) -> (r: bool)
        ensures
            r == (self.pos() + n <= self.bytes().len()),
            self.bytes().len() <= usize::MAX,
    {
        self.position <= self.data.len() && n <= self.data.len() - self.position
    }

    /// Read a single byte (unsigned)
    pub fn read_u8(&mut self) -> (r: Result<u8>)
        ensures
            final(self).bytes() == old(self).bytes(),
            old(self).pos() < old(self).bytes().len() ==> r == Ok::<u8, Error>(
                old(self).bytes()[old(self).pos() as int],
            ) && final(self).pos() == old(self).pos() + 1,
            old(self).pos() >= old(self).bytes().len() ==> (r matches Err(e) && is_overflow_error(e)
                && final(self).pos() == old(self).pos()),
    {
        if self.position < self.data.len() {
            let val = self.data[self.position];
            self.position = self.position + 1;
            Ok(val)
        } else {
            Err(overflow())
        }
    }

    /// Read a signed byte
    pub fn read_i8(&mut self) -> (r: Result<i8>)
        ensures
            final(self).bytes() == old(self).bytes(),
            old(self).pos() < old(self).bytes().len() ==> r == Ok::<i8, Error>(
                old(self).bytes()[old(self).pos() as int] as i8,
            ) && final(self).pos() == old(self).pos() + 1,
            old(self).pos() >= old(self).bytes().len() ==> (r matches Err(e) && is_overflow_error(e)
                && final(self).pos() == old(self).pos()),
    {
        match self.read_u8() {
            Ok(v) => Ok(v as i8),
            Err(e) => Err(e),
        }
    }

    /// Read 16-bit unsigned integer (Big Endian)
    pub fn read_u16(&mut self) -> (r: Result<u16>)
        ensures
            final(self).bytes() == old(self).bytes(),
            ({
                let s = old(self).bytes();
                let p = old(self).pos() as int;
                if p + 2 <= s.len() {
                    r == Ok::<u16, Error>(be16(s[p], s[p + 1])) && final(self).pos() == p + 2
                } else {
                    r matches Err(e) && is_overflow_error(e) && final(self).pos() == p
                }
            }),
    {
        if self.fits(2) {
            let p = self.position;
            let val = ((self.data[p] as u16) << 8u16) | (self.data[p + 1] as u16);
            self.position = p + 2;
            Ok(val)
        } else {
            Err(overflow())
        }
    }

    /// Read 16-bit unsigned integer (Little Endian)
    pub fn read_u16_le(&mut self) -> (r: Result<u16>)
        ensures
            final(self).bytes() == old(self).bytes(),
            ({
                let s = old(self).bytes();
                let p = old(self).pos() as int;
                if p + 2 <= s.len() {
                    r == Ok::<u16, Error>(le16(s[p], s[p + 1])) && final(self).pos() == p + 2
                } else {
                    r matches Err(e) && is_overflow_error(e) && final(self).pos() == p
                }
            }),
    {
        if self.fits(2) {
            let p = self.position;
            let val = (self.data[p] as u16) | ((self.data[p + 1] as u16) << 8u16);
            self.position = p + 2;
            Ok(val)
        } else {
            Err(overflow())
        }
    }

    /// Read 32-bit unsigned integer (Big Endian)
    pub fn read_u32(&mut self) -> (r: Result<u32>)
        ensures
            final(self).bytes() == old(self).bytes(),
            ({
                let s = old(self).bytes();
                let p = old(self).pos() as int;
                if p + 4 <= s.len() {
                    r == Ok::<u32, Error>(be32(s[p], s[p + 1], s[p + 2], s[p + 3]))
                        && final(self).pos() == p + 4
                } else {
                    r matches Err(e) && is_overflow_error(e) && final(self).pos() == p
                }
            }),
    {
        if self.fits(4) {
            let p = self.position;
            let val = ((self.data[p] as u32) << 24u32) | ((self.data[p + 1] as u32) << 16u32)
                | ((self.data[p + 2] as u32) << 8u32) | (self.data[p + 3] as u32);
            self.position = p + 4;
            Ok(val)
        } else {
            Err(overflow())
        }
    }

    /// Read 32-bit unsigned integer (Little Endian)
    pub fn read_u32_le(&mut self) -> (r: Result<u32>)
        ensures
            final(self).bytes() == old(self).bytes(),
            ({
                let s = old(self).bytes();
                let p = old(self).pos() as int;
                if p + 4 <= s.len() {
                    r == Ok::<u32, Error>(le32(s[p], s[p + 1], s[p + 2], s[p + 3]))
                        && final(self).pos() == p + 4
                } else {
                    r matches Err(e) && is_overflow_error(e) && final(self).pos() == p
                }
            }),
    {
        if self.fits(4) {
            let p = self.position;
            let val = (self.data[p] as u32) | ((self.data[p + 1] as u32) << 8u32) | ((self.data[p
                + 2] as u32) << 16u32) | ((self.data[p + 3] as u32) << 24u32);
            self.position = p + 4;
            Ok(val)
        } else {
            Err(overflow())
        }
    }

    /// Read 24-bit unsigned integer (Little Endian) - Triad
    pub fn read_u24_le(&mut self) -> (r: Result<u32>)
        ensures
            final(self).bytes() == old(self).bytes(),
            ({
                let s = old(self).bytes();
                let p = old(self).pos() as int;
                if p + 3 <= s.len() {
                    r == Ok::<u32, Error>(le24(s[p], s[p + 1], s[p + 2])) && final(self).pos() == p
                        + 3
                } else {
                    r matches Err(e) && is_overflow_error(e) && final(self).pos() == p
                }
            }),
    {
        if self.fits(3) {
            let p = self.position;
            let val = (self.data[p] as u32) | ((self.data[p + 1] as u32) << 8u32) | ((self.data[p
                + 2] as u32) << 16u32);
            self.position = p + 3;
            Ok(val)
        } else {
            Err(overflow())
        }
    }

    /// Read 64-bit unsigned integer (Big Endian)
    pub fn read_u64(&mut self) -> (r: Result<u64>)
        ensures
            final(self).bytes() == old(self).bytes(),
            ({
                let s = old(self).bytes();
                let p = old(self).pos() as int;
                if p + 8 <= s.len() {
                    r == Ok::<u64, Error>(be64_at(s, p)) && final(self).pos() == p + 8
                } else {
                    r matches Err(e) && is_overflow_error(e) && final(self).pos() == p
                }
            }),
    {
        if self.fits(8) {
            let p = self.position;
            let d = &self.data;
            let val = ((d[p] as u64) << 56u64) | ((d[p + 1] as u64) << 48u64) | ((d[p + 2] as u64)
                << 40u64) | ((d[p + 3] as u64) << 32u64) | ((d[p + 4] as u64) << 24u64) | ((d[p
                + 5] as u64) << 16u64) | ((d[p + 6] as u64) << 8u64) | (d[p + 7] as u64);
            self.position = p + 8;
            Ok(val)
        } else {
            Err(overflow())
        }
    }

    /// Read 64-bit unsigned integer (Little Endian)
    pub fn read_u64_le(&mut self) -> (r: Result<u64>)
        ensures
            final(self).bytes() == old(self).bytes(),
            ({
                let s = old(self).bytes();
                let p = old(self).pos() as int;
                if p + 8 <= s.len() {
                    r == Ok::<u64, Error>(le64_at(s, p)) && final(self).pos() == p + 8
                } else {
                    r matches Err(e) && is_overflow_error(e) && final(self).pos() == p
                }
            }),
    {
        if self.fits(8) {
            let p = self.position;
            let d = &self.data;
            let val = (d[p] as u64) | ((d[p + 1] as u64) << 8u64) | ((d[p + 2] as u64) << 16u64)
                | ((d[p + 3] as u64) << 24u64) | ((d[p + 4] as u64) << 32u64) | ((d[p + 5] as u64)
                << 40u64) | ((d[p + 6] as u64) << 48u64) | ((d[p + 7] as u64) << 56u64);
            self.position = p + 8;
            Ok(val)
        } else {
            Err(overflow())
        }
    }

    /// Read VarInt (variable length integer)
    /// Used in Bedrock protocol for compact integer representation
    pub fn read_var_int(&mut self) -> (r: Result<u32>)
        ensures
            final(self).bytes() == old(self).bytes(),
            match read_var_int_at(old(self).bytes(), old(self).pos() as int) {
                Some((v, next)) => r == Ok::<u32, Error>(v) && final(self).pos() == next,
                None => r is Err && final(self).pos() == if old(self).pos() + 5 <= old(
                    self,
                ).bytes().len() {
                    old(self).pos() + 5
                } else {
                    old(self).bytes().len()
                },
            },
    {
        proof {
            use_type_invariant(&*self);
        }
        let mut result: u32 = 0;
        let mut i: u32 = 0;
        let ghost start = self.pos() as int;
        let ghost s = self.bytes();
        while i < 5
            invariant
                i <= 5,
                self.bytes() == s,
                s == old(self).bytes(),
                start == old(self).pos(),
                self.pos() == start + i,
                self.wf(),
                start >= 0,
                read_var_int_at(s, start) == var_int_from(s, start, i as nat, result),
            decreases 5 - i,
        {
            let byte = match self.read_u8() {
                Ok(b) => b,
                Err(e) => {
                    return Err(e);
                },
            };
            proof {
                use_type_invariant(&*self);
            }
            result = result | (((byte & 0x7F) as u32) << (7 * i));
            if (byte & 0x80) == 0 {
                return Ok(result);
            }
            i = i + 1;
        }
        Err(Error::InvalidData(String::from_str("VarInt too large")))
    }

    /// Read multiple bytes
    pub fn read_bytes(&mut self, count: usize) -> (r: Result<Vec<u8>>)
        ensures
            final(self).bytes() == old(self).bytes(),
            ({
                let s = old(self).bytes();
                let p = old(self).pos() as int;
                if p + count <= s.len() {
                    r matches Ok(v) && v@ == s.subrange(p, p + count) && final(self).pos() == p
                        + count
                } else {
                    r matches Err(e) && is_overflow_error(e) && final(self).pos() == p
                }
            }),
    {
        if self.fits(count) {
            let p = self.position;
            let slice = vstd::slice::slice_to_vec(vstd::slice::slice_subrange(self.data.as_slice(), p, p + count));
            self.position = p + count;
            Ok(slice)
        } else {
            Err(overflow())
        }
    }

    /// Read remaining bytes
    pub fn read_remaining(&mut self) -> (r: Vec<u8>)
        ensures
            final(self).bytes() == old(self).bytes(),
            r@ == old(self).bytes().subrange(
                old(self).pos() as int,
                old(self).bytes().len() as int,
            ),
            final(self).pos() == final(self).bytes().len(),
    {
        proof {
            use_type_invariant(&*self);
        }
        let p = if self.position <= self.data.len() { self.position } else { self.data.len() };
        let n = self.data.len() - p;
        let slice = vstd::slice::slice_to_vec(vstd::slice::slice_subrange(self.data.as_slice(), p, p + n));
        self.position = self.data.len();
        slice
    }

    /// Peek a byte at offset without advancing
    pub fn peek_u8(&self, offset: usize) -> (r: Result<u8>)
        ensures
            self.pos() + offset < self.bytes().len() ==> r == Ok::<u8, Error>(
                self.bytes()[self.pos() + offset],
            ),
            self.pos() + offset >= self.bytes().len() ==> (r matches Err(e) && is_overflow_error(e)),
    {
        if self.position <= self.data.len() && offset < self.data.len() - self.position {
            Ok(self.data[self.position + offset])
        } else {
            Err(overflow())
        }
    }

    // ===== Write operations =====

    /// Appends one byte; the bytes are moved out and the buffer rebuilt around them, so
    /// the invariant holds at every step.
    fn push_byte(&mut self, value: u8)
        ensures
            final(self).bytes() == old(self).bytes().push(value),
            final(self).pos() == old(self).pos(),
    {
        proof {
            use_type_invariant(&*self);
        }
        let mut taken = Buffer::new();
        std::mem::swap(&mut taken, self);
        let Buffer { mut data, position } = taken;
        data.push(value);
        *self = Buffer { data, position };
    }

    /// Write a single byte
    pub fn write_u8(&mut self, value: u8) -> (r: Result<()>)
        ensures
            r is Ok,
            final(self).bytes() == old(self).bytes().push(value),
            final(self).pos() == old(self).pos(),
    {
        self.push_byte(value);
        Ok(())
    }

    /// Appends `bytes` (a helper for the fixed-width writers).
    fn append_seq(&mut self, bytes: &[u8])
        ensures
            final(self).bytes() == old(self).bytes() + bytes@,
            final(self).pos() == old(self).pos(),
    {
        let mut i: usize = 0;
        let ghost start = self.bytes();
        while i < bytes.len()
            invariant
                i <= bytes.len(),
                self.bytes() == start + bytes@.take(i as int),
                self.pos() == old(self).pos(),
            decreases bytes.len() - i,
        {
            self.push_byte(bytes[i]);
            proof {
                assert(bytes@.take(i + 1) == bytes@.take(i as int).push(bytes@[i as int]));
            }
            i = i + 1;
        }
        proof { assert(bytes@.take(bytes@.len() as int) == bytes@); }
    }

    /// Write 16-bit unsigned integer (Big Endian)
    pub fn write_u16(&mut self, value: u16) -> (r: Result<()>)
        ensures
            r is Ok,
            final(self).bytes() == old(self).bytes() + u16_be_bytes(value),
            final(self).pos() == old(self).pos(),
    {
        let b = [((value >> 8u16) & 0xFF) as u8, (value & 0xFF) as u8];
        self.append_seq(&b);
        proof { assert(b@ == u16_be_bytes(value)); }
        Ok(())
    }

    /// Write 16-bit unsigned integer (Little Endian)
    pub fn write_u16_le(&mut self, value: u16) -> (r: Result<()>)
        ensures
            r is Ok,
            final(self).bytes() == old(self).bytes() + u16_le_bytes(value),
            final(self).pos() == old(self).pos(),
    {
        let b = [(value & 0xFF) as u8, ((value >> 8u16) & 0xFF) as u8];
        self.append_seq(&b);
        proof { assert(b@ == u16_le_bytes(value)); }
        Ok(())
    }

    /// Write 32-bit unsigned integer (Big Endian)
    pub fn write_u32(&mut self, value: u32) -> (r: Result<()>)
        ensures
            r is Ok,
            final(self).bytes() == old(self).bytes() + u32_be_bytes(value),
            final(self).pos() == old(self).pos(),
    {
        let b = [
            ((value >> 24u32) & 0xFF) as u8,
            ((value >> 16u32) & 0xFF) as u8,
            ((value >> 8u32) & 0xFF) as u8,
            (value & 0xFF) as u8,
        ];
        self.append_seq(&b);
        proof { assert(b@ == u32_be_bytes(value)); }
        Ok(())
    }

    /// Write 32-bit unsigned integer (Little Endian)
    pub fn write_u32_le(&mut self, value: u32) -> (r: Result<()>)
        ensures
            r is Ok,
            final(self).bytes() == old(self).bytes() + u32_le_bytes(value),
            final(self).pos() == old(self).pos(),
    {
        let b = [
            (value & 0xFF) as u8,
            ((value >> 8u32) & 0xFF) as u8,
            ((value >> 16u32) & 0xFF) as u8,
            ((value >> 24u32) & 0xFF) as u8,
        ];
        self.append_seq(&b);
        proof { assert(b@ == u32_le_bytes(value)); }
        Ok(())
    }

    /// Write 24-bit unsigned integer (Little Endian) - Triad
    pub fn write_u24_le(&mut self, value: u32) -> (r: Result<()>)
        ensures
            r is Ok,
            final(self).bytes() == old(self).bytes() + u24_le_bytes(value),
            final(self).pos() == old(self).pos(),
    {
        let b = [(value & 0xFF) as u8, ((value >> 8u32) & 0xFF) as u8, ((value >> 16u32) & 0xFF) as u8];
        self.append_seq(&b);
        proof { assert(b@ == u24_le_bytes(value)); }
        Ok(())
    }

    /// Write 64-bit unsigned integer (Big Endian)
    pub fn write_u64(&mut self, value: u64) -> (r: Result<()>)
        ensures
            r is Ok,
            final(self).bytes() == old(self).bytes() + u64_be_bytes(value),
            final(self).pos() == old(self).pos(),
    {
        let b = [
            ((value >> 56u64) & 0xFF) as u8,
            ((value >> 48u64) & 0xFF) as u8,
            ((value >> 40u64) & 0xFF) as u8,
            ((value >> 32u64) & 0xFF) as u8,
            ((value >> 24u64) & 0xFF) as u8,
            ((value >> 16u64) & 0xFF) as u8,
            ((value >> 8u64) & 0xFF) as u8,
            (value & 0xFF) as u8,
        ];
        self.append_seq(&b);
        proof { assert(b@ == u64_be_bytes(value)); }
        Ok(())
    }

    /// Write 64-bit unsigned integer (Little Endian)
    pub fn write_u64_le(&mut self, value: u64) -> (r: Result<()>)
        ensures
            r is Ok,
            final(self).bytes() == old(self).bytes() + u64_le_bytes(value),
            final(self).pos() == old(self).pos(),
    {
        let b = [
            (value & 0xFF) as u8,
            ((value >> 8u64) & 0xFF) as u8,
            ((value >> 16u64) & 0xFF) as u8,
            ((value >> 24u64) & 0xFF) as u8,
            ((value >> 32u64) & 0xFF) as u8,
            ((value >> 40u64) & 0xFF) as u8,
            ((value >> 48u64) & 0xFF) as u8,
            ((value >> 56u64) & 0xFF) as u8,
        ];
        self.append_seq(&b);
        proof { assert(b@ == u64_le_bytes(value)); }
        Ok(())
    }

    /// Write VarInt (variable length integer)
    pub fn write_var_int(&mut self, value: u32) -> (r: Result<()>)
        ensures
            r is Ok,
            final(self).bytes() == old(self).bytes() + var_int_bytes(value),
            final(self).pos() == old(self).pos(),
    {
        let mut v = value;
        let ghost start = self.bytes();
        while v > 0x7F
            invariant
                start + var_int_bytes(value) == self.bytes() + var_int_bytes(v),
                self.pos() == old(self).pos(),
            decreases v,
        {
            proof {
                assert(var_int_bytes(v) == seq![((v & 0x7F) | 0x80) as u8] + var_int_bytes(v >> 7u32));
                assert(v >> 7u32 < v) by (bit_vector) requires v > 0x7F;
            }
            self.push_byte(((v & 0x7F) | 0x80) as u8);
            proof {
                let ghost prev = self.bytes().drop_last();
                assert(self.bytes() + var_int_bytes(v >> 7u32) =~= prev + (seq![((v & 0x7F)
                    | 0x80) as u8] + var_int_bytes(v >> 7u32)));
            }
            v = v >> 7u32;
        }
        self.push_byte((v & 0x7F) as u8);
        proof {
            assert(var_int_bytes(v) == seq![(v & 0x7F) as u8]);
        }
        Ok(())
    }

    /// Write signed VarInt (the two's complement bits of `value` as an unsigned VarInt)
    pub fn write_signed_var_int(&mut self, value: i32) -> (r: Result<()>)
        ensures
            r is Ok,
            final(self).bytes() == old(self).bytes() + var_int_bytes(value as u32),
            final(self).pos() == old(self).pos(),
    {
        self.write_var_int(value as u32)
    }

    /// Write a VarString (VarInt byte length + UTF-8 bytes)
    pub fn write_var_string(&mut self, value: &str) -> (r: Result<()>)
        ensures
            r is Ok,
            final(self).bytes() == old(self).bytes() + var_int_bytes(value.spec_bytes().len() as u32)
                + value.spec_bytes(),
            final(self).pos() == old(self).pos(),
    {
        let bytes = value.as_bytes();
        let _ = self.write_var_int(bytes.len() as u32);
        self.write_bytes(bytes)
    }

    /// Write a boolean (single byte: 0 or 1)
    pub fn write_bool(&mut self, value: bool) -> (r: Result<()>)
        ensures
            r is Ok,
            final(self).bytes() == old(self).bytes().push(if value { 1u8 } else { 0u8 }),
            final(self).pos() == old(self).pos(),
    {
        self.write_u8(if value { 1 } else { 0 })
    }

    /// Write multiple bytes
    pub fn write_bytes(&mut self, data: &[u8]) -> (r: Result<()>)
        ensures
            r is Ok,
            final(self).bytes() == old(self).bytes() + data@,
            final(self).pos() == old(self).pos(),
    {
        self.append_seq(data);
        Ok(())
    }

    // ===== Utility methods =====

    /// Get buffer as bytes
    pub fn to_vec(&self) -> (r: Vec<u8>)
        ensures
            r@ == self.bytes(),
    {
        self.data.clone()
    }

    /// Get buffer as slice
    pub fn as_slice(&self) -> (r: &[u8])
        ensures
            r@ == self.bytes(),
    {
        self.data.as_slice()
    }

    /// Reset read position to beginning
    pub fn reset(&mut self)
        ensures
            final(self).bytes() == old(self).bytes(),
            final(self).pos() == 0,
    {
        self.position = 0;
    }

    /// Get current read position
    pub fn position(&self) -> (r: usize)
        ensures
            r == self.pos(),
    {
        self.position
    }

    /// Set read position (clamped to the buffer length)
    pub fn set_position(&mut self, pos: usize)
        ensures
            final(self).bytes() == old(self).bytes(),
            final(self).pos() == if pos <= old(self).bytes().len() {
                pos as nat
            } else {
                old(self).bytes().len()
            },
    {
        if pos <= self.data.len() {
            self.position = pos;
        } else {
            self.position = self.data.len();
        }
    }

    /// Get total buffer length
    pub fn len(&self) -> (r: usize)
        ensures
            r == self.bytes().len(),
    {
        self.data.len()
    }

    /// Check if buffer is empty
    pub fn is_empty(&self) -> (r: bool)
        ensures
            r == (self.bytes().len() == 0),
    {
        self.data.len() == 0
    }

    /// Clear the buffer
    pub fn clear(&mut self)
        ensures
            final(self).bytes() == Seq::<u8>::empty(),
            final(self).pos() == 0,
    {
        *self = Buffer::new();
    }
}

impl Clone for Buffer {
    /// A buffer with the same bytes and cursor.
    fn clone(&self) -> (b: Self)
        ensures
            b.bytes() == self.bytes(),
            b.pos() == self.pos(),
    {
        proof {
            use_type_invariant(self);
        }
        let data = vstd::slice::slice_to_vec(self.data.as_slice());
        Buffer { data, position: self.position }
    }
}

impl Default for Buffer {
    fn default() -> (b: Self)
        ensures
            b.bytes() == Seq::<u8>::empty(),
            b.pos() == 0,
            b.wf(),
    {
        Buffer::new()
    }
}

} // verus!
