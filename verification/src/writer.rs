//! Writer of event files, for demo logs and tests.
use vstd::prelude::*;

use crate::tfevents::DT_FLOAT;
use crate::wire;
use crate::wire::{put_le, put_varint};

verus! {

// ---------------------------------------------------------------------------
// Checksums
// ---------------------------------------------------------------------------
/// The CRC-32C polynomial, bits reversed.
pub const CRC_POLY: u32 = 0x82F6_3B78;

/// One bit through the shift register.
pub open spec fn crc_bit(c: u32) -> u32 {
    if c & 1 != 0 {
        (c >> 1) ^ CRC_POLY
    } else {
        c >> 1
    }
}

/// `n` bits through the shift register.
pub open spec fn crc_bits(c: u32, n: nat) -> u32
    decreases n,
{
    if n == 0 {
        c
    } else {
        crc_bits(crc_bit(c), (n - 1) as nat)
    }
}

/// The shift register after all of `data`, byte by byte.
pub open spec fn crc_from(c: u32, data: Seq<u8>) -> u32
    decreases data.len(),
{
    if data.len() == 0 {
        c
    } else {
        crc_bits(crc_from(c, data.drop_last()) ^ (data.last() as u32), 8)
    }
}

/// CRC-32C: the register starts and ends inverted.
pub open spec fn crc32c_of(data: Seq<u8>) -> u32 {
    crc_from(0xFFFF_FFFF, data) ^ 0xFFFF_FFFF
}

/// The checksum as it stands in a record: rotated right by fifteen bits and
/// offset by a constant.
pub open spec fn masked_crc_of(data: Seq<u8>) -> u32 {
    let crc = crc32c_of(data);
    ((((crc >> 15) | (crc << 17)) as int + 0xA282_EAD8) % 0x1_0000_0000) as u32
}

spec fn eight_bits(c: u32) -> u32 {
    crc_bit(crc_bit(crc_bit(crc_bit(crc_bit(crc_bit(crc_bit(crc_bit(c))))))))
}

/// Eight bits at once: only the low byte meets the polynomial, the rest moves
/// down.
proof fn lemma_table_step(crc: u32, b: u8)
    ensures
        crc_bits(crc ^ (b as u32), 8) == crc_bits((crc ^ (b as u32)) & 0xFF, 8) ^ (crc >> 8),
        (crc ^ (b as u32)) & 0xFF < 256,
{
    let x = crc ^ (b as u32);
    assert(eight_bits(x) == eight_bits(x & 0xFF) ^ (x >> 8) && x & 0xFF < 256) by (bit_vector);
    assert((crc ^ (b as u32)) >> 8 == crc >> 8) by (bit_vector);
    reveal_with_fuel(crc_bits, 9);
}

/// What eight bits do to each byte.
fn crc_table() -> (t: Vec<u32>)
    ensures
        t@.len() == 256,
        forall|i: int| 0 <= i < 256 ==> #[trigger] t@[i] == crc_bits(i as u32, 8),
{
    let mut t: Vec<u32> = Vec::with_capacity(256);
    let mut i: u32 = 0;
    while i < 256
        invariant
            i <= 256,
            t@.len() == i,
            forall|j: int| 0 <= j < i ==> #[trigger] t@[j] == crc_bits(j as u32, 8),
        decreases 256 - i,
    {
        let mut c: u32 = i;
        let mut k: u32 = 0;
        while k < 8
            invariant
                k <= 8,
                crc_bits(c, (8 - k) as nat) == crc_bits(i, 8),
            decreases 8 - k,
        {
            c = if c & 1 != 0 {
                (c >> 1) ^ CRC_POLY
            } else {
                c >> 1
            };
            k = k + 1;
        }
        t.push(c);
        i = i + 1;
    }
    t
}

/// CRC-32C of `data`.
pub fn crc32c(data: &[u8]) -> (r: u32)
    ensures
        r == crc32c_of(data@),
{
    let table: Vec<u32> = crc_table();
    let mut crc: u32 = 0xFFFF_FFFF;
    let mut i: usize = 0;
    assert(data@.subrange(0, 0) =~= Seq::<u8>::empty());
    while i < data.len()
        invariant
            i <= data.len(),
            table@.len() == 256,
            forall|j: int| 0 <= j < 256 ==> #[trigger] table@[j] == crc_bits(j as u32, 8),
            crc == crc_from(0xFFFF_FFFF, data@.subrange(0, i as int)),
        decreases data.len() - i,
    {
        let b: u8 = data[i];
        proof {
            lemma_table_step(crc, b);
            assert(data@.subrange(0, i + 1).drop_last() =~= data@.subrange(0, i as int));
        }
        crc = table[((crc ^ (b as u32)) & 0xFF) as usize] ^ (crc >> 8);
        i = i + 1;
    }
    assert(data@.subrange(0, i as int) =~= data@);
    crc ^ 0xFFFF_FFFF
}

/// The checksum of `data` as it stands in a record.
pub fn masked_crc(data: &[u8]) -> (r: u32)
    ensures
        r == masked_crc_of(data@),
{
    let crc: u32 = crc32c(data);
    let rotated: u32 = (crc >> 15) | (crc << 17);
    rotated.wrapping_add(0xA282_EAD8)
}

// ---------------------------------------------------------------------------
// Messages and records
// ---------------------------------------------------------------------------
/// A tensor of one single-precision number, as raw content.
pub open spec fn tensor_bytes(value: u32) -> Seq<u8> {
    wire::varint_bytes(0x08) + wire::varint_bytes(DT_FLOAT as nat) + (wire::varint_bytes(0x22)
        + wire::varint_bytes(4) + wire::le_bytes(value as nat, 4))
}

/// The scalar field of a summary value.
pub open spec fn scalar_field(value: u32, tensor: bool) -> Seq<u8> {
    if tensor {
        wire::varint_bytes(0x42) + wire::varint_bytes(tensor_bytes(value).len())
            + tensor_bytes(value)
    } else {
        wire::varint_bytes(0x15) + wire::le_bytes(value as nat, 4)
    }
}

/// A summary value: a tag and a scalar.
pub open spec fn value_bytes(tag: Seq<u8>, value: u32, tensor: bool) -> Seq<u8> {
    wire::varint_bytes(0x0A) + wire::varint_bytes(tag.len()) + tag + scalar_field(value, tensor)
}

/// A summary of one value.
pub open spec fn summary_bytes(tag: Seq<u8>, value: u32, tensor: bool) -> Seq<u8> {
    let val = value_bytes(tag, value, tensor);
    wire::varint_bytes(0x0A) + wire::varint_bytes(val.len()) + val
}

/// An event: a wall time, a step, and a summary of one value.
pub open spec fn event_bytes(tag: Seq<u8>, step: i64, wall: u64, value: u32, tensor: bool) -> Seq<
    u8,
> {
    let sum = summary_bytes(tag, value, tensor);
    wire::varint_bytes(0x09) + wire::le_bytes(wall as nat, 8) + (wire::varint_bytes(0x10)
        + wire::varint_bytes((step as u64) as nat)) + (wire::varint_bytes(0x2A)
        + wire::varint_bytes(sum.len()) + sum)
}

/// A record: the length of the payload and its checksum, the payload and its
/// checksum.
pub open spec fn record_bytes(p: Seq<u8>) -> Seq<u8> {
    let header = wire::le_bytes(p.len(), 8);
    header + wire::le_bytes(masked_crc_of(header) as nat, 4) + p + wire::le_bytes(
        masked_crc_of(p) as nat,
        4,
    )
}

/// Append the key of a field.
pub fn put_field(out: &mut Vec<u8>, num: u64, wire_type: u64)
    ensures
        final(out)@ == old(out)@ + wire::varint_bytes(((num << 3) | wire_type) as nat),
{
    put_varint(out, (num << 3) | wire_type);
}

/// Append all of `bytes`.
fn put_bytes(out: &mut Vec<u8>, bytes: &[u8])
    ensures
        final(out)@ == old(out)@ + bytes@,
{
    out.extend_from_slice(bytes);
    assert(out@ =~= old(out)@ + bytes@);
}

/// Encode one event that holds a single scalar. The wall time and the value
/// are given by their bits.
pub fn encode_scalar_event(tag: &str, step: i64, wall_time: u64, value: u32, tensor: bool) -> (r:
    Vec<u8>)
    ensures
        r@ == event_bytes(vstd::utf8::encode_utf8(tag@), step, wall_time, value, tensor),
{
    proof {
        assert((1u64 << 3) | 2 == 0x0A && (1u64 << 3) | 0 == 0x08 && (4u64 << 3) | 2 == 0x22 && (
        8u64 << 3) | 2 == 0x42 && (2u64 << 3) | 5 == 0x15 && (1u64 << 3) | 1 == 0x09 && (2u64
            << 3) | 0 == 0x10 && (5u64 << 3) | 2 == 0x2A) by (bit_vector);
    }
    let name: &[u8] = tag.as_bytes();
    let mut val: Vec<u8> = Vec::new();
    put_field(&mut val, 1, 2);
    put_varint(&mut val, name.len() as u64);
    put_bytes(&mut val, name);
    if tensor {
        let mut t: Vec<u8> = Vec::new();
        put_field(&mut t, 1, 0);
        put_varint(&mut t, DT_FLOAT);
        put_field(&mut t, 4, 2);
        put_varint(&mut t, 4);
        put_le(&mut t, value as u64, 4);
        assert(t@ =~= tensor_bytes(value));
        put_field(&mut val, 8, 2);
        put_varint(&mut val, t.len() as u64);
        put_bytes(&mut val, t.as_slice());
    } else {
        put_field(&mut val, 2, 5);
        put_le(&mut val, value as u64, 4);
    }
    assert(val@ =~= value_bytes(name@, value, tensor));
    let mut summary: Vec<u8> = Vec::new();
    put_field(&mut summary, 1, 2);
    put_varint(&mut summary, val.len() as u64);
    put_bytes(&mut summary, val.as_slice());
    assert(summary@ =~= summary_bytes(name@, value, tensor));
    let mut ev: Vec<u8> = Vec::new();
    put_field(&mut ev, 1, 1);
    put_le(&mut ev, wall_time, 8);
    put_field(&mut ev, 2, 0);
    put_varint(&mut ev, step as u64);
    put_field(&mut ev, 5, 2);
    put_varint(&mut ev, summary.len() as u64);
    put_bytes(&mut ev, summary.as_slice());
    assert(ev@ =~= event_bytes(name@, step, wall_time, value, tensor));
    ev
}

/// Wrap an encoded event in the framing of a record, with valid checksums.
pub fn frame_record(payload: &[u8]) -> (r: Vec<u8>)
    ensures
        r@ == record_bytes(payload@),
{
    let mut out: Vec<u8> = Vec::new();
    put_le(&mut out, payload.len() as u64, 8);
    assert(out@ =~= wire::le_bytes(payload@.len(), 8));
    let header_crc: u32 = masked_crc(out.as_slice());
    put_le(&mut out, header_crc as u64, 4);
    put_bytes(&mut out, payload);
    put_le(&mut out, masked_crc(payload) as u64, 4);
    assert(out@ =~= record_bytes(payload@));
    out
}

} // verus!
