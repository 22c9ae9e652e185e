//! What writing and reading event files promise each other.
use vstd::prelude::*;

use crate::tfevents;
use crate::tfevents::{Scalar, MAX_RECORD};
use crate::wire;
use crate::wire::TWO_POW_64;
use crate::writer;

verus! {

// ---------------------------------------------------------------------------
// Fields that were written
// ---------------------------------------------------------------------------
/// A written varint field is read as it was written.
proof fn lemma_varint_field(before: Seq<u8>, key: u64, v: u64, behind: Seq<u8>)
    requires
        key % 8 == 0,
    ensures
        ({
            let enc = wire::varint_bytes(key as nat) + wire::varint_bytes(v as nat);
            let s = before + enc + behind;
            wire::field_at(s, before.len() as int) == Some(
                wire::Field {
                    key,
                    num: v,
                    start: (before.len() + wire::varint_bytes(key as nat).len()) as int,
                    end: (before.len() + enc.len()) as int,
                },
            )
        }),
{
    let k = wire::varint_bytes(key as nat);
    let n = wire::varint_bytes(v as nat);
    let s = before + (k + n) + behind;
    assert(s =~= before + k + (n + behind));
    assert(s =~= (before + k) + n + behind);
    wire::lemma_varint_roundtrip(before, key, n + behind);
    wire::lemma_varint_roundtrip(before + k, v, behind);
}

/// A written field of a length and bytes is read as it was written.
proof fn lemma_bytes_field(before: Seq<u8>, key: u64, p: Seq<u8>, behind: Seq<u8>)
    requires
        key % 8 == 2,
        p.len() < TWO_POW_64,
    ensures
        ({
            let enc = wire::varint_bytes(key as nat) + wire::varint_bytes(p.len()) + p;
            let s = before + enc + behind;
            let start = (before.len() + wire::varint_bytes(key as nat).len() + wire::varint_bytes(
                p.len(),
            ).len()) as int;
            let f = wire::Field {
                key,
                num: p.len() as u64,
                start,
                end: (before.len() + enc.len()) as int,
            };
            &&& wire::field_at(s, before.len() as int) == Some(f)
            &&& wire::payload(s, f) == p
        }),
{
    let k = wire::varint_bytes(key as nat);
    let n = wire::varint_bytes(p.len());
    let enc = k + n + p;
    let s = before + enc + behind;
    assert(s =~= before + k + (n + p + behind));
    assert(s =~= (before + k) + n + (p + behind));
    wire::lemma_varint_roundtrip(before, key, n + p + behind);
    wire::lemma_varint_roundtrip(before + k, p.len() as u64, p + behind);
    let start = (before.len() + k.len() + n.len()) as int;
    assert(s.subrange(start, start + p.len()) =~= p);
}

/// A written field of four or eight bytes is read as it was written.
proof fn lemma_fixed_field(before: Seq<u8>, key: u64, p: Seq<u8>, behind: Seq<u8>)
    requires
        key % 8 == 1 && p.len() == 8 || key % 8 == 5 && p.len() == 4,
    ensures
        ({
            let enc = wire::varint_bytes(key as nat) + p;
            let s = before + enc + behind;
            let f = wire::Field {
                key,
                num: 0,
                start: (before.len() + wire::varint_bytes(key as nat).len()) as int,
                end: (before.len() + enc.len()) as int,
            };
            &&& wire::field_at(s, before.len() as int) == Some(f)
            &&& s.subrange(f.start, f.end) == p
        }),
{
    let k = wire::varint_bytes(key as nat);
    let s = before + (k + p) + behind;
    assert(s =~= before + k + (p + behind));
    wire::lemma_varint_roundtrip(before, key, p + behind);
    let start = (before.len() + k.len()) as int;
    assert(s.subrange(start, start + p.len()) =~= p);
}

/// A field that ends where the bytes end is the last one.
proof fn lemma_last_field(s: Seq<u8>, pos: int, f: wire::Field)
    requires
        wire::field_at(s, pos) == Some(f),
        f.end == s.len(),
    ensures
        wire::fields_from(s, pos) == seq![f],
        wire::well_formed(s, pos),
{
    wire::lemma_field_bounds(s, pos);
    wire::lemma_step(s, pos);
    assert(wire::field_at(s, f.end) is None) by {
        wire::lemma_field_bounds(s, f.end);
    }
    assert(wire::fields_from(s, f.end) =~= Seq::<wire::Field>::empty());
    assert(seq![f] + Seq::<wire::Field>::empty() =~= seq![f]);
}

/// A field in front of others.
proof fn lemma_more_fields(s: Seq<u8>, pos: int, f: wire::Field, rest: Seq<wire::Field>)
    requires
        wire::field_at(s, pos) == Some(f),
        wire::fields_from(s, f.end) == rest,
        wire::well_formed(s, f.end),
    ensures
        wire::fields_from(s, pos) == seq![f] + rest,
        wire::well_formed(s, pos),
{
    wire::lemma_field_bounds(s, pos);
    wire::lemma_step(s, pos);
}

proof fn lemma_le32(p: Seq<u8>, v: u32)
    requires
        p == wire::le_bytes(v as nat, 4),
    ensures
        p.len() == 4,
        wire::le_nat(p) as u32 == v,
{
    wire::lemma_pow256_values();
    wire::lemma_le_roundtrip(v as nat, 4);
}

proof fn lemma_le64(p: Seq<u8>, v: u64)
    requires
        p == wire::le_bytes(v as nat, 8),
    ensures
        p.len() == 8,
        wire::le_nat(p) as u64 == v,
{
    wire::lemma_pow256_values();
    wire::lemma_le_roundtrip(v as nat, 8);
}

proof fn lemma_written_tensor(value: u32)
    ensures
        tensor_len(value) <= 40,
        tfevents::tensor_value(writer::tensor_bytes(value)) == Some(Some(Scalar::Single(value))),
{
    let s = writer::tensor_bytes(value);
    let a = wire::varint_bytes(0x08) + wire::varint_bytes(1);
    let p = wire::le_bytes(value as nat, 4);
    lemma_le32(p, value);
    let b = wire::varint_bytes(0x22) + wire::varint_bytes(4) + p;
    let none = Seq::<u8>::empty();
    assert(s =~= none + a + b);
    assert(s =~= a + b + none);
    lemma_varint_field(none, 0x08, 1, b);
    lemma_bytes_field(a, 0x22, p, none);
    let f1 = wire::field_at(s, 0)->0;
    let f2 = wire::field_at(s, f1.end)->0;
    lemma_last_field(s, f1.end, f2);
    lemma_more_fields(s, 0, f1, seq![f2]);
    let fs = seq![f1] + seq![f2];
    assert(fs.drop_last() =~= seq![f1]);
    assert(seq![f1].drop_last() =~= Seq::<wire::Field>::empty());
    reveal_with_fuel(tfevents::first_carrier, 3);
    reveal_with_fuel(wire::last_with_key, 3);
    assert(wire::payload(s, f2) == p);
    assert(p.subrange(0, 4) =~= p);
    wire::lemma_varint_bytes_len(0x08);
    wire::lemma_varint_bytes_len(1);
    wire::lemma_varint_bytes_len(0x22);
    wire::lemma_varint_bytes_len(4);
}

spec fn tensor_len(value: u32) -> nat {
    writer::tensor_bytes(value).len()
}

proof fn lemma_written_value(tag: Seq<u8>, value: u32, tensor: bool)
    requires
        tag.len() < TWO_POW_64,
    ensures
        tfevents::summary_value(writer::value_bytes(tag, value, tensor)) == Some(
            Some((tag, Scalar::Single(value))),
        ),
{
    let s = writer::value_bytes(tag, value, tensor);
    let a = wire::varint_bytes(0x0A) + wire::varint_bytes(tag.len()) + tag;
    let b = writer::scalar_field(value, tensor);
    let none = Seq::<u8>::empty();
    assert(s =~= none + a + b);
    assert(s =~= a + b + none);
    lemma_bytes_field(none, 0x0A, tag, b);
    let f1 = wire::field_at(s, 0)->0;
    if tensor {
        lemma_written_tensor(value);
        lemma_bytes_field(a, 0x42, writer::tensor_bytes(value), none);
    } else {
        let p = wire::le_bytes(value as nat, 4);
        lemma_le32(p, value);
        lemma_fixed_field(a, 0x15, p, none);
    }
    let f2 = wire::field_at(s, f1.end)->0;
    lemma_last_field(s, f1.end, f2);
    lemma_more_fields(s, 0, f1, seq![f2]);
    let fs = seq![f1] + seq![f2];
    assert(fs.drop_last() =~= seq![f1]);
    assert(seq![f1].drop_last() =~= Seq::<wire::Field>::empty());
    reveal_with_fuel(tfevents::value_scan, 3);
    reveal_with_fuel(wire::last_with_key, 3);
}

/// A written event is read as the one point that it was written from.
pub proof fn law_event_roundtrip(tag: Seq<u8>, step: i64, wall: u64, value: u32, tensor: bool)
    requires
        writer::event_bytes(tag, step, wall, value, tensor).len() < TWO_POW_64,
    ensures
        tfevents::event_points(writer::event_bytes(tag, step, wall, value, tensor)) == (
            seq![tfevents::PointView { tag, step, wall, value: Scalar::Single(value) }],
            true,
        ),
{
    let s = writer::event_bytes(tag, step, wall, value, tensor);
    let val = writer::value_bytes(tag, value, tensor);
    let sum = writer::summary_bytes(tag, value, tensor);
    let none = Seq::<u8>::empty();
    let w = wire::le_bytes(wall as nat, 8);
    lemma_le64(w, wall);
    let a = wire::varint_bytes(0x09) + w;
    let b = wire::varint_bytes(0x10) + wire::varint_bytes((step as u64) as nat);
    let c = wire::varint_bytes(0x2A) + wire::varint_bytes(sum.len()) + sum;
    assert(s == a + b + c);
    assert(s =~= none + a + (b + c));
    assert(s =~= a + b + c);
    assert(s =~= (a + b) + c + none);
    lemma_fixed_field(none, 0x09, w, b + c);
    lemma_varint_field(a, 0x10, step as u64, c);
    lemma_bytes_field(a + b, 0x2A, sum, none);
    let f1 = wire::field_at(s, 0)->0;
    let f2 = wire::field_at(s, f1.end)->0;
    let f3 = wire::field_at(s, f2.end)->0;
    lemma_last_field(s, f2.end, f3);
    lemma_more_fields(s, f1.end, f2, seq![f3]);
    lemma_more_fields(s, 0, f1, seq![f2] + seq![f3]);
    let fs = seq![f1] + (seq![f2] + seq![f3]);
    assert(fs.drop_last() =~= seq![f1] + seq![f2]);
    assert((seq![f1] + seq![f2]).drop_last() =~= seq![f1]);
    reveal_with_fuel(wire::last_with_key, 4);
    assert((step as u64) as i64 == step) by (bit_vector);
    assert(tfevents::step_of(fs) == step);
    assert(tfevents::wall_of(s, fs) == wall);
    assert(wire::payload(s, f3) == sum);
    // the summary
    assert(sum =~= none + (wire::varint_bytes(0x0A) + wire::varint_bytes(val.len()) + val) + none);
    lemma_bytes_field(none, 0x0A, val, none);
    lemma_written_value(tag, value, tensor);
    reveal_with_fuel(tfevents::summary_points, 2);
    let pt = tfevents::PointView { tag, step, wall, value: Scalar::Single(value) };
    assert(seq![pt] + Seq::<tfevents::PointView>::empty() =~= seq![pt]);
}

// ---------------------------------------------------------------------------
// Records
// ---------------------------------------------------------------------------
/// Whatever stands before a framed record and behind it, the record is found
/// whole, with the payload that was framed.
pub proof fn law_record_roundtrip(before: Seq<u8>, p: Seq<u8>, behind: Seq<u8>)
    requires
        p.len() <= MAX_RECORD,
    ensures
        ({
            let s = before + writer::record_bytes(p) + behind;
            let pos = before.len() as int;
            &&& tfevents::record_complete(s, pos)
            &&& tfevents::record_body(s, pos) == p
            &&& tfevents::record_len(s, pos) == p.len()
            &&& writer::record_bytes(p).len() == p.len() + 16
        }),
{
    let header = wire::le_bytes(p.len(), 8);
    let crc = wire::le_bytes(writer::masked_crc_of(header) as nat, 4);
    let tail = wire::le_bytes(writer::masked_crc_of(p) as nat, 4);
    lemma_le64(header, p.len() as u64);
    lemma_le32(crc, writer::masked_crc_of(header));
    lemma_le32(tail, writer::masked_crc_of(p));
    let s = before + writer::record_bytes(p) + behind;
    let pos = before.len() as int;
    assert(s.subrange(pos, pos + 8) =~= header);
    assert(s.subrange(pos + 12, pos + 12 + p.len()) =~= p);
}

/// A file of framed events, read from the start, gives the points of the
/// first event and then those of the rest.
pub proof fn law_read_back(p: Seq<u8>, rest: Seq<u8>)
    requires
        p.len() <= MAX_RECORD,
        tfevents::event_points(p).1,
    ensures
        ({
            let whole = tfevents::chunk_from(writer::record_bytes(p) + rest, 0);
            let after = tfevents::chunk_from(rest, 0);
            &&& whole.points == tfevents::event_points(p).0 + after.points
            &&& whole.consumed == writer::record_bytes(p).len() + after.consumed
            &&& whole.corrupt == after.corrupt
        }),
{
    let r = writer::record_bytes(p);
    law_record_roundtrip(seq![], p, rest);
    assert(seq![] + r + rest =~= r + rest);
    lemma_shift(r + rest, r.len() as int, 0);
    assert((r + rest).skip(r.len() as int) =~= rest);
}

/// A scalar that was written is read back: its tag, step, wall time and value
/// come first, all of its record is consumed, and what follows is read as if
/// it stood alone.
pub proof fn law_written_scalar_is_read(
    tag: Seq<u8>,
    step: i64,
    wall: u64,
    value: u32,
    tensor: bool,
    rest: Seq<u8>,
)
    requires
        writer::event_bytes(tag, step, wall, value, tensor).len() <= MAX_RECORD,
    ensures
        ({
            let r = writer::record_bytes(writer::event_bytes(tag, step, wall, value, tensor));
            let whole = tfevents::chunk_from(r + rest, 0);
            let after = tfevents::chunk_from(rest, 0);
            &&& whole.points == seq![
                tfevents::PointView { tag, step, wall, value: Scalar::Single(value) },
            ] + after.points
            &&& whole.consumed == r.len() + after.consumed
            &&& whole.corrupt == after.corrupt
        }),
{
    law_event_roundtrip(tag, step, wall, value, tensor);
    law_read_back(writer::event_bytes(tag, step, wall, value, tensor), rest);
}

/// Reading from `c + pos` on is reading what stands behind `c` from `pos` on.
proof fn lemma_shift(s: Seq<u8>, c: int, pos: int)
    requires
        0 <= c <= s.len(),
        0 <= pos,
    ensures
        ({
            let here = tfevents::chunk_from(s, c + pos);
            let there = tfevents::chunk_from(s.skip(c), pos);
            &&& here.points == there.points
            &&& here.consumed == c + there.consumed
            &&& here.corrupt == there.corrupt
        }),
    decreases s.len() - pos,
{
    let t = s.skip(c);
    if pos + 12 <= t.len() {
        assert(t.subrange(pos, pos + 8) =~= s.subrange(c + pos, c + pos + 8));
        let n = tfevents::record_len(t, pos);
        if tfevents::record_complete(t, pos) {
            assert(tfevents::record_body(t, pos) =~= tfevents::record_body(s, c + pos));
            lemma_shift(s, c, pos + 12 + n + 4);
        }
    }
}

/// Where reading stops never lies before where it starts nor behind the end.
pub proof fn law_consumed_in_bounds(s: Seq<u8>, pos: int)
    requires
        0 <= pos <= s.len(),
    ensures
        pos <= tfevents::chunk_from(s, pos).consumed <= s.len(),
    decreases s.len() - pos,
{
    if tfevents::record_complete(s, pos) {
        law_consumed_in_bounds(s, pos + 12 + tfevents::record_len(s, pos) + 4);
    }
}

proof fn lemma_resume_from(a: Seq<u8>, b: Seq<u8>, pos: int)
    requires
        0 <= pos <= a.len(),
        !tfevents::chunk_from(a, pos).corrupt,
    ensures
        ({
            let first = tfevents::chunk_from(a, pos);
            let second = tfevents::chunk_from(a + b, first.consumed);
            let whole = tfevents::chunk_from(a + b, pos);
            &&& whole.points == first.points + second.points
            &&& whole.consumed == second.consumed
            &&& whole.corrupt == second.corrupt
        }),
    decreases a.len() - pos,
{
    let first = tfevents::chunk_from(a, pos);
    let second = tfevents::chunk_from(a + b, first.consumed);
    if tfevents::record_complete(a, pos) {
        assert((a + b).subrange(pos, pos + 8) =~= a.subrange(pos, pos + 8));
        let next = pos + 12 + tfevents::record_len(a, pos) + 4;
        assert(tfevents::record_body(a + b, pos) =~= tfevents::record_body(a, pos));
        lemma_resume_from(a, b, next);
        let ev = tfevents::event_points(tfevents::record_body(a, pos)).0;
        let rest = tfevents::chunk_from(a, next).points;
        assert(ev + (rest + second.points) =~= (ev + rest) + second.points);
    } else {
        assert(Seq::<tfevents::PointView>::empty() + second.points =~= second.points);
    }
}

/// Following a file that grows: what has been read stands, and reading again
/// from where it stopped gives exactly what reading all of it would give. A
/// record that was only partly written is read once it is whole.
pub proof fn law_resume(a: Seq<u8>, b: Seq<u8>)
    requires
        !tfevents::chunk_from(a, 0).corrupt,
    ensures
        ({
            let first = tfevents::chunk_from(a, 0);
            let again = tfevents::chunk_from((a + b).skip(first.consumed), 0);
            let whole = tfevents::chunk_from(a + b, 0);
            &&& whole.points == first.points + again.points
            &&& whole.consumed == first.consumed + again.consumed
            &&& whole.corrupt == again.corrupt
        }),
{
    let first = tfevents::chunk_from(a, 0);
    law_consumed_in_bounds(a, 0);
    lemma_resume_from(a, b, 0);
    lemma_shift(a + b, first.consumed, 0);
}

proof fn lemma_corrupt_from(a: Seq<u8>, b: Seq<u8>, pos: int)
    requires
        0 <= pos <= a.len(),
        tfevents::chunk_from(a, pos).corrupt,
    ensures
        tfevents::chunk_from(a + b, pos) == tfevents::chunk_from(a, pos),
    decreases a.len() - pos,
{
    assert((a + b).subrange(pos, pos + 8) =~= a.subrange(pos, pos + 8));
    if tfevents::record_complete(a, pos) {
        assert(tfevents::record_body(a + b, pos) =~= tfevents::record_body(a, pos));
        if tfevents::event_points(tfevents::record_body(a, pos)).1 {
            lemma_corrupt_from(a, b, pos + 12 + tfevents::record_len(a, pos) + 4);
        }
    }
}

/// Reading stops for good at the first record that cannot be read: whatever
/// is appended behind it changes nothing.
pub proof fn law_corrupt_is_final(a: Seq<u8>, b: Seq<u8>)
    requires
        tfevents::chunk_from(a, 0).corrupt,
    ensures
        tfevents::chunk_from(a + b, 0) == tfevents::chunk_from(a, 0),
{
    lemma_corrupt_from(a, b, 0);
}

/// A record that is cut short anywhere is left alone: nothing of it is read,
/// and reading stops in front of it without calling the file corrupt.
pub proof fn law_partial_record_waits(p: Seq<u8>, cut: int)
    requires
        p.len() <= MAX_RECORD,
        0 <= cut < p.len() + 16,
    ensures
        tfevents::chunk_from(writer::record_bytes(p).take(cut), 0) == (tfevents::Chunk {
            points: seq![],
            consumed: 0,
            corrupt: false,
        }),
{
    let r = writer::record_bytes(p);
    law_record_roundtrip(seq![], p, seq![]);
    assert(seq![] + r + seq![] =~= r);
    if cut >= 12 {
        assert(r.take(cut).subrange(0, 8) =~= r.subrange(0, 8));
    }
}


/// The byte at `i` belongs to a checksum of the records from `pos` on.
pub open spec fn in_checksum(s: Seq<u8>, pos: int, i: int) -> bool
    decreases s.len() - pos,
{
    let behind = pos + 12 + tfevents::record_len(s, pos);
    ||| pos + 8 <= i < pos + 12
    ||| tfevents::record_complete(s, pos) && (behind <= i < behind + 4 || in_checksum(
        s,
        behind + 4,
        i,
    ))
}

proof fn lemma_checksum_behind(s: Seq<u8>, pos: int, i: int)
    requires
        in_checksum(s, pos, i),
    ensures
        i >= pos + 8,
    decreases s.len() - pos,
{
    let next = pos + 12 + tfevents::record_len(s, pos) + 4;
    if tfevents::record_complete(s, pos) && in_checksum(s, next, i) {
        lemma_checksum_behind(s, next, i);
    }
}

/// Checksums are not verified: bytes that differ in them alone are read alike.
pub proof fn law_checksums_do_not_matter(s: Seq<u8>, t: Seq<u8>, pos: int)
    requires
        0 <= pos,
        s.len() == t.len(),
        forall|i: int|
            pos <= i < s.len() && !in_checksum(s, pos, i) ==> #[trigger] s[i] == t[i],
    ensures
        tfevents::chunk_from(s, pos) == tfevents::chunk_from(t, pos),
    decreases s.len() - pos,
{
    if pos + 12 <= s.len() {
        let n = tfevents::record_len(s, pos);
        let next = pos + 12 + n + 4;
        assert forall|i: int|
            (pos <= i < pos + 8 || tfevents::record_complete(s, pos) && pos + 12 <= i < pos + 12
                + n) implies #[trigger] s[i] == t[i] by {
            if tfevents::record_complete(s, pos) && in_checksum(s, next, i) {
                lemma_checksum_behind(s, next, i);
            }
        }
        assert(s.subrange(pos, pos + 8) =~= t.subrange(pos, pos + 8));
        if tfevents::record_complete(s, pos) {
            assert(tfevents::record_body(s, pos) =~= tfevents::record_body(t, pos));
            law_checksums_do_not_matter(s, t, next);
        }
    }
}

} // verus!
