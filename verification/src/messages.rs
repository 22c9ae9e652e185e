//! What the messages in an event file stand for, field by field.
use vstd::prelude::*;

use crate::tfevents;
use crate::tfevents::Scalar;
use crate::wire;
use crate::wire::{Field, TWO_POW_64};

verus! {

// ---------------------------------------------------------------------------
// Messages one behind the other
// ---------------------------------------------------------------------------
/// The field, so many bytes further on.
spec fn moved(f: Field, n: int) -> Field {
    Field { key: f.key, num: f.num, start: f.start + n, end: f.end + n }
}

spec fn moved_all(fs: Seq<Field>, n: int) -> Seq<Field> {
    Seq::new(fs.len(), |i: int| moved(fs[i], n))
}

proof fn lemma_continued_moves(a: Seq<u8>, b: Seq<u8>, pos: int)
    requires
        0 <= pos,
    ensures
        wire::continued(a + b, a.len() + pos) == wire::continued(b, pos),
    decreases b.len() - pos,
{
    if pos < b.len() && b[pos] >= 128 {
        lemma_continued_moves(a, b, pos + 1);
    }
}

proof fn lemma_varint_moves(a: Seq<u8>, b: Seq<u8>, pos: int)
    requires
        0 <= pos,
    ensures
        wire::varint_at(a + b, a.len() + pos) == match wire::varint_at(b, pos) {
            Some((v, end)) => Some((v, a.len() + end)),
            None => None,
        },
{
    reveal(wire::varint_at);
    lemma_continued_moves(a, b, pos);
    let n = wire::continued(b, pos) + 1;
    if pos + n <= b.len() {
        assert((a + b).subrange(a.len() + pos, a.len() + pos + n) =~= b.subrange(pos, pos + n));
    }
}

proof fn lemma_continued_stays(a: Seq<u8>, b: Seq<u8>, pos: int)
    requires
        0 <= pos,
        pos + wire::continued(a, pos) < a.len(),
    ensures
        wire::continued(a + b, pos) == wire::continued(a, pos),
    decreases a.len() - pos,
{
    if a[pos] >= 128 {
        lemma_continued_stays(a, b, pos + 1);
    }
}

proof fn lemma_varint_stays(a: Seq<u8>, b: Seq<u8>, pos: int)
    requires
        wire::varint_at(a, pos) is Some,
    ensures
        wire::varint_at(a + b, pos) == wire::varint_at(a, pos),
{
    reveal(wire::varint_at);
    let n = wire::continued(a, pos) + 1;
    lemma_continued_stays(a, b, pos);
    assert((a + b).subrange(pos, pos + n) =~= a.subrange(pos, pos + n));
}

proof fn lemma_varint_in(s: Seq<u8>, pos: int)
    ensures
        wire::varint_at(s, pos) matches Some((v, end)) ==> 0 <= pos < end <= s.len(),
{
    reveal(wire::varint_at);
}

proof fn lemma_field_moves(a: Seq<u8>, b: Seq<u8>, pos: int)
    requires
        0 <= pos,
    ensures
        wire::field_at(a + b, a.len() + pos) == match wire::field_at(b, pos) {
            Some(f) => Some(moved(f, a.len() as int)),
            None => None,
        },
{
    lemma_varint_moves(a, b, pos);
    lemma_varint_in(b, pos);
    if wire::varint_at(b, pos) is Some {
        let p = (wire::varint_at(b, pos)->0).1;
        lemma_varint_moves(a, b, p);
    }
}

proof fn lemma_field_stays(a: Seq<u8>, b: Seq<u8>, pos: int)
    requires
        wire::field_at(a, pos) is Some,
    ensures
        wire::field_at(a + b, pos) == wire::field_at(a, pos),
{
    lemma_varint_stays(a, b, pos);
    lemma_varint_in(a, pos);
    let k = (wire::varint_at(a, pos)->0).0;
    let p = (wire::varint_at(a, pos)->0).1;
    if k % 8 == 0 || k % 8 == 2 {
        lemma_varint_stays(a, b, p);
        lemma_varint_in(a, p);
    }
}

proof fn lemma_fields_move(a: Seq<u8>, b: Seq<u8>, pos: int)
    requires
        0 <= pos,
    ensures
        wire::fields_from(a + b, a.len() + pos) == moved_all(
            wire::fields_from(b, pos),
            a.len() as int,
        ),
        wire::well_formed(a + b, a.len() + pos) == wire::well_formed(b, pos),
    decreases b.len() - pos,
{
    let n = a.len() as int;
    lemma_field_moves(a, b, pos);
    wire::lemma_field_bounds(b, pos);
    match wire::field_at(b, pos) {
        Some(f) => {
            lemma_fields_move(a, b, f.end);
            assert(seq![moved(f, n)] + moved_all(wire::fields_from(b, f.end), n) =~= moved_all(
                seq![f] + wire::fields_from(b, f.end),
                n,
            ));
        },
        None => {
            assert(moved_all(wire::fields_from(b, pos), n) =~= seq![]);
        },
    }
}

proof fn lemma_fields_join(a: Seq<u8>, b: Seq<u8>, pos: int)
    requires
        0 <= pos <= a.len(),
        wire::well_formed(a, pos),
    ensures
        wire::fields_from(a + b, pos) == wire::fields_from(a, pos) + moved_all(
            wire::fields_from(b, 0),
            a.len() as int,
        ),
        wire::well_formed(a + b, pos) == wire::well_formed(b, 0),
    decreases a.len() - pos,
{
    let more = moved_all(wire::fields_from(b, 0), a.len() as int);
    wire::lemma_field_bounds(a, pos);
    if pos == a.len() {
        lemma_fields_move(a, b, 0);
        assert(wire::fields_from(a, pos) =~= seq![]);
        assert(wire::fields_from(a, pos) + more =~= more);
    } else {
        lemma_field_stays(a, b, pos);
        let f = wire::field_at(a, pos)->0;
        lemma_fields_join(a, b, f.end);
        assert(seq![f] + (wire::fields_from(a, f.end) + more) =~= (seq![f] + wire::fields_from(
            a,
            f.end,
        )) + more);
    }
}

/// Where a message has a field, it stands inside.
proof fn lemma_fields_in(s: Seq<u8>, pos: int, i: int)
    requires
        0 <= i < wire::fields_from(s, pos).len(),
    ensures
        ({
            let f = wire::fields_from(s, pos)[i];
            0 <= f.start <= f.end <= s.len()
        }),
    decreases s.len() - pos,
{
    wire::lemma_field_bounds(s, pos);
    let f = wire::field_at(s, pos)->0;
    if i > 0 {
        lemma_fields_in(s, f.end, i - 1);
    }
}

// ---------------------------------------------------------------------------
// Single fields
// ---------------------------------------------------------------------------
/// A message of one field with a number.
pub open spec fn number_field(key: u8, v: u64) -> Seq<u8> {
    seq![key] + wire::varint_bytes(v as nat)
}

/// A message of one field with bytes behind their length.
pub open spec fn bytes_field(key: u8, p: Seq<u8>) -> Seq<u8> {
    seq![key] + wire::varint_bytes(p.len()) + p
}

/// A message of one field with bytes and no length.
pub open spec fn fixed_field(key: u8, p: Seq<u8>) -> Seq<u8> {
    seq![key] + p
}

/// The message consists of this field.
spec fn is_field(s: Seq<u8>, f: Field) -> bool {
    &&& wire::field_at(s, 0) == Some(f)
    &&& wire::fields_from(s, 0) == seq![f]
    &&& wire::well_formed(s, 0)
    &&& f.end == s.len()
    &&& 0 < f.start <= f.end
}

proof fn lemma_key(key: u8, rest: Seq<u8>)
    requires
        key < 128,
    ensures
        wire::varint_at(seq![key] + rest, 0) == Some((key as u64, 1int)),
{
    assert(wire::varint_bytes(key as nat) =~= seq![key]);
    wire::lemma_varint_roundtrip(seq![], key as u64, rest);
    assert(seq![] + seq![key] + rest =~= seq![key] + rest);
}

proof fn lemma_one_field(s: Seq<u8>, f: Field)
    requires
        wire::field_at(s, 0) == Some(f),
        f.end == s.len(),
    ensures
        is_field(s, f),
{
    wire::lemma_field_bounds(s, 0);
    wire::lemma_step(s, 0);
    wire::lemma_field_bounds(s, f.end);
    assert(wire::fields_from(s, f.end) =~= seq![]);
    assert(seq![f] + Seq::<Field>::empty() =~= seq![f]);
}

proof fn lemma_number_field(key: u8, v: u64)
    requires
        key < 128,
        key % 8 == 0,
    ensures
        is_field(
            number_field(key, v),
            Field { key: key as u64, num: v, start: 1, end: number_field(key, v).len() as int },
        ),
{
    let s = number_field(key, v);
    let n = wire::varint_bytes(v as nat);
    lemma_key(key, n);
    wire::lemma_varint_roundtrip(seq![key], v, seq![]);
    assert(seq![key] + n + seq![] =~= s);
    lemma_one_field(s, wire::field_at(s, 0)->0);
}

proof fn lemma_bytes_field(key: u8, p: Seq<u8>)
    requires
        key < 128,
        key % 8 == 2,
        p.len() < TWO_POW_64,
    ensures
        ({
            let s = bytes_field(key, p);
            let f = Field {
                key: key as u64,
                num: p.len() as u64,
                start: s.len() - p.len(),
                end: s.len() as int,
            };
            is_field(s, f) && wire::payload(s, f) == p
        }),
{
    let s = bytes_field(key, p);
    let n = wire::varint_bytes(p.len());
    assert(s =~= seq![key] + (n + p));
    lemma_key(key, n + p);
    wire::lemma_varint_roundtrip(seq![key], p.len() as u64, p);
    let f = wire::field_at(s, 0)->0;
    lemma_one_field(s, f);
    assert(wire::payload(s, f) =~= p);
}

proof fn lemma_fixed_field(key: u8, p: Seq<u8>)
    requires
        key < 128,
        key % 8 == 1 && p.len() == 8 || key % 8 == 5 && p.len() == 4,
    ensures
        ({
            let s = fixed_field(key, p);
            let f = Field { key: key as u64, num: 0, start: 1, end: s.len() as int };
            is_field(s, f) && wire::payload(s, f) == p
        }),
{
    let s = fixed_field(key, p);
    lemma_key(key, p);
    let f = wire::field_at(s, 0)->0;
    lemma_one_field(s, f);
    assert(wire::payload(s, f) =~= p);
}


// ---------------------------------------------------------------------------
// Tensors
// ---------------------------------------------------------------------------
proof fn lemma_carrier_behind(fs: Seq<Field>, f: Field, more: Seq<Field>)
    requires
        tfevents::first_carrier(fs) is None,
        tfevents::carries_value(f),
    ensures
        tfevents::first_carrier(fs + seq![f] + more) == Some(f),
    decreases more.len(),
{
    let all = fs + seq![f] + more;
    if more.len() == 0 {
        assert(all.drop_last() =~= fs);
    } else {
        assert(all.drop_last() =~= fs + seq![f] + more.drop_last());
        lemma_carrier_behind(fs, f, more.drop_last());
    }
}

proof fn lemma_number_stays(a: Seq<u8>, b: Seq<u8>, c: Seq<u8>, pos: int)
    requires
        0 <= pos,
    ensures
        pos + 4 <= b.len() ==> wire::le32_at(a + b + c, a.len() + pos) == wire::le32_at(b, pos),
        pos + 8 <= b.len() ==> wire::le64_at(a + b + c, a.len() + pos) == wire::le64_at(b, pos),
{
    let s = a + b + c;
    let n = a.len() as int;
    if pos + 4 <= b.len() {
        assert(s.subrange(n + pos, n + pos + 4) =~= b.subrange(pos, pos + 4));
    }
    if pos + 8 <= b.len() {
        assert(s.subrange(n + pos, n + pos + 8) =~= b.subrange(pos, pos + 8));
    }
}

/// A field with an element behind fields without one.
proof fn lemma_first_element(before: Seq<u8>, s: Seq<u8>, f: Field, behind: Seq<u8>, v: Scalar)
    requires
        wire::well_formed(before, 0),
        tfevents::first_carrier(wire::fields_from(before, 0)) is None,
        wire::well_formed(behind, 0),
        is_field(s, f),
        tfevents::carries_value(f),
        tfevents::element(s, f) == Some(v),
        f.key == 0x2A || f.key == 0x2D ==> f.start + 4 <= s.len(),
        f.key == 0x31 || f.key == 0x32 ==> f.start + 8 <= s.len(),
    ensures
        tfevents::tensor_value(before + s + behind) == Some(Some(v)),
{
    let n = before.len() as int;
    let all = before + s + behind;
    let g = moved(f, n);
    assert(all =~= before + (s + behind));
    lemma_fields_join(before, s + behind, 0);
    lemma_fields_join(s, behind, 0);
    let more = moved_all(wire::fields_from(behind, 0), s.len() as int);
    assert(wire::fields_from(all, 0) =~= wire::fields_from(before, 0) + seq![g] + moved_all(
        more,
        n,
    )) by {
        assert(moved_all(seq![f] + more, n) =~= seq![g] + moved_all(more, n));
    }
    assert(tfevents::first_carrier(wire::fields_from(before, 0)) is None);
    lemma_carrier_behind(wire::fields_from(before, 0), g, moved_all(more, n));
    lemma_number_stays(before, s, behind, f.start);
    if f.key == 0x3A || f.key == 0x52 {
        lemma_varint_stays(s, behind, f.start);
        lemma_varint_moves(before, s + behind, f.start);
    }
    assert(tfevents::element(all, g) == Some(v));
}

proof fn lemma_four(v: u32, more: Seq<u8>, s: Seq<u8>, pos: int)
    requires
        0 <= pos,
        s.skip(pos) == wire::le_bytes(v as nat, 4) + more,
        pos <= s.len(),
    ensures
        pos + 4 <= s.len(),
        wire::le32_at(s, pos) == v,
{
    wire::lemma_pow256_values();
    wire::lemma_le_roundtrip(v as nat, 4);
    assert(s.skip(pos).len() == 4 + more.len());
    assert(s.subrange(pos, pos + 4) =~= wire::le_bytes(v as nat, 4)) by {
        assert(s.subrange(pos, pos + 4) =~= s.skip(pos).take(4));
    }
}

proof fn lemma_eight(v: u64, more: Seq<u8>, s: Seq<u8>, pos: int)
    requires
        0 <= pos,
        s.skip(pos) == wire::le_bytes(v as nat, 8) + more,
        pos <= s.len(),
    ensures
        pos + 8 <= s.len(),
        wire::le64_at(s, pos) == v,
{
    wire::lemma_pow256_values();
    wire::lemma_le_roundtrip(v as nat, 8);
    assert(s.skip(pos).len() == 8 + more.len());
    assert(s.subrange(pos, pos + 8) =~= wire::le_bytes(v as nat, 8)) by {
        assert(s.subrange(pos, pos + 8) =~= s.skip(pos).take(8));
    }
}

/// Four little-endian bytes, written out, stand for the number.
pub proof fn law_four_bytes(s: Seq<u8>, pos: int)
    requires
        0 <= pos,
        pos + 4 <= s.len(),
    ensures
        wire::le32_at(s, pos) == s[pos] + 0x100 * s[pos + 1] + 0x1_0000 * s[pos + 2] + 0x100_0000
            * s[pos + 3],
{
    let t = s.subrange(pos, pos + 4);
    reveal_with_fuel(wire::le_nat, 5);
    assert(t[0] == s[pos] && t.drop_first()[0] == s[pos + 1]);
    assert(t.drop_first().drop_first()[0] == s[pos + 2]);
    assert(t.drop_first().drop_first().drop_first()[0] == s[pos + 3]);
}

/// Eight little-endian bytes are two numbers of four, the lower one first.
pub proof fn law_eight_bytes(s: Seq<u8>, pos: int)
    requires
        0 <= pos,
        pos + 8 <= s.len(),
    ensures
        wire::le64_at(s, pos) == wire::le32_at(s, pos) + 0x1_0000_0000 * wire::le32_at(s, pos + 4),
{
    let a = s.subrange(pos, pos + 4);
    let b = s.subrange(pos + 4, pos + 8);
    let t = s.subrange(pos, pos + 8);
    law_four_bytes(s, pos);
    law_four_bytes(s, pos + 4);
    reveal_with_fuel(wire::le_nat, 9);
    let t1 = t.drop_first();
    let t2 = t1.drop_first();
    let t3 = t2.drop_first();
    let t4 = t3.drop_first();
    let t5 = t4.drop_first();
    let t6 = t5.drop_first();
    let t7 = t6.drop_first();
    assert(t[0] == s[pos] && t1[0] == s[pos + 1] && t2[0] == s[pos + 2] && t3[0] == s[pos + 3]);
    assert(t4[0] == s[pos + 4] && t5[0] == s[pos + 5] && t6[0] == s[pos + 6] && t7[0] == s[pos
        + 7]);
}

/// A number below 128 is one byte; otherwise the first byte holds its lowest
/// seven bits and says that there is more, and the others hold the rest.
pub proof fn law_varints_by_sevens(b: u8, v: u64, rest: Seq<u8>)
    requires
        b < 128,
        v <= 0x1FF_FFFF_FFFF_FFFF,
    ensures
        wire::varint_at(seq![b] + rest, 0) == Some((b as u64, 1int)),
        v > 0 ==> wire::varint_at(seq![(b + 128) as u8] + wire::varint_bytes(v as nat) + rest, 0)
            == Some(((b + 128 * v) as u64, (1 + wire::varint_bytes(v as nat).len()) as int)),
{
    lemma_key(b, rest);
    if v > 0 {
        let w: u64 = (b + 128 * v) as u64;
        assert(w % 128 == b && w / 128 == v);
        assert(wire::varint_bytes(w as nat) =~= seq![(b + 128) as u8] + wire::varint_bytes(
            v as nat,
        ));
        wire::lemma_varint_roundtrip(seq![], w, rest);
        assert(seq![] + wire::varint_bytes(w as nat) + rest =~= wire::varint_bytes(w as nat)
            + rest);
    }
}

/// Nothing, a type alone, and a type with a shape hold no element.
pub proof fn law_no_element(dtype: u64, shape: Seq<u8>)
    requires
        shape.len() < TWO_POW_64,
    ensures
        tfevents::tensor_value(seq![]) == Some(None::<Scalar>),
        tfevents::tensor_value(number_field(0x08, dtype)) == Some(None::<Scalar>),
        tfevents::tensor_value(number_field(0x08, dtype) + bytes_field(0x12, shape)) == Some(
            None::<Scalar>,
        ),
        wire::well_formed(seq![], 0),
{
    let none = Seq::<u8>::empty();
    wire::lemma_field_bounds(none, 0);
    assert(wire::fields_from(none, 0) =~= seq![]);
    lemma_number_field(0x08, dtype);
    lemma_bytes_field(0x12, shape);
    let a = number_field(0x08, dtype);
    let b = bytes_field(0x12, shape);
    let fa = wire::field_at(a, 0)->0;
    let fb = moved(wire::field_at(b, 0)->0, a.len() as int);
    lemma_fields_join(a, b, 0);
    assert(wire::fields_from(a + b, 0) =~= seq![fa, fb]);
    assert(seq![fa, fb].drop_last() =~= seq![fa]);
    assert(seq![fa].drop_last() =~= seq![]);
    reveal_with_fuel(tfevents::first_carrier, 3);
    reveal_with_fuel(wire::last_with_key, 3);
}

/// A tensor of single-precision numbers, packed or one by one, reads as the
/// first of them, to the bit, whatever follows. What stands before it holds no
/// element.
pub proof fn law_single_elements(before: Seq<u8>, v: u32, more: Seq<u8>, behind: Seq<u8>)
    requires
        tfevents::tensor_value(before) == Some(None::<Scalar>),
        wire::well_formed(behind, 0),
        more.len() + 4 < TWO_POW_64,
    ensures
        tfevents::tensor_value(
            before + bytes_field(0x2A, wire::le_bytes(v as nat, 4) + more) + behind,
        ) == Some(Some(Scalar::Single(v))),
        tfevents::tensor_value(before + fixed_field(0x2D, wire::le_bytes(v as nat, 4)) + behind)
            == Some(Some(Scalar::Single(v))),
{
    let p = wire::le_bytes(v as nat, 4);
    wire::lemma_le_bytes_len(v as nat, 4);
    let s = bytes_field(0x2A, p + more);
    lemma_bytes_field(0x2A, p + more);
    let f = wire::field_at(s, 0)->0;
    assert(s.skip(f.start) =~= p + more);
    lemma_four(v, more, s, f.start);
    lemma_first_element(before, s, f, behind, Scalar::Single(v));
    let t = fixed_field(0x2D, p);
    lemma_fixed_field(0x2D, p);
    let g = wire::field_at(t, 0)->0;
    assert(t.skip(1) =~= p + seq![]);
    lemma_four(v, seq![], t, 1);
    lemma_first_element(before, t, g, behind, Scalar::Single(v));
}

/// A tensor of double-precision numbers, packed or one by one, reads as the
/// first of them, to the bit.
pub proof fn law_double_elements(before: Seq<u8>, v: u64, more: Seq<u8>, behind: Seq<u8>)
    requires
        tfevents::tensor_value(before) == Some(None::<Scalar>),
        wire::well_formed(behind, 0),
        more.len() + 8 < TWO_POW_64,
    ensures
        tfevents::tensor_value(
            before + bytes_field(0x32, wire::le_bytes(v as nat, 8) + more) + behind,
        ) == Some(Some(Scalar::Double(v))),
        tfevents::tensor_value(before + fixed_field(0x31, wire::le_bytes(v as nat, 8)) + behind)
            == Some(Some(Scalar::Double(v))),
{
    let p = wire::le_bytes(v as nat, 8);
    wire::lemma_le_bytes_len(v as nat, 8);
    let s = bytes_field(0x32, p + more);
    lemma_bytes_field(0x32, p + more);
    let f = wire::field_at(s, 0)->0;
    assert(s.skip(f.start) =~= p + more);
    lemma_eight(v, more, s, f.start);
    lemma_first_element(before, s, f, behind, Scalar::Double(v));
    let t = fixed_field(0x31, p);
    lemma_fixed_field(0x31, p);
    let g = wire::field_at(t, 0)->0;
    assert(t.skip(1) =~= p + seq![]);
    lemma_eight(v, seq![], t, 1);
    lemma_first_element(before, t, g, behind, Scalar::Double(v));
}

/// A tensor of integers, of either size and packed or one by one, reads as the
/// first of them with its sign.
pub proof fn law_integer_elements(before: Seq<u8>, v: i64, more: Seq<u8>, behind: Seq<u8>)
    requires
        tfevents::tensor_value(before) == Some(None::<Scalar>),
        wire::well_formed(behind, 0),
        more.len() + 10 < TWO_POW_64,
    ensures
        ({
            let p = wire::varint_bytes((v as u64) as nat);
            let want = Some(Some(Scalar::Int(v)));
            &&& tfevents::tensor_value(before + bytes_field(0x3A, p + more) + behind) == want
            &&& tfevents::tensor_value(before + bytes_field(0x52, p + more) + behind) == want
            &&& tfevents::tensor_value(before + number_field(0x38, v as u64) + behind) == want
            &&& tfevents::tensor_value(before + number_field(0x50, v as u64) + behind) == want
        }),
{
    let u = v as u64;
    assert((v as u64) as i64 == v) by (bit_vector);
    lemma_packed_integer(before, 0x3A, u, more, behind);
    lemma_packed_integer(before, 0x52, u, more, behind);
    let s = number_field(0x38, u);
    lemma_number_field(0x38, u);
    lemma_first_element(before, s, wire::field_at(s, 0)->0, behind, Scalar::Int(v));
    let t = number_field(0x50, u);
    lemma_number_field(0x50, u);
    lemma_first_element(before, t, wire::field_at(t, 0)->0, behind, Scalar::Int(v));
}

proof fn lemma_packed_integer(before: Seq<u8>, key: u8, v: u64, more: Seq<u8>, behind: Seq<u8>)
    requires
        key == 0x3A || key == 0x52,
        tfevents::tensor_value(before) == Some(None::<Scalar>),
        wire::well_formed(behind, 0),
        more.len() + 10 < TWO_POW_64,
    ensures
        tfevents::tensor_value(
            before + bytes_field(key, wire::varint_bytes(v as nat) + more) + behind,
        ) == Some(Some(Scalar::Int(v as i64))),
{
    let p = wire::varint_bytes(v as nat);
    wire::lemma_varint_bytes_len(v as nat);
    let s = bytes_field(key, p + more);
    lemma_bytes_field(key, p + more);
    let f = wire::field_at(s, 0)->0;
    let head = s.take(f.start);
    assert(s =~= head + p + more);
    wire::lemma_varint_roundtrip(head, v, more);
    lemma_first_element(before, s, f, behind, Scalar::Int(v as i64));
}

/// A packed field too short for an element holds none.
pub proof fn law_too_short_for_an_element(dtype: u64, p: Seq<u8>)
    ensures
        p.len() < 4 ==> tfevents::tensor_value(number_field(0x08, dtype) + bytes_field(0x2A, p))
            == Some(None::<Scalar>),
        p.len() < 8 ==> tfevents::tensor_value(number_field(0x08, dtype) + bytes_field(0x32, p))
            == Some(None::<Scalar>),
        p.len() == 0 ==> tfevents::tensor_value(number_field(0x08, dtype) + bytes_field(0x3A, p))
            == Some(None::<Scalar>),
        p.len() == 0 ==> tfevents::tensor_value(number_field(0x08, dtype) + bytes_field(0x52, p))
            == Some(None::<Scalar>),
{
    if p.len() < 4 {
        lemma_no_element_in(dtype, 0x2A, p);
    }
    if p.len() < 8 {
        lemma_no_element_in(dtype, 0x32, p);
    }
    if p.len() == 0 {
        lemma_no_element_in(dtype, 0x3A, p);
        lemma_no_element_in(dtype, 0x52, p);
    }
}

proof fn lemma_no_element_in(dtype: u64, key: u8, p: Seq<u8>)
    requires
        key == 0x2A && p.len() < 4 || key == 0x32 && p.len() < 8 || (key == 0x3A || key == 0x52)
            && p.len() == 0,
    ensures
        tfevents::tensor_value(number_field(0x08, dtype) + bytes_field(key, p)) == Some(
            None::<Scalar>,
        ),
{
    lemma_number_field(0x08, dtype);
    lemma_bytes_field(key, p);
    let a = number_field(0x08, dtype);
    let b = bytes_field(key, p);
    let fa = wire::field_at(a, 0)->0;
    let fb = moved(wire::field_at(b, 0)->0, a.len() as int);
    lemma_fields_join(a, b, 0);
    assert(wire::fields_from(a + b, 0) =~= seq![fa, fb]);
    assert(seq![fa, fb].drop_last() =~= seq![fa]);
    assert(seq![fa].drop_last() =~= seq![]);
    reveal_with_fuel(tfevents::first_carrier, 3);
    reveal_with_fuel(wire::last_with_key, 3);
}

/// The single-precision tensor that is written for a scalar, byte by byte: its
/// type, the key and the length of the packed numbers, and the one number.
pub proof fn law_packed_scalar_is_read(v: u32)
    ensures
        tfevents::tensor_value(seq![0x08u8, 0x01u8, 0x2Au8, 0x04u8] + wire::le_bytes(v as nat, 4))
            == Some(Some(Scalar::Single(v))),
        tfevents::tensor_value(seq![0x08u8, 0x02u8, 0x32u8, 0x08u8] + wire::le_bytes(v as nat, 8))
            == Some(Some(Scalar::Double(v as u64))),
{
    wire::lemma_le_bytes_len(v as nat, 4);
    wire::lemma_le_bytes_len(v as nat, 8);
    law_no_element(1, seq![]);
    law_no_element(2, seq![]);
    law_single_elements(number_field(0x08, 1), v, seq![], seq![]);
    law_double_elements(number_field(0x08, 2), v as u64, seq![], seq![]);
    let four = wire::le_bytes(v as nat, 4);
    let eight = wire::le_bytes(v as nat, 8);
    assert(wire::varint_bytes(1) =~= seq![0x01u8]);
    assert(wire::varint_bytes(2) =~= seq![0x02u8]);
    assert(wire::varint_bytes(4) =~= seq![0x04u8]);
    assert(wire::varint_bytes(8) =~= seq![0x08u8]);
    assert(four + seq![] =~= four);
    assert(eight + seq![] =~= eight);
    assert(number_field(0x08, 1) + bytes_field(0x2A, four) + seq![] =~= seq![
        0x08u8,
        0x01u8,
        0x2Au8,
        0x04u8,
    ] + four);
    assert(number_field(0x08, 2) + bytes_field(0x32, eight) + seq![] =~= seq![
        0x08u8,
        0x02u8,
        0x32u8,
        0x08u8,
    ] + eight);
}

/// The raw content of a tensor of that type, in whichever order the two stand.
proof fn lemma_content(dtype: u64, c: Seq<u8>)
    requires
        c.len() < TWO_POW_64,
    ensures
        tfevents::tensor_value(number_field(0x08, dtype) + bytes_field(0x22, c)) == Some(
            tfevents::content_scalar(dtype, c),
        ),
        tfevents::tensor_value(bytes_field(0x22, c) + number_field(0x08, dtype)) == Some(
            tfevents::content_scalar(dtype, c),
        ),
{
    lemma_number_field(0x08, dtype);
    lemma_bytes_field(0x22, c);
    let a = number_field(0x08, dtype);
    let b = bytes_field(0x22, c);
    let fa = wire::field_at(a, 0)->0;
    let fb = wire::field_at(b, 0)->0;
    let ga = moved(fa, b.len() as int);
    let gb = moved(fb, a.len() as int);
    lemma_fields_join(a, b, 0);
    lemma_fields_join(b, a, 0);
    assert(wire::fields_from(a + b, 0) =~= seq![fa, gb]);
    assert(wire::fields_from(b + a, 0) =~= seq![fb, ga]);
    assert(seq![fa, gb].drop_last() =~= seq![fa]);
    assert(seq![fb, ga].drop_last() =~= seq![fb]);
    assert(seq![fa].drop_last() =~= seq![]);
    assert(seq![fb].drop_last() =~= seq![]);
    reveal_with_fuel(tfevents::first_carrier, 3);
    reveal_with_fuel(wire::last_with_key, 3);
    assert(wire::payload(a + b, gb) =~= c);
    assert(wire::payload(b + a, fb) =~= c);
}

/// The raw content of a tensor reads as the first number in it: four or eight
/// little-endian bytes, as its type says, before or behind the content. With
/// any other type, or too few bytes, there is no scalar.
pub proof fn law_raw_content_is_read(v: u32, w: u64, more: Seq<u8>, dtype: u64, c: Seq<u8>)
    requires
        more.len() + 8 < TWO_POW_64,
        c.len() < TWO_POW_64,
    ensures
        ({
            let four = wire::le_bytes(v as nat, 4) + more;
            let eight = wire::le_bytes(w as nat, 8) + more;
            &&& tfevents::tensor_value(number_field(0x08, 1) + bytes_field(0x22, four)) == Some(
                Some(Scalar::Single(v)),
            )
            &&& tfevents::tensor_value(number_field(0x08, 2) + bytes_field(0x22, eight)) == Some(
                Some(Scalar::Double(w)),
            )
            &&& tfevents::tensor_value(number_field(0x08, 3) + bytes_field(0x22, four)) == Some(
                Some(Scalar::Int((v as i32) as i64)),
            )
            &&& tfevents::tensor_value(number_field(0x08, 9) + bytes_field(0x22, eight)) == Some(
                Some(Scalar::Int(w as i64)),
            )
        }),
        tfevents::tensor_value(bytes_field(0x22, c) + number_field(0x08, dtype))
            == tfevents::tensor_value(number_field(0x08, dtype) + bytes_field(0x22, c)),
        c.len() < 4 || (dtype != 1 && dtype != 2 && dtype != 3 && dtype != 9) || ((dtype == 2
            || dtype == 9) && c.len() < 8) ==> tfevents::tensor_value(
            number_field(0x08, dtype) + bytes_field(0x22, c),
        ) == Some(None::<Scalar>),
{
    let four = wire::le_bytes(v as nat, 4) + more;
    let eight = wire::le_bytes(w as nat, 8) + more;
    wire::lemma_le_bytes_len(v as nat, 4);
    wire::lemma_le_bytes_len(w as nat, 8);
    lemma_content(1, four);
    lemma_content(2, eight);
    lemma_content(3, four);
    lemma_content(9, eight);
    lemma_content(dtype, c);
    assert(four.skip(0) =~= four);
    assert(eight.skip(0) =~= eight);
    lemma_four(v, more, four, 0);
    lemma_eight(w, more, eight, 0);
}


/// An element counts before raw content, wherever the two stand.
pub proof fn law_elements_come_before_content(dtype: u64, c: Seq<u8>, v: u32)
    requires
        c.len() < TWO_POW_64,
    ensures
        ({
            let content = number_field(0x08, dtype) + bytes_field(0x22, c);
            let element = fixed_field(0x2D, wire::le_bytes(v as nat, 4));
            &&& tfevents::tensor_value(content + element) == Some(Some(Scalar::Single(v)))
            &&& tfevents::tensor_value(element + content) == Some(Some(Scalar::Single(v)))
        }),
{
    let none = Seq::<u8>::empty();
    let p = wire::le_bytes(v as nat, 4);
    wire::lemma_le_bytes_len(v as nat, 4);
    lemma_number_field(0x08, dtype);
    lemma_bytes_field(0x22, c);
    lemma_fixed_field(0x2D, p);
    law_no_element(dtype, none);
    let a = number_field(0x08, dtype);
    let b = bytes_field(0x22, c);
    let t = fixed_field(0x2D, p);
    let fa = wire::field_at(a, 0)->0;
    let gb = moved(wire::field_at(b, 0)->0, a.len() as int);
    lemma_fields_join(a, b, 0);
    assert(wire::fields_from(a + b, 0) =~= seq![fa, gb]);
    assert(seq![fa, gb].drop_last() =~= seq![fa]);
    assert(seq![fa].drop_last() =~= seq![]);
    reveal_with_fuel(tfevents::first_carrier, 3);
    assert(t.skip(1) =~= p + none);
    lemma_four(v, none, t, 1);
    let f = wire::field_at(t, 0)->0;
    lemma_first_element(a + b, t, f, none, Scalar::Single(v));
    assert((a + b) + t + none =~= (a + b) + t);
    lemma_first_element(none, t, f, a + b, Scalar::Single(v));
    assert(none + t + (a + b) =~= t + (a + b));
}

// ---------------------------------------------------------------------------
// Summary values
// ---------------------------------------------------------------------------
/// What some fields in a row say of a summary value.
proof fn lemma_value_fields(s: Seq<u8>, fs: Seq<Field>, f: Field)
    ensures
        wire::last_with_key(fs.push(f), 0x0A) == if f.key == 0x0A {
            Some(f)
        } else {
            wire::last_with_key(fs, 0x0A)
        },
        tfevents::value_scan(s, fs.push(f)) == match tfevents::value_scan(s, fs) {
            None => None,
            Some(before) => if f.key == 0x15 {
                Some(Some(Scalar::Single(wire::le32_at(s, f.start))))
            } else if f.key == 0x42 && before is None {
                tfevents::tensor_value(wire::payload(s, f))
            } else {
                Some(before)
            },
        },
{
    assert(fs.push(f).drop_last() =~= fs);
}

/// Four fields in a row.
proof fn lemma_four_fields(a: Seq<u8>, b: Seq<u8>, c: Seq<u8>, d: Seq<u8>)
    requires
        wire::well_formed(a, 0),
        wire::well_formed(b, 0),
        wire::well_formed(c, 0),
        wire::well_formed(d, 0),
    ensures
        ({
            let s = a + b + c + d;
            let x = a.len() as int;
            let y = (a.len() + b.len()) as int;
            let z = (a.len() + b.len() + c.len()) as int;
            &&& wire::well_formed(s, 0)
            &&& wire::fields_from(s, 0) == wire::fields_from(a, 0) + moved_all(
                wire::fields_from(b, 0),
                x,
            ) + moved_all(wire::fields_from(c, 0), y) + moved_all(wire::fields_from(d, 0), z)
        }),
{
    lemma_fields_join(a, b, 0);
    lemma_fields_join(a + b, c, 0);
    lemma_fields_join(a + b + c, d, 0);
}

/// A summary value with a tag, some field that does not matter, and a scalar
/// in a tensor, in this order or with the tag last, is the tag with that
/// scalar; it is nothing if the tensor holds none, and no message at all if
/// the tensor is none.
pub proof fn law_tensor_value_is_read(tag: Seq<u8>, other: u8, meta: Seq<u8>, t: Seq<u8>)
    requires
        other < 128,
        other % 8 == 2,
        other != 0x0A && other != 0x42,
        tag.len() < TWO_POW_64,
        meta.len() < TWO_POW_64,
        t.len() < TWO_POW_64,
    ensures
        ({
            let a = bytes_field(0x0A, tag);
            let m = bytes_field(other, meta);
            let b = bytes_field(0x42, t);
            let want = match tfevents::tensor_value(t) {
                Some(Some(v)) => Some(Some((tag, v))),
                Some(None) => Some(None),
                None => None,
            };
            &&& tfevents::summary_value(a + m + b) == want
            &&& tfevents::summary_value(b + m + a) == want
            &&& tfevents::summary_value(a + b) == want
        }),
{
    let none = Seq::<u8>::empty();
    let a = bytes_field(0x0A, tag);
    let m = bytes_field(other, meta);
    let b = bytes_field(0x42, t);
    lemma_bytes_field(0x0A, tag);
    lemma_bytes_field(other, meta);
    lemma_bytes_field(0x42, t);
    law_no_element(0, none);
    wire::lemma_field_bounds(none, 0);
    assert(wire::fields_from(none, 0) =~= seq![]);
    let fa = wire::field_at(a, 0)->0;
    let fm = wire::field_at(m, 0)->0;
    let fb = wire::field_at(b, 0)->0;
    // tag, other, tensor
    let s1 = a + m + b;
    let m1 = moved(fm, a.len() as int);
    let b1 = moved(fb, (a.len() + m.len()) as int);
    lemma_four_fields(a, m, b, none);
    assert(a + m + b + none =~= s1);
    assert(wire::fields_from(s1, 0) =~= seq![].push(fa).push(m1).push(b1));
    lemma_value_fields(s1, seq![], fa);
    lemma_value_fields(s1, seq![].push(fa), m1);
    lemma_value_fields(s1, seq![].push(fa).push(m1), b1);
    assert(wire::payload(s1, fa) =~= tag);
    assert(wire::payload(s1, b1) =~= t);
    // tensor, other, tag
    let s2 = b + m + a;
    let m2 = moved(fm, b.len() as int);
    let a2 = moved(fa, (b.len() + m.len()) as int);
    lemma_four_fields(b, m, a, none);
    assert(b + m + a + none =~= s2);
    assert(wire::fields_from(s2, 0) =~= seq![].push(fb).push(m2).push(a2));
    lemma_value_fields(s2, seq![], fb);
    lemma_value_fields(s2, seq![].push(fb), m2);
    lemma_value_fields(s2, seq![].push(fb).push(m2), a2);
    assert(wire::payload(s2, fb) =~= t);
    assert(wire::payload(s2, a2) =~= tag);
    // tag, tensor
    let s3 = a + b;
    let b3 = moved(fb, a.len() as int);
    lemma_fields_join(a, b, 0);
    assert(wire::fields_from(s3, 0) =~= seq![].push(fa).push(b3));
    lemma_value_fields(s3, seq![], fa);
    lemma_value_fields(s3, seq![].push(fa), b3);
    assert(wire::payload(s3, fa) =~= tag);
    assert(wire::payload(s3, b3) =~= t);
}

/// A summary value with a tag and a simple value is the tag with that value,
/// to the bit, in either order, and a tensor beside it does not count.
pub proof fn law_simple_value_is_read(tag: Seq<u8>, v: u32, t: Seq<u8>)
    requires
        tag.len() < TWO_POW_64,
        t.len() < TWO_POW_64,
    ensures
        ({
            let a = bytes_field(0x0A, tag);
            let x = fixed_field(0x15, wire::le_bytes(v as nat, 4));
            let b = bytes_field(0x42, t);
            let want = Some(Some((tag, Scalar::Single(v))));
            &&& tfevents::summary_value(a + x) == want
            &&& tfevents::summary_value(x + a) == want
            &&& tfevents::summary_value(a + x + b) == want
            &&& tfevents::tensor_value(t) is Some ==> tfevents::summary_value(a + b + x) == want
        }),
{
    let none = Seq::<u8>::empty();
    let p = wire::le_bytes(v as nat, 4);
    wire::lemma_le_bytes_len(v as nat, 4);
    let a = bytes_field(0x0A, tag);
    let x = fixed_field(0x15, p);
    let b = bytes_field(0x42, t);
    lemma_bytes_field(0x0A, tag);
    lemma_fixed_field(0x15, p);
    lemma_bytes_field(0x42, t);
    law_no_element(0, none);
    wire::lemma_field_bounds(none, 0);
    assert(wire::fields_from(none, 0) =~= seq![]);
    let fa = wire::field_at(a, 0)->0;
    let fx = wire::field_at(x, 0)->0;
    let fb = wire::field_at(b, 0)->0;
    assert(x.skip(1) =~= p + none);
    lemma_four(v, none, x, 1);
    // tag, value
    let s1 = a + x;
    let x1 = moved(fx, a.len() as int);
    lemma_fields_join(a, x, 0);
    assert(wire::fields_from(s1, 0) =~= seq![].push(fa).push(x1));
    lemma_value_fields(s1, seq![], fa);
    lemma_value_fields(s1, seq![].push(fa), x1);
    lemma_number_stays(a, x, none, 1);
    assert(a + x + none =~= s1);
    assert(wire::payload(s1, fa) =~= tag);
    // value, tag
    let s2 = x + a;
    let a2 = moved(fa, x.len() as int);
    lemma_fields_join(x, a, 0);
    assert(wire::fields_from(s2, 0) =~= seq![].push(fx).push(a2));
    lemma_value_fields(s2, seq![], fx);
    lemma_value_fields(s2, seq![].push(fx), a2);
    lemma_number_stays(none, x, a, 1);
    assert(none + x + a =~= s2);
    assert(wire::payload(s2, a2) =~= tag);
    // tag, value, tensor
    let s3 = a + x + b;
    let b3 = moved(fb, (a.len() + x.len()) as int);
    lemma_four_fields(a, x, b, none);
    assert(a + x + b + none =~= s3);
    assert(wire::fields_from(s3, 0) =~= seq![].push(fa).push(x1).push(b3));
    lemma_value_fields(s3, seq![], fa);
    lemma_value_fields(s3, seq![].push(fa), x1);
    lemma_value_fields(s3, seq![].push(fa).push(x1), b3);
    lemma_number_stays(a, x, b, 1);
    assert(wire::payload(s3, fa) =~= tag);
    // tag, tensor, value
    let s4 = a + b + x;
    let b4 = moved(fb, a.len() as int);
    let x4 = moved(fx, (a.len() + b.len()) as int);
    lemma_four_fields(a, b, x, none);
    assert(a + b + x + none =~= s4);
    assert(wire::fields_from(s4, 0) =~= seq![].push(fa).push(b4).push(x4));
    lemma_value_fields(s4, seq![], fa);
    lemma_value_fields(s4, seq![].push(fa), b4);
    lemma_value_fields(s4, seq![].push(fa).push(b4), x4);
    lemma_number_stays(a + b, x, none, 1);
    assert((a + b) + x + none =~= s4);
    assert(wire::payload(s4, fa) =~= tag);
    assert(wire::payload(s4, b4) =~= t);
}

/// A summary value without a tag, or without a scalar, is no point.
pub proof fn law_both_parts_are_needed(tag: Seq<u8>, v: u32)
    requires
        tag.len() < TWO_POW_64,
    ensures
        tfevents::summary_value(bytes_field(0x0A, tag)) == Some(None::<(Seq<u8>, Scalar)>),
        tfevents::summary_value(fixed_field(0x15, wire::le_bytes(v as nat, 4))) == Some(
            None::<(Seq<u8>, Scalar)>,
        ),
{
    let p = wire::le_bytes(v as nat, 4);
    wire::lemma_le_bytes_len(v as nat, 4);
    let a = bytes_field(0x0A, tag);
    let x = fixed_field(0x15, p);
    lemma_bytes_field(0x0A, tag);
    lemma_fixed_field(0x15, p);
    let fa = wire::field_at(a, 0)->0;
    let fx = wire::field_at(x, 0)->0;
    assert(wire::fields_from(a, 0) =~= seq![].push(fa));
    assert(wire::fields_from(x, 0) =~= seq![].push(fx));
    lemma_value_fields(a, seq![], fa);
    lemma_value_fields(x, seq![], fx);
}

// ---------------------------------------------------------------------------
// Summaries and events
// ---------------------------------------------------------------------------
proof fn lemma_summary_moves(a: Seq<u8>, b: Seq<u8>, pos: int, step: i64, wall: u64)
    requires
        0 <= pos,
    ensures
        tfevents::summary_points(a + b, a.len() + pos, step, wall) == tfevents::summary_points(
            b,
            pos,
            step,
            wall,
        ),
    decreases b.len() - pos,
{
    lemma_field_moves(a, b, pos);
    wire::lemma_field_bounds(b, pos);
    if pos < b.len() && wire::field_at(b, pos) is Some {
        let f = wire::field_at(b, pos)->0;
        lemma_summary_moves(a, b, f.end, step, wall);
        assert(wire::payload(a + b, moved(f, a.len() as int)) =~= wire::payload(b, f));
    }
}

/// The values of a summary give their points one after the other: a value in
/// front comes first, and the rest is read as if it stood alone. Other fields
/// are passed over. Where a value is no message, nothing more is read.
pub proof fn law_summary_in_order(
    val: Seq<u8>,
    other: u8,
    meta: Seq<u8>,
    rest: Seq<u8>,
    step: i64,
    wall: u64,
)
    requires
        val.len() < TWO_POW_64,
        meta.len() < TWO_POW_64,
        other < 128,
        other % 8 == 2,
        other != 0x0A,
    ensures
        ({
            let behind = tfevents::summary_points(rest, 0, step, wall);
            let all = tfevents::summary_points(bytes_field(0x0A, val) + rest, 0, step, wall);
            match tfevents::summary_value(val) {
                Some(Some((tag, value))) => {
                    &&& all.0 == seq![tfevents::PointView { tag, step, wall, value }] + behind.0
                    &&& all.1 == behind.1
                },
                Some(None) => all == behind,
                None => all == (Seq::<tfevents::PointView>::empty(), false),
            }
        }),
        tfevents::summary_points(bytes_field(other, meta) + rest, 0, step, wall)
            == tfevents::summary_points(rest, 0, step, wall),
        tfevents::summary_points(seq![], 0, step, wall) == (
            Seq::<tfevents::PointView>::empty(),
            true,
        ),
{
    let a = bytes_field(0x0A, val);
    lemma_bytes_field(0x0A, val);
    lemma_field_stays(a, rest, 0);
    lemma_summary_moves(a, rest, 0, step, wall);
    let f = wire::field_at(a, 0)->0;
    assert(wire::payload(a + rest, f) =~= val);
    let m = bytes_field(other, meta);
    lemma_bytes_field(other, meta);
    lemma_field_stays(m, rest, 0);
    lemma_summary_moves(m, rest, 0, step, wall);
}

/// An event with a wall time, a step, some field that does not matter and a
/// summary gives the points of the summary at that step and time; the step and
/// the time are zero where they are missing, and without a summary there is no
/// point.
pub proof fn law_event_gives_its_summary(
    wall: u64,
    step: i64,
    other: u8,
    meta: Seq<u8>,
    sum: Seq<u8>,
)
    requires
        sum.len() < TWO_POW_64,
        meta.len() < TWO_POW_64,
        other < 128,
        other % 8 == 2,
        other != 0x2A,
    ensures
        ({
            let w = fixed_field(0x09, wire::le_bytes(wall as nat, 8));
            let t = number_field(0x10, step as u64);
            let m = bytes_field(other, meta);
            let s = bytes_field(0x2A, sum);
            let points = tfevents::summary_points(sum, 0, step, wall);
            &&& tfevents::event_points(w + t + m + s) == points
            &&& tfevents::event_points(s + m + t + w) == points
            &&& tfevents::event_points(w + m) == (Seq::<tfevents::PointView>::empty(), true)
            &&& tfevents::event_points(s) == tfevents::summary_points(sum, 0, 0, 0)
            &&& tfevents::event_points(t + s) == tfevents::summary_points(sum, 0, step, 0)
        }),
{
    let none = Seq::<u8>::empty();
    let p = wire::le_bytes(wall as nat, 8);
    wire::lemma_le_bytes_len(wall as nat, 8);
    assert((step as u64) as i64 == step) by (bit_vector);
    let w = fixed_field(0x09, p);
    let t = number_field(0x10, step as u64);
    let m = bytes_field(other, meta);
    let s = bytes_field(0x2A, sum);
    lemma_fixed_field(0x09, p);
    lemma_number_field(0x10, step as u64);
    lemma_bytes_field(other, meta);
    lemma_bytes_field(0x2A, sum);
    let fw = wire::field_at(w, 0)->0;
    let ft = wire::field_at(t, 0)->0;
    let fm = wire::field_at(m, 0)->0;
    let fs = wire::field_at(s, 0)->0;
    assert(w.skip(1) =~= p + none);
    lemma_eight(wall, none, w, 1);
    // in this order
    let e1 = w + t + m + s;
    let t1 = moved(ft, w.len() as int);
    let m1 = moved(fm, (w.len() + t.len()) as int);
    let s1 = moved(fs, (w.len() + t.len() + m.len()) as int);
    lemma_four_fields(w, t, m, s);
    assert(wire::fields_from(e1, 0) =~= seq![].push(fw).push(t1).push(m1).push(s1));
    lemma_event_fields(seq![].push(fw).push(t1).push(m1), s1);
    lemma_event_fields(seq![].push(fw).push(t1), m1);
    lemma_event_fields(seq![].push(fw), t1);
    lemma_event_fields(seq![], fw);
    lemma_number_stays(none, w, t + m + s, 1);
    assert(none + w + (t + m + s) =~= e1);
    assert(wire::payload(e1, s1) =~= sum);
    // the other way round
    let e2 = s + m + t + w;
    let m2 = moved(fm, s.len() as int);
    let t2 = moved(ft, (s.len() + m.len()) as int);
    let w2 = moved(fw, (s.len() + m.len() + t.len()) as int);
    lemma_four_fields(s, m, t, w);
    assert(wire::fields_from(e2, 0) =~= seq![].push(fs).push(m2).push(t2).push(w2));
    lemma_event_fields(seq![].push(fs).push(m2).push(t2), w2);
    lemma_event_fields(seq![].push(fs).push(m2), t2);
    lemma_event_fields(seq![].push(fs), m2);
    lemma_event_fields(seq![], fs);
    lemma_number_stays(s + m + t, w, none, 1);
    assert((s + m + t) + w + none =~= e2);
    assert(wire::payload(e2, fs) =~= sum);
    // without a summary
    let e3 = w + m;
    let m3 = moved(fm, w.len() as int);
    lemma_fields_join(w, m, 0);
    assert(wire::fields_from(e3, 0) =~= seq![].push(fw).push(m3));
    lemma_event_fields(seq![].push(fw), m3);
    // without a time
    assert(wire::fields_from(s, 0) =~= seq![].push(fs));
    assert(wire::payload(s, fs) =~= sum);
    let e4 = t + s;
    let s4 = moved(fs, t.len() as int);
    lemma_fields_join(t, s, 0);
    assert(wire::fields_from(e4, 0) =~= seq![].push(ft).push(s4));
    lemma_event_fields(seq![].push(ft), s4);
    lemma_event_fields(seq![], ft);
    assert(wire::payload(e4, s4) =~= sum);
}

proof fn lemma_event_fields(fs: Seq<Field>, f: Field)
    ensures
        forall|key: u64| #[trigger]
            wire::last_with_key(fs.push(f), key) == if f.key == key {
                Some(f)
            } else {
                wire::last_with_key(fs, key)
            },
{
    assert(fs.push(f).drop_last() =~= fs);
}

/// A scalar of any kind in a tensor is read as one point: its tag, its step, its
/// wall time and its value, to the bit.
pub proof fn law_tensor_point_is_read(
    tag: Seq<u8>,
    step: i64,
    wall: u64,
    t: Seq<u8>,
    value: Scalar,
)
    requires
        tfevents::tensor_value(t) == Some(Some(value)),
        tag.len() + t.len() + 100 < TWO_POW_64,
    ensures
        ({
            let val = bytes_field(0x0A, tag) + bytes_field(0x42, t);
            let sum = bytes_field(0x0A, val);
            let event = fixed_field(0x09, wire::le_bytes(wall as nat, 8)) + number_field(
                0x10,
                step as u64,
            ) + bytes_field(0x1A, seq![]) + bytes_field(0x2A, sum);
            tfevents::event_points(event) == (
                seq![tfevents::PointView { tag, step, wall, value }],
                true,
            )
        }),
{
    let none = Seq::<u8>::empty();
    let val = bytes_field(0x0A, tag) + bytes_field(0x42, t);
    let sum = bytes_field(0x0A, val);
    wire::lemma_varint_bytes_len(tag.len());
    wire::lemma_varint_bytes_len(t.len());
    law_tensor_value_is_read(tag, 0x4A, none, t);
    wire::lemma_varint_bytes_len(val.len());
    law_summary_in_order(val, 0x12, none, none, step, wall);
    assert(sum + none =~= sum);
    law_event_gives_its_summary(wall, step, 0x1A, none, sum);
    let pt = tfevents::PointView { tag, step, wall, value };
    assert(seq![pt] + Seq::<tfevents::PointView>::empty() =~= seq![pt]);
}


/// A field of a group, or of no wire type, is no field, and neither is one that
/// is cut short.
pub proof fn law_broken_fields_are_refused(key: u8, rest: Seq<u8>)
    requires
        key < 128,
    ensures
        key % 8 == 3 || key % 8 == 4 || key % 8 >= 6 ==> !wire::well_formed(seq![key] + rest, 0),
        key % 8 == 1 && rest.len() < 8 ==> !wire::well_formed(seq![key] + rest, 0),
        key % 8 == 5 && rest.len() < 4 ==> !wire::well_formed(seq![key] + rest, 0),
        key % 8 == 2 && rest.len() > 0 && rest[0] < 128 && rest.len() - 1 < rest[0]
            ==> !wire::well_formed(seq![key] + rest, 0),
        (key % 8 == 0 || key % 8 == 2) && rest.len() == 0 ==> !wire::well_formed(
            seq![key] + rest,
            0,
        ),
{
    let s = seq![key] + rest;
    lemma_key(key, rest);
    wire::lemma_field_bounds(s, 0);
    if rest.len() == 0 {
        lemma_varint_in(s, 1);
    } else if rest[0] < 128 {
        lemma_varint_moves(seq![key], rest, 0);
        lemma_key(rest[0], rest.drop_first());
        assert(seq![rest[0]] + rest.drop_first() =~= rest);
    }
}

/// A record that claims to be longer than two gibibytes is none, and a whole
/// record that holds no event stops the reading behind the points before it.
pub proof fn law_bad_records_stop_the_reading(s: Seq<u8>)
    requires
        s.len() >= 12,
    ensures
        wire::le64_at(s, 0) > 0x8000_0000 ==> tfevents::chunk_from(s, 0) == (tfevents::Chunk {
            points: seq![],
            consumed: 0,
            corrupt: true,
        }),
        wire::le64_at(s, 0) <= 0x8000_0000 && s.len() >= 16 + wire::le64_at(s, 0) ==> {
            let event = tfevents::event_points(s.subrange(12, 12 + wire::le64_at(s, 0)));
            !event.1 ==> tfevents::chunk_from(s, 0) == (tfevents::Chunk {
                points: event.0,
                consumed: 0,
                corrupt: true,
            })
        },
{
}


// ---------------------------------------------------------------------------
// What is written
// ---------------------------------------------------------------------------
/// A scalar is written as an event of a wall time, a step and a summary with one
/// value: its tag, and the number as such or, where a tensor is asked for, as the
/// raw content of a single-precision tensor.
pub proof fn law_written_event(tag: Seq<u8>, step: i64, wall: u64, value: u32, tensor: bool)
    ensures
        ({
            let number = wire::le_bytes(value as nat, 4);
            let scalar = if tensor {
                bytes_field(0x42, number_field(0x08, 1) + bytes_field(0x22, number))
            } else {
                fixed_field(0x15, number)
            };
            let sum = bytes_field(0x0A, bytes_field(0x0A, tag) + scalar);
            crate::writer::event_bytes(tag, step, wall, value, tensor) == fixed_field(
                0x09,
                wire::le_bytes(wall as nat, 8),
            ) + number_field(0x10, step as u64) + bytes_field(0x2A, sum)
        }),
{
    let number = wire::le_bytes(value as nat, 4);
    wire::lemma_le_bytes_len(value as nat, 4);
    assert(wire::varint_bytes(0x08) =~= seq![0x08u8]);
    assert(wire::varint_bytes(0x22) =~= seq![0x22u8]);
    assert(wire::varint_bytes(0x42) =~= seq![0x42u8]);
    assert(wire::varint_bytes(0x15) =~= seq![0x15u8]);
    assert(wire::varint_bytes(0x0A) =~= seq![0x0Au8]);
    assert(wire::varint_bytes(0x09) =~= seq![0x09u8]);
    assert(wire::varint_bytes(0x10) =~= seq![0x10u8]);
    assert(wire::varint_bytes(0x2A) =~= seq![0x2Au8]);
    let t = number_field(0x08, 1) + bytes_field(0x22, number);
    assert(crate::writer::tensor_bytes(value) =~= t);
    let scalar = if tensor {
        bytes_field(0x42, t)
    } else {
        fixed_field(0x15, number)
    };
    assert(crate::writer::scalar_field(value, tensor) =~= scalar);
    let val = bytes_field(0x0A, tag) + scalar;
    assert(crate::writer::value_bytes(tag, value, tensor) =~= val);
    let sum = bytes_field(0x0A, val);
    assert(crate::writer::summary_bytes(tag, value, tensor) =~= sum);
    assert(crate::writer::event_bytes(tag, step, wall, value, tensor) =~= fixed_field(
        0x09,
        wire::le_bytes(wall as nat, 8),
    ) + number_field(0x10, step as u64) + bytes_field(0x2A, sum));
}

/// A record is its length in eight bytes, a checksum of that in four, what it
/// holds, and a checksum of that in four.
pub proof fn law_written_record(p: Seq<u8>)
    requires
        p.len() < TWO_POW_64,
    ensures
        ({
            let r = crate::writer::record_bytes(p);
            &&& r.len() == p.len() + 16
            &&& wire::le64_at(r, 0) == p.len()
            &&& wire::le32_at(r, 8) == crate::writer::masked_crc_of(r.take(8))
            &&& r.subrange(12, (12 + p.len()) as int) == p
            &&& wire::le32_at(r, (12 + p.len()) as int) == crate::writer::masked_crc_of(p)
        }),
{
    let r = crate::writer::record_bytes(p);
    let header = wire::le_bytes(p.len(), 8);
    let a = crate::writer::masked_crc_of(header);
    let b = crate::writer::masked_crc_of(p);
    wire::lemma_le_bytes_len(p.len(), 8);
    wire::lemma_le_bytes_len(a as nat, 4);
    wire::lemma_le_bytes_len(b as nat, 4);
    assert(r.take(8) =~= header);
    assert(r.skip(0) =~= header + r.skip(8));
    lemma_eight(p.len() as u64, r.skip(8), r, 0);
    assert(r.skip(8) =~= wire::le_bytes(a as nat, 4) + r.skip(12));
    lemma_four(a, r.skip(12), r, 8);
    assert(r.subrange(12, (12 + p.len()) as int) =~= p);
    assert(r.skip((12 + p.len()) as int) =~= wire::le_bytes(b as nat, 4) + seq![]);
    lemma_four(b, seq![], r, (12 + p.len()) as int);
}

/// Raw content without a type holds no scalar.
pub proof fn law_content_needs_a_type(c: Seq<u8>)
    requires
        c.len() < TWO_POW_64,
    ensures
        tfevents::tensor_value(bytes_field(0x22, c)) == Some(None::<Scalar>),
{
    lemma_bytes_field(0x22, c);
    let b = bytes_field(0x22, c);
    let f = wire::field_at(b, 0)->0;
    assert(wire::fields_from(b, 0) =~= seq![f]);
    assert(seq![f].drop_last() =~= seq![]);
    reveal_with_fuel(tfevents::first_carrier, 3);
    reveal_with_fuel(wire::last_with_key, 3);
}

} // verus!
