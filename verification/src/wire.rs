//! The protobuf wire format, as far as event files need it: little-endian
//! numbers, base-128 varints, and the fields of a message.
use vstd::prelude::*;

verus! {

/// Bytes that are not a message of the expected shape.
#[derive(Debug)]
pub struct ParseError;

pub type PResult<T> = Result<T, ParseError>;

/// Two to the sixty-fourth: varints are read modulo this.
pub const TWO_POW_64: u128 = 0x1_0000_0000_0000_0000;

// ---------------------------------------------------------------------------
// Little-endian numbers
// ---------------------------------------------------------------------------
/// The number whose base-256 digits, least significant first, are `s`.
pub open spec fn le_nat(s: Seq<u8>) -> nat
    decreases s.len(),
{
    if s.len() == 0 {
        0
    } else {
        s[0] as nat + 256 * le_nat(s.drop_first())
    }
}

/// The `len` lowest base-256 digits of `n`, least significant first.
pub open spec fn le_bytes(n: nat, len: nat) -> Seq<u8>
    decreases len,
{
    if len == 0 {
        seq![]
    } else {
        seq![(n % 256) as u8] + le_bytes(n / 256, (len - 1) as nat)
    }
}

/// The four bytes of `s` at `pos`, as a number.
pub open spec fn le32_at(s: Seq<u8>, pos: int) -> u32 {
    le_nat(s.subrange(pos, pos + 4)) as u32
}

/// The eight bytes of `s` at `pos`, as a number.
pub open spec fn le64_at(s: Seq<u8>, pos: int) -> u64 {
    le_nat(s.subrange(pos, pos + 8)) as u64
}

pub open spec fn pow256(n: nat) -> nat
    decreases n,
{
    if n == 0 {
        1
    } else {
        256 * pow256((n - 1) as nat)
    }
}

pub proof fn lemma_pow256_values()
    ensures
        pow256(0) == 1,
        pow256(1) == 0x100,
        pow256(4) == 0x1_0000_0000,
        pow256(8) == 0x1_0000_0000_0000_0000,
{
    reveal_with_fuel(pow256, 9);
}

pub proof fn lemma_le_nat_bound(s: Seq<u8>)
    ensures
        le_nat(s) < pow256(s.len()),
    decreases s.len(),
{
    if s.len() > 0 {
        lemma_le_nat_bound(s.drop_first());
    }
}

pub proof fn lemma_le_bytes_len(n: nat, len: nat)
    ensures
        le_bytes(n, len).len() == len,
    decreases len,
{
    if len > 0 {
        lemma_le_bytes_len(n / 256, (len - 1) as nat);
    }
}

/// Writing a number and reading it back gives the number.
pub proof fn lemma_le_roundtrip(n: nat, len: nat)
    requires
        n < pow256(len),
    ensures
        le_bytes(n, len).len() == len,
        le_nat(le_bytes(n, len)) == n,
    decreases len,
{
    if len > 0 {
        lemma_le_roundtrip(n / 256, (len - 1) as nat);
        let rest = le_bytes(n / 256, (len - 1) as nat);
        let all = le_bytes(n, len);
        assert(all.drop_first() =~= rest);
        assert(all[0] == (n % 256) as u8);
    }
}

/// Appending a digit on the most significant side.
proof fn lemma_le_nat_push(s: Seq<u8>, b: u8)
    ensures
        le_nat(s.push(b)) == le_nat(s) + pow256(s.len()) * b,
    decreases s.len(),
{
    if s.len() == 0 {
        assert(s.push(b).drop_first() =~= Seq::<u8>::empty());
        reveal_with_fuel(le_nat, 2);
        assert(1 * b == b);
        assert(pow256(0) * b == b) by (nonlinear_arith)
            requires
                pow256(0) == 1,
        ;
    } else {
        assert(s.push(b).drop_first() =~= s.drop_first().push(b));
        lemma_le_nat_push(s.drop_first(), b);
        let p = pow256((s.len() - 1) as nat);
        assert(pow256(s.len()) == 256 * p);
        assert(256 * (p * b) == (256 * p) * b) by (nonlinear_arith);
        assert(s.push(b)[0] == s[0]);
    }
}

/// Four little-endian bytes at `pos`.
pub fn get_le32(buf: &[u8], pos: usize) -> (r: PResult<u32>)
    ensures
        r is Ok <==> pos + 4 <= buf@.len(),
        r matches Ok(v) ==> v == le32_at(buf@, pos as int),
{
    if pos > buf.len() || buf.len() - pos < 4 {
        return Err(ParseError);
    }
    let mut v: u32 = 0;
    let mut place: u32 = 1;
    let mut i: usize = 0;
    proof {
        lemma_pow256_values();
        assert(buf@.subrange(pos as int, pos as int) =~= Seq::<u8>::empty());
    }
    while i < 4
        invariant
            i <= 4,
            pos + 4 <= buf.len(),
            v == le_nat(buf@.subrange(pos as int, pos + i)),
            i < 4 ==> place == pow256(i as nat),
            pow256(1) == 0x100,
            pow256(4) == 0x1_0000_0000,
        decreases 4 - i,
    {
        let b: u8 = buf[pos + i];
        proof {
            let s = buf@.subrange(pos as int, pos + i);
            assert(buf@.subrange(pos as int, pos + i + 1) =~= s.push(b));
            lemma_le_nat_push(s, b);
            lemma_le_nat_bound(s);
            lemma_le_nat_bound(s.push(b));
            reveal_with_fuel(pow256, 5);
            assert(place * b <= 255 * place) by (nonlinear_arith)
                requires
                    b <= 255,
            ;
            assert(place * b == b * place) by (nonlinear_arith);
        }
        v = v + b as u32 * place;
        if i < 3 {
            place = place * 256;
        }
        i = i + 1;
    }
    Ok(v)
}

/// Eight little-endian bytes at `pos`.
pub fn get_le64(buf: &[u8], pos: usize) -> (r: PResult<u64>)
    ensures
        r is Ok <==> pos + 8 <= buf@.len(),
        r matches Ok(v) ==> v == le64_at(buf@, pos as int),
{
    if pos > buf.len() || buf.len() - pos < 8 {
        return Err(ParseError);
    }
    let mut v: u64 = 0;
    let mut place: u64 = 1;
    let mut i: usize = 0;
    proof {
        lemma_pow256_values();
        assert(buf@.subrange(pos as int, pos as int) =~= Seq::<u8>::empty());
    }
    while i < 8
        invariant
            i <= 8,
            pos + 8 <= buf.len(),
            v == le_nat(buf@.subrange(pos as int, pos + i)),
            i < 8 ==> place == pow256(i as nat),
            pow256(1) == 0x100,
            pow256(8) == 0x1_0000_0000_0000_0000,
        decreases 8 - i,
    {
        let b: u8 = buf[pos + i];
        proof {
            let s = buf@.subrange(pos as int, pos + i);
            assert(buf@.subrange(pos as int, pos + i + 1) =~= s.push(b));
            lemma_le_nat_push(s, b);
            lemma_le_nat_bound(s);
            lemma_le_nat_bound(s.push(b));
            reveal_with_fuel(pow256, 9);
            assert(place * b <= 255 * place) by (nonlinear_arith)
                requires
                    b <= 255,
            ;
            assert(place * b == b * place) by (nonlinear_arith);
        }
        v = v + b as u64 * place;
        if i < 7 {
            place = place * 256;
        }
        i = i + 1;
    }
    Ok(v)
}

/// Append the `len` lowest base-256 digits of `n`.
pub fn put_le(out: &mut Vec<u8>, n: u64, len: usize)
    ensures
        final(out)@ == old(out)@ + le_bytes(n as nat, len as nat),
{
    let mut rest: u64 = n;
    let mut i: usize = 0;
    assert(old(out)@ + Seq::<u8>::empty() =~= old(out)@);
    while i < len
        invariant
            i <= len,
            out@ + le_bytes(rest as nat, (len - i) as nat) =~= old(out)@ + le_bytes(
                n as nat,
                len as nat,
            ),
        decreases len - i,
    {
        proof {
            assert(le_bytes(rest as nat, (len - i) as nat) == seq![(rest % 256) as u8] + le_bytes(
                (rest / 256) as nat,
                (len - i - 1) as nat,
            ));
        }
        out.push((rest % 256) as u8);
        rest = rest / 256;
        i = i + 1;
    }
}

// ---------------------------------------------------------------------------
// Varints
// ---------------------------------------------------------------------------
/// The number whose base-128 digits, least significant first, are the low
/// seven bits of the bytes of `s`.
pub open spec fn base128(s: Seq<u8>) -> nat
    decreases s.len(),
{
    if s.len() == 0 {
        0
    } else {
        (s[0] % 128) as nat + 128 * base128(s.drop_first())
    }
}

/// How many bytes in a row, from `pos` on, say that another one follows.
pub open spec fn continued(s: Seq<u8>, pos: int) -> nat
    decreases s.len() - pos,
{
    if 0 <= pos < s.len() && s[pos] >= 128 {
        1 + continued(s, pos + 1)
    } else {
        0
    }
}

/// The varint at `pos` and the position behind it: at most ten bytes, all
/// but the last with the high bit set. Its value is taken modulo 2^64.
#[verifier::opaque]
pub open spec fn varint_at(s: Seq<u8>, pos: int) -> Option<(u64, int)> {
    let n = continued(s, pos) + 1;
    if 0 <= pos && n <= 10 && pos + n <= s.len() {
        Some(((base128(s.subrange(pos, pos + n)) % (TWO_POW_64 as nat)) as u64, pos + n))
    } else {
        None
    }
}

/// How far a reader gets into bytes at `pos` that are no varint: over the
/// bytes that promise another one, and never over more than ten.
pub open spec fn varint_stop(s: Seq<u8>, pos: int) -> int {
    if continued(s, pos) < 10 {
        continued(s, pos) as int
    } else {
        10
    }
}

/// The shortest encoding of `v` as a varint.
pub open spec fn varint_bytes(v: nat) -> Seq<u8>
    decreases v,
{
    if v < 128 {
        seq![v as u8]
    } else {
        seq![(v % 128 + 128) as u8] + varint_bytes(v / 128)
    }
}

pub open spec fn pow128(n: nat) -> nat
    decreases n,
{
    if n == 0 {
        1
    } else {
        128 * pow128((n - 1) as nat)
    }
}

proof fn lemma_pow128_values()
    ensures
        pow128(0) == 1,
        pow128(9) == 0x8000_0000_0000_0000,
        pow128(10) == 0x40_0000_0000_0000_0000,
{
    reveal_with_fuel(pow128, 11);
}

proof fn lemma_base128_bound(s: Seq<u8>)
    ensures
        base128(s) < pow128(s.len()),
    decreases s.len(),
{
    if s.len() > 0 {
        lemma_base128_bound(s.drop_first());
    }
}

proof fn lemma_base128_push(s: Seq<u8>, b: u8)
    ensures
        base128(s.push(b)) == base128(s) + pow128(s.len()) * (b % 128),
    decreases s.len(),
{
    let d: int = (b % 128) as int;
    if s.len() == 0 {
        assert(s.push(b).drop_first() =~= Seq::<u8>::empty());
        reveal_with_fuel(base128, 2);
        assert(pow128(0) * d == d) by (nonlinear_arith)
            requires
                pow128(0) == 1,
        ;
    } else {
        assert(s.push(b).drop_first() =~= s.drop_first().push(b));
        lemma_base128_push(s.drop_first(), b);
        let p = pow128((s.len() - 1) as nat);
        assert(pow128(s.len()) == 128 * p);
        assert(128 * (p * d) == (128 * p) * d) by (nonlinear_arith);
        assert(s.push(b)[0] == s[0]);
    }
}

/// `k` continuation bytes from `pos` on, with something else behind them.
proof fn lemma_continued_exact(s: Seq<u8>, pos: int, k: nat)
    requires
        0 <= pos,
        pos + k <= s.len(),
        forall|j: int| pos <= j < pos + k ==> s[j] >= 128,
        pos + k == s.len() || s[pos + k] < 128,
    ensures
        continued(s, pos) == k,
    decreases k,
{
    if k > 0 {
        lemma_continued_exact(s, pos + 1, (k - 1) as nat);
    }
}

proof fn lemma_continued_at_least(s: Seq<u8>, pos: int, k: nat)
    requires
        0 <= pos,
        pos + k <= s.len(),
        forall|j: int| pos <= j < pos + k ==> s[j] >= 128,
    ensures
        continued(s, pos) >= k,
    decreases k,
{
    if k > 0 {
        lemma_continued_at_least(s, pos + 1, (k - 1) as nat);
    }
}

/// Read the varint at `*pos` and move behind it.
pub fn read_varint(buf: &[u8], pos: &mut usize) -> (r: PResult<u64>)
    ensures
        match varint_at(buf@, *old(pos) as int) {
            Some((v, end)) => r == Ok::<u64, ParseError>(v) && *final(pos) == end,
            None => r is Err && *final(pos) == *old(pos) + varint_stop(buf@, *old(pos) as int),
        },
{
    let start: usize = *pos;
    let mut result: u64 = 0;
    let mut place: u64 = 1;
    let mut i: usize = 0;
    reveal(varint_at);
    proof {
        lemma_pow128_values();
        if start <= buf@.len() {
            assert(buf@.subrange(start as int, start as int) =~= Seq::<u8>::empty());
        }
    }
    while i < 10
        invariant
            i <= 10,
            start == *old(pos),
            *pos == start + i,
            i > 0 ==> start + i <= buf.len(),
            i < 10 && start <= buf@.len() ==> result == base128(
                buf@.subrange(start as int, start + i),
            ),
            i < 10 ==> place == pow128(i as nat),
            forall|j: int| start <= j < start + i ==> buf@[j] >= 128,
            pow128(0) == 1,
            pow128(9) == 0x8000_0000_0000_0000,
        decreases 10 - i,
    {
        reveal(varint_at);
        if *pos >= buf.len() {
            proof {
                if start <= buf@.len() {
                    lemma_continued_exact(buf@, start as int, i as nat);
                }
            }
            return Err(ParseError);
        }
        let b: u8 = buf[*pos];
        let ghost s = buf@.subrange(start as int, start + i);
        let digit: u64 = (b % 128) as u64;
        proof {
            assert(buf@.subrange(start as int, start + i + 1) =~= s.push(b));
            lemma_base128_push(s, b);
            lemma_base128_bound(s);
            lemma_base128_bound(s.push(b));
            reveal_with_fuel(pow128, 11);
            assert(place * digit == digit * place) by (nonlinear_arith);
        }
        if i < 9 {
            proof {
                assert(digit * place <= 127 * place) by (nonlinear_arith)
                    requires
                        digit <= 127,
                ;
                assert(place <= 0x100_0000_0000_0000);
            }
            result = result + digit * place;
            place = place * 128;
        } else {
            // only the lowest bit of the tenth digit is left modulo 2^64
            let ghost before = result;
            result = result + (digit % 2) * place;
            proof {
                let full: int = before + digit * 0x8000_0000_0000_0000;
                assert(full == result + (digit / 2) * TWO_POW_64);
                assert(full % (TWO_POW_64 as int) == result) by {
                    vstd::arithmetic::div_mod::lemma_fundamental_div_mod_converse(
                        full,
                        TWO_POW_64 as int,
                        (digit / 2) as int,
                        result as int,
                    );
                }
            }
        }
        *pos = *pos + 1;
        if b < 128 {
            proof {
                lemma_continued_exact(buf@, start as int, i as nat);
            }
            return Ok(result);
        }
        i = i + 1;
    }
    proof {
        lemma_continued_at_least(buf@, start as int, 10);
    }
    Err(ParseError)
}

/// Read a field key. Most keys are varints of one byte.
pub fn read_key(buf: &[u8], pos: &mut usize) -> (r: PResult<u64>)
    ensures
        match varint_at(buf@, *old(pos) as int) {
            Some((v, end)) => r == Ok::<u64, ParseError>(v) && *final(pos) == end,
            None => r is Err && *final(pos) == *old(pos) + varint_stop(buf@, *old(pos) as int),
        },
{
    reveal(varint_at);
    if *pos >= buf.len() {
        return Err(ParseError);
    }
    let b: u8 = buf[*pos];
    if b < 128 {
        proof {
            let one = buf@.subrange(*pos as int, *pos + 1);
            assert(one.drop_first() =~= Seq::<u8>::empty());
            reveal_with_fuel(base128, 2);
        }
        *pos = *pos + 1;
        Ok(b as u64)
    } else {
        read_varint(buf, pos)
    }
}

/// Append the shortest varint of `v`.
pub fn put_varint(out: &mut Vec<u8>, v: u64)
    ensures
        final(out)@ == old(out)@ + varint_bytes(v as nat),
{
    let mut rest: u64 = v;
    while rest >= 128
        invariant
            out@ + varint_bytes(rest as nat) =~= old(out)@ + varint_bytes(v as nat),
        decreases rest,
    {
        out.push((rest % 128 + 128) as u8);
        rest = rest / 128;
    }
    out.push(rest as u8);
}

/// A varint is between one and ten bytes long for a 64-bit value.
pub proof fn lemma_varint_bytes_len(v: nat)
    ensures
        1 <= varint_bytes(v).len(),
        v < TWO_POW_64 ==> varint_bytes(v).len() <= 10,
{
    lemma_varint_shape(v);
    lemma_pow128_values();
    if v < TWO_POW_64 {
        lemma_varint_len_bound(v, 10);
    }
}

proof fn lemma_varint_len_bound(v: nat, k: nat)
    requires
        k >= 1,
        v < pow128(k),
    ensures
        varint_bytes(v).len() <= k,
    decreases k,
{
    if v >= 128 {
        assert(k >= 2) by {
            if k == 1 {
                reveal_with_fuel(pow128, 2);
            }
        }
        lemma_varint_len_bound(v / 128, (k - 1) as nat);
    }
}

/// What the encoding of a number looks like and stands for.
proof fn lemma_varint_shape(v: nat)
    ensures
        varint_bytes(v).len() >= 1,
        varint_bytes(v).last() < 128,
        forall|j: int| 0 <= j < varint_bytes(v).len() - 1 ==> varint_bytes(v)[j] >= 128,
        base128(varint_bytes(v)) == v,
    decreases v,
{
    let s = varint_bytes(v);
    if v < 128 {
        assert(s.drop_first() =~= Seq::<u8>::empty());
        reveal_with_fuel(base128, 2);
    } else {
        lemma_varint_shape(v / 128);
        assert(s.drop_first() =~= varint_bytes(v / 128));
        assert forall|j: int| 0 <= j < s.len() - 1 implies s[j] >= 128 by {
            if j > 0 {
                assert(s[j] == varint_bytes(v / 128)[j - 1]);
            }
        }
        assert(s.last() == varint_bytes(v / 128).last());
    }
}

/// Reading a written varint, whatever stands before and behind it, gives the
/// number and the position behind it.
pub proof fn lemma_varint_roundtrip(before: Seq<u8>, v: u64, behind: Seq<u8>)
    ensures
        varint_at(before + varint_bytes(v as nat) + behind, before.len() as int) == Some(
            (v, (before.len() + varint_bytes(v as nat).len()) as int),
        ),
{
    reveal(varint_at);
    let enc = varint_bytes(v as nat);
    let s = before + enc + behind;
    let pos = before.len() as int;
    lemma_varint_shape(v as nat);
    lemma_varint_bytes_len(v as nat);
    assert forall|j: int| pos <= j < pos + enc.len() - 1 implies s[j] >= 128 by {
        assert(s[j] == enc[j - pos]);
    }
    assert(s[pos + enc.len() - 1] == enc.last());
    lemma_continued_exact(s, pos, (enc.len() - 1) as nat);
    assert(s.subrange(pos, pos + enc.len()) =~= enc);
}

// ---------------------------------------------------------------------------
// Fields
// ---------------------------------------------------------------------------
/// One field of a message: its key (field number and wire type), the value
/// of its varint or of its length, and where its payload starts and ends.
pub struct Field {
    pub key: u64,
    pub num: u64,
    pub start: int,
    pub end: int,
}

/// The field at `pos`, if a whole one stands there. The three lowest bits of
/// the key say how the payload is laid out: a varint, eight bytes, a length
/// and as many bytes, or four bytes.
pub open spec fn field_at(s: Seq<u8>, pos: int) -> Option<Field> {
    match varint_at(s, pos) {
        None => None,
        Some((key, p)) => payload_at(s, key, p),
    }
}

/// The payload of a field with that key, from `p` on.
pub open spec fn payload_at(s: Seq<u8>, key: u64, p: int) -> Option<Field> {
    let wire_type = key % 8;
    if wire_type == 0 {
        match varint_at(s, p) {
            None => None,
            Some((v, end)) => Some(Field { key, num: v, start: p, end }),
        }
    } else if wire_type == 1 {
        if p + 8 <= s.len() {
            Some(Field { key, num: 0, start: p, end: p + 8 })
        } else {
            None
        }
    } else if wire_type == 2 {
        match varint_at(s, p) {
            None => None,
            Some((n, q)) => if q + n <= s.len() {
                Some(Field { key, num: n, start: q, end: q + n })
            } else {
                None
            },
        }
    } else if wire_type == 5 {
        if p + 4 <= s.len() {
            Some(Field { key, num: 0, start: p, end: p + 4 })
        } else {
            None
        }
    } else {
        None
    }
}

/// The fields from `pos` on, up to the end or to the first place where no
/// whole field stands.
pub open spec fn fields_from(s: Seq<u8>, pos: int) -> Seq<Field>
    decreases s.len() - pos,
{
    match field_at(s, pos) {
        None => seq![],
        Some(f) => if 0 <= pos < f.end <= s.len() {
            seq![f] + fields_from(s, f.end)
        } else {
            seq![]
        },
    }
}

/// Whole fields, one behind the other, fill `s` from `pos` on.
pub open spec fn well_formed(s: Seq<u8>, pos: int) -> bool
    decreases s.len() - pos,
{
    if 0 <= pos < s.len() {
        match field_at(s, pos) {
            None => false,
            Some(f) => pos < f.end <= s.len() && well_formed(s, f.end),
        }
    } else {
        pos == s.len()
    }
}

/// The payload of `f`.
pub open spec fn payload(s: Seq<u8>, f: Field) -> Seq<u8> {
    s.subrange(f.start, f.end)
}

/// The last of the fields with that key.
pub open spec fn last_with_key(fs: Seq<Field>, key: u64) -> Option<Field>
    decreases fs.len(),
{
    if fs.len() == 0 {
        None
    } else if fs.last().key == key {
        Some(fs.last())
    } else {
        last_with_key(fs.drop_last(), key)
    }
}

pub proof fn lemma_field_bounds(s: Seq<u8>, pos: int)
    ensures
        field_at(s, pos) matches Some(f) ==> 0 <= pos < f.start <= f.end <= s.len(),
{
    reveal(varint_at);
}

/// One step of reading a message: the field at `pos` comes first, and the
/// rest follows behind it.
pub proof fn lemma_step(s: Seq<u8>, pos: int)
    requires
        0 <= pos < s.len(),
    ensures
        field_at(s, pos) matches Some(f) ==> {
            &&& fields_from(s, pos) == seq![f] + fields_from(s, f.end)
            &&& well_formed(s, pos) == well_formed(s, f.end)
        },
        field_at(s, pos) is None ==> {
            &&& fields_from(s, pos) == Seq::<Field>::empty()
            &&& !well_formed(s, pos)
        },
{
    lemma_field_bounds(s, pos);
}

pub proof fn lemma_last_with_key_push(fs: Seq<Field>, f: Field, key: u64)
    ensures
        last_with_key(fs.push(f), key) == if f.key == key {
            Some(f)
        } else {
            last_with_key(fs, key)
        },
{
    assert(fs.push(f).drop_last() =~= fs);
}

/// Move over the payload of a field with that wire type.
pub fn skip_field(buf: &[u8], pos: &mut usize, wire_type: u64) -> (r: PResult<()>)
    ensures
        wire_type != 0 && wire_type != 1 && wire_type != 2 && wire_type != 5 ==> r is Err
            && *final(pos) == *old(pos),
        wire_type < 8 ==> match payload_at(buf@, wire_type, *old(pos) as int) {
            Some(f) => r is Ok && *final(pos) == f.end,
            None => r is Err,
        },
        r is Ok ==> *old(pos) < *final(pos) <= buf@.len(),
{
    proof {
        reveal(varint_at);
    }
    match wire_type {
        0 => {
            read_varint(buf, pos)?;
        },
        1 => {
            return skip_bytes(buf, pos, 8);
        },
        2 => {
            let n: u64 = read_varint(buf, pos)?;
            return skip_bytes(buf, pos, n);
        },
        5 => {
            return skip_bytes(buf, pos, 4);
        },
        _ => {
            return Err(ParseError);
        },
    }
    Ok(())
}

/// Move over `n` bytes, if there are so many left.
pub fn skip_bytes(buf: &[u8], pos: &mut usize, n: u64) -> (r: PResult<()>)
    ensures
        r is Ok <==> *old(pos) + n <= buf@.len(),
        r is Ok ==> *final(pos) == *old(pos) + n,
        r is Err ==> *final(pos) == *old(pos),
{
    if *pos > buf.len() {
        return Err(ParseError);
    }
    let left: usize = buf.len() - *pos;
    if n > left as u64 {
        return Err(ParseError);
    }
    *pos = *pos + n as usize;
    Ok(())
}

/// Read a length and the bytes that follow it.
pub fn read_bytes<'a>(buf: &'a [u8], pos: &mut usize) -> (r: PResult<&'a [u8]>)
    ensures
        match payload_at(buf@, 2, *old(pos) as int) {
            Some(f) => r is Ok && r->Ok_0@ == payload(buf@, f) && *final(pos) == f.end,
            None => r is Err,
        },
{
    let n: u64 = read_varint(buf, pos)?;
    let start: usize = *pos;
    skip_bytes(buf, pos, n)?;
    Ok(vstd::slice::slice_subrange(buf, start, *pos))
}

} // verus!
