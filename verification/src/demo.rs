//! Synthetic logs for trying out the viewer.
use vstd::prelude::*;

use crate::roundtrip;
use crate::tfevents;
use crate::tfevents::Scalar;
use crate::writer;
use crate::writer::{encode_scalar_event, frame_record};

verus! {

// ---------------------------------------------------------------------------
// Random numbers
// ---------------------------------------------------------------------------
/// A small generator, so that demo runs can be made again as they were.
pub struct Rng {
    pub state: u64,
}

/// The state that follows.
pub open spec fn shaken(x: u64) -> u64 {
    let a = x ^ (x << 13u64);
    let b = a ^ (a >> 7u64);
    b ^ (b << 17u64)
}

/// Where the generator starts for a run whose steps start there.
pub open spec fn seeded(seed: u64, start: i64) -> u64 {
    ((seed * 0x9E37_79B9_7F4A_7C15 + (start as u64) + 1) % 0x1_0000_0000_0000_0000) as u64
}

impl Rng {
    pub fn for_run(seed: u64, start: i64) -> (r: Self)
        requires
            start != -1,
        ensures
            r.state == seeded(seed, start),
    {
        assert((start as u64) < u64::MAX) by (bit_vector)
            requires
                start != -1,
        ;
        let state: u64 = seed.wrapping_mul(0x9E37_79B9_7F4A_7C15).wrapping_add(start as u64 + 1);
        proof {
            let p = seed * 0x9E37_79B9_7F4A_7C15;
            let m = 0x1_0000_0000_0000_0000int;
            vstd::arithmetic::div_mod::lemma_add_mod_noop_right((start as u64) + 1, p, m);
        }
        Rng { state }
    }

    pub fn next(&mut self) -> (r: u64)
        ensures
            final(self).state == shaken(old(self).state),
            r == final(self).state,
    {
        let mut x: u64 = self.state;
        x = x ^ (x << 13u64);
        x = x ^ (x >> 7u64);
        x = x ^ (x << 17u64);
        self.state = x;
        x
    }

    /// The next number, as many of its bits as a double-precision fraction
    /// holds.
    pub fn fraction(&mut self) -> (r: u64)
        ensures
            final(self).state == shaken(old(self).state),
            r == shaken(old(self).state) / 2048,
            r < 0x20_0000_0000_0000,
    {
        self.next() / 2048
    }
}

/// The generator never gets stuck: a state that is not zero is followed by one
/// that is not.
pub proof fn law_generator_never_sticks(x: u64)
    requires
        x != 0,
    ensures
        shaken(x) != 0,
{
    let a = x ^ (x << 13u64);
    let b = a ^ (a >> 7u64);
    assert(a != 0) by (bit_vector)
        requires
            a == x ^ (x << 13u64),
            x != 0,
    ;
    assert(b != 0) by (bit_vector)
        requires
            b == a ^ (a >> 7u64),
            a != 0,
    ;
    assert(b ^ (b << 17u64) != 0) by (bit_vector)
        requires
            b != 0,
    ;
}

// ---------------------------------------------------------------------------
// Records
// ---------------------------------------------------------------------------
/// The scalars of one step, by their bits.
#[derive(Clone, Copy, Debug)]
pub struct StepValues {
    pub loss: u32,
    pub accuracy: u32,
    pub lr: u32,
    pub grad_norm: u32,
    /// Only some steps have one.
    pub val_loss: Option<u32>,
}

/// A scalar as a record.
pub open spec fn scalar_record(
    tag: Seq<char>,
    step: i64,
    wall: u64,
    value: u32,
    tensor: bool,
) -> Seq<u8> {
    writer::record_bytes(
        writer::event_bytes(vstd::utf8::encode_utf8(tag), step, wall, value, tensor),
    )
}

/// The validation loss is written every 25 steps.
pub open spec fn validated(step: int) -> bool {
    step % 25 == 0
}

/// The records of one step.
pub open spec fn step_bytes(step: i64, wall: u64, v: StepValues, tensor: bool) -> Seq<u8> {
    scalar_record("train/loss"@, step, wall, v.loss, tensor) + scalar_record(
        "train/accuracy"@,
        step,
        wall,
        v.accuracy,
        tensor,
    ) + scalar_record("train/lr"@, step, wall, v.lr, tensor) + scalar_record(
        "train/grad_norm"@,
        step,
        wall,
        v.grad_norm,
        tensor,
    ) + match v.val_loss {
        Some(x) => scalar_record("val/loss"@, step, wall, x, false),
        None => seq![],
    }
}

/// Whether the validation loss is written at this step.
pub fn is_validated(step: i64) -> (r: bool)
    ensures
        r == validated(step as int),
{
    step % 25 == 0
}

fn append_scalar(out: &mut Vec<u8>, tag: &str, step: i64, wall: u64, value: u32, tensor: bool)
    ensures
        final(out)@ == old(out)@ + scalar_record(tag@, step, wall, value, tensor),
{
    let event: Vec<u8> = encode_scalar_event(tag, step, wall, value, tensor);
    let record: Vec<u8> = frame_record(event.as_slice());
    out.extend_from_slice(record.as_slice());
    assert(out@ =~= old(out)@ + scalar_record(tag@, step, wall, value, tensor));
}

/// Append the records of one step.
pub fn append_step(out: &mut Vec<u8>, step: i64, wall: u64, v: &StepValues, tensor: bool)
    ensures
        final(out)@ == old(out)@ + step_bytes(step, wall, *v, tensor),
{
    append_scalar(out, "train/loss", step, wall, v.loss, tensor);
    append_scalar(out, "train/accuracy", step, wall, v.accuracy, tensor);
    append_scalar(out, "train/lr", step, wall, v.lr, tensor);
    append_scalar(out, "train/grad_norm", step, wall, v.grad_norm, tensor);
    match v.val_loss {
        Some(x) => append_scalar(out, "val/loss", step, wall, x, false),
        None => {},
    }
    assert(out@ =~= old(out)@ + step_bytes(step, wall, *v, tensor));
}

/// A point as it is read back.
pub open spec fn point(tag: Seq<char>, step: i64, wall: u64, value: u32) -> tfevents::PointView {
    tfevents::PointView {
        tag: vstd::utf8::encode_utf8(tag),
        step,
        wall,
        value: Scalar::Single(value),
    }
}

proof fn lemma_record_small(tag: Seq<char>, step: i64, wall: u64, value: u32, tensor: bool)
    requires
        vstd::utf8::encode_utf8(tag).len() <= 100,
    ensures
        writer::event_bytes(vstd::utf8::encode_utf8(tag), step, wall, value, tensor).len()
            <= tfevents::MAX_RECORD,
{
    let t = vstd::utf8::encode_utf8(tag);
    let sum = writer::summary_bytes(t, value, tensor);
    let val = writer::value_bytes(t, value, tensor);
    let tb = writer::tensor_bytes(value);
    crate::wire::lemma_le_bytes_len(value as nat, 4);
    crate::wire::lemma_le_bytes_len(wall as nat, 8);
    crate::wire::lemma_varint_bytes_len(0x08);
    crate::wire::lemma_varint_bytes_len(tfevents::DT_FLOAT as nat);
    crate::wire::lemma_varint_bytes_len(0x22);
    crate::wire::lemma_varint_bytes_len(4);
    crate::wire::lemma_varint_bytes_len(0x42);
    crate::wire::lemma_varint_bytes_len(tb.len());
    crate::wire::lemma_varint_bytes_len(0x15);
    crate::wire::lemma_varint_bytes_len(0x0A);
    crate::wire::lemma_varint_bytes_len(t.len());
    crate::wire::lemma_varint_bytes_len(val.len());
    crate::wire::lemma_varint_bytes_len(sum.len());
    crate::wire::lemma_varint_bytes_len(0x09);
    crate::wire::lemma_varint_bytes_len(0x10);
    crate::wire::lemma_varint_bytes_len((step as u64) as nat);
    crate::wire::lemma_varint_bytes_len(0x2A);
}

/// What a piece of a file holds, read from its start.
#[verifier::opaque]
spec fn held(s: Seq<u8>) -> tfevents::Chunk {
    tfevents::chunk_from(s, 0)
}

/// `whole` is a point and then `after`, which starts so many bytes later.
spec fn follows(
    whole: tfevents::Chunk,
    p: tfevents::PointView,
    len: nat,
    after: tfevents::Chunk,
) -> bool {
    &&& whole.points == seq![p] + after.points
    &&& whole.consumed == len + after.consumed
    &&& whole.corrupt == after.corrupt
}

proof fn lemma_one_scalar(
    tag: Seq<char>,
    step: i64,
    wall: u64,
    value: u32,
    tensor: bool,
    rest: Seq<u8>,
)
    requires
        vstd::utf8::is_ascii_chars(tag),
        tag.len() <= 100,
    ensures
        follows(
            held(scalar_record(tag, step, wall, value, tensor) + rest),
            point(tag, step, wall, value),
            scalar_record(tag, step, wall, value, tensor).len(),
            held(rest),
        ),
{
    reveal(held);
    vstd::utf8::is_ascii_chars_encode_utf8(tag);
    lemma_record_small(tag, step, wall, value, tensor);
    roundtrip::law_written_scalar_is_read(
        vstd::utf8::encode_utf8(tag),
        step,
        wall,
        value,
        tensor,
        rest,
    );
}

proof fn lemma_tags()
    ensures
        vstd::utf8::is_ascii_chars("train/loss"@) && "train/loss"@.len() <= 100,
        vstd::utf8::is_ascii_chars("train/accuracy"@) && "train/accuracy"@.len() <= 100,
        vstd::utf8::is_ascii_chars("train/lr"@) && "train/lr"@.len() <= 100,
        vstd::utf8::is_ascii_chars("train/grad_norm"@) && "train/grad_norm"@.len() <= 100,
        vstd::utf8::is_ascii_chars("val/loss"@) && "val/loss"@.len() <= 100,
{
    reveal_strlit("train/loss");
    reveal_strlit("train/accuracy");
    reveal_strlit("train/lr");
    reveal_strlit("train/grad_norm");
    reveal_strlit("val/loss");
}

/// Four records one after the other.
proof fn lemma_four(
    a: Seq<u8>,
    b: Seq<u8>,
    c: Seq<u8>,
    d: Seq<u8>,
    rest: Seq<u8>,
    p: Seq<tfevents::PointView>,
)
    requires
        p.len() == 4,
        follows(held(a + (b + (c + (d + rest)))), p[0], a.len(), held(b + (c + (d + rest)))),
        follows(held(b + (c + (d + rest))), p[1], b.len(), held(c + (d + rest))),
        follows(held(c + (d + rest)), p[2], c.len(), held(d + rest)),
        follows(held(d + rest), p[3], d.len(), held(rest)),
    ensures
        held(a + b + c + d + rest).points == p + held(rest).points,
        held(a + b + c + d + rest).consumed == (a + b + c + d).len() + held(rest).consumed,
        held(a + b + c + d + rest).corrupt == held(rest).corrupt,
{
    assert(a + b + c + d + rest =~= a + (b + (c + (d + rest))));
    assert(held(a + b + c + d + rest).points =~= p + held(rest).points);
}

proof fn lemma_step_held(step: i64, wall: u64, v: StepValues, tensor: bool, rest: Seq<u8>)
    ensures
        ({
            let bytes = step_bytes(step, wall, v, tensor);
            &&& held(bytes + rest).points == step_points(step, wall, v) + held(rest).points
            &&& held(bytes + rest).consumed == bytes.len() + held(rest).consumed
            &&& held(bytes + rest).corrupt == held(rest).corrupt
        }),
{
    lemma_tags();
    let a = scalar_record("train/loss"@, step, wall, v.loss, tensor);
    let b = scalar_record("train/accuracy"@, step, wall, v.accuracy, tensor);
    let c = scalar_record("train/lr"@, step, wall, v.lr, tensor);
    let d = scalar_record("train/grad_norm"@, step, wall, v.grad_norm, tensor);
    let four = seq![
        point("train/loss"@, step, wall, v.loss),
        point("train/accuracy"@, step, wall, v.accuracy),
        point("train/lr"@, step, wall, v.lr),
        point("train/grad_norm"@, step, wall, v.grad_norm),
    ];
    let (e, last) = match v.val_loss {
        Some(x) => (
            scalar_record("val/loss"@, step, wall, x, false),
            seq![point("val/loss"@, step, wall, x)],
        ),
        None => (Seq::<u8>::empty(), Seq::<tfevents::PointView>::empty()),
    };
    let more = e + rest;
    lemma_one_scalar("train/loss"@, step, wall, v.loss, tensor, b + (c + (d + more)));
    lemma_one_scalar("train/accuracy"@, step, wall, v.accuracy, tensor, c + (d + more));
    lemma_one_scalar("train/lr"@, step, wall, v.lr, tensor, d + more);
    lemma_one_scalar("train/grad_norm"@, step, wall, v.grad_norm, tensor, more);
    lemma_four(a, b, c, d, more, four);
    match v.val_loss {
        Some(x) => {
            lemma_one_scalar("val/loss"@, step, wall, x, false, rest);
        },
        None => {
            assert(more =~= rest);
        },
    }
    lemma_regroup(a + b + c + d, e, rest, four, last);
}

/// Bytes and points behind the first ones.
proof fn lemma_regroup(
    s: Seq<u8>,
    e: Seq<u8>,
    rest: Seq<u8>,
    p: Seq<tfevents::PointView>,
    last: Seq<tfevents::PointView>,
)
    requires
        held(s + (e + rest)).points == p + held(e + rest).points,
        held(s + (e + rest)).consumed == s.len() + held(e + rest).consumed,
        held(s + (e + rest)).corrupt == held(e + rest).corrupt,
        held(e + rest).points == last + held(rest).points,
        held(e + rest).consumed == e.len() + held(rest).consumed,
        held(e + rest).corrupt == held(rest).corrupt,
    ensures
        held(s + e + rest).points == p + last + held(rest).points,
        held(s + e + rest).consumed == (s + e).len() + held(rest).consumed,
        held(s + e + rest).corrupt == held(rest).corrupt,
{
    assert(s + e + rest =~= s + (e + rest));
    assert(held(s + e + rest).points =~= p + last + held(rest).points);
}

/// The points of one step.
pub open spec fn step_points(step: i64, wall: u64, v: StepValues) -> Seq<tfevents::PointView> {
    seq![
        point("train/loss"@, step, wall, v.loss),
        point("train/accuracy"@, step, wall, v.accuracy),
        point("train/lr"@, step, wall, v.lr),
        point("train/grad_norm"@, step, wall, v.grad_norm),
    ] + match v.val_loss {
        Some(x) => seq![point("val/loss"@, step, wall, x)],
        None => seq![],
    }
}

/// A demo log is read back as it was written: the scalars of a step come out
/// in their order, and all of its bytes are consumed.
pub proof fn law_demo_step_is_read(
    step: i64,
    wall: u64,
    v: StepValues,
    tensor: bool,
    rest: Seq<u8>,
)
    ensures
        ({
            let bytes = step_bytes(step, wall, v, tensor);
            let whole = tfevents::chunk_from(bytes + rest, 0);
            let after = tfevents::chunk_from(rest, 0);
            &&& whole.points == step_points(step, wall, v) + after.points
            &&& whole.consumed == bytes.len() + after.consumed
            &&& whole.corrupt == after.corrupt
        }),
{
    reveal(held);
    lemma_step_held(step, wall, v, tensor, rest);
}


/// A step writes the training loss, the accuracy, the learning rate and the
/// gradient norm, in this order and each under its tag, and the validation loss
/// behind them where there is one, which is at every twenty-fifth step.
pub proof fn law_demo_tags(step: i64, wall: u64, v: StepValues)
    ensures
        ({
            let ps = step_points(step, wall, v);
            &&& ps.len() == if v.val_loss is Some {
                5int
            } else {
                4
            }
            &&& forall|i: int|
                0 <= i < ps.len() ==> (#[trigger] ps[i]).step == step && ps[i].wall == wall
            &&& ps[0].tag == vstd::utf8::encode_utf8("train/loss"@) && ps[0].value
                == Scalar::Single(v.loss)
            &&& ps[1].tag == vstd::utf8::encode_utf8("train/accuracy"@) && ps[1].value
                == Scalar::Single(v.accuracy)
            &&& ps[2].tag == vstd::utf8::encode_utf8("train/lr"@) && ps[2].value == Scalar::Single(
                v.lr,
            )
            &&& ps[3].tag == vstd::utf8::encode_utf8("train/grad_norm"@) && ps[3].value
                == Scalar::Single(v.grad_norm)
            &&& v.val_loss matches Some(x) ==> ps[4].tag == vstd::utf8::encode_utf8("val/loss"@)
                && ps[4].value == Scalar::Single(x)
        }),
        forall|k: int| #[trigger] validated(25 * k),
        forall|k: int, r: int| 0 < r < 25 ==> !#[trigger] validated(25 * k + r),
{
}

} // verus!
