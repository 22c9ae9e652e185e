//! Reader of TensorBoard event files.
//!
//! An event file is a sequence of framed records; each holds an Event
//! message, and an event may hold a summary with scalar values. Both classic
//! `simple_value` scalars and tensor-encoded ones are understood. Everything
//! else is skipped without being decoded.
use vstd::prelude::*;

use crate::wire;
use crate::wire::{get_le32, get_le64, read_bytes, read_key, read_varint, skip_bytes, skip_field};
use crate::wire::{PResult, ParseError};

verus! {

// Tensor element types that a scalar can be read out of.
pub const DT_FLOAT: u64 = 1;

pub const DT_DOUBLE: u64 = 2;

pub const DT_INT32: u64 = 3;

pub const DT_INT64: u64 = 9;

/// A scalar as it stands in a file: the bits of a single- or double-precision
/// number, or an integer.
#[derive(Clone, Copy, PartialEq, Eq, Structural, Debug)]
pub enum Scalar {
    Single(u32),
    Double(u64),
    Int(i64),
}

/// A scalar of a series: its tag, its step, the bits of its wall time, and
/// its value.
#[derive(Clone, Copy, Debug)]
pub struct Point<'a> {
    pub tag: &'a [u8],
    pub step: i64,
    pub wall: u64,
    pub value: Scalar,
}

pub struct PointView {
    pub tag: Seq<u8>,
    pub step: i64,
    pub wall: u64,
    pub value: Scalar,
}

impl<'a> View for Point<'a> {
    type V = PointView;

    open spec fn view(&self) -> PointView {
        PointView { tag: self.tag@, step: self.step, wall: self.wall, value: self.value }
    }
}

/// The points as values.
pub open spec fn point_views(points: Seq<Point<'_>>) -> Seq<PointView> {
    Seq::new(points.len(), |i: int| points[i]@)
}

// ---------------------------------------------------------------------------
// Tensors
// ---------------------------------------------------------------------------
/// This field of a tensor holds at least one element.
pub open spec fn carries_value(f: wire::Field) -> bool {
    ||| f.key == 0x2D || f.key == 0x31 || f.key == 0x38 || f.key == 0x50
    ||| f.key == 0x2A && f.num >= 4
    ||| f.key == 0x32 && f.num >= 8
    ||| (f.key == 0x3A || f.key == 0x52) && f.num > 0
}

/// The first element that the field holds: single or double precision,
/// packed or not, or an integer, packed or not.
pub open spec fn element(s: Seq<u8>, f: wire::Field) -> Option<Scalar> {
    if f.key == 0x2A || f.key == 0x2D {
        Some(Scalar::Single(wire::le32_at(s, f.start)))
    } else if f.key == 0x32 || f.key == 0x31 {
        Some(Scalar::Double(wire::le64_at(s, f.start)))
    } else if f.key == 0x38 || f.key == 0x50 {
        Some(Scalar::Int(f.num as i64))
    } else {
        match wire::varint_at(s, f.start) {
            Some((v, _)) => Some(Scalar::Int(v as i64)),
            None => None,
        }
    }
}

/// The first field that holds an element.
pub open spec fn first_carrier(fs: Seq<wire::Field>) -> Option<wire::Field>
    decreases fs.len(),
{
    if fs.len() == 0 {
        None
    } else {
        match first_carrier(fs.drop_last()) {
            Some(f) => Some(f),
            None => if carries_value(fs.last()) {
                Some(fs.last())
            } else {
                None
            },
        }
    }
}

/// The first element of raw tensor content of that element type.
pub open spec fn content_scalar(dtype: u64, c: Seq<u8>) -> Option<Scalar> {
    if dtype == DT_FLOAT && c.len() >= 4 {
        Some(Scalar::Single(wire::le32_at(c, 0)))
    } else if dtype == DT_DOUBLE && c.len() >= 8 {
        Some(Scalar::Double(wire::le64_at(c, 0)))
    } else if dtype == DT_INT32 && c.len() >= 4 {
        Some(Scalar::Int((wire::le32_at(c, 0) as i32) as i64))
    } else if dtype == DT_INT64 && c.len() >= 8 {
        Some(Scalar::Int(wire::le64_at(c, 0) as i64))
    } else {
        None
    }
}

/// The scalar in a tensor message: the first element of the first field that
/// holds one, else the first element of the raw content. `None` outside
/// stands for bytes that are no such message, inside for no scalar.
pub open spec fn tensor_value(s: Seq<u8>) -> Option<Option<Scalar>> {
    let fs = wire::fields_from(s, 0);
    if !wire::well_formed(s, 0) {
        None
    } else {
        match first_carrier(fs) {
            Some(f) => match element(s, f) {
                Some(v) => Some(Some(v)),
                None => None,
            },
            None => match wire::last_with_key(fs, 0x22) {
                Some(c) => Some(content_scalar(dtype_of(fs), wire::payload(s, c))),
                None => Some(None),
            },
        }
    }
}

/// The element type that a tensor declares.
pub open spec fn dtype_of(fs: Seq<wire::Field>) -> u64 {
    match wire::last_with_key(fs, 0x08) {
        Some(f) => f.num,
        None => 0,
    }
}

proof fn lemma_first_carrier_push(fs: Seq<wire::Field>, f: wire::Field)
    ensures
        first_carrier(fs.push(f)) == match first_carrier(fs) {
            Some(g) => Some(g),
            None => if carries_value(f) {
                Some(f)
            } else {
                None
            },
        },
{
    assert(fs.push(f).drop_last() =~= fs);
}

proof fn lemma_first_carrier_prefix(fs: Seq<wire::Field>, more: Seq<wire::Field>)
    ensures
        first_carrier(fs) is Some ==> first_carrier(fs + more) == first_carrier(fs),
    decreases more.len(),
{
    if more.len() == 0 {
        assert(fs + more =~= fs);
    } else {
        lemma_first_carrier_prefix(fs, more.drop_last());
        assert((fs + more).drop_last() =~= fs + more.drop_last());
    }
}

/// Read a field of a tensor behind its key, and its first element where one
/// is wanted and the field holds one.
pub fn read_element(buf: &[u8], pos: &mut usize, key: u64, wanted: bool) -> (r: PResult<
    Option<Scalar>,
>)
    ensures
        match wire::payload_at(buf@, key, *old(pos) as int) {
            None => r is Err,
            Some(f) => if wanted && carries_value(f) {
                match element(buf@, f) {
                    Some(v) => r == Ok::<Option<Scalar>, ParseError>(Some(v)) && *final(pos)
                        == f.end,
                    None => r is Err,
                }
            } else {
                r == Ok::<Option<Scalar>, ParseError>(None) && *final(pos) == f.end
            },
        },
{
    let mut value: Option<Scalar> = None;
    if key == 0x2A {
        let ln: u64 = read_varint(buf, pos)?;
        if wanted && ln >= 4 {
            value = Some(Scalar::Single(get_le32(buf, *pos)?));
        }
        skip_bytes(buf, pos, ln)?;
    } else if key == 0x2D {
        if wanted {
            value = Some(Scalar::Single(get_le32(buf, *pos)?));
        }
        skip_bytes(buf, pos, 4)?;
    } else if key == 0x32 {
        let ln: u64 = read_varint(buf, pos)?;
        if wanted && ln >= 8 {
            value = Some(Scalar::Double(get_le64(buf, *pos)?));
        }
        skip_bytes(buf, pos, ln)?;
    } else if key == 0x31 {
        if wanted {
            value = Some(Scalar::Double(get_le64(buf, *pos)?));
        }
        skip_bytes(buf, pos, 8)?;
    } else if key == 0x3A || key == 0x52 {
        let ln: u64 = read_varint(buf, pos)?;
        if wanted && ln > 0 {
            let mut p: usize = *pos;
            let v: u64 = read_varint(buf, &mut p)?;
            value = Some(Scalar::Int(v as i64));
        }
        skip_bytes(buf, pos, ln)?;
    } else if key == 0x38 || key == 0x50 {
        let v: u64 = read_varint(buf, pos)?;
        if wanted {
            value = Some(Scalar::Int(v as i64));
        }
    } else {
        skip_field(buf, pos, key % 8)?;
    }
    Ok(value)
}

/// Read the scalar out of a tensor message.
pub fn tensor_scalar(buf: &[u8]) -> (r: PResult<Option<Scalar>>)
    ensures
        match tensor_value(buf@) {
            Some(v) => r == Ok::<Option<Scalar>, ParseError>(v),
            None => r is Err,
        },
{
    let mut pos: usize = 0;
    let mut dtype: u64 = 0;
    let mut content: Option<&[u8]> = None;
    let mut value: Option<Scalar> = None;
    let ghost mut done: Seq<wire::Field> = seq![];
    assert(seq![] + wire::fields_from(buf@, 0) =~= wire::fields_from(buf@, 0));
    while pos < buf.len()
        invariant
            pos <= buf.len(),
            wire::fields_from(buf@, 0) == done + wire::fields_from(buf@, pos as int),
            wire::well_formed(buf@, 0) == wire::well_formed(buf@, pos as int),
            dtype == dtype_of(done),
            match wire::last_with_key(done, 0x22) {
                Some(c) => content is Some && content->0@ == wire::payload(buf@, c),
                None => content is None,
            },
            match first_carrier(done) {
                Some(f) => value is Some && value == element(buf@, f),
                None => value is None,
            },
        decreases buf.len() - pos,
    {
        let ghost at: int = pos as int;
        proof {
            wire::lemma_step(buf@, at);
            wire::lemma_field_bounds(buf@, at);
        }
        let key: u64 = read_key(buf, &mut pos)?;
        let ghost next = wire::payload_at(buf@, key, pos as int);
        proof {
            if next is Some {
                let f = next->0;
                let rest = wire::fields_from(buf@, f.end);
                assert(wire::field_at(buf@, at) == Some(f));
                wire::lemma_last_with_key_push(done, f, 0x08);
                wire::lemma_last_with_key_push(done, f, 0x22);
                lemma_first_carrier_push(done, f);
                lemma_first_carrier_prefix(done.push(f), rest);
                assert(done.push(f) + rest =~= done + (seq![f] + rest));
            }
        }
        if key == 0x08 {
            dtype = read_varint(buf, &mut pos)?;
        } else if key == 0x22 {
            content = Some(read_bytes(buf, &mut pos)?);
        } else {
            match read_element(buf, &mut pos, key, value.is_none())? {
                Some(v) => {
                    value = Some(v);
                },
                None => {},
            }
        }
        proof {
            done = done.push(next->0);
        }
    }
    assert(done + wire::fields_from(buf@, pos as int) =~= done);
    if value.is_some() {
        return Ok(value);
    }
    match content {
        Some(c) => Ok(content_value(dtype, c)),
        None => Ok(None),
    }
}

/// The first element of raw tensor content of that element type.
pub fn content_value(dtype: u64, c: &[u8]) -> (r: Option<Scalar>)
    ensures
        r == content_scalar(dtype, c@),
{
    if dtype == DT_FLOAT || dtype == DT_INT32 {
        match get_le32(c, 0) {
            Ok(v) => if dtype == DT_FLOAT {
                Some(Scalar::Single(v))
            } else {
                Some(Scalar::Int((v as i32) as i64))
            },
            Err(_) => None,
        }
    } else if dtype == DT_DOUBLE || dtype == DT_INT64 {
        match get_le64(c, 0) {
            Ok(v) => if dtype == DT_DOUBLE {
                Some(Scalar::Double(v))
            } else {
                Some(Scalar::Int(v as i64))
            },
            Err(_) => None,
        }
    } else {
        None
    }
}

// ---------------------------------------------------------------------------
// Summary values
// ---------------------------------------------------------------------------
/// The scalar that the fields of a summary value hold: a simple value always
/// counts, a tensor only while there is no scalar yet. `None` outside stands
/// for a tensor that is no such message.
pub open spec fn value_scan(s: Seq<u8>, fs: Seq<wire::Field>) -> Option<Option<Scalar>>
    decreases fs.len(),
{
    if fs.len() == 0 {
        Some(None)
    } else {
        let f = fs.last();
        match value_scan(s, fs.drop_last()) {
            None => None,
            Some(before) => if f.key == 0x15 {
                Some(Some(Scalar::Single(wire::le32_at(s, f.start))))
            } else if f.key == 0x42 && before is None {
                tensor_value(wire::payload(s, f))
            } else {
                Some(before)
            },
        }
    }
}

/// The tag and the scalar of a summary value, where it has both. `None`
/// outside stands for bytes that are no such message.
pub open spec fn summary_value(s: Seq<u8>) -> Option<Option<(Seq<u8>, Scalar)>> {
    let fs = wire::fields_from(s, 0);
    if !wire::well_formed(s, 0) {
        None
    } else {
        match value_scan(s, fs) {
            None => None,
            Some(v) => match (wire::last_with_key(fs, 0x0A), v) {
                (Some(t), Some(v)) => Some(Some((wire::payload(s, t), v))),
                _ => Some(None),
            },
        }
    }
}

proof fn lemma_value_scan_push(s: Seq<u8>, fs: Seq<wire::Field>, f: wire::Field)
    ensures
        value_scan(s, fs.push(f)) == match value_scan(s, fs) {
            None => None,
            Some(before) => if f.key == 0x15 {
                Some(Some(Scalar::Single(wire::le32_at(s, f.start))))
            } else if f.key == 0x42 && before is None {
                tensor_value(wire::payload(s, f))
            } else {
                Some(before)
            },
        },
{
    assert(fs.push(f).drop_last() =~= fs);
}

proof fn lemma_value_scan_prefix(s: Seq<u8>, fs: Seq<wire::Field>, more: Seq<wire::Field>)
    ensures
        value_scan(s, fs) is None ==> value_scan(s, fs + more) is None,
    decreases more.len(),
{
    if more.len() == 0 {
        assert(fs + more =~= fs);
    } else {
        lemma_value_scan_prefix(s, fs, more.drop_last());
        assert((fs + more).drop_last() =~= fs + more.drop_last());
    }
}

/// Read one summary value: its tag and its scalar, if it has both.
pub fn parse_value<'a>(buf: &'a [u8]) -> (r: PResult<Option<(&'a [u8], Scalar)>>)
    ensures
        match summary_value(buf@) {
            None => r is Err,
            Some(None) => r == Ok::<Option<(&[u8], Scalar)>, ParseError>(None),
            Some(Some((tag, v))) => r is Ok && r->Ok_0 is Some && (r->Ok_0->0).0@ == tag
                && (r->Ok_0->0).1 == v,
        },
{
    let mut pos: usize = 0;
    let mut tag: Option<&'a [u8]> = None;
    let mut value: Option<Scalar> = None;
    let ghost mut done: Seq<wire::Field> = seq![];
    assert(seq![] + wire::fields_from(buf@, 0) =~= wire::fields_from(buf@, 0));
    while pos < buf.len()
        invariant
            pos <= buf.len(),
            wire::fields_from(buf@, 0) == done + wire::fields_from(buf@, pos as int),
            wire::well_formed(buf@, 0) == wire::well_formed(buf@, pos as int),
            match wire::last_with_key(done, 0x0A) {
                Some(t) => tag is Some && tag->0@ == wire::payload(buf@, t),
                None => tag is None,
            },
            value_scan(buf@, done) == Some(value),
        decreases buf.len() - pos,
    {
        let ghost at: int = pos as int;
        proof {
            wire::lemma_step(buf@, at);
            wire::lemma_field_bounds(buf@, at);
        }
        let key: u64 = read_key(buf, &mut pos)?;
        let ghost next = wire::payload_at(buf@, key, pos as int);
        proof {
            if next is Some {
                let f = next->0;
                let rest = wire::fields_from(buf@, f.end);
                assert(wire::field_at(buf@, at) == Some(f));
                wire::lemma_last_with_key_push(done, f, 0x0A);
                lemma_value_scan_push(buf@, done, f);
                lemma_value_scan_prefix(buf@, done.push(f), rest);
                assert(done.push(f) + rest =~= done + (seq![f] + rest));
            }
        }
        if key == 0x0A {
            tag = Some(read_bytes(buf, &mut pos)?);
        } else if key == 0x15 {
            value = Some(Scalar::Single(get_le32(buf, pos)?));
            skip_bytes(buf, &mut pos, 4)?;
        } else if key == 0x42 {
            let sub: &[u8] = read_bytes(buf, &mut pos)?;
            if value.is_none() {
                value = tensor_scalar(sub)?;
            }
        } else {
            skip_field(buf, &mut pos, key % 8)?;
        }
        proof {
            done = done.push(next->0);
        }
    }
    assert(done + wire::fields_from(buf@, pos as int) =~= done);
    match (tag, value) {
        (Some(t), Some(v)) => Ok(Some((t, v))),
        _ => Ok(None),
    }
}

// ---------------------------------------------------------------------------
// Events
// ---------------------------------------------------------------------------
/// The points of a summary from `pos` on, in order, up to the end or to the
/// first place that cannot be read, and whether the end was reached.
pub open spec fn summary_points(sum: Seq<u8>, pos: int, step: i64, wall: u64) -> (
    Seq<PointView>,
    bool,
)
    decreases sum.len() - pos,
{
    if pos >= sum.len() {
        (seq![], true)
    } else {
        match wire::field_at(sum, pos) {
            None => (seq![], false),
            Some(f) => if !(0 <= pos < f.end <= sum.len()) {
                (seq![], false)
            } else if f.key != 0x0A {
                summary_points(sum, f.end, step, wall)
            } else {
                match summary_value(wire::payload(sum, f)) {
                    None => (seq![], false),
                    Some(None) => summary_points(sum, f.end, step, wall),
                    Some(Some((tag, value))) => {
                        let rest = summary_points(sum, f.end, step, wall);
                        (seq![PointView { tag, step, wall, value }] + rest.0, rest.1)
                    },
                }
            },
        }
    }
}

/// The step of an event: its last step field, else zero.
pub open spec fn step_of(fs: Seq<wire::Field>) -> i64 {
    match wire::last_with_key(fs, 0x10) {
        Some(f) => f.num as i64,
        None => 0,
    }
}

/// The bits of the wall time of an event: its last wall time field, else
/// those of zero.
pub open spec fn wall_of(s: Seq<u8>, fs: Seq<wire::Field>) -> u64 {
    match wire::last_with_key(fs, 0x09) {
        Some(f) => wire::le64_at(s, f.start),
        None => 0,
    }
}

/// The points of an event and whether all of it could be read.
pub open spec fn event_points(s: Seq<u8>) -> (Seq<PointView>, bool) {
    let fs = wire::fields_from(s, 0);
    if !wire::well_formed(s, 0) {
        (seq![], false)
    } else {
        match wire::last_with_key(fs, 0x2A) {
            None => (seq![], true),
            Some(f) => summary_points(wire::payload(s, f), 0, step_of(fs), wall_of(s, fs)),
        }
    }
}

/// Read one event and append its points. Points that stand before the first
/// place that cannot be read are kept.
pub fn parse_event<'a>(buf: &'a [u8], out: &mut Vec<Point<'a>>) -> (r: PResult<()>)
    ensures
        point_views(final(out)@) == point_views(old(out)@) + event_points(buf@).0,
        r is Ok <==> event_points(buf@).1,
{
    let mut pos: usize = 0;
    let mut wall: u64 = 0;
    let mut step: i64 = 0;
    let mut summary: Option<&'a [u8]> = None;
    let ghost mut done: Seq<wire::Field> = seq![];
    proof {
        assert(seq![] + wire::fields_from(buf@, 0) =~= wire::fields_from(buf@, 0));
        assert(point_views(out@) + seq![] =~= point_views(out@));
    }
    while pos < buf.len()
        invariant
            pos <= buf.len(),
            out@ == old(out)@,
            point_views(out@) + Seq::<PointView>::empty() == point_views(out@),
            wire::fields_from(buf@, 0) == done + wire::fields_from(buf@, pos as int),
            wire::well_formed(buf@, 0) == wire::well_formed(buf@, pos as int),
            wall == wall_of(buf@, done),
            step == step_of(done),
            match wire::last_with_key(done, 0x2A) {
                Some(f) => summary is Some && summary->0@ == wire::payload(buf@, f),
                None => summary is None,
            },
        decreases buf.len() - pos,
    {
        let ghost at: int = pos as int;
        proof {
            wire::lemma_step(buf@, at);
            wire::lemma_field_bounds(buf@, at);
        }
        let key: u64 = read_key(buf, &mut pos)?;
        let ghost next = wire::payload_at(buf@, key, pos as int);
        proof {
            if next is Some {
                let f = next->0;
                let rest = wire::fields_from(buf@, f.end);
                assert(wire::field_at(buf@, at) == Some(f));
                wire::lemma_last_with_key_push(done, f, 0x09);
                wire::lemma_last_with_key_push(done, f, 0x10);
                wire::lemma_last_with_key_push(done, f, 0x2A);
                assert(done.push(f) + rest =~= done + (seq![f] + rest));
            }
        }
        if key == 0x09 {
            wall = get_le64(buf, pos)?;
            skip_bytes(buf, &mut pos, 8)?;
        } else if key == 0x10 {
            step = read_varint(buf, &mut pos)? as i64;
        } else if key == 0x2A {
            summary = Some(read_bytes(buf, &mut pos)?);
        } else {
            skip_field(buf, &mut pos, key % 8)?;
        }
        proof {
            done = done.push(next->0);
        }
    }
    assert(done + wire::fields_from(buf@, pos as int) =~= done);
    match summary {
        None => Ok(()),
        Some(sum) => parse_summary(sum, step, wall, out),
    }
}

/// Read the values of a summary and append their points.
pub fn parse_summary<'a>(sum: &'a [u8], step: i64, wall: u64, out: &mut Vec<Point<'a>>) -> (r:
    PResult<()>)
    ensures
        point_views(final(out)@) == point_views(old(out)@) + summary_points(sum@, 0, step, wall).0,
        r is Ok <==> summary_points(sum@, 0, step, wall).1,
{
    let mut pos: usize = 0;
    let ghost all = point_views(old(out)@) + summary_points(sum@, 0, step, wall).0;
    while pos < sum.len()
        invariant
            pos <= sum.len(),
            all == point_views(old(out)@) + summary_points(sum@, 0, step, wall).0,
            point_views(out@) + summary_points(sum@, pos as int, step, wall).0 =~= all,
            summary_points(sum@, 0, step, wall).1 == summary_points(sum@, pos as int, step, wall).1,
        decreases sum.len() - pos,
    {
        let ghost at: int = pos as int;
        proof {
            wire::lemma_field_bounds(sum@, at);
        }
        let key: u64 = read_key(sum, &mut pos)?;
        let ghost next = wire::payload_at(sum@, key, pos as int);
        assert(wire::field_at(sum@, at) == next);
        if key == 0x0A {
            let sub: &[u8] = read_bytes(sum, &mut pos)?;
            match parse_value(sub)? {
                Some((tag, value)) => {
                    let ghost before = out@;
                    let p: Point<'a> = Point { tag, step, wall, value };
                    out.push(p);
                    proof {
                        assert(point_views(out@) =~= point_views(before) + seq![p@]);
                        let rest = summary_points(sum@, next->0.end, step, wall).0;
                        assert(point_views(before) + (seq![p@] + rest) =~= point_views(out@)
                            + rest);
                    }
                },
                None => {},
            }
        } else {
            skip_field(sum, &mut pos, key % 8)?;
        }
    }
    Ok(())
}

// ---------------------------------------------------------------------------
// Records
// ---------------------------------------------------------------------------
/// A record longer than this cannot be one.
pub const MAX_RECORD: u64 = 0x8000_0000;

/// Outcome of reading a piece of an event file.
pub struct ChunkResult {
    /// Bytes of complete, valid records; resume behind them next time.
    pub consumed: usize,
    /// A record could not be read; the rest of the file is to be abandoned.
    pub corrupt: bool,
}

/// What a piece of an event file holds.
pub struct Chunk {
    pub points: Seq<PointView>,
    pub consumed: int,
    pub corrupt: bool,
}

/// The length that the record at `pos` declares.
pub open spec fn record_len(s: Seq<u8>, pos: int) -> int {
    wire::le64_at(s, pos) as int
}

/// A whole record stands at `pos`: a length, its checksum, so many bytes,
/// and their checksum.
pub open spec fn record_complete(s: Seq<u8>, pos: int) -> bool {
    &&& pos + 12 <= s.len()
    &&& record_len(s, pos) <= MAX_RECORD
    &&& pos + 12 + record_len(s, pos) + 4 <= s.len()
}

/// The bytes of the record at `pos`.
pub open spec fn record_body(s: Seq<u8>, pos: int) -> Seq<u8> {
    s.subrange(pos + 12, pos + 12 + record_len(s, pos))
}

/// What stands in `s` from `pos` on: the points of the whole records, up to
/// the first record that is not whole yet or cannot be read.
pub open spec fn chunk_from(s: Seq<u8>, pos: int) -> Chunk
    decreases s.len() - pos,
{
    if pos + 12 > s.len() {
        Chunk { points: seq![], consumed: pos, corrupt: false }
    } else if record_len(s, pos) > MAX_RECORD {
        Chunk { points: seq![], consumed: pos, corrupt: true }
    } else if !record_complete(s, pos) {
        Chunk { points: seq![], consumed: pos, corrupt: false }
    } else {
        let event = event_points(record_body(s, pos));
        if !event.1 {
            Chunk { points: event.0, consumed: pos, corrupt: true }
        } else {
            let rest = chunk_from(s, pos + 12 + record_len(s, pos) + 4);
            Chunk { points: event.0 + rest.points, ..rest }
        }
    }
}

/// Walk the records in `data` and append the points they hold.
///
/// A record at the end that is only partly written is left unconsumed, so
/// that the caller can try again from the same place once there are more
/// bytes. Checksums are not verified.
pub fn parse_chunk<'a>(data: &'a [u8], out: &mut Vec<Point<'a>>) -> (r: ChunkResult)
    ensures
        point_views(final(out)@) == point_views(old(out)@) + chunk_from(data@, 0).points,
        r.consumed == chunk_from(data@, 0).consumed,
        r.corrupt == chunk_from(data@, 0).corrupt,
        r.consumed <= data@.len(),
{
    let mut pos: usize = 0;
    let ghost all = point_views(old(out)@) + chunk_from(data@, 0).points;
    while data.len() - pos >= 12
        invariant
            pos <= data.len(),
            all == point_views(old(out)@) + chunk_from(data@, 0).points,
            point_views(out@) + chunk_from(data@, pos as int).points =~= all,
            chunk_from(data@, 0).consumed == chunk_from(data@, pos as int).consumed,
            chunk_from(data@, 0).corrupt == chunk_from(data@, pos as int).corrupt,
        decreases data.len() - pos,
    {
        let ghost before = out@;
        let ghost here = chunk_from(data@, pos as int);
        let length: u64 = match get_le64(data, pos) {
            Ok(n) => n,
            Err(_) => {
                return ChunkResult { consumed: pos, corrupt: true };
            },
        };
        if length > MAX_RECORD {
            return ChunkResult { consumed: pos, corrupt: true };
        }
        let left: usize = data.len() - pos - 12;
        if (left as u64) < length + 4 {
            return ChunkResult { consumed: pos, corrupt: false };
        }
        let body: usize = pos + 12;
        let end: usize = body + length as usize;
        let event: &'a [u8] = vstd::slice::slice_subrange(data, body, end);
        assert(event@ == record_body(data@, pos as int));
        match parse_event(event, out) {
            Ok(()) => {},
            Err(_) => {
                return ChunkResult { consumed: pos, corrupt: true };
            },
        }
        pos = end + 4;
        proof {
            let ev = event_points(event@).0;
            let rest = chunk_from(data@, pos as int).points;
            assert(here.points == ev + rest);
            assert(point_views(before) + (ev + rest) =~= (point_views(before) + ev) + rest);
        }
    }
    ChunkResult { consumed: pos, corrupt: false }
}

proof fn lemma_fields_in_bounds(s: Seq<u8>, pos: int)
    requires
        0 <= pos <= s.len(),
    ensures
        forall|i: int|
            0 <= i < wire::fields_from(s, pos).len() ==> 0 <= (#[trigger] wire::fields_from(
                s,
                pos,
            )[i]).start <= wire::fields_from(s, pos)[i].end <= s.len(),
    decreases s.len() - pos,
{
    wire::lemma_field_bounds(s, pos);
    if let Some(f) = wire::field_at(s, pos) {
        lemma_fields_in_bounds(s, f.end);
        let all = wire::fields_from(s, pos);
        let rest = wire::fields_from(s, f.end);
        assert forall|i: int| 0 <= i < all.len() implies 0 <= (#[trigger] all[i]).start
            <= all[i].end <= s.len() by {
            if i > 0 {
                assert(all[i] == rest[i - 1]);
            }
        }
    }
}

proof fn lemma_last_is_one(fs: Seq<wire::Field>, key: u64)
    ensures
        wire::last_with_key(fs, key) matches Some(f) ==> fs.contains(f),
    decreases fs.len(),
{
    if fs.len() > 0 {
        lemma_last_is_one(fs.drop_last(), key);
        assert(fs[fs.len() - 1] == fs.last());
        if let Some(f) = wire::last_with_key(fs.drop_last(), key) {
            if fs.drop_last().contains(f) {
                let i = choose|i: int| 0 <= i < fs.drop_last().len() && fs.drop_last()[i] == f;
                assert(fs[i] == f);
            }
        }
    }
}

proof fn lemma_summary_points_fit(sum: Seq<u8>, pos: int, step: i64, wall: u64)
    requires
        0 <= pos <= sum.len(),
    ensures
        summary_points(sum, pos, step, wall).0.len() <= sum.len() - pos,
    decreases sum.len() - pos,
{
    if pos < sum.len() {
        if let Some(f) = wire::field_at(sum, pos) {
            if 0 <= pos < f.end <= sum.len() {
                lemma_summary_points_fit(sum, f.end, step, wall);
            }
        }
    }
}

/// There are no more points in a piece of a file than bytes.
pub proof fn lemma_points_fit(s: Seq<u8>, pos: int)
    requires
        0 <= pos <= s.len(),
    ensures
        chunk_from(s, pos).points.len() <= s.len() - pos,
    decreases s.len() - pos,
{
    if record_complete(s, pos) {
        let body = record_body(s, pos);
        let fs = wire::fields_from(body, 0);
        lemma_fields_in_bounds(body, 0);
        lemma_last_is_one(fs, 0x2A);
        if let Some(f) = wire::last_with_key(fs, 0x2A) {
            let i = choose|i: int| 0 <= i < fs.len() && fs[i] == f;
            assert(0 <= fs[i].start <= fs[i].end <= body.len());
            lemma_summary_points_fit(wire::payload(body, f), 0, step_of(fs), wall_of(body, fs));
        }
        assert(event_points(body).0.len() <= body.len());
        lemma_points_fit(s, pos + 12 + record_len(s, pos) + 4);
    }
}

} // verus!
