use ttb::tfevents::{parse_chunk, ChunkResult, Point, Scalar};
use ttb::wire::{get_le32, get_le64, put_le, put_varint, read_key, read_varint, skip_bytes, skip_field};
use ttb::writer::{crc32c, encode_scalar_event, frame_record, masked_crc, put_field};

fn record(tag: &str, step: i64, wall: f64, value: f32, tensor: bool) -> Vec<u8> {
    let event = encode_scalar_event(tag, step, wall.to_bits(), value.to_bits(), tensor);
    frame_record(&event)
}

fn number(s: Scalar) -> f64 {
    match s {
        Scalar::Single(b) => f32::from_bits(b) as f64,
        Scalar::Double(b) => f64::from_bits(b),
        Scalar::Int(n) => n as f64,
    }
}

fn collect(data: &[u8]) -> (Vec<(String, i64, f64, f64)>, ChunkResult) {
    let mut points: Vec<Point> = Vec::new();
    let res = parse_chunk(data, &mut points);
    let pts = points
        .iter()
        .map(|p| {
            (
                String::from_utf8_lossy(p.tag).into_owned(),
                p.step,
                f64::from_bits(p.wall),
                number(p.value),
            )
        })
        .collect();
    (pts, res)
}

#[test]
fn simple_value_roundtrip() {
    let mut data = record("loss", 10, 123.5, 0.25, false);
    data.extend(record("acc", 11, 124.0, 0.75, false));
    let (pts, res) = collect(&data);
    assert_eq!(res.consumed, data.len());
    assert!(!res.corrupt);
    assert_eq!(pts.len(), 2);
    assert_eq!(pts[0].0, "loss");
    assert_eq!(pts[0].1, 10);
    assert!((pts[0].2 - 123.5).abs() < 1e-9);
    assert!((pts[0].3 - 0.25).abs() < 1e-6);
    assert_eq!(pts[1].0, "acc");
}

#[test]
fn tensor_scalar_roundtrip() {
    let data = record("loss", 5, 1.0, 4.0625, true);
    let (pts, res) = collect(&data);
    assert_eq!(res.consumed, data.len());
    assert_eq!(pts.len(), 1);
    assert!((pts[0].3 - 4.0625).abs() < 1e-4);
}

#[test]
fn truncated_tail_left_unconsumed() {
    let full = record("loss", 1, 1.0, 0.5, false);
    let partial = record("loss", 2, 2.0, 0.6, false);
    let mut data = full.clone();
    data.extend_from_slice(&partial[..partial.len() - 7]);
    let (pts, res) = collect(&data);
    assert_eq!(pts.len(), 1);
    assert_eq!(res.consumed, full.len());
    assert!(!res.corrupt);
    // once the rest arrives, parsing resumes from that offset
    let mut all = full.clone();
    all.extend(partial.clone());
    let (pts2, res2) = collect(&all[res.consumed..]);
    assert_eq!(pts2.len(), 1);
    assert_eq!(pts2[0].1, 2);
    assert_eq!(res2.consumed, partial.len());
}

#[test]
fn event_without_summary_skipped() {
    // a file_version-style event: wall_time only
    let mut ev = Vec::new();
    put_field(&mut ev, 1, 1);
    ev.extend_from_slice(&42.0f64.to_le_bytes());
    let mut data = frame_record(&ev);
    data.extend(record("loss", 1, 1.0, 0.5, false));
    let (pts, res) = collect(&data);
    assert_eq!(pts.len(), 1);
    assert_eq!(res.consumed, data.len());
}

#[test]
fn corrupt_record_reported() {
    let mut data = record("loss", 1, 1.0, 0.5, false);
    let good = data.len();
    let mut bad = record("loss", 2, 2.0, 0.6, false);
    // wire type 3 (start-group) inside the event payload is rejected
    bad[12] = 0x0B;
    data.extend(bad);
    let (pts, res) = collect(&data);
    assert_eq!(pts.len(), 1);
    assert!(res.corrupt);
    assert_eq!(res.consumed, good);
}

#[test]
fn negative_and_large_values() {
    let mut data = record("neg", 1, 1.0, -123.456, false);
    data.extend(record("big", 2, 2.0, 1e30, false));
    let (pts, _) = collect(&data);
    assert!((pts[0].3 + 123.456).abs() < 1e-2);
    assert!((pts[1].3 / 1e30 - 1.0).abs() < 1e-3);
}

#[test]
fn checksums_do_not_matter() {
    let first = record("loss", 1, 1.0, 0.5, false);
    let second = record("loss", 2, 2.0, 0.25, true);
    let mut data = first.clone();
    data.extend(&second);
    let (pts, res) = collect(&data);
    assert_eq!(pts.len(), 2);
    let n = first.len();
    for at in [8, n - 4, n + 8, data.len() - 4] {
        for b in &mut data[at..at + 4] {
            *b = !*b;
        }
    }
    let (again, after) = collect(&data);
    assert_eq!(again, pts);
    assert_eq!((after.consumed, after.corrupt), (res.consumed, res.corrupt));
}

#[test]
fn checksums_have_their_known_values() {
    assert_eq!(crc32c(b"123456789"), 0xE306_9283);
    assert_eq!(crc32c(b""), 0);
    assert_eq!(crc32c(&[0u8; 32]), 0x8A91_36AA);
    let crc: u32 = 0xE306_9283;
    assert_eq!(masked_crc(b"123456789"), crc.rotate_right(15).wrapping_add(0xa282_ead8));
}

#[test]
fn an_event_has_these_bytes() {
    let ev = encode_scalar_event("a", 3, 1.0f64.to_bits(), 0.5f32.to_bits(), false);
    let mut want: Vec<u8> = vec![0x09];
    want.extend_from_slice(&1.0f64.to_le_bytes());
    want.extend_from_slice(&[0x10, 3, 0x2A, 10, 0x0A, 8, 0x0A, 1, b'a', 0x15]);
    want.extend_from_slice(&0.5f32.to_le_bytes());
    assert_eq!(ev, want);
    let framed = frame_record(&ev);
    assert_eq!(framed.len(), ev.len() + 16);
    assert_eq!(&framed[..8], &(ev.len() as u64).to_le_bytes());
    assert_eq!(&framed[12..12 + ev.len()], &ev[..]);
}

#[test]
fn a_negative_step_comes_back() {
    let (pts, _) = collect(&record("x", -7, 0.0, 1.0, false));
    assert_eq!(pts[0].1, -7);
}

#[test]
fn varints_come_back() {
    for v in [0u64, 1, 127, 128, 300, u32::MAX as u64, u64::MAX] {
        let mut out = Vec::new();
        put_varint(&mut out, v);
        let mut pos = 0;
        assert_eq!(read_varint(&out, &mut pos).ok(), Some(v));
        assert_eq!(pos, out.len());
    }
    // cut short, and longer than ten bytes
    let mut pos = 0;
    assert!(read_varint(&[0x80], &mut pos).is_err());
    let mut pos = 0;
    assert!(read_varint(&[0xff; 11], &mut pos).is_err());
    let mut pos = 0;
    assert_eq!(read_key(&[0x0A], &mut pos).ok(), Some(0x0A));
}

#[test]
fn little_endian_numbers_come_back() {
    let mut out = Vec::new();
    put_le(&mut out, 0x0102_0304_0506_0708, 8);
    assert_eq!(out, vec![8, 7, 6, 5, 4, 3, 2, 1]);
    assert_eq!(get_le64(&out, 0).ok(), Some(0x0102_0304_0506_0708));
    assert_eq!(get_le32(&out, 0).ok(), Some(0x0506_0708));
    assert!(get_le64(&out, 1).is_err());
    assert!(get_le32(&out, 5).is_err());
}

#[test]
fn unknown_fields_are_passed_over() {
    let buf = [1u8, 2, 3, 4, 5, 6, 7, 8];
    for (wire_type, end) in [(0u64, 1usize), (1, 8), (2, 2), (5, 4)] {
        let mut pos = 0;
        assert!(skip_field(&buf, &mut pos, wire_type).is_ok());
        assert_eq!(pos, end);
    }
    for wire_type in [3u64, 4, 6, 7, 9, u64::MAX] {
        let mut pos = 0;
        assert!(skip_field(&buf, &mut pos, wire_type).is_err());
        assert_eq!(pos, 0);
    }
    let mut pos = 0;
    assert!(skip_bytes(&buf, &mut pos, 9).is_err());
}

#[test]
fn a_double_and_an_integer_tensor_are_read() {
    // tensors with a dtype and one element of that type
    for (dtype, field, want) in [(2u64, vec![0x32, 8], 2.5f64), (9, vec![0x52, 1], 7.0)] {
        let mut t = vec![0x08, dtype as u8];
        t.extend_from_slice(&field);
        if dtype == 2 {
            t.extend_from_slice(&2.5f64.to_le_bytes());
        } else {
            t.push(7);
        }
        let mut val = vec![0x0A, 1, b'v', 0x42, t.len() as u8];
        val.extend_from_slice(&t);
        let mut sum = vec![0x0A, val.len() as u8];
        sum.extend_from_slice(&val);
        let mut ev = vec![0x10, 1, 0x2A, sum.len() as u8];
        ev.extend_from_slice(&sum);
        let (pts, res) = collect(&frame_record(&ev));
        assert!(!res.corrupt);
        assert_eq!(pts.len(), 1);
        assert_eq!(pts[0].3, want);
    }
}

#[test]
fn a_record_that_cannot_be_that_long_is_corrupt() {
    let mut data = vec![0u8; 12];
    data[7] = 0xff;
    let (pts, res) = collect(&data);
    assert!(pts.is_empty());
    assert!(res.corrupt);
    assert_eq!(res.consumed, 0);
}
