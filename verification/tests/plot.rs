use ttb::colors::Dash;
use ttb::columns::{bucketize, partition_point, Bucket};
use ttb::numbers::{fmt_clock, fmt_count, fmt_seconds, trim_decimal};
use ttb::plot::BrailleCanvas;

#[test]
fn canvas_line_sets_braille() {
    let mut c = BrailleCanvas::new(10, 2);
    c.line(0, 0, 19, 7, 3);
    let mut any = false;
    for row in 0..2 {
        for col in 0..10 {
            if let Some((ch, color)) = c.cell_char(row, col) {
                any = true;
                assert_eq!(color, 3);
                assert!((0x2800..=0x28FF).contains(&(ch as u32)));
            }
        }
    }
    assert!(any);
}

fn means(ys: &[f64], buckets: &[Bucket]) -> Vec<(usize, f64)> {
    buckets
        .iter()
        .map(|b| {
            let sum: f64 = ys[b.start..b.end].iter().sum();
            (b.col, sum / (b.end - b.start) as f64)
        })
        .collect()
}

fn mean_points(len: usize, xat: impl Fn(usize) -> f64, ys: &[f64], x0: f64, x1: f64, ncols: usize) -> Vec<(usize, f64)> {
    let span = x1 - x0;
    let buckets = bucketize(
        len,
        ncols,
        span <= 0.0,
        |i: usize| xat(i) < x0,
        |i: usize| xat(i) <= x1,
        |i: usize, col: usize| xat(i) <= x0 + span * (col + 1) as f64 / ncols as f64,
    );
    means(ys, &buckets)
}

#[test]
fn bucketize_means_monotonic() {
    let ys: Vec<f64> = (0..100).map(|x| x as f64).collect();
    let pts = mean_points(100, |i| i as f64, &ys, 0.0, 99.0, 10);
    assert_eq!(pts.len(), 10);
    let vals: Vec<f64> = pts.iter().map(|p| p.1).collect();
    let mut sorted = vals.clone();
    sorted.sort_by(f64::total_cmp);
    assert_eq!(vals, sorted);
}

#[test]
fn buckets_share_out_the_view() {
    let ys = [1.0, 2.0, 3.0, 4.0];
    // no width: one bucket in the middle
    assert_eq!(mean_points(4, |_| 5.0, &ys, 5.0, 5.0, 9), vec![(4, 2.5)]);
    // nothing in view, no points, no columns
    assert!(mean_points(4, |i| i as f64, &ys, 7.0, 9.0, 9).is_empty());
    assert!(mean_points(0, |i| i as f64, &[], 0.0, 9.0, 9).is_empty());
    assert!(mean_points(4, |i| i as f64, &ys, 0.0, 3.0, 0).is_empty());
    // a gap has no bucket
    let at = [0.0, 1.0, 8.0, 9.0];
    let pts = mean_points(4, |i| at[i], &ys, 0.0, 9.0, 3);
    assert_eq!(pts, vec![(0, 1.5), (2, 3.5)]);
    // only what is in view
    let pts = mean_points(4, |i| at[i], &ys, 1.0, 8.0, 2);
    assert_eq!(pts, vec![(0, 2.0), (1, 3.0)]);
}

#[test]
fn the_partition_point_splits() {
    for n in 0..20usize {
        assert_eq!(partition_point(20, |i: usize| i < n), n);
    }
    assert_eq!(partition_point(0, |_i: usize| true), 0);
    assert_eq!(partition_point(5, |_i: usize| true), 5);
}

/// The pixels that a line sets, by the usual error-term walk.
fn walked(mut x0: i64, mut y0: i64, x1: i64, y1: i64) -> Vec<(i64, i64)> {
    let dx = (x1 - x0).abs();
    let dy = -(y1 - y0).abs();
    let sx = if x0 < x1 { 1 } else { -1 };
    let sy = if y0 < y1 { 1 } else { -1 };
    let mut err = dx + dy;
    let mut out = Vec::new();
    loop {
        out.push((x0, y0));
        if x0 == x1 && y0 == y1 {
            return out;
        }
        let e2 = 2 * err;
        if e2 >= dy {
            err += dy;
            x0 += sx;
        }
        if e2 <= dx {
            err += dx;
            y0 += sy;
        }
    }
}

fn is_set(c: &BrailleCanvas, x: usize, y: usize) -> bool {
    let bit = [[0x01u8, 0x08], [0x02, 0x10], [0x04, 0x20], [0x40, 0x80]][y % 4][x % 2];
    c.cells[y / 4 * c.w + x / 2] & bit != 0
}

#[test]
fn lines_set_the_pixels_of_the_walk() {
    for (x0, y0, x1, y1) in
        [(0, 0, 19, 7), (19, 7, 0, 0), (3, 7, 5, 0), (5, 0, 3, 7), (4, 4, 4, 4), (-5, 2, 30, 3)]
    {
        let mut c = BrailleCanvas::new(10, 2);
        c.line(x0, y0, x1, y1, 1);
        let want = walked(x0, y0, x1, y1);
        for x in 0..20usize {
            for y in 0..8usize {
                let on = want.contains(&(x as i64, y as i64));
                assert_eq!(is_set(&c, x, y), on, "({}, {})", x, y);
            }
        }
    }
}

#[test]
fn a_dash_goes_on_over_the_pieces() {
    let mut c = BrailleCanvas::new(10, 1);
    let mut phase = 0u32;
    c.line_styled((0, 0), (9, 0), 1, Dash::nth(1), &mut phase);
    assert_eq!(phase, 10);
    c.line_styled((10, 0), (19, 0), 1, Dash::nth(1), &mut phase);
    assert_eq!(phase, 20);
    let set: Vec<usize> = (0..20).filter(|x| is_set(&c, *x, 0)).collect();
    assert_eq!(set, vec![0, 1, 2, 3, 4, 5, 9, 10, 11, 12, 13, 14, 18, 19]);
    let mut wrap = u32::MAX;
    c.line_styled((0, 1), (1, 1), 1, Dash::solid(), &mut wrap);
    assert_eq!(wrap, 1);
}

#[test]
fn dots_off_the_canvas_are_left_out() {
    let mut c = BrailleCanvas::new(2, 1);
    for (x, y) in [(-1, 0), (0, -1), (4, 0), (0, 4), (i64::MAX, i64::MIN)] {
        c.dot(x, y, 9);
    }
    assert!(c.cells.iter().all(|b| *b == 0));
    c.dot(3, 3, 9);
    assert_eq!(c.cell_char(0, 1), Some(('⢀', 9)));
    assert_eq!(c.cell_char(0, 0), None);
}

#[test]
fn counts_are_compact() {
    for (n, want) in [
        (0u64, "0"),
        (9_999, "9999"),
        (10_000, "10k"),
        (12_500, "12k"),
        (13_500, "14k"),
        (999_499, "999k"),
        (999_999, "1000k"),
        (1_000_000, "1.0M"),
        (1_250_000, "1.2M"),
        (1_350_000, "1.4M"),
        (18_446_744_073_709_551_615, "18446744073709.6M"),
    ] {
        assert_eq!(fmt_count(n), want, "{}", n);
    }
}

#[test]
fn counts_are_those_of_double_precision() {
    let plain = |n: u64| {
        if n >= 1_000_000 {
            format!("{:.1}M", n as f64 / 1e6)
        } else if n >= 10_000 {
            format!("{:.0}k", n as f64 / 1e3)
        } else {
            n.to_string()
        }
    };
    let mut x: u64 = 88_172_645_463_325_252;
    for i in 0..20_000u64 {
        x ^= x << 13;
        x ^= x >> 7;
        x ^= x << 17;
        let n = x >> (i % 60);
        assert_eq!(fmt_count(n), plain(n), "{}", n);
    }
    for k in 0..4_000u64 {
        let n = 1_000_000 + 50_000 * k;
        assert_eq!(fmt_count(n), plain(n), "{}", n);
        let n = 10_000 + 250 * k;
        assert_eq!(fmt_count(n), plain(n), "{}", n);
    }
    for n in [u64::MAX, u64::MAX - 1, 1 << 53, (1 << 53) + 1, (1 << 54) + 3, 1 << 63] {
        assert_eq!(fmt_count(n), plain(n), "{}", n);
    }
}

#[test]
fn durations_are_compact() {
    assert_eq!(fmt_seconds(60), "1m00s");
    assert_eq!(fmt_seconds(3_599), "59m59s");
    assert_eq!(fmt_seconds(3_600), "1h00m");
    assert_eq!(fmt_seconds(47 * 3_600 + 59 * 60), "47h59m");
    assert_eq!(fmt_seconds(48 * 3_600), "2d00h");
    assert_eq!(fmt_seconds(100 * 86_400 + 5 * 3_600), "100d05h");
}

#[test]
fn the_clock_goes_round() {
    assert_eq!(fmt_clock(0), "00:00:00");
    assert_eq!(fmt_clock(86_399), "23:59:59");
    assert_eq!(fmt_clock(86_400 * 3 + 3_661), "01:01:01");
    assert_eq!(fmt_clock(-1), "23:59:59");
    assert_eq!(fmt_clock(-86_400), "00:00:00");
    let secs = i64::MIN.rem_euclid(86_400);
    let want = format!("{:02}:{:02}:{:02}", secs / 3600, (secs / 60) % 60, secs % 60);
    assert_eq!(fmt_clock(i64::MIN), want);
}

#[test]
fn decimals_lose_their_trailing_zeros() {
    assert_eq!(trim_decimal("1.2500"), "1.25");
    assert_eq!(trim_decimal("3.0000"), "3");
    assert_eq!(trim_decimal("0.0000"), "0");
    assert_eq!(trim_decimal("-0.0000"), "-0");
    assert_eq!(trim_decimal(""), "0");
    assert_eq!(trim_decimal("-.000"), "0");
    assert_eq!(trim_decimal("10"), "1");
}
