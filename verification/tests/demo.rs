use ttb::demo::{append_step, is_validated, Rng, StepValues};
use ttb::tfevents::{parse_chunk, Point, Scalar};

#[test]
fn the_generator_is_a_xorshift() {
    let mut r = Rng::for_run(1, 0);
    let mut x: u64 = 0x9E37_79B9_7F4A_7C16;
    assert_eq!(r.state, x);
    for _ in 0..100 {
        x ^= x << 13;
        x ^= x >> 7;
        x ^= x << 17;
        assert_eq!(r.next(), x);
        assert_ne!(x, 0);
    }
    let was = r.state;
    let f = r.fraction();
    let mut again = Rng { state: was };
    assert_eq!(f, again.next() >> 11);
    assert_eq!(Rng::for_run(3, 20).state, 3u64.wrapping_mul(0x9E37_79B9_7F4A_7C15).wrapping_add(21));
    assert_eq!(Rng::for_run(0, -2).state, u64::MAX);
}

#[test]
fn every_25th_step_is_validated() {
    assert!(is_validated(0));
    assert!(is_validated(50));
    assert!(is_validated(-25));
    assert!(!is_validated(24));
    assert!(!is_validated(-1));
}

#[test]
fn a_demo_step_is_read_back() {
    for tensor in [false, true] {
        for val_loss in [None, Some(0.75f32.to_bits())] {
            let v = StepValues {
                loss: 2.5f32.to_bits(),
                accuracy: 0.5f32.to_bits(),
                lr: 1.0f32.to_bits(),
                grad_norm: 0.25f32.to_bits(),
                val_loss,
            };
            let mut out = Vec::new();
            append_step(&mut out, 25, 8.5f64.to_bits(), &v, tensor);
            let mut points: Vec<Point> = Vec::new();
            let res = parse_chunk(&out, &mut points);
            assert_eq!(res.consumed, out.len());
            assert!(!res.corrupt);
            let got: Vec<(&[u8], f32)> = points
                .iter()
                .map(|p| match p.value {
                    Scalar::Single(b) => (p.tag, f32::from_bits(b)),
                    _ => panic!("not single precision"),
                })
                .collect();
            let mut want: Vec<(&[u8], f32)> = vec![
                (b"train/loss", 2.5),
                (b"train/accuracy", 0.5),
                (b"train/lr", 1.0),
                (b"train/grad_norm", 0.25),
            ];
            if val_loss.is_some() {
                want.push((b"val/loss", 0.75));
            }
            assert_eq!(got, want);
            assert!(points.iter().all(|p| p.step == 25 && p.wall == 8.5f64.to_bits()));
        }
    }
}
