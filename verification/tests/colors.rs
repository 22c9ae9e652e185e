use ttb::colors::{detect_depth, equals_ignoring_case, Color, Dash, Depth, Palette, SLOTS};

#[test]
fn first_eight_runs_get_distinct_solid_colors() {
    let p = Palette::new(Depth::Truecolor);
    let mut seen = Vec::new();
    for slot in 0..SLOTS {
        let c = p.color(slot);
        assert!(!seen.contains(&c), "slot {} repeats a hue", slot);
        assert_eq!(p.dash(slot), Dash::solid());
        seen.push(c);
    }
}

#[test]
fn repeated_hues_get_a_different_dash() {
    let p = Palette::new(Depth::Truecolor);
    // slot 8 wraps onto slot 0's hue, so its stroke must differ
    assert_eq!(p.color(8), p.color(0));
    assert_ne!(p.dash(8), p.dash(0));
    assert_ne!(p.dash(8).marker(), p.dash(0).marker());
    assert_eq!(p.color(16), p.color(0));
    assert_ne!(p.dash(16), p.dash(8));
}

#[test]
fn every_depth_offers_eight_distinct_colors() {
    for depth in [Depth::Truecolor, Depth::Indexed256, Depth::Basic] {
        let p = Palette::new(depth);
        let mut seen = Vec::new();
        for slot in 0..SLOTS {
            let c = p.color(slot);
            assert!(!seen.contains(&c), "{:?} repeats at slot {}", depth, slot);
            seen.push(c);
        }
    }
}

#[test]
fn dash_pattern_draws_and_skips() {
    let solid = Dash::solid();
    assert!((0..20).all(|p| solid.covers(p)));
    let dashed = Dash::nth(1);
    assert!(dashed.covers(0));
    assert!(!dashed.covers(6));
    assert!(dashed.covers(9)); // pattern repeats
    let dotted = Dash::nth(2);
    assert!(dotted.covers(1));
    assert!(!dotted.covers(2));
}

#[test]
fn the_depth_follows_the_hints() {
    assert_eq!(detect_depth("truecolor", ""), Depth::Truecolor);
    assert_eq!(detect_depth("TrueColor", "dumb"), Depth::Truecolor);
    assert_eq!(detect_depth("24bit", ""), Depth::Truecolor);
    assert_eq!(detect_depth("yes", "dumb"), Depth::Indexed256);
    assert_eq!(detect_depth("", "xterm-256color"), Depth::Indexed256);
    assert_eq!(detect_depth("", "xterm-kitty"), Depth::Indexed256);
    assert_eq!(detect_depth("", "xterm-direct"), Depth::Indexed256);
    assert_eq!(detect_depth("", "xterm"), Depth::Basic);
    assert_eq!(detect_depth("", ""), Depth::Basic);
    assert_eq!(Palette::detect("", "foot").color(0), Color::Indexed(32));
    assert!(equals_ignoring_case("aBc", "AbC"));
    assert!(!equals_ignoring_case("abc", "abcd"));
    assert!(!equals_ignoring_case("É", "é"));
}

#[test]
fn hues_have_these_values() {
    assert_eq!(Palette::new(Depth::Truecolor).color(1), Color::Rgb(0xd9, 0x59, 0x26));
    assert_eq!(Palette::new(Depth::Indexed256).color(15), Color::Indexed(167));
    assert_eq!(Palette::new(Depth::Basic).color(4), Color::LightMagenta);
    assert_eq!(Dash::nth(0).marker(), "●");
    assert_eq!(Dash::nth(1).marker(), "◆");
    assert_eq!(Dash::nth(7).marker(), "▪");
}

#[test]
fn runs_that_share_a_hue_are_told_apart() {
    let p = Palette::new(Depth::Truecolor);
    for a in 0..400usize {
        for b in a + 1..400 {
            if p.color(a) == p.color(b) {
                assert_eq!(a % 8, b % 8);
                assert_ne!(p.dash(a), p.dash(b), "{} {}", a, b);
            }
        }
    }
    assert_eq!(p.dash(16), Dash { on: 2, period: 6 });
    assert_eq!(p.dash(24), Dash { on: 3, period: 12 });
    assert_eq!(p.dash(32), Dash { on: 3, period: 13 });
    assert_ne!(p.dash(usize::MAX), p.dash(usize::MAX - 8));
    assert!(p.dash(24).covers(2) && !p.dash(24).covers(3) && p.dash(24).covers(12));
}
