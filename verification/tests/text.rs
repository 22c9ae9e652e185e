use ttb::bits::{is_below, is_zero};
use ttb::text::{char_count, compare, contains, ends_with, pad, push_decimal, push_two_digits, same, starts_with, Order};

#[test]
fn strings_have_their_usual_order() {
    let list = ["", "a", "ab", "b", "B", "é", "z", "中", "a/b", "a b", "😀"];
    for a in list {
        for b in list {
            let want = if a < b {
                Order::Less
            } else if a == b {
                Order::Equal
            } else {
                Order::Greater
            };
            assert_eq!(compare(a, b), want, "{:?} {:?}", a, b);
            assert_eq!(same(a, b), a == b);
            assert_eq!(contains(a, b), a.contains(b));
            assert_eq!(starts_with(a, b), a.starts_with(b));
            assert_eq!(ends_with(a, b), a.ends_with(b));
        }
    }
}

#[test]
fn texts_are_padded_by_characters() {
    assert_eq!(pad("éa", 5), format!("{:5}", "éa"));
    assert_eq!(pad("long", 2), "long");
    assert_eq!(char_count("é中😀"), 3);
}

#[test]
fn numbers_are_written_out() {
    for n in [0u64, 7, 10, 99, 100, u64::MAX] {
        let mut s = String::new();
        push_decimal(&mut s, n);
        assert_eq!(s, n.to_string());
    }
    for n in [0u64, 7, 10, 59, 99] {
        let mut s = String::from("x");
        push_two_digits(&mut s, n);
        assert_eq!(s, format!("x{:02}", n));
    }
}

#[test]
fn bits_are_ordered_as_numbers() {
    let list = [
        0.0,
        -0.0,
        1.0,
        -1.0,
        1e300,
        -1e300,
        5e-324,
        -5e-324,
        f64::INFINITY,
        f64::NEG_INFINITY,
        f64::NAN,
        -f64::NAN,
    ];
    for a in list {
        for b in list {
            assert_eq!(is_below(a.to_bits(), b.to_bits()), a < b, "{} {}", a, b);
        }
        assert_eq!(is_zero(a.to_bits()), a == 0.0);
    }
}
