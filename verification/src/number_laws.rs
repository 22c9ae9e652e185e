//! What the texts of numbers say.
use vstd::prelude::*;
use vstd::arithmetic::power2::*;

use crate::bits;
use crate::numbers;
use crate::text;

verus! {

// ---------------------------------------------------------------------------
// Digits
// ---------------------------------------------------------------------------
/// The number that decimal digits stand for.
pub open spec fn read_digits(s: Seq<char>) -> int
    decreases s.len(),
{
    if s.len() == 0 {
        0
    } else {
        10 * read_digits(s.drop_last()) + (s.last() as int - '0' as int)
    }
}

/// A number written out reads as the number: it has digits only, and no zero
/// in front.
pub proof fn law_decimals_read_back(n: nat)
    ensures
        read_digits(text::decimal(n)) == n,
        text::decimal(n).len() > 0,
        forall|i: int|
            0 <= i < text::decimal(n).len() ==> '0' <= #[trigger] text::decimal(n)[i] <= '9',
        n > 0 ==> text::decimal(n)[0] != '0',
        n == 0 ==> text::decimal(n) == seq!['0'],
    decreases n,
{
    let s = text::decimal(n);
    if n < 10 {
        assert(s.drop_last() =~= seq![]);
        assert(read_digits(seq![]) == 0);
        assert(s.last() as int == '0' as int + n);
    } else {
        law_decimals_read_back(n / 10);
        let t = text::decimal(n / 10);
        assert(s.drop_last() =~= t);
        assert(s.last() as int == '0' as int + n % 10);
        assert(s[0] == t[0]);
    }
}

/// A number below a hundred takes two digits.
pub proof fn law_two_digits(n: nat)
    requires
        n < 100,
    ensures
        text::two_digits(n).len() == 2,
        read_digits(text::two_digits(n)) == n,
{
    law_decimals_read_back(n);
    reveal_with_fuel(text::decimal, 3);
    let s = text::two_digits(n);
    if n < 10 {
        assert(s.drop_last() =~= seq!['0']);
        assert(seq!['0'].drop_last() =~= seq![]);
        reveal_with_fuel(read_digits, 3);
        assert(s.last() as int == '0' as int + n);
    }
}

// ---------------------------------------------------------------------------
// Counts
// ---------------------------------------------------------------------------
/// The nearest whole number is no more than a half away, and of two that are
/// equally near it is the even one.
pub proof fn law_rounding(a: int, b: int)
    requires
        0 < b,
    ensures
        ({
            let r = numbers::round_even(a, b);
            &&& -b <= 2 * (r * b - a) <= b
            &&& 2 * (r * b - a) == b || 2 * (r * b - a) == -b ==> r % 2 == 0
        }),
{
    let q = a / b;
    let r = a % b;
    vstd::arithmetic::div_mod::lemma_fundamental_div_mod(a, b);
    assert(0 <= r < b) by (nonlinear_arith)
        requires
            0 < b,
            r == a % b,
    ;
    assert(b * q == q * b) by (nonlinear_arith);
    assert((q + 1) * b == q * b + b) by (nonlinear_arith);
}

/// Small counts are written out; from ten thousand on they are given in whole
/// thousands, the nearest ones.
pub proof fn law_counts_up_to_a_million(n: nat, k: nat)
    ensures
        n < 10_000 ==> numbers::count_text(n) == text::decimal(n),
        10_000 <= n < 1_000_000 && -500 < 1000 * k - n < 500 ==> numbers::count_text(n)
            == text::decimal(k).push('k'),
{
    if 10_000 <= n < 1_000_000 && -500 < 1000 * k - n < 500 {
        law_rounding(n as int, 1000);
    }
}

/// From a million on, a count is given in millions with one decimal: the tenth
/// that it names is no further away than half of one, but for what is lost
/// where the number is taken as a double.
pub proof fn law_counts_in_millions(n: nat) -> (d: nat)
    requires
        1_000_000 <= n < 0x20_0000_0000_0000,
    ensures
        numbers::count_text(n) == text::decimal(d / 10) + seq![
            '.',
            text::digit_char((d % 10) as int),
            'M',
        ],
        -50_002 <= 100_000 * d - n <= 50_002,
{
    let d = numbers::million_tenths(n);
    lemma2_to64();
    assert(numbers::spare_bits(n) == 0);
    assert(numbers::nearest_double(n) == n) by {
        law_rounding(n as int, 1);
    }
    let t = numbers::binary_places(n as int, 1_000_000, 52);
    lemma_places(n as int, 52);
    let u = pow2(t) as int;
    lemma_pow2_pos(t);
    let q = numbers::round_even(n * u, 1_000_000);
    law_rounding(n * u, 1_000_000);
    law_rounding(10 * q, u);
    assert(d == numbers::round_even(10 * q, u));
    // 2 (d u - 10 q) is between -u and u, and 2 (10^6 q - n u) between -10^6 and 10^6
    assert(-50_002 <= 100_000 * d - n <= 50_002) by (nonlinear_arith)
        requires
            0 < u,
            -u <= 2 * (d * u - 10 * q) <= u,
            -1_000_000 <= 2 * (q * 1_000_000 - n * u) <= 1_000_000,
            u >= 500_000,
    ;
    assert(d >= 0) by (nonlinear_arith)
        requires
            -50_002 <= 100_000 * d - n,
            n >= 1_000_000,
    ;
    d as nat
}

/// There are enough places behind the point.
proof fn lemma_places(n: int, t: nat)
    requires
        1_000_000 <= n < 0x20_0000_0000_0000,
        t <= 52,
        t >= 19,
    ensures
        pow2(numbers::binary_places(n, 1_000_000, t)) >= 500_000,
    decreases t,
{
    lemma2_to64();
    lemma_pow2_pos(t);
    if t == 19 {
        assert(pow2(19) == 0x8_0000);
        assert(n * pow2(19) < 0x20_0000_0000_0000 * 1_000_000) by (nonlinear_arith)
            requires
                n < 0x20_0000_0000_0000,
                pow2(19) == 0x8_0000,
                1_000_000 <= n,
        ;
    } else if n * pow2(t) >= 0x20_0000_0000_0000 * 1_000_000 {
        lemma_places(n, (t - 1) as nat);
    } else {
        lemma_grows(19, t);
    }
}

proof fn lemma_grows(a: nat, b: nat)
    requires
        a <= b,
    ensures
        pow2(a) <= pow2(b),
    decreases b,
{
    if a < b {
        lemma_grows(a, (b - 1) as nat);
        lemma_pow2_unfold(b);
    }
}

// ---------------------------------------------------------------------------
// Times
// ---------------------------------------------------------------------------
/// A duration below an hour is given in minutes and seconds, one below two days
/// in hours and minutes, and a longer one in days and hours. What is smaller is
/// cut off.
pub proof fn law_durations(d: nat, h: nat, m: nat, s: nat)
    requires
        h < 24,
        m < 60,
        s < 60,
    ensures
        numbers::duration_text(60 * m + s) == text::decimal(m) + seq!['m'] + text::two_digits(s)
            + seq!['s'],
        d < 2 && d + h > 0 ==> numbers::duration_text(86_400 * d + 3600 * h + 60 * m + s)
            == text::decimal(24 * d + h) + seq!['h'] + text::two_digits(m) + seq!['m'],
        d >= 2 ==> numbers::duration_text(86_400 * d + 3600 * h + 60 * m + s) == text::decimal(d)
            + seq!['d'] + text::two_digits(h) + seq!['h'],
{
    let short: nat = 60 * m + s;
    assert(short / 60 == m && short % 60 == s);
    assert(numbers::duration_text(short) =~= text::decimal(m) + seq!['m'] + text::two_digits(s)
        + seq!['s']);
    let total: nat = 86_400 * d + 3600 * h + 60 * m + s;
    let minutes: nat = 1440 * d + 60 * h + m;
    assert(total / 60 == minutes);
    assert(minutes / 60 == 24 * d + h && minutes % 60 == m);
    assert((24 * d + h) / 24 == d && (24 * d + h) % 24 == h);
    if d >= 2 {
        assert(numbers::duration_text(total) =~= text::decimal(d) + seq!['d'] + text::two_digits(h)
            + seq!['h']);
    } else if d + h > 0 {
        assert(numbers::duration_text(total) =~= text::decimal(24 * d + h) + seq!['h']
            + text::two_digits(m) + seq!['m']);
    }
}

/// The time of day is given in hours, minutes and seconds, whatever the day,
/// before the epoch as behind it.
pub proof fn law_clock(day: int, h: nat, m: nat, s: nat)
    requires
        h < 24,
        m < 60,
        s < 60,
    ensures
        numbers::clock_text(86_400 * day + 3600 * h + 60 * m + s) == text::two_digits(h) + seq![':']
            + text::two_digits(m) + seq![':'] + text::two_digits(s),
{
    let t = 86_400 * day + 3600 * h + 60 * m + s;
    let in_day = 3600 * h + 60 * m + s;
    assert(t % 86_400 == in_day);
    assert(in_day / 3600 == h);
    assert(in_day / 60 == 60 * h + m);
    assert((60 * h + m) % 60 == m);
    assert(in_day % 60 == s);
    assert(numbers::clock_text(t) =~= text::two_digits(h) + seq![':'] + text::two_digits(m) + seq![
        ':',
    ] + text::two_digits(s));
}

// ---------------------------------------------------------------------------
// Decimals
// ---------------------------------------------------------------------------
proof fn lemma_trailing(s: Seq<char>, c: char, n: nat)
    requires
        s.len() == 0 || s.last() != c,
    ensures
        numbers::without_trailing(s + text::repeated(c, n), c) == s,
    decreases n,
{
    let t = s + text::repeated(c, n);
    if n == 0 {
        assert(t =~= s);
    } else {
        lemma_trailing(s, c, (n - 1) as nat);
        assert(t.drop_last() =~= s + text::repeated(c, (n - 1) as nat));
        assert(t.last() == c);
    }
}

/// Zeros at the end of a decimal are cut, and the point with them where nothing
/// is left behind it; nothing else changes.
pub proof fn law_trailing_zeros_are_cut(whole: Seq<char>, fraction: Seq<char>, zeros: nat)
    requires
        whole.len() > 0,
        whole.last() != '.' && whole.last() != '-',
        fraction.len() == 0 || (fraction.last() != '0' && fraction.last() != '.'),
    ensures
        numbers::trimmed_text(whole + seq!['.'] + fraction + text::repeated('0', zeros))
            == if fraction.len() == 0 {
            whole
        } else {
            whole + seq!['.'] + fraction
        },
{
    let kept = whole + seq!['.'] + fraction;
    reveal_strlit("-");
    lemma_trailing(kept, '0', zeros);
    if fraction.len() == 0 {
        assert(kept =~= whole + text::repeated('.', 1));
        lemma_trailing(whole, '.', 1);
        assert(whole.last() != "-"@.last());
    } else {
        assert(kept.last() == fraction.last());
        assert(kept.len() >= 3);
    }
}

/// A text that is filled up keeps what it has and gets spaces behind it.
pub proof fn law_padding(s: Seq<char>, width: int)
    ensures
        ({
            let p = text::padded(s, width);
            &&& p.len() >= s.len()
            &&& p.len() >= width
            &&& p.len() == s.len() || p.len() == width
            &&& p.take(s.len() as int) == s
            &&& forall|i: int| s.len() <= i < p.len() ==> #[trigger] p[i] == ' '
        }),
{
    let p = text::padded(s, width);
    assert(p.take(s.len() as int) =~= s);
}

// ---------------------------------------------------------------------------
// Order
// ---------------------------------------------------------------------------
/// Of two byte strings that begin alike, the one that ends first comes first,
/// and else the one with the smaller byte where they part.
pub proof fn law_dictionary_order(p: Seq<u8>, a: Seq<u8>, b: Seq<u8>)
    ensures
        b.len() > 0 ==> text::bytes_lt(p, p + b) && !text::bytes_lt(p + b, p),
        a.len() > 0 && b.len() > 0 && a[0] < b[0] ==> text::bytes_lt(p + a, p + b)
            && !text::bytes_lt(p + b, p + a),
        !text::bytes_lt(p, p),
    decreases p.len(),
{
    if p.len() == 0 {
        assert(p + a =~= a && p + b =~= b);
    } else {
        let q = p.drop_first();
        law_dictionary_order(q, a, b);
        assert((p + a).drop_first() =~= q + a);
        assert((p + b).drop_first() =~= q + b);
    }
}

/// Numbers without a sign compare as their bits do, those with one the other way
/// round, and below those without, but for the zeros, which are equal. What is
/// no number is below nothing and above nothing.
pub proof fn law_bits_compare(a: u64, b: u64)
    requires
        a <= 0x7ff0_0000_0000_0000,
        b <= 0x7ff0_0000_0000_0000,
    ensures
        ({
            let na = (a + 0x8000_0000_0000_0000) as u64;
            let nb = (b + 0x8000_0000_0000_0000) as u64;
            &&& bits::below(a, b) <==> a < b
            &&& bits::below(na, nb) <==> b < a
            &&& bits::below(na, b) <==> a > 0 || b > 0
            &&& !bits::below(a, nb)
        }),
        forall|x: u64, n: u64|
            0x7ff0_0000_0000_0000 < n < 0x8000_0000_0000_0000 || n > 0xfff0_0000_0000_0000
                ==> !#[trigger] bits::below(x, n) && !bits::below(n, x),
{
}

/// A count halfway between two thousands is given as the even one.
pub proof fn law_counts_of_half_thousands(k: nat)
    requires
        10 <= k < 1000,
    ensures
        k % 2 == 0 ==> numbers::count_text(1000 * k + 500) == text::decimal(k).push('k'),
        k % 2 == 1 ==> numbers::count_text(1000 * k + 500) == text::decimal(k + 1).push('k'),
{
    law_rounding((1000 * k + 500) as int, 1000);
}

/// A quarter of a million lies halfway between two tenths, and is given as the
/// even one.
pub proof fn law_counts_of_quarter_millions(m: nat)
    requires
        1 <= m < 0x2_0000_0000,
    ensures
        numbers::count_text(1_000_000 * m + 250_000) == text::decimal(m) + seq!['.', '2', 'M'],
        numbers::count_text(1_000_000 * m + 750_000) == text::decimal(m) + seq!['.', '8', 'M'],
{
    lemma_quarter(m, 1);
    lemma_quarter(m, 3);
    assert(text::digit_char(2) == '2');
    assert(text::digit_char(8) == '8');
}

proof fn lemma_quarter(m: nat, k: int)
    requires
        1 <= m < 0x2_0000_0000,
        k == 1 || k == 3,
    ensures
        k == 1 ==> numbers::million_tenths((1_000_000 * m + 250_000) as nat) == 10 * m + 2,
        k == 3 ==> numbers::million_tenths((1_000_000 * m + 750_000) as nat) == 10 * m + 8,
{
    let n = 1_000_000 * m + 250_000 * k;
    lemma2_to64();
    assert(numbers::spare_bits(n as nat) == 0);
    assert(numbers::nearest_double(n as nat) == n) by {
        law_rounding(n, 1);
    }
    let t = numbers::binary_places(n, 1_000_000, 52);
    lemma_places(n, 52);
    let u = pow2(t) as int;
    lemma_pow2_pos(t);
    assert(t >= 2) by {
        if t < 2 {
            lemma_pow2_strictly_increases(t, 2);
        }
    }
    lemma_pow2_unfold(t);
    lemma_pow2_unfold((t - 1) as nat);
    let v = pow2((t - 2) as nat) as int;
    assert(u == 4 * v);
    let q = v * (4 * m + k);
    assert(n * u == 1_000_000 * q) by (nonlinear_arith)
        requires
            n == 1_000_000 * m + 250_000 * k,
            u == 4 * v,
            q == v * (4 * m + k),
    ;
    law_rounding(n * u, 1_000_000);
    assert(numbers::round_even(n * u, 1_000_000) == q);
    let d = numbers::round_even(10 * q, u);
    law_rounding(10 * q, u);
    assert(10 * q == 10 * (m * u) + 10 * (k * v)) by (nonlinear_arith)
        requires
            u == 4 * v,
            q == v * (4 * m + k),
    ;
    let e = d - 10 * m;
    assert(d * u - 10 * q == e * u - 10 * (k * v)) by (nonlinear_arith)
        requires
            e == d - 10 * m,
            10 * q == 10 * (m * u) + 10 * (k * v),
    ;
    assert(e * u == 4 * (e * v)) by (nonlinear_arith)
        requires
            u == 4 * v,
    ;
    assert(v > 0);
    if k == 1 {
        assert(k * v == v);
        assert(e == 2 || e == 3) by (nonlinear_arith)
            requires
                v > 0,
                -4 * v <= 2 * (4 * (e * v) - 10 * v) <= 4 * v,
        ;
    } else {
        assert(k * v == 3 * v);
        assert(e == 7 || e == 8) by (nonlinear_arith)
            requires
                v > 0,
                -4 * v <= 2 * (4 * (e * v) - 30 * v) <= 4 * v,
        ;
    }
}

/// A number of more than 53 bits is taken as the nearest multiple of the power of
/// two that leaves it 53 of them, the even one of two that are equally near; a
/// smaller one is kept as it is.
pub proof fn law_numbers_as_doubles(n: nat, k: nat)
    requires
        k == 0 ==> n < 0x20_0000_0000_0000,
        k > 0 ==> 0x10_0000_0000_0000 * pow2(k) <= n < 0x20_0000_0000_0000 * pow2(k),
    ensures
        ({
            let f = numbers::nearest_double(n);
            let unit = pow2(k) as int;
            &&& k == 0 ==> f == n
            &&& -unit <= 2 * (f - n) <= unit
            &&& exists|r: int| f == #[trigger] (r * unit) && (2 * (f - n) == unit || 2 * (f - n)
                == -unit ==> r % 2 == 0)
        }),
{
    lemma_spare_bits(n, k);
    lemma2_to64();
    lemma_pow2_pos(k);
    let unit = pow2(k) as int;
    law_rounding(n as int, unit);
    let r = numbers::round_even(n as int, unit);
    assert(numbers::nearest_double(n) == r * unit);
}

proof fn lemma_spare_bits(n: nat, k: nat)
    requires
        k == 0 ==> n < 0x20_0000_0000_0000,
        k > 0 ==> 0x10_0000_0000_0000 * pow2(k) <= n < 0x20_0000_0000_0000 * pow2(k),
    ensures
        numbers::spare_bits(n) == k,
    decreases k,
{
    if k > 0 {
        lemma_pow2_unfold(k);
        lemma_pow2_pos((k - 1) as nat);
        lemma2_to64();
        lemma_spare_bits(n / 2, (k - 1) as nat);
    }
}

/// Of a number without anything but zeros, a zero is left.
pub proof fn law_zeros_are_one_zero(zeros: nat)
    ensures
        numbers::trimmed_text(text::repeated('0', zeros)) == "0"@,
        numbers::trimmed_text("-"@ + text::repeated('0', zeros)) == "0"@,
        numbers::trimmed_text("-."@ + text::repeated('0', zeros)) == "0"@,
{
    reveal_strlit("-");
    reveal_strlit("-.");
    lemma_trailing(seq![], '0', zeros);
    assert(seq![] + text::repeated('0', zeros) =~= text::repeated('0', zeros));
    lemma_trailing("-"@, '0', zeros);
    lemma_trailing("-."@, '0', zeros);
    lemma_trailing("-"@, '.', 0);
    lemma_trailing("-"@, '.', 1);
    assert("-"@ + text::repeated('.', 0) =~= "-"@);
    assert("-"@ + text::repeated('.', 1) =~= "-."@);
    lemma_trailing(seq![], '.', 0);
    assert(seq![] + text::repeated('.', 0) =~= seq![]);
}

/// Two numbers are zero: the one of all zero bits, and the one that has but the
/// sign besides.
pub proof fn law_zeros(b: u64)
    ensures
        bits::is_zero_bits(b) <==> b == 0 || b == 0x8000_0000_0000_0000,
{
}

} // verus!
