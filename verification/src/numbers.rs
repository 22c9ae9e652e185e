//! Compact texts of numbers for axis labels and readouts.
use vstd::prelude::*;
use vstd::arithmetic::power2::*;

use crate::text;

verus! {

// ---------------------------------------------------------------------------
// Rounding
// ---------------------------------------------------------------------------
/// `a / b` rounded to the nearest whole number, halves to the even one.
pub open spec fn round_even(a: int, b: int) -> int {
    let q = a / b;
    let r = a % b;
    if 2 * r > b || (2 * r == b && q % 2 == 1) {
        q + 1
    } else {
        q
    }
}

fn rounded(a: u128, b: u128) -> (r: u128)
    requires
        0 < b <= 0x1_0000_0000_0000_0000_0000_0000_0000,
    ensures
        r == round_even(a as int, b as int),
        r <= a / b + 1,
{
    let q: u128 = a / b;
    let rest: u128 = a % b;
    if 2 * rest > b || (2 * rest == b && q % 2 == 1) {
        proof {
            assert(b == 1 ==> rest == 0);
            assert(q < u128::MAX) by (nonlinear_arith)
                requires
                    b >= 2,
                    q == a / b,
                    a <= u128::MAX,
            ;
        }
        q + 1
    } else {
        q
    }
}

/// How many bits of a number have to go until 53 are left.
pub open spec fn spare_bits(n: nat) -> nat
    decreases n,
{
    if n < 0x20_0000_0000_0000 {
        0
    } else {
        spare_bits(n / 2) + 1
    }
}

/// The double-precision number nearest to a whole number.
pub open spec fn nearest_double(n: nat) -> int {
    let unit = pow2(spare_bits(n)) as int;
    round_even(n as int, unit) * unit
}

/// By how many binary places, at most `t`, the quotient `a / b` can be moved
/// to the left and still have no more than 53 bits before the point.
pub open spec fn binary_places(a: int, b: int, t: nat) -> nat
    decreases t,
{
    if t > 0 && a * pow2(t) >= 0x20_0000_0000_0000 * b {
        binary_places(a, b, (t - 1) as nat)
    } else {
        t
    }
}

/// The tenths of a million in `n`, as double precision has them: `n` is taken
/// as a double, divided by a million to the nearest double, and rounded to
/// one decimal.
pub open spec fn million_tenths(n: nat) -> int {
    let f = nearest_double(n);
    let t = binary_places(f, 1_000_000, 52);
    let quotient = round_even(f * pow2(t), 1_000_000);
    round_even(10 * quotient, pow2(t) as int)
}

/// A count as it is shown.
pub open spec fn count_text(n: nat) -> Seq<char> {
    if n >= 1_000_000 {
        let d = million_tenths(n);
        text::decimal((d / 10) as nat) + seq!['.', text::digit_char(d % 10), 'M']
    } else if n >= 10_000 {
        text::decimal(round_even(n as int, 1000) as nat).push('k')
    } else {
        text::decimal(n)
    }
}

proof fn lemma_spare(n: nat, k: nat)
    requires
        n < 0x20_0000_0000_0000 * pow2(k),
    ensures
        spare_bits(n) <= k,
    decreases k,
{
    if n >= 0x20_0000_0000_0000 {
        if k == 0 {
            lemma2_to64();
        } else {
            lemma_pow2_unfold(k);
            lemma_spare(n / 2, (k - 1) as nat);
        }
    }
}

/// The double nearest to a number of 64 bits.
fn as_double(n: u64) -> (r: u128)
    ensures
        r == nearest_double(n as nat),
        r <= 0x1_0000_0000_0000_0000,
        n >= 1_000_000 ==> r >= 1_000_000,
{
    let mut left: u64 = n;
    let mut unit: u128 = 1;
    let ghost mut k: nat = 0;
    proof {
        lemma2_to64();
        lemma_spare(n as nat, 11);
    }
    while left >= 0x20_0000_0000_0000
        invariant
            spare_bits(n as nat) == k + spare_bits(left as nat),
            spare_bits(n as nat) <= 11,
            k <= 11,
            unit == pow2(k),
            unit <= 2048,
        decreases left,
    {
        proof {
            lemma2_to64();
            lemma_pow2_unfold(k + 1);
            assert(k + 1 <= 11);
            lemma_small_powers(k + 1);
            k = k + 1;
        }
        left = left / 2;
        unit = unit * 2;
    }
    let q: u128 = rounded(n as u128, unit);
    proof {
        lemma_small_powers(k);
        let a = n as int;
        let u = unit as int;
        assert(a / u * u <= a) by (nonlinear_arith)
            requires
                u > 0,
                a >= 0,
        ;
        lemma_nearest_bounds(n, u);
        assert(q * u <= 0x1_0000_0000_0000_0000);
    }
    q * unit
}

proof fn lemma_small_powers(k: nat)
    requires
        k <= 11,
    ensures
        1 <= pow2(k) <= 2048,
        pow2(k) == 1 || pow2(k) == 2 || pow2(k) == 4 || pow2(k) == 8 || pow2(k) == 16 || pow2(k)
            == 32 || pow2(k) == 64 || pow2(k) == 128 || pow2(k) == 256 || pow2(k) == 512 || pow2(k)
            == 1024 || pow2(k) == 2048,
{
    lemma2_to64();
}

/// A number rounded to a multiple of a small power of two stays in range.
proof fn lemma_nearest_bounds(n: u64, u: int)
    requires
        u == 1 || u == 2 || u == 4 || u == 8 || u == 16 || u == 32 || u == 64 || u == 128 || u
            == 256 || u == 512 || u == 1024 || u == 2048,
    ensures
        round_even(n as int, u) * u <= 0x1_0000_0000_0000_0000,
        n >= 1_000_000 && u == 1 ==> round_even(n as int, u) * u == n,
{
}

/// The place of the point for the quotient `f / 1_000_000`.
fn places(f: u128) -> (r: u32)
    requires
        f <= 0x1_0000_0000_0000_0000,
    ensures
        r == binary_places(f as int, 1_000_000, 52),
        r <= 52,
        f * pow2(r as nat) < 0x20_0000_0000_0000 * 1_000_000 || r == 0,
{
    let mut t: u32 = 52;
    let mut unit: u128 = 0x10_0000_0000_0000;
    proof {
        lemma2_to64();
        lemma2_to64_rest();
    }
    while t > 0 && f * unit >= 0x20_0000_0000_0000u128 * 1_000_000
        invariant
            t <= 52,
            f <= 0x1_0000_0000_0000_0000,
            unit == pow2(t as nat),
            1 <= unit <= 0x10_0000_0000_0000,
            f * unit <= 0x1_0000_0000_0000_0000 * 0x10_0000_0000_0000,
            binary_places(f as int, 1_000_000, 52) == binary_places(f as int, 1_000_000, t as nat),
        decreases t,
    {
        proof {
            lemma_pow2_unfold(t as nat);
            assert(f * (unit / 2) <= 0x1_0000_0000_0000_0000 * 0x10_0000_0000_0000)
                by (nonlinear_arith)
                requires
                    f <= 0x1_0000_0000_0000_0000,
                    1 <= unit <= 0x10_0000_0000_0000,
            ;
            lemma_pow2_pos((t - 1) as nat);
        }
        t = t - 1;
        unit = unit / 2;
    }
    t
}

/// Compact text of a count: tenths of millions, thousands, or the number.
pub fn fmt_count(n: u64) -> (r: String)
    ensures
        r@ == count_text(n as nat),
{
    let mut out: String = String::new();
    if n >= 1_000_000 {
        let f: u128 = as_double(n);
        let t: u32 = places(f);
        let mut unit: u128 = 1;
        let mut i: u32 = 0;
        proof {
            lemma2_to64();
        }
        while i < t
            invariant
                i <= t <= 52,
                unit == pow2(i as nat),
                1 <= unit <= 0x10_0000_0000_0000,
            decreases t - i,
        {
            proof {
                lemma_pow2_unfold((i + 1) as nat);
                lemma2_to64_rest();
                lemma_pow2_grows((i + 1) as nat, 52);
            }
            unit = unit * 2;
            i = i + 1;
        }
        proof {
            assert(f * unit <= 0x1_0000_0000_0000_0000 * 0x10_0000_0000_0000) by (nonlinear_arith)
                requires
                    f <= 0x1_0000_0000_0000_0000,
                    1 <= unit <= 0x10_0000_0000_0000,
            ;
        }
        let quotient: u128 = rounded(f * unit, 1_000_000);
        let d: u128 = rounded(10 * quotient, unit);
        proof {
            lemma_tenths_fit(f as int, unit as int, quotient as int, d as int);
        }
        let tenths: u64 = d as u64;
        text::push_decimal(&mut out, tenths / 10);
        text::push_char(&mut out, '.');
        text::push_decimal(&mut out, tenths % 10);
        text::push_char(&mut out, 'M');
        proof {
            assert(text::decimal((tenths % 10) as nat) =~= seq![
                text::digit_char((tenths % 10) as int),
            ]);
            assert(out@ =~= count_text(n as nat));
        }
    } else if n >= 10_000 {
        let k: u128 = rounded(n as u128, 1000);
        text::push_decimal(&mut out, k as u64);
        text::push_char(&mut out, 'k');
        assert(out@ =~= count_text(n as nat));
    } else {
        text::push_decimal(&mut out, n);
        assert(out@ =~= count_text(n as nat));
    }
    out
}

proof fn lemma_pow2_grows(a: nat, b: nat)
    requires
        a <= b,
    ensures
        pow2(a) <= pow2(b),
    decreases b,
{
    if a < b {
        lemma_pow2_grows(a, (b - 1) as nat);
        lemma_pow2_unfold(b);
    }
}

/// The tenths of a million in a number of 64 bits fit in one.
proof fn lemma_tenths_fit(f: int, unit: int, quotient: int, d: int)
    requires
        0 <= f <= 0x1_0000_0000_0000_0000,
        1 <= unit <= 0x10_0000_0000_0000,
        quotient <= f * unit / 1_000_000 + 1,
        0 <= quotient,
        d <= 10 * quotient / unit + 1,
    ensures
        d <= 0xffff_ffff_ffff_ffff,
{
    assert(quotient <= 20_000_000_000_000 * unit) by (nonlinear_arith)
        requires
            0 <= f <= 0x1_0000_0000_0000_0000,
            1 <= unit,
            quotient <= f * unit / 1_000_000 + 1,
    ;
    assert(10 * quotient / unit <= 200_000_000_000_000) by (nonlinear_arith)
        requires
            1 <= unit,
            quotient <= 20_000_000_000_000 * unit,
    ;
}

// ---------------------------------------------------------------------------
// Times
// ---------------------------------------------------------------------------
/// A duration in whole seconds as it is shown: minutes and seconds, hours and
/// minutes below two days, else days and hours.
pub open spec fn duration_text(total: nat) -> Seq<char> {
    let m = total / 60;
    let h = m / 60;
    if m < 60 {
        text::decimal(m).push('m') + text::two_digits(total % 60).push('s')
    } else if h < 48 {
        text::decimal(h).push('h') + text::two_digits(m % 60).push('m')
    } else {
        text::decimal(h / 24).push('d') + text::two_digits(h % 24).push('h')
    }
}

/// Compact text of a duration in whole seconds.
pub fn fmt_seconds(total: u64) -> (r: String)
    ensures
        r@ == duration_text(total as nat),
{
    let mut out: String = String::new();
    let m: u64 = total / 60;
    let h: u64 = m / 60;
    if m < 60 {
        text::push_decimal(&mut out, m);
        text::push_char(&mut out, 'm');
        text::push_two_digits(&mut out, total % 60);
        text::push_char(&mut out, 's');
    } else if h < 48 {
        text::push_decimal(&mut out, h);
        text::push_char(&mut out, 'h');
        text::push_two_digits(&mut out, m % 60);
        text::push_char(&mut out, 'm');
    } else {
        text::push_decimal(&mut out, h / 24);
        text::push_char(&mut out, 'd');
        text::push_two_digits(&mut out, h % 24);
        text::push_char(&mut out, 'h');
    }
    assert(out@ =~= duration_text(total as nat));
    out
}

/// The time of day of a wall time in whole seconds.
pub open spec fn clock_text(t: int) -> Seq<char> {
    let s = t % 86_400;
    text::two_digits((s / 3600) as nat).push(':') + text::two_digits(
        (s / 60 % 60) as nat,
    ).push(':') + text::two_digits((s % 60) as nat)
}

/// How many seconds of the day have passed.
fn day_second(t: i64) -> (r: u64)
    ensures
        r == t % 86_400,
        r < 86_400,
{
    if t >= 0 {
        (t % 86_400) as u64
    } else {
        let u: i64 = -(t + 1);
        let back: i64 = u % 86_400;
        proof {
            let q = u as int / 86_400;
            assert(t == 86_400 * (-(q + 1)) + (86_399 - back));
            vstd::arithmetic::div_mod::lemma_fundamental_div_mod_converse(
                t as int,
                86_400,
                -(q + 1),
                86_399 - back,
            );
        }
        (86_399 - back) as u64
    }
}

/// The time of day of a wall time in whole seconds.
pub fn fmt_clock(t: i64) -> (r: String)
    ensures
        r@ == clock_text(t as int),
{
    let s: u64 = day_second(t);
    let mut out: String = String::new();
    text::push_two_digits(&mut out, s / 3600);
    text::push_char(&mut out, ':');
    text::push_two_digits(&mut out, s / 60 % 60);
    text::push_char(&mut out, ':');
    text::push_two_digits(&mut out, s % 60);
    assert(out@ =~= clock_text(t as int));
    out
}

// ---------------------------------------------------------------------------
// Decimals
// ---------------------------------------------------------------------------
/// A string without the given character at its end, however often it stands
/// there.
pub open spec fn without_trailing(s: Seq<char>, c: char) -> Seq<char>
    decreases s.len(),
{
    if s.len() > 0 && s.last() == c {
        without_trailing(s.drop_last(), c)
    } else {
        s
    }
}

/// A decimal without trailing zeros, and without its point if nothing is left
/// behind it.
pub open spec fn trimmed_text(s: Seq<char>) -> Seq<char> {
    let t = without_trailing(without_trailing(s, '0'), '.');
    if t.len() == 0 || t == "-"@ {
        "0"@
    } else {
        t
    }
}

fn trim_end(s: &mut String, c: char)
    ensures
        final(s)@ == without_trailing(old(s)@, c),
{
    let mut chars: Vec<char> = text::chars_of(s.as_str());
    loop
        invariant
            without_trailing(chars@, c) == without_trailing(old(s)@, c),
            s@ == chars@,
        decreases chars.len(),
    {
        let n: usize = chars.len();
        if n == 0 || chars[n - 1] != c {
            return;
        }
        chars.pop();
        text::pop_char(s);
    }
}

/// Cut the trailing zeros of a decimal with a point.
pub fn trim_decimal(s: &str) -> (r: String)
    ensures
        r@ == trimmed_text(s@),
{
    let mut out: String = s.to_string();
    trim_end(&mut out, '0');
    trim_end(&mut out, '.');
    if text::char_count(out.as_str()) == 0 || text::same(out.as_str(), "-") {
        "0".to_string()
    } else {
        out
    }
}

} // verus!
