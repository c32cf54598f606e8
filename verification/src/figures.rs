//! Short forms of large numbers: `1.5 KB`, `2.4M`.
//!
//! The figures are those of double-precision arithmetic: a count is rounded to
//! 53 significant bits, and so is a quotient, before it is cut to one decimal.
//! Where a number lies halfway between two others, the even one is taken.
use vstd::prelude::*;

use crate::number::{decimal, show};
use crate::text::{cat2, cat3};

verus! {

/// The integer next to `a / b`, the even one of two.
pub open spec fn nearest(a: int, b: int) -> int {
    let q = a / b;
    let r = a % b;
    if 2 * r < b || (2 * r == b && q % 2 == 0) {
        q
    } else {
        q + 1
    }
}

/// Rounds `a / b` to the next integer.
pub fn round_div(a: u128, b: u128) -> (r: u128)
    requires
        0 < b <= 0x8000_0000_0000_0000_0000_0000_0000_0000,
    ensures
        r == nearest(a as int, b as int),
{
    let q: u128 = a / b;
    let rest: u128 = a % b;
    let half_or_less = rest < b - rest || (rest == b - rest && q % 2 == 0);
    if half_or_less {
        q
    } else {
        assert(b >= 2);
        assert(2 * q <= a) by (nonlinear_arith)
            requires
                q == a as int / b as int,
                b >= 2,
        ;
        q + 1
    }
}

/// The distance of neighbouring doubles at `n`.
pub open spec fn spacing(n: int) -> int
    decreases n,
{
    if n < 0x20_0000_0000_0000 {
        1
    } else {
        2 * spacing(n / 2)
    }
}

/// The double next to `n`.
pub open spec fn as_double(n: int) -> int {
    nearest(n, spacing(n)) * spacing(n)
}

proof fn lemma_spacing(n: int)
    requires
        0 <= n < 0x1_0000_0000_0000_0000,
    ensures
        1 <= spacing(n) <= 2048,
        n >= 0x20_0000_0000_0000 ==> spacing(n) * 0x10_0000_0000_0000 <= n,
    decreases n,
{
    reveal_with_fuel(spacing, 13);
}

fn find_spacing(n: u64) -> (r: u64)
    ensures
        r == spacing(n as int),
    decreases n,
{
    if n < 0x20_0000_0000_0000 {
        1
    } else {
        proof {
            lemma_spacing(n as int);
        }
        2 * find_spacing(n / 2)
    }
}

fn to_double(n: u64) -> (r: u128)
    ensures
        r == as_double(n as int),
        r <= 0x1_0000_0000_0000_0800,
        n >= 1 ==> r >= 1,
{
    let unit = find_spacing(n) as u128;
    proof {
        lemma_spacing(n as int);
    }
    let q = round_div(n as u128, unit);
    proof {
        let (x, u) = (n as int, unit as int);
        assert(q * u <= x + u) by (nonlinear_arith)
            requires
                q <= x / u + 1,
                u >= 1,
                x >= 0,
        ;
        if n >= 1 {
            if unit == 1 {
                assert(x / 1 == x && x % 1 == 0);
                assert(q >= 1);
            } else {
                assert(x / u >= 1) by (nonlinear_arith)
                    requires
                        u * 0x10_0000_0000_0000 <= x,
                        u >= 1,
                ;
                assert(q >= 1);
            }
            assert(q * u >= 1) by (nonlinear_arith)
                requires
                    q >= 1,
                    u >= 1,
            ;
        }
    }
    q * unit
}

// ─── sizes ──────────────────────────────────────────────────────────────────
/// The name of a unit, each 1024 times the one before.
pub open spec fn size_unit(i: int) -> Seq<char> {
    if i == 0 {
        "B"@
    } else if i == 1 {
        "KB"@
    } else if i == 2 {
        "MB"@
    } else if i == 3 {
        "GB"@
    } else {
        "TB"@
    }
}

/// How many bytes a unit has.
pub open spec fn unit_size(i: int) -> int {
    if i == 0 {
        1
    } else if i == 1 {
        0x400
    } else if i == 2 {
        0x10_0000
    } else if i == 3 {
        0x4000_0000
    } else {
        0x100_0000_0000
    }
}

/// The largest unit that is not larger than `b`.
pub open spec fn unit_for(b: int) -> int {
    if b < unit_size(1) {
        0
    } else if b < unit_size(2) {
        1
    } else if b < unit_size(3) {
        2
    } else if b < unit_size(4) {
        3
    } else {
        4
    }
}

/// Tenths, as a number with one decimal.
pub open spec fn tenths_text(tenths: int) -> Seq<char> {
    decimal((tenths / 10) as nat) + "."@ + decimal((tenths % 10) as nat)
}

/// A size in its largest unit, with one decimal unless the rest is below a
/// twentieth of the unit.
pub open spec fn size_text(n: int) -> Seq<char> {
    let b = as_double(n);
    let i = unit_for(b);
    let u = unit_size(i);
    (if 20 * (b % u) < u {
        decimal((b / u) as nat)
    } else {
        tenths_text(nearest(10 * b, u))
    }) + " "@ + size_unit(i)
}

fn write_tenths(tenths: u128) -> (r: String)
    ensures
        r@ == tenths_text(tenths as int),
{
    cat3(show(tenths / 10).as_str(), ".", show(tenths % 10).as_str())
}

/// Writes a size in bytes in its largest unit.
pub fn fmt_bytes(n: u64) -> (r: String)
    ensures
        r@ == size_text(n as int),
{
    let b = to_double(n);
    let (u, name): (u128, &str) = if b < 0x400 {
        (1, "B")
    } else if b < 0x10_0000 {
        (0x400, "KB")
    } else if b < 0x4000_0000 {
        (0x10_0000, "MB")
    } else if b < 0x100_0000_0000 {
        (0x4000_0000, "GB")
    } else {
        (0x100_0000_0000, "TB")
    };
    assert(u == unit_size(unit_for(b as int)) && name@ == size_unit(unit_for(b as int)));
    let figure = if 20 * (b % u) < u {
        show(b / u)
    } else {
        write_tenths(round_div(10 * b, u))
    };
    cat3(figure.as_str(), " ", name)
}

// ─── counts ─────────────────────────────────────────────────────────────────
/// The quotient `a / b`, at least 1, as a double: `.0` divided by two to the
/// power of `.1`.
pub open spec fn double_quotient(a: int, b: int) -> (int, int)
    decreases
            if a < 0x10_0000_0000_0000 * b {
                0x10_0000_0000_0000 * b - a
            } else {
                0
            },
{
    if a <= 0 || a >= 0x10_0000_0000_0000 * b {
        (nearest(a, b), 1)
    } else {
        let (m, scale) = double_quotient(2 * a, b);
        (m, 2 * scale)
    }
}

/// The quotient of two counts, as doubles, in tenths.
pub open spec fn quotient_tenths(a: int, b: int) -> int {
    let (m, scale) = double_quotient(a, b);
    nearest(10 * m, scale)
}

/// A count with one decimal in thousands, millions or billions; small counts
/// are written out.
pub open spec fn count_text(n: int) -> Seq<char> {
    if n < 1_000 {
        decimal(n as nat)
    } else if n < 1_000_000 {
        tenths_text(quotient_tenths(as_double(n), 1_000)) + "k"@
    } else if n < 1_000_000_000 {
        tenths_text(quotient_tenths(as_double(n), 1_000_000)) + "M"@
    } else {
        tenths_text(quotient_tenths(as_double(n), 1_000_000_000)) + "B"@
    }
}

/// The quotient of `a` and `b` as a double, as `.0` divided by `.1`.
fn divide(a: u128, b: u128) -> (r: (u128, u128))
    requires
        1 <= a < 0x8000_0000_0000_0000_0000_0000,
        1 <= b <= 1_000_000_000,
        b <= a,
    ensures
        (r.0 as int, r.1 as int) == double_quotient(a as int, b as int),
        r.0 <= 0x8000_0000_0000_0000_0000_0001,
        1 <= r.1,
        r.1 * b <= 0x20_0000_0000_0000 * b || r.1 == 1,
{
    let mut x: u128 = a;
    let mut scale: u128 = 1;
    while x < 0x10_0000_0000_0000 * b
        invariant
            1 <= b <= 1_000_000_000,
            b <= a <= x,
            x == a * scale,
            x < 0x8000_0000_0000_0000_0000_0000,
            1 <= scale <= x,
            scale == 1 || scale * b < 0x20_0000_0000_0000 * b,
            double_quotient(a as int, b as int) == ({
                let (m, s) = double_quotient(x as int, b as int);
                (m, scale * s)
            }),
        decreases
                if x < 0x10_0000_0000_0000 * b {
                    0x10_0000_0000_0000 * b - x
                } else {
                    0
                },
    {
        proof {
            let (m, s) = double_quotient(2 * x, b as int);
            assert(scale * (2 * s) == (2 * scale) * s) by (nonlinear_arith);
            assert(a * (2 * scale) == 2 * (a * scale)) by (nonlinear_arith);
            assert(scale * b <= a * scale) by (nonlinear_arith)
                requires
                    b <= a,
                    scale >= 1,
            ;
            assert(0x20_0000_0000_0000 * b == 2 * (0x10_0000_0000_0000 * b));
            assert((2 * scale) * b == 2 * (scale * b)) by (nonlinear_arith);
        }
        x = 2 * x;
        scale = 2 * scale;
    }
    let m = round_div(x, b);
    proof {
        assert(m <= x + 1) by (nonlinear_arith)
            requires
                m <= x as int / b as int + 1,
                b >= 1,
        ;
        assert(scale * 1 == scale);
    }
    (m, scale)
}

/// The quotient of two counts, in tenths.
fn tenths_of(a: u128, b: u128) -> (r: u128)
    requires
        1 <= b <= 1_000_000_000,
        b <= a <= 0x1_0000_0000_0000_0800,
    ensures
        r == quotient_tenths(a as int, b as int),
{
    let (m, scale) = divide(a, b);
    proof {
        assert(scale <= 0x20_0000_0000_0000) by (nonlinear_arith)
            requires
                scale * b <= 0x20_0000_0000_0000 * b || scale == 1,
                b >= 1,
        ;
    }
    round_div(10 * m, scale)
}

proof fn lemma_small_counts_are_doubles(n: int)
    requires
        0 <= n < 0x20_0000_0000_0000,
    ensures
        as_double(n) == n,
{
    assert(n / 1 == n && n % 1 == 0);
}

/// Writes a count in thousands, millions or billions.
pub fn fmt_count(n: u64) -> (r: String)
    ensures
        r@ == count_text(n as int),
{
    if n < 1_000 {
        return show(n as u128);
    }
    let a = to_double(n);
    proof {
        if n < 1_000_000_000 {
            lemma_small_counts_are_doubles(n as int);
        } else {
            lemma_double_is_near(n as int);
        }
    }
    if n < 1_000_000 {
        cat2(write_tenths(tenths_of(a, 1_000)).as_str(), "k")
    } else if n < 1_000_000_000 {
        cat2(write_tenths(tenths_of(a, 1_000_000)).as_str(), "M")
    } else {
        cat2(write_tenths(tenths_of(a, 1_000_000_000)).as_str(), "B")
    }
}

proof fn lemma_double_is_near(n: int)
    requires
        0 <= n < 0x1_0000_0000_0000_0000,
    ensures
        n - 2048 <= as_double(n),
        n < 0x20_0000_0000_0000 ==> as_double(n) == n,
{
    lemma_spacing(n);
    let u = spacing(n);
    let q = n / u;
    assert(q * u > n - u) by (nonlinear_arith)
        requires
            q == n / u,
            u >= 1,
    ;
    assert((q + 1) * u >= q * u) by (nonlinear_arith)
        requires
            u >= 1,
    ;
    if n < 0x20_0000_0000_0000 {
        lemma_small_counts_are_doubles(n);
    }
}

// ─── laws ───────────────────────────────────────────────────────────────────
proof fn lemma_quotient(x: int, s: int, q: int, r: int)
    requires
        s > 0,
        0 <= r < s,
        x == q * s + r,
    ensures
        x / s == q,
        x % s == r,
{
    vstd::arithmetic::div_mod::lemma_fundamental_div_mod_converse(x, s, q, r);
}

/// Rounding gives the integer that is closest to a quotient; of two equally close
/// ones, the even one.
pub proof fn rounding_is_closest(a: int, b: int, t: int)
    requires
        b > 0,
    ensures
        -b < 2 * (a - t * b) < b ==> nearest(a, b) == t,
        2 * (a - t * b) == b ==> nearest(a, b) == if t % 2 == 0 {
            t
        } else {
            t + 1
        },
{
    let d = a - t * b;
    if 0 <= 2 * d < b {
        lemma_quotient(a, b, t, d);
    } else if -b < 2 * d < 0 {
        assert(a == (t - 1) * b + (b + d)) by (nonlinear_arith)
            requires
                d == a - t * b,
        ;
        lemma_quotient(a, b, t - 1, b + d);
    } else if 2 * d == b {
        lemma_quotient(a, b, t, d);
    }
}

/// Counts up to nine quadrillions are exact.
pub proof fn usual_counts_are_exact(n: int)
    requires
        0 <= n < 0x20_0000_0000_0000,
    ensures
        as_double(n) == n,
{
    lemma_small_counts_are_doubles(n);
}

/// Tenths are written with one decimal.
pub proof fn tenths_have_one_decimal(whole: int, tenth: int)
    requires
        whole >= 0,
        0 <= tenth < 10,
    ensures
        tenths_text(10 * whole + tenth) == decimal(whole as nat) + "."@ + decimal(tenth as nat),
{
}

proof fn lemma_full_units(k: int, i: int)
    requires
        0 < k < 1024,
        1 <= i <= 4,
    ensures
        size_text(k * unit_size(i)) == decimal(k as nat) + " "@ + size_unit(i),
{
    let u = unit_size(i);
    let b = k * u;
    assert(unit_for(b) == i) by {
        if i == 1 {
            assert(0x400 <= b < 0x10_0000);
        } else if i == 2 {
            assert(0x10_0000 <= b < 0x4000_0000);
        } else if i == 3 {
            assert(0x4000_0000 <= b < 0x100_0000_0000);
        } else {
            assert(0x100_0000_0000 <= b);
        }
    }
    assert(b < 0x20_0000_0000_0000);
    lemma_small_counts_are_doubles(b);
    lemma_quotient(b, u, k, 0);
}

/// A size is given in bytes below 1024, and else in the largest unit of which it
/// has one: full units without a decimal, and sizes with a tenth or more over with
/// one.
#[verifier::rlimit(50)]
pub proof fn sizes_are_given_in_their_unit(k: int, tenth: int)
    requires
        0 < k < 1024,
        0 < tenth < 10,
    ensures
        size_text(0) == decimal(0) + " B"@,
        size_text(k) == decimal(k as nat) + " B"@,
        size_text(k * 0x400) == decimal(k as nat) + " KB"@,
        size_text(k * 0x10_0000) == decimal(k as nat) + " MB"@,
        size_text(k * 0x4000_0000) == decimal(k as nat) + " GB"@,
        size_text(k * 0x100_0000_0000) == decimal(k as nat) + " TB"@,
        size_text((10 * k + tenth) * 0x4000_0000 / 10) == decimal(k as nat) + "."@ + decimal(tenth as nat)
            + " GB"@,
{
    reveal_strlit(" ");
    reveal_strlit("B");
    reveal_strlit("KB");
    reveal_strlit("MB");
    reveal_strlit("GB");
    reveal_strlit("TB");
    reveal_strlit(" B");
    reveal_strlit(" KB");
    reveal_strlit(" MB");
    reveal_strlit(" GB");
    reveal_strlit(" TB");
    assert(" "@ + "B"@ =~= " B"@);
    assert(" "@ + "KB"@ =~= " KB"@);
    assert(" "@ + "MB"@ =~= " MB"@);
    assert(" "@ + "GB"@ =~= " GB"@);
    assert(" "@ + "TB"@ =~= " TB"@);
    lemma_small_counts_are_doubles(0);
    lemma_small_counts_are_doubles(k);
    lemma_small_counts_are_doubles(k * 0x400);
    lemma_small_counts_are_doubles(k * 0x10_0000);
    lemma_small_counts_are_doubles(k * 0x4000_0000);
    lemma_small_counts_are_doubles(k * 0x100_0000_0000);
    lemma_full_units(k, 1);
    lemma_full_units(k, 2);
    lemma_full_units(k, 3);
    lemma_full_units(k, 4);
    assert(decimal(0) + " "@ + "B"@ =~= decimal(0) + " B"@);
    assert(decimal(k as nat) + " "@ + "B"@ =~= decimal(k as nat) + " B"@);
    assert(decimal(k as nat) + " "@ + "KB"@ =~= decimal(k as nat) + " KB"@);
    assert(decimal(k as nat) + " "@ + "MB"@ =~= decimal(k as nat) + " MB"@);
    assert(decimal(k as nat) + " "@ + "GB"@ =~= decimal(k as nat) + " GB"@);
    assert(decimal(k as nat) + " "@ + "TB"@ =~= decimal(k as nat) + " TB"@);
    let u: int = 0x4000_0000;
    let t = 10 * k + tenth;
    let n = t * 0x4000_0000 / 10;
    lemma_small_counts_are_doubles(n);
    assert(t * u - 10 < 10 * n <= t * u);
    assert(10 * (k * u) + tenth * u - 10 < 10 * n <= 10 * (k * u) + tenth * u);
    assert(k * u <= n < (k + 1) * u);
    lemma_quotient(n, u, k, n - k * u);
    assert(20 * (n % u) >= u);
    rounding_is_closest(10 * n, u, t);
    tenths_have_one_decimal(k, tenth);
    let text = decimal(k as nat) + "."@ + decimal(tenth as nat);
    assert(text + " "@ + "GB"@ =~= text + " GB"@);
}

proof fn lemma_double_quotient(a: int, b: int)
    requires
        a > 0,
        b > 0,
    ensures
        ({
            let (m, scale) = double_quotient(a, b);
            &&& scale >= 1
            &&& -b <= 2 * (a * scale - m * b) <= b
            &&& a * scale >= 0x10_0000_0000_0000 * b
        }),
    decreases
            if a < 0x10_0000_0000_0000 * b {
                0x10_0000_0000_0000 * b - a
            } else {
                0
            },
{
    if a >= 0x10_0000_0000_0000 * b {
        let q = a / b;
        let r = a % b;
        vstd::arithmetic::div_mod::lemma_fundamental_div_mod(a, b);
        assert(a == b * q + r && 0 <= r < b);
        assert(b * q == q * b) by (nonlinear_arith);
        assert((q + 1) * b == q * b + b) by (nonlinear_arith);
    } else {
        lemma_double_quotient(2 * a, b);
        let (m, scale) = double_quotient(2 * a, b);
        assert(2 * a * scale == a * (2 * scale)) by (nonlinear_arith);
    }
}

#[verifier::rlimit(50)]
proof fn lemma_exact_tenths(a: int, b: int, t: int)
    requires
        a > 0,
        b > 0,
        10 * a == t * b,
        a < 0x1_0000_0000_0000 * b,
    ensures
        quotient_tenths(a, b) == t,
{
    lemma_double_quotient(a, b);
    let (m, scale) = double_quotient(a, b);
    assert(scale > 10) by (nonlinear_arith)
        requires
            a * scale >= 0x10_0000_0000_0000 * b,
            0 < a < 0x1_0000_0000_0000 * b,
            b > 0,
            scale >= 1,
    ;
    let d = 10 * m - t * scale;
    assert(10 * (a * scale) == (t * scale) * b) by (nonlinear_arith)
        requires
            10 * a == t * b,
    ;
    assert(d * b == 10 * (m * b) - (t * scale) * b) by (nonlinear_arith)
        requires
            d == 10 * m - t * scale,
    ;
    assert(-10 * b <= 2 * (d * b) <= 10 * b);
    assert(-5 <= d <= 5) by (nonlinear_arith)
        requires
            -10 * b <= 2 * (d * b) <= 10 * b,
            b > 0,
    ;
    rounding_is_closest(10 * m, scale, t);
}

/// Small counts are written out; larger ones are given in thousands, millions and
/// billions, with one decimal.
#[verifier::rlimit(50)]
pub proof fn counts_are_given_in_short(n: int, t: int)
    requires
        0 <= n < 1_000,
        10 <= t < 10_000,
    ensures
        count_text(n) == decimal(n as nat),
        count_text(100 * t) == decimal((t / 10) as nat) + "."@ + decimal((t % 10) as nat) + "k"@,
        count_text(100_000 * t) == decimal((t / 10) as nat) + "."@ + decimal((t % 10) as nat) + "M"@,
        count_text(100_000_000 * t) == decimal((t / 10) as nat) + "."@ + decimal((t % 10) as nat) + "B"@,
{
    lemma_small_counts_are_doubles(100 * t);
    lemma_small_counts_are_doubles(100_000 * t);
    lemma_small_counts_are_doubles(100_000_000 * t);
    lemma_exact_tenths(100 * t, 1_000, t);
    lemma_exact_tenths(100_000 * t, 1_000_000, t);
    lemma_exact_tenths(100_000_000 * t, 1_000_000_000, t);
}

proof fn lemma_tenth_over(k: int, tenth: int, u: int, n: int)
    requires
        0 < k < 1024,
        0 < tenth < 10,
        u == 0x400 || u == 0x10_0000 || u == 0x4000_0000 || u == 0x100_0000_0000,
        n == (10 * k + tenth) * u / 10,
    ensures
        k * u <= n < 1024 * u,
        n < 0x20_0000_0000_0000,
        20 * (n % u) >= u,
        nearest(10 * n, u) == 10 * k + tenth,
{
    let t = 10 * k + tenth;
    if u == 0x400 {
        assert(t * 0x400 - 10 < 10 * n <= t * 0x400);
        lemma_quotient(n, 0x400, k, n - k * 0x400);
    } else if u == 0x10_0000 {
        assert(t * 0x10_0000 - 10 < 10 * n <= t * 0x10_0000);
        lemma_quotient(n, 0x10_0000, k, n - k * 0x10_0000);
    } else if u == 0x4000_0000 {
        assert(t * 0x4000_0000 - 10 < 10 * n <= t * 0x4000_0000);
        lemma_quotient(n, 0x4000_0000, k, n - k * 0x4000_0000);
    } else {
        assert(t * 0x100_0000_0000 - 10 < 10 * n <= t * 0x100_0000_0000);
        lemma_quotient(n, 0x100_0000_0000, k, n - k * 0x100_0000_0000);
    }
    rounding_is_closest(10 * n, u, t);
}

/// In every unit a size with a tenth or more over is given with one decimal.
#[verifier::rlimit(50)]
pub proof fn sizes_have_one_decimal(k: int, tenth: int)
    requires
        0 < k < 1024,
        0 < tenth < 10,
    ensures
        ({
            let t = 10 * k + tenth;
            let text = decimal(k as nat) + "."@ + decimal(tenth as nat);
            &&& size_text(t * 0x400 / 10) == text + " "@ + "KB"@
            &&& size_text(t * 0x10_0000 / 10) == text + " "@ + "MB"@
            &&& size_text(t * 0x4000_0000 / 10) == text + " "@ + "GB"@
            &&& size_text(t * 0x100_0000_0000 / 10) == text + " "@ + "TB"@
        }),
{
    let t = 10 * k + tenth;
    tenths_have_one_decimal(k, tenth);
    let a = t * 0x400 / 10;
    let b = t * 0x10_0000 / 10;
    let c = t * 0x4000_0000 / 10;
    let d = t * 0x100_0000_0000 / 10;
    lemma_tenth_over(k, tenth, 0x400, a);
    lemma_tenth_over(k, tenth, 0x10_0000, b);
    lemma_tenth_over(k, tenth, 0x4000_0000, c);
    lemma_tenth_over(k, tenth, 0x100_0000_0000, d);
    lemma_small_counts_are_doubles(a);
    lemma_small_counts_are_doubles(b);
    lemma_small_counts_are_doubles(c);
    lemma_small_counts_are_doubles(d);
    assert(unit_for(a) == 1 && unit_for(b) == 2 && unit_for(c) == 3 && unit_for(d) == 4);
}

} // verus!
