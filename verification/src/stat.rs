//! What a client reports in the end: how much data a request moved, and how fast.
//!
//! The figures are worked out in double precision and shown with two decimals.

use vstd::prelude::*;
use vstd::string::StringExecFns;
use crate::config::DataType;
use vstd::arithmetic::power2;
use crate::double::{Double, BOUND, LEAST};

verus! {

/// The number 1000.
pub open spec fn thousand() -> Double {
    Double { significand: 0x1F_4000_0000_0000, exponent: (-43) as i32 }
}

/// A number of given parts, with its exponent raised.
pub open spec fn shifted(parts: (nat, int), by: int) -> Double {
    Double { significand: parts.0 as u64, exponent: (parts.1 + by) as i32 }
}

/// A latency in microseconds as seconds: divided by a thousand twice.
pub open spec fn in_seconds(latency: nat) -> Double {
    let micros = shifted(crate::double::nearest(latency, 1), 0);
    shifted(shifted(micros.quotient(thousand()), 0).quotient(thousand()), 0)
}

/// A figure that is shown.
pub enum Figure {
    /// So many hundredths.
    Hundredths(u128),
    /// Something over nothing.
    Infinite,
    /// Nothing over nothing.
    Undefined,
}

/// The hundredths of a number.
pub open spec fn hundredths_of(d: Double) -> nat {
    crate::double::nearest_integer(100 * d.significand as nat, d.exponent as int)
}

/// The size in units of `2^20` bytes.
pub open spec fn megabytes(size: nat) -> Figure {
    Figure::Hundredths(
        if size == 0 {
            0
        } else {
            hundredths_of(shifted(crate::double::nearest(size, 1), -20)) as u128
        },
    )
}

/// The bandwidth in units of `2^30` bits per second, when `size` bytes take `latency`
/// microseconds.
pub open spec fn bandwidth(size: nat, latency: nat) -> Figure {
    if latency == 0 {
        if size == 0 { Figure::Undefined } else { Figure::Infinite }
    } else if size == 0 {
        Figure::Hundredths(0)
    } else {
        let bits = shifted(crate::double::nearest(size, 1), 3);
        Figure::Hundredths(hundredths_of(shifted(bits.quotient(in_seconds(latency)), -30)) as u128)
    }
}

/// A decimal digit.
pub open spec fn digit_char(d: int) -> char {
    (48 + d) as char
}

/// A number in decimal.
pub open spec fn decimal_text(n: nat) -> Seq<char>
    decreases n,
{
    if n < 10 {
        seq![digit_char(n as int)]
    } else {
        decimal_text(n / 10).push(digit_char((n % 10) as int))
    }
}

/// A figure with two decimals.
pub open spec fn figure_text(f: Figure) -> Seq<char> {
    match f {
        Figure::Hundredths(n) => decimal_text(n as nat / 100) + seq![
            '.',
            digit_char(n as int / 10 % 10),
            digit_char(n as int % 10),
        ],
        Figure::Infinite => "inf"@,
        Figure::Undefined => "NaN"@,
    }
}

/// The report on requests of `size` bytes that take `latency` microseconds.
pub open spec fn stat_text(size: nat, latency: nat) -> Seq<char> {
    "size: "@ + figure_text(megabytes(size)) + "MB, bandwidth: "@ + figure_text(bandwidth(size, latency)) + "Gbps"@
}

/// One decimal digit as text.
fn digit(d: u128) -> (s: &'static str)
    requires
        d < 10,
    ensures
        s@ == seq![digit_char(d as int)],
{
    proof {
        reveal_strlit("0");
        reveal_strlit("1");
        reveal_strlit("2");
        reveal_strlit("3");
        reveal_strlit("4");
        reveal_strlit("5");
        reveal_strlit("6");
        reveal_strlit("7");
        reveal_strlit("8");
        reveal_strlit("9");
    }
    let s: &'static str = if d == 0 {
        "0"
    } else if d == 1 {
        "1"
    } else if d == 2 {
        "2"
    } else if d == 3 {
        "3"
    } else if d == 4 {
        "4"
    } else if d == 5 {
        "5"
    } else if d == 6 {
        "6"
    } else if d == 7 {
        "7"
    } else if d == 8 {
        "8"
    } else {
        "9"
    };
    assert(s@ =~= seq![digit_char(d as int)]);
    s
}

/// A number in decimal.
fn decimal(n: u128) -> (s: String)
    ensures
        s@ == decimal_text(n as nat),
    decreases n,
{
    if n < 10 {
        digit(n).to_string()
    } else {
        let mut s: String = decimal(n / 10);
        s.append(digit(n % 10));
        assert(s@ =~= decimal_text(n as nat));
        s
    }
}

/// A figure with two decimals.
fn show(f: &Figure) -> (s: String)
    ensures
        s@ == figure_text(*f),
{
    match f {
        Figure::Hundredths(n) => {
            let n: u128 = *n;
            let mut s: String = decimal(n / 100);
            s.append(".");
            s.append(digit(n / 10 % 10));
            s.append(digit(n % 10));
            proof {
                reveal_strlit(".");
            }
            assert(s@ =~= figure_text(*f));
            s
        },
        Figure::Infinite => "inf".to_string(),
        Figure::Undefined => "NaN".to_string(),
    }
}

/// A latency in microseconds as seconds.
fn seconds(latency: u128) -> (d: Double)
    requires
        latency > 0,
    ensures
        d.normal(),
        d == in_seconds(latency as nat),
        -72 <= d.exponent <= 60,
{
    let thousand = Double { significand: 0x1F_4000_0000_0000, exponent: -43 };
    Double::from_integer(latency).divided_by(thousand).divided_by(thousand)
}

/// The size of a request in units of `2^20` bytes, and the bandwidth in units of `2^30` bits per
/// second.
fn figures(size: usize, latency: u128) -> (f: (Figure, Figure))
    ensures
        f.0 == megabytes(size as nat),
        f.1 == bandwidth(size as nat, latency as nat),
{
    if size == 0 {
        let rate = if latency == 0 { Figure::Undefined } else { Figure::Hundredths(0) };
        (Figure::Hundredths(0), rate)
    } else {
        let bytes: Double = Double::from_integer(size as u128);
        let mb = Double { significand: bytes.significand, exponent: bytes.exponent - 20 };
        let rate = if latency == 0 {
            Figure::Infinite
        } else {
            let bits = Double { significand: bytes.significand, exponent: bytes.exponent + 3 };
            let per_second: Double = bits.divided_by(seconds(latency));
            let gbps = Double { significand: per_second.significand, exponent: per_second.exponent - 30 };
            Figure::Hundredths(gbps.hundredths())
        };
        (Figure::Hundredths(mb.hundredths()), rate)
    }
}

/// The line that reports on requests of `size` bytes that take `latency` microseconds.
pub fn print_stat(size: usize, latency: u128) -> (line: String)
    ensures
        line@ == stat_text(size as nat, latency as nat),
{
    let (mb, rate) = figures(size, latency);
    let mut line: String = "size: ".to_string();
    line.append(show(&mb).as_str());
    line.append("MB, bandwidth: ");
    line.append(show(&rate).as_str());
    line.append("Gbps");
    line
}

/// The report of a client that has made `try_count` requests of `count` numbers on each of
/// `comms` connections in `elapsed` microseconds: the latency is the time per request.
pub fn report(count: usize, data_type: DataType, comms: usize, try_count: usize, elapsed: u128) -> (line: String)
    requires
        count * data_type.bytes() <= usize::MAX,
        count * data_type.bytes() * comms <= usize::MAX,
        try_count > 0,
    ensures
        line@ == stat_text((count * data_type.bytes() * comms) as nat, (elapsed as int / try_count as int) as nat),
        line@ == report_text(count as int, data_type, comms as int, try_count as int, elapsed as int),
{
    let bytes: usize = crate::config::buffer_bytes(count, data_type);
    print_stat(bytes * comms, elapsed / (try_count as u128))
}

/// The upper bound on a quotient whose terms are known up to one part in `k`.
proof fn lemma_chain_upper(z: int, l: int, u: int, k: int, b: int, m: int, p: int, s: int, q: int)
    requires
        z > 0 && l > 0 && u > 0 && k > 1 && b >= 0 && m >= 0 && p >= 0 && s >= 0 && q >= 0,
        k * b <= (k + 1) * (z * u),
        k * m >= (k - 1) * (l * u),
        k * (1000 * p) >= (k - 1) * m,
        k * (1000 * s) >= (k - 1) * p,
        k * (q * s) <= (k + 1) * (8 * b * u),
    ensures
        q * l * ((k - 1) * (k - 1) * (k - 1)) <= 8_000_000 * (z * u) * (k * (k + 1) * (k + 1)),
{
    let y = l * u;
    let x = z * u;
    assert(k * k * (1_000_000 * s) >= (k - 1) * (k - 1) * m) by (nonlinear_arith)
        requires
            k * (1000 * s) >= (k - 1) * p,
            k * (1000 * p) >= (k - 1) * m,
            k > 1,
    ;
    assert(k * k * k * (1_000_000 * s) >= (k - 1) * (k - 1) * (k - 1) * y) by (nonlinear_arith)
        requires
            k * k * (1_000_000 * s) >= (k - 1) * (k - 1) * m,
            k * m >= (k - 1) * y,
            k > 1,
    ;
    assert(k * k * (q * s) <= (k + 1) * (k + 1) * (8 * x * u)) by (nonlinear_arith)
        requires
            k * (q * s) <= (k + 1) * (8 * b * u),
            k * b <= (k + 1) * x,
            k > 1,
            u > 0,
    ;
    let c = (k - 1) * (k - 1) * (k - 1);
    assert(q * (c * y) <= q * (k * k * k * (1_000_000 * s))) by (nonlinear_arith)
        requires
            k * k * k * (1_000_000 * s) >= c * y,
            q >= 0,
    ;
    assert(q * (k * k * k * (1_000_000 * s)) == 1_000_000 * k * (k * k * (q * s))) by (nonlinear_arith);
    assert(1_000_000 * k * (k * k * (q * s)) <= 1_000_000 * k * ((k + 1) * (k + 1) * (8 * x * u))) by (nonlinear_arith)
        requires
            k * k * (q * s) <= (k + 1) * (k + 1) * (8 * x * u),
            k > 1,
    ;
    let left = q * l * c;
    let right = 8_000_000 * x * (k * (k + 1) * (k + 1));
    assert(q * (c * y) == left * u) by (nonlinear_arith)
        requires
            y == l * u,
            left == q * l * c,
    ;
    assert(1_000_000 * k * ((k + 1) * (k + 1) * (8 * x * u)) == right * u) by (nonlinear_arith)
        requires
            right == 8_000_000 * x * (k * (k + 1) * (k + 1)),
    ;
    assert(left <= right) by (nonlinear_arith)
        requires
            left * u <= right * u,
            u > 0,
    ;
}

/// The lower bound on a quotient whose terms are known up to one part in `k`.
proof fn lemma_chain_lower(z: int, l: int, u: int, k: int, b: int, m: int, p: int, s: int, q: int)
    requires
        z > 0 && l > 0 && u > 0 && k > 1 && b >= 0 && m >= 0 && p >= 0 && s >= 0 && q >= 0,
        k * b >= (k - 1) * (z * u),
        k * m <= (k + 1) * (l * u),
        k * (1000 * p) <= (k + 1) * m,
        k * (1000 * s) <= (k + 1) * p,
        k * (q * s) >= (k - 1) * (8 * b * u),
    ensures
        q * l * ((k + 1) * (k + 1) * (k + 1)) >= 8_000_000 * (z * u) * (k * (k - 1) * (k - 1)),
{
    let y = l * u;
    let x = z * u;
    assert(k * k * (1_000_000 * s) <= (k + 1) * (k + 1) * m) by (nonlinear_arith)
        requires
            k * (1000 * s) <= (k + 1) * p,
            k * (1000 * p) <= (k + 1) * m,
            k > 1,
    ;
    assert(k * k * k * (1_000_000 * s) <= (k + 1) * (k + 1) * (k + 1) * y) by (nonlinear_arith)
        requires
            k * k * (1_000_000 * s) <= (k + 1) * (k + 1) * m,
            k * m <= (k + 1) * y,
            k > 1,
    ;
    assert(k * k * (q * s) >= (k - 1) * (k - 1) * (8 * x * u)) by (nonlinear_arith)
        requires
            k * (q * s) >= (k - 1) * (8 * b * u),
            k * b >= (k - 1) * x,
            k > 1,
            u > 0,
    ;
    let c = (k + 1) * (k + 1) * (k + 1);
    assert(q * (c * y) >= q * (k * k * k * (1_000_000 * s))) by (nonlinear_arith)
        requires
            k * k * k * (1_000_000 * s) <= c * y,
            q >= 0,
    ;
    assert(q * (k * k * k * (1_000_000 * s)) == 1_000_000 * k * (k * k * (q * s))) by (nonlinear_arith);
    assert(1_000_000 * k * (k * k * (q * s)) >= 1_000_000 * k * ((k - 1) * (k - 1) * (8 * x * u))) by (nonlinear_arith)
        requires
            k * k * (q * s) >= (k - 1) * (k - 1) * (8 * x * u),
            k > 1,
    ;
    let left = q * l * c;
    let right = 8_000_000 * x * (k * (k - 1) * (k - 1));
    assert(q * (c * y) == left * u) by (nonlinear_arith)
        requires
            y == l * u,
            left == q * l * c,
    ;
    assert(1_000_000 * k * ((k - 1) * (k - 1) * (8 * x * u)) == right * u) by (nonlinear_arith)
        requires
            right == 8_000_000 * x * (k * (k - 1) * (k - 1)),
    ;
    assert(left >= right) by (nonlinear_arith)
        requires
            left * u >= right * u,
            u > 0,
    ;
}

/// A number that is known up to one part in two to the power of 53 lies between two bounds.
proof fn lemma_between(k: int, a: int, b: int)
    requires
        k > 1,
        a >= 0,
        k * crate::double::distance(a, b) <= b,
    ensures
        k * a <= (k + 1) * b,
        k * a >= (k - 1) * b,
{
    assert(k * a <= (k + 1) * b && k * a >= (k - 1) * b) by (nonlinear_arith)
        requires
            k * crate::double::distance(a, b) <= b,
            crate::double::distance(a, b) == (if a < b { b - a } else { a - b }),
            k > 1,
    ;
}

/// Both bounds on a quotient put together, with the powers of two filled in.
proof fn lemma_chain_close(v: int, w: int)
    requires
        v >= 0,
        w >= 0,
        v * (0x1f_ffff_ffff_ffff * 0x1f_ffff_ffff_ffff * 0x1f_ffff_ffff_ffff)
            <= w * (0x20_0000_0000_0000 * 0x20_0000_0000_0001 * 0x20_0000_0000_0001),
        v * (0x20_0000_0000_0001 * 0x20_0000_0000_0001 * 0x20_0000_0000_0001)
            >= w * (0x20_0000_0000_0000 * 0x1f_ffff_ffff_ffff * 0x1f_ffff_ffff_ffff),
    ensures
        0x4_0000_0000_0000 * crate::double::distance(v, w) <= w,
{
    let c1: int = 0x1f_ffff_ffff_ffffint * 0x1f_ffff_ffff_ffffint * 0x1f_ffff_ffff_ffffint;
    let c2: int = 0x20_0000_0000_0000int * 0x20_0000_0000_0001int * 0x20_0000_0000_0001int;
    let c3: int = 0x20_0000_0000_0001int * 0x20_0000_0000_0001int * 0x20_0000_0000_0001int;
    let c4: int = 0x20_0000_0000_0000int * 0x1f_ffff_ffff_ffffint * 0x1f_ffff_ffff_ffffint;
    assert(0x4_0000_0000_0000 * c2 <= 0x4_0000_0000_0001 * c1);
    assert(0x4_0000_0000_0000 * c4 >= 0x3_ffff_ffff_ffff * c3);
    assert(0x4_0000_0000_0000 * v <= 0x4_0000_0000_0001 * w) by (nonlinear_arith)
        requires
            v * c1 <= w * c2,
            0x4_0000_0000_0000 * c2 <= 0x4_0000_0000_0001 * c1,
            c1 > 0,
            w >= 0,
    ;
    assert(0x4_0000_0000_0000 * v >= 0x3_ffff_ffff_ffff * w) by (nonlinear_arith)
        requires
            v * c3 >= w * c4,
            0x4_0000_0000_0000 * c4 >= 0x3_ffff_ffff_ffff * c3,
            c3 > 0,
            w >= 0,
    ;
}

/// The rounded hundredths of a quotient that is known closely.
proof fn lemma_rounded(z: int, l: int, u: int, q: int, h: int)
    requires
        z > 0 && l > 0 && u > 0 && q >= 0 && h >= 0,
        0x4_0000_0000_0000 * crate::double::distance(q * l, 8_000_000 * (z * u)) <= 8_000_000 * (z * u),
        2 * crate::double::distance(h * (0x4000_0000 * u), 100 * q) <= 0x4000_0000 * u,
    ensures
        0x4_0000_0000_0000 * crate::double::distance(h * l * 0x4000_0000, 800_000_000 * z)
            <= 0x4_0000_0000_0000 * 0x2000_0000 * l + 800_000_000 * z,
{
    let v = q * l;
    let w = 8_000_000 * (z * u);
    let a = h * (0x4000_0000 * u);
    let e1 = crate::double::distance(a, 100 * q);
    assert(a * l - 100 * v <= e1 * l && 100 * v - a * l <= e1 * l) by (nonlinear_arith)
        requires
            v == q * l,
            a - 100 * q <= e1,
            100 * q - a <= e1,
            l > 0,
    ;
    assert(2 * (e1 * l) <= 0x4000_0000 * u * l) by (nonlinear_arith)
        requires
            2 * e1 <= 0x4000_0000 * u,
            l > 0,
    ;
    let x = h * l * 0x4000_0000;
    let y = 800_000_000 * z;
    assert(a * l == x * u) by (nonlinear_arith)
        requires
            a == h * (0x4000_0000 * u),
            x == h * l * 0x4000_0000,
    ;
    assert(100 * w == y * u) by (nonlinear_arith)
        requires
            w == 8_000_000 * (z * u),
            y == 800_000_000 * z,
    ;
    assert(0x4000_0000 * u * l == 0x4000_0000 * l * u) by (nonlinear_arith);
    let bound = 0x4_0000_0000_0000 * 0x2000_0000 * l + y;
    assert(bound * u == 0x4_0000_0000_0000 * (0x2000_0000 * l * u) + y * u) by (nonlinear_arith)
        requires
            bound == 0x4_0000_0000_0000 * 0x2000_0000 * l + y,
    ;
    let d = x - y;
    assert(d * u == x * u - y * u) by (nonlinear_arith)
        requires
            d == x - y,
    ;
    assert(2 * (0x2000_0000 * l * u) == 0x4000_0000 * l * u) by (nonlinear_arith);
    assert(0x4_0000_0000_0000 * (d * u) <= bound * u);
    assert(0x4_0000_0000_0000 * (-(d * u)) <= bound * u);
    assert(0x4_0000_0000_0000 * d <= bound && 0x4_0000_0000_0000 * (-d) <= bound) by (nonlinear_arith)
        requires
            0x4_0000_0000_0000 * (d * u) <= bound * u,
            0x4_0000_0000_0000 * (-(d * u)) <= bound * u,
            u > 0,
    ;
}

/// Dividing by a thousand is exact up to one part in two to the power of 53.
proof fn lemma_thousandth(a: Double)
    requires
        a.normal(),
        -200 <= a.exponent <= 200,
    ensures
        LEAST <= a.quotient(thousand()).0 < BOUND,
        a.exponent - 10 <= a.quotient(thousand()).1 <= a.exponent - 8,
        0x20_0000_0000_0000 * crate::double::distance(
            1000 * crate::double::in_units(a.quotient(thousand()), 400) as int,
            crate::double::in_units(a.parts(), 400) as int,
        ) <= crate::double::in_units(a.parts(), 400),
{
    let t = thousand();
    let u = power2::pow2(400) as int;
    power2::lemma_pow2_pos(400);
    power2::lemma2_to64();
    power2::lemma2_to64_rest();
    power2::lemma_pow2_adds(43, 357);
    crate::double::law_quotient_close(a, t, 400);
    let p = crate::double::in_units(a.quotient(t), 400) as int;
    let m = crate::double::in_units(a.parts(), 400) as int;
    assert(crate::double::in_units(t.parts(), 400) == 1000 * u) by (nonlinear_arith)
        requires
            crate::double::in_units(t.parts(), 400) == 0x1F_4000_0000_0000 * power2::pow2(357),
            u == power2::pow2(43) * power2::pow2(357),
            power2::pow2(43) == 0x800_0000_0000,
    ;
    assert(p * (1000 * u) == 1000 * p * u) by (nonlinear_arith);
    let d = crate::double::distance(1000 * p, m);
    crate::double::lemma_scaled_distance(1000 * p, m, u, 0, 0);
    assert(0x20_0000_0000_0000 * (d * u) <= m * u);
    assert(0x20_0000_0000_0000 * d <= m) by (nonlinear_arith)
        requires
            0x20_0000_0000_0000 * (d * u) <= m * u,
            u > 0,
    ;
}

/// The bandwidth that is shown is that of eight times `size` bits in `latency` microseconds, in
/// units of `2^30` bits per second and rounded to hundredths: it is no more than one half of a
/// hundredth away from it, and one part in `2^50` of it.
pub proof fn law_bandwidth(size: nat, latency: nat)
    requires
        0 < size <= u64::MAX,
        0 < latency <= u128::MAX,
    ensures
        bandwidth(size, latency) matches Figure::Hundredths(h) && 0x4_0000_0000_0000 * crate::double::distance(
            h * latency * 0x4000_0000,
            100 * (8 * size as int * 1_000_000),
        ) <= 0x4_0000_0000_0000 * 0x2000_0000 * latency + 100 * (8 * size * 1_000_000),
{
    let k: int = 0x20_0000_0000_0000;
    let z = size as int;
    let l = latency as int;
    let u = power2::pow2(400) as int;
    power2::lemma_pow2_pos(400);
    power2::lemma2_to64();
    crate::double::law_integer_close(size, 400);
    crate::double::law_integer_close(latency, 400);
    let bytes = crate::double::nearest(size, 1);
    let bits = shifted(bytes, 3);
    let micros = shifted(crate::double::nearest(latency, 1), 0);
    let b = crate::double::in_units(bytes, 400) as int;
    let m = crate::double::in_units(micros.parts(), 400) as int;
    assert(crate::double::in_units(bits.parts(), 400) == 8 * b) by {
        power2::lemma_pow2_adds(3, (bytes.1 + 400) as nat);
        assert(bytes.0 * (8 * power2::pow2((bytes.1 + 400) as nat)) == 8 * (bytes.0 * power2::pow2(
            (bytes.1 + 400) as nat,
        ))) by (nonlinear_arith);
    }
    lemma_thousandth(micros);
    let millis = shifted(micros.quotient(thousand()), 0);
    let p = crate::double::in_units(millis.parts(), 400) as int;
    lemma_thousandth(millis);
    let secs = shifted(millis.quotient(thousand()), 0);
    let s = crate::double::in_units(secs.parts(), 400) as int;
    assert(secs == in_seconds(latency));
    crate::double::law_quotient_close(bits, secs, 400);
    let rate = bits.quotient(secs);
    let q = crate::double::in_units(rate, 400) as int;
    let gbps = shifted(rate, -30);
    let h = hundredths_of(gbps) as int;
    power2::lemma_pow2_adds(30, 400);
    crate::double::law_hundredths_close(rate.0, rate.1 - 30, 430);
    assert(h * (0x4000_0000 * u) == h * power2::pow2(430));
    lemma_figure_fits(gbps);
    lemma_between(k, b, z * u);
    lemma_between(k, m, l * u);
    lemma_between(k, 1000 * p, m);
    lemma_between(k, 1000 * s, p);
    assert(q * s >= 0) by (nonlinear_arith)
        requires
            q >= 0,
            s >= 0,
    ;
    lemma_between(k, q * s, 8 * b * u);
    lemma_chain_upper(z, l, u, k, b, m, p, s, q);
    lemma_chain_lower(z, l, u, k, b, m, p, s, q);
    assert(q * l >= 0 && 8_000_000 * (z * u) >= 0) by (nonlinear_arith)
        requires
            q >= 0,
            l > 0,
            z > 0,
            u > 0,
    ;
    lemma_chain_close(q * l, 8_000_000 * (z * u));
    lemma_rounded(z, l, u, q, h);
}

/// The hundredths of a number that is not too large fit into 128 bits.
proof fn lemma_figure_fits(d: Double)
    requires
        d.normal(),
        d.exponent <= 60,
    ensures
        hundredths_of(d) <= u128::MAX,
{
    power2::lemma2_to64();
    power2::lemma2_to64_rest();
    let n = 100 * d.significand as nat;
    if d.exponent >= 0 {
        if d.exponent < 60 {
            power2::lemma_pow2_strictly_increases(d.exponent as nat, 60);
        }
        assert(n * power2::pow2(d.exponent as nat) <= u128::MAX) by (nonlinear_arith)
            requires
                n <= 100 * 0x20_0000_0000_0000,
                power2::pow2(d.exponent as nat) <= 0x1000_0000_0000_0000,
        ;
    } else {
        let p = power2::pow2((-d.exponent) as nat);
        power2::lemma_pow2_pos((-d.exponent) as nat);
        assert(n / p <= n) by (nonlinear_arith)
            requires
                p >= 1,
        ;
    }
}

/// The size that is shown is that of `size` bytes in units of `2^20` bytes, rounded to hundredths:
/// it is no more than one half of a hundredth away from it, and one part in `2^53` of it.
pub proof fn law_megabytes(size: nat)
    requires
        0 < size <= u64::MAX,
    ensures
        megabytes(size) matches Figure::Hundredths(h) && 0x20_0000_0000_0000 * crate::double::distance(
            h * 0x10_0000,
            100 * size as int,
        ) <= 0x20_0000_0000_0000 * 0x8_0000 + 100 * size,
{
    let k: int = 0x20_0000_0000_0000;
    let z = size as int;
    let u = power2::pow2(400) as int;
    power2::lemma_pow2_pos(400);
    power2::lemma2_to64();
    crate::double::law_integer_close(size, 400);
    let bytes = crate::double::nearest(size, 1);
    let b = crate::double::in_units(bytes, 400) as int;
    let mb = shifted(bytes, -20);
    let h = hundredths_of(mb) as int;
    power2::lemma_pow2_adds(20, 400);
    crate::double::law_hundredths_close(bytes.0, bytes.1 - 20, 420);
    lemma_figure_fits(mb);
    assert(2 * crate::double::distance(h * (0x10_0000 * u), 100 * b) <= 0x10_0000 * u);
    assert(k * crate::double::distance(b, z * u) <= z * u);
    let x = h * 0x10_0000;
    let y = 100 * z;
    assert(h * (0x10_0000 * u) == x * u) by (nonlinear_arith)
        requires
            x == h * 0x10_0000,
    ;
    assert(100 * (z * u) == y * u) by (nonlinear_arith)
        requires
            y == 100 * z,
    ;
    let d = x - y;
    assert(d * u == x * u - y * u) by (nonlinear_arith)
        requires
            d == x - y,
    ;
    let bound = k * 0x8_0000 + y;
    assert(bound * u == k * (0x8_0000 * u) + y * u) by (nonlinear_arith)
        requires
            bound == k * 0x8_0000 + y,
    ;
    assert(k * (d * u) <= bound * u);
    assert(k * (-(d * u)) <= bound * u);
    assert(k * d <= bound && k * (-d) <= bound) by (nonlinear_arith)
        requires
            k * (d * u) <= bound * u,
            k * (-(d * u)) <= bound * u,
            u > 0,
    ;
}

/// Without bytes nothing is shown, and without time something infinite, or nothing that is defined.
pub proof fn law_no_bytes_or_time(size: nat, latency: nat)
    requires
        size == 0 || latency == 0,
    ensures
        size == 0 ==> megabytes(size) == Figure::Hundredths(0),
        size == 0 && latency > 0 ==> bandwidth(size, latency) == Figure::Hundredths(0),
        size > 0 ==> bandwidth(size, latency) == Figure::Infinite,
        size == 0 && latency == 0 ==> bandwidth(size, latency) == Figure::Undefined,
{
}

/// Twice the bytes in twice the time are shown as the same bandwidth.
pub proof fn law_same_rate(size: nat, latency: nat)
    requires
        0 < size,
        2 * size <= u64::MAX,
        0 < latency,
        2 * latency <= u128::MAX,
    ensures
        bandwidth(2 * size, 2 * latency) == bandwidth(size, latency),
{
    crate::double::law_twice(size);
    crate::double::law_twice(latency);
    crate::double::law_integer_close(size, 400);
    crate::double::law_integer_close(latency, 400);
    crate::double::law_integer_close(2 * size, 400);
    crate::double::law_integer_close(2 * latency, 400);
    let m1 = shifted(crate::double::nearest(latency, 1), 0);
    let m2 = shifted(crate::double::nearest(2 * latency, 1), 0);
    assert(m2.significand == m1.significand && m2.exponent == m1.exponent + 1);
    lemma_thousandth(m1);
    let p1 = shifted(m1.quotient(thousand()), 0);
    let p2 = shifted(m2.quotient(thousand()), 0);
    assert(p2.significand == p1.significand && p2.exponent == p1.exponent + 1);
    lemma_thousandth(p1);
    let s1 = shifted(p1.quotient(thousand()), 0);
    let s2 = shifted(p2.quotient(thousand()), 0);
    assert(s2.significand == s1.significand && s2.exponent == s1.exponent + 1);
    let b1 = shifted(crate::double::nearest(size, 1), 3);
    let b2 = shifted(crate::double::nearest(2 * size, 1), 3);
    assert(b2.significand == b1.significand && b2.exponent == b1.exponent + 1);
    assert(b1.quotient(s1) == b2.quotient(s2));
}

/// The value of a decimal digit.
pub open spec fn digit_value(c: char) -> int {
    c as int - '0' as int
}

/// The number that digits stand for, highest first.
pub open spec fn value_of(text: Seq<char>) -> int
    decreases text.len(),
{
    if text.len() == 0 {
        0
    } else {
        10 * value_of(text.drop_last()) + digit_value(text.last())
    }
}

/// All characters are decimal digits.
pub open spec fn all_digits(text: Seq<char>) -> bool {
    forall|i: int| 0 <= i < text.len() ==> 0 <= digit_value(#[trigger] text[i]) <= 9
}

/// A number in decimal is made of digits that stand for it, without a zero in front of others.
pub proof fn law_decimal(n: nat)
    ensures
        value_of(decimal_text(n)) == n,
        all_digits(decimal_text(n)),
        decimal_text(n).len() > 0,
        decimal_text(n).len() > 1 ==> digit_value(decimal_text(n)[0]) > 0,
        n > 0 ==> digit_value(decimal_text(n)[0]) > 0,
    decreases n,
{
    let text = decimal_text(n);
    if n < 10 {
        assert(text.drop_last() =~= Seq::<char>::empty());
        assert(text.last() == digit_char(n as int));
        assert(value_of(text.drop_last()) == 0);
    } else {
        law_decimal(n / 10);
        assert(text.drop_last() =~= decimal_text(n / 10));
        assert(text.last() == digit_char((n % 10) as int));
        assert forall|i: int| 0 <= i < text.len() implies 0 <= digit_value(#[trigger] text[i]) <= 9 by {
            if i < text.len() - 1 {
                assert(text[i] == decimal_text(n / 10)[i]);
            }
        }
        assert(text[0] == decimal_text(n / 10)[0]);
    }
}

/// A figure that is shown has digits, a point and two more digits; taken together, the digits stand
/// for its hundredths.
pub proof fn law_figure(n: u128)
    ensures
        ({
            let text = figure_text(Figure::Hundredths(n));
            let whole = text.take(text.len() - 3);
            let rest = text.skip(text.len() - 2);
            &&& text.len() >= 4
            &&& text[text.len() - 3] == '.'
            &&& all_digits(whole)
            &&& all_digits(rest)
            &&& 100 * value_of(whole) + value_of(rest) == n
            &&& whole.len() > 1 ==> digit_value(whole[0]) > 0
        }),
{
    let text = figure_text(Figure::Hundredths(n));
    let whole = text.take(text.len() - 3);
    let rest = text.skip(text.len() - 2);
    law_decimal(n as nat / 100);
    assert(whole =~= decimal_text(n as nat / 100));
    assert(rest =~= seq![digit_char(n as int / 10 % 10), digit_char(n as int % 10)]);
    assert(rest.drop_last() =~= seq![digit_char(n as int / 10 % 10)]);
    assert(rest.drop_last().drop_last() =~= Seq::<char>::empty());
    assert(value_of(rest.drop_last().drop_last()) == 0);
    assert(value_of(rest.drop_last()) == digit_value(rest.drop_last().last()));
    assert(value_of(rest) == 10 * value_of(rest.drop_last()) + digit_value(rest.last()));
}

/// The line has the size and the bandwidth in their places, each with its unit behind it.
pub proof fn law_line(size: nat, latency: nat)
    ensures
        ({
            let line = stat_text(size, latency);
            let mb = figure_text(megabytes(size));
            let rate = figure_text(bandwidth(size, latency));
            let m = mb.len() as int;
            let r = rate.len() as int;
            &&& line.len() == 25 + m + r
            &&& line.take(6) == "size: "@
            &&& line.subrange(6, 6 + m) == mb
            &&& line.subrange(6 + m, 21 + m) == "MB, bandwidth: "@
            &&& line.subrange(21 + m, 21 + m + r) == rate
            &&& line.skip(21 + m + r) == "Gbps"@
            &&& figure_text(Figure::Infinite) == seq!['i', 'n', 'f']
            &&& figure_text(Figure::Undefined) == seq!['N', 'a', 'N']
        }),
{
    reveal_strlit("size: ");
    reveal_strlit("MB, bandwidth: ");
    reveal_strlit("Gbps");
    reveal_strlit("inf");
    reveal_strlit("NaN");
    let line = stat_text(size, latency);
    let mb = figure_text(megabytes(size));
    let rate = figure_text(bandwidth(size, latency));
    let m = mb.len() as int;
    let r = rate.len() as int;
    assert(line.take(6) =~= "size: "@);
    assert(line.subrange(6, 6 + m) =~= mb);
    assert(line.subrange(6 + m, 21 + m) =~= "MB, bandwidth: "@);
    assert(line.subrange(21 + m, 21 + m + r) =~= rate);
    assert(line.skip(21 + m + r) =~= "Gbps"@);
    assert("inf"@ =~= seq!['i', 'n', 'f']);
    assert("NaN"@ =~= seq!['N', 'a', 'N']);
}

/// The report of a client.
pub open spec fn report_text(count: int, data_type: DataType, comms: int, try_count: int, elapsed: int) -> Seq<char> {
    stat_text((count * data_type.bytes() * comms) as nat, (elapsed / try_count) as nat)
}

/// A report is that on the bytes of one request over all connections, and on the time of one
/// request in whole microseconds: the longest that `try_count` requests can take without exceeding
/// the time that has passed.
pub proof fn law_report(count: int, data_type: DataType, comms: int, try_count: int, elapsed: int, size: nat, latency: nat)
    requires
        count >= 0,
        comms >= 0,
        try_count > 0,
        size == comms * (count * data_type.bytes()),
        try_count * latency <= elapsed < try_count * (latency + 1),
    ensures
        report_text(count, data_type, comms, try_count, elapsed) == stat_text(size, latency),
{
    let bytes = count * data_type.bytes();
    assert(bytes * comms == comms * bytes) by (nonlinear_arith);
    assert(try_count * (latency + 1) == try_count * latency + try_count) by (nonlinear_arith);
    assert(latency * try_count == try_count * latency) by (nonlinear_arith);
    vstd::arithmetic::div_mod::lemma_fundamental_div_mod_converse(
        elapsed,
        try_count,
        latency as int,
        elapsed - try_count * latency,
    );
}

} // verus!
