//! Positive numbers of double precision, as a significand of 53 bits and a power of two.
//!
//! All results are those of the usual arithmetic of such numbers: the exact result, rounded to
//! the nearest number and, where two are equally near, to the one with the even significand.

use vstd::prelude::*;
use vstd::arithmetic::power2;
use vstd::arithmetic::div_mod;

verus! {

/// The least significand.
pub const LEAST: u64 = 0x10_0000_0000_0000;

/// The bound below which all significands are.
pub const BOUND: u64 = 0x20_0000_0000_0000;

/// The number `significand * 2^exponent`.
#[derive(Clone, Copy, Debug)]
pub struct Double {
    pub significand: u64,
    pub exponent: i32,
}

/// The integer nearest to `num / den`, the even one of two.
pub open spec fn half_even(num: nat, den: nat) -> nat {
    let q = num / den;
    let r = num % den;
    if 2 * r > den || (2 * r == den && q % 2 == 1) { q + 1 } else { q }
}

/// The numerator of `num / den / 2^k`.
pub open spec fn scaled_num(num: nat, k: int) -> nat {
    if k < 0 { num * power2::pow2((-k) as nat) } else { num }
}

/// The denominator of `num / den / 2^k`.
pub open spec fn scaled_den(den: nat, k: int) -> nat {
    if k > 0 { den * power2::pow2(k as nat) } else { den }
}

/// Divided by `2^k`, the quotient `num / den` has as many bits before the point as a significand.
pub open spec fn fits(num: nat, den: nat, k: int) -> bool {
    LEAST <= scaled_num(num, k) / scaled_den(den, k) < BOUND
}

/// The significand and exponent of the double nearest to `num / den`.
pub open spec fn nearest(num: nat, den: nat) -> (nat, int) {
    let k = choose|k: int| fits(num, den, k);
    let s = half_even(scaled_num(num, k), scaled_den(den, k));
    if s == BOUND { (LEAST as nat, k + 1) } else { (s, k) }
}

/// The integer nearest to `significand * 2^exponent`, the even one of two.
pub open spec fn nearest_integer(significand: nat, exponent: int) -> nat {
    if exponent >= 0 {
        significand * power2::pow2(exponent as nat)
    } else {
        half_even(significand, power2::pow2((-exponent) as nat))
    }
}

impl Double {
    /// The significand has all its bits.
    pub open spec fn normal(self) -> bool {
        LEAST <= self.significand < BOUND
    }

    /// Significand and exponent.
    pub open spec fn parts(self) -> (nat, int) {
        (self.significand as nat, self.exponent as int)
    }

    /// Significand and exponent of the quotient of two numbers.
    pub open spec fn quotient(self, other: Double) -> (nat, int) {
        let (s, k) = nearest(self.significand as nat, other.significand as nat);
        (s, k + self.exponent - other.exponent)
    }

    /// The number nearest to a positive integer.
    pub fn from_integer(n: u128) -> (d: Double)
        requires
            n > 0,
        ensures
            d.normal(),
            d.parts() == nearest(n as nat, 1),
            -52 <= d.exponent <= 76,
            n <= u64::MAX ==> d.exponent <= 12,
    {
        proof {
            lemma_powers();
        }
        if n < BOUND as u128 {
            let mut m: u128 = n;
            let mut k: i32 = 0;
            assert(n * power2::pow2(0) == n) by (nonlinear_arith)
                requires
                    power2::pow2(0) == 1,
            ;
            while m < LEAST as u128
                invariant
                    0 < m < BOUND,
                    -52 <= k <= 0,
                    m == n * power2::pow2((-k) as nat),
                    m >= power2::pow2((-k) as nat),
                    power2::pow2(52) == LEAST,
                decreases BOUND - m,
            {
                proof {
                    let e = (-k) as nat;
                    power2::lemma_pow2_unfold(e + 1);
                    assert(n * (2 * power2::pow2(e)) == 2 * (n * power2::pow2(e))) by (nonlinear_arith);
                }
                m = m * 2;
                k = k - 1;
            }
            proof {
                assert(scaled_num(n as nat, k as int) == m) by {
                    lemma_powers();
                }
                div_mod::lemma_div_basics(m as int);
                assert(scaled_den(1, k as int) == 1);
                law_nearest(n as nat, 1, k as int);
            }
            Double { significand: m as u64, exponent: k }
        } else {
            let mut den: u128 = 1;
            let mut k: i32 = 0;
            while n / den >= BOUND as u128
                invariant
                    0 <= k <= 75,
                    den == power2::pow2(k as nat),
                    den > 0,
                    n / den >= LEAST,
                    n <= u64::MAX ==> k <= 11,
                decreases 75 - k,
            {
                proof {
                    lemma_powers();
                    if k == 75 || (k == 11 && n <= u64::MAX) {
                        assert(n / den < BOUND) by (nonlinear_arith)
                            requires
                                den == 0x800_0000_0000_0000_0000 || (den == 0x800 && n <= u64::MAX),
                        ;
                    }
                    power2::lemma_pow2_unfold((k + 1) as nat);
                    if k + 1 < 75 {
                        power2::lemma_pow2_strictly_increases((k + 1) as nat, 75);
                    }
                    assert(n / (den * 2) as u128 >= LEAST) by (nonlinear_arith)
                        requires
                            n / den >= BOUND,
                            den > 0,
                            den * 2 <= u128::MAX,
                            BOUND == 2 * LEAST,
                    ;
                }
                den = den * 2;
                k = k + 1;
            }
            proof {
                assert(scaled_den(1, k as int) == den) by {
                    lemma_powers();
                }
                law_nearest(n as nat, 1, k as int);
                lemma_powers();
                if k < 75 {
                    power2::lemma_pow2_strictly_increases(k as nat, 75);
                }
            }
            Double::round(n, den, k)
        }
    }

    /// Rounds a quotient that has the bits of a significand before the point.
    fn round(num: u128, den: u128, exponent: i32) -> (d: Double)
        requires
            0 < den <= 0x4000_0000_0000_0000_0000_0000_0000_0000,
            LEAST <= num / den < BOUND,
            exponent < i32::MAX,
        ensures
            d.normal(),
            ({
                let s = half_even(num as nat, den as nat);
                d.parts() == if s == BOUND { (LEAST as nat, exponent + 1) } else { (s, exponent as int) }
            }),
    {
        let q: u128 = num / den;
        let r: u128 = num % den;
        let up = 2 * r > den || (2 * r == den && q % 2 == 1);
        let s: u128 = if up { q + 1 } else { q };
        if s == BOUND as u128 {
            Double { significand: LEAST, exponent: exponent + 1 }
        } else {
            Double { significand: s as u64, exponent }
        }
    }

    /// The quotient of two numbers.
    pub fn divided_by(self, other: Double) -> (d: Double)
        requires
            self.normal(),
            other.normal(),
            -1000 <= self.exponent <= 1000,
            -1000 <= other.exponent <= 1000,
        ensures
            d.normal(),
            d.parts() == self.quotient(other),
            self.exponent - other.exponent - 53 <= d.exponent <= self.exponent - other.exponent - 51,
    {
        let a: u128 = self.significand as u128;
        let b: u128 = other.significand as u128;
        let (num, k): (u128, i32) = if a >= b { (a * (LEAST as u128), -52) } else { (a * (BOUND as u128), -53) };
        proof {
            lemma_powers();
            assert(scaled_num(a as nat, k as int) == num);
            assert(scaled_den(b as nat, k as int) == b);
            if a >= b {
                assert(LEAST <= num / b < BOUND) by (nonlinear_arith)
                    requires
                        num == a * LEAST,
                        b <= a < 2 * b,
                        b > 0,
                        BOUND == 2 * LEAST,
                ;
            } else {
                assert(LEAST <= num / b < BOUND) by (nonlinear_arith)
                    requires
                        num == a * BOUND,
                        a < b < 2 * a,
                        b > 0,
                        BOUND == 2 * LEAST,
                ;
            }
            law_nearest(a as nat, b as nat, k as int);
        }
        Double::round(num, b, k + self.exponent - other.exponent)
    }

    /// The integer nearest to a hundred times the number.
    pub fn hundredths(self) -> (n: u128)
        requires
            self.normal(),
            -1000 <= self.exponent <= 60,
        ensures
            n == nearest_integer(100 * self.significand as nat, self.exponent as int),
    {
        let m: u128 = 100 * (self.significand as u128);
        if self.exponent >= 0 {
            proof {
                lemma_powers();
                lemma_power_bound(self.exponent as nat);
                assert(m * power2::pow2(self.exponent as nat) <= u128::MAX) by (nonlinear_arith)
                    requires
                        m <= 100 * BOUND,
                        power2::pow2(self.exponent as nat) <= 0x1000_0000_0000_0000,
                ;
            }
            m * power_of_two(self.exponent as u32)
        } else if self.exponent >= -61 {
            let den: u128 = power_of_two((-self.exponent) as u32);
            let q: u128 = m / den;
            let r: u128 = m % den;
            proof {
                lemma_power_bound((-self.exponent) as nat);
            }
            if 2 * r > den || (2 * r == den && q % 2 == 1) { q + 1 } else { q }
        } else {
            proof {
                let e = (-self.exponent) as nat;
                let den = power2::pow2(e);
                lemma_powers();
                if e > 62 {
                    power2::lemma_pow2_strictly_increases(62, e);
                }
                assert(den > 2 * m);
                div_mod::lemma_basic_div(m as int, den as int);
                div_mod::lemma_small_mod(m as nat, den);
            }
            0
        }
    }
}

/// Some powers of two.
proof fn lemma_powers()
    ensures
        power2::pow2(0) == 1,
        power2::pow2(11) == 0x800,
        power2::pow2(52) == LEAST,
        power2::pow2(53) == BOUND,
        power2::pow2(60) == 0x1000_0000_0000_0000,
        power2::pow2(61) == 0x2000_0000_0000_0000,
        power2::pow2(62) == 0x4000_0000_0000_0000,
        power2::pow2(75) == 0x800_0000_0000_0000_0000,
{
    power2::lemma2_to64();
    power2::lemma2_to64_rest();
    power2::lemma_pow2_adds(64, 11);
}

/// Two to the power of `e`.
fn power_of_two(e: u32) -> (p: u128)
    requires
        e <= 61,
    ensures
        p == power2::pow2(e as nat),
        p > 0,
{
    let mut p: u128 = 1;
    proof {
        lemma_powers();
    }
    for i in 0..e
        invariant
            e <= 61,
            p == power2::pow2(i as nat),
            p > 0,
    {
        proof {
            power2::lemma_pow2_unfold((i + 1) as nat);
            lemma_power_bound(i as nat);
        }
        p = p * 2;
    }
    p
}

proof fn lemma_power_bound(e: nat)
    requires
        e <= 61,
    ensures
        power2::pow2(e) <= 0x2000_0000_0000_0000,
        e <= 60 ==> power2::pow2(e) <= 0x1000_0000_0000_0000,
{
    lemma_powers();
    if e < 60 {
        power2::lemma_pow2_strictly_increases(e, 60);
    }
}

/// There is one power of two by which a quotient gets the bits of a significand.
proof fn lemma_one_scale(num: nat, den: nat, j: int, k: int)
    requires
        den > 0,
        fits(num, den, j),
        fits(num, den, k),
    ensures
        j >= k,
{
    if j < k {
        lemma_larger_scale(num, den, j, k);
    }
}

/// Divided by a smaller power of two than one that fits, a quotient is too large.
proof fn lemma_larger_scale(num: nat, den: nat, j: int, k: int)
    requires
        den > 0,
        fits(num, den, k),
        j < k,
    ensures
        scaled_num(num, j) / scaled_den(den, j) >= BOUND,
{
    let nj = scaled_num(num, j);
    let dj = scaled_den(den, j);
    let nk = scaled_num(num, k);
    let dk = scaled_den(den, k);
    let step = power2::pow2((k - j) as nat);
    lemma_powers();
    let pj = if j < 0 { power2::pow2((-j) as nat) } else { 1 };
    let qj = if j > 0 { power2::pow2(j as nat) } else { 1 };
    let pk = if k < 0 { power2::pow2((-k) as nat) } else { 1 };
    let qk = if k > 0 { power2::pow2(k as nat) } else { 1 };
    assert(pj > 0 && qj > 0 && pk > 0 && qk > 0 && step >= 2) by {
        power2::lemma_pow2_pos((-j) as nat);
        power2::lemma_pow2_pos(j as nat);
        power2::lemma_pow2_pos((-k) as nat);
        power2::lemma_pow2_pos(k as nat);
        power2::lemma_pow2_unfold((k - j) as nat);
        power2::lemma_pow2_pos((k - j - 1) as nat);
    }
    assert(pj * qk == pk * qj * step) by {
        if k < 0 {
            power2::lemma_pow2_adds((-k) as nat, (k - j) as nat);
            assert(pk * 1 * step == pk * step) by (nonlinear_arith);
        } else if j > 0 {
            power2::lemma_pow2_adds(j as nat, (k - j) as nat);
            assert(1 * qj * step == qj * step) by (nonlinear_arith);
        } else {
            power2::lemma_pow2_adds((-j) as nat, k as nat);
        }
    }
    assert(nj == num * pj && nk == num * pk && dj == den * qj && dk == den * qk);
    assert(dj > 0 && dk > 0) by (nonlinear_arith)
        requires
            dj == den * qj,
            dk == den * qk,
            den > 0,
            qj > 0,
            qk > 0,
    ;
    div_mod::lemma_fundamental_div_mod(nk as int, dk as int);
    div_mod::lemma_fundamental_div_mod(nj as int, dj as int);
    div_mod::lemma_mod_bound(nj as int, dj as int);
    div_mod::lemma_mod_bound(nk as int, dk as int);
    let low = nk / dk;
    let high = nj / dj;
    assert(nk >= LEAST * dk) by (nonlinear_arith)
        requires
            nk == dk * low + nk % dk,
            low >= LEAST,
            nk % dk >= 0,
            dk > 0,
    ;
    assert(nj * dk == nk * dj * step) by (nonlinear_arith)
        requires
            nj == num * pj,
            nk == num * pk,
            dj == den * qj,
            dk == den * qk,
            pj * qk == pk * qj * step,
    ;
    assert(nk * dj * step >= LEAST * dk * dj * 2) by (nonlinear_arith)
        requires
            nk >= LEAST * dk,
            step >= 2,
            dj > 0,
            dk > 0,
    ;
    assert(LEAST * dk * dj * 2 == BOUND * dj * dk) by (nonlinear_arith)
        requires
            BOUND == 2 * LEAST,
    ;
    assert(nj >= BOUND * dj) by (nonlinear_arith)
        requires
            nj * dk >= BOUND * dj * dk,
            dk > 0,
    ;
    assert(high >= BOUND) by (nonlinear_arith)
        requires
            nj == dj * high + nj % dj,
            nj >= BOUND * dj,
            nj % dj < dj,
            dj > 0,
    ;
}

/// Whichever power of two gives a quotient the bits of a significand, the nearest number is told
/// by it: there is no other.
pub proof fn law_nearest(num: nat, den: nat, k: int)
    requires
        den > 0,
        fits(num, den, k),
    ensures
        ({
            let s = half_even(scaled_num(num, k), scaled_den(den, k));
            nearest(num, den) == if s == BOUND { (LEAST as nat, k + 1) } else { (s, k) }
        }),
{
    let j = choose|j: int| fits(num, den, j);
    assert(fits(num, den, j));
    if j < k {
        lemma_one_scale(num, den, j, k);
    } else if k < j {
        lemma_one_scale(num, den, k, j);
    }
}

/// The distance of two numbers.
pub open spec fn distance(a: int, b: int) -> int {
    if a < b { b - a } else { a - b }
}

/// Rounding a quotient gives an integer that is no more than one half away from it, and the even
/// one of two that are one half away; there is no other such integer.
pub proof fn law_half_even(num: nat, den: nat, n: nat)
    requires
        den > 0,
    ensures
        n == half_even(num, den) <==> {
            &&& 2 * distance((n * den) as int, num as int) <= den
            &&& 2 * distance((n * den) as int, num as int) == den ==> n % 2 == 0
        },
{
    let q = num / den;
    let r = num % den;
    div_mod::lemma_fundamental_div_mod(num as int, den as int);
    div_mod::lemma_mod_bound(num as int, den as int);
    assert(num == q * den + r) by (nonlinear_arith)
        requires
            num == den * q + r,
    ;
    assert((q + 1) * den == q * den + den) by (nonlinear_arith);
    if n > q + 1 {
        assert(n * den >= (q + 2) * den) by (nonlinear_arith)
            requires
                n >= q + 2,
        ;
        assert((q + 2) * den == q * den + 2 * den) by (nonlinear_arith);
    }
    if n < q {
        assert(n * den <= (q - 1) * den) by (nonlinear_arith)
            requires
                n <= q - 1,
        ;
        assert((q - 1) * den == q * den - den) by (nonlinear_arith);
        if 2 * distance((n * den) as int, num as int) == den {
            assert(2 * r + 2 * den <= den);
        }
    }
}

/// Some power of two gives a positive number the bits of a significand.
proof fn lemma_some_scale(n: nat) -> (k: int)
    requires
        n > 0,
    ensures
        fits(n, 1, k),
    decreases (if n < LEAST { LEAST - n } else { 0 }), n,
{
    lemma_powers();
    if n < LEAST {
        let k = lemma_some_scale(2 * n);
        if k > 0 {
            assert(scaled_num(2 * n, k) == 2 * n && scaled_den(1, k) == power2::pow2(k as nat));
            power2::lemma_pow2_pos(k as nat);
            assert(2 * n / power2::pow2(k as nat) < LEAST) by {
                assert(power2::pow2(k as nat) >= 2) by {
                    power2::lemma_pow2_unfold(k as nat);
                    power2::lemma_pow2_pos((k - 1) as nat);
                }
                assert(2 * n / power2::pow2(k as nat) <= n) by (nonlinear_arith)
                    requires
                        power2::pow2(k as nat) >= 2,
                ;
            }
        }
        assert(k <= 0);
        let e = (-k) as nat;
        power2::lemma_pow2_unfold(e + 1);
        assert(n * (2 * power2::pow2(e)) == 2 * n * power2::pow2(e)) by (nonlinear_arith);
        assert(scaled_num(n, k - 1) == n * power2::pow2(e + 1));
        assert(scaled_num(2 * n, k) == 2 * n * power2::pow2(e)) by {
            assert(2 * n * 1 == 2 * n);
        }
        k - 1
    } else if n < BOUND {
        div_mod::lemma_div_basics(n as int);
        0
    } else {
        let k = lemma_some_scale(n / 2);
        if k < 0 {
            let e = (-k) as nat;
            power2::lemma_pow2_unfold(e);
            power2::lemma_pow2_pos((e - 1) as nat);
            assert(n / 2 * power2::pow2(e) >= BOUND) by (nonlinear_arith)
                requires
                    n / 2 >= LEAST,
                    power2::pow2(e) >= 2,
                    BOUND == 2 * LEAST,
            ;
            div_mod::lemma_div_basics((n / 2 * power2::pow2(e)) as int);
        }
        assert(k >= 0);
        power2::lemma_pow2_unfold((k + 1) as nat);
        power2::lemma_pow2_pos(k as nat);
        let p = power2::pow2(k as nat);
        div_mod::lemma_div_denominator(n as int, 2, p as int);
        assert(scaled_den(1, k + 1) == 2 * p);
        assert(scaled_den(1, k) == p) by {
            assert(1 * p == p);
        }
        k + 1
    }
}

/// A number of double precision in units of two to the power of minus `unit`.
pub open spec fn in_units(parts: (nat, int), unit: nat) -> nat {
    parts.0 * power2::pow2((parts.1 + unit) as nat)
}

/// The double nearest to a quotient differs from it by no more than the quotient divided by two to
/// the power of 53, and its significand has all its bits.
pub proof fn law_nearest_close(num: nat, den: nat, scale: int, unit: nat)
    requires
        den > 0,
        fits(num, den, scale),
        scale + unit >= 0,
    ensures
        LEAST <= nearest(num, den).0 < BOUND,
        scale <= nearest(num, den).1 <= scale + 1,
        0x20_0000_0000_0000 * distance(
            (in_units(nearest(num, den), unit) * den) as int,
            (num * power2::pow2(unit)) as int,
        ) <= num * power2::pow2(unit),
{
    lemma_powers();
    law_nearest(num, den, scale);
    let k = scale;
    let sn = scaled_num(num, k);
    let sd = scaled_den(den, k);
    let s = half_even(sn, sd);
    let up = power2::pow2((k + unit) as nat);
    let u = power2::pow2(unit);
    power2::lemma_pow2_pos((k + unit) as nat);
    power2::lemma_pow2_pos(unit);
    assert(sd > 0) by {
        if k > 0 {
            power2::lemma_pow2_pos(k as nat);
            assert(den * power2::pow2(k as nat) > 0) by (nonlinear_arith)
                requires
                    den > 0,
                    power2::pow2(k as nat) > 0,
            ;
        }
    }
    law_half_even(sn, sd, s);
    let q = sn / sd;
    div_mod::lemma_fundamental_div_mod(sn as int, sd as int);
    div_mod::lemma_mod_bound(sn as int, sd as int);
    assert(LEAST * sd <= sn) by (nonlinear_arith)
        requires
            sn == sd * q + sn % sd,
            q >= LEAST,
            sn % sd >= 0,
            sd > 0,
    ;
    let d = distance((s * sd) as int, sn as int);
    assert(0x20_0000_0000_0000 * d <= sn) by (nonlinear_arith)
        requires
            2 * d <= sd,
            0x10_0000_0000_0000 * sd <= sn,
    ;
    // The rounded significand times its power of two, in units.
    let v = s * up;
    assert(in_units(nearest(num, den), unit) == v) by {
        if s == BOUND {
            power2::lemma_pow2_unfold((k + 1 + unit) as nat);
            assert(LEAST * (2 * up) == BOUND * up) by (nonlinear_arith)
                requires
                    BOUND == 2 * LEAST,
            ;
        }
    }
    if k >= 0 {
        let p = power2::pow2(k as nat);
        power2::lemma_pow2_adds(k as nat, unit);
        assert(sd == den * p) by {
            if k == 0 {
                assert(den * 1 == den);
            }
        }
        assert(v * den == s * sd * u) by (nonlinear_arith)
            requires
                v == s * up,
                up == p * u,
                sd == den * p,
        ;
        assert(0x20_0000_0000_0000 * distance((v * den) as int, (num * u) as int) <= num * u) by {
            lemma_scaled_distance((s * sd) as int, sn as int, u as int, 0x20_0000_0000_0000, sn as int);
        }
    } else {
        let p = power2::pow2((-k) as nat);
        power2::lemma_pow2_adds((-k) as nat, (k + unit) as nat);
        assert(sn == num * p && sd == den);
        assert(v * den == s * sd * up) by (nonlinear_arith)
            requires
                v == s * up,
                sd == den,
        ;
        assert(num * u == sn * up) by (nonlinear_arith)
            requires
                sn == num * p,
                u == p * up,
        ;
        lemma_scaled_distance((s * sd) as int, sn as int, up as int, 0x20_0000_0000_0000, sn as int);
    }
    assert(LEAST <= s <= BOUND);
}

/// Scaling two numbers scales their distance.
pub(crate) proof fn lemma_scaled_distance(a: int, b: int, c: int, factor: int, bound: int)
    requires
        c >= 0,
        factor * distance(a, b) <= bound,
    ensures
        distance(a * c, b * c) == distance(a, b) * c,
        factor * distance(a * c, b * c) <= bound * c,
{
    assert(distance(a * c, b * c) == distance(a, b) * c) by (nonlinear_arith)
        requires
            c >= 0,
            distance(a, b) == (if a < b { b - a } else { a - b }),
            distance(a * c, b * c) == (if a * c < b * c { b * c - a * c } else { a * c - b * c }),
    ;
    assert(factor * (distance(a, b) * c) <= bound * c) by (nonlinear_arith)
        requires
            c >= 0,
            factor * distance(a, b) <= bound,
    ;
}

/// The double nearest to a positive integer that fits into 128 bits.
pub proof fn law_integer_close(n: nat, unit: nat)
    requires
        0 < n <= u128::MAX,
        unit >= 52,
    ensures
        LEAST <= nearest(n, 1).0 < BOUND,
        -52 <= nearest(n, 1).1 <= 76,
        n <= u64::MAX ==> nearest(n, 1).1 <= 12,
        0x20_0000_0000_0000 * distance(in_units(nearest(n, 1), unit) as int, (n * power2::pow2(unit)) as int)
            <= n * power2::pow2(unit),
{
    lemma_powers();
    let k = lemma_some_scale(n);
    if k < -52 {
        let e = (-k) as nat;
        if e > 53 {
            power2::lemma_pow2_strictly_increases(53, e);
        }
        assert(n * power2::pow2(e) >= BOUND) by (nonlinear_arith)
            requires
                n >= 1,
                power2::pow2(e) >= BOUND,
        ;
        div_mod::lemma_div_basics((n * power2::pow2(e)) as int);
    }
    if k > 11 {
        let p = power2::pow2(k as nat);
        if k > 12 {
            power2::lemma_pow2_strictly_increases(12, k as nat);
        }
        power2::lemma_pow2_unfold(12);
        assert(scaled_den(1, k) == p) by {
            assert(1 * p == p);
        }
        if n <= u64::MAX {
            assert(n / p < LEAST) by (nonlinear_arith)
                requires
                    n <= 0xffff_ffff_ffff_ffff,
                    p >= 0x1000,
            ;
        }
        if k > 75 {
            power2::lemma_pow2_strictly_increases(75, k as nat);
            if k > 76 {
                power2::lemma_pow2_strictly_increases(76, k as nat);
            }
            power2::lemma_pow2_unfold(76);
            assert(n / p < LEAST) by (nonlinear_arith)
                requires
                    n <= 0xffff_ffff_ffff_ffff_ffff_ffff_ffff_ffff,
                    p >= 0x1000_0000_0000_0000_0000,
            ;
        }
    }
    law_nearest_close(n, 1, k, unit);
}

/// The quotient of two doubles differs from the exact one by no more than the exact one divided by
/// two to the power of 53.
pub proof fn law_quotient_close(a: Double, b: Double, unit: nat)
    requires
        a.normal(),
        b.normal(),
        unit >= 53,
        a.exponent + unit >= 0,
        b.exponent + unit >= 0,
        a.exponent - b.exponent - 53 + unit >= 0,
    ensures
        LEAST <= a.quotient(b).0 < BOUND,
        a.exponent - b.exponent - 53 <= a.quotient(b).1 <= a.exponent - b.exponent - 51,
        0x20_0000_0000_0000 * distance(
            (in_units(a.quotient(b), unit) * in_units(b.parts(), unit)) as int,
            (in_units(a.parts(), unit) * power2::pow2(unit)) as int,
        ) <= in_units(a.parts(), unit) * power2::pow2(unit),
{
    lemma_powers();
    let x = a.significand as nat;
    let y = b.significand as nat;
    let k: int = if x >= y { -52 } else { -53 };
    let num = scaled_num(x, k);
    assert(fits(x, y, k)) by {
        assert(scaled_den(y, k) == y);
        if x >= y {
            assert(LEAST <= num / y < BOUND) by (nonlinear_arith)
                requires
                    num == x * LEAST,
                    y <= x < 2 * y,
                    y > 0,
                    BOUND == 2 * LEAST,
            ;
        } else {
            assert(LEAST <= num / y < BOUND) by (nonlinear_arith)
                requires
                    num == x * BOUND,
                    x < y < 2 * x,
                    y > 0,
                    BOUND == 2 * LEAST,
            ;
        }
    }
    law_nearest_close(x, y, k, unit);
    let (s, e) = nearest(x, y);
    let u = power2::pow2(unit);
    let c = power2::pow2((a.exponent + unit) as nat);
    let q = in_units(a.quotient(b), unit);
    let d = in_units(b.parts(), unit);
    power2::lemma_pow2_pos((a.exponent + unit) as nat);
    let p1 = power2::pow2((e + unit) as nat);
    let p2 = power2::pow2((e + a.exponent - b.exponent + unit) as nat);
    let p3 = power2::pow2((b.exponent + unit) as nat);
    power2::lemma_pow2_adds((e + unit) as nat, (a.exponent + unit) as nat);
    power2::lemma_pow2_adds((e + a.exponent - b.exponent + unit) as nat, (b.exponent + unit) as nat);
    assert(p1 * c == p2 * p3);
    assert(q * d == s * p1 * y * c) by (nonlinear_arith)
        requires
            q == s * p2,
            d == y * p3,
            p1 * c == p2 * p3,
    ;
    assert(in_units(a.parts(), unit) * u == x * u * c) by (nonlinear_arith)
        requires
            in_units(a.parts(), unit) == x * c,
    ;
    lemma_scaled_distance((s * p1 * y) as int, (x * u) as int, c as int, 0x20_0000_0000_0000, (x * u) as int);
}

/// The nearest integer to a hundred times a number is no more than one half away from it.
pub proof fn law_hundredths_close(significand: nat, exponent: int, unit: nat)
    requires
        exponent + unit >= 0,
    ensures
        2 * distance(
            (nearest_integer(100 * significand, exponent) * power2::pow2(unit)) as int,
            100 * in_units((significand, exponent), unit) as int,
        ) <= power2::pow2(unit),
{
    let h = nearest_integer(100 * significand, exponent);
    let u = power2::pow2(unit);
    let c = power2::pow2((exponent + unit) as nat);
    power2::lemma_pow2_pos(unit);
    power2::lemma_pow2_pos((exponent + unit) as nat);
    if exponent >= 0 {
        let p = power2::pow2(exponent as nat);
        power2::lemma_pow2_adds(exponent as nat, unit);
        assert(100 * significand * p * u == 100 * (significand * c)) by (nonlinear_arith)
            requires
                c == p * u,
        ;
    } else {
        let p = power2::pow2((-exponent) as nat);
        power2::lemma_pow2_pos((-exponent) as nat);
        power2::lemma_pow2_adds((-exponent) as nat, (exponent + unit) as nat);
        law_half_even(100 * significand, p, h);
        assert(h * u == h * p * c) by (nonlinear_arith)
            requires
                u == p * c,
        ;
        assert(100 * (significand * c) == 100 * significand * c) by (nonlinear_arith);
        lemma_scaled_distance((h * p) as int, 100 * significand as int, c as int, 2, p as int);
        assert(p * c == u);
    }
}

/// The double nearest to twice an integer is twice the one nearest to it.
pub proof fn law_twice(n: nat)
    requires
        n > 0,
    ensures
        nearest(2 * n, 1) == (nearest(n, 1).0, nearest(n, 1).1 + 1),
{
    lemma_powers();
    let k = lemma_some_scale(n);
    law_nearest(n, 1, k);
    let s = half_even(scaled_num(n, k), scaled_den(1, k));
    if k < 0 {
        let e = (-k) as nat;
        power2::lemma_pow2_unfold(e);
        let p = power2::pow2((e - 1) as nat);
        assert(2 * n * p == n * (2 * p)) by (nonlinear_arith);
        assert(2 * n * 1 == 2 * n);
        assert(scaled_num(2 * n, k + 1) == scaled_num(n, k));
        assert(scaled_den(1, k + 1) == scaled_den(1, k));
    } else {
        let p = power2::pow2(k as nat);
        power2::lemma_pow2_unfold((k + 1) as nat);
        power2::lemma_pow2_pos(k as nat);
        assert(scaled_den(1, k) == p) by {
            assert(1 * p == p);
        }
        assert(scaled_den(1, k + 1) == 2 * p);
        assert(n / p == (2 * n) / (2 * p)) by {
            div_mod::lemma_div_denominator((2 * n) as int, 2, p as int);
        }
        law_half_even(n, p, s);
        let d = distance((s * p) as int, n as int);
        assert(s * (2 * p) == 2 * (s * p)) by (nonlinear_arith);
        assert(distance((s * (2 * p)) as int, (2 * n) as int) == 2 * d);
        law_half_even(2 * n, 2 * p, s);
        assert(scaled_num(2 * n, k + 1) == 2 * n);
        assert(scaled_num(n, k) == n);
    }
    law_nearest(2 * n, 1, k + 1);
}

} // verus!
