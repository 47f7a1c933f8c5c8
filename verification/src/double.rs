//! Whole numbers in binary floating point with 53 significant bits: what becomes
//! of them, of their products and of their quotients.

use vstd::arithmetic::div_mod;
use vstd::arithmetic::power2;
use vstd::prelude::*;

use crate::bignum;
use crate::binary;

verus! {

/// The floating-point number nearest to a whole number, ties to even. It is a
/// whole number again.
pub open spec fn as_double(n: nat) -> nat {
    let (m, e) = binary::rounded(n, 1);
    if e <= 0 {
        n
    } else {
        m * power2::pow2(e as nat)
    }
}

/// A floating-point number as a fraction: its numerator.
pub open spec fn over_num(f: (nat, int)) -> nat {
    f.0 * power2::pow2(
        if f.1 > 0 {
            f.1 as nat
        } else {
            0
        },
    )
}

/// A floating-point number as a fraction: its denominator.
pub open spec fn over_den(f: (nat, int)) -> nat {
    power2::pow2(
        if f.1 < 0 {
            (-f.1) as nat
        } else {
            0
        },
    )
}

/// A floating-point number, rounded to the nearest whole number, ties to even.
pub open spec fn to_whole(f: (nat, int)) -> nat {
    binary::half_even(over_num(f), over_den(f))
}

/// The quotient of two whole numbers, rounded to floating point and then to a
/// whole number.
pub open spec fn whole_quotient(a: nat, b: nat) -> nat {
    to_whole(binary::rounded(a, b))
}

// ---------------------------------------------------------------------------
// How far rounding goes
// ---------------------------------------------------------------------------

/// The nearest integer is at most half away.
pub proof fn lemma_half_even(a: nat, b: nat)
    requires
        b > 0,
    ensures
        ({
            let r = binary::half_even(a, b);
            2 * (r * b) <= 2 * a + b && 2 * a <= 2 * (r * b) + b
        }),
{
    let q = a / b;
    let r = binary::half_even(a, b);
    div_mod::lemma_fundamental_div_mod(a as int, b as int);
    assert(b * q == q * b) by (nonlinear_arith);
    assert((q + 1) * b == q * b + b) by (nonlinear_arith);
}

/// An integer is the nearest one where the number lies strictly between the
/// halves around it, or on one of them and the integer is even.
proof fn lemma_is_half_even(a: nat, b: nat, q: nat)
    requires
        b > 0,
        2 * a < (2 * q + 1) * b || (2 * a == (2 * q + 1) * b && q % 2 == 0),
        2 * a > (2 * q - 1) * b || (2 * a == (2 * q - 1) * b && q % 2 == 0),
    ensures
        binary::half_even(a, b) == q,
{
    div_mod::lemma_fundamental_div_mod(a as int, b as int);
    let k = a / b;
    let r = a % b;
    assert((2 * q + 1) * b == 2 * (q * b) + b) by (nonlinear_arith);
    assert((2 * q - 1) * b == 2 * (q * b) - b) by (nonlinear_arith);
    assert(b * k == k * b) by (nonlinear_arith);
    if k < q {
        assert(k + 1 >= q) by (nonlinear_arith)
            requires
                2 * a >= 2 * (q * b) - b,
                a == k * b + r,
                r < b,
                b > 0,
        ;
        assert(q * b == k * b + b) by (nonlinear_arith)
            requires
                q == k + 1,
        ;
    } else if k > q {
        assert(k * b >= q * b + b) by (nonlinear_arith)
            requires
                k >= q + 1,
                b > 0,
        ;
    }
}

/// Where the nearest integer lies.
proof fn lemma_half_even_is(a: nat, b: nat)
    requires
        b > 0,
    ensures
        ({
            let q = binary::half_even(a, b);
            &&& 2 * a < (2 * q + 1) * b || (2 * a == (2 * q + 1) * b && q % 2 == 0)
            &&& 2 * a > (2 * q - 1) * b || (2 * a == (2 * q - 1) * b && q % 2 == 0)
        }),
{
    div_mod::lemma_fundamental_div_mod(a as int, b as int);
    let k = a / b;
    let q = binary::half_even(a, b);
    assert(b * k == k * b) by (nonlinear_arith);
    assert((2 * q + 1) * b == 2 * (q * b) + b) by (nonlinear_arith);
    assert((2 * q - 1) * b == 2 * (q * b) - b) by (nonlinear_arith);
    if q == k + 1 {
        assert(q * b == k * b + b) by (nonlinear_arith)
            requires
                q == k + 1,
        ;
    }
}

/// Rounding a fraction that is not among the very smallest changes it by at most
/// one part in `2^53`.
pub proof fn lemma_rounding_close(num: nat, den: nat, f: (nat, int))
    requires
        den > 0,
        binary::nearest(num, den, f.0, f.1),
        f.1 > binary::MIN_EXPONENT,
    ensures
        over_num(f) * den * 0x20_0000_0000_0000 <= num * over_den(f) * 0x20_0000_0000_0001,
        over_num(f) * den * 0x20_0000_0000_0000 >= num * over_den(f) * 0x1f_ffff_ffff_ffff,
{
    let (m, e) = f;
    let a = binary::scaled_num(num, e);
    let b = binary::scaled_den(den, e);
    power2::lemma2_to64();
    power2::lemma2_to64_rest();
    assert(power2::pow2(52) == 0x10_0000_0000_0000);
    assert(b * 0x10_0000_0000_0000 <= a);
    power2::lemma_pow2_pos(
        (if e > 0 {
            e
        } else {
            0
        }) as nat,
    );
    assert(b > 0) by (nonlinear_arith)
        requires
            den > 0,
            b == den * power2::pow2(
                if e > 0 {
                    e as nat
                } else {
                    0
                },
            ),
            power2::pow2(
                (if e > 0 {
                    e
                } else {
                    0
                }) as nat,
            ) > 0,
    ;
    lemma_half_even(a, b);
    assert(a == num * over_den(f));
    assert(over_num(f) * den == m * b) by (nonlinear_arith)
        requires
            over_num(f) == m * power2::pow2(
                if e > 0 {
                    e as nat
                } else {
                    0
                },
            ),
            b == den * power2::pow2(
                if e > 0 {
                    e as nat
                } else {
                    0
                },
            ),
    ;
}

/// A fraction that is no smaller than `2^-64` is not among the smallest.
pub proof fn lemma_not_smallest(num: nat, den: nat, f: (nat, int))
    requires
        1 <= num,
        0 < den <= 0x1_0000_0000_0000_0000,
        binary::nearest(num, den, f.0, f.1),
    ensures
        f.1 > binary::MIN_EXPONENT,
{
    if f.1 <= binary::MIN_EXPONENT {
        power2::lemma2_to64();
        power2::lemma2_to64_rest();
        power2::lemma_pow2_adds(64, 53);
        power2::lemma_pow2_strictly_increases(117, 1074);
        let (p, b) = (power2::pow2(1074), power2::pow2(53));
        assert(den * power2::pow2(0) == den) by (nonlinear_arith)
            requires
                power2::pow2(0) == 1,
        ;
        assert(den * b <= power2::pow2(64) * b) by (nonlinear_arith)
            requires
                den <= power2::pow2(64),
        ;
        assert(num * p >= p) by (nonlinear_arith)
            requires
                num >= 1,
        ;
    }
}

/// A whole number below `2^53` is a floating-point number.
pub proof fn lemma_exact(n: nat)
    requires
        n < 0x20_0000_0000_0000,
    ensures
        as_double(n) == n,
{
    binary::lemma_nearest_exists(n, 1);
    let (m, e) = binary::rounded(n, 1);
    binary::theorem_small_integers_exact(n, m, e);
}

/// A whole number is changed by at most one part in `2^53`.
pub proof fn lemma_double_close(n: nat)
    ensures
        as_double(n) * 0x20_0000_0000_0000 <= n * 0x20_0000_0000_0001,
        as_double(n) * 0x20_0000_0000_0000 >= n * 0x1f_ffff_ffff_ffff,
{
    binary::lemma_nearest_exists(n, 1);
    let f = binary::rounded(n, 1);
    if f.1 > 0 {
        lemma_rounding_close(n, 1, f);
        power2::lemma2_to64();
        assert(over_den(f) == 1);
        assert(over_num(f) == as_double(n));
    }
}

// ---------------------------------------------------------------------------
// Quotients
// ---------------------------------------------------------------------------

/// Rounding to floating point first does not change to which whole number a
/// fraction is rounded, where its numerator is below `2^52`.
pub proof fn lemma_quotient_exact(a: nat, b: nat)
    requires
        a < 0x10_0000_0000_0000,
        0 < b,
        0 < a ==> b <= 0x1_0000_0000_0000_0000,
    ensures
        whole_quotient(a, b) == binary::half_even(a, b),
{
    binary::lemma_nearest_exists(a, b);
    let f = binary::rounded(a, b);
    let (m, e) = f;
    power2::lemma2_to64();
    power2::lemma2_to64_rest();
    if a == 0 {
        power2::lemma_pow2_pos(1074);
        let p = power2::pow2(1074);
        assert(binary::scaled_num(0, -1074) == 0) by (nonlinear_arith)
            requires
                binary::scaled_num(0, -1074) == 0 * p,
        ;
        assert(binary::scaled_den(b, -1074) == b) by (nonlinear_arith)
            requires
                binary::scaled_den(b, -1074) == b * power2::pow2(0),
                power2::pow2(0) == 1,
        ;
        lemma_zero_half_even(b);
        assert(b * power2::pow2(53) > 0) by (nonlinear_arith)
            requires
                b > 0,
                power2::pow2(53) > 0,
        ;
        assert(binary::nearest(0, b, 0, -1074));
        binary::lemma_rounded(0, b, 0, -1074);
        assert(over_num(f) == 0) by (nonlinear_arith)
            requires
                over_num(f) == 0 * power2::pow2(0),
        ;
        lemma_zero_half_even(over_den(f));
    } else {
        lemma_not_smallest(a, b, f);
        lemma_exponent_negative(a, b, f);
        let p = power2::pow2((-e) as nat);
        let half = power2::pow2((-e - 1) as nat);
        power2::lemma_pow2_unfold((-e) as nat);
        power2::lemma_pow2_pos((-e - 1) as nat);
        assert(p == 2 * half);
        assert(binary::scaled_den(b, e) == b && over_num(f) == m) by (nonlinear_arith)
            requires
                binary::scaled_den(b, e) == b * power2::pow2(0),
                over_num(f) == m * power2::pow2(0),
                power2::pow2(0) == 1,
        ;
        assert(m == binary::half_even(a * p, b));
        assert(p > b) by (nonlinear_arith)
            requires
                a * p >= b * 0x10_0000_0000_0000,
                0 < a < 0x10_0000_0000_0000,
                b > 0,
        ;
        lemma_second_rounding(a, b, m, p, half);
    }
}

/// Nothing is rounded to nothing.
proof fn lemma_zero_half_even(b: nat)
    requires
        b > 0,
    ensures
        binary::half_even(0, b) == 0,
{
    div_mod::lemma_div_basics(b as int);
    div_mod::lemma_small_mod(0, b);
}

/// A fraction below `2^52` has a negative exponent.
proof fn lemma_exponent_negative(a: nat, b: nat, f: (nat, int))
    requires
        a < 0x10_0000_0000_0000,
        b > 0,
        binary::nearest(a, b, f.0, f.1),
        f.1 > binary::MIN_EXPONENT,
    ensures
        f.1 < 0,
{
    let e = f.1;
    if e >= 0 {
        power2::lemma2_to64();
        power2::lemma2_to64_rest();
        power2::lemma_pow2_pos(e as nat);
        let (p, b52) = (power2::pow2(e as nat), power2::pow2(52));
        assert(a * power2::pow2(0) == a) by (nonlinear_arith)
            requires
                power2::pow2(0) == 1,
        ;
        assert(b * p >= 1) by (nonlinear_arith)
            requires
                b >= 1,
                p >= 1,
        ;
        assert(b * p * b52 >= b52) by (nonlinear_arith)
            requires
                b * p >= 1,
        ;
        assert(a < b * p * b52);
        assert(binary::scaled_den(b, e) == b * p) by {
            if e == 0 {
            }
        }
        assert(binary::below(a, b, e, 52));
    }
}

/// `m` is `a * p / b` rounded; over `p`, a power of two greater than `b`, it is
/// rounded to the same whole number as `a / b`.
proof fn lemma_second_rounding(a: nat, b: nat, m: nat, p: nat, half: nat)
    requires
        0 < b < p,
        p == 2 * half,
        m == binary::half_even(a * p, b),
    ensures
        binary::half_even(m, p) == binary::half_even(a, b),
{
    let q = binary::half_even(a, b);
    lemma_half_even_is(a, b);
    lemma_half_even(a * p, b);
    let (up, down) = (2 * q + 1, 2 * q - 1);
    if 2 * a == up * b {
        assert(a * p == (up * half) * b) by (nonlinear_arith)
            requires
                2 * a == up * b,
                p == 2 * half,
        ;
        lemma_exact_quotient((up * half) as nat, b);
        assert(2 * m == up * p) by (nonlinear_arith)
            requires
                m == up * half,
                p == 2 * half,
        ;
        assert(2 * m > down * p) by (nonlinear_arith)
            requires
                2 * m == up * p,
                up == down + 2,
                p > 0,
        ;
    } else if 2 * a == down * b {
        assert(down >= 0) by (nonlinear_arith)
            requires
                2 * a == down * b,
                b > 0,
                a >= 0,
        ;
        assert(a * p == (down * half) * b) by (nonlinear_arith)
            requires
                2 * a == down * b,
                p == 2 * half,
        ;
        assert(down * half >= 0) by (nonlinear_arith)
            requires
                down >= 0,
                half >= 0,
        ;
        lemma_exact_quotient((down * half) as nat, b);
        assert(2 * m == down * p) by (nonlinear_arith)
            requires
                m == down * half,
                p == 2 * half,
        ;
        assert(2 * m < up * p) by (nonlinear_arith)
            requires
                2 * m == down * p,
                up == down + 2,
                p > 0,
        ;
    } else {
        assert(2 * m < up * p) by (nonlinear_arith)
            requires
                2 * a + 1 <= up * b,
                2 * (m * b) <= 2 * (a * p) + b,
                0 < b < p,
        ;
        assert(2 * m > down * p) by (nonlinear_arith)
            requires
                2 * a >= down * b + 1,
                2 * (a * p) <= 2 * (m * b) + b,
                0 < b < p,
        ;
    }
    lemma_is_half_even(m, p, q);
}

/// An exact quotient is not changed by rounding.
proof fn lemma_exact_quotient(q: nat, b: nat)
    requires
        b > 0,
    ensures
        binary::half_even(q * b, b) == q,
{
    assert((2 * q + 1) * b == 2 * (q * b) + b) by (nonlinear_arith);
    assert((2 * q - 1) * b == 2 * (q * b) - b) by (nonlinear_arith);
    lemma_is_half_even(q * b, b, q);
}

/// `2^106`.
pub open spec fn exact_square() -> int {
    0x400_0000_0000_0000_0000_0000_0000
}

/// A product and then a quotient, each rounded to floating point and the last to a
/// whole number: how far they are from the exact fraction.
pub proof fn lemma_product_quotient_bounds(i: nat, s: nat, d: nat)
    requires
        1 <= i,
        1 <= s,
        1 <= d <= 0x1_0000_0000_0000_0000,
    ensures
        ({
            let r = whole_quotient(as_double(i * s), d);
            let x = i * s;
            &&& 2 * (r * d) * exact_square() <= 2 * x * (exact_square() + 0x40_0000_0000_0001) + d
                * exact_square()
            &&& 2 * (r * d) * exact_square() + d * exact_square() >= 2 * x * (exact_square()
                - 0x3f_ffff_ffff_ffff)
        }),
{
    let x = i * s;
    let p = as_double(x);
    assert(x >= 1) by (nonlinear_arith)
        requires
            x == i * s,
            i >= 1,
            s >= 1,
    ;
    lemma_double_close(x);
    assert(p >= 1);
    binary::lemma_nearest_exists(p, d);
    let f = binary::rounded(p, d);
    lemma_not_smallest(p, d, f);
    lemma_rounding_close(p, d, f);
    let (n, w) = (over_num(f), over_den(f));
    power2::lemma_pow2_pos(
        if f.1 < 0 {
            (-f.1) as nat
        } else {
            0
        },
    );
    assert(w > 0);
    let r = binary::half_even(n, w);
    lemma_half_even(n, w);
    lemma_twice_above(x as int, d as int, p as int, n as int, w as int, r as int);
    lemma_twice_below(x as int, d as int, p as int, n as int, w as int, r as int);
}

/// Two roundings upwards and one to a whole number.
proof fn lemma_twice_above(x: int, d: int, p: int, n: int, w: int, r: int)
    requires
        0 < d,
        0 < w,
        p * 0x20_0000_0000_0000 <= x * 0x20_0000_0000_0001,
        n * d * 0x20_0000_0000_0000 <= p * w * 0x20_0000_0000_0001,
        2 * (r * w) <= 2 * n + w,
    ensures
        2 * (r * d) * exact_square() <= 2 * x * (exact_square() + 0x40_0000_0000_0001) + d
            * exact_square(),
{
    let e: int = 0x20_0000_0000_0000;
    let q = exact_square();
    let (y, v, u) = (n * d, p * w, x * w);
    assert(v * e <= u * (e + 1)) by (nonlinear_arith)
        requires
            p * e <= x * (e + 1),
            u == x * w,
            v == p * w,
            w > 0,
    ;
    assert(y * q <= u * (q + 0x40_0000_0000_0001)) by {
        assert(y * e <= v * (e + 1));
        assert(y * e * e <= v * (e + 1) * e) by (nonlinear_arith)
            requires
                y * e <= v * (e + 1),
                e > 0,
        ;
        assert(v * (e + 1) * e == v * e * (e + 1)) by (nonlinear_arith);
        assert(v * e * (e + 1) <= u * (e + 1) * (e + 1)) by (nonlinear_arith)
            requires
                v * e <= u * (e + 1),
                e > 0,
        ;
        assert(y * e * e == y * q) by (nonlinear_arith)
            requires
                e == 0x20_0000_0000_0000,
                q == 0x400_0000_0000_0000_0000_0000_0000,
        ;
        assert(u * (e + 1) * (e + 1) == u * (q + 0x40_0000_0000_0001)) by (nonlinear_arith)
            requires
                e == 0x20_0000_0000_0000,
                q == 0x400_0000_0000_0000_0000_0000_0000,
        ;
    }
    let (a, g) = (r * d, x * (q + 0x40_0000_0000_0001));
    assert(2 * (a * w) <= 2 * y + d * w) by (nonlinear_arith)
        requires
            2 * (r * w) <= 2 * n + w,
            a == r * d,
            y == n * d,
            d > 0,
    ;
    assert(u * (q + 0x40_0000_0000_0001) == g * w) by (nonlinear_arith)
        requires
            u == x * w,
            g == x * (q + 0x40_0000_0000_0001),
    ;
    assert(2 * (a * w) * q <= 2 * (y * q) + d * w * q) by (nonlinear_arith)
        requires
            2 * (a * w) <= 2 * y + d * w,
            q > 0,
    ;
    assert(2 * (a * w) * q == (2 * a * q) * w && 2 * (g * w) + d * w * q == (2 * g + d * q) * w)
        by (nonlinear_arith);
    assert(2 * a * q <= 2 * g + d * q) by (nonlinear_arith)
        requires
            (2 * a * q) * w <= (2 * g + d * q) * w,
            w > 0,
    ;
    assert(2 * x * (q + 0x40_0000_0000_0001) == 2 * g) by (nonlinear_arith)
        requires
            g == x * (q + 0x40_0000_0000_0001),
    ;
}

/// Two roundings downwards and one to a whole number.
proof fn lemma_twice_below(x: int, d: int, p: int, n: int, w: int, r: int)
    requires
        0 < d,
        0 < w,
        p * 0x20_0000_0000_0000 >= x * 0x1f_ffff_ffff_ffff,
        n * d * 0x20_0000_0000_0000 >= p * w * 0x1f_ffff_ffff_ffff,
        2 * n <= 2 * (r * w) + w,
    ensures
        2 * (r * d) * exact_square() + d * exact_square() >= 2 * x * (exact_square()
            - 0x3f_ffff_ffff_ffff),
{
    let e: int = 0x20_0000_0000_0000;
    let q = exact_square();
    let (y, v, u) = (n * d, p * w, x * w);
    assert(v * e >= u * (e - 1)) by (nonlinear_arith)
        requires
            p * e >= x * (e - 1),
            u == x * w,
            v == p * w,
            w > 0,
    ;
    assert(y * q >= u * (q - 0x3f_ffff_ffff_ffff)) by {
        assert(y * e >= v * (e - 1));
        assert(y * e * e >= v * (e - 1) * e) by (nonlinear_arith)
            requires
                y * e >= v * (e - 1),
                e > 0,
        ;
        assert(v * (e - 1) * e == v * e * (e - 1)) by (nonlinear_arith);
        assert(v * e * (e - 1) >= u * (e - 1) * (e - 1)) by (nonlinear_arith)
            requires
                v * e >= u * (e - 1),
                e > 1,
        ;
        assert(y * e * e == y * q) by (nonlinear_arith)
            requires
                e == 0x20_0000_0000_0000,
                q == 0x400_0000_0000_0000_0000_0000_0000,
        ;
        assert(u * (e - 1) * (e - 1) == u * (q - 0x3f_ffff_ffff_ffff)) by (nonlinear_arith)
            requires
                e == 0x20_0000_0000_0000,
                q == 0x400_0000_0000_0000_0000_0000_0000,
        ;
    }
    let (a, g) = (r * d, x * (q - 0x3f_ffff_ffff_ffff));
    assert(2 * y <= 2 * (a * w) + d * w) by (nonlinear_arith)
        requires
            2 * n <= 2 * (r * w) + w,
            a == r * d,
            y == n * d,
            d > 0,
    ;
    assert(u * (q - 0x3f_ffff_ffff_ffff) == g * w) by (nonlinear_arith)
        requires
            u == x * w,
            g == x * (q - 0x3f_ffff_ffff_ffff),
    ;
    assert(2 * (y * q) <= 2 * (a * w) * q + d * w * q) by (nonlinear_arith)
        requires
            2 * y <= 2 * (a * w) + d * w,
            q > 0,
    ;
    assert(2 * (g * w) == (2 * g) * w && 2 * (a * w) * q + d * w * q == (2 * a * q + d * q) * w)
        by (nonlinear_arith);
    assert(2 * g <= 2 * a * q + d * q) by (nonlinear_arith)
        requires
            (2 * g) * w <= (2 * a * q + d * q) * w,
            w > 0,
    ;
    assert(2 * x * (q - 0x3f_ffff_ffff_ffff) == 2 * g) by (nonlinear_arith)
        requires
            g == x * (q - 0x3f_ffff_ffff_ffff),
    ;
}

// ---------------------------------------------------------------------------
// Order
// ---------------------------------------------------------------------------

/// Rounding keeps the order of fractions with one denominator.
proof fn lemma_half_even_monotone(a: nat, c: nat, b: nat)
    requires
        b > 0,
        a <= c,
    ensures
        binary::half_even(a, b) <= binary::half_even(c, b),
{
    lemma_half_even(a, b);
    lemma_half_even(c, b);
    let (x, y) = (binary::half_even(a, b), binary::half_even(c, b));
    if x > y {
        assert(x * b >= y * b + b) by (nonlinear_arith)
            requires
                x >= y + 1,
                b > 0,
        ;
        assert(a == c);
    }
}

/// Rounding does not depend on how a fraction is written.
proof fn lemma_half_even_scaled(a: nat, b: nat, k: nat)
    requires
        b > 0,
        k > 0,
    ensures
        b * k > 0,
        binary::half_even(a * k, b * k) == binary::half_even(a, b),
{
    let q = binary::half_even(a, b);
    lemma_half_even_is(a, b);
    assert(b * k > 0) by (nonlinear_arith)
        requires
            b > 0,
            k > 0,
    ;
    let (up, down) = ((2 * q + 1) * b, (2 * q - 1) * b);
    assert(up * k == (2 * q + 1) * (b * k) && down * k == (2 * q - 1) * (b * k)) by (nonlinear_arith)
        requires
            up == (2 * q + 1) * b,
            down == (2 * q - 1) * b,
    ;
    assert(2 * (a * k) == 2 * a * k) by (nonlinear_arith);
    assert(2 * a < up ==> 2 * a * k < up * k) by (nonlinear_arith)
        requires
            k > 0,
    ;
    assert(2 * a > down ==> 2 * a * k > down * k) by (nonlinear_arith)
        requires
            k > 0,
    ;
    lemma_is_half_even(a * k, b * k, q);
}

/// Rounding keeps the order of fractions.
proof fn lemma_to_whole_monotone(f: (nat, int), g: (nat, int))
    requires
        over_num(f) * over_den(g) <= over_num(g) * over_den(f),
    ensures
        to_whole(f) <= to_whole(g),
{
    lemma_over_den(f);
    lemma_over_den(g);
    let (n, d, m, e) = (over_num(f), over_den(f), over_num(g), over_den(g));
    lemma_half_even_scaled(n, d, e);
    lemma_half_even_scaled(m, e, d);
    assert(d * e == e * d) by (nonlinear_arith);
    lemma_half_even_monotone(n * e, m * d, d * e);
}

/// A denominator is positive.
proof fn lemma_over_den(f: (nat, int))
    ensures
        over_den(f) > 0,
{
    power2::lemma_pow2_pos(
        if f.1 < 0 {
            (-f.1) as nat
        } else {
            0
        },
    );
}

/// How much of an exponent is above zero.
spec fn above(e: int) -> nat {
    if e > 0 {
        e as nat
    } else {
        0
    }
}

/// Rounding to floating point keeps the order of fractions with one denominator.
proof fn lemma_rounded_monotone(a: nat, c: nat, b: nat)
    requires
        b > 0,
        a <= c,
    ensures
        ({
            let (f, g) = (binary::rounded(a, b), binary::rounded(c, b));
            over_num(f) * over_den(g) <= over_num(g) * over_den(f)
        }),
{
    binary::lemma_nearest_exists(a, b);
    binary::lemma_nearest_exists(c, b);
    let (f, g) = (binary::rounded(a, b), binary::rounded(c, b));
    let (e, h) = (f.1, g.1);
    power2::lemma2_to64();
    power2::lemma2_to64_rest();
    if e > h {
        binary::lemma_greater_exponent(c, b, h, e);
        let p = power2::pow2(above(-e));
        assert(a * p <= c * p) by (nonlinear_arith)
            requires
                a <= c,
        ;
        assert(binary::below(a, b, e, 52));
    } else if e == h {
        let (p, q) = (power2::pow2(above(-e)), power2::pow2(above(e)));
        power2::lemma_pow2_pos(above(e));
        assert(a * p <= c * p) by (nonlinear_arith)
            requires
                a <= c,
        ;
        assert(b * q > 0) by (nonlinear_arith)
            requires
                b > 0,
                q > 0,
        ;
        lemma_half_even_monotone(a * p, c * p, b * q);
        assert(f.0 * q * p <= g.0 * q * p) by (nonlinear_arith)
            requires
                f.0 <= g.0,
                q >= 0,
                p >= 0,
        ;
    } else {
        lemma_significand(a, b, f);
        lemma_significand(c, b, g);
        let x = above(e) + above(-h);
        let k = (h - e) as nat;
        power2::lemma_pow2_adds(above(e), above(-h));
        power2::lemma_pow2_adds(above(h), above(-e));
        power2::lemma_pow2_adds(x, k);
        power2::lemma_pow2_pos(x);
        power2::lemma_pow2_unfold(k);
        power2::lemma_pow2_pos((k - 1) as nat);
        assert(above(h) + above(-e) == x + k);
        let (px, pk) = (power2::pow2(x), power2::pow2(k));
        assert(pk >= 2);
        let (u, v) = (power2::pow2(above(e)), power2::pow2(above(-h)));
        let (w, z) = (power2::pow2(above(h)), power2::pow2(above(-e)));
        assert(f.0 * u * v == f.0 * px && g.0 * w * z == g.0 * (px * pk)) by (nonlinear_arith)
            requires
                u * v == px,
                w * z == px * pk,
        ;
        assert(f.0 * px <= g.0 * (px * pk)) by (nonlinear_arith)
            requires
                f.0 <= 0x20_0000_0000_0000,
                g.0 >= 0x10_0000_0000_0000,
                pk >= 2,
                px >= 0,
        ;
    }
}

/// A significand has 53 bits, or is the next power of two.
proof fn lemma_significand(a: nat, b: nat, f: (nat, int))
    requires
        b > 0,
        binary::nearest(a, b, f.0, f.1),
    ensures
        f.0 <= 0x20_0000_0000_0000,
        f.1 > binary::MIN_EXPONENT ==> f.0 >= 0x10_0000_0000_0000,
{
    power2::lemma2_to64();
    power2::lemma2_to64_rest();
    let (x, y) = (binary::scaled_num(a, f.1), binary::scaled_den(b, f.1));
    power2::lemma_pow2_pos(above(f.1));
    assert(y > 0) by (nonlinear_arith)
        requires
            b > 0,
            y == b * power2::pow2(above(f.1)),
            power2::pow2(above(f.1)) > 0,
    ;
    lemma_half_even(x, y);
    let m = f.0;
    assert(m <= 0x20_0000_0000_0000) by (nonlinear_arith)
        requires
            2 * (m * y) <= 2 * x + y,
            x < y * 0x20_0000_0000_0000,
            y > 0,
    ;
    if f.1 > binary::MIN_EXPONENT {
        assert(m >= 0x10_0000_0000_0000) by (nonlinear_arith)
            requires
                2 * x <= 2 * (m * y) + y,
                x >= y * 0x10_0000_0000_0000,
                y > 0,
        ;
    }
}

/// The floating-point number nearest to a whole number, as a fraction.
pub proof fn lemma_double_fraction(n: nat)
    ensures
        over_num(binary::rounded(n, 1)) == as_double(n) * over_den(binary::rounded(n, 1)),
{
    binary::lemma_nearest_exists(n, 1);
    let f = binary::rounded(n, 1);
    power2::lemma2_to64();
    power2::lemma2_to64_rest();
    if f.1 > 0 {
        assert(as_double(n) * 1 == as_double(n));
    } else {
        let p = power2::pow2((-f.1) as nat);
        power2::lemma_pow2_pos((-f.1) as nat);
        assert(n * p >= n) by (nonlinear_arith)
            requires
                p >= 1,
        ;
        assert(binary::scaled_num(n, f.1) >= n) by {
            if f.1 == 0 {
                assert(n * power2::pow2(0) == n) by (nonlinear_arith)
                    requires
                        power2::pow2(0) == 1,
                ;
            }
        }
        assert(binary::scaled_den(1, f.1) == 1);
        binary::theorem_small_integers_exact(n, f.0, f.1);
        assert(over_num(f) == f.0) by (nonlinear_arith)
            requires
                over_num(f) == f.0 * power2::pow2(0),
                power2::pow2(0) == 1,
        ;
        assert(over_den(f) == p);
    }
}

/// Rounding to floating point keeps the order of whole numbers.
pub proof fn lemma_double_monotone(a: nat, c: nat)
    requires
        a <= c,
    ensures
        as_double(a) <= as_double(c),
{
    lemma_rounded_monotone(a, c, 1);
    let (f, g) = (binary::rounded(a, 1), binary::rounded(c, 1));
    lemma_double_fraction(a);
    lemma_double_fraction(c);
    lemma_over_den(f);
    lemma_over_den(g);
    let (x, y, d, e) = (as_double(a), as_double(c), over_den(f), over_den(g));
    assert(x <= y) by (nonlinear_arith)
        requires
            x * d * e <= y * e * d,
            d > 0,
            e > 0,
    ;
}

// ---------------------------------------------------------------------------
// Computing it
// ---------------------------------------------------------------------------

/// `a / b`, rounded to the nearest, ties to even.
pub fn round_half_even(a: u128, b: u128) -> (r: u128)
    requires
        0 < b <= 0xffff_ffff_ffff_ffff,
    ensures
        r == binary::half_even(a as nat, b as nat),
{
    let q: u128 = a / b;
    let r: u128 = a % b;
    if 2 * r < b || (2 * r == b && q % 2 == 0) {
        q
    } else {
        assert(q < u128::MAX) by {
            if b == 1 {
                assert(r == 0);
            } else {
                assert(q <= a / 2) by (nonlinear_arith)
                    requires
                        q == a / b,
                        b >= 2,
                ;
            }
        }
        q + 1
    }
}

/// The limbs of a number.
fn limbs_of(n: u128) -> (v: Vec<u32>)
    ensures
        bignum::value(v@) == n,
    decreases n,
{
    if n == 0 {
        Vec::new()
    } else {
        let mut v: Vec<u32> = limbs_of(n / 0x1_0000);
        bignum::mul_add(&mut v, 0x1_0000, (n % 0x1_0000) as u32);
        v
    }
}

/// Multiplies a number by `2^k`.
fn shift(n: &mut Vec<u32>, k: i64)
    requires
        0 <= k,
    ensures
        bignum::value(final(n)@) == bignum::value(old(n)@) * power2::pow2(k as nat),
{
    let ghost start = bignum::value(n@);
    let mut j: i64 = 0;
    proof {
        power2::lemma2_to64();
        assert(start * power2::pow2(0) == start) by (nonlinear_arith)
            requires
                power2::pow2(0) == 1,
        ;
    }
    while j < k
        invariant
            0 <= j <= k,
            bignum::value(n@) == start * power2::pow2(j as nat),
        decreases k - j,
    {
        bignum::mul_add(n, 2, 0);
        proof {
            power2::lemma_pow2_unfold((j + 1) as nat);
            let p = power2::pow2(j as nat);
            assert(start * p * 2 == start * (2 * p)) by (nonlinear_arith);
        }
        j = j + 1;
    }
}

/// The exponent of a whole number below `2^k` is below `k - 52`.
proof fn lemma_exponent_below(n: nat, f: (nat, int), k: nat)
    requires
        binary::nearest(n, 1, f.0, f.1),
        n < power2::pow2(k),
        f.1 > 0,
    ensures
        f.1 + 52 < k,
{
    let e = f.1;
    power2::lemma2_to64();
    assert(n * power2::pow2(0) == n) by (nonlinear_arith)
        requires
            power2::pow2(0) == 1,
    ;
    assert(1 * power2::pow2(e as nat) == power2::pow2(e as nat)) by (nonlinear_arith);
    power2::lemma_pow2_adds(e as nat, 52);
    if e + 52 >= k {
        if e + 52 > k {
            power2::lemma_pow2_strictly_increases(k, (e + 52) as nat);
        }
    }
}

/// The floating-point number nearest to a whole number, as `m * 2^e`.
fn double_parts(n: u64) -> (f: (u64, i64))
    ensures
        as_double(n as nat) == f.0 * power2::pow2(f.1 as nat),
        0 <= f.1 < 12,
{
    let one: Vec<u32> = limbs_of(1);
    let limbs: Vec<u32> = limbs_of(n as u128);
    proof {
        power2::lemma2_to64();
        power2::lemma2_to64_rest();
        power2::lemma_pow2_strictly_increases(64, 1400);
        assert(n * power2::pow2(0) == n) by (nonlinear_arith)
            requires
                power2::pow2(0) == 1,
        ;
    }
    let (m, e) = binary::round(limbs, one);
    if e <= 0 {
        (n, 0)
    } else {
        proof {
            lemma_exponent_below(n as nat, (m as nat, e as int), 64);
        }
        (m, e)
    }
}

/// The product of two floating-point numbers, as a floating-point number.
fn double_product(a: (u64, i64), b: (u64, i64)) -> (p: Vec<u32>)
    requires
        0 <= a.1 < 12,
        0 <= b.1 < 12,
    ensures
        bignum::value(p@) == as_double(
            ((a.0 * power2::pow2(a.1 as nat)) * (b.0 * power2::pow2(b.1 as nat))) as nat,
        ),
        bignum::value(p@) < power2::pow2(200),
{
    let ghost (x, y) = (power2::pow2(a.1 as nat), power2::pow2(b.1 as nat));
    let ghost exact = ((a.0 * x) * (b.0 * y)) as nat;
    let (am, bm) = (a.0 as u128, b.0 as u128);
    assert(am * bm < 0x1_0000_0000_0000_0000 * 0x1_0000_0000_0000_0000) by (nonlinear_arith)
        requires
            am < 0x1_0000_0000_0000_0000,
            bm < 0x1_0000_0000_0000_0000,
    ;
    let product: u128 = am * bm;
    let mut limbs: Vec<u32> = limbs_of(product);
    shift(&mut limbs, a.1 + b.1);
    proof {
        power2::lemma2_to64();
        power2::lemma2_to64_rest();
        power2::lemma_pow2_adds(a.1 as nat, b.1 as nat);
        power2::lemma_pow2_adds(64, 64);
        power2::lemma_pow2_adds(128, 24);
        power2::lemma_pow2_strictly_increases(152, 1400);
        power2::lemma_pow2_strictly_increases((a.1 + b.1) as nat, 24);
        let (big, z, c) = (power2::pow2(128), power2::pow2((a.1 + b.1) as nat), power2::pow2(24));
        assert(product * z == exact) by (nonlinear_arith)
            requires
                product == a.0 * b.0,
                z == x * y,
                exact == (a.0 * x) * (b.0 * y),
        ;
        assert(product * z < big * c) by (nonlinear_arith)
            requires
                0 <= product < big,
                0 <= z < c,
        ;
        power2::lemma_pow2_strictly_increases(152, 200);
    }
    let one: Vec<u32> = limbs_of(1);
    let mut copy: Vec<u32> = Vec::new();
    copy.extend_from_slice(&limbs);
    assert(copy@ =~= limbs@);
    let (m, e) = binary::round(copy, one);
    if e <= 0 {
        limbs
    } else {
        let mut rounded: Vec<u32> = limbs_of(m as u128);
        shift(&mut rounded, e);
        proof {
            lemma_exponent_below(exact, (m as nat, e as int), 152);
            power2::lemma_pow2_strictly_increases(e as nat, 100);
            power2::lemma_pow2_adds(64, 100);
            power2::lemma_pow2_strictly_increases(164, 200);
            let (p, q, z) = (power2::pow2(e as nat), power2::pow2(100), power2::pow2(64));
            assert(m * p < z * q) by (nonlinear_arith)
                requires
                    0 <= m < z,
                    0 <= p < q,
            ;
        }
        rounded
    }
}

/// The smaller of a number and the greatest position.
pub open spec fn saturated(n: nat) -> nat {
    if n <= usize::MAX {
        n
    } else {
        usize::MAX as nat
    }
}

/// A floating-point number as a position: rounded to the nearest whole number,
/// ties to even, and held at the greatest position.
fn to_position(m: u64, e: i64) -> (r: usize)
    requires
        m <= 0x20_0000_0000_0000,
        binary::MIN_EXPONENT <= e,
    ensures
        r == saturated(to_whole((m as nat, e as int))),
{
    let ghost f = (m as nat, e as int);
    proof {
        power2::lemma2_to64();
        power2::lemma2_to64_rest();
    }
    if e >= 0 {
        let mut n: u64 = m;
        let mut j: i64 = 0;
        proof {
            assert(m * power2::pow2(0) == m) by (nonlinear_arith)
                requires
                    power2::pow2(0) == 1,
            ;
            assert(over_den(f) == 1);
            lemma_whole(over_num(f));
        }
        while j < e
            invariant
                0 <= j <= e,
                n == m * power2::pow2(j as nat),
                f == (m as nat, e as int),
                over_den(f) == 1,
            decreases e - j,
        {
            proof {
                power2::lemma_pow2_unfold((j + 1) as nat);
                let p = power2::pow2(j as nat);
                assert(m * (2 * p) == 2 * (m * p)) by (nonlinear_arith);
                if n >= 0x8000_0000_0000_0000 {
                    let q = power2::pow2(e as nat);
                    if j + 1 < e {
                        power2::lemma_pow2_strictly_increases((j + 1) as nat, e as nat);
                    }
                    assert(m * q >= m * (2 * p)) by (nonlinear_arith)
                        requires
                            q >= 2 * p,
                            m >= 0,
                    ;
                    assert(over_num(f) > usize::MAX);
                    lemma_whole(over_num(f));
                }
            }
            if n >= 0x8000_0000_0000_0000 {
                return usize::MAX;
            }
            n = 2 * n;
            j = j + 1;
        }
        proof {
            assert(over_num(f) == n);
            assert(over_den(f) == 1);
            lemma_whole(over_num(f));
        }
        if n <= usize::MAX as u64 {
            n as usize
        } else {
            usize::MAX
        }
    } else if e < -60 {
        proof {
            power2::lemma_pow2_strictly_increases(60, (-e) as nat);
            assert(over_num(f) == m) by (nonlinear_arith)
                requires
                    over_num(f) == m * power2::pow2(0),
                    power2::pow2(0) == 1,
            ;
            let w = over_den(f);
            assert((2 * 0 + 1) * w == w && (2 * 0 - 1) * w == -w) by (nonlinear_arith);
            lemma_is_half_even(m as nat, w, 0);
        }
        0
    } else {
        let mut w: u128 = 1;
        let mut j: i64 = 0;
        while j < -e
            invariant
                0 <= j <= -e <= 60,
                w == power2::pow2(j as nat),
                w <= 0x1000_0000_0000_0000,
            decreases -e - j,
        {
            proof {
                power2::lemma_pow2_unfold((j + 1) as nat);
                power2::lemma2_to64();
                power2::lemma2_to64_rest();
                if j + 1 < 60 {
                    power2::lemma_pow2_strictly_increases((j + 1) as nat, 60);
                }
            }
            w = 2 * w;
            j = j + 1;
        }
        let r: u128 = round_half_even(m as u128, w);
        proof {
            assert(over_num(f) == m) by (nonlinear_arith)
                requires
                    over_num(f) == m * power2::pow2(0),
                    power2::pow2(0) == 1,
            ;
            lemma_half_even(m as nat, w as nat);
            assert(r <= m + 1) by (nonlinear_arith)
                requires
                    2 * (r * w) <= 2 * m + w,
                    w >= 1,
            ;
        }
        if r <= usize::MAX as u128 {
            r as usize
        } else {
            usize::MAX
        }
    }
}

/// A whole number is not changed by rounding to a whole number.
proof fn lemma_whole(n: nat)
    ensures
        binary::half_even(n, 1) == n,
{
}

/// The product of the first two numbers over the third, each number and each
/// result rounded to floating point, and the last to a position.
pub open spec fn scaled_position(i: nat, span: nat, denom: nat) -> nat {
    saturated(
        whole_quotient(as_double(as_double(i) * as_double(span)), as_double(denom)),
    )
}

/// Where the product is below `2^52`, rounding to floating point changes nothing:
/// the position is the nearest one.
pub proof fn theorem_scaled_exact(i: nat, span: nat, denom: nat)
    requires
        0 < span,
        0 < denom < 0x1_0000_0000_0000_0000,
        i <= denom,
        denom <= span,
        i * span < 0x10_0000_0000_0000,
    ensures
        scaled_position(i, span, denom) == saturated(binary::half_even(i * span, denom)),
{
    if i == 0 {
        lemma_exact(0);
        assert(as_double(0) * as_double(span) == 0) by (nonlinear_arith)
            requires
                as_double(0) == 0,
        ;
        assert(i * span == 0) by (nonlinear_arith)
            requires
                i == 0,
        ;
        lemma_double_close(denom);
        lemma_quotient_exact(0, as_double(denom));
        lemma_zero_half_even(denom);
        lemma_zero_half_even(as_double(denom));
    } else {
        assert(span <= i * span && i <= i * span) by (nonlinear_arith)
            requires
                i >= 1,
                span >= 1,
        ;
        lemma_exact(i);
        lemma_exact(span);
        lemma_exact(denom);
        lemma_exact(i * span);
        lemma_quotient_exact(i * span, denom);
    }
}

/// A greater first factor gives no smaller position.
pub proof fn theorem_scaled_monotone(i: nat, j: nat, span: nat, denom: nat)
    requires
        i <= j,
        0 < denom,
    ensures
        scaled_position(i, span, denom) <= scaled_position(j, span, denom),
{
    lemma_double_monotone(i, j);
    lemma_double_close(denom);
    let (x, y, s) = (as_double(i), as_double(j), as_double(span));
    assert(x * s <= y * s) by (nonlinear_arith)
        requires
            x <= y,
            s >= 0,
    ;
    lemma_double_monotone(x * s, y * s);
    let d = as_double(denom);
    lemma_rounded_monotone(as_double(x * s), as_double(y * s), d);
    lemma_to_whole_monotone(
        binary::rounded(as_double(x * s), d),
        binary::rounded(as_double(y * s), d),
    );
}

/// Computes [`scaled_position`].
pub fn scale_position(i: u64, span: u64, denom: u64) -> (r: usize)
    requires
        0 < denom,
    ensures
        r == scaled_position(i as nat, span as nat, denom as nat),
{
    let product: Vec<u32> = double_product(double_parts(i), double_parts(span));
    let d: (u64, i64) = double_parts(denom);
    let mut divisor: Vec<u32> = limbs_of(d.0 as u128);
    shift(&mut divisor, d.1);
    proof {
        lemma_double_close(denom as nat);
        power2::lemma_pow2_strictly_increases(200, 1400);
        let (v, p) = (bignum::value(divisor@), power2::pow2(1400));
        assert(v * p >= p) by (nonlinear_arith)
            requires
                v >= 1,
        ;
    }
    let (m, e) = binary::round(product, divisor);
    to_position(m, e)
}

} // verus!
