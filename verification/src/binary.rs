//! Rounding of positive fractions to binary floating point with 53 significant
//! bits, ties to even.

use vstd::arithmetic::div_mod;
use vstd::arithmetic::power2;
use vstd::prelude::*;

use crate::bignum;

verus! {

/// The least exponent of a significand.
pub const MIN_EXPONENT: i64 = -1074;

/// The greatest exponent of a significand.
pub const MAX_EXPONENT: i64 = 971;

/// `num / den / 2^e`, as a numerator.
pub open spec fn scaled_num(num: nat, e: int) -> nat {
    num * power2::pow2(
        if e < 0 {
            (-e) as nat
        } else {
            0
        },
    )
}

/// `num / den / 2^e`, as a denominator.
pub open spec fn scaled_den(den: nat, e: int) -> nat {
    den * power2::pow2(
        if e > 0 {
            e as nat
        } else {
            0
        },
    )
}

/// `num / den / 2^e` is less than `2^bits`.
pub open spec fn below(num: nat, den: nat, e: int, bits: nat) -> bool {
    scaled_num(num, e) < scaled_den(den, e) * power2::pow2(bits)
}

/// `a / b`, rounded to the nearest integer, ties to even.
pub open spec fn half_even(a: nat, b: nat) -> nat {
    let q = a / b;
    let r = a % b;
    if 2 * r < b || 2 * r == b && q % 2 == 0 {
        q
    } else {
        q + 1
    }
}

/// `m * 2^e` is `num / den` rounded: `e` is the exponent at which there are 53
/// bits before the point, or the least exponent where there are fewer.
pub open spec fn nearest(num: nat, den: nat, m: nat, e: int) -> bool {
    &&& MIN_EXPONENT <= e
    &&& below(num, den, e, 53)
    &&& e > MIN_EXPONENT ==> !below(num, den, e, 52)
    &&& m == half_even(scaled_num(num, e), scaled_den(den, e))
}

/// `num / den` rounded: the significand and its exponent.
pub open spec fn rounded(num: nat, den: nat) -> (nat, int) {
    choose|f: (nat, int)| nearest(num, den, f.0, f.1)
}

/// At the next exponent there is one bit fewer.
proof fn lemma_next_exponent(num: nat, den: nat, e: int)
    ensures
        below(num, den, e, 53) <==> below(num, den, e + 1, 52),
{
    power2::lemma2_to64();
    power2::lemma2_to64_rest();
    if e >= 0 {
        power2::lemma_pow2_unfold((e + 1) as nat);
        let (p, p1) = (power2::pow2(e as nat), power2::pow2((e + 1) as nat));
        let (b52, b53) = (power2::pow2(52), power2::pow2(53));
        assert(p1 == 2 * p);
        assert(b53 == 2 * b52);
        assert(den * p * b53 == den * p1 * b52) by (nonlinear_arith)
            requires
                p1 == 2 * p,
                b53 == 2 * b52,
        ;
    } else {
        power2::lemma_pow2_unfold((-e) as nat);
        let (p, p1) = (power2::pow2((-e) as nat), power2::pow2((-e - 1) as nat));
        let (b52, b53) = (power2::pow2(52), power2::pow2(53));
        assert(p == 2 * p1);
        assert(b53 == 2 * b52);
        assert(num * p == 2 * (num * p1)) by (nonlinear_arith)
            requires
                p == 2 * p1,
        ;
        let d = scaled_den(den, e);
        assert(d * b53 == 2 * (d * b52)) by (nonlinear_arith)
            requires
                b53 == 2 * b52,
        ;
    }
}

/// Fewer bits are within more.
proof fn lemma_fewer_bits(num: nat, den: nat, e: int)
    ensures
        below(num, den, e, 52) ==> below(num, den, e, 53),
{
    power2::lemma2_to64();
    power2::lemma2_to64_rest();
    let d = scaled_den(den, e);
    let (b52, b53) = (power2::pow2(52), power2::pow2(53));
    assert(b52 <= b53);
    assert(d * b52 <= d * b53) by (nonlinear_arith)
        requires
            b52 <= b53,
    ;
}

/// At a greater exponent there are no more bits.
pub proof fn lemma_greater_exponent(num: nat, den: nat, e: int, f: int)
    requires
        e <= f,
        below(num, den, e, 53),
    ensures
        below(num, den, f, 53),
        e < f ==> below(num, den, f, 52),
    decreases f - e,
{
    if e < f {
        lemma_greater_exponent(num, den, e, f - 1);
        lemma_next_exponent(num, den, f - 1);
        lemma_fewer_bits(num, den, f);
    }
}

/// There is only one way to round.
pub proof fn theorem_nearest_unique(num: nat, den: nat, m: nat, e: int, n: nat, f: int)
    requires
        nearest(num, den, m, e),
        nearest(num, den, n, f),
    ensures
        m == n,
        e == f,
{
    if e < f {
        lemma_greater_exponent(num, den, e, f);
    } else if f < e {
        lemma_greater_exponent(num, den, f, e);
    }
}

/// What rounding to the nearest whole number is: no other whole number is nearer, and
/// of two that are as near it is the even one.
pub proof fn theorem_half_even(a: nat, b: nat)
    requires
        b > 0,
    ensures
        ({
            let q = half_even(a, b);
            &&& 2 * a < (2 * q + 1) * b || (2 * a == (2 * q + 1) * b && q % 2 == 0)
            &&& 2 * a > (2 * q - 1) * b || (2 * a == (2 * q - 1) * b && q % 2 == 0)
        }),
{
    div_mod::lemma_fundamental_div_mod(a as int, b as int);
    let k = a / b;
    let q = half_even(a, b);
    assert(b * k == k * b) by (nonlinear_arith);
    assert((2 * q + 1) * b == 2 * (q * b) + b) by (nonlinear_arith);
    assert((2 * q - 1) * b == 2 * (q * b) - b) by (nonlinear_arith);
    if q == k + 1 {
        assert(q * b == k * b + b) by (nonlinear_arith)
            requires
                q == k + 1,
        ;
    }
}

/// What rounding to floating point is: `m * 2^e` is the fraction to the nearest multiple
/// of `2^e`, ties to even, at the exponent at which the significand has 53 bits, or at
/// the least exponent where it has fewer.
pub proof fn theorem_rounding(num: nat, den: nat)
    requires
        den > 0,
    ensures
        ({
            let (m, e) = rounded(num, den);
            let a = num * power2::pow2(
                if e < 0 {
                    (-e) as nat
                } else {
                    0
                },
            );
            let b = den * power2::pow2(
                if e > 0 {
                    e as nat
                } else {
                    0
                },
            );
            &&& e >= -1074
            &&& a < b * 0x20_0000_0000_0000
            &&& e > -1074 ==> a >= b * 0x10_0000_0000_0000
            &&& 2 * a < (2 * m + 1) * b || (2 * a == (2 * m + 1) * b && m % 2 == 0)
            &&& 2 * a > (2 * m - 1) * b || (2 * a == (2 * m - 1) * b && m % 2 == 0)
        }),
{
    lemma_nearest_exists(num, den);
    let (m, e) = rounded(num, den);
    let b = scaled_den(den, e);
    power2::lemma2_to64();
    power2::lemma2_to64_rest();
    power2::lemma_pow2_pos(
        if e > 0 {
            e as nat
        } else {
            0
        },
    );
    assert(b > 0) by (nonlinear_arith)
        requires
            den > 0,
            b == den * power2::pow2(
                if e > 0 {
                    e as nat
                } else {
                    0
                },
            ),
            power2::pow2(
                if e > 0 {
                    e as nat
                } else {
                    0
                },
            ) > 0,
    ;
    theorem_half_even(scaled_num(num, e), b);
}

/// The one way to round is [`rounded`].
pub proof fn lemma_rounded(num: nat, den: nat, m: nat, e: int)
    requires
        nearest(num, den, m, e),
    ensures
        rounded(num, den) == (m, e),
{
    let w = (m, e);
    assert(nearest(num, den, w.0, w.1));
    let f = rounded(num, den);
    theorem_nearest_unique(num, den, m, e, f.0, f.1);
}

/// An integer below `2^53` is not changed by rounding.
pub proof fn theorem_small_integers_exact(n: nat, m: nat, e: int)
    requires
        n < 0x20_0000_0000_0000,
        nearest(n, 1, m, e),
    ensures
        e <= 0,
        m == n * power2::pow2((-e) as nat),
{
    power2::lemma2_to64();
    power2::lemma2_to64_rest();
    assert(n * power2::pow2(0) == n) by (nonlinear_arith)
        requires
            power2::pow2(0) == 1,
    ;
    if e > 0 {
        lemma_greater_exponent(n, 1, 0, e);
    }
    let a = scaled_num(n, e);
    assert(scaled_den(1, e) == 1);
    assert(a / 1 == a && a % 1 == 0);
}

/// A fraction that begins far up has a great exponent.
pub proof fn lemma_great(num: nat, den: nat, m: nat, e: int)
    requires
        nearest(num, den, m, e),
        num >= den * power2::pow2(1024),
    ensures
        e > MAX_EXPONENT,
{
    if e <= 971 {
        lemma_greater_exponent(num, den, e, 971);
        power2::lemma_pow2_adds(971, 53);
        power2::lemma2_to64();
        let (p, b, c) = (power2::pow2(971), power2::pow2(53), power2::pow2(1024));
        assert(den * p * b == den * c) by (nonlinear_arith)
            requires
                p * b == c,
        ;
        assert(num * power2::pow2(0) == num) by (nonlinear_arith)
            requires
                power2::pow2(0) == 1,
        ;
    }
}

/// Every positive fraction can be rounded.
pub proof fn lemma_nearest_exists(num: nat, den: nat)
    requires
        den > 0,
    ensures
        nearest(num, den, rounded(num, den).0, rounded(num, den).1),
{
    lemma_search(num, den, MIN_EXPONENT as int);
    let (m, e) = choose|m: nat, e: int| nearest(num, den, m, e);
    lemma_rounded(num, den, m, e);
}

/// Looks for the exponent from `e` on.
proof fn lemma_search(num: nat, den: nat, e: int)
    requires
        den > 0,
        e >= MIN_EXPONENT,
        e > MIN_EXPONENT ==> !below(num, den, e, 52),
    ensures
        exists|m: nat, e: int| nearest(num, den, m, e),
    decreases num - e + 1,
{
    if below(num, den, e, 53) {
        assert(nearest(num, den, half_even(scaled_num(num, e), scaled_den(den, e)), e));
    } else {
        assert(e < num) by {
            if e >= num {
                lemma_pow2_exceeds(e as nat);
                power2::lemma2_to64();
                power2::lemma2_to64_rest();
                let (p, b) = (power2::pow2(e as nat), power2::pow2(53));
                assert(den * p >= p) by (nonlinear_arith)
                    requires
                        den >= 1,
                ;
                assert(den * p * b >= den * p) by (nonlinear_arith)
                    requires
                        b >= 1,
                        den * p >= 0,
                ;
                assert(num * power2::pow2(0) == num) by (nonlinear_arith)
                    requires
                        power2::pow2(0) == 1,
                ;
            }
        }
        lemma_next_exponent(num, den, e);
        lemma_search(num, den, e + 1);
    }
}

/// `2^n` is more than `n`.
proof fn lemma_pow2_exceeds(n: nat)
    ensures
        n < power2::pow2(n),
    decreases n,
{
    power2::lemma2_to64();
    if n > 0 {
        lemma_pow2_exceeds((n - 1) as nat);
        power2::lemma_pow2_unfold(n);
    }
}

/// A copy of a number.
fn copy(n: &Vec<u32>) -> (c: Vec<u32>)
    ensures
        c@ == n@,
{
    let mut c: Vec<u32> = Vec::new();
    c.extend_from_slice(n);
    assert(c@ =~= n@);
    c
}

/// Whether `num` is at least `den * 2^53` or, without `full`, `den * 2^52`.
fn reaches(num: &Vec<u32>, den: &Vec<u32>, full: bool) -> (b: bool)
    ensures
        b == (bignum::value(num@) >= bignum::value(den@) * power2::pow2(
            if full {
                53
            } else {
                52
            },
        )),
{
    let mut big: Vec<u32> = copy(den);
    shift_52(&mut big);
    if full {
        bignum::mul_add(&mut big, 2, 0);
        proof {
            power2::lemma2_to64();
            power2::lemma2_to64_rest();
            let (d, b52, b53) = (bignum::value(den@), power2::pow2(52), power2::pow2(53));
            assert(b53 == 2 * b52);
            assert(d * b52 * 2 == d * b53) by (nonlinear_arith)
                requires
                    b53 == 2 * b52,
            ;
        }
    }
    let mut rest: Vec<u32> = copy(num);
    bignum::sub_if_ge(&mut rest, &big)
}

/// Multiplies a number by `2^52`.
fn shift_52(n: &mut Vec<u32>)
    ensures
        bignum::value(final(n)@) == bignum::value(old(n)@) * power2::pow2(52),
{
    bignum::mul_add(n, 0x400_0000, 0);
    bignum::mul_add(n, 0x400_0000, 0);
    proof {
        power2::lemma2_to64();
        power2::lemma2_to64_rest();
        let (v, b) = (bignum::value(old(n)@), power2::pow2(52));
        assert(b == 0x10_0000_0000_0000);
        assert(v * 0x400_0000 * 0x400_0000 == v * b) by (nonlinear_arith)
            requires
                b == 0x10_0000_0000_0000,
        ;
    }
}

/// The quotient of two numbers, rounded, where it is below `2^53`.
fn divide(num: &Vec<u32>, den: &Vec<u32>) -> (m: u64)
    requires
        bignum::value(den@) > 0,
        bignum::value(num@) < bignum::value(den@) * power2::pow2(53),
    ensures
        m == half_even(bignum::value(num@), bignum::value(den@)),
        m <= 0x20_0000_0000_0000,
{
    let ghost n = bignum::value(num@);
    let ghost d = bignum::value(den@);
    let mut big: Vec<u32> = copy(den);
    shift_52(&mut big);
    let ghost dd = bignum::value(big@);
    let mut r: Vec<u32> = copy(num);
    let mut q: u64 = 0;
    let mut j: u32 = 0;
    proof {
        power2::lemma2_to64();
        power2::lemma2_to64_rest();
        let (b52, b53) = (power2::pow2(52), power2::pow2(53));
        assert(b53 == 2 * b52);
        assert(d * b53 == 2 * (d * b52)) by (nonlinear_arith)
            requires
                b53 == 2 * b52,
        ;
        assert(n * power2::pow2(0) == n) by (nonlinear_arith)
            requires
                power2::pow2(0) == 1,
        ;
        assert(2 * q * dd == 0) by (nonlinear_arith)
            requires
                q == 0,
        ;
    }
    while j < 53
        invariant
            0 <= j <= 53,
            dd == bignum::value(big@),
            n * power2::pow2(j as nat) == 2 * q * dd + bignum::value(r@),
            bignum::value(r@) < 2 * dd,
            q < power2::pow2(j as nat),
            power2::pow2(j as nat) <= 0x20_0000_0000_0000,
        decreases 53 - j,
    {
        let ghost before = bignum::value(r@);
        let bit: bool = bignum::sub_if_ge(&mut r, &big);
        let ghost left = bignum::value(r@);
        bignum::mul_add(&mut r, 2, 0);
        let ghost q0 = q;
        q = 2 * q + if bit {
            1
        } else {
            0
        };
        proof {
            power2::lemma_pow2_unfold((j + 1) as nat);
            let p = power2::pow2(j as nat);
            assert(n * (2 * p) == 2 * (n * p)) by (nonlinear_arith);
            let b: int = if bit {
                1
            } else {
                0
            };
            assert(before == b * dd + left) by (nonlinear_arith)
                requires
                    bit ==> before == dd + left,
                    !bit ==> before == left,
                    b == (if bit {
                        1int
                    } else {
                        0
                    }),
            ;
            assert(2 * (2 * q0 * dd + before) == 2 * q * dd + 2 * left) by (nonlinear_arith)
                requires
                    q == 2 * q0 + b,
                    before == b * dd + left,
            ;
            lemma_pow2_53(j + 1);
        }
        j = j + 1;
    }
    let ghost r0 = bignum::value(r@);
    let above: bool = bignum::sub_if_ge(&mut r, &big);
    let exact: bool = bignum::is_zero(&r);
    proof {
        let b52 = power2::pow2(52);
        let b53 = power2::pow2(53);
        power2::lemma2_to64();
        power2::lemma2_to64_rest();
        assert(b53 == 2 * b52 && b52 == 0x10_0000_0000_0000);
        let rem = n - q * d;
        assert(r0 == b53 * rem) by (nonlinear_arith)
            requires
                n * b53 == 2 * q * dd + r0,
                dd == d * b52,
                b53 == 2 * b52,
                rem == n - q * d,
        ;
        assert(0 <= rem < d) by (nonlinear_arith)
            requires
                r0 == b53 * rem,
                0 <= r0 < 2 * dd,
                dd == d * b52,
                b53 == 2 * b52,
                b52 > 0,
        ;
        assert(q * d == d * q) by (nonlinear_arith);
        div_mod::lemma_fundamental_div_mod_converse(n as int, d as int, q as int, rem);
        assert(r0 >= dd <==> 2 * rem >= d) by (nonlinear_arith)
            requires
                r0 == b53 * rem,
                dd == d * b52,
                b53 == 2 * b52,
                b52 > 0,
        ;
        assert(r0 == dd <==> 2 * rem == d) by (nonlinear_arith)
            requires
                r0 == b53 * rem,
                dd == d * b52,
                b53 == 2 * b52,
                b52 > 0,
        ;
    }
    if !above || (exact && q % 2 == 0) {
        q
    } else {
        q + 1
    }
}

/// Powers up to `2^53` are no more than that.
proof fn lemma_pow2_53(j: int)
    requires
        0 <= j <= 53,
    ensures
        power2::pow2(j as nat) <= 0x20_0000_0000_0000,
{
    power2::lemma2_to64();
    power2::lemma2_to64_rest();
    if j < 53 {
        power2::lemma_pow2_strictly_increases(j as nat, 53);
    }
}

/// Rounds `num / den`.
pub fn round(num: Vec<u32>, den: Vec<u32>) -> (r: (u64, i64))
    requires
        bignum::value(den@) > 0,
        bignum::value(num@) < bignum::value(den@) * power2::pow2(1400),
    ensures
        nearest(bignum::value(num@), bignum::value(den@), r.0 as nat, r.1 as int),
        rounded(bignum::value(num@), bignum::value(den@)) == (r.0 as nat, r.1 as int),
        r.0 <= 0x20_0000_0000_0000,
        r.1 <= 1400,
{
    let ghost n0 = bignum::value(num@);
    let ghost d0 = bignum::value(den@);
    let mut num: Vec<u32> = num;
    let mut den: Vec<u32> = den;
    let mut e: i64 = 0;
    proof {
        power2::lemma2_to64();
        assert(d0 * power2::pow2(0) == d0 && n0 * power2::pow2(0) == n0) by (nonlinear_arith)
            requires
                power2::pow2(0) == 1,
        ;
    }
    while reaches(&num, &den, true)
        invariant
            0 <= e <= 1400,
            bignum::value(num@) == n0,
            bignum::value(den@) == d0 * power2::pow2(e as nat),
            bignum::value(den@) > 0,
            n0 < d0 * power2::pow2(1400),
            e > 0 ==> !below(n0, d0, e as int, 52),
            n0 * power2::pow2(0) == n0,
        decreases n0 / bignum::value(den@),
    {
        proof {
            let d = bignum::value(den@);
            let p = power2::pow2(e as nat);
            let b53 = power2::pow2(53);
            power2::lemma2_to64();
            power2::lemma2_to64_rest();
            assert(d * b53 >= d) by (nonlinear_arith)
                requires
                    b53 >= 1,
            ;
            assert(p < power2::pow2(1400)) by (nonlinear_arith)
                requires
                    d0 * p <= n0,
                    n0 < d0 * power2::pow2(1400),
                    d0 > 0,
            ;
            if e >= 1400 {
                if e > 1400 {
                    power2::lemma_pow2_strictly_increases(1400, e as nat);
                }
            }
            power2::lemma_pow2_unfold((e + 1) as nat);
            assert(d0 * (2 * p) == 2 * (d0 * p)) by (nonlinear_arith);
            assert(d0 * (2 * p) > 0);
            lemma_halved(n0 as int, d as int);
            lemma_next_exponent(n0, d0, e as int);
        }
        bignum::mul_add(&mut den, 2, 0);
        e = e + 1;
    }
    if e == 0 {
        while !reaches(&num, &den, false) && e > MIN_EXPONENT
            invariant
                MIN_EXPONENT <= e <= 0,
                bignum::value(den@) == d0,
                d0 > 0,
                bignum::value(num@) == n0 * power2::pow2((-e) as nat),
                below(n0, d0, e as int, 53),
                d0 * power2::pow2(0) == d0,
                n0 * power2::pow2(0) == n0,
            decreases e - MIN_EXPONENT,
        {
            proof {
                let p = power2::pow2((-e) as nat);
                power2::lemma_pow2_unfold((-e + 1) as nat);
                assert(n0 * (2 * p) == n0 * p * 2) by (nonlinear_arith);
                lemma_next_exponent(n0, d0, e - 1);
            }
            bignum::mul_add(&mut num, 2, 0);
            e = e - 1;
        }
        assert(e > MIN_EXPONENT ==> !below(n0, d0, e as int, 52));
    }
    assert(below(n0, d0, e as int, 53));
    let m: u64 = divide(&num, &den);
    proof {
        lemma_rounded(n0, d0, m as nat, e as int);
    }
    (m, e)
}

/// Over twice the denominator the quotient is less.
proof fn lemma_halved(n: int, d: int)
    requires
        0 < d <= n,
    ensures
        n / (2 * d) < n / d,
{
    div_mod::lemma_fundamental_div_mod(n, d);
    div_mod::lemma_fundamental_div_mod(n, 2 * d);
    let (q, p) = (n / d, n / (2 * d));
    assert(p < q) by (nonlinear_arith)
        requires
            n == d * q + n % d,
            0 <= n % d < d,
            n == (2 * d) * p + n % (2 * d),
            0 <= n % (2 * d),
            0 < d <= n,
    ;
}

} // verus!
