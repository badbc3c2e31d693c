//! IEEE 754 binary64 numbers held as their 64 bits.
//!
//! A finite number is an integer multiple of 2^-1074, the smallest positive
//! magnitude.  Every definition below works on that integer, so sums, products
//! and orderings are those of exact arithmetic followed by one rounding to the
//! nearest representable number, ties to even.

use vstd::arithmetic::div_mod::{
    lemma_div_denominator, lemma_fundamental_div_mod, lemma_fundamental_div_mod_converse,
};
use vstd::arithmetic::power2::{
    lemma2_to64, lemma_pow2_adds, lemma_pow2_pos, lemma_pow2_strictly_increases, lemma_pow2_unfold,
    pow2,
};
use vstd::prelude::*;

verus! {

/// 2^52: the step between the first bit patterns of two neighbouring binades.
pub const HIDDEN: u64 = 0x10_0000_0000_0000;

/// The sign bit, which is also the pattern of negative zero.
pub const SIGN: u64 = 0x8000_0000_0000_0000;

/// The pattern of positive infinity.
pub const INFINITY: u64 = 0x7FF0_0000_0000_0000;

/// The pattern of negative infinity.
pub const NEG_INFINITY: u64 = 0xFFF0_0000_0000_0000;

/// The pattern of 2^-52, the distance from 1 to the next larger number.
pub const EPSILON: u64 = 0x3CB0_0000_0000_0000;

/// The pattern of -2^-52.
pub const NEG_EPSILON: u64 = 0xBCB0_0000_0000_0000;

/// The pattern of 2^-64.
pub const TWO_TO_MINUS_64: u64 = 0x3BF0_0000_0000_0000;

pub open spec fn is_negative(bits: u64) -> bool {
    bits >= SIGN
}

/// The pattern without its sign bit.
pub open spec fn magnitude(bits: u64) -> nat {
    if bits >= SIGN {
        (bits - SIGN) as nat
    } else {
        bits as nat
    }
}

/// Neither an infinity nor a NaN.
pub open spec fn is_finite(bits: u64) -> bool {
    magnitude(bits) < INFINITY
}

pub open spec fn significand(m: nat) -> nat {
    if m < HIDDEN {
        m
    } else {
        (m % HIDDEN as nat + HIDDEN as nat) as nat
    }
}

pub open spec fn scale(m: nat) -> nat {
    if m < HIDDEN {
        0
    } else {
        (m / HIDDEN as nat - 1) as nat
    }
}

/// The value of a magnitude, in multiples of 2^-1074.
pub open spec fn units(m: nat) -> nat {
    significand(m) * pow2(scale(m))
}

/// The value of a finite number, in multiples of 2^-1074.
pub open spec fn exact(bits: u64) -> int {
    if is_negative(bits) {
        -(units(magnitude(bits)) as int)
    } else {
        units(magnitude(bits)) as int
    }
}

/// `n / d`, rounded to the nearest integer, ties to even.
pub open spec fn half_even(n: nat, d: nat) -> nat {
    let q = n / d;
    let r = n % d;
    if 2 * r > d || (2 * r == d && q % 2 == 1) {
        q + 1
    } else {
        q
    }
}

/// How many binary digits `n` has beyond 53.
pub open spec fn excess(n: nat) -> nat
    decreases n,
{
    if n < 0x20_0000_0000_0000 {
        0
    } else {
        1 + excess(n / 2)
    }
}

/// The pattern of the positive number nearest to `n / 2^s` multiples of
/// 2^-1074, or of infinity where that is too large.
pub open spec fn rounded(n: nat, s: nat) -> nat {
    let k = excess(n / pow2(s));
    let m = k * HIDDEN as nat + half_even(n, pow2(s + k));
    if m >= INFINITY {
        INFINITY as nat
    } else {
        m
    }
}

pub open spec fn signed(negative: bool, m: nat) -> u64 {
    if negative {
        (m + SIGN) as u64
    } else {
        m as u64
    }
}

/// The sum of two finite numbers.
pub open spec fn sum(a: u64, b: u64) -> u64 {
    let t = exact(a) + exact(b);
    if t == 0 {
        signed(is_negative(a) && is_negative(b), 0)
    } else if t > 0 {
        signed(false, rounded(t as nat, 0))
    } else {
        signed(true, rounded((-t) as nat, 0))
    }
}

/// The product of two finite numbers.
pub open spec fn product(a: u64, b: u64) -> u64 {
    signed(
        is_negative(a) != is_negative(b),
        rounded(units(magnitude(a)) * units(magnitude(b)), 1074),
    )
}

/// The number nearest to an integer.
pub open spec fn of_int(n: int) -> u64 {
    if n >= 0 {
        signed(false, rounded((n * pow2(1074)) as nat, 0))
    } else {
        signed(true, rounded((-n * pow2(1074)) as nat, 0))
    }
}

proof fn lemma_excess_double(n: nat)
    ensures
        n < HIDDEN ==> excess(2 * n) == 0,
        n >= HIDDEN ==> excess(2 * n) == excess(n) + 1,
{
    assert((2 * n) / 2 == n);
}

proof fn lemma_excess_shift(n: nat, e: nat)
    requires
        n >= HIDDEN,
    ensures
        excess(n * pow2(e)) == excess(n) + e,
        n * pow2(e) >= HIDDEN,
    decreases e,
{
    if e == 0 {
        assert(pow2(0) == 1) by {
            lemma2_to64();
        }
    } else {
        lemma_excess_shift(n, (e - 1) as nat);
        lemma_pow2_unfold(e);
        let p = pow2((e - 1) as nat);
        assert(n * (2 * p) == 2 * (n * p)) by (nonlinear_arith);
        lemma_excess_double(n * p);
    }
}

proof fn lemma_half_even_scale(n: nat, d: nat, c: nat)
    requires
        d > 0,
        c > 0,
    ensures
        d * c > 0,
        half_even(n * c, d * c) == half_even(n, d),
{
    let q = n / d;
    let r = n % d;
    lemma_fundamental_div_mod(n as int, d as int);
    assert(n * c == q * (d * c) + r * c) by (nonlinear_arith)
        requires
            n == d * q + r,
    ;
    assert(r * c < d * c) by (nonlinear_arith)
        requires
            r < d,
            c > 0,
    ;
    assert(d * c > 0) by (nonlinear_arith)
        requires
            d > 0,
            c > 0,
    ;
    assert(0 <= r * c) by (nonlinear_arith);
    lemma_fundamental_div_mod_converse((n * c) as int, (d * c) as int, q as int, (r * c) as int);
    assert((2 * r > d) == (2 * (r * c) > d * c)) by (nonlinear_arith)
        requires
            c > 0,
    ;
    assert((2 * r == d) == (2 * (r * c) == d * c)) by (nonlinear_arith)
        requires
            c > 0,
    ;
}

/// A common factor of two does not change the rounding.
proof fn lemma_rounded_scale(n: nat, s: nat, e: nat)
    ensures
        rounded(n * pow2(e), s + e) == rounded(n, s),
{
    lemma_pow2_pos(s);
    lemma_pow2_pos(e);
    lemma_pow2_adds(s, e);
    let c = pow2(e);
    let d = pow2(s);
    assert((n * c) / (d * c) == n / d) by {
        let q = n / d;
        let r = n % d;
        lemma_fundamental_div_mod(n as int, d as int);
        assert(n * c == q * (d * c) + r * c) by (nonlinear_arith)
            requires
                n == d * q + r,
        ;
        assert(r * c < d * c) by (nonlinear_arith)
            requires
                r < d,
                c > 0,
        ;
        assert(0 <= r * c) by (nonlinear_arith);
        assert(d * c > 0) by (nonlinear_arith)
            requires
                d > 0,
                c > 0,
        ;
        lemma_fundamental_div_mod_converse(
            (n * c) as int,
            (d * c) as int,
            q as int,
            (r * c) as int,
        );
    }
    let k = excess(n / d);
    lemma_pow2_adds(s + k, e);
    lemma_pow2_pos(s + k);
    assert(s + k + e == s + e + k);
    lemma_half_even_scale(n, pow2(s + k), c);
}

/// Rounding an integer that has at most 53 digits after its factors of two
/// are set aside.
proof fn lemma_rounded_exact(t: nat, e: nat)
    requires
        t < 0x20_0000_0000_0000,
        e == 0 || t >= HIDDEN,
    ensures
        ({
            let m = e * HIDDEN as nat + t;
            rounded(t * pow2(e), 0) == if m >= INFINITY {
                INFINITY as nat
            } else {
                m
            }
        }),
{
    lemma2_to64();
    lemma_pow2_pos(e);
    let n = t * pow2(e);
    assert(n / pow2(0) == n);
    if e == 0 {
        assert(t * pow2(0) == t) by {
            assert(pow2(0) == 1);
        }
        assert(n == t);
        assert(half_even(n, 1) == n);
    } else {
        lemma_excess_shift(t, e);
        assert(excess(t) == 0);
        lemma_half_even_scale(t, 1, pow2(e));
        assert(1 * pow2(e) == pow2(e));
        assert(half_even(t, 1) == t);
        assert(excess(n) == e);
    }
}

proof fn lemma_rounded_large(n: nat, k: nat, e: nat)
    requires
        n >= 0x20_0000_0000_0000,
        k == excess(n),
    ensures
        ({
            let m = (k + e) * HIDDEN as nat + half_even(n, pow2(k));
            rounded(n * pow2(e), 0) == if m >= INFINITY {
                INFINITY as nat
            } else {
                m
            }
        }),
{
    lemma2_to64();
    lemma_pow2_pos(e);
    lemma_pow2_pos(k);
    lemma_excess_shift(n, e);
    lemma_pow2_adds(k, e);
    lemma_half_even_scale(n, pow2(k), pow2(e));
    assert((n * pow2(e)) / pow2(0) == n * pow2(e));
}

/// The magnitude pattern nearest to `n * 2^e` multiples of 2^-1074.
fn round_up(n: u128, e: u64) -> (m: u64)
    requires
        n < 0x4000_0000_0000_0000_0000_0000_0000_0000,
        e < 0x1000,
    ensures
        m == rounded(n as nat * pow2(e as nat), 0),
        m <= INFINITY,
{
    if n < 0x20_0000_0000_0000 {
        let mut t: u64 = n as u64;
        let mut left: u64 = e;
        if t == 0 {
            proof {
                lemma2_to64();
                assert(0 * pow2(e as nat) == 0);
                assert(half_even(0, 1) == 0);
            }
            return 0;
        }
        while left > 0 && t < HIDDEN
            invariant
                left <= e,
                0 < t < 0x20_0000_0000_0000,
                t as nat * pow2(left as nat) == n as nat * pow2(e as nat),
            decreases left,
        {
            proof {
                lemma_pow2_unfold(left as nat);
                let p = pow2((left - 1) as nat);
                let u = t as nat;
                assert(u * (2 * p) == (2 * u) * p) by (nonlinear_arith);
            }
            t = t * 2;
            left = left - 1;
        }
        proof {
            lemma_rounded_exact(t as nat, left as nat);
        }
        assert(left * HIDDEN + t <= 0xFFF * HIDDEN + 0x20_0000_0000_0000) by (nonlinear_arith)
            requires
                left < 0x1000,
                t < 0x20_0000_0000_0000,
        ;
        if left >= 2048 {
            proof {
                assert(left * HIDDEN >= 2048 * HIDDEN) by (nonlinear_arith)
                    requires
                        left >= 2048,
                ;
            }
            return INFINITY;
        }
        assert(left * HIDDEN <= 2047 * HIDDEN) by (nonlinear_arith)
            requires
                left < 2048,
        ;
        let m: u64 = left * HIDDEN + t;
        if m >= INFINITY {
            INFINITY
        } else {
            m
        }
    } else {
        proof {
            lemma2_to64();
        }
        let (k, q) = nearest(n, 1, 0);
        proof {
            assert(n as nat / 1 == n as nat);
            lemma_rounded_large(n as nat, k as nat, e as nat);
        }
        if k + e >= 2048 {
            proof {
                assert((k + e) * HIDDEN >= 2048 * HIDDEN) by (nonlinear_arith)
                    requires
                        k + e >= 2048,
                ;
            }
            return INFINITY;
        }
        assert((k + e) * HIDDEN <= 2047 * HIDDEN) by (nonlinear_arith)
            requires
                k + e < 2048,
        ;
        let m: u64 = (k + e) * HIDDEN + q;
        if m >= INFINITY {
            INFINITY
        } else {
            m
        }
    }
}

/// The excess digits of `n / d`, and `n / d` rounded to 53 digits, where `d`
/// is 2^s.
fn nearest(n: u128, d: u128, s: u64) -> (r: (u64, u64))
    requires
        d == pow2(s as nat),
        d <= 0x1000_0000_0000_0000_0000_0000_0000_0000,
        n < 0x4000_0000_0000_0000_0000_0000_0000_0000,
        s < 0x1000,
    ensures
        r.0 == excess(n as nat / pow2(s as nat)),
        r.1 == half_even(n as nat, pow2(s as nat + r.0 as nat)),
        r.0 <= 127,
        r.1 <= 0x20_0000_0000_0000,
{
    let mut k: u64 = 0;
    let mut c: u128 = d;
    proof {
        lemma_pow2_pos(s as nat);
    }
    let mut t: u128 = n / d;
    let ghost start = n as nat / d as nat;
    proof {
        assert(t <= n) by (nonlinear_arith)
            requires
                t == n as nat / d as nat,
                d > 0,
        ;
    }
    proof {
        lemma2_to64();
        assert(t as nat * pow2(0) == t as nat);
    }
    while t >= 0x20_0000_0000_0000
        invariant
            c == pow2(s as nat + k as nat),
            c > 0,
            t == n as nat / c as nat,
            excess(start) == excess(t as nat) + k,
            start == n as nat / pow2(s as nat),
            n < 0x4000_0000_0000_0000_0000_0000_0000_0000,
            k <= 126,
            t as nat * pow2(k as nat) <= n,
        decreases t,
    {
        proof {
            lemma_pow2_unfold((s + k + 1) as nat);
            lemma_pow2_unfold((k + 1) as nat);
            lemma_div_denominator(n as int, c as int, 2);
            lemma_fundamental_div_mod(n as int, c as int);
            assert(c <= n) by (nonlinear_arith)
                requires
                    t == n as nat / c as nat,
                    t >= 1,
                    n == c * (n as nat / c as nat) + n as nat % c as nat,
                    c > 0,
            ;
            let h = t as nat / 2;
            let p = pow2(k as nat);
            lemma_pow2_pos(k as nat);
            assert(h * (2 * p) <= t as nat * p) by (nonlinear_arith)
                requires
                    2 * h <= t,
                    p > 0,
            ;
            if k == 126 {
                lemma_pow2_adds(63, 63);
                lemma2_to64();
                vstd::arithmetic::power2::lemma2_to64_rest();
                assert(t as nat * p >= 0x4000_0000_0000_0000_0000_0000_0000_0000) by (nonlinear_arith)
                    requires
                        t >= 1,
                        p == 0x4000_0000_0000_0000_0000_0000_0000_0000,
                ;
            }
        }
        c = c * 2;
        t = t / 2;
        k = k + 1;
    }
    let q: u64 = (n / c) as u64;
    let r: u128 = n % c;
    proof {
        lemma_pow2_pos(s as nat + k as nat);
    }
    if c - r < r || (c - r == r && q % 2 == 1) {
        (k, q + 1)
    } else {
        (k, q)
    }
}

/// 2^d as an integer.
fn power(d: u64) -> (p: u128)
    requires
        d < 120,
    ensures
        p == pow2(d as nat),
        p <= 0x80_0000_0000_0000_0000_0000_0000_0000,
{
    proof {
        lemma2_to64();
    }
    let mut p: u128 = 1;
    let mut i: u64 = 0;
    while i < d
        invariant
            i <= d < 120,
            p == pow2(i as nat),
        decreases d - i,
    {
        proof {
            lemma_pow2_unfold((i + 1) as nat);
            lemma_pow2_small(i as nat);
        }
        p = p * 2;
        i = i + 1;
    }
    proof {
        lemma_pow2_small(d as nat);
    }
    p
}

proof fn lemma_pow2_small(d: nat)
    requires
        d < 120,
    ensures
        0 < pow2(d) <= 0x80_0000_0000_0000_0000_0000_0000_0000,
{
    lemma_pow2_pos(d);
    lemma2_to64();
    vstd::arithmetic::power2::lemma2_to64_rest();
    lemma_pow2_adds(60, 59);
    if d < 119 {
        lemma_pow2_strictly_increases(d, 119);
    }
}

/// The significand and the scale of a magnitude pattern.
fn decompose(m: u64) -> (r: (u64, u64))
    requires
        m < INFINITY,
    ensures
        r.0 == significand(m as nat),
        r.1 == scale(m as nat),
        r.0 < 0x20_0000_0000_0000,
        r.1 < 2046,
        r.1 > 0 ==> r.0 >= HIDDEN,
        m == r.1 * HIDDEN + r.0,
{
    if m < HIDDEN {
        (m, 0)
    } else {
        let e: u64 = m / HIDDEN;
        let f: u64 = m % HIDDEN;
        proof {
            lemma_fundamental_div_mod(m as int, HIDDEN as int);
        }
        (f + HIDDEN, e - 1)
    }
}

/// Adding a number far smaller than the distance between neighbours changes
/// nothing.
proof fn lemma_rounded_absorbs(a: nat, b: nat, d: nat, e: nat)
    requires
        HIDDEN <= a < 0x20_0000_0000_0000,
        b < 0x20_0000_0000_0000,
        d >= 64,
    ensures
        rounded((a * pow2(d) + b) * pow2(e), 0) == rounded(a * pow2(d + e), 0),
        a * pow2(d) > b,
        rounded(((a * pow2(d) - b) as nat) * pow2(e), 0) == rounded(a * pow2(d + e), 0),
{
    lemma2_to64();
    vstd::arithmetic::power2::lemma2_to64_rest();
    if d > 64 {
        lemma_pow2_strictly_increases(64, d);
    }
    let p = pow2(d);
    assert(p >= 0x1_0000_0000_0000_0000);
    lemma_pow2_adds(d, e);
    lemma_pow2_pos(e);
    let c = pow2(e);
    assert((a * p) * c == a * (p * c)) by (nonlinear_arith);
    // a * 2^d itself
    lemma_excess_shift(a, d);
    assert(excess(a) == 0);
    assert(a * p >= HIDDEN * p) by (nonlinear_arith)
        requires
            a >= HIDDEN,
            p > 0,
    ;
    assert(HIDDEN * p >= 0x10_0000_0000_0000 * 0x1_0000_0000_0000_0000) by (nonlinear_arith)
        requires
            p >= 0x1_0000_0000_0000_0000,
    ;
    lemma_rounded_exact(a, d + e);
    // a * 2^d + b
    let n = a * p + b;
    assert(n / p == a && n % p == b) by {
        assert(n == a * p + b);
        lemma_fundamental_div_mod_converse(n as int, p as int, a as int, b as int);
    }
    lemma_excess_of_quotient(n, d, a);
    lemma_rounded_large(n, d, e);
    assert(half_even(n, p) == a);
    // a * 2^d - b
    let m = (a * p - b) as nat;
    if b == 0 {
        assert(m == a * p);
        assert((a * p) / p == a && (a * p) % p == 0) by {
            lemma_fundamental_div_mod_converse((a * p) as int, p as int, a as int, 0);
        }
        lemma_rounded_large(m, d, e);
        assert(half_even(m, p) == a);
    } else if a > HIDDEN {
        let q = (a - 1) as nat;
        assert(m == q * p + (p - b)) by (nonlinear_arith)
            requires
                m == a * p - b,
                q == a - 1,
        ;
        lemma_fundamental_div_mod_converse(m as int, p as int, q as int, (p - b) as int);
        lemma_excess_of_quotient(m, d, q);
        lemma_rounded_large(m, d, e);
        assert(half_even(m, p) == a);
    } else {
        lemma_pow2_unfold(d);
        let h = pow2((d - 1) as nat);
        let q = 0x1F_FFFF_FFFF_FFFFnat;
        assert(m == q * h + (h - b)) by (nonlinear_arith)
            requires
                m == a * p - b,
                a == 0x10_0000_0000_0000,
                p == 2 * h,
                q == 0x1F_FFFF_FFFF_FFFF,
        ;
        lemma_fundamental_div_mod_converse(m as int, h as int, q as int, (h - b) as int);
        lemma_excess_of_quotient(m, (d - 1) as nat, q);
        lemma_rounded_large(m, (d - 1) as nat, e);
        assert(half_even(m, h) == 0x20_0000_0000_0000);
        assert((d - 1 + e) * HIDDEN as nat + 0x20_0000_0000_0000 == (d + e) * HIDDEN as nat + HIDDEN)
            by (nonlinear_arith);
    }
}

/// `n` has as many excess digits as must be dropped to leave a 53-digit
/// quotient.
proof fn lemma_excess_of_quotient(n: nat, d: nat, q: nat)
    requires
        q == n / pow2(d),
        HIDDEN <= q < 0x20_0000_0000_0000,
    ensures
        excess(n) == d,
    decreases d,
{
    if d == 0 {
        lemma2_to64();
        assert(n / 1 == n);
    } else {
        lemma_pow2_unfold(d);
        lemma_pow2_pos((d - 1) as nat);
        let h = pow2((d - 1) as nat);
        assert(n / (2 * h) == (n / 2) / h) by {
            lemma_div_denominator(n as int, 2, h as int);
        }
        lemma_excess_of_quotient(n / 2, (d - 1) as nat, q);
        lemma_fundamental_div_mod(n as int, (2 * h) as int);
        assert(n >= 0x20_0000_0000_0000) by (nonlinear_arith)
            requires
                n == (2 * h) * (n / (2 * h)) + n % (2 * h),
                n / (2 * h) >= 0x10_0000_0000_0000,
                h >= 1,
        ;
    }
}

/// Larger patterns stand for larger values.
proof fn lemma_units_increase(m1: nat, m2: nat)
    requires
        m1 < m2 < INFINITY,
    ensures
        units(m1) < units(m2),
{
    let (a, s) = (significand(m1), scale(m1));
    let (b, t) = (significand(m2), scale(m2));
    lemma_fundamental_div_mod(m1 as int, HIDDEN as int);
    lemma_fundamental_div_mod(m2 as int, HIDDEN as int);
    lemma_pow2_pos(s);
    lemma_pow2_pos(t);
    assert(s <= t);
    if s == t {
        assert(a * pow2(s) < b * pow2(s)) by (nonlinear_arith)
            requires
                a < b,
                pow2(s) > 0,
        ;
    } else {
        lemma_pow2_unfold(t);
        let p = pow2(s);
        let h = pow2((t - 1) as nat);
        if s < t - 1 {
            lemma_pow2_strictly_increases(s, (t - 1) as nat);
        }
        assert(a * p < b * (2 * h)) by (nonlinear_arith)
            requires
                a < 0x20_0000_0000_0000,
                b >= 0x10_0000_0000_0000,
                0 < p <= h,
        ;
    }
}

/// Whether a pattern is that of a finite number.
pub fn finite(bits: u64) -> (r: bool)
    ensures
        r == is_finite(bits),
{
    if bits >= SIGN {
        bits - SIGN < INFINITY
    } else {
        bits < INFINITY
    }
}

/// Whether the first of two finite numbers is the smaller one.
pub fn less(a: u64, b: u64) -> (r: bool)
    requires
        is_finite(a),
        is_finite(b),
    ensures
        r == (exact(a) < exact(b)),
{
    let x: u64 = if a >= SIGN { a - SIGN } else { a };
    let y: u64 = if b >= SIGN { b - SIGN } else { b };
    proof {
        if x < y {
            lemma_units_increase(x as nat, y as nat);
        }
        if y < x {
            lemma_units_increase(y as nat, x as nat);
        }
        assert(units(0) == 0) by {
            assert(0 * pow2(0) == 0);
        }
        if x > 0 {
            lemma_units_increase(0, x as nat);
        }
        if y > 0 {
            lemma_units_increase(0, y as nat);
        }
    }
    if a >= SIGN {
        if b >= SIGN {
            y < x
        } else {
            x > 0 || y > 0
        }
    } else if b >= SIGN {
        false
    } else {
        x < y
    }
}

/// Whether two finite numbers are equal; the two zeros are.
pub fn equal(a: u64, b: u64) -> (r: bool)
    requires
        is_finite(a),
        is_finite(b),
    ensures
        r == (exact(a) == exact(b)),
{
    !less(a, b) && !less(b, a)
}

fn with_sign(negative: bool, m: u64) -> (bits: u64)
    requires
        m <= INFINITY,
    ensures
        bits == signed(negative, m as nat),
{
    if negative {
        m + SIGN
    } else {
        m
    }
}

/// The sum of two finite numbers.
pub fn add_floats(a: u64, b: u64) -> (r: u64)
    requires
        is_finite(a),
        is_finite(b),
    ensures
        r == sum(a, b),
{
    let x: u64 = if a >= SIGN { a - SIGN } else { a };
    let y: u64 = if b >= SIGN { b - SIGN } else { b };
    if x >= y {
        add_ordered(a, b)
    } else {
        add_ordered(b, a)
    }
}

fn add_ordered(a: u64, b: u64) -> (r: u64)
    requires
        is_finite(a),
        is_finite(b),
        magnitude(a) >= magnitude(b),
    ensures
        r == sum(a, b),
{
    let x: u64 = if a >= SIGN { a - SIGN } else { a };
    let y: u64 = if b >= SIGN { b - SIGN } else { b };
    let (p, s) = decompose(x);
    let (q, t) = decompose(y);
    let negative = a >= SIGN;
    let opposite = (a >= SIGN) != (b >= SIGN);
    proof {
        if x > y {
            lemma_units_increase(y as nat, x as nat);
        }
        assert(s >= t) by {
            if s < t {
                assert(x < y) by (nonlinear_arith)
                    requires
                        x == s * HIDDEN + p,
                        y == t * HIDDEN + q,
                        p < 0x20_0000_0000_0000,
                        q >= HIDDEN,
                        s + 1 <= t,
                        s > 0 ==> p >= HIDDEN,
                        HIDDEN == 0x10_0000_0000_0000,
                        x >= y,
                ;
            }
        }
    }
    let d: u64 = s - t;
    if d >= 64 {
        proof {
            lemma_rounded_absorbs(p as nat, q as nat, d as nat, t as nat);
            lemma_pow2_adds(d as nat, t as nat);
            let (pp, qq) = (p as nat, q as nat);
            let (c, e) = (pow2(d as nat), pow2(t as nat));
            lemma_pow2_pos(t as nat);
            assert((pp * c + qq) * e == pp * (c * e) + qq * e) by (nonlinear_arith);
            assert(((pp * c - qq) as nat) * e == pp * (c * e) - qq * e) by (nonlinear_arith)
                requires
                    pp * c > qq,
            ;
            assert(pp * (c * e) - qq * e > 0) by (nonlinear_arith)
                requires
                    pp * c > qq,
                    e > 0,
            ;
            lemma_rounded_exact(p as nat, s as nat);
            assert(units(x as nat) == pp * (c * e));
            assert(units(y as nat) == qq * e);
            assert(qq * e >= 0) by (nonlinear_arith);
        }
        return a;
    }
    let c: u128 = power(d);
    proof {
        lemma_pow2_adds(d as nat, t as nat);
        lemma2_to64();
        vstd::arithmetic::power2::lemma2_to64_rest();
        if d < 63 {
            lemma_pow2_strictly_increases(d as nat, 63);
        }
        assert(p * c <= 0x20_0000_0000_0000 * 0x8000_0000_0000_0000) by (nonlinear_arith)
            requires
                p < 0x20_0000_0000_0000,
                c <= 0x8000_0000_0000_0000,
        ;
        let e = pow2(t as nat);
        let (pp, qq, cc) = (p as nat, q as nat, c as nat);
        assert((pp * cc + qq) * e == pp * (cc * e) + qq * e) by (nonlinear_arith);
        assert((pp * cc - qq) * e == pp * (cc * e) - qq * e) by (nonlinear_arith);
        assert(units(x as nat) == pp * (cc * e));
        assert(units(y as nat) == qq * e);
        lemma_pow2_pos(t as nat);
        assert(pp * cc >= qq) by (nonlinear_arith)
            requires
                (pp * cc - qq) * e >= 0,
                e > 0,
        ;
    }
    let big: u128 = p as u128 * c;
    let n: u128 = if opposite { big - q as u128 } else { big + q as u128 };
    proof {
        let e = pow2(t as nat);
        assert((n == 0) == (n as nat * e == 0)) by (nonlinear_arith)
            requires
                e > 0,
        ;
    }
    if n == 0 {
        return if negative && !opposite { SIGN } else { 0 };
    }
    let m = round_up(n, t);
    with_sign(negative, m)
}

/// The product of two finite numbers.
pub fn multiply_floats(a: u64, b: u64) -> (r: u64)
    requires
        is_finite(a),
        is_finite(b),
    ensures
        r == product(a, b),
{
    let x: u64 = if a >= SIGN { a - SIGN } else { a };
    let y: u64 = if b >= SIGN { b - SIGN } else { b };
    let (p, s) = decompose(x);
    let (q, t) = decompose(y);
    let negative = (a >= SIGN) != (b >= SIGN);
    let e: u64 = s + t;
    proof {
        let (pp, qq) = (p as nat, q as nat);
        let (g, h) = (pow2(s as nat), pow2(t as nat));
        lemma_pow2_adds(s as nat, t as nat);
        assert((pp * g) * (qq * h) == (pp * qq) * (g * h)) by (nonlinear_arith);
        assert(p * q < 0x20_0000_0000_0000 * 0x20_0000_0000_0000) by (nonlinear_arith)
            requires
                p < 0x20_0000_0000_0000,
                q < 0x20_0000_0000_0000,
        ;
    }
    let n: u128 = p as u128 * q as u128;
    let ghost total = n as nat * pow2(e as nat);
    if e >= 1074 {
        proof {
            lemma_pow2_adds((e - 1074) as nat, 1074);
            let (g, h) = (pow2((e - 1074) as nat), pow2(1074));
            assert(n as nat * (g * h) == (n as nat * g) * h) by (nonlinear_arith);
            lemma_rounded_scale(n as nat * g, 0, 1074);
        }
        with_sign(negative, round_up(n, e - 1074))
    } else {
        let down: u64 = 1074 - e;
        proof {
            lemma_rounded_scale(n as nat, down as nat, e as nat);
        }
        if down >= 108 {
            proof {
                lemma_rounded_vanishes(n as nat, down as nat);
            }
            return with_sign(negative, 0);
        }
        let (k, m) = nearest(n, power(down), down);
        assert(k * HIDDEN <= 127 * HIDDEN) by (nonlinear_arith)
            requires
                k <= 127,
        ;
        with_sign(negative, k * HIDDEN + m)
    }
}

proof fn lemma_rounded_vanishes(n: nat, s: nat)
    requires
        n < 0x20_0000_0000_0000 * 0x20_0000_0000_0000,
        s >= 108,
    ensures
        rounded(n, s) == 0,
{
    lemma2_to64();
    vstd::arithmetic::power2::lemma2_to64_rest();
    lemma_pow2_adds(54, 54);
    if s > 108 {
        lemma_pow2_strictly_increases(108, s);
    }
    lemma_fundamental_div_mod_converse(n as int, pow2(s) as int, 0, n as int);
}

proof fn lemma_excess_bound(n: nat, j: nat)
    requires
        n < 0x20_0000_0000_0000 * pow2(j),
    ensures
        excess(n) <= j,
        n / pow2(excess(n)) < 0x20_0000_0000_0000,
    decreases j,
{
    lemma2_to64();
    if n < 0x20_0000_0000_0000 {
        assert(n / 1 == n);
    } else if j == 0 {
        assert(0x20_0000_0000_0000 * pow2(0) == 0x20_0000_0000_0000);
    } else {
        lemma_pow2_unfold(j);
        let p = pow2((j - 1) as nat);
        lemma_excess_bound(n / 2, (j - 1) as nat);
        let k = excess(n / 2);
        lemma_pow2_unfold(k + 1);
        lemma_pow2_pos(k);
        lemma_div_denominator(n as int, 2, pow2(k) as int);
    }
}

proof fn lemma_half_even_near(n: nat, d: nat)
    ensures
        half_even(n, d) == n / d || half_even(n, d) == n / d + 1,
{
}

proof fn lemma_rounded_bound(t: nat, k: nat, q: nat)
    requires
        excess(t) == k,
        k <= 1085,
        t / pow2(k) == q,
        q < 0x20_0000_0000_0000,
    ensures
        rounded(t, 0) < INFINITY,
{
    assert(pow2(0) == 1) by {
        lemma2_to64();
    }
    let b = k * HIDDEN as nat;
    assert(b <= 1085 * 0x10_0000_0000_0000) by (nonlinear_arith)
        requires
            k <= 1085,
            b == k * 0x10_0000_0000_0000,
    ;
    assert(t / pow2(0) == t);
    lemma_half_even_near(t, pow2(k));
    assert(rounded(t, 0) <= b + q + 1);
}

/// An integer of 64 digits is a finite number.
pub proof fn lemma_of_int_finite(n: int)
    requires
        -0x1_0000_0000_0000_0000 < n < 0x1_0000_0000_0000_0000,
    ensures
        is_finite(of_int(n)),
{
    let a = (if n >= 0 { n } else { -n }) as nat;
    let t = a * pow2(1074);
    lemma2_to64();
    lemma_pow2_adds(11, 1074);
    lemma_pow2_pos(1074);
    assert(a * pow2(1074) < 0x20_0000_0000_0000 * (2048 * pow2(1074))) by (nonlinear_arith)
        requires
            a < 0x1_0000_0000_0000_0000,
            pow2(1074) > 0,
    ;
    lemma_excess_bound(t, 1085);
    lemma_rounded_bound(t, excess(t), t / pow2(excess(t)));
    assert(of_int(n) == signed(n < 0, rounded(t, 0)));
}

/// A sum is never a NaN.
pub proof fn lemma_sum_magnitude(a: u64, b: u64)
    ensures
        magnitude(sum(a, b)) <= INFINITY,
{
}

/// A product is never a NaN.
pub proof fn lemma_product_magnitude(a: u64, b: u64)
    ensures
        magnitude(product(a, b)) <= INFINITY,
{
}

/// Addition is commutative.
pub proof fn lemma_sum_commutative(a: u64, b: u64)
    ensures
        sum(a, b) == sum(b, a),
{
}

/// Multiplication is commutative.
pub proof fn lemma_product_commutative(a: u64, b: u64)
    ensures
        product(a, b) == product(b, a),
{
    vstd::arithmetic::mul::lemma_mul_is_commutative(
        units(magnitude(a)) as int,
        units(magnitude(b)) as int,
    );
}

/// The number nearest to a natural number.
pub fn from_unsigned(n: u64) -> (r: u64)
    ensures
        r == of_int(n as int),
        is_finite(r),
{
    proof {
        lemma_of_int_finite(n as int);
    }
    round_up(n as u128, 1074)
}

/// The number nearest to an integer.
pub fn from_signed(n: i64) -> (r: u64)
    ensures
        r == of_int(n as int),
        is_finite(r),
{
    proof {
        lemma_of_int_finite(n as int);
    }
    if n >= 0 {
        round_up(n as u128, 1074)
    } else {
        let m: u64 = if n == i64::MIN { SIGN } else { (-n) as u64 };
        with_sign(true, round_up(m as u128, 1074))
    }
}

/// The value of a pattern is rounded to that pattern.
proof fn lemma_rounded_units(m: nat)
    requires
        m < INFINITY,
    ensures
        rounded(units(m), 0) == m,
{
    lemma_fundamental_div_mod(m as int, HIDDEN as int);
    let t = significand(m);
    let e = scale(m);
    assert(m == e * HIDDEN as nat + t);
    lemma_rounded_exact(t, e);
}

/// Every pattern with at most 53 digits and a scale stands for their product.
proof fn lemma_units_of(t: nat, e: nat)
    requires
        HIDDEN <= t < 0x20_0000_0000_0000,
    ensures
        units(e * HIDDEN as nat + t) == t * pow2(e),
{
    let h = HIDDEN as int;
    let m = e * HIDDEN as nat + t;
    lemma_fundamental_div_mod_converse(m as int, h, e as int + 1, t - h);
}

/// A product of an integer and a power of two, with 53 digits in front.
proof fn lemma_normal_digits(n: nat, e: nat) -> (r: (nat, nat))
    requires
        0 < n < 0x20_0000_0000_0000,
        e >= 53,
    ensures
        HIDDEN <= r.0 < 0x20_0000_0000_0000,
        r.1 <= e,
        r.0 * pow2(r.1) == n * pow2(e),
{
    lemma2_to64();
    lemma_pow2_adds(32, 21);
    assert(n * pow2(53) >= HIDDEN) by (nonlinear_arith)
        requires
            n > 0,
            pow2(53) == 0x20_0000_0000_0000,
    ;
    lemma_shifted(n, e, 53)
}

proof fn lemma_shifted(n: nat, e: nat, k: nat) -> (r: (nat, nat))
    requires
        0 < n < 0x20_0000_0000_0000,
        e >= k,
        n * pow2(k) >= HIDDEN,
    ensures
        HIDDEN <= r.0 < 0x20_0000_0000_0000,
        r.1 <= e,
        r.0 * pow2(r.1) == n * pow2(e),
    decreases k,
{
    if n >= HIDDEN {
        (n, e)
    } else {
        lemma2_to64();
        assert(k > 0) by {
            if k == 0 {
                assert(n * pow2(0) == n);
            }
        }
        lemma_pow2_unfold(e);
        lemma_pow2_unfold(k);
        let p = pow2((e - 1) as nat);
        let q = pow2((k - 1) as nat);
        assert(n * (2 * p) == (2 * n) * p) by (nonlinear_arith);
        assert(n * (2 * q) == (2 * n) * q) by (nonlinear_arith);
        lemma_shifted(2 * n, (e - 1) as nat, (k - 1) as nat)
    }
}

proof fn lemma_zero_units()
    ensures
        units(0) == 0,
{
    assert(significand(0) == 0);
    assert(0 * pow2(scale(0)) == 0) by (nonlinear_arith);
}

/// A sum that is itself a number is given exactly.
pub proof fn lemma_sum_is_exact(a: u64, b: u64, c: u64)
    requires
        is_finite(a),
        is_finite(b),
        is_finite(c),
        exact(c) == exact(a) + exact(b),
    ensures
        is_finite(sum(a, b)),
        exact(sum(a, b)) == exact(c),
{
    let m = magnitude(c);
    lemma_rounded_units(m);
    lemma_zero_units();
}

/// A product that is itself a number is given exactly.
pub proof fn lemma_product_is_exact(a: u64, b: u64, c: u64)
    requires
        is_finite(a),
        is_finite(b),
        is_finite(c),
        exact(c) * pow2(1074) == exact(a) * exact(b),
    ensures
        is_finite(product(a, b)),
        exact(product(a, b)) == exact(c),
{
    let x = units(magnitude(a)) as int;
    let y = units(magnitude(b)) as int;
    let z = units(magnitude(c)) as int;
    let p = pow2(1074) as int;
    lemma_pow2_pos(1074);
    lemma_rounded_units(magnitude(c));
    lemma_zero_units();
    let opposite = is_negative(a) != is_negative(b);
    assert(exact(a) * exact(b) == (if opposite {
        -(x * y)
    } else {
        x * y
    })) by (nonlinear_arith)
        requires
            exact(a) == (if is_negative(a) {
                -x
            } else {
                x
            }),
            exact(b) == (if is_negative(b) {
                -y
            } else {
                y
            }),
            opposite == (is_negative(a) != is_negative(b)),
    ;
    assert(x * y == z * p && (z > 0 ==> is_negative(c) == opposite)) by (nonlinear_arith)
        requires
            x >= 0,
            y >= 0,
            z >= 0,
            p > 0,
            exact(c) * p == (if opposite {
                -(x * y)
            } else {
                x * y
            }),
            exact(c) == (if is_negative(c) {
                -z
            } else {
                z
            }),
    ;
    lemma_rounded_scale(z as nat, 0, 1074);
    assert(units(magnitude(a)) * units(magnitude(b)) == (z as nat) * pow2(1074));
}

/// An integer of at most 53 digits is given exactly.
pub proof fn lemma_integers_are_exact(n: int)
    requires
        -0x20_0000_0000_0000 <= n <= 0x20_0000_0000_0000,
    ensures
        is_finite(of_int(n)),
        exact(of_int(n)) == n * pow2(1074),
{
    lemma_of_int_finite(n);
    lemma2_to64();
    let a = (if n < 0 {
        -n
    } else {
        n
    }) as nat;
    lemma_zero_units();
    if a > 0 {
        let (k, f) = if a == 0x20_0000_0000_0000 {
            lemma_pow2_unfold(1075);
            let p = pow2(1074);
            assert(0x10_0000_0000_0000 * (2 * p) == 0x20_0000_0000_0000 * p) by (nonlinear_arith);
            (HIDDEN as nat, 1075nat)
        } else {
            lemma_normal_digits(a, 1074)
        };
        assert(k * pow2(f) == a * pow2(1074));
        lemma_rounded_exact(k, f);
        lemma_units_of(k, f);
        assert(-n * pow2(1074) == -(n * pow2(1074))) by (nonlinear_arith);
        let m = f * HIDDEN as nat + k;
        let r = rounded(k * pow2(f), 0);
        assert(m < INFINITY) by {
            assert(f <= 1075);
        }
        assert(r == m);
        assert(of_int(n) == signed(n < 0, m));
        assert(magnitude(of_int(n)) == m);
    } else {
        assert(n * pow2(1074) == 0) by (nonlinear_arith)
            requires
                n == 0,
        ;
        assert(0 * pow2(0) == 0) by (nonlinear_arith);
        lemma_rounded_exact(0, 0);
    }
}

/// Integers of at most 53 digits are added and multiplied as integers are, as
/// long as the result has no more.
pub proof fn lemma_integer_arithmetic(a: int, b: int)
    requires
        -0x20_0000_0000_0000 <= a <= 0x20_0000_0000_0000,
        -0x20_0000_0000_0000 <= b <= 0x20_0000_0000_0000,
    ensures
        -0x20_0000_0000_0000 <= a + b <= 0x20_0000_0000_0000 ==> is_finite(
            sum(of_int(a), of_int(b)),
        ) && exact(sum(of_int(a), of_int(b))) == (a + b) * pow2(1074),
        -0x20_0000_0000_0000 <= a * b <= 0x20_0000_0000_0000 ==> is_finite(
            product(of_int(a), of_int(b)),
        ) && exact(product(of_int(a), of_int(b))) == (a * b) * pow2(1074),
        (exact(of_int(a)) < exact(of_int(b))) == (a < b),
        (exact(of_int(a)) == exact(of_int(b))) == (a == b),
{
    let p = pow2(1074) as int;
    lemma_pow2_pos(1074);
    lemma_integers_are_exact(a);
    lemma_integers_are_exact(b);
    assert((a * p < b * p) == (a < b) && (a * p == b * p) == (a == b)) by (nonlinear_arith)
        requires
            p > 0,
    ;
    if -0x20_0000_0000_0000 <= a + b <= 0x20_0000_0000_0000 {
        lemma_integers_are_exact(a + b);
        assert((a + b) * p == a * p + b * p) by (nonlinear_arith);
        lemma_sum_is_exact(of_int(a), of_int(b), of_int(a + b));
    }
    if -0x20_0000_0000_0000 <= a * b <= 0x20_0000_0000_0000 {
        lemma_integers_are_exact(a * b);
        assert((a * b) * p * p == (a * p) * (b * p)) by (nonlinear_arith);
        lemma_product_is_exact(of_int(a), of_int(b), of_int(a * b));
    }
}

/// The pattern of zeros is the number zero.
pub proof fn lemma_zero_is_zero()
    ensures
        is_finite(0),
        exact(0) == 0,
        of_int(0) == 0,
{
    lemma_zero_units();
    lemma_rounded_exact(0, 0);
    assert(0 * pow2(0) == 0) by (nonlinear_arith);
    assert(0 * pow2(1074) == 0) by (nonlinear_arith);
}

proof fn lemma_excess_grows(n1: nat, n2: nat)
    requires
        n1 <= n2,
    ensures
        excess(n1) <= excess(n2),
    decreases n2,
{
    if n1 >= 0x20_0000_0000_0000 {
        lemma_excess_grows(n1 / 2, n2 / 2);
    }
}

proof fn lemma_excess_leaves_digits(n: nat)
    ensures
        n / pow2(excess(n)) < 0x20_0000_0000_0000,
        excess(n) > 0 ==> n / pow2(excess(n)) >= HIDDEN,
    decreases n,
{
    lemma2_to64();
    if n < 0x20_0000_0000_0000 {
        assert(n / 1 == n);
    } else {
        lemma_excess_leaves_digits(n / 2);
        let k = excess(n / 2);
        lemma_pow2_unfold(k + 1);
        lemma_pow2_pos(k);
        lemma_div_denominator(n as int, 2, pow2(k) as int);
        if k == 0 {
            assert((n / 2) / 1 == n / 2);
        }
    }
}

proof fn lemma_half_even_grows(n1: nat, n2: nat, d: nat)
    requires
        n1 <= n2,
        d > 0,
    ensures
        half_even(n1, d) <= half_even(n2, d),
        n1 / d <= n2 / d,
{
    let (q1, q2) = ((n1 / d) as int, (n2 / d) as int);
    lemma_fundamental_div_mod(n1 as int, d as int);
    lemma_fundamental_div_mod(n2 as int, d as int);
    assert(q1 <= q2) by (nonlinear_arith)
        requires
            n1 == d * q1 + n1 % d,
            n2 == d * q2 + n2 % d,
            0 <= n1 % d,
            n2 % d < d,
            n1 <= n2,
            d > 0,
    ;
}

/// Rounding keeps the order.
proof fn lemma_rounded_grows(n1: nat, n2: nat, s: nat)
    requires
        n1 <= n2,
    ensures
        rounded(n1, s) <= rounded(n2, s),
{
    lemma_pow2_pos(s);
    lemma_half_even_grows(n1, n2, pow2(s));
    let (q1, q2) = (n1 / pow2(s), n2 / pow2(s));
    lemma_excess_grows(q1, q2);
    let (k1, k2) = (excess(q1), excess(q2));
    lemma_pow2_pos(s + k1);
    if k1 == k2 {
        lemma_half_even_grows(n1, n2, pow2(s + k1));
    } else {
        lemma_pow2_pos(k1);
        lemma_pow2_pos(k2);
        lemma_pow2_adds(s, k1);
        lemma_pow2_adds(s, k2);
        lemma_div_denominator(n1 as int, pow2(s) as int, pow2(k1) as int);
        lemma_div_denominator(n2 as int, pow2(s) as int, pow2(k2) as int);
        lemma_excess_leaves_digits(q1);
        lemma_excess_leaves_digits(q2);
        lemma_half_even_near(n1, pow2(s + k1));
        lemma_half_even_near(n2, pow2(s + k2));
        let h = HIDDEN as nat;
        assert(k1 * h + 2 * h <= k2 * h + h) by (nonlinear_arith)
            requires
                k1 < k2,
        ;
    }
}

/// A sum that lies between two numbers is rounded to one between them.
pub proof fn lemma_sum_is_near(a: u64, b: u64, low: u64, high: u64)
    requires
        is_finite(low),
        is_finite(high),
        exact(low) <= exact(a) + exact(b) <= exact(high),
    ensures
        is_finite(sum(a, b)),
        exact(low) <= exact(sum(a, b)) <= exact(high),
{
    let t = exact(a) + exact(b);
    lemma_zero_units();
    if t >= 0 {
        lemma_side(t, low);
        lemma_side(t, high);
    } else {
        lemma_side(-t, flipped(low));
        lemma_side(-t, flipped(high));
    }
}

/// A number with the other sign.
spec fn flipped(c: u64) -> u64 {
    if is_negative(c) {
        (c - SIGN) as u64
    } else {
        (c + SIGN) as u64
    }
}

proof fn lemma_side(t: int, c: u64)
    requires
        is_finite(c),
        t >= 0,
    ensures
        t <= exact(c) ==> rounded(t as nat, 0) < INFINITY && units(rounded(t as nat, 0)) <= exact(c),
        t >= exact(c) && rounded(t as nat, 0) < INFINITY ==> units(rounded(t as nat, 0)) >= exact(c),
{
    let m = magnitude(c);
    let r = rounded(t as nat, 0);
    lemma_zero_units();
    lemma_rounded_units(m);
    if t <= exact(c) {
        if is_negative(c) {
            lemma_rounded_units(0);
            assert(t == 0);
        } else {
            lemma_rounded_grows(t as nat, units(m), 0);
            if r < m {
                lemma_units_increase(r, m);
            }
        }
    }
    if t >= exact(c) && !is_negative(c) && r < INFINITY {
        lemma_rounded_grows(units(m), t as nat, 0);
        if m < r {
            lemma_units_increase(m, r);
        }
    }
}

/// The distance from one to the next larger number is smaller than one.
pub proof fn lemma_epsilon_is_small()
    ensures
        is_finite(EPSILON),
        is_finite(NEG_EPSILON),
        0 < exact(EPSILON) < pow2(1074),
        exact(NEG_EPSILON) == -exact(EPSILON),
{
    lemma2_to64();
    lemma_pow2_adds(32, 20);
    lemma_pow2_adds(52, 970);
    lemma_pow2_pos(970);
    lemma_pow2_strictly_increases(1022, 1074);
    let m = EPSILON as nat;
    lemma_fundamental_div_mod_converse(m as int, HIDDEN as int, 971, 0);
    assert(units(m) == pow2(1022));
    lemma_pow2_pos(1022);
    assert(magnitude(NEG_EPSILON) == m);
}

} // verus!
