//! Double-precision rounding of decimal numbers, in integers.
//!
//! A size such as `1.5G` is a decimal number times a power of two. It is read as
//! an IEEE 754 double (the nearest one, ties to even), scaled, and cut to whole
//! bytes. This module says what that gives, over unbounded integers, and
//! computes it without a floating-point operation.
use vstd::arithmetic::div_mod::{lemma_fundamental_div_mod, lemma_fundamental_div_mod_converse};
use vstd::arithmetic::mul::{
    lemma_mul_inequality, lemma_mul_is_associative, lemma_mul_is_commutative,
};
use vstd::arithmetic::power2::{
    lemma_pow2_adds, lemma_pow2_pos, lemma_pow2_strictly_increases, pow2,
};
use vstd::prelude::*;

use crate::number::{decimal_value, digit_value, lemma_prefix_value};
use crate::text::{all_digits, ascii_digit};

verus! {

/// The binary digits that a double can have after the point.
pub open spec fn finest() -> nat {
    1074
}

/// The whole number nearest to `a / b`; of two equally near ones the even one.
pub open spec fn nearest(a: nat, b: nat) -> nat {
    let q = a / b;
    let r = a % b;
    if 2 * r < b || (2 * r == b && q % 2 == 0) {
        q
    } else {
        q + 1
    }
}

/// The doubles around `a / b`, counted in units of the finest double, are the
/// multiples of two to the power `u`: a double has 53 significant bits.
pub open spec fn spacing_at(a: nat, b: nat, u: nat) -> bool {
    &&& a < b * pow2(53 + u)
    &&& u > 0 ==> a >= b * pow2(52 + u)
}

/// The exponent of the distance between the doubles around `a / b`.
pub open spec fn spacing(a: nat, b: nat) -> nat {
    choose|u: nat| spacing_at(a, b, u)
}

/// The double nearest to `n / d`, counted in units of the finest double.
pub open spec fn nearest_double(n: nat, d: nat) -> nat {
    let a = n * pow2(finest());
    let u = spacing(a, d);
    nearest(a, d * pow2(u)) * pow2(u)
}

/// The double nearest to `n / d`, times two to the power `k`, cut to a whole
/// number.
pub open spec fn scaled_double(n: nat, d: nat, k: nat) -> nat {
    nearest_double(n, d) * pow2(k) / pow2(finest())
}

proof fn lemma_spacing_is(a: nat, b: nat, u: nat)
    requires
        b > 0,
        spacing_at(a, b, u),
    ensures
        spacing(a, b) == u,
{
    let v = spacing(a, b);
    assert(spacing_at(a, b, v));
    if v < u {
        if 53 + v < 52 + u {
            lemma_pow2_strictly_increases(53 + v, (52 + u) as nat);
        }
        lemma_mul_inequality(pow2(53 + v) as int, pow2((52 + u) as nat) as int, b as int);
        lemma_mul_is_commutative(b as int, pow2(53 + v) as int);
        lemma_mul_is_commutative(b as int, pow2((52 + u) as nat) as int);
    } else if u < v {
        if 53 + u < 52 + v {
            lemma_pow2_strictly_increases(53 + u, (52 + v) as nat);
        }
        lemma_mul_inequality(pow2(53 + u) as int, pow2((52 + v) as nat) as int, b as int);
        lemma_mul_is_commutative(b as int, pow2(53 + u) as int);
        lemma_mul_is_commutative(b as int, pow2((52 + v) as nat) as int);
    }
}

proof fn lemma_nearest_scale(a: nat, b: nat, c: nat)
    requires
        b > 0,
        c > 0,
    ensures
        nearest(a * c, b * c) == nearest(a, b),
{
    let q = a / b;
    let r = a % b;
    lemma_fundamental_div_mod(a as int, b as int);
    assert(a == b * q + r);
    assert(a * c == q * (b * c) + r * c) by (nonlinear_arith)
        requires
            a == b * q + r,
    ;
    assert(r * c < b * c) by (nonlinear_arith)
        requires
            r < b,
            c > 0,
    ;
    assert(b * c > 0) by (nonlinear_arith)
        requires
            b > 0,
            c > 0,
    ;
    lemma_fundamental_div_mod_converse((a * c) as int, (b * c) as int, q as int, (r * c) as int);
    assert(2 * (r * c) < b * c <==> 2 * r < b) by (nonlinear_arith)
        requires
            c > 0,
    ;
    assert(2 * (r * c) == b * c <==> 2 * r == b) by (nonlinear_arith)
        requires
            c > 0,
    ;
}

pub proof fn lemma_spacing_exists(a: nat, b: nat, u: nat)
    requires
        b > 0,
        u > 0 ==> a >= b * pow2(52 + u),
    ensures
        exists|w: nat| spacing_at(a, b, w),
    decreases a - pow2(52 + u),
{
    if a < b * pow2(53 + u) {
        assert(spacing_at(a, b, u));
    } else {
        lemma_pow2_strictly_increases(52 + u, 53 + u);
        assert(b * pow2(53 + u) >= pow2(53 + u)) by (nonlinear_arith)
            requires
                b > 0,
        ;
        lemma_spacing_exists(a, b, u + 1);
    }
}

/// Where the doubles around `n * 2^k / d` have `j` binary digits after the point.
proof fn lemma_fine(n: nat, d: nat, k: nat, j: nat)
    requires
        d > 0,
        k + j <= finest(),
        d * pow2(52) <= n * pow2(k + j) < d * pow2(53),
    ensures
        scaled_double(n, d, k) == nearest(n * pow2(k + j), d) / pow2(j),
{
    let u = (finest() - k - j) as nat;
    let a = n * pow2(finest());
    let x = n * pow2(k + j);
    let pu = pow2(u);
    lemma_pow2_pos(u);
    lemma_pow2_pos(j);
    lemma_pow2_adds(k + j, u);
    lemma_pow2_adds(53, u);
    lemma_pow2_adds(52, u);
    assert(a == x * pu) by (nonlinear_arith)
        requires
            a == n * pow2(finest()),
            x == n * pow2(k + j),
            pow2(finest()) == pow2(k + j) * pu,
    ;
    assert(spacing_at(a, d, u)) by {
        assert(x * pu < d * pow2(53) * pu) by (nonlinear_arith)
            requires
                x < d * pow2(53),
                pu > 0,
        ;
        assert(x * pu >= d * pow2(52) * pu) by (nonlinear_arith)
            requires
                x >= d * pow2(52),
                pu > 0,
        ;
        lemma_mul_is_associative(d as int, pow2(53) as int, pu as int);
        lemma_mul_is_associative(d as int, pow2(52) as int, pu as int);
    }
    lemma_spacing_is(a, d, u);
    lemma_nearest_scale(x, d, pu);
    let m = nearest(x, d);
    assert(nearest_double(n, d) == m * pu);
    // m * 2^u * 2^k / 2^1074 == m / 2^j
    lemma_pow2_adds(u, k);
    let w = pow2(u + k);
    lemma_pow2_pos(u + k);
    lemma_pow2_adds(u + k, j);
    assert(m * pu * pow2(k) == m * w) by (nonlinear_arith)
        requires
            pu * pow2(k) == w,
    ;
    let q = m / pow2(j);
    let r = m % pow2(j);
    lemma_fundamental_div_mod(m as int, pow2(j) as int);
    assert(m * w == q * (w * pow2(j)) + r * w) by (nonlinear_arith)
        requires
            m == pow2(j) * q + r,
    ;
    assert(r * w < w * pow2(j)) by (nonlinear_arith)
        requires
            r < pow2(j),
            w > 0,
    ;
    lemma_fundamental_div_mod_converse(
        (m * w) as int,
        (w * pow2(j)) as int,
        q as int,
        (r * w) as int,
    );
}

/// Where the doubles around `n * 2^k / d` are the multiples of `2^e`.
proof fn lemma_coarse(n: nat, d: nat, k: nat, e: nat)
    requires
        d > 0,
        k <= finest(),
        d * pow2(52 + e) <= n * pow2(k) < d * pow2(53 + e),
    ensures
        scaled_double(n, d, k) == nearest(n * pow2(k), d * pow2(e)) * pow2(e),
{
    let s = (finest() - k) as nat;
    let u = s + e;
    let a = n * pow2(finest());
    let x = n * pow2(k);
    let ps = pow2(s);
    lemma_pow2_pos(s);
    lemma_pow2_pos(e);
    lemma_pow2_pos(finest());
    lemma_pow2_adds(k, s);
    lemma_pow2_adds(s, e);
    lemma_pow2_adds(52 + e, s);
    lemma_pow2_adds(53 + e, s);
    assert(a == x * ps) by (nonlinear_arith)
        requires
            a == n * pow2(finest()),
            x == n * pow2(k),
            pow2(finest()) == pow2(k) * ps,
    ;
    assert(spacing_at(a, d, u)) by {
        assert(x * ps < d * pow2(53 + e) * ps) by (nonlinear_arith)
            requires
                x < d * pow2(53 + e),
                ps > 0,
        ;
        assert(x * ps >= d * pow2(52 + e) * ps) by (nonlinear_arith)
            requires
                x >= d * pow2(52 + e),
                ps > 0,
        ;
        lemma_mul_is_associative(d as int, pow2(53 + e) as int, ps as int);
        lemma_mul_is_associative(d as int, pow2(52 + e) as int, ps as int);
        assert(53 + e + s == 53 + u);
        assert(52 + e + s == 52 + u);
    }
    lemma_spacing_is(a, d, u);
    let b = d * pow2(e);
    assert(b > 0) by (nonlinear_arith)
        requires
            d > 0,
            pow2(e) > 0,
            b == d * pow2(e),
    ;
    assert(d * pow2(u) == b * ps) by (nonlinear_arith)
        requires
            pow2(u) == ps * pow2(e),
            b == d * pow2(e),
    ;
    lemma_nearest_scale(x, b, ps);
    let m = nearest(x, b);
    assert(nearest_double(n, d) == m * pow2(u));
    assert(m * pow2(u) * pow2(k) == (m * pow2(e)) * pow2(finest())) by (nonlinear_arith)
        requires
            pow2(u) == ps * pow2(e),
            pow2(finest()) == pow2(k) * ps,
    ;
    lemma_fundamental_div_mod_converse(
        (m * pow2(u) * pow2(k)) as int,
        pow2(finest()) as int,
        (m * pow2(e)) as int,
        0,
    );
}

/// A number of at least `2^64` is read as one of at least `2^64`.
proof fn lemma_large(n: nat, d: nat, k: nat)
    requires
        d > 0,
        k <= 40,
        n * pow2(k) >= d * pow2(64),
    ensures
        scaled_double(n, d, k) >= pow2(64),
{
    let s = (finest() - k) as nat;
    let a = n * pow2(finest());
    let x = n * pow2(k);
    lemma_pow2_adds(k, s);
    lemma_pow2_pos(s);
    lemma_spacing_exists(a, d, 0);
    let u = spacing(a, d);
    assert(spacing_at(a, d, u));
    assert(a == x * pow2(s)) by (nonlinear_arith)
        requires
            a == n * pow2(finest()),
            x == n * pow2(k),
            pow2(finest()) == pow2(k) * pow2(s),
    ;
    lemma_pow2_adds(64, s);
    assert(a >= d * pow2(64 + s)) by (nonlinear_arith)
        requires
            a == x * pow2(s),
            x >= d * pow2(64),
            pow2(64 + s) == pow2(64) * pow2(s),
    ;
    assert(64 + s <= 52 + u) by {
        if 64 + s > 52 + u {
            if 64 + s > 53 + u {
                lemma_pow2_strictly_increases(53 + u, 64 + s);
            }
            lemma_mul_inequality(pow2(53 + u) as int, pow2(64 + s) as int, d as int);
            lemma_mul_is_commutative(d as int, pow2(53 + u) as int);
            lemma_mul_is_commutative(d as int, pow2(64 + s) as int);
        }
    }
    lemma_pow2_pos(u);
    lemma_pow2_adds(52, u);
    let b = d * pow2(u);
    assert(b > 0) by (nonlinear_arith)
        requires
            d > 0,
            pow2(u) > 0,
            b == d * pow2(u),
    ;
    let q = a / b;
    lemma_fundamental_div_mod(a as int, b as int);
    assert(q >= pow2(52)) by (nonlinear_arith)
        requires
            a == b * q + a % b,
            a % b < b,
            b > 0,
            a >= d * pow2(52 + u),
            pow2(52 + u) == pow2(52) * pow2(u),
            b == d * pow2(u),
    ;
    let m = nearest(a, b);
    let r = m * pow2(u);
    assert(r >= pow2(52 + u)) by (nonlinear_arith)
        requires
            m >= pow2(52),
            r == m * pow2(u),
            pow2(52 + u) == pow2(52) * pow2(u),
    ;
    if 64 + s < 52 + u {
        lemma_pow2_strictly_increases(64 + s, 52 + u);
    }
    lemma_pow2_pos(finest());
    let p = pow2(finest());
    assert(r * pow2(k) >= pow2(64) * p) by (nonlinear_arith)
        requires
            r >= pow2(64) * pow2(s),
            p == pow2(k) * pow2(s),
    ;
    lemma_fundamental_div_mod((r * pow2(k)) as int, p as int);
    let t = r * pow2(k) / p;
    assert(t >= pow2(64)) by (nonlinear_arith)
        requires
            r * pow2(k) == p * t + (r * pow2(k)) % p,
            (r * pow2(k)) % p < p,
            r * pow2(k) >= pow2(64) * p,
            p > 0,
    ;
}

/// A number under one half is cut to 0.
proof fn lemma_under_half(n: nat, d: nat, k: nat)
    requires
        d > 0,
        k <= 40,
        2 * (n * pow2(k)) < d,
    ensures
        scaled_double(n, d, k) == 0,
{
    let s = (finest() - k) as nat;
    let s1 = (s - 1) as nat;
    let a = n * pow2(finest());
    let x = n * pow2(k);
    lemma_pow2_adds(k, s);
    lemma_pow2_adds(s1, 1);
    vstd::arithmetic::power2::lemma2_to64();
    lemma_pow2_pos(s1);
    lemma_pow2_pos(s);
    lemma_spacing_exists(a, d, 0);
    let u = spacing(a, d);
    assert(spacing_at(a, d, u));
    assert(a == x * pow2(s)) by (nonlinear_arith)
        requires
            a == n * pow2(finest()),
            x == n * pow2(k),
            pow2(finest()) == pow2(k) * pow2(s),
    ;
    assert(a < d * pow2(s1)) by (nonlinear_arith)
        requires
            a == x * pow2(s),
            2 * x < d,
            pow2(s) == pow2(s1) * 2,
            pow2(s1) > 0,
    ;
    assert(53 + u <= s1) by {
        if u > 0 && 52 + u >= s1 {
            if 52 + u > s1 {
                lemma_pow2_strictly_increases(s1, 52 + u);
            }
            lemma_mul_inequality(pow2(s1) as int, pow2(52 + u) as int, d as int);
            lemma_mul_is_commutative(d as int, pow2(s1) as int);
            lemma_mul_is_commutative(d as int, pow2(52 + u) as int);
        }
    }
    lemma_pow2_pos(u);
    lemma_pow2_adds(53, u);
    let b = d * pow2(u);
    assert(b > 0) by (nonlinear_arith)
        requires
            d > 0,
            pow2(u) > 0,
            b == d * pow2(u),
    ;
    let q = a / b;
    lemma_fundamental_div_mod(a as int, b as int);
    assert(q < pow2(53)) by (nonlinear_arith)
        requires
            a == b * q + a % b,
            b > 0,
            a < d * pow2(53 + u),
            pow2(53 + u) == pow2(53) * pow2(u),
            b == d * pow2(u),
    ;
    let m = nearest(a, b);
    let r = m * pow2(u);
    assert(r <= pow2(53 + u)) by (nonlinear_arith)
        requires
            m <= pow2(53),
            r == m * pow2(u),
            pow2(53 + u) == pow2(53) * pow2(u),
    ;
    if 53 + u < s1 {
        lemma_pow2_strictly_increases(53 + u, s1);
    }
    let p = pow2(finest());
    lemma_pow2_pos(k);
    assert(r * pow2(k) < p) by (nonlinear_arith)
        requires
            r <= pow2(s1),
            pow2(s) == pow2(s1) * 2,
            p == pow2(k) * pow2(s),
            pow2(s1) > 0,
            pow2(k) > 0,
    ;
    lemma_fundamental_div_mod_converse((r * pow2(k)) as int, p as int, 0, (r * pow2(k)) as int);
}

/// Rounding to `j` binary digits after the point lifts a number to the next
/// whole number only where the first `j + 1` of those digits are ones.
proof fn lemma_lift(x: nat, d: nat, i: nat, f: nat, j: nat)
    requires
        d > 0,
        j > 0,
        x == i * d + f,
        f < d,
    ensures
        nearest(x * pow2(j), d) / pow2(j) == (if f * pow2(j + 1) / d == pow2(j + 1) - 1 {
            i + 1
        } else {
            i
        }),
{
    let p = pow2(j);
    lemma_pow2_pos(j);
    lemma_pow2_adds(j, 1);
    lemma_pow2_adds((j - 1) as nat, 1);
    vstd::arithmetic::power2::lemma2_to64();
    let half = pow2((j - 1) as nat);
    assert(p == 2 * half);
    assert(pow2(j + 1) == 2 * p);
    let gg = f * p;
    let g = gg / d;
    let h = gg % d;
    lemma_fundamental_div_mod(gg as int, d as int);
    assert(g < p) by (nonlinear_arith)
        requires
            gg == d * g + h,
            gg == f * p,
            f < d,
            d > 0,
            p > 0,
    ;
    assert(x * p == (i * p + g) * d + h) by (nonlinear_arith)
        requires
            x == i * d + f,
            gg == f * p,
            gg == d * g + h,
    ;
    lemma_fundamental_div_mod_converse((x * p) as int, d as int, (i * p + g) as int, h as int);
    let ip = i * p;
    assert(ip == 2 * (i * half)) by (nonlinear_arith)
        requires
            ip == i * p,
            p == 2 * half,
    ;
    let m = nearest(x * p, d);
    assert(m == ip + g || m == ip + g + 1);
    // The first j + 1 digits of the fraction.
    let bit: nat = if 2 * h >= d {
        1
    } else {
        0
    };
    assert(f * (2 * p) == (2 * g + bit) * d + (2 * h - bit * d)) by (nonlinear_arith)
        requires
            gg == f * p,
            gg == d * g + h,
    ;
    lemma_fundamental_div_mod_converse(
        (f * (2 * p)) as int,
        d as int,
        (2 * g + bit) as int,
        2 * h - bit * d,
    );
    if g == p - 1 && bit == 1 {
        assert((ip + g) % 2 == 1);
        assert(m == ip + p);
        assert(m == p * (i + 1)) by (nonlinear_arith)
            requires
                m == ip + p,
                ip == i * p,
        ;
        lemma_fundamental_div_mod_converse(m as int, p as int, (i + 1) as int, 0);
    } else {
        assert(m - ip < p);
        assert(m == p * i + (m - ip)) by (nonlinear_arith)
            requires
                ip == i * p,
        ;
        lemma_fundamental_div_mod_converse(m as int, p as int, i as int, m - ip);
    }
}

// ---------------------------------------------------------------------------
// Decimal digits
// ---------------------------------------------------------------------------
/// Ten to the power `n`.
pub open spec fn ten_to(n: nat) -> nat
    decreases n,
{
    if n == 0 {
        1
    } else {
        10 * ten_to((n - 1) as nat)
    }
}

/// `n` as an unsigned 64-bit number, or the largest one where `n` is larger.
pub open spec fn saturated(n: nat) -> u64 {
    if n <= u64::MAX {
        n as u64
    } else {
        u64::MAX
    }
}

/// The number that a sequence of digit values stands for.
spec fn digits_value(s: Seq<u8>) -> nat
    decreases s.len(),
{
    if s.len() == 0 {
        0
    } else {
        10 * digits_value(s.drop_last()) + s.last() as nat
    }
}

spec fn all_small(s: Seq<u8>) -> bool {
    forall|i: int| 0 <= i < s.len() ==> #[trigger] s[i] < 10
}

pub proof fn lemma_ten_pos(n: nat)
    ensures
        ten_to(n) > 0,
    decreases n,
{
    if n > 0 {
        lemma_ten_pos((n - 1) as nat);
    }
}

/// The leading digit counts as many tens as digits follow it.
proof fn lemma_leading_digit(s: Seq<u8>)
    requires
        s.len() > 0,
    ensures
        digits_value(s) == s[0] * ten_to((s.len() - 1) as nat) + digits_value(s.drop_first()),
    decreases s.len(),
{
    let n = (s.len() - 1) as nat;
    if s.len() == 1 {
        assert(s.drop_last() =~= Seq::empty());
        assert(s.drop_first() =~= Seq::empty());
        assert(digits_value(s.drop_last()) == 0);
        assert(s[0] * ten_to(n) == s[0]) by (nonlinear_arith)
            requires
                ten_to(n) == 1,
        ;
    } else {
        let t = s.drop_last();
        lemma_leading_digit(t);
        assert(t.drop_first() =~= s.drop_first().drop_last());
        assert(s.drop_first().last() == s.last());
        assert(ten_to(n) == 10 * ten_to((n - 1) as nat));
        assert(10 * (s[0] * ten_to((n - 1) as nat)) == s[0] * ten_to(n)) by (nonlinear_arith)
            requires
                ten_to(n) == 10 * ten_to((n - 1) as nat),
        ;
    }
}

/// `n` digits stand for less than ten to the power `n`.
proof fn lemma_digits_bound(s: Seq<u8>)
    requires
        all_small(s),
    ensures
        digits_value(s) < ten_to(s.len()),
    decreases s.len(),
{
    if s.len() > 0 {
        let t = s.drop_last();
        assert forall|i: int| 0 <= i < t.len() implies #[trigger] t[i] < 10 by {
            assert(t[i] == s[i]);
        }
        lemma_digits_bound(t);
        assert(s.last() == s[s.len() - 1]);
    }
}

proof fn lemma_zero_digits(s: Seq<u8>)
    ensures
        (forall|i: int| 0 <= i < s.len() ==> s[i] == 0) ==> digits_value(s) == 0,
        digits_value(s) == 0 ==> (forall|i: int| 0 <= i < s.len() ==> s[i] == 0),
    decreases s.len(),
{
    if s.len() > 0 {
        let t = s.drop_last();
        lemma_zero_digits(t);
        assert(forall|i: int| 0 <= i < t.len() ==> t[i] == s[i]);
        assert(s.last() == s[s.len() - 1]);
    }
}

/// Characters and digit values that agree one by one stand for the same number.
proof fn lemma_same_value(s: Seq<u8>, c: Seq<char>)
    requires
        s.len() == c.len(),
        forall|i: int| 0 <= i < s.len() ==> #[trigger] s[i] == digit_value(c[i]),
    ensures
        digits_value(s) == decimal_value(c),
    decreases s.len(),
{
    if s.len() > 0 {
        let t = s.drop_last();
        let u = c.drop_last();
        assert forall|i: int| 0 <= i < t.len() implies #[trigger] t[i] == digit_value(u[i]) by {
            assert(t[i] == s[i]);
            assert(u[i] == c[i]);
        }
        lemma_same_value(t, u);
        assert(s.last() == s[s.len() - 1]);
        assert(c.last() == c[c.len() - 1]);
    }
}

/// The digits `a` before the digits `b` count tens to the length of `b`.
pub proof fn lemma_joined_value(a: Seq<char>, b: Seq<char>)
    ensures
        decimal_value(a + b) == decimal_value(a) * ten_to(b.len()) + decimal_value(b),
    decreases b.len(),
{
    if b.len() == 0 {
        assert(a + b =~= a);
        assert(decimal_value(a) * ten_to(b.len()) == decimal_value(a)) by (nonlinear_arith)
            requires
                ten_to(b.len()) == 1,
        ;
    } else {
        let c = b.drop_last();
        lemma_joined_value(a, c);
        assert((a + b).drop_last() =~= a + c);
        assert((a + b).last() == b.last());
        assert(10 * (decimal_value(a) * ten_to(c.len())) == decimal_value(a) * ten_to(b.len()))
            by (nonlinear_arith)
            requires
                ten_to(b.len()) == 10 * ten_to(c.len()),
        ;
    }
}

/// Doubles the fraction whose decimal digits are `v`; the result is its whole
/// part.
fn double_fraction(v: &mut Vec<u8>) -> (carry: u8)
    requires
        all_small(old(v)@),
    ensures
        carry <= 1,
        all_small(final(v)@),
        final(v)@.len() == old(v)@.len(),
        2 * digits_value(old(v)@) == carry * ten_to(old(v)@.len()) + digits_value(final(v)@),
{
    let n: usize = v.len();
    let mut carry: u8 = 0;
    let mut i: usize = n;
    let ghost before = v@;
    proof {
        assert(before.skip(n as int) =~= Seq::empty());
    }
    while i > 0
        invariant
            i <= n,
            v@.len() == n,
            before.len() == n,
            carry <= 1,
            all_small(before),
            all_small(v@),
            forall|j: int| 0 <= j < i ==> v@[j] == before[j],
            2 * digits_value(before.skip(i as int)) == carry * ten_to((n - i) as nat)
                + digits_value(v@.skip(i as int)),
        decreases i,
    {
        let ghost prev = v@;
        let ghost old_carry = carry;
        i = i - 1;
        let d: u8 = v[i];
        assert(d == before[i as int]);
        let t: u8 = d * 2 + carry;
        if t >= 10 {
            v.set(i, t - 10);
            carry = 1;
        } else {
            v.set(i, t);
            carry = 0;
        }
        proof {
            let x = before.skip(i as int);
            let y = v@.skip(i as int);
            let w = ten_to((n - i - 1) as nat);
            lemma_leading_digit(x);
            lemma_leading_digit(y);
            assert(x.drop_first() =~= before.skip(i + 1));
            assert(y.drop_first() =~= prev.skip(i + 1));
            assert(x[0] == d);
            assert(ten_to((n - i) as nat) == 10 * w);
            assert(2 * (d * w) + old_carry * w == carry * (10 * w) + y[0] * w)
                by (nonlinear_arith)
                requires
                    2 * d + old_carry == 10 * carry + y[0],
            ;
        }
    }
    proof {
        assert(before.skip(0) =~= before);
        assert(v@.skip(0) =~= v@);
    }
    carry
}

/// The value of the digits `whole`, unless it is `2^64` or more.
fn whole_part(whole: &Vec<char>) -> (r: Option<u64>)
    requires
        all_digits(whole@),
    ensures
        match r {
            Some(v) => v == decimal_value(whole@),
            None => decimal_value(whole@) > u64::MAX,
        },
{
    let mut value: u64 = 0;
    for i in 0..whole.len()
        invariant
            all_digits(whole@),
            value == decimal_value(whole@.take(i as int)),
    {
        let c: char = whole[i];
        assert(ascii_digit(c));
        let digit: u64 = ((c as u8) - 48u8) as u64;
        proof {
            let t = whole@.take(i + 1);
            assert(t.drop_last() =~= whole@.take(i as int));
            assert(t.last() == c);
            lemma_prefix_value(whole@, i + 1);
        }
        match value.checked_mul(10) {
            None => {
                return None;
            },
            Some(tens) => match tens.checked_add(digit) {
                None => {
                    return None;
                },
                Some(sum) => {
                    value = sum;
                },
            },
        }
    }
    assert(whole@.take(whole.len() as int) =~= whole@);
    Some(value)
}

/// The values of the digits `frac`.
fn fraction_digits(frac: &Vec<char>) -> (r: Vec<u8>)
    requires
        all_digits(frac@),
    ensures
        r@.len() == frac@.len(),
        all_small(r@),
        digits_value(r@) == decimal_value(frac@),
{
    let mut out: Vec<u8> = Vec::new();
    for i in 0..frac.len()
        invariant
            all_digits(frac@),
            out@.len() == i,
            forall|j: int| 0 <= j < i ==> #[trigger] out@[j] == digit_value(frac@[j]),
    {
        assert(ascii_digit(frac@[i as int]));
        out.push((frac[i] as u8) - 48u8);
    }
    proof {
        lemma_same_value(out@, frac@);
        assert forall|j: int| 0 <= j < out@.len() implies #[trigger] out@[j] < 10 by {
            assert(ascii_digit(frac@[j]));
        }
    }
    out
}

/// Whether the fraction with the decimal digits `frac` is 0.
fn is_zero(frac: &Vec<u8>) -> (r: bool)
    ensures
        r == (digits_value(frac@) == 0),
{
    proof {
        lemma_zero_digits(frac@);
    }
    for i in 0..frac.len()
        invariant
            forall|j: int| 0 <= j < i ==> frac@[j] == 0,
            digits_value(frac@) == 0 ==> (forall|j: int| 0 <= j < frac@.len() ==> frac@[j] == 0),
            (forall|j: int| 0 <= j < frac@.len() ==> frac@[j] == 0) ==> digits_value(frac@) == 0,
    {
        if frac[i] != 0 {
            return false;
        }
    }
    true
}

/// Whether the first `count` binary digits of the fraction with the decimal
/// digits `frac` are ones.
fn leading_ones(frac: Vec<u8>, count: u32) -> (r: bool)
    requires
        all_small(frac@),
        count <= 64,
    ensures
        r == (digits_value(frac@) * pow2(count as nat) / ten_to(frac@.len()) == pow2(count as nat)
            - 1),
{
    let mut rest: Vec<u8> = frac;
    let ghost d = ten_to(frac@.len());
    let ghost f = digits_value(frac@);
    proof {
        lemma_ten_pos(frac@.len());
        vstd::arithmetic::power2::lemma2_to64();
    }
    let mut t: u32 = 0;
    while t < count
        invariant
            t <= count <= 64,
            all_small(rest@),
            rest@.len() == frac@.len(),
            d == ten_to(frac@.len()),
            f == digits_value(frac@),
            d > 0,
            f * pow2(t as nat) == (pow2(t as nat) - 1) * d + digits_value(rest@),
        decreases count - t,
    {
        let ghost before = digits_value(rest@);
        let carry: u8 = double_fraction(&mut rest);
        let ghost after = digits_value(rest@);
        proof {
            lemma_digits_bound(rest@);
            lemma_pow2_adds(t as nat, 1);
            vstd::arithmetic::power2::lemma2_to64();
            let p = pow2(t as nat);
            assert(pow2((t + 1) as nat) == 2 * p);
            assert(f * (2 * p) == (2 * p - 2 + carry) * d + after) by (nonlinear_arith)
                requires
                    f * p == (p - 1) * d + before,
                    2 * before == carry * d + after,
            ;
        }
        if carry == 0 {
            proof {
                let t1 = (t + 1) as nat;
                let s = (count - t1) as nat;
                let p = pow2(t1);
                let w = pow2(s);
                lemma_pow2_adds(t1, s);
                lemma_pow2_pos(s);
                lemma_pow2_pos(t1);
                let x = f * pow2(count as nat);
                assert(x < (p * w - 1) * d) by (nonlinear_arith)
                    requires
                        x == f * (p * w),
                        f * p == (p - 2) * d + after,
                        after < d,
                        d > 0,
                        w >= 1,
                ;
                lemma_fundamental_div_mod(x as int, d as int);
                assert(x / d < p * w - 1) by (nonlinear_arith)
                    requires
                        x == d * (x / d) + x % d,
                        x < (p * w - 1) * d,
                        0 <= x % d,
                        d > 0,
                ;
            }
            return false;
        }
        t = t + 1;
    }
    proof {
        lemma_digits_bound(rest@);
        let p = pow2(count as nat);
        lemma_fundamental_div_mod_converse(
            (f * p) as int,
            d as int,
            p - 1,
            digits_value(rest@) as int,
        );
    }
    true
}

/// The whole number nearest to `i + f`, counted in the given units, for the
/// fraction `f` with the decimal digits `frac`; of two equally near ones the
/// even one.
fn round_whole(i: u64, frac: Vec<u8>, unit: u64) -> (m: u64)
    requires
        all_small(frac@),
        unit > 0,
        unit == 1 || unit % 2 == 0,
        i / unit < 0x20_0000_0000_0000,
    ensures
        m == nearest(
            (i * ten_to(frac@.len()) + digits_value(frac@)) as nat,
            ten_to(frac@.len()) * unit as nat,
        ),
{
    let ghost d = ten_to(frac@.len());
    let ghost f = digits_value(frac@);
    let ghost p = unit as nat;
    proof {
        lemma_ten_pos(frac@.len());
        lemma_digits_bound(frac@);
        vstd::arithmetic::power2::lemma2_to64();
    }
    let q: u64 = i / unit;
    let r: u64 = i % unit;
    let ghost x = i * d + f;
    proof {
        lemma_fundamental_div_mod(i as int, unit as int);
        assert(x == q * (d * p) + (r * d + f)) by (nonlinear_arith)
            requires
                x == i * d + f,
                i == p * q + r,
        ;
        assert(r * d + f < d * p) by (nonlinear_arith)
            requires
                r < p,
                f < d,
        ;
        assert(d * p > 0) by (nonlinear_arith)
            requires
                d > 0,
                p > 0,
        ;
        lemma_fundamental_div_mod_converse(x as int, (d * p) as int, q as int, r * d + f);
    }
    let up: bool;
    let tie: bool;
    if unit == 1 {
        let mut rest: Vec<u8> = frac;
        let carry: u8 = double_fraction(&mut rest);
        let none: bool = is_zero(&rest);
        proof {
            lemma_digits_bound(rest@);
            assert(r * d == 0) by (nonlinear_arith)
                requires
                    r == 0,
            ;
            assert(d * p == d) by (nonlinear_arith)
                requires
                    p == 1,
            ;
        }
        tie = carry == 1 && none;
        up = carry == 1 && !none;
    } else {
        let half: u64 = unit / 2;
        let none: bool = is_zero(&frac);
        proof {
            assert(d * p == 2 * (half * d)) by (nonlinear_arith)
                requires
                    p == 2 * half,
            ;
            if r < half {
                assert(r * d + d <= half * d) by (nonlinear_arith)
                    requires
                        r + 1 <= half,
                ;
            } else if r > half {
                assert(r * d >= half * d + d) by (nonlinear_arith)
                    requires
                        r >= half + 1,
                ;
            }
        }
        tie = r == half && none;
        up = r > half || (r == half && !none);
    }
    if up || (tie && q % 2 == 1) {
        q + 1
    } else {
        q
    }
}

/// The decimal number `whole.frac`, read as a double, times `2^k`, cut to whole
/// and limited to 64 bits.
pub fn scaled_size(whole: &Vec<char>, frac: &Vec<char>, k: u32) -> (r: u64)
    requires
        all_digits(whole@),
        all_digits(frac@),
        k <= 40,
    ensures
        r == saturated(
            scaled_double(decimal_value(whole@ + frac@), ten_to(frac@.len()), k as nat),
        ),
{
    let ghost n = decimal_value(whole@ + frac@);
    let ghost d = ten_to(frac@.len());
    proof {
        lemma_joined_value(whole@, frac@);
        lemma_ten_pos(frac@.len());
        vstd::arithmetic::power2::lemma2_to64();
        vstd::arithmetic::power2::lemma2_to64_rest();
        lemma_pow2_pos(k as nat);
    }
    let mut digits: Vec<u8> = fraction_digits(frac);
    let mut i: u128 = match whole_part(whole) {
        Some(v) => v as u128,
        None => {
            proof {
                let v = decimal_value(whole@);
                assert(n * pow2(k as nat) >= d * pow2(64)) by (nonlinear_arith)
                    requires
                        n >= v * d,
                        v >= pow2(64),
                        pow2(k as nat) >= 1,
                ;
                lemma_large(n, d, k as nat);
            }
            return u64::MAX;
        },
    };
    let mut t: u32 = 0;
    assert(n * pow2(0) == n);
    while t < k
        invariant
            t <= k <= 40,
            all_small(digits@),
            digits@.len() == frac@.len(),
            d == ten_to(frac@.len()),
            n * pow2(t as nat) == i * d + digits_value(digits@),
            i < pow2((64 + t) as nat),
        decreases k - t,
    {
        let ghost before = digits_value(digits@);
        let ghost j = i;
        proof {
            if t < 40 {
                lemma_pow2_strictly_increases((64 + t) as nat, 104);
            }
            lemma_pow2_adds(64, 40);
            vstd::arithmetic::power2::lemma2_to64();
            vstd::arithmetic::power2::lemma2_to64_rest();
            lemma_pow2_adds((64 + t) as nat, 1);
            lemma_pow2_adds(t as nat, 1);
        }
        let carry: u8 = double_fraction(&mut digits);
        i = i * 2 + carry as u128;
        t = t + 1;
        proof {
            let p = pow2((t - 1) as nat);
            assert(n * (2 * p) == i * d + digits_value(digits@)) by (nonlinear_arith)
                requires
                    n * p == j * d + before,
                    2 * before == carry * d + digits_value(digits@),
                    i == j * 2 + carry,
            ;
        }
    }
    let ghost x = n * pow2(k as nat);
    let ghost f = digits_value(digits@);
    proof {
        lemma_digits_bound(digits@);
    }
    if i >= 0x1_0000_0000_0000_0000u128 {
        proof {
            assert(x >= d * pow2(64)) by (nonlinear_arith)
                requires
                    x == i * d + f,
                    i >= pow2(64),
            ;
            lemma_large(n, d, k as nat);
        }
        return u64::MAX;
    }
    let i: u64 = i as u64;
    if i >= 0x10_0000_0000_0000u64 {
        // The doubles here are whole numbers.
        let mut e: u32 = 0;
        let mut unit: u64 = 1;
        let mut top: u128 = 0x20_0000_0000_0000u128;
        while i as u128 >= top
            invariant
                e <= 11,
                unit == pow2(e as nat),
                unit <= 2048,
                unit == 1 || unit % 2 == 0,
                top == pow2((53 + e) as nat),
                i >= pow2((52 + e) as nat),
            decreases 11 - e,
        {
            proof {
                if e == 11 {
                    vstd::arithmetic::power2::lemma2_to64_rest();
                } else if e < 10 {
                    lemma_pow2_strictly_increases((53 + e) as nat, 63);
                }
                vstd::arithmetic::power2::lemma2_to64_rest();
                lemma_pow2_adds((53 + e) as nat, 1);
                lemma_pow2_adds(e as nat, 1);
                if e < 10 {
                    lemma_pow2_strictly_increases((e + 1) as nat, 11);
                }
                vstd::arithmetic::power2::lemma2_to64();
            }
            top = top * 2;
            unit = unit * 2;
            e = e + 1;
        }
        proof {
            lemma_pow2_adds(53, e as nat);
            lemma_pow2_adds(52, e as nat);
            lemma_pow2_pos(e as nat);
            if e < 11 {
                lemma_pow2_strictly_increases(e as nat, 11);
            }
            vstd::arithmetic::power2::lemma2_to64();
            vstd::arithmetic::power2::lemma2_to64_rest();
            let p = pow2(e as nat);
            lemma_fundamental_div_mod(i as int, p as int);
            assert(i / (p as u64) < pow2(53)) by (nonlinear_arith)
                requires
                    i == p * (i as int / p as int) + i as int % p as int,
                    0 <= i as int % p as int,
                    i < pow2(53) * p,
                    0 < p <= 2048,
            ;
            let low = pow2((52 + e) as nat);
            let high = pow2((53 + e) as nat);
            assert(d * low <= x) by (nonlinear_arith)
                requires
                    x == i * d + f,
                    i >= low,
            ;
            assert(x < d * high) by (nonlinear_arith)
                requires
                    x == i * d + f,
                    f < d,
                    i + 1 <= high,
            ;
            lemma_coarse(n, d, k as nat, e as nat);
        }
        let m: u64 = round_whole(i, digits, unit);
        proof {
            assert(m * unit <= 0x1_0000_0000_0000_0000 * 2048) by (nonlinear_arith)
                requires
                    m <= u64::MAX,
                    unit <= 2048,
            ;
        }
        let bytes: u128 = m as u128 * unit as u128;
        if bytes > u64::MAX as u128 {
            u64::MAX
        } else {
            bytes as u64
        }
    } else {
        // The doubles here have j binary digits after the point.
        let mut j: u32 = 0;
        if i == 0 {
            j = 53;
        } else {
            let mut low: u64 = 0x10_0000_0000_0000u64;
            while i < low
                invariant
                    j <= 52,
                    i >= 1,
                    low == pow2((52 - j) as nat),
                    j > 0 ==> i < pow2((53 - j) as nat),
                decreases 52 - j,
            {
                proof {
                    vstd::arithmetic::power2::lemma2_to64();
                    if j < 52 {
                        lemma_pow2_adds((51 - j) as nat, 1);
                    }
                }
                low = low / 2;
                j = j + 1;
            }
        }
        proof {
            let jj = j as nat;
            lemma_pow2_adds(k as nat, jj);
            assert(n * pow2((k + j) as nat) == x * pow2(jj)) by (nonlinear_arith)
                requires
                    x == n * pow2(k as nat),
                    pow2((k + j) as nat) == pow2(k as nat) * pow2(jj),
            ;
            lemma_pow2_pos(jj);
            lemma_lift(x, d, i as nat, f, jj);
            assert(i == 0 ==> x == f) by (nonlinear_arith)
                requires
                    x == i * d + f,
            ;
            if i > 0 {
                lemma_pow2_adds((52 - j) as nat, jj);
                lemma_pow2_adds((53 - j) as nat, jj);
                let low = pow2((52 - j) as nat);
                let high = pow2((53 - j) as nat);
                let w = pow2(jj);
                assert(d * (low * w) <= x * w) by (nonlinear_arith)
                    requires
                        x == i * d + f,
                        i >= low,
                ;
                assert(x * w < d * (high * w)) by (nonlinear_arith)
                    requires
                        x == i * d + f,
                        f < d,
                        i + 1 <= high,
                        w > 0,
                ;
                lemma_fine(n, d, k as nat, jj);
            } else if 2 * x < d {
                lemma_under_half(n, d, k as nat);
                let p = pow2(54);
                lemma_fundamental_div_mod((f * p) as int, d as int);
                assert(f * p / d < p - 1) by (nonlinear_arith)
                    requires
                        f * p == d * (f * p / d) + (f * p) % d,
                        0 <= (f * p) % d,
                        2 * f < d,
                        p > 2,
                        d > 0,
                ;
            } else {
                assert(d * pow2(52) <= x * pow2(53)) by (nonlinear_arith)
                    requires
                        2 * x >= d,
                        pow2(53) == 2 * pow2(52),
                ;
                assert(x * pow2(53) < d * pow2(53)) by (nonlinear_arith)
                    requires
                        x < d,
                        pow2(53) > 0,
                ;
                lemma_fine(n, d, k as nat, jj);
            }
        }
        if leading_ones(digits, j + 1) {
            i + 1
        } else {
            i
        }
    }
}

/// A size that is a whole number of bytes, of at most 53 bits, is read without
/// any rounding.
pub proof fn law_whole_size_is_exact(n: nat, d: nat, k: nat, i: nat)
    requires
        d > 0,
        k <= 40,
        n * pow2(k) == i * d,
        i <= pow2(53),
    ensures
        scaled_double(n, d, k) == i,
{
    let x = n * pow2(k);
    vstd::arithmetic::power2::lemma2_to64();
    vstd::arithmetic::power2::lemma2_to64_rest();
    if i == 0 {
        assert(x == 0) by (nonlinear_arith)
            requires
                x == i * d,
                i == 0,
        ;
        lemma_under_half(n, d, k);
    } else if i >= pow2(52) {
        let e: nat = if i == pow2(53) {
            1
        } else {
            0
        };
        let p = pow2(e);
        let m = if e == 1 {
            pow2(52)
        } else {
            i
        };
        assert(d * pow2(52 + e) <= x) by (nonlinear_arith)
            requires
                x == i * d,
                i >= pow2(52 + e),
        ;
        assert(x < d * pow2(53 + e)) by (nonlinear_arith)
            requires
                x == i * d,
                i < pow2(53 + e),
                d > 0,
        ;
        lemma_coarse(n, d, k, e);
        assert(x == m * (d * p)) by (nonlinear_arith)
            requires
                x == i * d,
                i == m * p,
        ;
        assert(d * p > 0) by (nonlinear_arith)
            requires
                d > 0,
                p > 0,
        ;
        lemma_fundamental_div_mod_converse(x as int, (d * p) as int, m as int, 0);
    } else {
        lemma_bits_before_point(i, 1);
        let j = choose|j: nat| 1 <= j <= 52 && #[trigger] pow2((52 - j) as nat) <= i < pow2(
            (53 - j) as nat,
        );
        let w = pow2(j);
        let low = pow2((52 - j) as nat);
        let high = pow2((53 - j) as nat);
        lemma_pow2_pos(j);
        lemma_pow2_adds(k, j);
        lemma_pow2_adds((52 - j) as nat, j);
        lemma_pow2_adds((53 - j) as nat, j);
        assert(n * pow2(k + j) == x * w) by (nonlinear_arith)
            requires
                x == n * pow2(k),
                pow2(k + j) == pow2(k) * w,
        ;
        assert(d * (low * w) <= x * w) by (nonlinear_arith)
            requires
                x == i * d,
                i >= low,
        ;
        assert(x * w < d * (high * w)) by (nonlinear_arith)
            requires
                x == i * d,
                i < high,
                w > 0,
                d > 0,
        ;
        lemma_fine(n, d, k, j);
        lemma_lift(x, d, i, 0, j);
        lemma_pow2_strictly_increases(0, j + 1);
        lemma_pow2_strictly_increases(1, j + 1);
        assert(0 * pow2(j + 1) == 0);
        assert(0int / d as int == 0) by {
            lemma_fundamental_div_mod_converse(0, d as int, 0, 0);
        }
    }
}

/// A whole number of at most 53 bits is a double, and so is it times any power of
/// two: nothing is rounded.
pub proof fn law_whole_number_is_exact(n: nat, k: nat)
    requires
        n <= pow2(53),
    ensures
        scaled_double(n, 1, k) == n * pow2(k),
{
    let f = pow2(finest());
    let a = n * f;
    lemma_pow2_pos(finest());
    lemma_spacing_exists(a, 1, 0);
    let u = spacing(a, 1);
    assert(spacing_at(a, 1, u));
    let p = pow2(u);
    lemma_pow2_pos(u);
    lemma_pow2_adds(53, finest());
    assert(a <= pow2(53) * f) by (nonlinear_arith)
        requires
            a == n * f,
            n <= pow2(53),
    ;
    assert(u <= finest() + 1) by {
        if u > finest() + 1 {
            lemma_pow2_strictly_increases(53 + finest(), 52 + u);
        }
    }
    let q: nat = if u <= finest() {
        n * pow2((finest() - u) as nat)
    } else {
        pow2(52)
    };
    assert(a == q * p) by {
        if u <= finest() {
            let g = pow2((finest() - u) as nat);
            lemma_pow2_adds((finest() - u) as nat, u);
            assert(a == q * p) by (nonlinear_arith)
                requires
                    a == n * f,
                    f == g * p,
                    q == n * g,
            ;
        } else {
            lemma_pow2_adds(52, u);
            assert(a == pow2(53) * f);
        }
    }
    assert(1 * p == p);
    lemma_fundamental_div_mod_converse(a as int, p as int, q as int, 0);
    assert(nearest(a, 1 * p) == q);
    assert(nearest_double(n, 1) == a);
    let w = pow2(k);
    assert(a * w == (n * w) * f) by (nonlinear_arith)
        requires
            a == n * f,
    ;
    lemma_fundamental_div_mod_converse((a * w) as int, f as int, (n * w) as int, 0);
}

/// A number of at most 52 bits lies between two powers of two.
proof fn lemma_bits_before_point(i: nat, j: nat)
    requires
        1 <= j <= 52,
        1 <= i < pow2((53 - j) as nat),
    ensures
        exists|m: nat|
            1 <= m <= 52 && #[trigger] pow2((52 - m) as nat) <= i < pow2((53 - m) as nat),
    decreases 52 - j,
{
    vstd::arithmetic::power2::lemma2_to64();
    if pow2((52 - j) as nat) <= i {
    } else {
        lemma_bits_before_point(i, j + 1);
    }
}

} // verus!
