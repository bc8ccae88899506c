//! Sizes such as `1.5G`.
use vstd::arithmetic::div_mod::lemma_fundamental_div_mod;
use vstd::arithmetic::power::pow;
use vstd::arithmetic::power2::{lemma_pow2_pos, pow2};
use vstd::prelude::*;

use crate::double::{
    law_whole_number_is_exact, law_whole_size_is_exact, lemma_spacing_exists, lemma_ten_pos,
    nearest, nearest_double, saturated, scaled_double, spacing, spacing_at, ten_to,
};
use crate::laws::numbers::{digits_alone, law_numbers_are_written_shortest};
use crate::laws::texts::{all_blank, law_trimming_takes_the_ends, tight};
use crate::number::{decimal, decimal_value};
use crate::speed::{
    cleaned, fraction_digits, is_number, number_chars, number_text, reads_as_size, unit_bits,
    unit_filler, unit_text, whole_digits, SizeError,
};
use crate::text::{all_digits, ascii_digit, except, lemma_run, lower, lower_char};

verus! {

// ---------------------------------------------------------------------------
// Doubles
// ---------------------------------------------------------------------------
/// Tens are multiplied.
pub proof fn law_powers_of_ten(n: nat)
    ensures
        ten_to(n) == pow(10, n),
    decreases n,
{
    reveal(pow);
    if n > 0 {
        law_powers_of_ten((n - 1) as nat);
    }
}

/// A number above the largest of 64 bits becomes that one; any other stays.
pub proof fn law_saturation(n: nat)
    ensures
        n <= 0xffff_ffff_ffff_ffff ==> saturated(n) == n,
        n > 0xffff_ffff_ffff_ffff ==> saturated(n) == 0xffff_ffff_ffff_ffff,
{
}

proof fn lemma_nearest_is_near(a: nat, b: nat)
    requires
        b > 0,
    ensures
        ({
            let q = nearest(a, b);
            &&& 2 * (q * b) <= 2 * a + b
            &&& 2 * a <= 2 * (q * b) + b
            &&& 2 * (q * b) == 2 * a + b || 2 * a == 2 * (q * b) + b ==> q % 2 == 0
        }),
{
    let q0 = a / b;
    let r = a % b;
    lemma_fundamental_div_mod(a as int, b as int);
    assert(b * q0 == q0 * b) by (nonlinear_arith);
    assert((q0 + 1) * b == q0 * b + b) by (nonlinear_arith);
}

/// Whether `q` times 2^u, in units of which 2^1074 make one, is the double nearest to
/// `n / d`: doubles there are the multiples of 2^u, since a double has 53 bits; it is
/// no further away than half of that, and of two equally near ones the even one.
pub open spec fn is_nearest(n: nat, d: nat, u: nat, q: nat) -> bool {
    let a = n * pow2(1074);
    let unit = d * pow2(u);
    &&& a < d * pow2(53 + u)
    &&& u > 0 ==> a >= d * pow2(52 + u)
    &&& 2 * (q * unit) <= 2 * a + unit
    &&& 2 * a <= 2 * (q * unit) + unit
    &&& 2 * (q * unit) == 2 * a + unit || 2 * a == 2 * (q * unit) + unit ==> q % 2 == 0
}

/// A number is read as the nearest double; times 2^k it is cut to a whole number.
pub proof fn law_the_nearest_double_is_taken(n: nat, d: nat, k: nat)
    requires
        d > 0,
    ensures
        exists|u: nat, q: nat| #[trigger]
            is_nearest(n, d, u, q) && scaled_double(n, d, k) == (q * pow2(u)) * pow2(k) / pow2(
                1074,
            ),
{
    let a = n * pow2(1074);
    lemma_spacing_exists(a, d, 0);
    let u = spacing(a, d);
    assert(spacing_at(a, d, u));
    let unit = d * pow2(u);
    lemma_pow2_pos(u);
    assert(unit > 0) by (nonlinear_arith)
        requires
            d > 0,
            pow2(u) > 0,
            unit == d * pow2(u),
    ;
    let q = nearest(a, unit);
    lemma_nearest_is_near(a, unit);
    assert(nearest_double(n, d) == q * pow2(u));
    assert(is_nearest(n, d, u, q));
}

// ---------------------------------------------------------------------------
// What a size is
// ---------------------------------------------------------------------------
/// The power of two that a unit stands for: a letter of `KMGT`, with or without a
/// `B`, in either case.
pub open spec fn letter_bits(unit: Seq<char>) -> Option<nat> {
    if unit.len() == 0 {
        Some(0)
    } else if unit.len() > 2 || (unit.len() == 2 && unit[1] != 'b' && unit[1] != 'B') {
        None
    } else if unit[0] == 'k' || unit[0] == 'K' {
        Some(10)
    } else if unit[0] == 'm' || unit[0] == 'M' {
        Some(20)
    } else if unit[0] == 'g' || unit[0] == 'G' {
        Some(30)
    } else if unit[0] == 't' || unit[0] == 'T' {
        Some(40)
    } else {
        None
    }
}

/// Whether these are spaces and the letter `B` in either case.
pub open spec fn filler(s: Seq<char>) -> bool {
    forall|i: int| 0 <= i < s.len() ==> (#[trigger] s[i]) == ' ' || s[i] == 'b' || s[i] == 'B'
}

/// Digits, a point or none, and digits.
pub open spec fn number_of(w: Seq<char>, point: bool, f: Seq<char>) -> Seq<char> {
    if point {
        w + seq!['.'] + f
    } else {
        w
    }
}

/// The end of a speed, or nothing.
pub open spec fn per_second(per: bool) -> Seq<char> {
    if per {
        seq!['/', 's']
    } else {
        Seq::empty()
    }
}

/// The text of a size without the white space around it.
pub open spec fn size_text(
    w: Seq<char>,
    point: bool,
    f: Seq<char>,
    fill: Seq<char>,
    unit: Seq<char>,
    per: bool,
) -> Seq<char> {
    number_of(w, point, f) + fill + unit + per_second(per)
}

proof fn lemma_lower_sum(a: Seq<char>, b: Seq<char>)
    ensures
        lower(a + b) == lower(a) + lower(b),
{
    assert(lower(a + b) =~= lower(a) + lower(b));
}

proof fn lemma_units(unit: Seq<char>)
    ensures
        unit_bits(lower(unit)) == letter_bits(unit),
{
    reveal_strlit("");
    reveal_strlit("k");
    reveal_strlit("m");
    reveal_strlit("g");
    reveal_strlit("t");
    reveal_strlit("kb");
    reveal_strlit("mb");
    reveal_strlit("gb");
    reveal_strlit("tb");
    let u = lower(unit);
    assert(u.len() == unit.len());
    assert(""@.len() == 0);
    assert("k"@.len() == 1 && "m"@.len() == 1 && "g"@.len() == 1 && "t"@.len() == 1);
    assert("kb"@.len() == 2 && "mb"@.len() == 2 && "gb"@.len() == 2 && "tb"@.len() == 2);
    if unit.len() == 0 {
        assert(u =~= ""@);
    } else if unit.len() == 1 {
        assert(u[0] == 'k' ==> u =~= "k"@);
        assert(u[0] == 'm' ==> u =~= "m"@);
        assert(u[0] == 'g' ==> u =~= "g"@);
        assert(u[0] == 't' ==> u =~= "t"@);
    } else if unit.len() == 2 {
        assert(u[0] == 'k' && u[1] == 'b' ==> u =~= "kb"@);
        assert(u[0] == 'm' && u[1] == 'b' ==> u =~= "mb"@);
        assert(u[0] == 'g' && u[1] == 'b' ==> u =~= "gb"@);
        assert(u[0] == 't' && u[1] == 'b' ==> u =~= "tb"@);
    }
}

proof fn lemma_size_parts(
    p: Seq<char>,
    w: Seq<char>,
    point: bool,
    f: Seq<char>,
    fill: Seq<char>,
    unit: Seq<char>,
    per: bool,
    q: Seq<char>,
)
    requires
        all_blank(p),
        all_blank(q),
        digits_alone(w),
        digits_alone(f),
        !point ==> f.len() == 0,
        filler(fill),
        unit.len() > 0 ==> !('0' <= unit[0] <= '9') && unit[0] != '.' && unit[0] != ' ' && unit[0]
            != 'b' && unit[0] != 'B',
        !per ==> !(unit.len() >= 2 && unit[unit.len() - 2] == '/' && (unit.last() == 's'
            || unit.last() == 'S')),
        tight(size_text(w, point, f, fill, unit, per)),
    ensures
        number_text(p + size_text(w, point, f, fill, unit, per) + q) == number_of(w, point, f),
        unit_text(p + size_text(w, point, f, fill, unit, per) + q) == lower(unit),
        whole_digits(number_of(w, point, f)) == w,
        fraction_digits(number_of(w, point, f)) == f,
{
    let num = number_of(w, point, f);
    let core = size_text(w, point, f, fill, unit, per);
    let input = p + core + q;
    law_trimming_takes_the_ends(p, core, q);
    let end = per_second(per);
    let lf = lower(fill);
    let lu = lower(unit);
    lemma_lower_sum(num + fill + unit, end);
    lemma_lower_sum(num + fill, unit);
    lemma_lower_sum(num, fill);
    assert(lower(num) =~= num) by {
        assert forall|i: int| 0 <= i < num.len() implies lower_char(#[trigger] num[i])
            == num[i] by {
            if i < w.len() {
                assert(num[i] == w[i]);
            } else if i > w.len() {
                assert(num[i] == f[i - w.len() - 1]);
            }
        }
    }
    assert(lower(end) =~= end);
    let s = lower(core);
    let body = num + lf + lu;
    assert(s == body + end);
    assert forall|i: int| 0 <= i < lf.len() implies (#[trigger] lf[i]) == ' ' || lf[i] == 'b' by {
        assert(fill[i] == ' ' || fill[i] == 'b' || fill[i] == 'B');
    }
    assert forall|i: int| 0 <= i < num.len() implies '0' <= (#[trigger] num[i]) <= '9' || num[i]
        == '.' by {
        if i < w.len() {
            assert(num[i] == w[i]);
        } else if i > w.len() {
            assert(num[i] == f[i - w.len() - 1]);
        }
    }
    assert(cleaned(input) == body) by {
        if per {
            assert(s[s.len() - 2] == '/' && s[s.len() - 1] == 's');
            assert(s.take(s.len() - 2) =~= body);
        } else {
            assert(s =~= body);
            if s.len() >= 2 && s[s.len() - 2] == '/' && s[s.len() - 1] == 's' {
                let last = s.len() - 1;
                if unit.len() >= 2 {
                    assert(s[last] == lu[lu.len() - 1]);
                    assert(s[last - 1] == lu[lu.len() - 2]);
                } else if unit.len() == 1 {
                    if fill.len() > 0 {
                        assert(s[last - 1] == lf[lf.len() - 1]);
                    } else {
                        assert(s[last - 1] == num[num.len() - 1]);
                    }
                } else if fill.len() > 0 {
                    assert(s[last] == lf[lf.len() - 1]);
                } else {
                    assert(s[last] == num[num.len() - 1]);
                }
            }
        }
    }
    let n = num.len() as int;
    assert forall|i: int| 0 <= i < n implies number_chars()(#[trigger] body[i]) by {
        assert(body[i] == num[i]);
        assert('0' <= num[i] <= '9' || num[i] == '.');
    }
    let rest = lf + lu;
    assert(body =~= num + rest);
    if n < body.len() {
        if fill.len() > 0 {
            assert(body[n] == lf[0]);
        } else {
            assert(body[n] == lu[0]);
        }
    }
    lemma_run(body, number_chars(), n);
    assert(body.take(n) =~= num);
    assert(body.skip(n) =~= rest);
    let m = lf.len() as int;
    assert forall|i: int| 0 <= i < m implies unit_filler()(#[trigger] rest[i]) by {
        assert(rest[i] == lf[i]);
    }
    if m < rest.len() {
        assert(rest[m] == lu[0]);
    }
    lemma_run(rest, unit_filler(), m);
    assert(rest.skip(m) =~= lu);
    let k = w.len() as int;
    assert forall|i: int| 0 <= i < k implies except('.')(#[trigger] num[i]) by {
        assert(num[i] == w[i]);
        assert('0' <= w[i] <= '9');
    }
    if point {
        assert(num[k] == '.');
    }
    lemma_run(num, except('.'), k);
    assert(num.take(k) =~= w);
    if point {
        assert(num.skip(k).drop_first() =~= f);
    } else {
        assert(num.skip(k) =~= f);
    }
}

/// A size is read as its number times the power of 1024 of its unit. The number has
/// digits before or behind a point, or both; spaces and a `B` may stand before the
/// unit, white space around the whole, and a `/s` behind it, and make no difference.
/// It is an error if there is no digit, if the unit is not known, or if less than one
/// byte is left.
pub proof fn law_a_size_is_read(
    p: Seq<char>,
    w: Seq<char>,
    point: bool,
    f: Seq<char>,
    fill: Seq<char>,
    unit: Seq<char>,
    per: bool,
    q: Seq<char>,
    r: Result<u64, SizeError>,
)
    requires
        all_blank(p),
        all_blank(q),
        digits_alone(w),
        digits_alone(f),
        !point ==> f.len() == 0,
        filler(fill),
        unit.len() > 0 ==> !('0' <= unit[0] <= '9') && unit[0] != '.' && unit[0] != ' ' && unit[0]
            != 'b' && unit[0] != 'B',
        !per ==> !(unit.len() >= 2 && unit[unit.len() - 2] == '/' && (unit.last() == 's'
            || unit.last() == 'S')),
        tight(size_text(w, point, f, fill, unit, per)),
        reads_as_size(p + size_text(w, point, f, fill, unit, per) + q, r),
    ensures
        if w.len() + f.len() == 0 {
            r matches Err(SizeError::InvalidNumber)
        } else {
            match letter_bits(unit) {
                None => r matches Err(SizeError::UnknownUnit(u)) && u@ == lower(unit),
                Some(bits) => {
                    let bytes = saturated(
                        scaled_double(decimal_value(w + f), ten_to(f.len()), bits),
                    );
                    if bytes == 0 {
                        r matches Err(SizeError::Zero)
                    } else {
                        r == Ok::<u64, SizeError>(bytes)
                    }
                },
            }
        },
{
    lemma_size_parts(p, w, point, f, fill, unit, per, q);
    lemma_units(unit);
    assert forall|i: int| 0 <= i < w.len() implies ascii_digit(#[trigger] w[i]) by {}
    assert forall|i: int| 0 <= i < f.len() implies ascii_digit(#[trigger] f[i]) by {}
    assert(is_number(number_of(w, point, f)) <==> w.len() + f.len() > 0);
}

/// A number of units that makes a whole number of bytes, of at most 53 bits, is that
/// number of bytes: `1.5K` is 1536.
pub proof fn law_whole_bytes_are_exact(
    w: Seq<char>,
    point: bool,
    f: Seq<char>,
    unit: Seq<char>,
    bytes: u64,
    r: Result<u64, SizeError>,
)
    requires
        digits_alone(w),
        digits_alone(f),
        !point ==> f.len() == 0,
        w.len() + f.len() > 0,
        letter_bits(unit) is Some,
        0 < bytes <= pow2(53),
        decimal_value(w + f) * pow2(letter_bits(unit)->0) == bytes * pow(10, f.len()),
        reads_as_size(number_of(w, point, f) + unit, r),
    ensures
        r == Ok::<u64, SizeError>(bytes),
{
    let e = Seq::<char>::empty();
    let num = number_of(w, point, f);
    let core = size_text(w, point, f, e, unit, false);
    assert(core =~= num + unit);
    assert(e + core + e =~= num + unit);
    assert(tight(core)) by {
        if w.len() > 0 {
            assert(core[0] == w[0]);
        } else {
            assert(core[0] == '.');
        }
        if unit.len() > 0 {
            assert(core.last() == unit.last());
        } else if point && f.len() > 0 {
            assert(core.last() == f.last());
            assert(f[f.len() - 1] == f.last());
        } else if point {
            assert(core.last() == '.');
        } else {
            assert(core.last() == w.last());
            assert(w[w.len() - 1] == w.last());
        }
    }
    law_a_size_is_read(e, w, point, f, e, unit, false, e, r);
    law_powers_of_ten(f.len());
    lemma_ten_pos(f.len());
    law_whole_size_is_exact(
        decimal_value(w + f),
        ten_to(f.len()),
        letter_bits(unit)->0,
        bytes as nat,
    );
}

/// A whole number of units, of at most 53 bits, is that number times the unit, or the
/// largest number of 64 bits where that is larger.
pub proof fn law_whole_units_saturate(n: nat, unit: Seq<char>, r: Result<u64, SizeError>)
    requires
        0 < n <= pow2(53),
        letter_bits(unit) is Some,
        reads_as_size(decimal(n) + unit, r),
    ensures
        ({
            let bytes = n * pow2(letter_bits(unit)->0);
            r == Ok::<u64, SizeError>(
                if bytes <= u64::MAX {
                    bytes as u64
                } else {
                    u64::MAX
                },
            )
        }),
{
    let e = Seq::<char>::empty();
    let w = decimal(n);
    law_numbers_are_written_shortest(n);
    let core = size_text(w, false, e, e, unit, false);
    assert(core =~= w + unit);
    assert(e + core + e =~= w + unit);
    assert(tight(core)) by {
        assert(core[0] == w[0]);
        if unit.len() > 0 {
            assert(core.last() == unit.last());
        } else {
            assert(core.last() == w.last());
            assert(w[w.len() - 1] == w.last());
        }
    }
    law_a_size_is_read(e, w, false, e, e, unit, false, e, r);
    assert(w + e =~= w);
    let k = letter_bits(unit)->0;
    law_whole_number_is_exact(n, k);
    lemma_pow2_pos(k);
    assert(n * pow2(k) > 0) by (nonlinear_arith)
        requires
            n > 0,
            pow2(k) > 0,
    ;
    law_saturation(n * pow2(k));
    assert(ten_to(0) == 1);
}

/// A number with two points is none.
pub proof fn law_two_points_are_no_number(
    w: Seq<char>,
    f: Seq<char>,
    g: Seq<char>,
    r: Result<u64, SizeError>,
)
    requires
        digits_alone(w),
        digits_alone(f),
        digits_alone(g),
        reads_as_size(w + seq!['.'] + f + seq!['.'] + g, r),
    ensures
        r matches Err(SizeError::InvalidNumber),
{
    let s = w + seq!['.'] + f + seq!['.'] + g;
    let e = Seq::<char>::empty();
    assert forall|i: int| 0 <= i < s.len() implies '0' <= (#[trigger] s[i]) <= '9' || s[i]
        == '.' by {
        if i < w.len() {
            assert(s[i] == w[i]);
        } else if w.len() < i < w.len() + 1 + f.len() {
            assert(s[i] == f[i - w.len() - 1]);
        } else if i > w.len() + 1 + f.len() {
            assert(s[i] == g[i - w.len() - 2 - f.len()]);
        }
    }
    assert(e + s + e =~= s);
    assert(s.last() == s[s.len() - 1]);
    law_trimming_takes_the_ends(e, s, e);
    assert(lower(s) =~= s);
    assert(cleaned(s) == s);
    assert forall|i: int| 0 <= i < s.len() implies number_chars()(#[trigger] s[i]) by {
        assert('0' <= s[i] <= '9' || s[i] == '.');
    }
    lemma_run(s, number_chars(), s.len() as int);
    assert(s.take(s.len() as int) =~= s);
    let k = w.len() as int;
    assert forall|i: int| 0 <= i < k implies except('.')(#[trigger] s[i]) by {
        assert(s[i] == w[i]);
        assert('0' <= w[i] <= '9');
    }
    assert(s[k] == '.');
    lemma_run(s, except('.'), k);
    let rest = s.skip(k).drop_first();
    assert(rest[f.len() as int] == s[k + 1 + f.len()]);
    assert(rest[f.len() as int] == '.');
    assert(!all_digits(rest)) by {
        assert(!ascii_digit(rest[f.len() as int]));
    }
}

/// A text has one reading: the same bytes, or the same error.
pub proof fn law_a_size_has_one_reading(
    input: Seq<char>,
    a: Result<u64, SizeError>,
    b: Result<u64, SizeError>,
)
    requires
        reads_as_size(input, a),
        reads_as_size(input, b),
    ensures
        match (a, b) {
            (Ok(x), Ok(y)) => x == y && x > 0,
            (Err(SizeError::InvalidNumber), Err(SizeError::InvalidNumber)) => true,
            (Err(SizeError::UnknownUnit(x)), Err(SizeError::UnknownUnit(y))) => x@ == y@,
            (Err(SizeError::Zero), Err(SizeError::Zero)) => true,
            _ => false,
        },
{
}

} // verus!
