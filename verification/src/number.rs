//! Unsigned decimal numbers as text.
use vstd::prelude::*;

use crate::text::{all_digits, append_chars, ascii_digit, is_ascii_digit, slice_chars};

verus! {

/// The number that a digit stands for.
pub open spec fn digit_value(c: char) -> int {
    c as int - '0' as int
}

/// The digit that stands for `d`.
pub open spec fn digit_char(d: int) -> char {
    (d + '0' as int) as char
}

/// The number that a sequence of digits stands for; the empty one stands for 0.
pub open spec fn decimal_value(s: Seq<char>) -> nat
    decreases s.len(),
{
    if s.len() == 0 {
        0
    } else {
        10 * decimal_value(s.drop_last()) + digit_value(s.last()) as nat
    }
}

/// `n` in decimal, without leading zeros.
pub open spec fn decimal(n: nat) -> Seq<char>
    decreases n,
{
    if n < 10 {
        seq![digit_char(n as int)]
    } else {
        decimal(n / 10).push(digit_char((n % 10) as int))
    }
}

/// `n` in decimal, with as many leading zeros as make it `width` characters
/// long; a number of more digits is not cut.
pub open spec fn zero_padded(n: nat, width: nat) -> Seq<char> {
    let digits = decimal(n);
    if digits.len() < width {
        Seq::new((width - digits.len()) as nat, |i: int| '0') + digits
    } else {
        digits
    }
}

/// `s` without a leading plus sign.
pub open spec fn without_plus(s: Seq<char>) -> Seq<char> {
    if s.len() > 0 && s[0] == '+' {
        s.drop_first()
    } else {
        s
    }
}

/// What `s` is as an unsigned 64-bit number: an optional plus sign and at least
/// one digit, and nothing else; no value where the number needs more bits.
pub open spec fn read_u64(s: Seq<char>) -> Option<u64> {
    let d = without_plus(s);
    if d.len() > 0 && all_digits(d) && decimal_value(d) <= u64::MAX {
        Some(decimal_value(d) as u64)
    } else {
        None
    }
}

/// A prefix of a number is no larger than the number.
pub proof fn lemma_prefix_value(s: Seq<char>, n: int)
    requires
        0 <= n <= s.len(),
    ensures
        decimal_value(s.take(n)) <= decimal_value(s),
    decreases s.len(),
{
    if n == s.len() {
        assert(s.take(n) =~= s);
    } else {
        lemma_prefix_value(s.drop_last(), n);
        assert(s.drop_last().take(n) =~= s.take(n));
    }
}

/// What `decimal` writes is not empty, holds digits alone and has the value
/// that was written.
pub proof fn law_decimal_value(n: nat)
    ensures
        decimal(n).len() > 0,
        all_digits(decimal(n)),
        decimal_value(decimal(n)) == n,
    decreases n,
{
    if n < 10 {
        let s = decimal(n);
        assert(s.drop_last() =~= Seq::empty());
        assert(s.last() == digit_char(n as int));
        assert(decimal_value(s.drop_last()) == 0);
    } else {
        law_decimal_value(n / 10);
        let s = decimal(n);
        assert(s.drop_last() =~= decimal(n / 10));
        assert(s.last() == digit_char((n % 10) as int));
        assert(ascii_digit(s.last()));
    }
}

/// Leading zeros do not change the value of a number.
proof fn lemma_leading_zeros(zeros: Seq<char>, s: Seq<char>)
    requires
        forall|i: int| 0 <= i < zeros.len() ==> zeros[i] == '0',
    ensures
        decimal_value(zeros + s) == decimal_value(s),
    decreases zeros.len() + s.len(),
{
    if s.len() > 0 {
        lemma_leading_zeros(zeros, s.drop_last());
        assert((zeros + s).drop_last() =~= zeros + s.drop_last());
    } else if zeros.len() > 0 {
        lemma_leading_zeros(zeros.drop_last(), s);
        assert((zeros + s).drop_last() =~= zeros.drop_last() + s);
    }
}

/// A padded number reads back as the number, and is at least as long as asked.
pub proof fn law_padded_reads_back(n: u64, width: nat)
    ensures
        read_u64(zero_padded(n as nat, width)) == Some(n),
        zero_padded(n as nat, width).len() >= width,
        zero_padded(n as nat, width).len() == width || zero_padded(n as nat, width) == decimal(
            n as nat,
        ),
{
    law_decimal_value(n as nat);
    let digits = decimal(n as nat);
    let p = zero_padded(n as nat, width);
    if digits.len() < width {
        let zeros = Seq::new((width - digits.len()) as nat, |i: int| '0');
        lemma_leading_zeros(zeros, digits);
    }
    assert(all_digits(p));
    assert(ascii_digit(p[0]));
    assert(without_plus(p) == p);
}

/// `n` in decimal.
pub fn decimal_chars(n: u64) -> (r: Vec<char>)
    ensures
        r@ == decimal(n as nat),
    decreases n,
{
    if n < 10 {
        let mut v: Vec<char> = Vec::new();
        v.push(((n as u8) + 48u8) as char);
        v
    } else {
        let mut v: Vec<char> = decimal_chars(n / 10);
        v.push((((n % 10) as u8) + 48u8) as char);
        v
    }
}

/// `n` in decimal, with leading zeros up to `width` characters.
pub fn padded_chars(n: u64, width: usize) -> (r: Vec<char>)
    ensures
        r@ == zero_padded(n as nat, width as nat),
{
    let digits: Vec<char> = decimal_chars(n);
    let mut out: Vec<char> = Vec::new();
    if digits.len() < width {
        let zeros: usize = width - digits.len();
        for i in 0..zeros
            invariant
                out@ == Seq::new(i as nat, |j: int| '0'),
        {
            out.push('0');
            assert(out@ =~= Seq::new((i + 1) as nat, |j: int| '0'));
        }
    }
    append_chars(&mut out, &digits);
    assert(out@ =~= zero_padded(n as nat, width as nat));
    out
}

/// Appends `n` in decimal.
pub fn push_decimal(out: &mut String, n: u64)
    ensures
        final(out)@ == old(out)@ + decimal(n as nat),
{
    let digits: Vec<char> = decimal_chars(n);
    for i in 0..digits.len()
        invariant
            out@ == old(out)@ + digits@.take(i as int),
    {
        out.push(digits[i]);
        assert(out@ =~= old(out)@ + digits@.take(i + 1));
    }
    assert(digits@.take(digits.len() as int) =~= digits@);
}

/// The unsigned 64-bit number that `v` holds, if it holds one.
pub fn parse_u64(v: &Vec<char>) -> (r: Option<u64>)
    ensures
        r == read_u64(v@),
{
    let from: usize = if v.len() > 0 && v[0] == '+' {
        1
    } else {
        0
    };
    let d: Vec<char> = slice_chars(v, from, v.len());
    assert(d@ =~= without_plus(v@));
    if d.len() == 0 {
        return None;
    }
    let mut value: u64 = 0;
    for i in 0..d.len()
        invariant
            forall|j: int| 0 <= j < i ==> ascii_digit(#[trigger] d@[j]),
            value == decimal_value(d@.take(i as int)),
            d@ == without_plus(v@),
    {
        let c: char = d[i];
        if !is_ascii_digit(c) {
            return None;
        }
        let digit: u64 = ((c as u8) - 48u8) as u64;
        proof {
            let t = d@.take(i + 1);
            assert(t.drop_last() =~= d@.take(i as int));
            assert(t.last() == c);
            lemma_prefix_value(d@, i + 1);
        }
        match value.checked_mul(10) {
            None => {
                return None;
            },
            Some(tens) => match tens.checked_add(digit) {
                None => {
                    return None;
                },
                Some(sum) => {
                    value = sum;
                },
            },
        }
    }
    assert(d@.take(d.len() as int) =~= d@);
    Some(value)
}

} // verus!
