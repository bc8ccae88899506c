//! Human-readable sizes and speeds, such as `500M`, `1.5T` or `50K/s`.
use vstd::prelude::*;

use vstd::arithmetic::power2::{lemma_pow2_pos, pow2};

use crate::double::{law_whole_number_is_exact, saturated, scaled_double, scaled_size, ten_to};
use crate::number::{decimal, decimal_value, law_decimal_value};
use crate::text::{
    all_digits, ascii_digit, blank, drop_end_while, except, from_chars, is_ascii_digit, is_text,
    lemma_end_run, lemma_run, lower, lower_char, lower_chars, skip_while, slice_chars, take_while,
    to_chars, trim, trim_chars, white_space, CharClass,
};

verus! {

/// Why a text is no size.
#[derive(Debug, Clone, PartialEq, Eq)]
pub enum SizeError {
    /// There is no decimal number in front.
    InvalidNumber,
    /// The number is followed by this unit, which is not known.
    UnknownUnit(String),
    /// The size is less than one byte.
    Zero,
}

impl SizeError {
    /// What went wrong, in words.
    pub open spec fn spec_message(&self) -> Seq<char> {
        match self {
            SizeError::InvalidNumber => "Invalid number in size"@,
            SizeError::UnknownUnit(unit) => "Unknown unit '"@ + unit@
                + "' in size. Supported units: K, M, G, T (case insensitive)"@,
            SizeError::Zero => "Size cannot be zero"@,
        }
    }

    /// What went wrong, in words.
    pub fn message(&self) -> (r: String)
        ensures
            r@ == self.spec_message(),
    {
        match self {
            SizeError::InvalidNumber => "Invalid number in size".to_string(),
            SizeError::UnknownUnit(unit) => {
                let mut out: String = "Unknown unit '".to_string();
                out.append(unit.as_str());
                out.append("' in size. Supported units: K, M, G, T (case insensitive)");
                out
            },
            SizeError::Zero => "Size cannot be zero".to_string(),
        }
    }
}

// ---------------------------------------------------------------------------
// The parts of a size
// ---------------------------------------------------------------------------
/// Digits and the decimal point.
pub open spec fn number_chars() -> CharClass {
    |c: char| ascii_digit(c) || c == '.'
}

/// What may stand between the number and the letter of the unit.
pub open spec fn unit_filler() -> CharClass {
    |c: char| c == ' ' || c == 'b'
}

/// The input without white space around it, in lower case and without `/s`.
pub open spec fn cleaned(input: Seq<char>) -> Seq<char> {
    let s = lower(trim(input));
    if s.len() >= 2 && s[s.len() - 2] == '/' && s[s.len() - 1] == 's' {
        s.take(s.len() - 2)
    } else {
        s
    }
}

/// The number in front.
pub open spec fn number_text(input: Seq<char>) -> Seq<char> {
    take_while(cleaned(input), number_chars())
}

/// The unit behind the number.
pub open spec fn unit_text(input: Seq<char>) -> Seq<char> {
    skip_while(skip_while(cleaned(input), number_chars()), unit_filler())
}

/// The digits before the decimal point.
pub open spec fn whole_digits(number: Seq<char>) -> Seq<char> {
    take_while(number, except('.'))
}

/// What follows the first decimal point.
pub open spec fn fraction_digits(number: Seq<char>) -> Seq<char> {
    let rest = skip_while(number, except('.'));
    if rest.len() > 0 {
        rest.drop_first()
    } else {
        rest
    }
}

/// A decimal number: digits with at most one point among them, and at least one
/// digit.
pub open spec fn is_number(number: Seq<char>) -> bool {
    let whole = whole_digits(number);
    let fraction = fraction_digits(number);
    all_digits(whole) && all_digits(fraction) && whole.len() + fraction.len() > 0
}

/// The power of two that a unit multiplies by.
pub open spec fn unit_bits(unit: Seq<char>) -> Option<nat> {
    if unit == ""@ {
        Some(0)
    } else if unit == "k"@ || unit == "kb"@ {
        Some(10)
    } else if unit == "m"@ || unit == "mb"@ {
        Some(20)
    } else if unit == "g"@ || unit == "gb"@ {
        Some(30)
    } else if unit == "t"@ || unit == "tb"@ {
        Some(40)
    } else {
        None
    }
}

/// The bytes in `number` times two to the power `bits`: the number is read as a
/// double, and what is less than a byte is cut off.
pub open spec fn size_in_bytes(number: Seq<char>, bits: nat) -> u64 {
    let whole = whole_digits(number);
    let fraction = fraction_digits(number);
    saturated(scaled_double(decimal_value(whole + fraction), ten_to(fraction.len()), bits))
}

/// `r` is what `input` is as a size.
pub open spec fn reads_as_size(input: Seq<char>, r: Result<u64, SizeError>) -> bool {
    let number = number_text(input);
    let bits = unit_bits(unit_text(input));
    match r {
        Ok(bytes) => {
            &&& is_number(number)
            &&& bits is Some
            &&& bytes == size_in_bytes(number, bits->0)
            &&& bytes > 0
        },
        Err(SizeError::InvalidNumber) => !is_number(number),
        Err(SizeError::UnknownUnit(unit)) => {
            &&& is_number(number)
            &&& bits is None
            &&& unit@ == unit_text(input)
        },
        Err(SizeError::Zero) => {
            &&& is_number(number)
            &&& bits is Some
            &&& size_in_bytes(number, bits->0) == 0
        },
    }
}

/// The power of two that a unit multiplies by.
fn parse_unit(unit: &Vec<char>) -> (r: Option<u32>)
    ensures
        match r {
            Some(bits) => unit_bits(unit@) == Some(bits as nat) && bits <= 40,
            None => unit_bits(unit@) is None,
        },
{
    if is_text(unit, "") {
        Some(0)
    } else if is_text(unit, "k") || is_text(unit, "kb") {
        Some(10)
    } else if is_text(unit, "m") || is_text(unit, "mb") {
        Some(20)
    } else if is_text(unit, "g") || is_text(unit, "gb") {
        Some(30)
    } else if is_text(unit, "t") || is_text(unit, "tb") {
        Some(40)
    } else {
        None
    }
}

/// Whether every character of `v` is a digit.
fn is_all_digits(v: &Vec<char>) -> (r: bool)
    ensures
        r == all_digits(v@),
{
    for i in 0..v.len()
        invariant
            forall|j: int| 0 <= j < i ==> ascii_digit(#[trigger] v@[j]),
    {
        if !is_ascii_digit(v[i]) {
            return false;
        }
    }
    true
}

/// The parts of the input: digits before the point, what follows it, the unit.
fn split_size(input: &str) -> (r: (Vec<char>, Vec<char>, Vec<char>))
    ensures
        r.0@ == whole_digits(number_text(input@)),
        r.1@ == fraction_digits(number_text(input@)),
        r.2@ == unit_text(input@),
{
    let mut s: Vec<char> = lower_chars(&trim_chars(&to_chars(input)));
    if s.len() >= 2 && s[s.len() - 2] == '/' && s[s.len() - 1] == 's' {
        s = slice_chars(&s, 0, s.len() - 2);
    }
    proof {
        let t = lower(trim(input@));
        assert(t.len() >= 2 ==> t.take(t.len() - 2) =~= t.subrange(0, t.len() - 2));
    }
    assert(s@ == cleaned(input@));
    let mut n: usize = 0;
    while n < s.len() && (is_ascii_digit(s[n]) || s[n] == '.')
        invariant
            n <= s@.len(),
            forall|i: int| 0 <= i < n ==> number_chars()(#[trigger] s@[i]),
        decreases s@.len() - n,
    {
        n = n + 1;
    }
    proof {
        lemma_run(s@, number_chars(), n as int);
    }
    let number: Vec<char> = slice_chars(&s, 0, n);
    let rest: Vec<char> = slice_chars(&s, n, s.len());
    proof {
        assert(number@ =~= s@.take(n as int));
        assert(rest@ =~= s@.skip(n as int));
    }
    let mut u: usize = 0;
    while u < rest.len() && (rest[u] == ' ' || rest[u] == 'b')
        invariant
            u <= rest@.len(),
            forall|i: int| 0 <= i < u ==> unit_filler()(#[trigger] rest@[i]),
        decreases rest@.len() - u,
    {
        u = u + 1;
    }
    proof {
        lemma_run(rest@, unit_filler(), u as int);
        assert(rest@.skip(u as int) =~= rest@.subrange(u as int, rest@.len() as int));
    }
    let unit: Vec<char> = slice_chars(&rest, u, rest.len());
    let mut p: usize = 0;
    while p < number.len() && number[p] != '.'
        invariant
            p <= number@.len(),
            forall|i: int| 0 <= i < p ==> except('.')(#[trigger] number@[i]),
        decreases number@.len() - p,
    {
        p = p + 1;
    }
    proof {
        lemma_run(number@, except('.'), p as int);
        assert(number@.take(p as int) =~= number@.subrange(0, p as int));
    }
    let whole: Vec<char> = slice_chars(&number, 0, p);
    let from: usize = if p < number.len() {
        p + 1
    } else {
        p
    };
    let fraction: Vec<char> = slice_chars(&number, from, number.len());
    assert(fraction@ =~= fraction_digits(number@));
    (whole, fraction, unit)
}

/// Reads a byte size such as `500M`, `2T`, `100G` or `1.5T`; the result is in
/// bytes.
///
/// Units are powers of 1024, in either case, with or without a `B`; a `/s`
/// behind the unit is ignored.
pub fn parse_human_size(input: &str) -> (r: Result<u64, SizeError>)
    ensures
        reads_as_size(input@, r),
{
    let (whole, fraction, unit) = split_size(input);
    if !is_all_digits(&whole) || !is_all_digits(&fraction) || (whole.len() == 0 && fraction.len()
        == 0) {
        return Err(SizeError::InvalidNumber);
    }
    match parse_unit(&unit) {
        None => Err(SizeError::UnknownUnit(from_chars(&unit))),
        Some(bits) => {
            let bytes: u64 = scaled_size(&whole, &fraction, bits);
            if bytes == 0 {
                Err(SizeError::Zero)
            } else {
                Ok(bytes)
            }
        },
    }
}

/// Reads a speed such as `50M`, `2G`, `500K` or `1.5M/s`; the result is in bytes
/// per second.
pub fn parse_speed(input: &str) -> (r: Result<u64, SizeError>)
    ensures
        reads_as_size(input@, r),
{
    parse_human_size(input)
}

// ---------------------------------------------------------------------------
// Laws of sizes
// ---------------------------------------------------------------------------
proof fn lemma_lower_keeps_blanks(c: char)
    ensures
        white_space(lower_char(c)) == white_space(c),
        lower_char(lower_char(c)) == lower_char(c),
{
}

proof fn lemma_lower_skip(s: Seq<char>)
    ensures
        skip_while(lower(s), blank()) == lower(skip_while(s, blank())),
    decreases s.len(),
{
    if s.len() > 0 {
        lemma_lower_keeps_blanks(s[0]);
        assert(lower(s).drop_first() =~= lower(s.drop_first()));
        lemma_lower_skip(s.drop_first());
    }
}

proof fn lemma_lower_drop_end(s: Seq<char>)
    ensures
        drop_end_while(lower(s), blank()) == lower(drop_end_while(s, blank())),
    decreases s.len(),
{
    if s.len() > 0 {
        lemma_lower_keeps_blanks(s.last());
        assert(lower(s).drop_last() =~= lower(s.drop_last()));
        lemma_lower_drop_end(s.drop_last());
    }
}

/// Upper and lower case of a size mean the same.
pub proof fn law_size_ignores_case(input: Seq<char>)
    ensures
        number_text(lower(input)) == number_text(input),
        unit_text(lower(input)) == unit_text(input),
{
    lemma_lower_skip(input);
    lemma_lower_drop_end(skip_while(input, blank()));
    let t = trim(input);
    assert(lower(lower(t)) =~= lower(t)) by {
        assert forall|i: int| 0 <= i < t.len() implies #[trigger] lower(lower(t))[i] == lower(
            t,
        )[i] by {
            lemma_lower_keeps_blanks(t[i]);
        }
    }
}

/// A text that neither begins nor ends with white space has nothing to trim.
proof fn lemma_nothing_to_trim(s: Seq<char>)
    requires
        s.len() > 0,
        !white_space(s[0]),
        !white_space(s.last()),
    ensures
        trim(s) == s,
{
    lemma_run(s, blank(), 0);
    lemma_end_run(s, blank(), s.len() as int);
    assert(s.skip(0) =~= s);
    assert(s.take(s.len() as int) =~= s);
}

/// White space in front of a text that holds more than that is skipped whatever
/// follows the text.
proof fn lemma_skip_in_front(a: Seq<char>, b: Seq<char>)
    requires
        a.len() > 0,
        !white_space(a.last()),
    ensures
        skip_while(a + b, blank()) == skip_while(a, blank()) + b,
        skip_while(a, blank()).len() > 0,
        skip_while(a, blank()).last() == a.last(),
        !white_space(skip_while(a, blank())[0]),
    decreases a.len(),
{
    assert((a + b)[0] == a[0]);
    if white_space(a[0]) {
        assert((a + b).drop_first() =~= a.drop_first() + b);
        assert(a.drop_first().last() == a.last());
        lemma_skip_in_front(a.drop_first(), b);
    }
}

/// A `/s` directly behind a size is ignored.
pub proof fn law_per_second_is_ignored(input: Seq<char>)
    requires
        input.len() > 0 ==> !white_space(input.last()),
        cleaned(input) == lower(trim(input)),
    ensures
        number_text(input + "/s"@) == number_text(input),
        unit_text(input + "/s"@) == unit_text(input),
{
    reveal_strlit("/s");
    let s = input + "/s"@;
    if input.len() > 0 {
        lemma_skip_in_front(input, "/s"@);
        let core = skip_while(input, blank());
        lemma_nothing_to_trim(core);
        lemma_nothing_to_trim(core + "/s"@);
        lemma_run(core, blank(), 0);
        lemma_run(core + "/s"@, blank(), 0);
        assert(core.skip(0) =~= core);
        assert((core + "/s"@).skip(0) =~= core + "/s"@);
        assert(lower(core + "/s"@).take(core.len() as int) =~= lower(core));
    } else {
        assert(s =~= "/s"@);
        lemma_nothing_to_trim(s);
        assert(lower(s).take(0) =~= lower(input));
        assert(trim(input) =~= input);
    }
}

/// A whole number of units, of at most 53 bits, is that number times a power of
/// 1024, or the largest 64-bit number where it is larger.
pub proof fn law_whole_number_of_units(n: nat, unit: Seq<char>, bits: nat)
    requires
        0 < n <= pow2(53),
        unit_bits(lower(unit)) == Some(bits),
    ensures
        reads_as_size(
            decimal(n) + unit,
            Ok::<u64, SizeError>(saturated(n * pow2(bits))),
        ),
{
    reveal_strlit("");
    reveal_strlit("k");
    reveal_strlit("m");
    reveal_strlit("g");
    reveal_strlit("t");
    reveal_strlit("kb");
    reveal_strlit("mb");
    reveal_strlit("gb");
    reveal_strlit("tb");
    let d = decimal(n);
    let s = d + unit;
    let u = lower(unit);
    law_decimal_value(n);
    assert(u.len() == unit.len());
    assert(unit.len() > 0 ==> u[0] == 'k' || u[0] == 'm' || u[0] == 'g' || u[0] == 't');
    assert(unit.len() > 0 ==> u.last() == u[0] || u.last() == 'b');
    assert(ascii_digit(d[0]));
    assert(ascii_digit(d[d.len() - 1]));
    if unit.len() > 0 {
        lemma_lower_keeps_blanks(unit.last());
        assert(u.last() == lower_char(unit.last()));
        assert(s.last() == unit.last());
    } else {
        assert(s =~= d);
    }
    lemma_nothing_to_trim(s);
    assert(lower(s) =~= d + u) by {
        assert forall|i: int| 0 <= i < d.len() implies lower_char(#[trigger] d[i]) == d[i] by {
            assert(ascii_digit(d[i]));
        }
    }
    let c = cleaned(s);
    assert(c == d + u);
    assert forall|i: int| 0 <= i < d.len() implies number_chars()(#[trigger] c[i]) by {
        assert(c[i] == d[i]);
        assert(ascii_digit(d[i]));
    }
    lemma_run(c, number_chars(), d.len() as int);
    assert(c.take(d.len() as int) =~= d);
    assert(c.skip(d.len() as int) =~= u);
    lemma_run(u, unit_filler(), 0);
    assert(u.skip(0) =~= u);
    assert forall|i: int| 0 <= i < d.len() implies except('.')(#[trigger] d[i]) by {
        assert(ascii_digit(d[i]));
    }
    lemma_run(d, except('.'), d.len() as int);
    assert(d.take(d.len() as int) =~= d);
    assert(d.skip(d.len() as int) =~= Seq::<char>::empty());
    assert(whole_digits(d) + fraction_digits(d) =~= d);
    assert(ten_to(0) == 1);
    let i = n * pow2(bits);
    law_whole_number_is_exact(n, bits);
    lemma_pow2_pos(bits);
    assert(i > 0) by (nonlinear_arith)
        requires
            i == n * pow2(bits),
            n > 0,
            pow2(bits) > 0,
    ;
}

} // verus!
