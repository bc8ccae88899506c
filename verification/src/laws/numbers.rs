//! Numbers as text.
use vstd::prelude::*;

use crate::number::{decimal, decimal_value, law_decimal_value, read_u64, zero_padded};
use crate::text::{all_digits, ascii_digit};

verus! {

/// Whether the text holds the digits `0` to `9` alone.
pub open spec fn digits_alone(s: Seq<char>) -> bool {
    forall|i: int| 0 <= i < s.len() ==> '0' <= #[trigger] s[i] <= '9'
}

/// Digits are read in base ten, the last one counting least.
pub proof fn law_digits_count_by_ten(s: Seq<char>, c: char)
    ensures
        decimal_value(Seq::empty()) == 0,
        '0' <= c <= '9' ==> decimal_value(s.push(c)) == 10 * decimal_value(s) + (c as int
            - '0' as int),
{
    assert(s.push(c).drop_last() =~= s);
}

/// A number is written with digits alone, without a zero in front that does not
/// count, and reads as the number.
pub proof fn law_numbers_are_written_shortest(n: nat)
    ensures
        decimal(n).len() > 0,
        digits_alone(decimal(n)),
        decimal_value(decimal(n)) == n,
        decimal(n)[0] == '0' ==> n == 0 && decimal(n).len() == 1,
    decreases n,
{
    law_decimal_value(n);
    assert forall|i: int| 0 <= i < decimal(n).len() implies '0' <= #[trigger] decimal(n)[i]
        <= '9' by {
        assert(ascii_digit(decimal(n)[i]));
    }
    if n >= 10 {
        law_numbers_are_written_shortest(n / 10);
        law_decimal_value(n / 10);
        assert(decimal(n)[0] == decimal(n / 10)[0]);
    }
}

/// A padded number is the number behind as many zeros as it lacks of the width.
pub proof fn law_padding_is_zeros(n: nat, width: nat)
    ensures
        ({
            let p = zero_padded(n, width);
            let d = decimal(n);
            &&& p.len() == if d.len() < width {
                width
            } else {
                d.len()
            }
            &&& p.skip(p.len() - d.len()) == d
            &&& forall|i: int| 0 <= i < p.len() - d.len() ==> #[trigger] p[i] == '0'
            &&& digits_alone(p)
        }),
{
    let p = zero_padded(n, width);
    let d = decimal(n);
    law_numbers_are_written_shortest(n);
    assert(p.skip(p.len() - d.len()) =~= d);
    assert forall|i: int| 0 <= i < p.len() implies '0' <= #[trigger] p[i] <= '9' by {
        if i >= p.len() - d.len() {
            assert(p[i] == d[i - (p.len() - d.len())]);
        }
    }
}

/// A text is a number if and only if it holds digits alone, at least one, with or
/// without a plus sign in front, and the number has 64 bits; then it is that number.
pub proof fn law_which_texts_are_numbers(s: Seq<char>)
    ensures
        ({
            let d = if s.len() > 0 && s[0] == '+' {
                s.skip(1)
            } else {
                s
            };
            read_u64(s) == if d.len() > 0 && digits_alone(d) && decimal_value(d) <= u64::MAX {
                Some(decimal_value(d) as u64)
            } else {
                None
            }
        }),
{
    let d = if s.len() > 0 && s[0] == '+' {
        s.skip(1)
    } else {
        s
    };
    assert(s.len() > 0 ==> s.skip(1) =~= s.drop_first());
    if all_digits(d) {
        assert forall|i: int| 0 <= i < d.len() implies '0' <= #[trigger] d[i] <= '9' by {
            assert(ascii_digit(d[i]));
        }
    }
}

} // verus!
