//! Character sequences: classes of characters, trimming, searching and lines.
//!
//! A `str` is viewed as the sequence of its characters. The executable
//! functions work on `Vec<char>`, which a `str` is unpacked into once.
use vstd::prelude::*;

verus! {

/// `String::push` of std appends the given character to the string.
pub assume_specification[ String::push ](s: &mut String, c: char)
    ensures
        final(s)@ == old(s)@.push(c),
;

// ---------------------------------------------------------------------------
// Character classes
// ---------------------------------------------------------------------------
/// The characters with the Unicode property `White_Space`.
pub open spec fn white_space(c: char) -> bool {
    ||| '\u{9}' <= c <= '\u{d}'
    ||| c == ' '
    ||| c == '\u{85}'
    ||| c == '\u{a0}'
    ||| c == '\u{1680}'
    ||| '\u{2000}' <= c <= '\u{200a}'
    ||| c == '\u{2028}'
    ||| c == '\u{2029}'
    ||| c == '\u{202f}'
    ||| c == '\u{205f}'
    ||| c == '\u{3000}'
}

/// `0` to `9`.
pub open spec fn ascii_digit(c: char) -> bool {
    '0' <= c <= '9'
}

/// `0` to `9`, `a` to `f` and `A` to `F`.
pub open spec fn hex_digit(c: char) -> bool {
    ascii_digit(c) || 'a' <= c <= 'f' || 'A' <= c <= 'F'
}

/// `A` to `Z` become `a` to `z`; every other character stays.
pub open spec fn lower_char(c: char) -> char {
    if 'A' <= c <= 'Z' {
        ((c as u32) + 32) as char
    } else {
        c
    }
}

/// Every character of `s` in ASCII lower case.
pub open spec fn lower(s: Seq<char>) -> Seq<char> {
    Seq::new(s.len(), |i: int| lower_char(s[i]))
}

/// Whether every character of `s` is a hexadecimal digit.
pub open spec fn all_hex(s: Seq<char>) -> bool {
    forall|i: int| 0 <= i < s.len() ==> hex_digit(#[trigger] s[i])
}

/// Whether every character of `s` is an ASCII digit.
pub open spec fn all_digits(s: Seq<char>) -> bool {
    forall|i: int| 0 <= i < s.len() ==> ascii_digit(#[trigger] s[i])
}

pub fn is_white_space(c: char) -> (r: bool)
    ensures
        r == white_space(c),
{
    (c >= '\u{9}' && c <= '\u{d}') || c == ' ' || c == '\u{85}' || c == '\u{a0}' || c == '\u{1680}'
        || (c >= '\u{2000}' && c <= '\u{200a}') || c == '\u{2028}' || c == '\u{2029}' || c
        == '\u{202f}' || c == '\u{205f}' || c == '\u{3000}'
}

pub fn is_ascii_digit(c: char) -> (r: bool)
    ensures
        r == ascii_digit(c),
{
    c >= '0' && c <= '9'
}

pub fn is_hex_digit(c: char) -> (r: bool)
    ensures
        r == hex_digit(c),
{
    is_ascii_digit(c) || (c >= 'a' && c <= 'f') || (c >= 'A' && c <= 'F')
}

pub fn to_lower_char(c: char) -> (r: char)
    ensures
        r == lower_char(c),
{
    if c >= 'A' && c <= 'Z' {
        ((c as u8) + 32u8) as char
    } else {
        c
    }
}

// ---------------------------------------------------------------------------
// Runs of characters
// ---------------------------------------------------------------------------
/// A set of characters.
pub type CharClass = spec_fn(char) -> bool;

/// The class of white space.
pub open spec fn blank() -> CharClass {
    |c: char| white_space(c)
}

/// The class of everything that is no white space.
pub open spec fn not_blank() -> CharClass {
    |c: char| !white_space(c)
}

/// The class that holds `x` alone.
pub open spec fn only(x: char) -> CharClass {
    |c: char| c == x
}

/// The class that holds everything but `x`.
pub open spec fn except(x: char) -> CharClass {
    |c: char| c != x
}

/// `s` without the longest prefix of characters in `p`.
pub open spec fn skip_while(s: Seq<char>, p: CharClass) -> Seq<char>
    decreases s.len(),
{
    if s.len() > 0 && p(s[0]) {
        skip_while(s.drop_first(), p)
    } else {
        s
    }
}

/// The longest prefix of `s` of characters in `p`.
pub open spec fn take_while(s: Seq<char>, p: CharClass) -> Seq<char>
    decreases s.len(),
{
    if s.len() > 0 && p(s[0]) {
        seq![s[0]] + take_while(s.drop_first(), p)
    } else {
        Seq::empty()
    }
}

/// `s` without the longest suffix of characters in `p`.
pub open spec fn drop_end_while(s: Seq<char>, p: CharClass) -> Seq<char>
    decreases s.len(),
{
    if s.len() > 0 && p(s.last()) {
        drop_end_while(s.drop_last(), p)
    } else {
        s
    }
}

/// `s` without leading and trailing white space.
pub open spec fn trim(s: Seq<char>) -> Seq<char> {
    drop_end_while(skip_while(s, blank()), blank())
}

/// The characters of `s` that are in `p`, in order.
pub open spec fn keep(s: Seq<char>, p: CharClass) -> Seq<char>
    decreases s.len(),
{
    if s.len() == 0 {
        Seq::empty()
    } else if p(s.last()) {
        keep(s.drop_last(), p).push(s.last())
    } else {
        keep(s.drop_last(), p)
    }
}

/// The class of hexadecimal digits.
pub open spec fn hex_digits() -> CharClass {
    |c: char| hex_digit(c)
}

/// `n` is the length of the longest prefix of `s` of characters in `p`.
pub open spec fn run_length(s: Seq<char>, p: CharClass, n: int) -> bool {
    &&& 0 <= n <= s.len()
    &&& forall|i: int| 0 <= i < n ==> p(#[trigger] s[i])
    &&& n < s.len() ==> !p(s[n])
}

pub proof fn lemma_run(s: Seq<char>, p: CharClass, n: int)
    requires
        run_length(s, p, n),
    ensures
        skip_while(s, p) == s.skip(n),
        take_while(s, p) == s.take(n),
    decreases s.len(),
{
    if s.len() > 0 && p(s[0]) {
        let t = s.drop_first();
        assert forall|i: int| 0 <= i < n - 1 implies p(#[trigger] t[i]) by {
            assert(t[i] == s[i + 1]);
        }
        if n - 1 < t.len() {
            assert(t[n - 1] == s[n]);
        }
        lemma_run(t, p, n - 1);
        assert(t.skip(n - 1) =~= s.skip(n));
        assert(seq![s[0]] + t.take(n - 1) =~= s.take(n));
    } else {
        assert(s.skip(0) =~= s);
        assert(s.take(0) =~= Seq::empty());
    }
}

pub proof fn lemma_end_run(s: Seq<char>, p: CharClass, n: int)
    requires
        0 <= n <= s.len(),
        forall|i: int| n <= i < s.len() ==> p(#[trigger] s[i]),
        n > 0 ==> !p(s[n - 1]),
    ensures
        drop_end_while(s, p) == s.take(n),
    decreases s.len(),
{
    if s.len() > 0 && p(s.last()) {
        let t = s.drop_last();
        assert forall|i: int| n <= i < t.len() implies p(#[trigger] t[i]) by {
            assert(t[i] == s[i]);
        }
        if n > 0 {
            assert(t[n - 1] == s[n - 1]);
        }
        lemma_end_run(t, p, n);
        assert(t.take(n) =~= s.take(n));
    } else {
        assert(n == s.len()) by {
            if n < s.len() {
                assert(p(s[s.len() - 1]));
            }
        }
        assert(s.take(n) =~= s);
    }
}

// ---------------------------------------------------------------------------
// Occurrences
// ---------------------------------------------------------------------------
/// `pat` stands in `s` at position `i`.
pub open spec fn occurs_at(s: Seq<char>, pat: Seq<char>, i: int) -> bool {
    0 <= i && i + pat.len() <= s.len() && s.subrange(i, i + pat.len()) == pat
}

/// The first position at or after `from` at which `pat` stands in `s`.
pub open spec fn find_from(s: Seq<char>, pat: Seq<char>, from: int) -> Option<int>
    decreases s.len() - from + 1,
{
    if from < 0 || from + pat.len() > s.len() {
        None
    } else if occurs_at(s, pat, from) {
        Some(from)
    } else {
        find_from(s, pat, from + 1)
    }
}

/// The first position at which `pat` stands in `s`.
pub open spec fn find(s: Seq<char>, pat: Seq<char>) -> Option<int> {
    find_from(s, pat, 0)
}

pub proof fn lemma_find_from(s: Seq<char>, pat: Seq<char>, from: int)
    requires
        0 <= from,
    ensures
        match find_from(s, pat, from) {
            Some(i) => from <= i && occurs_at(s, pat, i) && forall|j: int|
                from <= j < i ==> !#[trigger] occurs_at(s, pat, j),
            None => forall|j: int| from <= j ==> !#[trigger] occurs_at(s, pat, j),
        },
    decreases s.len() - from + 1,
{
    if from + pat.len() > s.len() {
    } else if occurs_at(s, pat, from) {
    } else {
        lemma_find_from(s, pat, from + 1);
    }
}

// ---------------------------------------------------------------------------
// Executable building blocks
// ---------------------------------------------------------------------------
/// The characters of `s`.
pub fn to_chars(s: &str) -> (r: Vec<char>)
    ensures
        r@ == s@,
{
    let mut out: Vec<char> = Vec::new();
    for c in it: s.chars()
        invariant
            out@ == s@.take(it.index()),
            it.seq() == s@,
    {
        out.push(c);
    }
    out
}

/// The string of the given characters.
pub fn from_chars(v: &Vec<char>) -> (r: String)
    ensures
        r@ == v@,
{
    let mut out: String = String::new();
    for i in 0..v.len()
        invariant
            out@ == v@.take(i as int),
    {
        out.push(v[i]);
    }
    assert(v@.take(v.len() as int) =~= v@);
    out
}

/// The characters of `v` from `from` up to, and without, `to`.
pub fn slice_chars(v: &Vec<char>, from: usize, to: usize) -> (r: Vec<char>)
    requires
        from <= to <= v@.len(),
    ensures
        r@ == v@.subrange(from as int, to as int),
{
    let mut out: Vec<char> = Vec::new();
    for i in from..to
        invariant
            to <= v@.len(),
            from <= i,
            out@ == v@.subrange(from as int, i as int),
    {
        out.push(v[i]);
    }
    out
}

/// Appends the characters of `more`.
pub fn append_chars(v: &mut Vec<char>, more: &Vec<char>)
    ensures
        final(v)@ == old(v)@ + more@,
{
    for i in 0..more.len()
        invariant
            v@ == old(v)@ + more@.take(i as int),
    {
        v.push(more[i]);
        assert(v@ =~= old(v)@ + more@.take(i + 1));
    }
    assert(more@.take(more.len() as int) =~= more@);
}

/// Whether the two sequences are the same.
pub fn same_chars(a: &Vec<char>, b: &Vec<char>) -> (r: bool)
    ensures
        r == (a@ == b@),
{
    if a.len() != b.len() {
        return false;
    }
    for i in 0..a.len()
        invariant
            a@.len() == b@.len(),
            forall|j: int| 0 <= j < i ==> a@[j] == b@[j],
    {
        if a[i] != b[i] {
            return false;
        }
    }
    assert(a@ =~= b@);
    true
}

/// Whether the two strings are the same.
pub fn same_text(a: &str, b: &str) -> (r: bool)
    ensures
        r == (a@ == b@),
{
    same_chars(&to_chars(a), &to_chars(b))
}

/// Whether `v` consists of the characters of `s`.
pub fn is_text(v: &Vec<char>, s: &str) -> (r: bool)
    ensures
        r == (v@ == s@),
{
    same_chars(v, &to_chars(s))
}

/// Whether `pat` stands in `v` at position `i`.
pub fn stands_at(v: &Vec<char>, pat: &Vec<char>, i: usize) -> (r: bool)
    ensures
        r == occurs_at(v@, pat@, i as int),
{
    if pat.len() > v.len() || i > v.len() - pat.len() {
        return false;
    }
    for k in 0..pat.len()
        invariant
            i + pat.len() <= v.len(),
            forall|j: int| 0 <= j < k ==> v@[i + j] == pat@[j],
    {
        if v[i + k] != pat[k] {
            assert(v@.subrange(i as int, i + pat@.len())[k as int] != pat@[k as int]);
            return false;
        }
    }
    assert(v@.subrange(i as int, i + pat@.len()) =~= pat@);
    true
}

/// The first position at or after `from` at which `pat` stands in `v`.
pub fn find_chars_from(v: &Vec<char>, pat: &Vec<char>, from: usize) -> (r: Option<usize>)
    ensures
        match r {
            Some(i) => find_from(v@, pat@, from as int) == Some(i as int),
            None => find_from(v@, pat@, from as int) is None,
        },
{
    if pat.len() > v.len() || from > v.len() - pat.len() {
        return None;
    }
    let last: usize = v.len() - pat.len();
    let mut i: usize = from;
    while i <= last
        invariant
            i <= last + 1,
            last == v@.len() - pat@.len(),
            find_from(v@, pat@, from as int) == find_from(v@, pat@, i as int),
        decreases last + 1 - i,
    {
        if stands_at(v, pat, i) {
            return Some(i);
        }
        if i == last {
            proof {
                reveal_with_fuel(find_from, 2);
            }
            return None;
        }
        i = i + 1;
    }
    None
}

/// The first position at which `pat` stands in `v`.
pub fn find_chars(v: &Vec<char>, pat: &Vec<char>) -> (r: Option<usize>)
    ensures
        match r {
            Some(i) => find(v@, pat@) == Some(i as int),
            None => find(v@, pat@) is None,
        },
{
    find_chars_from(v, pat, 0)
}

/// Whether `pat` stands anywhere in `v`.
pub fn contains_text(v: &Vec<char>, pat: &str) -> (r: bool)
    ensures
        r == (find(v@, pat@) is Some),
{
    find_chars(v, &to_chars(pat)).is_some()
}

/// The characters of `v` without leading and trailing white space.
pub fn trim_chars(v: &Vec<char>) -> (r: Vec<char>)
    ensures
        r@ == trim(v@),
{
    let mut a: usize = 0;
    while a < v.len() && is_white_space(v[a])
        invariant
            a <= v@.len(),
            forall|i: int| 0 <= i < a ==> white_space(#[trigger] v@[i]),
        decreases v@.len() - a,
    {
        a = a + 1;
    }
    let mut b: usize = v.len();
    while b > a && is_white_space(v[b - 1])
        invariant
            a <= b <= v@.len(),
            forall|i: int| b <= i < v@.len() ==> white_space(#[trigger] v@[i]),
        decreases b,
    {
        b = b - 1;
    }
    proof {
        lemma_run(v@, blank(), a as int);
        let t = v@.skip(a as int);
        let n = b - a;
        assert forall|i: int| n <= i < t.len() implies blank()(#[trigger] t[i]) by {
            assert(t[i] == v@[a + i]);
        }
        if n > 0 {
            assert(t[n - 1] == v@[b - 1]);
        }
        lemma_end_run(t, blank(), n);
        assert(t.take(n) =~= v@.subrange(a as int, b as int));
    }
    slice_chars(v, a, b)
}

/// The characters of `v` in ASCII lower case.
pub fn lower_chars(v: &Vec<char>) -> (r: Vec<char>)
    ensures
        r@ == lower(v@),
{
    let mut out: Vec<char> = Vec::new();
    for i in 0..v.len()
        invariant
            out@ == lower(v@).take(i as int),
    {
        out.push(to_lower_char(v[i]));
        assert(out@ =~= lower(v@).take(i + 1));
    }
    assert(lower(v@).take(v.len() as int) =~= lower(v@));
    out
}

/// Whether every character of `v` is a hexadecimal digit.
pub fn is_all_hex(v: &Vec<char>) -> (r: bool)
    ensures
        r == all_hex(v@),
{
    for i in 0..v.len()
        invariant
            forall|j: int| 0 <= j < i ==> hex_digit(#[trigger] v@[j]),
    {
        if !is_hex_digit(v[i]) {
            return false;
        }
    }
    true
}

/// The hexadecimal digits of `v`, in order.
pub fn keep_hex(v: &Vec<char>) -> (r: Vec<char>)
    ensures
        r@ == keep(v@, hex_digits()),
{
    let mut out: Vec<char> = Vec::new();
    for i in 0..v.len()
        invariant
            out@ == keep(v@.take(i as int), hex_digits()),
    {
        proof {
            assert(v@.take(i + 1).drop_last() =~= v@.take(i as int));
            assert(v@.take(i + 1).last() == v@[i as int]);
        }
        if is_hex_digit(v[i]) {
            out.push(v[i]);
        }
    }
    assert(v@.take(v.len() as int) =~= v@);
    out
}

/// The characters of `v` before the first white space.
pub fn first_token(v: &Vec<char>) -> (r: Vec<char>)
    ensures
        r@ == take_while(v@, not_blank()),
{
    let mut n: usize = 0;
    while n < v.len() && !is_white_space(v[n])
        invariant
            n <= v@.len(),
            forall|i: int| 0 <= i < n ==> !white_space(#[trigger] v@[i]),
        decreases v@.len() - n,
    {
        n = n + 1;
    }
    proof {
        lemma_run(v@, not_blank(), n as int);
        assert(v@.take(n as int) =~= v@.subrange(0, n as int));
    }
    slice_chars(v, 0, n)
}

/// The characters of `v` before the first `x`.
pub fn before_char(v: &Vec<char>, x: char) -> (r: Vec<char>)
    ensures
        r@ == take_while(v@, except(x)),
{
    let mut n: usize = 0;
    while n < v.len() && v[n] != x
        invariant
            n <= v@.len(),
            forall|i: int| 0 <= i < n ==> #[trigger] v@[i] != x,
        decreases v@.len() - n,
    {
        n = n + 1;
    }
    proof {
        lemma_run(v@, except(x), n as int);
        assert(v@.take(n as int) =~= v@.subrange(0, n as int));
    }
    slice_chars(v, 0, n)
}

/// The characters of `v` after every leading `x`.
pub fn skip_char(v: &Vec<char>, x: char) -> (r: Vec<char>)
    ensures
        r@ == skip_while(v@, only(x)),
{
    let mut n: usize = 0;
    while n < v.len() && v[n] == x
        invariant
            n <= v@.len(),
            forall|i: int| 0 <= i < n ==> #[trigger] v@[i] == x,
        decreases v@.len() - n,
    {
        n = n + 1;
    }
    proof {
        lemma_run(v@, only(x), n as int);
        assert(v@.skip(n as int) =~= v@.subrange(n as int, v@.len() as int));
    }
    slice_chars(v, n, v.len())
}

/// The characters of `v` before every trailing `x`.
pub fn drop_end_char(v: &Vec<char>, x: char) -> (r: Vec<char>)
    ensures
        r@ == drop_end_while(v@, only(x)),
{
    let mut n: usize = v.len();
    while n > 0 && v[n - 1] == x
        invariant
            n <= v@.len(),
            forall|i: int| n <= i < v@.len() ==> #[trigger] v@[i] == x,
        decreases n,
    {
        n = n - 1;
    }
    proof {
        lemma_end_run(v@, only(x), n as int);
        assert(v@.take(n as int) =~= v@.subrange(0, n as int));
    }
    slice_chars(v, 0, n)
}

// ---------------------------------------------------------------------------
// Lines
// ---------------------------------------------------------------------------
/// A line without the carriage return at its end.
pub open spec fn chomp(line: Seq<char>) -> Seq<char> {
    if line.len() > 0 && line.last() == '\r' {
        line.drop_last()
    } else {
        line
    }
}

/// The lines of `s` from position `start` on, where no line ends before `i`.
pub open spec fn lines_from(s: Seq<char>, start: int, i: int) -> Seq<Seq<char>>
    decreases s.len() - i,
{
    if i >= s.len() {
        if start < s.len() {
            seq![s.subrange(start, s.len() as int)]
        } else {
            Seq::empty()
        }
    } else if s[i] == '\n' {
        seq![chomp(s.subrange(start, i))] + lines_from(s, i + 1, i + 1)
    } else {
        lines_from(s, start, i + 1)
    }
}

/// The lines of `s`. Each ends at a line feed, or at a carriage return and a line
/// feed, which are not part of it; the last one may end with the text.
pub open spec fn lines(s: Seq<char>) -> Seq<Seq<char>> {
    lines_from(s, 0, 0)
}

/// The characters of a string that may be missing.
pub open spec fn text_of(o: Option<String>) -> Option<Seq<char>> {
    match o {
        Some(s) => Some(s@),
        None => None,
    }
}

/// The characters of a text that may be missing.
pub open spec fn str_of(o: Option<&str>) -> Option<Seq<char>> {
    match o {
        Some(s) => Some(s@),
        None => None,
    }
}

/// The character sequences of a list.
pub open spec fn chars_of(list: Seq<Vec<char>>) -> Seq<Seq<char>> {
    Seq::new(list.len(), |i: int| list[i]@)
}

/// The lines of `v`.
pub fn split_lines(v: &Vec<char>) -> (r: Vec<Vec<char>>)
    ensures
        chars_of(r@) == lines(v@),
{
    let mut out: Vec<Vec<char>> = Vec::new();
    let mut start: usize = 0;
    let mut i: usize = 0;
    assert(chars_of(out@) + lines_from(v@, 0, 0) =~= lines(v@));
    while i < v.len()
        invariant
            start <= i <= v@.len(),
            chars_of(out@) + lines_from(v@, start as int, i as int) == lines(v@),
        decreases v@.len() - i,
    {
        if v[i] == '\n' {
            let end: usize = if i > start && v[i - 1] == '\r' {
                i - 1
            } else {
                i
            };
            let ghost before = out@;
            let line: Vec<char> = slice_chars(v, start, end);
            assert(line@ =~= chomp(v@.subrange(start as int, i as int)));
            out.push(line);
            assert(chars_of(out@) =~= chars_of(before) + seq![line@]);
            assert(chars_of(out@) + lines_from(v@, i + 1, i + 1) =~= chars_of(before) + (seq![
                line@,
            ] + lines_from(v@, i + 1, i + 1)));
            start = i + 1;
        }
        i = i + 1;
    }
    if start < v.len() {
        let ghost before = out@;
        let line: Vec<char> = slice_chars(v, start, v.len());
        out.push(line);
        assert(chars_of(out@) =~= chars_of(before) + seq![line@]);
    }
    assert(chars_of(out@) =~= lines(v@));
    out
}

} // verus!
