//! Expansion of number ranges in a URL, such as
//! `model-{001..040}-of-00040.safetensors`.
use vstd::prelude::*;

use crate::number::{
    decimal, law_padded_reads_back, padded_chars, parse_u64, read_u64, zero_padded,
};
use crate::text::{
    all_digits, append_chars, ascii_digit, chars_of, find_chars_from, find_from, from_chars,
    lemma_find_from, occurs_at, slice_chars, to_chars, CharClass,
};

verus! {

/// The pattern of a range: two numbers with two dots between them, in braces.
pub const RANGE_PATTERN: &'static str = "\\{(\\d+)\\.\\.(\\d+)\\}";

// ---------------------------------------------------------------------------
// Ranges in a text
// ---------------------------------------------------------------------------
/// A range in a text: where it begins, where it has ended, and its two numbers.
pub struct RangeMatch {
    pub start: int,
    pub end: int,
    pub first: Seq<char>,
    pub last: Seq<char>,
}

/// The position after the characters of `digit` that stand in `s` from `i` on.
pub open spec fn digits_end(s: Seq<char>, i: int, digit: CharClass) -> int
    decreases s.len() - i,
{
    if 0 <= i < s.len() && digit(s[i]) {
        digits_end(s, i + 1, digit)
    } else {
        i
    }
}

/// The range that begins in `s` at position `i`.
pub open spec fn range_at(s: Seq<char>, i: int, digit: CharClass) -> Option<RangeMatch> {
    let a = digits_end(s, i + 1, digit);
    let b = digits_end(s, a + 2, digit);
    if 0 <= i && s[i] == '{' && i + 1 < a && s[a] == '.' && s[a + 1] == '.' && a + 2 < b && b
        < s.len() && s[b] == '}' {
        Some(
            RangeMatch {
                start: i,
                end: b + 1,
                first: s.subrange(i + 1, a),
                last: s.subrange(a + 2, b),
            },
        )
    } else {
        None
    }
}

/// The ranges in `s` from position `i` on, from left to right.
pub open spec fn ranges_from(s: Seq<char>, i: int, digit: CharClass) -> Seq<RangeMatch>
    decreases s.len() - i,
{
    if i < 0 || i >= s.len() {
        Seq::empty()
    } else {
        match range_at(s, i, digit) {
            Some(m) => seq![m] + ranges_from(s, m.end, digit),
            None => ranges_from(s, i + 1, digit),
        }
    }
}

/// A range as text: all of it, and its two numbers.
pub type RangeText = (Seq<char>, Seq<char>, Seq<char>);

/// The text of a range.
pub open spec fn range_text(s: Seq<char>, m: RangeMatch) -> RangeText {
    (s.subrange(m.start, m.end), m.first, m.last)
}

/// The texts of the ranges.
pub open spec fn range_texts(s: Seq<char>, ms: Seq<RangeMatch>) -> Seq<RangeText> {
    Seq::new(ms.len(), |i: int| range_text(s, ms[i]))
}

/// Whether a character outside ASCII is a decimal digit of Unicode (general
/// category `Nd`).
pub uninterp spec fn other_digit(c: char) -> bool;

/// The decimal digits of Unicode.
pub open spec fn unicode_digits() -> CharClass {
    |c: char|
        if c <= '\u{7f}' {
            ascii_digit(c)
        } else {
            other_digit(c)
        }
}

/// The texts of a list of triples of strings.
pub open spec fn triple_texts(list: Seq<(String, String, String)>) -> Seq<RangeText> {
    Seq::new(list.len(), |i: int| (list[i].0@, list[i].1@, list[i].2@))
}

/// `Regex::new` and `Regex::captures_iter` of the crate `regex`, for the pattern
/// of a range: its matches in `text`, from left to right and without overlap, each
/// with its two groups. In that pattern `\d` is any decimal digit of Unicode.
#[verifier::external_body]
fn captures_of(pattern: &str, text: &str) -> (r: Vec<(String, String, String)>)
    requires
        pattern@ == RANGE_PATTERN@,
    ensures
        triple_texts(r@) == range_texts(
            text@,
            ranges_from(
                text@,
                0,
                (|c: char| if c <= '\u{7f}' { ascii_digit(c) } else { other_digit(c) }),
            ),
        ),
{
    let re = regex::Regex::new(pattern).unwrap();
    re.captures_iter(text)
        .map(|c| (c[0].to_string(), c[1].to_string(), c[2].to_string()))
        .collect()
}

// ---------------------------------------------------------------------------
// Expansion
// ---------------------------------------------------------------------------
/// The number that digits stand for; 0 where they need more than 64 bits, or are
/// no ASCII digits.
pub open spec fn bound(digits: Seq<char>) -> u64 {
    match read_u64(digits) {
        Some(n) => n,
        None => 0,
    }
}

/// What takes the place of a range: each of its numbers, with at least as many
/// digits as the first one is written with. A range that runs backwards stays.
pub open spec fn variants(m: RangeText) -> Seq<Seq<char>> {
    let first = bound(m.1);
    let last = bound(m.2);
    if first > last {
        seq![m.0]
    } else {
        Seq::new(
            (last - first + 1) as nat,
            |i: int| zero_padded((first + i) as nat, m.1.len()),
        )
    }
}

/// Each prefix with `lit` and each of the texts behind it.
pub open spec fn extend_all(
    done: Seq<Seq<char>>,
    lit: Seq<char>,
    news: Seq<Seq<char>>,
) -> Seq<Seq<char>>
    decreases done.len(),
{
    if done.len() == 0 {
        Seq::empty()
    } else {
        extend_all(done.drop_last(), lit, news) + Seq::new(
            news.len(),
            |i: int| done.last() + lit + news[i],
        )
    }
}

/// Each prefix with `rest` behind it.
pub open spec fn with_rest(done: Seq<Seq<char>>, rest: Seq<char>) -> Seq<Seq<char>> {
    Seq::new(done.len(), |i: int| done[i] + rest)
}

/// The texts that `s` stands for where each range is replaced in its place:
/// `done` are those of what precedes position `from`, and `ms` are the ranges
/// from there on.
pub open spec fn expanded_in_place(
    s: Seq<char>,
    done: Seq<Seq<char>>,
    from: int,
    ms: Seq<RangeMatch>,
) -> Seq<Seq<char>>
    decreases ms.len(),
{
    if ms.len() == 0 {
        with_rest(done, s.skip(from))
    } else {
        let m = ms[0];
        expanded_in_place(
            s,
            extend_all(done, s.subrange(from, m.start), variants(range_text(s, m))),
            m.end,
            ms.drop_first(),
        )
    }
}

/// The same for ranges that are given by their texts: each stands where its text
/// is found first behind the one before. One that is not found there is passed
/// over.
pub open spec fn expanded_in_turn(
    s: Seq<char>,
    done: Seq<Seq<char>>,
    from: int,
    ms: Seq<RangeText>,
) -> Seq<Seq<char>>
    decreases ms.len(),
{
    if ms.len() == 0 {
        with_rest(done, s.skip(from))
    } else {
        match find_from(s, ms[0].0, from) {
            Some(i) => expanded_in_turn(
                s,
                extend_all(done, s.subrange(from, i), variants(ms[0])),
                i + ms[0].0.len(),
                ms.drop_first(),
            ),
            None => expanded_in_turn(s, done, from, ms.drop_first()),
        }
    }
}

/// The texts of a list of strings.
pub open spec fn texts(list: Seq<String>) -> Seq<Seq<char>> {
    Seq::new(list.len(), |i: int| list[i]@)
}

/// The texts that `raw` stands for: every combination of what its ranges stand
/// for, each in its place, the last range changing fastest.
pub open spec fn expansion(raw: Seq<char>) -> Seq<Seq<char>> {
    expanded_in_place(raw, seq![Seq::empty()], 0, ranges_from(raw, 0, unicode_digits()))
}

fn read_bound(digits: &String) -> (r: u64)
    ensures
        r == bound(digits@),
{
    match parse_u64(&to_chars(digits.as_str())) {
        Some(n) => n,
        None => 0,
    }
}

/// What takes the place of a range.
fn range_variants(m: &(String, String, String)) -> (r: Vec<Vec<char>>)
    ensures
        chars_of(r@) == variants((m.0@, m.1@, m.2@)),
{
    let first: u64 = read_bound(&m.1);
    let last: u64 = read_bound(&m.2);
    let mut out: Vec<Vec<char>> = Vec::new();
    if first > last {
        out.push(to_chars(m.0.as_str()));
        assert(chars_of(out@) =~= seq![m.0@]);
        return out;
    }
    let width: usize = to_chars(m.1.as_str()).len();
    let ghost all = variants((m.0@, m.1@, m.2@));
    let mut n: u64 = first;
    loop
        invariant_except_break
            chars_of(out@) == all.take(n - first),
        invariant
            first <= n <= last,
            width == m.1@.len(),
            all == Seq::new(
                (last - first + 1) as nat,
                |i: int| zero_padded((first + i) as nat, m.1@.len()),
            ),
        ensures
            chars_of(out@) == all,
        decreases last - n,
    {
        let ghost before = out@;
        let one: Vec<char> = padded_chars(n, width);
        out.push(one);
        proof {
            assert(all[n - first] == zero_padded(n as nat, width as nat));
            assert(chars_of(out@) =~= chars_of(before).push(one@));
            assert(all.take(n - first + 1) =~= all.take(n - first).push(all[n - first]));
        }
        if n == last {
            assert(all.take(n - first + 1) =~= all);
            break;
        }
        n = n + 1;
    }
    out
}

/// Each prefix with `lit` and each of the texts behind it.
fn extend_prefixes(done: &Vec<Vec<char>>, lit: &Vec<char>, news: &Vec<Vec<char>>) -> (r: Vec<
    Vec<char>,
>)
    ensures
        chars_of(r@) == extend_all(chars_of(done@), lit@, chars_of(news@)),
{
    let mut out: Vec<Vec<char>> = Vec::new();
    let ghost all = chars_of(done@);
    let ghost with = chars_of(news@);
    assert(chars_of(out@) =~= extend_all(all.take(0), lit@, with));
    for i in 0..done.len()
        invariant
            all == chars_of(done@),
            with == chars_of(news@),
            chars_of(out@) == extend_all(all.take(i as int), lit@, with),
    {
        let ghost before = chars_of(out@);
        let ghost here = Seq::new(with.len(), |j: int| all[i as int] + lit@ + with[j]);
        for j in 0..news.len()
            invariant
                i < done@.len(),
                all == chars_of(done@),
                with == chars_of(news@),
                here == Seq::new(with.len(), |j: int| all[i as int] + lit@ + with[j]),
                chars_of(out@) == before + here.take(j as int),
        {
            let ghost prev = out@;
            let mut one: Vec<char> = slice_chars(&done[i], 0, done[i].len());
            append_chars(&mut one, lit);
            append_chars(&mut one, &news[j]);
            out.push(one);
            proof {
                assert(here[j as int] =~= one@);
                assert(chars_of(out@) =~= chars_of(prev).push(one@));
                assert(chars_of(out@) =~= before + here.take(j + 1));
            }
        }
        proof {
            assert(here.take(news.len() as int) =~= here);
            assert(all.take(i + 1).drop_last() =~= all.take(i as int));
            assert(all.take(i + 1).last() == all[i as int]);
        }
    }
    assert(all.take(done.len() as int) =~= all);
    out
}

/// Expands the ranges `found` in `raw`, each by its text and its two numbers, in
/// the order in which they stand there: every combination of what they stand for,
/// the last range changing fastest.
pub fn expand_matches(raw: &str, found: &Vec<(String, String, String)>) -> (r: Vec<String>)
    ensures
        texts(r@) == expanded_in_turn(raw@, seq![Seq::empty()], 0, triple_texts(found@)),
{
    let chars: Vec<char> = to_chars(raw);
    let mut done: Vec<Vec<char>> = Vec::new();
    done.push(Vec::new());
    let mut from: usize = 0;
    let ghost ms = triple_texts(found@);
    let ghost whole = expanded_in_turn(raw@, seq![Seq::empty()], 0, ms);
    assert(chars_of(done@) =~= seq![Seq::empty()]);
    assert(ms.skip(0) =~= ms);
    for i in 0..found.len()
        invariant
            ms == triple_texts(found@),
            chars@ == raw@,
            from <= chars@.len(),
            expanded_in_turn(raw@, chars_of(done@), from as int, ms.skip(i as int)) == whole,
    {
        let pat: Vec<char> = to_chars(found[i].0.as_str());
        proof {
            assert(ms.skip(i as int)[0] == ms[i as int]);
            assert(ms.skip(i as int).drop_first() =~= ms.skip(i + 1));
            lemma_find_from(raw@, pat@, from as int);
        }
        if let Some(at) = find_chars_from(&chars, &pat, from) {
            let end: usize = chars.len();
            assert(at + pat.len() <= end);
            let news: Vec<Vec<char>> = range_variants(&found[i]);
            let lit: Vec<char> = slice_chars(&chars, from, at);
            done = extend_prefixes(&done, &lit, &news);
            from = at + pat.len();
        }
    }
    assert(ms.skip(found.len() as int) =~= Seq::empty());
    let rest: Vec<char> = slice_chars(&chars, from, chars.len());
    assert(rest@ =~= raw@.skip(from as int));
    let mut out: Vec<String> = Vec::new();
    for i in 0..done.len()
        invariant
            texts(out@) == with_rest(chars_of(done@), rest@).take(i as int),
    {
        let ghost before = out@;
        let mut one: Vec<char> = slice_chars(&done[i], 0, done[i].len());
        append_chars(&mut one, &rest);
        out.push(from_chars(&one));
        proof {
            let all = with_rest(chars_of(done@), rest@);
            assert(one@ =~= all[i as int]);
            assert(texts(out@) =~= texts(before).push(one@));
            assert(all.take(i + 1) =~= all.take(i as int).push(one@));
        }
    }
    assert(with_rest(chars_of(done@), rest@).take(done.len() as int) =~= with_rest(
        chars_of(done@),
        rest@,
    ));
    out
}

/// Expands the ranges in a URL, such as:
/// `model-{001..040}-of-00040.safetensors`, 40 URLs with zero-padded numbers;
/// `model-{1..5}-part-{01..03}.bin`, 5 times 3 combinations.
///
/// The digits of the first number of a range give the width that the numbers are
/// padded to.
pub fn expand_ranges(raw: &str) -> (r: Vec<String>)
    ensures
        texts(r@) == expansion(raw@),
{
    let found: Vec<(String, String, String)> = captures_of(RANGE_PATTERN, raw);
    assert(unicode_digits() =~= (|c: char|
        if c <= '\u{7f}' {
            ascii_digit(c)
        } else {
            other_digit(c)
        }));
    proof {
        lemma_in_turn_is_in_place(raw@, seq![Seq::empty()], 0, unicode_digits());
    }
    expand_matches(raw, &found)
}

// ---------------------------------------------------------------------------
// Where ranges are found
// ---------------------------------------------------------------------------
pub proof fn lemma_digits_end(s: Seq<char>, i: int, digit: CharClass)
    requires
        0 <= i,
    ensures
        i <= digits_end(s, i, digit),
        i <= s.len() ==> digits_end(s, i, digit) <= s.len(),
        forall|j: int| i <= j < digits_end(s, i, digit) ==> digit(#[trigger] s[j]),
    decreases s.len() - i,
{
    if i < s.len() && digit(s[i]) {
        lemma_digits_end(s, i + 1, digit);
    }
}

proof fn lemma_digits_stop(s: Seq<char>, i: int, end: int, digit: CharClass)
    requires
        0 <= i <= end < s.len(),
        forall|j: int| i <= j < end ==> digit(#[trigger] s[j]),
        !digit(s[end]),
    ensures
        digits_end(s, i, digit) == end,
    decreases end - i,
{
    if i < end {
        lemma_digits_stop(s, i + 1, end, digit);
    }
}

/// Where the text of a range stands, a range is found.
proof fn lemma_same_text_is_range(s: Seq<char>, i: int, j: int)
    requires
        range_at(s, i, unicode_digits()) is Some,
        occurs_at(s, range_text(s, range_at(s, i, unicode_digits())->0).0, j),
    ensures
        range_at(s, j, unicode_digits()) is Some,
{
    let digit = unicode_digits();
    let m = range_at(s, i, digit)->0;
    let t = s.subrange(m.start, m.end);
    let a = digits_end(s, i + 1, digit);
    let b = digits_end(s, a + 2, digit);
    lemma_digits_end(s, i + 1, digit);
    lemma_digits_end(s, a + 2, digit);
    let u = s.subrange(j, j + t.len());
    assert forall|k: int| 0 <= k < t.len() implies #[trigger] s[j + k] == s[i + k] by {
        assert(u[k] == t[k]);
    }
    let c = j + (a - i);
    let d = j + (b - i);
    assert(s[j + 0] == s[i + 0]);
    assert(s[j + (a - i)] == s[i + (a - i)]);
    assert(s[j + (a + 1 - i)] == s[i + (a + 1 - i)]);
    assert(s[j + (b - i)] == s[i + (b - i)]);
    assert forall|k: int| j + 1 <= k < c implies digit(#[trigger] s[k]) by {
        assert(s[j + (k - j)] == s[i + (k - j)]);
    }
    assert forall|k: int| c + 2 <= k < d implies digit(#[trigger] s[k]) by {
        assert(s[j + (k - j)] == s[i + (k - j)]);
    }
    lemma_digits_stop(s, j + 1, c, digit);
    lemma_digits_stop(s, c + 2, d, digit);
}

/// The first of the ranges from a position on: none is found before it, and the
/// others are those behind it.
proof fn lemma_first_range(s: Seq<char>, from: int, digit: CharClass)
    requires
        0 <= from,
        ranges_from(s, from, digit).len() > 0,
    ensures
        ({
            let ms = ranges_from(s, from, digit);
            &&& from <= ms[0].start < ms[0].end <= s.len()
            &&& range_at(s, ms[0].start, digit) == Some(ms[0])
            &&& ms.drop_first() == ranges_from(s, ms[0].end, digit)
            &&& forall|j: int| from <= j < ms[0].start ==> #[trigger] range_at(s, j, digit) is None
        }),
    decreases s.len() - from,
{
    let ms = ranges_from(s, from, digit);
    match range_at(s, from, digit) {
        Some(m) => {
            lemma_digits_end(s, from + 1, digit);
            lemma_digits_end(s, digits_end(s, from + 1, digit) + 2, digit);
            assert(ms.drop_first() =~= ranges_from(s, m.end, digit));
        },
        None => {
            lemma_first_range(s, from + 1, digit);
        },
    }
}

/// The ranges of a text, in turn, are found in their places.
proof fn lemma_in_turn_is_in_place(
    s: Seq<char>,
    done: Seq<Seq<char>>,
    from: int,
    digit: CharClass,
)
    requires
        0 <= from <= s.len(),
        digit == unicode_digits(),
    ensures
        expanded_in_turn(s, done, from, range_texts(s, ranges_from(s, from, digit)))
            == expanded_in_place(s, done, from, ranges_from(s, from, digit)),
    decreases s.len() - from,
{
    let ms = ranges_from(s, from, digit);
    let ts = range_texts(s, ms);
    if ms.len() > 0 {
        lemma_first_range(s, from, digit);
        let m = ms[0];
        let t = range_text(s, m);
        assert(ts[0] == t);
        assert(ts.drop_first() =~= range_texts(s, ms.drop_first()));
        assert(occurs_at(s, t.0, m.start));
        lemma_find_from(s, t.0, from);
        let i = find_from(s, t.0, from)->0;
        if i < m.start {
            lemma_same_text_is_range(s, m.start, i);
        }
        let next = extend_all(done, s.subrange(from, m.start), variants(t));
        lemma_in_turn_is_in_place(s, next, m.end, digit);
    }
}

// ---------------------------------------------------------------------------
// Laws of expansion
// ---------------------------------------------------------------------------
/// The product of the numbers of variants.
pub open spec fn combinations(ms: Seq<RangeText>) -> nat
    decreases ms.len(),
{
    if ms.len() == 0 {
        1
    } else {
        variants(ms[0]).len() * combinations(ms.drop_first())
    }
}

proof fn lemma_extend_all_len(done: Seq<Seq<char>>, lit: Seq<char>, news: Seq<Seq<char>>)
    ensures
        extend_all(done, lit, news).len() == done.len() * news.len(),
    decreases done.len(),
{
    if done.len() > 0 {
        lemma_extend_all_len(done.drop_last(), lit, news);
        assert((done.len() - 1) * news.len() + news.len() == done.len() * news.len())
            by (nonlinear_arith);
    } else {
        assert(0 * news.len() == 0);
    }
}

proof fn lemma_in_place_len(
    s: Seq<char>,
    done: Seq<Seq<char>>,
    from: int,
    ms: Seq<RangeMatch>,
)
    ensures
        expanded_in_place(s, done, from, ms).len() == done.len() * combinations(
            range_texts(s, ms),
        ),
    decreases ms.len(),
{
    let ts = range_texts(s, ms);
    if ms.len() > 0 {
        let news = variants(range_text(s, ms[0]));
        let lit = s.subrange(from, ms[0].start);
        lemma_extend_all_len(done, lit, news);
        lemma_in_place_len(s, extend_all(done, lit, news), ms[0].end, ms.drop_first());
        assert(ts.drop_first() =~= range_texts(s, ms.drop_first()));
        assert(ts[0] == range_text(s, ms[0]));
        vstd::arithmetic::mul::lemma_mul_is_associative(
            done.len() as int,
            news.len() as int,
            combinations(ts.drop_first()) as int,
        );
    } else {
        assert(done.len() * 1 == done.len());
    }
}

/// A text stands for as many texts as there are combinations of its ranges.
pub proof fn law_expansion_counts(raw: Seq<char>)
    ensures
        expansion(raw).len() == combinations(
            range_texts(raw, ranges_from(raw, 0, unicode_digits())),
        ),
{
    let ms = ranges_from(raw, 0, unicode_digits());
    lemma_in_place_len(raw, seq![Seq::empty()], 0, ms);
    assert(1 * combinations(range_texts(raw, ms)) == combinations(range_texts(raw, ms)));
}

proof fn lemma_no_brace_no_range(s: Seq<char>, i: int, digit: CharClass)
    requires
        !s.contains('{'),
    ensures
        ranges_from(s, i, digit) == Seq::<RangeMatch>::empty(),
    decreases s.len() - i,
{
    if 0 <= i < s.len() {
        assert(s.contains(s[i]));
        lemma_no_brace_no_range(s, i + 1, digit);
    }
}

/// A text without a brace stands for itself.
pub proof fn law_no_brace_no_change(raw: Seq<char>)
    requires
        !raw.contains('{'),
    ensures
        expansion(raw) == seq![raw],
{
    lemma_no_brace_no_range(raw, 0, unicode_digits());
    assert(expansion(raw) =~= seq![raw]) by {
        assert(Seq::<char>::empty() + raw.skip(0) =~= raw);
    }
}

/// What takes the place of a range: each number from the first to the last, which
/// reads back as that number and is as long as the first one is written, unless it
/// needs more digits.
pub proof fn law_variants_are_the_numbers(m: RangeText, i: int)
    requires
        bound(m.1) <= bound(m.2),
        0 <= i <= bound(m.2) - bound(m.1),
    ensures
        variants(m).len() == bound(m.2) - bound(m.1) + 1,
        read_u64(variants(m)[i]) == Some((bound(m.1) + i) as u64),
        variants(m)[i].len() >= m.1.len(),
        variants(m)[i].len() == m.1.len() || variants(m)[i] == decimal(
            (bound(m.1) + i) as nat,
        ),
{
    law_padded_reads_back((bound(m.1) + i) as u64, m.1.len());
}

/// A text around one range, with no other brace that opens, stands for the
/// numbers of the range, in order, each between what precedes and what follows.
pub proof fn law_one_range(pre: Seq<char>, f: Seq<char>, l: Seq<char>, post: Seq<char>)
    requires
        !pre.contains('{'),
        !post.contains('{'),
        all_digits(f),
        all_digits(l),
        f.len() > 0,
        l.len() > 0,
        bound(f) <= bound(l),
    ensures
        expansion(pre + seq!['{'] + f + seq!['.', '.'] + l + seq!['}'] + post) == Seq::new(
            (bound(l) - bound(f) + 1) as nat,
            |i: int| pre + zero_padded((bound(f) + i) as nat, f.len()) + post,
        ),
{
    let s = pre + seq!['{'] + f + seq!['.', '.'] + l + seq!['}'] + post;
    let digit = unicode_digits();
    let p = pre.len() as int;
    let a = p + 1 + f.len();
    let b = a + 2 + l.len();
    assert forall|i: int| 0 <= i < f.len() implies digit(#[trigger] s[p + 1 + i]) by {
        assert(s[p + 1 + i] == f[i]);
        assert(ascii_digit(f[i]));
    }
    assert forall|i: int| 0 <= i < l.len() implies digit(#[trigger] s[a + 2 + i]) by {
        assert(s[a + 2 + i] == l[i]);
        assert(ascii_digit(l[i]));
    }
    assert(s[a] == '.' && s[a + 1] == '.' && s[b] == '}' && s[p] == '{');
    lemma_digits_stop(s, p + 1, a, digit);
    lemma_digits_stop(s, a + 2, b, digit);
    assert(s.subrange(p + 1, a) =~= f);
    assert(s.subrange(a + 2, b) =~= l);
    let m = RangeMatch { start: p, end: b + 1, first: f, last: l };
    assert(range_at(s, p, digit) == Some(m));
    assert forall|i: int| b + 1 <= i < s.len() implies s[i] != '{' by {
        assert(s[i] == post[i - b - 1]);
        assert(post.contains(post[i - b - 1]));
    }
    lemma_no_range_after(s, b + 1, digit);
    assert forall|i: int| 0 <= i < p implies s[i] != '{' by {
        assert(s[i] == pre[i]);
        assert(pre.contains(pre[i]));
    }
    lemma_ranges_skip(s, 0, p, digit);
    let all = ranges_from(s, 0, digit);
    assert(all =~= seq![m]);
    let done = seq![Seq::<char>::empty()];
    let news = variants(range_text(s, m));
    let lit = s.subrange(0, p);
    let next = extend_all(done, lit, news);
    assert(lit =~= pre);
    assert(done.drop_last() =~= Seq::empty());
    assert(extend_all(done.drop_last(), lit, news) =~= Seq::empty());
    assert(next =~= Seq::new(news.len(), |i: int| Seq::<char>::empty() + lit + news[i]));
    reveal_with_fuel(expanded_in_place, 2);
    assert(all.drop_first() =~= Seq::empty());
    assert(s.skip(b + 1) =~= post);
    let r = with_rest(next, post);
    let expected = Seq::new(
        (bound(l) - bound(f) + 1) as nat,
        |i: int| pre + zero_padded((bound(f) + i) as nat, f.len()) + post,
    );
    assert(r =~= expected) by {
        assert forall|i: int| 0 <= i < r.len() implies r[i] == expected[i] by {
            assert(news[i] == zero_padded((bound(f) + i) as nat, f.len()));
            assert(Seq::<char>::empty() + lit + news[i] + post =~= pre + news[i] + post);
        }
    }
}

pub proof fn lemma_no_range_after(s: Seq<char>, i: int, digit: CharClass)
    requires
        forall|j: int| i <= j < s.len() ==> s[j] != '{',
    ensures
        ranges_from(s, i, digit) == Seq::<RangeMatch>::empty(),
    decreases s.len() - i,
{
    if 0 <= i < s.len() {
        lemma_no_range_after(s, i + 1, digit);
    }
}

proof fn lemma_ranges_skip(s: Seq<char>, i: int, p: int, digit: CharClass)
    requires
        0 <= i <= p < s.len(),
        forall|j: int| i <= j < p ==> s[j] != '{',
    ensures
        ranges_from(s, i, digit) == ranges_from(s, p, digit),
    decreases p - i,
{
    if i < p {
        lemma_ranges_skip(s, i + 1, p, digit);
    }
}

} // verus!
