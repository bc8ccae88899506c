//! Number ranges in URLs, and the URLs of a batch.
use vstd::prelude::*;

use crate::laws::numbers::{
    digits_alone, law_numbers_are_written_shortest, law_padding_is_zeros,
    law_which_texts_are_numbers,
};
use crate::laws::texts::{all_blank, law_trimming_takes_the_ends, tight};
use crate::number::{decimal_value, law_padded_reads_back, zero_padded};
use crate::ranges::{
    bound, digits_end, expanded_in_place, expanded_in_turn, expansion, extend_all,
    law_no_brace_no_change, law_one_range, lemma_digits_end, lemma_no_range_after, range_at,
    range_text, ranges_from, triple_texts, unicode_digits, variants, with_rest, RangeMatch,
};
use crate::session::{expansions, given_urls, urls_in};
use crate::text::{find, lines, CharClass};

verus! {

/// The text of a range from `f` to `l`.
pub open spec fn braces(f: Seq<char>, l: Seq<char>) -> Seq<char> {
    seq!['{'] + f + seq!['.', '.'] + l + seq!['}']
}

// ---------------------------------------------------------------------------
// One range
// ---------------------------------------------------------------------------
/// A text with one range from `n` to `m` stands for as many texts as there are
/// numbers: each with one of `n`, `n + 1`, ..., `m` in place of the range, padded
/// to the length of the first bound. However large the numbers are, as long as they
/// have 64 bits, and however many zeros they are written with.
pub proof fn law_a_range_stands_for_its_numbers(
    pre: Seq<char>,
    n: u64,
    n_width: nat,
    m: u64,
    m_width: nat,
    post: Seq<char>,
)
    requires
        n <= m,
        !pre.contains('{'),
        !post.contains('{'),
    ensures
        ({
            let first = zero_padded(n as nat, n_width);
            let last = zero_padded(m as nat, m_width);
            let all = expansion(pre + braces(first, last) + post);
            &&& all.len() == m - n + 1
            &&& forall|i: int|
                0 <= i <= m - n ==> #[trigger] all[i] == pre + zero_padded(
                    (n + i) as nat,
                    first.len(),
                ) + post
        }),
{
    let first = zero_padded(n as nat, n_width);
    let last = zero_padded(m as nat, m_width);
    law_padded_reads_back(n, n_width);
    law_padded_reads_back(m, m_width);
    law_padding_is_zeros(n as nat, n_width);
    law_padding_is_zeros(m as nat, m_width);
    law_numbers_are_written_shortest(n as nat);
    law_numbers_are_written_shortest(m as nat);
    assert(bound(first) == n && bound(last) == m);
    law_one_range(pre, first, last, post);
    assert(pre + braces(first, last) + post =~= pre + seq!['{'] + first + seq!['.', '.'] + last
        + seq!['}'] + post);
}

/// A range that runs backwards stays as it is.
pub proof fn law_a_backward_range_stays(
    pre: Seq<char>,
    n: u64,
    n_width: nat,
    m: u64,
    m_width: nat,
    post: Seq<char>,
)
    requires
        n > m,
        !pre.contains('{'),
        !post.contains('{'),
    ensures
        ({
            let raw = pre + braces(
                zero_padded(n as nat, n_width),
                zero_padded(m as nat, m_width),
            ) + post;
            expansion(raw) == seq![raw]
        }),
{
    let first = zero_padded(n as nat, n_width);
    let last = zero_padded(m as nat, m_width);
    let raw = pre + braces(first, last) + post;
    law_padded_reads_back(n, n_width);
    law_padded_reads_back(m, m_width);
    law_padding_is_zeros(n as nat, n_width);
    law_padding_is_zeros(m as nat, m_width);
    law_numbers_are_written_shortest(n as nat);
    law_numbers_are_written_shortest(m as nat);
    law_digits_make_one_range(pre, first, last, post);
}

/// Digits in braces are one range, at their place; the two bounds are these digits.
pub proof fn law_digits_make_one_range(
    pre: Seq<char>,
    first: Seq<char>,
    last: Seq<char>,
    post: Seq<char>,
)
    requires
        !pre.contains('{'),
        !post.contains('{'),
        digits_alone(first),
        digits_alone(last),
        first.len() > 0,
        last.len() > 0,
    ensures
        ({
            let raw = pre + braces(first, last) + post;
            let news = variants((braces(first, last), first, last));
            &&& expansion(raw).len() == news.len()
            &&& forall|i: int|
                0 <= i < news.len() ==> #[trigger] expansion(raw)[i] == pre + news[i] + post
            &&& bound(first) > bound(last) ==> expansion(raw) == seq![raw]
            &&& bound(first) <= bound(last) ==> news.len() == bound(last) - bound(first) + 1
            &&& bound(first) <= bound(last) ==> forall|i: int|
                0 <= i < news.len() ==> #[trigger] news[i] == zero_padded(
                    (bound(first) + i) as nat,
                    first.len(),
                )
        }),
{
    let raw = pre + braces(first, last) + post;
    let digit = unicode_digits();
    let p = pre.len() as int;
    let a = p + 1 + first.len();
    let b = a + 2 + last.len();
    assert forall|i: int| p + 1 <= i < a implies digit(#[trigger] raw[i]) by {
        assert(raw[i] == first[i - p - 1]);
    }
    assert forall|i: int| a + 2 <= i < b implies digit(#[trigger] raw[i]) by {
        assert(raw[i] == last[i - a - 2]);
    }
    assert(raw[a] == '.' && raw[a + 1] == '.' && raw[b] == '}' && raw[p] == '{');
    lemma_digits_until(raw, p + 1, a, digit);
    lemma_digits_until(raw, a + 2, b, digit);
    assert(raw.subrange(p + 1, a) =~= first);
    assert(raw.subrange(a + 2, b) =~= last);
    let m = RangeMatch { start: p, end: b + 1, first, last };
    assert(range_at(raw, p, digit) == Some(m));
    assert forall|i: int| b + 1 <= i < raw.len() implies raw[i] != '{' by {
        assert(raw[i] == post[i - b - 1]);
        assert(post.contains(post[i - b - 1]));
    }
    lemma_no_range_after(raw, b + 1, digit);
    assert forall|i: int| 0 <= i < p implies raw[i] != '{' by {
        assert(raw[i] == pre[i]);
        assert(pre.contains(pre[i]));
    }
    lemma_skip_to(raw, 0, p, digit);
    let all = ranges_from(raw, 0, digit);
    assert(all =~= seq![m]);
    let done = seq![Seq::<char>::empty()];
    let t = range_text(raw, m);
    assert(raw.subrange(p, b + 1) =~= braces(first, last));
    let news = variants(t);
    let lit = raw.subrange(0, p);
    assert(lit =~= pre);
    let next = extend_all(done, lit, news);
    assert(done.drop_last() =~= Seq::empty());
    assert(extend_all(done.drop_last(), lit, news) =~= Seq::empty());
    assert(next =~= Seq::new(news.len(), |i: int| Seq::<char>::empty() + lit + news[i]));
    reveal_with_fuel(expanded_in_place, 2);
    assert(all.drop_first() =~= Seq::empty());
    assert(raw.skip(b + 1) =~= post);
    assert forall|i: int| 0 <= i < news.len() implies #[trigger] expansion(raw)[i] == pre + news[i]
        + post by {
        assert(Seq::<char>::empty() + lit + news[i] + post =~= pre + news[i] + post);
    }
    if bound(first) > bound(last) {
        assert(news =~= seq![braces(first, last)]);
        assert(expansion(raw)[0] == pre + news[0] + post);
        assert(expansion(raw) =~= seq![raw]);
    }
}

proof fn lemma_digits_until(s: Seq<char>, i: int, end: int, digit: CharClass)
    requires
        0 <= i <= end < s.len(),
        forall|j: int| i <= j < end ==> digit(#[trigger] s[j]),
        !digit(s[end]),
    ensures
        digits_end(s, i, digit) == end,
    decreases end - i,
{
    if i < end {
        lemma_digits_until(s, i + 1, end, digit);
    }
}

proof fn lemma_skip_to(s: Seq<char>, i: int, p: int, digit: CharClass)
    requires
        0 <= i <= p < s.len(),
        forall|j: int| i <= j < p ==> s[j] != '{',
    ensures
        ranges_from(s, i, digit) == ranges_from(s, p, digit),
    decreases p - i,
{
    if i < p {
        lemma_skip_to(s, i + 1, p, digit);
    }
}

/// A bound is the number that its digits stand for; one that needs more than 64 bits
/// counts as zero.
pub proof fn law_a_bound_is_its_number(digits: Seq<char>)
    requires
        digits_alone(digits),
    ensures
        bound(digits) == if decimal_value(digits) <= u64::MAX {
            decimal_value(digits)
        } else {
            0
        },
{
    law_which_texts_are_numbers(digits);
    if digits.len() > 0 {
        assert('0' <= digits[0] <= '9');
    } else {
        assert(digits =~= Seq::<char>::empty());
        assert(decimal_value(digits) == 0);
    }
}

/// Only a range changes a text: one that opens a brace at its beginning alone, and
/// does not stand for itself, is a range and what follows it.
pub proof fn law_only_a_range_changes_a_text(s: Seq<char>)
    requires
        s.len() > 0,
        s[0] == '{',
        forall|i: int| 0 < i < s.len() ==> s[i] != '{',
        expansion(s) != seq![s],
    ensures
        exists|f: Seq<char>, l: Seq<char>, post: Seq<char>|
            #![trigger braces(f, l) + post]
            s == braces(f, l) + post && f.len() > 0 && l.len() > 0 && (forall|i: int|
                0 <= i < f.len() ==> unicode_digits()(#[trigger] f[i])) && (forall|i: int|
                0 <= i < l.len() ==> unicode_digits()(#[trigger] l[i])),
{
    let digit = unicode_digits();
    lemma_no_range_after(s, 1, digit);
    match range_at(s, 0, digit) {
        None => {
            assert(ranges_from(s, 0, digit) =~= Seq::empty());
            assert(Seq::<char>::empty() + s.skip(0) =~= s);
            assert(expansion(s) =~= seq![s]);
        },
        Some(m) => {
            let a = digits_end(s, 1, digit);
            let b = digits_end(s, a + 2, digit);
            lemma_digits_end(s, 1, digit);
            lemma_digits_end(s, a + 2, digit);
            let post = s.skip(b + 1);
            assert(s =~= braces(m.first, m.last) + post);
            assert forall|i: int| 0 <= i < m.first.len() implies digit(#[trigger] m.first[i]) by {
                assert(m.first[i] == s[1 + i]);
            }
            assert forall|i: int| 0 <= i < m.last.len() implies digit(#[trigger] m.last[i]) by {
                assert(m.last[i] == s[a + 2 + i]);
            }
        },
    }
}

/// A range that is given by its text is replaced where the text stands first; one that
/// stands nowhere changes nothing.
pub proof fn law_a_match_is_replaced_where_it_stands(
    pre: Seq<char>,
    m: (Seq<char>, Seq<char>, Seq<char>),
    post: Seq<char>,
    i: int,
)
    requires
        find(pre + m.0 + post, m.0) == Some(pre.len() as int),
        0 <= i < variants(m).len(),
    ensures
        ({
            let all = expanded_in_turn(pre + m.0 + post, seq![Seq::empty()], 0, seq![m]);
            &&& all.len() == variants(m).len()
            &&& all[i] == pre + variants(m)[i] + post
        }),
{
    let raw = pre + m.0 + post;
    let done = seq![Seq::<char>::empty()];
    let news = variants(m);
    reveal_with_fuel(expanded_in_turn, 2);
    assert(raw.subrange(0, pre.len() as int) =~= pre);
    assert(raw.skip((pre.len() + m.0.len()) as int) =~= post);
    assert(done.drop_last() =~= Seq::empty());
    assert(extend_all(done.drop_last(), pre, news) =~= Seq::empty());
    let next = extend_all(done, pre, news);
    assert(next =~= Seq::new(news.len(), |i: int| Seq::<char>::empty() + pre + news[i]));
    assert(seq![m].drop_first() =~= Seq::empty());
    assert(Seq::<char>::empty() + pre + news[i] + post =~= pre + news[i] + post);
}

/// The texts of a list of matches are their own.
pub proof fn law_texts_of_matches(list: Seq<(String, String, String)>)
    ensures
        triple_texts(list).len() == list.len(),
        forall|i: int|
            0 <= i < list.len() ==> #[trigger] triple_texts(list)[i] == (
                list[i].0@,
                list[i].1@,
                list[i].2@,
            ),
{
}

// ---------------------------------------------------------------------------
// Several ranges
// ---------------------------------------------------------------------------
/// Each of the first texts with each of the second behind it, the second changing
/// fastest.
pub open spec fn every_pair(xs: Seq<Seq<char>>, ys: Seq<Seq<char>>) -> Seq<Seq<char>>
    decreases xs.len(),
{
    if xs.len() == 0 {
        Seq::empty()
    } else {
        every_pair(xs.drop_last(), ys) + Seq::new(ys.len(), |i: int| xs.last() + ys[i])
    }
}

proof fn lemma_pair_at(xs: Seq<Seq<char>>, ys: Seq<Seq<char>>, i: int, j: int)
    requires
        0 <= i < xs.len(),
        0 <= j < ys.len(),
    ensures
        every_pair(xs, ys).len() == xs.len() * ys.len(),
        0 <= i * ys.len() + j < every_pair(xs, ys).len(),
        every_pair(xs, ys)[i * ys.len() + j] == xs[i] + ys[j],
    decreases xs.len(),
{
    let n = ys.len() as int;
    let head = xs.drop_last();
    lemma_pairs_len(xs, ys);
    lemma_pairs_len(head, ys);
    let last = xs.len() - 1;
    assert(i * n + j < xs.len() * n && i * n + j >= 0) by (nonlinear_arith)
        requires
            0 <= i < xs.len(),
            0 <= j < n,
    ;
    if i == last {
        assert(every_pair(xs, ys)[i * n + j] == xs.last() + ys[j]);
    } else {
        lemma_pair_at(head, ys, i, j);
        assert(head[i] == xs[i]);
    }
}

proof fn lemma_pairs_len(xs: Seq<Seq<char>>, ys: Seq<Seq<char>>)
    ensures
        every_pair(xs, ys).len() == xs.len() * ys.len(),
    decreases xs.len(),
{
    if xs.len() > 0 {
        lemma_pairs_len(xs.drop_last(), ys);
        assert((xs.len() - 1) * ys.len() + ys.len() == xs.len() * ys.len()) by (nonlinear_arith);
    } else {
        assert(0 * ys.len() == 0);
    }
}

proof fn lemma_pairs_of_sum(a: Seq<Seq<char>>, b: Seq<Seq<char>>, ys: Seq<Seq<char>>)
    ensures
        every_pair(a + b, ys) == every_pair(a, ys) + every_pair(b, ys),
    decreases b.len(),
{
    if b.len() == 0 {
        assert(a + b =~= a);
        assert(every_pair(a, ys) + every_pair(b, ys) =~= every_pair(a, ys));
    } else {
        lemma_pairs_of_sum(a, b.drop_last(), ys);
        assert((a + b).drop_last() =~= a + b.drop_last());
        assert((a + b).last() == b.last());
        assert(every_pair(a + b, ys) =~= every_pair(a, ys) + every_pair(b, ys));
    }
}

/// The texts with `x` in front.
spec fn with_front(x: Seq<char>, ys: Seq<Seq<char>>) -> Seq<Seq<char>> {
    Seq::new(ys.len(), |i: int| x + ys[i])
}

proof fn lemma_front_of_pairs(x: Seq<char>, d: Seq<Seq<char>>, n: Seq<Seq<char>>)
    ensures
        every_pair(with_front(x, d), n) == with_front(x, every_pair(d, n)),
    decreases d.len(),
{
    let f = with_front(x, d);
    if d.len() == 0 {
        assert(every_pair(f, n) =~= with_front(x, every_pair(d, n)));
    } else {
        lemma_front_of_pairs(x, d.drop_last(), n);
        assert(f.drop_last() =~= with_front(x, d.drop_last()));
        assert(f.last() == x + d.last());
        let g = Seq::new(n.len(), |i: int| d.last() + n[i]);
        let h = Seq::new(n.len(), |i: int| f.last() + n[i]);
        assert forall|i: int| 0 <= i < n.len() implies h[i] == x + g[i] by {
            assert(x + d.last() + n[i] =~= x + (d.last() + n[i]));
        }
        assert(every_pair(f, n) =~= with_front(x, every_pair(d, n)));
    }
}

proof fn lemma_pairs_associate(x: Seq<Seq<char>>, d: Seq<Seq<char>>, n: Seq<Seq<char>>)
    ensures
        every_pair(every_pair(x, d), n) == every_pair(x, every_pair(d, n)),
    decreases x.len(),
{
    if x.len() == 0 {
        assert(every_pair(every_pair(x, d), n) =~= every_pair(x, every_pair(d, n)));
    } else {
        let head = x.drop_last();
        lemma_pairs_associate(head, d, n);
        lemma_pairs_of_sum(every_pair(head, d), with_front(x.last(), d), n);
        lemma_front_of_pairs(x.last(), d, n);
        assert(every_pair(x, d) =~= every_pair(head, d) + with_front(x.last(), d));
        assert(every_pair(x, every_pair(d, n)) =~= every_pair(head, every_pair(d, n))
            + with_front(x.last(), every_pair(d, n)));
    }
}

proof fn lemma_extend_is_pairs(done: Seq<Seq<char>>, lit: Seq<char>, news: Seq<Seq<char>>)
    ensures
        extend_all(done, lit, news) == every_pair(with_rest(done, lit), news),
    decreases done.len(),
{
    let w = with_rest(done, lit);
    if done.len() > 0 {
        lemma_extend_is_pairs(done.drop_last(), lit, news);
        assert(w.drop_last() =~= with_rest(done.drop_last(), lit));
        assert(w.last() == done.last() + lit);
    }
    assert(extend_all(done, lit, news) =~= every_pair(w, news));
}

proof fn lemma_rest_is_pairs(xs: Seq<Seq<char>>, rest: Seq<char>)
    ensures
        with_rest(xs, rest) == every_pair(xs, seq![rest]),
    decreases xs.len(),
{
    let w = with_rest(xs, rest);
    if xs.len() > 0 {
        lemma_rest_is_pairs(xs.drop_last(), rest);
        assert(w.drop_last() =~= with_rest(xs.drop_last(), rest));
        assert(w =~= w.drop_last().push(w.last()));
    }
    assert(w =~= every_pair(xs, seq![rest]));
}

proof fn lemma_rest_of_rest(xs: Seq<Seq<char>>, a: Seq<char>, b: Seq<char>)
    ensures
        with_rest(with_rest(xs, a), b) == with_rest(xs, a + b),
{
    assert forall|i: int| 0 <= i < xs.len() implies with_rest(with_rest(xs, a), b)[i] == with_rest(
        xs,
        a + b,
    )[i] by {
        assert(xs[i] + a + b =~= xs[i] + (a + b));
    }
    assert(with_rest(with_rest(xs, a), b) =~= with_rest(xs, a + b));
}

/// The range moved on by `n` characters.
spec fn moved(m: RangeMatch, n: int) -> RangeMatch {
    RangeMatch { start: m.start + n, end: m.end + n, ..m }
}

spec fn all_moved(ms: Seq<RangeMatch>, n: int) -> Seq<RangeMatch> {
    Seq::new(ms.len(), |i: int| moved(ms[i], n))
}

proof fn lemma_digits_end_in_front(a: Seq<char>, b: Seq<char>, i: int)
    requires
        0 <= i <= a.len(),
        b.len() > 0 ==> b[0] == '{',
    ensures
        digits_end(a + b, i, unicode_digits()) == digits_end(a, i, unicode_digits()),
    decreases a.len() - i,
{
    if i < a.len() {
        assert((a + b)[i] == a[i]);
        lemma_digits_end_in_front(a, b, i + 1);
    }
}

proof fn lemma_digits_end_behind(a: Seq<char>, b: Seq<char>, i: int)
    requires
        0 <= i,
    ensures
        digits_end(a + b, a.len() + i, unicode_digits()) == a.len() + digits_end(
            b,
            i,
            unicode_digits(),
        ),
    decreases b.len() - i,
{
    if i < b.len() {
        assert((a + b)[a.len() + i] == b[i]);
        lemma_digits_end_behind(a, b, i + 1);
    }
}

proof fn lemma_range_in_front(a: Seq<char>, b: Seq<char>, i: int)
    requires
        0 <= i < a.len(),
        b.len() > 0 ==> b[0] == '{',
    ensures
        range_at(a + b, i, unicode_digits()) == range_at(a, i, unicode_digits()),
        range_at(a, i, unicode_digits()) matches Some(m) ==> m.end <= a.len(),
{
    let digit = unicode_digits();
    let s = a + b;
    lemma_digits_end_in_front(a, b, i + 1);
    lemma_digits_end(a, i + 1, digit);
    let p = digits_end(a, i + 1, digit);
    assert(s[i] == a[i]);
    if p + 2 <= a.len() {
        lemma_digits_end_in_front(a, b, p + 2);
        lemma_digits_end(a, p + 2, digit);
        let q = digits_end(a, p + 2, digit);
        assert(s[p] == a[p] && s[p + 1] == a[p + 1]);
        if q < a.len() {
            assert(s[q] == a[q]);
            assert(s.subrange(i + 1, p) =~= a.subrange(i + 1, p));
            assert(s.subrange(p + 2, q) =~= a.subrange(p + 2, q));
        } else {
            assert(q == a.len());
            assert(b.len() > 0 ==> s[q] == '{');
        }
    } else {
        lemma_digits_end(a, p + 2, digit);
        assert(digits_end(a, p + 2, digit) == p + 2);
        if b.len() > 0 {
            assert(s[a.len() as int] == '{');
            if p == a.len() {
                assert(s[p] == '{');
            } else {
                assert(p + 1 == a.len());
                assert(s[p + 1] == '{');
            }
        } else {
            assert(s =~= a);
        }
    }
}

proof fn lemma_range_behind(a: Seq<char>, b: Seq<char>, i: int)
    requires
        0 <= i < b.len(),
    ensures
        range_at(a + b, a.len() + i, unicode_digits()) == match range_at(
            b,
            i,
            unicode_digits(),
        ) {
            Some(m) => Some(moved(m, a.len() as int)),
            None => None,
        },
        range_at(b, i, unicode_digits()) matches Some(m) ==> i < m.end <= b.len(),
{
    let digit = unicode_digits();
    let s = a + b;
    let n = a.len() as int;
    lemma_digits_end_behind(a, b, i + 1);
    lemma_digits_end(b, i + 1, digit);
    let p = digits_end(b, i + 1, digit);
    lemma_digits_end_behind(a, b, p + 2);
    lemma_digits_end(b, p + 2, digit);
    let q = digits_end(b, p + 2, digit);
    assert(s[n + i] == b[i]);
    if p + 2 < q && q < b.len() {
        assert(s[n + p] == b[p] && s[n + p + 1] == b[p + 1] && s[n + q] == b[q]);
        assert(s.subrange(n + i + 1, n + p) =~= b.subrange(i + 1, p));
        assert(s.subrange(n + p + 2, n + q) =~= b.subrange(p + 2, q));
    }
}

proof fn lemma_ranges_behind(a: Seq<char>, b: Seq<char>, i: int)
    requires
        0 <= i <= b.len(),
    ensures
        ranges_from(a + b, a.len() + i, unicode_digits()) == all_moved(
            ranges_from(b, i, unicode_digits()),
            a.len() as int,
        ),
    decreases b.len() - i,
{
    let digit = unicode_digits();
    let n = a.len() as int;
    if i < b.len() {
        lemma_range_behind(a, b, i);
        match range_at(b, i, digit) {
            Some(m) => {
                lemma_ranges_behind(a, b, m.end);
                let rest = ranges_from(b, m.end, digit);
                assert(all_moved(seq![m] + rest, n) =~= seq![moved(m, n)] + all_moved(rest, n));
            },
            None => {
                lemma_ranges_behind(a, b, i + 1);
            },
        }
    } else {
        assert(ranges_from(a + b, n + i, digit) =~= all_moved(ranges_from(b, i, digit), n));
    }
}

proof fn lemma_ranges_of_sum(a: Seq<char>, b: Seq<char>, i: int)
    requires
        0 <= i <= a.len(),
        b.len() > 0 ==> b[0] == '{',
    ensures
        ranges_from(a + b, i, unicode_digits()) == ranges_from(a, i, unicode_digits()) + all_moved(
            ranges_from(b, 0, unicode_digits()),
            a.len() as int,
        ),
    decreases a.len() - i,
{
    let digit = unicode_digits();
    let tail = all_moved(ranges_from(b, 0, digit), a.len() as int);
    if i == a.len() {
        lemma_ranges_behind(a, b, 0);
        assert(ranges_from(a, i, digit) + tail =~= tail);
    } else {
        lemma_range_in_front(a, b, i);
        match range_at(a, i, digit) {
            Some(m) => {
                lemma_digits_end(a, i + 1, digit);
                lemma_digits_end(a, digits_end(a, i + 1, digit) + 2, digit);
                lemma_ranges_of_sum(a, b, m.end);
                assert(seq![m] + (ranges_from(a, m.end, digit) + tail) =~= seq![m] + ranges_from(
                    a,
                    m.end,
                    digit,
                ) + tail);
            },
            None => {
                lemma_ranges_of_sum(a, b, i + 1);
            },
        }
    }
}

/// Whether the ranges lie one behind the other from `from` on.
spec fn lie_behind(s: Seq<char>, from: int, ms: Seq<RangeMatch>) -> bool
    decreases ms.len(),
{
    if ms.len() == 0 {
        0 <= from <= s.len()
    } else {
        0 <= from <= ms[0].start < ms[0].end <= s.len() && lie_behind(
            s,
            ms[0].end,
            ms.drop_first(),
        )
    }
}

proof fn lemma_lie_behind(s: Seq<char>, i: int)
    requires
        0 <= i <= s.len(),
    ensures
        lie_behind(s, i, ranges_from(s, i, unicode_digits())),
    decreases s.len() - i,
{
    let digit = unicode_digits();
    let ms = ranges_from(s, i, digit);
    if i < s.len() {
        match range_at(s, i, digit) {
            Some(m) => {
                lemma_digits_end(s, i + 1, digit);
                lemma_digits_end(s, digits_end(s, i + 1, digit) + 2, digit);
                lemma_lie_behind(s, m.end);
                assert(ms[0] == m);
                assert(ms.drop_first() =~= ranges_from(s, m.end, digit));
            },
            None => {
                lemma_lie_behind(s, i + 1);
            },
        }
    }
}

/// The ranges of the second text, behind what the first one stands for.
proof fn lemma_second_text(
    a: Seq<char>,
    b: Seq<char>,
    x: Seq<Seq<char>>,
    d: Seq<Seq<char>>,
    f: int,
    ms: Seq<RangeMatch>,
)
    requires
        lie_behind(b, f, ms),
    ensures
        expanded_in_place(a + b, every_pair(x, d), a.len() + f, all_moved(ms, a.len() as int))
            == every_pair(x, expanded_in_place(b, d, f, ms)),
    decreases ms.len(),
{
    let n = a.len() as int;
    let s = a + b;
    let mm = all_moved(ms, n);
    if ms.len() == 0 {
        let rest = b.skip(f);
        assert(s.skip(n + f) =~= rest);
        lemma_rest_is_pairs(every_pair(x, d), rest);
        lemma_rest_is_pairs(d, rest);
        lemma_pairs_associate(x, d, seq![rest]);
    } else {
        let m = ms[0];
        let lit = b.subrange(f, m.start);
        assert(mm[0] == moved(m, n));
        assert(s.subrange(n + f, n + m.start) =~= lit);
        assert(s.subrange(n + m.start, n + m.end) =~= b.subrange(m.start, m.end));
        let news = variants(range_text(b, m));
        assert(range_text(s, mm[0]) == range_text(b, m));
        lemma_extend_is_pairs(every_pair(x, d), lit, news);
        lemma_extend_is_pairs(d, lit, news);
        lemma_rest_is_pairs(every_pair(x, d), lit);
        lemma_rest_is_pairs(d, lit);
        lemma_pairs_associate(x, d, seq![lit]);
        lemma_pairs_associate(x, with_rest(d, lit), news);
        assert(extend_all(every_pair(x, d), lit, news) == every_pair(
            x,
            extend_all(d, lit, news),
        ));
        assert(mm.drop_first() =~= all_moved(ms.drop_first(), n));
        lemma_second_text(a, b, x, extend_all(d, lit, news), m.end, ms.drop_first());
    }
}

proof fn lemma_first_text(
    a: Seq<char>,
    b: Seq<char>,
    done: Seq<Seq<char>>,
    from: int,
    ms: Seq<RangeMatch>,
)
    requires
        lie_behind(a, from, ms),
    ensures
        expanded_in_place(
            a + b,
            done,
            from,
            ms + all_moved(ranges_from(b, 0, unicode_digits()), a.len() as int),
        ) == every_pair(expanded_in_place(a, done, from, ms), expansion(b)),
    decreases ms.len(),
{
    let s = a + b;
    let n = a.len() as int;
    let rb = ranges_from(b, 0, unicode_digits());
    let tail = all_moved(rb, n);
    let all = ms + tail;
    if ms.len() == 0 {
        assert(all =~= tail);
        let rest = a.skip(from);
        let x = with_rest(done, rest);
        let one = seq![Seq::<char>::empty()];
        lemma_lie_behind(b, 0);
        lemma_rest_is_pairs(x, Seq::empty());
        assert(with_rest(x, Seq::empty()) =~= x) by {
            assert forall|i: int| 0 <= i < x.len() implies x[i] + Seq::<char>::empty()
                == x[i] by {
                assert(x[i] + Seq::<char>::empty() =~= x[i]);
            }
        }
        lemma_second_text(a, b, x, one, 0, rb);
        // What is left of the first text goes before the second one.
        if rb.len() == 0 {
            assert(s.skip(from) =~= rest + b);
            assert(s.skip(n) =~= b);
            lemma_rest_of_rest(done, rest, b);
        } else {
            let m = rb[0];
            let lit = b.subrange(0, m.start);
            assert(tail[0] == moved(m, n));
            assert(s.subrange(from, n + m.start) =~= rest + lit);
            assert(s.subrange(n, n + m.start) =~= lit);
            let news = variants(range_text(s, tail[0]));
            lemma_rest_of_rest(done, rest, lit);
            lemma_extend_is_pairs(done, rest + lit, news);
            lemma_extend_is_pairs(x, lit, news);
        }
    } else {
        let m = ms[0];
        assert(all[0] == m);
        assert(all.drop_first() =~= ms.drop_first() + tail);
        assert(s.subrange(from, m.start) =~= a.subrange(from, m.start));
        assert(s.subrange(m.start, m.end) =~= a.subrange(m.start, m.end));
        let next = extend_all(done, a.subrange(from, m.start), variants(range_text(a, m)));
        lemma_first_text(a, b, next, m.end, ms.drop_first());
    }
}

/// Two texts, the second of which begins with a brace, stand together for every
/// pair of what each stands for: the ranges of a text are independent of one
/// another, wherever they stand and whatever is between them.
pub proof fn law_ranges_are_independent(a: Seq<char>, b: Seq<char>)
    requires
        b.len() > 0 ==> b[0] == '{',
    ensures
        expansion(a + b).len() == expansion(a).len() * expansion(b).len(),
        forall|i: int, j: int|
            #![trigger expansion(a)[i], expansion(b)[j]]
            0 <= i < expansion(a).len() && 0 <= j < expansion(b).len() ==> expansion(a + b)[i
                * expansion(b).len() + j] == expansion(a)[i] + expansion(b)[j],
{
    lemma_ranges_of_sum(a, b, 0);
    lemma_lie_behind(a, 0);
    lemma_first_text(a, b, seq![Seq::empty()], 0, ranges_from(a, 0, unicode_digits()));
    let (x, y) = (expansion(a), expansion(b));
    assert(expansion(a + b) == every_pair(x, y));
    lemma_pairs_len(x, y);
    assert forall|i: int, j: int|
        #![trigger expansion(a)[i], expansion(b)[j]]
        0 <= i < x.len() && 0 <= j < y.len() implies expansion(a + b)[i * y.len() + j]
        == expansion(a)[i] + expansion(b)[j] by {
        lemma_pair_at(x, y, i, j);
    }
}

/// A text that opens no brace stands for itself.
pub proof fn law_no_brace_stands_for_itself(s: Seq<char>)
    requires
        forall|i: int| 0 <= i < s.len() ==> s[i] != '{',
    ensures
        expansion(s) == seq![s],
{
    law_no_brace_no_change(s);
}

// ---------------------------------------------------------------------------
// The URLs of a batch
// ---------------------------------------------------------------------------
/// A line of an input file gives what it holds without the white space around it;
/// nothing if that is empty or begins with a hash sign.
pub proof fn law_a_line_gives_its_url(p: Seq<char>, core: Seq<char>, q: Seq<char>)
    requires
        all_blank(p),
        all_blank(q),
        tight(core),
    ensures
        urls_in(seq![p + core + q]) == if core.len() == 0 || core[0] == '#' {
            Seq::<Seq<char>>::empty()
        } else {
            seq![core]
        },
{
    law_trimming_takes_the_ends(p, core, q);
    let list = seq![p + core + q];
    assert(list.drop_last() =~= Seq::empty());
    assert(urls_in(list.drop_last()) =~= Seq::empty());
    assert(Seq::<Seq<char>>::empty().push(core) =~= seq![core]);
}

/// The lines of a file give their URLs one after the other, each line by itself.
pub proof fn law_lines_give_their_urls_in_order(a: Seq<Seq<char>>, b: Seq<Seq<char>>)
    ensures
        urls_in(a + b) == urls_in(a) + urls_in(b),
    decreases b.len(),
{
    if b.len() == 0 {
        assert(a + b =~= a);
        assert(urls_in(a) + urls_in(b) =~= urls_in(a));
    } else {
        law_lines_give_their_urls_in_order(a, b.drop_last());
        assert((a + b).drop_last() =~= a + b.drop_last());
        assert((a + b).last() == b.last());
        assert(urls_in(a + b) =~= urls_in(a) + urls_in(b));
    }
}

/// The URLs of a run are those on the command line and then those in the file, and
/// each stands for what its ranges give, in this order.
pub proof fn law_all_urls_are_taken(args: Seq<Seq<char>>, content: Seq<char>, url: Seq<char>)
    ensures
        given_urls(args, None) == args,
        given_urls(args, Some(content)) == args + urls_in(lines(content)),
        expansions(Seq::empty()) == Seq::<Seq<char>>::empty(),
        expansions(args.push(url)) == expansions(args) + expansion(url),
{
    assert(args.push(url).drop_last() =~= args);
}

} // verus!
