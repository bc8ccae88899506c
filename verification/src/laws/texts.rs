//! Texts: their characters, trimming, lines and searching.
use vstd::prelude::*;

use crate::ranges::texts;
use crate::text::{
    ascii_digit, blank, chars_of, except, find, hex_digit, keep, lemma_end_run, lemma_find_from,
    lemma_run, lines, lines_from, lower, lower_char, not_blank, occurs_at, only, skip_while, str_of,
    take_while, text_of, trim, white_space, CharClass,
};

verus! {

/// Whether the text holds white space alone.
pub open spec fn all_blank(s: Seq<char>) -> bool {
    forall|i: int| 0 <= i < s.len() ==> white_space(#[trigger] s[i])
}

/// Whether the text neither begins nor ends with white space.
pub open spec fn tight(s: Seq<char>) -> bool {
    s.len() > 0 ==> !white_space(s[0]) && !white_space(s.last())
}

/// Trimming takes away the white space at both ends and nothing else.
pub proof fn law_trimming_takes_the_ends(p: Seq<char>, core: Seq<char>, q: Seq<char>)
    requires
        all_blank(p),
        all_blank(q),
        tight(core),
    ensures
        trim(p + core + q) == core,
{
    let s = p + core + q;
    if core.len() == 0 {
        assert forall|i: int| 0 <= i < s.len() implies blank()(#[trigger] s[i]) by {
            if i < p.len() {
                assert(s[i] == p[i]);
            } else {
                assert(s[i] == q[i - p.len()]);
            }
        }
        lemma_run(s, blank(), s.len() as int);
        assert(s.skip(s.len() as int) =~= Seq::<char>::empty());
        assert(trim(s) =~= core);
    } else {
        let n = p.len() as int;
        assert forall|i: int| 0 <= i < n implies blank()(#[trigger] s[i]) by {
            assert(s[i] == p[i]);
        }
        assert(s[n] == core[0]);
        lemma_run(s, blank(), n);
        let t = s.skip(n);
        assert(t =~= core + q);
        let m = core.len() as int;
        assert forall|i: int| m <= i < t.len() implies blank()(#[trigger] t[i]) by {
            assert(t[i] == q[i - m]);
        }
        assert(t[m - 1] == core.last());
        lemma_end_run(t, blank(), m);
        assert(t.take(m) =~= core);
    }
}

/// Every text is white space, a trimmed text and white space.
pub proof fn law_every_text_can_be_trimmed(s: Seq<char>)
    ensures
        exists|p: Seq<char>, q: Seq<char>|
            #![trigger p + trim(s) + q]
            all_blank(p) && all_blank(q) && s == p + trim(s) + q && tight(trim(s)),
    decreases s.len(),
{
    if s.len() > 0 && white_space(s[0]) {
        let t = s.drop_first();
        law_every_text_can_be_trimmed(t);
        let (p, q) = choose|p: Seq<char>, q: Seq<char>|
            #![trigger p + trim(t) + q]
            all_blank(p) && all_blank(q) && t == p + trim(t) + q && tight(trim(t));
        let p2 = seq![s[0]] + p;
        assert forall|i: int| 0 <= i < p2.len() implies white_space(#[trigger] p2[i]) by {
            if i > 0 {
                assert(p2[i] == p[i - 1]);
            }
        }
        assert(trim(s) == trim(t));
        let c = trim(t);
        assert(p2 + c + q =~= seq![s[0]] + (p + c + q));
        assert(s =~= seq![s[0]] + t);
        assert(s == p2 + trim(s) + q);
    } else if s.len() > 0 && white_space(s.last()) {
        let t = s.drop_last();
        law_every_text_can_be_trimmed(t);
        let (p, q) = choose|p: Seq<char>, q: Seq<char>|
            #![trigger p + trim(t) + q]
            all_blank(p) && all_blank(q) && t == p + trim(t) + q && tight(trim(t));
        let q2 = q.push(s.last());
        assert forall|i: int| 0 <= i < q2.len() implies white_space(#[trigger] q2[i]) by {
            if i < q.len() {
                assert(q2[i] == q[i]);
            }
        }
        let c = trim(t);
        assert(p + c + q2 =~= (p + c + q).push(s.last()));
        assert(s =~= t.push(s.last()));
        law_trimming_takes_the_ends(p, trim(t), q2);
    } else {
        let e = Seq::<char>::empty();
        law_trimming_takes_the_ends(e, s, e);
        assert(e + s + e =~= s);
        assert(s == e + trim(s) + e);
    }
}

proof fn lemma_lines_behind(a: Seq<char>, b: Seq<char>, start: int, i: int)
    requires
        0 <= start <= i <= b.len(),
    ensures
        lines_from(a + b, a.len() + start, a.len() + i) == lines_from(b, start, i),
    decreases b.len() - i,
{
    let s = a + b;
    if i >= b.len() {
        assert(s.subrange(a.len() + start, s.len() as int) =~= b.subrange(start, b.len() as int));
    } else {
        assert(s[a.len() + i] == b[i]);
        assert(s.subrange(a.len() + start, a.len() + i) =~= b.subrange(start, i));
        if b[i] == '\n' {
            lemma_lines_behind(a, b, i + 1, i + 1);
        } else {
            lemma_lines_behind(a, b, start, i + 1);
        }
    }
}

proof fn lemma_line_goes_on(s: Seq<char>, i: int, end: int)
    requires
        0 <= i <= end <= s.len(),
        forall|j: int| i <= j < end ==> s[j] != '\n',
    ensures
        lines_from(s, 0, i) == lines_from(s, 0, end),
    decreases end - i,
{
    if i < end {
        lemma_line_goes_on(s, i + 1, end);
    }
}

/// A line ends at a line feed, or at a carriage return and a line feed, and the rest
/// is read in the same way. What follows the last line feed is a line, unless it is
/// empty.
pub proof fn law_lines_end_at_line_feeds(a: Seq<char>, b: Seq<char>)
    requires
        !a.contains('\n'),
    ensures
        a.len() == 0 || a.last() != '\r' ==> lines(a + seq!['\n'] + b) == seq![a] + lines(b),
        lines(a + seq!['\r', '\n'] + b) == seq![a] + lines(b),
        a.len() > 0 ==> lines(a) == seq![a],
        lines(Seq::empty()) == Seq::<Seq<char>>::empty(),
{
    assert forall|j: int| 0 <= j < a.len() implies a[j] != '\n' by {
        assert(a.contains(a[j]));
    }
    let n = a.len() as int;
    let s = a + seq!['\n'] + b;
    lemma_line_goes_on(s, 0, n);
    assert(s[n] == '\n');
    lemma_lines_behind(a + seq!['\n'], b, 0, 0);
    assert(s.subrange(0, n) =~= a);
    let t = a + seq!['\r', '\n'] + b;
    lemma_line_goes_on(t, 0, n + 1);
    assert(t[n + 1] == '\n');
    lemma_lines_behind(a + seq!['\r', '\n'], b, 0, 0);
    let u = t.subrange(0, n + 1);
    assert(u.last() == '\r');
    assert(u.drop_last() =~= a);
    lemma_line_goes_on(a, 0, n);
    assert(a.subrange(0, n) =~= a);
}

/// Whether `pat` stands in `s` at position `i`, character by character.
pub open spec fn stands(s: Seq<char>, pat: Seq<char>, i: int) -> bool {
    0 <= i <= s.len() - pat.len() && forall|k: int|
        0 <= k < pat.len() ==> s[i + k] == #[trigger] pat[k]
}

pub proof fn lemma_stands(s: Seq<char>, pat: Seq<char>, i: int)
    ensures
        stands(s, pat, i) == occurs_at(s, pat, i),
{
    if stands(s, pat, i) {
        assert(s.subrange(i, i + pat.len()) =~= pat);
    }
    if occurs_at(s, pat, i) {
        assert forall|k: int| 0 <= k < pat.len() implies s[i + k] == #[trigger] pat[k] by {
            assert(s.subrange(i, i + pat.len())[k] == pat[k]);
        }
    }
}

/// A text is found where it stands first, and found if it stands anywhere.
pub proof fn law_the_first_place_is_found(s: Seq<char>, pat: Seq<char>)
    ensures
        match find(s, pat) {
            Some(i) => stands(s, pat, i) && forall|j: int|
                0 <= j < i ==> !#[trigger] stands(s, pat, j),
            None => forall|j: int| !#[trigger] stands(s, pat, j),
        },
{
    lemma_find_from(s, pat, 0);
    assert forall|j: int| #[trigger] stands(s, pat, j) == occurs_at(s, pat, j) by {
        lemma_stands(s, pat, j);
    }
}

/// The classes of characters, and lower case.
pub proof fn law_characters(c: char)
    ensures
        ascii_digit(c) <==> '0' <= c <= '9',
        hex_digit(c) <==> ('0' <= c <= '9' || 'a' <= c <= 'f' || 'A' <= c <= 'F'),
        'A' <= c <= 'Z' ==> lower_char(c) as int == c as int + 32,
        !('A' <= c <= 'Z') ==> lower_char(c) == c,
        white_space(' ') && white_space('\t') && white_space('\n') && white_space('\r'),
        '!' <= c <= '~' ==> !white_space(c),
{
}

/// Lower case is taken character by character.
pub proof fn law_lower_case(s: Seq<char>)
    ensures
        lower(s).len() == s.len(),
        forall|i: int| 0 <= i < s.len() ==> #[trigger] lower(s)[i] == lower_char(s[i]),
{
}

/// What is taken of a text before a character, and what is left after it is skipped.
pub proof fn law_taking_and_skipping(a: Seq<char>, x: char, b: Seq<char>)
    requires
        !a.contains(x),
    ensures
        take_while(a + seq![x] + b, except(x)) == a,
        take_while(a, except(x)) == a,
        skip_while(seq![x] + a, only(x)) == a,
        skip_while(a, only(x)) == a,
{
    assert forall|i: int| 0 <= i < a.len() implies a[i] != x by {
        assert(a.contains(a[i]));
    }
    let s = a + seq![x] + b;
    assert forall|i: int| 0 <= i < a.len() implies except(x)(#[trigger] s[i]) by {
        assert(s[i] == a[i]);
    }
    assert(s[a.len() as int] == x);
    lemma_run(s, except(x), a.len() as int);
    assert(s.take(a.len() as int) =~= a);
    lemma_run(a, except(x), a.len() as int);
    assert(a.take(a.len() as int) =~= a);
    let t = seq![x] + a;
    assert(a.len() > 0 ==> t[1] == a[0]);
    lemma_run(t, only(x), 1);
    assert(t.skip(1) =~= a);
    lemma_run(a, only(x), 0);
    assert(a.skip(0) =~= a);
}

/// The first word of a text, behind white space.
pub proof fn law_the_first_word(p: Seq<char>, word: Seq<char>, rest: Seq<char>)
    requires
        all_blank(p),
        forall|i: int| 0 <= i < word.len() ==> !white_space(#[trigger] word[i]),
        word.len() > 0,
        rest.len() > 0 ==> white_space(rest[0]),
    ensures
        take_while(skip_while(p + word + rest, blank()), not_blank()) == word,
{
    let s = p + word + rest;
    let n = p.len() as int;
    assert forall|i: int| 0 <= i < n implies blank()(#[trigger] s[i]) by {
        assert(s[i] == p[i]);
    }
    assert(s[n] == word[0]);
    lemma_run(s, blank(), n);
    let t = s.skip(n);
    assert(t =~= word + rest);
    let m = word.len() as int;
    assert forall|i: int| 0 <= i < m implies not_blank()(#[trigger] t[i]) by {
        assert(t[i] == word[i]);
    }
    if m < t.len() {
        assert(t[m] == rest[0]);
    }
    lemma_run(t, not_blank(), m);
    assert(t.take(m) =~= word);
}

/// The texts of strings are their characters, each in its place.
pub proof fn law_texts_of_strings(
    o: Option<String>,
    s: Option<&str>,
    list: Seq<String>,
    lists: Seq<Vec<char>>,
)
    ensures
        text_of(None) is None,
        str_of(None) is None,
        o matches Some(x) ==> text_of(o) == Some(x@),
        s matches Some(x) ==> str_of(s) == Some(x@),
        texts(list).len() == list.len(),
        forall|i: int|
            0 <= i < list.len() ==> #[trigger] texts(list)[i] == list[i]@,
        chars_of(lists).len() == lists.len(),
        forall|i: int| 0 <= i < lists.len() ==> #[trigger] chars_of(lists)[i] == lists[i]@,
{
}

/// What is kept of a text are its characters of the class, in order.
pub proof fn law_keeping(s: Seq<char>, p: CharClass)
    ensures
        keep(s, p) == s.filter(p),
    decreases s.len(),
{
    reveal(Seq::filter);
    if s.len() > 0 {
        law_keeping(s.drop_last(), p);
    }
}

} // verus!
