//! Digests: those that are expected, those that tools print, and those computed here.
use vstd::prelude::*;

use crate::digest::{digest_of, hex_text, sha256, sha256_input, sha512, sha512_input, FileHasher};
use crate::hash::{
    all_expected, expected_texts, first_hash, follows_tool, law_flags_displace_their_own_sidecar,
    law_separators_do_not_matter, lemma_drop_end_keeps, lemma_keep_hex, lemma_lower, line_hash,
    lossy_text, normalized, output_text, refused, sidecar_choice, sidecar_hash, tool_digest,
    tools_text, usable, ExpectedText, HashAction, HashAlgorithm, HashLengthError,
};
use crate::laws::texts::{
    all_blank, law_every_text_can_be_trimmed, law_the_first_word, law_trimming_takes_the_ends,
    tight,
};
use crate::text::{
    all_hex, blank, drop_end_while, hex_digit, lemma_end_run, lemma_run, lines, lower, not_blank,
    only, run_length, take_while, trim, white_space, CharClass,
};

verus! {

/// Whether the text holds hexadecimal digits alone, in either case.
pub open spec fn hex_alone(s: Seq<char>) -> bool {
    forall|i: int|
        0 <= i < s.len() ==> '0' <= (#[trigger] s[i]) <= '9' || 'a' <= s[i] <= 'f' || 'A' <= s[i]
            <= 'F'
}

/// Whether `t` is `s` with `A` to `F` in lower case.
pub open spec fn lowered(s: Seq<char>, t: Seq<char>) -> bool {
    t.len() == s.len() && forall|i: int|
        0 <= i < s.len() ==> (#[trigger] t[i]) as int == (if 'A' <= s[i] <= 'F' {
            s[i] as int + 32
        } else {
            s[i] as int
        })
}

/// The number of hexadecimal digits of a digest.
pub open spec fn digits_of(algo: HashAlgorithm) -> nat {
    match algo {
        HashAlgorithm::Sha256 => 64,
        HashAlgorithm::Sha512 => 128,
    }
}

proof fn lemma_hex_alone(s: Seq<char>)
    ensures
        hex_alone(s) == all_hex(s),
        hex_alone(s) ==> lowered(s, lower(s)),
{
    if hex_alone(s) {
        assert forall|i: int| 0 <= i < s.len() implies hex_digit(#[trigger] s[i]) by {}
    }
    if all_hex(s) {
        assert forall|i: int| 0 <= i < s.len() implies '0' <= (#[trigger] s[i]) <= '9' || 'a'
            <= s[i] <= 'f' || 'A' <= s[i] <= 'F' by {
            assert(hex_digit(s[i]));
        }
    }
}

// ---------------------------------------------------------------------------
// Hashes that the user gives
// ---------------------------------------------------------------------------
/// A hash keeps each of its digits, in lower case, and loses every other character,
/// wherever that stands.
pub proof fn law_a_hash_is_its_digits(h: Seq<char>, a: Seq<char>, c: char, b: Seq<char>)
    ensures
        hex_alone(h) ==> lowered(h, normalized(h)),
        !('0' <= c <= '9' || 'a' <= c <= 'f' || 'A' <= c <= 'F') ==> normalized(a.push(c) + b)
            == normalized(a + b),
{
    lemma_hex_alone(h);
    lemma_keep_hex(h);
    if !('0' <= c <= '9' || 'a' <= c <= 'f' || 'A' <= c <= 'F') {
        law_separators_do_not_matter(a, c, b);
    }
}

/// A hash is used if it has 64 digits for SHA-256, 128 for SHA-512; else it is
/// refused, with the number that it has. That for SHA-256 is looked at first.
pub proof fn law_hashes_of_another_length_are_refused(
    sha256: Option<Seq<char>>,
    sha512: Option<Seq<char>>,
    e: HashLengthError,
)
    ensures
        usable(sha256, HashAlgorithm::Sha256) <==> sha256 is None || normalized(sha256->0).len()
            == 64,
        usable(sha512, HashAlgorithm::Sha512) <==> sha512 is None || normalized(sha512->0).len()
            == 128,
        refused(sha256, sha512, e) ==> if sha256 is Some && normalized(sha256->0).len() != 64 {
            e.algorithm == HashAlgorithm::Sha256 && e.found == normalized(sha256->0).len()
        } else {
            &&& sha512 is Some && normalized(sha512->0).len() != 128
            &&& e.algorithm == HashAlgorithm::Sha512
            &&& e.found == normalized(sha512->0).len()
        },
{
}

/// Of each algorithm that hash is verified that its flag gives; without a flag that
/// in its sidecar file, if there is one. What the other algorithm has makes no
/// difference. No algorithm is verified twice.
pub proof fn law_every_given_hash_is_verified(
    sha256: Option<Seq<char>>,
    sha512: Option<Seq<char>>,
    text256: Option<Seq<char>>,
    text512: Option<Seq<char>>,
    x: Seq<char>,
)
    ensures
        ({
            let all = all_expected(sha256, sha512, text256, text512);
            &&& all.contains((HashAlgorithm::Sha256, x)) <==> match sha256 {
                Some(h) => x == normalized(h),
                None => text256 is Some && sidecar_hash(text256->0, 64) == Some(x),
            }
            &&& all.contains((HashAlgorithm::Sha512, x)) <==> match sha512 {
                Some(h) => x == normalized(h),
                None => text512 is Some && sidecar_hash(text512->0, 128) == Some(x),
            }
            &&& forall|i: int, j: int|
                0 <= i < j < all.len() ==> (#[trigger] all[i]).0 != (#[trigger] all[j]).0
        }),
{
    law_flags_displace_their_own_sidecar(sha256, sha512, text256, text512);
    let all = all_expected(sha256, sha512, text256, text512);
    let a: ExpectedText = (HashAlgorithm::Sha256, x);
    let b: ExpectedText = (HashAlgorithm::Sha512, x);
    assert(all.contains(a) == all.contains(a));
    assert(all.contains(b) == all.contains(b));
}

/// The texts of expected hashes are their own.
pub proof fn law_expected_texts(list: Seq<(HashAlgorithm, String)>)
    ensures
        expected_texts(list).len() == list.len(),
        forall|i: int|
            0 <= i < list.len() ==> #[trigger] expected_texts(list)[i] == (list[i].0, list[i].1@),
{
}

// ---------------------------------------------------------------------------
// Sidecar files
// ---------------------------------------------------------------------------
/// Whether the text holds stars alone.
pub open spec fn stars(s: Seq<char>) -> bool {
    forall|i: int| 0 <= i < s.len() ==> #[trigger] s[i] == '*'
}

/// A line that begins, behind white space, with a hash, with or without stars around
/// it, gives the hash in lower case, if it has the length that is asked for; whatever
/// follows behind white space. With another length it gives none.
pub proof fn law_a_line_gives_its_hash(
    p: Seq<char>,
    before: Seq<char>,
    hash: Seq<char>,
    after: Seq<char>,
    rest: Seq<char>,
    len: nat,
)
    requires
        all_blank(p),
        stars(before),
        stars(after),
        hex_alone(hash),
        hash.len() > 0,
        rest.len() > 0 ==> white_space(rest[0]),
    ensures
        hash.len() == len ==> line_hash(p + before + hash + after + rest, len) is Some && lowered(
            hash,
            line_hash(p + before + hash + after + rest, len)->0,
        ),
        hash.len() != len ==> line_hash(p + before + hash + after + rest, len) is None,
{
    let token = before + hash + after;
    let s = p + before + hash + after + rest;
    let n = p.len() as int;
    let k = token.len() as int;
    let h0 = before.len() as int;
    lemma_hex_alone(hash);
    assert forall|i: int| 0 <= i < k implies !white_space(#[trigger] token[i]) by {
        if i < h0 {
            assert(token[i] == before[i]);
        } else if i < h0 + hash.len() {
            assert(token[i] == hash[i - h0]);
        } else {
            assert(token[i] == after[i - h0 - hash.len()]);
        }
    }
    assert(s =~= p + (token + rest));
    assert forall|i: int| 0 <= i < n implies blank()(#[trigger] s[i]) by {
        assert(s[i] == p[i]);
    }
    assert(s[n] == token[0]);
    lemma_run(s, blank(), n);
    let u = token + rest;
    assert(s.skip(n) =~= u);
    assert(u[k - 1] == token[k - 1]);
    lemma_drop_end_keeps(u, blank(), k);
    let t = trim(s);
    assert(t == drop_end_while(u, blank()));
    assert forall|i: int| 0 <= i < k implies not_blank()(#[trigger] t[i]) by {
        assert(t[i] == u[i] && u[i] == token[i]);
    }
    if k < t.len() {
        assert(t[k] == u[k] && u[k] == rest[0]);
    }
    lemma_run(t, not_blank(), k);
    assert(t.take(k) =~= token);
    assert forall|i: int| 0 <= i < h0 implies only('*')(#[trigger] token[i]) by {
        assert(token[i] == before[i]);
    }
    assert(token[h0] == hash[0]);
    lemma_run(token, only('*'), h0);
    let v = token.skip(h0);
    assert(v =~= hash + after);
    let m = hash.len() as int;
    assert forall|i: int| m <= i < v.len() implies only('*')(#[trigger] v[i]) by {
        assert(v[i] == after[i - m]);
    }
    assert(v[m - 1] == hash[m - 1]);
    lemma_end_run(v, only('*'), m);
    assert(v.take(m) =~= hash);
    assert(t[0] == token[0]);
    assert(t[0] != '#') by {
        if h0 > 0 {
            assert(token[0] == before[0]);
        } else {
            assert(token[0] == hash[0]);
        }
    }
}

/// A blank line and a comment give no hash.
pub proof fn law_a_comment_gives_no_hash(p: Seq<char>, rest: Seq<char>, len: nat)
    requires
        all_blank(p),
    ensures
        line_hash(p, len) is None,
        line_hash(p + seq!['#'] + rest, len) is None,
{
    let e = Seq::<char>::empty();
    assert(p + e + e =~= p);
    law_trimming_takes_the_ends(p, e, e);
    let s = p + seq!['#'] + rest;
    let n = p.len() as int;
    assert forall|i: int| 0 <= i < n implies blank()(#[trigger] s[i]) by {
        assert(s[i] == p[i]);
    }
    assert(s[n] == '#');
    lemma_run(s, blank(), n);
    let u = s.skip(n);
    assert(u[0] == '#');
    lemma_drop_end_keeps(u, blank(), 1);
}

pub proof fn lemma_run_exists(s: Seq<char>, p: CharClass)
    ensures
        exists|n: int| #[trigger] run_length(s, p, n),
    decreases s.len(),
{
    if s.len() > 0 && p(s[0]) {
        let t = s.drop_first();
        lemma_run_exists(t, p);
        let n = choose|n: int| #[trigger] run_length(t, p, n);
        assert forall|i: int| 0 <= i < n + 1 implies p(#[trigger] s[i]) by {
            if i > 0 {
                assert(t[i - 1] == s[i]);
            }
        }
        if n + 1 < s.len() {
            assert(t[n] == s[n + 1]);
        }
        assert(run_length(s, p, n + 1));
    } else {
        assert(run_length(s, p, 0));
    }
}

proof fn lemma_drop_end_is_prefix(s: Seq<char>, p: CharClass)
    ensures
        drop_end_while(s, p).len() <= s.len(),
        drop_end_while(s, p) == s.take(drop_end_while(s, p).len() as int),
    decreases s.len(),
{
    if s.len() > 0 && p(s.last()) {
        lemma_drop_end_is_prefix(s.drop_last(), p);
        let r = drop_end_while(s, p);
        assert(s.drop_last().take(r.len() as int) =~= s.take(r.len() as int));
    } else {
        assert(s.take(s.len() as int) =~= s);
    }
}

/// A hash that a line gives stands in it, behind white space and stars alone; it has
/// the length that is asked for.
pub proof fn law_a_hash_stands_at_the_front(line: Seq<char>, len: nat)
    requires
        line_hash(line, len) is Some,
    ensures
        line_hash(line, len)->0.len() == len,
        hex_alone(line_hash(line, len)->0),
        exists|i: int|
            {
                &&& 0 <= i <= line.len() - len
                &&& lowered(
                    #[trigger] line.subrange(i, (i + len) as int),
                    line_hash(line, len)->0,
                )
                &&& forall|j: int|
                    0 <= j < i ==> white_space(#[trigger] line[j]) || line[j] == '*'
            },
{
    let t = trim(line);
    law_every_text_can_be_trimmed(line);
    let (p, q) = choose|p: Seq<char>, q: Seq<char>|
        #![trigger p + trim(line) + q]
        all_blank(p) && all_blank(q) && line == p + trim(line) + q && tight(trim(line));
    lemma_run_exists(t, not_blank());
    let k = choose|k: int| #[trigger] run_length(t, not_blank(), k);
    lemma_run(t, not_blank(), k);
    let token = t.take(k);
    lemma_run_exists(token, only('*'));
    let a = choose|a: int| #[trigger] run_length(token, only('*'), a);
    lemma_run(token, only('*'), a);
    let v = token.skip(a);
    lemma_drop_end_is_prefix(v, only('*'));
    let core = drop_end_while(v, only('*'));
    lemma_hex_alone(core);
    lemma_lower(core);
    lemma_hex_alone(lower(core));
    let i = p.len() + a;
    assert(core.len() == len);
    assert(line.subrange(i, i + len) =~= core) by {
        assert forall|j: int| 0 <= j < len implies line[i + j] == core[j] by {
            assert(core[j] == v[j] && v[j] == token[a + j] && token[a + j] == t[a + j]);
        }
    }
    assert forall|j: int| 0 <= j < i implies white_space(#[trigger] line[j]) || line[j] == '*' by {
        if j < p.len() {
            assert(line[j] == p[j]);
        } else {
            assert(line[j] == t[j - p.len()] && t[j - p.len()] == token[j - p.len()]);
        }
    }
    assert(lowered(line.subrange(i, (i + len) as int), line_hash(line, len)->0));
}

proof fn lemma_first_hash_behind(a: Seq<Seq<char>>, b: Seq<Seq<char>>, len: nat)
    requires
        forall|i: int| 0 <= i < a.len() ==> line_hash(#[trigger] a[i], len) is None,
    ensures
        first_hash(a + b, len) == first_hash(b, len),
    decreases a.len(),
{
    if a.len() == 0 {
        assert(a + b =~= b);
    } else {
        assert((a + b)[0] == a[0]);
        assert((a + b).drop_first() =~= a.drop_first() + b);
        assert forall|i: int| 0 <= i < a.drop_first().len() implies line_hash(
            #[trigger] a.drop_first()[i],
            len,
        ) is None by {
            assert(a.drop_first()[i] == a[i + 1]);
        }
        lemma_first_hash_behind(a.drop_first(), b, len);
    }
}

/// A sidecar file gives the hash on the first of its lines that gives one, whatever
/// follows; none if no line does.
pub proof fn law_the_first_hash_counts(
    content: Seq<char>,
    a: Seq<Seq<char>>,
    b: Seq<Seq<char>>,
    len: nat,
)
    requires
        lines(content) == a + b,
        forall|i: int| 0 <= i < a.len() ==> line_hash(#[trigger] a[i], len) is None,
    ensures
        b.len() == 0 ==> sidecar_hash(content, len) is None,
        b.len() > 0 && line_hash(b[0], len) is Some ==> sidecar_hash(content, len) == line_hash(
            b[0],
            len,
        ),
{
    lemma_first_hash_behind(a, b, len);
}

/// Of two sidecar files that for SHA-256 goes first.
pub proof fn law_sidecars_are_looked_at_in_order(
    sha256: Option<Seq<char>>,
    sha512: Option<Seq<char>>,
)
    ensures
        ({
            let short = match sha256 {
                Some(t) => sidecar_hash(t, 64),
                None => None,
            };
            let long = match sha512 {
                Some(t) => sidecar_hash(t, 128),
                None => None,
            };
            sidecar_choice(sha256, sha512) == match (short, long) {
                (Some(h), _) => Some((HashAlgorithm::Sha256, h)),
                (None, Some(h)) => Some((HashAlgorithm::Sha512, h)),
                (None, None) => None,
            }
        }),
{
}

// ---------------------------------------------------------------------------
// Tools
// ---------------------------------------------------------------------------
/// What a tool prints is read up to the end of its first word: the digits in that are
/// the digest, if there are as many as the algorithm has.
pub proof fn law_the_first_word_is_the_digest(
    algo: HashAlgorithm,
    p: Seq<char>,
    word: Seq<char>,
    rest: Seq<char>,
)
    requires
        all_blank(p),
        forall|i: int| 0 <= i < word.len() ==> !white_space(#[trigger] word[i]),
        word.len() > 0,
        rest.len() > 0 ==> white_space(rest[0]),
    ensures
        tool_digest(algo, p + word + rest) == if normalized(word).len() == digits_of(algo) {
            Some(normalized(word))
        } else {
            None
        },
{
    law_the_first_word(p, word, rest);
}

/// White space is no digest.
pub proof fn law_no_word_is_no_digest(algo: HashAlgorithm, p: Seq<char>)
    requires
        all_blank(p),
    ensures
        tool_digest(algo, p) is None,
{
    assert forall|i: int| 0 <= i < p.len() implies blank()(#[trigger] p[i]) by {}
    lemma_run(p, blank(), p.len() as int);
    assert(p.skip(p.len() as int) =~= Seq::<char>::empty());
    assert(take_while(Seq::<char>::empty(), not_blank()) =~= Seq::<char>::empty());
    lemma_keep_hex(Seq::empty());
}

/// A digest that a tool prints is the end of it. Else the next of the four tools is
/// run, and after the last one the file is hashed in this process.
pub proof fn law_tools_are_tried_one_by_one(
    algo: HashAlgorithm,
    tool: usize,
    output: Option<Seq<char>>,
    action: HashAction,
)
    requires
        follows_tool(algo, tool, output, action),
    ensures
        ({
            let digest = match output {
                Some(text) => tool_digest(algo, text),
                None => None,
            };
            match digest {
                Some(hex) => action is Finished && action->Finished_0@ == hex,
                None => if tool < 3 {
                    action == HashAction::RunTool((tool + 1) as usize)
                } else {
                    action == HashAction::HashInProcess
                },
            }
        }),
{
    assert(algo.spec_tools().len() == 4);
}

/// The texts of a list of tools are their own: the command and its arguments.
pub proof fn law_texts_of_tools(list: Seq<(&'static str, &'static [&'static str])>, i: int, j: int)
    requires
        0 <= i < list.len(),
        0 <= j < list[i].1@.len(),
    ensures
        tools_text(list).len() == list.len(),
        tools_text(list)[i].0 == list[i].0@,
        tools_text(list)[i].1.len() == list[i].1@.len(),
        tools_text(list)[i].1[j] == list[i].1@[j]@,
{
}

/// What a tool prints is its text, as far as it is one.
pub proof fn law_output_is_text(output: Option<&[u8]>)
    ensures
        output matches Some(bytes) ==> output_text(output) == Some(lossy_text(bytes@)),
        output is None ==> output_text(output) is None,
{
}

// ---------------------------------------------------------------------------
// Digests
// ---------------------------------------------------------------------------
/// The value of a hexadecimal digit in lower case.
pub open spec fn hex_value(c: char) -> int {
    if '0' <= c <= '9' {
        c as int - '0' as int
    } else {
        c as int - 'a' as int + 10
    }
}

/// Bytes are written as two digits each, the high one first, in lower case, and read
/// back from them.
pub proof fn law_bytes_read_back_from_digits(data: Seq<u8>, i: int)
    requires
        0 <= i < data.len(),
    ensures
        hex_text(data).len() == 2 * data.len(),
        ({
            let (high, low) = (hex_text(data)[2 * i], hex_text(data)[2 * i + 1]);
            &&& '0' <= high <= '9' || 'a' <= high <= 'f'
            &&& '0' <= low <= '9' || 'a' <= low <= 'f'
            &&& 16 * hex_value(high) + hex_value(low) == data[i]
        }),
{
    assert((2 * i) / 2 == i && (2 * i + 1) / 2 == i);
    assert((2 * i) % 2 == 0 && (2 * i + 1) % 2 == 1);
}

/// The digest of each algorithm is its own, of what its hasher was given.
pub proof fn law_each_algorithm_has_its_digest(
    data: Seq<u8>,
    a: sha2::Sha256,
    b: sha2::Sha512,
)
    ensures
        digest_of(HashAlgorithm::Sha256, data) == sha256(data),
        digest_of(HashAlgorithm::Sha512, data) == sha512(data),
        FileHasher::Sha256(a).input() == sha256_input(a),
        FileHasher::Sha512(b).input() == sha512_input(b),
        FileHasher::Sha256(a).algorithm() == HashAlgorithm::Sha256,
        FileHasher::Sha512(b).algorithm() == HashAlgorithm::Sha512,
{
}

} // verus!
