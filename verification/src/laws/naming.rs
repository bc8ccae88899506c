//! Names and paths.
use vstd::prelude::*;

use crate::hash::{law_sidecar_file_stands_beside, sidecar_path, HashAlgorithm};
use crate::laws::hashing::lemma_run_exists;
use crate::laws::texts::{law_the_first_place_is_found, lemma_stands, stands};
use crate::paths::{
    before_last_slash, drive, ends_with, final_name, last_segment, last_slash,
    law_name_in_directory, lemma_last_slash, lemma_last_slash_is, parent_path, part_of, path_in,
    plain_name, portable, stripped, surely_named, tail, verbatim,
};
use crate::resume::{control_path, law_control_file_is_hidden_beside};
use crate::target::{
    chosen_name, disposition_value, is_clean, leads_to, replace_all, url_segment, ParsedUrl, Target,
    TargetError,
};
use crate::text::{
    except, find, lemma_find_from, lemma_run, occurs_at, only, run_length, take_while,
};

verus! {

// ---------------------------------------------------------------------------
// Paths
// ---------------------------------------------------------------------------
/// Whether the text is the name of a file: not empty, no dots alone, no slash in it.
pub open spec fn file_name_alone(s: Seq<char>) -> bool {
    s.len() > 0 && s != seq!['.'] && s != seq!['.', '.'] && !s.contains('/')
}

/// Whether the text is a directory: not empty, with neither a slash nor a slash and a
/// dot at its end.
pub open spec fn directory_alone(s: Seq<char>) -> bool {
    &&& s.len() > 0
    &&& s.last() != '/'
    &&& !(s.len() >= 2 && s.last() == '.' && s[s.len() - 2] == '/')
}

proof fn lemma_literals()
    ensures
        ""@ == Seq::<char>::empty(),
        "."@ == seq!['.'],
        ".."@ == seq!['.', '.'],
        "/"@ == seq!['/'],
        "/."@ == seq!['/', '.'],
{
    reveal_strlit("");
    reveal_strlit(".");
    reveal_strlit("..");
    reveal_strlit("/");
    reveal_strlit("/.");
    assert(""@ =~= Seq::<char>::empty());
    assert("."@ =~= seq!['.']);
    assert(".."@ =~= seq!['.', '.']);
    assert("/"@ =~= seq!['/']);
    assert("/."@ =~= seq!['/', '.']);
}

proof fn lemma_directory_alone(dir: Seq<char>)
    requires
        directory_alone(dir),
    ensures
        stripped(dir) == dir,
{
    lemma_literals();
    lemma_last_slash(dir);
    if let Some(i) = last_slash(dir) {
        let seg = last_segment(dir);
        assert(seg.len() == dir.len() - i - 1);
        if seg.len() == 0 {
            assert(dir[dir.len() - 1] == '/');
        }
        if seg == seq!['.'] {
            assert(seg[0] == dir[i + 1]);
        }
    }
}

/// What a plain name is.
pub proof fn law_plain_names(s: Seq<char>)
    ensures
        plain_name(s) <==> file_name_alone(s),
{
    lemma_literals();
    assert(s.len() == 0 <==> s =~= Seq::<char>::empty());
}

/// A name behind a directory and a slash is the name of that path, and the directory
/// its parent. A slash at the end, with or without a dot behind it, changes neither.
pub proof fn law_a_path_has_its_name_and_parent(dir: Seq<char>, name: Seq<char>)
    requires
        directory_alone(dir),
        file_name_alone(name),
    ensures
        ({
            let p = dir + seq!['/'] + name;
            &&& path_in(dir, name) == p
            &&& final_name(p) == Some(name)
            &&& parent_path(p) == Some(dir)
            &&& final_name(p + seq!['/']) == Some(name)
            &&& parent_path(p + seq!['/']) == Some(dir)
            &&& final_name(p + seq!['/', '.']) == Some(name)
        }),
        final_name(name) == Some(name),
        parent_path(name) == Some(Seq::<char>::empty()),
        path_in(Seq::empty(), name) == name,
        path_in(seq!['/'], name) == seq!['/'] + name,
{
    lemma_literals();
    lemma_directory_alone(dir);
    law_plain_names(name);
    law_name_in_directory(dir, name);
    let p = dir + seq!['/'] + name;
    lemma_strip_slash(p);
    assert(Seq::<char>::empty() + name =~= name);
}

/// A name is put into a directory with one slash between the two; none where the
/// directory ends with one or is empty.
pub proof fn law_one_slash_is_between(dir: Seq<char>, name: Seq<char>)
    ensures
        dir.len() == 0 ==> path_in(dir, name) == name,
        dir.len() > 0 && dir.last() == '/' ==> path_in(dir, name) == dir + name,
        dir.len() > 0 && dir.last() != '/' ==> path_in(dir, name) == dir + seq!['/'] + name,
{
    lemma_literals();
    if dir.len() == 0 {
        assert(dir + name =~= name);
    }
}

proof fn lemma_strip_slash(p: Seq<char>)
    ensures
        stripped(p + seq!['/']) == stripped(p),
        stripped(p + seq!['/', '.']) == stripped(p),
{
    lemma_literals();
    let s = p + seq!['/'];
    let n = p.len() as int;
    lemma_last_slash_is(s, n);
    assert(s.skip(n + 1) =~= Seq::<char>::empty());
    assert(s.take(n) =~= p);
    assert(before_last_slash(s) == p);
    let t = p + seq!['/', '.'];
    lemma_last_slash_is(t, n);
    assert(t.skip(n + 1) =~= seq!['.']);
    assert(t.take(n) =~= p);
    assert(before_last_slash(t) == p);
}

/// A path that ends in two dots, in the root or in nothing has no name; the root and
/// the empty path have no parent.
pub proof fn law_paths_without_a_name(dir: Seq<char>)
    ensures
        final_name(dir + seq!['/', '.', '.']) is None,
        final_name(seq!['.', '.']) is None,
        final_name(seq!['.']) is None,
        final_name(seq!['/']) is None,
        final_name(Seq::empty()) is None,
        parent_path(seq!['/']) is None,
        parent_path(Seq::empty()) is None,
{
    lemma_literals();
    let s = dir + seq!['/', '.', '.'];
    let n = dir.len() as int;
    lemma_last_slash_is(s, n);
    assert(s.skip(n + 1) =~= seq!['.', '.']);
    assert(seq!['.', '.'].len() == 2 && seq!['.'].len() == 1);
    lemma_last_slash(seq!['.', '.']);
    lemma_last_slash(seq!['.']);
    let e = Seq::<char>::empty();
    lemma_strip_slash(e);
    assert(e + seq!['/'] =~= seq!['/']);
    lemma_last_slash(e);
}

/// Which paths mean the same everywhere.
pub proof fn law_which_paths_are_portable(p: Seq<char>)
    ensures
        portable(p) <==> {
            &&& !p.contains('\\')
            &&& !(p.len() >= 2 && p[0] == '/' && p[1] == '/')
            &&& !(p.len() >= 2 && p[1] == ':' && ('a' <= p[0] <= 'z' || 'A' <= p[0] <= 'Z'))
        },
        drive(p) <==> p.len() >= 2 && p[1] == ':' && ('a' <= p[0] <= 'z' || 'A' <= p[0] <= 'Z'),
{
}

/// A part of a text stands somewhere in it.
pub proof fn law_parts(b: Seq<char>, s: Seq<char>)
    ensures
        part_of(b, s) <==> exists|i: int| #[trigger] stands(s, b, i),
{
    if part_of(b, s) {
        let i = choose|i: int| #[trigger] occurs_at(s, b, i);
        lemma_stands(s, b, i);
        assert(stands(s, b, i));
    }
    if exists|i: int| #[trigger] stands(s, b, i) {
        let i = choose|i: int| #[trigger] stands(s, b, i);
        lemma_stands(s, b, i);
        assert(occurs_at(s, b, i));
    }
}

/// A text ends with what stands at its end.
pub proof fn law_ends(a: Seq<char>, b: Seq<char>, s: Seq<char>)
    ensures
        ends_with(a + b, b),
        ends_with(s, b) ==> s.len() >= b.len() && s == s.take(s.len() - b.len()) + b,
{
    assert((a + b).skip((a + b).len() - b.len()) =~= b);
    if ends_with(s, b) {
        assert(s =~= s.take(s.len() - b.len()) + s.skip(s.len() - b.len()));
    }
}

/// Which paths are verbatim ones of Windows.
pub proof fn law_which_paths_are_verbatim(s: Seq<char>)
    ensures
        verbatim(s) <==> s.len() >= 4 && s[0] == '\\' && s[1] == '\\' && s[2] == '?' && s[3]
            == '\\',
{
    reveal_strlit("\\\\?\\");
    if s.len() >= 4 {
        let t = s.take(4);
        assert(t[0] == s[0] && t[1] == s[1] && t[2] == s[2] && t[3] == s[3]);
        if s[0] == '\\' && s[1] == '\\' && s[2] == '?' && s[3] == '\\' {
            assert(t =~= "\\\\?\\"@);
        }
    }
}

/// What follows the last slash, backslash or colon of a path; a path that ends in a
/// name there, and does not begin with two separators, has one everywhere.
pub proof fn law_the_tail_of_a_path(front: Seq<char>, x: char, name: Seq<char>)
    requires
        !name.contains('/') && !name.contains('\\') && !name.contains(':'),
        x == '/' || x == '\\' || x == ':',
    ensures
        tail(name) == name,
        tail(front.push(x) + name) == name,
        surely_named(front.push(x) + name) <==> file_name_alone(name) && !({
            let p = front.push(x) + name;
            p.len() >= 2 && (p[0] == '/' || p[0] == '\\') && (p[1] == '/' || p[1] == '\\')
        }),
    decreases name.len(),
{
    lemma_literals();
    let p = front.push(x) + name;
    if name.len() == 0 {
        assert(p =~= front.push(x));
        assert(name =~= Seq::<char>::empty());
    } else {
        let h = name.drop_last();
        assert forall|c: char| h.contains(c) implies name.contains(c) by {
            let i = choose|i: int| 0 <= i < h.len() && h[i] == c;
            assert(name[i] == c);
        }
        law_the_tail_of_a_path(front, x, h);
        assert(name.contains(name[name.len() - 1]));
        assert(p.drop_last() =~= front.push(x) + h);
        assert(name =~= h.push(name.last()));
    }
}

/// The control file of `dir/name` is `dir/.name.rget`, its sidecar files are
/// `dir/name.sha256` and `dir/name.sha512`; without a directory the same holds of the
/// name alone.
pub proof fn law_files_beside_a_target(dir: Seq<char>, name: Seq<char>)
    requires
        directory_alone(dir),
        file_name_alone(name),
    ensures
        ({
            let p = dir + seq!['/'] + name;
            let end = seq!['.', 'r', 'g', 'e', 't'];
            &&& control_path(p) == dir + seq!['/', '.'] + name + end
            &&& control_path(name) == seq!['.'] + name + end
            &&& sidecar_path(p, HashAlgorithm::Sha256) == Some(
                p + seq!['.', 's', 'h', 'a', '2', '5', '6'],
            )
            &&& sidecar_path(p, HashAlgorithm::Sha512) == Some(
                p + seq!['.', 's', 'h', 'a', '5', '1', '2'],
            )
            &&& sidecar_path(name, HashAlgorithm::Sha256) == Some(
                name + seq!['.', 's', 'h', 'a', '2', '5', '6'],
            )
            &&& sidecar_path(name, HashAlgorithm::Sha512) == Some(
                name + seq!['.', 's', 'h', 'a', '5', '1', '2'],
            )
        }),
{
    lemma_literals();
    lemma_directory_alone(dir);
    law_plain_names(name);
    reveal_strlit(".rget");
    reveal_strlit(".sha256");
    reveal_strlit(".sha512");
    assert(".rget"@ =~= seq!['.', 'r', 'g', 'e', 't']);
    assert(".sha256"@ =~= seq!['.', 's', 'h', 'a', '2', '5', '6']);
    assert(".sha512"@ =~= seq!['.', 's', 'h', 'a', '5', '1', '2']);
    law_control_file_is_hidden_beside(dir, name);
    law_sidecar_file_stands_beside(dir, name, HashAlgorithm::Sha256);
    law_sidecar_file_stands_beside(dir, name, HashAlgorithm::Sha512);
}

/// A target in the root, or without a name, has its control file beside it too.
pub proof fn law_control_files_of_odd_targets(name: Seq<char>)
    requires
        file_name_alone(name),
    ensures
        control_path(seq!['/'] + name) == seq!['/', '.'] + name + seq!['.', 'r', 'g', 'e', 't'],
        control_path(seq!['/']) == seq!['.', '/', '.', '.', 'r', 'g', 'e', 't'],
        sidecar_path(seq!['/'], HashAlgorithm::Sha256) is None,
        sidecar_path(seq!['/'], HashAlgorithm::Sha512) is None,
{
    lemma_literals();
    law_plain_names(name);
    reveal_strlit(".rget");
    assert(".rget"@ =~= seq!['.', 'r', 'g', 'e', 't']);
    let p = seq!['/'] + name;
    assert forall|j: int| 0 < j < p.len() implies p[j] != '/' by {
        assert(p[j] == name[j - 1]);
        assert(name.contains(name[j - 1]));
    }
    lemma_last_slash_is(p, 0);
    assert(p.skip(1) =~= name);
    assert(p.take(0) =~= Seq::<char>::empty());
    let e = Seq::<char>::empty();
    lemma_last_slash(e);
    assert(stripped(e) == e);
    assert(stripped(p) == p);
    assert(p.len() > 0);
    assert(parent_path(p) == Some(seq!['/']));
    assert(seq!['/'] + (seq!['.'] + name + ".rget"@) =~= seq!['/', '.'] + name + ".rget"@);
    law_paths_without_a_name(e);
    assert(seq!['.'] + "/"@ + (seq!['.'] + e + ".rget"@) =~= seq![
        '.',
        '/',
        '.',
        '.',
        'r',
        'g',
        'e',
        't',
    ]);
    assert(seq!['.'].last() == '.');
}

// ---------------------------------------------------------------------------
// URLs
// ---------------------------------------------------------------------------
/// The last segment of the path of a URL is what follows its last slash; a path that
/// does not begin with a slash has none.
pub proof fn law_the_last_segment(front: Seq<char>, name: Seq<char>)
    requires
        !name.contains('/'),
    ensures
        front.len() == 0 || front[0] == '/' ==> url_segment(front + seq!['/'] + name) == Some(name),
        front.len() > 0 && front[0] != '/' ==> url_segment(front + seq!['/'] + name) is None,
        url_segment(name) is None,
{
    let s = front + seq!['/'] + name;
    let n = front.len() as int;
    assert forall|j: int| n < j < s.len() implies s[j] != '/' by {
        assert(s[j] == name[j - n - 1]);
        assert(name.contains(name[j - n - 1]));
    }
    lemma_last_slash_is(s, n);
    assert(s.skip(n + 1) =~= name);
    if name.len() > 0 {
        assert(name.contains(name[0]));
    }
    assert(s[0] == if n == 0 {
        '/'
    } else {
        front[0]
    });
}

/// A URL leads to its own text, host, port and last segment. Without a host, or
/// without a port, it leads nowhere, and neither does a text that is no URL.
pub proof fn law_where_a_url_leads(u: ParsedUrl, r: Result<Target, TargetError>)
    ensures
        leads_to(None, r) <==> r == Err::<Target, TargetError>(TargetError::InvalidUrl),
        leads_to(Some(u.parts()), r) ==> {
            if u.host is None {
                r == Err::<Target, TargetError>(TargetError::NoHost)
            } else if u.port is None {
                r == Err::<Target, TargetError>(TargetError::NoPort)
            } else {
                &&& r is Ok
                &&& r->Ok_0.url@ == u.text@
                &&& r->Ok_0.host@ == u.host->0@
                &&& r->Ok_0.port == u.port->0
                &&& match r->Ok_0.segment {
                    Some(x) => url_segment(u.path@) == Some(x@),
                    None => url_segment(u.path@) is None,
                }
            }
        },
        u.parts() == (
            u.text@,
            match u.host {
                Some(h) => Some(h@),
                None => None,
            },
            u.port,
            u.path@,
        ),
{
}

// ---------------------------------------------------------------------------
// Names in headers
// ---------------------------------------------------------------------------
/// An encoded space.
pub open spec fn encoded() -> Seq<char> {
    seq!['%', '2', '0']
}

/// The characters of the key of a name in a header.
pub open spec fn key() -> Seq<char> {
    seq!['f', 'i', 'l', 'e', 'n', 'a', 'm', 'e', '=']
}

proof fn lemma_key()
    ensures
        "filename="@ == key(),
        "%20"@ == encoded(),
        " "@ == seq![' '],
{
    reveal_strlit("filename=");
    reveal_strlit("%20");
    reveal_strlit(" ");
    assert("filename="@ =~= key());
    assert("%20"@ =~= encoded());
    assert(" "@ =~= seq![' ']);
}

/// A pattern that does not begin earlier is found behind what precedes it.
proof fn lemma_found_behind(pre: Seq<char>, pat: Seq<char>, rest: Seq<char>)
    requires
        forall|j: int| 0 <= j < pre.len() ==> !#[trigger] stands(pre + pat, pat, j),
    ensures
        find(pre + pat + rest, pat) == Some(pre.len() as int),
        (pre + pat + rest).take(pre.len() as int) == pre,
        (pre + pat + rest).skip((pre.len() + pat.len()) as int) == rest,
{
    let s = pre + pat + rest;
    let n = pre.len() as int;
    lemma_find_from(s, pat, 0);
    assert(s.subrange(n, n + pat.len()) =~= pat);
    assert(occurs_at(s, pat, n));
    let i = find(s, pat)->0;
    if i < n {
        assert((pre + pat).subrange(i, i + pat.len()) =~= s.subrange(i, i + pat.len()));
        assert(occurs_at(pre + pat, pat, i));
        lemma_stands(pre + pat, pat, i);
    }
    assert(s.take(n) =~= pre);
    assert(s.skip(n + pat.len()) =~= rest);
}

proof fn lemma_key_is_found(pre: Seq<char>, rest: Seq<char>)
    requires
        forall|j: int| 0 <= j < pre.len() ==> !#[trigger] stands(pre + key(), key(), j),
    ensures
        find(pre + key() + rest, "filename="@) == Some(pre.len() as int),
        (pre + key() + rest).skip(pre.len() as int + 9) == rest,
{
    lemma_key();
    lemma_found_behind(pre, key(), rest);
    assert(key().len() == 9);
}

/// The name that a header gives in quotes is what stands between them; one without
/// quotes ends at a semicolon or with the header. What comes before and after makes
/// no difference. Encoded spaces become spaces.
pub proof fn law_a_header_gives_its_name(pre: Seq<char>, name: Seq<char>, post: Seq<char>)
    requires
        forall|j: int| 0 <= j < pre.len() ==> !#[trigger] stands(pre + key(), key(), j),
        !name.contains('"'),
        !name.contains(';'),
    ensures
        ({
            let spaced = replace_all(name, encoded(), seq![' ']);
            &&& name.len() > 0 ==> disposition_value(
                pre + key() + (seq!['"'] + name + seq!['"'] + post),
            ) == Some(spaced)
            &&& post.len() == 0 || post[0] == ';' ==> disposition_value(
                pre + key() + (name + post),
            ) == Some(spaced)
        }),
{
    lemma_key();
    assert forall|j: int| 0 <= j < name.len() implies name[j] != '"' && name[j] != ';' by {
        assert(name.contains(name[j]));
    }
    let e = Seq::<char>::empty();
    assert(name + e =~= name);
    lemma_until(name, ';', e);
    let quoted = seq!['"'] + name + seq!['"'] + post;
    lemma_key_is_found(pre, quoted);
    if name.len() > 0 {
        assert(quoted[1] == name[0]);
        lemma_run(quoted, only('"'), 1);
        let rest = seq!['"'] + post;
        assert(quoted.skip(1) =~= name + rest);
        lemma_until(name, '"', rest);
    }
    if post.len() == 0 || post[0] == ';' {
        let plain = name + post;
        lemma_key_is_found(pre, plain);
        if plain.len() > 0 {
            assert(plain[0] == if name.len() > 0 {
                name[0]
            } else {
                post[0]
            });
        }
        lemma_run(plain, only('"'), 0);
        assert(plain.skip(0) =~= plain);
        lemma_run_exists(plain, except('"'));
        let m = choose|m: int| #[trigger] run_length(plain, except('"'), m);
        lemma_run(plain, except('"'), m);
        let n = name.len() as int;
        if m < n {
            assert(plain[m] == name[m]);
        }
        if m == n && post.len() > 0 {
            assert(plain[m] == post[0]);
        }
        let left = post.take(m - n);
        assert(plain.take(m) =~= name + left);
        assert(left.len() > 0 ==> left[0] == post[0]);
        lemma_until(name, ';', left);
    }
}

proof fn lemma_until(a: Seq<char>, x: char, b: Seq<char>)
    requires
        forall|j: int| 0 <= j < a.len() ==> a[j] != x,
        b.len() > 0 ==> b[0] == x,
    ensures
        take_while(a + b, except(x)) == a,
{
    let s = a + b;
    let n = a.len() as int;
    assert forall|i: int| 0 <= i < n implies except(x)(#[trigger] s[i]) by {
        assert(s[i] == a[i]);
    }
    if n < s.len() {
        assert(s[n] == b[0]);
    }
    lemma_run(s, except(x), n);
    assert(s.take(n) =~= a);
}

/// A header without a name gives none.
pub proof fn law_no_key_no_name(cd: Seq<char>)
    ensures
        disposition_value(cd) is None <==> forall|j: int| !#[trigger] stands(cd, key(), j),
{
    lemma_key();
    law_the_first_place_is_found(cd, key());
}

/// The first encoded space of a text becomes a space, and the rest is treated in the
/// same way; a text without one stays.
pub proof fn law_encoded_spaces(a: Seq<char>, b: Seq<char>, s: Seq<char>)
    requires
        forall|j: int|
            0 <= j < a.len() ==> !#[trigger] stands(
                a + encoded(),
                encoded(),
                j,
            ),
    ensures
        replace_all(a + encoded() + b, encoded(), seq![' ']) == a + seq![' ']
            + replace_all(b, encoded(), seq![' ']),
        (forall|j: int| !#[trigger] stands(s, encoded(), j)) ==> replace_all(
            s,
            encoded(),
            seq![' '],
        ) == s,
{
    let pat = encoded();
    assert(pat.len() == 3);
    lemma_found_behind(a, pat, b);
    lemma_find_from(s, pat, 0);
    if let Some(i) = find(s, pat) {
        lemma_stands(s, pat, i);
        assert(stands(s, pat, i));
    }
}

/// What a clean name is.
pub proof fn law_clean_names(s: Seq<char>)
    ensures
        is_clean(s) <==> !s.contains('"') && !s.contains(';') && forall|j: int| !#[trigger]
            stands(s, encoded(), j),
{
    lemma_key();
    law_parts(encoded(), s);
}

/// The name of the file is the one that was asked for; else the one that the server
/// gives; else the end of the URL, unless that is empty; else `download.bin`.
pub proof fn law_which_name_is_chosen(
    output: Seq<char>,
    named: Option<Seq<char>>,
    given: Seq<char>,
    segment: Option<Seq<char>>,
)
    ensures
        chosen_name(Some(output), named, segment) == output,
        chosen_name(None, Some(given), segment) == given,
        chosen_name(None, None, segment) == if segment is Some && segment->0.len() > 0 {
            segment->0
        } else {
            seq!['d', 'o', 'w', 'n', 'l', 'o', 'a', 'd', '.', 'b', 'i', 'n']
        },
{
    lemma_literals();
    reveal_strlit("download.bin");
    assert("download.bin"@ =~= seq![
        'd',
        'o',
        'w',
        'n',
        'l',
        'o',
        'a',
        'd',
        '.',
        'b',
        'i',
        'n',
    ]);
    if segment is Some && segment->0.len() == 0 {
        assert(segment->0 =~= Seq::<char>::empty());
    }
}

} // verus!
