//! File paths as text, by `std::path`.
//!
//! What separates the parts of a path is up to the machine. A path that is
//! written with `/` alone means the same everywhere; for those the functions here
//! say exactly what they return, and they are put together here. For any other
//! they say what holds on every machine.
use vstd::prelude::*;

use crate::text::{occurs_at, slice_chars, text_of, to_chars};

verus! {

/// Whether the path begins with a drive as Windows has it: a letter and a colon.
pub open spec fn drive(p: Seq<char>) -> bool {
    p.len() >= 2 && ('a' <= p[0] <= 'z' || 'A' <= p[0] <= 'Z') && p[1] == ':'
}

/// A path that means the same on every machine: it holds no backslash, does not
/// begin with a drive and does not begin with two slashes.
pub open spec fn portable(p: Seq<char>) -> bool {
    &&& !p.contains('\\')
    &&& !drive(p)
    &&& !(p.len() >= 2 && p[0] == '/' && p[1] == '/')
}

/// The position of the last slash.
pub open spec fn last_slash(p: Seq<char>) -> Option<int>
    decreases p.len(),
{
    if p.len() == 0 {
        None
    } else if p.last() == '/' {
        Some(p.len() - 1)
    } else {
        last_slash(p.drop_last())
    }
}

/// What follows the last slash; all of `p` where there is none.
pub open spec fn last_segment(p: Seq<char>) -> Seq<char> {
    match last_slash(p) {
        Some(i) => p.skip(i + 1),
        None => p,
    }
}

/// What precedes the last slash.
pub open spec fn before_last_slash(p: Seq<char>) -> Seq<char> {
    match last_slash(p) {
        Some(i) if 0 <= i < p.len() => p.take(i),
        _ => Seq::empty(),
    }
}

/// `p` without slashes, and single dots, at its end. The root becomes empty.
pub open spec fn stripped(p: Seq<char>) -> Seq<char>
    decreases p.len(),
{
    if last_slash(p) is Some && before_last_slash(p).len() < p.len() && (last_segment(p) == ""@
        || last_segment(p) == "."@) {
        stripped(before_last_slash(p))
    } else {
        p
    }
}

/// The name at the end of the path, unless it ends in the root or in dots.
pub open spec fn final_name(p: Seq<char>) -> Option<Seq<char>> {
    let name = last_segment(stripped(p));
    if name == ""@ || name == "."@ || name == ".."@ {
        None
    } else {
        Some(name)
    }
}

/// The directory that the text `d` before a slash stands for.
pub open spec fn directory(d: Seq<char>) -> Seq<char> {
    if stripped(d) == ""@ {
        "/"@
    } else {
        stripped(d)
    }
}

/// The path without its final part, unless it is empty or the root.
pub open spec fn parent_path(p: Seq<char>) -> Option<Seq<char>> {
    let q = stripped(p);
    if q == ""@ {
        None
    } else if last_slash(q) is None {
        Some(Seq::empty())
    } else {
        Some(directory(before_last_slash(q)))
    }
}

/// The path of `name` in the directory `dir`: a slash stands between the two,
/// unless `dir` ends with one or is empty.
pub open spec fn path_in(dir: Seq<char>, name: Seq<char>) -> Seq<char> {
    if dir.len() == 0 || dir.last() == '/' {
        dir + name
    } else {
        dir + "/"@ + name
    }
}

/// Whether `s` ends with `end`.
pub open spec fn ends_with(s: Seq<char>, end: Seq<char>) -> bool {
    s.len() >= end.len() && s.skip(s.len() - end.len()) == end
}

/// A name that can stand at the end of a path: not empty, no dots alone, and
/// without a slash.
pub open spec fn plain_name(s: Seq<char>) -> bool {
    s != ""@ && s != "."@ && s != ".."@ && !s.contains('/')
}

/// A path of Windows with the prefix that switches off the meaning of slashes.
pub open spec fn verbatim(p: Seq<char>) -> bool {
    p.len() >= 4 && p.take(4) == "\\\\?\\"@
}

/// What follows the last slash, backslash or colon: on every machine it belongs to
/// the final part of the path.
pub open spec fn tail(p: Seq<char>) -> Seq<char>
    decreases p.len(),
{
    if p.len() == 0 || p.last() == '/' || p.last() == '\\' || p.last() == ':' {
        Seq::empty()
    } else {
        tail(p.drop_last()).push(p.last())
    }
}

/// Whether a path ends in a name on every machine: what follows the last
/// separator is one, and the path does not begin with two separators, as that of a
/// device or a share of Windows does.
pub open spec fn surely_named(p: Seq<char>) -> bool {
    &&& tail(p) != ""@ && tail(p) != "."@ && tail(p) != ".."@
    &&& !(p.len() >= 2 && (p[0] == '/' || p[0] == '\\') && (p[1] == '/' || p[1] == '\\'))
}

/// Whether `part` stands somewhere in `s`.
pub open spec fn part_of(part: Seq<char>, s: Seq<char>) -> bool {
    exists|i: int| #[trigger] occurs_at(s, part, i)
}

/// The characters of a part are characters of the whole.
pub proof fn lemma_part_contains(part: Seq<char>, s: Seq<char>, c: char)
    requires
        part_of(part, s),
        part.contains(c),
    ensures
        s.contains(c),
{
    let i = choose|i: int| #[trigger] occurs_at(s, part, i);
    let k = choose|k: int| 0 <= k < part.len() && part[k] == c;
    assert(s.subrange(i, i + part.len())[k] == c);
    assert(s[i + k] == c);
}

/// `stripped` takes a prefix.
pub proof fn lemma_stripped_prefix(p: Seq<char>)
    ensures
        stripped(p).len() <= p.len(),
        stripped(p) == p.take(stripped(p).len() as int),
    decreases p.len(),
{
    if last_slash(p) is Some && before_last_slash(p).len() < p.len() && (last_segment(p) == ""@
        || last_segment(p) == "."@) {
        let b = before_last_slash(p);
        lemma_stripped_prefix(b);
        lemma_last_slash(p);
        assert(b.take(stripped(b).len() as int) =~= p.take(stripped(b).len() as int));
    } else {
        assert(p.take(p.len() as int) =~= p);
    }
}

/// The last slash is one, and none follows it.
pub proof fn lemma_last_slash(p: Seq<char>)
    ensures
        match last_slash(p) {
            Some(i) => 0 <= i < p.len() && p[i] == '/' && forall|j: int|
                i < j < p.len() ==> p[j] != '/',
            None => !p.contains('/'),
        },
    decreases p.len(),
{
    if p.len() > 0 && p.last() != '/' {
        lemma_last_slash(p.drop_last());
        if last_slash(p.drop_last()) is None {
            assert forall|j: int| 0 <= j < p.len() implies p[j] != '/' by {
                if j < p.len() - 1 {
                    assert(p.drop_last()[j] == p[j]);
                    assert(p.drop_last().contains(p.drop_last()[j]));
                }
            }
        } else {
            assert forall|j: int| last_slash(p.drop_last())->0 < j < p.len() implies p[j]
                != '/' by {
                if j < p.len() - 1 {
                    assert(p.drop_last()[j] == p[j]);
                }
            }
        }
    }
}

/// A slash that none follows is the last one.
pub proof fn lemma_last_slash_is(p: Seq<char>, i: int)
    requires
        0 <= i < p.len(),
        p[i] == '/',
        forall|j: int| i < j < p.len() ==> p[j] != '/',
    ensures
        last_slash(p) == Some(i),
    decreases p.len(),
{
    if i < p.len() - 1 {
        lemma_last_slash_is(p.drop_last(), i);
    }
}

/// A name behind a directory is the final name of the path, and the directory its
/// parent. A name alone has an empty parent.
pub proof fn law_name_in_directory(dir: Seq<char>, name: Seq<char>)
    requires
        plain_name(name),
        dir.len() > 0,
        stripped(dir) == dir,
    ensures
        final_name(path_in(dir, name)) == Some(name),
        parent_path(path_in(dir, name)) == Some(dir),
        final_name(name) == Some(name),
        parent_path(name) == Some(Seq::<char>::empty()),
        path_in(dir, name) == dir + "/"@ + name,
{
    reveal_strlit("");
    reveal_strlit("/");
    if dir.last() == '/' {
        assert(dir.skip(dir.len() as int) =~= ""@);
        lemma_stripped_prefix(before_last_slash(dir));
    }
    let p = dir + "/"@ + name;
    let i = dir.len() as int;
    assert forall|j: int| 0 <= j < name.len() implies name[j] != '/' by {
        assert(name.contains(name[j]));
    }
    lemma_last_slash_is(p, i);
    assert(p.skip(i + 1) =~= name);
    assert(p.take(i) =~= dir);
    assert(p != ""@) by {
        assert(p.len() > 0);
    }
    assert(dir != ""@);
    lemma_last_slash(name);
}

/// What follows the last slash holds none.
pub proof fn lemma_last_segment_has_no_slash(p: Seq<char>)
    ensures
        !last_segment(p).contains('/'),
{
    lemma_last_slash(p);
    if last_slash(p) is Some {
        let i = last_slash(p)->0;
        assert forall|j: int| 0 <= j < last_segment(p).len() implies last_segment(p)[j]
            != '/' by {
            assert(last_segment(p)[j] == p[i + 1 + j]);
        }
    }
}

/// The name at the end of a path holds no slash and is neither empty nor dots
/// alone.
pub proof fn law_final_name_is_plain(p: Seq<char>)
    ensures
        final_name(p) is Some ==> plain_name(final_name(p)->0),
{
    lemma_last_segment_has_no_slash(stripped(p));
}

/// The characters of `v` after the last slash.
pub fn after_last_slash(v: &Vec<char>) -> (r: Vec<char>)
    ensures
        r@ == last_segment(v@),
{
    let mut n: usize = v.len();
    assert(v@.take(n as int) =~= v@);
    while n > 0 && v[n - 1] != '/'
        invariant
            n <= v@.len(),
            last_slash(v@) == last_slash(v@.take(n as int)),
        decreases n,
    {
        proof {
            assert(v@.take(n as int).drop_last() =~= v@.take(n - 1));
        }
        n = n - 1;
    }
    assert(v@.skip(n as int) =~= v@.subrange(n as int, v@.len() as int));
    slice_chars(v, n, v.len())
}

/// A prefix of a portable path is portable.
pub proof fn lemma_prefix_is_portable(p: Seq<char>, n: int)
    requires
        portable(p),
        0 <= n <= p.len(),
    ensures
        portable(p.take(n)),
{
    let q = p.take(n);
    assert forall|c: char| q.contains(c) implies p.contains(c) by {
        let i = choose|i: int| 0 <= i < q.len() && q[i] == c;
        assert(p[i] == c);
    }
}

/// The parent of a portable path is portable.
pub proof fn lemma_parent_is_portable(p: Seq<char>)
    requires
        portable(p),
    ensures
        parent_path(p) is Some ==> portable(parent_path(p)->0),
{
    reveal_strlit("/");
    reveal_strlit("");
    let q = stripped(p);
    lemma_stripped_prefix(p);
    lemma_prefix_is_portable(p, q.len() as int);
    if q != ""@ && last_slash(q) is Some {
        let d = before_last_slash(q);
        lemma_last_slash(q);
        lemma_prefix_is_portable(q, d.len() as int);
        assert(d =~= q.take(d.len() as int));
        lemma_stripped_prefix(d);
        lemma_prefix_is_portable(d, stripped(d).len() as int);
    }
}

/// `Path::file_name` of std: the final component of the path, if it is a normal
/// one. It is a part of the text of the path, and ends as the path does where that
/// ends in a name.
///
/// What counts as a component of a path that is not portable is up to the
/// machine, and is left open here.
#[verifier::external_body]
pub(crate) fn file_name(path: &str) -> (r: Option<String>)
    ensures
        r is Some && !verbatim(path@) ==> plain_name(r->0@),
        r is Some ==> part_of(r->0@, path@),
        surely_named(path@) ==> r is Some && ends_with(r->0@, tail(path@)),
        portable(path@) ==> text_of(r) == final_name(path@),
{
    std::path::Path::new(path).file_name().and_then(|s| s.to_str()).map(|s| s.to_string())
}

/// `Path::parent` of std: the path without its final component, if there is one.
///
/// What counts as a component of a path that is not portable is up to the
/// machine, and is left open here.
#[verifier::external_body]
pub(crate) fn parent(path: &str) -> (r: Option<String>)
    ensures
        portable(path@) ==> text_of(r) == parent_path(path@),
{
    std::path::Path::new(path).parent().and_then(|p| p.to_str()).map(|s| s.to_string())
}

/// `Path::join` of std: `name` in the directory `dir`. A name of one part stands at
/// the end of it.
///
/// What stands before it, and what any other name gives, is up to the machine, and
/// is left open here.
#[verifier::external_body]
fn join(dir: &str, name: &str) -> (r: String)
    ensures
        plain_name(name@) && !name@.contains('\\') ==> ends_with(r@, name@),
{
    std::path::Path::new(dir).join(name).to_string_lossy().into_owned()
}

/// Whether a path means the same on every machine.
pub fn is_portable(path: &str) -> (r: bool)
    ensures
        r == portable(path@),
{
    let v: Vec<char> = to_chars(path);
    for i in 0..v.len()
        invariant
            v@ == path@,
            forall|j: int| 0 <= j < i ==> #[trigger] v@[j] != '\\',
    {
        if v[i] == '\\' {
            return false;
        }
    }
    if v.len() < 2 {
        return true;
    }
    let letter: bool = ('a' <= v[0] && v[0] <= 'z') || ('A' <= v[0] && v[0] <= 'Z');
    !(letter && v[1] == ':') && !(v[0] == '/' && v[1] == '/')
}

/// The path of `name` in the directory `dir`. Every machine takes a slash between
/// the parts of a portable path; any other path is put together by the machine.
pub fn join_path(dir: &str, name: &str) -> (r: String)
    ensures
        portable(dir@) && portable(name@) && name@.len() > 0 && name@[0] != '/' ==> r@ == path_in(
            dir@,
            name@,
        ),
        plain_name(name@) && !name@.contains('\\') ==> ends_with(r@, name@),
{
    let d: Vec<char> = to_chars(dir);
    let n: Vec<char> = to_chars(name);
    if !is_portable(dir) || !is_portable(name) || n.len() == 0 || n[0] == '/' {
        return join(dir, name);
    }
    let mut r: String = dir.to_string();
    if d.len() > 0 && d[d.len() - 1] != '/' {
        r.append("/");
    }
    r.append(name);
    assert(r@.skip(r@.len() - name@.len()) =~= name@);
    r
}

} // verus!
