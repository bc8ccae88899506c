//! Where a download comes from and under which name it is kept.
use vstd::prelude::*;

use crate::paths::{
    after_last_slash, ends_with, file_name, final_name, last_segment, law_final_name_is_plain,
    lemma_last_segment_has_no_slash, lemma_part_contains, part_of, plain_name, portable,
    surely_named, tail, verbatim,
};
use crate::text::{
    append_chars, before_char, except, find, find_chars, from_chars, lemma_find_from, occurs_at,
    only, same_text, skip_char, skip_while, slice_chars, str_of, take_while, text_of, to_chars,
};

verus! {

// ---------------------------------------------------------------------------
// URLs
// ---------------------------------------------------------------------------
/// The parts of a URL that a download needs.
#[derive(Debug, Clone, PartialEq, Eq)]
pub struct ParsedUrl {
    /// The whole URL, in its normal form.
    pub text: String,
    pub host: Option<String>,
    /// The port that it names, or the one of its scheme.
    pub port: Option<u16>,
    pub path: String,
}

/// A URL as values: its text, host, port and path.
pub type UrlParts = (Seq<char>, Option<Seq<char>>, Option<u16>, Seq<char>);

impl ParsedUrl {
    /// The parts as values.
    pub open spec fn parts(&self) -> UrlParts {
        (self.text@, text_of(self.host), self.port, self.path@)
    }
}

/// What the crate `url` reads in a text; `None` where it is no absolute URL.
pub uninterp spec fn url_parts(text: Seq<char>) -> Option<UrlParts>;

/// `Url::parse` of the crate `url`, and of the URL that it returns `as_str`,
/// `host_str`, `port_or_known_default` and `path`. What they return depends on the
/// text alone; it is given a name here.
#[verifier::external_body]
fn parse_url(text: &str) -> (r: Option<ParsedUrl>)
    ensures
        match r {
            Some(u) => url_parts(text@) == Some(u.parts()),
            None => url_parts(text@) is None,
        },
{
    let u = url::Url::parse(text).ok()?;
    Some(
        ParsedUrl {
            text: u.as_str().to_string(),
            host: u.host_str().map(|h| h.to_string()),
            port: u.port_or_known_default(),
            path: u.path().to_string(),
        },
    )
}

/// Where to download from.
#[derive(Debug, Clone, PartialEq, Eq)]
pub struct Target {
    pub url: String,
    pub host: String,
    pub port: u16,
    /// What follows the last slash of the path, where the path begins with one.
    pub segment: Option<String>,
}

/// Why a text does not say where to download from.
#[derive(Debug, Clone, Copy, PartialEq, Eq, Structural)]
pub enum TargetError {
    InvalidUrl,
    NoHost,
    NoPort,
}

impl TargetError {
    /// The message of the error.
    pub open spec fn spec_message(&self) -> Seq<char> {
        match self {
            TargetError::InvalidUrl => "Invalid URL"@,
            TargetError::NoHost => "URL has no host to resolve"@,
            TargetError::NoPort => "URL has no port and no known default for its scheme"@,
        }
    }

    /// The message of the error.
    pub fn message(&self) -> (r: &'static str)
        ensures
            r@ == self.spec_message(),
    {
        match self {
            TargetError::InvalidUrl => "Invalid URL",
            TargetError::NoHost => "URL has no host to resolve",
            TargetError::NoPort => "URL has no port and no known default for its scheme",
        }
    }
}

/// The last segment of the path of a URL. A path that does not begin with a slash
/// has none.
pub open spec fn url_segment(path: Seq<char>) -> Option<Seq<char>> {
    if path.len() > 0 && path[0] == '/' {
        Some(last_segment(path))
    } else {
        None
    }
}

/// Whether the parts of a URL, or their absence, come to this result.
pub open spec fn leads_to(parts: Option<UrlParts>, r: Result<Target, TargetError>) -> bool {
    match parts {
        None => r == Err::<Target, TargetError>(TargetError::InvalidUrl),
        Some((text, host, port, path)) => if host is None {
            r == Err::<Target, TargetError>(TargetError::NoHost)
        } else if port is None {
            r == Err::<Target, TargetError>(TargetError::NoPort)
        } else {
            &&& r is Ok
            &&& r->Ok_0.url@ == text
            &&& Some(r->Ok_0.host@) == host
            &&& Some(r->Ok_0.port) == port
            &&& text_of(r->Ok_0.segment) == url_segment(path)
        },
    }
}

/// The last segment of the path of a URL.
pub fn last_path_segment(path: &str) -> (r: Option<String>)
    ensures
        text_of(r) == url_segment(path@),
{
    let chars: Vec<char> = to_chars(path);
    if chars.len() > 0 && chars[0] == '/' {
        let tail: Vec<char> = after_last_slash(&chars);
        Some(from_chars(&tail))
    } else {
        None
    }
}

/// Where to download from, given what was read in a URL.
pub fn target_of(parsed: Option<ParsedUrl>) -> (r: Result<Target, TargetError>)
    ensures
        match parsed {
            Some(u) => leads_to(Some(u.parts()), r),
            None => leads_to(None, r),
        },
{
    match parsed {
        None => Err(TargetError::InvalidUrl),
        Some(u) => match u.host {
            None => Err(TargetError::NoHost),
            Some(host) => match u.port {
                None => Err(TargetError::NoPort),
                Some(port) => {
                    let segment: Option<String> = last_path_segment(u.path.as_str());
                    Ok(Target { url: u.text, host, port, segment })
                },
            },
        },
    }
}

/// Where to download from, given a URL.
pub fn read_url(text: &str) -> (r: Result<Target, TargetError>)
    ensures
        leads_to(url_parts(text@), r),
{
    target_of(parse_url(text))
}

// ---------------------------------------------------------------------------
// Content-Disposition
// ---------------------------------------------------------------------------
/// `s` with each `pat`, from left to right, replaced by `with`.
pub open spec fn replace_all(s: Seq<char>, pat: Seq<char>, with: Seq<char>) -> Seq<char>
    decreases s.len(),
{
    match find(s, pat) {
        Some(i) if 0 <= i && pat.len() > 0 && i + pat.len() <= s.len() => s.take(i) + with
            + replace_all(s.skip(i + pat.len()), pat, with),
        _ => s,
    }
}

/// Replaces each `pat` in `v`, from left to right, by `with`.
fn replace_chars(v: &Vec<char>, pat: &Vec<char>, with: &Vec<char>) -> (r: Vec<char>)
    requires
        pat@.len() > 0,
    ensures
        r@ == replace_all(v@, pat@, with@),
{
    let mut out: Vec<char> = Vec::new();
    let mut rest: Vec<char> = slice_chars(v, 0, v.len());
    proof {
        assert(rest@ =~= v@);
        assert(out@ + replace_all(rest@, pat@, with@) =~= replace_all(v@, pat@, with@));
    }
    loop
        invariant
            pat@.len() > 0,
            out@ + replace_all(rest@, pat@, with@) == replace_all(v@, pat@, with@),
        decreases rest@.len(),
    {
        proof {
            lemma_find_from(rest@, pat@, 0);
        }
        match find_chars(&rest, pat) {
            None => {
                append_chars(&mut out, &rest);
                return out;
            },
            Some(i) => {
                let ghost before = out@;
                let ghost whole = rest@;
                let end: usize = rest.len();
                let head: Vec<char> = slice_chars(&rest, 0, i);
                append_chars(&mut out, &head);
                append_chars(&mut out, with);
                rest = slice_chars(&rest, i + pat.len(), end);
                proof {
                    assert(head@ =~= whole.take(i as int));
                    assert(rest@ =~= whole.skip(i + pat@.len()));
                    assert(out@ + replace_all(rest@, pat@, with@) =~= before + (whole.take(
                        i as int,
                    ) + with@ + replace_all(rest@, pat@, with@)));
                }
            },
        }
    }
}

/// The file name that a `Content-Disposition` header holds: what follows
/// `filename=`, without quotes and what follows them, up to a semicolon, and with
/// `%20` as a space.
pub open spec fn disposition_value(cd: Seq<char>) -> Option<Seq<char>> {
    match find(cd, "filename="@) {
        Some(i) => {
            let unquoted = skip_while(cd.skip(i + 9), only('"'));
            let value = take_while(take_while(unquoted, except('"')), except(';'));
            Some(replace_all(value, "%20"@, " "@))
        },
        None => None,
    }
}

/// The file name that a `Content-Disposition` header holds.
pub fn disposition_text(cd: &str) -> (r: Option<String>)
    ensures
        text_of(r) == disposition_value(cd@),
{
    let chars: Vec<char> = to_chars(cd);
    let key: Vec<char> = to_chars("filename=");
    let space: Vec<char> = to_chars("%20");
    proof {
        reveal_strlit("filename=");
        reveal_strlit("%20");
        lemma_find_from(chars@, key@, 0);
    }
    match find_chars(&chars, &key) {
        None => None,
        Some(pos) => {
            let rest: Vec<char> = slice_chars(&chars, pos + 9, chars.len());
            assert(rest@ =~= cd@.skip(pos + 9));
            let value: Vec<char> = before_char(&before_char(&skip_char(&rest, '"'), '"'), ';');
            let cleaned: Vec<char> = replace_chars(&value, &space, &to_chars(" "));
            Some(from_chars(&cleaned))
        },
    }
}

/// A text that is left after a replacement by a space holds no `pat` any more.
proof fn lemma_none_is_left(s: Seq<char>, pat: Seq<char>, j: int)
    requires
        pat.len() > 0,
        !pat.contains(' '),
    ensures
        !occurs_at(replace_all(s, pat, " "@), pat, j),
    decreases s.len(),
{
    reveal_strlit(" ");
    lemma_find_from(s, pat, 0);
    match find(s, pat) {
        Some(i) => {
            let rest = s.skip(i + pat.len());
            let tail = replace_all(rest, pat, " "@);
            let r = replace_all(s, pat, " "@);
            assert(r == s.take(i) + " "@ + tail);
            lemma_none_is_left(rest, pat, j - i - 1);
            if occurs_at(r, pat, j) {
                let u = r.subrange(j, j + pat.len());
                if j + pat.len() <= i {
                    assert(s.subrange(j, j + pat.len()) =~= u);
                    assert(occurs_at(s, pat, j));
                } else if j <= i {
                    assert(u[i - j] == ' ');
                    assert(pat.contains(pat[i - j]));
                } else {
                    assert(tail.subrange(j - i - 1, j - i - 1 + pat.len()) =~= u);
                    assert(occurs_at(tail, pat, j - i - 1));
                }
            }
        },
        None => {},
    }
}

/// What a replacement by a space leaves comes from the text, but for spaces.
proof fn lemma_replaced_chars(s: Seq<char>, pat: Seq<char>, c: char)
    requires
        replace_all(s, pat, " "@).contains(c),
        c != ' ',
    ensures
        s.contains(c),
    decreases s.len(),
{
    reveal_strlit(" ");
    let r = replace_all(s, pat, " "@);
    let k = choose|k: int| 0 <= k < r.len() && r[k] == c;
    match find(s, pat) {
        Some(i) if 0 <= i && pat.len() > 0 && i + pat.len() <= s.len() => {
            let rest = s.skip(i + pat.len());
            let tail = replace_all(rest, pat, " "@);
            assert(r == s.take(i) + " "@ + tail);
            if k < i {
                assert(s[k] == c);
            } else if k > i {
                assert(tail[k - i - 1] == c);
                lemma_replaced_chars(rest, pat, c);
                let m = choose|m: int| 0 <= m < rest.len() && rest[m] == c;
                assert(s[i + pat.len() + m] == c);
            }
        },
        _ => {},
    }
}

/// What is taken up to a character does not hold it, and holds nothing else than
/// the text.
proof fn lemma_taken(s: Seq<char>, x: char, c: char)
    requires
        take_while(s, except(x)).contains(c),
    ensures
        c != x,
        s.contains(c),
    decreases s.len(),
{
    let t = take_while(s, except(x));
    let k = choose|k: int| 0 <= k < t.len() && t[k] == c;
    if k == 0 {
        assert(s[0] == c);
    } else {
        assert(t.drop_first()[k - 1] == c);
        assert(t.drop_first() =~= take_while(s.drop_first(), except(x)));
        lemma_taken(s.drop_first(), x, c);
        let m = choose|m: int| 0 <= m < s.drop_first().len() && s.drop_first()[m] == c;
        assert(s[m + 1] == c);
    }
}

/// A name without what a header puts around or into it: quotes, semicolons and
/// encoded spaces.
pub open spec fn is_clean(s: Seq<char>) -> bool {
    !s.contains('"') && !s.contains(';') && !part_of("%20"@, s)
}

/// What is read in a header is clean, and so is each part of it.
pub proof fn law_disposition_is_clean(cd: Seq<char>, part: Seq<char>)
    requires
        disposition_value(cd) is Some,
        part_of(part, disposition_value(cd)->0),
    ensures
        is_clean(part),
{
    reveal_strlit("%20");
    let value = disposition_value(cd)->0;
    let i = find(cd, "filename="@)->0;
    let unquoted = skip_while(cd.skip(i + 9), only('"'));
    let inner = take_while(unquoted, except('"'));
    let raw = take_while(inner, except(';'));
    assert(value == replace_all(raw, "%20"@, " "@));
    assert forall|c: char| value.contains(c) implies c != '"' && c != ';' by {
        if c != ' ' {
            lemma_replaced_chars(raw, "%20"@, c);
            lemma_taken(inner, ';', c);
            lemma_taken(unquoted, '"', c);
        }
    }
    assert forall|c: char| part.contains(c) implies value.contains(c) by {
        lemma_part_contains(part, value, c);
    }
    if part_of("%20"@, part) {
        let j = choose|j: int| #[trigger] occurs_at(part, "%20"@, j);
        let k = choose|k: int| #[trigger] occurs_at(value, part, k);
        assert(value.subrange(k, k + part.len()) == part);
        assert(value.subrange(j + k, j + k + 3) =~= part.subrange(j, j + 3));
        assert(occurs_at(value, "%20"@, j + k));
        assert(!"%20"@.contains(' '));
        lemma_none_is_left(raw, "%20"@, j + k);
    }
}

/// Keeps a name only if it names a file: it is not empty, no dots alone, and
/// without a slash.
pub fn accept_name(name: Option<String>) -> (r: Option<String>)
    ensures
        r == (if name is Some && plain_name(name->0@) {
            name
        } else {
            None
        }),
{
    match name {
        Some(s) => {
            if same_text(s.as_str(), "") || same_text(s.as_str(), ".") || same_text(
                s.as_str(),
                "..",
            ) || has_slash(&to_chars(s.as_str())) {
                None
            } else {
                Some(s)
            }
        },
        None => None,
    }
}

/// Whether there is a slash among the characters.
fn has_slash(v: &Vec<char>) -> (r: bool)
    ensures
        r == v@.contains('/'),
{
    for i in 0..v.len()
        invariant
            forall|j: int| 0 <= j < i ==> #[trigger] v@[j] != '/',
    {
        if v[i] == '/' {
            return true;
        }
    }
    false
}

/// The name of a file, from a `Content-Disposition` header. Only the last part of
/// a path is taken.
///
/// On a value that is not portable what the last part is depends on the machine.
pub fn parse_content_disposition_filename(cd: &str) -> (r: Option<String>)
    ensures
        disposition_value(cd@) is None ==> r is None,
        disposition_value(cd@) is Some && portable(disposition_value(cd@)->0) ==> text_of(r)
            == final_name(disposition_value(cd@)->0),
        r is Some ==> plain_name(r->0@) && is_clean(r->0@),
        r is Some ==> part_of(r->0@, disposition_value(cd@)->0),
        disposition_value(cd@) is Some && surely_named(disposition_value(cd@)->0) ==> r is Some
            && ends_with(r->0@, tail(disposition_value(cd@)->0)),
{
    match disposition_text(cd) {
        Some(value) => {
            let r: Option<String> = accept_name(file_name(value.as_str()));
            proof {
                law_final_name_is_plain(value@);
                reveal_strlit("\\\\?\\");
                if verbatim(value@) {
                    assert(value@[0] == value@.take(4)[0] && value@[1] == value@.take(4)[1]);
                }
                if r is Some {
                    law_disposition_is_clean(cd@, r->0@);
                }
            }
            r
        },
        None => None,
    }
}

// ---------------------------------------------------------------------------
// The name of the file
// ---------------------------------------------------------------------------
/// The name of the file: the one that was asked for, else the one that the server
/// gives, else the end of the URL, else `download.bin`.
pub open spec fn chosen_name(
    output: Option<Seq<char>>,
    named: Option<Seq<char>>,
    segment: Option<Seq<char>>,
) -> Seq<char> {
    if output is Some {
        output->0
    } else if named is Some {
        named->0
    } else if segment is Some && segment->0 != ""@ {
        segment->0
    } else {
        "download.bin"@
    }
}

/// The name of the file, given the name that the server gives.
pub fn choose_name(output: Option<&str>, named: Option<String>, segment: Option<&str>) -> (r:
    String)
    ensures
        r@ == chosen_name(str_of(output), text_of(named), str_of(segment)),
{
    match output {
        Some(path) => path.to_string(),
        None => match named {
            Some(name) => name,
            None => match segment {
                Some(s) => {
                    if same_text(s, "") {
                        "download.bin".to_string()
                    } else {
                        s.to_string()
                    }
                },
                None => "download.bin".to_string(),
            },
        },
    }
}

/// The name of the file, given the `Content-Disposition` header of the server.
///
/// Where the header's value is not portable and decides, the name depends on the
/// machine.
pub fn file_name_for(
    output: Option<&str>,
    disposition: Option<&str>,
    segment: Option<&str>,
) -> (r: String)
    ensures
        output is Some ==> r@ == output->0@,
        output is None ==> {
            let value = match disposition {
                Some(cd) => disposition_value(cd@),
                None => None,
            };
            &&& value is None ==> r@ == chosen_name(None, None, str_of(segment))
            &&& value is Some && portable(value->0) ==> r@ == chosen_name(
                None,
                final_name(value->0),
                str_of(segment),
            )
            &&& value is Some && surely_named(value->0) ==> ends_with(r@, tail(value->0))
            &&& r@ == chosen_name(None, None, str_of(segment)) || (value is Some && plain_name(r@)
                && is_clean(r@) && part_of(r@, value->0))
        },
{
    let named: Option<String> = match disposition {
        Some(cd) => parse_content_disposition_filename(cd),
        None => None,
    };
    choose_name(output, named, segment)
}

/// A name that is inferred from a header or from a URL holds no slash and is not
/// empty: a server cannot choose the directory of the file.
pub proof fn law_inferred_name_has_no_slash(named: Option<Seq<char>>, path: Seq<char>)
    requires
        named is Some ==> plain_name(named->0),
    ensures
        chosen_name(None, named, url_segment(path)) != ""@,
        !chosen_name(None, named, url_segment(path)).contains('/'),
{
    reveal_strlit("");
    reveal_strlit("download.bin");
    assert("download.bin"@.len() == 12);
    lemma_last_segment_has_no_slash(path);
}

} // verus!
