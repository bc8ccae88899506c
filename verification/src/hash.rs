//! Hash verification: expected digests, sidecar files and the output of outside
//! hashing tools.
use vstd::prelude::*;

use crate::number::{decimal, push_decimal};
use crate::paths::{
    drive, ends_with, file_name, final_name, join_path, law_final_name_is_plain,
    law_name_in_directory, lemma_parent_is_portable, lemma_part_contains, parent, parent_path,
    part_of, path_in, plain_name, portable, stripped, surely_named, verbatim,
};
use crate::text::{
    all_hex, blank, chars_of, drop_end_char, drop_end_while, first_token, from_chars, hex_digit,
    hex_digits, is_all_hex, is_white_space, keep, keep_hex, lemma_end_run, lemma_run, lines, lower,
    lower_char, lower_chars, not_blank, only, same_text, skip_char, skip_while, slice_chars,
    split_lines, str_of, take_while, text_of, to_chars, trim, trim_chars, white_space, CharClass,
};

verus! {

/// The hash algorithms that a download can be verified with.
#[derive(Clone, Copy, Debug, PartialEq, Eq, Structural)]
pub enum HashAlgorithm {
    Sha256,
    Sha512,
}

/// A command and its arguments, as text.
pub type ToolText = (Seq<char>, Seq<Seq<char>>);

/// The words of a list.
pub open spec fn words(list: Seq<&'static str>) -> Seq<Seq<char>> {
    Seq::new(list.len(), |i: int| list[i]@)
}

/// The commands of a list, with their arguments.
pub open spec fn tools_text(list: Seq<(&'static str, &'static [&'static str])>) -> Seq<ToolText> {
    Seq::new(list.len(), |i: int| (list[i].0@, words(list[i].1@)))
}

impl HashAlgorithm {
    /// The name that is shown.
    pub open spec fn spec_name(&self) -> Seq<char> {
        match self {
            HashAlgorithm::Sha256 => "SHA-256"@,
            HashAlgorithm::Sha512 => "SHA-512"@,
        }
    }

    /// The name that is shown.
    pub fn name(&self) -> (r: &'static str)
        ensures
            r@ == self.spec_name(),
    {
        match self {
            HashAlgorithm::Sha256 => "SHA-256",
            HashAlgorithm::Sha512 => "SHA-512",
        }
    }

    /// The hexadecimal digits in a digest.
    pub open spec fn spec_hex_len(&self) -> nat {
        match self {
            HashAlgorithm::Sha256 => 64,
            HashAlgorithm::Sha512 => 128,
        }
    }

    /// The hexadecimal digits in a digest.
    pub fn hex_len(&self) -> (r: usize)
        ensures
            r == self.spec_hex_len(),
    {
        match self {
            HashAlgorithm::Sha256 => 64,
            HashAlgorithm::Sha512 => 128,
        }
    }

    /// The outside commands that compute the digest of a file, best first.
    pub open spec fn spec_tools(&self) -> Seq<ToolText> {
        match self {
            HashAlgorithm::Sha256 => seq![
                ("sha256sum"@, seq![]),
                ("shasum"@, seq!["-a"@, "256"@]),
                ("sha256"@, seq![]),
                ("openssl"@, seq!["dgst"@, "-sha256"@, "-r"@]),
            ],
            HashAlgorithm::Sha512 => seq![
                ("sha512sum"@, seq![]),
                ("shasum"@, seq!["-a"@, "512"@]),
                ("sha512"@, seq![]),
                ("openssl"@, seq!["dgst"@, "-sha512"@, "-r"@]),
            ],
        }
    }

    /// The outside commands (and their arguments) to try, in order.
    pub fn system_tool_candidates(&self) -> (r: &'static [(
        &'static str,
        &'static [&'static str],
    )])
        ensures
            tools_text(r@) == self.spec_tools(),
    {
        let list: &'static [(&'static str, &'static [&'static str])] = match self {
            HashAlgorithm::Sha256 => &[
                ("sha256sum", &[]),
                ("shasum", &["-a", "256"]),
                ("sha256", &[]),
                ("openssl", &["dgst", "-sha256", "-r"]),
            ],
            HashAlgorithm::Sha512 => &[
                ("sha512sum", &[]),
                ("shasum", &["-a", "512"]),
                ("sha512", &[]),
                ("openssl", &["dgst", "-sha512", "-r"]),
            ],
        };
        proof {
            assert(tools_text(list@).len() == 4);
            assert(words(list@[0].1@) =~= self.spec_tools()[0].1);
            assert(words(list@[1].1@) =~= self.spec_tools()[1].1);
            assert(words(list@[2].1@) =~= self.spec_tools()[2].1);
            assert(words(list@[3].1@) =~= self.spec_tools()[3].1);
            assert(tools_text(list@) =~= self.spec_tools());
        }
        list
    }
}

/// A hash that was asked for has the wrong number of hexadecimal digits.
#[derive(Clone, Copy, Debug, PartialEq, Eq, Structural)]
pub struct HashLengthError {
    pub algorithm: HashAlgorithm,
    pub found: usize,
}

impl HashLengthError {
    /// What went wrong, in words.
    pub open spec fn spec_message(&self) -> Seq<char> {
        "Invalid "@ + self.algorithm.spec_name() + " hash length: expected "@ + decimal(
            self.algorithm.spec_hex_len(),
        ) + " hex characters, got "@ + decimal(self.found as nat)
    }

    /// What went wrong, in words.
    pub fn message(&self) -> (r: String)
        ensures
            r@ == self.spec_message(),
    {
        let mut out: String = "Invalid ".to_string();
        out.append(self.algorithm.name());
        out.append(" hash length: expected ");
        push_decimal(&mut out, self.algorithm.hex_len() as u64);
        out.append(" hex characters, got ");
        push_decimal(&mut out, self.found as u64);
        out
    }
}

// ---------------------------------------------------------------------------
// Hashes that the user gives
// ---------------------------------------------------------------------------
/// The hexadecimal digits of `input`, in lower case.
pub open spec fn normalized(input: Seq<char>) -> Seq<char> {
    lower(keep(input, hex_digits()))
}

/// Brings a hash to lower-case hexadecimal digits; anything else in `input` is
/// dropped.
pub fn normalize_hash_hex(input: &str, algo: HashAlgorithm) -> (r: Result<String, HashLengthError>)
    ensures
        match r {
            Ok(hex) => {
                &&& normalized(input@).len() == algo.spec_hex_len()
                &&& hex@ == normalized(input@)
            },
            Err(e) => {
                &&& normalized(input@).len() != algo.spec_hex_len()
                &&& e.algorithm == algo
                &&& e.found == normalized(input@).len()
            },
        },
{
    let digits: Vec<char> = keep_hex(&to_chars(input));
    if digits.len() != algo.hex_len() {
        return Err(HashLengthError { algorithm: algo, found: digits.len() });
    }
    Ok(from_chars(&lower_chars(&digits)))
}

// ---------------------------------------------------------------------------
// Sidecar files
// ---------------------------------------------------------------------------
/// The hash of `len` digits that a line begins with. Blank lines and lines that
/// begin with `#` hold none; stars around the hash are dropped.
pub open spec fn line_hash(line: Seq<char>, len: nat) -> Option<Seq<char>> {
    let t = trim(line);
    let token = take_while(t, not_blank());
    let core = drop_end_while(skip_while(token, only('*')), only('*'));
    if t.len() > 0 && t[0] != '#' && core.len() == len && all_hex(core) {
        Some(lower(core))
    } else {
        None
    }
}

/// The hash on the first of the lines that holds one.
pub open spec fn first_hash(lines: Seq<Seq<char>>, len: nat) -> Option<Seq<char>>
    decreases lines.len(),
{
    if lines.len() == 0 {
        None
    } else if line_hash(lines[0], len) is Some {
        line_hash(lines[0], len)
    } else {
        first_hash(lines.drop_first(), len)
    }
}

/// The hash that a sidecar file holds.
pub open spec fn sidecar_hash(content: Seq<char>, len: nat) -> Option<Seq<char>> {
    first_hash(lines(content), len)
}

fn parse_line_hash(line: &Vec<char>, expected_len: usize) -> (r: Option<String>)
    ensures
        text_of(r) == line_hash(line@, expected_len as nat),
{
    let t: Vec<char> = trim_chars(line);
    if t.len() == 0 || t[0] == '#' {
        return None;
    }
    let core: Vec<char> = drop_end_char(&skip_char(&first_token(&t), '*'), '*');
    if core.len() == expected_len && is_all_hex(&core) {
        Some(from_chars(&lower_chars(&core)))
    } else {
        None
    }
}

/// The hash of `expected_len` hexadecimal digits in the text of a sidecar file,
/// in lower case.
pub fn parse_hash_from_sidecar(content: &str, expected_len: usize) -> (r: Option<String>)
    ensures
        text_of(r) == sidecar_hash(content@, expected_len as nat),
{
    let list: Vec<Vec<char>> = split_lines(&to_chars(content));
    let ghost all = lines(content@);
    assert(chars_of(list@).skip(0) =~= chars_of(list@));
    for i in 0..list.len()
        invariant
            chars_of(list@) == all,
            all == lines(content@),
            first_hash(all, expected_len as nat) == first_hash(
                all.skip(i as int),
                expected_len as nat,
            ),
    {
        proof {
            assert(all.skip(i as int)[0] == list@[i as int]@);
            assert(all.skip(i as int).drop_first() =~= all.skip(i + 1));
        }
        let found: Option<String> = parse_line_hash(&list[i], expected_len);
        if found.is_some() {
            return found;
        }
    }
    assert(all.skip(list.len() as int) =~= Seq::empty());
    None
}

/// An algorithm and a hash, as text.
pub type ExpectedText = (HashAlgorithm, Seq<char>);

/// The text of an expected hash.
pub open spec fn expected_text(e: (HashAlgorithm, String)) -> ExpectedText {
    (e.0, e.1@)
}

/// The texts of a list of expected hashes.
pub open spec fn expected_texts(list: Seq<(HashAlgorithm, String)>) -> Seq<ExpectedText> {
    Seq::new(list.len(), |i: int| expected_text(list[i]))
}

/// What is added to the name of a download for its sidecar file.
pub open spec fn sidecar_extension(algo: HashAlgorithm) -> Seq<char> {
    match algo {
        HashAlgorithm::Sha256 => ".sha256"@,
        HashAlgorithm::Sha512 => ".sha512"@,
    }
}

/// The path of the sidecar file of a download: it stands beside the target, under
/// the same name with an extension more. A target without a name has none.
pub open spec fn sidecar_path(target: Seq<char>, algo: HashAlgorithm) -> Option<Seq<char>> {
    let dir = match parent_path(target) {
        Some(p) => p,
        None => "."@,
    };
    match final_name(target) {
        Some(name) => Some(path_in(dir, name + sidecar_extension(algo))),
        None => None,
    }
}

/// The path of the sidecar file of a download.
///
/// On a path that is not portable the directory and the name are up to the
/// machine; so is what a name means there that begins with a drive.
pub fn sidecar_path_for(target: &str, algo: HashAlgorithm) -> (r: Option<String>)
    ensures
        portable(target@) && (final_name(target@) is Some ==> !drive(final_name(target@)->0))
            ==> text_of(r) == sidecar_path(target@, algo),
        portable(target@) ==> (r is Some <==> final_name(target@) is Some),
        surely_named(target@) ==> r is Some,
        !target@.contains('\\') && r is Some ==> exists|name: Seq<char>| #[trigger]
            part_of(name, target@) && ends_with(r->0@, name + sidecar_extension(algo)),
{
    let dir: String = match parent(target) {
        Some(p) => p,
        None => ".".to_string(),
    };
    let name: String = match file_name(target) {
        Some(n) => n,
        None => {
            return None;
        },
    };
    let mut full: String = name.as_str().to_string();
    match algo {
        HashAlgorithm::Sha256 => full.append(".sha256"),
        HashAlgorithm::Sha512 => full.append(".sha512"),
    }
    proof {
        reveal_strlit("");
        reveal_strlit(".");
        reveal_strlit("..");
        reveal_strlit(".sha256");
        reveal_strlit(".sha512");
        let f = full@;
        let n = name@;
        assert(f == n + sidecar_extension(algo));
        assert forall|c: char| f.contains(c) && !n.contains(c) implies c != '/' && c != '\\' by {
            let i = choose|i: int| 0 <= i < f.len() && f[i] == c;
            if i < n.len() {
                assert(n[i] == c);
            } else {
                assert(f[i] == sidecar_extension(algo)[i - n.len()]);
            }
        }
        assert forall|c: char| n.contains(c) implies target@.contains(c) by {
            lemma_part_contains(n, target@, c);
        }
        if !target@.contains('\\') {
            reveal_strlit("\\\\?\\");
            assert(verbatim(target@) ==> target@[0] == target@.take(4)[0]);
            assert(plain_name(f));
        }
        if portable(target@) {
            lemma_parent_is_portable(target@);
            law_final_name_is_plain(target@);
            assert(n.len() == 0 ==> n =~= ""@);
            assert(f[0] == n[0]);
            assert(n.contains(n[0]));
            assert(n.len() == 1 ==> f[1] == sidecar_extension(algo)[0]);
            if !drive(n) {
                assert(portable(f));
            }
        }
    }
    let r: String = join_path(dir.as_str(), full.as_str());
    assert(!target@.contains('\\') ==> ends_with(r@, name@ + sidecar_extension(algo)));
    Some(r)
}

/// The sidecar file stands beside the target: for `dir/name` it is `dir/name` with
/// the extension, for `name` alone `name` with the extension.
pub proof fn law_sidecar_file_stands_beside(dir: Seq<char>, name: Seq<char>, algo: HashAlgorithm)
    requires
        plain_name(name),
        dir.len() > 0,
        stripped(dir) == dir,
    ensures
        sidecar_path(dir + "/"@ + name, algo) == Some(
            dir + "/"@ + name + sidecar_extension(algo),
        ),
        sidecar_path(name, algo) == Some(name + sidecar_extension(algo)),
{
    reveal_strlit("/");
    law_name_in_directory(dir, name);
    assert(dir.last() != '/') by {
        if dir.last() == '/' {
            assert(path_in(dir, name).len() < (dir + "/"@ + name).len());
        }
    }
    let full = name + sidecar_extension(algo);
    assert(dir + "/"@ + full =~= dir + "/"@ + name + sidecar_extension(algo));
    assert(Seq::<char>::empty() + full =~= full);
}

/// The hash that the sidecar files of a download hold: the one in the SHA-256
/// file if there is one, else the one in the SHA-512 file.
pub open spec fn sidecar_choice(
    sha256: Option<Seq<char>>,
    sha512: Option<Seq<char>>,
) -> Option<ExpectedText> {
    if sha256 is Some && sidecar_hash(sha256->0, 64) is Some {
        Some((HashAlgorithm::Sha256, sidecar_hash(sha256->0, 64)->0))
    } else if sha512 is Some && sidecar_hash(sha512->0, 128) is Some {
        Some((HashAlgorithm::Sha512, sidecar_hash(sha512->0, 128)->0))
    } else {
        None
    }
}

/// Finds the hash in the sidecar files of a download: `sha256` and `sha512` are
/// what the files with those extensions hold, where they can be read.
pub fn find_sidecar_hash(sha256: Option<&str>, sha512: Option<&str>) -> (r: Option<
    (HashAlgorithm, String),
>)
    ensures
        match r {
            Some(e) => sidecar_choice(str_of(sha256), str_of(sha512)) == Some(expected_text(e)),
            None => sidecar_choice(str_of(sha256), str_of(sha512)) is None,
        },
{
    if let Some(content) = sha256 {
        if let Some(hex) = parse_hash_from_sidecar(content, HashAlgorithm::Sha256.hex_len()) {
            return Some((HashAlgorithm::Sha256, hex));
        }
    }
    if let Some(content) = sha512 {
        if let Some(hex) = parse_hash_from_sidecar(content, HashAlgorithm::Sha512.hex_len()) {
            return Some((HashAlgorithm::Sha512, hex));
        }
    }
    None
}

// ---------------------------------------------------------------------------
// What a download is verified against
// ---------------------------------------------------------------------------
/// Whether a hash that may be given has the right number of digits.
pub open spec fn usable(given: Option<Seq<char>>, algo: HashAlgorithm) -> bool {
    given is Some ==> normalized(given->0).len() == algo.spec_hex_len()
}

/// The hash that may be given, as a list.
pub open spec fn from_flag(given: Option<Seq<char>>, algo: HashAlgorithm) -> Seq<ExpectedText> {
    match given {
        Some(h) => seq![(algo, normalized(h))],
        None => Seq::empty(),
    }
}

/// The hash that a sidecar file gives, as a list: none where a flag gives one of
/// its algorithm, and none where the file is missing or holds none.
pub open spec fn from_sidecar(
    flag: Option<Seq<char>>,
    text: Option<Seq<char>>,
    algo: HashAlgorithm,
) -> Seq<ExpectedText> {
    if flag is None && text is Some && sidecar_hash(text->0, algo.spec_hex_len()) is Some {
        seq![(algo, sidecar_hash(text->0, algo.spec_hex_len())->0)]
    } else {
        Seq::empty()
    }
}

/// The hashes to verify: those of the flags, then those of the sidecar files of
/// the algorithms that no flag gives one of.
pub open spec fn all_expected(
    sha256: Option<Seq<char>>,
    sha512: Option<Seq<char>>,
    text256: Option<Seq<char>>,
    text512: Option<Seq<char>>,
) -> Seq<ExpectedText> {
    from_flag(sha256, HashAlgorithm::Sha256) + from_flag(sha512, HashAlgorithm::Sha512)
        + from_sidecar(sha256, text256, HashAlgorithm::Sha256) + from_sidecar(
        sha512,
        text512,
        HashAlgorithm::Sha512,
    )
}

/// Whether a flag of the wrong length is refused with this error; that for
/// SHA-256 comes first.
pub open spec fn refused(
    sha256: Option<Seq<char>>,
    sha512: Option<Seq<char>>,
    e: HashLengthError,
) -> bool {
    if !usable(sha256, HashAlgorithm::Sha256) {
        &&& e.algorithm == HashAlgorithm::Sha256
        &&& e.found == normalized(sha256->0).len()
    } else {
        &&& !usable(sha512, HashAlgorithm::Sha512)
        &&& e.algorithm == HashAlgorithm::Sha512
        &&& e.found == normalized(sha512->0).len()
    }
}

/// Adds the hash of a flag to the list.
fn push_flag(
    list: &mut Vec<(HashAlgorithm, String)>,
    flag: Option<&str>,
    algo: HashAlgorithm,
) -> (r: Result<(), HashLengthError>)
    ensures
        match r {
            Ok(()) => {
                &&& usable(str_of(flag), algo)
                &&& expected_texts(final(list)@) == expected_texts(old(list)@) + from_flag(
                    str_of(flag),
                    algo,
                )
            },
            Err(e) => {
                &&& !usable(str_of(flag), algo)
                &&& e.algorithm == algo
                &&& e.found == normalized(flag->0@).len()
            },
        },
{
    let ghost before = list@;
    if let Some(h) = flag {
        match normalize_hash_hex(h, algo) {
            Ok(hex) => list.push((algo, hex)),
            Err(e) => {
                return Err(e);
            },
        }
    }
    assert(expected_texts(list@) =~= expected_texts(before) + from_flag(str_of(flag), algo));
    Ok(())
}

/// Adds the hash of a sidecar file to the list.
fn push_sidecar(
    list: &mut Vec<(HashAlgorithm, String)>,
    flag: Option<&str>,
    text: Option<&str>,
    algo: HashAlgorithm,
)
    ensures
        expected_texts(final(list)@) == expected_texts(old(list)@) + from_sidecar(
            str_of(flag),
            str_of(text),
            algo,
        ),
{
    let ghost before = list@;
    if flag.is_none() {
        if let Some(content) = text {
            if let Some(hex) = parse_hash_from_sidecar(content, algo.hex_len()) {
                list.push((algo, hex));
            }
        }
    }
    assert(expected_texts(list@) =~= expected_texts(before) + from_sidecar(
        str_of(flag),
        str_of(text),
        algo,
    ));
}

/// All hashes that the download is verified against, from the flags and from the
/// sidecar files: `text256` and `text512` are what these hold, where they can be
/// read. A flag goes before a sidecar file of the same algorithm.
pub fn collect_expected_hashes(
    sha256: Option<&str>,
    sha512: Option<&str>,
    text256: Option<&str>,
    text512: Option<&str>,
) -> (r: Result<Vec<(HashAlgorithm, String)>, HashLengthError>)
    ensures
        match r {
            Ok(list) => {
                &&& usable(str_of(sha256), HashAlgorithm::Sha256)
                &&& usable(str_of(sha512), HashAlgorithm::Sha512)
                &&& expected_texts(list@) == all_expected(
                    str_of(sha256),
                    str_of(sha512),
                    str_of(text256),
                    str_of(text512),
                )
            },
            Err(e) => refused(str_of(sha256), str_of(sha512), e),
        },
{
    let mut list: Vec<(HashAlgorithm, String)> = Vec::new();
    assert(expected_texts(list@) =~= Seq::empty());
    match push_flag(&mut list, sha256, HashAlgorithm::Sha256) {
        Ok(()) => {},
        Err(e) => {
            return Err(e);
        },
    }
    match push_flag(&mut list, sha512, HashAlgorithm::Sha512) {
        Ok(()) => {},
        Err(e) => {
            return Err(e);
        },
    }
    push_sidecar(&mut list, sha256, text256, HashAlgorithm::Sha256);
    push_sidecar(&mut list, sha512, text512, HashAlgorithm::Sha512);
    assert(expected_texts(list@) =~= all_expected(
        str_of(sha256),
        str_of(sha512),
        str_of(text256),
        str_of(text512),
    ));
    Ok(list)
}

/// The hashes to verify in a run: none where the user asks for no checksums.
pub fn hashes_to_verify(
    no_sha: bool,
    sha256: Option<&str>,
    sha512: Option<&str>,
    text256: Option<&str>,
    text512: Option<&str>,
) -> (r: Result<Vec<(HashAlgorithm, String)>, HashLengthError>)
    ensures
        match r {
            Ok(list) => if no_sha {
                list@.len() == 0
            } else {
                &&& usable(str_of(sha256), HashAlgorithm::Sha256)
                &&& usable(str_of(sha512), HashAlgorithm::Sha512)
                &&& expected_texts(list@) == all_expected(
                    str_of(sha256),
                    str_of(sha512),
                    str_of(text256),
                    str_of(text512),
                )
            },
            Err(e) => !no_sha && refused(str_of(sha256), str_of(sha512), e),
        },
{
    if no_sha {
        Ok(Vec::new())
    } else {
        collect_expected_hashes(sha256, sha512, text256, text512)
    }
}

/// Whether a computed digest is the one that is expected.
pub fn digest_matches(actual: &str, expected: &str) -> (r: bool)
    ensures
        r == (actual@ == expected@),
{
    same_text(actual, expected)
}

// ---------------------------------------------------------------------------
// Outside hashing tools
// ---------------------------------------------------------------------------
/// The digest that a tool printed: the hexadecimal digits of the first word, if
/// there are as many as the algorithm has.
pub open spec fn tool_digest(algo: HashAlgorithm, output: Seq<char>) -> Option<Seq<char>> {
    let word = take_while(skip_while(output, blank()), not_blank());
    if normalized(word).len() == algo.spec_hex_len() {
        Some(normalized(word))
    } else {
        None
    }
}

/// The digest in the text that a tool printed.
pub fn digest_from_output(algo: HashAlgorithm, output: &str) -> (r: Option<String>)
    ensures
        text_of(r) == tool_digest(algo, output@),
{
    let v: Vec<char> = to_chars(output);
    let mut n: usize = 0;
    while n < v.len() && is_white_space(v[n])
        invariant
            n <= v@.len(),
            forall|i: int| 0 <= i < n ==> white_space(#[trigger] v@[i]),
        decreases v@.len() - n,
    {
        n = n + 1;
    }
    proof {
        lemma_run(v@, blank(), n as int);
        assert(v@.skip(n as int) =~= v@.subrange(n as int, v@.len() as int));
    }
    let rest: Vec<char> = slice_chars(&v, n, v.len());
    let digits: Vec<char> = keep_hex(&first_token(&rest));
    if digits.len() == algo.hex_len() {
        Some(from_chars(&lower_chars(&digits)))
    } else {
        None
    }
}

/// The text that `bytes` hold, with replacement characters where they are no
/// UTF-8.
pub uninterp spec fn lossy_text(bytes: Seq<u8>) -> Seq<char>;

/// `String::from_utf8_lossy` of std: the bytes as text. Bytes that are valid
/// UTF-8 are decoded as they are.
#[verifier::external_body]
fn from_utf8_lossy(bytes: &[u8]) -> (r: String)
    ensures
        r@ == lossy_text(bytes@),
        vstd::utf8::valid_utf8(bytes@) ==> r@ == vstd::utf8::decode_utf8(bytes@),
{
    String::from_utf8_lossy(bytes).into_owned()
}

/// What to do next for the digest of a file.
#[derive(Debug, Clone, PartialEq, Eq)]
pub enum HashAction {
    /// Run the tool with this index among the candidates.
    RunTool(usize),
    /// Read the file and hash it in this process.
    HashInProcess,
    /// This is the digest.
    Finished(String),
}

/// What comes first: the first of the tools.
pub fn first_hash_action() -> (r: HashAction)
    ensures
        r == HashAction::RunTool(0),
{
    HashAction::RunTool(0)
}

/// What comes after the tool `tool` of the algorithm was tried; `output` is what
/// it printed, unless it could not be run or failed.
pub open spec fn follows_tool(
    algo: HashAlgorithm,
    tool: usize,
    output: Option<Seq<char>>,
    action: HashAction,
) -> bool {
    match action {
        HashAction::Finished(hex) => output is Some && tool_digest(algo, output->0) == Some(hex@),
        HashAction::RunTool(next) => {
            &&& output is Some ==> tool_digest(algo, output->0) is None
            &&& next == tool + 1
            &&& next < algo.spec_tools().len()
        },
        HashAction::HashInProcess => {
            &&& output is Some ==> tool_digest(algo, output->0) is None
            &&& tool + 1 >= algo.spec_tools().len()
        },
    }
}

/// The text of what a tool printed.
pub open spec fn output_text(output: Option<&[u8]>) -> Option<Seq<char>> {
    match output {
        Some(bytes) => Some(lossy_text(bytes@)),
        None => None,
    }
}

/// What comes after a tool, where `output` is the text that it printed.
pub fn hash_action_after_text(algo: HashAlgorithm, tool: usize, output: Option<&str>) -> (r:
    HashAction)
    ensures
        follows_tool(algo, tool, str_of(output), r),
{
    if let Some(text) = output {
        if let Some(hex) = digest_from_output(algo, text) {
            return HashAction::Finished(hex);
        }
    }
    let tools = algo.system_tool_candidates();
    assert(tools_text(tools@).len() == tools@.len());
    if tool < tools.len() && tool + 1 < tools.len() {
        HashAction::RunTool(tool + 1)
    } else {
        HashAction::HashInProcess
    }
}

/// What comes after a tool, where `output` are the bytes that it printed.
pub fn hash_action_after(algo: HashAlgorithm, tool: usize, output: Option<&[u8]>) -> (r:
    HashAction)
    ensures
        follows_tool(algo, tool, output_text(output), r),
{
    match output {
        Some(bytes) => {
            let text: String = from_utf8_lossy(bytes);
            hash_action_after_text(algo, tool, Some(text.as_str()))
        },
        None => hash_action_after_text(algo, tool, None),
    }
}

// ---------------------------------------------------------------------------
// Results
// ---------------------------------------------------------------------------
/// What is done about hashes after a download.
#[derive(Debug, Clone, Copy, PartialEq, Eq, Structural)]
pub enum HashPlan {
    /// Nothing.
    Skip,
    /// The SHA-256 digest is shown.
    Show,
    /// The file is verified.
    Verify,
}

/// What to do about hashes, given how many are expected.
pub fn hash_plan(no_sha: bool, expected: usize) -> (r: HashPlan)
    ensures
        r == (if expected > 0 {
            HashPlan::Verify
        } else if no_sha {
            HashPlan::Skip
        } else {
            HashPlan::Show
        }),
{
    if expected > 0 {
        HashPlan::Verify
    } else if no_sha {
        HashPlan::Skip
    } else {
        HashPlan::Show
    }
}

/// What is said of a hash that was verified.
pub open spec fn verdict_text(
    algo: HashAlgorithm,
    actual: Seq<char>,
    expected: Seq<char>,
) -> Seq<char> {
    if actual == expected {
        algo.spec_name() + ": "@ + actual + "  ✓"@
    } else {
        algo.spec_name() + " mismatch!\n  Expected: "@ + expected + "\n  Actual:   "@ + actual
    }
}

/// Compares a digest with the one that is expected: whether they are the same,
/// and what to say of it.
pub fn verdict(algo: HashAlgorithm, actual: &str, expected: &str) -> (r: (bool, String))
    ensures
        r.0 == (actual@ == expected@),
        r.1@ == verdict_text(algo, actual@, expected@),
{
    let mut out: String = algo.name().to_string();
    if digest_matches(actual, expected) {
        out.append(": ");
        out.append(actual);
        out.append("  ✓");
        (true, out)
    } else {
        out.append(" mismatch!\n  Expected: ");
        out.append(expected);
        out.append("\n  Actual:   ");
        out.append(actual);
        (false, out)
    }
}

/// A file that is not what was expected.
#[derive(Debug, Clone, Copy, PartialEq, Eq, Structural)]
pub struct VerificationFailed;

impl VerificationFailed {
    /// The message of the error.
    pub fn message(&self) -> (r: &'static str)
        ensures
            r@ == "Checksum verification failed"@,
    {
        "Checksum verification failed"
    }
}

/// The result of a verification: it fails if one of the hashes differs.
pub fn verification_result(same: &Vec<bool>) -> (r: Result<(), VerificationFailed>)
    ensures
        r is Ok <==> forall|i: int| 0 <= i < same@.len() ==> #[trigger] same@[i],
{
    for i in 0..same.len()
        invariant
            forall|j: int| 0 <= j < i ==> #[trigger] same@[j],
    {
        if !same[i] {
            return Err(VerificationFailed);
        }
    }
    Ok(())
}

// ---------------------------------------------------------------------------
// Laws of hashes
// ---------------------------------------------------------------------------
proof fn lemma_lower_char(c: char)
    ensures
        hex_digit(lower_char(c)) == hex_digit(c),
        lower_char(lower_char(c)) == lower_char(c),
{
}

pub proof fn lemma_lower(s: Seq<char>)
    ensures
        lower(lower(s)) == lower(s),
        all_hex(lower(s)) == all_hex(s),
        lower(s).len() == s.len(),
{
    assert forall|i: int| 0 <= i < s.len() implies #[trigger] lower(lower(s))[i] == lower(
        s,
    )[i] && hex_digit(lower(s)[i]) == hex_digit(s[i]) by {
        lemma_lower_char(s[i]);
    }
    assert(lower(lower(s)) =~= lower(s));
    if all_hex(lower(s)) {
        assert forall|i: int| 0 <= i < s.len() implies hex_digit(#[trigger] s[i]) by {
            assert(lower(lower(s))[i] == lower(s)[i]);
            assert(hex_digit(lower(s)[i]));
        }
    }
    if all_hex(s) {
        assert forall|i: int| 0 <= i < s.len() implies hex_digit(#[trigger] lower(s)[i]) by {
            assert(lower(lower(s))[i] == lower(s)[i]);
            assert(hex_digit(s[i]));
        }
    }
}

pub proof fn lemma_keep_hex(s: Seq<char>)
    ensures
        all_hex(keep(s, hex_digits())),
        all_hex(s) ==> keep(s, hex_digits()) == s,
        keep(lower(s), hex_digits()) == lower(keep(s, hex_digits())),
    decreases s.len(),
{
    if s.len() > 0 {
        let t = s.drop_last();
        lemma_keep_hex(t);
        lemma_lower_char(s.last());
        assert(lower(s).drop_last() =~= lower(t));
        assert(lower(s).last() == lower_char(s.last()));
        assert(lower(keep(t, hex_digits()).push(s.last())) =~= lower(keep(t, hex_digits())).push(
            lower_char(s.last()),
        ));
        if all_hex(s) {
            assert forall|i: int| 0 <= i < t.len() implies hex_digit(#[trigger] t[i]) by {
                assert(t[i] == s[i]);
            }
            assert(hex_digit(s[s.len() - 1]));
            assert(t.push(s.last()) =~= s);
        }
    } else {
        assert(keep(s, hex_digits()) =~= s);
        assert(lower(s) =~= s);
    }
}

/// A normalized hash holds hexadecimal digits in lower case alone, and to
/// normalize it again changes nothing.
pub proof fn law_normalizing_twice_is_once(input: Seq<char>)
    ensures
        all_hex(normalized(input)),
        lower(normalized(input)) == normalized(input),
        normalized(normalized(input)) == normalized(input),
{
    let k = keep(input, hex_digits());
    lemma_keep_hex(input);
    lemma_lower(k);
    lemma_keep_hex(lower(k));
}

/// Upper and lower case of a hash mean the same.
pub proof fn law_case_does_not_matter(a: Seq<char>, b: Seq<char>)
    requires
        lower(a) == lower(b),
    ensures
        normalized(a) == normalized(b),
{
    lemma_keep_hex(a);
    lemma_keep_hex(b);
    lemma_lower(keep(a, hex_digits()));
    lemma_lower(keep(b, hex_digits()));
    assert(keep(lower(a), hex_digits()) == keep(lower(b), hex_digits()));
}

/// What separates the digits of a hash does not matter.
pub proof fn law_separators_do_not_matter(a: Seq<char>, c: char, b: Seq<char>)
    requires
        !hex_digit(c),
    ensures
        normalized(a.push(c) + b) == normalized(a + b),
{
    lemma_keep_drops(a, c, b);
}

proof fn lemma_keep_drops(a: Seq<char>, c: char, b: Seq<char>)
    requires
        !hex_digit(c),
    ensures
        keep(a.push(c) + b, hex_digits()) == keep(a + b, hex_digits()),
    decreases b.len(),
{
    if b.len() == 0 {
        assert((a.push(c) + b).drop_last() =~= a + b);
        assert((a.push(c) + b).last() == c);
    } else {
        lemma_keep_drops(a, c, b.drop_last());
        assert((a.push(c) + b).drop_last() =~= a.push(c) + b.drop_last());
        assert((a + b).drop_last() =~= a + b.drop_last());
        assert((a.push(c) + b).last() == (a + b).last());
    }
}

/// A hash from a sidecar file has the length that is asked for and is normalized,
/// so it compares with a digest as one from a flag does.
pub proof fn law_sidecar_hash_is_normalized(content: Seq<char>, len: nat)
    ensures
        sidecar_hash(content, len) matches Some(h) ==> h.len() == len && all_hex(h) && normalized(h)
            == h,
{
    lemma_first_hash_is_normalized(lines(content), len);
}

proof fn lemma_first_hash_is_normalized(lines: Seq<Seq<char>>, len: nat)
    ensures
        first_hash(lines, len) matches Some(h) ==> h.len() == len && all_hex(h) && normalized(h)
            == h,
    decreases lines.len(),
{
    if lines.len() > 0 {
        if let Some(h) = line_hash(lines[0], len) {
            let t = trim(lines[0]);
            let token = take_while(t, not_blank());
            let core = drop_end_while(skip_while(token, only('*')), only('*'));
            lemma_lower(core);
            lemma_lower(h);
            lemma_keep_hex(h);
        } else {
            lemma_first_hash_is_normalized(lines.drop_first(), len);
        }
    }
}

pub proof fn lemma_drop_end_keeps(s: Seq<char>, p: CharClass, k: int)
    requires
        0 < k <= s.len(),
        !p(s[k - 1]),
    ensures
        drop_end_while(s, p).len() >= k,
        drop_end_while(s, p).len() <= s.len(),
        drop_end_while(s, p) == s.take(drop_end_while(s, p).len() as int),
    decreases s.len(),
{
    if p(s.last()) {
        lemma_drop_end_keeps(s.drop_last(), p, k);
        let r = drop_end_while(s, p);
        assert(s.drop_last().take(r.len() as int) =~= s.take(r.len() as int));
    } else {
        assert(s.take(s.len() as int) =~= s);
    }
}

/// A line as the checksum tools write it, a hash and then, after a space, a name,
/// gives the hash.
pub proof fn law_checksum_line_gives_hash(hash: Seq<char>, rest: Seq<char>)
    requires
        hash.len() > 0,
        all_hex(hash),
        rest.len() > 0 ==> white_space(rest[0]),
    ensures
        line_hash(hash + rest, hash.len()) == Some(lower(hash)),
{
    let s = hash + rest;
    let n = hash.len() as int;
    assert(s[0] == hash[0] && hex_digit(hash[0]));
    lemma_run(s, blank(), 0);
    assert(s.skip(0) =~= s);
    assert(hex_digit(hash[n - 1]) && s[n - 1] == hash[n - 1]);
    lemma_drop_end_keeps(s, blank(), n);
    let t = trim(s);
    assert forall|i: int| 0 <= i < n implies not_blank()(#[trigger] t[i]) by {
        assert(t[i] == s[i] && s[i] == hash[i]);
        assert(hex_digit(hash[i]));
    }
    if n < t.len() {
        assert(t[n] == s[n] && s[n] == rest[0]);
    }
    lemma_run(t, not_blank(), n);
    assert(t.take(n) =~= hash);
    lemma_run(hash, only('*'), 0);
    assert(hash.skip(0) =~= hash);
    lemma_end_run(hash, only('*'), n);
    assert(hash.take(n) =~= hash);
}

/// A sidecar file whose first line is as the checksum tools write it gives the
/// hash on that line.
pub proof fn law_checksum_file_gives_hash(content: Seq<char>, hash: Seq<char>, rest: Seq<char>)
    requires
        hash.len() > 0,
        all_hex(hash),
        rest.len() > 0 ==> white_space(rest[0]),
        lines(content).len() > 0,
        lines(content)[0] == hash + rest,
    ensures
        sidecar_hash(content, hash.len()) == Some(lower(hash)),
{
    law_checksum_line_gives_hash(hash, rest);
}

/// Whether the hash `e` is the one that is verified of its algorithm.
pub open spec fn decides(
    flag: Option<Seq<char>>,
    text: Option<Seq<char>>,
    algo: HashAlgorithm,
    e: ExpectedText,
) -> bool {
    &&& e.0 == algo
    &&& flag is Some ==> e.1 == normalized(flag->0)
    &&& flag is None ==> text is Some && sidecar_hash(text->0, algo.spec_hex_len()) == Some(e.1)
}

/// Of each algorithm at most one hash is verified: that of the flag, else that of
/// the sidecar file. It is verified whenever there is one, whatever the other
/// algorithm has: a flag goes before a sidecar file of its own algorithm alone.
pub proof fn law_flags_displace_their_own_sidecar(
    sha256: Option<Seq<char>>,
    sha512: Option<Seq<char>>,
    text256: Option<Seq<char>>,
    text512: Option<Seq<char>>,
)
    ensures
        ({
            let all = all_expected(sha256, sha512, text256, text512);
            &&& forall|i: int, j: int|
                0 <= i < j < all.len() ==> (#[trigger] all[i]).0 != (#[trigger] all[j]).0
            &&& forall|e: ExpectedText| #[trigger]
                all.contains(e) <==> decides(sha256, text256, HashAlgorithm::Sha256, e) || decides(
                    sha512,
                    text512,
                    HashAlgorithm::Sha512,
                    e,
                )
        }),
{
    let all = all_expected(sha256, sha512, text256, text512);
    let a = from_flag(sha256, HashAlgorithm::Sha256);
    let b = from_flag(sha512, HashAlgorithm::Sha512);
    let c = from_sidecar(sha256, text256, HashAlgorithm::Sha256);
    let d = from_sidecar(sha512, text512, HashAlgorithm::Sha512);
    assert forall|e: ExpectedText|
        decides(sha256, text256, HashAlgorithm::Sha256, e) || decides(
            sha512,
            text512,
            HashAlgorithm::Sha512,
            e,
        ) implies #[trigger] all.contains(e) by {
        if e.0 == HashAlgorithm::Sha256 {
            if sha256 is Some {
                assert(all[0] == e);
            } else {
                assert(all[(b.len()) as int] == e);
            }
        } else {
            if sha512 is Some {
                assert(all[a.len() as int] == e);
            } else {
                assert(all[all.len() - 1] == e);
            }
        }
    }
    assert forall|e: ExpectedText| #[trigger] all.contains(e) implies decides(
        sha256,
        text256,
        HashAlgorithm::Sha256,
        e,
    ) || decides(sha512, text512, HashAlgorithm::Sha512, e) by {
        let i = choose|i: int| 0 <= i < all.len() && all[i] == e;
        assert(all[i] == e);
    }
}

} // verus!
