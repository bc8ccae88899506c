//! The decisions of a run: what to download, from which address, and what to do
//! with a file that exists.
use vstd::prelude::*;

use crate::ranges::{expand_ranges, expansion, texts};
use crate::text::{
    chars_of, from_chars, is_text, lines, lower, lower_chars, split_lines, str_of, to_chars, trim,
    trim_chars,
};

verus! {

// ---------------------------------------------------------------------------
// Addresses
// ---------------------------------------------------------------------------
/// Which addresses of a host to use.
#[derive(Debug, Clone, Copy, PartialEq, Eq, Structural)]
pub enum IpMode {
    Auto,
    V4,
    V6,
}

/// The family of an address.
#[derive(Debug, Clone, Copy, PartialEq, Eq, Structural)]
pub enum Family {
    V4,
    V6,
}

impl IpMode {
    /// The mode that the flags ask for. Both together are as none.
    pub open spec fn of_flags(ipv4: bool, ipv6: bool) -> IpMode {
        if ipv4 == ipv6 {
            IpMode::Auto
        } else if ipv4 {
            IpMode::V4
        } else {
            IpMode::V6
        }
    }

    /// The mode that the flags ask for. Both together are as none.
    pub fn from_args(ipv4: bool, ipv6: bool) -> (r: IpMode)
        ensures
            r == IpMode::of_flags(ipv4, ipv6),
            r == (if ipv4 && !ipv6 {
                IpMode::V4
            } else if ipv6 && !ipv4 {
                IpMode::V6
            } else {
                IpMode::Auto
            }),
    {
        match (ipv4, ipv6) {
            (true, false) => IpMode::V4,
            (false, true) => IpMode::V6,
            _ => IpMode::Auto,
        }
    }

    /// The name of the mode.
    pub open spec fn spec_label(&self) -> Seq<char> {
        match self {
            IpMode::Auto => "auto"@,
            IpMode::V4 => "IPv4"@,
            IpMode::V6 => "IPv6"@,
        }
    }

    /// The name of the mode.
    pub fn label(self) -> (r: &'static str)
        ensures
            r@ == self.spec_label(),
    {
        match self {
            IpMode::Auto => "auto",
            IpMode::V4 => "IPv4",
            IpMode::V6 => "IPv6",
        }
    }

    /// Whether an address of this family will do.
    pub open spec fn spec_admits(&self, family: Family) -> bool {
        match self {
            IpMode::Auto => true,
            IpMode::V4 => family == Family::V4,
            IpMode::V6 => family == Family::V6,
        }
    }

    /// Whether an address of this family will do.
    pub fn admits(&self, family: Family) -> (r: bool)
        ensures
            r == self.spec_admits(family),
    {
        match self {
            IpMode::Auto => true,
            IpMode::V4 => family == Family::V4,
            IpMode::V6 => family == Family::V6,
        }
    }
}

/// Why a host has no address to use.
#[derive(Debug, Clone, Copy, PartialEq, Eq, Structural)]
pub enum AddressError {
    /// It has none at all.
    Nothing,
    /// It has none of the family that is asked for.
    WrongFamily(IpMode),
}

impl AddressError {
    /// The message of the error.
    pub open spec fn spec_message(&self, host: Seq<char>) -> Seq<char> {
        match self {
            AddressError::Nothing => "No addresses returned for "@ + host,
            AddressError::WrongFamily(mode) => "No "@ + mode.spec_label() + " address found for "@
                + host,
        }
    }

    /// The message of the error.
    pub fn message(&self, host: &str) -> (r: String)
        ensures
            r@ == self.spec_message(host@),
    {
        match self {
            AddressError::Nothing => {
                let mut out: String = "No addresses returned for ".to_string();
                out.append(host);
                out
            },
            AddressError::WrongFamily(mode) => {
                let mut out: String = "No ".to_string();
                out.append(mode.label());
                out.append(" address found for ");
                out.append(host);
                out
            },
        }
    }
}

/// Picks the first address that will do; the addresses are given by their
/// families.
pub fn pick_address(families: &Vec<Family>, mode: IpMode) -> (r: Result<usize, AddressError>)
    ensures
        match r {
            Ok(i) => {
                &&& i < families@.len()
                &&& mode.spec_admits(families@[i as int])
                &&& forall|j: int| 0 <= j < i ==> !mode.spec_admits(#[trigger] families@[j])
            },
            Err(AddressError::Nothing) => families@.len() == 0,
            Err(AddressError::WrongFamily(m)) => {
                &&& families@.len() > 0
                &&& m == mode
                &&& forall|j: int|
                    0 <= j < families@.len() ==> !mode.spec_admits(#[trigger] families@[j])
            },
        },
{
    if families.len() == 0 {
        return Err(AddressError::Nothing);
    }
    for i in 0..families.len()
        invariant
            forall|j: int| 0 <= j < i ==> !mode.spec_admits(#[trigger] families@[j]),
    {
        if mode.admits(families[i]) {
            return Ok(i);
        }
    }
    Err(AddressError::WrongFamily(mode))
}

// ---------------------------------------------------------------------------
// What to download
// ---------------------------------------------------------------------------
/// Whether a line of an input file holds a URL: it is neither blank nor a comment.
pub open spec fn holds_url(line: Seq<char>) -> bool {
    trim(line).len() > 0 && trim(line)[0] != '#'
}

/// The URLs in the lines of an input file.
pub open spec fn urls_in(lines: Seq<Seq<char>>) -> Seq<Seq<char>>
    decreases lines.len(),
{
    if lines.len() == 0 {
        Seq::empty()
    } else {
        let before = urls_in(lines.drop_last());
        if holds_url(lines.last()) {
            before.push(trim(lines.last()))
        } else {
            before
        }
    }
}

/// The URLs that a user gives: those on the command line, then those of the input
/// file.
pub open spec fn given_urls(args: Seq<Seq<char>>, file: Option<Seq<char>>) -> Seq<Seq<char>> {
    match file {
        Some(content) => args + urls_in(lines(content)),
        None => args,
    }
}

/// There is nothing to download.
#[derive(Debug, Clone, Copy, PartialEq, Eq, Structural)]
pub struct NoUrls;

impl NoUrls {
    /// The message of the error.
    pub fn message(&self) -> (r: &'static str)
        ensures
            r@ == "No URLs provided. Pass URLs as arguments or use -i/--input-file."@,
    {
        "No URLs provided. Pass URLs as arguments or use -i/--input-file."
    }
}

/// The URLs that a user gives, on the command line and as what an input file
/// holds. It is an error if there are none.
pub fn collect_urls(args: &Vec<String>, file: Option<&str>) -> (r: Result<Vec<String>, NoUrls>)
    ensures
        match r {
            Ok(list) => {
                &&& list@.len() > 0
                &&& texts(list@) == given_urls(texts(args@), str_of(file))
            },
            Err(_) => given_urls(texts(args@), str_of(file)).len() == 0,
        },
{
    let mut list: Vec<String> = Vec::new();
    for i in 0..args.len()
        invariant
            texts(list@) == texts(args@).take(i as int),
    {
        let ghost before = list@;
        list.push(args[i].as_str().to_string());
        assert(texts(list@) =~= texts(before).push(args@[i as int]@));
        assert(texts(list@) =~= texts(args@).take(i + 1));
    }
    assert(texts(args@).take(args.len() as int) =~= texts(args@));
    if let Some(content) = file {
        let all: Vec<Vec<char>> = split_lines(&to_chars(content));
        let ghost seen = chars_of(all@);
        assert(texts(list@) =~= texts(args@) + urls_in(seen.take(0)));
        for i in 0..all.len()
            invariant
                seen == chars_of(all@),
                texts(list@) == texts(args@) + urls_in(seen.take(i as int)),
        {
            let trimmed: Vec<char> = trim_chars(&all[i]);
            proof {
                assert(seen.take(i + 1).drop_last() =~= seen.take(i as int));
                assert(seen.take(i + 1).last() == all@[i as int]@);
            }
            if trimmed.len() > 0 && trimmed[0] != '#' {
                let ghost before = list@;
                list.push(from_chars(&trimmed));
                assert(texts(list@) =~= texts(before).push(trimmed@));
                assert(texts(list@) =~= texts(args@) + urls_in(seen.take(i + 1)));
            }
        }
        assert(seen.take(all.len() as int) =~= seen);
    }
    assert(texts(list@).len() == list@.len());
    if list.len() == 0 {
        Err(NoUrls)
    } else {
        Ok(list)
    }
}

/// What the URLs stand for, one after the other.
pub open spec fn expansions(urls: Seq<Seq<char>>) -> Seq<Seq<char>>
    decreases urls.len(),
{
    if urls.len() == 0 {
        Seq::empty()
    } else {
        expansions(urls.drop_last()) + expansion(urls.last())
    }
}

/// Expands the ranges in each of the URLs.
pub fn expand_urls(urls: &Vec<String>) -> (r: Vec<String>)
    ensures
        texts(r@) == expansions(texts(urls@)),
{
    let mut out: Vec<String> = Vec::new();
    assert(texts(out@) =~= expansions(texts(urls@).take(0)));
    for i in 0..urls.len()
        invariant
            texts(out@) == expansions(texts(urls@).take(i as int)),
    {
        let mut more: Vec<String> = expand_ranges(urls[i].as_str());
        let ghost before = out@;
        let ghost added = more@;
        out.append(&mut more);
        proof {
            let t = texts(urls@).take(i + 1);
            assert(t.drop_last() =~= texts(urls@).take(i as int));
            assert(t.last() == urls@[i as int]@);
            assert(texts(out@) =~= texts(before) + texts(added));
        }
    }
    assert(texts(urls@).take(urls.len() as int) =~= texts(urls@));
    out
}

/// A comment or a blank line in an input file changes nothing, wherever it stands.
pub proof fn law_comments_are_ignored(front: Seq<Seq<char>>, line: Seq<char>, rest: Seq<Seq<char>>)
    requires
        !holds_url(line),
    ensures
        urls_in(front.push(line) + rest) == urls_in(front + rest),
    decreases rest.len(),
{
    if rest.len() == 0 {
        assert(front.push(line) + rest =~= front.push(line));
        assert(front.push(line).drop_last() =~= front);
        assert(front + rest =~= front);
    } else {
        law_comments_are_ignored(front, line, rest.drop_last());
        assert((front.push(line) + rest).drop_last() =~= front.push(line) + rest.drop_last());
        assert((front + rest).drop_last() =~= front + rest.drop_last());
        assert((front.push(line) + rest).last() == (front + rest).last());
    }
}

/// What the URLs of two lists stand for is what those of the first stand for, and
/// then those of the second: no URL of a batch has a part in what another gives.
pub proof fn law_urls_expand_apart(a: Seq<Seq<char>>, b: Seq<Seq<char>>)
    ensures
        expansions(a + b) == expansions(a) + expansions(b),
    decreases b.len(),
{
    if b.len() == 0 {
        assert(a + b =~= a);
        assert(expansions(a) + expansions(b) =~= expansions(a));
    } else {
        law_urls_expand_apart(a, b.drop_last());
        assert((a + b).drop_last() =~= a + b.drop_last());
        assert((a + b).last() == b.last());
        assert(expansions(a) + expansions(b.drop_last()) + expansion(b.last()) =~= expansions(a) + (
        expansions(b.drop_last()) + expansion(b.last())));
    }
}

// ---------------------------------------------------------------------------
// The batch
// ---------------------------------------------------------------------------
/// How the downloads of a run went.
#[derive(Debug, Clone, Copy, PartialEq, Eq, Structural)]
pub struct Batch {
    /// How many there are.
    pub total: usize,
    pub succeeded: usize,
    pub failed: usize,
    /// Whether no further one is begun.
    pub stopped: bool,
}

impl Batch {
    /// No more downloads were counted than there are, and only a failure stops the
    /// rest.
    pub open spec fn valid(&self) -> bool {
        &&& self.succeeded + self.failed <= self.total
        &&& self.stopped ==> self.failed > 0
    }

    /// A batch of `total` downloads, before the first one.
    pub fn new(total: usize) -> (r: Batch)
        ensures
            r.valid(),
            r == (Batch { total, succeeded: 0, failed: 0, stopped: false }),
    {
        Batch { total, succeeded: 0, failed: 0, stopped: false }
    }

    /// The index of the next download.
    pub open spec fn spec_next(&self) -> Option<usize> {
        if self.stopped || self.succeeded + self.failed >= self.total {
            None
        } else {
            Some((self.succeeded + self.failed) as usize)
        }
    }

    /// The index of the next download, if there is one.
    pub fn next(&self) -> (r: Option<usize>)
        requires
            self.valid(),
        ensures
            r == self.spec_next(),
    {
        if self.stopped || self.succeeded + self.failed >= self.total {
            None
        } else {
            Some(self.succeeded + self.failed)
        }
    }

    /// The batch with one more download counted.
    pub open spec fn counted(&self, ok: bool, fail_fast: bool) -> Batch {
        Batch {
            total: self.total,
            succeeded: (self.succeeded + if ok {
                1int
            } else {
                0int
            }) as usize,
            failed: (self.failed + if ok {
                0int
            } else {
                1int
            }) as usize,
            stopped: self.stopped || (!ok && fail_fast),
        }
    }

    /// Counts a download. With `fail_fast` a failure is the last one.
    pub fn record(&mut self, ok: bool, fail_fast: bool)
        requires
            old(self).valid(),
            old(self).spec_next() is Some,
        ensures
            final(self).valid(),
            *final(self) == old(self).counted(ok, fail_fast),
            *final(self) == (Batch {
                total: old(self).total,
                succeeded: (old(self).succeeded + if ok {
                    1int
                } else {
                    0int
                }) as usize,
                failed: (old(self).failed + if ok {
                    0int
                } else {
                    1int
                }) as usize,
                stopped: old(self).stopped || (!ok && fail_fast),
            }),
    {
        if ok {
            self.succeeded = self.succeeded + 1;
        } else {
            self.failed = self.failed + 1;
            if fail_fast {
                self.stopped = true;
            }
        }
    }

    /// Whether the run fails: one download did.
    pub fn is_failure(&self) -> (r: bool)
        ensures
            r == (self.failed > 0),
    {
        self.failed > 0
    }
}

/// When there is no next download, each one was counted, unless a failure stopped
/// the rest.
pub proof fn law_every_download_is_counted(batch: Batch)
    requires
        batch.valid(),
        batch.spec_next() is None,
    ensures
        batch.succeeded + batch.failed == batch.total || (batch.stopped && batch.failed > 0),
{
}

// ---------------------------------------------------------------------------
// A file that exists
// ---------------------------------------------------------------------------
/// Whether an answer to a `[Y/n]` question is a yes. So is no answer at all.
pub open spec fn means_yes(line: Seq<char>) -> bool {
    let answer = lower(trim(line));
    answer == ""@ || answer == "y"@ || answer == "yes"@
}

/// Whether an answer to a `[Y/n]` question is a yes.
pub fn is_yes(line: &str) -> (r: bool)
    ensures
        r == means_yes(line@),
{
    let answer: Vec<char> = lower_chars(&trim_chars(&to_chars(line)));
    is_text(&answer, "") || is_text(&answer, "y") || is_text(&answer, "yes")
}

/// What the user says about files that exist.
#[derive(Debug, Clone, Copy, PartialEq, Eq, Structural)]
pub struct Policy {
    pub overwrite: bool,
    pub no_overwrite: bool,
    /// No control file is read or written.
    pub no_continue: bool,
}

/// How to begin a download.
#[derive(Debug, Clone, Copy, PartialEq, Eq, Structural)]
pub enum Start {
    /// Not at all: the file stays as it is.
    Abort,
    /// Ask whether the file may be overwritten.
    Ask,
    /// Begin, after the control file was removed where `remove_control` says so.
    /// The file is kept where `resuming` says so; else it is truncated.
    Begin { resuming: bool, remove_control: bool },
}

/// Whether a partial download can go on: the control file may be read and fits,
/// and the file is there.
pub open spec fn continues(policy: Policy, valid_state: bool, exists_already: bool) -> bool {
    !policy.no_continue && valid_state && exists_already
}

/// How to begin a download; `valid_state` tells whether a control file was found
/// that fits, `exists_already` whether the file is there.
pub open spec fn start_of(policy: Policy, valid_state: bool, exists_already: bool) -> Start {
    let continuing = continues(policy, valid_state, exists_already);
    if exists_already && policy.no_overwrite && (continuing || !policy.overwrite) {
        Start::Abort
    } else if exists_already && !continuing && !policy.overwrite {
        Start::Ask
    } else {
        Start::Begin {
            resuming: continuing && !policy.overwrite,
            remove_control: !policy.no_continue && (policy.overwrite || (valid_state
                && !exists_already)),
        }
    }
}

/// Decides how to begin a download.
pub fn decide_start(policy: Policy, valid_state: bool, exists_already: bool) -> (r: Start)
    ensures
        r == start_of(policy, valid_state, exists_already),
{
    let usable: bool = !policy.no_continue && valid_state;
    let remove_control: bool = if usable && !exists_already {
        // The file is gone: what the control file says of it is stale.
        true
    } else {
        policy.overwrite && !policy.no_continue
    };
    if !exists_already {
        return Start::Begin { resuming: false, remove_control };
    }
    if usable {
        if policy.no_overwrite {
            Start::Abort
        } else {
            Start::Begin { resuming: !policy.overwrite, remove_control }
        }
    } else if policy.overwrite {
        Start::Begin { resuming: false, remove_control }
    } else if policy.no_overwrite {
        Start::Abort
    } else {
        Start::Ask
    }
}

/// How to begin after the question whether the file may be overwritten.
pub fn start_after_answer(yes: bool) -> (r: Start)
    ensures
        r == (if yes {
            Start::Begin { resuming: false, remove_control: false }
        } else {
            Start::Abort
        }),
{
    if yes {
        Start::Begin { resuming: false, remove_control: false }
    } else {
        Start::Abort
    }
}

/// Whether the control file is removed after a download that succeeded: it has
/// done its work then, unless control files are none of this run's business.
pub open spec fn removed_at_end(no_continue: bool) -> bool {
    !no_continue
}

/// Whether the control file is removed after a download that succeeded.
pub fn removes_control_at_end(no_continue: bool) -> (r: bool)
    ensures
        r == removed_at_end(no_continue),
        r == !no_continue,
{
    !no_continue
}

/// With `--no-continue` a control file that exists is left as it is: it is not
/// removed before the download nor after it, it is not heeded, and it makes no
/// difference to how the download begins.
pub proof fn law_no_continue_leaves_the_control_file(
    policy: Policy,
    valid_state: bool,
    exists_already: bool,
)
    requires
        policy.no_continue,
    ensures
        start_of(policy, valid_state, exists_already) matches Start::Begin {
            resuming,
            remove_control,
        } ==> !resuming && !remove_control,
        start_of(policy, valid_state, exists_already) == start_of(policy, false, exists_already),
        !removed_at_end(policy.no_continue),
{
}

/// A file that exists is truncated without a question only if the user asks for
/// it, and not at all if the user forbids it.
pub proof fn law_no_silent_overwrite(policy: Policy, valid_state: bool)
    ensures
        start_of(policy, valid_state, true) matches Start::Begin {
            resuming,
            ..
        } ==> resuming || policy.overwrite,
        policy.no_overwrite && !policy.overwrite ==> start_of(policy, valid_state, true)
            == Start::Abort,
{
}

/// Without a control file that may be read and fits, and without the file itself,
/// nothing is resumed.
pub proof fn law_resuming_needs_both(policy: Policy, valid_state: bool, exists_already: bool)
    ensures
        start_of(policy, valid_state, exists_already) matches Start::Begin {
            resuming,
            remove_control,
        } ==> {
            &&& resuming ==> valid_state && exists_already && !policy.no_continue
                && !policy.overwrite
            &&& remove_control ==> !resuming && !policy.no_continue
        },
{
}

/// Whether to warn that only one connection is used though more were asked for.
pub fn warns_of_single(accept_ranges: bool, connections: usize) -> (r: bool)
    ensures
        r == (!accept_ranges && connections > 1),
{
    !accept_ranges && connections > 1
}

} // verus!
