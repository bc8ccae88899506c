//! Resuming a download across runs: the state in the control file.
use vstd::prelude::*;

use crate::paths::{
    ends_with, file_name, final_name, join_path, law_name_in_directory, lemma_parent_is_portable,
    lemma_part_contains, parent, parent_path, part_of, path_in, plain_name, portable, stripped,
    verbatim,
};
use crate::text::{occurs_at, same_text, str_of, text_of};

verus! {

/// Version of the format of the control file.
pub const RESUME_STATE_VERSION: u32 = 1;

/// The progress of one chunk.
#[derive(Debug, Clone, Copy, PartialEq, Eq, Structural)]
pub struct ChunkProgress {
    /// First byte of the chunk.
    pub start: u64,
    /// Last byte of the chunk.
    pub end: u64,
    /// How many bytes have been written, from the first one on.
    pub written: u64,
}

/// What is kept of a download between two runs.
#[derive(Debug, Clone, PartialEq, Eq)]
pub struct ResumeState {
    pub version: u32,
    /// The URL that is downloaded.
    pub url: String,
    /// The ETag of the server, if it sent one.
    pub etag: Option<String>,
    pub content_length: u64,
    /// Number of connections when this state was made.
    pub connections: usize,
    pub min_chunk: u64,
    /// Progress of each chunk.
    pub chunks: Vec<ChunkProgress>,
}

// ---------------------------------------------------------------------------
// The control file
// ---------------------------------------------------------------------------
/// The name of the control file for a download with the name `name`.
pub open spec fn control_name(name: Seq<char>) -> Seq<char> {
    "."@ + name + ".rget"@
}

/// The name at the end of the target; empty where there is none.
pub open spec fn target_name(target: Seq<char>) -> Seq<char> {
    match final_name(target) {
        Some(n) => n,
        None => Seq::empty(),
    }
}

/// The path of the control file for the target: hidden, beside it.
pub open spec fn control_path(target: Seq<char>) -> Seq<char> {
    let dir = match parent_path(target) {
        Some(p) => p,
        None => "."@,
    };
    path_in(dir, control_name(target_name(target)))
}

/// The name of the control file for a download with the name `name`.
pub fn control_file_name(name: &str) -> (r: String)
    ensures
        r@ == control_name(name@),
{
    let mut out: String = ".".to_string();
    out.append(name);
    out.append(".rget");
    out
}

/// The path of the control file for a download target.
///
/// On a path that is not portable the directory and the name are up to the
/// machine.
pub fn control_path_for(target: &str) -> (r: String)
    ensures
        portable(target@) ==> r@ == control_path(target@),
        !target@.contains('\\') ==> exists|name: Seq<char>| #[trigger]
            part_of(name, target@) && ends_with(r@, control_name(name)),
{
    let dir: String = match parent(target) {
        Some(p) => p,
        None => ".".to_string(),
    };
    let name: String = match file_name(target) {
        Some(n) => n,
        None => String::new(),
    };
    let hidden: String = control_file_name(name.as_str());
    proof {
        reveal_strlit("");
        reveal_strlit(".");
        reveal_strlit("..");
        reveal_strlit("/");
        reveal_strlit(".rget");
        let h = hidden@;
        let n = name@;
        assert(h.len() == n.len() + 6);
        assert(h[0] == '.');
        assert forall|c: char| h.contains(c) && c != '.' && c != 'r' && c != 'g' && c != 'e' && c
            != 't' implies n.contains(c) by {
            let i = choose|i: int| 0 <= i < h.len() && h[i] == c;
            if i == 0 || i > n.len() {
                assert(i > n.len() ==> h[i] == ".rget"@[i - 1 - n.len()]);
            } else {
                assert(n[i - 1] == c);
            }
        }
        if n.len() == 0 {
            assert(target@.subrange(0, 0) =~= n);
            assert(occurs_at(target@, n, 0));
        }
        assert(part_of(n, target@));
        assert forall|c: char| n.contains(c) implies target@.contains(c) by {
            lemma_part_contains(n, target@, c);
        }
        if !target@.contains('\\') {
            reveal_strlit("\\\\?\\");
            assert(verbatim(target@) ==> target@[0] == target@.take(4)[0]);
        }
        if portable(target@) {
            lemma_parent_is_portable(target@);
            assert(portable(h));
        }
    }
    let r: String = join_path(dir.as_str(), hidden.as_str());
    assert(!target@.contains('\\') ==> ends_with(r@, control_name(name@)));
    r
}

/// The control file is hidden and stands beside the target: for `dir/name` it is
/// `dir/.name.rget`, for `name` alone `.name.rget`.
pub proof fn law_control_file_is_hidden_beside(dir: Seq<char>, name: Seq<char>)
    requires
        plain_name(name),
        dir.len() > 0,
        stripped(dir) == dir,
    ensures
        control_path(dir + "/"@ + name) == dir + "/."@ + name + ".rget"@,
        control_path(name) == "."@ + name + ".rget"@,
{
    reveal_strlit("/");
    reveal_strlit(".");
    reveal_strlit("/.");
    law_name_in_directory(dir, name);
    assert(dir.last() != '/') by {
        if dir.last() == '/' {
            assert(path_in(dir, name).len() < (dir + "/"@ + name).len());
        }
    }
    assert(dir + "/"@ + control_name(name) =~= dir + "/."@ + name + ".rget"@);
    assert(Seq::<char>::empty() + control_name(name) =~= control_name(name));
}

/// The temporary file that is written before it takes the place of the control
/// file.
pub fn temporary_path_for(control: &str) -> (r: String)
    ensures
        r@ == control@ + ".tmp"@,
{
    let mut out: String = control.to_string();
    out.append(".tmp");
    out
}

/// What is loaded of what a control file holds: the state, if it has the version of
/// this format.
pub open spec fn loaded(parsed: Option<ResumeState>) -> Option<ResumeState> {
    if parsed is Some && parsed->0.version == RESUME_STATE_VERSION {
        parsed
    } else {
        None
    }
}

/// What a control file gives: the state that it holds, if it could be read and
/// has the version of this format.
pub fn load_resume_state(parsed: Option<ResumeState>) -> (r: Option<ResumeState>)
    ensures
        r == loaded(parsed),
{
    match parsed {
        Some(state) => if state.version == RESUME_STATE_VERSION {
            Some(state)
        } else {
            None
        },
        None => None,
    }
}

/// Whether the state is of the content that the server has now: the length is
/// the same and, where both are known, the ETag.
pub open spec fn same_content(
    state: ResumeState,
    content_length: u64,
    etag: Option<Seq<char>>,
) -> bool {
    &&& state.content_length == content_length
    &&& text_of(state.etag) is Some && etag is Some ==> text_of(state.etag) == etag
}

/// Whether a loaded state can still be used.
pub fn validate_resume_state(state: &ResumeState, content_length: u64, etag: Option<&str>) -> (r:
    bool)
    ensures
        r == same_content(*state, content_length, str_of(etag)),
{
    if state.content_length != content_length {
        return false;
    }
    if let Some(stored) = &state.etag {
        if let Some(current) = etag {
            return same_text(stored.as_str(), current);
        }
    }
    true
}

// ---------------------------------------------------------------------------
// Bytes that are already written
// ---------------------------------------------------------------------------
/// The position after the last byte that is written of a chunk.
pub open spec fn written_end(c: ChunkProgress) -> int {
    if c.start > c.end {
        c.start as int
    } else if c.written <= c.end - c.start {
        c.start + c.written
    } else {
        c.end + 1
    }
}

/// Whether byte `b` is written according to the chunk.
pub open spec fn wrote(c: ChunkProgress, b: int) -> bool {
    c.start <= b < written_end(c)
}

/// Whether byte `b` is written according to one of the chunks.
pub open spec fn is_written(chunks: Seq<ChunkProgress>, b: int) -> bool {
    exists|i: int| 0 <= i < chunks.len() && wrote(#[trigger] chunks[i], b)
}

/// How many of the bytes from `first` to `last` are written of a chunk.
pub open spec fn covered(c: ChunkProgress, first: int, last: int) -> nat {
    let from = if first > c.start {
        first
    } else {
        c.start as int
    };
    let to = if last + 1 < written_end(c) {
        last + 1
    } else {
        written_end(c)
    };
    if from < to {
        (to - from) as nat
    } else {
        0
    }
}

/// The sum of what the chunks have written of the bytes from `first` to `last`.
pub open spec fn covered_sum(chunks: Seq<ChunkProgress>, first: int, last: int) -> nat
    decreases chunks.len(),
{
    if chunks.len() == 0 {
        0
    } else {
        covered_sum(chunks.drop_last(), first, last) + covered(chunks.last(), first, last)
    }
}

/// How many of the bytes from `first` to `last` are taken as written: the sum
/// over the chunks, and no more than there are.
pub open spec fn already_written(chunks: Seq<ChunkProgress>, first: int, last: int) -> nat {
    if covered_sum(chunks, first, last) < last - first + 1 {
        covered_sum(chunks, first, last)
    } else {
        (last - first + 1) as nat
    }
}

/// Whether no chunk spans all 64-bit positions, so that each has a length.
pub open spec fn measurable(chunks: Seq<ChunkProgress>) -> bool {
    forall|i: int|
        0 <= i < chunks.len() ==> (#[trigger] chunks[i]).end < u64::MAX || chunks[i].start > 0
}

/// Whether what is written of a range can be computed in 64 bits.
pub open spec fn computable(chunks: Seq<ChunkProgress>, first: u64, last: u64) -> bool {
    &&& first <= last
    &&& last - first < u64::MAX
    &&& measurable(chunks)
    &&& covered_sum(chunks, first as int, last as int) <= u64::MAX
}

proof fn lemma_covered_prefix(chunks: Seq<ChunkProgress>, first: int, last: int, n: int)
    requires
        0 <= n <= chunks.len(),
    ensures
        covered_sum(chunks.take(n), first, last) <= covered_sum(chunks, first, last),
    decreases chunks.len(),
{
    if n == chunks.len() {
        assert(chunks.take(n) =~= chunks);
    } else {
        lemma_covered_prefix(chunks.drop_last(), first, last, n);
        assert(chunks.drop_last().take(n) =~= chunks.take(n));
    }
}

/// How many of the bytes from `range_start` to `range_end` one chunk has written.
fn covered_bytes(c: &ChunkProgress, range_start: u64, range_end: u64) -> (r: u64)
    requires
        range_start <= range_end,
        range_end - range_start < u64::MAX,
        c.end < u64::MAX || c.start > 0,
    ensures
        r == covered(*c, range_start as int, range_end as int),
{
    let from: u64 = if range_start > c.start {
        range_start
    } else {
        c.start
    };
    let to: u64 = if range_end < c.end {
        range_end
    } else {
        c.end
    };
    if from > to {
        return 0;
    }
    let len: u64 = c.end - c.start + 1;
    let already: u64 = if c.written < len {
        c.written
    } else {
        len
    };
    let here: u64 = already.saturating_sub(from - c.start);
    let span: u64 = to - from + 1;
    if here < span {
        here
    } else {
        span
    }
}

/// How many bytes of the range were written according to an old state.
pub fn compute_already_written_for_range(
    state: &ResumeState,
    range_start: u64,
    range_end: u64,
) -> (r: u64)
    requires
        computable(state.chunks@, range_start, range_end),
    ensures
        r == already_written(state.chunks@, range_start as int, range_end as int),
{
    let mut written: u64 = 0;
    for i in 0..state.chunks.len()
        invariant
            computable(state.chunks@, range_start, range_end),
            written == covered_sum(
                state.chunks@.take(i as int),
                range_start as int,
                range_end as int,
            ),
    {
        proof {
            let t = state.chunks@.take(i + 1);
            assert(t.drop_last() =~= state.chunks@.take(i as int));
            assert(t.last() == state.chunks@[i as int]);
            lemma_covered_prefix(state.chunks@, range_start as int, range_end as int, i + 1);
        }
        written = written + covered_bytes(&state.chunks[i], range_start, range_end);
    }
    assert(state.chunks@.take(state.chunks.len() as int) =~= state.chunks@);
    let len: u64 = range_end - range_start + 1;
    if written < len {
        written
    } else {
        len
    }
}

/// How many bytes from `from` on, up to and without `to`, are written without a
/// gap.
pub open spec fn front(chunks: Seq<ChunkProgress>, from: int, to: int) -> nat
    decreases to - from,
{
    if from >= to || !is_written(chunks, from) {
        0
    } else {
        1 + front(chunks, from + 1, to)
    }
}

proof fn lemma_front_is(chunks: Seq<ChunkProgress>, from: int, to: int, k: int)
    requires
        0 <= k <= to - from,
        forall|b: int| from <= b < from + k ==> #[trigger] is_written(chunks, b),
        k == to - from || !is_written(chunks, from + k),
    ensures
        front(chunks, from, to) == k,
    decreases k,
{
    if k > 0 {
        assert(is_written(chunks, from));
        lemma_front_is(chunks, from + 1, to, k - 1);
    }
}

/// How many bytes a chunk has written from `pos` on, up to `stop`.
fn written_from(c: &ChunkProgress, pos: u64, stop: u64) -> (r: u64)
    requires
        pos < stop,
    ensures
        r > 0 <==> wrote(*c, pos as int),
        pos + r <= stop,
        forall|b: int| pos <= b < pos + r ==> #[trigger] wrote(*c, b),
{
    if c.start > pos || c.end < pos || c.written <= pos - c.start {
        return 0;
    }
    let mut step: u64 = c.written - (pos - c.start);
    if step > stop - pos {
        step = stop - pos;
    }
    if step > c.end - pos {
        step = c.end - pos + 1;
    }
    step
}

/// How many bytes of the range, from its first one on, were written without a gap
/// according to an old state: where to go on with it.
pub fn resume_offset(state: &ResumeState, range_start: u64, range_end: u64) -> (r: u64)
    requires
        range_start <= range_end < u64::MAX,
    ensures
        r == front(state.chunks@, range_start as int, range_end + 1),
        r <= range_end - range_start + 1,
{
    let stop: u64 = range_end + 1;
    let mut pos: u64 = range_start;
    while pos < stop
        invariant
            stop == range_end + 1,
            range_start <= pos <= stop,
            forall|b: int| range_start <= b < pos ==> #[trigger] is_written(state.chunks@, b),
        decreases stop - pos,
    {
        let mut step: u64 = 0;
        for i in 0..state.chunks.len()
            invariant
                pos < stop,
                pos + step <= stop,
                step == 0 ==> forall|j: int|
                    0 <= j < i ==> !wrote(#[trigger] state.chunks@[j], pos as int),
                forall|b: int| pos <= b < pos + step ==> #[trigger] is_written(state.chunks@, b),
        {
            if step == 0 {
                step = written_from(&state.chunks[i], pos, stop);
                assert forall|b: int| pos <= b < pos + step implies #[trigger] is_written(
                    state.chunks@,
                    b,
                ) by {
                    assert(wrote(state.chunks@[i as int], b));
                }
            }
        }
        if step == 0 {
            proof {
                lemma_front_is(
                    state.chunks@,
                    range_start as int,
                    stop as int,
                    pos - range_start,
                );
            }
            return pos - range_start;
        }
        pos = pos + step;
    }
    proof {
        lemma_front_is(state.chunks@, range_start as int, stop as int, pos - range_start);
    }
    pos - range_start
}

/// The sum of what the chunks have written.
pub open spec fn written_sum(chunks: Seq<ChunkProgress>) -> nat
    decreases chunks.len(),
{
    if chunks.len() == 0 {
        0
    } else {
        written_sum(chunks.drop_last()) + chunks.last().written as nat
    }
}

proof fn lemma_written_prefix(chunks: Seq<ChunkProgress>, n: int)
    requires
        0 <= n <= chunks.len(),
    ensures
        written_sum(chunks.take(n)) <= written_sum(chunks),
    decreases chunks.len(),
{
    if n == chunks.len() {
        assert(chunks.take(n) =~= chunks);
    } else {
        lemma_written_prefix(chunks.drop_last(), n);
        assert(chunks.drop_last().take(n) =~= chunks.take(n));
    }
}

/// The bytes that a state counts as done, unless there are too many for 64 bits.
pub fn total_written(state: &ResumeState) -> (r: Option<u64>)
    ensures
        match r {
            Some(n) => n == written_sum(state.chunks@),
            None => written_sum(state.chunks@) > u64::MAX,
        },
{
    let mut sum: u64 = 0;
    for i in 0..state.chunks.len()
        invariant
            sum == written_sum(state.chunks@.take(i as int)),
    {
        proof {
            let t = state.chunks@.take(i + 1);
            assert(t.drop_last() =~= state.chunks@.take(i as int));
            assert(t.last() == state.chunks@[i as int]);
            lemma_written_prefix(state.chunks@, i + 1);
        }
        match sum.checked_add(state.chunks[i].written) {
            Some(n) => {
                sum = n;
            },
            None => {
                return None;
            },
        }
    }
    assert(state.chunks@.take(state.chunks.len() as int) =~= state.chunks@);
    Some(sum)
}

// ---------------------------------------------------------------------------
// Saving
// ---------------------------------------------------------------------------
/// The progress of a chunk of which `position` bytes are written.
pub open spec fn progress_of(range: (u64, u64), position: u64) -> ChunkProgress {
    ChunkProgress {
        start: range.0,
        end: range.1,
        written: (if position <= range.1 - range.0 {
            position as int
        } else {
            range.1 - range.0 + 1
        }) as u64,
    }
}

/// The progress of each chunk that has a position.
pub open spec fn progress_list(ranges: Seq<(u64, u64)>, positions: Seq<u64>) -> Seq<ChunkProgress> {
    Seq::new(
        if ranges.len() < positions.len() {
            ranges.len()
        } else {
            positions.len()
        },
        |i: int| progress_of(ranges[i], positions[i]),
    )
}

/// The state to save of a download: `ranges` are the first and the last bytes of
/// its chunks, `positions` the bytes that are written of each.
pub fn snapshot(
    url: &str,
    etag: Option<&str>,
    content_length: u64,
    ranges: &Vec<(u64, u64)>,
    positions: &Vec<u64>,
) -> (r: ResumeState)
    requires
        forall|i: int|
            0 <= i < ranges@.len() ==> (#[trigger] ranges@[i]).0 <= ranges@[i].1 && ranges@[i].1
                - ranges@[i].0 < u64::MAX,
    ensures
        r.version == RESUME_STATE_VERSION,
        r.url@ == url@,
        text_of(r.etag) == str_of(etag),
        r.content_length == content_length,
        r.connections == ranges@.len(),
        r.min_chunk == 0,
        r.chunks@ == progress_list(ranges@, positions@),
{
    let mut chunks: Vec<ChunkProgress> = Vec::new();
    let n: usize = if ranges.len() < positions.len() {
        ranges.len()
    } else {
        positions.len()
    };
    for i in 0..n
        invariant
            n <= ranges@.len(),
            n <= positions@.len(),
            n == progress_list(ranges@, positions@).len(),
            forall|k: int|
                0 <= k < ranges@.len() ==> (#[trigger] ranges@[k]).0 <= ranges@[k].1
                    && ranges@[k].1 - ranges@[k].0 < u64::MAX,
            chunks@ == progress_list(ranges@, positions@).take(i as int),
    {
        let range: (u64, u64) = ranges[i];
        assert(range == ranges@[i as int]);
        let len: u64 = range.1 - range.0 + 1;
        let position: u64 = positions[i];
        let written: u64 = if position < len {
            position
        } else {
            len
        };
        chunks.push(ChunkProgress { start: range.0, end: range.1, written });
        assert(chunks@ =~= progress_list(ranges@, positions@).take(i + 1));
    }
    assert(progress_list(ranges@, positions@).take(n as int) =~= progress_list(
        ranges@,
        positions@,
    ));
    ResumeState {
        version: RESUME_STATE_VERSION,
        url: url.to_string(),
        etag: match etag {
            Some(e) => Some(e.to_string()),
            None => None,
        },
        content_length,
        connections: ranges.len(),
        min_chunk: 0,
        chunks,
    }
}

// ---------------------------------------------------------------------------
// Laws of resuming
// ---------------------------------------------------------------------------
/// Whether no byte belongs to two chunks.
pub open spec fn disjoint(chunks: Seq<ChunkProgress>) -> bool {
    forall|i: int, j: int, b: int|
        0 <= i < j < chunks.len() && #[trigger] wrote(chunks[i], b) ==> !#[trigger] wrote(
            chunks[j],
            b,
        )
}

/// How many of the bytes from `from` up to, and without, `to` are written.
pub open spec fn count_written(chunks: Seq<ChunkProgress>, from: int, to: int) -> nat
    decreases to - from,
{
    if from >= to {
        0
    } else {
        count_written(chunks, from, to - 1) + if is_written(chunks, to - 1) {
            1nat
        } else {
            0nat
        }
    }
}

proof fn lemma_covered_step(chunks: Seq<ChunkProgress>, first: int, last: int)
    requires
        first <= last,
        disjoint(chunks),
    ensures
        covered_sum(chunks, first, last) == covered_sum(chunks, first, last - 1) + if is_written(
            chunks,
            last,
        ) {
            1nat
        } else {
            0nat
        },
    decreases chunks.len(),
{
    if chunks.len() > 0 {
        let head = chunks.drop_last();
        let c = chunks.last();
        assert(disjoint(head)) by {
            assert forall|i: int, j: int, b: int|
                0 <= i < j < head.len() && #[trigger] wrote(head[i], b) implies !#[trigger] wrote(
                head[j],
                b,
            ) by {
                assert(wrote(chunks[i], b));
            }
        }
        lemma_covered_step(head, first, last);
        assert(covered(c, first, last) == covered(c, first, last - 1) + if wrote(c, last) {
            1nat
        } else {
            0nat
        });
        if wrote(c, last) {
            assert(is_written(chunks, last)) by {
                assert(wrote(chunks[chunks.len() - 1], last));
            }
            if is_written(head, last) {
                let i = choose|i: int| 0 <= i < head.len() && wrote(#[trigger] head[i], last);
                assert(wrote(chunks[i], last));
                assert(wrote(chunks[chunks.len() - 1], last));
            }
        } else {
            if is_written(head, last) {
                let i = choose|i: int| 0 <= i < head.len() && wrote(#[trigger] head[i], last);
                assert(wrote(chunks[i], last));
            }
            if is_written(chunks, last) {
                let i = choose|i: int| 0 <= i < chunks.len() && wrote(#[trigger] chunks[i], last);
                assert(wrote(head[i], last));
            }
        }
    }
}

proof fn lemma_covered_none(chunks: Seq<ChunkProgress>, first: int)
    ensures
        covered_sum(chunks, first, first - 1) == 0,
    decreases chunks.len(),
{
    if chunks.len() > 0 {
        lemma_covered_none(chunks.drop_last(), first);
    }
}

proof fn lemma_covered_is_count(chunks: Seq<ChunkProgress>, first: int, last: int)
    requires
        first <= last + 1,
        disjoint(chunks),
    ensures
        covered_sum(chunks, first, last) == count_written(chunks, first, last + 1),
    decreases last + 1 - first,
{
    if first == last + 1 {
        lemma_covered_none(chunks, first);
    } else {
        lemma_covered_is_count(chunks, first, last - 1);
        lemma_covered_step(chunks, first, last);
    }
}

proof fn lemma_count_bound(chunks: Seq<ChunkProgress>, from: int, to: int)
    requires
        from <= to,
    ensures
        count_written(chunks, from, to) <= to - from,
    decreases to - from,
{
    if from < to {
        lemma_count_bound(chunks, from, to - 1);
    }
}

/// Where no byte belongs to two chunks, what is computed for a range is the
/// number of its bytes that are written.
pub proof fn law_counts_written_bytes(chunks: Seq<ChunkProgress>, first: int, last: int)
    requires
        disjoint(chunks),
        first <= last,
    ensures
        already_written(chunks, first, last) == count_written(chunks, first, last + 1),
{
    lemma_covered_is_count(chunks, first, last);
    lemma_count_bound(chunks, first, last + 1);
}

/// Where no byte belongs to two chunks, what is written of a range can be computed
/// in 64 bits.
pub proof fn law_disjoint_chunks_are_computable(
    chunks: Seq<ChunkProgress>,
    first: u64,
    last: u64,
)
    requires
        disjoint(chunks),
        measurable(chunks),
        first <= last,
        last - first < u64::MAX,
    ensures
        computable(chunks, first, last),
{
    lemma_covered_is_count(chunks, first as int, last as int);
    lemma_count_bound(chunks, first as int, last + 1);
}

/// Whether the bytes of a range that are written are the first ones of it.
pub open spec fn written_in_front(chunks: Seq<ChunkProgress>, first: int, last: int) -> bool {
    forall|b: int|
        first < b <= last && #[trigger] is_written(chunks, b) ==> is_written(chunks, b - 1)
}

proof fn lemma_count_front(chunks: Seq<ChunkProgress>, first: int, to: int)
    requires
        first <= to,
        forall|b: int| first < b < to && #[trigger] is_written(chunks, b) ==> is_written(
            chunks,
            b - 1,
        ),
    ensures
        forall|b: int|
            first <= b < first + count_written(chunks, first, to) ==> #[trigger] is_written(
                chunks,
                b,
            ),
        forall|b: int|
            first + count_written(chunks, first, to) <= b < to ==> !#[trigger] is_written(
                chunks,
                b,
            ),
    decreases to - first,
{
    if first < to {
        lemma_count_front(chunks, first, to - 1);
        lemma_count_bound(chunks, first, to - 1);
        let n = count_written(chunks, first, to - 1);
        if is_written(chunks, to - 1) && first < to - 1 {
            assert(is_written(chunks, to - 2));
            assert(first + n > to - 2);
        }
    }
}

/// A resumed range goes on with the first byte that is not written: every byte
/// that it skips is, and the one that it goes on with is not.
pub proof fn law_resume_skips_written_bytes_alone(
    chunks: Seq<ChunkProgress>,
    first: int,
    last: int,
)
    requires
        first <= last,
    ensures
        front(chunks, first, last + 1) <= last + 1 - first,
        forall|b: int|
            first <= b < first + front(chunks, first, last + 1) ==> #[trigger] is_written(
                chunks,
                b,
            ),
        front(chunks, first, last + 1) < last + 1 - first ==> !is_written(
            chunks,
            first + front(chunks, first, last + 1),
        ),
    decreases last - first,
{
    if is_written(chunks, first) {
        if first < last {
            law_resume_skips_written_bytes_alone(chunks, first + 1, last);
        } else {
            assert(front(chunks, first + 1, last + 1) == 0);
        }
    }
}

/// Where no byte belongs to two chunks and the bytes of a range that are written
/// are the first ones of it, it goes on after as many bytes as are written.
pub proof fn law_without_gap_the_count_is_the_offset(
    chunks: Seq<ChunkProgress>,
    first: int,
    last: int,
)
    requires
        disjoint(chunks),
        first <= last,
        written_in_front(chunks, first, last),
    ensures
        front(chunks, first, last + 1) == already_written(chunks, first, last),
{
    law_counts_written_bytes(chunks, first, last);
    lemma_count_front(chunks, first, last + 1);
    let k = already_written(chunks, first, last) as int;
    lemma_count_bound(chunks, first, last + 1);
    lemma_front_is(chunks, first, last + 1, k);
}

/// A chunk that is in the old state as it is resumes exactly where it stopped.
pub proof fn law_same_chunk_resumes_where_it_stopped(chunks: Seq<ChunkProgress>, i: int)
    requires
        0 <= i < chunks.len(),
        chunks[i].start <= chunks[i].end,
        forall|j: int|
            0 <= j < chunks.len() && j != i ==> (#[trigger] chunks[j]).end < chunks[i].start
                || chunks[i].end < chunks[j].start,
    ensures
        chunks[i].start + front(chunks, chunks[i].start as int, chunks[i].end + 1) == written_end(
            chunks[i],
        ),
        already_written(chunks, chunks[i].start as int, chunks[i].end as int) == front(
            chunks,
            chunks[i].start as int,
            chunks[i].end + 1,
        ),
{
    let c = chunks[i];
    lemma_sum_of_one(chunks, c.start as int, c.end as int, i, chunks.len() as int);
    assert(chunks.take(chunks.len() as int) =~= chunks);
    let k = written_end(c) - c.start;
    assert forall|b: int| c.start <= b < c.start + k implies #[trigger] is_written(chunks, b) by {
        assert(wrote(chunks[i], b));
    }
    if k < c.end + 1 - c.start && is_written(chunks, c.start + k) {
        let j = choose|j: int| 0 <= j < chunks.len() && wrote(#[trigger] chunks[j], c.start + k);
        assert(j != i);
    }
    lemma_front_is(chunks, c.start as int, c.end + 1, k);
}

/// A state of this version that is read back as it was saved is loaded whole, and
/// can be used while the server has the same content. One of another version is
/// not loaded.
pub proof fn law_saved_state_is_valid(
    state: ResumeState,
    content_length: u64,
    etag: Option<Seq<char>>,
)
    ensures
        state.version == RESUME_STATE_VERSION ==> loaded(Some(state)) == Some(state),
        state.version != RESUME_STATE_VERSION ==> loaded(Some(state)) is None,
        state.content_length == content_length && text_of(state.etag) == etag ==> same_content(
            state,
            content_length,
            etag,
        ),
{
}

/// A chunk of which `position` bytes were saved resumes after these, where the
/// chunks of the next run are the same and do not overlap.
pub proof fn law_saved_chunk_resumes(ranges: Seq<(u64, u64)>, positions: Seq<u64>, i: int)
    requires
        ranges.len() == positions.len(),
        0 <= i < ranges.len(),
        ranges[i].0 <= ranges[i].1,
        positions[i] <= ranges[i].1 - ranges[i].0 + 1,
        forall|j: int|
            0 <= j < ranges.len() && j != i ==> (#[trigger] ranges[j]).1 < ranges[i].0
                || ranges[i].1 < ranges[j].0,
    ensures
        front(progress_list(ranges, positions), ranges[i].0 as int, ranges[i].1 + 1)
            == positions[i],
{
    let chunks = progress_list(ranges, positions);
    assert forall|j: int| 0 <= j < chunks.len() && j != i implies (#[trigger] chunks[j]).end
        < chunks[i].start || chunks[i].end < chunks[j].start by {
        assert(chunks[j].start == ranges[j].0);
    }
    law_same_chunk_resumes_where_it_stopped(chunks, i);
}

proof fn lemma_sum_of_one(chunks: Seq<ChunkProgress>, first: int, last: int, i: int, n: int)
    requires
        0 <= i < chunks.len(),
        0 <= n <= chunks.len(),
        forall|j: int|
            0 <= j < chunks.len() && j != i ==> covered(#[trigger] chunks[j], first, last) == 0,
    ensures
        covered_sum(chunks.take(n), first, last) == if i < n {
            covered(chunks[i], first, last)
        } else {
            0
        },
    decreases n,
{
    if n > 0 {
        lemma_sum_of_one(chunks, first, last, i, n - 1);
        assert(chunks.take(n).drop_last() =~= chunks.take(n - 1));
        assert(chunks.take(n).last() == chunks[n - 1]);
    }
}

} // verus!
