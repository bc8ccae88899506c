//! The chunks of a download: how a file is divided, where each chunk starts when
//! it is resumed, and how one chunk is fetched.
use vstd::arithmetic::div_mod::{
    lemma_div_pos_is_pos, lemma_fundamental_div_mod, lemma_fundamental_div_mod_converse,
};
use vstd::prelude::*;

use crate::number::{decimal, push_decimal};
use crate::resume::{
    front, is_written, law_resume_skips_written_bytes_alone, law_saved_chunk_resumes, progress_list,
    resume_offset, ResumeState,
};

verus! {

// ---------------------------------------------------------------------------
// Dividing a file
// ---------------------------------------------------------------------------
/// The connections that can be used: one where the server does not serve ranges,
/// and at least one.
pub open spec fn usable_connections(accept_ranges: bool, connections: usize) -> usize {
    if accept_ranges && connections > 1 {
        connections
    } else {
        1
    }
}

/// The connections that can be used: one where the server does not serve ranges,
/// and at least one.
pub fn effective_connections(accept_ranges: bool, connections: usize) -> (r: usize)
    ensures
        r == usable_connections(accept_ranges, connections),
        r == (if accept_ranges && connections > 1 {
            connections
        } else {
            1
        }),
{
    if accept_ranges && connections > 1 {
        connections
    } else {
        1
    }
}

/// The bytes in a chunk: an equal share, but no less than `min_chunk`.
pub open spec fn chunk_size(content_length: u64, connections: usize, min_chunk: u64) -> nat {
    let share = content_length as nat / connections as nat;
    if share > min_chunk {
        share
    } else {
        min_chunk as nat
    }
}

/// How many chunks of `size` bytes cover `content_length` bytes.
pub open spec fn chunk_count(content_length: u64, size: nat) -> nat {
    (content_length as nat + size - 1) as nat / size
}

/// The first and the last byte of chunk `i`.
pub open spec fn chunk_at(content_length: u64, size: nat, i: int) -> (u64, u64) {
    let end = (i + 1) * size;
    (
        (i * size) as u64,
        (if end < content_length {
            end - 1
        } else {
            content_length - 1
        }) as u64,
    )
}

/// The chunks of a file: `size` bytes each, and the last one what is left.
pub open spec fn chunk_list(content_length: u64, size: nat) -> Seq<(u64, u64)> {
    if content_length == 0 {
        Seq::empty()
    } else {
        Seq::new(chunk_count(content_length, size), |i: int| chunk_at(content_length, size, i))
    }
}

/// `count` chunks reach the end, and one less does not.
proof fn lemma_chunk_count(content_length: u64, size: nat, count: nat)
    requires
        size > 0,
        content_length > 0,
        (count - 1) * size < content_length <= count * size,
    ensures
        chunk_count(content_length, size) == count,
{
    let x = content_length + size - 1;
    let r = x - count * size;
    assert(count * size == (count - 1) * size + size) by (nonlinear_arith);
    lemma_fundamental_div_mod_converse(x, size as int, count as int, r);
}

/// Divides `content_length` bytes among `connections`, with at least `min_chunk`
/// bytes for each.
pub fn plan_chunks(content_length: u64, connections: usize, min_chunk: u64) -> (r: Vec<(u64, u64)>)
    requires
        connections > 0,
        content_length > 0 ==> chunk_size(content_length, connections, min_chunk) > 0,
    ensures
        r@ == chunk_list(content_length, chunk_size(content_length, connections, min_chunk)),
{
    let share: u64 = content_length / connections as u64;
    let size: u64 = if share > min_chunk {
        share
    } else {
        min_chunk
    };
    assert(size == chunk_size(content_length, connections, min_chunk));
    let mut chunks: Vec<(u64, u64)> = Vec::new();
    let mut start: u64 = 0;
    let ghost mut n: int = 0;
    assert(0 * size == 0);
    while start < content_length
        invariant
            content_length > 0 ==> size > 0,
            n == chunks@.len(),
            start <= content_length,
            n > 0 ==> (n - 1) * size < content_length,
            start < content_length ==> start == n * size,
            start == content_length ==> content_length <= n * size,
            forall|i: int|
                0 <= i < n ==> #[trigger] chunks@[i] == chunk_at(content_length, size as nat, i),
        decreases content_length - start,
    {
        let left: u64 = content_length - start;
        let end: u64 = if size < left {
            start + (size - 1)
        } else {
            content_length - 1
        };
        chunks.push((start, end));
        proof {
            assert((n + 1) * size == n * size + size) by (nonlinear_arith);
            n = n + 1;
        }
        start = end + 1;
    }
    proof {
        if content_length > 0 {
            if n == 0 {
                assert(0 * size == 0);
            }
            lemma_chunk_count(content_length, size as nat, n as nat);
        } else if n > 0 {
            assert((n - 1) * size >= 0) by (nonlinear_arith)
                requires
                    n > 0,
                    size >= 0,
            ;
        }
        assert(chunks@ =~= chunk_list(content_length, size as nat));
    }
    chunks
}

/// Whether byte `b` is in the chunk.
pub open spec fn in_chunk(chunk: (u64, u64), b: int) -> bool {
    chunk.0 <= b <= chunk.1
}

/// Every chunk is a piece of the file of at least one byte, and all but the last
/// have the size that was chosen.
pub proof fn law_chunks_are_pieces(content_length: u64, size: nat, i: int)
    requires
        size > 0,
        0 <= i < chunk_list(content_length, size).len(),
    ensures
        ({
            let list = chunk_list(content_length, size);
            &&& list[i].0 == i * size
            &&& list[i].0 <= list[i].1 < content_length
            &&& list[i].1 - list[i].0 < size
            &&& i + 1 < list.len() ==> list[i].1 + 1 == list[i + 1].0
            &&& i + 1 < list.len() ==> list[i].1 - list[i].0 + 1 == size
            &&& i + 1 == list.len() ==> list[i].1 + 1 == content_length
        }),
{
    let count = chunk_count(content_length, size);
    let x = content_length + size - 1;
    lemma_fundamental_div_mod(x, size as int);
    assert((i + 1) * size == i * size + size) by (nonlinear_arith);
    assert((i + 1) * size <= count * size) by (nonlinear_arith)
        requires
            i + 1 <= count,
    ;
    assert(size * count == count * size) by (nonlinear_arith);
    assert(i * size < content_length);
    assert(i * size >= 0) by (nonlinear_arith)
        requires
            i >= 0,
    ;
    if i + 1 < count {
        assert((i + 2) * size <= count * size) by (nonlinear_arith)
            requires
                i + 2 <= count,
        ;
        assert((i + 2) * size == (i + 1) * size + size) by (nonlinear_arith);
    }
}

/// Every byte of the file is in exactly one chunk.
pub proof fn law_chunks_cover_each_byte_once(content_length: u64, size: nat, b: int)
    requires
        size > 0,
        0 <= b < content_length,
    ensures
        exists|i: int|
            0 <= i < chunk_list(content_length, size).len() && in_chunk(
                #[trigger] chunk_list(content_length, size)[i],
                b,
            ),
        forall|i: int, j: int|
            0 <= i < chunk_list(content_length, size).len() && 0 <= j < chunk_list(
                content_length,
                size,
            ).len() && in_chunk(#[trigger] chunk_list(content_length, size)[i], b) && in_chunk(
                #[trigger] chunk_list(content_length, size)[j],
                b,
            ) ==> i == j,
{
    let list = chunk_list(content_length, size);
    let k = b / size as int;
    lemma_fundamental_div_mod(b, size as int);
    lemma_div_pos_is_pos(b, size as int);
    let x = content_length + size - 1;
    lemma_fundamental_div_mod(x, size as int);
    let count = chunk_count(content_length, size);
    assert(size * k == k * size) by (nonlinear_arith);
    assert(k < count) by (nonlinear_arith)
        requires
            size * k <= b < content_length,
            x == content_length + size - 1,
            x < size * count + size,
            size > 0,
    ;
    law_chunks_are_pieces(content_length, size, k);
    assert((k + 1) * size == k * size + size) by (nonlinear_arith);
    assert(in_chunk(list[k], b));
    assert forall|i: int| 0 <= i < list.len() && in_chunk(#[trigger] list[i], b) implies i == k by {
        law_chunks_are_pieces(content_length, size, i);
        if i < k {
            assert((i + 1) * size <= k * size) by (nonlinear_arith)
                requires
                    i + 1 <= k,
            ;
            assert((i + 1) * size == i * size + size) by (nonlinear_arith);
        } else if i > k {
            assert((k + 1) * size <= i * size) by (nonlinear_arith)
                requires
                    k + 1 <= i,
            ;
        }
    }
}

// ---------------------------------------------------------------------------
// A plan
// ---------------------------------------------------------------------------
/// How a file is downloaded.
#[derive(Debug, Clone, PartialEq, Eq)]
pub struct DownloadPlan {
    /// The first and the last byte of each chunk.
    pub chunks: Vec<(u64, u64)>,
    /// The bytes of each chunk that were written before.
    pub initial: Vec<u64>,
    /// The sum of these.
    pub initial_total: u64,
}

/// The sum of the numbers.
pub open spec fn sum_of(list: Seq<u64>) -> nat
    decreases list.len(),
{
    if list.len() == 0 {
        0
    } else {
        sum_of(list.drop_last()) + list.last() as nat
    }
}

/// What need not be fetched of a chunk: its first bytes, as far as an old state
/// says that they are written without a gap.
pub open spec fn initial_of(resume: Option<ResumeState>, chunk: (u64, u64)) -> nat {
    match resume {
        Some(state) => front(state.chunks@, chunk.0 as int, chunk.1 + 1),
        None => 0,
    }
}

/// The state behind the reference, if there is one.
pub open spec fn state_of(resume: Option<&ResumeState>) -> Option<ResumeState> {
    match resume {
        Some(state) => Some(*state),
        None => None,
    }
}

/// The plan of a download: the chunks, and what need not be fetched of each. The
/// chunks of an old state may be others: what is written behind a gap is fetched
/// again, so that no byte is left out.
pub fn plan_download(
    content_length: u64,
    connections: usize,
    min_chunk: u64,
    resume: Option<&ResumeState>,
) -> (r: DownloadPlan)
    requires
        connections > 0,
        content_length > 0 ==> chunk_size(content_length, connections, min_chunk) > 0,
    ensures
        ({
            let list = chunk_list(
                content_length,
                chunk_size(content_length, connections, min_chunk),
            );
            &&& r.chunks@ == list
            &&& r.initial@.len() == list.len()
            &&& forall|i: int|
                0 <= i < list.len() ==> #[trigger] r.initial@[i] == initial_of(
                    state_of(resume),
                    list[i],
                )
            &&& r.initial_total == sum_of(r.initial@)
            &&& r.initial_total <= content_length
        }),
{
    let chunks: Vec<(u64, u64)> = plan_chunks(content_length, connections, min_chunk);
    let ghost size = chunk_size(content_length, connections, min_chunk);
    let mut initial: Vec<u64> = Vec::new();
    let mut total: u64 = 0;
    for i in 0..chunks.len()
        invariant
            content_length > 0 ==> size > 0,
            size == chunk_size(content_length, connections, min_chunk),
            chunks@ == chunk_list(content_length, size),
            initial@.len() == i,
            forall|j: int|
                0 <= j < i ==> #[trigger] initial@[j] == initial_of(state_of(resume), chunks@[j]),
            total == sum_of(initial@),
            total <= content_length,
            i < chunks@.len() ==> total <= chunks@[i as int].0,
    {
        proof {
            law_chunks_are_pieces(content_length, size, i as int);
        }
        let chunk: (u64, u64) = chunks[i];
        let n: u64 = match resume {
            Some(state) => resume_offset(state, chunk.0, chunk.1),
            None => 0,
        };
        assert(n <= chunk.1 - chunk.0 + 1);
        let ghost before = initial@;
        initial.push(n);
        assert(initial@.drop_last() =~= before);
        total = total + n;
    }
    DownloadPlan { chunks, initial, initial_total: total }
}

/// Whether byte `b` is in the chunk, and is fetched with it or is written already.
pub open spec fn settled(chunk: (u64, u64), resume: Option<ResumeState>, b: int) -> bool {
    &&& in_chunk(chunk, b)
    &&& b >= chunk.0 + initial_of(resume, chunk) || (resume is Some && is_written(
        resume->0.chunks@,
        b,
    ))
}

/// However a file was divided before and is divided now, each of its bytes is in
/// one chunk, and is fetched with it unless an old state says that it is written.
pub proof fn law_every_byte_is_written_or_fetched(
    content_length: u64,
    size: nat,
    resume: Option<ResumeState>,
    b: int,
)
    requires
        size > 0,
        0 <= b < content_length,
    ensures
        exists|i: int|
            0 <= i < chunk_list(content_length, size).len() && settled(
                #[trigger] chunk_list(content_length, size)[i],
                resume,
                b,
            ),
{
    law_chunks_cover_each_byte_once(content_length, size, b);
    let list = chunk_list(content_length, size);
    let i = choose|i: int| 0 <= i < list.len() && in_chunk(#[trigger] list[i], b);
    if resume is Some {
        law_resume_skips_written_bytes_alone(
            resume->0.chunks@,
            list[i].0 as int,
            list[i].1 as int,
        );
    }
    assert(settled(list[i], resume, b));
}

/// A download that is resumed with the chunks that it had goes on where it was
/// saved.
pub proof fn law_saved_download_goes_on(
    content_length: u64,
    size: nat,
    positions: Seq<u64>,
    i: int,
)
    requires
        size > 0,
        positions.len() == chunk_list(content_length, size).len(),
        0 <= i < positions.len(),
        positions[i] <= chunk_list(content_length, size)[i].1 - chunk_list(
            content_length,
            size,
        )[i].0 + 1,
    ensures
        front(
            progress_list(chunk_list(content_length, size), positions),
            chunk_list(content_length, size)[i].0 as int,
            chunk_list(content_length, size)[i].1 + 1,
        ) == positions[i],
{
    let list = chunk_list(content_length, size);
    law_chunks_are_pieces(content_length, size, i);
    assert forall|j: int| 0 <= j < list.len() && j != i implies (#[trigger] list[j]).1 < list[i].0
        || list[i].1 < list[j].0 by {
        law_chunks_are_pieces(content_length, size, j);
        if j < i {
            assert((j + 1) * size <= i * size) by (nonlinear_arith)
                requires
                    j + 1 <= i,
            ;
            assert((j + 1) * size == j * size + size) by (nonlinear_arith);
        } else {
            assert((i + 1) * size <= j * size) by (nonlinear_arith)
                requires
                    i + 1 <= j,
            ;
            assert((i + 1) * size == i * size + size) by (nonlinear_arith);
        }
    }
    law_saved_chunk_resumes(list, positions, i);
}

// ---------------------------------------------------------------------------
// Fetching one chunk
// ---------------------------------------------------------------------------
/// How often a chunk is asked for at most: once, and once more after a restart.
pub const MAX_ATTEMPTS: usize = 2;

/// One chunk while it is fetched.
#[derive(Debug, Clone, Copy, PartialEq, Eq, Structural)]
pub struct ChunkWorker {
    /// First byte of the chunk.
    pub range_start: u64,
    /// Last byte of the chunk.
    pub range_end: u64,
    /// Bytes of the chunk that are written.
    pub written: u64,
    /// How often it was asked for before.
    pub attempt: usize,
}

impl ChunkWorker {
    /// Whether the chunk has a length, its position fits and it may be asked for.
    pub open spec fn valid(&self) -> bool {
        &&& self.range_start <= self.range_end
        &&& self.range_end - self.range_start < u64::MAX
        &&& self.range_start + self.written <= u64::MAX
        &&& self.attempt < MAX_ATTEMPTS
    }

    /// A chunk of which `written` bytes are there.
    pub fn new(range_start: u64, range_end: u64, written: u64) -> (r: ChunkWorker)
        requires
            range_start <= range_end,
            range_end - range_start < u64::MAX,
            range_start + written <= u64::MAX,
        ensures
            r.valid(),
            r == (ChunkWorker { range_start, range_end, written, attempt: 0 }),
    {
        ChunkWorker { range_start, range_end, written, attempt: 0 }
    }

    /// The bytes in the chunk.
    pub fn len(&self) -> (r: u64)
        requires
            self.valid(),
        ensures
            r == self.range_end - self.range_start + 1,
    {
        self.range_end - self.range_start + 1
    }

    /// Whether all of the chunk is there, so that it need not be asked for.
    pub fn is_complete(&self) -> (r: bool)
        requires
            self.valid(),
        ensures
            r == (self.written >= self.range_end - self.range_start + 1),
    {
        self.written >= self.len()
    }

    /// The byte to go on with.
    pub fn position(&self) -> (r: u64)
        requires
            self.valid(),
        ensures
            r == self.range_start + self.written,
    {
        self.range_start + self.written
    }

    /// What the `Range` header asks for: from the byte to go on with to the last.
    pub open spec fn spec_range_header(&self) -> Seq<char> {
        "bytes="@ + decimal((self.range_start + self.written) as nat) + "-"@ + decimal(
            self.range_end as nat,
        )
    }

    /// What the `Range` header asks for: from the byte to go on with to the last.
    pub fn range_header(&self) -> (r: String)
        requires
            self.valid(),
        ensures
            r@ == self.spec_range_header(),
            r@ == "bytes="@ + decimal((self.range_start + self.written) as nat) + "-"@ + decimal(
                self.range_end as nat,
            ),
    {
        let mut out: String = "bytes=".to_string();
        push_decimal(&mut out, self.position());
        out.append("-");
        push_decimal(&mut out, self.range_end);
        out
    }

    /// Whether a restart would be allowed: only the first attempt can be
    /// cancelled.
    pub open spec fn spec_may_cancel(&self) -> bool {
        self.attempt + 1 < MAX_ATTEMPTS
    }

    /// Whether this attempt can be cancelled.
    pub fn may_cancel(&self) -> (r: bool)
        requires
            self.valid(),
        ensures
            r == self.spec_may_cancel(),
    {
        self.attempt + 1 < MAX_ATTEMPTS
    }

    /// Counts `len` bytes that were written.
    pub fn received(&mut self, len: u64)
        requires
            old(self).valid(),
            old(self).range_start + old(self).written + len <= u64::MAX,
        ensures
            final(self).valid(),
            *final(self) == (ChunkWorker {
                written: (old(self).written + len) as u64,
                ..*old(self)
            }),
    {
        self.written = self.written + len;
    }

    /// Goes on to the next attempt, after this one was cancelled. What is written
    /// stays, and the next attempt cannot be cancelled.
    pub fn cancelled(&mut self)
        requires
            old(self).valid(),
            old(self).spec_may_cancel(),
        ensures
            final(self).valid(),
            *final(self) == (ChunkWorker {
                attempt: (old(self).attempt + 1) as usize,
                ..*old(self)
            }),
            !final(self).spec_may_cancel(),
    {
        self.attempt = self.attempt + 1;
    }
}

/// A response to a request for a range that cannot be written.
#[derive(Debug, Clone, Copy, PartialEq, Eq, Structural)]
pub enum ResponseError {
    /// The status is not one of success.
    Failed { status: u16 },
    /// A part was asked for, and something else was sent.
    IgnoredRange { status: u16, from: u64, to: u64 },
}

impl ResponseError {
    /// What went wrong, in words; `status` is the status as text.
    pub open spec fn spec_message(&self, status: Seq<char>) -> Seq<char> {
        match self {
            ResponseError::Failed { .. } => "Range request failed: "@ + status,
            ResponseError::IgnoredRange { from, to, .. } => "Server ignored Range header (got "@
                + status + " instead of 206 Partial Content) for bytes="@ + decimal(*from as nat)
                + "-"@ + decimal(*to as nat)
                + ". Refusing to write to avoid corrupting the output file."@,
        }
    }

    /// What went wrong, in words; `status` is the status as text.
    pub fn message(&self, status: &str) -> (r: String)
        ensures
            r@ == self.spec_message(status@),
    {
        match self {
            ResponseError::Failed { .. } => {
                let mut out: String = "Range request failed: ".to_string();
                out.append(status);
                out
            },
            ResponseError::IgnoredRange { from, to, .. } => {
                let mut out: String = "Server ignored Range header (got ".to_string();
                out.append(status);
                out.append(" instead of 206 Partial Content) for bytes=");
                push_decimal(&mut out, *from);
                out.append("-");
                push_decimal(&mut out, *to);
                out.append(". Refusing to write to avoid corrupting the output file.");
                out
            },
        }
    }
}

/// The statuses of success.
pub open spec fn success(status: u16) -> bool {
    200 <= status < 300
}

/// Whether the bytes from `from` to `to` are less than the whole file.
pub open spec fn is_part(from: u64, to: u64, content_length: u64) -> bool {
    from > 0 || to + 1 < content_length
}

/// Whether the body of a response with this status may be written where the bytes
/// from `from` to `to` belong.
pub open spec fn acceptable(status: u16, from: u64, to: u64, content_length: u64) -> bool {
    success(status) && (is_part(from, to, content_length) ==> status == 206)
}

/// Whether the body of a response may be written where the bytes from `from` to
/// `to` belong. A whole file in place of a part is refused.
pub fn check_response(status: u16, from: u64, to: u64, content_length: u64) -> (r: Result<
    (),
    ResponseError,
>)
    ensures
        r is Ok == acceptable(status, from, to, content_length),
        r == (if !success(status) {
            Err(ResponseError::Failed { status })
        } else if is_part(from, to, content_length) && status != 206 {
            Err(ResponseError::IgnoredRange { status, from, to })
        } else {
            Ok(())
        }),
{
    if status < 200 || status >= 300 {
        return Err(ResponseError::Failed { status });
    }
    let part: bool = from > 0 || (content_length > 0 && to < content_length - 1);
    if part && status != 206 {
        return Err(ResponseError::IgnoredRange { status, from, to });
    }
    Ok(())
}

/// A body that is written is a part that the server says is a part, or it is
/// written from the first byte of the file to the last.
pub proof fn law_written_body_belongs_there(status: u16, from: u64, to: u64, content_length: u64)
    requires
        acceptable(status, from, to, content_length),
    ensures
        status == 206 || (from == 0 && to + 1 >= content_length),
{
}

// ---------------------------------------------------------------------------
// The course of a chunk
// ---------------------------------------------------------------------------
/// What happens to a chunk while it is fetched.
#[derive(Debug, Clone, Copy, PartialEq, Eq, Structural)]
pub enum ChunkEvent {
    /// The server answers a request with this status.
    Response(u16),
    /// This many bytes were received and written.
    Bytes(u64),
    /// The body has ended.
    End,
    /// The supervisor tells it to restart.
    Cancel,
}

/// What is to be done next for a chunk.
#[derive(Debug, Clone, Copy, PartialEq, Eq, Structural)]
pub enum ChunkAction {
    /// Ask the server for what is missing.
    Request,
    /// Read more of the body, and heed the supervisor where it may cancel.
    Read { cancellable: bool },
    /// Nothing: the chunk is finished.
    Finish,
    /// Nothing: the response cannot be written.
    Fail(ResponseError),
}

/// Whether the event can happen to the chunk: its position has 64 bits.
pub open spec fn possible(worker: ChunkWorker, event: ChunkEvent) -> bool {
    event matches ChunkEvent::Bytes(n) ==> worker.range_start + worker.written + n <= u64::MAX
}

/// The chunk after the event.
pub open spec fn worker_after(worker: ChunkWorker, event: ChunkEvent) -> ChunkWorker {
    match event {
        ChunkEvent::Bytes(n) => ChunkWorker { written: (worker.written + n) as u64, ..worker },
        ChunkEvent::Cancel => if worker.spec_may_cancel() {
            ChunkWorker { attempt: (worker.attempt + 1) as usize, ..worker }
        } else {
            worker
        },
        _ => worker,
    }
}

/// What is to be done after the event.
pub open spec fn action_after(
    worker: ChunkWorker,
    event: ChunkEvent,
    content_length: u64,
) -> ChunkAction {
    let from = (worker.range_start + worker.written) as u64;
    match event {
        ChunkEvent::Response(status) => if !success(status) {
            ChunkAction::Fail(ResponseError::Failed { status })
        } else if is_part(from, worker.range_end, content_length) && status != 206 {
            ChunkAction::Fail(ResponseError::IgnoredRange { status, from, to: worker.range_end })
        } else {
            ChunkAction::Read { cancellable: worker.spec_may_cancel() }
        },
        ChunkEvent::Bytes(_) => ChunkAction::Read { cancellable: worker.spec_may_cancel() },
        ChunkEvent::End => ChunkAction::Finish,
        ChunkEvent::Cancel => if worker.spec_may_cancel() {
            ChunkAction::Request
        } else {
            ChunkAction::Read { cancellable: false }
        },
    }
}

impl ChunkWorker {
    /// What is to be done first: nothing if an earlier run has written all of it.
    pub open spec fn spec_first_action(&self) -> ChunkAction {
        if self.written > self.range_end - self.range_start {
            ChunkAction::Finish
        } else {
            ChunkAction::Request
        }
    }

    /// What is to be done first: nothing if an earlier run has written all of it.
    pub fn first_action(&self) -> (r: ChunkAction)
        requires
            self.valid(),
        ensures
            r == self.spec_first_action(),
            r == (if self.written >= self.range_end - self.range_start + 1 {
                ChunkAction::Finish
            } else {
                ChunkAction::Request
            }),
    {
        if self.is_complete() {
            ChunkAction::Finish
        } else {
            ChunkAction::Request
        }
    }

    /// What is to be done after an event. A restart goes on with the byte after
    /// those that are written, and only the first attempt can be cancelled.
    pub fn step(&mut self, event: ChunkEvent, content_length: u64) -> (r: ChunkAction)
        requires
            old(self).valid(),
            possible(*old(self), event),
        ensures
            final(self).valid(),
            *final(self) == worker_after(*old(self), event),
            r == action_after(*old(self), event, content_length),
    {
        match event {
            ChunkEvent::Response(status) => match check_response(
                status,
                self.position(),
                self.range_end,
                content_length,
            ) {
                Ok(()) => ChunkAction::Read { cancellable: self.may_cancel() },
                Err(e) => ChunkAction::Fail(e),
            },
            ChunkEvent::Bytes(n) => {
                self.received(n);
                ChunkAction::Read { cancellable: self.may_cancel() }
            },
            ChunkEvent::End => ChunkAction::Finish,
            ChunkEvent::Cancel => {
                if self.may_cancel() {
                    self.cancelled();
                    ChunkAction::Request
                } else {
                    ChunkAction::Read { cancellable: false }
                }
            },
        }
    }
}

/// The chunk after a course of events.
pub open spec fn worker_after_all(worker: ChunkWorker, events: Seq<ChunkEvent>) -> ChunkWorker
    decreases events.len(),
{
    if events.len() == 0 {
        worker
    } else {
        worker_after(worker_after_all(worker, events.drop_last()), events.last())
    }
}

/// How often the chunk is asked for again in a course of events.
pub open spec fn restarts_in(
    worker: ChunkWorker,
    events: Seq<ChunkEvent>,
    content_length: u64,
) -> nat
    decreases events.len(),
{
    if events.len() == 0 {
        0
    } else {
        let before = worker_after_all(worker, events.drop_last());
        restarts_in(worker, events.drop_last(), content_length) + if action_after(
            before,
            events.last(),
            content_length,
        ) == ChunkAction::Request {
            1nat
        } else {
            0nat
        }
    }
}

/// The bytes that were received in a course of events.
pub open spec fn received_in(events: Seq<ChunkEvent>) -> nat
    decreases events.len(),
{
    if events.len() == 0 {
        0
    } else {
        received_in(events.drop_last()) + match events.last() {
            ChunkEvent::Bytes(n) => n as nat,
            _ => 0,
        }
    }
}

/// However often it is told to, a chunk is restarted at most once, and nothing
/// that was written before a restart is given up or left out: it goes on exactly
/// after what was written and received.
pub proof fn law_at_most_one_restart(
    worker: ChunkWorker,
    events: Seq<ChunkEvent>,
    content_length: u64,
)
    requires
        worker.valid(),
        worker.range_start + worker.written + received_in(events) <= u64::MAX,
    ensures
        restarts_in(worker, events, content_length) + worker.attempt < MAX_ATTEMPTS,
        worker_after_all(worker, events) == (ChunkWorker {
            written: (worker.written + received_in(events)) as u64,
            attempt: (worker.attempt + restarts_in(worker, events, content_length)) as usize,
            ..worker
        }),
        worker_after_all(worker, events).valid(),
    decreases events.len(),
{
    if events.len() > 0 {
        law_at_most_one_restart(worker, events.drop_last(), content_length);
    }
}

// ---------------------------------------------------------------------------
// How many chunks are fetched at once
// ---------------------------------------------------------------------------
/// Whether one more chunk may be fetched beside those that are.
pub fn may_begin(in_flight: usize, connections: usize) -> (r: bool)
    ensures
        r == (in_flight < connections),
{
    in_flight < connections
}

/// Which chunks have begun, and how many of them are being fetched.
#[derive(Debug, Clone, Copy, PartialEq, Eq, Structural)]
pub struct Dispatch {
    /// How many may be fetched at once.
    pub connections: usize,
    /// How many chunks there are.
    pub total: usize,
    /// How many have begun, from the first one on.
    pub begun: usize,
    /// How many of these have not ended.
    pub in_flight: usize,
}

/// What happens while the chunks of a download are fetched: the next one begins,
/// or one ends.
#[derive(Debug, Clone, Copy, PartialEq, Eq, Structural)]
pub enum DispatchEvent {
    Begin,
    End,
}

/// The state after an event; nothing happens where none may begin or none can end.
pub open spec fn dispatch_after(d: Dispatch, event: DispatchEvent) -> Dispatch {
    match event {
        DispatchEvent::Begin => if d.in_flight < d.connections && d.begun < d.total {
            Dispatch {
                begun: (d.begun + 1) as usize,
                in_flight: (d.in_flight + 1) as usize,
                ..d
            }
        } else {
            d
        },
        DispatchEvent::End => if d.in_flight > 0 {
            Dispatch { in_flight: (d.in_flight - 1) as usize, ..d }
        } else {
            d
        },
    }
}

impl Dispatch {
    /// No more chunks are being fetched than may be at once.
    pub open spec fn valid(&self) -> bool {
        &&& self.connections > 0
        &&& self.in_flight <= self.connections
        &&& self.in_flight <= self.begun <= self.total
    }

    /// Before the first chunk.
    pub fn new(connections: usize, total: usize) -> (r: Dispatch)
        requires
            connections > 0,
        ensures
            r.valid(),
            r == (Dispatch { connections, total, begun: 0, in_flight: 0 }),
    {
        Dispatch { connections, total, begun: 0, in_flight: 0 }
    }

    /// The next chunk to begin with, if there is one and it may begin.
    pub fn begin(&mut self) -> (r: Option<usize>)
        requires
            old(self).valid(),
        ensures
            final(self).valid(),
            *final(self) == dispatch_after(*old(self), DispatchEvent::Begin),
            r == (if old(self).in_flight < old(self).connections && old(self).begun
                < old(self).total {
                Some(old(self).begun)
            } else {
                None
            }),
    {
        if may_begin(self.in_flight, self.connections) && self.begun < self.total {
            let i: usize = self.begun;
            self.begun = self.begun + 1;
            self.in_flight = self.in_flight + 1;
            Some(i)
        } else {
            None
        }
    }

    /// Notes that a chunk has ended.
    pub fn ended(&mut self)
        requires
            old(self).valid(),
            old(self).in_flight > 0,
        ensures
            final(self).valid(),
            *final(self) == dispatch_after(*old(self), DispatchEvent::End),
    {
        self.in_flight = self.in_flight - 1;
    }
}

/// The state after a course of events.
pub open spec fn dispatch_after_all(d: Dispatch, events: Seq<DispatchEvent>) -> Dispatch
    decreases events.len(),
{
    if events.len() == 0 {
        d
    } else {
        dispatch_after(dispatch_after_all(d, events.drop_last()), events.last())
    }
}

/// At no time are more chunks being fetched than there are connections, whatever
/// the number of chunks; and where none is being fetched and none can begin, each
/// chunk has begun and ended.
pub proof fn law_no_more_than_the_connections(
    connections: usize,
    total: usize,
    events: Seq<DispatchEvent>,
)
    requires
        connections > 0,
    ensures
        ({
            let first = Dispatch { connections, total, begun: 0, in_flight: 0 };
            let d = dispatch_after_all(first, events);
            &&& d.valid()
            &&& d.connections == connections
            &&& d.total == total
            &&& d.in_flight <= connections
            &&& d.in_flight == 0 && dispatch_after(d, DispatchEvent::Begin) == d ==> d.begun
                == total
        }),
    decreases events.len(),
{
    if events.len() > 0 {
        law_no_more_than_the_connections(connections, total, events.drop_last());
    }
}

// ---------------------------------------------------------------------------
// Rates
// ---------------------------------------------------------------------------
/// The bytes per second that the limiter is set to, which has 32 bits.
pub open spec fn rate_of(bytes_per_sec: u64) -> u32 {
    if bytes_per_sec == 0 {
        1
    } else if bytes_per_sec > u32::MAX {
        u32::MAX
    } else {
        bytes_per_sec as u32
    }
}

/// The bytes per second that the limiter is set to, which has 32 bits.
pub fn limiter_rate(bytes_per_sec: u64) -> (r: u32)
    ensures
        r == rate_of(bytes_per_sec),
        r > 0,
        r == (if bytes_per_sec == 0 {
            1
        } else if bytes_per_sec > u32::MAX {
            u32::MAX as u64
        } else {
            bytes_per_sec
        }),
{
    if bytes_per_sec == 0 {
        1
    } else if bytes_per_sec > u32::MAX as u64 {
        u32::MAX
    } else {
        bytes_per_sec as u32
    }
}

/// A length in pieces of at most `rate`: as many whole ones as there are, and the
/// rest.
pub open spec fn pieces(len: nat, rate: u32) -> Seq<u32>
    decreases len,
{
    if len == 0 || rate == 0 {
        Seq::empty()
    } else if len <= rate {
        seq![len as u32]
    } else {
        seq![rate] + pieces((len - rate) as nat, rate)
    }
}

/// The pieces in which the limiter is asked for `len` bytes: it grants no more
/// than its rate at once.
pub fn limiter_pieces(len: u64, rate: u32) -> (r: Vec<u32>)
    requires
        rate > 0,
    ensures
        r@ == pieces(len as nat, rate),
{
    let mut out: Vec<u32> = Vec::new();
    let mut left: u64 = len;
    assert(out@ + pieces(len as nat, rate) =~= pieces(len as nat, rate));
    while left > 0
        invariant
            rate > 0,
            out@ + pieces(left as nat, rate) == pieces(len as nat, rate),
        decreases left,
    {
        let piece: u32 = if left <= rate as u64 {
            left as u32
        } else {
            rate
        };
        let ghost before = out@;
        out.push(piece);
        left = left - piece as u64;
        proof {
            assert(pieces((left + piece) as nat, rate) =~= seq![piece] + pieces(
                left as nat,
                rate,
            ));
            assert(out@ + pieces(left as nat, rate) =~= before + (seq![piece] + pieces(
                left as nat,
                rate,
            )));
        }
    }
    assert(out@ + Seq::<u32>::empty() =~= out@);
    out
}

/// The sum of the pieces.
pub open spec fn pieces_sum(list: Seq<u32>) -> nat
    decreases list.len(),
{
    if list.len() == 0 {
        0
    } else {
        list[0] as nat + pieces_sum(list.drop_first())
    }
}

/// The pieces that the limiter is asked for add up to the length, and none is
/// larger than its rate: no byte goes unlimited.
pub proof fn law_pieces_add_up(len: nat, rate: u32)
    requires
        rate > 0,
    ensures
        pieces_sum(pieces(len, rate)) == len,
        forall|i: int|
            0 <= i < pieces(len, rate).len() ==> 0 < #[trigger] pieces(len, rate)[i] <= rate,
    decreases len,
{
    let all = pieces(len, rate);
    if len > rate {
        let rest = pieces((len - rate) as nat, rate);
        law_pieces_add_up((len - rate) as nat, rate);
        assert(all.drop_first() =~= rest);
        assert forall|i: int| 0 <= i < all.len() implies 0 < #[trigger] all[i] <= rate by {
            if i > 0 {
                assert(all[i] == rest[i - 1]);
            }
        }
    } else if len > 0 {
        assert(all.drop_first() =~= Seq::<u32>::empty());
        assert(pieces_sum(all.drop_first()) == 0);
    }
}

/// How often the speed that is shown is taken anew, in nanoseconds.
pub const SAMPLE_INTERVAL_NS: u64 = 400_000_000;

/// The last sample of a speed: a number of bytes, at a time in nanoseconds.
#[derive(Debug, Clone, Copy, PartialEq, Eq, Structural)]
pub struct SpeedMeter {
    pub bytes: u64,
    pub time: u64,
}

impl SpeedMeter {
    /// The bytes and the nanoseconds since the last sample, if it is time for a
    /// new one. The new one is then kept.
    pub fn sample(&mut self, bytes: u64, now: u64) -> (r: Option<(u64, u64)>)
        ensures
            if now - old(self).time >= SAMPLE_INTERVAL_NS {
                &&& r == Some(
                    (
                        if bytes > old(self).bytes {
                            (bytes - old(self).bytes) as u64
                        } else {
                            0
                        },
                        (now - old(self).time) as u64,
                    ),
                )
                &&& *final(self) == (SpeedMeter { bytes, time: now })
            } else {
                r is None && *final(self) == *old(self)
            },
    {
        let elapsed: u64 = now.saturating_sub(self.time);
        if elapsed >= SAMPLE_INTERVAL_NS {
            let delta: u64 = bytes.saturating_sub(self.bytes);
            self.bytes = bytes;
            self.time = now;
            Some((delta, elapsed))
        } else {
            None
        }
    }
}

/// How often a second the progress is drawn: less on a machine with few cores.
pub fn redraw_rate(cores: usize) -> (r: u8)
    ensures
        r == (if cores == 1 {
            4u8
        } else if cores == 2 {
            6
        } else {
            10
        }),
{
    if cores == 1 {
        4
    } else if cores == 2 {
        6
    } else {
        10
    }
}

} // verus!
