//! Going on with a download that was interrupted.
use vstd::prelude::*;

use crate::chunks::{chunk_list, chunk_size, initial_of, law_chunks_are_pieces, state_of};
use crate::resume::{
    already_written, computable, count_written, covered, covered_sum, disjoint, is_written,
    law_counts_written_bytes, law_disjoint_chunks_are_computable,
    law_resume_skips_written_bytes_alone, law_same_chunk_resumes_where_it_stopped, loaded,
    progress_list, same_content, written_sum, wrote, ChunkProgress, ResumeState,
};
use crate::text::text_of;

verus! {

/// What a state says of a byte, in its own numbers: it is among the first `written`
/// bytes of one of the chunks.
pub open spec fn on_disk(chunks: Seq<ChunkProgress>, b: int) -> bool {
    exists|j: int|
        0 <= j < chunks.len() && (#[trigger] chunks[j]).start <= b <= chunks[j].end && b
            < chunks[j].start + chunks[j].written
}

proof fn lemma_on_disk(chunks: Seq<ChunkProgress>, b: int)
    ensures
        on_disk(chunks, b) == is_written(chunks, b),
{
    if on_disk(chunks, b) {
        let j = choose|j: int|
            0 <= j < chunks.len() && (#[trigger] chunks[j]).start <= b <= chunks[j].end && b
                < chunks[j].start + chunks[j].written;
        assert(wrote(chunks[j], b));
    }
    if is_written(chunks, b) {
        let j = choose|j: int| 0 <= j < chunks.len() && wrote(#[trigger] chunks[j], b);
        assert(chunks[j].start <= b <= chunks[j].end && b < chunks[j].start + chunks[j].written);
    }
}

/// What a plan skips of a chunk is on disk according to the state, and is as much
/// as can be skipped: the byte after it is not on disk, or is not in the chunk. The
/// URL, the ETag and all else in the state make no difference. Without a state
/// nothing is skipped.
pub proof fn law_a_plan_skips_all_it_can(resume: Option<&ResumeState>, chunk: (u64, u64))
    requires
        chunk.0 <= chunk.1 < u64::MAX,
    ensures
        resume is None ==> initial_of(state_of(resume), chunk) == 0,
        resume is Some ==> {
            let skipped = initial_of(state_of(resume), chunk);
            let chunks = resume->0.chunks@;
            &&& skipped <= chunk.1 - chunk.0 + 1
            &&& forall|b: int|
                chunk.0 <= b < chunk.0 + skipped ==> #[trigger] on_disk(chunks, b)
            &&& skipped < chunk.1 - chunk.0 + 1 ==> !on_disk(chunks, chunk.0 + skipped)
        },
{
    if resume is Some {
        let chunks = resume->0.chunks@;
        let skipped = initial_of(state_of(resume), chunk);
        law_resume_skips_written_bytes_alone(chunks, chunk.0 as int, chunk.1 as int);
        assert forall|b: int| chunk.0 <= b < chunk.0 + skipped implies #[trigger] on_disk(
            chunks,
            b,
        ) by {
            lemma_on_disk(chunks, b);
        }
        lemma_on_disk(chunks, chunk.0 + skipped);
    }
}

/// Whether the chunks of a state are these ranges, with these many bytes written.
pub open spec fn holds_progress(
    chunks: Seq<ChunkProgress>,
    ranges: Seq<(u64, u64)>,
    positions: Seq<u64>,
) -> bool {
    &&& chunks.len() == ranges.len()
    &&& positions.len() == ranges.len()
    &&& forall|j: int|
        0 <= j < ranges.len() ==> (#[trigger] chunks[j]).start == ranges[j].0 && chunks[j].end
            == ranges[j].1 && chunks[j].written == positions[j]
}

/// What is saved of a download are its chunks and their positions.
pub proof fn law_progress_is_saved(ranges: Seq<(u64, u64)>, positions: Seq<u64>)
    requires
        positions.len() == ranges.len(),
        forall|j: int|
            0 <= j < ranges.len() ==> (#[trigger] ranges[j]).0 <= ranges[j].1 && positions[j]
                <= ranges[j].1 - ranges[j].0 + 1,
    ensures
        holds_progress(progress_list(ranges, positions), ranges, positions),
{
    let list = progress_list(ranges, positions);
    assert forall|j: int| 0 <= j < ranges.len() implies (#[trigger] list[j]).start == ranges[j].0
        && list[j].end == ranges[j].1 && list[j].written == positions[j] by {
        assert(ranges[j].0 <= ranges[j].1);
    }
}

/// A position behind the end of a chunk is saved as its end, and of a chunk without a
/// position nothing is saved.
pub proof fn law_positions_are_saved_within_their_chunk(
    ranges: Seq<(u64, u64)>,
    positions: Seq<u64>,
    i: int,
)
    requires
        0 <= i < ranges.len(),
        i < positions.len(),
        ranges[i].0 <= ranges[i].1 < u64::MAX,
    ensures
        progress_list(ranges, positions).len() == if ranges.len() < positions.len() {
            ranges.len()
        } else {
            positions.len()
        },
        progress_list(ranges, positions)[i].start == ranges[i].0,
        progress_list(ranges, positions)[i].end == ranges[i].1,
        progress_list(ranges, positions)[i].written <= ranges[i].1 - ranges[i].0 + 1,
        positions[i] > ranges[i].1 - ranges[i].0 + 1 ==> progress_list(ranges, positions)[i].written
            == ranges[i].1 - ranges[i].0 + 1,
{
}

/// A plan for the same file with the same connections, made from a state that holds
/// the progress of its chunks, skips exactly the bytes that were written of each,
/// whatever the URL and the ETag of the state are.
pub proof fn law_a_saved_download_goes_on(
    content_length: u64,
    connections: usize,
    min_chunk: u64,
    state: ResumeState,
    positions: Seq<u64>,
    i: int,
)
    requires
        connections > 0,
        min_chunk > 0,
        ({
            let list = chunk_list(
                content_length,
                chunk_size(content_length, connections, min_chunk),
            );
            &&& holds_progress(state.chunks@, list, positions)
            &&& 0 <= i < list.len()
            &&& positions[i] <= list[i].1 - list[i].0 + 1
        }),
    ensures
        initial_of(
            state_of(Some(&state)),
            chunk_list(content_length, chunk_size(content_length, connections, min_chunk))[i],
        ) == positions[i],
{
    let size = chunk_size(content_length, connections, min_chunk);
    let list = chunk_list(content_length, size);
    let chunks = state.chunks@;
    law_chunks_are_pieces(content_length, size, i);
    assert(chunks[i].start == list[i].0);
    assert forall|j: int| 0 <= j < chunks.len() && j != i implies (#[trigger] chunks[j]).end
        < chunks[i].start || chunks[i].end < chunks[j].start by {
        law_chunks_are_pieces(content_length, size, j);
        if j < i {
            assert((j + 1) * size <= i * size) by (nonlinear_arith)
                requires
                    j + 1 <= i,
            ;
            assert((j + 1) * size == j * size + size) by (nonlinear_arith);
        } else {
            assert((i + 1) * size <= j * size) by (nonlinear_arith)
                requires
                    i + 1 <= j,
            ;
            assert((i + 1) * size == i * size + size) by (nonlinear_arith);
        }
    }
    law_same_chunk_resumes_where_it_stopped(chunks, i);
}

/// Whether no two of the chunks overlap.
pub open spec fn apart(chunks: Seq<ChunkProgress>) -> bool {
    forall|i: int, j: int|
        0 <= i < j < chunks.len() ==> (#[trigger] chunks[i]).end < (#[trigger] chunks[j]).start
            || chunks[j].end < chunks[i].start
}

proof fn lemma_apart_is_disjoint(chunks: Seq<ChunkProgress>)
    requires
        apart(chunks),
    ensures
        disjoint(chunks),
{
    assert forall|i: int, j: int, b: int|
        0 <= i < j < chunks.len() && #[trigger] wrote(chunks[i], b) implies !#[trigger] wrote(
        chunks[j],
        b,
    ) by {
        assert(chunks[i].end < chunks[j].start || chunks[j].end < chunks[i].start);
    }
}

proof fn lemma_count_splits(chunks: Seq<ChunkProgress>, from: int, mid: int, to: int)
    requires
        from <= mid <= to,
    ensures
        count_written(chunks, from, to) == count_written(chunks, from, mid) + count_written(
            chunks,
            mid,
            to,
        ),
    decreases to - mid,
{
    if mid < to {
        lemma_count_splits(chunks, from, mid, to - 1);
    }
}

/// What is written of a range is counted byte by byte: a byte counts if it is on
/// disk, and what is written of two ranges side by side adds up.
pub proof fn law_written_bytes_are_counted(
    chunks: Seq<ChunkProgress>,
    first: int,
    mid: int,
    last: int,
)
    requires
        apart(chunks),
        first <= mid < last,
    ensures
        already_written(chunks, first, first) == if on_disk(chunks, first) {
            1nat
        } else {
            0nat
        },
        already_written(chunks, first, last) == already_written(chunks, first, mid)
            + already_written(chunks, mid + 1, last),
{
    lemma_apart_is_disjoint(chunks);
    law_counts_written_bytes(chunks, first, first);
    law_counts_written_bytes(chunks, first, last);
    law_counts_written_bytes(chunks, first, mid);
    law_counts_written_bytes(chunks, mid + 1, last);
    lemma_count_splits(chunks, first, mid + 1, last + 1);
    lemma_on_disk(chunks, first);
    assert(count_written(chunks, first, first) == 0);
}

/// What one chunk says is written of a range: what its written bytes and the range
/// have in common. Where chunks overlap, what they say adds up, to no more than the
/// range has.
pub proof fn law_chunks_add_up(
    chunks: Seq<ChunkProgress>,
    c: ChunkProgress,
    first: int,
    last: int,
)
    requires
        first <= last,
    ensures
        ({
            let len = last - first + 1;
            let from = if first > c.start {
                first
            } else {
                c.start as int
            };
            let end = if c.start + c.written < c.end + 1 {
                c.start + c.written
            } else {
                c.end + 1
            };
            let to = if last + 1 < end {
                last + 1
            } else {
                end
            };
            let here = if from < to {
                to - from
            } else {
                0
            };
            let before = already_written(chunks, first, last);
            already_written(chunks.push(c), first, last) == if before + here < len {
                before + here
            } else {
                len
            }
        }),
        already_written(Seq::empty(), first, last) == 0,
{
    assert(chunks.push(c).drop_last() =~= chunks);
    assert(chunks.push(c).last() == c);
    assert(covered_sum(chunks.push(c), first, last) == covered_sum(chunks, first, last)
        + covered(c, first, last));
}

/// Chunks that do not overlap and are not of all 64-bit positions can be counted.
pub proof fn law_chunks_of_a_file_can_be_counted(
    chunks: Seq<ChunkProgress>,
    first: u64,
    last: u64,
)
    requires
        apart(chunks),
        forall|j: int| 0 <= j < chunks.len() ==> (#[trigger] chunks[j]).end < u64::MAX,
        first <= last < u64::MAX,
    ensures
        computable(chunks, first, last),
{
    lemma_apart_is_disjoint(chunks);
    law_disjoint_chunks_are_computable(chunks, first, last);
}

/// The bytes that a state counts as done are the plain sum.
pub proof fn law_written_sum_is_the_sum(chunks: Seq<ChunkProgress>)
    ensures
        written_sum(chunks) == chunks.fold_left(0int, |sum: int, c: ChunkProgress| sum + c.written),
    decreases chunks.len(),
{
    if chunks.len() > 0 {
        law_written_sum_is_the_sum(chunks.drop_last());
    }
}

/// A state is loaded if and only if its version is the first one, and then whole.
/// It fits a server that has a file of the same length, unless both have an ETag
/// and these differ.
pub proof fn law_which_states_are_used(
    state: ResumeState,
    content_length: u64,
    etag: Option<Seq<char>>,
)
    ensures
        loaded(None) is None,
        loaded(Some(state)) == if state.version == 1 {
            Some(state)
        } else {
            None
        },
        same_content(state, content_length, etag) <==> state.content_length == content_length && (
        state.etag is None || etag is None || state.etag->0@ == etag->0),
{
    assert(text_of(state.etag) == match state.etag {
        Some(e) => Some(e@),
        None => None,
    });
}

} // verus!
