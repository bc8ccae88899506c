//! Dividing a file and fetching its chunks.
use vstd::arithmetic::div_mod::lemma_fundamental_div_mod;
use vstd::prelude::*;

use crate::chunks::{
    acceptable, action_after, chunk_count, chunk_list, chunk_size, dispatch_after, is_part,
    law_chunks_are_pieces, pieces, possible, rate_of, received_in, restarts_in, success, sum_of,
    usable_connections, worker_after, worker_after_all, ChunkAction, ChunkEvent, ChunkWorker,
    Dispatch, DispatchEvent, ResponseError,
};
use crate::number::decimal;

verus! {

// ---------------------------------------------------------------------------
// The course of a chunk
// ---------------------------------------------------------------------------
/// After a response the body is read if and only if it belongs where the next byte
/// is written: the status is one of success, and it is 206, or the next byte is the
/// first one of the file and the chunk reaches to its end. Any other response is
/// refused, with what was asked for.
pub proof fn law_only_the_part_asked_for_is_read(
    worker: ChunkWorker,
    status: u16,
    content_length: u64,
)
    requires
        worker.range_start + worker.written <= u64::MAX,
    ensures
        ({
            let next = worker.range_start + worker.written;
            let belongs = 200 <= status < 300 && (status == 206 || (next == 0 && worker.range_end
                + 1 >= content_length));
            match action_after(worker, ChunkEvent::Response(status), content_length) {
                ChunkAction::Read { cancellable } => belongs && cancellable == (worker.attempt
                    == 0),
                ChunkAction::Fail(ResponseError::Failed { status: s }) => s == status && !(200
                    <= status < 300),
                ChunkAction::Fail(ResponseError::IgnoredRange { status: s, from, to }) => {
                    &&& !belongs
                    &&& 200 <= status < 300
                    &&& s == status
                    &&& from == next
                    &&& to == worker.range_end
                },
                _ => false,
            }
        }),
        worker_after(worker, ChunkEvent::Response(status)) == worker,
{
}

/// The answer to a resumed request is held to the byte that it goes on with: two
/// workers with the same next byte and the same end read the same responses, however
/// the bytes before are divided into start and written.
pub proof fn law_responses_depend_on_the_next_byte(
    a: ChunkWorker,
    b: ChunkWorker,
    status: u16,
    content_length: u64,
)
    requires
        a.range_start + a.written == b.range_start + b.written,
        a.range_start + a.written <= u64::MAX,
        a.range_end == b.range_end,
        a.attempt == b.attempt,
    ensures
        action_after(a, ChunkEvent::Response(status), content_length) == action_after(
            b,
            ChunkEvent::Response(status),
            content_length,
        ),
{
}

/// Bytes that arrive move the position on by as many, whatever came before, and
/// nothing else changes; they are read on. In two pieces they do the same as in one.
pub proof fn law_bytes_move_the_position(
    worker: ChunkWorker,
    m: u64,
    n: u64,
    content_length: u64,
)
    requires
        worker.range_start + worker.written + m + n <= u64::MAX,
    ensures
        ({
            let one = worker_after(worker, ChunkEvent::Bytes(m));
            &&& one.written == worker.written + m
            &&& one.range_start == worker.range_start
            &&& one.range_end == worker.range_end
            &&& one.attempt == worker.attempt
            &&& worker_after(one, ChunkEvent::Bytes(n)) == worker_after(
                worker,
                ChunkEvent::Bytes((m + n) as u64),
            )
        }),
        action_after(worker, ChunkEvent::Bytes(m), content_length) == (ChunkAction::Read {
            cancellable: worker.attempt == 0,
        }),
{
}

/// A chunk that is told to restart asks again for what is missing, once; the second
/// time it reads on. What is written stays. The end of the body ends the chunk.
pub proof fn law_a_chunk_restarts_once(worker: ChunkWorker, content_length: u64)
    requires
        worker.attempt <= 1,
    ensures
        ({
            let after = worker_after(worker, ChunkEvent::Cancel);
            let action = action_after(worker, ChunkEvent::Cancel, content_length);
            &&& after.attempt == 1
            &&& after.written == worker.written
            &&& after.range_start == worker.range_start
            &&& after.range_end == worker.range_end
            &&& worker.attempt == 0 ==> action == ChunkAction::Request
            &&& worker.attempt == 1 ==> action == ChunkAction::Read { cancellable: false }
            &&& action_after(after, ChunkEvent::Cancel, content_length) == ChunkAction::Read {
                cancellable: false,
            }
        }),
        action_after(worker, ChunkEvent::End, content_length) == ChunkAction::Finish,
        worker_after(worker, ChunkEvent::End) == worker,
{
}

/// Every chunk of a file, at any position in it and in either attempt, can be
/// fetched, and every event can happen to it whose bytes have a position.
pub proof fn law_every_chunk_can_be_fetched(worker: ChunkWorker, event: ChunkEvent)
    ensures
        worker.range_start <= worker.range_end && worker.range_end < u64::MAX && worker.range_start
            + worker.written <= u64::MAX && worker.attempt <= 1 ==> worker.valid(),
        event !is Bytes ==> possible(worker, event),
        event matches ChunkEvent::Bytes(n) && worker.range_start + worker.written + n <= u64::MAX
            ==> possible(worker, event),
{
}

/// In a course of events the position moves on by the bytes that arrived, and a
/// restart happens if and only if the chunk was told to: the counts of both are the
/// plain ones.
pub proof fn law_course_counts(worker: ChunkWorker, events: Seq<ChunkEvent>, content_length: u64)
    requires
        worker.attempt == 0,
        worker.range_start <= worker.range_end < u64::MAX,
        worker.range_start + worker.written + received_in(events) <= u64::MAX,
    ensures
        received_in(events) == events.fold_left(
            0int,
            |sum: int, e: ChunkEvent|
                match e {
                    ChunkEvent::Bytes(n) => sum + n,
                    _ => sum,
                },
        ),
        worker_after_all(worker, events).written == worker.written + received_in(events),
        restarts_in(worker, events, content_length) == if events.contains(ChunkEvent::Cancel) {
            1nat
        } else {
            0nat
        },
        worker_after_all(worker, events).attempt == restarts_in(worker, events, content_length),
    decreases events.len(),
{
    if events.len() > 0 {
        let head = events.drop_last();
        law_course_counts(worker, head, content_length);
        if events.contains(ChunkEvent::Cancel) {
            let k = choose|k: int| 0 <= k < events.len() && events[k] == ChunkEvent::Cancel;
            if k < head.len() {
                assert(head[k] == ChunkEvent::Cancel);
            }
        }
        if head.contains(ChunkEvent::Cancel) {
            let k = choose|k: int| 0 <= k < head.len() && head[k] == ChunkEvent::Cancel;
            assert(events[k] == ChunkEvent::Cancel);
        }
        if events.last() == ChunkEvent::Cancel {
            assert(events[events.len() - 1] == ChunkEvent::Cancel);
        }
    }
}

/// Which responses are of success, which ranges are a part of a file, and which
/// bodies may be written.
pub proof fn law_responses(status: u16, from: u64, to: u64, content_length: u64)
    ensures
        success(status) <==> 200 <= status <= 299,
        is_part(from, to, content_length) <==> !(from == 0 && to + 1 >= content_length),
        acceptable(status, from, to, content_length) <==> (status == 206 || (200 <= status <= 299
            && from == 0 && to + 1 >= content_length)),
{
}

// ---------------------------------------------------------------------------
// Dividing a file
// ---------------------------------------------------------------------------
/// A file is divided from its first byte to its last, without gap or overlap, into
/// chunks of one size and a last one that may be smaller. The size is the smallest
/// allowed, or the share of each connection where that is larger.
pub proof fn law_file_is_divided(
    content_length: u64,
    connections: usize,
    min_chunk: u64,
    i: int,
)
    requires
        connections > 0,
        content_length > 0,
        min_chunk > 0,
        0 <= i < chunk_list(
            content_length,
            chunk_size(content_length, connections, min_chunk),
        ).len(),
    ensures
        ({
            let list = chunk_list(
                content_length,
                chunk_size(content_length, connections, min_chunk),
            );
            let size = chunk_size(content_length, connections, min_chunk);
            let len = list[i].1 - list[i].0 + 1;
            &&& list[0].0 == 0
            &&& list[list.len() - 1].1 + 1 == content_length
            &&& list[i].0 <= list[i].1
            &&& i + 1 < list.len() ==> list[i + 1].0 == list[i].1 + 1
            &&& 0 < len <= size
            &&& i + 1 < list.len() ==> len == size
            &&& size >= min_chunk
            &&& size > min_chunk ==> size * connections <= content_length
            &&& (size + 1) * connections > content_length
        }),
{
    let size = chunk_size(content_length, connections, min_chunk);
    let list = chunk_list(content_length, size);
    let n = connections as int;
    let share = content_length as int / n;
    lemma_fundamental_div_mod(content_length as int, n);
    assert((share + 1) * n > content_length) by (nonlinear_arith)
        requires
            content_length == n * share + content_length as int % n,
            content_length as int % n < n,
    ;
    assert((size + 1) * n >= (share + 1) * n) by (nonlinear_arith)
        requires
            size >= share,
            n > 0,
    ;
    assert(share * n <= content_length) by (nonlinear_arith)
        requires
            content_length == n * share + content_length as int % n,
            content_length as int % n >= 0,
    ;
    law_chunks_are_pieces(content_length, size, i);
    law_chunks_are_pieces(content_length, size, 0);
    law_chunks_are_pieces(content_length, size, list.len() - 1);
    assert(0 * size == 0);
}

/// A file that is not empty has at least one chunk, an empty one none.
pub proof fn law_only_an_empty_file_has_no_chunks(
    content_length: u64,
    connections: usize,
    min_chunk: u64,
)
    requires
        connections > 0,
        min_chunk > 0,
    ensures
        chunk_list(content_length, chunk_size(content_length, connections, min_chunk)).len() == 0
            <==> content_length == 0,
{
    let size = chunk_size(content_length, connections, min_chunk);
    if content_length > 0 {
        let x = (content_length + size - 1) as int;
        lemma_fundamental_div_mod(x, size as int);
        let q = x / size as int;
        assert(q >= 1) by (nonlinear_arith)
            requires
                x == size * q + x % size as int,
                0 <= x % size as int,
                x % (size as int) < size,
                x >= size,
                size > 0,
        ;
        assert(chunk_count(content_length, size) == q);
    }
}

/// The sum of what is skipped is the plain sum.
pub proof fn law_sum_is_the_sum(list: Seq<u64>)
    ensures
        sum_of(list) == list.fold_left(0int, |sum: int, x: u64| sum + x),
    decreases list.len(),
{
    if list.len() > 0 {
        law_sum_is_the_sum(list.drop_last());
    }
}

// ---------------------------------------------------------------------------
// How many at once, and how fast
// ---------------------------------------------------------------------------
/// The chunks begin one after the other, each once, as long as there is a free
/// connection; each that ends frees one.
pub proof fn law_a_free_connection_is_used(d: Dispatch)
    requires
        d.in_flight <= d.connections,
        d.in_flight <= d.begun <= d.total,
        d.connections > 0,
    ensures
        d.valid(),
        ({
            let e = dispatch_after(d, DispatchEvent::Begin);
            let free = d.in_flight < d.connections && d.begun < d.total;
            &&& e.begun == d.begun + if free {
                1int
            } else {
                0int
            }
            &&& e.in_flight == d.in_flight + (e.begun - d.begun)
            &&& e.total == d.total
            &&& e.connections == d.connections
            &&& free ==> dispatch_after(e, DispatchEvent::End) == (Dispatch {
                begun: e.begun,
                ..d
            })
        }),
        d.in_flight > 0 ==> dispatch_after(d, DispatchEvent::End).in_flight == d.in_flight - 1,
        dispatch_after(d, DispatchEvent::End).begun == d.begun,
{
}

/// The limiter is asked for as few pieces as it can grant: all but the last are of
/// its rate, and together they are the length.
pub proof fn law_pieces_are_of_the_rate(len: nat, rate: u32)
    requires
        rate > 0,
        len > 0,
    ensures
        ({
            let all = pieces(len, rate);
            let n = all.len();
            &&& n > 0
            &&& forall|i: int| 0 <= i < n - 1 ==> #[trigger] all[i] == rate
            &&& 0 < all[n - 1] <= rate
            &&& (n - 1) * rate + all[n - 1] == len
        }),
        pieces(0, rate).len() == 0,
    decreases len,
{
    let all = pieces(len, rate);
    if len > rate {
        let rest = pieces((len - rate) as nat, rate);
        law_pieces_are_of_the_rate((len - rate) as nat, rate);
        assert(all.len() == rest.len() + 1);
        assert(all[all.len() - 1] == rest[rest.len() - 1]);
        assert forall|i: int| 0 <= i < all.len() - 1 implies #[trigger] all[i] == rate by {
            if i > 0 {
                assert(all[i] == rest[i - 1]);
            }
        }
        assert((all.len() - 1) * rate == (rest.len() - 1) * rate + rate) by (nonlinear_arith)
            requires
                all.len() == rest.len() + 1,
        ;
    } else {
        assert(0 * rate == 0);
    }
}

/// Where the server serves ranges as many connections are used as are asked for, and
/// one where none is; else one.
pub proof fn law_connections_that_are_used(connections: usize)
    ensures
        usable_connections(false, connections) == 1,
        connections > 0 ==> usable_connections(true, connections) == connections,
        connections == 0 ==> usable_connections(true, connections) == 1,
{
}

/// The limiter keeps the rate that is asked for, or the nearest that it can have.
pub proof fn law_the_rate_is_kept(rate: u64, other: u64)
    ensures
        0 < rate <= 0xffff_ffff ==> rate_of(rate) == rate,
        rate_of(rate) > 0,
        rate_of(rate) <= rate || rate == 0,
        rate <= other ==> rate_of(rate) <= rate_of(other),
        rate > 0xffff_ffff ==> rate_of(rate) == 0xffff_ffff,
{
}

/// A chunk is asked for if and only if a byte of it is missing, from the first missing
/// one to its last. After more bytes the request begins as many further on.
pub proof fn law_what_is_missing_is_asked_for(worker: ChunkWorker, n: u64)
    requires
        worker.range_start <= worker.range_end,
        worker.range_start + worker.written + n <= u64::MAX,
    ensures
        worker.spec_first_action() == if worker.range_start + worker.written <= worker.range_end {
            ChunkAction::Request
        } else {
            ChunkAction::Finish
        },
        worker.spec_range_header() == seq!['b', 'y', 't', 'e', 's', '='] + decimal(
            (worker.range_start + worker.written) as nat,
        ) + seq!['-'] + decimal(worker.range_end as nat),
        worker_after(worker, ChunkEvent::Bytes(n)).spec_range_header() == (ChunkWorker {
            range_start: (worker.range_start + n) as u64,
            ..worker
        }).spec_range_header(),
{
    reveal_strlit("bytes=");
    reveal_strlit("-");
    assert("bytes="@ =~= seq!['b', 'y', 't', 'e', 's', '=']);
    assert("-"@ =~= seq!['-']);
}

} // verus!
