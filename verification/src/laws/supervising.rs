//! Watching over the connections.
use vstd::prelude::*;

use crate::chunks::SAMPLE_INTERVAL_NS;
use crate::supervisor::{
    active_count, by_slowness, changes, cooled_at, done_count, goes_before, hanging, hanging_of,
    hangs, lag_after, laggard, law_hung_chunks_are_restarted, law_slowest_first,
    law_slowest_is_the_least, next_mark, slowest, ChunkView, Supervisor, TICK_NS,
};

verus! {

/// Whether a chunk is being fetched.
pub open spec fn being_fetched(v: ChunkView) -> bool {
    v.started && !v.done && v.length > 0
}

/// Whether a chunk is left alone at a time.
pub open spec fn left_alone(v: ChunkView, now: u64) -> bool {
    v.cooldown_until is Some && now < v.cooldown_until->0
}

// ---------------------------------------------------------------------------
// Hung chunks
// ---------------------------------------------------------------------------
/// A chunk that was at position `p` at the time `t` is told to restart if and only
/// if it is being fetched, was never restarted and is not left alone, it has
/// transferred fewer than 64 KiB since, and that was 15 s ago or more. Where it
/// stands makes no difference. A chunk that is seen for the first time is not told.
pub proof fn law_a_hung_chunk_is_told(p: u64, t: u64, view: ChunkView, now: u64)
    ensures
        hangs(Some((p, t)), view, now) <==> {
            &&& being_fetched(view)
            &&& view.restarts == 0
            &&& !left_alone(view, now)
            &&& view.position - p < 65_536
            &&& now - t >= 15_000_000_000
        },
        !hangs(None, view, now),
{
}

/// To shift a chunk and its mark by the same bytes does not change what it is told;
/// neither does a shift of all times.
pub proof fn law_where_a_chunk_stands_makes_no_difference(
    p: u64,
    t: u64,
    view: ChunkView,
    now: u64,
    bytes: u64,
    time: u64,
)
    requires
        p + bytes <= u64::MAX,
        view.position + bytes <= u64::MAX,
        t + time <= u64::MAX,
        now + time <= u64::MAX,
        view.cooldown_until is None,
    ensures
        ({
            let moved = ChunkView { position: (view.position + bytes) as u64, ..view };
            &&& hangs(Some(((p + bytes) as u64, t)), moved, now) == hangs(Some((p, t)), view, now)
            &&& hangs(Some((p, (t + time) as u64)), view, (now + time) as u64) == hangs(
                Some((p, t)),
                view,
                now,
            )
        }),
{
}

/// Of a chunk that is being fetched and was not restarted, its position and the time
/// are noted at the first look, when it has transferred 64 KiB since the last note,
/// and when it is told to restart; else the note stays.
pub proof fn law_when_a_position_is_noted(p: u64, t: u64, view: ChunkView, now: u64)
    ensures
        being_fetched(view) && view.restarts == 0 ==> {
            &&& next_mark(None, view, now) == Some((view.position, now))
            &&& view.position - p >= 65_536 || hangs(Some((p, t)), view, now) ==> next_mark(
                Some((p, t)),
                view,
                now,
            ) == Some((view.position, now))
            &&& !(view.position - p >= 65_536 || hangs(Some((p, t)), view, now)) ==> next_mark(
                Some((p, t)),
                view,
                now,
            ) == Some((p, t))
        },
        !being_fetched(view) || view.restarts > 0 ==> next_mark(Some((p, t)), view, now) == Some(
            (p, t),
        ) && next_mark(None, view, now) is None,
{
}

/// Two looks at a chunk: it is told at the second one if and only if it has
/// transferred fewer than 64 KiB between them, and 15 s or more have passed.
pub proof fn law_two_looks_find_a_hung_chunk(
    first: ChunkView,
    then: u64,
    second: ChunkView,
    now: u64,
)
    requires
        being_fetched(first),
        being_fetched(second),
        first.restarts == 0,
        second.restarts == 0,
        !left_alone(second, now),
    ensures
        hangs(next_mark(None, first, then), second, now) <==> second.position - first.position
            < 65_536 && now - then >= 15_000_000_000,
{
}

/// Among all chunks exactly those are told to restart that hang, each once, and
/// those first of which the smaller part is done.
pub proof fn law_all_hung_chunks_are_told(
    marks: Seq<Option<(u64, u64)>>,
    views: Seq<ChunkView>,
    now: u64,
    i: usize,
)
    requires
        views.len() <= usize::MAX,
        marks.len() == views.len(),
    ensures
        hanging(marks, views, now).contains(i) <==> i < views.len() && hangs(
            marks[i as int],
            views[i as int],
            now,
        ),
{
    law_hung_chunks_are_restarted(marks, views, now, i);
}

proof fn lemma_hanging_in_order(
    list: Seq<usize>,
    marks: Seq<Option<(u64, u64)>>,
    views: Seq<ChunkView>,
    now: u64,
)
    requires
        forall|j: int, k: int|
            0 <= j < k < list.len() ==> goes_before(views, #[trigger] list[j], #[trigger] list[k]),
    ensures
        ({
            let all = hanging_of(list, marks, views, now);
            &&& forall|j: int, k: int|
                0 <= j < k < all.len() ==> goes_before(views, #[trigger] all[j], #[trigger] all[k])
            &&& forall|j: int| 0 <= j < all.len() ==> list.contains(#[trigger] all[j])
        }),
    decreases list.len(),
{
    if list.len() > 0 {
        let head = list.drop_last();
        assert forall|j: int, k: int| 0 <= j < k < head.len() implies goes_before(
            views,
            #[trigger] head[j],
            #[trigger] head[k],
        ) by {
            assert(head[j] == list[j] && head[k] == list[k]);
        }
        lemma_hanging_in_order(head, marks, views, now);
        let before = hanging_of(head, marks, views, now);
        let all = hanging_of(list, marks, views, now);
        let last = list[list.len() - 1];
        assert forall|j: int| 0 <= j < before.len() implies goes_before(
            views,
            #[trigger] before[j],
            last,
        ) && list.contains(before[j]) by {
            assert(head.contains(before[j]));
            let m = choose|m: int| 0 <= m < head.len() && head[m] == before[j];
            assert(list[m] == before[j]);
            assert(goes_before(views, list[m], list[list.len() - 1]));
        }
        assert forall|j: int| 0 <= j < all.len() implies list.contains(#[trigger] all[j]) by {
            if j < before.len() {
                assert(all[j] == before[j]);
            } else {
                assert(all[j] == last);
            }
        }
        assert forall|j: int, k: int| 0 <= j < k < all.len() implies goes_before(
            views,
            #[trigger] all[j],
            #[trigger] all[k],
        ) by {
            assert(all[j] == before[j]);
            if k < before.len() {
                assert(all[k] == before[k]);
            } else {
                assert(all[k] == last);
            }
        }
    }
}

/// Of two chunks that are told to restart because they hang, that comes first of which
/// no greater part is done, and each comes once.
pub proof fn law_hung_chunks_come_slowest_first(
    marks: Seq<Option<(u64, u64)>>,
    views: Seq<ChunkView>,
    now: u64,
    j: int,
    k: int,
)
    requires
        views.len() <= usize::MAX,
        0 <= j < k < hanging(marks, views, now).len(),
    ensures
        ({
            let all = hanging(marks, views, now);
            let a = views[all[j] as int];
            let b = views[all[k] as int];
            all[j] != all[k] && a.position * b.length <= b.position * a.length
        }),
{
    law_slowest_first(views, views.len());
    let list = by_slowness(views, views.len());
    lemma_hanging_in_order(list, marks, views, now);
    let all = hanging(marks, views, now);
    assert(goes_before(views, all[j], all[k]));
}

// ---------------------------------------------------------------------------
// The slowest chunk
// ---------------------------------------------------------------------------
/// The slowest chunk is the one of those being fetched of which the smallest part is
/// done, the first of several; there is one if any is being fetched.
pub proof fn law_the_slowest_has_the_smallest_part(views: Seq<ChunkView>)
    ensures
        match slowest(views) {
            Some(k) => {
                &&& 0 <= k < views.len()
                &&& being_fetched(views[k])
                &&& forall|j: int|
                    0 <= j < views.len() && being_fetched(#[trigger] views[j])
                        ==> views[k].position * views[j].length <= views[j].position
                        * views[k].length
                &&& forall|j: int|
                    0 <= j < k && being_fetched(#[trigger] views[j]) ==> views[k].position
                        * views[j].length < views[j].position * views[k].length
            },
            None => forall|j: int| 0 <= j < views.len() ==> !being_fetched(#[trigger] views[j]),
        },
{
    law_slowest_is_the_least(views);
    if slowest(views) is Some {
        let k = slowest(views)->0;
        assert(views[k].spec_active());
        assert forall|j: int| 0 <= j < views.len() && being_fetched(
            #[trigger] views[j],
        ) implies views[k].position * views[j].length <= views[j].position * views[k].length by {
            assert(views[j].spec_active());
            assert(!views[j].slower_than(views[k]));
        }
        assert forall|j: int| 0 <= j < k && being_fetched(
            #[trigger] views[j],
        ) implies views[k].position * views[j].length < views[j].position * views[k].length by {
            assert(views[j].spec_active());
            assert(views[k].slower_than(views[j]));
        }
    } else {
        assert forall|j: int| 0 <= j < views.len() implies !being_fetched(#[trigger] views[j]) by {
            assert(!views[j].spec_active());
        }
    }
}

/// The list by slowness holds each chunk that is being fetched once, and before
/// those of which a greater part is done.
pub proof fn law_the_list_goes_by_slowness(views: Seq<ChunkView>, j: int, k: int)
    requires
        views.len() <= usize::MAX,
        0 <= j < k < by_slowness(views, views.len()).len(),
    ensures
        ({
            let list = by_slowness(views, views.len());
            let a = views[list[j] as int];
            let b = views[list[k] as int];
            &&& list[j] < views.len()
            &&& list[k] < views.len()
            &&& list[j] != list[k]
            &&& being_fetched(a) && being_fetched(b)
            &&& a.position * b.length <= b.position * a.length
        }),
        forall|i: usize| #[trigger]
            by_slowness(views, views.len()).contains(i) <==> i < views.len() && being_fetched(
                views[i as int],
            ),
{
    law_slowest_first(views, views.len());
    let list = by_slowness(views, views.len());
    assert(list[j] < views.len() && list[k] < views.len());
    assert(goes_before(views, list[j], list[k]));
}

/// The chunks that are being fetched, and those that are done, are counted plainly.
pub proof fn law_chunks_are_counted(views: Seq<ChunkView>)
    ensures
        active_count(views) == views.filter(|v: ChunkView| being_fetched(v)).len(),
        done_count(views) == views.filter(|v: ChunkView| v.done).len(),
    decreases views.len(),
{
    if views.len() > 0 {
        law_chunks_are_counted(views.drop_last());
    }
    reveal(Seq::filter);
}

// ---------------------------------------------------------------------------
// Lagging chunks
// ---------------------------------------------------------------------------
/// Whether the mode lets a lagging chunk be restarted. By default at most two are
/// being fetched and one is done; in aggressive mode at least half are done.
pub open spec fn gate(aggressive: bool, views: Seq<ChunkView>) -> bool {
    let fetched = views.filter(|v: ChunkView| being_fetched(v)).len();
    let done = views.filter(|v: ChunkView| v.done).len();
    if aggressive {
        2 * done >= views.len()
    } else {
        fetched <= 2 && done >= 1
    }
}

/// The slowest chunk is told to restart because it lags if and only if the mode lets
/// it, it was never restarted and is not left alone, less than half of it is done,
/// and it has been so for 10 s, or 5 s in aggressive mode. No other chunk is told.
pub proof fn law_a_lagging_chunk_is_told(
    aggressive: bool,
    since: Seq<Option<u64>>,
    views: Seq<ChunkView>,
    now: u64,
)
    requires
        views.len() <= usize::MAX,
        since.len() == views.len(),
    ensures
        match slowest(views) {
            None => laggard(aggressive, since, views, now) is None && lag_after(
                aggressive,
                since,
                views,
                now,
            ) == since,
            Some(k) => {
                let v = views[k];
                let eligible = gate(aggressive, views) && v.restarts == 0 && !left_alone(v, now);
                let limit: int = if aggressive {
                    5_000_000_000
                } else {
                    10_000_000_000
                };
                let waited: int = match since[k] {
                    Some(t) => now - t,
                    None => 0,
                };
                &&& laggard(aggressive, since, views, now) == if eligible && 2 * v.position
                    < v.length && waited >= limit {
                    Some(k as usize)
                } else {
                    None
                }
                &&& lag_after(aggressive, since, views, now) == if !eligible {
                    since
                } else if 2 * v.position >= v.length {
                    since.update(k, None)
                } else if since[k] is None {
                    since.update(k, Some(now))
                } else {
                    since
                }
            },
        },
{
    law_chunks_are_counted(views);
    law_slowest_is_the_least(views);
    if slowest(views) is Some {
        let k = slowest(views)->0;
        assert(since.update(k, since[k]) =~= since);
    }
}

/// Two looks at a chunk that stays the slowest and is behind at both: it is told at
/// the second one if and only if they are 10 s apart, or 5 s in aggressive mode.
pub proof fn law_two_looks_find_a_lagging_chunk(
    aggressive: bool,
    first: Seq<ChunkView>,
    then: u64,
    second: Seq<ChunkView>,
    now: u64,
    since: Seq<Option<u64>>,
)
    requires
        first.len() <= usize::MAX,
        second.len() == first.len(),
        since.len() == first.len(),
        slowest(first) is Some,
        slowest(second) == slowest(first),
        since[slowest(first)->0] is None,
        gate(aggressive, first),
        gate(aggressive, second),
        ({
            let k = slowest(first)->0;
            &&& first[k].restarts == 0 && second[k].restarts == 0
            &&& !left_alone(first[k], then) && !left_alone(second[k], now)
            &&& 2 * first[k].position < first[k].length
            &&& 2 * second[k].position < second[k].length
        }),
    ensures
        laggard(aggressive, since, first, then) is None,
        laggard(aggressive, lag_after(aggressive, since, first, then), second, now) == if now - then
            >= if aggressive {
            5_000_000_000int
        } else {
            10_000_000_000int
        } {
            Some(slowest(first)->0 as usize)
        } else {
            None
        },
{
    law_slowest_is_the_least(first);
    law_a_lagging_chunk_is_told(aggressive, since, first, then);
    law_a_lagging_chunk_is_told(
        aggressive,
        lag_after(aggressive, since, first, then),
        second,
        now,
    );
}

// ---------------------------------------------------------------------------
// Highlighting
// ---------------------------------------------------------------------------
/// A chunk is shown anew, as slow or not, if and only if it is not done nor left
/// alone after a restart, and it was shown otherwise: as slow is shown the slowest
/// one, of two or more, once a tenth of the file is there.
pub proof fn law_the_slowest_is_highlighted(
    highlighted: Seq<bool>,
    views: Seq<ChunkView>,
    now: u64,
    total: u64,
    content_length: u64,
    n: nat,
    i: usize,
    slow: bool,
)
    requires
        n <= views.len() <= usize::MAX,
        highlighted.len() == views.len(),
    ensures
        changes(highlighted, views, now, total, content_length, n).contains((i, slow)) <==> {
            &&& i < n
            &&& !views[i as int].done
            &&& !(views[i as int].restarts > 0 && left_alone(views[i as int], now))
            &&& slow != highlighted[i as int]
            &&& slow == (10 * total >= content_length && views.filter(
                |v: ChunkView| being_fetched(v),
            ).len() >= 2 && slowest(views) == Some(i as int))
        },
    decreases n,
{
    law_chunks_are_counted(views);
    let all = changes(highlighted, views, now, total, content_length, n);
    if n > 0 {
        law_the_slowest_is_highlighted(
            highlighted,
            views,
            now,
            total,
            content_length,
            (n - 1) as nat,
            i,
            slow,
        );
        let before = changes(highlighted, views, now, total, content_length, (n - 1) as nat);
        if before.contains((i, slow)) {
            let k = choose|k: int| 0 <= k < before.len() && before[k] == (i, slow);
            assert(all[k] == (i, slow));
        }
        if all.contains((i, slow)) {
            let k = choose|k: int| 0 <= k < all.len() && all[k] == (i, slow);
            if k < before.len() {
                assert(before[k] == (i, slow));
            }
        }
        if all.len() > before.len() {
            assert(all[before.len() as int] == all.last());
            assert(all.contains(all.last()));
        }
    }
}

/// The changes come in the order of the chunks, each chunk once.
pub proof fn law_changes_come_in_order(
    highlighted: Seq<bool>,
    views: Seq<ChunkView>,
    now: u64,
    total: u64,
    content_length: u64,
    n: nat,
)
    requires
        n <= views.len() <= usize::MAX,
    ensures
        ({
            let all = changes(highlighted, views, now, total, content_length, n);
            &&& forall|j: int, k: int|
                0 <= j < k < all.len() ==> (#[trigger] all[j]).0 < (#[trigger] all[k]).0
            &&& forall|j: int| 0 <= j < all.len() ==> (#[trigger] all[j]).0 < n
        }),
    decreases n,
{
    if n > 0 {
        law_changes_come_in_order(highlighted, views, now, total, content_length, (n - 1) as nat);
        let before = changes(highlighted, views, now, total, content_length, (n - 1) as nat);
        let all = changes(highlighted, views, now, total, content_length, n);
        assert forall|j: int| 0 <= j < all.len() implies (#[trigger] all[j]).0 < n && (j
            < before.len() ==> all[j] == before[j]) by {
            if j < before.len() {
                assert(before[j].0 < n - 1);
            }
        }
        assert forall|j: int, k: int| 0 <= j < k < all.len() implies (#[trigger] all[j]).0 < (
        #[trigger] all[k]).0 by {
            assert(all[j] == before[j]);
            assert(before[j].0 < n - 1);
            if k < before.len() {
                assert(all[k] == before[k]);
            }
        }
    }
}

/// A supervisor of `n` chunks remembers something of each of them.
pub proof fn law_a_supervisor_watches_its_chunks(s: Supervisor, n: nat)
    ensures
        s.watches(n) <==> s.highlighted@.len() == n && s.marks@.len() == n && s.lagging_since@.len()
            == n,
{
}

/// Progress is saved when 5 s have passed since it was; a chunk that is restarted is
/// left alone for the next 15 s. The supervisor looks twice a second, and speeds are
/// shown anew after 0.4 s.
pub proof fn law_times(s: Supervisor, now: u64)
    ensures
        s.spec_save_due(now) <==> now >= s.last_save + 5_000_000_000,
        now <= u64::MAX - 15_000_000_000 ==> cooled_at(now) == now + 15_000_000_000,
        now > u64::MAX - 15_000_000_000 ==> cooled_at(now) == u64::MAX,
        TICK_NS == 500_000_000,
        SAMPLE_INTERVAL_NS == 400_000_000,
{
}

} // verus!
