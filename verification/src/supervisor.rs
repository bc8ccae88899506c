//! The supervisor of a download: which chunk is shown as the slowest, which ones
//! are restarted, and when the progress is saved.
//!
//! Times are in nanoseconds from the start of the download.
use vstd::prelude::*;

verus! {

/// How often the supervisor looks.
pub const TICK_NS: u64 = 500_000_000;

/// A chunk hangs if it transfers less than this ...
pub const HUNG_BYTES: u64 = 65_536;

/// ... in this time.
pub const HUNG_NS: u64 = 15_000_000_000;

/// How long a chunk has to lag before it is restarted.
pub const LAG_NS: u64 = 10_000_000_000;

/// The same in aggressive mode.
pub const LAG_NS_AGGRESSIVE: u64 = 5_000_000_000;

/// How long a chunk is left alone after a restart.
pub const COOLDOWN_NS: u64 = 15_000_000_000;

/// How often the progress is saved.
pub const SAVE_NS: u64 = 5_000_000_000;

/// What the supervisor sees of a chunk.
#[derive(Debug, Clone, Copy, PartialEq, Eq, Structural)]
pub struct ChunkView {
    pub started: bool,
    pub done: bool,
    /// How often it was restarted.
    pub restarts: usize,
    /// Until when it is left alone.
    pub cooldown_until: Option<u64>,
    /// Bytes that are written.
    pub position: u64,
    /// Bytes in the chunk.
    pub length: u64,
}

impl ChunkView {
    /// Whether the chunk is being fetched.
    pub open spec fn spec_active(&self) -> bool {
        self.started && !self.done && self.length > 0
    }

    /// Whether the chunk is being fetched.
    pub fn active(&self) -> (r: bool)
        ensures
            r == self.spec_active(),
    {
        self.started && !self.done && self.length > 0
    }

    /// Whether the chunk is to be left alone.
    pub open spec fn spec_cooling(&self, now: u64) -> bool {
        self.cooldown_until is Some && now < self.cooldown_until->0
    }

    /// Whether the chunk is to be left alone.
    pub fn cooling(&self, now: u64) -> (r: bool)
        ensures
            r == self.spec_cooling(now),
    {
        match self.cooldown_until {
            Some(t) => now < t,
            None => false,
        }
    }

    /// Whether a smaller part of this chunk is done than of the other.
    pub open spec fn slower_than(&self, other: ChunkView) -> bool {
        self.position * other.length < other.position * self.length
    }
}

/// The time that a chunk that is restarted at `now` is left alone until.
pub open spec fn cooled_at(now: u64) -> int {
    if now + COOLDOWN_NS <= u64::MAX {
        now + COOLDOWN_NS
    } else {
        u64::MAX as int
    }
}

/// The time that a chunk that is restarted at `now` is left alone until.
pub fn cooldown_end(now: u64) -> (r: u64)
    ensures
        r == cooled_at(now),
        r == (if now + COOLDOWN_NS <= u64::MAX {
            now + COOLDOWN_NS
        } else {
            u64::MAX as int
        }),
{
    now.saturating_add(COOLDOWN_NS)
}

// ---------------------------------------------------------------------------
// The slowest chunk
// ---------------------------------------------------------------------------
/// The number of active chunks.
pub open spec fn active_count(views: Seq<ChunkView>) -> nat
    decreases views.len(),
{
    if views.len() == 0 {
        0
    } else {
        active_count(views.drop_last()) + if views.last().spec_active() {
            1nat
        } else {
            0nat
        }
    }
}

/// The number of chunks that are done.
pub open spec fn done_count(views: Seq<ChunkView>) -> nat
    decreases views.len(),
{
    if views.len() == 0 {
        0
    } else {
        done_count(views.drop_last()) + if views.last().done {
            1nat
        } else {
            0nat
        }
    }
}

/// The active chunk of which the smallest part is done; of several the first.
pub open spec fn slowest(views: Seq<ChunkView>) -> Option<int>
    decreases views.len(),
{
    if views.len() == 0 {
        None
    } else {
        let before = slowest(views.drop_last());
        let c = views.last();
        if !c.spec_active() {
            before
        } else {
            match before {
                Some(k) => if c.slower_than(views[k]) {
                    Some(views.len() - 1)
                } else {
                    before
                },
                None => Some(views.len() - 1),
            }
        }
    }
}

/// `slower_than` orders the active chunks.
proof fn lemma_slower_order(a: ChunkView, b: ChunkView, c: ChunkView)
    requires
        a.length > 0,
        b.length > 0,
        c.length > 0,
        !b.slower_than(a),
        !c.slower_than(b),
    ensures
        !c.slower_than(a),
        a.slower_than(b) || b.slower_than(c) ==> a.slower_than(c),
{
    let (p, l) = (a.position as int, a.length as int);
    let (q, m) = (b.position as int, b.length as int);
    let (r, n) = (c.position as int, c.length as int);
    assert(p * n <= r * l) by (nonlinear_arith)
        requires
            l > 0,
            m > 0,
            n > 0,
            p * m <= q * l,
            q * n <= r * m,
    ;
    assert(p * m < q * l || q * n < r * m ==> p * n < r * l) by (nonlinear_arith)
        requires
            l > 0,
            m > 0,
            n > 0,
            p * m <= q * l,
            q * n <= r * m,
    ;
}

/// The slowest chunk is an active one; no active chunk is slower, and none before
/// it is as slow. There is one if and only if there is an active chunk.
pub proof fn law_slowest_is_the_least(views: Seq<ChunkView>)
    ensures
        match slowest(views) {
            Some(k) => {
                &&& 0 <= k < views.len()
                &&& views[k].spec_active()
                &&& forall|j: int|
                    0 <= j < views.len() && (#[trigger] views[j]).spec_active()
                        ==> !views[j].slower_than(views[k])
                &&& forall|j: int|
                    0 <= j < k && (#[trigger] views[j]).spec_active() ==> views[k].slower_than(
                        views[j],
                    )
            },
            None => forall|j: int| 0 <= j < views.len() ==> !(#[trigger] views[j]).spec_active(),
        },
        slowest(views) is Some <==> active_count(views) > 0,
    decreases views.len(),
{
    if views.len() > 0 {
        let head = views.drop_last();
        let c = views.last();
        let n = views.len() - 1;
        law_slowest_is_the_least(head);
        assert(forall|j: int| 0 <= j < n ==> head[j] == views[j]);
        assert(views[n] == c);
        match slowest(head) {
            Some(k) => {
                assert(head[k] == views[k]);
                if c.spec_active() && c.slower_than(views[k]) {
                    assert(c.position * views[k].length < views[k].position * c.length);
                    assert forall|j: int| 0 <= j < n && (
                    #[trigger] views[j]).spec_active() implies c.slower_than(views[j])
                        && !views[j].slower_than(c) by {
                        assert(head[j].spec_active());
                        assert(!head[j].slower_than(head[k]));
                        assert(!views[k].slower_than(c));
                        lemma_slower_order(c, views[k], views[j]);
                    }
                    assert(!c.slower_than(c));
                } else {
                    assert forall|j: int| 0 <= j < views.len() && (
                    #[trigger] views[j]).spec_active() implies !views[j].slower_than(
                        views[k],
                    ) by {
                        if j < n {
                            assert(head[j].spec_active());
                        }
                    }
                    assert forall|j: int| 0 <= j < k && (
                    #[trigger] views[j]).spec_active() implies views[k].slower_than(views[j]) by {
                        assert(head[j].spec_active());
                    }
                }
            },
            None => {
                assert(forall|j: int| 0 <= j < n ==> !(#[trigger] head[j]).spec_active());
                assert(forall|j: int| 0 <= j < n ==> !(#[trigger] views[j]).spec_active()) by {
                    assert forall|j: int| 0 <= j < n implies !(
                    #[trigger] views[j]).spec_active() by {
                        assert(!head[j].spec_active());
                    }
                }
                if c.spec_active() {
                    assert(!c.slower_than(c));
                }
            },
        }
    }
}

fn is_slower(a: &ChunkView, b: &ChunkView) -> (r: bool)
    ensures
        r == a.slower_than(*b),
{
    proof {
        assert(a.position * b.length <= 0xffff_ffff_ffff_ffff * 0xffff_ffff_ffff_ffff)
            by (nonlinear_arith)
            requires
                a.position <= 0xffff_ffff_ffff_ffff,
                b.length <= 0xffff_ffff_ffff_ffff,
        ;
        assert(b.position * a.length <= 0xffff_ffff_ffff_ffff * 0xffff_ffff_ffff_ffff)
            by (nonlinear_arith)
            requires
                b.position <= 0xffff_ffff_ffff_ffff,
                a.length <= 0xffff_ffff_ffff_ffff,
        ;
    }
    (a.position as u128) * (b.length as u128) < (b.position as u128) * (a.length as u128)
}

/// The number of active chunks, the number of those that are done, and the
/// slowest one.
pub fn survey(views: &Vec<ChunkView>) -> (r: (usize, usize, Option<usize>))
    ensures
        r.0 == active_count(views@),
        r.1 == done_count(views@),
        match r.2 {
            Some(k) => slowest(views@) == Some(k as int),
            None => slowest(views@) is None,
        },
        r.2 is Some ==> r.2->0 < views@.len(),
{
    let mut active: usize = 0;
    let mut done: usize = 0;
    let mut least: Option<usize> = None;
    for i in 0..views.len()
        invariant
            active <= i,
            done <= i,
            active == active_count(views@.take(i as int)),
            done == done_count(views@.take(i as int)),
            match least {
                Some(k) => k < i && slowest(views@.take(i as int)) == Some(k as int),
                None => slowest(views@.take(i as int)) is None,
            },
    {
        proof {
            let t = views@.take(i + 1);
            assert(t.drop_last() =~= views@.take(i as int));
            assert(t.last() == views@[i as int]);
        }
        let c: ChunkView = views[i];
        if c.done {
            done = done + 1;
        }
        if c.active() {
            active = active + 1;
            least = match least {
                Some(k) => if is_slower(&c, &views[k]) {
                    Some(i)
                } else {
                    Some(k)
                },
                None => Some(i),
            };
        }
    }
    assert(views@.take(views.len() as int) =~= views@);
    (active, done, least)
}

/// The list with chunk `i` behind all that it is not slower than.
pub open spec fn insert_chunk(list: Seq<usize>, views: Seq<ChunkView>, i: usize) -> Seq<usize>
    decreases list.len(),
{
    if list.len() == 0 || !views[i as int].slower_than(views[list.last() as int]) {
        list.push(i)
    } else {
        insert_chunk(list.drop_last(), views, i).push(list.last())
    }
}

/// The active ones of the first `n` chunks, the slowest first; of equally slow ones
/// in the order of their indexes.
pub open spec fn by_slowness(views: Seq<ChunkView>, n: nat) -> Seq<usize>
    decreases n,
{
    if n == 0 {
        Seq::empty()
    } else {
        let before = by_slowness(views, (n - 1) as nat);
        if views[n - 1].spec_active() {
            insert_chunk(before, views, (n - 1) as usize)
        } else {
            before
        }
    }
}

/// Whether chunk `a` goes before chunk `b`.
pub open spec fn goes_before(views: Seq<ChunkView>, a: usize, b: usize) -> bool {
    let (x, y) = (views[a as int], views[b as int]);
    x.slower_than(y) || (!y.slower_than(x) && a < b)
}

/// Whether these are active chunks with an index below `n`, each before the next.
pub open spec fn in_order(views: Seq<ChunkView>, list: Seq<usize>, n: nat) -> bool {
    &&& forall|k: int|
        0 <= k < list.len() ==> (#[trigger] list[k]) < n && views[list[k] as int].spec_active()
    &&& forall|j: int, k: int|
        0 <= j < k < list.len() ==> goes_before(views, #[trigger] list[j], #[trigger] list[k])
}

proof fn lemma_insert_chunk(list: Seq<usize>, views: Seq<ChunkView>, i: usize)
    requires
        in_order(views, list, i as nat),
        i < views.len(),
        views[i as int].spec_active(),
    ensures
        in_order(views, insert_chunk(list, views, i), i as nat + 1),
        forall|x: usize| #[trigger]
            insert_chunk(list, views, i).contains(x) <==> list.contains(x) || x == i,
    decreases list.len(),
{
    let r = insert_chunk(list, views, i);
    if list.len() == 0 || !views[i as int].slower_than(views[list.last() as int]) {
        assert forall|j: int, k: int| 0 <= j < k < r.len() implies goes_before(
            views,
            #[trigger] r[j],
            #[trigger] r[k],
        ) by {
            if k < list.len() {
                assert(r[j] == list[j] && r[k] == list[k]);
            } else {
                let last = list.len() - 1;
                assert(r[j] == list[j]);
                if j < last {
                    assert(goes_before(views, list[j], list[last]));
                    lemma_slower_order(
                        views[list[j] as int],
                        views[list[last] as int],
                        views[i as int],
                    );
                }
            }
        }
        assert forall|x: usize| #[trigger] r.contains(x) <==> list.contains(x) || x == i by {
            if list.contains(x) {
                let k = choose|k: int| 0 <= k < list.len() && list[k] == x;
                assert(r[k] == x);
            }
            if x == i {
                assert(r[list.len() as int] == x);
            }
            if r.contains(x) {
                let k = choose|k: int| 0 <= k < r.len() && r[k] == x;
                if k < list.len() {
                    assert(list[k] == x);
                }
            }
        }
    } else {
        let head = list.drop_last();
        let last = list.last();
        let q = insert_chunk(head, views, i);
        assert(in_order(views, head, i as nat)) by {
            assert forall|j: int, k: int| 0 <= j < k < head.len() implies goes_before(
                views,
                #[trigger] head[j],
                #[trigger] head[k],
            ) by {
                assert(head[j] == list[j] && head[k] == list[k]);
            }
        }
        lemma_insert_chunk(head, views, i);
        assert(last == list[list.len() - 1]);
        assert forall|k: int| 0 <= k < q.len() implies goes_before(
            views,
            #[trigger] q[k],
            last,
        ) by {
            assert(q.contains(q[k]));
            if q[k] != i {
                let m = choose|m: int| 0 <= m < head.len() && head[m] == q[k];
                assert(list[m] == q[k]);
            }
        }
        assert forall|j: int, k: int| 0 <= j < k < r.len() implies goes_before(
            views,
            #[trigger] r[j],
            #[trigger] r[k],
        ) by {
            assert(r[j] == q[j]);
            if k < q.len() {
                assert(r[k] == q[k]);
            }
        }
        assert forall|x: usize| #[trigger] r.contains(x) <==> list.contains(x) || x == i by {
            assert(q.contains(x) <==> head.contains(x) || x == i);
            if list.contains(x) {
                let k = choose|k: int| 0 <= k < list.len() && list[k] == x;
                if k < head.len() {
                    assert(head[k] == x);
                } else {
                    assert(r[q.len() as int] == x);
                }
            }
            if q.contains(x) {
                let k = choose|k: int| 0 <= k < q.len() && q[k] == x;
                assert(r[k] == x);
            }
            if r.contains(x) {
                let k = choose|k: int| 0 <= k < r.len() && r[k] == x;
                if k < q.len() {
                    assert(q[k] == x);
                }
            }
            if head.contains(x) {
                let k = choose|k: int| 0 <= k < head.len() && head[k] == x;
                assert(list[k] == x);
            }
        }
    }
}

/// The list by slowness holds the active chunks, each once and before every one
/// that is faster; the slowest chunk is its first.
pub proof fn law_slowest_first(views: Seq<ChunkView>, n: nat)
    requires
        n <= views.len(),
        views.len() <= usize::MAX,
    ensures
        in_order(views, by_slowness(views, n), n),
        forall|i: usize| #[trigger]
            by_slowness(views, n).contains(i) <==> i < n && views[i as int].spec_active(),
        n == views.len() && by_slowness(views, n).len() > 0 ==> slowest(views) == Some(
            by_slowness(views, n)[0] as int,
        ),
    decreases n,
{
    if n > 0 {
        law_slowest_first(views, (n - 1) as nat);
        if views[n - 1].spec_active() {
            lemma_insert_chunk(by_slowness(views, (n - 1) as nat), views, (n - 1) as usize);
        }
    }
    let list = by_slowness(views, n);
    if n == views.len() && list.len() > 0 {
        law_slowest_is_the_least(views);
        let o = list[0];
        assert(views[o as int].spec_active());
        let k = slowest(views)->0;
        assert(list.contains(k as usize));
        let m = choose|m: int| 0 <= m < list.len() && list[m] == k as usize;
        if m > 0 {
            assert(goes_before(views, list[0], list[m]));
        }
    }
}

/// The active chunks, the slowest first.
fn order_chunks(views: &Vec<ChunkView>) -> (r: Vec<usize>)
    ensures
        r@ == by_slowness(views@, views@.len()),
        forall|k: int| 0 <= k < r@.len() ==> (#[trigger] r@[k]) < views@.len(),
{
    let mut list: Vec<usize> = Vec::new();
    let n: usize = views.len();
    for i in 0..n
        invariant
            n == views@.len(),
            list@ == by_slowness(views@, i as nat),
            forall|k: int| 0 <= k < list@.len() ==> (#[trigger] list@[k]) < i,
    {
        if views[i].active() {
            let mut k: usize = list.len();
            let ghost before = list@;
            assert(before.take(k as int) =~= before);
            assert(insert_chunk(before, views@, i) + before.skip(k as int) =~= insert_chunk(
                before,
                views@,
                i,
            ));
            while k > 0 && is_slower(&views[i], &views[list[k - 1]])
                invariant
                    i < n,
                    n == views@.len(),
                    list@ == before,
                    k <= before.len(),
                    forall|j: int| 0 <= j < before.len() ==> (#[trigger] before[j]) < i,
                    insert_chunk(before, views@, i) == insert_chunk(
                        before.take(k as int),
                        views@,
                        i,
                    ) + before.skip(k as int),
                decreases k,
            {
                proof {
                    let t = before.take(k as int);
                    assert(t.last() == before[k - 1]);
                    assert(t.drop_last() =~= before.take(k - 1));
                    assert(insert_chunk(t, views@, i) + before.skip(k as int) =~= insert_chunk(
                        before.take(k - 1),
                        views@,
                        i,
                    ) + before.skip(k - 1));
                }
                k = k - 1;
            }
            proof {
                let t = before.take(k as int);
                assert(k > 0 ==> t.last() == before[k - 1]);
                assert(t.push(i) + before.skip(k as int) =~= before.insert(k as int, i));
            }
            list.insert(k, i);
        }
    }
    list
}

// ---------------------------------------------------------------------------
// Decisions on one chunk
// ---------------------------------------------------------------------------
/// What the supervisor notes of a chunk to see whether it hangs: a position and
/// when it was there.
pub type Mark = Option<(u64, u64)>;

/// The mark to compare with: the one that was noted, or what is seen now.
pub open spec fn base_mark(mark: Mark, view: ChunkView, now: u64) -> (u64, u64) {
    match mark {
        Some(m) => m,
        None => (view.position, now),
    }
}

/// Whether a chunk is told to restart because it hangs: it is active, was not
/// restarted and is not to be left alone, and since its mark, of `HUNG_NS` ago or
/// more, it has transferred less than `HUNG_BYTES`.
pub open spec fn hangs(mark: Mark, view: ChunkView, now: u64) -> bool {
    let m = base_mark(mark, view, now);
    &&& view.spec_active()
    &&& view.restarts == 0
    &&& !view.spec_cooling(now)
    &&& view.position < m.0 + HUNG_BYTES
    &&& now - m.1 >= HUNG_NS
}

/// The mark afterwards. It moves when enough was transferred, or on a restart.
pub open spec fn next_mark(mark: Mark, view: ChunkView, now: u64) -> Mark {
    let m = base_mark(mark, view, now);
    if !view.spec_active() || view.restarts > 0 {
        mark
    } else if view.position >= m.0 + HUNG_BYTES || hangs(mark, view, now) {
        Some((view.position, now))
    } else {
        Some(m)
    }
}

/// Looks whether a chunk hangs: the mark afterwards, and whether to restart it.
pub fn hung_step(mark: Mark, view: &ChunkView, now: u64) -> (r: (Mark, bool))
    ensures
        r.0 == next_mark(mark, *view, now),
        r.1 == hangs(mark, *view, now),
{
    if !view.active() || view.restarts >= 1 {
        return (mark, false);
    }
    let m: (u64, u64) = match mark {
        Some(m) => m,
        None => (view.position, now),
    };
    if view.position.saturating_sub(m.0) >= HUNG_BYTES {
        return (Some((view.position, now)), false);
    }
    if now.saturating_sub(m.1) < HUNG_NS || view.cooling(now) {
        return (Some(m), false);
    }
    (Some((view.position, now)), true)
}

/// Whether so many chunks are finished that one that lags can be restarted. In
/// aggressive mode at least half are done; else at most two are active and at
/// least one is done.
pub open spec fn may_restart_laggard(aggressive: bool, views: Seq<ChunkView>) -> bool {
    if aggressive {
        2 * done_count(views) >= views.len()
    } else {
        active_count(views) <= 2 && done_count(views) >= 1
    }
}

/// How long a chunk has to lag.
pub open spec fn lag_time(aggressive: bool) -> u64 {
    if aggressive {
        LAG_NS_AGGRESSIVE
    } else {
        LAG_NS
    }
}

/// Whether the slowest chunk is looked at as one that may lag.
pub open spec fn judged(aggressive: bool, views: Seq<ChunkView>, now: u64) -> bool {
    &&& slowest(views) is Some
    &&& may_restart_laggard(aggressive, views)
    &&& views[slowest(views)->0].restarts == 0
    &&& !views[slowest(views)->0].spec_cooling(now)
}

/// Whether less than half of a chunk is done.
pub open spec fn behind(view: ChunkView) -> bool {
    2 * view.position < view.length
}

/// When the lag of a chunk began that is behind.
pub open spec fn lag_start(since: Option<u64>, now: u64) -> u64 {
    match since {
        Some(t) => t,
        None => now,
    }
}

/// The chunk that is told to restart because it lags: the slowest one, if it is
/// behind and has been for long enough.
pub open spec fn laggard(
    aggressive: bool,
    since: Seq<Option<u64>>,
    views: Seq<ChunkView>,
    now: u64,
) -> Option<usize> {
    let k = slowest(views)->0;
    if judged(aggressive, views, now) && behind(views[k]) && now - lag_start(since[k], now)
        >= lag_time(aggressive) {
        Some(k as usize)
    } else {
        None
    }
}

/// Since when each chunk lags, after a look: that of the slowest one is noted, or
/// forgotten once it has caught up.
pub open spec fn lag_after(
    aggressive: bool,
    since: Seq<Option<u64>>,
    views: Seq<ChunkView>,
    now: u64,
) -> Seq<Option<u64>> {
    let k = slowest(views)->0;
    if !judged(aggressive, views, now) {
        since
    } else if behind(views[k]) {
        since.update(k, Some(lag_start(since[k], now)))
    } else {
        since.update(k, None)
    }
}

// ---------------------------------------------------------------------------
// The supervisor
// ---------------------------------------------------------------------------
/// What the supervisor remembers between two looks.
#[derive(Debug, Clone, PartialEq, Eq)]
pub struct Supervisor {
    pub aggressive: bool,
    /// Which chunks are shown as slow.
    pub highlighted: Vec<bool>,
    /// What was noted of each chunk to see whether it hangs.
    pub marks: Vec<Mark>,
    /// Since when each chunk lags.
    pub lagging_since: Vec<Option<u64>>,
    /// When the progress was saved.
    pub last_save: u64,
}

/// Whether a chunk is to be shown as slow: it is the slowest of several, and a
/// tenth of the download is there.
pub open spec fn shown_slow(
    views: Seq<ChunkView>,
    total: u64,
    content_length: u64,
    i: int,
) -> bool {
    10 * total >= content_length && active_count(views) >= 2 && slowest(views) == Some(i)
}

/// Whether the way that a chunk is shown may change: not when it is done, nor
/// while it is left alone after a restart.
pub open spec fn may_restyle(view: ChunkView, now: u64) -> bool {
    !view.done && !(view.restarts > 0 && view.spec_cooling(now))
}

/// The changes in how the first `n` chunks are shown.
pub open spec fn changes(
    highlighted: Seq<bool>,
    views: Seq<ChunkView>,
    now: u64,
    total: u64,
    content_length: u64,
    n: nat,
) -> Seq<(usize, bool)>
    decreases n,
{
    if n == 0 {
        Seq::empty()
    } else {
        let i = n - 1;
        let before = changes(highlighted, views, now, total, content_length, i as nat);
        let slow = shown_slow(views, total, content_length, i);
        if may_restyle(views[i], now) && slow != highlighted[i] {
            before.push((i as usize, slow))
        } else {
            before
        }
    }
}

/// Those chunks of the list that hang, in its order.
pub open spec fn hanging_of(
    list: Seq<usize>,
    marks: Seq<Mark>,
    views: Seq<ChunkView>,
    now: u64,
) -> Seq<usize>
    decreases list.len(),
{
    if list.len() == 0 {
        Seq::empty()
    } else {
        let before = hanging_of(list.drop_last(), marks, views, now);
        let i = list.last();
        if hangs(marks[i as int], views[i as int], now) {
            before.push(i)
        } else {
            before
        }
    }
}

/// The chunks that hang, the slowest first.
pub open spec fn hanging(marks: Seq<Mark>, views: Seq<ChunkView>, now: u64) -> Seq<usize> {
    hanging_of(by_slowness(views, views.len()), marks, views, now)
}

impl Supervisor {
    /// Whether it remembers something of each of `n` chunks.
    pub open spec fn watches(&self, n: nat) -> bool {
        self.highlighted@.len() == n && self.marks@.len() == n && self.lagging_since@.len() == n
    }

    /// A supervisor of `n` chunks, at the time `now`.
    pub fn new(n: usize, aggressive: bool, now: u64) -> (r: Supervisor)
        ensures
            r.watches(n as nat),
            r.aggressive == aggressive,
            r.last_save == now,
            forall|i: int| 0 <= i < n ==> !#[trigger] r.highlighted@[i],
            forall|i: int| 0 <= i < n ==> (#[trigger] r.marks@[i]) is None,
            forall|i: int| 0 <= i < n ==> (#[trigger] r.lagging_since@[i]) is None,
    {
        let mut highlighted: Vec<bool> = Vec::new();
        let mut marks: Vec<Mark> = Vec::new();
        let mut lagging_since: Vec<Option<u64>> = Vec::new();
        for i in 0..n
            invariant
                highlighted@.len() == i,
                marks@.len() == i,
                lagging_since@.len() == i,
                forall|j: int| 0 <= j < i ==> !#[trigger] highlighted@[j],
                forall|j: int| 0 <= j < i ==> (#[trigger] marks@[j]) is None,
                forall|j: int| 0 <= j < i ==> (#[trigger] lagging_since@[j]) is None,
        {
            highlighted.push(false);
            marks.push(None);
            lagging_since.push(None);
        }
        Supervisor { aggressive, highlighted, marks, lagging_since, last_save: now }
    }

    /// Whether it is time to save the progress.
    pub open spec fn spec_save_due(&self, now: u64) -> bool {
        now - self.last_save >= SAVE_NS
    }

    /// Whether it is time to save the progress. If so, this is noted.
    pub fn save_due(&mut self, now: u64) -> (r: bool)
        ensures
            r == old(self).spec_save_due(now),
            r == (now - old(self).last_save >= SAVE_NS),
            *final(self) == (Supervisor {
                last_save: if r {
                    now
                } else {
                    old(self).last_save
                },
                ..*old(self)
            }),
    {
        if now.saturating_sub(self.last_save) >= SAVE_NS {
            self.last_save = now;
            true
        } else {
            false
        }
    }

    /// The changes in how the chunks are shown: the index of a chunk, and whether
    /// it is now shown as slow.
    pub fn highlight(
        &mut self,
        now: u64,
        views: &Vec<ChunkView>,
        total: u64,
        content_length: u64,
    ) -> (r: Vec<(usize, bool)>)
        requires
            old(self).watches(views@.len()),
        ensures
            r@ == changes(
                old(self).highlighted@,
                views@,
                now,
                total,
                content_length,
                views@.len(),
            ),
            final(self).watches(views@.len()),
            forall|i: int|
                0 <= i < views@.len() ==> #[trigger] final(self).highlighted@[i] == (
                if may_restyle(views@[i], now) {
                    shown_slow(views@, total, content_length, i)
                } else {
                    old(self).highlighted@[i]
                }),
            final(self).marks == old(self).marks,
            final(self).lagging_since == old(self).lagging_since,
            final(self).aggressive == old(self).aggressive,
            final(self).last_save == old(self).last_save,
    {
        let (active, _done, least) = survey(views);
        let enough: bool = (total as u128) * 10 >= content_length as u128;
        let mut out: Vec<(usize, bool)> = Vec::new();
        let n: usize = views.len();
        let ghost before = *self;
        for i in 0..n
            invariant
                n == views@.len(),
                before.watches(n as nat),
                self.watches(n as nat),
                active == active_count(views@),
                enough == (10 * total >= content_length),
                match least {
                    Some(k) => slowest(views@) == Some(k as int),
                    None => slowest(views@) is None,
                },
                out@ == changes(
                    before.highlighted@,
                    views@,
                    now,
                    total,
                    content_length,
                    i as nat,
                ),
                forall|j: int|
                    0 <= j < i ==> #[trigger] self.highlighted@[j] == (if may_restyle(
                        views@[j],
                        now,
                    ) {
                        shown_slow(views@, total, content_length, j)
                    } else {
                        before.highlighted@[j]
                    }),
                forall|j: int|
                    i <= j < n ==> #[trigger] self.highlighted@[j] == before.highlighted@[j],
                self.marks == before.marks,
                self.lagging_since == before.lagging_since,
                self.aggressive == before.aggressive,
                self.last_save == before.last_save,
        {
            let c: ChunkView = views[i];
            let slow: bool = enough && active >= 2 && match least {
                Some(k) => k == i,
                None => false,
            };
            assert(slow == shown_slow(views@, total, content_length, i as int));
            if !c.done && !(c.restarts > 0 && c.cooling(now)) && slow != self.highlighted[i] {
                out.push((i, slow));
                self.highlighted.set(i, slow);
            }
        }
        out
    }

    /// The chunks to restart because they hang.
    pub fn hung(&mut self, now: u64, views: &Vec<ChunkView>) -> (r: Vec<usize>)
        requires
            old(self).watches(views@.len()),
        ensures
            r@ == hanging(old(self).marks@, views@, now),
            final(self).watches(views@.len()),
            forall|i: int|
                0 <= i < views@.len() ==> #[trigger] final(self).marks@[i] == next_mark(
                    old(self).marks@[i],
                    views@[i],
                    now,
                ),
            final(self).highlighted == old(self).highlighted,
            final(self).lagging_since == old(self).lagging_since,
            final(self).aggressive == old(self).aggressive,
            final(self).last_save == old(self).last_save,
    {
        let order: Vec<usize> = order_chunks(views);
        let mut stuck: Vec<bool> = Vec::new();
        let n: usize = views.len();
        let ghost before = *self;
        for i in 0..n
            invariant
                n == views@.len(),
                before.watches(n as nat),
                self.watches(n as nat),
                stuck@.len() == i,
                forall|j: int|
                    0 <= j < i ==> #[trigger] stuck@[j] == hangs(before.marks@[j], views@[j], now),
                forall|j: int|
                    0 <= j < i ==> #[trigger] self.marks@[j] == next_mark(
                        before.marks@[j],
                        views@[j],
                        now,
                    ),
                forall|j: int| i <= j < n ==> #[trigger] self.marks@[j] == before.marks@[j],
                self.highlighted == before.highlighted,
                self.lagging_since == before.lagging_since,
                self.aggressive == before.aggressive,
                self.last_save == before.last_save,
        {
            let (mark, restart) = hung_step(self.marks[i], &views[i], now);
            self.marks.set(i, mark);
            stuck.push(restart);
        }
        let mut out: Vec<usize> = Vec::new();
        for k in 0..order.len()
            invariant
                n == views@.len(),
                stuck@.len() == n,
                forall|j: int|
                    0 <= j < n ==> #[trigger] stuck@[j] == hangs(before.marks@[j], views@[j], now),
                forall|j: int| 0 <= j < order@.len() ==> (#[trigger] order@[j]) < n,
                out@ == hanging_of(order@.take(k as int), before.marks@, views@, now),
        {
            proof {
                assert(order@.take(k + 1).drop_last() =~= order@.take(k as int));
                assert(order@.take(k + 1).last() == order@[k as int]);
            }
            let i: usize = order[k];
            if stuck[i] {
                out.push(i);
            }
        }
        assert(order@.take(order.len() as int) =~= order@);
        out
    }

    /// The chunk to restart because it lags, if there is one.
    pub fn lagging(&mut self, now: u64, views: &Vec<ChunkView>) -> (r: Option<usize>)
        requires
            old(self).watches(views@.len()),
        ensures
            r == laggard(old(self).aggressive, old(self).lagging_since@, views@, now),
            final(self).lagging_since@ == lag_after(
                old(self).aggressive,
                old(self).lagging_since@,
                views@,
                now,
            ),
            final(self).watches(views@.len()),
            final(self).highlighted == old(self).highlighted,
            final(self).marks == old(self).marks,
            final(self).aggressive == old(self).aggressive,
            final(self).last_save == old(self).last_save,
    {
        let (active, done, least) = survey(views);
        let k: usize = match least {
            Some(k) => k,
            None => {
                return None;
            },
        };
        let open: bool = if self.aggressive {
            done as u128 * 2 >= views.len() as u128
        } else {
            active <= 2 && done >= 1
        };
        let c: ChunkView = views[k];
        if !open || c.restarts >= 1 || c.cooling(now) {
            return None;
        }
        if c.position as u128 * 2 < c.length as u128 {
            let since: u64 = match self.lagging_since[k] {
                Some(t) => t,
                None => now,
            };
            self.lagging_since.set(k, Some(since));
            let limit: u64 = if self.aggressive {
                LAG_NS_AGGRESSIVE
            } else {
                LAG_NS
            };
            if now.saturating_sub(since) >= limit {
                Some(k)
            } else {
                None
            }
        } else {
            self.lagging_since.set(k, None);
            None
        }
    }
}

/// What is to be done after a look at the chunks.
#[derive(Debug, Clone, PartialEq, Eq)]
pub struct TickActions {
    /// Whether the progress is saved.
    pub save: bool,
    /// Which chunks are shown otherwise than before, and whether as slow.
    pub restyle: Vec<(usize, bool)>,
    /// The chunks that are told to restart because they hang.
    pub hung: Vec<usize>,
    /// The chunk that is told to restart because it lags.
    pub lagging: Option<usize>,
}

impl TickActions {
    /// Whether a chunk is told to restart.
    pub open spec fn restarts(&self, i: int) -> bool {
        self.hung@.contains(i as usize) || self.lagging == Some(i as usize)
    }
}

impl Supervisor {
    /// Looks at the chunks. `total` bytes of the file are there; the progress is
    /// saved only where `saving` allows it.
    pub fn tick(
        &mut self,
        now: u64,
        views: &Vec<ChunkView>,
        total: u64,
        content_length: u64,
        saving: bool,
    ) -> (r: TickActions)
        requires
            old(self).watches(views@.len()),
        ensures
            r.save == (saving && old(self).spec_save_due(now)),
            r.save == (saving && now - old(self).last_save >= SAVE_NS),
            r.restyle@ == changes(
                old(self).highlighted@,
                views@,
                now,
                total,
                content_length,
                views@.len(),
            ),
            r.hung@ == hanging(old(self).marks@, views@, now),
            r.lagging == laggard(old(self).aggressive, old(self).lagging_since@, views@, now),
            final(self).watches(views@.len()),
            final(self).aggressive == old(self).aggressive,
            final(self).last_save == (if r.save {
                now
            } else {
                old(self).last_save
            }),
            forall|i: int|
                0 <= i < views@.len() ==> #[trigger] final(self).highlighted@[i] == (
                if may_restyle(views@[i], now) {
                    shown_slow(views@, total, content_length, i)
                } else {
                    old(self).highlighted@[i]
                }),
            forall|i: int|
                0 <= i < views@.len() ==> #[trigger] final(self).marks@[i] == next_mark(
                    old(self).marks@[i],
                    views@[i],
                    now,
                ),
            final(self).lagging_since@ == lag_after(
                old(self).aggressive,
                old(self).lagging_since@,
                views@,
                now,
            ),
            forall|i: int|
                0 <= i < views@.len() && #[trigger] r.restarts(i) ==> views@[i].spec_active()
                    && views@[i].restarts == 0 && !views@[i].spec_cooling(now),
    {
        let save: bool = saving && self.save_due(now);
        let restyle: Vec<(usize, bool)> = self.highlight(now, views, total, content_length);
        let ghost marks = self.marks@;
        let hung: Vec<usize> = self.hung(now, views);
        let lagging: Option<usize> = self.lagging(now, views);
        let n: usize = views.len();
        proof {
            assert forall|i: int| 0 <= i < n && hung@.contains(i as usize) implies hangs(
                marks[i],
                views@[i],
                now,
            ) by {
                law_hung_chunks_are_restarted(marks, views@, now, i as usize);
            }
            law_slowest_is_the_least(views@);
            assert(lagging is Some ==> lagging->0 == slowest(views@)->0);
        }
        let r: TickActions = TickActions { save, restyle, hung, lagging };
        proof {
            assert forall|i: int| 0 <= i < n && #[trigger] r.restarts(
                i,
            ) implies views@[i].spec_active() && views@[i].restarts == 0
                && !views@[i].spec_cooling(now) by {
                if hung@.contains(i as usize) {
                    assert(hangs(marks[i], views@[i], now));
                } else {
                    assert(lagging->0 == i);
                }
            }
        }
        r
    }
}

// ---------------------------------------------------------------------------
// Laws of restarting
// ---------------------------------------------------------------------------
proof fn lemma_hanging_of(
    list: Seq<usize>,
    marks: Seq<Mark>,
    views: Seq<ChunkView>,
    now: u64,
    i: usize,
)
    ensures
        hanging_of(list, marks, views, now).contains(i) <==> list.contains(i) && hangs(
            marks[i as int],
            views[i as int],
            now,
        ),
    decreases list.len(),
{
    if list.len() > 0 {
        let head = list.drop_last();
        let before = hanging_of(head, marks, views, now);
        let all = hanging_of(list, marks, views, now);
        lemma_hanging_of(head, marks, views, now, i);
        if head.contains(i) {
            let k = choose|k: int| 0 <= k < head.len() && head[k] == i;
            assert(list[k] == i);
        }
        if list.contains(i) && list.last() != i {
            let k = choose|k: int| 0 <= k < list.len() && list[k] == i;
            assert(head[k] == i);
        }
        if list.last() == i {
            assert(list[list.len() - 1] == i);
        }
        if before.contains(i) {
            let k = choose|k: int| 0 <= k < before.len() && before[k] == i;
            assert(all[k] == i);
        }
        if all.contains(i) {
            let k = choose|k: int| 0 <= k < all.len() && all[k] == i;
            if k < before.len() {
                assert(before[k] == i);
            }
        }
        if list.last() == i && hangs(marks[i as int], views[i as int], now) {
            assert(all[before.len() as int] == i);
        }
    }
}

/// A chunk is told to restart because it hangs if and only if it does: it is
/// active, was never restarted, is not to be left alone, and has transferred too
/// little for too long.
pub proof fn law_hung_chunks_are_restarted(
    marks: Seq<Mark>,
    views: Seq<ChunkView>,
    now: u64,
    i: usize,
)
    requires
        views.len() <= usize::MAX,
    ensures
        hanging(marks, views, now).contains(i) <==> i < views.len() && hangs(
            marks[i as int],
            views[i as int],
            now,
        ),
{
    law_slowest_first(views, views.len());
    lemma_hanging_of(by_slowness(views, views.len()), marks, views, now, i);
}

/// A chunk is told to restart because it lags only where the conditions of the
/// mode hold: it is the slowest one, less than half done, and was never
/// restarted.
pub proof fn law_lag_restart_conditions(aggressive: bool, views: Seq<ChunkView>, now: u64)
    requires
        judged(aggressive, views, now),
        behind(views[slowest(views)->0]),
    ensures
        ({
            let c = views[slowest(views)->0];
            &&& c.spec_active()
            &&& c.restarts == 0
            &&& !c.spec_cooling(now)
            &&& 2 * c.position < c.length
            &&& !aggressive ==> active_count(views) <= 2 && done_count(views) >= 1
            &&& aggressive ==> 2 * done_count(views) >= views.len()
            &&& forall|j: int|
                0 <= j < views.len() && (#[trigger] views[j]).spec_active()
                    ==> !views[j].slower_than(c)
        }),
{
    law_slowest_is_the_least(views);
}

/// A chunk that has moved on by enough bytes since its mark is not told to
/// restart, and is marked anew.
pub proof fn law_moving_chunk_is_left_alone(mark: Mark, view: ChunkView, now: u64)
    requires
        view.spec_active(),
        view.restarts == 0,
        mark is Some,
        view.position >= (mark->0).0 + HUNG_BYTES,
    ensures
        !hangs(mark, view, now),
        next_mark(mark, view, now) == Some((view.position, now)),
{
}

} // verus!
