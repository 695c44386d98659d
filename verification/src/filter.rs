//! Filtering fish by a search query, with a per-minute cache of next windows.
use std::collections::HashMap;
use vstd::prelude::*;
use crate::fish::{Fish, FishData, FishWindow, callable, deterministic, patch_text};
use crate::text::{contains, lowercase, occurs_in, to_lowercase};

verus! {

broadcast use vstd::std_specs::hash::group_hash_axioms;

/// Which side of the threshold an uptime must lie on.
#[derive(Debug, Clone, Copy, PartialEq, Eq, Structural)]
pub enum UptimeOp {
    Greater,
    Less,
}

/// One condition of a search query.
///
/// Text is held lower-case.  The uptime threshold is given in the same
/// ordering terms as `Fish::uptime_key`.  `Within` holds a number of seconds.
#[derive(Debug, Clone, PartialEq)]
pub enum Clause {
    Name(String),
    Zone(String),
    Patch(String),
    Uptime { op: UptimeOp, threshold: i64 },
    Within(u64),
}

/// What a clause says, with its text as characters.
pub enum ClauseView {
    Name(Seq<char>),
    Zone(Seq<char>),
    Patch(Seq<char>),
    Uptime { op: UptimeOp, threshold: i64 },
    Within(u64),
}

impl View for Clause {
    type V = ClauseView;

    open spec fn view(&self) -> ClauseView {
        match self {
            Clause::Name(q) => ClauseView::Name(q@),
            Clause::Zone(q) => ClauseView::Zone(q@),
            Clause::Patch(q) => ClauseView::Patch(q@),
            Clause::Uptime { op, threshold } => ClauseView::Uptime { op: *op, threshold: *threshold },
            Clause::Within(secs) => ClauseView::Within(*secs),
        }
    }
}

/// A search query: every clause must hold.
#[derive(Debug, Clone, PartialEq)]
pub struct Query {
    clauses: Vec<Clause>,
}

impl Query {
    pub fn new(clauses: Vec<Clause>) -> (q: Query)
        ensures
            q.clause_seq() == clauses@,
    {
        Query { clauses }
    }

    pub closed spec fn clause_seq(&self) -> Seq<Clause> {
        self.clauses@
    }

    pub fn clauses(&self) -> (c: &[Clause])
        ensures
            c@ == self.clause_seq(),
    {
        self.clauses.as_slice()
    }
}

impl Default for Query {
    fn default() -> (q: Query)
        ensures
            q.clause_seq() == Seq::<Clause>::empty(),
    {
        Query { clauses: Vec::new() }
    }
}

/// The cache's view: the minute it holds answers for, and the answers by key.
pub type CacheView = (u64, Map<u64, Option<FishWindow>>);

/// Remembers, for the current minute, the next window found for each fish and
/// fish-eyes setting.
pub struct NextWindowCache {
    bucket: u64,
    entries: HashMap<u64, Option<FishWindow>>,
}

impl View for NextWindowCache {
    type V = CacheView;

    closed spec fn view(&self) -> CacheView {
        (self.bucket, self.entries@)
    }
}

impl Default for NextWindowCache {
    fn default() -> (c: NextWindowCache)
        ensures
            c@ == (0u64, Map::<u64, Option<FishWindow>>::empty()),
    {
        NextWindowCache::new()
    }
}

/// The minute a moment falls in.
pub open spec fn bucket_of(now: u64) -> u64 {
    now / 60
}

/// The cache key of a fish and fish-eyes setting.
pub open spec fn cache_key(fish_id: u32, use_fish_eyes: bool) -> u64 {
    (fish_id as int * 2 + if use_fish_eyes {
        1int
    } else {
        0int
    }) as u64
}

/// The answers of a cache that still hold at `now`: all of them within the
/// cached minute, none in another.
pub open spec fn live_entries(cache: CacheView, now: u64) -> Map<u64, Option<FishWindow>> {
    if cache.0 == bucket_of(now) {
        cache.1
    } else {
        Map::empty()
    }
}

/// `r` is what `next_window` may report as the next window, from `now`, of the
/// fish with the given id (none when no fish has it).  Windows in progress
/// are included and intuition is filtered.
pub open spec fn computed_window<F: Fn(&Fish, u64, bool, bool, bool) -> Option<FishWindow>>(
    next_window: F,
    data: &FishData,
    fish_id: u32,
    now: u64,
    use_fish_eyes: bool,
    r: Option<FishWindow>,
) -> bool {
    match data.fish_with_id(fish_id) {
        Some(fish) => next_window.ensures((&fish, now, true, true, use_fish_eyes), r),
        None => r is None,
    }
}

/// One lookup in the cache took it from `old` to `new` and answered `r`: the
/// cache now holds the minute of `now`; an answer it still held for the key
/// is given back unchanged; otherwise `r` is what `next_window` reports for
/// the fish and is stored.
pub open spec fn lookup_step<F: Fn(&Fish, u64, bool, bool, bool) -> Option<FishWindow>>(
    next_window: F,
    data: &FishData,
    old: CacheView,
    fish_id: u32,
    now: u64,
    use_fish_eyes: bool,
    new: CacheView,
    r: Option<FishWindow>,
) -> bool {
    let live = live_entries(old, now);
    let key = cache_key(fish_id, use_fish_eyes);
    &&& new.0 == bucket_of(now)
    &&& if live.contains_key(key) {
        r == live[key] && new.1 == live
    } else {
        new.1 == live.insert(key, r) && computed_window(
            next_window,
            data,
            fish_id,
            now,
            use_fish_eyes,
            r,
        )
    }
}

fn key_of(fish_id: u32, use_fish_eyes: bool) -> (k: u64)
    ensures
        k == cache_key(fish_id, use_fish_eyes),
{
    fish_id as u64 * 2 + if use_fish_eyes {
        1
    } else {
        0
    }
}

impl NextWindowCache {
    pub fn new() -> (c: NextWindowCache)
        ensures
            c@ == (0u64, Map::<u64, Option<FishWindow>>::empty()),
    {
        NextWindowCache { bucket: 0, entries: HashMap::new() }
    }

    fn bucket_for(now: u64) -> (b: u64)
        ensures
            b == bucket_of(now),
    {
        now / 60
    }

    /// The next window of the fish with id `fish_id` from `now`, as
    /// `next_window` finds it (windows in progress included, intuition
    /// filtered), answered from the cache when this minute already asked it.
    ///
    /// Entering a new minute forgets every earlier answer.
    pub fn next_window<F: Fn(&Fish, u64, bool, bool, bool) -> Option<FishWindow>>(
        &mut self,
        fish_data: &FishData,
        fish_id: u32,
        now: u64,
        use_fish_eyes: bool,
        next_window: &F,
    ) -> (r: Option<FishWindow>)
        requires
            callable(*next_window),
        ensures
            lookup_step(
                *next_window,
                fish_data,
                old(self)@,
                fish_id,
                now,
                use_fish_eyes,
                final(self)@,
                r,
            ),
    {
        let bucket = Self::bucket_for(now);
        if bucket != self.bucket {
            self.bucket = bucket;
            self.entries.clear();
        }
        let key = key_of(fish_id, use_fish_eyes);
        if let Some(cached) = self.entries.get(&key) {
            return *cached;
        }
        let window = match fish_data.fish_by_id(fish_id) {
            Some(fish) => next_window(fish, now, true, true, use_fish_eyes),
            None => None,
        };
        self.entries.insert(key, window);
        window
    }
}

/// The next window that a deterministic `next_window` finds for the fish with
/// the given id.
pub open spec fn found_window<F: Fn(&Fish, u64, bool, bool, bool) -> Option<FishWindow>>(
    next_window: F,
    data: &FishData,
    fish_id: u32,
    now: u64,
    use_fish_eyes: bool,
) -> Option<FishWindow> {
    choose|r: Option<FishWindow>|
        computed_window(next_window, data, fish_id, now, use_fish_eyes, r)
}

/// A lookup in the cache: the new view of the cache and the window answered.
pub open spec fn cache_step<F: Fn(&Fish, u64, bool, bool, bool) -> Option<FishWindow>>(
    next_window: F,
    data: &FishData,
    cache: CacheView,
    fish_id: u32,
    now: u64,
    use_fish_eyes: bool,
) -> (CacheView, Option<FishWindow>) {
    let live = live_entries(cache, now);
    let key = cache_key(fish_id, use_fish_eyes);
    if live.contains_key(key) {
        ((bucket_of(now), live), live[key])
    } else {
        let r = found_window(next_window, data, fish_id, now, use_fish_eyes);
        ((bucket_of(now), live.insert(key, r)), r)
    }
}

/// A deterministic `next_window` reports exactly the found window.
pub proof fn lemma_found_window_unique<F: Fn(&Fish, u64, bool, bool, bool) -> Option<FishWindow>>(
    next_window: F,
    data: &FishData,
    fish_id: u32,
    now: u64,
    use_fish_eyes: bool,
    r: Option<FishWindow>,
)
    requires
        deterministic(next_window),
        computed_window(next_window, data, fish_id, now, use_fish_eyes, r),
    ensures
        found_window(next_window, data, fish_id, now, use_fish_eyes) == r,
{
    let c = found_window(next_window, data, fish_id, now, use_fish_eyes);
    assert(computed_window(next_window, data, fish_id, now, use_fish_eyes, c));
    match data.fish_with_id(fish_id) {
        Some(fish) => {
            assert(next_window.ensures((&fish, now, true, true, use_fish_eyes), c));
            assert(next_window.ensures((&fish, now, true, true, use_fish_eyes), r));
        },
        None => {},
    }
}

/// `now` plus `secs`, held at the largest `u64` (saturating addition).
pub open spec fn horizon(now: u64, secs: u64) -> int {
    if now + secs <= u64::MAX {
        now + secs
    } else {
        u64::MAX as int
    }
}

/// Whether a clause other than `Within` holds of a fish.
pub open spec fn static_clause_holds(clause: Clause, fish: Fish) -> bool {
    match clause {
        Clause::Name(q) => occurs_in(lowercase(fish.name@), q@),
        Clause::Zone(q) => occurs_in(lowercase(fish.region_name@), q@) || occurs_in(
            lowercase(fish.location_name@),
            q@,
        ),
        Clause::Patch(q) => occurs_in(patch_text(fish.patch), q@),
        Clause::Uptime { op, threshold } => match op {
            UptimeOp::Greater => fish.uptime_key > threshold,
            UptimeOp::Less => fish.uptime_key < threshold,
        },
        Clause::Within(_) => true,
    }
}

/// A window answered for a `Within` clause meets it: it starts by the horizon
/// and has not ended by `now`.
pub open spec fn window_meets(r: Option<FishWindow>, now: u64, secs: u64) -> bool {
    match r {
        Some(w) => w.start_secs() <= horizon(now, secs) && w.end_secs() > now,
        None => false,
    }
}

/// Checking one clause against a fish: whether it holds, and the cache after.
pub open spec fn clause_step<F: Fn(&Fish, u64, bool, bool, bool) -> Option<FishWindow>>(
    next_window: F,
    data: &FishData,
    clause: Clause,
    fish: Fish,
    cache: CacheView,
    now: u64,
    use_fish_eyes: bool,
) -> (bool, CacheView) {
    match clause {
        Clause::Within(secs) => {
            let (c, r) = cache_step(next_window, data, cache, fish.id, now, use_fish_eyes);
            (window_meets(r, now, secs), c)
        },
        _ => (static_clause_holds(clause, fish), cache),
    }
}

/// Checking the clauses in order, stopping at the first that fails: whether
/// all hold, and the cache after.
pub open spec fn clauses_step<F: Fn(&Fish, u64, bool, bool, bool) -> Option<FishWindow>>(
    next_window: F,
    data: &FishData,
    clauses: Seq<Clause>,
    fish: Fish,
    cache: CacheView,
    now: u64,
    use_fish_eyes: bool,
) -> (bool, CacheView)
    decreases clauses.len(),
{
    if clauses.len() == 0 {
        (true, cache)
    } else {
        let (ok, c) = clause_step(next_window, data, clauses[0], fish, cache, now, use_fish_eyes);
        if !ok {
            (false, c)
        } else {
            clauses_step(next_window, data, clauses.drop_first(), fish, c, now, use_fish_eyes)
        }
    }
}

/// Filtering the fish in order: the ids of those that match every clause, and
/// the cache after.
pub open spec fn filter_step<F: Fn(&Fish, u64, bool, bool, bool) -> Option<FishWindow>>(
    next_window: F,
    data: &FishData,
    fishes: Seq<Fish>,
    clauses: Seq<Clause>,
    cache: CacheView,
    now: u64,
    use_fish_eyes: bool,
) -> (Seq<u32>, CacheView)
    decreases fishes.len(),
{
    if fishes.len() == 0 {
        (Seq::empty(), cache)
    } else {
        let (ok, c) = clauses_step(next_window, data, clauses, fishes[0], cache, now, use_fish_eyes);
        let (rest, c2) = filter_step(
            next_window,
            data,
            fishes.drop_first(),
            clauses,
            c,
            now,
            use_fish_eyes,
        );
        (if ok {
            seq![fishes[0].id] + rest
        } else {
            rest
        }, c2)
    }
}

fn matches_clause<F: Fn(&Fish, u64, bool, bool, bool) -> Option<FishWindow>>(
    clause: &Clause,
    fish: &Fish,
    now: u64,
    use_fish_eyes: bool,
    cache: &mut NextWindowCache,
    fish_data: &FishData,
    next_window: &F,
) -> (b: bool)
    requires
        callable(*next_window),
        deterministic(*next_window),
    ensures
        (b, final(cache)@) == clause_step(
            *next_window,
            fish_data,
            *clause,
            *fish,
            old(cache)@,
            now,
            use_fish_eyes,
        ),
{
    match clause {
        Clause::Name(query) => {
            let name = to_lowercase(fish.name.as_str());
            contains(name.as_str(), query.as_str())
        },
        Clause::Zone(query) => {
            let region = to_lowercase(fish.region_name.as_str());
            let location = to_lowercase(fish.location_name.as_str());
            contains(region.as_str(), query.as_str()) || contains(location.as_str(), query.as_str())
        },
        Clause::Patch(query) => {
            let patch = fish.patch_string();
            contains(patch.as_str(), query.as_str())
        },
        Clause::Uptime { op, threshold } => {
            let uptime = fish.uptime_key;
            match op {
                UptimeOp::Greater => uptime > *threshold,
                UptimeOp::Less => uptime < *threshold,
            }
        },
        Clause::Within(secs) => {
            let horizon = now.saturating_add(*secs);
            let now_secs = now;
            let found = cache.next_window(fish_data, fish.id, now, use_fish_eyes, next_window);
            proof {
                let live = live_entries(old(cache)@, now);
                if !live.contains_key(cache_key(fish.id, use_fish_eyes)) {
                    lemma_found_window_unique(
                        *next_window,
                        fish_data,
                        fish.id,
                        now,
                        use_fish_eyes,
                        found,
                    );
                }
            }
            match found {
                Some(window) => window.start() <= horizon && window.end() > now_secs,
                None => false,
            }
        },
    }
}

/// No clause of the query asks about the next window.
pub open spec fn no_within(clauses: Seq<Clause>) -> bool {
    forall|k: int| 0 <= k < clauses.len() ==> !(#[trigger] clauses[k] is Within)
}

/// Every clause other than `Within` holds of the fish.
pub open spec fn static_clauses_hold(clauses: Seq<Clause>, fish: Fish) -> bool {
    forall|k: int| 0 <= k < clauses.len() ==> #[trigger] static_clause_holds(clauses[k], fish)
}

/// The ids, in order, of the fish of which every clause other than `Within`
/// holds.
pub open spec fn static_matches(fishes: Seq<Fish>, clauses: Seq<Clause>) -> Seq<u32>
    decreases fishes.len(),
{
    if fishes.len() == 0 {
        Seq::empty()
    } else {
        let rest = static_matches(fishes.drop_first(), clauses);
        if static_clauses_hold(clauses, fishes[0]) {
            seq![fishes[0].id] + rest
        } else {
            rest
        }
    }
}

proof fn lemma_clauses_step_static<F: Fn(&Fish, u64, bool, bool, bool) -> Option<FishWindow>>(
    next_window: F,
    data: &FishData,
    clauses: Seq<Clause>,
    fish: Fish,
    cache: CacheView,
    now: u64,
    use_fish_eyes: bool,
)
    ensures
        clauses_step(next_window, data, clauses, fish, cache, now, use_fish_eyes).0
            ==> static_clauses_hold(clauses, fish),
        no_within(clauses) ==> clauses_step(
            next_window,
            data,
            clauses,
            fish,
            cache,
            now,
            use_fish_eyes,
        ) == (static_clauses_hold(clauses, fish), cache),
    decreases clauses.len(),
{
    if clauses.len() > 0 {
        let (ok, c) = clause_step(next_window, data, clauses[0], fish, cache, now, use_fish_eyes);
        let tail = clauses.drop_first();
        lemma_clauses_step_static(next_window, data, tail, fish, c, now, use_fish_eyes);
        assert forall|k: int| 0 <= k < tail.len() implies tail[k] == clauses[k + 1] by {}
        if no_within(clauses) {
            assert(!(clauses[0] is Within));
            assert(no_within(tail)) by {
                assert forall|k: int| 0 <= k < tail.len() implies !(#[trigger] tail[k] is Within) by {
                    assert(tail[k] == clauses[k + 1]);
                }
            }
        }
        if static_clauses_hold(clauses, fish) {
            assert(static_clause_holds(clauses[0], fish));
            assert(static_clauses_hold(tail, fish)) by {
                assert forall|k: int| 0 <= k < tail.len() implies #[trigger] static_clause_holds(
                    tail[k],
                    fish,
                ) by {
                    assert(static_clause_holds(clauses[k + 1], fish));
                }
            }
        }
        if ok && static_clauses_hold(tail, fish) && static_clause_holds(clauses[0], fish) {
            assert forall|k: int| 0 <= k < clauses.len() implies #[trigger] static_clause_holds(
                clauses[k],
                fish,
            ) by {
                if k > 0 {
                    assert(clauses[k] == tail[k - 1]);
                }
            }
        }
        if !static_clause_holds(clauses[0], fish) {
            assert(!static_clauses_hold(clauses, fish));
        }
    }
}

/// A query without `Within` clauses needs no next window: filtering gives
/// exactly the fish of which every clause holds, and leaves the cache as it
/// was.
pub proof fn lemma_filter_without_within<F: Fn(&Fish, u64, bool, bool, bool) -> Option<FishWindow>>(
    next_window: F,
    data: &FishData,
    fishes: Seq<Fish>,
    clauses: Seq<Clause>,
    cache: CacheView,
    now: u64,
    use_fish_eyes: bool,
)
    requires
        no_within(clauses),
    ensures
        filter_step(next_window, data, fishes, clauses, cache, now, use_fish_eyes) == (
            static_matches(fishes, clauses),
            cache,
        ),
    decreases fishes.len(),
{
    if fishes.len() > 0 {
        lemma_clauses_step_static(next_window, data, clauses, fishes[0], cache, now, use_fish_eyes);
        lemma_filter_without_within(
            next_window,
            data,
            fishes.drop_first(),
            clauses,
            cache,
            now,
            use_fish_eyes,
        );
    }
}

/// Every id that filtering returns is that of a fish in the list of which
/// every clause other than `Within` holds; the ids come in the order of the
/// list.
pub proof fn lemma_filter_sound<F: Fn(&Fish, u64, bool, bool, bool) -> Option<FishWindow>>(
    next_window: F,
    data: &FishData,
    fishes: Seq<Fish>,
    clauses: Seq<Clause>,
    cache: CacheView,
    now: u64,
    use_fish_eyes: bool,
)
    ensures
        ({
            let ids = filter_step(next_window, data, fishes, clauses, cache, now, use_fish_eyes).0;
            exists|pos: Seq<int>|
                {
                    &&& #[trigger] pos.len() == ids.len()
                    &&& forall|i: int, j: int| 0 <= i < j < pos.len() ==> pos[i] < pos[j]
                    &&& forall|i: int|
                        #![trigger pos[i]]
                        0 <= i < pos.len() ==> 0 <= pos[i] < fishes.len() && fishes[pos[i]].id
                            == ids[i] && static_clauses_hold(clauses, fishes[pos[i]])
                }
        }),
    decreases fishes.len(),
{
    let ids = filter_step(next_window, data, fishes, clauses, cache, now, use_fish_eyes).0;
    if fishes.len() == 0 {
        assert(Seq::<int>::empty().len() == ids.len());
    } else {
        let (ok, c) = clauses_step(next_window, data, clauses, fishes[0], cache, now, use_fish_eyes);
        lemma_clauses_step_static(next_window, data, clauses, fishes[0], cache, now, use_fish_eyes);
        let tail = fishes.drop_first();
        lemma_filter_sound(next_window, data, tail, clauses, c, now, use_fish_eyes);
        let rest = filter_step(next_window, data, tail, clauses, c, now, use_fish_eyes).0;
        let p = choose|pos: Seq<int>|
            {
                &&& #[trigger] pos.len() == rest.len()
                &&& forall|i: int, j: int| 0 <= i < j < pos.len() ==> pos[i] < pos[j]
                &&& forall|i: int|
                    #![trigger pos[i]]
                    0 <= i < pos.len() ==> 0 <= pos[i] < tail.len() && tail[pos[i]].id == rest[i]
                        && static_clauses_hold(clauses, tail[pos[i]])
            };
        let shifted = p.map_values(|x: int| x + 1);
        if ok {
            let q = seq![0int] + shifted;
            assert(ids =~= seq![fishes[0].id] + rest);
            assert forall|i: int| #![trigger q[i]] 0 <= i < q.len() implies 0 <= q[i] < fishes.len()
                && fishes[q[i]].id == ids[i] && static_clauses_hold(clauses, fishes[q[i]]) by {
                if i > 0 {
                    assert(q[i] == p[i - 1] + 1);
                    assert(fishes[p[i - 1] + 1] == tail[p[i - 1]]);
                }
            }
            assert forall|i: int, j: int| 0 <= i < j < q.len() implies q[i] < q[j] by {
                if i > 0 {
                    assert(q[i] == p[i - 1] + 1);
                }
                assert(q[j] == p[j - 1] + 1);
                assert(p[j - 1] >= 0);
            }
            assert(q.len() == ids.len());
        } else {
            assert(ids == rest);
            assert forall|i: int| #![trigger shifted[i]] 0 <= i < shifted.len() implies 0 <= shifted[i]
                < fishes.len() && fishes[shifted[i]].id == ids[i] && static_clauses_hold(
                clauses,
                fishes[shifted[i]],
            ) by {
                assert(fishes[p[i] + 1] == tail[p[i]]);
            }
            assert forall|i: int, j: int| 0 <= i < j < shifted.len() implies shifted[i] < shifted[j] by {}
            assert(shifted.len() == ids.len());
        }
    }
}

/// Asking the cache again, within the same minute, for the same fish and
/// setting gives the same window and leaves the cache as it was.
pub proof fn lemma_cache_repeat<F: Fn(&Fish, u64, bool, bool, bool) -> Option<FishWindow>>(
    next_window: F,
    data: &FishData,
    cache: CacheView,
    fish_id: u32,
    now: u64,
    later: u64,
    use_fish_eyes: bool,
)
    requires
        bucket_of(later) == bucket_of(now),
    ensures
        ({
            let (c1, r1) = cache_step(next_window, data, cache, fish_id, now, use_fish_eyes);
            cache_step(next_window, data, c1, fish_id, later, use_fish_eyes) == (c1, r1)
        }),
{
    let (c1, r1) = cache_step(next_window, data, cache, fish_id, now, use_fish_eyes);
    assert(live_entries(c1, later) == c1.1);
    assert(c1.1.contains_key(cache_key(fish_id, use_fish_eyes)));
}

/// Different fish, or different fish-eyes settings, never share a cache entry.
pub proof fn lemma_cache_key_distinct(id1: u32, eyes1: bool, id2: u32, eyes2: bool)
    requires
        id1 != id2 || eyes1 != eyes2,
    ensures
        cache_key(id1, eyes1) != cache_key(id2, eyes2),
{
}

/// Whether every clause holds of the fish, checked in order up to the first
/// that fails.
fn matches_all<F: Fn(&Fish, u64, bool, bool, bool) -> Option<FishWindow>>(
    clauses: &[Clause],
    fish: &Fish,
    now: u64,
    use_fish_eyes: bool,
    cache: &mut NextWindowCache,
    fish_data: &FishData,
    next_window: &F,
) -> (b: bool)
    requires
        callable(*next_window),
        deterministic(*next_window),
    ensures
        (b, final(cache)@) == clauses_step(
            *next_window,
            fish_data,
            clauses@,
            *fish,
            old(cache)@,
            now,
            use_fish_eyes,
        ),
{
    let ghost cl = clauses@;
    let ghost c0 = cache@;
    assert(cl.skip(0) =~= cl);
    let mut j: usize = 0;
    while j < clauses.len()
        invariant
            callable(*next_window),
            deterministic(*next_window),
            clauses@ == cl,
            c0 == old(cache)@,
            j <= cl.len(),
            clauses_step(*next_window, fish_data, cl, *fish, c0, now, use_fish_eyes)
                == clauses_step(
                *next_window,
                fish_data,
                cl.skip(j as int),
                *fish,
                cache@,
                now,
                use_fish_eyes,
            ),
        decreases cl.len() - j,
    {
        assert(cl.skip(j as int)[0] == cl[j as int]);
        assert(cl.skip(j as int).drop_first() =~= cl.skip(j + 1));
        let ghost cj = cache@;
        let ok = matches_clause(&clauses[j], fish, now, use_fish_eyes, cache, fish_data, next_window);
        assert(clause_step(*next_window, fish_data, cl[j as int], *fish, cj, now, use_fish_eyes) == (ok, cache@));
        if !ok {
            assert(clauses_step(*next_window, fish_data, cl.skip(j as int), *fish, cj, now, use_fish_eyes) == (false, cache@));
            assert(clauses_step(*next_window, fish_data, cl, *fish, c0, now, use_fish_eyes) == (false, cache@));
            return false;
        }
        j = j + 1;
    }
    assert(cl.skip(j as int).len() == 0);
    true
}

/// The ids, in order, of the fish that match every clause of the query.
///
/// Clauses are checked in order and checking stops at the first that fails;
/// a `Within(secs)` clause asks the cache for the fish's next window and holds
/// when that window starts no later than `secs` from `now` and has not ended
/// by `now`.
pub fn filter_fish<F: Fn(&Fish, u64, bool, bool, bool) -> Option<FishWindow>>(
    fish_data: &FishData,
    cache: &mut NextWindowCache,
    query: &Query,
    now: u64,
    use_fish_eyes: bool,
    next_window: &F,
) -> (ids: Vec<u32>)
    requires
        callable(*next_window),
        deterministic(*next_window),
    ensures
        (ids@, final(cache)@) == filter_step(
            *next_window,
            fish_data,
            fish_data.fish_seq(),
            query.clause_seq(),
            old(cache)@,
            now,
            use_fish_eyes,
        ),
{
    let fishes = fish_data.fishes();
    let clauses = query.clauses();
    let ghost all = fishes@;
    let ghost cl = clauses@;
    let ghost start = cache@;
    let mut ids: Vec<u32> = Vec::new();
    assert(all.skip(0) =~= all);
    assert(ids@ + filter_step(*next_window, fish_data, all, cl, start, now, use_fish_eyes).0
        =~= filter_step(*next_window, fish_data, all, cl, start, now, use_fish_eyes).0);
    let mut i: usize = 0;
    while i < fishes.len()
        invariant
            callable(*next_window),
            deterministic(*next_window),
            fishes@ == all,
            all == fish_data.fish_seq(),
            clauses@ == cl,
            cl == query.clause_seq(),
            i <= all.len(),
            filter_step(*next_window, fish_data, all, cl, start, now, use_fish_eyes) == (
                ids@ + filter_step(
                    *next_window,
                    fish_data,
                    all.skip(i as int),
                    cl,
                    cache@,
                    now,
                    use_fish_eyes,
                ).0,
                filter_step(
                    *next_window,
                    fish_data,
                    all.skip(i as int),
                    cl,
                    cache@,
                    now,
                    use_fish_eyes,
                ).1,
            ),
        decreases all.len() - i,
    {
        let fish = &fishes[i];
        let ghost old_ids = ids@;
        proof {
            assert(all.skip(i as int)[0] == all[i as int]);
            assert(all.skip(i as int).drop_first() =~= all.skip(i + 1));
        }
        if matches_all(clauses, fish, now, use_fish_eyes, cache, fish_data, next_window) {
            ids.push(fish.id);
            assert(old_ids + (seq![all[i as int].id] + filter_step(
                *next_window,
                fish_data,
                all.skip(i + 1),
                cl,
                cache@,
                now,
                use_fish_eyes,
            ).0) =~= ids@ + filter_step(
                *next_window,
                fish_data,
                all.skip(i + 1),
                cl,
                cache@,
                now,
                use_fish_eyes,
            ).0);
        }
        i = i + 1;
    }
    proof {
        assert(all.skip(i as int).len() == 0);
    }
    assert(ids@ =~= ids@ + Seq::<u32>::empty());
    ids
}

} // verus!
