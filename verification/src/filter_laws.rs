//! Properties of filtering and of the next-window cache across calls.
use vstd::prelude::*;
use crate::filter::{
    CacheView, Clause, bucket_of, cache_key, cache_step, clause_step, clauses_step,
    computed_window, filter_step, found_window, live_entries, lookup_step, static_clause_holds,
    window_meets, horizon, UptimeOp,
};
use crate::fish::patch_text;
use crate::text::{lowercase, occurs_in};
use crate::fish::{Fish, FishData, FishWindow};

verus! {

/// The fish id a cache key stands for.
pub open spec fn key_fish(key: u64) -> u32 {
    (key / 2) as u32
}

/// The fish-eyes setting a cache key stands for.
pub open spec fn key_eyes(key: u64) -> bool {
    key % 2 == 1
}

/// A cache key gives back the fish id and setting it was made from.
pub proof fn lemma_cache_key_decodes(fish_id: u32, use_fish_eyes: bool)
    ensures
        key_fish(cache_key(fish_id, use_fish_eyes)) == fish_id,
        key_eyes(cache_key(fish_id, use_fish_eyes)) == use_fish_eyes,
{
}

/// Every answer the cache still holds at `now` is the window found at `now`
/// (so for instance a new cache).
pub open spec fn fresh_at<F: Fn(&Fish, u64, bool, bool, bool) -> Option<FishWindow>>(
    next_window: F,
    data: &FishData,
    cache: CacheView,
    now: u64,
) -> bool {
    forall|key: u64|
        #[trigger] live_entries(cache, now).contains_key(key) ==> live_entries(cache, now)[key]
            == found_window(next_window, data, key_fish(key), now, key_eyes(key))
}

proof fn lemma_cache_step_fresh<F: Fn(&Fish, u64, bool, bool, bool) -> Option<FishWindow>>(
    next_window: F,
    data: &FishData,
    cache: CacheView,
    fish_id: u32,
    now: u64,
    use_fish_eyes: bool,
)
    requires
        fresh_at(next_window, data, cache, now),
    ensures
        cache_step(next_window, data, cache, fish_id, now, use_fish_eyes).1 == found_window(
            next_window,
            data,
            fish_id,
            now,
            use_fish_eyes,
        ),
        fresh_at(
            next_window,
            data,
            cache_step(next_window, data, cache, fish_id, now, use_fish_eyes).0,
            now,
        ),
{
    let key = cache_key(fish_id, use_fish_eyes);
    lemma_cache_key_decodes(fish_id, use_fish_eyes);
    let live = live_entries(cache, now);
    let new = cache_step(next_window, data, cache, fish_id, now, use_fish_eyes).0;
    assert(live_entries(new, now) == new.1);
    if live.contains_key(key) {
        assert(live[key] == found_window(next_window, data, fish_id, now, use_fish_eyes));
    }
}

/// Whether a clause holds of a fish when every next window is the one found
/// at `now`.
pub open spec fn clause_holds_at<F: Fn(&Fish, u64, bool, bool, bool) -> Option<FishWindow>>(
    next_window: F,
    data: &FishData,
    clause: Clause,
    fish: Fish,
    now: u64,
    use_fish_eyes: bool,
) -> bool {
    match clause {
        Clause::Within(secs) => window_meets(
            found_window(next_window, data, fish.id, now, use_fish_eyes),
            now,
            secs,
        ),
        _ => static_clause_holds(clause, fish),
    }
}

/// Every clause holds of the fish (next windows as found at `now`).
pub open spec fn all_hold_at<F: Fn(&Fish, u64, bool, bool, bool) -> Option<FishWindow>>(
    next_window: F,
    data: &FishData,
    clauses: Seq<Clause>,
    fish: Fish,
    now: u64,
    use_fish_eyes: bool,
) -> bool {
    forall|k: int|
        0 <= k < clauses.len() ==> #[trigger] clause_holds_at(
            next_window,
            data,
            clauses[k],
            fish,
            now,
            use_fish_eyes,
        )
}

/// The ids, in order, of the fish of which every clause holds (next windows
/// as found at `now`).
pub open spec fn matches_at<F: Fn(&Fish, u64, bool, bool, bool) -> Option<FishWindow>>(
    next_window: F,
    data: &FishData,
    fishes: Seq<Fish>,
    clauses: Seq<Clause>,
    now: u64,
    use_fish_eyes: bool,
) -> Seq<u32>
    decreases fishes.len(),
{
    if fishes.len() == 0 {
        Seq::empty()
    } else {
        let rest = matches_at(next_window, data, fishes.drop_first(), clauses, now, use_fish_eyes);
        if all_hold_at(next_window, data, clauses, fishes[0], now, use_fish_eyes) {
            seq![fishes[0].id] + rest
        } else {
            rest
        }
    }
}

proof fn lemma_clauses_step_fresh<F: Fn(&Fish, u64, bool, bool, bool) -> Option<FishWindow>>(
    next_window: F,
    data: &FishData,
    clauses: Seq<Clause>,
    fish: Fish,
    cache: CacheView,
    now: u64,
    use_fish_eyes: bool,
)
    requires
        fresh_at(next_window, data, cache, now),
    ensures
        clauses_step(next_window, data, clauses, fish, cache, now, use_fish_eyes).0 == all_hold_at(
            next_window,
            data,
            clauses,
            fish,
            now,
            use_fish_eyes,
        ),
        fresh_at(
            next_window,
            data,
            clauses_step(next_window, data, clauses, fish, cache, now, use_fish_eyes).1,
            now,
        ),
    decreases clauses.len(),
{
    if clauses.len() > 0 {
        let c0 = clauses[0];
        if c0 is Within {
            lemma_cache_step_fresh(next_window, data, cache, fish.id, now, use_fish_eyes);
        }
        let (ok, c) = clause_step(next_window, data, c0, fish, cache, now, use_fish_eyes);
        assert(ok == clause_holds_at(next_window, data, c0, fish, now, use_fish_eyes));
        assert(fresh_at(next_window, data, c, now));
        let tail = clauses.drop_first();
        lemma_clauses_step_fresh(next_window, data, tail, fish, c, now, use_fish_eyes);
        if ok {
            if all_hold_at(next_window, data, tail, fish, now, use_fish_eyes) {
                assert forall|k: int| 0 <= k < clauses.len() implies #[trigger] clause_holds_at(
                    next_window,
                    data,
                    clauses[k],
                    fish,
                    now,
                    use_fish_eyes,
                ) by {
                    if k > 0 {
                        assert(clauses[k] == tail[k - 1]);
                    }
                }
            } else {
                let k = choose|k: int|
                    0 <= k < tail.len() && !#[trigger] clause_holds_at(
                        next_window,
                        data,
                        tail[k],
                        fish,
                        now,
                        use_fish_eyes,
                    );
                assert(tail[k] == clauses[k + 1]);
            }
        }
    }
}

/// When every answer the cache holds is the window found at `now`, filtering
/// gives the fish of which every clause holds with next windows as found at
/// `now`, and the cache keeps that property.
pub proof fn lemma_filter_fresh<F: Fn(&Fish, u64, bool, bool, bool) -> Option<FishWindow>>(
    next_window: F,
    data: &FishData,
    fishes: Seq<Fish>,
    clauses: Seq<Clause>,
    cache: CacheView,
    now: u64,
    use_fish_eyes: bool,
)
    requires
        fresh_at(next_window, data, cache, now),
    ensures
        filter_step(next_window, data, fishes, clauses, cache, now, use_fish_eyes).0 == matches_at(
            next_window,
            data,
            fishes,
            clauses,
            now,
            use_fish_eyes,
        ),
        fresh_at(
            next_window,
            data,
            filter_step(next_window, data, fishes, clauses, cache, now, use_fish_eyes).1,
            now,
        ),
    decreases fishes.len(),
{
    if fishes.len() > 0 {
        lemma_clauses_step_fresh(next_window, data, clauses, fishes[0], cache, now, use_fish_eyes);
        let c = clauses_step(next_window, data, clauses, fishes[0], cache, now, use_fish_eyes).1;
        lemma_filter_fresh(next_window, data, fishes.drop_first(), clauses, c, now, use_fish_eyes);
    }
}

/// The items of `xs`, in order, that `ys` holds.
pub open spec fn kept_in(xs: Seq<u32>, ys: Seq<u32>) -> Seq<u32>
    decreases xs.len(),
{
    if xs.len() == 0 {
        Seq::empty()
    } else {
        let rest = kept_in(xs.drop_first(), ys);
        if ys.contains(xs[0]) {
            seq![xs[0]] + rest
        } else {
            rest
        }
    }
}

/// No two fish share an id.
pub open spec fn distinct_ids(fishes: Seq<Fish>) -> bool {
    forall|i: int, j: int| 0 <= i < j < fishes.len() ==> fishes[i].id != fishes[j].id
}

proof fn lemma_matches_from_list<F: Fn(&Fish, u64, bool, bool, bool) -> Option<FishWindow>>(
    next_window: F,
    data: &FishData,
    fishes: Seq<Fish>,
    clauses: Seq<Clause>,
    now: u64,
    use_fish_eyes: bool,
    id: u32,
)
    requires
        matches_at(next_window, data, fishes, clauses, now, use_fish_eyes).contains(id),
    ensures
        exists|j: int| 0 <= j < fishes.len() && fishes[j].id == id,
    decreases fishes.len(),
{
    let m = matches_at(next_window, data, fishes, clauses, now, use_fish_eyes);
    let tail = fishes.drop_first();
    let rest = matches_at(next_window, data, tail, clauses, now, use_fish_eyes);
    if fishes[0].id != id {
        if all_hold_at(next_window, data, clauses, fishes[0], now, use_fish_eyes) {
            let i = choose|i: int| 0 <= i < m.len() && m[i] == id;
            assert(rest[i - 1] == id);
        }
        lemma_matches_from_list(next_window, data, tail, clauses, now, use_fish_eyes, id);
        let j = choose|j: int| 0 <= j < tail.len() && tail[j].id == id;
        assert(fishes[j + 1].id == id);
    } else {
        assert(fishes[0].id == id);
    }
}

proof fn lemma_kept_in_skip(xs: Seq<u32>, ys: Seq<u32>, y: u32)
    requires
        !xs.contains(y),
    ensures
        kept_in(xs, seq![y] + ys) == kept_in(xs, ys),
    decreases xs.len(),
{
    if xs.len() > 0 {
        assert(xs[0] != y);
        assert((seq![y] + ys).contains(xs[0]) == ys.contains(xs[0])) by {
            if (seq![y] + ys).contains(xs[0]) {
                let i = choose|i: int| 0 <= i < (seq![y] + ys).len() && (seq![y] + ys)[i] == xs[0];
                assert(ys[i - 1] == xs[0]);
            }
            if ys.contains(xs[0]) {
                let i = choose|i: int| 0 <= i < ys.len() && ys[i] == xs[0];
                assert((seq![y] + ys)[i + 1] == xs[0]);
            }
        }
        assert forall|i: int| 0 <= i < xs.drop_first().len() implies xs.drop_first()[i] != y by {
            assert(xs.drop_first()[i] == xs[i + 1]);
        }
        lemma_kept_in_skip(xs.drop_first(), ys, y);
    }
}

/// Joining two queries gives the fish that each gives: with next windows as
/// found at `now` and no two fish sharing an id, filtering by the clauses of
/// both keeps, in order, the ids that the first query gives and the second
/// also gives.
pub proof fn lemma_join_intersects<F: Fn(&Fish, u64, bool, bool, bool) -> Option<FishWindow>>(
    next_window: F,
    data: &FishData,
    fishes: Seq<Fish>,
    c1: Seq<Clause>,
    c2: Seq<Clause>,
    now: u64,
    use_fish_eyes: bool,
)
    requires
        distinct_ids(fishes),
    ensures
        matches_at(next_window, data, fishes, c1 + c2, now, use_fish_eyes) == kept_in(
            matches_at(next_window, data, fishes, c1, now, use_fish_eyes),
            matches_at(next_window, data, fishes, c2, now, use_fish_eyes),
        ),
    decreases fishes.len(),
{
    if fishes.len() > 0 {
        let f0 = fishes[0];
        let tail = fishes.drop_first();
        assert(distinct_ids(tail)) by {
            assert forall|i: int, j: int| 0 <= i < j < tail.len() implies tail[i].id != tail[j].id by {
                assert(tail[i] == fishes[i + 1] && tail[j] == fishes[j + 1]);
            }
        }
        lemma_join_intersects(next_window, data, tail, c1, c2, now, use_fish_eyes);
        let h1 = all_hold_at(next_window, data, c1, f0, now, use_fish_eyes);
        let h2 = all_hold_at(next_window, data, c2, f0, now, use_fish_eyes);
        let c = c1 + c2;
        assert(all_hold_at(next_window, data, c, f0, now, use_fish_eyes) == (h1 && h2)) by {
            if h1 && h2 {
                assert forall|k: int| 0 <= k < c.len() implies #[trigger] clause_holds_at(
                    next_window,
                    data,
                    c[k],
                    f0,
                    now,
                    use_fish_eyes,
                ) by {
                    if k < c1.len() {
                        assert(c[k] == c1[k]);
                    } else {
                        assert(c[k] == c2[k - c1.len()]);
                    }
                }
            }
            if all_hold_at(next_window, data, c, f0, now, use_fish_eyes) {
                assert forall|k: int| 0 <= k < c1.len() implies #[trigger] clause_holds_at(
                    next_window,
                    data,
                    c1[k],
                    f0,
                    now,
                    use_fish_eyes,
                ) by {
                    assert(c[k] == c1[k]);
                }
                assert forall|k: int| 0 <= k < c2.len() implies #[trigger] clause_holds_at(
                    next_window,
                    data,
                    c2[k],
                    f0,
                    now,
                    use_fish_eyes,
                ) by {
                    assert(c[k + c1.len()] == c2[k]);
                }
            }
        }
        let r1 = matches_at(next_window, data, tail, c1, now, use_fish_eyes);
        let r2 = matches_at(next_window, data, tail, c2, now, use_fish_eyes);
        let m1 = matches_at(next_window, data, fishes, c1, now, use_fish_eyes);
        let m2 = matches_at(next_window, data, fishes, c2, now, use_fish_eyes);
        assert(!r1.contains(f0.id)) by {
            if r1.contains(f0.id) {
                lemma_matches_from_list(next_window, data, tail, c1, now, use_fish_eyes, f0.id);
                let j = choose|j: int| 0 <= j < tail.len() && tail[j].id == f0.id;
                assert(fishes[j + 1].id == fishes[0].id);
            }
        }
        assert(!r2.contains(f0.id)) by {
            if r2.contains(f0.id) {
                lemma_matches_from_list(next_window, data, tail, c2, now, use_fish_eyes, f0.id);
                let j = choose|j: int| 0 <= j < tail.len() && tail[j].id == f0.id;
                assert(fishes[j + 1].id == fishes[0].id);
            }
        }
        if h2 {
            lemma_kept_in_skip(r1, r2, f0.id);
            assert(m2 == seq![f0.id] + r2);
            assert((seq![f0.id] + r2)[0] == f0.id);
        } else {
            assert(m2 == r2);
        }
        assert(kept_in(r1, m2) == kept_in(r1, r2));
        if h1 {
            assert(m1 =~= seq![f0.id] + r1);
            assert(m1[0] == f0.id);
            assert(m1.drop_first() =~= r1);
            assert(m2.contains(f0.id) == h2) by {
                if h2 {
                    assert(m2[0] == f0.id);
                }
            }
        }
    }
}

/// A longer `within:` horizon never drops a fish: with next windows as found
/// at `now`, every fish given when one `Within(x)` clause is asked is still
/// given when it becomes `Within(y)` for `y >= x`.
pub proof fn lemma_longer_horizon_keeps<F: Fn(&Fish, u64, bool, bool, bool) -> Option<FishWindow>>(
    next_window: F,
    data: &FishData,
    fishes: Seq<Fish>,
    clauses: Seq<Clause>,
    k: int,
    x: u64,
    y: u64,
    now: u64,
    use_fish_eyes: bool,
    id: u32,
)
    requires
        0 <= k < clauses.len(),
        clauses[k] == Clause::Within(x),
        x <= y,
        matches_at(next_window, data, fishes, clauses, now, use_fish_eyes).contains(id),
    ensures
        matches_at(
            next_window,
            data,
            fishes,
            clauses.update(k, Clause::Within(y)),
            now,
            use_fish_eyes,
        ).contains(id),
    decreases fishes.len(),
{
    let wider = clauses.update(k, Clause::Within(y));
    let f0 = fishes[0];
    let tail = fishes.drop_first();
    let h = all_hold_at(next_window, data, clauses, f0, now, use_fish_eyes);
    if h {
        assert forall|j: int| 0 <= j < wider.len() implies #[trigger] clause_holds_at(
            next_window,
            data,
            wider[j],
            f0,
            now,
            use_fish_eyes,
        ) by {
            assert(clause_holds_at(next_window, data, clauses[j], f0, now, use_fish_eyes));
            if j == k {
                assert(horizon(now, x) <= horizon(now, y));
            }
        }
    }
    let m = matches_at(next_window, data, fishes, clauses, now, use_fish_eyes);
    let mw = matches_at(next_window, data, fishes, wider, now, use_fish_eyes);
    let r = matches_at(next_window, data, tail, clauses, now, use_fish_eyes);
    let rw = matches_at(next_window, data, tail, wider, now, use_fish_eyes);
    if h && f0.id == id {
        assert(mw[0] == id);
    } else {
        let i = choose|i: int| 0 <= i < m.len() && m[i] == id;
        if h {
            assert(r[i - 1] == id);
        }
        assert(r.contains(id));
        lemma_longer_horizon_keeps(next_window, data, tail, clauses, k, x, y, now, use_fish_eyes, id);
        let i2 = choose|i2: int| 0 <= i2 < rw.len() && rw[i2] == id;
        if all_hold_at(next_window, data, wider, f0, now, use_fish_eyes) {
            assert(mw[i2 + 1] == id);
        } else {
            assert(mw[i2] == id);
        }
    }
}

/// Filtering depends on what the clauses say, not on how their text is held:
/// clause lists with the same views filter alike.
pub proof fn lemma_filter_by_views<F: Fn(&Fish, u64, bool, bool, bool) -> Option<FishWindow>>(
    next_window: F,
    data: &FishData,
    fishes: Seq<Fish>,
    c1: Seq<Clause>,
    c2: Seq<Clause>,
    cache: CacheView,
    now: u64,
    use_fish_eyes: bool,
)
    requires
        c1.len() == c2.len(),
        forall|k: int| 0 <= k < c1.len() ==> (#[trigger] c1[k])@ == c2[k]@,
    ensures
        filter_step(next_window, data, fishes, c1, cache, now, use_fish_eyes) == filter_step(
            next_window,
            data,
            fishes,
            c2,
            cache,
            now,
            use_fish_eyes,
        ),
    decreases fishes.len(),
{
    if fishes.len() > 0 {
        lemma_clauses_by_views(next_window, data, c1, c2, fishes[0], cache, now, use_fish_eyes);
        let c = clauses_step(next_window, data, c1, fishes[0], cache, now, use_fish_eyes).1;
        lemma_filter_by_views(next_window, data, fishes.drop_first(), c1, c2, c, now, use_fish_eyes);
    }
}

proof fn lemma_clauses_by_views<F: Fn(&Fish, u64, bool, bool, bool) -> Option<FishWindow>>(
    next_window: F,
    data: &FishData,
    c1: Seq<Clause>,
    c2: Seq<Clause>,
    fish: Fish,
    cache: CacheView,
    now: u64,
    use_fish_eyes: bool,
)
    requires
        c1.len() == c2.len(),
        forall|k: int| 0 <= k < c1.len() ==> (#[trigger] c1[k])@ == c2[k]@,
    ensures
        clauses_step(next_window, data, c1, fish, cache, now, use_fish_eyes) == clauses_step(
            next_window,
            data,
            c2,
            fish,
            cache,
            now,
            use_fish_eyes,
        ),
    decreases c1.len(),
{
    if c1.len() > 0 {
        assert(c1[0]@ == c2[0]@);
        assert(clause_step(next_window, data, c1[0], fish, cache, now, use_fish_eyes) == clause_step(
            next_window,
            data,
            c2[0],
            fish,
            cache,
            now,
            use_fish_eyes,
        ));
        let c = clause_step(next_window, data, c1[0], fish, cache, now, use_fish_eyes).1;
        assert forall|k: int| 0 <= k < c1.drop_first().len() implies (
        #[trigger] c1.drop_first()[k])@ == c2.drop_first()[k]@ by {
            assert(c1[k + 1]@ == c2[k + 1]@);
        }
        lemma_clauses_by_views(
            next_window,
            data,
            c1.drop_first(),
            c2.drop_first(),
            fish,
            c,
            now,
            use_fish_eyes,
        );
    }
}

/// A query without clauses gives every fish, in order, and leaves the cache
/// as it was.
pub proof fn lemma_empty_query_gives_all<F: Fn(&Fish, u64, bool, bool, bool) -> Option<FishWindow>>(
    next_window: F,
    data: &FishData,
    fishes: Seq<Fish>,
    cache: CacheView,
    now: u64,
    use_fish_eyes: bool,
)
    ensures
        filter_step(next_window, data, fishes, Seq::empty(), cache, now, use_fish_eyes) == (
            fishes.map_values(|f: Fish| f.id),
            cache,
        ),
    decreases fishes.len(),
{
    if fishes.len() > 0 {
        lemma_empty_query_gives_all(next_window, data, fishes.drop_first(), cache, now, use_fish_eyes);
        assert(fishes.map_values(|f: Fish| f.id) =~= seq![fishes[0].id] + fishes.drop_first().map_values(
            |f: Fish| f.id,
        ));
    } else {
        assert(fishes.map_values(|f: Fish| f.id) =~= Seq::<u32>::empty());
    }
}

/// `states[i + 1]` is the cache after the `i`-th lookup of a run, started in
/// `states[0]`: lookup `i` asked for `calls[i]` (fish id, moment, fish-eyes
/// setting) over `datas[i]` and was answered `answers[i]`.
pub open spec fn lookup_run<F: Fn(&Fish, u64, bool, bool, bool) -> Option<FishWindow>>(
    next_window: F,
    datas: Seq<FishData>,
    states: Seq<CacheView>,
    calls: Seq<(u32, u64, bool)>,
    answers: Seq<Option<FishWindow>>,
) -> bool {
    &&& states.len() == calls.len() + 1
    &&& answers.len() == calls.len()
    &&& datas.len() == calls.len()
    &&& forall|i: int|
        #![trigger calls[i]]
        0 <= i < calls.len() ==> lookup_step(
            next_window,
            &datas[i],
            states[i],
            calls[i].0,
            calls[i].1,
            calls[i].2,
            states[i + 1],
            answers[i],
        )
}

/// Every lookup of the run falls in the minute `bucket`.
pub open spec fn within_minute(calls: Seq<(u32, u64, bool)>, bucket: u64) -> bool {
    forall|i: int| #![trigger calls[i]] 0 <= i < calls.len() ==> bucket_of(calls[i].1) == bucket
}

/// A lookup in the minute the cache already holds keeps every answer it has.
pub proof fn lemma_lookup_keeps_answers<F: Fn(&Fish, u64, bool, bool, bool) -> Option<FishWindow>>(
    next_window: F,
    data: &FishData,
    old: CacheView,
    fish_id: u32,
    now: u64,
    use_fish_eyes: bool,
    new: CacheView,
    r: Option<FishWindow>,
)
    requires
        lookup_step(next_window, data, old, fish_id, now, use_fish_eyes, new, r),
        old.0 == bucket_of(now),
    ensures
        new.0 == old.0,
        old.1.submap_of(new.1),
        new.1.contains_key(cache_key(fish_id, use_fish_eyes)),
        new.1[cache_key(fish_id, use_fish_eyes)] == r,
{
}

proof fn lemma_run_keeps_answers<F: Fn(&Fish, u64, bool, bool, bool) -> Option<FishWindow>>(
    next_window: F,
    datas: Seq<FishData>,
    states: Seq<CacheView>,
    calls: Seq<(u32, u64, bool)>,
    answers: Seq<Option<FishWindow>>,
    bucket: u64,
    a: int,
    b: int,
)
    requires
        lookup_run(next_window, datas, states, calls, answers),
        within_minute(calls, bucket),
        0 <= a <= b <= calls.len(),
        states[a].0 == bucket,
    ensures
        states[b].0 == bucket,
        states[a].1.submap_of(states[b].1),
    decreases b - a,
{
    if a < b {
        let _ = calls[a];
        lemma_lookup_keeps_answers(
            next_window,
            &datas[a],
            states[a],
            calls[a].0,
            calls[a].1,
            calls[a].2,
            states[a + 1],
            answers[a],
        );
        lemma_run_keeps_answers(next_window, datas, states, calls, answers, bucket, a + 1, b);
        assert forall|k: u64| #[trigger] states[a].1.contains_key(k) implies states[b].1.contains_key(k)
            && states[b].1[k] == states[a].1[k] by {
            assert(states[a + 1].1.contains_key(k));
        }
    }
}

/// Within one minute, the cache answers a lookup as it answered an earlier one
/// for the same fish and setting, whatever lookups came between and whatever
/// fish data the later lookup is given, and leaves itself unchanged.
pub proof fn lemma_same_minute_answers_agree<F: Fn(&Fish, u64, bool, bool, bool) -> Option<
    FishWindow,
>>(
    next_window: F,
    datas: Seq<FishData>,
    states: Seq<CacheView>,
    calls: Seq<(u32, u64, bool)>,
    answers: Seq<Option<FishWindow>>,
    earlier: int,
    data: &FishData,
    now: u64,
    new: CacheView,
    r: Option<FishWindow>,
)
    requires
        lookup_run(next_window, datas, states, calls, answers),
        within_minute(calls, bucket_of(now)),
        0 <= earlier < calls.len(),
        lookup_step(
            next_window,
            data,
            states.last(),
            calls[earlier].0,
            now,
            calls[earlier].2,
            new,
            r,
        ),
    ensures
        r == answers[earlier],
        new == states.last(),
{
    let _ = calls[earlier];
    let key = cache_key(calls[earlier].0, calls[earlier].2);
    assert(states[earlier + 1].0 == bucket_of(now));
    assert(states[earlier + 1].1.contains_key(key) && states[earlier + 1].1[key] == answers[earlier]);
    lemma_run_keeps_answers(
        next_window,
        datas,
        states,
        calls,
        answers,
        bucket_of(now),
        earlier + 1,
        calls.len() as int,
    );
    assert(states[calls.len() as int] == states.last());
    assert(live_entries(states.last(), now) == states.last().1);
}

/// Every answer the cache holds is what `next_window` may report for its fish
/// and setting at some moment of the cache's minute.
pub open spec fn answers_current<F: Fn(&Fish, u64, bool, bool, bool) -> Option<FishWindow>>(
    next_window: F,
    data: &FishData,
    cache: CacheView,
) -> bool {
    forall|key: u64|
        #[trigger] cache.1.contains_key(key) ==> exists|t: u64|
            bucket_of(t) == cache.0 && #[trigger] computed_window(
                next_window,
                data,
                key_fish(key),
                t,
                key_eyes(key),
                cache.1[key],
            )
}

/// A new cache holds no answer, so none is stale.
pub proof fn lemma_empty_cache_current<F: Fn(&Fish, u64, bool, bool, bool) -> Option<FishWindow>>(
    next_window: F,
    data: &FishData,
)
    ensures
        answers_current(next_window, data, (0u64, Map::<u64, Option<FishWindow>>::empty())),
{
}

/// Answers are never older than the current minute: lookups over the same fish
/// data keep every held answer one that `next_window` may report at some
/// moment of the cache's minute, and each lookup answers what `next_window`
/// may report for the fish at some moment of the minute of `now`.
pub proof fn lemma_lookup_answers_current<F: Fn(&Fish, u64, bool, bool, bool) -> Option<FishWindow>>(
    next_window: F,
    data: &FishData,
    old: CacheView,
    fish_id: u32,
    now: u64,
    use_fish_eyes: bool,
    new: CacheView,
    r: Option<FishWindow>,
)
    requires
        answers_current(next_window, data, old),
        lookup_step(next_window, data, old, fish_id, now, use_fish_eyes, new, r),
    ensures
        answers_current(next_window, data, new),
        exists|t: u64|
            bucket_of(t) == bucket_of(now) && #[trigger] computed_window(
                next_window,
                data,
                fish_id,
                t,
                use_fish_eyes,
                r,
            ),
{
    let key = cache_key(fish_id, use_fish_eyes);
    lemma_cache_key_decodes(fish_id, use_fish_eyes);
    let live = live_entries(old, now);
    if live.contains_key(key) {
        assert(old.0 == bucket_of(now));
        assert(old.1.contains_key(key));
        let t = choose|t: u64|
            bucket_of(t) == old.0 && #[trigger] computed_window(
                next_window,
                data,
                key_fish(key),
                t,
                key_eyes(key),
                old.1[key],
            );
        assert(computed_window(next_window, data, fish_id, t, use_fish_eyes, r));
    } else {
        assert(computed_window(next_window, data, fish_id, now, use_fish_eyes, r));
    }
    assert forall|k: u64| #[trigger] new.1.contains_key(k) implies exists|t: u64|
        bucket_of(t) == new.0 && #[trigger] computed_window(
            next_window,
            data,
            key_fish(k),
            t,
            key_eyes(k),
            new.1[k],
        ) by {
        if k == key && !live.contains_key(key) {
            assert(computed_window(next_window, data, key_fish(k), now, key_eyes(k), new.1[k]));
        } else {
            assert(live.contains_key(k));
            assert(old.0 == bucket_of(now));
            assert(old.1.contains_key(k));
            assert(new.1[k] == old.1[k]);
        }
    }
}

/// What one clause asks of a fish: a name search holds when the query text
/// occurs in the lower-cased name; a zone search when it occurs in the
/// lower-cased region name or in the lower-cased location name; a patch
/// search when it occurs in the patch text; an uptime clause when the uptime
/// lies above (or below) the threshold.  None of these touches the cache.  A
/// `Within(secs)` clause looks the fish up in the cache and holds when the
/// answer is a window that starts no later than `now + secs` (held at the
/// largest `u64`) and has not ended by `now`.
pub proof fn lemma_clause_meaning<F: Fn(&Fish, u64, bool, bool, bool) -> Option<FishWindow>>(
    next_window: F,
    data: &FishData,
    clause: Clause,
    fish: Fish,
    cache: CacheView,
    now: u64,
    use_fish_eyes: bool,
)
    ensures
        ({
            let (ok, after) = clause_step(next_window, data, clause, fish, cache, now, use_fish_eyes);
            match clause {
                Clause::Name(q) => ok == occurs_in(lowercase(fish.name@), q@) && after == cache,
                Clause::Zone(q) => ok == (occurs_in(lowercase(fish.region_name@), q@) || occurs_in(
                    lowercase(fish.location_name@),
                    q@,
                )) && after == cache,
                Clause::Patch(q) => ok == occurs_in(patch_text(fish.patch), q@) && after == cache,
                Clause::Uptime { op, threshold } => after == cache && match op {
                    UptimeOp::Greater => ok == (fish.uptime_key > threshold),
                    UptimeOp::Less => ok == (fish.uptime_key < threshold),
                },
                Clause::Within(secs) => {
                    let (c, r) = cache_step(next_window, data, cache, fish.id, now, use_fish_eyes);
                    let latest: int = if now as int + secs as int <= 0xffff_ffff_ffff_ffff {
                        now as int + secs as int
                    } else {
                        0xffff_ffff_ffff_ffff
                    };
                    &&& after == c
                    &&& ok == match r {
                        Some(w) => w.start_secs() as int <= latest && w.end_secs() > now,
                        None => false,
                    }
                },
            }
        }),
{
}

/// A zone search finds a fish by its region name alone, and by its location
/// name alone.
pub proof fn lemma_zone_region_or_location<F: Fn(&Fish, u64, bool, bool, bool) -> Option<FishWindow>>(
    next_window: F,
    data: &FishData,
    q: String,
    fish: Fish,
    cache: CacheView,
    now: u64,
    use_fish_eyes: bool,
)
    ensures
        occurs_in(lowercase(fish.region_name@), q@) ==> clause_step(
            next_window,
            data,
            Clause::Zone(q),
            fish,
            cache,
            now,
            use_fish_eyes,
        ).0,
        occurs_in(lowercase(fish.location_name@), q@) ==> clause_step(
            next_window,
            data,
            Clause::Zone(q),
            fish,
            cache,
            now,
            use_fish_eyes,
        ).0,
{
    lemma_clause_meaning(next_window, data, Clause::Zone(q), fish, cache, now, use_fish_eyes);
}

/// What one cache lookup for `fish_id` and `use_fish_eyes` at `now` does: the
/// cache holds the minute `now / 60` afterwards, under the key
/// `fish_id * 2 + use_fish_eyes`.  When it already held that minute and key,
/// the held answer is given back and nothing changes.  Otherwise (entering a
/// new minute forgets every earlier answer) the answer is what `next_window`
/// reports for the first fish with that id, from `now`, windows in progress
/// included and intuition filtered, with the caller's fish-eyes setting (none
/// when no fish has the id), and it is stored.
pub proof fn lemma_lookup_meaning<F: Fn(&Fish, u64, bool, bool, bool) -> Option<FishWindow>>(
    next_window: F,
    data: &FishData,
    old: CacheView,
    fish_id: u32,
    now: u64,
    use_fish_eyes: bool,
    new: CacheView,
    r: Option<FishWindow>,
)
    requires
        lookup_step(next_window, data, old, fish_id, now, use_fish_eyes, new, r),
    ensures
        new.0 == now / 60,
        ({
            let key = (fish_id as int * 2 + if use_fish_eyes {
                1int
            } else {
                0int
            }) as u64;
            if old.0 == now / 60 && old.1.contains_key(key) {
                r == old.1[key] && new == old
            } else {
                &&& new.1 == (if old.0 == now / 60 {
                    old.1
                } else {
                    Map::empty()
                }).insert(key, r)
                &&& match data.fish_with_id(fish_id) {
                    Some(fish) => next_window.ensures((&fish, now, true, true, use_fish_eyes), r),
                    None => r is None,
                }
            }
        }),
{
}

} // verus!
