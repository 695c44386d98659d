//! Properties of reading queries: uniqueness, joining, dropped words.
use vstd::prelude::*;
use crate::filter::{CacheView, Clause, ClauseView, UptimeOp, filter_step};
use crate::filter_laws::{distinct_ids, fresh_at, kept_in, lemma_filter_by_views, lemma_filter_fresh, lemma_join_intersects, matches_at};
use crate::fish::{Fish, FishData, FishWindow};
use crate::query::{is_number_char, number_len, clause_reads, duration_reads, query_reads, scaled_reads, threshold_reads, unit_secs, duration_unit, uptime_numeral, uptime_is_percent, starts_with, zone_tag, patch_tag, uptime_above_tag, uptime_below_tag, within_tag};
use crate::text::{lemma_words_join, lowercase, trim, words};

verus! {

/// The number readers give one answer for each text and flag or unit.
pub open spec fn readers_deterministic<U: Fn(&str, bool) -> Option<i64>, D: Fn(&str, u64) -> Option<u64>>(
    uptime_threshold: U,
    scaled_secs: D,
) -> bool {
    &&& forall|t1: &str, t2: &str, p: bool, r1: Option<i64>, r2: Option<i64>|
        t1@ == t2@ && #[trigger] uptime_threshold.ensures((t1, p), r1)
            && #[trigger] uptime_threshold.ensures((t2, p), r2) ==> r1 == r2
    &&& forall|t1: &str, t2: &str, m: u64, r1: Option<u64>, r2: Option<u64>|
        t1@ == t2@ && #[trigger] scaled_secs.ensures((t1, m), r1) && #[trigger] scaled_secs.ensures(
            (t2, m),
            r2,
        ) ==> r1 == r2
}

/// What an optional clause says.
pub open spec fn clause_view_opt(r: Option<Clause>) -> Option<ClauseView> {
    match r {
        Some(c) => Some(c@),
        None => None,
    }
}

/// The views of a list of clauses.
pub open spec fn views(clauses: Seq<Clause>) -> Seq<ClauseView> {
    clauses.map_values(|c: Clause| c@)
}

proof fn lemma_threshold_unique<U: Fn(&str, bool) -> Option<i64>, D: Fn(&str, u64) -> Option<u64>>(
    uptime_threshold: U,
    scaled_secs: D,
    numeral: Seq<char>,
    percent: bool,
    r1: Option<i64>,
    r2: Option<i64>,
)
    requires
        readers_deterministic(uptime_threshold, scaled_secs),
        threshold_reads(uptime_threshold, numeral, percent, r1),
        threshold_reads(uptime_threshold, numeral, percent, r2),
    ensures
        r1 == r2,
{
    let t1 = choose|t: &str| t@ == numeral && #[trigger] uptime_threshold.ensures((t, percent), r1);
    let t2 = choose|t: &str| t@ == numeral && #[trigger] uptime_threshold.ensures((t, percent), r2);
}

proof fn lemma_duration_unique<U: Fn(&str, bool) -> Option<i64>, D: Fn(&str, u64) -> Option<u64>>(
    uptime_threshold: U,
    scaled_secs: D,
    raw: Seq<char>,
    r1: Option<u64>,
    r2: Option<u64>,
)
    requires
        readers_deterministic(uptime_threshold, scaled_secs),
        duration_reads(scaled_secs, raw, r1),
        duration_reads(scaled_secs, raw, r2),
    ensures
        r1 == r2,
{
    match unit_secs(duration_unit(raw)) {
        Some(m) => {
            assert(scaled_reads(scaled_secs, crate::query::duration_numeral(raw), m, r1));
            let t1 = choose|t: &str|
                t@ == crate::query::duration_numeral(raw) && #[trigger] scaled_secs.ensures((t, m), r1);
            let t2 = choose|t: &str|
                t@ == crate::query::duration_numeral(raw) && #[trigger] scaled_secs.ensures((t, m), r2);
        },
        None => {},
    }
}

/// With deterministic number readers a word reads as one clause, up to how
/// its text is held, or is dropped either way.
pub proof fn lemma_clause_reads_unique<U: Fn(&str, bool) -> Option<i64>, D: Fn(&str, u64) -> Option<u64>>(
    uptime_threshold: U,
    scaled_secs: D,
    part: Seq<char>,
    r1: Option<Clause>,
    r2: Option<Clause>,
)
    requires
        readers_deterministic(uptime_threshold, scaled_secs),
        clause_reads(uptime_threshold, scaled_secs, part, r1),
        clause_reads(uptime_threshold, scaled_secs, part, r2),
    ensures
        clause_view_opt(r1) == clause_view_opt(r2),
{
    let pct = crate::query::uptime_is_percent(part);
    let num = crate::query::uptime_numeral(part);
    let raw = crate::query::after_tag(part);
    let t1: Option<i64> = match r1 {
        Some(Clause::Uptime { op, threshold }) => Some(threshold),
        _ => None,
    };
    let t2: Option<i64> = match r2 {
        Some(Clause::Uptime { op, threshold }) => Some(threshold),
        _ => None,
    };
    let s1: Option<u64> = match r1 {
        Some(Clause::Within(s)) => Some(s),
        _ => None,
    };
    let s2: Option<u64> = match r2 {
        Some(Clause::Within(s)) => Some(s),
        _ => None,
    };
    if threshold_reads(uptime_threshold, num, pct, t1) && threshold_reads(
        uptime_threshold,
        num,
        pct,
        t2,
    ) {
        lemma_threshold_unique(uptime_threshold, scaled_secs, num, pct, t1, t2);
    }
    if duration_reads(scaled_secs, raw, s1) && duration_reads(scaled_secs, raw, s2) {
        lemma_duration_unique(uptime_threshold, scaled_secs, raw, s1, s2);
    }
}

/// A list of words reads as no more clauses than it has words.
pub proof fn lemma_at_most_one_clause_per_word<U: Fn(&str, bool) -> Option<i64>, D: Fn(&str, u64) -> Option<u64>>(
    uptime_threshold: U,
    scaled_secs: D,
    parts: Seq<Seq<char>>,
    clauses: Seq<Clause>,
)
    requires
        query_reads(uptime_threshold, scaled_secs, parts, clauses),
    ensures
        clauses.len() <= parts.len(),
    decreases parts.len(),
{
    if parts.len() > 0 {
        if clauses.len() > 0 && clause_reads(
            uptime_threshold,
            scaled_secs,
            parts.last(),
            Some(clauses.last()),
        ) && query_reads(uptime_threshold, scaled_secs, parts.drop_last(), clauses.drop_last()) {
            lemma_at_most_one_clause_per_word(
                uptime_threshold,
                scaled_secs,
                parts.drop_last(),
                clauses.drop_last(),
            );
        } else {
            lemma_at_most_one_clause_per_word(uptime_threshold, scaled_secs, parts.drop_last(), clauses);
        }
    }
}

/// With deterministic number readers a list of words reads as one list of
/// clauses, up to how their text is held.
pub proof fn lemma_query_reads_unique<U: Fn(&str, bool) -> Option<i64>, D: Fn(&str, u64) -> Option<u64>>(
    uptime_threshold: U,
    scaled_secs: D,
    parts: Seq<Seq<char>>,
    c1: Seq<Clause>,
    c2: Seq<Clause>,
)
    requires
        readers_deterministic(uptime_threshold, scaled_secs),
        query_reads(uptime_threshold, scaled_secs, parts, c1),
        query_reads(uptime_threshold, scaled_secs, parts, c2),
    ensures
        views(c1) == views(c2),
    decreases parts.len(),
{
    if parts.len() == 0 {
        assert(views(c1) =~= views(c2));
    } else {
        let last = parts.last();
        let init = parts.drop_last();
        let some1 = c1.len() > 0 && clause_reads(uptime_threshold, scaled_secs, last, Some(c1.last()))
            && query_reads(uptime_threshold, scaled_secs, init, c1.drop_last());
        let some2 = c2.len() > 0 && clause_reads(uptime_threshold, scaled_secs, last, Some(c2.last()))
            && query_reads(uptime_threshold, scaled_secs, init, c2.drop_last());
        if some1 && some2 {
            lemma_clause_reads_unique(uptime_threshold, scaled_secs, last, Some(c1.last()), Some(c2.last()));
            lemma_query_reads_unique(uptime_threshold, scaled_secs, init, c1.drop_last(), c2.drop_last());
            assert(views(c1) =~= views(c1.drop_last()).push(c1.last()@));
            assert(views(c2) =~= views(c2.drop_last()).push(c2.last()@));
        } else if some1 {
            lemma_clause_reads_unique(uptime_threshold, scaled_secs, last, Some(c1.last()), None);
        } else if some2 {
            lemma_clause_reads_unique(uptime_threshold, scaled_secs, last, Some(c2.last()), None);
        } else {
            lemma_query_reads_unique(uptime_threshold, scaled_secs, init, c1, c2);
        }
    }
}

/// Reading two lists of words one after the other reads the first's clauses
/// followed by the second's.
pub proof fn lemma_query_reads_join<U: Fn(&str, bool) -> Option<i64>, D: Fn(&str, u64) -> Option<u64>>(
    uptime_threshold: U,
    scaled_secs: D,
    p1: Seq<Seq<char>>,
    p2: Seq<Seq<char>>,
    c1: Seq<Clause>,
    c2: Seq<Clause>,
)
    requires
        query_reads(uptime_threshold, scaled_secs, p1, c1),
        query_reads(uptime_threshold, scaled_secs, p2, c2),
    ensures
        query_reads(uptime_threshold, scaled_secs, p1 + p2, c1 + c2),
    decreases p2.len(),
{
    if p2.len() == 0 {
        assert(p1 + p2 =~= p1);
        assert(c1 + c2 =~= c1);
    } else {
        let p = p1 + p2;
        assert(p.last() == p2.last());
        assert(p.drop_last() =~= p1 + p2.drop_last());
        if c2.len() > 0 && clause_reads(uptime_threshold, scaled_secs, p2.last(), Some(c2.last()))
            && query_reads(uptime_threshold, scaled_secs, p2.drop_last(), c2.drop_last()) {
            lemma_query_reads_join(uptime_threshold, scaled_secs, p1, p2.drop_last(), c1, c2.drop_last());
            let c = c1 + c2;
            assert(c.last() == c2.last());
            assert(c.drop_last() =~= c1 + c2.drop_last());
        } else {
            lemma_query_reads_join(uptime_threshold, scaled_secs, p1, p2.drop_last(), c1, c2);
        }
    }
}

/// Reading two queries joined by a space gives the clauses of the first
/// followed by those of the second (up to how their text is held), when the
/// number readers are deterministic.
pub proof fn lemma_joined_query<U: Fn(&str, bool) -> Option<i64>, D: Fn(&str, u64) -> Option<u64>>(
    uptime_threshold: U,
    scaled_secs: D,
    a: Seq<char>,
    b: Seq<char>,
    ca: Seq<Clause>,
    cb: Seq<Clause>,
    c: Seq<Clause>,
)
    requires
        readers_deterministic(uptime_threshold, scaled_secs),
        query_reads(uptime_threshold, scaled_secs, words(a), ca),
        query_reads(uptime_threshold, scaled_secs, words(b), cb),
        query_reads(uptime_threshold, scaled_secs, words(a + seq![' '] + b), c),
    ensures
        views(c) == views(ca + cb),
{
    lemma_words_join(a, b);
    lemma_query_reads_join(uptime_threshold, scaled_secs, words(a), words(b), ca, cb);
    lemma_query_reads_unique(uptime_threshold, scaled_secs, words(a + seq![' '] + b), c, ca + cb);
}

/// Words that read as no clause change nothing: appending them to a query
/// leaves its clauses as they were (up to how their text is held), when the
/// number readers are deterministic.
pub proof fn lemma_dropped_words_change_nothing<U: Fn(&str, bool) -> Option<i64>, D: Fn(&str, u64) -> Option<u64>>(
    uptime_threshold: U,
    scaled_secs: D,
    a: Seq<char>,
    dropped: Seq<char>,
    ca: Seq<Clause>,
    c: Seq<Clause>,
)
    requires
        readers_deterministic(uptime_threshold, scaled_secs),
        query_reads(uptime_threshold, scaled_secs, words(a), ca),
        query_reads(uptime_threshold, scaled_secs, words(dropped), Seq::empty()),
        query_reads(uptime_threshold, scaled_secs, words(a + seq![' '] + dropped), c),
    ensures
        views(c) == views(ca),
{
    lemma_joined_query(uptime_threshold, scaled_secs, a, dropped, ca, Seq::empty(), c);
    assert(ca + Seq::<Clause>::empty() =~= ca);
}

proof fn lemma_views_pointwise(c1: Seq<Clause>, c2: Seq<Clause>)
    requires
        views(c1) == views(c2),
    ensures
        c1.len() == c2.len(),
        forall|k: int| 0 <= k < c1.len() ==> (#[trigger] c1[k])@ == c2[k]@,
{
    assert(views(c1).len() == c1.len());
    assert(views(c2).len() == c2.len());
    assert forall|k: int| 0 <= k < c1.len() implies (#[trigger] c1[k])@ == c2[k]@ by {
        assert(views(c1)[k] == c1[k]@);
        assert(views(c2)[k] == c2[k]@);
    }
}

/// Filtering by the reading of two queries joined by a space keeps, in
/// order, the fish that the first query gives and the second also gives: when
/// the number readers are deterministic, no two fish share an id, and every
/// answer the cache holds is the window found at `now`.
pub proof fn lemma_filter_joined_query<
    U: Fn(&str, bool) -> Option<i64>,
    D: Fn(&str, u64) -> Option<u64>,
    F: Fn(&Fish, u64, bool, bool, bool) -> Option<FishWindow>,
>(
    uptime_threshold: U,
    scaled_secs: D,
    next_window: F,
    data: &FishData,
    fishes: Seq<Fish>,
    a: Seq<char>,
    b: Seq<char>,
    ca: Seq<Clause>,
    cb: Seq<Clause>,
    c: Seq<Clause>,
    cache: CacheView,
    now: u64,
    use_fish_eyes: bool,
)
    requires
        readers_deterministic(uptime_threshold, scaled_secs),
        query_reads(uptime_threshold, scaled_secs, words(a), ca),
        query_reads(uptime_threshold, scaled_secs, words(b), cb),
        query_reads(uptime_threshold, scaled_secs, words(a + seq![' '] + b), c),
        distinct_ids(fishes),
        fresh_at(next_window, data, cache, now),
    ensures
        filter_step(next_window, data, fishes, c, cache, now, use_fish_eyes).0 == kept_in(
            matches_at(next_window, data, fishes, ca, now, use_fish_eyes),
            matches_at(next_window, data, fishes, cb, now, use_fish_eyes),
        ),
{
    lemma_joined_query(uptime_threshold, scaled_secs, a, b, ca, cb, c);
    lemma_views_pointwise(c, ca + cb);
    lemma_filter_by_views(next_window, data, fishes, c, ca + cb, cache, now, use_fish_eyes);
    lemma_filter_fresh(next_window, data, fishes, ca + cb, cache, now, use_fish_eyes);
    lemma_join_intersects(next_window, data, fishes, ca, cb, now, use_fish_eyes);
}

/// Appending words that read as no clause to a query leaves what filtering
/// gives, and the cache after it, as they were, when the number readers are
/// deterministic.
pub proof fn lemma_filter_dropped_words<
    U: Fn(&str, bool) -> Option<i64>,
    D: Fn(&str, u64) -> Option<u64>,
    F: Fn(&Fish, u64, bool, bool, bool) -> Option<FishWindow>,
>(
    uptime_threshold: U,
    scaled_secs: D,
    next_window: F,
    data: &FishData,
    fishes: Seq<Fish>,
    a: Seq<char>,
    dropped: Seq<char>,
    ca: Seq<Clause>,
    c: Seq<Clause>,
    cache: CacheView,
    now: u64,
    use_fish_eyes: bool,
)
    requires
        readers_deterministic(uptime_threshold, scaled_secs),
        query_reads(uptime_threshold, scaled_secs, words(a), ca),
        query_reads(uptime_threshold, scaled_secs, words(dropped), Seq::empty()),
        query_reads(uptime_threshold, scaled_secs, words(a + seq![' '] + dropped), c),
    ensures
        filter_step(next_window, data, fishes, c, cache, now, use_fish_eyes) == filter_step(
            next_window,
            data,
            fishes,
            ca,
            cache,
            now,
            use_fish_eyes,
        ),
{
    lemma_dropped_words_change_nothing(uptime_threshold, scaled_secs, a, dropped, ca, c);
    lemma_views_pointwise(c, ca);
    lemma_filter_by_views(next_window, data, fishes, c, ca, cache, now, use_fish_eyes);
}

/// A word cannot begin with two prefixes that differ at a place both reach.
proof fn lemma_prefixes_exclusive(s: Seq<char>, p: Seq<char>, q: Seq<char>, i: int)
    requires
        starts_with(s, p),
        0 <= i < p.len(),
        i < q.len(),
        p[i] != q[i],
    ensures
        !starts_with(s, q),
{
    assert(s.take(p.len() as int)[i] == s[i]);
    if starts_with(s, q) {
        assert(s.take(q.len() as int)[i] == s[i]);
    }
}

/// How a word reads, by its lower-cased form: a word whose lower-cased form
/// begins with `zone:` or `patch:` searches zones or patches for the rest of
/// that form, trimmed; one that begins with `uptime>` or `uptime<` reads as an
/// uptime clause above or below a threshold, or is dropped; one that begins
/// with `within:` reads as a `within` clause or is dropped; none of these ever
/// searches names.  Any other word searches names for its lower-cased form,
/// trimmed.
pub proof fn lemma_word_kind<U: Fn(&str, bool) -> Option<i64>, D: Fn(&str, u64) -> Option<u64>>(
    uptime_threshold: U,
    scaled_secs: D,
    part: Seq<char>,
    r: Option<Clause>,
)
    requires
        clause_reads(uptime_threshold, scaled_secs, part, r),
    ensures
        starts_with(lowercase(part), seq!['z', 'o', 'n', 'e', ':']) ==> (r matches Some(
            Clause::Zone(z),
        ) && z@ == trim(lowercase(part).skip(5))),
        starts_with(lowercase(part), seq!['p', 'a', 't', 'c', 'h', ':']) ==> (r matches Some(
            Clause::Patch(p),
        ) && p@ == trim(lowercase(part).skip(6))),
        starts_with(lowercase(part), seq!['u', 'p', 't', 'i', 'm', 'e', '>']) ==> (r is None
            || r matches Some(Clause::Uptime { op: UptimeOp::Greater, .. })),
        starts_with(lowercase(part), seq!['u', 'p', 't', 'i', 'm', 'e', '<']) ==> (r is None
            || r matches Some(Clause::Uptime { op: UptimeOp::Less, .. })),
        starts_with(lowercase(part), seq!['w', 'i', 't', 'h', 'i', 'n', ':']) ==> (r is None
            || r matches Some(Clause::Within(_))),
        !starts_with(lowercase(part), seq!['z', 'o', 'n', 'e', ':']) && !starts_with(
            lowercase(part),
            seq!['p', 'a', 't', 'c', 'h', ':'],
        ) && !starts_with(lowercase(part), seq!['u', 'p', 't', 'i', 'm', 'e', '>'])
            && !starts_with(lowercase(part), seq!['u', 'p', 't', 'i', 'm', 'e', '<'])
            && !starts_with(lowercase(part), seq!['w', 'i', 't', 'h', 'i', 'n', ':']) ==> (r matches Some(
            Clause::Name(n),
        ) && n@ == trim(lowercase(part))),
{
    let lower = lowercase(part);
    let zone = zone_tag();
    let patch = patch_tag();
    let above = uptime_above_tag();
    let below = uptime_below_tag();
    let within = within_tag();
    assert(zone[0] == 'z' && patch[0] == 'p' && above[0] == 'u' && below[0] == 'u');
    assert(within[0] == 'w' && above[6] == '>' && below[6] == '<');
    if starts_with(lower, patch) {
        lemma_prefixes_exclusive(lower, patch, zone, 0);
    }
    if starts_with(lower, above) {
        lemma_prefixes_exclusive(lower, above, zone, 0);
        lemma_prefixes_exclusive(lower, above, patch, 0);
        lemma_prefixes_exclusive(lower, above, below, 6);
    }
    if starts_with(lower, below) {
        lemma_prefixes_exclusive(lower, below, zone, 0);
        lemma_prefixes_exclusive(lower, below, patch, 0);
        lemma_prefixes_exclusive(lower, below, above, 6);
    }
    if starts_with(lower, within) {
        lemma_prefixes_exclusive(lower, within, zone, 0);
        lemma_prefixes_exclusive(lower, within, patch, 0);
        lemma_prefixes_exclusive(lower, within, above, 0);
        lemma_prefixes_exclusive(lower, within, below, 0);
    }
}

/// The characters of a word after its first seven (none when it is shorter).
pub open spec fn after_seventh(part: Seq<char>) -> Seq<char> {
    if part.len() >= 7 {
        part.skip(7)
    } else {
        Seq::<char>::empty()
    }
}

/// The word's text after its first seven characters ends with `%`.
pub open spec fn ends_in_percent(part: Seq<char>) -> bool {
    after_seventh(part).len() > 0 && after_seventh(part).last() == '%'
}

/// The word's text after its first seven characters, less one trailing `%`,
/// trimmed.
pub open spec fn number_text(part: Seq<char>) -> Seq<char> {
    if ends_in_percent(part) {
        trim(after_seventh(part).drop_last())
    } else {
        trim(after_seventh(part))
    }
}

/// The threshold an uptime clause holds, none for any other reading.
pub open spec fn held_threshold(r: Option<Clause>) -> Option<i64> {
    match r {
        Some(Clause::Uptime { op, threshold }) => Some(threshold),
        _ => None,
    }
}

/// What an uptime or `within:` word holds.  For an uptime word, the text
/// after its first seven characters, less one trailing `%` and trimmed, is
/// what `uptime_threshold` reads, told whether that `%` was there; the clause
/// holds what it reads, and is dropped when it reads none.  For a `within:`
/// word, the text after its first seven characters is read as a duration; the
/// clause holds its seconds, and is dropped when it cannot be read.
pub proof fn lemma_number_words<U: Fn(&str, bool) -> Option<i64>, D: Fn(&str, u64) -> Option<u64>>(
    uptime_threshold: U,
    scaled_secs: D,
    part: Seq<char>,
    r: Option<Clause>,
)
    requires
        clause_reads(uptime_threshold, scaled_secs, part, r),
    ensures
        starts_with(lowercase(part), seq!['u', 'p', 't', 'i', 'm', 'e', '>']) || starts_with(
            lowercase(part),
            seq!['u', 'p', 't', 'i', 'm', 'e', '<'],
        ) ==> exists|t: &str|
            t@ == number_text(part) && #[trigger] uptime_threshold.ensures(
                (t, ends_in_percent(part)),
                held_threshold(r),
            ),
        starts_with(lowercase(part), seq!['w', 'i', 't', 'h', 'i', 'n', ':']) ==> match r {
            Some(Clause::Within(secs)) => duration_reads(scaled_secs, after_seventh(part), Some(secs)),
            _ => r is None && duration_reads(scaled_secs, after_seventh(part), None),
        },
{
    lemma_word_kind(uptime_threshold, scaled_secs, part, r);
    let lower = lowercase(part);
    let zone = zone_tag();
    let patch = patch_tag();
    let above = uptime_above_tag();
    let below = uptime_below_tag();
    let within = within_tag();
    assert(zone[0] == 'z' && patch[0] == 'p' && above[0] == 'u' && below[0] == 'u');
    assert(within[0] == 'w');
    if starts_with(lower, above) || starts_with(lower, below) {
        if starts_with(lower, above) {
            lemma_prefixes_exclusive(lower, above, zone, 0);
            lemma_prefixes_exclusive(lower, above, patch, 0);
        } else {
            lemma_prefixes_exclusive(lower, below, zone, 0);
            lemma_prefixes_exclusive(lower, below, patch, 0);
        }
        assert(uptime_numeral(part) == number_text(part));
        assert(uptime_is_percent(part) == ends_in_percent(part));
        assert(threshold_reads(uptime_threshold, number_text(part), ends_in_percent(part), held_threshold(r)));
    }
    if starts_with(lower, within) {
        lemma_prefixes_exclusive(lower, within, zone, 0);
        lemma_prefixes_exclusive(lower, within, patch, 0);
        lemma_prefixes_exclusive(lower, within, above, 0);
        lemma_prefixes_exclusive(lower, within, below, 0);
    }
}

proof fn lemma_number_len_facts(s: Seq<char>)
    ensures
        number_len(s) <= s.len(),
        forall|j: int| 0 <= j < number_len(s) ==> is_number_char(#[trigger] s[j]),
        number_len(s) == s.len() || !is_number_char(s[number_len(s) as int]),
    decreases s.len(),
{
    if s.len() > 0 && is_number_char(s[0]) {
        let t = s.drop_first();
        lemma_number_len_facts(t);
        assert forall|j: int| 0 <= j < number_len(s) implies is_number_char(#[trigger] s[j]) by {
            if j > 0 {
                assert(s[j] == t[j - 1]);
            }
        }
        if number_len(s) < s.len() {
            assert(s[number_len(s) as int] == t[number_len(t) as int]);
        }
    }
}

/// How a duration reads: trimmed, it is a numeral of digits and points
/// followed by a rest that does not begin with one; the rest, trimmed and
/// lower-cased, is the unit, which gives the seconds the numeral is scaled by
/// (none or `m`: 60, `s`: 1, `h`: 3600, `d`: 86400), and any other unit makes
/// the duration unreadable.
pub proof fn lemma_duration_units<D: Fn(&str, u64) -> Option<u64>>(
    scaled_secs: D,
    raw: Seq<char>,
    numeral: Seq<char>,
    rest: Seq<char>,
    r: Option<u64>,
)
    requires
        duration_reads(scaled_secs, raw, r),
        trim(raw) == numeral + rest,
        forall|j: int| 0 <= j < numeral.len() ==> ('0' <= #[trigger] numeral[j] <= '9' || numeral[j]
            == '.'),
        rest.len() == 0 || !(('0' <= rest[0] <= '9') || rest[0] == '.'),
    ensures
        ({
            let unit = lowercase(trim(rest));
            if unit.len() == 0 || unit == seq!['m'] {
                exists|t: &str| t@ == numeral && #[trigger] scaled_secs.ensures((t, 60u64), r)
            } else if unit == seq!['s'] {
                exists|t: &str| t@ == numeral && #[trigger] scaled_secs.ensures((t, 1u64), r)
            } else if unit == seq!['h'] {
                exists|t: &str| t@ == numeral && #[trigger] scaled_secs.ensures((t, 3600u64), r)
            } else if unit == seq!['d'] {
                exists|t: &str| t@ == numeral && #[trigger] scaled_secs.ensures((t, 86400u64), r)
            } else {
                r is None
            }
        }),
{
    let s = trim(raw);
    let k = number_len(s);
    lemma_number_len_facts(s);
    let n = numeral.len();
    if k < n {
        assert(s[k as int] == numeral[k as int]);
        assert(is_number_char(numeral[k as int]));
    }
    if n < k {
        assert(s[n as int] == rest[0]);
        assert(is_number_char(s[n as int]));
    }
    assert(k == n);
    assert(s.take(k as int) =~= numeral);
    assert(s.skip(k as int) =~= rest);
    assert(duration_unit(raw) == lowercase(trim(rest)));
    assert(crate::query::duration_numeral(raw) == numeral);
}

} // verus!
