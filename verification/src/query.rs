//! Reading a search query such as `zone:mist uptime>1% within:30m glowing`.
//!
//! Numbers are read by functions handed in by the caller: the uptime
//! threshold from its text and whether it was a percentage, and a duration
//! from its numeral and the seconds in its unit.  Everything else about a
//! query's text is decided here.
use vstd::prelude::*;
use crate::filter::{Clause, NextWindowCache, Query, UptimeOp, filter_fish, filter_step};
use crate::fish::{Fish, FishData, FishWindow, callable, deterministic};
use crate::text::{chars_of, lowercase, split_whitespace, to_lowercase, trim, trim_str, words};

verus! {

/// `s` begins with `p`.
pub open spec fn starts_with(s: Seq<char>, p: Seq<char>) -> bool {
    p.len() <= s.len() && s.take(p.len() as int) == p
}

pub open spec fn zone_tag() -> Seq<char> {
    seq!['z', 'o', 'n', 'e', ':']
}

pub open spec fn patch_tag() -> Seq<char> {
    seq!['p', 'a', 't', 'c', 'h', ':']
}

pub open spec fn uptime_above_tag() -> Seq<char> {
    seq!['u', 'p', 't', 'i', 'm', 'e', '>']
}

pub open spec fn uptime_below_tag() -> Seq<char> {
    seq!['u', 'p', 't', 'i', 'm', 'e', '<']
}

pub open spec fn within_tag() -> Seq<char> {
    seq!['w', 'i', 't', 'h', 'i', 'n', ':']
}

/// `s` after its first seven characters (none when it is shorter).
pub open spec fn after_tag(s: Seq<char>) -> Seq<char> {
    if s.len() >= 7 {
        s.skip(7)
    } else {
        Seq::empty()
    }
}

/// A digit or a decimal point.
pub open spec fn is_number_char(c: char) -> bool {
    ('0' <= c && c <= '9') || c == '.'
}

/// How many characters at the front of `s` are digits or decimal points.
pub open spec fn number_len(s: Seq<char>) -> nat
    decreases s.len(),
{
    if s.len() > 0 && is_number_char(s[0]) {
        1 + number_len(s.drop_first())
    } else {
        0
    }
}

/// Seconds in a duration unit: minutes when none is given.
pub open spec fn unit_secs(unit: Seq<char>) -> Option<u64> {
    if unit.len() == 0 || unit == seq!['m'] {
        Some(60)
    } else if unit == seq!['s'] {
        Some(1)
    } else if unit == seq!['h'] {
        Some(3600)
    } else if unit == seq!['d'] {
        Some(86400)
    } else {
        None
    }
}

/// The numeral of a duration: the digits and points that begin it once
/// trimmed.
pub open spec fn duration_numeral(raw: Seq<char>) -> Seq<char> {
    let s = trim(raw);
    s.take(number_len(s) as int)
}

/// The unit of a duration: what follows the numeral, trimmed and lower-cased.
pub open spec fn duration_unit(raw: Seq<char>) -> Seq<char> {
    let s = trim(raw);
    lowercase(trim(s.skip(number_len(s) as int)))
}

/// `r` is what reading the duration `raw` gives: none when the unit is not
/// known, else what `scaled_secs` gives for the numeral and the unit's seconds.
pub open spec fn duration_reads<D: Fn(&str, u64) -> Option<u64>>(
    scaled_secs: D,
    raw: Seq<char>,
    r: Option<u64>,
) -> bool {
    match unit_secs(duration_unit(raw)) {
        None => r is None,
        Some(m) => scaled_reads(scaled_secs, duration_numeral(raw), m, r),
    }
}

/// `r` is what `scaled_secs` may give for a numeral with the given text and
/// seconds per unit.
pub open spec fn scaled_reads<D: Fn(&str, u64) -> Option<u64>>(
    scaled_secs: D,
    numeral: Seq<char>,
    secs_per_unit: u64,
    r: Option<u64>,
) -> bool {
    exists|t: &str| t@ == numeral && #[trigger] scaled_secs.ensures((t, secs_per_unit), r)
}

/// The number text of an uptime clause: what follows the tag, without one
/// trailing `%`, trimmed.
pub open spec fn uptime_numeral(part: Seq<char>) -> Seq<char> {
    let raw = after_tag(part);
    if raw.len() > 0 && raw.last() == '%' {
        trim(raw.drop_last())
    } else {
        trim(raw)
    }
}

/// The uptime threshold was written as a percentage.
pub open spec fn uptime_is_percent(part: Seq<char>) -> bool {
    let raw = after_tag(part);
    raw.len() > 0 && raw.last() == '%'
}

/// `r` is what `uptime_threshold` may give for a number with the given text,
/// written as a percentage or not.
pub open spec fn threshold_reads<U: Fn(&str, bool) -> Option<i64>>(
    uptime_threshold: U,
    numeral: Seq<char>,
    percent: bool,
    r: Option<i64>,
) -> bool {
    exists|t: &str| t@ == numeral && #[trigger] uptime_threshold.ensures((t, percent), r)
}

/// `r` is what reading the word `part` as a clause gives.
///
/// The word is lower-cased.  `zone:` and `patch:` take the trimmed rest; an
/// `uptime>` or `uptime<` clause holds the threshold `uptime_threshold` reads,
/// and is dropped when it reads none; a `within:` clause holds the seconds of
/// its duration and is dropped when that cannot be read; any other word asks
/// for names holding it.
pub open spec fn clause_reads<U: Fn(&str, bool) -> Option<i64>, D: Fn(&str, u64) -> Option<u64>>(
    uptime_threshold: U,
    scaled_secs: D,
    part: Seq<char>,
    r: Option<Clause>,
) -> bool {
    let lower = lowercase(part);
    if starts_with(lower, zone_tag()) {
        r matches Some(Clause::Zone(z)) && z@ == trim(lower.skip(5))
    } else if starts_with(lower, patch_tag()) {
        r matches Some(Clause::Patch(p)) && p@ == trim(lower.skip(6))
    } else if starts_with(lower, uptime_above_tag()) || starts_with(lower, uptime_below_tag()) {
        let op = if starts_with(lower, uptime_above_tag()) {
            UptimeOp::Greater
        } else {
            UptimeOp::Less
        };
        let pct = uptime_is_percent(part);
        match r {
            Some(Clause::Uptime { op: o, threshold }) => o == op && threshold_reads(
                uptime_threshold,
                uptime_numeral(part),
                pct,
                Some(threshold),
            ),
            None => threshold_reads(uptime_threshold, uptime_numeral(part), pct, None),
            _ => false,
        }
    } else if starts_with(lower, within_tag()) {
        match r {
            Some(Clause::Within(secs)) => duration_reads(scaled_secs, after_tag(part), Some(secs)),
            None => duration_reads(scaled_secs, after_tag(part), None),
            _ => false,
        }
    } else {
        r matches Some(Clause::Name(n)) && n@ == trim(lower)
    }
}

/// `clauses` is what reading the words in order gives, dropped clauses left
/// out.
pub open spec fn query_reads<U: Fn(&str, bool) -> Option<i64>, D: Fn(&str, u64) -> Option<u64>>(
    uptime_threshold: U,
    scaled_secs: D,
    parts: Seq<Seq<char>>,
    clauses: Seq<Clause>,
) -> bool
    decreases parts.len(),
{
    if parts.len() == 0 {
        clauses.len() == 0
    } else {
        ||| clauses.len() > 0 && clause_reads(
            uptime_threshold,
            scaled_secs,
            parts.last(),
            Some(clauses.last()),
        ) && query_reads(uptime_threshold, scaled_secs, parts.drop_last(), clauses.drop_last())
        ||| clause_reads(uptime_threshold, scaled_secs, parts.last(), None) && query_reads(
            uptime_threshold,
            scaled_secs,
            parts.drop_last(),
            clauses,
        )
    }
}

/// Whether `v` begins with `p`.
fn has_prefix(v: &Vec<char>, p: &Vec<char>) -> (b: bool)
    ensures
        b == starts_with(v@, p@),
{
    if p.len() > v.len() {
        return false;
    }
    let mut i: usize = 0;
    while i < p.len()
        invariant
            p@.len() <= v@.len(),
            i <= p@.len(),
            forall|k: int| 0 <= k < i ==> v@[k] == p@[k],
        decreases p@.len() - i,
    {
        if v[i] != p[i] {
            assert(v@.take(p@.len() as int)[i as int] != p@[i as int]);
            return false;
        }
        i = i + 1;
    }
    assert(v@.take(p@.len() as int) =~= p@);
    true
}

fn is_number_char_exec(c: char) -> (b: bool)
    ensures
        b == is_number_char(c),
{
    ('0' <= c && c <= '9') || c == '.'
}

proof fn lemma_number_len_exact(s: Seq<char>, k: int)
    requires
        0 <= k <= s.len(),
        forall|j: int| 0 <= j < k ==> is_number_char(#[trigger] s[j]),
        k == s.len() || !is_number_char(s[k]),
    ensures
        number_len(s) == k,
    decreases k,
{
    if k > 0 {
        lemma_number_len_exact(s.drop_first(), k - 1);
    }
}

/// The seconds in a duration such as `30m`, `45s`, `2h`, `1d` or `30`
/// (minutes), as `scaled_secs` computes them from the numeral and the unit's
/// seconds; none when the unit is not one of these.
pub fn parse_duration<D: Fn(&str, u64) -> Option<u64>>(raw: &str, scaled_secs: &D) -> (r: Option<u64>)
    requires
        forall|t: &str, m: u64| #[trigger] scaled_secs.requires((t, m)),
    ensures
        duration_reads(*scaled_secs, raw@, r),
{
    let s = trim_str(raw);
    let c = chars_of(s.as_str());
    let mut end: usize = 0;
    while end < c.len() && is_number_char_exec(c[end])
        invariant
            c@ == s@,
            end <= c@.len(),
            forall|j: int| 0 <= j < end ==> is_number_char(#[trigger] s@[j]),
        decreases c@.len() - end,
    {
        end = end + 1;
    }
    proof {
        lemma_number_len_exact(s@, end as int);
    }
    let numeral = s.as_str().substring_char(0, end);
    let rest = s.as_str().substring_char(end, c.len());
    assert(numeral@ =~= duration_numeral(raw@));
    assert(rest@ =~= trim(raw@).skip(number_len(trim(raw@)) as int));
    let rest_trimmed = trim_str(rest);
    let unit_text = to_lowercase(rest_trimmed.as_str());
    let unit = chars_of(unit_text.as_str());
    assert(unit@ == duration_unit(raw@));
    let secs_per_unit: u64 = if unit.len() == 0 || (unit.len() == 1 && unit[0] == 'm') {
        assert(unit@.len() == 0 || unit@ =~= seq!['m']);
        assert(unit_secs(unit@) == Some(60u64));
        60
    } else if unit.len() == 1 && unit[0] == 's' {
        assert(unit@ =~= seq!['s']);
        assert(unit_secs(unit@) == Some(1u64));
        1
    } else if unit.len() == 1 && unit[0] == 'h' {
        assert(unit@ =~= seq!['h']);
        assert(unit_secs(unit@) == Some(3600u64));
        3600
    } else if unit.len() == 1 && unit[0] == 'd' {
        assert(unit@ =~= seq!['d']);
        assert(unit_secs(unit@) == Some(86400u64));
        86400
    } else {
        assert(unit@.len() != 1 || (unit@[0] != 'm' && unit@[0] != 's' && unit@[0] != 'h' && unit@[0] != 'd'));
        assert(unit_secs(unit@) is None);
        return None;
    };
    assert(unit_secs(duration_unit(raw@)) == Some(secs_per_unit));
    let r = scaled_secs(numeral, secs_per_unit);
    assert((*scaled_secs).ensures((numeral, secs_per_unit), r));
    assert(scaled_reads(*scaled_secs, numeral@, secs_per_unit, r));
    r
}

/// Reads one word of a query as a clause; none when the clause is dropped.
pub fn parse_clause<U: Fn(&str, bool) -> Option<i64>, D: Fn(&str, u64) -> Option<u64>>(
    part: &str,
    uptime_threshold: &U,
    scaled_secs: &D,
) -> (r: Option<Clause>)
    requires
        forall|t: &str, p: bool| #[trigger] uptime_threshold.requires((t, p)),
        forall|t: &str, m: u64| #[trigger] scaled_secs.requires((t, m)),
    ensures
        clause_reads(*uptime_threshold, *scaled_secs, part@, r),
{
    let lower = to_lowercase(part);
    let lc = chars_of(lower.as_str());
    let n = lc.len();
    let zone = vec!['z', 'o', 'n', 'e', ':'];
    assert(zone@ =~= zone_tag());
    if has_prefix(&lc, &zone) {
        return Some(Clause::Zone(trim_str(lower.as_str().substring_char(5, n))));
    }
    let patch = vec!['p', 'a', 't', 'c', 'h', ':'];
    assert(patch@ =~= patch_tag());
    if has_prefix(&lc, &patch) {
        return Some(Clause::Patch(trim_str(lower.as_str().substring_char(6, n))));
    }
    let above = vec!['u', 'p', 't', 'i', 'm', 'e', '>'];
    let below = vec!['u', 'p', 't', 'i', 'm', 'e', '<'];
    assert(above@ =~= uptime_above_tag());
    assert(below@ =~= uptime_below_tag());
    let is_above = has_prefix(&lc, &above);
    let is_below = has_prefix(&lc, &below);
    let part_len = part.unicode_len();
    if is_above || is_below {
        let op = if is_above {
            UptimeOp::Greater
        } else {
            UptimeOp::Less
        };
        let raw: &str = if part_len >= 7 {
            part.substring_char(7, part_len)
        } else {
            part.substring_char(0, 0)
        };
        assert(raw@ =~= after_tag(part@));
        let rc = chars_of(raw);
        let percent = rc.len() > 0 && rc[rc.len() - 1] == '%';
        let numeral = if percent {
            trim_str(raw.substring_char(0, rc.len() - 1))
        } else {
            trim_str(raw)
        };
        proof {
            if percent {
                assert(raw@.subrange(0, rc@.len() - 1) =~= raw@.drop_last());
            }
        }
        assert(numeral@ == uptime_numeral(part@));
        let read = uptime_threshold(numeral.as_str(), percent);
        assert(threshold_reads(*uptime_threshold, numeral@, percent, read));
        return match read {
            Some(threshold) => Some(Clause::Uptime { op, threshold }),
            None => None,
        };
    }
    let within = vec!['w', 'i', 't', 'h', 'i', 'n', ':'];
    assert(within@ =~= within_tag());
    if has_prefix(&lc, &within) {
        let raw: &str = if part_len >= 7 {
            part.substring_char(7, part_len)
        } else {
            part.substring_char(0, 0)
        };
        assert(raw@ =~= after_tag(part@));
        return match parse_duration(raw, scaled_secs) {
            Some(secs) => Some(Clause::Within(secs)),
            None => None,
        };
    }
    Some(Clause::Name(trim_str(lower.as_str())))
}

/// Reads a search query: each white-space separated word in turn becomes a
/// clause, and words that do not read as one are left out.
pub fn parse_query<U: Fn(&str, bool) -> Option<i64>, D: Fn(&str, u64) -> Option<u64>>(
    raw: &str,
    uptime_threshold: &U,
    scaled_secs: &D,
) -> (q: Query)
    requires
        forall|t: &str, p: bool| #[trigger] uptime_threshold.requires((t, p)),
        forall|t: &str, m: u64| #[trigger] scaled_secs.requires((t, m)),
    ensures
        query_reads(*uptime_threshold, *scaled_secs, words(raw@), q.clause_seq()),
{
    let parts = split_whitespace(raw);
    let ghost ws = parts@.map_values(|w: String| w@);
    let mut clauses: Vec<Clause> = Vec::new();
    let mut i: usize = 0;
    assert(ws.take(0) =~= Seq::<Seq<char>>::empty());
    while i < parts.len()
        invariant
            forall|t: &str, p: bool| #[trigger] uptime_threshold.requires((t, p)),
            forall|t: &str, m: u64| #[trigger] scaled_secs.requires((t, m)),
            ws == parts@.map_values(|w: String| w@),
            i <= parts@.len(),
            query_reads(*uptime_threshold, *scaled_secs, ws.take(i as int), clauses@),
        decreases parts@.len() - i,
    {
        let r = parse_clause(parts[i].as_str(), uptime_threshold, scaled_secs);
        assert(ws.take(i + 1).drop_last() =~= ws.take(i as int));
        assert(ws.take(i + 1).last() == parts@[i as int]@);
        match r {
            Some(clause) => {
                let ghost before = clauses@;
                clauses.push(clause);
                assert(clauses@.drop_last() =~= before);
            },
            None => {},
        }
        i = i + 1;
    }
    assert(ws.take(i as int) =~= ws);
    Query::new(clauses)
}

/// The ids, in order, of the fish that match the query written in `query`:
/// the query is read with the given number readers, then the fish are
/// filtered by its clauses.
pub fn filter_fish_by_text<
    F: Fn(&Fish, u64, bool, bool, bool) -> Option<FishWindow>,
    U: Fn(&str, bool) -> Option<i64>,
    D: Fn(&str, u64) -> Option<u64>,
>(
    fish_data: &FishData,
    cache: &mut NextWindowCache,
    query: &str,
    now: u64,
    use_fish_eyes: bool,
    next_window: &F,
    uptime_threshold: &U,
    scaled_secs: &D,
) -> (ids: Vec<u32>)
    requires
        callable(*next_window),
        deterministic(*next_window),
        forall|t: &str, p: bool| #[trigger] uptime_threshold.requires((t, p)),
        forall|t: &str, m: u64| #[trigger] scaled_secs.requires((t, m)),
    ensures
        exists|clauses: Seq<Clause>|
            {
                &&& query_reads(*uptime_threshold, *scaled_secs, words(query@), clauses)
                &&& (ids@, final(cache)@) == filter_step(
                    *next_window,
                    fish_data,
                    fish_data.fish_seq(),
                    clauses,
                    old(cache)@,
                    now,
                    use_fish_eyes,
                )
            },
{
    let q = parse_query(query, uptime_threshold, scaled_secs);
    let ids = filter_fish(fish_data, cache, &q, now, use_fish_eyes, next_window);
    assert(query_reads(*uptime_threshold, *scaled_secs, words(query@), q.clause_seq()));
    ids
}

} // verus!
