use ffxivfishing::filter::{filter_fish, Clause, NextWindowCache, Query, UptimeOp};
use ffxivfishing::fish::{Fish, FishData, FishWindow};
use ffxivfishing::query::{filter_fish_by_text, parse_duration, parse_query};

/// Orders floats as integers do; -0.0 and 0.0 share a key.
fn uptime_key(x: f64) -> i64 {
    let x = if x == 0.0 { 0.0 } else { x };
    let bits = x.to_bits() as i64;
    if bits < 0 {
        bits ^ i64::MAX
    } else {
        bits
    }
}

fn read_threshold(text: &str, percent: bool) -> Option<i64> {
    let value: f64 = text.parse().ok()?;
    if !value.is_finite() {
        return None;
    }
    let threshold = if percent { value / 100.0 } else { value };
    Some(uptime_key(threshold))
}

fn read_secs(text: &str, secs_per_unit: u64) -> Option<u64> {
    let value: f64 = text.parse().ok()?;
    if !value.is_finite() {
        return None;
    }
    let secs = value * secs_per_unit as f64;
    if !secs.is_finite() {
        return None;
    }
    Some(secs as u64)
}

fn parse(raw: &str) -> Query {
    parse_query(raw, &read_threshold, &read_secs)
}

fn fish(id: u32, name: &str, region: &str, location: &str, patch: (u8, u8), uptime: f64) -> Fish {
    Fish {
        id,
        name: name.to_string(),
        region_name: region.to_string(),
        location_name: location.to_string(),
        patch,
        uptime_key: uptime_key(uptime),
    }
}

fn sample_data() -> FishData {
    FishData::new(vec![
        fish(24994, "Warden of the Seven Hues", "Northern Thanalan", "Bluefog", (4, 0), 0.05),
        fish(4776, "Glowing Fish", "La Noscea", "Mist", (2, 0), 0.5),
        fish(30000, "Mistbeard's Cup", "The Black Shroud", "Central Shroud", (6, 10), 1.0),
        fish(33241, "Cinder Surprise", "Ilsabard", "The Sea of Ash", (7, 0), 0.001),
        fish(33240, "Aquamaton", "Ilsabard", "Mist Shore", (6, 5), 0.2),
    ])
}

fn no_windows(_: &Fish, _: u64, _: bool, _: bool, _: bool) -> Option<FishWindow> {
    None
}

#[test]
fn parse_query_name_and_combination() {
    let q = parse("Glowing");
    assert_eq!(q.clauses(), &[Clause::Name("glowing".to_string())][..]);

    let q = parse("zone:Mist uptime>1%");
    assert_eq!(
        q.clauses(),
        &[
            Clause::Zone("mist".to_string()),
            Clause::Uptime {
                op: UptimeOp::Greater,
                threshold: uptime_key(0.01)
            },
        ][..]
    );
}

#[test]
fn parse_query_patch_and_uptime() {
    let q = parse("patch:6.0");
    assert_eq!(q.clauses(), &[Clause::Patch("6.0".to_string())][..]);

    let q = parse("uptime<0.1%");
    assert_eq!(
        q.clauses(),
        &[Clause::Uptime {
            op: UptimeOp::Less,
            threshold: uptime_key(0.001)
        }][..]
    );

    let q = parse("uptime>5");
    assert_eq!(
        q.clauses(),
        &[Clause::Uptime {
            op: UptimeOp::Greater,
            threshold: uptime_key(5.0)
        }][..]
    );
}

#[test]
fn parse_query_within_durations() {
    assert_eq!(parse("within:30m").clauses(), &[Clause::Within(1800)][..]);
    assert_eq!(parse("within:30").clauses(), &[Clause::Within(1800)][..]);
    assert_eq!(parse("within:45s").clauses(), &[Clause::Within(45)][..]);
    assert_eq!(parse("within:2h").clauses(), &[Clause::Within(7200)][..]);
    assert_eq!(parse("within:1d").clauses(), &[Clause::Within(86400)][..]);
}

#[test]
fn parse_query_invalid_clauses_are_ignored() {
    assert_eq!(parse("uptime>abc").clauses(), &[][..]);
    assert_eq!(parse("within:xx").clauses(), &[][..]);
    assert_eq!(parse("within:30min").clauses(), &[][..]);
    assert_eq!(
        parse("zone:Mist uptime>x name").clauses(),
        &[
            Clause::Zone("mist".to_string()),
            Clause::Name("name".to_string())
        ][..]
    );
}

#[test]
fn patch_string_formats_tens_as_single_digit() {
    let data = sample_data();
    // Fish from patch 7.0 (patch tuple (7, 0)) should render as "7.0".
    let fish = data.fishes().iter().find(|f| f.patch == (7, 0)).unwrap();
    assert_eq!(fish.patch_string(), "7.0");
}

#[test]
fn patch_string_other_forms() {
    assert_eq!(fish(1, "a", "b", "c", (6, 10), 0.0).patch_string(), "6.1");
    assert_eq!(fish(1, "a", "b", "c", (6, 5), 0.0).patch_string(), "6.05");
    assert_eq!(fish(1, "a", "b", "c", (6, 11), 0.0).patch_string(), "6.11");
    assert_eq!(fish(1, "a", "b", "c", (255, 99), 0.0).patch_string(), "255.99");
    assert_eq!(fish(1, "a", "b", "c", (12, 0), 0.0).patch_string(), "12.0");
}

#[test]
fn filter_by_name_and_zone() {
    let data = sample_data();
    let mut cache = NextWindowCache::new();
    let now = 0;

    let ids = filter_fish(&data, &mut cache, &parse("warden of the seven hues"), now, false, &no_windows);
    assert!(ids.contains(&24994));

    let ids = filter_fish(&data, &mut cache, &parse("zone:mist"), now, false, &no_windows);
    assert!(!ids.is_empty());
    assert!(ids.iter().all(|id| {
        let fish = data.fish_by_id(*id).unwrap();
        fish.region_name.to_lowercase().contains("mist")
            || fish.location_name.to_lowercase().contains("mist")
    }));
}

#[test]
fn filter_zone_matches_region_or_location_only() {
    let data = sample_data();
    let mut cache = NextWindowCache::new();
    let ids = filter_fish(&data, &mut cache, &parse("zone:mist"), 0, false, &no_windows);
    // "Mistbeard's Cup" has "mist" in its name only.
    assert_eq!(ids, vec![4776, 33240]);
    let ids = filter_fish(&data, &mut cache, &parse("mist"), 0, false, &no_windows);
    assert_eq!(ids, vec![30000]);
}

#[test]
fn filter_by_patch_and_uptime() {
    let data = sample_data();
    let mut cache = NextWindowCache::new();
    let ids = filter_fish(&data, &mut cache, &parse("patch:6.1"), 0, false, &no_windows);
    assert_eq!(ids, vec![30000]);
    let ids = filter_fish(&data, &mut cache, &parse("patch:6.0"), 0, false, &no_windows);
    assert_eq!(ids, vec![33240]);
    let ids = filter_fish(&data, &mut cache, &parse("uptime<10%"), 0, false, &no_windows);
    assert_eq!(ids, vec![24994, 33241]);
    let ids = filter_fish(&data, &mut cache, &parse("uptime>0.5"), 0, false, &no_windows);
    assert_eq!(ids, vec![30000]);
    let ids = filter_fish(&data, &mut cache, &parse("uptime>0.5 zone:shroud"), 0, false, &no_windows);
    assert_eq!(ids, vec![30000]);
    let ids = filter_fish(&data, &mut cache, &parse("uptime>0.5 zone:mist"), 0, false, &no_windows);
    assert!(ids.is_empty());
}

#[test]
fn empty_query_returns_every_fish() {
    let data = sample_data();
    let mut cache = NextWindowCache::new();
    let ids = filter_fish(&data, &mut cache, &parse("   "), 0, false, &no_windows);
    assert_eq!(ids, vec![24994, 4776, 30000, 33241, 33240]);
}

/// The next window of fish `id` starts `id % 1000` minutes from the start of
/// the hour and lasts ten minutes.
fn windows_by_id(fish: &Fish, from: u64, _inc: bool, _fi: bool, eyes: bool) -> Option<FishWindow> {
    if eyes {
        return None;
    }
    let hour = from / 3_600 * 3_600;
    let start = hour + (fish.id as u64 % 1000) % 60 * 60;
    Some(FishWindow::new(start, start + 600))
}

#[test]
fn filter_within_uses_next_window() {
    let data = sample_data();
    let mut cache = NextWindowCache::new();
    // Offsets in minutes: 24994 -> 34 (994 % 60), 4776 -> 56, 30000 -> 0,
    // 33241 -> 1, 33240 -> 0.
    let now = 3_600 * 10;
    let ids = filter_fish(&data, &mut cache, &parse("within:5m"), now, false, &windows_by_id);
    assert_eq!(ids, vec![30000, 33241, 33240]);
    let ids = filter_fish(&data, &mut cache, &parse("within:40m"), now, false, &windows_by_id);
    assert_eq!(ids, vec![24994, 30000, 33241, 33240]);
    let ids = filter_fish(&data, &mut cache, &parse("within:40m"), now, true, &windows_by_id);
    assert!(ids.is_empty());
}

#[test]
fn within_horizon_saturates() {
    let data = sample_data();
    let mut cache = NextWindowCache::new();
    let q = Query::new(vec![Clause::Within(u64::MAX)]);
    let ids = filter_fish(&data, &mut cache, &q, 3_600 * 10, false, &windows_by_id);
    assert_eq!(ids.len(), 5);
}

#[test]
fn cache_answers_repeat_within_the_minute() {
    let data = sample_data();
    let mut cache = NextWindowCache::new();
    let counter = std::cell::Cell::new(0u32);
    let counting = |fish: &Fish, from: u64, inc: bool, fi: bool, eyes: bool| {
        counter.set(counter.get() + 1);
        windows_by_id(fish, from, inc, fi, eyes)
    };
    let first = cache.next_window(&data, 4776, 120, false, &counting);
    let again = cache.next_window(&data, 4776, 179, false, &counting);
    assert_eq!(counter.get(), 1);
    assert_eq!(first.map(|w| w.start()), again.map(|w| w.start()));
    // Another setting is another entry.
    cache.next_window(&data, 4776, 150, true, &counting);
    assert_eq!(counter.get(), 2);
    // A new minute forgets what was cached.
    cache.next_window(&data, 4776, 180, false, &counting);
    assert_eq!(counter.get(), 3);
    // Unknown fish have no window and are not looked up.
    assert!(cache.next_window(&data, 1, 180, false, &counting).is_none());
    assert_eq!(counter.get(), 3);
}

#[test]
fn parse_duration_units_and_fractions() {
    assert_eq!(parse_duration(" 1.5h ", &read_secs), Some(5400));
    assert_eq!(parse_duration("2 D", &read_secs), Some(172_800));
    assert_eq!(parse_duration("10S", &read_secs), Some(10));
    assert_eq!(parse_duration("", &read_secs), None);
    assert_eq!(parse_duration("5w", &read_secs), None);
    assert_eq!(parse_duration("1.2.3m", &read_secs), None);
}

#[test]
fn parse_query_splits_on_any_white_space() {
    let q = parse(" Zone:Mist\tPATCH:6.1 \n glowing ");
    assert_eq!(
        q.clauses(),
        &[
            Clause::Zone("mist".to_string()),
            Clause::Patch("6.1".to_string()),
            Clause::Name("glowing".to_string()),
        ][..]
    );
    let q = parse("uptime>50% within:1h");
    assert_eq!(
        q.clauses(),
        &[
            Clause::Uptime { op: UptimeOp::Greater, threshold: uptime_key(0.5) },
            Clause::Within(3600),
        ][..]
    );
}

#[test]
fn fish_lookup_by_id() {
    let data = sample_data();
    assert_eq!(data.fish_by_id(33241).unwrap().name, "Cinder Surprise");
    assert!(data.fish_by_id(7).is_none());
}

#[test]
fn defaults_are_empty() {
    assert!(Query::default().clauses().is_empty());
    let data = sample_data();
    let mut cache = NextWindowCache::default();
    let ids = filter_fish(&data, &mut cache, &Query::default(), 0, false, &no_windows);
    assert_eq!(ids.len(), 5);
}

#[test]
fn filter_by_text_reads_then_filters() {
    let data = sample_data();
    let mut cache = NextWindowCache::new();
    let ids = filter_fish_by_text(
        &data, &mut cache, "ZONE:mist uptime<25%", 0, false, &no_windows, &read_threshold, &read_secs,
    );
    assert_eq!(ids, vec![33240]);
}

#[test]
fn joined_query_intersects_results() {
    let data = sample_data();
    let now = 3_600 * 10;
    let run = |q: &str| {
        let mut cache = NextWindowCache::new();
        filter_fish(&data, &mut cache, &parse(q), now, false, &windows_by_id)
    };
    for (a, b) in [("zone:mist", "uptime<25%"), ("within:5m", "patch:6"), ("fish", "within:40m")] {
        let joined = run(&format!("{a} {b}"));
        let second = run(b);
        let expected: Vec<u32> = run(a).into_iter().filter(|id| second.contains(id)).collect();
        assert_eq!(joined, expected);
    }
}

#[test]
fn dropped_words_change_nothing() {
    let data = sample_data();
    let mut cache = NextWindowCache::new();
    for tok in ["uptime>abc", "uptime>x", "within:xx", "within:30min"] {
        assert!(parse(tok).clauses().is_empty());
        let with = filter_fish(&data, &mut cache, &parse(&format!("zone:mist {tok}")), 0, false, &no_windows);
        let without = filter_fish(&data, &mut cache, &parse("zone:mist"), 0, false, &no_windows);
        assert_eq!(with, without);
        let all = filter_fish(&data, &mut cache, &parse(tok), 0, false, &no_windows);
        assert_eq!(all.len(), 5);
    }
}

#[test]
fn longer_horizon_never_drops_a_fish() {
    let data = sample_data();
    let now = 3_600 * 10 + 120;
    let mut previous: Vec<u32> = Vec::new();
    for secs in [0u64, 60, 600, 1_800, 3_600, 7_200] {
        let mut cache = NextWindowCache::new();
        let ids = filter_fish(&data, &mut cache, &Query::new(vec![Clause::Within(secs)]), now, false, &windows_by_id);
        assert!(previous.iter().all(|id| ids.contains(id)));
        previous = ids;
    }
    assert_eq!(previous.len(), 5);
}
