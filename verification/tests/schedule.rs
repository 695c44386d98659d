use ffxivfishing::fish::{Fish, FishWindow};
use ffxivfishing::schedule::{fish_windows_in_schedule, window_overlaps_any_schedule, ScheduleEntry};

const DAY_SECS: i64 = 86_400;

fn bst_offset() -> i32 {
    3_600
}

fn gmt_offset() -> i32 {
    0
}

fn bst_secs() -> u64 {
    1_721_001_600
}

fn gmt_secs() -> u64 {
    1_705_276_800
}

fn evening_schedule(day_of_week: Option<u8>) -> Vec<ScheduleEntry> {
    vec![ScheduleEntry {
        day_of_week,
        start_sec: 82_800,
        end_sec: 86_400,
    }]
}

#[test]
fn timezone_offset_is_applied_to_schedule() {
    let schedule = evening_schedule(None);
    let b = bst_secs();
    assert!(!window_overlaps_any_schedule(
        b + 71_760,
        b + 72_150,
        &schedule,
        bst_offset(),
    ));
    assert!(window_overlaps_any_schedule(
        b + 78_960,
        b + 79_350,
        &schedule,
        bst_offset(),
    ));
}

#[test]
fn daylight_saving_changes_matching_utc_window() {
    let schedule = evening_schedule(None);
    let window_start = 78_960;
    let window_end = 79_320;
    assert!(window_overlaps_any_schedule(
        bst_secs() + window_start,
        bst_secs() + window_end,
        &schedule,
        bst_offset(),
    ));
    assert!(!window_overlaps_any_schedule(
        gmt_secs() + window_start,
        gmt_secs() + window_end,
        &schedule,
        gmt_offset(),
    ));
}

#[test]
fn day_of_week_filtering_uses_local_day() {
    let schedule = evening_schedule(Some(1));
    let b = gmt_secs();
    assert!(window_overlaps_any_schedule(
        b + 82_860,
        b + 82_920,
        &schedule,
        gmt_offset(),
    ));
    assert!(!window_overlaps_any_schedule(
        b + DAY_SECS as u64 + 82_860,
        b + DAY_SECS as u64 + 82_920,
        &schedule,
        gmt_offset(),
    ));
}

#[test]
fn overnight_schedule_matches_after_midnight() {
    let schedule = vec![ScheduleEntry {
        day_of_week: None,
        start_sec: 23 * 3_600,
        end_sec: 1 * 3_600,
    }];
    let b = gmt_secs();
    assert!(window_overlaps_any_schedule(
        b + 86_400 + 1_800,
        b + 86_400 + 3_600,
        &schedule,
        gmt_offset(),
    ));
}

#[test]
fn negative_offset_moves_local_day_back() {
    // 2024-01-15 00:30 UTC is Sunday 2024-01-14 19:30 at UTC-5.
    let schedule = vec![ScheduleEntry {
        day_of_week: Some(0),
        start_sec: 19 * 3_600,
        end_sec: 20 * 3_600,
    }];
    let b = gmt_secs();
    assert!(window_overlaps_any_schedule(b + 1_800, b + 2_400, &schedule, -5 * 3_600));
    assert!(!window_overlaps_any_schedule(b + 1_800, b + 2_400, &schedule, 0));
}

#[test]
fn touching_slot_edges_do_not_overlap() {
    let schedule = evening_schedule(None);
    let b = gmt_secs();
    // Window ends exactly when the slot starts.
    assert!(!window_overlaps_any_schedule(b + 82_000, b + 82_800, &schedule, 0));
    // Window starts exactly when the slot ends.
    assert!(!window_overlaps_any_schedule(b + 86_400, b + 87_000, &schedule, 0));
    assert!(window_overlaps_any_schedule(b + 82_000, b + 82_801, &schedule, 0));
}

#[test]
fn empty_schedule_never_matches() {
    assert!(!window_overlaps_any_schedule(0, 1_000_000, &[], 0));
}

#[test]
fn window_spanning_days_meets_weekday_slot() {
    // Monday slot 10:00-11:00; window from Sunday noon to Tuesday noon (UTC).
    let schedule = vec![ScheduleEntry {
        day_of_week: Some(1),
        start_sec: 36_000,
        end_sec: 39_600,
    }];
    let sunday = gmt_secs() - 86_400;
    assert!(window_overlaps_any_schedule(
        sunday + 43_200,
        sunday + 2 * 86_400 + 43_200,
        &schedule,
        0
    ));
}

fn sample_fish() -> Fish {
    Fish {
        id: 1,
        name: "Test Fish".to_string(),
        region_name: "La Noscea".to_string(),
        location_name: "Mist".to_string(),
        patch: (6, 0),
        uptime_key: 0,
    }
}

/// Windows of 600 s starting every hour on the hour.
fn hourly(_fish: &Fish, from: u64, include_ongoing: bool, _fi: bool, _eyes: bool) -> Option<FishWindow> {
    let hour = from / 3_600;
    let start_this = hour * 3_600;
    if include_ongoing && from < start_this + 600 {
        return Some(FishWindow::new(start_this, start_this + 600));
    }
    let next = (hour + 1) * 3_600;
    Some(FishWindow::new(next, next + 600))
}

#[test]
fn schedule_windows_respect_limit_and_schedule() {
    let fish = sample_fish();
    let b = gmt_secs();
    // Slot 02:00-04:00 every day.
    let schedule = vec![ScheduleEntry {
        day_of_week: None,
        start_sec: 7_200,
        end_sec: 14_400,
    }];
    let windows = fish_windows_in_schedule(
        &fish, b, &schedule, 86_400, 10, 0, true, false, true, &hourly,
    );
    let starts: Vec<u64> = windows.iter().map(|w| w.start() - b).collect();
    assert_eq!(starts, vec![7_200, 10_800]);

    let windows = fish_windows_in_schedule(
        &fish, b, &schedule, 86_400, 1, 0, true, false, true, &hourly,
    );
    assert_eq!(windows.len(), 1);
    assert_eq!(windows[0].start(), b + 7_200);

    let windows = fish_windows_in_schedule(
        &fish, b, &schedule, 86_400, 0, 0, true, false, true, &hourly,
    );
    assert!(windows.is_empty());
}

#[test]
fn schedule_windows_include_ongoing_only_first() {
    let fish = sample_fish();
    let b = gmt_secs();
    let schedule = vec![ScheduleEntry {
        day_of_week: None,
        start_sec: 0,
        end_sec: 0,
    }];
    // Every day all day (end <= start means through to the next day).
    let windows = fish_windows_in_schedule(
        &fish, b + 60, &schedule, 7_200, 10, 0, true, false, true, &hourly,
    );
    let starts: Vec<u64> = windows.iter().map(|w| w.start() - b).collect();
    assert_eq!(starts, vec![0, 3_600, 7_200]);

    let windows = fish_windows_in_schedule(
        &fish, b + 60, &schedule, 7_200, 10, 0, true, false, false, &hourly,
    );
    let starts: Vec<u64> = windows.iter().map(|w| w.start() - b).collect();
    assert_eq!(starts, vec![3_600, 7_200]);
}

#[test]
fn schedule_windows_stop_when_none_left() {
    let fish = sample_fish();
    let none = |_: &Fish, _: u64, _: bool, _: bool, _: bool| -> Option<FishWindow> { None };
    let schedule = evening_schedule(None);
    let windows = fish_windows_in_schedule(
        &fish, gmt_secs(), &schedule, 86_400, 5, 0, true, false, true, &none,
    );
    assert!(windows.is_empty());
}

#[test]
fn schedule_windows_stop_after_period() {
    let fish = sample_fish();
    let b = gmt_secs();
    let schedule = vec![ScheduleEntry { day_of_week: None, start_sec: 0, end_sec: 0 }];
    // Hourly windows: only the ones starting within the period are returned,
    // even though the limit would allow more.
    let windows = fish_windows_in_schedule(&fish, b, &schedule, 3_600, 5, 0, true, false, true, &hourly);
    let starts: Vec<u64> = windows.iter().map(|w| w.start() - b).collect();
    assert_eq!(starts, vec![0, 3_600]);
    let windows = fish_windows_in_schedule(&fish, b + 1, &schedule, 3_598, 5, 0, true, false, true, &hourly);
    let starts: Vec<u64> = windows.iter().map(|w| w.start() - b).collect();
    assert_eq!(starts, vec![0]);
}

#[test]
fn raising_the_limit_only_appends() {
    let fish = sample_fish();
    let b = gmt_secs();
    let schedule = vec![ScheduleEntry { day_of_week: None, start_sec: 7_200, end_sec: 14_400 }];
    let all = fish_windows_in_schedule(&fish, b, &schedule, 3 * 86_400, 100, 0, true, false, true, &hourly);
    for limit in 0..8u32 {
        let some = fish_windows_in_schedule(&fish, b, &schedule, 3 * 86_400, limit, 0, true, false, true, &hourly);
        assert!(some.len() == limit as usize || some.len() == all.len());
        for (x, y) in some.iter().zip(all.iter()) {
            assert_eq!(x.start(), y.start());
        }
    }
}

#[test]
fn longer_period_only_appends() {
    let fish = sample_fish();
    let b = gmt_secs();
    let schedule = vec![ScheduleEntry { day_of_week: None, start_sec: 7_200, end_sec: 14_400 }];
    let mut previous: Vec<u64> = Vec::new();
    for period in [0u64, 3_600, 7_200, 86_400, 2 * 86_400] {
        let starts: Vec<u64> = fish_windows_in_schedule(&fish, b, &schedule, period, 50, 0, true, false, true, &hourly)
            .iter()
            .map(|w| w.start())
            .collect();
        assert!(starts.starts_with(&previous));
        previous = starts;
    }
    assert_eq!(previous.len(), 4);
}

#[test]
fn full_day_schedule_keeps_every_window() {
    let fish = sample_fish();
    let b = gmt_secs() + 1_234;
    let whole = vec![ScheduleEntry { day_of_week: None, start_sec: 0, end_sec: 86_400 }];
    let from_noon = vec![ScheduleEntry { day_of_week: None, start_sec: 43_200, end_sec: 43_200 }];
    let none: Vec<ScheduleEntry> = Vec::new();
    for offset in [-36_000, 0, 3_600] {
        let a = fish_windows_in_schedule(&fish, b, &whole, 86_400, 100, offset, true, false, true, &hourly);
        let c = fish_windows_in_schedule(&fish, b, &from_noon, 86_400, 100, offset, true, false, true, &hourly);
        assert_eq!(a.len(), 24);
        assert_eq!(c.len(), 24);
        let d = fish_windows_in_schedule(&fish, b, &none, 86_400, 100, offset, true, false, true, &hourly);
        assert!(d.is_empty());
    }
}
