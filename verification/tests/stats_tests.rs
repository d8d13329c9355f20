use live_timing::laptime::lap_time_to_milliseconds;
use live_timing::stats::compute_lap_statistics;

fn h(v: &[&str]) -> Vec<String> {
    v.iter().map(|s| s.to_string()).collect()
}

fn some(s: &str) -> Option<String> {
    Some(s.to_string())
}

#[test]
fn no_laps_no_statistics() {
    assert_eq!(compute_lap_statistics(&h(&[])), (None, None, None));
    assert_eq!(compute_lap_statistics(&h(&["", "pit", "1:02"])), (None, None, None));
}

#[test]
fn odd_count() {
    let r = compute_lap_statistics(&h(&["1:00.000", "1:02.000", "1:01.000"]));
    assert_eq!(r, (some("1:01.000"), some("1:00.500"), some("1:01.000")));
}

#[test]
fn even_count_takes_mean_of_middle_pair() {
    let r = compute_lap_statistics(&h(&["30.000", "31.001"]));
    assert_eq!(r, (some("30.500"), some("30.000"), some("30.500")));
}

#[test]
fn single_lap() {
    let r = compute_lap_statistics(&h(&["45.678"]));
    assert_eq!(r, (some("45.678"), some("45.678"), some("45.678")));
}

#[test]
fn unreadable_entries_are_skipped() {
    let r = compute_lap_statistics(&h(&["", "abc", "30.000"]));
    assert_eq!(r, (some("30.000"), some("30.000"), some("30.000")));
}

#[test]
fn average_drops_the_slowest_lap() {
    let r = compute_lap_statistics(&h(&["1:00.000", "1:00.000", "5:00.000"]));
    assert_eq!(r.1, some("1:00.000"));
    assert_eq!(r.0, some("1:00.000"));
}

#[test]
fn recent_median_looks_at_last_ten_entries() {
    let mut v = vec!["10.000"; 2];
    v.extend(vec!["20.000"; 10]);
    let r = compute_lap_statistics(&h(&v));
    assert_eq!(r.0, some("20.000"));
    assert_eq!(r.2, some("20.000"));
    // ten unreadable entries at the end leave no recent median
    let mut w = vec!["10.000"; 3];
    w.extend(vec!["x"; 10]);
    let r = compute_lap_statistics(&h(&w));
    assert_eq!(r, (some("10.000"), some("10.000"), None));
}

#[test]
fn recent_window_counts_entries_not_laps() {
    let mut v = vec!["10.000", "12.000"];
    v.extend(vec!["x"; 9]);
    v.push("14.000");
    let r = compute_lap_statistics(&h(&v));
    assert_eq!(r.0, some("12.000"));
    assert_eq!(r.2, some("14.000"));
}

#[test]
fn median_and_average_lie_between_fastest_and_slowest() {
    let laps = ["1:10.000", "58.250", "1:03.400", "1:01.000", "2:30.000", "1:00.001"];
    let r = compute_lap_statistics(&h(&laps));
    let ms = |s: &Option<String>| lap_time_to_milliseconds(s.as_ref().unwrap()).unwrap();
    assert_eq!(r.0, some("1:02.200"));
    assert_eq!(r.1, some("1:02.530"));
    for v in [ms(&r.0), ms(&r.1), ms(&r.2)] {
        assert!(58_250 <= v && v <= 150_000);
    }
}
