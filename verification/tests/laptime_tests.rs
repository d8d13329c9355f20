use live_timing::laptime::{lap_time_to_milliseconds, milliseconds_to_lap_time};

#[test]
fn reads_minutes_seconds_millis() {
    assert_eq!(lap_time_to_milliseconds("1:02.345"), Some(62345));
    assert_eq!(lap_time_to_milliseconds("12:00.001"), Some(720001));
}

#[test]
fn reads_seconds_only() {
    assert_eq!(lap_time_to_milliseconds("59.999"), Some(59999));
    assert_eq!(lap_time_to_milliseconds("5.7"), Some(5007));
}

#[test]
fn refuses_other_text() {
    assert_eq!(lap_time_to_milliseconds(""), None);
    assert_eq!(lap_time_to_milliseconds("abc"), None);
    assert_eq!(lap_time_to_milliseconds("1:02"), None);
    assert_eq!(lap_time_to_milliseconds("1:2:3.4"), None);
    assert_eq!(lap_time_to_milliseconds("1:02.3.4"), None);
    assert_eq!(lap_time_to_milliseconds("-1:02.345"), None);
    assert_eq!(lap_time_to_milliseconds(" 1:02.345"), None);
    assert_eq!(lap_time_to_milliseconds("1:.345"), None);
}

#[test]
fn plus_sign_as_in_std_parse() {
    assert_eq!(lap_time_to_milliseconds("+1:+02.+003"), Some(62003));
    assert_eq!(lap_time_to_milliseconds("+:02.003"), None);
}

#[test]
fn three_colon_pieces_read_the_first() {
    // with a colon count other than one the first piece must hold "SS.mmm"
    assert_eq!(lap_time_to_milliseconds("02.500:x:y"), Some(2500));
}

#[test]
fn writes_lap_times() {
    assert_eq!(milliseconds_to_lap_time(62345), "1:02.345");
    assert_eq!(milliseconds_to_lap_time(5007), "05.007");
    assert_eq!(milliseconds_to_lap_time(0), "00.000");
    assert_eq!(milliseconds_to_lap_time(60000), "1:00.000");
    assert_eq!(milliseconds_to_lap_time(3_600_000), "60:00.000");
    assert_eq!(milliseconds_to_lap_time(u64::MAX), "307445734561825:51.615");
}

#[test]
fn reading_a_written_lap_time_gives_it_back() {
    for ms in [0u64, 1, 999, 1000, 59_999, 60_000, 62_345, 3_599_999, 123_456_789, u64::MAX] {
        assert_eq!(lap_time_to_milliseconds(&milliseconds_to_lap_time(ms)), Some(ms));
    }
}

#[test]
fn writing_normalises_text() {
    assert_eq!(milliseconds_to_lap_time(lap_time_to_milliseconds("1:5.7").unwrap()), "1:05.007");
}
