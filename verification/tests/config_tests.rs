use live_timing::config::{is_known_profile, RaceConfig, TrackConfig};

#[test]
fn track_urls_by_profile() {
    assert_eq!(TrackConfig::from_profile("LIGNANO-PRACTICE").url_track(), "ws://www.apex-timing.com:8182/");
    assert_eq!(TrackConfig::from_profile("SANTOS-RACE").url_track(), "ws://www.apex-timing.com:8092/");
    assert_eq!(TrackConfig::from_profile("CAMPILLOS-30HORAS").url_track(), "ws://www.apex-timing.com:8802/");
    assert_eq!(TrackConfig::from_profile("CAMPILLOS-8HORAS-FP").url_track(), "ws://www.apex-timing.com:8802/");
    assert_eq!(TrackConfig::from_profile("ARIZA-RACE").url_track(), "ws://www.apex-timing.com:8972/");
}

#[test]
fn race_columns_of_campillos_30_hours() {
    let c = RaceConfig::from_profile("CAMPILLOS-30HORAS");
    assert_eq!(c.kart(), "c4");
    assert_eq!(c.driver(), "c5");
    assert_eq!(c.position(), "c2");
    assert_eq!(c.best(), "c12");
    assert_eq!(c.last(), "c10");
    assert_eq!(c.gap(), "c11");
    assert_eq!(c.lap(), "c6");
    assert_eq!(c.ontrack(), "c13");
    assert_eq!(c.pit(), "c14");
}

#[test]
fn practice_sessions_share_columns() {
    let a = RaceConfig::from_profile("LIGNANO-PRACTICE");
    let b = RaceConfig::from_profile("SANTOS-PRACTICE");
    assert_eq!(a.kart(), b.kart());
    assert_eq!(a.last(), "c10");
    assert_eq!(a.pit(), "not-present");
    let r = RaceConfig::from_profile("LIGNANO-RACE");
    assert_eq!(r.pit(), "c10");
    assert_eq!(r.last(), "c6");
}

#[test]
fn sessions_without_pit_column() {
    for p in ["CAMPILLOS-PRACTICE", "CAMPILLOS-RACE", "ARIZA-PRACTICE", "ARIZA-RACE"] {
        let c = RaceConfig::from_profile(p);
        assert_eq!(c.pit(), "not-present");
        assert_eq!(c.ontrack(), "not-present");
    }
    assert_eq!(RaceConfig::from_profile("CAMPILLOS-8HORAS-FP").pit(), "c3");
}

#[test]
fn known_profiles() {
    for p in [
        "LIGNANO-PRACTICE", "LIGNANO-RACE", "SANTOS-PRACTICE", "SANTOS-RACE",
        "CAMPILLOS-PRACTICE", "CAMPILLOS-RACE", "CAMPILLOS-8HORAS-FP", "CAMPILLOS-30HORAS",
        "ARIZA-PRACTICE", "ARIZA-RACE",
    ] {
        assert!(is_known_profile(p));
    }
    assert!(!is_known_profile("MONZA-RACE"));
    assert!(!is_known_profile("lignano-race"));
    assert!(!is_known_profile(""));
}

#[test]
fn live_timing_urls_parse() {
    let u = TrackConfig::from_profile("ARIZA-RACE").live_timing_url().unwrap();
    assert_eq!(u.scheme(), "ws");
    assert_eq!(u.host_str(), Some("www.apex-timing.com"));
    assert_eq!(u.port(), Some(8972));
    let u = TrackConfig::from_profile("CAMPILLOS-RACE").live_timing_url().unwrap();
    assert_eq!(u.port(), Some(8802));
    let bad = TrackConfig { url_track: "not a url" };
    assert!(bad.live_timing_url().is_err());
}
