use live_timing::config::RaceConfig;
use live_timing::race::{extract_data, parse_race_data, try_parse_race_data, RaceData};

const ROW: &str = "<tr data-id=\"r5\" class=\"dr\"><td data-id=\"r5c2\">3</td><td data-id=\"r5c4\">17</td><td data-id=\"r5c5\">BOB</td><td data-id=\"r5c6\">12</td><td data-id=\"r5c10\">1:05.100</td><td data-id=\"r5c11\">+2.5</td><td data-id=\"r5c12\">1:04.900</td><td data-id=\"r5c13\">00:20</td></tr>";

fn table() -> String {
    format!(
        "init|r|\ngrid||<tbody><tr data-id=\"r0\" class=\"head\"><td data-id=\"c2\">Pos</td></tr>{}</tbody>",
        ROW
    )
}

fn config() -> RaceConfig {
    RaceConfig::from_profile("CAMPILLOS-30HORAS")
}

#[test]
fn extracts_cell_text() {
    assert_eq!(extract_data(ROW, "c5"), "BOB");
    assert_eq!(extract_data(ROW, "c10"), "1:05.100");
    assert_eq!(extract_data(ROW, "c99"), "");
    assert_eq!(extract_data("<td data-id=\"r1c3\"></td>", "c3"), "");
}

#[test]
fn grid_table_adds_kart_rows() {
    let mut race = RaceData::new();
    let saved = parse_race_data(&table(), &mut race, &config());
    assert!(saved.is_empty());
    assert_eq!(race.grid.len(), 1);
    let (id, g) = &race.grid[0];
    assert_eq!(id, "5");
    assert_eq!(g.position, "3");
    assert_eq!(g.kart, "17");
    assert_eq!(g.driver, "BOB");
    assert_eq!(g.lap, "12");
    assert_eq!(g.last, "1:05.100");
    assert_eq!(g.gap, "+2.5");
    assert_eq!(g.best, "1:04.900");
    assert_eq!(g.ontrack, "00:20");
    assert_eq!(g.pit, "");
    assert_eq!(g.history, vec!["1:05.100".to_string()]);
    assert_eq!(g.median, Some(String::new()));
    assert_eq!(g.average, Some(String::new()));
    assert_eq!(g.recent, Some(String::new()));
    assert!(race.pit_stops.is_empty());
}

#[test]
fn known_row_is_not_replaced() {
    let mut race = RaceData::new();
    parse_race_data(&table(), &mut race, &config());
    parse_race_data("r5c5||CAROL", &mut race, &config());
    let again = format!("grid||<tbody>{}</tbody>", ROW);
    let saved = parse_race_data(&again, &mut race, &config());
    assert!(saved.is_empty());
    assert_eq!(race.grid.len(), 1);
    assert_eq!(race.grid[0].1.driver, "CAROL");
}

#[test]
fn timing_lines_update_rows() {
    let mut race = RaceData::new();
    parse_race_data(&table(), &mut race, &config());
    let saved = parse_race_data("r5c10|tn|1:04.500\nr5c5||CAROL\r\nr5c6|in|13\nr5c2|x|1\nr9c2|x|4\nr5c7|x|zz", &mut race, &config());
    assert!(saved.is_empty());
    let g = &race.grid[0].1;
    assert_eq!(g.last, "1:04.500");
    assert_eq!(g.history, vec!["1:05.100".to_string(), "1:04.500".to_string()]);
    assert_eq!(g.median, Some("1:04.800".to_string()));
    assert_eq!(g.average, Some("1:04.500".to_string()));
    assert_eq!(g.recent, Some("1:04.800".to_string()));
    assert_eq!(g.driver, "CAROL");
    assert_eq!(g.lap, "13");
    assert_eq!(g.position, "1");
    assert_eq!(race.grid.len(), 1);
}

#[test]
fn repeated_last_lap_is_not_added_twice() {
    let mut race = RaceData::new();
    parse_race_data(&table(), &mut race, &config());
    parse_race_data("r5c10|tn|1:05.100", &mut race, &config());
    assert_eq!(race.grid[0].1.history, vec!["1:05.100".to_string()]);
    parse_race_data("r5c10|tn|", &mut race, &config());
    assert_eq!(race.grid[0].1.history, vec!["1:05.100".to_string(), String::new()]);
    parse_race_data("r5c10|tn|1:03.000", &mut race, &config());
    assert_eq!(race.grid[0].1.history, vec!["1:05.100".to_string(), "1:03.000".to_string()]);
}

#[test]
fn pit_entry_records_a_stint() {
    let mut race = RaceData::new();
    parse_race_data(&table(), &mut race, &config());
    parse_race_data("r5c10|tn|1:04.500\nr5c14|si|", &mut race, &config());
    let g = &race.grid[0].1;
    assert_eq!(g.pit, "12");
    assert!(g.history.is_empty());
    assert_eq!(race.pit_stops.len(), 1);
    let s = &race.pit_stops[0];
    assert_eq!(s.kart, "17");
    assert_eq!(s.driver, "BOB");
    assert_eq!(s.lap, "12");
    assert_eq!(s.history, vec!["1:05.100".to_string(), "1:04.500".to_string()]);
    assert_eq!(s.median, Some("1:04.800".to_string()));
    assert_eq!(s.average, Some("1:04.500".to_string()));
    assert_eq!(s.recent, Some("1:04.800".to_string()));
}

#[test]
fn new_race_hands_out_the_old_one() {
    let mut race = RaceData::new();
    parse_race_data(&table(), &mut race, &config());
    parse_race_data("r5c14|si|", &mut race, &config());
    let saved = parse_race_data("init|r|\nr5c5||DAN", &mut race, &config());
    assert_eq!(saved.len(), 1);
    assert_eq!(saved[0].grid.len(), 1);
    assert_eq!(saved[0].grid[0].1.driver, "BOB");
    assert_eq!(saved[0].pit_stops.len(), 1);
    assert!(race.grid.is_empty());
    assert_eq!(race.pit_stops.len(), 1);
    // a new race with an empty grid hands out nothing
    let saved = parse_race_data("init|r|", &mut race, &config());
    assert!(saved.is_empty());
}

#[test]
fn unreadable_message_leaves_race_unchanged() {
    let mut race = RaceData::new();
    parse_race_data(&table(), &mut race, &config());
    let r = try_parse_race_data("r5c5||CAROL\nr5c10", &mut race, &config());
    assert!(r.is_none());
    assert_eq!(race.grid[0].1.driver, "BOB");
    let r = try_parse_race_data("grid||<tbody><tr data-id=\"r7\"><td data-id=\"r7c2\">1", &mut race, &config());
    assert!(r.is_none());
    assert_eq!(race.grid.len(), 1);
    let r = try_parse_race_data("r5c5||CAROL", &mut race, &config());
    assert_eq!(r.map(|v| v.len()), Some(0));
    assert_eq!(race.grid[0].1.driver, "CAROL");
}

#[test]
fn non_ascii_text_is_kept() {
    let mut race = RaceData::new();
    parse_race_data(&table(), &mut race, &config());
    parse_race_data("r5c5||José Núñez", &mut race, &config());
    assert_eq!(race.grid[0].1.driver, "José Núñez");
}

#[test]
fn overflowing_lap_time_makes_message_unreadable() {
    let mut race = RaceData::new();
    parse_race_data(&table(), &mut race, &config());
    let r = try_parse_race_data("r5c10|tn|400000000000000:00.000", &mut race, &config());
    assert!(r.is_none());
    assert_eq!(race.grid[0].1.last, "1:05.100");
    // laps that each fit but whose middle pair does not add up within a u64
    let mut race = RaceData::new();
    parse_race_data(&table(), &mut race, &config());
    parse_race_data("r5c10|tn|200000000000000:00.000\nr5c10|tn|200000000000001:00.000", &mut race, &config());
    assert_eq!(race.grid[0].1.history.len(), 3);
    let r = try_parse_race_data("r5c10|tn|200000000000002:00.000", &mut race, &config());
    assert!(r.is_none());
    assert_eq!(race.grid[0].1.history.len(), 3);
}
