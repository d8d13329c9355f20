# live_timing

A verified library for following a karting live timing feed, and the server
around it.

- `src/` is the library, verified with Verus: the track and race profiles,
  the reading of feed messages (grid tables and timing lines) into the race
  state, lap time parsing and formatting, and lap statistics. Each public
  function states its result over the spec functions of its module; the
  proof functions (`lemma_profiles_agree`, `lemma_lap_text_roundtrip`,
  `lemma_statistics_within_laps`, `lemma_race_update_keeps`) state what holds
  across calls.
- `app/` is the program: it connects to the feed, applies each message with
  the library, pushes the race state as JSON to web clients, and writes the
  race logs.
- `tests/` runs the library on concrete messages and lap times.
