//! Live timing of karting races: reads the messages of a track's live
//! timing feed into a grid of karts, keeps each kart's lap history and lap
//! statistics, and records a stint whenever a kart enters the pit lane.
//!
//! - `config`: the track and race profiles (feed address, grid columns);
//! - `text`: character-level searching, splitting and line breaking;
//! - `laptime`: lap time text and milliseconds;
//! - `stats`: median and average lap times of a history;
//! - `race`: the race state and how a feed message changes it.
use vstd::prelude::*;

pub mod config;
pub mod text;
pub mod laptime;
pub mod stats;
pub mod race;

verus! {

} // verus!
