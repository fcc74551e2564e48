//! Tournament logic for shogi events: rounds and results, scoring and
//! standings, settings, and the Swiss/MacMahon pairing engine.

pub mod text;
pub mod ids;
pub mod pairing;
pub mod player;
pub mod result_import;
pub mod round;
pub mod scoring;
pub mod settings;
pub mod sim;
pub mod standings;
pub mod team;
pub mod team_round;
pub mod tables;
pub mod units;
