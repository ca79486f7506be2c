//! Lineup analysis for fantasy-football leagues: given a week's player
//! performances and the league's roster-slot rules, compute the best total a
//! team could have scored, the gap to what it actually scored, and season
//! standings ranked by that gap (the "bench king" is the team that left the
//! most points behind).

pub mod laws;
pub mod optimize;
pub mod prioritize;
pub mod records;
pub mod season;
pub mod sorting;
pub mod standings;
pub mod types;
pub mod weekly;
