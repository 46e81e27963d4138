//! Summaries of a user's public repositories: language tallies, star
//! rankings, bounded selections and display rows, plus the gradient used to
//! paint the banner.

pub mod models;
pub mod summary;
pub mod tally;
pub mod ranking;
pub mod gradient;
