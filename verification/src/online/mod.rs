//! Online leaderboards: score submissions with a tamper-evident signature,
//! and the client that gates them on the player's configuration.

pub mod client;
pub mod types;

pub use client::{LeaderboardClient, OnlineError};
pub use types::{
    LeaderboardEntry, LeaderboardPeriod, LeaderboardResponse, OnlineConfig, ScoreSubmission,
    SubmitResponse,
};
