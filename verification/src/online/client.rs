//! Online leaderboard client.

use crate::online::types::{
    period_text, LeaderboardPeriod, LeaderboardResponse, OnlineConfig, ScoreSubmission,
    SubmitResponse,
};
use vstd::prelude::*;

verus! {

/// Errors that can occur during online operations.
#[derive(Debug)]
pub enum OnlineError {
    /// Online features are disabled.
    Disabled,
    /// A network error, with its description.
    Network(String),
    /// The server reported an error.
    Server(String),
    /// The server's reply could not be understood.
    InvalidResponse(String),
    /// No player name is configured.
    NoPlayerName,
}

/// How an error reads.
pub open spec fn error_text(e: OnlineError) -> Seq<char> {
    match e {
        OnlineError::Disabled => "online features are disabled"@,
        OnlineError::Network(m) => "network error: "@ + m@,
        OnlineError::Server(m) => "server error: "@ + m@,
        OnlineError::InvalidResponse(m) => "invalid response: "@ + m@,
        OnlineError::NoPlayerName => "player name not configured"@,
    }
}

impl OnlineError {
    /// The error's message.
    pub fn message(&self) -> (s: String)
        ensures
            s@ == error_text(*self),
    {
        match self {
            OnlineError::Disabled => String::from_str("online features are disabled"),
            OnlineError::Network(m) => String::from_str("network error: ").concat(m.as_str()),
            OnlineError::Server(m) => String::from_str("server error: ").concat(m.as_str()),
            OnlineError::InvalidResponse(m) => String::from_str("invalid response: ").concat(
                m.as_str(),
            ),
            OnlineError::NoPlayerName => String::from_str("player name not configured"),
        }
    }
}

/// The secret that submissions are signed with until a server issues one.
pub const PLACEHOLDER_SECRET: &'static str = "placeholder_secret";

/// What an accepted submission is answered while no server is contacted.
pub const OFFLINE_SUBMIT_MESSAGE: &'static str = "Score submitted (offline mode)";

/// Client for online leaderboard operations.
pub struct LeaderboardClient {
    config: OnlineConfig,
}

impl LeaderboardClient {
    /// The configuration the client was made with.
    pub closed spec fn config(&self) -> OnlineConfig {
        self.config
    }

    /// Create a new client with the given configuration.
    pub fn new(config: OnlineConfig) -> (c: Self)
        ensures
            c.config() == config,
    {
        LeaderboardClient { config }
    }

    /// Check if online features are enabled.
    pub fn is_enabled(&self) -> (b: bool)
        ensures
            b == self.config().enabled,
    {
        self.config.enabled
    }

    /// Get the configured player name.
    pub fn player_name(&self) -> (name: Option<&str>)
        ensures
            match name {
                Some(n) => self.config().player_name matches Some(p) && n@ == p@,
                None => self.config().player_name is None,
            },
    {
        match &self.config.player_name {
            Some(n) => Some(n.as_str()),
            None => None,
        }
    }

    /// Fetch leaderboard entries for a given period.
    ///
    /// No server is contacted yet: an enabled client answers with an empty
    /// board for the period.
    pub fn fetch_leaderboard(&self, period: LeaderboardPeriod, limit: usize) -> (r: Result<
        LeaderboardResponse,
        OnlineError,
    >)
        ensures
            !self.config().enabled ==> r matches Err(OnlineError::Disabled),
            self.config().enabled ==> (r matches Ok(resp) && resp.period == period
                && resp.entries@.len() == 0 && resp.total_players == 0 && resp.your_rank is None),
    {
        if !self.config.enabled {
            return Err(OnlineError::Disabled);
        }
        Ok(LeaderboardResponse { period, entries: Vec::new(), total_players: 0, your_rank: None })
    }

    /// Submit a score to the leaderboard.
    ///
    /// The submission is built and signed; no server is contacted yet, so an
    /// accepted submission is answered as rank one, in offline mode.
    pub fn submit_score(&self, score: u32, floor_reached: u32, turns_taken: u32, game_seed: u64) -> (r:
        Result<SubmitResponse, OnlineError>)
        ensures
            !self.config().enabled ==> r matches Err(OnlineError::Disabled),
            self.config().enabled && self.config().player_name is None ==> r matches Err(
                OnlineError::NoPlayerName,
            ),
            self.config().enabled && self.config().player_name is Some ==> (r matches Ok(resp)
                && resp.success && resp.rank == Some(1u32) && resp.message@ == OFFLINE_SUBMIT_MESSAGE@),
    {
        if !self.config.enabled {
            return Err(OnlineError::Disabled);
        }
        let player_name = match &self.config.player_name {
            Some(n) => n.clone(),
            None => {
                return Err(OnlineError::NoPlayerName);
            },
        };
        let mut submission = ScoreSubmission::new(
            player_name,
            score,
            floor_reached,
            turns_taken,
            game_seed,
        );
        submission.sign(PLACEHOLDER_SECRET.as_bytes());
        Ok(
            SubmitResponse {
                success: true,
                rank: Some(1),
                message: String::from_str(OFFLINE_SUBMIT_MESSAGE),
            },
        )
    }

    /// Build the URL for a leaderboard endpoint.
    pub fn leaderboard_url(&self, period: LeaderboardPeriod) -> (url: String)
        ensures
            url@ == self.config().server_url@ + "/leaderboard/"@ + period_text(period),
    {
        let mut url = self.config.server_url.clone();
        url.append("/leaderboard/");
        url.append(period.to_string().as_str());
        url
    }

    /// Build the URL for score submission.
    pub fn submit_url(&self) -> (url: String)
        ensures
            url@ == self.config().server_url@ + "/submit"@,
    {
        let mut url = self.config.server_url.clone();
        url.append("/submit");
        url
    }
}

} // verus!
