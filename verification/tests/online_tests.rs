use hmac::{Hmac, Mac};
use sha2::Sha256;
use hexcaster::online::{
    LeaderboardClient, LeaderboardPeriod, OnlineConfig, OnlineError, ScoreSubmission,
};

fn enabled_config() -> OnlineConfig {
    OnlineConfig {
        enabled: true,
        server_url: "https://test.example.com/api".to_string(),
        player_name: Some("TestPlayer".to_string()),
    }
}

fn disabled_config() -> OnlineConfig {
    OnlineConfig { enabled: false, ..Default::default() }
}

#[test]
fn test_period_display() {
    assert_eq!(LeaderboardPeriod::Daily.to_string(), "daily");
    assert_eq!(LeaderboardPeriod::Weekly.to_string(), "weekly");
    assert_eq!(LeaderboardPeriod::AllTime.to_string(), "all-time");
}

#[test]
fn test_period_default() {
    assert_eq!(LeaderboardPeriod::default(), LeaderboardPeriod::AllTime);
}

#[test]
fn test_score_submission_new() {
    let sub = ScoreSubmission::new("TestPlayer".to_string(), 1000, 5, 100, 12345);
    assert_eq!(sub.player_name, "TestPlayer");
    assert_eq!(sub.score, 1000);
    assert_eq!(sub.floor_reached, 5);
    assert!(sub.signature.is_empty());
}

#[test]
fn test_score_submission_sign_verify() {
    let secret = b"test_secret_key";
    let mut sub = ScoreSubmission::new("Player1".to_string(), 500, 3, 50, 99999);
    sub.sign(secret);
    assert!(!sub.signature.is_empty());
    assert!(sub.verify(secret));
    assert!(!sub.verify(b"wrong_secret"));
}

#[test]
fn test_score_submission_tamper_detection() {
    let secret = b"test_secret";
    let mut sub = ScoreSubmission::new("Player1".to_string(), 500, 3, 50, 99999);
    sub.sign(secret);
    sub.score = 9999;
    assert!(!sub.verify(secret));
}

#[test]
fn test_online_config_default() {
    let config = OnlineConfig::default();
    assert!(!config.enabled);
    assert!(config.server_url.contains("hexcaster"));
    assert!(config.player_name.is_none());
}

#[test]
fn test_client_disabled() {
    let client = LeaderboardClient::new(disabled_config());
    assert!(!client.is_enabled());
    let result = client.fetch_leaderboard(LeaderboardPeriod::Daily, 10);
    assert!(matches!(result, Err(OnlineError::Disabled)));
}

#[test]
fn test_client_enabled() {
    let client = LeaderboardClient::new(enabled_config());
    assert!(client.is_enabled());
    assert_eq!(client.player_name(), Some("TestPlayer"));
}

#[test]
fn test_fetch_leaderboard_mock() {
    let client = LeaderboardClient::new(enabled_config());
    let result = client.fetch_leaderboard(LeaderboardPeriod::Weekly, 10);
    assert!(result.is_ok());
    let response = result.unwrap();
    assert_eq!(response.period, LeaderboardPeriod::Weekly);
}

#[test]
fn test_submit_score_mock() {
    let client = LeaderboardClient::new(enabled_config());
    let result = client.submit_score(1000, 5, 100, 12345);
    assert!(result.is_ok());
    let response = result.unwrap();
    assert!(response.success);
}

#[test]
fn test_submit_score_no_player_name() {
    let config = OnlineConfig { enabled: true, player_name: None, ..Default::default() };
    let client = LeaderboardClient::new(config);
    let result = client.submit_score(1000, 5, 100, 12345);
    assert!(matches!(result, Err(OnlineError::NoPlayerName)));
}

#[test]
fn test_url_building() {
    let client = LeaderboardClient::new(enabled_config());
    assert_eq!(
        client.leaderboard_url(LeaderboardPeriod::Daily),
        "https://test.example.com/api/leaderboard/daily"
    );
    assert_eq!(client.submit_url(), "https://test.example.com/api/submit");
}

// ---- further checks of the online types ----

#[test]
fn signature_is_hmac_sha256_of_the_fields() {
    let mut sub = ScoreSubmission::new("X".to_string(), 1, 2, 3, 4);
    sub.sign(b"k");
    assert_eq!(sub.signature.len(), 64);
    assert!(sub.signature.chars().all(|c| c.is_ascii_digit() || ('a'..='f').contains(&c)));
    assert_eq!(sub.game_version, "0.3.0");

    let mut message: Vec<u8> = Vec::new();
    message.extend_from_slice(&1u64.to_le_bytes());
    message.extend_from_slice(b"X");
    message.extend_from_slice(&1u32.to_le_bytes());
    message.extend_from_slice(&2u32.to_le_bytes());
    message.extend_from_slice(&3u32.to_le_bytes());
    message.extend_from_slice(&4u64.to_le_bytes());
    message.extend_from_slice(&5u64.to_le_bytes());
    message.extend_from_slice(b"0.3.0");
    let mut mac = <Hmac<Sha256> as Mac>::new_from_slice(b"k").unwrap();
    mac.update(&message);
    let expected: String =
        mac.finalize().into_bytes().iter().map(|b| format!("{:02x}", b)).collect();
    assert_eq!(sub.signature, expected);

    let mut again = ScoreSubmission::new("X".to_string(), 1, 2, 3, 4);
    again.sign(b"k");
    assert_eq!(again.signature, sub.signature);
}

#[test]
fn signature_ignores_the_old_signature() {
    let mut sub = ScoreSubmission::new("Y".to_string(), 7, 2, 3, 4);
    sub.signature = "garbage".to_string();
    sub.sign(b"s");
    assert!(sub.verify(b"s"));
}

#[test]
fn error_messages() {
    assert_eq!(OnlineError::Disabled.message(), "online features are disabled");
    assert_eq!(OnlineError::Network("timeout".to_string()).message(), "network error: timeout");
    assert_eq!(OnlineError::NoPlayerName.message(), "player name not configured");
}

#[test]
fn submit_response_contents() {
    let client = LeaderboardClient::new(enabled_config());
    let response = client.submit_score(1, 1, 1, 1).unwrap();
    assert_eq!(response.rank, Some(1));
    assert_eq!(response.message, "Score submitted (offline mode)");
    let disabled = LeaderboardClient::new(disabled_config());
    assert!(matches!(disabled.submit_score(1, 1, 1, 1), Err(OnlineError::Disabled)));
    assert_eq!(
        disabled.leaderboard_url(LeaderboardPeriod::AllTime),
        "https://hexcaster.blackabee.com/api/leaderboard/all-time"
    );
}
