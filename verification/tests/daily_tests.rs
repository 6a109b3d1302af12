use hexcaster::daily::{
    calculate_score, date_string, decimal_text, parse_share_code, parse_u32, seed_for_date,
    share_code, today_seed, today_string, Date, Leaderboard, ScoreEntry,
};

#[test]
fn test_seed_for_date() {
    let date1 = Date::from_ymd_opt(2026, 3, 3).unwrap();
    let date2 = Date::from_ymd_opt(2026, 3, 4).unwrap();
    let seed1 = seed_for_date(date1);
    let seed2 = seed_for_date(date2);
    assert_eq!(seed1, seed_for_date(date1));
    assert_ne!(seed1, seed2);
}

#[test]
fn test_seed_deterministic() {
    let date = Date::from_ymd_opt(2026, 1, 1).unwrap();
    let seed1 = seed_for_date(date);
    let seed2 = seed_for_date(date);
    assert_eq!(seed1, seed2);
}

#[test]
fn test_date_string() {
    let date = Date::from_ymd_opt(2026, 3, 15).unwrap();
    assert_eq!(date_string(date), "2026-03-15");
}

#[test]
fn test_calculate_score() {
    let score = calculate_score(3, 100, 50, 10);
    assert_eq!(score, 13000);
}

#[test]
fn test_share_code() {
    let code = share_code("2026-03-15", 12345);
    assert_eq!(code, "HEXCASTER-20260315-12345");
}

#[test]
fn test_parse_share_code() {
    let code = "HEXCASTER-20260315-12345";
    let (date, score) = parse_share_code(code).unwrap();
    assert_eq!(date, "2026-03-15");
    assert_eq!(score, 12345);
}

#[test]
fn test_parse_share_code_invalid() {
    assert!(parse_share_code("INVALID").is_none());
    assert!(parse_share_code("HEXCASTER-123-456").is_none());
}

#[test]
fn test_score_entry() {
    let entry = ScoreEntry::new("Player1", 5000, 2, 150);
    assert_eq!(entry.name, "Player1");
    assert_eq!(entry.score, 5000);
    assert_eq!(entry.floor_reached, 2);
    assert_eq!(entry.turns_taken, 150);
}

#[test]
fn test_leaderboard_add_score() {
    let mut lb = Leaderboard::default();
    lb.add_score(ScoreEntry::new("A", 1000, 1, 100));
    lb.add_score(ScoreEntry::new("B", 2000, 2, 90));
    lb.add_score(ScoreEntry::new("C", 500, 1, 120));
    let scores = lb.today_scores();
    assert_eq!(scores.len(), 3);
    assert_eq!(scores[0].name, "B");
    assert_eq!(scores[1].name, "A");
    assert_eq!(scores[2].name, "C");
}

// ---- further checks of the daily challenge ----

#[test]
fn seed_exact_value() {
    let date = Date::from_ymd_opt(2026, 3, 15).unwrap();
    assert_eq!(seed_for_date(date), 2026 * 31337 + 3 * 1337 + 15 * 37);
}

#[test]
fn seed_wraps_for_negative_years() {
    let date = Date::from_ymd_opt(-1, 1, 1).unwrap();
    let expected = (-1i64 as u64)
        .wrapping_mul(31337)
        .wrapping_add(1337)
        .wrapping_add(37);
    assert_eq!(seed_for_date(date), expected);
}

#[test]
fn seeds_of_a_year_are_distinct() {
    let mut seeds = Vec::new();
    for m in 1..=12u32 {
        for d in 1..=31u32 {
            if let Some(date) = Date::from_ymd_opt(2024, m, d) {
                seeds.push(seed_for_date(date));
            }
        }
    }
    assert_eq!(seeds.len(), 366);
    seeds.sort();
    seeds.dedup();
    assert_eq!(seeds.len(), 366);
}

#[test]
fn calendar_validity() {
    assert!(Date::from_ymd_opt(2024, 2, 29).is_some());
    assert!(Date::from_ymd_opt(2023, 2, 29).is_none());
    assert!(Date::from_ymd_opt(1900, 2, 29).is_none());
    assert!(Date::from_ymd_opt(2000, 2, 29).is_some());
    assert!(Date::from_ymd_opt(2026, 4, 31).is_none());
    assert!(Date::from_ymd_opt(2026, 13, 1).is_none());
    assert!(Date::from_ymd_opt(2026, 0, 1).is_none());
    assert!(Date::from_ymd_opt(262142, 12, 31).is_some());
    assert!(Date::from_ymd_opt(262143, 1, 1).is_none());
    assert!(Date::from_ymd_opt(-262143, 1, 1).is_some());
    assert!(Date::from_ymd_opt(-262144, 1, 1).is_none());
}

#[test]
fn date_string_padding_and_signs() {
    assert_eq!(date_string(Date::from_ymd_opt(5, 1, 2).unwrap()), "0005-01-02");
    assert_eq!(date_string(Date::from_ymd_opt(-5, 12, 31).unwrap()), "-0005-12-31");
    assert_eq!(date_string(Date::from_ymd_opt(12345, 6, 7).unwrap()), "+12345-06-07");
}

#[test]
fn today_is_a_date() {
    let s = today_string();
    assert_eq!(s.len(), 10);
    assert_eq!(s.as_bytes()[4], b'-');
    let _ = today_seed();
}

#[test]
fn score_edge_cases() {
    // Efficiency never goes below zero; negative health counts as zero.
    assert_eq!(calculate_score(0, 2000, -5, 0), 0);
    assert_eq!(calculate_score(1, 0, 0, 1), 1000 + 10000 + 50);
}

#[test]
fn share_code_round_trip() {
    let code = share_code("2031-12-01", 4294967295);
    assert_eq!(code, "HEXCASTER-20311201-4294967295");
    assert_eq!(parse_share_code(&code), Some(("2031-12-01".to_string(), 4294967295)));
}

#[test]
fn parse_share_code_rejections() {
    assert!(parse_share_code("HEXCASTER-20260315-4294967296").is_none());
    assert!(parse_share_code("HEXCASTER-20260315-12x").is_none());
    assert!(parse_share_code("HEXCASTER-20260315-").is_none());
    assert!(parse_share_code("HEXCASTER-20260315-1-2").is_none());
    assert!(parse_share_code("OTHER-20260315-1").is_none());
    assert_eq!(parse_share_code("HEXCASTER-20260315-+7"), Some(("2026-03-15".to_string(), 7)));
    // The date field is only cut, not checked.
    assert_eq!(parse_share_code("HEXCASTER-abcdefgh-1"), Some(("abcd-ef-gh".to_string(), 1)));
}

#[test]
fn parse_u32_cases() {
    assert_eq!(parse_u32("0"), Some(0));
    assert_eq!(parse_u32("+42"), Some(42));
    assert_eq!(parse_u32("4294967295"), Some(u32::MAX));
    assert_eq!(parse_u32("4294967296"), None);
    assert_eq!(parse_u32(""), None);
    assert_eq!(parse_u32("+"), None);
    assert_eq!(parse_u32("-1"), None);
    assert_eq!(parse_u32(" 1"), None);
}

#[test]
fn decimal_text_cases() {
    assert_eq!(decimal_text(0), "0");
    assert_eq!(decimal_text(907), "907");
    assert_eq!(decimal_text(u32::MAX), "4294967295");
}

#[test]
fn leaderboard_keeps_best_ten_and_ties_in_order() {
    let mut lb = Leaderboard::default();
    for i in 0..12u32 {
        lb.add_score_on("2026-01-01", ScoreEntry::new(&format!("P{}", i), 100 * (i % 4), 1, 10));
    }
    let scores = lb.scores_for_date("2026-01-01");
    assert_eq!(scores.len(), 10);
    for w in scores.windows(2) {
        assert!(w[0].score >= w[1].score);
    }
    // The three 300s in their order of arrival come first.
    assert_eq!(scores[0].name, "P3");
    assert_eq!(scores[1].name, "P7");
    assert_eq!(scores[2].name, "P11");
    assert!(lb.scores_for_date("2026-01-02").is_empty());
}

#[test]
fn leaderboard_dates_are_separate() {
    let mut lb = Leaderboard::new();
    lb.add_score_on("2026-01-01", ScoreEntry::new("A", 10, 1, 1));
    lb.add_score_on("2026-01-02", ScoreEntry::new("B", 20, 1, 1));
    lb.add_score_on("2026-01-01", ScoreEntry::new("C", 30, 1, 1));
    assert_eq!(lb.scores.len(), 2);
    let first = lb.scores_for_date("2026-01-01");
    assert_eq!(first.len(), 2);
    assert_eq!(first[0].name, "C");
    assert_eq!(lb.scores_for_date("2026-01-02")[0].name, "B");
}

#[test]
fn share_code_round_trip_on_any_digit_date() {
    for (date, score) in [("0000-00-00", 0u32), ("9999-99-99", 4294967295), ("2026-13-45", 77)] {
        let code = share_code(date, score);
        assert_eq!(parse_share_code(&code), Some((date.to_string(), score)));
    }
}
