use lol_stats::error::AppError;
use lol_stats::models::{ClientAuth, RankedQueueEntry, RankedQueueMap, RankedStatsResponse, SafeClientInfo, SummonerInfo};
use lol_stats::ranked::{
    is_ranked_queue_empty, is_ranked_stats_empty, ranked_can_fallback_to_lcu, ranked_needs_lcu, ranked_text_is_empty,
};
use lol_stats::text::{
    contains, contains_str, decimal_string, eq_ignore_case, is_blank, starts_with, str_eq, str_less,
    strip_prefix, to_lower, to_upper, trim, trim_end, trim_start,
};

fn auth(region: &str, platform: &str) -> ClientAuth {
    ClientAuth {
        port: 1,
        pid: 2,
        auth_token: "secret".to_string(),
        region: region.to_string(),
        rso_platform_id: platform.to_string(),
        riot_client_port: Some(3),
        riot_client_auth_token: Some("riot".to_string()),
        source: "src".to_string(),
    }
}

fn stats(solo: RankedQueueEntry, flex: RankedQueueEntry) -> RankedStatsResponse {
    RankedStatsResponse { queue_map: RankedQueueMap { ranked_solo_5x5: solo, ranked_flex_sr: flex } }
}

#[test]
fn ranked_emptiness() {
    assert!(ranked_text_is_empty(" none "));
    assert!(ranked_text_is_empty(""));
    assert!(!ranked_text_is_empty("IRON"));
    assert!(is_ranked_queue_empty(&RankedQueueEntry::empty()));
    let mut e = RankedQueueEntry::empty();
    e.tier = "NA".to_string();
    e.division = "IV".to_string();
    assert!(is_ranked_queue_empty(&e));
    e.losses = 1;
    assert!(!is_ranked_queue_empty(&e));
    let mut p = RankedQueueEntry::empty();
    p.is_provisional = true;
    assert!(!is_ranked_queue_empty(&p));
    assert!(is_ranked_stats_empty(&stats(RankedQueueEntry::empty(), RankedQueueEntry::empty())));
    assert!(!is_ranked_stats_empty(&stats(RankedQueueEntry::empty(), p)));
}

#[test]
fn ranked_fallback() {
    let a = auth("TENCENT", "HN1");
    assert!(ranked_can_fallback_to_lcu(&a, None));
    assert!(ranked_can_fallback_to_lcu(&a, Some(" tencent_hn1 ")));
    assert!(!ranked_can_fallback_to_lcu(&a, Some("TENCENT_NJ100")));
    assert!(!ranked_can_fallback_to_lcu(&a, Some("  ")));
    let empty = stats(RankedQueueEntry::empty(), RankedQueueEntry::empty());
    assert!(ranked_needs_lcu(true, &Ok(empty)));
    assert!(ranked_needs_lcu(true, &Err(AppError::Http("x".to_string()))));
    assert!(!ranked_needs_lcu(false, &Err(AppError::Http("x".to_string()))));
    let mut gold = RankedQueueEntry::empty();
    gold.tier = "GOLD".to_string();
    assert!(!ranked_needs_lcu(true, &Ok(stats(gold, RankedQueueEntry::empty()))));
}

#[test]
fn models() {
    let info = SafeClientInfo::from(&auth("TENCENT", "HN1"));
    assert_eq!(info.pid, 2);
    assert_eq!(info.port, 1);
    assert_eq!(info.riot_client_port, Some(3));
    assert_eq!(info.region, "TENCENT");
    assert_eq!(info.rso_platform_id, "HN1");
    let mut s = SummonerInfo {
        display_name: "Display".to_string(),
        game_name: "Game".to_string(),
        tag_line: "TAG".to_string(),
        internal_name: "internal".to_string(),
        profile_icon_id: 0,
        puuid: "p".to_string(),
        summoner_id: 7,
        summoner_level: 0,
        privacy: String::new(),
    };
    assert_eq!(s.riot_id(), "Game#TAG");
    s.tag_line = String::new();
    assert_eq!(s.riot_id(), "Display");
    s.display_name = String::new();
    assert_eq!(s.riot_id(), "internal");
}

#[test]
fn text_helpers() {
    assert_eq!(trim("\u{3000} a b \n"), "a b");
    assert_eq!(trim_start("  a "), "a ");
    assert_eq!(trim_end("  a "), "  a");
    assert_eq!(to_upper("abcÄ"), "ABCÄ");
    assert_eq!(to_lower("ABCÄ"), "abcÄ");
    assert!(eq_ignore_case("LeagueClientUx.exe", "LEAGUECLIENTUX.EXE"));
    assert!(!eq_ignore_case("ab", "abc"));
    assert!(str_eq("x", "x"));
    assert!(is_blank(" \t"));
    assert!(!is_blank(" x"));
    assert!(starts_with("TENCENT_HN1", "TENCENT_"));
    assert_eq!(strip_prefix("TENCENT_HN1", "TENCENT_"), Some("HN1".to_string()));
    assert_eq!(strip_prefix("HN1", "TENCENT_"), None);
    assert!(contains("a/../b", ".."));
    assert!(!contains("a/./b", ".."));
    assert!(contains("abc", ""));
    assert_eq!(decimal_string(0), "0");
    assert_eq!(decimal_string(18_446_744_073_709_551_615), "18446744073709551615");
    assert!(str_less("a", "b"));
    assert!(str_less("ab", "abc"));
    assert!(!str_less("b", "ab"));
    assert!(!str_less("a", "a"));
    assert!(contains_str(&vec!["x".to_string(), "y".to_string()], "y"));
    assert!(!contains_str(&vec![], "y"));
}
