use lol_stats::error::AppError;
use lol_stats::models::ClientAuth;
use lol_stats::sgp::{
    default_sgp_server_id, first_non_empty, normalize_ranked_queue_type, normalize_sgp_server_id,
    ranked_text_has_value, resolve_sgp_server_id, response_preview, sgp_game_json_to_lcu_game,
    sgp_game_summary_url, sgp_match_history_url, sgp_ranked_queue_has_data, sgp_ranked_queue_to_entry,
    sgp_ranked_stats_to_ranked_response, sgp_ranked_stats_url, sgp_retry_action, sgp_summoner_to_lcu,
    sgp_summoners_url, should_retry_status, tencent_sgp_base_url, SgpAttempt, SgpChallenges, SgpGameJson,
    SgpParticipant, SgpRankedQueue, SgpRankedQueueMap, SgpRankedStats, SgpRetryAction, SgpSummoner,
};

fn auth(region: &str, platform: &str) -> ClientAuth {
    ClientAuth {
        port: 50000,
        pid: 42,
        auth_token: "tok".to_string(),
        region: region.to_string(),
        rso_platform_id: platform.to_string(),
        riot_client_port: None,
        riot_client_auth_token: None,
        source: "test".to_string(),
    }
}

fn queue(queue_type: &str, tier: &str, lp: i32, wins: i32) -> SgpRankedQueue {
    SgpRankedQueue {
        queue_type: queue_type.to_string(),
        tier: tier.to_string(),
        rank: "II".to_string(),
        league_points: lp,
        wins,
        losses: 0,
        provisional_games_remaining: 0,
        highest_tier: String::new(),
        highest_rank: String::new(),
        previous_season_end_tier: String::new(),
        previous_season_end_rank: String::new(),
        previous_season_highest_tier: String::new(),
        previous_season_highest_rank: String::new(),
        previous_season_achieved_tier: String::new(),
        previous_season_achieved_rank: String::new(),
    }
}

#[test]
fn server_ids_are_normalized() {
    assert_eq!(normalize_sgp_server_id("  tencent_hn1 "), "TENCENT_HN1");
    assert_eq!(default_sgp_server_id(&auth("tencent", "hn1")), "TENCENT_HN1");
    assert_eq!(default_sgp_server_id(&auth("euw", "EUW1")), "EUW");
    assert_eq!(resolve_sgp_server_id(&auth("TENCENT", "HN10"), None), "TENCENT_HN10");
    assert_eq!(resolve_sgp_server_id(&auth("TENCENT", "HN10"), Some("   ")), "TENCENT_HN10");
    assert_eq!(resolve_sgp_server_id(&auth("TENCENT", "HN10"), Some(" tencent_nj100")), "TENCENT_NJ100");
}

#[test]
fn tencent_base_urls() {
    assert_eq!(tencent_sgp_base_url("TENCENT_HN1").unwrap(), "https://hn1-sgp.lol.qq.com:21019");
    assert_eq!(tencent_sgp_base_url("TENCENT_PREPBE").unwrap(), "https://prepbe-sgp.lol.qq.com:21019");
    assert!(matches!(tencent_sgp_base_url("EUW"), Err(AppError::SgpUnavailable(_))));
    assert!(matches!(tencent_sgp_base_url("TENCENT_XX9"), Err(AppError::SgpUnavailable(_))));
}

#[test]
fn rank_text_and_queue_types() {
    assert!(!ranked_text_has_value("  "));
    assert!(!ranked_text_has_value("none"));
    assert!(!ranked_text_has_value("Na"));
    assert!(ranked_text_has_value("GOLD"));
    assert_eq!(normalize_ranked_queue_type(" ranked_solo_5x5 "), "RANKED_SOLO_5x5");
    assert_eq!(normalize_ranked_queue_type("ranked_flex_sr"), "RANKED_FLEX_SR");
    let a = "  ".to_string();
    let b = "x".to_string();
    let c = "y".to_string();
    assert_eq!(first_non_empty(&[&a, &b, &c]), "x");
    assert_eq!(first_non_empty(&[&a]), "");
}

#[test]
fn queue_data_and_entry() {
    assert!(!sgp_ranked_queue_has_data(&queue("RANKED_SOLO_5x5", "NONE", 0, 0)));
    assert!(sgp_ranked_queue_has_data(&queue("RANKED_SOLO_5x5", "", 0, 3)));
    let mut q = queue("", "GOLD", 10, 5);
    q.previous_season_achieved_tier = "PLATINUM".to_string();
    q.previous_season_highest_rank = "I".to_string();
    q.provisional_games_remaining = 2;
    let e = sgp_ranked_queue_to_entry(&q, "RANKED_FLEX_SR");
    assert_eq!(e.queue_type, "RANKED_FLEX_SR");
    assert_eq!(e.tier, "GOLD");
    assert_eq!(e.division, "II");
    assert_eq!(e.highest_tier, "PLATINUM");
    assert_eq!(e.highest_division, "I");
    assert_eq!(e.previous_season_highest_tier, "PLATINUM");
    assert_eq!(e.league_points, 10);
    assert!(e.is_provisional);
}

#[test]
fn ranked_response_prefers_last_listed_queue() {
    let stats = SgpRankedStats {
        queues: vec![
            queue("RANKED_SOLO_5X5", "SILVER", 1, 1),
            queue("ranked_solo_5x5", "GOLD", 2, 2),
            queue("RANKED_SOLO_5x5", "NONE", 0, 0),
        ],
        queue_map: Some(SgpRankedQueueMap {
            ranked_solo_5x5: queue("", "IRON", 3, 3),
            ranked_flex_sr: queue("", "BRONZE", 4, 4),
        }),
    };
    let r = sgp_ranked_stats_to_ranked_response(stats);
    assert_eq!(r.queue_map.ranked_solo_5x5.tier, "GOLD");
    assert_eq!(r.queue_map.ranked_solo_5x5.queue_type, "ranked_solo_5x5");
    assert_eq!(r.queue_map.ranked_flex_sr.tier, "BRONZE");
    assert_eq!(r.queue_map.ranked_flex_sr.queue_type, "RANKED_FLEX_SR");

    let empty = sgp_ranked_stats_to_ranked_response(SgpRankedStats { queues: vec![], queue_map: None });
    assert_eq!(empty.queue_map.ranked_solo_5x5.tier, "");
    assert_eq!(empty.queue_map.ranked_flex_sr.wins, 0);
}

#[test]
fn summoner_conversion() {
    let s = sgp_summoner_to_lcu(SgpSummoner {
        id: 7,
        puuid: "p".to_string(),
        name: "Name".to_string(),
        internal_name: "name".to_string(),
        profile_icon_id: 3,
        level: 30,
        privacy: "PUBLIC".to_string(),
    });
    assert_eq!(s.display_name, "Name");
    assert_eq!(s.summoner_id, 7);
    assert_eq!(s.summoner_level, 30);
    assert_eq!(s.game_name, "");
}

fn sgp_participant(id: u32, puuid: &str) -> SgpParticipant {
    SgpParticipant {
        puuid: puuid.to_string(),
        riot_id_game_name: "g".to_string(),
        riot_id_tagline: "t".to_string(),
        summoner_name: "s".to_string(),
        participant_id: id,
        champion_id: 99,
        spell1_id: 4,
        spell2_id: 7,
        team_id: 100,
        win: true,
        kills: 5,
        deaths: 1,
        assists: 9,
        gold_earned: 12000,
        total_minions_killed: 150,
        neutral_minions_killed: 10,
        total_damage_dealt_to_champions: 20000,
        damage_self_mitigated: 1,
        total_damage_taken: 2,
        total_heal: 3,
        vision_score: 4,
        champ_level: 16,
        player_subteam_id: 0,
        challenges: SgpChallenges { enemy_champion_immobilizations: 6, immobilize_and_kill_with_ally: 2 },
        item0: 1,
        item1: 2,
        item2: 3,
        item3: 4,
        item4: 5,
        item5: 6,
        item6: 7,
        perk0: 8000,
        perk1: 0,
        perk2: 0,
        perk3: 0,
        perk4: 0,
        perk5: 0,
        player_augment1: 0,
        player_augment2: 0,
        player_augment3: 0,
        player_augment4: 0,
        player_augment5: 0,
        player_augment6: 0,
        lane: "TOP".to_string(),
        role: "SOLO".to_string(),
    }
}

#[test]
fn game_summary_conversion() {
    let g = sgp_game_json_to_lcu_game(SgpGameJson {
        game_id: 11,
        game_creation: 1000,
        game_duration: 1800,
        game_mode: "CLASSIC".to_string(),
        game_type: "MATCHED_GAME".to_string(),
        queue_id: 420,
        participants: vec![sgp_participant(1, "a"), sgp_participant(2, "b")],
    });
    assert_eq!(g.game_id, 11);
    assert_eq!(g.participants.len(), 2);
    assert_eq!(g.participant_identities[1].player.puuid, "b");
    assert_eq!(g.participant_identities[0].player.game_name, "g");
    assert_eq!(g.participants[0].stats.kills, 5);
    assert_eq!(g.participants[0].stats.enemy_champion_immobilizations, 6);
    assert_eq!(g.participants[0].stats.immobilize_and_kill_with_ally, 2);
    assert_eq!(g.participants[1].timeline.lane, "TOP");
}

#[test]
fn preview_of_bodies() {
    assert_eq!(response_preview("  "), "<empty>");
    assert_eq!(response_preview(" a \n b\t c "), "a b c");
    let long = "x".repeat(300);
    let p = response_preview(&long);
    assert_eq!(p.chars().count(), 243);
    assert!(p.ends_with("..."));
}

#[test]
fn retry_decisions() {
    assert!(should_retry_status(429));
    assert!(should_retry_status(503));
    assert!(!should_retry_status(500));
    assert!(!should_retry_status(200));
    assert_eq!(sgp_retry_action(0, SgpAttempt::NetworkError), SgpRetryAction::Wait(500));
    assert_eq!(sgp_retry_action(2, SgpAttempt::Status(502)), SgpRetryAction::Wait(1500));
    assert_eq!(sgp_retry_action(3, SgpAttempt::NetworkError), SgpRetryAction::GiveUp);
    assert_eq!(sgp_retry_action(3, SgpAttempt::Status(429)), SgpRetryAction::Read);
    assert_eq!(sgp_retry_action(0, SgpAttempt::Status(200)), SgpRetryAction::Read);
}

#[test]
fn gateway_urls() {
    let base = "https://hn1-sgp.lol.qq.com:21019";
    assert_eq!(
        sgp_ranked_stats_url(base, "abc"),
        "https://hn1-sgp.lol.qq.com:21019/leagues-ledge/v2/rankedStats/puuid/abc"
    );
    assert_eq!(
        sgp_summoners_url(base, "TENCENT_HN1"),
        "https://hn1-sgp.lol.qq.com:21019/summoner-ledge/v1/regions/hn1/summoners/puuids"
    );
    assert_eq!(
        sgp_match_history_url(base, "abc"),
        "https://hn1-sgp.lol.qq.com:21019/match-history-query/v1/products/lol/player/abc/SUMMARY"
    );
    assert_eq!(
        sgp_game_summary_url(base, "TENCENT_hn1", 12345),
        "https://hn1-sgp.lol.qq.com:21019/match-history-query/v1/products/lol/HN1_12345/SUMMARY"
    );
}

#[test]
fn every_tencent_gateway_follows_one_pattern() {
    for p in ["HN1", "HN10", "NJ100", "GZ100", "CQ100", "TJ100", "TJ101", "BGP2", "PBE", "PREPBE"] {
        let id = format!("TENCENT_{}", p);
        let expected = format!("https://{}-sgp.lol.qq.com:21019", p.to_lowercase());
        assert_eq!(tencent_sgp_base_url(&id).unwrap(), expected);
    }
    assert!(tencent_sgp_base_url("tencent_HN1").is_err());
    assert!(tencent_sgp_base_url("TENCENT_hn1").is_err());
}

#[test]
fn normalizing_a_server_id_twice_changes_nothing() {
    for id in ["  tencent_hn1 ", "TENCENT_BGP2", "\tkr\n", "", "  "] {
        let once = normalize_sgp_server_id(id);
        assert_eq!(normalize_sgp_server_id(&once), once);
    }
    assert_eq!(normalize_sgp_server_id("  tencent_hn1 "), "TENCENT_HN1");
}
