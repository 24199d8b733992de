use lol_stats::models::{
    Game, IdentityPlayer, Participant, ParticipantIdentity, ParticipantStats, ParticipantTimeline,
    SummonerInfo,
};
use lol_stats::stats::{
    analyze_games, is_pve_queue, match_detail_from_game, nonzero_values, normalize_depth,
    participant_for_puuid, participant_to_recent_game, same_stat_team, team_name,
    team_totals_for_participant, MAX_DEPTH,
};

fn stats(win: bool, kills: u32, deaths: u32, assists: u32, damage: u32, gold: u32) -> ParticipantStats {
    ParticipantStats {
        win,
        kills,
        deaths,
        assists,
        gold_earned: gold,
        total_minions_killed: 100,
        neutral_minions_killed: 20,
        total_damage_dealt_to_champions: damage,
        damage_self_mitigated: 1000,
        total_damage_taken: 5000,
        total_heal: 300,
        enemy_champion_immobilizations: 2,
        immobilize_and_kill_with_ally: 1,
        vision_score: 10,
        champ_level: 15,
        player_subteam_id: 0,
        item0: 1001,
        item1: 0,
        item2: 3006,
        item3: 0,
        item4: 0,
        item5: 0,
        item6: 3340,
        perk0: 8000,
        perk1: 0,
        perk2: 0,
        perk3: 0,
        perk4: 0,
        perk5: 0,
        player_augment1: 0,
        player_augment2: 0,
        player_augment3: 0,
        player_augment4: 0,
        player_augment5: 0,
        player_augment6: 0,
    }
}

fn participant(id: u32, team: u32, champion: u32, st: ParticipantStats) -> Participant {
    Participant {
        participant_id: id,
        champion_id: champion,
        spell1_id: 4,
        spell2_id: 14,
        team_id: team,
        stats: st,
        timeline: ParticipantTimeline { lane: "MID".to_string(), role: "SOLO".to_string() },
    }
}

fn identity(id: u32, puuid: &str) -> ParticipantIdentity {
    ParticipantIdentity {
        participant_id: id,
        player: IdentityPlayer {
            puuid: puuid.to_string(),
            game_name: format!("name{id}"),
            tag_line: "0001".to_string(),
            summoner_name: String::new(),
        },
    }
}

/// A game of four players: ids 1 and 2 on blue (100), 3 and 4 on red (200).
fn game(game_id: u64, queue_id: u32, duration: i64, creation: i64, me_champion: u32, me_win: bool) -> Game {
    Game {
        game_id,
        game_creation: creation,
        game_duration: duration,
        game_mode: "CLASSIC".to_string(),
        game_type: "MATCHED_GAME".to_string(),
        queue_id,
        participant_identities: vec![
            identity(1, "me-puuid"),
            identity(2, "ally-puuid"),
            identity(3, "foe-one"),
            identity(4, "foe-two"),
        ],
        participants: vec![
            participant(1, 100, me_champion, stats(me_win, 5, 2, 7, 20000, 12000)),
            participant(2, 100, 11, stats(me_win, 3, 4, 9, 15000, 10000)),
            participant(3, 200, 12, stats(!me_win, 4, 5, 2, 18000, 11000)),
            participant(4, 200, 13, stats(!me_win, 2, 3, 6, 9000, 9000)),
        ],
    }
}

fn summoner() -> SummonerInfo {
    SummonerInfo {
        display_name: "Me".to_string(),
        game_name: "Me".to_string(),
        tag_line: "0001".to_string(),
        internal_name: "me".to_string(),
        profile_icon_id: 1,
        puuid: "ME-PUUID".to_string(),
        summoner_id: 9,
        summoner_level: 30,
        privacy: "PUBLIC".to_string(),
    }
}

#[test]
fn normalize_depth_clamps_into_range() {
    assert_eq!(normalize_depth(0), 1);
    assert_eq!(normalize_depth(20), 20);
    assert_eq!(normalize_depth(5000), MAX_DEPTH);
    assert_eq!(normalize_depth(1000), 1000);
}

#[test]
fn pve_queues_are_recognized() {
    assert!(is_pve_queue(31));
    assert!(is_pve_queue(3140));
    assert!(is_pve_queue(850));
    assert!(!is_pve_queue(420));
    assert!(!is_pve_queue(450));
}

#[test]
fn team_names_of_sides() {
    assert_eq!(team_name(100), "蓝方");
    assert_eq!(team_name(200), "红方");
    assert_eq!(team_name(300), "队伍 300");
}

#[test]
fn nonzero_values_keep_order() {
    assert_eq!(nonzero_values(&[0, 5, 0, 7, 3]), vec![5, 7, 3]);
    assert_eq!(nonzero_values(&[0, 0]), Vec::<u32>::new());
}

#[test]
fn participant_found_by_puuid_ignoring_case() {
    let g = game(1, 420, 1800, 10, 99, true);
    let p = participant_for_puuid(&g, "ALLY-PUUID").unwrap();
    assert_eq!(p.participant_id, 2);
    let fallback = participant_for_puuid(&g, "nobody").unwrap();
    assert_eq!(fallback.participant_id, 1);
}

#[test]
fn team_totals_sum_the_side() {
    let g = game(1, 420, 1800, 10, 99, true);
    let t = team_totals_for_participant(&g, &g.participants[0]);
    assert_eq!(t.damage_to_champions, 35000);
    assert_eq!(t.gold_earned, 22000);
    assert_eq!(t.kills, 8);
    assert_eq!(t.deaths, 6);
    assert!(same_stat_team(&g, &g.participants[0], &g.participants[1]));
    assert!(!same_stat_team(&g, &g.participants[0], &g.participants[2]));
}

#[test]
fn recent_game_record_of_a_participant() {
    let g = game(7, 420, 1800, 10, 99, true);
    let r = participant_to_recent_game(&g, &g.participants[0]);
    assert_eq!(r.game_id, 7);
    assert_eq!(r.champion_id, 99);
    assert!(r.win);
    assert_eq!(r.cs, 120);
    assert_eq!(r.item_ids, vec![1001, 3006, 3340]);
    assert_eq!(r.perk_ids, vec![8000]);
    assert!(r.augment_ids.is_empty());
    assert!(r.team_damage_leader);
    assert!(r.game_damage_leader);
    assert!(r.team_gold_leader);
    assert_eq!(r.team_kills, 8);
    assert_eq!(r.team_puuids, vec!["me-puuid".to_string(), "ally-puuid".to_string()]);
    assert_eq!(r.team_damage_to_champions, 35000);
}

#[test]
fn analysis_counts_only_valid_games() {
    let games = vec![
        game(1, 420, 1800, 100, 99, true),
        game(2, 420, 1800, 300, 99, false),
        game(3, 420, 1800, 200, 55, true),
        game(4, 31, 1800, 400, 99, true),
        game(5, 420, 300, 500, 99, true),
    ];
    let a = analyze_games(summoner(), 20, games);
    assert_eq!(a.depth_requested, 20);
    assert_eq!(a.depth_loaded, 3);
    assert_eq!(a.totals.games, 3);
    assert_eq!(a.totals.wins, 2);
    assert_eq!(a.totals.losses, 1);
    assert_eq!(a.totals.kills, 15);
    assert_eq!(a.totals.deaths, 6);
    assert_eq!(a.totals.assists, 21);
    assert_eq!(a.totals.unique_champions, 2);
    assert_eq!(a.totals.most_played_champion_id, Some(99));
    assert_eq!(a.champions.len(), 2);
    assert_eq!(a.champions[0].champion_id, 99);
    assert_eq!(a.champions[0].games, 2);
    assert_eq!(a.champions[0].wins, 1);
    assert_eq!(a.champions[0].last_played_at, 300);
    assert_eq!(a.champions[0].damage_to_champions, 40000);
    assert_eq!(a.champions[0].team_damage_to_champions, 70000);
    assert_eq!(a.champions[1].champion_id, 55);
    let ids: Vec<u64> = a.recent_games.iter().map(|g| g.game_id).collect();
    assert_eq!(ids, vec![1, 2, 3]);
}

#[test]
fn analysis_orders_ties_by_recency_then_id() {
    let games = vec![game(1, 420, 1800, 100, 7, true), game(2, 420, 1800, 100, 5, true), game(3, 420, 1800, 200, 9, true)];
    let a = analyze_games(summoner(), 3, games);
    let order: Vec<u32> = a.champions.iter().map(|c| c.champion_id).collect();
    assert_eq!(order, vec![9, 5, 7]);
    assert_eq!(a.totals.most_played_champion_id, Some(9));
}

#[test]
fn analysis_of_no_games() {
    let a = analyze_games(summoner(), 10, Vec::new());
    assert_eq!(a.totals.games, 0);
    assert_eq!(a.totals.losses, 0);
    assert_eq!(a.totals.most_played_champion_id, None);
    assert!(a.champions.is_empty());
}

#[test]
fn match_detail_groups_sides_in_order() {
    let mut g = game(9, 420, 1800, 10, 99, false);
    g.participants.swap(0, 3);
    let d = match_detail_from_game(g);
    assert_eq!(d.game_id, 9);
    assert_eq!(d.teams.len(), 2);
    assert_eq!(d.teams[0].team_id, 100);
    assert_eq!(d.teams[0].name, "蓝方");
    assert_eq!(d.teams[1].team_id, 200);
    let ids: Vec<u32> = d.teams[0].players.iter().map(|p| p.participant_id).collect();
    assert_eq!(ids, vec![1, 2]);
    assert!(!d.teams[0].win);
    assert!(d.teams[1].win);
    assert_eq!(d.teams[0].players[0].puuid, "me-puuid");
    assert_eq!(d.teams[1].players[1].game_name, "name4");
}
