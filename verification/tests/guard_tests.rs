use lol_stats::bounds::{analysis_inputs_fit, game_sums_fit_check, team_sums_fit_check};
use lol_stats::error::AppError;
use lol_stats::lcu::persisted_settings_parts;
use lol_stats::models::{
    Game, IdentityPlayer, Participant, ParticipantIdentity, ParticipantStats, ParticipantTimeline,
};
use lol_stats::stats::counted_game_positions;

fn stats(damage: u32, kills: u32) -> ParticipantStats {
    ParticipantStats {
        win: true,
        kills,
        deaths: 1,
        assists: 1,
        gold_earned: 100,
        total_minions_killed: 10,
        neutral_minions_killed: 0,
        total_damage_dealt_to_champions: damage,
        damage_self_mitigated: 0,
        total_damage_taken: 0,
        total_heal: 0,
        enemy_champion_immobilizations: 0,
        immobilize_and_kill_with_ally: 0,
        vision_score: 0,
        champ_level: 1,
        player_subteam_id: 0,
        item0: 0,
        item1: 0,
        item2: 0,
        item3: 0,
        item4: 0,
        item5: 0,
        item6: 0,
        perk0: 0,
        perk1: 0,
        perk2: 0,
        perk3: 0,
        perk4: 0,
        perk5: 0,
        player_augment1: 0,
        player_augment2: 0,
        player_augment3: 0,
        player_augment4: 0,
        player_augment5: 0,
        player_augment6: 0,
    }
}

fn game(id: u64, queue: u32, duration: i64, damages: &[u32], kills: u32) -> Game {
    let participants = damages
        .iter()
        .enumerate()
        .map(|(i, d)| Participant {
            participant_id: i as u32 + 1,
            champion_id: 7,
            spell1_id: 0,
            spell2_id: 0,
            team_id: 100,
            stats: stats(*d, kills),
            timeline: ParticipantTimeline { lane: String::new(), role: String::new() },
        })
        .collect();
    Game {
        game_id: id,
        game_creation: 0,
        game_duration: duration,
        game_mode: "CLASSIC".to_string(),
        game_type: String::new(),
        queue_id: queue,
        participant_identities: vec![ParticipantIdentity {
            participant_id: 1,
            player: IdentityPlayer {
                puuid: "me".to_string(),
                game_name: String::new(),
                tag_line: String::new(),
                summoner_name: String::new(),
            },
        }],
        participants,
    }
}

#[test]
fn team_sum_checks() {
    let ok = game(1, 420, 900, &[10, 20], 1);
    assert!(team_sums_fit_check(&ok, &ok.participants[0]));
    assert!(game_sums_fit_check(&ok));
    let big = game(2, 420, 900, &[u32::MAX, 1], 1);
    assert!(!team_sums_fit_check(&big, &big.participants[0]));
    assert!(!game_sums_fit_check(&big));
}

#[test]
fn analysis_checks_and_positions() {
    let games = vec![
        game(1, 420, 900, &[10, 20], 2),
        game(2, 33, 900, &[10, 20], 2),
        game(3, 420, 100, &[10, 20], 2),
        game(4, 450, 1200, &[10, 20], 2),
    ];
    assert!(analysis_inputs_fit(&games, "ME"));
    assert_eq!(counted_game_positions(&games, "me"), vec![0, 3]);
    // The kills of the counted games add past a `u32`.
    let many = vec![game(1, 420, 900, &[1], u32::MAX), game(2, 420, 900, &[1], 1)];
    assert!(!analysis_inputs_fit(&many, "me"));
    // A bot game does not count.
    let bots = vec![game(1, 420, 900, &[1], u32::MAX), game(2, 33, 900, &[1], 1)];
    assert!(analysis_inputs_fit(&bots, "me"));
}

#[test]
fn error_messages() {
    assert_eq!(AppError::ClientNotFound.message(), "没有发现正在运行的 LeagueClientUx.exe");
    assert_eq!(AppError::PlayerNotFound("x".to_string()).message(), "没有找到玩家：x");
    assert_eq!(AppError::Http("timeout".to_string()).message(), "网络请求失败：timeout");
    assert_eq!(AppError::Cancelled.message(), "已取消加载");
}

#[test]
fn settings_paths() {
    assert_eq!(persisted_settings_parts("tencent"), vec!["..", "Game", "Config", "PersistedSettings.json"]);
    assert_eq!(persisted_settings_parts("EUW"), vec!["Config", "PersistedSettings.json"]);
}
