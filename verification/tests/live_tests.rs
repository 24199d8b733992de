use lol_stats::live::{
    assoc_lookup, champ_select_seed, champ_select_seeds, champ_select_teams, champion_selection_map, fallback_live_summoner, filter_live_stats,
    gameflow_seeds, gameflow_team_participant_map, in_game_teams, is_cherry, is_hex_aram_game, is_real_puuid,
    live_display_depth, live_player_from_seed, live_queue_filter, live_queue_info, live_scan_next,
    live_side_order, live_stage, normalize_puuid, player_list_contains_puuid, retain_selected_players,
    summarize_live_games, LiveQueueFilter, LivePlayerSeed, LiveStage,
};
use lol_stats::models::{
    ChampSelectPlayer, GameflowGameData, GameflowPlayer, GameflowQueue, GameflowSession,
    PlayerChampionSelection, SummonerInfo,
};
use lol_stats::stats::{PlayerAnalysis, PlayerTotals, RecentGame};

fn recent(game_id: u64, champion_id: u32, queue_id: u32, mode: &str, win: bool, duration: i64) -> RecentGame {
    RecentGame {
        game_id,
        champion_id,
        queue_id,
        game_mode: mode.to_string(),
        win,
        spell1_id: 4,
        spell2_id: 14,
        item_ids: vec![],
        perk_ids: vec![],
        augment_ids: vec![],
        team_damage_leader: false,
        game_damage_leader: false,
        team_mitigation_leader: false,
        team_healing_leader: false,
        team_gold_leader: false,
        kills: 2,
        deaths: 1,
        assists: 3,
        team_kills: 10,
        team_deaths: 10,
        team_puuids: vec![],
        cs: 100,
        gold_earned: 9000,
        damage_to_champions: 10000,
        team_damage_to_champions: 50000,
        damage_self_mitigated: 1,
        total_damage_taken: 1,
        team_damage_self_mitigated: 1,
        team_total_damage_taken: 1,
        total_heal: 1,
        team_total_heal: 1,
        team_gold_earned: 40000,
        enemy_champion_immobilizations: 0,
        team_enemy_champion_immobilizations: 0,
        immobilize_and_kill_with_ally: 0,
        team_immobilize_and_kill_with_ally: 0,
        game_creation: 0,
        game_duration: duration,
    }
}

fn summoner(puuid: &str) -> SummonerInfo {
    SummonerInfo {
        display_name: "n".to_string(),
        game_name: String::new(),
        tag_line: String::new(),
        internal_name: String::new(),
        profile_icon_id: 0,
        puuid: puuid.to_string(),
        summoner_id: 0,
        summoner_level: 0,
        privacy: String::new(),
    }
}

fn gf_player(puuid: &str, champion: u32, team_participant_id: u32, name: &str, internal: &str) -> GameflowPlayer {
    GameflowPlayer {
        puuid: puuid.to_string(),
        champion_id: champion,
        selected_position: "MIDDLE".to_string(),
        selected_role: "".to_string(),
        summoner_id: 5,
        summoner_internal_name: internal.to_string(),
        summoner_name: name.to_string(),
        team_participant_id,
    }
}

fn selection(puuid: &str, champion: u32) -> PlayerChampionSelection {
    PlayerChampionSelection {
        puuid: puuid.to_string(),
        champion_id: champion,
        summoner_id: 0,
        summoner_internal_name: String::new(),
    }
}

fn session(queue_id: u32, queue_type: &str, mode: &str) -> GameflowSession {
    GameflowSession {
        phase: "InProgress".to_string(),
        game_data: GameflowGameData {
            game_id: 77,
            queue: GameflowQueue { id: queue_id, game_mode: mode.to_string(), type_: queue_type.to_string() },
            player_champion_selections: vec![selection("A", 11), selection("", 12)],
            team_one: vec![gf_player("A", 0, 1, "Alice", "alice"), gf_player("B", 22, 0, "", "bob")],
            team_two: vec![gf_player("c", 33, 1, "Carol", ""), gf_player("A", 44, 2, "", "")],
        },
    }
}

fn seed(puuid: &str) -> LivePlayerSeed {
    LivePlayerSeed {
        puuid: puuid.to_string(),
        champion_id: 1,
        champion_pick_intent: 0,
        position: String::new(),
        selected_role: String::new(),
        summoner_id: 9,
        team_participant_id: None,
        fallback_name: String::new(),
        is_placeholder: false,
    }
}

#[test]
fn puuids() {
    assert!(is_real_puuid("abc"));
    assert!(!is_real_puuid("   "));
    assert!(!is_real_puuid("00000000-0000-0000-0000-000000000000"));
    assert_eq!(normalize_puuid("AbC-D"), "abc-d");
}

#[test]
fn maps_of_the_session() {
    let s = session(420, "RANKED_SOLO_5x5", "CLASSIC");
    let m = gameflow_team_participant_map(&s);
    assert_eq!(assoc_lookup(&m, "a"), Some(2));
    assert_eq!(assoc_lookup(&m, "b"), None);
    assert_eq!(assoc_lookup(&m, "c"), Some(1));
    let sel = champion_selection_map(&s);
    assert_eq!(assoc_lookup(&sel, "A"), Some(44));
    assert_eq!(assoc_lookup(&sel, "B"), Some(22));
    assert_eq!(assoc_lookup(&sel, ""), None);
}

#[test]
fn seeds() {
    let s = session(420, "", "CLASSIC");
    let map = gameflow_team_participant_map(&s);
    let p = champ_select_seed(
        ChampSelectPlayer {
            cell_id: 0,
            puuid: "C".to_string(),
            champion_id: 0,
            champion_pick_intent: 157,
            assigned_position: "middle".to_string(),
            summoner_id: 3,
            team: 1,
            player_type: "bot".to_string(),
            name_visibility_type: "VISIBLE".to_string(),
        },
        &map,
    );
    assert_eq!(p.champion_id, 157);
    assert_eq!(p.position, "MIDDLE");
    assert_eq!(p.team_participant_id, Some(1));
    assert!(p.is_placeholder);

    let sels = vec![("A".to_string(), 11u32)];
    let seeds = gameflow_seeds(
        vec![gf_player("A", 0, 0, "", "internal"), gf_player("", 5, 1, "x", "y"), gf_player("D", 7, 3, "Dee", "d")],
        &sels,
    );
    assert_eq!(seeds.len(), 2);
    assert_eq!(seeds[0].champion_id, 11);
    assert_eq!(seeds[0].fallback_name, "internal");
    assert_eq!(seeds[0].team_participant_id, None);
    assert_eq!(seeds[1].champion_id, 7);
    assert_eq!(seeds[1].fallback_name, "Dee");
    assert_eq!(seeds[1].team_participant_id, Some(3));
    assert!(player_list_contains_puuid(&seeds, "d"));
    assert!(!player_list_contains_puuid(&seeds, "e"));
}

#[test]
fn queue_filters() {
    assert!(is_hex_aram_game(2400, ""));
    assert!(is_hex_aram_game(0, "kiwi"));
    assert!(!is_hex_aram_game(450, "ARAM"));
    assert_eq!(live_queue_filter(Some(2400), None, Some("ARAM")), LiveQueueFilter::HexAram);
    assert_eq!(live_queue_filter(Some(450), None, None), LiveQueueFilter::Aram);
    assert_eq!(live_queue_filter(None, None, Some("aram")), LiveQueueFilter::Aram);
    assert_eq!(live_queue_filter(None, Some("ranked_flex_sr"), None), LiveQueueFilter::Ranked);
    assert_eq!(live_queue_filter(Some(430), None, None), LiveQueueFilter::MatchAndRanked);
    assert_eq!(live_queue_filter(None, None, Some("classic")), LiveQueueFilter::MatchAndRanked);
    assert_eq!(live_queue_filter(Some(1700), Some("CHERRY"), Some("CHERRY")), LiveQueueFilter::Any);

    assert!(LiveQueueFilter::Aram.matches(&recent(1, 1, 450, "ARAM", true, 900)));
    assert!(!LiveQueueFilter::Aram.matches(&recent(1, 1, 2400, "ARAM", true, 900)));
    assert!(LiveQueueFilter::Ranked.matches(&recent(1, 1, 440, "CLASSIC", true, 900)));
    assert!(LiveQueueFilter::MatchAndRanked.matches(&recent(1, 1, 0, "classic", true, 900)));
    assert!(!LiveQueueFilter::MatchAndRanked.matches(&recent(1, 1, 1700, "CLASSIC", true, 900)));
}

#[test]
fn live_totals() {
    let games = vec![
        recent(1, 10, 420, "CLASSIC", true, 900),
        recent(2, 20, 420, "CLASSIC", false, 900),
        recent(3, 20, 420, "CLASSIC", true, 900),
        recent(4, 10, 420, "CLASSIC", true, 900),
    ];
    let t = summarize_live_games(&games);
    assert_eq!(t.games, 4);
    assert_eq!(t.wins, 3);
    assert_eq!(t.losses, 1);
    assert_eq!(t.kills, 8);
    assert_eq!(t.deaths, 4);
    assert_eq!(t.assists, 12);
    assert_eq!(t.unique_champions, 2);
    // Tied counts go to the larger champion id.
    assert_eq!(t.most_played_champion_id, Some(20));
    let empty = summarize_live_games(&vec![]);
    assert_eq!(empty.games, 0);
    assert_eq!(empty.most_played_champion_id, None);
}

#[test]
fn filtered_stats() {
    let analysis = PlayerAnalysis {
        summoner: summoner("p"),
        depth_requested: 20,
        depth_loaded: 4,
        totals: PlayerTotals {
            games: 0,
            wins: 0,
            losses: 0,
            kills: 0,
            deaths: 0,
            assists: 0,
            unique_champions: 0,
            most_played_champion_id: None,
        },
        champions: vec![],
        recent_games: vec![
            recent(1, 10, 420, "CLASSIC", true, 900),
            recent(2, 11, 450, "ARAM", true, 900),
            recent(3, 12, 420, "CLASSIC", false, 300),
            recent(4, 13, 440, "CLASSIC", false, 900),
            recent(5, 14, 420, "CLASSIC", true, 900),
        ],
    };
    let r = filter_live_stats(analysis, LiveQueueFilter::Ranked, 2);
    assert_eq!(r.depth_requested, 2);
    assert_eq!(r.depth_loaded, 2);
    let ids: Vec<u64> = r.recent_games.iter().map(|g| g.game_id).collect();
    assert_eq!(ids, vec![1, 4]);
    assert_eq!(r.totals.wins, 1);
    assert_eq!(r.totals.losses, 1);
    assert!(r.champions.is_empty());
}

#[test]
fn fallback_names() {
    let mut s = seed("0123456789abcdef");
    s.fallback_name = "  Zed  ".to_string();
    assert_eq!(fallback_live_summoner(&s).display_name, "Zed");
    s.fallback_name = " ".to_string();
    let f = fallback_live_summoner(&s);
    assert_eq!(f.display_name, "玩家 01234567");
    assert_eq!(f.internal_name, "玩家 01234567");
    assert_eq!(f.summoner_id, 9);
    assert_eq!(fallback_live_summoner(&seed("abc")).display_name, "玩家 abc");
}

#[test]
fn scanning_and_stages() {
    assert_eq!(live_display_depth(0), 1);
    assert_eq!(live_display_depth(20), 20);
    assert_eq!(live_display_depth(500), 50);
    assert_eq!(live_scan_next(20, 20, 5, 20), Some(40));
    assert_eq!(live_scan_next(80, 80, 5, 20), Some(100));
    assert_eq!(live_scan_next(90, 90, 5, 20), Some(100));
    assert_eq!(live_scan_next(100, 100, 5, 20), None);
    assert_eq!(live_scan_next(40, 33, 5, 20), None);
    assert_eq!(live_scan_next(40, 40, 20, 20), None);
    assert_eq!(live_stage("ChampSelect"), LiveStage::ChampSelect);
    assert_eq!(live_stage("Reconnect"), LiveStage::InGame);
    assert_eq!(live_stage("Lobby"), LiveStage::Unavailable);
}

#[test]
fn queue_info_and_sides() {
    let mut s = session(0, "", "CLASSIC");
    s.game_data.game_id = 0;
    let q = live_queue_info(&s);
    assert_eq!(q.queue_id, None);
    assert_eq!(q.queue_type, None);
    assert_eq!(q.game_mode, Some("CLASSIC".to_string()));
    assert_eq!(q.game_id, None);
    assert!(is_cherry(&Some("CHERRY".to_string())));
    assert!(!is_cherry(&Some("cherry".to_string())));
    assert!(!is_cherry(&None));

    let blue = vec![seed("b1"), seed("b2")];
    let red = vec![seed("r1")];
    let o = live_side_order(&blue, &red, Some("R1"));
    assert!(o.red_first);
    assert_eq!(o.first_name, "我方");
    let o = live_side_order(&blue, &red, Some("b2"));
    assert!(!o.red_first);
    assert_eq!(o.second_name, "敌方");
    let o = live_side_order(&blue, &red, None);
    assert_eq!(o.first_name, "蓝方");
    assert_eq!(o.second_name, "红方");
}

#[test]
fn arena_selection() {
    let players = vec![seed("a"), seed("b"), seed("c")];
    let kept = retain_selected_players(players, &vec![selection("c", 1), selection("a", 2)]);
    let ids: Vec<&str> = kept.iter().map(|p| p.puuid.as_str()).collect();
    assert_eq!(ids, vec!["a", "c"]);
    let all = retain_selected_players(vec![seed("a"), seed("b")], &vec![selection("", 1)]);
    assert_eq!(all.len(), 2);
}

#[test]
fn players_from_seeds() {
    let ok = live_player_from_seed(seed("p"), summoner("p"), Err("boom".to_string()), Some("who".to_string()));
    assert_eq!(ok.error, Some("召唤师信息：who；战绩：boom".to_string()));
    assert!(ok.stats.is_none());
    let plain = live_player_from_seed(seed("p"), summoner("p"), Err("boom".to_string()), None);
    assert_eq!(plain.error, Some("boom".to_string()));
    assert!(plain.premade.is_none());
    assert_eq!(plain.summoner.unwrap().puuid, "p");
}

fn cs_player(puuid: &str, champion: u32) -> ChampSelectPlayer {
    ChampSelectPlayer {
        cell_id: 0,
        puuid: puuid.to_string(),
        champion_id: champion,
        champion_pick_intent: 0,
        assigned_position: "top".to_string(),
        summoner_id: 1,
        team: 1,
        player_type: "PLAYER".to_string(),
        name_visibility_type: "VISIBLE".to_string(),
    }
}

fn names_and_puuids(plans: &[lol_stats::live::TeamPlan]) -> Vec<(String, Vec<String>)> {
    plans.iter().map(|p| (p.name.clone(), p.seeds.iter().map(|s| s.puuid.clone()).collect())).collect()
}

#[test]
fn champ_select_seed_lists() {
    let map = vec![("a".to_string(), 4u32)];
    let seeds = champ_select_seeds(
        vec![cs_player("A", 10), cs_player("", 11), cs_player("00000000-0000-0000-0000-000000000000", 12), cs_player("b", 13)],
        &map,
    );
    assert_eq!(seeds.len(), 2);
    assert_eq!(seeds[0].puuid, "A");
    assert_eq!(seeds[0].team_participant_id, Some(4));
    assert_eq!(seeds[0].position, "TOP");
    assert_eq!(seeds[1].puuid, "b");
    assert_eq!(seeds[1].champion_id, 13);
    assert_eq!(seeds[1].team_participant_id, None);
}

#[test]
fn planned_teams() {
    let cs = champ_select_teams(false, vec![seed("a")], vec![seed("b"), seed("c")]);
    assert_eq!(
        names_and_puuids(&cs),
        vec![("我方".to_string(), vec!["a".to_string()]), ("敌方".to_string(), vec!["b".to_string(), "c".to_string()])]
    );
    let arena = champ_select_teams(true, vec![seed("a")], vec![seed("b")]);
    assert_eq!(names_and_puuids(&arena), vec![("全部玩家".to_string(), vec!["a".to_string(), "b".to_string()])]);

    let sels = vec![selection("A", 1), selection("c", 2)];
    let ours_red = in_game_teams(false, vec![seed("A"), seed("B")], vec![seed("c")], &sels, Some("C"));
    assert_eq!(
        names_and_puuids(&ours_red),
        vec![("我方".to_string(), vec!["c".to_string()]), ("敌方".to_string(), vec!["A".to_string(), "B".to_string()])]
    );
    let ours_blue = in_game_teams(false, vec![seed("A")], vec![seed("c")], &sels, Some("a"));
    assert_eq!(names_and_puuids(&ours_blue)[0], ("我方".to_string(), vec!["A".to_string()]));
    let watching = in_game_teams(false, vec![seed("A")], vec![seed("c")], &sels, None);
    assert_eq!(
        names_and_puuids(&watching),
        vec![("蓝方".to_string(), vec!["A".to_string()]), ("红方".to_string(), vec!["c".to_string()])]
    );
    let arena_game = in_game_teams(true, vec![seed("A"), seed("B")], vec![seed("c"), seed("d")], &sels, Some("A"));
    assert_eq!(names_and_puuids(&arena_game), vec![("全部玩家".to_string(), vec!["A".to_string(), "c".to_string()])]);
    let no_selection = in_game_teams(true, vec![seed("A")], vec![seed("d")], &vec![selection("", 1)], None);
    assert_eq!(names_and_puuids(&no_selection), vec![("全部玩家".to_string(), vec!["A".to_string(), "d".to_string()])]);
}
