use lol_stats::live::{LivePlayer, LiveTeam};
use lol_stats::models::SummonerInfo;
use lol_stats::premade::{
    assign_premade_group, assign_premade_markers, explicit_premade_groups, inferred_premade_groups,
    premade_subset_times, PairGameTable, PairGamesEntry, PremadeCandidate,
};
use lol_stats::stats::{PlayerAnalysis, PlayerTotals, RecentGame};

fn summoner() -> SummonerInfo {
    SummonerInfo {
        display_name: String::new(),
        game_name: String::new(),
        tag_line: String::new(),
        internal_name: String::new(),
        profile_icon_id: 0,
        puuid: String::new(),
        summoner_id: 0,
        summoner_level: 0,
        privacy: String::new(),
    }
}

fn recent(game_id: u64, team: &[&str]) -> RecentGame {
    RecentGame {
        game_id,
        champion_id: 1,
        queue_id: 420,
        game_mode: "CLASSIC".to_string(),
        win: true,
        spell1_id: 0,
        spell2_id: 0,
        item_ids: vec![],
        perk_ids: vec![],
        augment_ids: vec![],
        team_damage_leader: false,
        game_damage_leader: false,
        team_mitigation_leader: false,
        team_healing_leader: false,
        team_gold_leader: false,
        kills: 0,
        deaths: 0,
        assists: 0,
        team_kills: 0,
        team_deaths: 0,
        team_puuids: team.iter().map(|s| s.to_string()).collect(),
        cs: 0,
        gold_earned: 0,
        damage_to_champions: 0,
        team_damage_to_champions: 0,
        damage_self_mitigated: 0,
        total_damage_taken: 0,
        team_damage_self_mitigated: 0,
        team_total_damage_taken: 0,
        total_heal: 0,
        team_total_heal: 0,
        team_gold_earned: 0,
        enemy_champion_immobilizations: 0,
        team_enemy_champion_immobilizations: 0,
        immobilize_and_kill_with_ally: 0,
        team_immobilize_and_kill_with_ally: 0,
        game_creation: 0,
        game_duration: 1200,
    }
}

fn analysis(games: Vec<RecentGame>) -> PlayerAnalysis {
    PlayerAnalysis {
        summoner: summoner(),
        depth_requested: 20,
        depth_loaded: games.len(),
        totals: PlayerTotals {
            games: 0,
            wins: 0,
            losses: 0,
            kills: 0,
            deaths: 0,
            assists: 0,
            unique_champions: 0,
            most_played_champion_id: None,
        },
        champions: vec![],
        recent_games: games,
    }
}

fn player(puuid: &str, group: Option<u32>, games: Option<Vec<RecentGame>>) -> LivePlayer {
    LivePlayer {
        puuid: puuid.to_string(),
        champion_id: 1,
        champion_pick_intent: 0,
        position: String::new(),
        selected_role: String::new(),
        summoner_id: 0,
        team_participant_id: group,
        is_placeholder: false,
        premade: None,
        summoner: None,
        stats: games.map(analysis),
        error: None,
    }
}

fn strings(v: &[&str]) -> Vec<String> {
    v.iter().map(|s| s.to_string()).collect()
}

#[test]
fn client_groups() {
    let team = LiveTeam {
        name: "t".to_string(),
        players: vec![
            player("B", Some(2), None),
            player("a", Some(2), None),
            player("c", Some(1), None),
            player("", Some(1), None),
            player("d", None, None),
            player("e", Some(3), None),
            player("E", Some(3), None),
        ],
    };
    let groups = explicit_premade_groups(&team);
    assert_eq!(groups.len(), 2);
    assert_eq!(groups[0].puuids, strings(&["a", "b"]));
    assert_eq!(groups[0].source, "客户端分组");
    assert_eq!(groups[0].together_times, 0);
    // Two entries for one player collapse to one after sorting.
    assert_eq!(groups[1].puuids, strings(&["e"]));
}

#[test]
fn assigning_a_group() {
    let mut team = LiveTeam {
        name: "t".to_string(),
        players: vec![player("A", None, None), player("b", None, None), player("c", None, None)],
    };
    let mut marked = Vec::new();
    let mut index = 0usize;
    let group = PremadeCandidate { puuids: strings(&["a", "b"]), source: "历史同队".to_string(), together_times: 4 };
    assert!(assign_premade_group(&mut team, group, &mut marked, &mut index));
    assert_eq!(index, 1);
    assert_eq!(marked, strings(&["a", "b"]));
    let m = team.players[0].premade.as_ref().unwrap();
    assert_eq!(m.group_id, "A");
    assert_eq!(m.label, "A队 · 2黑");
    assert_eq!(m.source, "历史同队");
    assert_eq!(m.together_times, 4);
    assert_eq!(m.member_puuids, strings(&["a", "b"]));
    assert!(team.players[1].premade.is_some());
    assert!(team.players[2].premade.is_none());

    // A group with a marked player is refused and changes nothing.
    let again = PremadeCandidate { puuids: strings(&["b", "c"]), source: "x".to_string(), together_times: 0 };
    assert!(!assign_premade_group(&mut team, again, &mut marked, &mut index));
    assert_eq!(index, 1);
    assert!(team.players[2].premade.is_none());

    // A group with nobody of the team is refused too.
    let absent = PremadeCandidate { puuids: strings(&["x", "y"]), source: "x".to_string(), together_times: 0 };
    assert!(!assign_premade_group(&mut team, absent, &mut marked, &mut index));
    assert_eq!(marked.len(), 2);
}

#[test]
fn subset_times() {
    let table = PairGameTable {
        entries: vec![
            PairGamesEntry { first: "a".to_string(), second: "b".to_string(), game_ids: vec![1, 2, 3, 4] },
            PairGamesEntry { first: "a".to_string(), second: "c".to_string(), game_ids: vec![1, 2, 3] },
            PairGamesEntry { first: "b".to_string(), second: "c".to_string(), game_ids: vec![1, 2, 3, 5, 6] },
        ],
    };
    assert_eq!(premade_subset_times(&strings(&["a", "b"]), &table), Some(4));
    assert_eq!(premade_subset_times(&strings(&["c", "a", "b"]), &table), Some(3));
    assert_eq!(premade_subset_times(&strings(&["a", "d"]), &table), None);
    assert_eq!(premade_subset_times(&strings(&["a"]), &table), Some(usize::MAX));
}

fn history_team() -> LiveTeam {
    // a, b, c shared a side in games 1..=3; d and e in games 1..=2 only.
    let shared = vec![
        recent(1, &["A", "b", "c", "d", "e"]),
        recent(2, &["a", "b", "c", "d", "e"]),
        recent(3, &["a", "B", "c", "x"]),
        recent(3, &["a", "b", "c"]),
    ];
    LiveTeam {
        name: "t".to_string(),
        players: vec![
            player("a", None, Some(shared)),
            player("b", None, None),
            player("c", None, None),
            player("d", None, None),
            player("e", None, None),
        ],
    }
}

#[test]
fn inferred_groups() {
    let team = history_team();
    let groups = inferred_premade_groups(&team, &vec![]);
    assert_eq!(groups.len(), 1);
    assert_eq!(groups[0].puuids, strings(&["a", "b", "c"]));
    assert_eq!(groups[0].source, "历史同队");
    assert_eq!(groups[0].together_times, 3);

    // With `a` marked, `b` and `c` still shared a side three times.
    let rest = inferred_premade_groups(&team, &strings(&["a"]));
    assert_eq!(rest.len(), 1);
    assert_eq!(rest[0].puuids, strings(&["b", "c"]));
    assert_eq!(rest[0].together_times, 3);

    let lone = LiveTeam { name: "t".to_string(), players: vec![player("a", None, None)] };
    assert!(inferred_premade_groups(&lone, &vec![]).is_empty());
}

#[test]
fn markers_across_teams() {
    let mut teams = vec![
        LiveTeam {
            name: "ours".to_string(),
            players: vec![player("p", Some(7), None), player("q", Some(7), None), player("r", None, None)],
        },
        history_team(),
    ];
    assign_premade_markers(&mut teams);
    let first = teams[0].players[0].premade.as_ref().unwrap();
    assert_eq!(first.group_id, "A");
    assert_eq!(first.source, "客户端分组");
    assert!(teams[0].players[1].premade.is_some());
    assert!(teams[0].players[2].premade.is_none());
    let second = teams[1].players[0].premade.as_ref().unwrap();
    assert_eq!(second.group_id, "B");
    assert_eq!(second.label, "B队 · 3黑");
    assert_eq!(second.together_times, 3);
    assert!(teams[1].players[3].premade.is_none());
}

#[test]
fn groups_never_overlap() {
    let mut teams = vec![
        LiveTeam { name: "a".to_string(), players: vec![player("P", Some(1), None), player("q", Some(1), None)] },
        LiveTeam { name: "b".to_string(), players: vec![player("Q", Some(1), None), player("r", Some(1), None)] },
    ];
    assign_premade_markers(&mut teams);
    let first = teams[0].players[0].premade.as_ref().unwrap();
    assert_eq!(first.member_puuids, strings(&["p", "q"]));
    assert!(teams[0].players[1].premade.is_some());
    // `q` is in a group already, so the second team's group is passed over.
    assert!(teams[1].players[0].premade.is_none());
    assert!(teams[1].players[1].premade.is_none());
}

#[test]
fn every_client_group_is_marked() {
    let mut teams = vec![
        LiveTeam {
            name: "a".to_string(),
            players: vec![
                player("P", Some(4), None),
                player("x", Some(9), None),
                player("q", Some(4), None),
                player("y", Some(9), None),
                player("z", Some(5), None),
            ],
        },
        LiveTeam { name: "b".to_string(), players: vec![player("S", Some(4), None), player("t", Some(4), None)] },
    ];
    assign_premade_markers(&mut teams);
    let expect = [(0, 0, vec!["p", "q"]), (0, 2, vec!["p", "q"]), (0, 1, vec!["x", "y"]), (0, 3, vec!["x", "y"]), (1, 0, vec!["s", "t"]), (1, 1, vec!["s", "t"])];
    for (t, k, members) in expect.iter() {
        let m = teams[*t].players[*k].premade.as_ref().unwrap();
        assert_eq!(m.source, "客户端分组");
        assert_eq!(m.member_puuids, strings(members));
    }
    // A group of one player gets no marker.
    assert!(teams[0].players[4].premade.is_none());
    assert_eq!(teams[0].players[0].premade.as_ref().unwrap().group_id, "A");
    assert_eq!(teams[0].players[1].premade.as_ref().unwrap().group_id, "B");
    assert_eq!(teams[1].players[0].premade.as_ref().unwrap().group_id, "C");
}
