use std::collections::HashSet;

use lol_stats::loading::{
    cache_age, db_stats_usable, incremental_page_size, page_end_index, stats_cache_key, unique_games,
    DirectPaging, IncrementalPaging, DATABASE_CACHE_TTL_MS,
};
use lol_stats::models::{ClientAuth, Game, SummonerInfo};

fn game(id: u64) -> Game {
    Game {
        game_id: id,
        game_creation: 0,
        game_duration: 0,
        game_mode: String::new(),
        game_type: String::new(),
        queue_id: 0,
        participant_identities: vec![],
        participants: vec![],
    }
}

fn ids(gs: &[Game]) -> Vec<u64> {
    gs.iter().map(|g| g.game_id).collect()
}

fn summoner(puuid: &str) -> SummonerInfo {
    SummonerInfo {
        display_name: String::new(),
        game_name: String::new(),
        tag_line: String::new(),
        internal_name: String::new(),
        profile_icon_id: 0,
        puuid: puuid.to_string(),
        summoner_id: 0,
        summoner_level: 0,
        privacy: String::new(),
    }
}

fn auth() -> ClientAuth {
    ClientAuth {
        port: 1,
        pid: 1,
        auth_token: "t".to_string(),
        region: "TENCENT".to_string(),
        rso_platform_id: "hn1".to_string(),
        riot_client_port: None,
        riot_client_auth_token: None,
        source: "s".to_string(),
    }
}

#[test]
fn unique_game_ids() {
    let mut seen = HashSet::new();
    seen.insert(5u64);
    let kept = unique_games(vec![game(1), game(5), game(0), game(1), game(2), game(0)], &mut seen);
    assert_eq!(ids(&kept), vec![1, 0, 2, 0]);
    let mut expected = HashSet::new();
    expected.extend([1u64, 2, 5]);
    assert_eq!(seen, expected);
    // Every kept non-zero id is new and appears once.
    let non_zero: Vec<u64> = ids(&kept).into_iter().filter(|id| *id != 0).collect();
    let distinct: HashSet<u64> = non_zero.iter().copied().collect();
    assert_eq!(distinct.len(), non_zero.len());
}

#[test]
fn cache_keys_and_ages() {
    let k = stats_cache_key(Some(&auth()), None, &summoner("AbC"), 20);
    assert_eq!(k.sgp_server_id, "TENCENT_HN1");
    assert_eq!(k.puuid, "abc");
    assert_eq!(k.depth, 20);
    assert_eq!(stats_cache_key(None, Some(" tencent_nj100 "), &summoner("x"), 1).sgp_server_id, "TENCENT_NJ100");
    assert_eq!(stats_cache_key(None, Some("  "), &summoner("x"), 1).sgp_server_id, "LCU_CURRENT");
    assert_eq!(stats_cache_key(None, None, &summoner("x"), 1).sgp_server_id, "LCU_CURRENT");

    assert_eq!(cache_age(1000, 1500), Some(500));
    assert_eq!(cache_age(1500, 1000), None);
    assert_eq!(cache_age(i64::MIN, i64::MAX), None);
    assert!(db_stats_usable(0, DATABASE_CACHE_TTL_MS as i64, false));
    assert!(!db_stats_usable(0, DATABASE_CACHE_TTL_MS as i64 + 1, false));
    assert!(db_stats_usable(0, DATABASE_CACHE_TTL_MS as i64 + 1, true));
    assert!(!db_stats_usable(10, 0, false));
}

#[test]
fn direct_paging() {
    let mut p = DirectPaging::new(5, 2);
    assert_eq!(p.next_page(), Some((0, 2)));
    assert_eq!(p.accept_page(vec![game(1), game(2)]), Some(2));
    assert_eq!(p.next_page(), Some((2, 2)));
    // A repeated game is dropped; the page added one game, so loading goes on.
    assert_eq!(p.accept_page(vec![game(2), game(3)]), Some(3));
    assert_eq!(p.next_page(), Some((4, 2)));
    // A short page stops the loading.
    assert_eq!(p.accept_page(vec![game(4)]), Some(4));
    assert_eq!(p.next_page(), None);
    assert_eq!(ids(&p.into_games()), vec![1, 2, 3, 4]);

    let mut q = DirectPaging::new(3, 50);
    assert_eq!(q.next_page(), Some((0, 3)));
    assert_eq!(q.accept_page(vec![game(1), game(2), game(3), game(4)]), Some(3));
    assert_eq!(q.next_page(), None);

    let mut r = DirectPaging::new(10, 5);
    assert_eq!(r.accept_page(vec![game(1), game(2)]), Some(2));
    assert_eq!(r.next_page(), None);
    // An empty page stops and reports nothing.
    let mut e = DirectPaging::new(3, 5);
    assert_eq!(e.accept_page(vec![]), None);
    assert_eq!(e.next_page(), None);
    assert!(e.into_games().is_empty());
    assert_eq!(page_end_index(0, 20), 19);
    assert_eq!(page_end_index(40, 10), 49);
}

#[test]
fn incremental_paging() {
    assert_eq!(incremental_page_size(200, 0, 50), 50);
    assert_eq!(incremental_page_size(10, 100, 50), 50);

    let mut p = IncrementalPaging::new(3, 2);
    assert_eq!(p.next_page(0), Some((0, 2)));
    let new = p.accept_page(vec![game(1), game(2)]).unwrap();
    assert_eq!(ids(&new), vec![1, 2]);
    assert_eq!(p.next_page(0), None);
    assert_eq!(p.after_store(false, 2), 2);
    assert_eq!(p.fetched_count(), 2);
    assert_eq!(p.next_page(2), Some((2, 2)));
    let new = p.accept_page(vec![game(2), game(3)]).unwrap();
    assert_eq!(ids(&new), vec![3]);
    assert_eq!(p.after_store(false, 3), 3);
    // Three new games stored on a later page: enough.
    assert_eq!(p.next_page(3), None);

    let mut q = IncrementalPaging::new(5, 2);
    let _ = q.accept_page(vec![game(1), game(2)]).unwrap();
    // A game already stored and a full store end the load.
    assert_eq!(q.after_store(true, 9), 5);
    assert_eq!(q.next_page(9), None);

    let mut r = IncrementalPaging::new(5, 2);
    assert!(r.accept_page(vec![]).is_none());
    assert_eq!(r.next_page(0), None);

    let mut s = IncrementalPaging::new(5, 2);
    let _ = s.accept_page(vec![game(7)]).unwrap();
    // A short page ends the load.
    assert_eq!(s.after_store(false, 1), 1);
    assert_eq!(s.next_page(1), None);
}
