use lol_stats::error::AppError;
use lol_stats::models::{ClientAuth, RiotAlias, RiotAliasName, SummonerInfo};
use lol_stats::search::{
    alias_to_summoner, candidates_for_server, empty_search_error, filter_aliases, is_probably_puuid,
    normalize_query_text, normalize_search_name, puuid_only_summoner, resolve_plan, searches_all_servers,
    split_riot_id, target_server_ids, ResolvePlan,
};

const PUUID: &str = "0a1b2c3d-0000-1111-2222-333344445555";

fn alias(puuid: &str, name: &str, tag: &str) -> RiotAlias {
    RiotAlias {
        puuid: puuid.to_string(),
        alias: RiotAliasName { game_name: name.to_string(), tag_line: tag.to_string() },
    }
}

fn summoner(puuid: &str, icon: u32, level: u32) -> SummonerInfo {
    SummonerInfo {
        display_name: String::new(),
        game_name: String::new(),
        tag_line: String::new(),
        internal_name: String::new(),
        profile_icon_id: icon,
        puuid: puuid.to_string(),
        summoner_id: 0,
        summoner_level: level,
        privacy: "PUBLIC".to_string(),
    }
}

fn auth(region: &str, platform: &str) -> ClientAuth {
    ClientAuth {
        port: 1,
        pid: 1,
        auth_token: "t".to_string(),
        region: region.to_string(),
        rso_platform_id: platform.to_string(),
        riot_client_port: None,
        riot_client_auth_token: None,
        source: "s".to_string(),
    }
}

#[test]
fn query_text_is_cleaned() {
    assert_eq!(normalize_query_text("  Faker＃KR1 "), "Faker#KR1");
    assert_eq!(normalize_query_text("a﹟b"), "a#b");
    assert_eq!(normalize_query_text("\u{FEFF}ab\u{200B}c"), "abc");
    assert_eq!(normalize_search_name("  FaKer "), "faker");
    assert_eq!(normalize_search_name("ÄÖ"), "äö");
}

#[test]
fn puuid_detection() {
    assert!(is_probably_puuid(PUUID));
    assert!(!is_probably_puuid("a-b-c-d-e"));
    assert!(!is_probably_puuid("0a1b2c3d00001111222233334444555566667777"));
    // Multi-byte characters count by their UTF-8 length.
    assert!(is_probably_puuid("中中中中中中中中中中中-a-b-c-d"));
}

#[test]
fn riot_id_split() {
    assert_eq!(split_riot_id(" name # tag "), (" name".trim().to_string(), Some("tag".to_string())));
    assert_eq!(split_riot_id("a#b#c"), ("a".to_string(), Some("b#c".to_string())));
    assert_eq!(split_riot_id("plain"), ("plain".to_string(), None));
}

#[test]
fn plans() {
    assert!(matches!(resolve_plan("  "), ResolvePlan::Empty));
    match resolve_plan(PUUID) {
        ResolvePlan::ByPuuid(p) => assert_eq!(p, PUUID),
        other => panic!("unexpected {other:?}"),
    }
    match resolve_plan(" Faker ＃ KR1") {
        ResolvePlan::RiotId { name, tag } => {
            assert_eq!(name, "Faker");
            assert_eq!(tag, "KR1");
        }
        other => panic!("unexpected {other:?}"),
    }
    match resolve_plan("Faker") {
        ResolvePlan::Name(n) => assert_eq!(n, "Faker"),
        other => panic!("unexpected {other:?}"),
    }
    assert!(matches!(empty_search_error(), AppError::PlayerNotFound(m) if m == "搜索内容为空"));
}

#[test]
fn summoners_from_aliases_and_puuids() {
    let s = alias_to_summoner(&alias("p1", "Name", "TAG"));
    assert_eq!(s.puuid, "p1");
    assert_eq!(s.game_name, "Name");
    assert_eq!(s.tag_line, "TAG");
    assert_eq!(s.display_name, "");
    let q = puuid_only_summoner(PUUID);
    assert_eq!(q.puuid, PUUID);
    assert_eq!(q.display_name, PUUID);
}

#[test]
fn alias_filtering() {
    let kept = filter_aliases(
        vec![
            alias("P1", " faker ", "kr1"),
            alias("p1", "Faker", "KR1"),
            alias("p2", "Faker", "KR2"),
            alias("", "Faker", "KR1"),
            alias("p3", "Other", "KR1"),
            alias("p4", "FAKER", "kr1"),
        ],
        "faker",
        Some("kr1"),
    );
    let puuids: Vec<&str> = kept.iter().map(|a| a.puuid.as_str()).collect();
    assert_eq!(puuids, vec!["P1", "p4"]);

    let any_tag = filter_aliases(vec![alias("p1", "Faker", "KR1"), alias("p2", "Faker", "KR2")], "faker", None);
    assert_eq!(any_tag.len(), 2);
}

#[test]
fn servers() {
    assert!(searches_all_servers(Some(" all ")));
    assert!(!searches_all_servers(Some("TENCENT_HN1")));
    assert!(!searches_all_servers(None));
    let all = target_server_ids(&auth("TENCENT", "HN1"), Some("All"));
    assert_eq!(all.len(), 8);
    assert_eq!(all[0], "TENCENT_HN1");
    assert_eq!(all[7], "TENCENT_BGP2");
    assert_eq!(target_server_ids(&auth("TENCENT", "hn1"), None), vec!["TENCENT_HN1"]);
    assert_eq!(target_server_ids(&auth("TENCENT", "hn1"), Some("tencent_gz100")), vec!["TENCENT_GZ100"]);
}

#[test]
fn candidates() {
    let aliases = vec![alias("AAA", "A", "1"), alias("bbb", "B", "2"), alias("ccc", "C", "3")];
    let summoners = vec![summoner("aaa", 1, 10), summoner("CCC", 3, 30), summoner("ccc", 4, 40)];
    let c = candidates_for_server(&aliases, &summoners, "TENCENT_HN1");
    assert_eq!(c.len(), 2);
    assert_eq!(c[0].puuid, "AAA");
    assert_eq!(c[0].game_name, "A");
    assert_eq!(c[0].profile_icon_id, 1);
    assert_eq!(c[0].sgp_server_id, "TENCENT_HN1");
    // Of two summoners with one PUUID, the last listed is taken.
    assert_eq!(c[1].puuid, "ccc");
    assert_eq!(c[1].summoner_level, 40);
}
