use lol_stats::error::AppError;
use lol_stats::lcu::{
    asset_data_url, basic_auth_header, content_type_or_png, filter_real_champions, game_asset_entries,
    game_asset_entry_from_value, json_get, lcu_endpoint, lcu_status_error, local_base_url,
    match_history_game_path, match_history_path, merge_augments, normalize_lcu_asset_path, ranked_stats_path,
    read_bool_field, read_rarity_field, read_string_field, read_string_vec_field, read_u32_field,
    require_token, riot_endpoint, summoner_by_name_path, summoner_by_puuid_path, JsonValue,
};
use lol_stats::models::{ChampionSummaryItem, ClientAuth, GameAssetEntry};

fn obj(entries: Vec<(&str, JsonValue)>) -> JsonValue {
    JsonValue::Object(entries.into_iter().map(|(k, v)| (k.to_string(), v)).collect())
}

fn s(v: &str) -> JsonValue {
    JsonValue::Str(v.to_string())
}

fn auth() -> ClientAuth {
    ClientAuth {
        port: 54321,
        pid: 1,
        auth_token: "abc".to_string(),
        region: "TENCENT".to_string(),
        rso_platform_id: "HN1".to_string(),
        riot_client_port: Some(6000),
        riot_client_auth_token: Some("xyz".to_string()),
        source: "s".to_string(),
    }
}

fn entry(id: u32) -> GameAssetEntry {
    GameAssetEntry {
        id,
        name: format!("e{id}"),
        description: String::new(),
        icon_path: String::new(),
        rarity: String::new(),
        categories: vec![],
        price: 0,
        price_total: 0,
        in_store: false,
        display_in_item_sets: false,
    }
}

#[test]
fn auth_headers_and_endpoints() {
    assert_eq!(basic_auth_header("abc"), "Basic cmlvdDphYmM=");
    assert_eq!(basic_auth_header(""), "Basic cmlvdDo=");
    assert_eq!(local_base_url(2999), "https://127.0.0.1:2999");
    let e = lcu_endpoint(&auth());
    assert_eq!(e.base_url, "https://127.0.0.1:54321");
    assert_eq!(e.auth_header, "Basic cmlvdDphYmM=");
    let r = riot_endpoint(&auth()).unwrap();
    assert_eq!(r.base_url, "https://127.0.0.1:6000");
    assert_eq!(r.auth_header, "Basic cmlvdDp4eXo=");
    let mut no_riot = auth();
    no_riot.riot_client_auth_token = None;
    assert!(riot_endpoint(&no_riot).is_none());
}

#[test]
fn paths() {
    assert_eq!(summoner_by_name_path("a b#中"), "/lol-summoner/v1/summoners?name=a%20b%23%E4%B8%AD");
    assert_eq!(summoner_by_name_path("A-z_0.~"), "/lol-summoner/v1/summoners?name=A-z_0.~");
    assert_eq!(summoner_by_puuid_path("p"), "/lol-summoner/v2/summoners/puuid/p");
    assert_eq!(ranked_stats_path("p"), "/lol-ranked/v1/ranked-stats/p");
    assert_eq!(match_history_path("p", 0, 19), "/lol-match-history/v1/products/lol/p/matches?begIndex=0&endIndex=19");
    assert_eq!(match_history_game_path(123), "/lol-match-history/v1/games/123");
}

#[test]
fn asset_paths_and_urls() {
    assert_eq!(
        normalize_lcu_asset_path(" /lol-game-data/assets/v1/a.png ").unwrap(),
        "/lol-game-data/assets/v1/a.png"
    );
    assert!(matches!(normalize_lcu_asset_path("/lol-game-data/assets/../x"), Err(AppError::LcuUnavailable(_))));
    assert!(matches!(normalize_lcu_asset_path("/other/x.png"), Err(AppError::LcuUnavailable(_))));
    assert_eq!(asset_data_url("image/png", &[1, 2, 3, 4]), "data:image/png;base64,AQIDBA==");
    assert_eq!(asset_data_url("image/jpeg", &[]), "data:image/jpeg;base64,");
    assert_eq!(content_type_or_png(None), "image/png");
    assert_eq!(content_type_or_png(Some("image/jpeg".to_string())), "image/jpeg");
}

#[test]
fn statuses_and_tokens() {
    assert!(matches!(lcu_status_error("/x", 404, "404 Not Found"), Some(AppError::PlayerNotFound(p)) if p == "/x"));
    assert!(lcu_status_error("/x", 200, "200 OK").is_none());
    assert!(matches!(
        lcu_status_error("/x", 500, "500 Internal Server Error"),
        Some(AppError::LcuUnavailable(m)) if m == "/x 返回 500 Internal Server Error"
    ));
    assert_eq!(require_token("tok".to_string(), "m").unwrap(), "tok");
    assert!(matches!(require_token("  ".to_string(), "missing"), Err(AppError::LcuUnavailable(m)) if m == "missing"));
}

#[test]
fn champions_and_augments() {
    let champ = |id: i32| ChampionSummaryItem {
        id,
        name: format!("c{id}"),
        alias: String::new(),
        square_portrait_path: String::new(),
        roles: vec![],
    };
    let kept = filter_real_champions(vec![champ(-1), champ(1), champ(0), champ(266)]);
    let ids: Vec<i32> = kept.iter().map(|c| c.id).collect();
    assert_eq!(ids, vec![1, 266]);

    let mut perks = vec![entry(1), entry(2)];
    merge_augments(&mut perks, &vec![entry(2), entry(3), entry(3), entry(4)]);
    let ids: Vec<u32> = perks.iter().map(|e| e.id).collect();
    assert_eq!(ids, vec![1, 2, 3, 4]);
}

#[test]
fn json_fields() {
    let v = obj(vec![
        ("id", JsonValue::PosInt(7)),
        ("price", s("300")),
        ("big", JsonValue::PosInt(5_000_000_000)),
        ("name", JsonValue::Null),
        ("displayName", s("Shown")),
        ("categories", JsonValue::Array(vec![s("A"), JsonValue::PosInt(1), s("B")])),
        ("inStore", s("TRUE")),
        ("flag", JsonValue::Bool(true)),
        ("other", s("yes")),
    ]);
    assert!(json_get(&v, "id").is_some());
    assert!(json_get(&v, "missing").is_none());
    assert_eq!(read_u32_field(&v, "id"), Some(7));
    assert_eq!(read_u32_field(&v, "price"), Some(300));
    assert_eq!(read_u32_field(&v, "big"), None);
    assert_eq!(read_u32_field(&v, "missing"), None);
    assert_eq!(read_string_field(&v, &["name", "nameTRA", "displayName"]), "Shown");
    assert_eq!(read_string_field(&v, &["nameCn"]), "");
    assert_eq!(read_string_vec_field(&v, "categories"), vec!["A", "B"]);
    assert!(read_string_vec_field(&v, "name").is_empty());
    assert!(read_bool_field(&v, "inStore"));
    assert!(read_bool_field(&v, "flag"));
    assert!(!read_bool_field(&v, "other"));
    assert!(!read_bool_field(&v, "missing"));
}

#[test]
fn rarities() {
    assert_eq!(read_rarity_field(&obj(vec![("rarity", s("kEpic"))])), "kEpic");
    assert_eq!(read_rarity_field(&obj(vec![("rarity", JsonValue::PosInt(1))])), "kGold");
    assert_eq!(read_rarity_field(&obj(vec![("rarity", JsonValue::Float(2))])), "kPrismatic");
    assert_eq!(read_rarity_field(&obj(vec![("rarity", JsonValue::NegInt(-3))])), "kSilver");
    assert_eq!(read_rarity_field(&obj(vec![("rarity", JsonValue::PosInt(9))])), "");
    assert_eq!(read_rarity_field(&obj(vec![])), "");
}

#[test]
fn asset_entries() {
    let good = obj(vec![
        ("id", s("12")),
        ("nameTRA", s("Flash")),
        ("longDesc", s("blink")),
        ("iconLarge", s("/icon.png")),
        ("priceTotal", JsonValue::PosInt(3000)),
        ("displayInItemSets", s("1")),
    ]);
    let e = game_asset_entry_from_value(good).unwrap();
    assert_eq!(e.id, 12);
    assert_eq!(e.name, "Flash");
    assert_eq!(e.description, "blink");
    assert_eq!(e.icon_path, "/icon.png");
    assert_eq!(e.price, 0);
    assert_eq!(e.price_total, 3000);
    assert!(e.display_in_item_sets);
    assert!(!e.in_store);
    assert!(game_asset_entry_from_value(obj(vec![("id", JsonValue::PosInt(0))])).is_none());
    assert!(game_asset_entry_from_value(obj(vec![("name", s("x"))])).is_none());
    assert!(game_asset_entry_from_value(s("x")).is_none());

    let all = game_asset_entries(vec![
        obj(vec![("id", JsonValue::PosInt(3))]),
        JsonValue::Null,
        obj(vec![("id", JsonValue::PosInt(1)), ("name", s("one"))]),
    ]);
    let ids: Vec<u32> = all.iter().map(|e| e.id).collect();
    assert_eq!(ids, vec![3, 1]);
    assert_eq!(all[1].name, "one");
}
