//! The League client's local API: its addresses, its credentials and the
//! reading of its answers.
use vstd::prelude::*;
use vstd::utf8::encode_utf8;

use base64::Engine;

use crate::error::AppError;
use crate::models::{ChampionSummaryItem, ClientAuth, GameAssetEntry};
use crate::text::{
    concat, contains, contains_seq, copy_strings, decimal_seq, eq_ignore_case, eq_ignore_case_seq, lower_seq, owned, push_decimal,
    starts_with, starts_with_seq, str_eq, string_views, to_lower, trim, trim_seq,
};
use crate::update::{parse_u32, parse_u32_spec};

verus! {

/// The character of a 6-bit value in the standard base64 alphabet.
pub open spec fn b64_char(v: int) -> char {
    if v < 26 {
        (65 + v) as char
    } else if v < 52 {
        (97 + v - 26) as char
    } else if v < 62 {
        (48 + v - 52) as char
    } else if v == 62 {
        '+'
    } else {
        '/'
    }
}

/// Standard base64 with padding (RFC 4648): each three bytes become four
/// characters; a last one or two bytes become two or three, padded with `=`.
pub open spec fn base64_spec(b: Seq<u8>) -> Seq<char>
    decreases b.len(),
{
    if b.len() == 0 {
        Seq::empty()
    } else {
        let x = b[0] as int;
        let y = if b.len() > 1 {
            b[1] as int
        } else {
            0
        };
        let z = if b.len() > 2 {
            b[2] as int
        } else {
            0
        };
        if b.len() == 1 {
            seq![b64_char(x / 4), b64_char((x % 4) * 16), '=', '=']
        } else if b.len() == 2 {
            seq![b64_char(x / 4), b64_char((x % 4) * 16 + y / 16), b64_char((y % 16) * 4), '=']
        } else {
            seq![
                b64_char(x / 4),
                b64_char((x % 4) * 16 + y / 16),
                b64_char((y % 16) * 4 + z / 64),
                b64_char(z % 64),
            ] + base64_spec(b.skip(3))
        }
    }
}

/// `base64::engine::general_purpose::STANDARD.encode`: standard base64 with padding.
#[verifier::external_body]
fn base64_encode(bytes: &[u8]) -> (r: String)
    ensures
        r@ == base64_spec(bytes@),
{
    base64::engine::general_purpose::STANDARD.encode(bytes)
}

/// The `Authorization` header of the client's local API: `Basic` and the
/// base64 of `riot:` and the token.
pub open spec fn basic_auth_spec(token: Seq<char>) -> Seq<char> {
    "Basic "@ + base64_spec(encode_utf8("riot:"@ + token))
}

pub fn basic_auth_header(token: &str) -> (r: String)
    ensures
        r@ == basic_auth_spec(token@),
{
    let text = concat("riot:", token);
    let encoded = base64_encode(text.as_str().as_bytes());
    concat("Basic ", encoded.as_str())
}

/// The address of the local API on a port.
pub fn local_base_url(port: u16) -> (r: String)
    ensures
        r@ == "https://127.0.0.1:"@ + decimal_seq(port as nat),
{
    let mut r = owned("https://127.0.0.1:");
    push_decimal(&mut r, port as u64);
    r
}

/// The address and credentials of the client's API.
#[derive(Debug)]
pub struct Endpoint {
    pub base_url: String,
    pub auth_header: String,
}

/// The League client's API of a client.
pub fn lcu_endpoint(auth: &ClientAuth) -> (r: Endpoint)
    ensures
        r.base_url@ == "https://127.0.0.1:"@ + decimal_seq(auth.port as nat),
        r.auth_header@ == basic_auth_spec(auth.auth_token@),
{
    Endpoint { base_url: local_base_url(auth.port), auth_header: basic_auth_header(auth.auth_token.as_str()) }
}

/// The Riot client's API of a client, when its port and token are known.
pub fn riot_endpoint(auth: &ClientAuth) -> (r: Option<Endpoint>)
    ensures
        r is Some <==> (auth.riot_client_port is Some && auth.riot_client_auth_token is Some),
        r matches Some(e) ==> e.base_url@ == "https://127.0.0.1:"@ + decimal_seq(
            auth.riot_client_port->0 as nat,
        ) && e.auth_header@ == basic_auth_spec(auth.riot_client_auth_token->0@),
{
    match (auth.riot_client_port, &auth.riot_client_auth_token) {
        (Some(port), Some(token)) => Some(
            Endpoint { base_url: local_base_url(port), auth_header: basic_auth_header(token.as_str()) },
        ),
        _ => None,
    }
}

/// A byte that percent-encoding leaves as it is: ASCII letters and digits,
/// `-`, `.`, `_` and `~`.
pub open spec fn url_safe(b: u8) -> bool {
    (48 <= b <= 57) || (65 <= b <= 90) || (97 <= b <= 122) || b == 45 || b == 46 || b == 95 || b == 126
}

/// An upper-case hexadecimal digit.
pub open spec fn hex_digit(v: int) -> char {
    if v < 10 {
        (48 + v) as char
    } else {
        (55 + v) as char
    }
}

/// Percent-encoding of bytes: safe bytes kept, every other byte as `%` and
/// two upper-case hexadecimal digits.
pub open spec fn percent_encode_spec(b: Seq<u8>) -> Seq<char>
    decreases b.len(),
{
    if b.len() == 0 {
        Seq::empty()
    } else {
        percent_encode_spec(b.drop_last()) + if url_safe(b.last()) {
            seq![b.last() as char]
        } else {
            seq!['%', hex_digit(b.last() as int / 16), hex_digit(b.last() as int % 16)]
        }
    }
}

/// `urlencoding::encode`: percent-encodes the UTF-8 bytes of the text.
#[verifier::external_body]
fn url_encode(text: &str) -> (r: String)
    ensures
        r@ == percent_encode_spec(encode_utf8(text@)),
{
    urlencoding::encode(text).into_owned()
}

/// The path of the summoner lookup by name, the name percent-encoded.
pub fn summoner_by_name_path(name: &str) -> (r: String)
    ensures
        r@ == "/lol-summoner/v1/summoners?name="@ + percent_encode_spec(encode_utf8(name@)),
{
    let encoded = url_encode(name);
    concat("/lol-summoner/v1/summoners?name=", encoded.as_str())
}

/// The path of the summoner lookup by PUUID.
pub fn summoner_by_puuid_path(puuid: &str) -> (r: String)
    ensures
        r@ == "/lol-summoner/v2/summoners/puuid/"@ + puuid@,
{
    concat("/lol-summoner/v2/summoners/puuid/", puuid)
}

/// The path of a player's ranked statistics.
pub fn ranked_stats_path(puuid: &str) -> (r: String)
    ensures
        r@ == "/lol-ranked/v1/ranked-stats/"@ + puuid@,
{
    concat("/lol-ranked/v1/ranked-stats/", puuid)
}

/// The path of one page of a player's match history, by first and last index.
pub fn match_history_path(puuid: &str, begin_index: usize, end_index: usize) -> (r: String)
    ensures
        r@ == "/lol-match-history/v1/products/lol/"@ + puuid@ + "/matches?begIndex="@ + decimal_seq(
            begin_index as nat,
        ) + "&endIndex="@ + decimal_seq(end_index as nat),
{
    let a = concat("/lol-match-history/v1/products/lol/", puuid);
    let mut b = concat(a.as_str(), "/matches?begIndex=");
    push_decimal(&mut b, begin_index as u64);
    let mut c = concat(b.as_str(), "&endIndex=");
    push_decimal(&mut c, end_index as u64);
    c
}

/// The path of one game's detail.
pub fn match_history_game_path(game_id: u64) -> (r: String)
    ensures
        r@ == "/lol-match-history/v1/games/"@ + decimal_seq(game_id as nat),
{
    let mut r = owned("/lol-match-history/v1/games/");
    push_decimal(&mut r, game_id);
    r
}

/// The prefix of the game-data assets the client may be asked for.
pub open spec fn asset_prefix() -> Seq<char> {
    "/lol-game-data/assets/"@
}

/// An asset path that may be read: trimmed, under the game-data assets and
/// without `..`.
pub open spec fn asset_path_ok(path: Seq<char>) -> bool {
    starts_with_seq(trim_seq(path), asset_prefix()) && !contains_seq(trim_seq(path), ".."@)
}

pub fn normalize_lcu_asset_path(path: &str) -> (r: Result<String, AppError>)
    ensures
        r is Ok <==> asset_path_ok(path@),
        r matches Ok(p) ==> p@ == trim_seq(path@),
        r matches Err(e) ==> e is LcuUnavailable,
{
    let p = trim(path);
    if !starts_with(p.as_str(), "/lol-game-data/assets/") || contains(p.as_str(), "..") {
        return Err(AppError::LcuUnavailable(owned("拒绝读取非 lol-game-data 资源路径")));
    }
    Ok(p)
}

/// A data URL of an asset: its content type and its bytes in base64.
pub fn asset_data_url(content_type: &str, bytes: &[u8]) -> (r: String)
    ensures
        r@ == "data:"@ + content_type@ + ";base64,"@ + base64_spec(bytes@),
{
    let a = concat("data:", content_type);
    let b = concat(a.as_str(), ";base64,");
    let encoded = base64_encode(bytes);
    concat(b.as_str(), encoded.as_str())
}

/// The content type of an asset answer: the header's text, or PNG without one.
pub fn content_type_or_png(header: Option<String>) -> (r: String)
    ensures
        r@ == match header {
            Some(h) => h@,
            None => "image/png"@,
        },
{
    match header {
        Some(h) => h,
        None => owned("image/png"),
    }
}

/// How an answer's status is read.
pub open spec fn success_status(status: u16) -> bool {
    200 <= status <= 299
}

/// The error of an answer of the client's API at `path`, if it is one: not
/// found for 404, else unavailable for any status outside 200 to 299, the
/// message naming the path and the status.
pub fn lcu_status_error(path: &str, status: u16, status_text: &str) -> (r: Option<AppError>)
    ensures
        status == 404 ==> (r matches Some(AppError::PlayerNotFound(p)) && p@ == path@),
        status != 404 && success_status(status) ==> r is None,
        status != 404 && !success_status(status) ==> (r matches Some(AppError::LcuUnavailable(m)) && m@
            == path@ + " 返回 "@ + status_text@),
{
    if status == 404 {
        Some(AppError::PlayerNotFound(owned(path)))
    } else if 200 <= status && status <= 299 {
        None
    } else {
        let a = concat(path, " 返回 ");
        Some(AppError::LcuUnavailable(concat(a.as_str(), status_text)))
    }
}

/// A token that the client must give: an error when it is blank.
pub fn require_token(token: String, message: &str) -> (r: Result<String, AppError>)
    ensures
        trim_seq(token@).len() == 0 ==> (r matches Err(AppError::LcuUnavailable(m)) && m@ == message@),
        trim_seq(token@).len() > 0 ==> r == Ok::<String, AppError>(token),
{
    if crate::text::is_blank(token.as_str()) {
        Err(AppError::LcuUnavailable(owned(message)))
    } else {
        Ok(token)
    }
}

/// The champions of the champion summary: the placeholder with a
/// non-positive id left out.
pub open spec fn real_champions(cs: Seq<ChampionSummaryItem>) -> Seq<ChampionSummaryItem>
    decreases cs.len(),
{
    if cs.len() == 0 {
        Seq::empty()
    } else if cs.last().id > 0 {
        real_champions(cs.drop_last()).push(cs.last())
    } else {
        real_champions(cs.drop_last())
    }
}

pub fn filter_real_champions(champions: Vec<ChampionSummaryItem>) -> (r: Vec<ChampionSummaryItem>)
    ensures
        r@ == real_champions(champions@),
{
    let ghost orig = champions@;
    let mut rest = champions;
    let n = rest.len();
    let mut out: Vec<ChampionSummaryItem> = Vec::new();
    let mut i: usize = 0;
    while i < n
        invariant
            n == orig.len(),
            i <= n,
            rest@ == orig.skip(i as int),
            out@ == real_champions(orig.take(i as int)),
        decreases n - i,
    {
        assert(rest@[0] == orig[i as int]);
        let c = rest.remove(0);
        assert(rest@ =~= orig.skip(i + 1));
        assert(orig.take(i + 1).drop_last() =~= orig.take(i as int));
        assert(orig.take(i + 1).last() == c);
        if c.id > 0 {
            out.push(c);
        }
        i = i + 1;
    }
    assert(orig.take(n as int) =~= orig);
    out
}

/// A copy of an asset entry.
pub fn copy_asset_entry(e: &GameAssetEntry) -> (r: GameAssetEntry)
    ensures
        r.id == e.id,
        r.name == e.name,
        r.description == e.description,
        r.icon_path == e.icon_path,
        r.rarity == e.rarity,
        r.categories@ == e.categories@,
        r.price == e.price,
        r.price_total == e.price_total,
        r.in_store == e.in_store,
        r.display_in_item_sets == e.display_in_item_sets,
{
    GameAssetEntry {
        id: e.id,
        name: e.name.clone(),
        description: e.description.clone(),
        icon_path: e.icon_path.clone(),
        rarity: e.rarity.clone(),
        categories: copy_strings(&e.categories),
        price: e.price,
        price_total: e.price_total,
        in_store: e.in_store,
        display_in_item_sets: e.display_in_item_sets,
    }
}

/// The ids of asset entries, in order.
pub open spec fn entry_ids(es: Seq<GameAssetEntry>) -> Seq<u32> {
    es.map_values(|e: GameAssetEntry| e.id)
}

/// The perk ids after adding augments: each augment whose id is not there
/// yet is appended, in order.
pub open spec fn merged_ids(perks: Seq<u32>, augments: Seq<u32>) -> Seq<u32>
    decreases augments.len(),
{
    if augments.len() == 0 {
        perks
    } else {
        let m = merged_ids(perks, augments.drop_last());
        if m.contains(augments.last()) {
            m
        } else {
            m.push(augments.last())
        }
    }
}

/// Adds the augments whose id no perk has yet to the perks.
pub fn merge_augments(perks: &mut Vec<GameAssetEntry>, augments: &Vec<GameAssetEntry>)
    ensures
        entry_ids(final(perks)@) == merged_ids(entry_ids(old(perks)@), entry_ids(augments@)),
        final(perks)@.len() >= old(perks)@.len(),
        forall|k: int| 0 <= k < old(perks)@.len() ==> #[trigger] final(perks)@[k] == old(perks)@[k],
{
    let ghost start = entry_ids(perks@);
    let mut i: usize = 0;
    while i < augments.len()
        invariant
            i <= augments@.len(),
            start == entry_ids(old(perks)@),
            entry_ids(perks@) == merged_ids(start, entry_ids(augments@).take(i as int)),
            perks@.len() >= old(perks)@.len(),
            forall|k: int| 0 <= k < old(perks)@.len() ==> #[trigger] perks@[k] == old(perks)@[k],
        decreases augments@.len() - i,
    {
        assert(entry_ids(augments@).take(i + 1).drop_last() =~= entry_ids(augments@).take(i as int));
        assert(entry_ids(augments@).take(i + 1).last() == augments@[i as int].id);
        let a = &augments[i];
        let mut found = false;
        let mut k: usize = 0;
        while k < perks.len()
            invariant
                k <= perks@.len(),
                found == exists|j: int| 0 <= j < k && #[trigger] perks@[j].id == a.id,
            decreases perks@.len() - k,
        {
            if perks[k].id == a.id {
                found = true;
            }
            k = k + 1;
        }
        let ghost before = perks@;
        if !found {
            perks.push(copy_asset_entry(a));
            assert(entry_ids(perks@) =~= entry_ids(before).push(a.id));
            assert(!entry_ids(before).contains(a.id)) by {
                if entry_ids(before).contains(a.id) {
                    let j = choose|j: int| 0 <= j < entry_ids(before).len() && entry_ids(before)[j] == a.id;
                    assert(before[j].id == a.id);
                }
            }
        } else {
            proof {
                let j = choose|j: int| 0 <= j < k && #[trigger] perks@[j].id == a.id;
                assert(entry_ids(perks@)[j] == a.id);
            }
        }
        i = i + 1;
    }
    assert(entry_ids(augments@).take(augments@.len() as int) =~= entry_ids(augments@));
}

/// A JSON value as the client's asset files hold it. A number is kept as
/// its kind: a non-negative integer, a negative integer, or a fraction held
/// as its value truncated toward zero into a `u64` (as `f64 as u64` does).
#[derive(Debug)]
pub enum JsonValue {
    Null,
    Bool(bool),
    PosInt(u64),
    NegInt(i64),
    Float(u64),
    Str(String),
    Array(Vec<JsonValue>),
    Object(Vec<(String, JsonValue)>),
}

/// The first entry for `key` among object entries.
pub open spec fn entry_for(es: Seq<(String, JsonValue)>, key: Seq<char>) -> Option<JsonValue>
    decreases es.len(),
{
    if es.len() == 0 {
        None
    } else if es[0].0@ == key {
        Some(es[0].1)
    } else {
        entry_for(es.skip(1), key)
    }
}

/// The member `key` of an object; nothing for other values.
pub open spec fn json_get_spec(v: JsonValue, key: Seq<char>) -> Option<JsonValue> {
    match v {
        JsonValue::Object(es) => entry_for(es@, key),
        _ => None,
    }
}

pub fn json_get<'a>(v: &'a JsonValue, key: &str) -> (r: Option<&'a JsonValue>)
    ensures
        match json_get_spec(*v, key@) {
            Some(x) => r == Some(&x),
            None => r is None,
        },
{
    match v {
        JsonValue::Object(es) => {
            let mut i: usize = 0;
            assert(es@.skip(0) =~= es@);
            while i < es.len()
                invariant
                    i <= es@.len(),
                    json_get_spec(*v, key@) == entry_for(es@, key@),
                    entry_for(es@, key@) == entry_for(es@.skip(i as int), key@),
                decreases es@.len() - i,
            {
                assert(es@.skip(i as int)[0] == es@[i as int]);
                if str_eq(es[i].0.as_str(), key) {
                    return Some(&es[i].1);
                }
                assert(es@.skip(i as int).skip(1) =~= es@.skip(i + 1));
                i = i + 1;
            }
            None
        },
        _ => None,
    }
}

/// A field read as a `u32`: a non-negative integer that fits, or a string
/// that parses as one.
pub open spec fn u32_field_spec(v: JsonValue, field: Seq<char>) -> Option<u32> {
    match json_get_spec(v, field) {
        Some(JsonValue::PosInt(u)) => if u <= u32::MAX {
            Some(u as u32)
        } else {
            None
        },
        Some(JsonValue::Str(s)) => parse_u32_spec(s@),
        _ => None,
    }
}

pub fn read_u32_field(value: &JsonValue, field: &str) -> (r: Option<u32>)
    ensures
        r == u32_field_spec(*value, field@),
{
    match json_get(value, field) {
        Some(JsonValue::PosInt(u)) => if *u <= u32::MAX as u64 {
            Some(*u as u32)
        } else {
            None
        },
        Some(JsonValue::Str(s)) => parse_u32(s.as_str()),
        _ => None,
    }
}

/// The first of `fields` that holds a string, that string; else empty.
pub open spec fn string_field_spec(v: JsonValue, fields: Seq<Seq<char>>) -> Seq<char>
    decreases fields.len(),
{
    if fields.len() == 0 {
        Seq::empty()
    } else {
        match json_get_spec(v, fields[0]) {
            Some(JsonValue::Str(s)) => s@,
            _ => string_field_spec(v, fields.skip(1)),
        }
    }
}

pub fn read_string_field(value: &JsonValue, fields: &[&str]) -> (r: String)
    ensures
        r@ == string_field_spec(*value, fields@.map_values(|f: &str| f@)),
{
    let ghost fs = fields@.map_values(|f: &str| f@);
    let mut i: usize = 0;
    assert(fs.skip(0) =~= fs);
    while i < fields.len()
        invariant
            fs == fields@.map_values(|f: &str| f@),
            i <= fields@.len(),
            string_field_spec(*value, fs) == string_field_spec(*value, fs.skip(i as int)),
        decreases fields@.len() - i,
    {
        assert(fs.skip(i as int)[0] == fields@[i as int]@);
        match json_get(value, fields[i]) {
            Some(JsonValue::Str(s)) => {
                return s.clone();
            },
            _ => {},
        }
        assert(fs.skip(i as int).skip(1) =~= fs.skip(i + 1));
        i = i + 1;
    }
    String::new()
}

/// The strings of a JSON array, others left out.
pub open spec fn array_strings(items: Seq<JsonValue>) -> Seq<Seq<char>>
    decreases items.len(),
{
    if items.len() == 0 {
        Seq::empty()
    } else {
        let rest = array_strings(items.drop_last());
        match items.last() {
            JsonValue::Str(s) => rest.push(s@),
            _ => rest,
        }
    }
}

/// A field read as a list of strings: the strings of an array, else empty.
pub open spec fn string_vec_field_spec(v: JsonValue, field: Seq<char>) -> Seq<Seq<char>> {
    match json_get_spec(v, field) {
        Some(JsonValue::Array(items)) => array_strings(items@),
        _ => Seq::empty(),
    }
}

pub fn read_string_vec_field(value: &JsonValue, field: &str) -> (r: Vec<String>)
    ensures
        string_views(r@) == string_vec_field_spec(*value, field@),
{
    let mut out: Vec<String> = Vec::new();
    match json_get(value, field) {
        Some(JsonValue::Array(items)) => {
            let mut i: usize = 0;
            while i < items.len()
                invariant
                    i <= items@.len(),
                    string_views(out@) == array_strings(items@.take(i as int)),
                decreases items@.len() - i,
            {
                assert(items@.take(i + 1).drop_last() =~= items@.take(i as int));
                assert(items@.take(i + 1).last() == items@[i as int]);
                match &items[i] {
                    JsonValue::Str(s) => {
                        let ghost prev = string_views(out@);
                        out.push(s.clone());
                        assert(string_views(out@) =~= prev.push(s@));
                    },
                    _ => {},
                }
                i = i + 1;
            }
            assert(items@.take(items@.len() as int) =~= items@);
        },
        _ => {},
    }
    out
}

/// A field read as a flag: a boolean, or a string that is `true` or `1` in
/// any ASCII case; false otherwise.
pub open spec fn bool_field_spec(v: JsonValue, field: Seq<char>) -> bool {
    match json_get_spec(v, field) {
        Some(JsonValue::Bool(b)) => b,
        Some(JsonValue::Str(s)) => lower_seq(s@) == "true"@ || lower_seq(s@) == "1"@,
        _ => false,
    }
}

pub fn read_bool_field(value: &JsonValue, field: &str) -> (r: bool)
    ensures
        r == bool_field_spec(*value, field@),
{
    match json_get(value, field) {
        Some(JsonValue::Bool(b)) => *b,
        Some(JsonValue::Str(s)) => {
            let l = to_lower(s.as_str());
            str_eq(l.as_str(), "true") || str_eq(l.as_str(), "1")
        },
        _ => false,
    }
}

/// The name of an augment rarity index.
pub open spec fn rarity_name(i: u64) -> Seq<char> {
    if i == 0 {
        "kSilver"@
    } else if i == 1 {
        "kGold"@
    } else if i == 2 {
        "kPrismatic"@
    } else if i == 3 {
        "kBronze"@
    } else {
        Seq::empty()
    }
}

/// The rarity of an entry: a string as it is; a number as the name of its
/// index (a negative number counting as `0`, a fraction truncated); else empty.
pub open spec fn rarity_spec(v: JsonValue) -> Seq<char> {
    match json_get_spec(v, "rarity"@) {
        Some(JsonValue::Str(s)) => s@,
        Some(JsonValue::PosInt(u)) => rarity_name(u),
        Some(JsonValue::NegInt(_)) => rarity_name(0),
        Some(JsonValue::Float(t)) => rarity_name(t),
        _ => Seq::empty(),
    }
}

fn rarity_of(i: u64) -> (r: String)
    ensures
        r@ == rarity_name(i),
{
    if i == 0 {
        owned("kSilver")
    } else if i == 1 {
        owned("kGold")
    } else if i == 2 {
        owned("kPrismatic")
    } else if i == 3 {
        owned("kBronze")
    } else {
        String::new()
    }
}

pub fn read_rarity_field(value: &JsonValue) -> (r: String)
    ensures
        r@ == rarity_spec(*value),
{
    match json_get(value, "rarity") {
        Some(JsonValue::Str(s)) => s.clone(),
        Some(JsonValue::PosInt(u)) => rarity_of(*u),
        Some(JsonValue::NegInt(_)) => rarity_of(0),
        Some(JsonValue::Float(t)) => rarity_of(*t),
        _ => String::new(),
    }
}

/// `e` is the asset entry that `v` describes: its id, the first name,
/// description and icon fields that hold text, its rarity, categories,
/// prices and store flags.
pub open spec fn asset_entry_spec(e: GameAssetEntry, v: JsonValue) -> bool {
    &&& u32_field_spec(v, "id"@) == Some(e.id)
    &&& e.name@ == string_field_spec(v, seq!["name"@, "nameTRA"@, "nameCn"@, "displayName"@])
    &&& e.description@ == string_field_spec(v, seq!["description"@, "longDesc"@, "shortDesc"@])
    &&& e.icon_path@ == string_field_spec(
        v,
        seq!["iconPath"@, "augmentSmallIconPath"@, "iconSmall"@, "iconLargePath"@, "iconLarge"@],
    )
    &&& e.rarity@ == rarity_spec(v)
    &&& string_views(e.categories@) == string_vec_field_spec(v, "categories"@)
    &&& e.price == match u32_field_spec(v, "price"@) {
        Some(p) => p,
        None => 0,
    }
    &&& e.price_total == match u32_field_spec(v, "priceTotal"@) {
        Some(p) => p,
        None => 0,
    }
    &&& e.in_store == bool_field_spec(v, "inStore"@)
    &&& e.display_in_item_sets == bool_field_spec(v, "displayInItemSets"@)
}

/// The asset entry that a JSON value describes, when it has a non-zero id.
pub fn game_asset_entry_from_value(value: JsonValue) -> (r: Option<GameAssetEntry>)
    ensures
        r is Some <==> (u32_field_spec(value, "id"@) is Some && u32_field_spec(value, "id"@)->0 != 0),
        r matches Some(e) ==> asset_entry_spec(e, value),
{
    let id = match read_u32_field(&value, "id") {
        Some(id) => id,
        None => {
            return None;
        },
    };
    if id == 0 {
        return None;
    }
    let names: [&str; 4] = ["name", "nameTRA", "nameCn", "displayName"];
    let descriptions: [&str; 3] = ["description", "longDesc", "shortDesc"];
    let icons: [&str; 5] = ["iconPath", "augmentSmallIconPath", "iconSmall", "iconLargePath", "iconLarge"];
    assert(names@.map_values(|f: &str| f@) =~= seq!["name"@, "nameTRA"@, "nameCn"@, "displayName"@]);
    assert(descriptions@.map_values(|f: &str| f@) =~= seq!["description"@, "longDesc"@, "shortDesc"@]);
    assert(icons@.map_values(|f: &str| f@) =~= seq![
        "iconPath"@,
        "augmentSmallIconPath"@,
        "iconSmall"@,
        "iconLargePath"@,
        "iconLarge"@,
    ]);
    let price = match read_u32_field(&value, "price") {
        Some(p) => p,
        None => 0,
    };
    let price_total = match read_u32_field(&value, "priceTotal") {
        Some(p) => p,
        None => 0,
    };
    Some(
        GameAssetEntry {
            id,
            name: read_string_field(&value, &names),
            description: read_string_field(&value, &descriptions),
            icon_path: read_string_field(&value, &icons),
            rarity: read_rarity_field(&value),
            categories: read_string_vec_field(&value, "categories"),
            price,
            price_total,
            in_store: read_bool_field(&value, "inStore"),
            display_in_item_sets: read_bool_field(&value, "displayInItemSets"),
        },
    )
}

/// A value that describes an asset entry: its id reads as a non-zero `u32`.
pub open spec fn describes_entry(v: JsonValue) -> bool {
    u32_field_spec(v, "id"@) is Some && u32_field_spec(v, "id"@)->0 != 0
}

/// The values that describe an asset entry, in order.
pub open spec fn entry_values(vs: Seq<JsonValue>) -> Seq<JsonValue>
    decreases vs.len(),
{
    if vs.len() == 0 {
        Seq::empty()
    } else if describes_entry(vs.last()) {
        entry_values(vs.drop_last()).push(vs.last())
    } else {
        entry_values(vs.drop_last())
    }
}

/// The entries of the values that describe one, in order; the others are
/// left out.
pub fn game_asset_entries(values: Vec<JsonValue>) -> (r: Vec<GameAssetEntry>)
    ensures
        r@.len() == entry_values(values@).len(),
        forall|k: int| 0 <= k < r@.len() ==> asset_entry_spec(#[trigger] r@[k], entry_values(values@)[k]),
{
    let ghost orig = values@;
    let mut rest = values;
    let n = rest.len();
    let mut out: Vec<GameAssetEntry> = Vec::new();
    let mut i: usize = 0;
    assert(orig.take(0) =~= Seq::<JsonValue>::empty());
    while i < n
        invariant
            n == orig.len(),
            i <= n,
            rest@ == orig.skip(i as int),
            out@.len() == entry_values(orig.take(i as int)).len(),
            forall|k: int|
                0 <= k < out@.len() ==> asset_entry_spec(#[trigger] out@[k], entry_values(orig.take(i as int))[k]),
        decreases n - i,
    {
        assert(rest@[0] == orig[i as int]);
        let v = rest.remove(0);
        assert(rest@ =~= orig.skip(i + 1));
        assert(orig.take(i + 1).drop_last() =~= orig.take(i as int));
        assert(orig.take(i + 1).last() == orig[i as int]);
        let ghost prev = out@;
        match game_asset_entry_from_value(v) {
            Some(e) => {
                out.push(e);
                assert forall|k: int|
                    0 <= k < out@.len() implies asset_entry_spec(
                    #[trigger] out@[k],
                    entry_values(orig.take(i + 1))[k],
                ) by {
                    if k < prev.len() {
                        assert(out@[k] == prev[k]);
                    }
                }
            },
            None => {},
        }
        i = i + 1;
    }
    assert(orig.take(n as int) =~= orig);
    out
}

/// The path of the game's settings file below the client's install
/// directory: for the Tencent region the game sits beside the client, in
/// `../Game/Config`; elsewhere in `Config`.
pub open spec fn settings_parts_spec(region: Seq<char>) -> Seq<Seq<char>> {
    if eq_ignore_case_seq(region, "TENCENT"@) {
        seq![".."@, "Game"@, "Config"@, "PersistedSettings.json"@]
    } else {
        seq!["Config"@, "PersistedSettings.json"@]
    }
}

pub fn persisted_settings_parts(region: &str) -> (r: Vec<String>)
    ensures
        string_views(r@) == settings_parts_spec(region@),
{
    let v = if eq_ignore_case(region, "TENCENT") {
        vec![owned(".."), owned("Game"), owned("Config"), owned("PersistedSettings.json")]
    } else {
        vec![owned("Config"), owned("PersistedSettings.json")]
    };
    assert(string_views(v@) =~= settings_parts_spec(region@));
    v
}

} // verus!
