//! The Tencent service gateway (SGP): server identifiers, ranked data and the
//! mapping of its match summaries onto the client's match model.
use vstd::prelude::*;

use crate::error::AppError;
use crate::models::{
    ClientAuth, Game, IdentityPlayer, Participant, ParticipantIdentity, ParticipantStats, ParticipantTimeline,
    RankedQueueEntry, RankedQueueMap, RankedStatsResponse, SummonerInfo,
};
use crate::text::{
    ascii_upper, concat, decimal_seq, eq_ignore_case, eq_ignore_case_seq, is_blank, is_whitespace, is_ws,
    lemma_trim_edges, lemma_upper_keeps_ws, lower_seq, trim_end_seq, trim_start_seq,
    owned, push_char, push_decimal, starts_with_seq, str_eq, strip_prefix, to_lower, to_upper, trim,
    trim_seq, upper_seq,
};

verus! {

/// A server identifier in canonical form: trimmed and in ASCII upper case.
pub open spec fn normalize_server_id_spec(s: Seq<char>) -> Seq<char> {
    upper_seq(trim_seq(s))
}

/// The server of the logged-in client: `TENCENT_<PLATFORM>` for the Tencent
/// region, else the region itself, in upper case.
pub open spec fn default_server_id_spec(region: Seq<char>, platform: Seq<char>) -> Seq<char> {
    if eq_ignore_case_seq(region, "TENCENT"@) {
        "TENCENT_"@ + upper_seq(platform)
    } else {
        upper_seq(region)
    }
}

/// The server a request goes to: the given one when it is not blank, in
/// canonical form, else the client's own.
pub open spec fn resolve_server_id_spec(
    region: Seq<char>,
    platform: Seq<char>,
    requested: Option<Seq<char>>,
) -> Seq<char> {
    match requested {
        Some(v) if trim_seq(v).len() > 0 => normalize_server_id_spec(v),
        _ => default_server_id_spec(region, platform),
    }
}

/// A server identifier in canonical form stays as it is when normalized
/// again: normalizing twice gives what normalizing once gives.
pub proof fn lemma_normalize_server_id_idempotent(s: Seq<char>)
    ensures
        normalize_server_id_spec(normalize_server_id_spec(s)) == normalize_server_id_spec(s),
{
    let t = trim_seq(s);
    let u = upper_seq(t);
    lemma_trim_edges(s);
    assert forall|i: int| 0 <= i < t.len() implies is_ws(#[trigger] u[i]) == is_ws(t[i]) && ascii_upper(u[i]) == u[i] by {
        lemma_upper_keeps_ws(t[i]);
    }
    if u.len() > 0 {
        assert(!is_ws(u[0]));
        assert(!is_ws(u.last()));
    }
    assert(trim_start_seq(u) == u);
    assert(trim_end_seq(u) == u);
    assert(trim_seq(u) == u);
    assert(upper_seq(u) =~= u);
}

pub fn normalize_sgp_server_id(sgp_server_id: &str) -> (r: String)
    ensures
        r@ == normalize_server_id_spec(sgp_server_id@),
{
    let t = trim(sgp_server_id);
    to_upper(t.as_str())
}

pub fn default_sgp_server_id(auth: &ClientAuth) -> (r: String)
    ensures
        r@ == default_server_id_spec(auth.region@, auth.rso_platform_id@),
{
    if eq_ignore_case(auth.region.as_str(), "TENCENT") {
        let platform = to_upper(auth.rso_platform_id.as_str());
        concat("TENCENT_", platform.as_str())
    } else {
        to_upper(auth.region.as_str())
    }
}

pub fn resolve_sgp_server_id(auth: &ClientAuth, sgp_server_id: Option<&str>) -> (r: String)
    ensures
        r@ == resolve_server_id_spec(
            auth.region@,
            auth.rso_platform_id@,
            match sgp_server_id {
                Some(v) => Some(v@),
                None => None,
            },
        ),
{
    match sgp_server_id {
        Some(v) => {
            if is_blank(v) {
                default_sgp_server_id(auth)
            } else {
                normalize_sgp_server_id(v)
            }
        },
        None => default_sgp_server_id(auth),
    }
}

/// The base address of the gateway of a known Tencent platform:
/// `https://{platform in lower case}-sgp.lol.qq.com:21019`.
pub open spec fn base_url_spec(sgp_server_id: Seq<char>) -> Option<Seq<char>> {
    if !starts_with_seq(sgp_server_id, "TENCENT_"@) {
        None
    } else {
        let p = sgp_server_id.subrange(8, sgp_server_id.len() as int);
        if p == "HN1"@ {
            Some("https://hn1-sgp.lol.qq.com:21019"@)
        } else if p == "HN10"@ {
            Some("https://hn10-sgp.lol.qq.com:21019"@)
        } else if p == "TJ100"@ {
            Some("https://tj100-sgp.lol.qq.com:21019"@)
        } else if p == "TJ101"@ {
            Some("https://tj101-sgp.lol.qq.com:21019"@)
        } else if p == "NJ100"@ {
            Some("https://nj100-sgp.lol.qq.com:21019"@)
        } else if p == "GZ100"@ {
            Some("https://gz100-sgp.lol.qq.com:21019"@)
        } else if p == "CQ100"@ {
            Some("https://cq100-sgp.lol.qq.com:21019"@)
        } else if p == "BGP2"@ {
            Some("https://bgp2-sgp.lol.qq.com:21019"@)
        } else if p == "PBE"@ {
            Some("https://pbe-sgp.lol.qq.com:21019"@)
        } else if p == "PREPBE"@ {
            Some("https://prepbe-sgp.lol.qq.com:21019"@)
        } else {
            None
        }
    }
}

/// The gateway address of a Tencent server; other servers have none.
pub fn tencent_sgp_base_url(sgp_server_id: &str) -> (r: Result<String, AppError>)
    ensures
        r is Ok <==> base_url_spec(sgp_server_id@) is Some,
        r matches Ok(url) ==> url@ == base_url_spec(sgp_server_id@)->0,
        r matches Err(e) ==> e is SgpUnavailable,
{
    proof {
        reveal_strlit("TENCENT_");
    }
    let rest = match strip_prefix(sgp_server_id, "TENCENT_") {
        Some(rest) => rest,
        None => {
            return Err(AppError::SgpUnavailable(owned("当前只支持国服 SGP 深战绩")));
        },
    };
    let p = rest.as_str();
    if str_eq(p, "HN1") {
        Ok(owned("https://hn1-sgp.lol.qq.com:21019"))
    } else if str_eq(p, "HN10") {
        Ok(owned("https://hn10-sgp.lol.qq.com:21019"))
    } else if str_eq(p, "TJ100") {
        Ok(owned("https://tj100-sgp.lol.qq.com:21019"))
    } else if str_eq(p, "TJ101") {
        Ok(owned("https://tj101-sgp.lol.qq.com:21019"))
    } else if str_eq(p, "NJ100") {
        Ok(owned("https://nj100-sgp.lol.qq.com:21019"))
    } else if str_eq(p, "GZ100") {
        Ok(owned("https://gz100-sgp.lol.qq.com:21019"))
    } else if str_eq(p, "CQ100") {
        Ok(owned("https://cq100-sgp.lol.qq.com:21019"))
    } else if str_eq(p, "BGP2") {
        Ok(owned("https://bgp2-sgp.lol.qq.com:21019"))
    } else if str_eq(p, "PBE") {
        Ok(owned("https://pbe-sgp.lol.qq.com:21019"))
    } else if str_eq(p, "PREPBE") {
        Ok(owned("https://prepbe-sgp.lol.qq.com:21019"))
    } else {
        let msg = concat("暂未配置国服大区 ", p);
        Err(AppError::SgpUnavailable(concat(msg.as_str(), " 的 SGP 深战绩地址")))
    }
}

/// A rank text that stands for no rank: blank, `NONE` or `NA` in any ASCII case.
pub open spec fn rank_text_blank(v: Seq<char>) -> bool {
    let u = upper_seq(trim_seq(v));
    u.len() == 0 || u == "NONE"@ || u == "NA"@
}

pub fn ranked_text_has_value(value: &str) -> (r: bool)
    ensures
        r == !rank_text_blank(value@),
{
    let t = trim(value);
    let u = to_upper(t.as_str());
    proof {
        reveal_strlit("NONE");
        reveal_strlit("NA");
    }
    !(u.as_str().unicode_len() == 0 || str_eq(u.as_str(), "NONE") || str_eq(u.as_str(), "NA"))
}

/// A ranked queue as the gateway reports it.
#[derive(Debug)]
pub struct SgpRankedQueue {
    pub queue_type: String,
    pub tier: String,
    pub rank: String,
    pub league_points: i32,
    pub wins: i32,
    pub losses: i32,
    pub provisional_games_remaining: i32,
    pub highest_tier: String,
    pub highest_rank: String,
    pub previous_season_end_tier: String,
    pub previous_season_end_rank: String,
    pub previous_season_highest_tier: String,
    pub previous_season_highest_rank: String,
    pub previous_season_achieved_tier: String,
    pub previous_season_achieved_rank: String,
}

/// The two ranked queues the gateway may report by name.
#[derive(Debug)]
pub struct SgpRankedQueueMap {
    pub ranked_solo_5x5: SgpRankedQueue,
    pub ranked_flex_sr: SgpRankedQueue,
}

/// The ranked statistics of a player as the gateway reports them.
#[derive(Debug)]
pub struct SgpRankedStats {
    pub queues: Vec<SgpRankedQueue>,
    pub queue_map: Option<SgpRankedQueueMap>,
}

/// A queue with data: some rank text, points, games or placement games.
pub open spec fn queue_has_data_spec(q: SgpRankedQueue) -> bool {
    ||| !rank_text_blank(q.tier@)
    ||| !rank_text_blank(q.highest_tier@)
    ||| !rank_text_blank(q.previous_season_end_tier@)
    ||| !rank_text_blank(q.previous_season_highest_tier@)
    ||| !rank_text_blank(q.previous_season_achieved_tier@)
    ||| q.league_points != 0
    ||| q.wins != 0
    ||| q.losses != 0
    ||| q.provisional_games_remaining != 0
}

pub fn sgp_ranked_queue_has_data(queue: &SgpRankedQueue) -> (r: bool)
    ensures
        r == queue_has_data_spec(*queue),
{
    ranked_text_has_value(queue.tier.as_str()) || ranked_text_has_value(queue.highest_tier.as_str())
        || ranked_text_has_value(queue.previous_season_end_tier.as_str()) || ranked_text_has_value(
        queue.previous_season_highest_tier.as_str(),
    ) || ranked_text_has_value(queue.previous_season_achieved_tier.as_str()) || queue.league_points
        != 0 || queue.wins != 0 || queue.losses != 0 || queue.provisional_games_remaining != 0
}

/// A queue type in canonical form: trimmed, ASCII upper case, except that
/// the solo queue keeps its lower-case `x`.
pub open spec fn queue_type_spec(q: Seq<char>) -> Seq<char> {
    let u = upper_seq(trim_seq(q));
    if u == "RANKED_SOLO_5X5"@ {
        "RANKED_SOLO_5x5"@
    } else {
        u
    }
}

pub fn normalize_ranked_queue_type(queue_type: &str) -> (r: String)
    ensures
        r@ == queue_type_spec(queue_type@),
{
    let t = trim(queue_type);
    let u = to_upper(t.as_str());
    proof {
        reveal_strlit("RANKED_SOLO_5X5");
        reveal_strlit("RANKED_SOLO_5x5");
    }
    if str_eq(u.as_str(), "RANKED_SOLO_5X5") {
        owned("RANKED_SOLO_5x5")
    } else {
        u
    }
}

/// The first of `values` that is not blank, or the empty string.
pub open spec fn first_non_empty_spec(values: Seq<Seq<char>>) -> Seq<char>
    decreases values.len(),
{
    if values.len() == 0 {
        Seq::empty()
    } else if trim_seq(values[0]).len() > 0 {
        values[0]
    } else {
        first_non_empty_spec(values.skip(1))
    }
}

pub fn first_non_empty(values: &[&String]) -> (r: String)
    ensures
        r@ == first_non_empty_spec(values@.map_values(|v: &String| v@)),
{
    let ghost vs = values@.map_values(|v: &String| v@);
    let mut i: usize = 0;
    assert(vs.skip(0) =~= vs);
    while i < values.len()
        invariant
            vs == values@.map_values(|v: &String| v@),
            i <= values@.len(),
            first_non_empty_spec(vs) == first_non_empty_spec(vs.skip(i as int)),
        decreases values@.len() - i,
    {
        let v: &String = values[i];
        assert(vs.skip(i as int)[0] == v@);
        if !is_blank(v.as_str()) {
            return v.clone();
        }
        assert(vs.skip(i as int).skip(1) =~= vs.skip(i + 1));
        i = i + 1;
    }
    String::new()
}

/// `e` is the entry of queue `q`, with `fallback` as its type when `q` has none.
pub open spec fn queue_entry_spec(e: RankedQueueEntry, q: SgpRankedQueue, fallback: Seq<char>) -> bool {
    &&& e.queue_type@ == if trim_seq(q.queue_type@).len() == 0 {
        fallback
    } else {
        trim_seq(q.queue_type@)
    }
    &&& e.tier@ == q.tier@
    &&& e.division@ == q.rank@
    &&& e.highest_tier@ == first_non_empty_spec(
        seq![
            q.highest_tier@,
            q.previous_season_achieved_tier@,
            q.previous_season_highest_tier@,
            q.previous_season_end_tier@,
        ],
    )
    &&& e.highest_division@ == first_non_empty_spec(
        seq![
            q.highest_rank@,
            q.previous_season_achieved_rank@,
            q.previous_season_highest_rank@,
            q.previous_season_end_rank@,
        ],
    )
    &&& e.previous_season_highest_tier@ == first_non_empty_spec(
        seq![q.previous_season_highest_tier@, q.previous_season_achieved_tier@],
    )
    &&& e.previous_season_highest_division@ == first_non_empty_spec(
        seq![q.previous_season_highest_rank@, q.previous_season_achieved_rank@],
    )
    &&& e.previous_season_end_tier@ == q.previous_season_end_tier@
    &&& e.previous_season_end_division@ == q.previous_season_end_rank@
    &&& e.league_points == q.league_points
    &&& e.wins == q.wins
    &&& e.losses == q.losses
    &&& e.is_provisional == (q.provisional_games_remaining > 0)
}

pub fn sgp_ranked_queue_to_entry(queue: &SgpRankedQueue, fallback_queue_type: &str) -> (r: RankedQueueEntry)
    ensures
        queue_entry_spec(r, *queue, fallback_queue_type@),
{
    let queue_type = if is_blank(queue.queue_type.as_str()) {
        owned(fallback_queue_type)
    } else {
        trim(queue.queue_type.as_str())
    };
    let a: [&String; 4] = [
        &queue.highest_tier,
        &queue.previous_season_achieved_tier,
        &queue.previous_season_highest_tier,
        &queue.previous_season_end_tier,
    ];
    let b: [&String; 4] = [
        &queue.highest_rank,
        &queue.previous_season_achieved_rank,
        &queue.previous_season_highest_rank,
        &queue.previous_season_end_rank,
    ];
    let c: [&String; 2] = [&queue.previous_season_highest_tier, &queue.previous_season_achieved_tier];
    let d: [&String; 2] = [&queue.previous_season_highest_rank, &queue.previous_season_achieved_rank];
    let highest_tier = first_non_empty(&a);
    let highest_division = first_non_empty(&b);
    let previous_season_highest_tier = first_non_empty(&c);
    let previous_season_highest_division = first_non_empty(&d);
    assert(a@.map_values(|v: &String| v@) =~= seq![
        queue.highest_tier@,
        queue.previous_season_achieved_tier@,
        queue.previous_season_highest_tier@,
        queue.previous_season_end_tier@,
    ]);
    assert(b@.map_values(|v: &String| v@) =~= seq![
        queue.highest_rank@,
        queue.previous_season_achieved_rank@,
        queue.previous_season_highest_rank@,
        queue.previous_season_end_rank@,
    ]);
    assert(c@.map_values(|v: &String| v@) =~= seq![
        queue.previous_season_highest_tier@,
        queue.previous_season_achieved_tier@,
    ]);
    assert(d@.map_values(|v: &String| v@) =~= seq![
        queue.previous_season_highest_rank@,
        queue.previous_season_achieved_rank@,
    ]);
    RankedQueueEntry {
        queue_type,
        tier: queue.tier.clone(),
        division: queue.rank.clone(),
        highest_tier,
        highest_division,
        previous_season_highest_tier,
        previous_season_highest_division,
        previous_season_end_tier: queue.previous_season_end_tier.clone(),
        previous_season_end_division: queue.previous_season_end_rank.clone(),
        league_points: queue.league_points,
        wins: queue.wins,
        losses: queue.losses,
        is_provisional: queue.provisional_games_remaining > 0,
    }
}

/// The last queue of `qs` of type `key` (in canonical form) that has data.
pub open spec fn last_queue_of(qs: Seq<SgpRankedQueue>, key: Seq<char>) -> Option<int>
    decreases qs.len(),
{
    if qs.len() == 0 {
        None
    } else if queue_type_spec(qs.last().queue_type@) == key && queue_has_data_spec(qs.last()) {
        Some(qs.len() - 1)
    } else {
        last_queue_of(qs.drop_last(), key)
    }
}

/// `e` is the entry that the gateway's statistics give for queue `key`: the
/// last listed queue of that type with data, else the named queue `named`
/// when it has data, else an empty entry.
pub open spec fn ranked_entry_spec(
    e: RankedQueueEntry,
    qs: Seq<SgpRankedQueue>,
    named: Option<SgpRankedQueue>,
    key: Seq<char>,
) -> bool {
    match last_queue_of(qs, key) {
        Some(i) => queue_entry_spec(e, qs[i], trim_seq(qs[i].queue_type@)),
        None => match named {
            Some(q) if queue_has_data_spec(q) => queue_entry_spec(e, q, key),
            _ => e.is_default(),
        },
    }
}

proof fn lemma_last_queue_step(qs: Seq<SgpRankedQueue>, key: Seq<char>, i: int)
    requires
        0 <= i < qs.len(),
    ensures
        last_queue_of(qs.take(i + 1), key) == if queue_type_spec(qs[i].queue_type@) == key
            && queue_has_data_spec(qs[i]) {
            Some(i)
        } else {
            last_queue_of(qs.take(i), key)
        },
{
    assert(qs.take(i + 1).drop_last() =~= qs.take(i));
}

proof fn lemma_last_queue_bound(qs: Seq<SgpRankedQueue>, key: Seq<char>)
    ensures
        last_queue_of(qs, key) matches Some(i) ==> 0 <= i < qs.len(),
    decreases qs.len(),
{
    if qs.len() > 0 {
        lemma_last_queue_bound(qs.drop_last(), key);
    }
}

/// The solo queue named in the map, if there is a map.
pub open spec fn named_solo_queue(m: Option<SgpRankedQueueMap>) -> Option<SgpRankedQueue> {
    match m {
        Some(m) => Some(m.ranked_solo_5x5),
        None => None,
    }
}

/// The flex queue named in the map, if there is a map.
pub open spec fn named_flex_queue(m: Option<SgpRankedQueueMap>) -> Option<SgpRankedQueue> {
    match m {
        Some(m) => Some(m.ranked_flex_sr),
        None => None,
    }
}

/// The ranked statistics in the client's form: for each of the solo and
/// flex queues, the last listed queue of that type with data wins over the
/// named one.
pub fn sgp_ranked_stats_to_ranked_response(ranked: SgpRankedStats) -> (r: RankedStatsResponse)
    ensures
        ranked_entry_spec(
            r.queue_map.ranked_solo_5x5,
            ranked.queues@,
            named_solo_queue(ranked.queue_map),
            "RANKED_SOLO_5x5"@,
        ),
        ranked_entry_spec(
            r.queue_map.ranked_flex_sr,
            ranked.queues@,
            named_flex_queue(ranked.queue_map),
            "RANKED_FLEX_SR"@,
        ),
{
    let solo_key = "RANKED_SOLO_5x5";
    let flex_key = "RANKED_FLEX_SR";
    proof {
        reveal_strlit("RANKED_SOLO_5x5");
        reveal_strlit("RANKED_FLEX_SR");
        assert("RANKED_SOLO_5x5"@.len() != "RANKED_FLEX_SR"@.len());
    }
    let mut solo = RankedQueueEntry::empty();
    let mut flex = RankedQueueEntry::empty();
    let ghost named_solo = named_solo_queue(ranked.queue_map);
    let ghost named_flex = named_flex_queue(ranked.queue_map);
    match &ranked.queue_map {
        Some(m) => {
            if sgp_ranked_queue_has_data(&m.ranked_solo_5x5) {
                solo = sgp_ranked_queue_to_entry(&m.ranked_solo_5x5, solo_key);
            }
            if sgp_ranked_queue_has_data(&m.ranked_flex_sr) {
                flex = sgp_ranked_queue_to_entry(&m.ranked_flex_sr, flex_key);
            }
        },
        None => {},
    }
    let qs = &ranked.queues;
    let mut i: usize = 0;
    assert(qs@.take(0) =~= Seq::<SgpRankedQueue>::empty());
    while i < qs.len()
        invariant
            qs@ == ranked.queues@,
            i <= qs@.len(),
            solo_key@ == "RANKED_SOLO_5x5"@,
            flex_key@ == "RANKED_FLEX_SR"@,
            "RANKED_SOLO_5x5"@ != "RANKED_FLEX_SR"@,
            ranked_entry_spec(solo, qs@.take(i as int), named_solo, "RANKED_SOLO_5x5"@),
            ranked_entry_spec(flex, qs@.take(i as int), named_flex, "RANKED_FLEX_SR"@),
        decreases qs@.len() - i,
    {
        let q = &qs[i];
        proof {
            lemma_last_queue_step(qs@, "RANKED_SOLO_5x5"@, i as int);
            lemma_last_queue_step(qs@, "RANKED_FLEX_SR"@, i as int);
            lemma_last_queue_bound(qs@.take(i as int), "RANKED_SOLO_5x5"@);
            lemma_last_queue_bound(qs@.take(i as int), "RANKED_FLEX_SR"@);
            assert("RANKED_SOLO_5x5"@ != "RANKED_FLEX_SR"@);
            assert forall|j: int| 0 <= j < i implies qs@.take(i + 1)[j] == #[trigger] qs@.take(i as int)[j] by {}
        }
        let queue_type = normalize_ranked_queue_type(q.queue_type.as_str());
        if sgp_ranked_queue_has_data(q) {
            let t = trim(q.queue_type.as_str());
            if str_eq(queue_type.as_str(), solo_key) {
                solo = sgp_ranked_queue_to_entry(q, t.as_str());
            } else if str_eq(queue_type.as_str(), flex_key) {
                flex = sgp_ranked_queue_to_entry(q, t.as_str());
            }
        }
        proof {
            let si = last_queue_of(qs@.take(i + 1), "RANKED_SOLO_5x5"@);
            if si is Some && si->0 < i {
                assert(qs@.take(i + 1)[si->0] == qs@.take(i as int)[si->0]);
            }
            let fi = last_queue_of(qs@.take(i + 1), "RANKED_FLEX_SR"@);
            if fi is Some && fi->0 < i {
                assert(qs@.take(i + 1)[fi->0] == qs@.take(i as int)[fi->0]);
            }
        }
        i = i + 1;
    }
    assert(qs@.take(qs@.len() as int) =~= qs@);
    RankedStatsResponse { queue_map: RankedQueueMap { ranked_solo_5x5: solo, ranked_flex_sr: flex } }
}

/// A summoner as the gateway reports it.
#[derive(Debug)]
pub struct SgpSummoner {
    pub id: u64,
    pub puuid: String,
    pub name: String,
    pub internal_name: String,
    pub profile_icon_id: u32,
    pub level: u32,
    pub privacy: String,
}

/// The summoner in the client's form; the Riot ID is left empty.
pub fn sgp_summoner_to_lcu(summoner: SgpSummoner) -> (r: SummonerInfo)
    ensures
        r.display_name == summoner.name,
        r.internal_name == summoner.internal_name,
        r.profile_icon_id == summoner.profile_icon_id,
        r.puuid == summoner.puuid,
        r.summoner_id == summoner.id,
        r.summoner_level == summoner.level,
        r.privacy == summoner.privacy,
        r.game_name@.len() == 0,
        r.tag_line@.len() == 0,
{
    SummonerInfo {
        display_name: summoner.name,
        game_name: String::new(),
        tag_line: String::new(),
        internal_name: summoner.internal_name,
        profile_icon_id: summoner.profile_icon_id,
        puuid: summoner.puuid,
        summoner_id: summoner.id,
        summoner_level: summoner.level,
        privacy: summoner.privacy,
    }
}

/// The two challenge counters that the statistics read, as whole numbers.
#[derive(Debug)]
pub struct SgpChallenges {
    pub enemy_champion_immobilizations: u32,
    pub immobilize_and_kill_with_ally: u32,
}

/// A participant of a game summary as the gateway reports it.
#[derive(Debug)]
pub struct SgpParticipant {
    pub puuid: String,
    pub riot_id_game_name: String,
    pub riot_id_tagline: String,
    pub summoner_name: String,
    pub participant_id: u32,
    pub champion_id: u32,
    pub spell1_id: u32,
    pub spell2_id: u32,
    pub team_id: u32,
    pub win: bool,
    pub kills: u32,
    pub deaths: u32,
    pub assists: u32,
    pub gold_earned: u32,
    pub total_minions_killed: u32,
    pub neutral_minions_killed: u32,
    pub total_damage_dealt_to_champions: u32,
    pub damage_self_mitigated: u32,
    pub total_damage_taken: u32,
    pub total_heal: u32,
    pub vision_score: u32,
    pub champ_level: u32,
    pub player_subteam_id: u32,
    pub challenges: SgpChallenges,
    pub item0: u32,
    pub item1: u32,
    pub item2: u32,
    pub item3: u32,
    pub item4: u32,
    pub item5: u32,
    pub item6: u32,
    pub perk0: u32,
    pub perk1: u32,
    pub perk2: u32,
    pub perk3: u32,
    pub perk4: u32,
    pub perk5: u32,
    pub player_augment1: u32,
    pub player_augment2: u32,
    pub player_augment3: u32,
    pub player_augment4: u32,
    pub player_augment5: u32,
    pub player_augment6: u32,
    pub lane: String,
    pub role: String,
}

/// A game summary as the gateway reports it.
#[derive(Debug)]
pub struct SgpGameJson {
    pub game_id: u64,
    pub game_creation: i64,
    pub game_duration: i64,
    pub game_mode: String,
    pub game_type: String,
    pub queue_id: u32,
    pub participants: Vec<SgpParticipant>,
}

/// `i` is the identity that the gateway gives for participant `p`.
pub open spec fn sgp_identity_spec(i: ParticipantIdentity, p: SgpParticipant) -> bool {
    &&& i.participant_id == p.participant_id
    &&& i.player.puuid@ == p.puuid@
    &&& i.player.game_name@ == p.riot_id_game_name@
    &&& i.player.tag_line@ == p.riot_id_tagline@
    &&& i.player.summoner_name@ == p.summoner_name@
}

/// `q` is participant `p` in the client's form.
pub open spec fn sgp_participant_spec(q: Participant, p: SgpParticipant) -> bool {
    &&& q.participant_id == p.participant_id
    &&& q.champion_id == p.champion_id
    &&& q.spell1_id == p.spell1_id
    &&& q.spell2_id == p.spell2_id
    &&& q.team_id == p.team_id
    &&& q.stats.win == p.win
    &&& q.stats.kills == p.kills
    &&& q.stats.deaths == p.deaths
    &&& q.stats.assists == p.assists
    &&& q.stats.gold_earned == p.gold_earned
    &&& q.stats.total_minions_killed == p.total_minions_killed
    &&& q.stats.neutral_minions_killed == p.neutral_minions_killed
    &&& q.stats.total_damage_dealt_to_champions == p.total_damage_dealt_to_champions
    &&& q.stats.damage_self_mitigated == p.damage_self_mitigated
    &&& q.stats.total_damage_taken == p.total_damage_taken
    &&& q.stats.total_heal == p.total_heal
    &&& q.stats.enemy_champion_immobilizations == p.challenges.enemy_champion_immobilizations
    &&& q.stats.immobilize_and_kill_with_ally == p.challenges.immobilize_and_kill_with_ally
    &&& q.stats.vision_score == p.vision_score
    &&& q.stats.champ_level == p.champ_level
    &&& q.stats.player_subteam_id == p.player_subteam_id
    &&& q.stats.item0 == p.item0
    &&& q.stats.item1 == p.item1
    &&& q.stats.item2 == p.item2
    &&& q.stats.item3 == p.item3
    &&& q.stats.item4 == p.item4
    &&& q.stats.item5 == p.item5
    &&& q.stats.item6 == p.item6
    &&& q.stats.perk0 == p.perk0
    &&& q.stats.perk1 == p.perk1
    &&& q.stats.perk2 == p.perk2
    &&& q.stats.perk3 == p.perk3
    &&& q.stats.perk4 == p.perk4
    &&& q.stats.perk5 == p.perk5
    &&& q.stats.player_augment1 == p.player_augment1
    &&& q.stats.player_augment2 == p.player_augment2
    &&& q.stats.player_augment3 == p.player_augment3
    &&& q.stats.player_augment4 == p.player_augment4
    &&& q.stats.player_augment5 == p.player_augment5
    &&& q.stats.player_augment6 == p.player_augment6
    &&& q.timeline.lane@ == p.lane@
    &&& q.timeline.role@ == p.role@
}

fn sgp_identity(p: &SgpParticipant) -> (r: ParticipantIdentity)
    ensures
        sgp_identity_spec(r, *p),
{
    ParticipantIdentity {
        participant_id: p.participant_id,
        player: IdentityPlayer {
            puuid: p.puuid.clone(),
            game_name: p.riot_id_game_name.clone(),
            tag_line: p.riot_id_tagline.clone(),
            summoner_name: p.summoner_name.clone(),
        },
    }
}

fn sgp_participant(p: &SgpParticipant) -> (r: Participant)
    ensures
        sgp_participant_spec(r, *p),
{
    Participant {
        participant_id: p.participant_id,
        champion_id: p.champion_id,
        spell1_id: p.spell1_id,
        spell2_id: p.spell2_id,
        team_id: p.team_id,
        stats: ParticipantStats {
            win: p.win,
            kills: p.kills,
            deaths: p.deaths,
            assists: p.assists,
            gold_earned: p.gold_earned,
            total_minions_killed: p.total_minions_killed,
            neutral_minions_killed: p.neutral_minions_killed,
            total_damage_dealt_to_champions: p.total_damage_dealt_to_champions,
            damage_self_mitigated: p.damage_self_mitigated,
            total_damage_taken: p.total_damage_taken,
            total_heal: p.total_heal,
            enemy_champion_immobilizations: p.challenges.enemy_champion_immobilizations,
            immobilize_and_kill_with_ally: p.challenges.immobilize_and_kill_with_ally,
            vision_score: p.vision_score,
            champ_level: p.champ_level,
            player_subteam_id: p.player_subteam_id,
            item0: p.item0,
            item1: p.item1,
            item2: p.item2,
            item3: p.item3,
            item4: p.item4,
            item5: p.item5,
            item6: p.item6,
            perk0: p.perk0,
            perk1: p.perk1,
            perk2: p.perk2,
            perk3: p.perk3,
            perk4: p.perk4,
            perk5: p.perk5,
            player_augment1: p.player_augment1,
            player_augment2: p.player_augment2,
            player_augment3: p.player_augment3,
            player_augment4: p.player_augment4,
            player_augment5: p.player_augment5,
            player_augment6: p.player_augment6,
        },
        timeline: ParticipantTimeline { lane: p.lane.clone(), role: p.role.clone() },
    }
}

/// A game summary in the client's form: one identity and one participant
/// per gateway participant, in order.
pub fn sgp_game_json_to_lcu_game(game: SgpGameJson) -> (r: Game)
    ensures
        r.game_id == game.game_id,
        r.game_creation == game.game_creation,
        r.game_duration == game.game_duration,
        r.game_mode == game.game_mode,
        r.game_type == game.game_type,
        r.queue_id == game.queue_id,
        r.participant_identities@.len() == game.participants@.len(),
        r.participants@.len() == game.participants@.len(),
        forall|k: int|
            0 <= k < game.participants@.len() ==> sgp_identity_spec(
                #[trigger] r.participant_identities@[k],
                game.participants@[k],
            ) && sgp_participant_spec(r.participants@[k], game.participants@[k]),
{
    let ps = &game.participants;
    let mut identities: Vec<ParticipantIdentity> = Vec::new();
    let mut participants: Vec<Participant> = Vec::new();
    let mut i: usize = 0;
    while i < ps.len()
        invariant
            ps@ == game.participants@,
            i <= ps@.len(),
            identities@.len() == i,
            participants@.len() == i,
            forall|k: int| 0 <= k < i ==> sgp_identity_spec(#[trigger] identities@[k], ps@[k]),
            forall|k: int| 0 <= k < i ==> sgp_participant_spec(#[trigger] participants@[k], ps@[k]),
        decreases ps@.len() - i,
    {
        identities.push(sgp_identity(&ps[i]));
        participants.push(sgp_participant(&ps[i]));
        i = i + 1;
    }
    Game {
        game_id: game.game_id,
        game_creation: game.game_creation,
        game_duration: game.game_duration,
        game_mode: game.game_mode,
        game_type: game.game_type,
        queue_id: game.queue_id,
        participant_identities: identities,
        participants,
    }
}

/// Longest preview of a response body, in characters.
pub const PREVIEW_CHARS: usize = 240;

/// The words of `s` joined by single spaces, with the state of whether a
/// space is owed before the next word.
pub open spec fn compact_state(s: Seq<char>) -> (Seq<char>, bool)
    decreases s.len(),
{
    if s.len() == 0 {
        (Seq::empty(), false)
    } else {
        let (out, pending) = compact_state(s.drop_last());
        let c = s.last();
        if is_ws(c) {
            (out, out.len() > 0)
        } else {
            (
                if pending {
                    out.push(' ')
                } else {
                    out
                }.push(c),
                false,
            )
        }
    }
}

/// The words of `s` (split at white space) joined by single spaces.
pub open spec fn compact_ws(s: Seq<char>) -> Seq<char> {
    compact_state(s).0
}

/// A short preview of a response body for error messages: its words joined
/// by single spaces, cut to 240 characters with `...` when longer, and
/// `<empty>` when nothing is left.
pub open spec fn preview_spec(body: Seq<char>) -> Seq<char> {
    let c = compact_ws(body);
    if c.len() > 240 {
        c.take(240) + "..."@
    } else if c.len() == 0 {
        "<empty>"@
    } else {
        c
    }
}

pub fn response_preview(body: &str) -> (r: String)
    ensures
        r@ == preview_spec(body@),
{
    let n = body.unicode_len();
    let mut compact = String::new();
    let mut pending = false;
    let mut i: usize = 0;
    while i < n
        invariant
            n == body@.len(),
            i <= n,
            compact_state(body@.take(i as int)) == (compact@, pending),
        decreases n - i,
    {
        assert(body@.take(i + 1).drop_last() =~= body@.take(i as int));
        let c = body.get_char(i);
        if is_whitespace(c) {
            pending = compact.as_str().unicode_len() > 0;
        } else {
            if pending {
                push_char(&mut compact, ' ');
            }
            push_char(&mut compact, c);
            pending = false;
        }
        i = i + 1;
    }
    assert(body@.take(n as int) =~= body@);
    let m = compact.as_str().unicode_len();
    proof {
        reveal_strlit("...");
        reveal_strlit("<empty>");
    }
    if m > PREVIEW_CHARS {
        let mut out = String::new();
        let mut k: usize = 0;
        while k < PREVIEW_CHARS
            invariant
                m == compact@.len(),
                m > 240,
                k <= 240,
                out@ == compact@.take(k as int),
            decreases 240 - k,
        {
            push_char(&mut out, compact.as_str().get_char(k));
            assert(out@ =~= compact@.take(k + 1));
            k = k + 1;
        }
        concat(out.as_str(), "...")
    } else if m == 0 {
        owned("<empty>")
    } else {
        compact
    }
}

/// Answers worth another try: too many requests, bad gateway, unavailable,
/// gateway timeout.
pub open spec fn retry_status_spec(status: u16) -> bool {
    status == 429 || status == 502 || status == 503 || status == 504
}

pub fn should_retry_status(status: u16) -> (r: bool)
    ensures
        r == retry_status_spec(status),
{
    status == 429 || status == 502 || status == 503 || status == 504
}

/// How many times a match-history request is tried again.
pub const SGP_MAX_RETRIES: usize = 3;

/// What one try of a match-history request gave.
#[derive(Debug, Clone, Copy, PartialEq, Eq, Structural)]
pub enum SgpAttempt {
    NetworkError,
    Status(u16),
}

/// What to do after a try.
#[derive(Debug, Clone, Copy, PartialEq, Eq, Structural)]
pub enum SgpRetryAction {
    /// Wait this many milliseconds, then try again.
    Wait(u64),
    /// Give up with the network error.
    GiveUp,
    /// Read the answer.
    Read,
}

/// The pause before try `attempt + 1`: half a second more each time.
pub open spec fn retry_delay_ms(attempt: nat) -> nat {
    500 * (attempt + 1)
}

/// After try number `attempt` (from 0): a network error or a busy answer is
/// tried again after a growing pause while tries are left; otherwise a
/// network error gives up and an answer is read.
pub fn sgp_retry_action(attempt: usize, outcome: SgpAttempt) -> (r: SgpRetryAction)
    requires
        attempt <= SGP_MAX_RETRIES,
    ensures
        r == match outcome {
            SgpAttempt::NetworkError => if attempt < SGP_MAX_RETRIES {
                SgpRetryAction::Wait(retry_delay_ms(attempt as nat) as u64)
            } else {
                SgpRetryAction::GiveUp
            },
            SgpAttempt::Status(s) => if retry_status_spec(s) && attempt < SGP_MAX_RETRIES {
                SgpRetryAction::Wait(retry_delay_ms(attempt as nat) as u64)
            } else {
                SgpRetryAction::Read
            },
        },
{
    let delay = 500 * (attempt as u64 + 1);
    match outcome {
        SgpAttempt::NetworkError => {
            if attempt < SGP_MAX_RETRIES {
                SgpRetryAction::Wait(delay)
            } else {
                SgpRetryAction::GiveUp
            }
        },
        SgpAttempt::Status(s) => {
            if should_retry_status(s) && attempt < SGP_MAX_RETRIES {
                SgpRetryAction::Wait(delay)
            } else {
                SgpRetryAction::Read
            }
        },
    }
}

/// The part of a server id after `TENCENT_`, or the whole id.
pub open spec fn server_sub_id_spec(server_id: Seq<char>) -> Seq<char> {
    if starts_with_seq(server_id, "TENCENT_"@) {
        server_id.subrange(8, server_id.len() as int)
    } else {
        server_id
    }
}

fn server_sub_id(server_id: &str) -> (r: String)
    ensures
        r@ == server_sub_id_spec(server_id@),
{
    proof {
        reveal_strlit("TENCENT_");
    }
    match strip_prefix(server_id, "TENCENT_") {
        Some(rest) => rest,
        None => owned(server_id),
    }
}

/// The address of a player's ranked statistics.
pub fn sgp_ranked_stats_url(base_url: &str, puuid: &str) -> (r: String)
    ensures
        r@ == base_url@ + "/leagues-ledge/v2/rankedStats/puuid/"@ + puuid@,
{
    let a = concat(base_url, "/leagues-ledge/v2/rankedStats/puuid/");
    concat(a.as_str(), puuid)
}

/// The address of the summoner lookup of a server: its region in lower case.
pub fn sgp_summoners_url(base_url: &str, server_id: &str) -> (r: String)
    ensures
        r@ == base_url@ + "/summoner-ledge/v1/regions/"@ + lower_seq(server_sub_id_spec(server_id@))
            + "/summoners/puuids"@,
{
    let sub = server_sub_id(server_id);
    let region = to_lower(sub.as_str());
    let a = concat(base_url, "/summoner-ledge/v1/regions/");
    let b = concat(a.as_str(), region.as_str());
    concat(b.as_str(), "/summoners/puuids")
}

/// The address of a player's match summaries.
pub fn sgp_match_history_url(base_url: &str, puuid: &str) -> (r: String)
    ensures
        r@ == base_url@ + "/match-history-query/v1/products/lol/player/"@ + puuid@ + "/SUMMARY"@,
{
    let a = concat(base_url, "/match-history-query/v1/products/lol/player/");
    let b = concat(a.as_str(), puuid);
    concat(b.as_str(), "/SUMMARY")
}

/// The address of one game's summary: the server's region in upper case,
/// `_` and the game id.
pub fn sgp_game_summary_url(base_url: &str, server_id: &str, game_id: u64) -> (r: String)
    ensures
        r@ == base_url@ + "/match-history-query/v1/products/lol/"@ + upper_seq(
            server_sub_id_spec(server_id@),
        ) + "_"@ + decimal_seq(game_id as nat) + "/SUMMARY"@,
{
    let sub = server_sub_id(server_id);
    let region = to_upper(sub.as_str());
    let a = concat(base_url, "/match-history-query/v1/products/lol/");
    let mut b = concat(a.as_str(), region.as_str());
    b = concat(b.as_str(), "_");
    push_decimal(&mut b, game_id);
    concat(b.as_str(), "/SUMMARY")
}

} // verus!
