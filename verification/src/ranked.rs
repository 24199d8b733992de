//! Ranked statistics: when the gateway's answer counts as empty, and when
//! the client is asked instead.
use vstd::prelude::*;

use crate::error::AppError;
use crate::models::{ClientAuth, RankedQueueEntry, RankedStatsResponse};
use crate::sgp::{
    default_server_id_spec, default_sgp_server_id, normalize_server_id_spec, normalize_sgp_server_id,
    rank_text_blank, ranked_text_has_value,
};
use crate::text::{eq_ignore_case, eq_ignore_case_seq};

verus! {

pub fn ranked_text_is_empty(value: &str) -> (r: bool)
    ensures
        r == rank_text_blank(value@),
{
    !ranked_text_has_value(value)
}

/// A queue entry without data: blank rank texts, no points, games or placements.
pub open spec fn queue_empty_spec(e: RankedQueueEntry) -> bool {
    &&& rank_text_blank(e.tier@)
    &&& rank_text_blank(e.highest_tier@)
    &&& rank_text_blank(e.previous_season_highest_tier@)
    &&& rank_text_blank(e.previous_season_end_tier@)
    &&& e.league_points == 0
    &&& e.wins == 0
    &&& e.losses == 0
    &&& !e.is_provisional
}

pub fn is_ranked_queue_empty(entry: &RankedQueueEntry) -> (r: bool)
    ensures
        r == queue_empty_spec(*entry),
{
    ranked_text_is_empty(entry.tier.as_str()) && ranked_text_is_empty(entry.highest_tier.as_str())
        && ranked_text_is_empty(entry.previous_season_highest_tier.as_str()) && ranked_text_is_empty(
        entry.previous_season_end_tier.as_str(),
    ) && entry.league_points == 0 && entry.wins == 0 && entry.losses == 0 && !entry.is_provisional
}

/// Statistics in which both the solo and the flex queue are empty.
pub open spec fn stats_empty_spec(s: RankedStatsResponse) -> bool {
    queue_empty_spec(s.queue_map.ranked_solo_5x5) && queue_empty_spec(s.queue_map.ranked_flex_sr)
}

pub fn is_ranked_stats_empty(stats: &RankedStatsResponse) -> (r: bool)
    ensures
        r == stats_empty_spec(*stats),
{
    is_ranked_queue_empty(&stats.queue_map.ranked_solo_5x5) && is_ranked_queue_empty(
        &stats.queue_map.ranked_flex_sr,
    )
}

/// The client can stand in for the gateway only for the client's own server:
/// the requested one (or none) is, up to ASCII case, the client's default.
pub open spec fn can_fallback_spec(auth: ClientAuth, sgp_server_id: Option<Seq<char>>) -> bool {
    let d = default_server_id_spec(auth.region@, auth.rso_platform_id@);
    match sgp_server_id {
        Some(v) => eq_ignore_case_seq(normalize_server_id_spec(v), d),
        None => true,
    }
}

pub fn ranked_can_fallback_to_lcu(auth: &ClientAuth, sgp_server_id: Option<&str>) -> (r: bool)
    ensures
        r == can_fallback_spec(
            *auth,
            match sgp_server_id {
                Some(v) => Some(v@),
                None => None,
            },
        ),
{
    let d = default_sgp_server_id(auth);
    match sgp_server_id {
        Some(v) => {
            let n = normalize_sgp_server_id(v);
            eq_ignore_case(n.as_str(), d.as_str())
        },
        None => eq_ignore_case(d.as_str(), d.as_str()),
    }
}

/// Whether the client is asked after the gateway answered: when it may stand
/// in and the gateway failed or gave empty statistics.
pub fn ranked_needs_lcu(can_fallback: bool, sgp: &Result<RankedStatsResponse, AppError>) -> (r: bool)
    ensures
        r == (can_fallback && match sgp {
            Ok(s) => stats_empty_spec(*s),
            Err(_) => true,
        }),
{
    can_fallback && match sgp {
        Ok(s) => is_ranked_stats_empty(s),
        Err(_) => true,
    }
}

} // verus!
