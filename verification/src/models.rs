//! Data model of the client, the match history and the views built from them.
//!
//! Numbers that the views report as ratios are not part of these types: they
//! are computed from the integer totals kept here.
use vstd::prelude::*;

use crate::text::copy_strings;

verus! {

/// Connection parameters read from the `LeagueClientUx.exe` command line.
#[derive(Debug)]
pub struct ClientAuth {
    pub port: u16,
    pub pid: u32,
    pub auth_token: String,
    pub region: String,
    pub rso_platform_id: String,
    pub riot_client_port: Option<u16>,
    pub riot_client_auth_token: Option<String>,
    pub source: String,
}

/// The connection parameters that may be shown: never the tokens.
#[derive(Debug)]
pub struct SafeClientInfo {
    pub pid: u32,
    pub port: u16,
    pub riot_client_port: Option<u16>,
    pub region: String,
    pub rso_platform_id: String,
    pub source: String,
}

/// The connection parameters safe to show: everything but the tokens.
pub open spec fn safe_info_spec(value: &ClientAuth) -> SafeClientInfo {
    SafeClientInfo {
        pid: value.pid,
        port: value.port,
        riot_client_port: value.riot_client_port,
        region: value.region,
        rso_platform_id: value.rso_platform_id,
        source: value.source,
    }
}

impl<'a> From<&'a ClientAuth> for SafeClientInfo {
    fn from(value: &'a ClientAuth) -> (r: SafeClientInfo) {
        SafeClientInfo {
            pid: value.pid,
            port: value.port,
            riot_client_port: value.riot_client_port,
            region: value.region.clone(),
            rso_platform_id: value.rso_platform_id.clone(),
            source: value.source.clone(),
        }
    }
}

impl<'a> vstd::std_specs::convert::FromSpecImpl<&'a ClientAuth> for SafeClientInfo {
    open spec fn obeys_from_spec() -> bool {
        true
    }

    open spec fn from_spec(value: &'a ClientAuth) -> SafeClientInfo {
        safe_info_spec(value)
    }
}

#[derive(Debug)]
pub struct ConnectionStatus {
    pub connected: bool,
    pub client: Option<SafeClientInfo>,
    pub summoner: Option<SummonerInfo>,
    pub gameflow_phase: Option<String>,
    pub message: String,
}

#[derive(Debug)]
pub struct RankedStatsResponse {
    pub queue_map: RankedQueueMap,
}

#[derive(Debug)]
pub struct RankedQueueMap {
    pub ranked_solo_5x5: RankedQueueEntry,
    pub ranked_flex_sr: RankedQueueEntry,
}

#[derive(Debug)]
pub struct RankedQueueEntry {
    pub queue_type: String,
    pub tier: String,
    pub division: String,
    pub highest_tier: String,
    pub highest_division: String,
    pub previous_season_highest_tier: String,
    pub previous_season_highest_division: String,
    pub previous_season_end_tier: String,
    pub previous_season_end_division: String,
    pub league_points: i32,
    pub wins: i32,
    pub losses: i32,
    pub is_provisional: bool,
}

impl RankedQueueEntry {
    /// The entry of a queue with no data: empty texts and zero counts.
    pub open spec fn is_default(self) -> bool {
        &&& self.queue_type@.len() == 0
        &&& self.tier@.len() == 0
        &&& self.division@.len() == 0
        &&& self.highest_tier@.len() == 0
        &&& self.highest_division@.len() == 0
        &&& self.previous_season_highest_tier@.len() == 0
        &&& self.previous_season_highest_division@.len() == 0
        &&& self.previous_season_end_tier@.len() == 0
        &&& self.previous_season_end_division@.len() == 0
        &&& self.league_points == 0
        &&& self.wins == 0
        &&& self.losses == 0
        &&& !self.is_provisional
    }

    /// The entry of a queue with no data.
    pub fn empty() -> (r: RankedQueueEntry)
        ensures
            r.is_default(),
    {
        RankedQueueEntry {
            queue_type: String::new(),
            tier: String::new(),
            division: String::new(),
            highest_tier: String::new(),
            highest_division: String::new(),
            previous_season_highest_tier: String::new(),
            previous_season_highest_division: String::new(),
            previous_season_end_tier: String::new(),
            previous_season_end_division: String::new(),
            league_points: 0,
            wins: 0,
            losses: 0,
            is_provisional: false,
        }
    }
}

#[derive(Debug)]
pub struct SummonerInfo {
    pub display_name: String,
    pub game_name: String,
    pub tag_line: String,
    pub internal_name: String,
    pub profile_icon_id: u32,
    pub puuid: String,
    pub summoner_id: u64,
    pub summoner_level: u32,
    pub privacy: String,
}

/// The name by which a summoner is shown: `gameName#tagLine` when both are
/// known, else the display name when it is not empty, else the internal name.
pub open spec fn riot_id_spec(s: SummonerInfo) -> Seq<char> {
    if s.game_name@.len() > 0 && s.tag_line@.len() > 0 {
        s.game_name@ + seq!['#'] + s.tag_line@
    } else if s.display_name@.len() > 0 {
        s.display_name@
    } else {
        s.internal_name@
    }
}

impl SummonerInfo {
    /// The name shown for the summoner: `name#tag` when both are known,
    /// else the display name, else the internal name.
    pub fn riot_id(&self) -> (r: String)
        ensures
            r@ == riot_id_spec(*self),
    {
        if self.game_name.as_str().unicode_len() > 0 && self.tag_line.as_str().unicode_len() > 0 {
            let mut r = self.game_name.clone();
            crate::text::push_char(&mut r, '#');
            r.append(self.tag_line.as_str());
            r
        } else if self.display_name.as_str().unicode_len() > 0 {
            self.display_name.clone()
        } else {
            self.internal_name.clone()
        }
    }
}

#[derive(Debug)]
pub struct MatchHistoryResponse {
    pub games: MatchHistoryPage,
}

#[derive(Debug)]
pub struct MatchHistoryPage {
    pub games: Vec<Game>,
}

#[derive(Debug)]
pub struct Game {
    pub game_id: u64,
    pub game_creation: i64,
    pub game_duration: i64,
    pub game_mode: String,
    pub game_type: String,
    pub queue_id: u32,
    pub participant_identities: Vec<ParticipantIdentity>,
    pub participants: Vec<Participant>,
}

#[derive(Debug)]
pub struct ParticipantIdentity {
    pub participant_id: u32,
    pub player: IdentityPlayer,
}

#[derive(Debug)]
pub struct IdentityPlayer {
    pub puuid: String,
    pub game_name: String,
    pub tag_line: String,
    pub summoner_name: String,
}

impl IdentityPlayer {
    /// A player whose names are all empty.
    pub fn empty() -> (r: IdentityPlayer)
        ensures
            r.puuid@.len() == 0,
            r.game_name@.len() == 0,
            r.tag_line@.len() == 0,
            r.summoner_name@.len() == 0,
    {
        IdentityPlayer {
            puuid: String::new(),
            game_name: String::new(),
            tag_line: String::new(),
            summoner_name: String::new(),
        }
    }

    /// A field-by-field copy.
    pub fn copy(&self) -> (r: IdentityPlayer)
        ensures
            r == *self,
    {
        IdentityPlayer {
            puuid: self.puuid.clone(),
            game_name: self.game_name.clone(),
            tag_line: self.tag_line.clone(),
            summoner_name: self.summoner_name.clone(),
        }
    }
}

#[derive(Debug)]
pub struct Participant {
    pub participant_id: u32,
    pub champion_id: u32,
    pub spell1_id: u32,
    pub spell2_id: u32,
    pub team_id: u32,
    pub stats: ParticipantStats,
    pub timeline: ParticipantTimeline,
}

#[derive(Debug)]
pub struct ParticipantStats {
    pub win: bool,
    pub kills: u32,
    pub deaths: u32,
    pub assists: u32,
    pub gold_earned: u32,
    pub total_minions_killed: u32,
    pub neutral_minions_killed: u32,
    pub total_damage_dealt_to_champions: u32,
    pub damage_self_mitigated: u32,
    pub total_damage_taken: u32,
    pub total_heal: u32,
    pub enemy_champion_immobilizations: u32,
    pub immobilize_and_kill_with_ally: u32,
    pub vision_score: u32,
    pub champ_level: u32,
    pub player_subteam_id: u32,
    pub item0: u32,
    pub item1: u32,
    pub item2: u32,
    pub item3: u32,
    pub item4: u32,
    pub item5: u32,
    pub item6: u32,
    pub perk0: u32,
    pub perk1: u32,
    pub perk2: u32,
    pub perk3: u32,
    pub perk4: u32,
    pub perk5: u32,
    pub player_augment1: u32,
    pub player_augment2: u32,
    pub player_augment3: u32,
    pub player_augment4: u32,
    pub player_augment5: u32,
    pub player_augment6: u32,
}

#[derive(Debug)]
pub struct ParticipantTimeline {
    pub lane: String,
    pub role: String,
}

#[derive(Debug)]
pub struct ChampionSummaryItem {
    pub id: i32,
    pub name: String,
    pub alias: String,
    pub square_portrait_path: String,
    pub roles: Vec<String>,
}

#[derive(Debug)]
pub struct GameAssetBundle {
    pub summoner_spells: Vec<GameAssetEntry>,
    pub items: Vec<GameAssetEntry>,
    pub perks: Vec<GameAssetEntry>,
    pub augments: Vec<GameAssetEntry>,
}

#[derive(Debug)]
pub struct GameAssetEntry {
    pub id: u32,
    pub name: String,
    pub description: String,
    pub icon_path: String,
    pub rarity: String,
    pub categories: Vec<String>,
    pub price: u32,
    pub price_total: u32,
    pub in_store: bool,
    pub display_in_item_sets: bool,
}

#[derive(Debug)]
pub struct GameflowSession {
    pub phase: String,
    pub game_data: GameflowGameData,
}

#[derive(Debug)]
pub struct GameflowGameData {
    pub game_id: u64,
    pub queue: GameflowQueue,
    pub player_champion_selections: Vec<PlayerChampionSelection>,
    pub team_one: Vec<GameflowPlayer>,
    pub team_two: Vec<GameflowPlayer>,
}

#[derive(Debug)]
pub struct PlayerChampionSelection {
    pub puuid: String,
    pub champion_id: u32,
    pub summoner_id: u64,
    pub summoner_internal_name: String,
}

#[derive(Debug)]
pub struct GameflowQueue {
    pub id: u32,
    pub game_mode: String,
    pub type_: String,
}

#[derive(Debug)]
pub struct GameflowPlayer {
    pub puuid: String,
    pub champion_id: u32,
    pub selected_position: String,
    pub selected_role: String,
    pub summoner_id: u64,
    pub summoner_internal_name: String,
    pub summoner_name: String,
    pub team_participant_id: u32,
}

#[derive(Debug)]
pub struct ChampSelectSession {
    pub my_team: Vec<ChampSelectPlayer>,
    pub their_team: Vec<ChampSelectPlayer>,
}

#[derive(Debug)]
pub struct ChampSelectPlayer {
    pub cell_id: u32,
    pub puuid: String,
    pub champion_id: u32,
    pub champion_pick_intent: u32,
    pub assigned_position: String,
    pub summoner_id: u64,
    pub team: u32,
    pub player_type: String,
    pub name_visibility_type: String,
}

#[derive(Debug)]
pub struct LivePremadeMarker {
    pub group_id: String,
    pub label: String,
    pub source: String,
    pub together_times: usize,
    pub member_puuids: Vec<String>,
}

impl LivePremadeMarker {
    /// A field-by-field copy.
    pub fn copy(&self) -> (r: LivePremadeMarker)
        ensures
            r.group_id == self.group_id,
            r.label == self.label,
            r.source == self.source,
            r.together_times == self.together_times,
            r.member_puuids@ == self.member_puuids@,
    {
        LivePremadeMarker {
            group_id: self.group_id.clone(),
            label: self.label.clone(),
            source: self.source.clone(),
            together_times: self.together_times,
            member_puuids: copy_strings(&self.member_puuids),
        }
    }
}

#[derive(Debug)]
pub struct RiotAlias {
    pub puuid: String,
    pub alias: RiotAliasName,
}

#[derive(Debug)]
pub struct RiotAliasName {
    pub game_name: String,
    pub tag_line: String,
}

/// A player found by a Riot ID search on one server.
#[derive(Debug)]
pub struct SummonerSearchCandidate {
    pub puuid: String,
    pub game_name: String,
    pub tag_line: String,
    pub sgp_server_id: String,
    pub profile_icon_id: u32,
    pub summoner_level: u32,
    pub privacy: String,
}

/// What the application reports about a newer release.
#[derive(Debug)]
pub struct AppUpdateInfo {
    pub current_version: String,
    pub latest_version: String,
    pub has_update: bool,
    pub release_page_url: String,
    pub release_name: Option<String>,
    pub release_message: Option<String>,
    pub release_notes: Vec<String>,
}

} // verus!
