//! The game in progress: who plays on which side, and which of a player's past
//! games are shown for the queue being played.
use vstd::prelude::*;

use crate::models::{
    ChampSelectPlayer, GameflowPlayer, GameflowSession, LivePremadeMarker, PlayerChampionSelection, SummonerInfo,
};
use crate::stats::{normalize_depth, PlayerAnalysis, PlayerTotals, RecentGame, MAX_DEPTH};
use crate::text::{
    concat, contains, contains_seq, eq_ignore_case, eq_ignore_case_seq, is_blank, lower_seq, owned, push_char,
    str_eq, to_lower, to_upper, trim, trim_seq, upper_seq,
};

verus! {

/// The PUUID the client reports for a seat without a player.
pub open spec fn empty_puuid_spec() -> Seq<char> {
    "00000000-0000-0000-0000-000000000000"@
}

/// A PUUID that names a player: not blank and not the empty placeholder.
pub open spec fn real_puuid_spec(puuid: Seq<char>) -> bool {
    trim_seq(puuid).len() > 0 && puuid != empty_puuid_spec()
}

pub fn is_real_puuid(puuid: &str) -> (r: bool)
    ensures
        r == real_puuid_spec(puuid@),
{
    let empty = "00000000-0000-0000-0000-000000000000";
    proof {
        reveal_strlit("00000000-0000-0000-0000-000000000000");
    }
    !is_blank(puuid) && !str_eq(puuid, empty)
}

/// The form in which PUUIDs are compared: ASCII lower case.
pub open spec fn norm_puuid(puuid: Seq<char>) -> Seq<char> {
    lower_seq(puuid)
}

pub fn normalize_puuid(puuid: &str) -> (r: String)
    ensures
        r@ == norm_puuid(puuid@),
{
    to_lower(puuid)
}

/// One player of the game in progress, with the statistics loaded for them.
#[derive(Debug)]
pub struct LivePlayer {
    pub puuid: String,
    pub champion_id: u32,
    pub champion_pick_intent: u32,
    pub position: String,
    pub selected_role: String,
    pub summoner_id: u64,
    pub team_participant_id: Option<u32>,
    pub is_placeholder: bool,
    pub premade: Option<LivePremadeMarker>,
    pub summoner: Option<SummonerInfo>,
    pub stats: Option<PlayerAnalysis>,
    pub error: Option<String>,
}

/// One side of the game in progress.
#[derive(Debug)]
pub struct LiveTeam {
    pub name: String,
    pub players: Vec<LivePlayer>,
}

/// The game in progress as shown to the user.
#[derive(Debug)]
pub struct LiveGameResponse {
    pub phase: String,
    pub query_stage: String,
    pub game_id: Option<u64>,
    pub queue_id: Option<u32>,
    pub queue_type: Option<String>,
    pub game_mode: Option<String>,
    pub teams: Vec<LiveTeam>,
}

/// The views of an association list from strings to numbers.
pub open spec fn entry_views(m: Seq<(String, u32)>) -> Seq<(Seq<char>, u32)> {
    m.map_values(|e: (String, u32)| (e.0@, e.1))
}

/// The value of `key` in an association list: the last entry for it wins,
/// as inserting into a map in order would leave it.
pub open spec fn assoc_get(m: Seq<(Seq<char>, u32)>, key: Seq<char>) -> Option<u32>
    decreases m.len(),
{
    if m.len() == 0 {
        None
    } else if m.last().0 == key {
        Some(m.last().1)
    } else {
        assoc_get(m.drop_last(), key)
    }
}

/// Looks up `key` in an association list, the last entry winning.
pub fn assoc_lookup(m: &Vec<(String, u32)>, key: &str) -> (r: Option<u32>)
    ensures
        r == assoc_get(entry_views(m@), key@),
{
    let ghost v = entry_views(m@);
    let mut i = m.len();
    assert(v.take(i as int) =~= v);
    while i > 0
        invariant
            v == entry_views(m@),
            i <= m@.len(),
            assoc_get(v, key@) == assoc_get(v.take(i as int), key@),
        decreases i,
    {
        assert(v.take(i as int).drop_last() =~= v.take(i - 1));
        assert(v.take(i as int).last() == (m@[i - 1].0@, m@[i - 1].1));
        if str_eq(m[i - 1].0.as_str(), key) {
            return Some(m[i - 1].1);
        }
        i = i - 1;
    }
    None
}

/// The players of both teams of a game in progress, team one first.
pub open spec fn both_teams(session: GameflowSession) -> Seq<GameflowPlayer> {
    session.game_data.team_one@ + session.game_data.team_two@
}

/// The client group ids of the players, by normalized PUUID.
pub open spec fn team_participant_entries(ps: Seq<GameflowPlayer>) -> Seq<(Seq<char>, u32)>
    decreases ps.len(),
{
    if ps.len() == 0 {
        Seq::empty()
    } else {
        let rest = team_participant_entries(ps.drop_last());
        let p = ps.last();
        if real_puuid_spec(p.puuid@) && p.team_participant_id != 0 {
            rest.push((norm_puuid(p.puuid@), p.team_participant_id))
        } else {
            rest
        }
    }
}

pub fn gameflow_team_participant_map(session: &GameflowSession) -> (r: Vec<(String, u32)>)
    ensures
        entry_views(r@) == team_participant_entries(both_teams(*session)),
{
    let one = &session.game_data.team_one;
    let two = &session.game_data.team_two;
    let mut r: Vec<(String, u32)> = Vec::new();
    let mut i: usize = 0;
    while i < one.len()
        invariant
            i <= one@.len(),
            entry_views(r@) == team_participant_entries(one@.take(i as int)),
        decreases one@.len() - i,
    {
        assert(one@.take(i + 1).drop_last() =~= one@.take(i as int));
        let p = &one[i];
        if is_real_puuid(p.puuid.as_str()) && p.team_participant_id != 0 {
            let ghost prev = r@;
            r.push((normalize_puuid(p.puuid.as_str()), p.team_participant_id));
            assert(entry_views(r@) =~= entry_views(prev).push((norm_puuid(p.puuid@), p.team_participant_id)));
        }
        i = i + 1;
    }
    assert(one@.take(one@.len() as int) =~= one@);
    let mut j: usize = 0;
    while j < two.len()
        invariant
            j <= two@.len(),
            entry_views(r@) == team_participant_entries(one@ + two@.take(j as int)),
        decreases two@.len() - j,
    {
        assert((one@ + two@.take(j + 1)).drop_last() =~= one@ + two@.take(j as int));
        assert((one@ + two@.take(j + 1)).last() == two@[j as int]);
        let p = &two[j];
        if is_real_puuid(p.puuid.as_str()) && p.team_participant_id != 0 {
            let ghost prev = r@;
            r.push((normalize_puuid(p.puuid.as_str()), p.team_participant_id));
            assert(entry_views(r@) =~= entry_views(prev).push((norm_puuid(p.puuid@), p.team_participant_id)));
        }
        j = j + 1;
    }
    assert(one@ + two@.take(two@.len() as int) =~= both_teams(*session));
    r
}

/// The champions of the listed selections with a real PUUID and a champion, by PUUID.
pub open spec fn selection_list_entries(sels: Seq<crate::models::PlayerChampionSelection>) -> Seq<(Seq<char>, u32)>
    decreases sels.len(),
{
    if sels.len() == 0 {
        Seq::empty()
    } else {
        let rest = selection_list_entries(sels.drop_last());
        let x = sels.last();
        if real_puuid_spec(x.puuid@) && x.champion_id != 0 {
            rest.push((x.puuid@, x.champion_id))
        } else {
            rest
        }
    }
}

/// The champions of the players with a real PUUID and a champion, by PUUID.
pub open spec fn player_champion_entries(ps: Seq<GameflowPlayer>) -> Seq<(Seq<char>, u32)>
    decreases ps.len(),
{
    if ps.len() == 0 {
        Seq::empty()
    } else {
        let rest = player_champion_entries(ps.drop_last());
        let p = ps.last();
        if real_puuid_spec(p.puuid@) && p.champion_id != 0 {
            rest.push((p.puuid@, p.champion_id))
        } else {
            rest
        }
    }
}

/// The champions chosen, by PUUID: the listed selections first, then the
/// players of both teams, the later entry winning.
pub open spec fn selection_entries(session: GameflowSession) -> Seq<(Seq<char>, u32)> {
    selection_list_entries(session.game_data.player_champion_selections@) + player_champion_entries(
        both_teams(session),
    )
}

proof fn lemma_player_champion_entries_concat(a: Seq<GameflowPlayer>, b: Seq<GameflowPlayer>)
    ensures
        player_champion_entries(a + b) == player_champion_entries(a) + player_champion_entries(b),
    decreases b.len(),
{
    if b.len() == 0 {
        assert(a + b =~= a);
        assert(player_champion_entries(a) + player_champion_entries(b) =~= player_champion_entries(a));
    } else {
        lemma_player_champion_entries_concat(a, b.drop_last());
        assert((a + b).drop_last() =~= a + b.drop_last());
        assert((a + b).last() == b.last());
        let x = b.last();
        if real_puuid_spec(x.puuid@) && x.champion_id != 0 {
            assert(player_champion_entries(a) + player_champion_entries(b) =~= (player_champion_entries(a)
                + player_champion_entries(b.drop_last())).push((x.puuid@, x.champion_id)));
        }
    }
}

fn push_player_champions(r: &mut Vec<(String, u32)>, ps: &Vec<GameflowPlayer>)
    ensures
        entry_views(final(r)@) == entry_views(old(r)@) + player_champion_entries(ps@),
{
    let ghost start = entry_views(r@);
    let mut i: usize = 0;
    while i < ps.len()
        invariant
            i <= ps@.len(),
            start == entry_views(old(r)@),
            entry_views(r@) == start + player_champion_entries(ps@.take(i as int)),
        decreases ps@.len() - i,
    {
        assert(ps@.take(i + 1).drop_last() =~= ps@.take(i as int));
        let p = &ps[i];
        if is_real_puuid(p.puuid.as_str()) && p.champion_id != 0 {
            let ghost prev = r@;
            r.push((p.puuid.clone(), p.champion_id));
            assert(entry_views(r@) =~= entry_views(prev).push((p.puuid@, p.champion_id)));
            assert(entry_views(r@) =~= start + player_champion_entries(ps@.take(i + 1)));
        }
        i = i + 1;
    }
    assert(ps@.take(ps@.len() as int) =~= ps@);
}

pub fn champion_selection_map(session: &GameflowSession) -> (r: Vec<(String, u32)>)
    ensures
        entry_views(r@) == selection_entries(*session),
{
    let sels = &session.game_data.player_champion_selections;
    let mut r: Vec<(String, u32)> = Vec::new();
    let mut i: usize = 0;
    while i < sels.len()
        invariant
            i <= sels@.len(),
            entry_views(r@) == selection_list_entries(sels@.take(i as int)),
        decreases sels@.len() - i,
    {
        assert(sels@.take(i + 1).drop_last() =~= sels@.take(i as int));
        let x = &sels[i];
        if is_real_puuid(x.puuid.as_str()) && x.champion_id != 0 {
            let ghost prev = r@;
            r.push((x.puuid.clone(), x.champion_id));
            assert(entry_views(r@) =~= entry_views(prev).push((x.puuid@, x.champion_id)));
        }
        i = i + 1;
    }
    assert(sels@.take(sels@.len() as int) =~= sels@);
    push_player_champions(&mut r, &session.game_data.team_one);
    push_player_champions(&mut r, &session.game_data.team_two);
    proof {
        lemma_player_champion_entries_concat(session.game_data.team_one@, session.game_data.team_two@);
        assert(entry_views(r@) =~= selection_entries(*session));
    }
    r
}

/// A player of the game in progress before their statistics are loaded.
#[derive(Debug)]
pub struct LivePlayerSeed {
    pub puuid: String,
    pub champion_id: u32,
    pub champion_pick_intent: u32,
    pub position: String,
    pub selected_role: String,
    pub summoner_id: u64,
    pub team_participant_id: Option<u32>,
    pub fallback_name: String,
    pub is_placeholder: bool,
}

/// `r` is the seed of champion-select player `player`, with the client
/// groups `map`.
pub open spec fn champ_select_seed_spec(r: LivePlayerSeed, player: ChampSelectPlayer, map: Seq<(Seq<char>, u32)>) -> bool {
    &&& r.puuid@ == player.puuid@
    &&& r.champion_id == if player.champion_id != 0 {
        player.champion_id
    } else {
        player.champion_pick_intent
    }
    &&& r.champion_pick_intent == player.champion_pick_intent
    &&& r.position@ == upper_seq(player.assigned_position@)
    &&& r.selected_role@.len() == 0
    &&& r.summoner_id == player.summoner_id
    &&& r.team_participant_id == match assoc_get(map, norm_puuid(player.puuid@)) {
        Some(id) => if id != 0 {
            Some(id)
        } else {
            None
        },
        None => None,
    }
    &&& r.fallback_name@.len() == 0
    &&& r.is_placeholder == (eq_ignore_case_seq(player.player_type@, "BOT"@) || eq_ignore_case_seq(
        player.name_visibility_type@,
        "HIDDEN"@,
    ))
}

/// A player in champion select: the chosen champion, else the one hovered;
/// the client group from the game's map when not zero; a bot or a hidden
/// name makes a placeholder.
pub fn champ_select_seed(player: ChampSelectPlayer, team_participant_map: &Vec<(String, u32)>) -> (r: LivePlayerSeed)
    ensures
        champ_select_seed_spec(r, player, entry_views(team_participant_map@)),
{
    let champion_id = if player.champion_id != 0 {
        player.champion_id
    } else {
        player.champion_pick_intent
    };
    let key = normalize_puuid(player.puuid.as_str());
    let team_participant_id = match assoc_lookup(team_participant_map, key.as_str()) {
        Some(id) => if id != 0 {
            Some(id)
        } else {
            None
        },
        None => None,
    };
    let is_placeholder = eq_ignore_case(player.player_type.as_str(), "BOT") || eq_ignore_case(
        player.name_visibility_type.as_str(),
        "HIDDEN",
    );
    LivePlayerSeed {
        puuid: player.puuid,
        champion_id,
        champion_pick_intent: player.champion_pick_intent,
        position: to_upper(player.assigned_position.as_str()),
        selected_role: String::new(),
        summoner_id: player.summoner_id,
        team_participant_id,
        fallback_name: String::new(),
        is_placeholder,
    }
}

/// `r` is the seed of in-game player `p`.
pub open spec fn gameflow_seed_spec(r: LivePlayerSeed, p: GameflowPlayer, sel: Seq<(Seq<char>, u32)>) -> bool {
    &&& r.puuid@ == p.puuid@
    &&& r.champion_id == if p.champion_id != 0 {
        p.champion_id
    } else {
        match assoc_get(sel, p.puuid@) {
            Some(c) => c,
            None => 0,
        }
    }
    &&& r.champion_pick_intent == 0
    &&& r.position@ == p.selected_position@
    &&& r.selected_role@ == p.selected_role@
    &&& r.summoner_id == p.summoner_id
    &&& r.team_participant_id == if p.team_participant_id != 0 {
        Some(p.team_participant_id)
    } else {
        None
    }
    &&& r.fallback_name@ == if p.summoner_name@.len() == 0 {
        p.summoner_internal_name@
    } else {
        p.summoner_name@
    }
    &&& !r.is_placeholder
}

/// The players with a real PUUID, in order.
pub open spec fn named_players(ps: Seq<GameflowPlayer>) -> Seq<GameflowPlayer>
    decreases ps.len(),
{
    if ps.len() == 0 {
        Seq::empty()
    } else if real_puuid_spec(ps.last().puuid@) {
        named_players(ps.drop_last()).push(ps.last())
    } else {
        named_players(ps.drop_last())
    }
}

/// The seeds of the in-game players with a real PUUID, in order.
pub fn gameflow_seeds(players: Vec<GameflowPlayer>, selections: &Vec<(String, u32)>) -> (r: Vec<LivePlayerSeed>)
    ensures
        ({
            let named = named_players(players@);
            &&& r@.len() == named.len()
            &&& forall|k: int|
                0 <= k < named.len() ==> gameflow_seed_spec(#[trigger] r@[k], named[k], entry_views(selections@))
        }),
{
    let ghost orig = players@;
    let mut rest = players;
    let n = rest.len();
    let mut out: Vec<LivePlayerSeed> = Vec::new();
    let mut i: usize = 0;
    while i < n
        invariant
            n == orig.len(),
            i <= n,
            rest@ == orig.skip(i as int),
            out@.len() == named_players(orig.take(i as int)).len(),
            forall|k: int|
                0 <= k < out@.len() ==> gameflow_seed_spec(
                    #[trigger] out@[k],
                    named_players(orig.take(i as int))[k],
                    entry_views(selections@),
                ),
        decreases n - i,
    {
        assert(rest@[0] == orig[i as int]);
        let p = rest.remove(0);
        assert(rest@ =~= orig.skip(i + 1));
        assert(orig.take(i + 1).drop_last() =~= orig.take(i as int));
        let ghost prev = out@;
        let ghost pv = p;
        if is_real_puuid(p.puuid.as_str()) {
            let champion_id = if p.champion_id != 0 {
                p.champion_id
            } else {
                match assoc_lookup(selections, p.puuid.as_str()) {
                    Some(c) => c,
                    None => 0,
                }
            };
            let team_participant_id = if p.team_participant_id != 0 {
                Some(p.team_participant_id)
            } else {
                None
            };
            let fallback_name = if p.summoner_name.as_str().unicode_len() == 0 {
                p.summoner_internal_name
            } else {
                p.summoner_name
            };
            let seed = LivePlayerSeed {
                puuid: p.puuid,
                champion_id,
                champion_pick_intent: 0,
                position: p.selected_position,
                selected_role: p.selected_role,
                summoner_id: p.summoner_id,
                team_participant_id,
                fallback_name,
                is_placeholder: false,
            };
            assert(gameflow_seed_spec(seed, pv, entry_views(selections@)));
            out.push(seed);
            assert(named_players(orig.take(i + 1)) == named_players(orig.take(i as int)).push(pv));
            assert forall|k: int| 0 <= k < out@.len() implies gameflow_seed_spec(
                #[trigger] out@[k],
                named_players(orig.take(i + 1))[k],
                entry_views(selections@),
            ) by {
                if k < prev.len() {
                    assert(out@[k] == prev[k]);
                }
            }
        } else {
            assert(named_players(orig.take(i + 1)) == named_players(orig.take(i as int)));
        }
        i = i + 1;
    }
    assert(orig.take(n as int) =~= orig);
    out
}

/// Whether a list of seeds holds `puuid`, ignoring ASCII case.
pub fn player_list_contains_puuid(players: &Vec<LivePlayerSeed>, puuid: &str) -> (r: bool)
    ensures
        r == exists|k: int| 0 <= k < players@.len() && eq_ignore_case_seq(#[trigger] players@[k].puuid@, puuid@),
{
    let mut i: usize = 0;
    while i < players.len()
        invariant
            i <= players@.len(),
            forall|k: int| 0 <= k < i ==> !eq_ignore_case_seq(#[trigger] players@[k].puuid@, puuid@),
        decreases players@.len() - i,
    {
        if eq_ignore_case(players[i].puuid.as_str(), puuid) {
            return true;
        }
        i = i + 1;
    }
    false
}

/// A hextech (ARAM mayhem) game: queue 2400 or a `STRAWBERRY` / `KIWI` mode.
pub open spec fn hex_aram_spec(queue_id: u32, game_mode: Seq<char>) -> bool {
    queue_id == 2400 || upper_seq(game_mode) == "STRAWBERRY"@ || upper_seq(game_mode) == "KIWI"@
}

pub fn is_hex_aram_game(queue_id: u32, game_mode: &str) -> (r: bool)
    ensures
        r == hex_aram_spec(queue_id, game_mode@),
{
    let u = to_upper(game_mode);
    proof {
        reveal_strlit("STRAWBERRY");
        reveal_strlit("KIWI");
    }
    queue_id == 2400 || str_eq(u.as_str(), "STRAWBERRY") || str_eq(u.as_str(), "KIWI")
}

/// Which past games are shown for the queue being played.
#[derive(Debug, Clone, Copy, PartialEq, Eq, Structural)]
pub enum LiveQueueFilter {
    HexAram,
    Aram,
    Ranked,
    MatchAndRanked,
    Any,
}

/// Whether a past game fits the filter.
pub open spec fn filter_matches_spec(f: LiveQueueFilter, queue_id: u32, game_mode: Seq<char>) -> bool {
    match f {
        LiveQueueFilter::HexAram => hex_aram_spec(queue_id, game_mode),
        LiveQueueFilter::Aram => !hex_aram_spec(queue_id, game_mode) && (queue_id == 450
            || eq_ignore_case_seq(game_mode, "ARAM"@)),
        LiveQueueFilter::Ranked => queue_id == 420 || queue_id == 440,
        LiveQueueFilter::MatchAndRanked => (queue_id == 400 || queue_id == 420 || queue_id == 430
            || queue_id == 440 || queue_id == 490) || (eq_ignore_case_seq(game_mode, "CLASSIC"@) && !(
        queue_id == 450 || queue_id == 1700 || queue_id == 1710 || queue_id == 1711 || queue_id == 1712
            || queue_id == 2400)),
        LiveQueueFilter::Any => true,
    }
}

impl LiveQueueFilter {
    pub fn matches(self, game: &RecentGame) -> (r: bool)
        ensures
            r == filter_matches_spec(self, game.queue_id, game.game_mode@),
    {
        let q = game.queue_id;
        let mode = game.game_mode.as_str();
        match self {
            LiveQueueFilter::HexAram => is_hex_aram_game(q, mode),
            LiveQueueFilter::Aram => !is_hex_aram_game(q, mode) && (q == 450 || eq_ignore_case(mode, "ARAM")),
            LiveQueueFilter::Ranked => q == 420 || q == 440,
            LiveQueueFilter::MatchAndRanked => (q == 400 || q == 420 || q == 430 || q == 440 || q == 490) || (
            eq_ignore_case(mode, "CLASSIC") && !(q == 450 || q == 1700 || q == 1710 || q == 1711 || q == 1712
                || q == 2400)),
            LiveQueueFilter::Any => true,
        }
    }
}

/// The filter for the queue being played: hextech, then ARAM, then ranked
/// (by queue or a type naming `RANKED`), then normal draft or blind (by queue
/// or the `CLASSIC` mode), else every game.
pub open spec fn live_filter_spec(
    queue_id: Option<u32>,
    queue_type: Option<Seq<char>>,
    game_mode: Option<Seq<char>>,
) -> LiveQueueFilter {
    let qid = match queue_id {
        Some(q) => q,
        None => 0,
    };
    let mode = match game_mode {
        Some(m) => m,
        None => Seq::empty(),
    };
    if hex_aram_spec(qid, mode) {
        LiveQueueFilter::HexAram
    } else if queue_id == Some(450u32) || (game_mode is Some && eq_ignore_case_seq(mode, "ARAM"@)) {
        LiveQueueFilter::Aram
    } else if queue_id == Some(420u32) || queue_id == Some(440u32) || (queue_type is Some && contains_seq(
        upper_seq(queue_type->0),
        "RANKED"@,
    )) {
        LiveQueueFilter::Ranked
    } else if queue_id == Some(400u32) || queue_id == Some(430u32) || queue_id == Some(490u32) || (
    game_mode is Some && eq_ignore_case_seq(mode, "CLASSIC"@)) {
        LiveQueueFilter::MatchAndRanked
    } else {
        LiveQueueFilter::Any
    }
}

pub fn live_queue_filter(queue_id: Option<u32>, queue_type: Option<&str>, game_mode: Option<&str>) -> (r:
    LiveQueueFilter)
    ensures
        r == live_filter_spec(
            queue_id,
            match queue_type {
                Some(t) => Some(t@),
                None => None,
            },
            match game_mode {
                Some(m) => Some(m@),
                None => None,
            },
        ),
{
    let qid = match queue_id {
        Some(q) => q,
        None => 0,
    };
    let has_id = queue_id.is_some();
    let hex = match game_mode {
        Some(m) => is_hex_aram_game(qid, m),
        None => {
            proof {
                assert(!hex_aram_spec(qid, Seq::<char>::empty()) == !(qid == 2400 || upper_seq(
                    Seq::<char>::empty(),
                ) == "STRAWBERRY"@ || upper_seq(Seq::<char>::empty()) == "KIWI"@));
                reveal_strlit("STRAWBERRY");
                reveal_strlit("KIWI");
                assert(upper_seq(Seq::<char>::empty()).len() == 0);
            }
            qid == 2400
        },
    };
    if hex {
        return LiveQueueFilter::HexAram;
    }
    let is_aram_mode = match game_mode {
        Some(m) => eq_ignore_case(m, "ARAM"),
        None => false,
    };
    if (has_id && qid == 450) || is_aram_mode {
        return LiveQueueFilter::Aram;
    }
    let ranked_type = match queue_type {
        Some(t) => {
            let u = to_upper(t);
            contains(u.as_str(), "RANKED")
        },
        None => false,
    };
    if (has_id && (qid == 420 || qid == 440)) || ranked_type {
        return LiveQueueFilter::Ranked;
    }
    let classic = match game_mode {
        Some(m) => eq_ignore_case(m, "CLASSIC"),
        None => false,
    };
    if (has_id && (qid == 400 || qid == 430 || qid == 490)) || classic {
        return LiveQueueFilter::MatchAndRanked;
    }
    LiveQueueFilter::Any
}

/// Shortest past game shown in the game in progress, in seconds.
pub const LIVE_MIN_VALID_GAME_DURATION_SECONDS: i64 = 480;

/// The sum of `f` over the games.
pub open spec fn recent_sum(gs: Seq<RecentGame>, f: spec_fn(RecentGame) -> nat) -> nat
    decreases gs.len(),
{
    if gs.len() == 0 {
        0
    } else {
        recent_sum(gs.drop_last(), f) + f(gs.last())
    }
}

pub open spec fn r_win() -> spec_fn(RecentGame) -> nat {
    |g: RecentGame|
        if g.win {
            1nat
        } else {
            0nat
        }
}

pub open spec fn r_kills() -> spec_fn(RecentGame) -> nat {
    |g: RecentGame| g.kills as nat
}

pub open spec fn r_deaths() -> spec_fn(RecentGame) -> nat {
    |g: RecentGame| g.deaths as nat
}

pub open spec fn r_assists() -> spec_fn(RecentGame) -> nat {
    |g: RecentGame| g.assists as nat
}

/// In how many of the games champion `c` was played.
pub open spec fn champion_games(gs: Seq<RecentGame>, c: u32) -> nat
    decreases gs.len(),
{
    if gs.len() == 0 {
        0
    } else {
        champion_games(gs.drop_last(), c) + if gs.last().champion_id == c {
            1nat
        } else {
            0nat
        }
    }
}

/// The champions played in the games.
pub open spec fn champions_played(gs: Seq<RecentGame>) -> Set<u32> {
    gs.map_values(|g: RecentGame| g.champion_id).to_set()
}

/// `t` summarizes the games: counts, sums, the number of distinct champions
/// and the most played one (ties going to the larger champion id).
pub open spec fn live_totals_spec(t: PlayerTotals, gs: Seq<RecentGame>) -> bool {
    &&& t.games == gs.len()
    &&& t.wins == recent_sum(gs, r_win())
    &&& t.losses == gs.len() - recent_sum(gs, r_win())
    &&& t.kills == recent_sum(gs, r_kills())
    &&& t.deaths == recent_sum(gs, r_deaths())
    &&& t.assists == recent_sum(gs, r_assists())
    &&& t.unique_champions == champions_played(gs).len()
    &&& match t.most_played_champion_id {
        None => gs.len() == 0,
        Some(c) => {
            &&& champions_played(gs).contains(c)
            &&& forall|c2: u32|
                #[trigger] champions_played(gs).contains(c2) ==> champion_games(gs, c2) < champion_games(gs, c)
                    || (champion_games(gs, c2) == champion_games(gs, c) && c2 <= c)
        },
    }
}

proof fn lemma_recent_sum_bound(gs: Seq<RecentGame>, f: spec_fn(RecentGame) -> nat, bound: nat)
    requires
        forall|g: RecentGame| #[trigger] f(g) <= bound,
    ensures
        recent_sum(gs, f) <= gs.len() * bound,
    decreases gs.len(),
{
    if gs.len() > 0 {
        lemma_recent_sum_bound(gs.drop_last(), f, bound);
        assert((gs.len() - 1) * bound + bound == gs.len() * bound) by (nonlinear_arith);
    }
}

proof fn lemma_champions_played_step(gs: Seq<RecentGame>, i: int)
    requires
        0 <= i < gs.len(),
    ensures
        champions_played(gs.take(i + 1)) == champions_played(gs.take(i)).insert(gs[i].champion_id),
{
    let a = gs.take(i + 1).map_values(|g: RecentGame| g.champion_id);
    let b = gs.take(i).map_values(|g: RecentGame| g.champion_id);
    assert(a =~= b.push(gs[i].champion_id));
    assert forall|x: u32| a.to_set().contains(x) <==> b.to_set().insert(gs[i].champion_id).contains(x) by {
        if a.to_set().contains(x) {
            let k = choose|k: int| 0 <= k < a.len() && a[k] == x;
            if k < b.len() {
                assert(b[k] == x);
            }
        }
        if b.to_set().contains(x) {
            let k = choose|k: int| 0 <= k < b.len() && b[k] == x;
            assert(a[k] == x);
        }
        if x == gs[i].champion_id {
            assert(a[i] == x);
        }
    }
    assert(a.to_set() =~= b.to_set().insert(gs[i].champion_id));
}

/// The totals of a list of games.
pub fn summarize_live_games(games: &Vec<RecentGame>) -> (r: PlayerTotals)
    requires
        games@.len() <= u32::MAX,
    ensures
        live_totals_spec(r, games@),
{
    let ghost gs = games@;
    let n = games.len();
    let mut wins: usize = 0;
    let mut kills: u64 = 0;
    let mut deaths: u64 = 0;
    let mut assists: u64 = 0;
    let mut ids: Vec<u32> = Vec::new();
    let mut counts: Vec<usize> = Vec::new();
    let mut i: usize = 0;
    proof {
        lemma_recent_sum_bound(gs, r_kills(), u32::MAX as nat);
        lemma_recent_sum_bound(gs, r_deaths(), u32::MAX as nat);
        lemma_recent_sum_bound(gs, r_assists(), u32::MAX as nat);
        assert(gs.len() * (u32::MAX as nat) <= u64::MAX) by (nonlinear_arith)
            requires
                gs.len() <= u32::MAX,
        ;
        assert(champions_played(gs.take(0)) =~= Set::<u32>::empty());
    }
    while i < n
        invariant
            n == gs.len(),
            gs == games@,
            n <= u32::MAX,
            i <= n,
            wins == recent_sum(gs.take(i as int), r_win()),
            kills == recent_sum(gs.take(i as int), r_kills()),
            deaths == recent_sum(gs.take(i as int), r_deaths()),
            assists == recent_sum(gs.take(i as int), r_assists()),
            recent_sum(gs, r_kills()) <= u64::MAX,
            recent_sum(gs, r_deaths()) <= u64::MAX,
            recent_sum(gs, r_assists()) <= u64::MAX,
            ids@.len() == counts@.len(),
            ids@.no_duplicates(),
            ids@.to_set() == champions_played(gs.take(i as int)),
            forall|k: int| 0 <= k < ids@.len() ==> #[trigger] counts@[k] == champion_games(gs.take(i as int), ids@[k]),
            forall|k: int| 0 <= k < counts@.len() ==> #[trigger] counts@[k] <= i,
        decreases n - i,
    {
        let g = &games[i];
        let ghost pre = gs.take(i as int);
        let ghost post = gs.take(i + 1);
        proof {
            assert(post.drop_last() =~= pre);
            assert(post.last() == *g);
            lemma_recent_sum_bound(pre, r_win(), 1);
            lemma_recent_prefix(gs, r_kills(), i + 1);
            lemma_recent_prefix(gs, r_deaths(), i + 1);
            lemma_recent_prefix(gs, r_assists(), i + 1);
            lemma_champions_played_step(gs, i as int);
        }
        if g.win {
            wins = wins + 1;
        }
        kills = kills + g.kills as u64;
        deaths = deaths + g.deaths as u64;
        assists = assists + g.assists as u64;
        let c = g.champion_id;
        let mut k: usize = 0;
        while k < ids.len() && ids[k] != c
            invariant
                k <= ids@.len(),
                forall|j: int| 0 <= j < k ==> ids@[j] != c,
            decreases ids@.len() - k,
        {
            k = k + 1;
        }
        let ghost old_ids = ids@;
        let ghost old_counts = counts@;
        if k < ids.len() {
            let v = counts[k] + 1;
            counts.set(k, v);
            proof {
                assert(ids@.to_set().insert(c) =~= ids@.to_set()) by {
                    assert(ids@.to_set().contains(ids@[k as int]));
                }
            }
        } else {
            ids.push(c);
            counts.push(1);
            proof {
                lemma_u32_to_set_push(old_ids, c);
                assert(ids@.no_duplicates()) by {
                    assert forall|a: int, b: int| 0 <= a < b < ids@.len() implies ids@[a] != ids@[b] by {
                        if b == old_ids.len() {
                            assert(ids@[a] == old_ids[a]);
                        }
                    }
                }
                assert(!old_ids.to_set().contains(c));
                assert(champion_games(pre, c) == 0) by {
                    lemma_champion_games_zero(pre, c);
                }
            }
        }
        proof {
            assert forall|j: int| 0 <= j < ids@.len() implies #[trigger] counts@[j] == champion_games(post, ids@[j]) by {
                if j < old_ids.len() {
                    assert(ids@[j] == old_ids[j]);
                }
            }
        }
        i = i + 1;
    }
    assert(gs.take(n as int) =~= gs);
    proof {
        ids@.unique_seq_to_set();
        lemma_recent_sum_bound(gs, r_win(), 1);
    }
    let mut best: Option<u32> = None;
    let mut best_count: usize = 0;
    let mut k: usize = 0;
    while k < ids.len()
        invariant
            ids@.len() == counts@.len(),
            k <= ids@.len(),
            ids@.to_set() == champions_played(gs),
            forall|j: int| 0 <= j < ids@.len() ==> #[trigger] counts@[j] == champion_games(gs, ids@[j]),
            k == 0 <==> best is None,
            best matches Some(c) ==> champions_played(gs).contains(c) && best_count == champion_games(gs, c)
                && forall|j: int| 0 <= j < k ==> #[trigger] counts@[j] < best_count || (counts@[j] == best_count
                    && ids@[j] <= c),
        decreases ids@.len() - k,
    {
        let better = match best {
            None => true,
            Some(c) => counts[k] > best_count || (counts[k] == best_count && ids[k] > c),
        };
        if better {
            best = Some(ids[k]);
            best_count = counts[k];
            proof {
                assert(ids@.to_set().contains(ids@[k as int]));
            }
        }
        k = k + 1;
    }
    proof {
        if let Some(c) = best {
            assert forall|c2: u32| #[trigger] champions_played(gs).contains(c2) implies champion_games(gs, c2)
                < champion_games(gs, c) || (champion_games(gs, c2) == champion_games(gs, c) && c2 <= c) by {
                assert(ids@.to_set().contains(c2));
                let j = choose|j: int| 0 <= j < ids@.len() && ids@[j] == c2;
                assert(counts@[j] == champion_games(gs, c2));
            }
        } else {
            if gs.len() > 0 {
                lemma_champions_played_step(gs, 0);
                assert(champions_played(gs.take(1)).contains(gs[0].champion_id));
                assert(ids@.len() > 0) by {
                    lemma_played_monotone(gs, 1);
                    assert(champions_played(gs).contains(gs[0].champion_id));
                    assert(ids@.to_set().contains(gs[0].champion_id));
                }
            }
        }
    }
    PlayerTotals {
        games: n,
        wins,
        losses: n - wins,
        kills,
        deaths,
        assists,
        unique_champions: ids.len(),
        most_played_champion_id: best,
    }
}

proof fn lemma_recent_prefix(gs: Seq<RecentGame>, f: spec_fn(RecentGame) -> nat, k: int)
    requires
        0 <= k <= gs.len(),
    ensures
        recent_sum(gs.take(k), f) <= recent_sum(gs, f),
    decreases gs.len() - k,
{
    if k < gs.len() {
        lemma_recent_prefix(gs, f, k + 1);
        assert(gs.take(k + 1).drop_last() =~= gs.take(k));
    } else {
        assert(gs.take(k) =~= gs);
    }
}

proof fn lemma_u32_to_set_push(s: Seq<u32>, x: u32)
    ensures
        s.push(x).to_set() == s.to_set().insert(x),
{
    assert forall|y: u32| s.push(x).to_set().contains(y) <==> s.to_set().insert(x).contains(y) by {
        if s.push(x).to_set().contains(y) {
            let j = choose|j: int| 0 <= j < s.push(x).len() && s.push(x)[j] == y;
            if j < s.len() {
                assert(s[j] == y);
            }
        }
        if s.to_set().contains(y) {
            let j = choose|j: int| 0 <= j < s.len() && s[j] == y;
            assert(s.push(x)[j] == y);
        }
        if y == x {
            assert(s.push(x)[s.len() as int] == y);
        }
    }
    assert(s.push(x).to_set() =~= s.to_set().insert(x));
}

proof fn lemma_champion_games_zero(gs: Seq<RecentGame>, c: u32)
    requires
        !champions_played(gs).contains(c),
    ensures
        champion_games(gs, c) == 0,
    decreases gs.len(),
{
    if gs.len() > 0 {
        let d = gs.drop_last();
        assert(gs.last().champion_id != c) by {
            let m = gs.map_values(|g: RecentGame| g.champion_id);
            assert(m[gs.len() - 1] == gs.last().champion_id);
        }
        assert(!champions_played(d).contains(c)) by {
            if champions_played(d).contains(c) {
                let md = d.map_values(|g: RecentGame| g.champion_id);
                let j = choose|j: int| 0 <= j < md.len() && md[j] == c;
                let m = gs.map_values(|g: RecentGame| g.champion_id);
                assert(m[j] == c);
            }
        }
        lemma_champion_games_zero(d, c);
    }
}

proof fn lemma_played_monotone(gs: Seq<RecentGame>, k: int)
    requires
        0 <= k <= gs.len(),
    ensures
        champions_played(gs.take(k)).subset_of(champions_played(gs)),
{
    assert forall|x: u32| champions_played(gs.take(k)).contains(x) implies champions_played(gs).contains(x) by {
        let mt = gs.take(k).map_values(|g: RecentGame| g.champion_id);
        let j = choose|j: int| 0 <= j < mt.len() && mt[j] == x;
        let m = gs.map_values(|g: RecentGame| g.champion_id);
        assert(m[j] == x);
    }
}

/// The past games shown for the queue being played: long enough and fitting the filter.
pub open spec fn kept_games(gs: Seq<RecentGame>, f: LiveQueueFilter) -> Seq<RecentGame>
    decreases gs.len(),
{
    if gs.len() == 0 {
        Seq::empty()
    } else {
        let rest = kept_games(gs.drop_last(), f);
        let g = gs.last();
        if g.game_duration >= LIVE_MIN_VALID_GAME_DURATION_SECONDS && filter_matches_spec(
            f,
            g.queue_id,
            g.game_mode@,
        ) {
            rest.push(g)
        } else {
            rest
        }
    }
}

/// The first `n` elements of `s`, or all of them when there are fewer.
pub open spec fn first_n<T>(s: Seq<T>, n: nat) -> Seq<T> {
    if s.len() <= n {
        s
    } else {
        s.take(n as int)
    }
}

/// The past games shown for a player of the game in progress are at most
/// `n`, each long enough and of the queue being played.
pub proof fn lemma_shown_games_fit(gs: Seq<RecentGame>, f: LiveQueueFilter, n: nat)
    ensures
        first_n(kept_games(gs, f), n).len() <= n,
        forall|k: int|
            0 <= k < first_n(kept_games(gs, f), n).len() ==> {
                &&& (#[trigger] first_n(kept_games(gs, f), n)[k]).game_duration >= LIVE_MIN_VALID_GAME_DURATION_SECONDS
                &&& filter_matches_spec(f, first_n(kept_games(gs, f), n)[k].queue_id, first_n(kept_games(gs, f), n)[k].game_mode@)
            },
{
    lemma_kept_games_fit(gs, f);
}

proof fn lemma_kept_games_fit(gs: Seq<RecentGame>, f: LiveQueueFilter)
    ensures
        forall|k: int|
            0 <= k < kept_games(gs, f).len() ==> {
                &&& (#[trigger] kept_games(gs, f)[k]).game_duration >= LIVE_MIN_VALID_GAME_DURATION_SECONDS
                &&& filter_matches_spec(f, kept_games(gs, f)[k].queue_id, kept_games(gs, f)[k].game_mode@)
            },
    decreases gs.len(),
{
    if gs.len() > 0 {
        lemma_kept_games_fit(gs.drop_last(), f);
        let rest = kept_games(gs.drop_last(), f);
        assert forall|k: int| 0 <= k < kept_games(gs, f).len() implies {
            &&& (#[trigger] kept_games(gs, f)[k]).game_duration >= LIVE_MIN_VALID_GAME_DURATION_SECONDS
            &&& filter_matches_spec(f, kept_games(gs, f)[k].queue_id, kept_games(gs, f)[k].game_mode@)
        } by {
            if k < rest.len() {
                assert(kept_games(gs, f)[k] == rest[k]);
            }
        }
    }
}

/// A player's statistics cut to the queue being played: the first
/// `display_depth` of the long enough past games that fit the filter, their
/// totals, and no champion list.
pub fn filter_live_stats(stats: PlayerAnalysis, queue_filter: LiveQueueFilter, display_depth: usize) -> (r:
    PlayerAnalysis)
    requires
        stats.recent_games@.len() <= u32::MAX,
    ensures
        ({
            let shown = first_n(kept_games(stats.recent_games@, queue_filter), display_depth as nat);
            &&& r.summoner == stats.summoner
            &&& r.depth_requested == display_depth
            &&& r.depth_loaded == shown.len()
            &&& r.recent_games@ == shown
            &&& live_totals_spec(r.totals, shown)
            &&& r.champions@.len() == 0
        }),
{
    let ghost orig = stats.recent_games@;
    let PlayerAnalysis { summoner, depth_requested: _, depth_loaded: _, totals: _, champions: _, recent_games } =
        stats;
    let mut rest = recent_games;
    let n = rest.len();
    let mut out: Vec<RecentGame> = Vec::new();
    let mut i: usize = 0;
    while i < n
        invariant
            n == orig.len(),
            i <= n,
            rest@ == orig.skip(i as int),
            out@ == first_n(kept_games(orig.take(i as int), queue_filter), display_depth as nat),
        decreases n - i,
    {
        assert(rest@[0] == orig[i as int]);
        let g = rest.remove(0);
        assert(rest@ =~= orig.skip(i + 1));
        assert(orig.take(i + 1).drop_last() =~= orig.take(i as int));
        assert(orig.take(i + 1).last() == g);
        let ghost kept = kept_games(orig.take(i as int), queue_filter);
        if g.game_duration >= LIVE_MIN_VALID_GAME_DURATION_SECONDS && queue_filter.matches(&g) {
            if out.len() < display_depth {
                out.push(g);
            } else {
                assert(kept.push(g).take(display_depth as int) =~= kept.take(display_depth as int));
            }
        }
        i = i + 1;
    }
    assert(orig.take(n as int) =~= orig);
    proof {
        lemma_kept_len(orig, queue_filter);
    }
    let totals = summarize_live_games(&out);
    PlayerAnalysis {
        summoner,
        depth_requested: display_depth,
        depth_loaded: out.len(),
        totals,
        champions: Vec::new(),
        recent_games: out,
    }
}

proof fn lemma_kept_len(gs: Seq<RecentGame>, f: LiveQueueFilter)
    ensures
        kept_games(gs, f).len() <= gs.len(),
    decreases gs.len(),
{
    if gs.len() > 0 {
        lemma_kept_len(gs.drop_last(), f);
    }
}

/// The name shown for a player whose summoner could not be loaded: the
/// trimmed fallback name, or `玩家` and the first eight characters of the PUUID.
pub open spec fn fallback_name_spec(seed: LivePlayerSeed) -> Seq<char> {
    if trim_seq(seed.fallback_name@).len() == 0 {
        "玩家 "@ + first_n(seed.puuid@, 8)
    } else {
        trim_seq(seed.fallback_name@)
    }
}

pub fn fallback_live_summoner(seed: &LivePlayerSeed) -> (r: SummonerInfo)
    ensures
        r.display_name@ == fallback_name_spec(*seed),
        r.internal_name@ == fallback_name_spec(*seed),
        r.puuid == seed.puuid,
        r.summoner_id == seed.summoner_id,
        r.game_name@.len() == 0,
        r.tag_line@.len() == 0,
        r.profile_icon_id == 0,
        r.summoner_level == 0,
        r.privacy@.len() == 0,
{
    let name = if is_blank(seed.fallback_name.as_str()) {
        let mut prefix = String::new();
        let p = seed.puuid.as_str();
        let n = p.unicode_len();
        let mut k: usize = 0;
        while k < n && k < 8
            invariant
                n == p@.len(),
                k <= n,
                k <= 8,
                prefix@ == p@.take(k as int),
            decreases 8 - k,
        {
            push_char(&mut prefix, p.get_char(k));
            assert(prefix@ =~= p@.take(k + 1));
            k = k + 1;
        }
        assert(prefix@ =~= first_n(p@, 8));
        proof {
            reveal_strlit("玩家 ");
        }
        concat("玩家 ", prefix.as_str())
    } else {
        trim(seed.fallback_name.as_str())
    };
    SummonerInfo {
        display_name: name.clone(),
        game_name: String::new(),
        tag_line: String::new(),
        internal_name: name,
        profile_icon_id: 0,
        puuid: seed.puuid.clone(),
        summoner_id: seed.summoner_id,
        summoner_level: 0,
        privacy: String::new(),
    }
}

/// How many past games are loaded per round for a player of the game in progress.
pub const LIVE_SCAN_BATCH_DEPTH: usize = 20;

/// The most past games loaded for a player of the game in progress.
pub const LIVE_MAX_SCAN_DEPTH: usize = 100;

/// The most past games shown for a player of the game in progress.
pub const LIVE_MATCH_LIMIT: usize = 50;

/// How many past games are shown: the requested depth, clamped, at most 50.
pub fn live_display_depth(depth: usize) -> (r: usize)
    ensures
        r == if depth < 1 {
            1
        } else if depth > LIVE_MATCH_LIMIT {
            LIVE_MATCH_LIMIT
        } else {
            depth
        },
{
    let d = normalize_depth(depth);
    if d < LIVE_MATCH_LIMIT {
        d
    } else {
        LIVE_MATCH_LIMIT
    }
}

/// After loading `scan_depth` games, of which `loaded` came back and `kept`
/// fit the queue: stop (`None`) when enough are kept, the limit is reached or
/// the player has no more games; else load 20 more, up to 100.
pub fn live_scan_next(scan_depth: usize, loaded: usize, kept: usize, display_depth: usize) -> (r: Option<usize>)
    ensures
        r == if kept >= display_depth || scan_depth >= LIVE_MAX_SCAN_DEPTH || loaded < scan_depth {
            None
        } else {
            Some(
                if scan_depth + LIVE_SCAN_BATCH_DEPTH < LIVE_MAX_SCAN_DEPTH {
                    (scan_depth + LIVE_SCAN_BATCH_DEPTH) as usize
                } else {
                    LIVE_MAX_SCAN_DEPTH
                },
            )
        },
{
    if kept >= display_depth || scan_depth >= LIVE_MAX_SCAN_DEPTH || loaded < scan_depth {
        None
    } else if scan_depth + LIVE_SCAN_BATCH_DEPTH < LIVE_MAX_SCAN_DEPTH {
        Some(scan_depth + LIVE_SCAN_BATCH_DEPTH)
    } else {
        Some(LIVE_MAX_SCAN_DEPTH)
    }
}

/// What the client's game phase allows to show.
#[derive(Debug, Clone, Copy, PartialEq, Eq, Structural)]
pub enum LiveStage {
    ChampSelect,
    InGame,
    Unavailable,
}

pub open spec fn live_stage_spec(phase: Seq<char>) -> LiveStage {
    if phase == "ChampSelect"@ {
        LiveStage::ChampSelect
    } else if phase == "GameStart"@ || phase == "InProgress"@ || phase == "Reconnect"@ || phase
        == "WaitingForStats"@ || phase == "PreEndOfGame"@ || phase == "EndOfGame"@ {
        LiveStage::InGame
    } else {
        LiveStage::Unavailable
    }
}

/// The phases of a game being played or just ended.
pub open spec fn in_game_phase(phase: Seq<char>) -> bool {
    phase =~= "GameStart"@ || phase =~= "InProgress"@ || phase =~= "Reconnect"@ || phase =~= "WaitingForStats"@
        || phase =~= "PreEndOfGame"@ || phase =~= "EndOfGame"@
}

/// Champion select shows champion select; the six phases of a game being
/// played or just ended show the game; every other phase shows nothing.
pub proof fn lemma_live_stage_phases(phase: Seq<char>)
    ensures
        phase =~= "ChampSelect"@ <==> live_stage_spec(phase) == LiveStage::ChampSelect,
        in_game_phase(phase) <==> live_stage_spec(phase) == LiveStage::InGame,
        !(phase =~= "ChampSelect"@) && !in_game_phase(phase) <==> live_stage_spec(phase) == LiveStage::Unavailable,
{
    reveal_strlit("ChampSelect");
    reveal_strlit("GameStart");
    reveal_strlit("InProgress");
    reveal_strlit("Reconnect");
    reveal_strlit("WaitingForStats");
    reveal_strlit("PreEndOfGame");
    reveal_strlit("EndOfGame");
    assert("ChampSelect"@.len() == 11);
    assert("GameStart"@.len() == 9);
    assert("InProgress"@.len() == 10);
    assert("Reconnect"@.len() == 9);
    assert("WaitingForStats"@.len() == 15);
    assert("PreEndOfGame"@.len() == 12);
    assert("EndOfGame"@.len() == 9);
}

pub fn live_stage(phase: &str) -> (r: LiveStage)
    ensures
        r == live_stage_spec(phase@),
        r == LiveStage::ChampSelect <==> phase@ =~= "ChampSelect"@,
        r == LiveStage::InGame <==> in_game_phase(phase@),
{
    proof {
        lemma_live_stage_phases(phase@);
        reveal_strlit("ChampSelect");
        reveal_strlit("GameStart");
        reveal_strlit("InProgress");
        reveal_strlit("Reconnect");
        reveal_strlit("WaitingForStats");
        reveal_strlit("PreEndOfGame");
        reveal_strlit("EndOfGame");
    }
    if str_eq(phase, "ChampSelect") {
        LiveStage::ChampSelect
    } else if str_eq(phase, "GameStart") || str_eq(phase, "InProgress") || str_eq(phase, "Reconnect")
        || str_eq(phase, "WaitingForStats") || str_eq(phase, "PreEndOfGame") || str_eq(phase, "EndOfGame") {
        LiveStage::InGame
    } else {
        LiveStage::Unavailable
    }
}

/// The queue of the game in progress, each part left out when zero or empty.
#[derive(Debug)]
pub struct LiveQueueInfo {
    pub queue_id: Option<u32>,
    pub queue_type: Option<String>,
    pub game_mode: Option<String>,
    pub game_id: Option<u64>,
}

pub fn live_queue_info(session: &GameflowSession) -> (r: LiveQueueInfo)
    ensures
        r.queue_id == if session.game_data.queue.id != 0 {
            Some(session.game_data.queue.id)
        } else {
            None
        },
        match r.queue_type {
            Some(t) => t@ == session.game_data.queue.type_@ && t@.len() > 0,
            None => session.game_data.queue.type_@.len() == 0,
        },
        match r.game_mode {
            Some(m) => m@ == session.game_data.queue.game_mode@ && m@.len() > 0,
            None => session.game_data.queue.game_mode@.len() == 0,
        },
        r.game_id == if session.game_data.game_id != 0 {
            Some(session.game_data.game_id)
        } else {
            None
        },
{
    let q = &session.game_data.queue;
    LiveQueueInfo {
        queue_id: if q.id != 0 {
            Some(q.id)
        } else {
            None
        },
        queue_type: if q.type_.as_str().unicode_len() > 0 {
            Some(q.type_.clone())
        } else {
            None
        },
        game_mode: if q.game_mode.as_str().unicode_len() > 0 {
            Some(q.game_mode.clone())
        } else {
            None
        },
        game_id: if session.game_data.game_id != 0 {
            Some(session.game_data.game_id)
        } else {
            None
        },
    }
}

/// Whether the queue type is the arena (`CHERRY`), where all players form one list.
pub fn is_cherry(queue_type: &Option<String>) -> (r: bool)
    ensures
        r == (queue_type is Some && queue_type->0@ == "CHERRY"@),
{
    proof {
        reveal_strlit("CHERRY");
    }
    match queue_type {
        Some(t) => str_eq(t.as_str(), "CHERRY"),
        None => false,
    }
}

/// How the two sides of a game in progress are shown.
#[derive(Debug)]
pub struct SideOrder {
    pub red_first: bool,
    pub first_name: String,
    pub second_name: String,
}

/// Our side first, named `我方` / `敌方`, when the current player is found
/// (on red first); otherwise blue first, named `蓝方` / `红方`.
pub fn live_side_order(blue: &Vec<LivePlayerSeed>, red: &Vec<LivePlayerSeed>, current_puuid: Option<&str>) -> (r:
    SideOrder)
    ensures
        ({
            let on_red = current_puuid is Some && exists|k: int|
                0 <= k < red@.len() && eq_ignore_case_seq(#[trigger] red@[k].puuid@, current_puuid->0@);
            let on_blue = current_puuid is Some && exists|k: int|
                0 <= k < blue@.len() && eq_ignore_case_seq(#[trigger] blue@[k].puuid@, current_puuid->0@);
            &&& r.red_first == on_red
            &&& r.first_name@ == if on_red || on_blue {
                "我方"@
            } else {
                "蓝方"@
            }
            &&& r.second_name@ == if on_red || on_blue {
                "敌方"@
            } else {
                "红方"@
            }
        }),
{
    let (on_red, on_blue) = match current_puuid {
        Some(p) => (player_list_contains_puuid(red, p), player_list_contains_puuid(blue, p)),
        None => (false, false),
    };
    if on_red || on_blue {
        SideOrder { red_first: on_red, first_name: owned("我方"), second_name: owned("敌方") }
    } else {
        SideOrder { red_first: false, first_name: owned("蓝方"), second_name: owned("红方") }
    }
}

/// Whether some listed selection has PUUID `puuid` and a real PUUID.
pub open spec fn selected_puuid(sels: Seq<PlayerChampionSelection>, puuid: Seq<char>) -> bool {
    exists|k: int| 0 <= k < sels.len() && real_puuid_spec(#[trigger] sels[k].puuid@) && sels[k].puuid@ == puuid
}

/// The seeds whose PUUID is selected, in order.
pub open spec fn selected_seeds(ps: Seq<LivePlayerSeed>, sels: Seq<PlayerChampionSelection>) -> Seq<LivePlayerSeed>
    decreases ps.len(),
{
    if ps.len() == 0 {
        Seq::empty()
    } else if selected_puuid(sels, ps.last().puuid@) {
        selected_seeds(ps.drop_last(), sels).push(ps.last())
    } else {
        selected_seeds(ps.drop_last(), sels)
    }
}

/// In the arena, keeps the players that the champion selections list, when
/// they list any real player; otherwise keeps everyone.
pub fn retain_selected_players(players: Vec<LivePlayerSeed>, sels: &Vec<PlayerChampionSelection>) -> (r: Vec<
    LivePlayerSeed,
>)
    ensures
        r@ == if exists|k: int| 0 <= k < sels@.len() && real_puuid_spec(#[trigger] sels@[k].puuid@) {
            selected_seeds(players@, sels@)
        } else {
            players@
        },
{
    let mut any = false;
    let mut j: usize = 0;
    while j < sels.len()
        invariant
            j <= sels@.len(),
            any == exists|k: int| 0 <= k < j && real_puuid_spec(#[trigger] sels@[k].puuid@),
        decreases sels@.len() - j,
    {
        if is_real_puuid(sels[j].puuid.as_str()) {
            any = true;
        }
        j = j + 1;
    }
    if !any {
        return players;
    }
    let ghost orig = players@;
    let mut rest = players;
    let n = rest.len();
    let mut out: Vec<LivePlayerSeed> = Vec::new();
    let mut i: usize = 0;
    while i < n
        invariant
            n == orig.len(),
            i <= n,
            rest@ == orig.skip(i as int),
            out@ == selected_seeds(orig.take(i as int), sels@),
        decreases n - i,
    {
        assert(rest@[0] == orig[i as int]);
        let p = rest.remove(0);
        assert(rest@ =~= orig.skip(i + 1));
        assert(orig.take(i + 1).drop_last() =~= orig.take(i as int));
        assert(orig.take(i + 1).last() == p);
        let mut found = false;
        let mut k: usize = 0;
        while k < sels.len()
            invariant
                k <= sels@.len(),
                found == exists|q: int|
                    0 <= q < k && real_puuid_spec(#[trigger] sels@[q].puuid@) && sels@[q].puuid@ == p.puuid@,
            decreases sels@.len() - k,
        {
            if is_real_puuid(sels[k].puuid.as_str()) && str_eq(sels[k].puuid.as_str(), p.puuid.as_str()) {
                found = true;
            }
            k = k + 1;
        }
        if found {
            out.push(p);
        }
        i = i + 1;
    }
    assert(orig.take(n as int) =~= orig);
    out
}

/// A player of the game in progress with what could be loaded: the
/// statistics, or an error naming what failed.
pub fn live_player_from_seed(
    seed: LivePlayerSeed,
    summoner: SummonerInfo,
    stats: Result<PlayerAnalysis, String>,
    identity_error: Option<String>,
) -> (r: LivePlayer)
    ensures
        r.puuid == seed.puuid,
        r.champion_id == seed.champion_id,
        r.champion_pick_intent == seed.champion_pick_intent,
        r.position == seed.position,
        r.selected_role == seed.selected_role,
        r.summoner_id == seed.summoner_id,
        r.team_participant_id == seed.team_participant_id,
        r.is_placeholder == seed.is_placeholder,
        r.premade is None,
        r.summoner == Some(summoner),
        match stats {
            Ok(s) => r.stats == Some(s) && r.error is None,
            Err(e) => r.stats is None && r.error is Some && r.error->0@ == match identity_error {
                Some(ie) => "召唤师信息："@ + ie@ + "；战绩："@ + e@,
                None => e@,
            },
        },
{
    let (st, error) = match stats {
        Ok(s) => (Some(s), None),
        Err(e) => {
            let msg = match identity_error {
                Some(ie) => {
                    let a = concat("召唤师信息：", ie.as_str());
                    let b = concat(a.as_str(), "；战绩：");
                    concat(b.as_str(), e.as_str())
                },
                None => e,
            };
            (None, Some(msg))
        },
    };
    LivePlayer {
        puuid: seed.puuid,
        champion_id: seed.champion_id,
        champion_pick_intent: seed.champion_pick_intent,
        position: seed.position,
        selected_role: seed.selected_role,
        summoner_id: seed.summoner_id,
        team_participant_id: seed.team_participant_id,
        is_placeholder: seed.is_placeholder,
        premade: None,
        summoner: Some(summoner),
        stats: st,
        error,
    }
}

/// The champion-select players with a real PUUID, in order.
pub open spec fn named_cs_players(ps: Seq<ChampSelectPlayer>) -> Seq<ChampSelectPlayer>
    decreases ps.len(),
{
    if ps.len() == 0 {
        Seq::empty()
    } else if real_puuid_spec(ps.last().puuid@) {
        named_cs_players(ps.drop_last()).push(ps.last())
    } else {
        named_cs_players(ps.drop_last())
    }
}

/// The seeds of the champion-select players with a real PUUID, in order.
pub fn champ_select_seeds(players: Vec<ChampSelectPlayer>, team_participant_map: &Vec<(String, u32)>) -> (r: Vec<
    LivePlayerSeed,
>)
    ensures
        ({
            let named = named_cs_players(players@);
            &&& r@.len() == named.len()
            &&& forall|k: int|
                0 <= k < named.len() ==> champ_select_seed_spec(
                    #[trigger] r@[k],
                    named[k],
                    entry_views(team_participant_map@),
                )
        }),
{
    let ghost orig = players@;
    let mut rest = players;
    let n = rest.len();
    let mut out: Vec<LivePlayerSeed> = Vec::new();
    let mut i: usize = 0;
    while i < n
        invariant
            n == orig.len(),
            i <= n,
            rest@ == orig.skip(i as int),
            out@.len() == named_cs_players(orig.take(i as int)).len(),
            forall|k: int|
                0 <= k < out@.len() ==> champ_select_seed_spec(
                    #[trigger] out@[k],
                    named_cs_players(orig.take(i as int))[k],
                    entry_views(team_participant_map@),
                ),
        decreases n - i,
    {
        assert(rest@[0] == orig[i as int]);
        let p = rest.remove(0);
        assert(rest@ =~= orig.skip(i + 1));
        assert(orig.take(i + 1).drop_last() =~= orig.take(i as int));
        assert(orig.take(i + 1).last() == p);
        if is_real_puuid(p.puuid.as_str()) {
            let seed = champ_select_seed(p, team_participant_map);
            out.push(seed);
        }
        i = i + 1;
    }
    assert(orig.take(n as int) =~= orig);
    out
}

/// A team to show: its name and the players to load for it.
#[derive(Debug)]
pub struct TeamPlan {
    pub name: String,
    pub seeds: Vec<LivePlayerSeed>,
}

/// The name and the seeds of a planned team.
pub open spec fn plan_view(p: TeamPlan) -> (Seq<char>, Seq<LivePlayerSeed>) {
    (p.name@, p.seeds@)
}

/// The name of the one list of all players in the arena.
pub open spec fn all_players_name() -> Seq<char> {
    "全部玩家"@
}

/// The teams of champion select: in the arena one list of all players, ours
/// first; otherwise our team `我方` and theirs `敌方`.
pub fn champ_select_teams(cherry: bool, ours: Vec<LivePlayerSeed>, theirs: Vec<LivePlayerSeed>) -> (r: Vec<TeamPlan>)
    ensures
        cherry ==> r@.map_values(|p: TeamPlan| plan_view(p)) == seq![(all_players_name(), ours@ + theirs@)],
        !cherry ==> r@.map_values(|p: TeamPlan| plan_view(p)) == seq![("我方"@, ours@), ("敌方"@, theirs@)],
{
    let mut r: Vec<TeamPlan> = Vec::new();
    if cherry {
        let mut all = ours;
        let mut rest = theirs;
        all.append(&mut rest);
        r.push(TeamPlan { name: owned("全部玩家"), seeds: all });
    } else {
        r.push(TeamPlan { name: owned("我方"), seeds: ours });
        r.push(TeamPlan { name: owned("敌方"), seeds: theirs });
    }
    assert(r@.map_values(|p: TeamPlan| plan_view(p)) =~= if cherry {
        seq![(all_players_name(), ours@ + theirs@)]
    } else {
        seq![("我方"@, ours@), ("敌方"@, theirs@)]
    });
    r
}

/// Whether the current player is among `ps`, ignoring ASCII case.
pub open spec fn has_current(ps: Seq<LivePlayerSeed>, current_puuid: Option<&str>) -> bool {
    current_puuid is Some && exists|k: int| 0 <= k < ps.len() && eq_ignore_case_seq(#[trigger] ps[k].puuid@, current_puuid->0@)
}

/// The seeds kept in the arena: those that the champion selections list,
/// when they list any real player.
pub open spec fn arena_kept(ps: Seq<LivePlayerSeed>, sels: Seq<PlayerChampionSelection>) -> Seq<LivePlayerSeed> {
    if exists|k: int| 0 <= k < sels.len() && real_puuid_spec(#[trigger] sels[k].puuid@) {
        selected_seeds(ps, sels)
    } else {
        ps
    }
}

/// The teams of a game in progress: in the arena one list of the blue then
/// the red players that the selections keep; otherwise our side first as
/// `我方` / `敌方` (red first when the current player is there), or blue
/// first as `蓝方` / `红方` when the current player is on neither side.
pub fn in_game_teams(
    cherry: bool,
    blue: Vec<LivePlayerSeed>,
    red: Vec<LivePlayerSeed>,
    sels: &Vec<PlayerChampionSelection>,
    current_puuid: Option<&str>,
) -> (r: Vec<TeamPlan>)
    ensures
        cherry ==> r@.map_values(|p: TeamPlan| plan_view(p)) == seq![
            (all_players_name(), arena_kept(blue@, sels@) + arena_kept(red@, sels@)),
        ],
        !cherry ==> r@.map_values(|p: TeamPlan| plan_view(p)) == if has_current(red@, current_puuid) {
            seq![("我方"@, red@), ("敌方"@, blue@)]
        } else if has_current(blue@, current_puuid) {
            seq![("我方"@, blue@), ("敌方"@, red@)]
        } else {
            seq![("蓝方"@, blue@), ("红方"@, red@)]
        },
{
    let mut r: Vec<TeamPlan> = Vec::new();
    if cherry {
        let mut all = retain_selected_players(blue, sels);
        let mut kept_red = retain_selected_players(red, sels);
        all.append(&mut kept_red);
        r.push(TeamPlan { name: owned("全部玩家"), seeds: all });
        assert(r@.map_values(|p: TeamPlan| plan_view(p)) =~= seq![
            (all_players_name(), arena_kept(blue@, sels@) + arena_kept(red@, sels@)),
        ]);
    } else {
        let ghost b = blue@;
        let ghost rd = red@;
        let order = live_side_order(&blue, &red, current_puuid);
        if order.red_first {
            r.push(TeamPlan { name: order.first_name, seeds: red });
            r.push(TeamPlan { name: order.second_name, seeds: blue });
        } else {
            r.push(TeamPlan { name: order.first_name, seeds: blue });
            r.push(TeamPlan { name: order.second_name, seeds: red });
        }
        assert(r@.map_values(|p: TeamPlan| plan_view(p)) =~= if has_current(rd, current_puuid) {
            seq![("我方"@, rd), ("敌方"@, b)]
        } else if has_current(b, current_puuid) {
            seq![("我方"@, b), ("敌方"@, rd)]
        } else {
            seq![("蓝方"@, b), ("红方"@, rd)]
        });
    }
    r
}

} // verus!
