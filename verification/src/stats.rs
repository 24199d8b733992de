//! Per-game records and their aggregation into player statistics.
use vstd::prelude::*;

use crate::models::{Game, IdentityPlayer, Participant, SummonerInfo};
use crate::text::{
    concat, decimal_seq, decimal_string, eq_ignore_case, eq_ignore_case_seq, owned, str_eq, string_views,
};

verus! {

/// Largest number of games a statistics request may ask for.
pub const MAX_DEPTH: usize = 1000;

/// Games shorter than this many seconds are left out of the statistics.
pub const MIN_VALID_GAME_DURATION_SECONDS: i64 = 480;

/// Clamps a requested depth into `1..=MAX_DEPTH`.
pub fn normalize_depth(depth: usize) -> (r: usize)
    ensures
        r == (if depth < 1 { 1 } else if depth > MAX_DEPTH { MAX_DEPTH } else { depth }),
{
    if depth < 1 {
        1
    } else if depth > MAX_DEPTH {
        MAX_DEPTH
    } else {
        depth
    }
}

/// Queues against bots, tutorials and other player-versus-environment modes.
pub open spec fn is_pve_queue_spec(q: u32) -> bool {
    ||| 31 <= q <= 36
    ||| q == 52 || q == 90 || q == 91 || q == 92
    ||| q == 800 || q == 801 || q == 810 || q == 820 || q == 830 || q == 831 || q == 832
    ||| q == 840 || q == 841 || q == 842 || q == 850 || q == 851 || q == 852 || q == 860
    ||| q == 870 || q == 880 || q == 890 || q == 950 || q == 951 || q == 960 || q == 961
    ||| q == 981 || q == 982 || q == 990 || q == 1030 || q == 1031 || q == 1032 || q == 1040
    ||| q == 1041 || q == 1050 || q == 1051 || q == 1060 || q == 1061 || q == 1070 || q == 1071
    ||| q == 1800 || q == 1810 || q == 1820 || q == 1830 || q == 1840 || q == 1850 || q == 1860
    ||| q == 1870 || q == 1880 || q == 1890 || q == 2000 || q == 2010 || q == 2020 || q == 3140
}

pub fn is_pve_queue(queue_id: u32) -> (r: bool)
    ensures
        r == is_pve_queue_spec(queue_id),
{
    match queue_id {
        31 | 32 | 33 | 34 | 35 | 36 | 52 | 90 | 91 | 92 | 800 | 801 | 810 | 820 | 830 | 831 | 832
        | 840 | 841 | 842 | 850 | 851 | 852 | 860 | 870 | 880 | 890 | 950 | 951 | 960 | 961 | 981
        | 982 | 990 | 1030 | 1031 | 1032 | 1040 | 1041 | 1050 | 1051 | 1060 | 1061 | 1070 | 1071
        | 1800 | 1810 | 1820 | 1830 | 1840 | 1850 | 1860 | 1870 | 1880 | 1890 | 2000 | 2010
        | 2020 | 3140 => true,
        _ => false,
    }
}

/// Modes whose players are scored per sub-team rather than per side.
pub open spec fn group_by_subteam_spec(g: Game) -> bool {
    ||| g.game_mode@ == "CHERRY"@
    ||| g.game_mode@ == "STRAWBERRY"@
    ||| g.game_mode@ == "KIWI"@
    ||| g.queue_id == 1700 || g.queue_id == 1710 || g.queue_id == 1711 || g.queue_id == 1712
    ||| g.queue_id == 2400
}

/// The modes that are played in sub-teams: the arena (`CHERRY`, queues
/// 1700, 1710, 1711, 1712) and the ARAM mayhem modes (`STRAWBERRY`, `KIWI`,
/// queue 2400).
pub open spec fn subteam_mode(mode: Seq<char>, queue_id: u32) -> bool {
    mode =~= "CHERRY"@ || mode =~= "STRAWBERRY"@ || mode =~= "KIWI"@ || queue_id == 1700 || queue_id == 1710
        || queue_id == 1711 || queue_id == 1712 || queue_id == 2400
}

/// In a sub-team mode a player with a sub-team counts exactly the players
/// of that sub-team as team-mates; otherwise the players of the same side.
pub proof fn lemma_stat_team_by_mode(g: Game, me: Participant, other: Participant)
    ensures
        subteam_mode(g.game_mode@, g.queue_id) && me.stats.player_subteam_id > 0 ==> (same_stat_team_spec(
            g,
            me,
            other,
        ) <==> me.stats.player_subteam_id == other.stats.player_subteam_id),
        !(subteam_mode(g.game_mode@, g.queue_id) && me.stats.player_subteam_id > 0) ==> (same_stat_team_spec(
            g,
            me,
            other,
        ) <==> me.team_id == other.team_id),
{
}

pub fn should_group_by_subteam(game: &Game) -> (r: bool)
    ensures
        r == group_by_subteam_spec(*game),
        r == subteam_mode(game.game_mode@, game.queue_id),
{
    let mode = game.game_mode.as_str();
    str_eq(mode, "CHERRY") || str_eq(mode, "STRAWBERRY") || str_eq(mode, "KIWI")
        || game.queue_id == 1700 || game.queue_id == 1710 || game.queue_id == 1711
        || game.queue_id == 1712 || game.queue_id == 2400
}

/// Whether `other` counts as a team-mate of `me`: the same sub-team in the
/// sub-team modes (when `me` has one), else the same side.
pub open spec fn same_stat_team_spec(g: Game, me: Participant, other: Participant) -> bool {
    if group_by_subteam_spec(g) && me.stats.player_subteam_id > 0 {
        me.stats.player_subteam_id == other.stats.player_subteam_id
    } else {
        me.team_id == other.team_id
    }
}

pub fn same_stat_team(game: &Game, me: &Participant, other: &Participant) -> (r: bool)
    ensures
        r == same_stat_team_spec(*game, *me, *other),
        r == if subteam_mode(game.game_mode@, game.queue_id) && me.stats.player_subteam_id > 0 {
            me.stats.player_subteam_id == other.stats.player_subteam_id
        } else {
            me.team_id == other.team_id
        },
{
    if should_group_by_subteam(game) && me.stats.player_subteam_id > 0 {
        me.stats.player_subteam_id == other.stats.player_subteam_id
    } else {
        me.team_id == other.team_id
    }
}

/// Sum of `f` over the team-mates of `me` among `ps`.
pub open spec fn team_sum(
    g: Game,
    me: Participant,
    ps: Seq<Participant>,
    f: spec_fn(Participant) -> int,
) -> int
    decreases ps.len(),
{
    if ps.len() == 0 {
        0
    } else {
        team_sum(g, me, ps.drop_last(), f) + if same_stat_team_spec(g, me, ps.last()) {
            f(ps.last())
        } else {
            0
        }
    }
}

/// Largest value of `f` over the team-mates of `me` among `ps`, 0 when none.
pub open spec fn team_max(
    g: Game,
    me: Participant,
    ps: Seq<Participant>,
    f: spec_fn(Participant) -> int,
) -> int
    decreases ps.len(),
{
    if ps.len() == 0 {
        0
    } else {
        let rest = team_max(g, me, ps.drop_last(), f);
        if same_stat_team_spec(g, me, ps.last()) && f(ps.last()) > rest {
            f(ps.last())
        } else {
            rest
        }
    }
}

/// Largest value of `f` over all of `ps`, 0 when empty.
pub open spec fn all_max(ps: Seq<Participant>, f: spec_fn(Participant) -> int) -> int
    decreases ps.len(),
{
    if ps.len() == 0 {
        0
    } else {
        let rest = all_max(ps.drop_last(), f);
        if f(ps.last()) > rest {
            f(ps.last())
        } else {
            rest
        }
    }
}

pub open spec fn f_damage() -> spec_fn(Participant) -> int {
    |p: Participant| p.stats.total_damage_dealt_to_champions as int
}

pub open spec fn f_gold() -> spec_fn(Participant) -> int {
    |p: Participant| p.stats.gold_earned as int
}

pub open spec fn f_mitigated() -> spec_fn(Participant) -> int {
    |p: Participant| p.stats.damage_self_mitigated as int
}

pub open spec fn f_heal() -> spec_fn(Participant) -> int {
    |p: Participant| p.stats.total_heal as int
}

pub open spec fn f_kills() -> spec_fn(Participant) -> int {
    |p: Participant| p.stats.kills as int
}

pub open spec fn f_deaths() -> spec_fn(Participant) -> int {
    |p: Participant| p.stats.deaths as int
}

pub open spec fn f_taken() -> spec_fn(Participant) -> int {
    |p: Participant| p.stats.total_damage_taken as int
}

pub open spec fn f_immobilizations() -> spec_fn(Participant) -> int {
    |p: Participant| p.stats.enemy_champion_immobilizations as int
}

pub open spec fn f_immobilize_kills() -> spec_fn(Participant) -> int {
    |p: Participant| p.stats.immobilize_and_kill_with_ally as int
}

/// Team sums of one participant's team in a game.
#[derive(Clone, Copy, Debug, PartialEq, Eq, Structural)]
pub struct TeamTotals {
    pub damage_to_champions: u32,
    pub gold_earned: u32,
    pub damage_self_mitigated: u32,
    pub total_heal: u32,
    pub kills: u32,
    pub deaths: u32,
    pub total_damage_taken: u32,
    pub enemy_champion_immobilizations: u32,
    pub immobilize_and_kill_with_ally: u32,
}

/// The team sums of `me` in `g`, each over all team-mates including `me`.
pub open spec fn team_totals_spec(g: Game, me: Participant) -> TeamTotals {
    let ps = g.participants@;
    TeamTotals {
        damage_to_champions: team_sum(g, me, ps, f_damage()) as u32,
        gold_earned: team_sum(g, me, ps, f_gold()) as u32,
        damage_self_mitigated: team_sum(g, me, ps, f_mitigated()) as u32,
        total_heal: team_sum(g, me, ps, f_heal()) as u32,
        kills: team_sum(g, me, ps, f_kills()) as u32,
        deaths: team_sum(g, me, ps, f_deaths()) as u32,
        total_damage_taken: team_sum(g, me, ps, f_taken()) as u32,
        enemy_champion_immobilizations: team_sum(g, me, ps, f_immobilizations()) as u32,
        immobilize_and_kill_with_ally: team_sum(g, me, ps, f_immobilize_kills()) as u32,
    }
}

/// Every team sum of `me` in `g` fits in a `u32`, as does its creep score.
pub open spec fn team_sums_fit(g: Game, me: Participant) -> bool {
    let ps = g.participants@;
    &&& team_sum(g, me, ps, f_damage()) <= u32::MAX
    &&& team_sum(g, me, ps, f_gold()) <= u32::MAX
    &&& team_sum(g, me, ps, f_mitigated()) <= u32::MAX
    &&& team_sum(g, me, ps, f_heal()) <= u32::MAX
    &&& team_sum(g, me, ps, f_kills()) <= u32::MAX
    &&& team_sum(g, me, ps, f_deaths()) <= u32::MAX
    &&& team_sum(g, me, ps, f_taken()) <= u32::MAX
    &&& team_sum(g, me, ps, f_immobilizations()) <= u32::MAX
    &&& team_sum(g, me, ps, f_immobilize_kills()) <= u32::MAX
    &&& me.stats.total_minions_killed + me.stats.neutral_minions_killed <= u32::MAX
}

proof fn lemma_team_sum_nonneg(g: Game, me: Participant, ps: Seq<Participant>, f: spec_fn(Participant) -> int)
    requires
        forall|p: Participant| #[trigger] f(p) >= 0,
    ensures
        team_sum(g, me, ps, f) >= 0,
    decreases ps.len(),
{
    if ps.len() > 0 {
        lemma_team_sum_nonneg(g, me, ps.drop_last(), f);
    }
}

/// Sums the team of `me` in `game`.
pub fn team_totals_for_participant(game: &Game, me: &Participant) -> (r: TeamTotals)
    requires
        team_sums_fit(*game, *me),
    ensures
        r == team_totals_spec(*game, *me),
{
    let ps = &game.participants;
    let n = ps.len();
    let mut t = TeamTotals {
        damage_to_champions: 0,
        gold_earned: 0,
        damage_self_mitigated: 0,
        total_heal: 0,
        kills: 0,
        deaths: 0,
        total_damage_taken: 0,
        enemy_champion_immobilizations: 0,
        immobilize_and_kill_with_ally: 0,
    };
    let mut i: usize = 0;
    while i < n
        invariant
            n == ps@.len(),
            ps@ == game.participants@,
            i <= n,
            team_sums_fit(*game, *me),
            t.damage_to_champions == team_sum(*game, *me, ps@.take(i as int), f_damage()),
            t.gold_earned == team_sum(*game, *me, ps@.take(i as int), f_gold()),
            t.damage_self_mitigated == team_sum(*game, *me, ps@.take(i as int), f_mitigated()),
            t.total_heal == team_sum(*game, *me, ps@.take(i as int), f_heal()),
            t.kills == team_sum(*game, *me, ps@.take(i as int), f_kills()),
            t.deaths == team_sum(*game, *me, ps@.take(i as int), f_deaths()),
            t.total_damage_taken == team_sum(*game, *me, ps@.take(i as int), f_taken()),
            t.enemy_champion_immobilizations == team_sum(
                *game,
                *me,
                ps@.take(i as int),
                f_immobilizations(),
            ),
            t.immobilize_and_kill_with_ally == team_sum(
                *game,
                *me,
                ps@.take(i as int),
                f_immobilize_kills(),
            ),
        decreases n - i,
    {
        let ghost pre = ps@.take(i as int);
        let ghost post = ps@.take(i + 1);
        assert(post.drop_last() =~= pre);
        assert(post.last() == ps@[i as int]);
        proof {
            lemma_team_sum_prefix_le(*game, *me, ps@, i + 1, f_damage());
            lemma_team_sum_prefix_le(*game, *me, ps@, i + 1, f_gold());
            lemma_team_sum_prefix_le(*game, *me, ps@, i + 1, f_mitigated());
            lemma_team_sum_prefix_le(*game, *me, ps@, i + 1, f_heal());
            lemma_team_sum_prefix_le(*game, *me, ps@, i + 1, f_kills());
            lemma_team_sum_prefix_le(*game, *me, ps@, i + 1, f_deaths());
            lemma_team_sum_prefix_le(*game, *me, ps@, i + 1, f_taken());
            lemma_team_sum_prefix_le(*game, *me, ps@, i + 1, f_immobilizations());
            lemma_team_sum_prefix_le(*game, *me, ps@, i + 1, f_immobilize_kills());
        }
        let c = &ps[i];
        if same_stat_team(game, me, c) {
            t.damage_to_champions = t.damage_to_champions + c.stats.total_damage_dealt_to_champions;
            t.gold_earned = t.gold_earned + c.stats.gold_earned;
            t.damage_self_mitigated = t.damage_self_mitigated + c.stats.damage_self_mitigated;
            t.total_heal = t.total_heal + c.stats.total_heal;
            t.kills = t.kills + c.stats.kills;
            t.deaths = t.deaths + c.stats.deaths;
            t.total_damage_taken = t.total_damage_taken + c.stats.total_damage_taken;
            t.enemy_champion_immobilizations = t.enemy_champion_immobilizations
                + c.stats.enemy_champion_immobilizations;
            t.immobilize_and_kill_with_ally = t.immobilize_and_kill_with_ally
                + c.stats.immobilize_and_kill_with_ally;
        }
        i = i + 1;
    }
    assert(ps@.take(n as int) =~= ps@);
    t
}

/// A prefix of the participants never sums to more than all of them.
proof fn lemma_team_sum_prefix_le(
    g: Game,
    me: Participant,
    ps: Seq<Participant>,
    k: int,
    f: spec_fn(Participant) -> int,
)
    requires
        0 <= k <= ps.len(),
        forall|p: Participant| #[trigger] f(p) >= 0,
    ensures
        team_sum(g, me, ps.take(k), f) <= team_sum(g, me, ps, f),
    decreases ps.len() - k,
{
    if k < ps.len() {
        lemma_team_sum_prefix_le(g, me, ps, k + 1, f);
        assert(ps.take(k + 1).drop_last() =~= ps.take(k));
        lemma_team_sum_nonneg(g, me, ps.take(k), f);
    } else {
        assert(ps.take(k) =~= ps);
    }
}

/// Index of the first element of `s` that satisfies `p`.
pub open spec fn first_index<T>(s: Seq<T>, p: spec_fn(T) -> bool) -> Option<int> {
    if exists|i: int| 0 <= i < s.len() && #[trigger] p(s[i]) {
        Some(
            choose|i: int|
                0 <= i < s.len() && #[trigger] p(s[i]) && forall|j: int| 0 <= j < i ==> !p(s[j]),
        )
    } else {
        None
    }
}

/// `i` is the first index of `s` that satisfies `p`.
proof fn lemma_first_index_at<T>(s: Seq<T>, p: spec_fn(T) -> bool, i: int)
    requires
        0 <= i < s.len(),
        p(s[i]),
        forall|j: int| 0 <= j < i ==> !p(s[j]),
    ensures
        first_index(s, p) == Some(i),
{
    let k = choose|k: int| 0 <= k < s.len() && #[trigger] p(s[k]) && forall|j: int| 0 <= j < k ==> !p(s[j]);
    assert(0 <= k < s.len() && p(s[k]) && forall|j: int| 0 <= j < k ==> !p(s[j]));
    if k < i {
        assert(!p(s[k]));
    }
    if i < k {
        assert(!p(s[i]));
    }
}

/// No element of `s` satisfies `p`.
proof fn lemma_first_index_none<T>(s: Seq<T>, p: spec_fn(T) -> bool)
    requires
        forall|j: int| 0 <= j < s.len() ==> !p(s[j]),
    ensures
        first_index(s, p) is None,
{
}

/// The identity recorded for a participant id, if any: the first that carries it.
pub open spec fn identity_spec(g: Game, participant_id: u32) -> Option<IdentityPlayer> {
    let ids = g.participant_identities@;
    match first_index(ids, |x: crate::models::ParticipantIdentity| x.participant_id == participant_id) {
        Some(k) => Some(ids[k].player),
        None => None,
    }
}

/// The identity of a participant, or one with empty names when none is recorded.
pub fn identity_for_participant(game: &Game, participant_id: u32) -> (r: IdentityPlayer)
    ensures
        match identity_spec(*game, participant_id) {
            Some(player) => r == player,
            None => r.puuid@.len() == 0 && r.game_name@.len() == 0 && r.tag_line@.len() == 0
                && r.summoner_name@.len() == 0,
        },
{
    let ids = &game.participant_identities;
    let ghost pred = |x: crate::models::ParticipantIdentity| x.participant_id == participant_id;
    let mut i: usize = 0;
    while i < ids.len()
        invariant
            ids@ == game.participant_identities@,
            i <= ids@.len(),
            pred == (|x: crate::models::ParticipantIdentity| x.participant_id == participant_id),
            forall|j: int| 0 <= j < i ==> !pred(ids@[j]),
        decreases ids@.len() - i,
    {
        if ids[i].participant_id == participant_id {
            proof {
                lemma_first_index_at(ids@, pred, i as int);
            }
            return ids[i].player.copy();
        }
        i = i + 1;
    }
    proof {
        lemma_first_index_none(ids@, pred);
    }
    IdentityPlayer::empty()
}

/// The participant that stands for the player `puuid` in a game: the one
/// whose identity carries that PUUID (ignoring ASCII case), and when no
/// identity does, the first participant.
pub open spec fn participant_of(g: Game, puuid: Seq<char>) -> Option<Participant> {
    let ids = g.participant_identities@;
    let ps = g.participants@;
    match first_index(
        ids,
        |x: crate::models::ParticipantIdentity| eq_ignore_case_seq(x.player.puuid@, puuid),
    ) {
        Some(k) => match first_index(ps, |p: Participant| p.participant_id == ids[k].participant_id) {
            Some(j) => Some(ps[j]),
            None => None,
        },
        None => if ps.len() > 0 {
            Some(ps[0])
        } else {
            None
        },
    }
}

pub fn participant_for_puuid<'a>(game: &'a Game, puuid: &str) -> (r: Option<&'a Participant>)
    ensures
        match participant_of(*game, puuid@) {
            Some(p) => r == Some(&p),
            None => r is None,
        },
{
    let ids = &game.participant_identities;
    let ps = &game.participants;
    let ghost pred = |x: crate::models::ParticipantIdentity| eq_ignore_case_seq(x.player.puuid@, puuid@);
    let mut i: usize = 0;
    while i < ids.len()
        invariant
            ids@ == game.participant_identities@,
            ps@ == game.participants@,
            i <= ids@.len(),
            pred == (|x: crate::models::ParticipantIdentity| eq_ignore_case_seq(x.player.puuid@, puuid@)),
            forall|j: int| 0 <= j < i ==> !pred(ids@[j]),
        decreases ids@.len() - i,
    {
        if eq_ignore_case(ids[i].player.puuid.as_str(), puuid) {
            proof {
                lemma_first_index_at(ids@, pred, i as int);
            }
            let id = ids[i].participant_id;
            let ghost pred2 = |p: Participant| p.participant_id == id;
            let mut j: usize = 0;
            while j < ps.len()
                invariant
                    ps@ == game.participants@,
                    ids@ == game.participant_identities@,
                    i < ids@.len(),
                    id == ids@[i as int].participant_id,
                    first_index(ids@, pred) == Some(i as int),
                    pred == (|x: crate::models::ParticipantIdentity| eq_ignore_case_seq(x.player.puuid@, puuid@)),
                    j <= ps@.len(),
                    pred2 == (|p: Participant| p.participant_id == id),
                    forall|k: int| 0 <= k < j ==> !pred2(ps@[k]),
                decreases ps@.len() - j,
            {
                if ps[j].participant_id == id {
                    proof {
                        lemma_first_index_at(ps@, pred2, j as int);
                        let k = first_index(ids@, pred)->0;
                        assert(k == i);
                        assert(pred2 =~= (|p: Participant| p.participant_id == ids@[k].participant_id));
                        assert(first_index(ps@, (|p: Participant| p.participant_id == ids@[k].participant_id)) == Some(j as int));
                        assert(pred =~= (|x: crate::models::ParticipantIdentity| eq_ignore_case_seq(x.player.puuid@, puuid@)));
                        assert(participant_of(*game, puuid@) == Some(ps@[j as int]));
                    }
                    return Some(&ps[j]);
                }
                j = j + 1;
            }
            proof {
                lemma_first_index_none(ps@, pred2);
                let k = first_index(ids@, pred)->0;
                assert(k == i);
                assert(pred2 =~= (|p: Participant| p.participant_id == ids@[k].participant_id));
            }
            return None;
        }
        i = i + 1;
    }
    proof {
        lemma_first_index_none(ids@, pred);
    }
    if ps.len() > 0 {
        Some(&ps[0])
    } else {
        None
    }
}

/// The nonzero values, in order.
pub open spec fn nonzero_seq(s: Seq<u32>) -> Seq<u32>
    decreases s.len(),
{
    if s.len() == 0 {
        Seq::empty()
    } else if s.last() > 0 {
        nonzero_seq(s.drop_last()).push(s.last())
    } else {
        nonzero_seq(s.drop_last())
    }
}

pub fn nonzero_values(values: &[u32]) -> (r: Vec<u32>)
    ensures
        r@ == nonzero_seq(values@),
{
    let mut r: Vec<u32> = Vec::new();
    let mut i: usize = 0;
    while i < values.len()
        invariant
            i <= values@.len(),
            r@ == nonzero_seq(values@.take(i as int)),
        decreases values@.len() - i,
    {
        assert(values@.take(i + 1).drop_last() =~= values@.take(i as int));
        if values[i] > 0 {
            r.push(values[i]);
        }
        i = i + 1;
    }
    assert(values@.take(values@.len() as int) =~= values@);
    r
}

/// The name shown for a side of the map.
pub open spec fn team_name_spec(team_id: u32) -> Seq<char> {
    if team_id == 100 {
        "蓝方"@
    } else if team_id == 200 {
        "红方"@
    } else {
        "队伍 "@ + decimal_seq(team_id as nat)
    }
}

pub fn team_name(team_id: u32) -> (r: String)
    ensures
        r@ == team_name_spec(team_id),
{
    if team_id == 100 {
        owned("蓝方")
    } else if team_id == 200 {
        owned("红方")
    } else {
        let n = decimal_string(team_id as u64);
        concat("队伍 ", n.as_str())
    }
}

/// Whether a value leads its group: it reaches a positive maximum.
pub open spec fn is_leader_spec(value: int, max: int) -> bool {
    max > 0 && value >= max
}

pub fn is_u32_leader(value: u32, max: u32) -> (r: bool)
    ensures
        r == is_leader_spec(value as int, max as int),
{
    max > 0 && value >= max
}

/// The distinctions of one participant in a game that integer comparisons decide.
#[derive(Clone, Copy, Debug, PartialEq, Eq, Structural)]
pub struct GameAccolades {
    pub team_damage_leader: bool,
    pub game_damage_leader: bool,
    pub team_mitigation_leader: bool,
    pub team_healing_leader: bool,
    pub team_gold_leader: bool,
}

pub open spec fn accolades_spec(g: Game, me: Participant) -> GameAccolades {
    let ps = g.participants@;
    GameAccolades {
        team_damage_leader: is_leader_spec(
            me.stats.total_damage_dealt_to_champions as int,
            team_max(g, me, ps, f_damage()),
        ),
        game_damage_leader: is_leader_spec(
            me.stats.total_damage_dealt_to_champions as int,
            all_max(ps, f_damage()),
        ),
        team_mitigation_leader: is_leader_spec(
            me.stats.damage_self_mitigated as int,
            team_max(g, me, ps, f_mitigated()),
        ),
        team_healing_leader: is_leader_spec(
            me.stats.total_heal as int,
            team_max(g, me, ps, f_heal()),
        ),
        team_gold_leader: is_leader_spec(me.stats.gold_earned as int, team_max(g, me, ps, f_gold())),
    }
}

proof fn lemma_team_max_bound(g: Game, me: Participant, ps: Seq<Participant>, f: spec_fn(Participant) -> int)
    requires
        forall|p: Participant| 0 <= #[trigger] f(p) <= u32::MAX,
    ensures
        0 <= team_max(g, me, ps, f) <= u32::MAX,
        0 <= all_max(ps, f) <= u32::MAX,
    decreases ps.len(),
{
    if ps.len() > 0 {
        lemma_team_max_bound(g, me, ps.drop_last(), f);
    }
}

/// Which of the team's and the game's maxima `me` reaches.
pub fn game_accolades_for_participant(game: &Game, me: &Participant) -> (r: GameAccolades)
    ensures
        r == accolades_spec(*game, *me),
{
    let ps = &game.participants;
    let n = ps.len();
    let mut team_damage: u32 = 0;
    let mut game_damage: u32 = 0;
    let mut team_mitigation: u32 = 0;
    let mut team_heal: u32 = 0;
    let mut team_gold: u32 = 0;
    let mut i: usize = 0;
    while i < n
        invariant
            n == ps@.len(),
            ps@ == game.participants@,
            i <= n,
            team_damage == team_max(*game, *me, ps@.take(i as int), f_damage()),
            game_damage == all_max(ps@.take(i as int), f_damage()),
            team_mitigation == team_max(*game, *me, ps@.take(i as int), f_mitigated()),
            team_heal == team_max(*game, *me, ps@.take(i as int), f_heal()),
            team_gold == team_max(*game, *me, ps@.take(i as int), f_gold()),
        decreases n - i,
    {
        assert(ps@.take(i + 1).drop_last() =~= ps@.take(i as int));
        let c = &ps[i];
        if same_stat_team(game, me, c) {
            if c.stats.total_damage_dealt_to_champions > team_damage {
                team_damage = c.stats.total_damage_dealt_to_champions;
            }
            if c.stats.damage_self_mitigated > team_mitigation {
                team_mitigation = c.stats.damage_self_mitigated;
            }
            if c.stats.total_heal > team_heal {
                team_heal = c.stats.total_heal;
            }
            if c.stats.gold_earned > team_gold {
                team_gold = c.stats.gold_earned;
            }
        }
        if c.stats.total_damage_dealt_to_champions > game_damage {
            game_damage = c.stats.total_damage_dealt_to_champions;
        }
        i = i + 1;
    }
    assert(ps@.take(n as int) =~= ps@);
    GameAccolades {
        team_damage_leader: is_u32_leader(me.stats.total_damage_dealt_to_champions, team_damage),
        game_damage_leader: is_u32_leader(me.stats.total_damage_dealt_to_champions, game_damage),
        team_mitigation_leader: is_u32_leader(me.stats.damage_self_mitigated, team_mitigation),
        team_healing_leader: is_u32_leader(me.stats.total_heal, team_heal),
        team_gold_leader: is_u32_leader(me.stats.gold_earned, team_gold),
    }
}

/// One game as seen by one of its participants.
///
/// Ratios derived from these numbers (such as the KDA) are computed by the
/// caller from the integer fields.
#[derive(Debug)]
pub struct RecentGame {
    pub game_id: u64,
    pub champion_id: u32,
    pub queue_id: u32,
    pub game_mode: String,
    pub win: bool,
    pub spell1_id: u32,
    pub spell2_id: u32,
    pub item_ids: Vec<u32>,
    pub perk_ids: Vec<u32>,
    pub augment_ids: Vec<u32>,
    pub team_damage_leader: bool,
    pub game_damage_leader: bool,
    pub team_mitigation_leader: bool,
    pub team_healing_leader: bool,
    pub team_gold_leader: bool,
    pub kills: u32,
    pub deaths: u32,
    pub assists: u32,
    pub team_kills: u32,
    pub team_deaths: u32,
    pub team_puuids: Vec<String>,
    pub cs: u32,
    pub gold_earned: u32,
    pub damage_to_champions: u32,
    pub team_damage_to_champions: u32,
    pub damage_self_mitigated: u32,
    pub total_damage_taken: u32,
    pub team_damage_self_mitigated: u32,
    pub team_total_damage_taken: u32,
    pub total_heal: u32,
    pub team_total_heal: u32,
    pub team_gold_earned: u32,
    pub enemy_champion_immobilizations: u32,
    pub team_enemy_champion_immobilizations: u32,
    pub immobilize_and_kill_with_ally: u32,
    pub team_immobilize_and_kill_with_ally: u32,
    pub game_creation: i64,
    pub game_duration: i64,
}

/// PUUIDs of the team-mates of `me` among `ps` (`me` included), as their
/// identities record them; participants without a recorded PUUID are skipped.
pub open spec fn team_puuids_spec(g: Game, me: Participant, ps: Seq<Participant>) -> Seq<Seq<char>>
    decreases ps.len(),
{
    if ps.len() == 0 {
        Seq::empty()
    } else {
        let rest = team_puuids_spec(g, me, ps.drop_last());
        let last = ps.last();
        if same_stat_team_spec(g, me, last) && identity_spec(g, last.participant_id) is Some
            && identity_spec(g, last.participant_id)->0.puuid@.len() > 0 {
            rest.push(identity_spec(g, last.participant_id)->0.puuid@)
        } else {
            rest
        }
    }
}

/// The item ids of a participant, in slot order.
pub open spec fn item_slots(p: Participant) -> Seq<u32> {
    seq![
        p.stats.item0,
        p.stats.item1,
        p.stats.item2,
        p.stats.item3,
        p.stats.item4,
        p.stats.item5,
        p.stats.item6,
    ]
}

/// The rune ids of a participant, in slot order.
pub open spec fn perk_slots(p: Participant) -> Seq<u32> {
    seq![p.stats.perk0, p.stats.perk1, p.stats.perk2, p.stats.perk3, p.stats.perk4, p.stats.perk5]
}

/// The augment ids of a participant, in slot order.
pub open spec fn augment_slots(p: Participant) -> Seq<u32> {
    seq![
        p.stats.player_augment1,
        p.stats.player_augment2,
        p.stats.player_augment3,
        p.stats.player_augment4,
        p.stats.player_augment5,
        p.stats.player_augment6,
    ]
}

/// `r` is the record of game `g` seen by participant `p`.
pub open spec fn recent_game_spec(r: RecentGame, g: Game, p: Participant) -> bool {
    let t = team_totals_spec(g, p);
    let a = accolades_spec(g, p);
    &&& r.game_id == g.game_id
    &&& r.champion_id == p.champion_id
    &&& r.queue_id == g.queue_id
    &&& r.game_mode@ == g.game_mode@
    &&& r.win == p.stats.win
    &&& r.spell1_id == p.spell1_id
    &&& r.spell2_id == p.spell2_id
    &&& r.item_ids@ == nonzero_seq(item_slots(p))
    &&& r.perk_ids@ == nonzero_seq(perk_slots(p))
    &&& r.augment_ids@ == nonzero_seq(augment_slots(p))
    &&& r.team_damage_leader == a.team_damage_leader
    &&& r.game_damage_leader == a.game_damage_leader
    &&& r.team_mitigation_leader == a.team_mitigation_leader
    &&& r.team_healing_leader == a.team_healing_leader
    &&& r.team_gold_leader == a.team_gold_leader
    &&& r.kills == p.stats.kills
    &&& r.deaths == p.stats.deaths
    &&& r.assists == p.stats.assists
    &&& r.team_kills == t.kills
    &&& r.team_deaths == t.deaths
    &&& string_views(r.team_puuids@) == team_puuids_spec(g, p, g.participants@)
    &&& r.cs == p.stats.total_minions_killed + p.stats.neutral_minions_killed
    &&& r.gold_earned == p.stats.gold_earned
    &&& r.damage_to_champions == p.stats.total_damage_dealt_to_champions
    &&& r.team_damage_to_champions == t.damage_to_champions
    &&& r.damage_self_mitigated == p.stats.damage_self_mitigated
    &&& r.total_damage_taken == p.stats.total_damage_taken
    &&& r.team_damage_self_mitigated == t.damage_self_mitigated
    &&& r.team_total_damage_taken == t.total_damage_taken
    &&& r.total_heal == p.stats.total_heal
    &&& r.team_total_heal == t.total_heal
    &&& r.team_gold_earned == t.gold_earned
    &&& r.enemy_champion_immobilizations == p.stats.enemy_champion_immobilizations
    &&& r.team_enemy_champion_immobilizations == t.enemy_champion_immobilizations
    &&& r.immobilize_and_kill_with_ally == p.stats.immobilize_and_kill_with_ally
    &&& r.team_immobilize_and_kill_with_ally == t.immobilize_and_kill_with_ally
    &&& r.game_creation == g.game_creation
    &&& r.game_duration == g.game_duration
}

/// The recorded PUUIDs of the team of `me`.
pub fn team_puuids_for_participant(game: &Game, me: &Participant) -> (r: Vec<String>)
    ensures
        string_views(r@) == team_puuids_spec(*game, *me, game.participants@),
{
    let ps = &game.participants;
    let n = ps.len();
    let mut r: Vec<String> = Vec::new();
    let mut i: usize = 0;
    while i < n
        invariant
            n == ps@.len(),
            ps@ == game.participants@,
            i <= n,
            string_views(r@) == team_puuids_spec(*game, *me, ps@.take(i as int)),
        decreases n - i,
    {
        assert(ps@.take(i + 1).drop_last() =~= ps@.take(i as int));
        let c = &ps[i];
        if same_stat_team(game, me, c) {
            let identity = identity_for_participant(game, c.participant_id);
            if identity.puuid.as_str().unicode_len() > 0 {
                r.push(identity.puuid);
            }
        }
        assert(string_views(r@) =~= team_puuids_spec(*game, *me, ps@.take(i + 1)));
        i = i + 1;
    }
    assert(ps@.take(n as int) =~= ps@);
    r
}

/// The record of `game` as seen by `participant`.
pub fn participant_to_recent_game(game: &Game, participant: &Participant) -> (r: RecentGame)
    requires
        team_sums_fit(*game, *participant),
    ensures
        recent_game_spec(r, *game, *participant),
{
    let st = &participant.stats;
    let cs = st.total_minions_killed + st.neutral_minions_killed;
    let t = team_totals_for_participant(game, participant);
    let a = game_accolades_for_participant(game, participant);
    let items = vec![st.item0, st.item1, st.item2, st.item3, st.item4, st.item5, st.item6];
    let perks = vec![st.perk0, st.perk1, st.perk2, st.perk3, st.perk4, st.perk5];
    let augments = vec![
        st.player_augment1,
        st.player_augment2,
        st.player_augment3,
        st.player_augment4,
        st.player_augment5,
        st.player_augment6,
    ];
    assert(items@ =~= item_slots(*participant));
    assert(perks@ =~= perk_slots(*participant));
    assert(augments@ =~= augment_slots(*participant));
    RecentGame {
        game_id: game.game_id,
        champion_id: participant.champion_id,
        queue_id: game.queue_id,
        game_mode: game.game_mode.clone(),
        win: st.win,
        spell1_id: participant.spell1_id,
        spell2_id: participant.spell2_id,
        item_ids: nonzero_values(items.as_slice()),
        perk_ids: nonzero_values(perks.as_slice()),
        augment_ids: nonzero_values(augments.as_slice()),
        team_damage_leader: a.team_damage_leader,
        game_damage_leader: a.game_damage_leader,
        team_mitigation_leader: a.team_mitigation_leader,
        team_healing_leader: a.team_healing_leader,
        team_gold_leader: a.team_gold_leader,
        kills: st.kills,
        deaths: st.deaths,
        assists: st.assists,
        team_kills: t.kills,
        team_deaths: t.deaths,
        team_puuids: team_puuids_for_participant(game, participant),
        cs,
        gold_earned: st.gold_earned,
        damage_to_champions: st.total_damage_dealt_to_champions,
        team_damage_to_champions: t.damage_to_champions,
        damage_self_mitigated: st.damage_self_mitigated,
        total_damage_taken: st.total_damage_taken,
        team_damage_self_mitigated: t.damage_self_mitigated,
        team_total_damage_taken: t.total_damage_taken,
        total_heal: st.total_heal,
        team_total_heal: t.total_heal,
        team_gold_earned: t.gold_earned,
        enemy_champion_immobilizations: st.enemy_champion_immobilizations,
        team_enemy_champion_immobilizations: t.enemy_champion_immobilizations,
        immobilize_and_kill_with_ally: st.immobilize_and_kill_with_ally,
        team_immobilize_and_kill_with_ally: t.immobilize_and_kill_with_ally,
        game_creation: game.game_creation,
        game_duration: game.game_duration,
    }
}

/// A game enters the statistics of a player when it is not against bots,
/// lasts at least eight minutes and has a participant for the player.
pub open spec fn counted_spec(g: Game, puuid: Seq<char>) -> bool {
    &&& !is_pve_queue_spec(g.queue_id)
    &&& g.game_duration >= MIN_VALID_GAME_DURATION_SECONDS
    &&& participant_of(g, puuid) is Some
}

/// The games that enter the statistics, in their order.
pub open spec fn counted_games(gs: Seq<Game>, puuid: Seq<char>) -> Seq<Game>
    decreases gs.len(),
{
    if gs.len() == 0 {
        Seq::empty()
    } else if counted_spec(gs.last(), puuid) {
        counted_games(gs.drop_last(), puuid).push(gs.last())
    } else {
        counted_games(gs.drop_last(), puuid)
    }
}

/// The participant of the player in a counted game.
pub open spec fn pof(g: Game, puuid: Seq<char>) -> Participant {
    participant_of(g, puuid)->0
}

/// Sum of `f` over the given games, for the games the player played with `champ`
/// (any champion when `champ` is `None`).
pub open spec fn game_sum(
    gs: Seq<Game>,
    puuid: Seq<char>,
    champ: Option<u32>,
    f: spec_fn(Game, Participant) -> int,
) -> int
    decreases gs.len(),
{
    if gs.len() == 0 {
        0
    } else {
        let g = gs.last();
        let p = pof(g, puuid);
        game_sum(gs.drop_last(), puuid, champ, f) + if champ is None || champ == Some(
            p.champion_id,
        ) {
            f(g, p)
        } else {
            0
        }
    }
}

/// Latest creation time of the given games played with `champ`, never below 0.
pub open spec fn last_played(gs: Seq<Game>, puuid: Seq<char>, champ: u32) -> i64
    decreases gs.len(),
{
    if gs.len() == 0 {
        0
    } else {
        let g = gs.last();
        let rest = last_played(gs.drop_last(), puuid, champ);
        if pof(g, puuid).champion_id == champ && g.game_creation > rest {
            g.game_creation
        } else {
            rest
        }
    }
}

pub open spec fn g_one() -> spec_fn(Game, Participant) -> int {
    |g: Game, p: Participant| 1
}

pub open spec fn g_win() -> spec_fn(Game, Participant) -> int {
    |g: Game, p: Participant|
        if p.stats.win {
            1
        } else {
            0
        }
}

pub open spec fn g_kills() -> spec_fn(Game, Participant) -> int {
    |g: Game, p: Participant| p.stats.kills as int
}

pub open spec fn g_deaths() -> spec_fn(Game, Participant) -> int {
    |g: Game, p: Participant| p.stats.deaths as int
}

pub open spec fn g_assists() -> spec_fn(Game, Participant) -> int {
    |g: Game, p: Participant| p.stats.assists as int
}

pub open spec fn g_damage() -> spec_fn(Game, Participant) -> int {
    |g: Game, p: Participant| p.stats.total_damage_dealt_to_champions as int
}

pub open spec fn g_cs() -> spec_fn(Game, Participant) -> int {
    |g: Game, p: Participant| p.stats.total_minions_killed + p.stats.neutral_minions_killed
}

pub open spec fn g_gold() -> spec_fn(Game, Participant) -> int {
    |g: Game, p: Participant| p.stats.gold_earned as int
}

pub open spec fn g_team_damage() -> spec_fn(Game, Participant) -> int {
    |g: Game, p: Participant| team_totals_spec(g, p).damage_to_champions as int
}

pub open spec fn g_team_gold() -> spec_fn(Game, Participant) -> int {
    |g: Game, p: Participant| team_totals_spec(g, p).gold_earned as int
}

pub open spec fn g_mitigated() -> spec_fn(Game, Participant) -> int {
    |g: Game, p: Participant| p.stats.damage_self_mitigated as int
}

pub open spec fn g_team_mitigated() -> spec_fn(Game, Participant) -> int {
    |g: Game, p: Participant| team_totals_spec(g, p).damage_self_mitigated as int
}

pub open spec fn g_heal() -> spec_fn(Game, Participant) -> int {
    |g: Game, p: Participant| p.stats.total_heal as int
}

pub open spec fn g_team_heal() -> spec_fn(Game, Participant) -> int {
    |g: Game, p: Participant| team_totals_spec(g, p).total_heal as int
}

/// What a player's games with one champion add up to.
#[derive(Clone, Copy, Debug, PartialEq, Eq, Structural)]
pub struct ChampionTotals {
    pub champion_id: u32,
    pub games: usize,
    pub wins: usize,
    pub kills: u32,
    pub deaths: u32,
    pub assists: u32,
    pub damage_to_champions: u64,
    pub cs: u64,
    pub gold_earned: u64,
    pub team_damage_to_champions: u64,
    pub team_gold_earned: u64,
    pub damage_self_mitigated: u64,
    pub team_damage_self_mitigated: u64,
    pub total_heal: u64,
    pub team_total_heal: u64,
    pub last_played_at: i64,
}

/// The totals of the games in `gs` played with champion `c`.
pub open spec fn champion_totals_spec(gs: Seq<Game>, puuid: Seq<char>, c: u32) -> ChampionTotals {
    let k = Some(c);
    ChampionTotals {
        champion_id: c,
        games: game_sum(gs, puuid, k, g_one()) as usize,
        wins: game_sum(gs, puuid, k, g_win()) as usize,
        kills: game_sum(gs, puuid, k, g_kills()) as u32,
        deaths: game_sum(gs, puuid, k, g_deaths()) as u32,
        assists: game_sum(gs, puuid, k, g_assists()) as u32,
        damage_to_champions: game_sum(gs, puuid, k, g_damage()) as u64,
        cs: game_sum(gs, puuid, k, g_cs()) as u64,
        gold_earned: game_sum(gs, puuid, k, g_gold()) as u64,
        team_damage_to_champions: game_sum(gs, puuid, k, g_team_damage()) as u64,
        team_gold_earned: game_sum(gs, puuid, k, g_team_gold()) as u64,
        damage_self_mitigated: game_sum(gs, puuid, k, g_mitigated()) as u64,
        team_damage_self_mitigated: game_sum(gs, puuid, k, g_team_mitigated()) as u64,
        total_heal: game_sum(gs, puuid, k, g_heal()) as u64,
        team_total_heal: game_sum(gs, puuid, k, g_team_heal()) as u64,
        last_played_at: last_played(gs, puuid, c),
    }
}

/// The sums of a player's statistics fit their integer types: each counted
/// game's team sums, each champion's kill, death and assist counts in a `u32`,
/// and the other sums in a `u64`.
pub open spec fn analysis_fits(gs: Seq<Game>, puuid: Seq<char>) -> bool {
    let cg = counted_games(gs, puuid);
    &&& forall|i: int| 0 <= i < cg.len() ==> team_sums_fit(cg[i], #[trigger] pof(cg[i], puuid))
    &&& forall|c: u32| {
        &&& #[trigger] game_sum(cg, puuid, Some(c), g_kills()) <= u32::MAX
        &&& game_sum(cg, puuid, Some(c), g_deaths()) <= u32::MAX
        &&& game_sum(cg, puuid, Some(c), g_assists()) <= u32::MAX
        &&& game_sum(cg, puuid, Some(c), g_damage()) <= u64::MAX
        &&& game_sum(cg, puuid, Some(c), g_cs()) <= u64::MAX
        &&& game_sum(cg, puuid, Some(c), g_gold()) <= u64::MAX
        &&& game_sum(cg, puuid, Some(c), g_team_damage()) <= u64::MAX
        &&& game_sum(cg, puuid, Some(c), g_team_gold()) <= u64::MAX
        &&& game_sum(cg, puuid, Some(c), g_mitigated()) <= u64::MAX
        &&& game_sum(cg, puuid, Some(c), g_team_mitigated()) <= u64::MAX
        &&& game_sum(cg, puuid, Some(c), g_heal()) <= u64::MAX
        &&& game_sum(cg, puuid, Some(c), g_team_heal()) <= u64::MAX
    }
    &&& game_sum(cg, puuid, None, g_kills()) <= u64::MAX
    &&& game_sum(cg, puuid, None, g_deaths()) <= u64::MAX
    &&& game_sum(cg, puuid, None, g_assists()) <= u64::MAX
}

proof fn lemma_game_sum_nonneg(
    gs: Seq<Game>,
    puuid: Seq<char>,
    champ: Option<u32>,
    f: spec_fn(Game, Participant) -> int,
)
    requires
        forall|g: Game, p: Participant| #[trigger] f(g, p) >= 0,
    ensures
        game_sum(gs, puuid, champ, f) >= 0,
    decreases gs.len(),
{
    if gs.len() > 0 {
        lemma_game_sum_nonneg(gs.drop_last(), puuid, champ, f);
    }
}

/// Counting the games one by one: the counted games of a prefix.
proof fn lemma_counted_step(gs: Seq<Game>, puuid: Seq<char>, i: int)
    requires
        0 <= i < gs.len(),
    ensures
        counted_games(gs.take(i + 1), puuid) == if counted_spec(gs[i], puuid) {
            counted_games(gs.take(i), puuid).push(gs[i])
        } else {
            counted_games(gs.take(i), puuid)
        },
{
    assert(gs.take(i + 1).drop_last() =~= gs.take(i));
}

/// The counted games of a prefix are a prefix of the counted games.
pub proof fn lemma_counted_prefix(gs: Seq<Game>, puuid: Seq<char>, k: int)
    requires
        0 <= k <= gs.len(),
    ensures
        counted_games(gs.take(k), puuid).len() <= counted_games(gs, puuid).len(),
        counted_games(gs.take(k), puuid) =~= counted_games(gs, puuid).take(
            counted_games(gs.take(k), puuid).len() as int,
        ),
    decreases gs.len() - k,
{
    if k < gs.len() {
        lemma_counted_prefix(gs, puuid, k + 1);
        lemma_counted_step(gs, puuid, k);
    } else {
        assert(gs.take(k) =~= gs);
    }
}

/// Sums over a prefix never exceed sums over the whole.
pub proof fn lemma_game_sum_prefix(
    gs: Seq<Game>,
    puuid: Seq<char>,
    champ: Option<u32>,
    f: spec_fn(Game, Participant) -> int,
    k: int,
)
    requires
        0 <= k <= gs.len(),
        forall|g: Game, p: Participant| #[trigger] f(g, p) >= 0,
    ensures
        game_sum(gs.take(k), puuid, champ, f) <= game_sum(gs, puuid, champ, f),
    decreases gs.len() - k,
{
    if k < gs.len() {
        lemma_game_sum_prefix(gs, puuid, champ, f, k + 1);
        assert(gs.take(k + 1).drop_last() =~= gs.take(k));
        lemma_game_sum_nonneg(gs.take(k), puuid, champ, f);
    } else {
        assert(gs.take(k) =~= gs);
    }
}

/// The sums of one champion's games fit their integer types.
pub open spec fn champion_fits(cg: Seq<Game>, puuid: Seq<char>, c: u32) -> bool {
    &&& game_sum(cg, puuid, Some(c), g_one()) <= usize::MAX
    &&& game_sum(cg, puuid, Some(c), g_win()) <= usize::MAX
    &&& game_sum(cg, puuid, Some(c), g_kills()) <= u32::MAX
    &&& game_sum(cg, puuid, Some(c), g_deaths()) <= u32::MAX
    &&& game_sum(cg, puuid, Some(c), g_assists()) <= u32::MAX
    &&& game_sum(cg, puuid, Some(c), g_damage()) <= u64::MAX
    &&& game_sum(cg, puuid, Some(c), g_cs()) <= u64::MAX
    &&& game_sum(cg, puuid, Some(c), g_gold()) <= u64::MAX
    &&& game_sum(cg, puuid, Some(c), g_team_damage()) <= u64::MAX
    &&& game_sum(cg, puuid, Some(c), g_team_gold()) <= u64::MAX
    &&& game_sum(cg, puuid, Some(c), g_mitigated()) <= u64::MAX
    &&& game_sum(cg, puuid, Some(c), g_team_mitigated()) <= u64::MAX
    &&& game_sum(cg, puuid, Some(c), g_heal()) <= u64::MAX
    &&& game_sum(cg, puuid, Some(c), g_team_heal()) <= u64::MAX
}

/// The champion accumulators hold exactly the champions of `cg`, once each,
/// with their totals.
pub open spec fn champions_inv(accs: Seq<ChampionTotals>, cg: Seq<Game>, puuid: Seq<char>) -> bool {
    &&& forall|k: int|
        0 <= k < accs.len() ==> #[trigger] accs[k] == champion_totals_spec(
            cg,
            puuid,
            accs[k].champion_id,
        )
    &&& forall|k1: int, k2: int|
        0 <= k1 < accs.len() && 0 <= k2 < accs.len() && k1 != k2 ==> #[trigger] accs[k1].champion_id
            != #[trigger] accs[k2].champion_id
    &&& forall|k: int|
        0 <= k < accs.len() ==> game_sum(cg, puuid, Some(#[trigger] accs[k].champion_id), g_one())
            > 0
    &&& forall|c: u32|
        #[trigger] game_sum(cg, puuid, Some(c), g_one()) > 0 ==> exists|k: int|
            0 <= k < accs.len() && #[trigger] accs[k].champion_id == c
}

/// A champion never played in `cg` has all sums zero.
proof fn lemma_unplayed_zero(cg: Seq<Game>, puuid: Seq<char>, c: u32, f: spec_fn(Game, Participant) -> int)
    requires
        game_sum(cg, puuid, Some(c), g_one()) == 0,
    ensures
        game_sum(cg, puuid, Some(c), f) == 0,
        last_played(cg, puuid, c) == 0,
    decreases cg.len(),
{
    if cg.len() > 0 {
        lemma_game_sum_nonneg(cg.drop_last(), puuid, Some(c), g_one());
        lemma_unplayed_zero(cg.drop_last(), puuid, c, f);
    }
}

/// Appending a game changes only the totals of its champion.
proof fn lemma_totals_push(cg: Seq<Game>, g: Game, puuid: Seq<char>, c: u32)
    ensures
        pof(g, puuid).champion_id != c ==> champion_totals_spec(cg.push(g), puuid, c)
            == champion_totals_spec(cg, puuid, c),
        pof(g, puuid).champion_id != c ==> game_sum(cg.push(g), puuid, Some(c), g_one())
            == game_sum(cg, puuid, Some(c), g_one()),
{
    assert(cg.push(g).drop_last() =~= cg);
}

/// Appending a game adds its value to every sum of its champion.
proof fn lemma_sum_push(cg: Seq<Game>, g: Game, puuid: Seq<char>, c: Option<u32>)
    ensures
        forall|f: spec_fn(Game, Participant) -> int|
            #[trigger] game_sum(cg.push(g), puuid, c, f) == game_sum(cg, puuid, c, f) + if c is None
                || c == Some(pof(g, puuid).champion_id) {
                f(g, pof(g, puuid))
            } else {
                0
            },
{
    assert(cg.push(g).drop_last() =~= cg);
}

/// Appending a game of champion `c` adds its values to the totals of `c`,
/// and the new totals fit their types when the sums do.
proof fn lemma_champion_step(cg: Seq<Game>, g: Game, puuid: Seq<char>)
    requires
        champion_fits(cg.push(g), puuid, pof(g, puuid).champion_id),
    ensures
        ({
            let p = pof(g, puuid);
            let c = p.champion_id;
            let t = team_totals_spec(g, p);
            let a = champion_totals_spec(cg, puuid, c);
            let b = champion_totals_spec(cg.push(g), puuid, c);
            &&& b.champion_id == c
            &&& b.games as int == a.games as int + 1
            &&& b.wins as int == a.wins as int + if p.stats.win { 1int } else { 0int }
            &&& b.kills as int == a.kills as int + p.stats.kills as int
            &&& b.deaths as int == a.deaths as int + p.stats.deaths as int
            &&& b.assists as int == a.assists as int + p.stats.assists as int
            &&& b.damage_to_champions as int == a.damage_to_champions as int
                + p.stats.total_damage_dealt_to_champions as int
            &&& b.cs as int == a.cs as int + p.stats.total_minions_killed as int
                + p.stats.neutral_minions_killed as int
            &&& b.gold_earned as int == a.gold_earned as int + p.stats.gold_earned as int
            &&& b.team_damage_to_champions as int == a.team_damage_to_champions as int
                + t.damage_to_champions as int
            &&& b.team_gold_earned as int == a.team_gold_earned as int + t.gold_earned as int
            &&& b.damage_self_mitigated as int == a.damage_self_mitigated as int
                + p.stats.damage_self_mitigated as int
            &&& b.team_damage_self_mitigated as int == a.team_damage_self_mitigated as int
                + t.damage_self_mitigated as int
            &&& b.total_heal as int == a.total_heal as int + p.stats.total_heal as int
            &&& b.team_total_heal as int == a.team_total_heal as int + t.total_heal as int
            &&& b.last_played_at == if g.game_creation > a.last_played_at {
                g.game_creation
            } else {
                a.last_played_at
            }
        }),
{
    let cg2 = cg.push(g);
    let c = pof(g, puuid).champion_id;
    assert(cg2.drop_last() =~= cg);
    lemma_sum_push(cg, g, puuid, Some(c));
    lemma_game_sum_nonneg(cg, puuid, Some(c), g_one());
    lemma_game_sum_nonneg(cg, puuid, Some(c), g_win());
    lemma_game_sum_nonneg(cg, puuid, Some(c), g_kills());
    lemma_game_sum_nonneg(cg, puuid, Some(c), g_deaths());
    lemma_game_sum_nonneg(cg, puuid, Some(c), g_assists());
    lemma_game_sum_nonneg(cg, puuid, Some(c), g_damage());
    lemma_game_sum_nonneg(cg, puuid, Some(c), g_cs());
    lemma_game_sum_nonneg(cg, puuid, Some(c), g_gold());
    lemma_game_sum_nonneg(cg, puuid, Some(c), g_team_damage());
    lemma_game_sum_nonneg(cg, puuid, Some(c), g_team_gold());
    lemma_game_sum_nonneg(cg, puuid, Some(c), g_mitigated());
    lemma_game_sum_nonneg(cg, puuid, Some(c), g_team_mitigated());
    lemma_game_sum_nonneg(cg, puuid, Some(c), g_heal());
    lemma_game_sum_nonneg(cg, puuid, Some(c), g_team_heal());
    assert(game_sum(cg2, puuid, Some(c), g_one()) == game_sum(cg, puuid, Some(c), g_one()) + 1);
    assert(game_sum(cg2, puuid, Some(c), g_win()) == game_sum(cg, puuid, Some(c), g_win())
        + g_win()(g, pof(g, puuid)));
    assert(game_sum(cg2, puuid, Some(c), g_kills()) == game_sum(cg, puuid, Some(c), g_kills())
        + g_kills()(g, pof(g, puuid)));
    assert(game_sum(cg2, puuid, Some(c), g_deaths()) == game_sum(cg, puuid, Some(c), g_deaths())
        + g_deaths()(g, pof(g, puuid)));
    assert(game_sum(cg2, puuid, Some(c), g_assists()) == game_sum(cg, puuid, Some(c), g_assists())
        + g_assists()(g, pof(g, puuid)));
    assert(game_sum(cg2, puuid, Some(c), g_damage()) == game_sum(cg, puuid, Some(c), g_damage())
        + g_damage()(g, pof(g, puuid)));
    assert(game_sum(cg2, puuid, Some(c), g_cs()) == game_sum(cg, puuid, Some(c), g_cs())
        + g_cs()(g, pof(g, puuid)));
    assert(game_sum(cg2, puuid, Some(c), g_gold()) == game_sum(cg, puuid, Some(c), g_gold())
        + g_gold()(g, pof(g, puuid)));
    assert(game_sum(cg2, puuid, Some(c), g_team_damage()) == game_sum(
        cg,
        puuid,
        Some(c),
        g_team_damage(),
    ) + g_team_damage()(g, pof(g, puuid)));
    assert(game_sum(cg2, puuid, Some(c), g_team_gold()) == game_sum(cg, puuid, Some(c), g_team_gold())
        + g_team_gold()(g, pof(g, puuid)));
    assert(game_sum(cg2, puuid, Some(c), g_mitigated()) == game_sum(cg, puuid, Some(c), g_mitigated())
        + g_mitigated()(g, pof(g, puuid)));
    assert(game_sum(cg2, puuid, Some(c), g_team_mitigated()) == game_sum(
        cg,
        puuid,
        Some(c),
        g_team_mitigated(),
    ) + g_team_mitigated()(g, pof(g, puuid)));
    assert(game_sum(cg2, puuid, Some(c), g_heal()) == game_sum(cg, puuid, Some(c), g_heal())
        + g_heal()(g, pof(g, puuid)));
    assert(game_sum(cg2, puuid, Some(c), g_team_heal()) == game_sum(cg, puuid, Some(c), g_team_heal())
        + g_team_heal()(g, pof(g, puuid)));
}

/// Adds the game `g`, played as `p`, to the accumulators of `cg`.
fn add_to_champions(
    accs: &mut Vec<ChampionTotals>,
    g: &Game,
    p: &Participant,
    cs: u32,
    t: &TeamTotals,
    Ghost(cg): Ghost<Seq<Game>>,
    Ghost(puuid): Ghost<Seq<char>>,
)
    requires
        champions_inv(old(accs)@, cg, puuid),
        pof(*g, puuid) == *p,
        champion_fits(cg.push(*g), puuid, p.champion_id),
        *t == team_totals_spec(*g, *p),
        cs == p.stats.total_minions_killed + p.stats.neutral_minions_killed,
    ensures
        champions_inv(final(accs)@, cg.push(*g), puuid),
{
    let ghost cg2 = cg.push(*g);
    let c = p.champion_id;
    proof {
        assert(cg2.drop_last() =~= cg);
        assert forall|c2: u32| c2 != c implies champion_totals_spec(cg2, puuid, c2)
            == champion_totals_spec(cg, puuid, c2) && game_sum(cg2, puuid, Some(c2), g_one())
            == game_sum(cg, puuid, Some(c2), g_one()) by {
            lemma_totals_push(cg, *g, puuid, c2);
        }
        lemma_champion_step(cg, *g, puuid);
    }
    let n = accs.len();
    let mut k: usize = 0;
    while k < n
        invariant
            n == accs@.len(),
            accs@ == old(accs)@,
            k <= n,
            forall|j: int| 0 <= j < k ==> #[trigger] accs@[j].champion_id != c,
        ensures
            k <= n,
            k < n ==> accs@[k as int].champion_id == c,
            forall|j: int| 0 <= j < k ==> #[trigger] accs@[j].champion_id != c,
        decreases n - k,
    {
        if accs[k].champion_id == c {
            break;
        }
        k = k + 1;
    }
    if k < n {
        let a = accs[k];
        proof {
            assert(a == champion_totals_spec(cg, puuid, c));
        }
        let creation = if g.game_creation > a.last_played_at {
            g.game_creation
        } else {
            a.last_played_at
        };
        let b = ChampionTotals {
            champion_id: c,
            games: a.games + 1,
            wins: a.wins + if p.stats.win {
                1
            } else {
                0
            },
            kills: a.kills + p.stats.kills,
            deaths: a.deaths + p.stats.deaths,
            assists: a.assists + p.stats.assists,
            damage_to_champions: a.damage_to_champions
                + p.stats.total_damage_dealt_to_champions as u64,
            cs: a.cs + cs as u64,
            gold_earned: a.gold_earned + p.stats.gold_earned as u64,
            team_damage_to_champions: a.team_damage_to_champions + t.damage_to_champions as u64,
            team_gold_earned: a.team_gold_earned + t.gold_earned as u64,
            damage_self_mitigated: a.damage_self_mitigated + p.stats.damage_self_mitigated as u64,
            team_damage_self_mitigated: a.team_damage_self_mitigated
                + t.damage_self_mitigated as u64,
            total_heal: a.total_heal + p.stats.total_heal as u64,
            team_total_heal: a.team_total_heal + t.total_heal as u64,
            last_played_at: creation,
        };
        accs.set(k, b);
        proof {
            assert(b == champion_totals_spec(cg2, puuid, c));
            assert forall|c2: u32| #[trigger] game_sum(cg2, puuid, Some(c2), g_one()) > 0 implies exists|j: int|
                0 <= j < accs@.len() && #[trigger] accs@[j].champion_id == c2 by {
                if c2 == c {
                    assert(accs@[k as int].champion_id == c2);
                } else {
                    assert(game_sum(cg, puuid, Some(c2), g_one()) > 0);
                    let j = choose|j: int| 0 <= j < old(accs)@.len() && #[trigger] old(accs)@[j].champion_id == c2;
                    assert(accs@[j].champion_id == c2);
                }
            }
        }
    } else {
        proof {
            assert(game_sum(cg, puuid, Some(c), g_one()) == 0) by {
                lemma_game_sum_nonneg(cg, puuid, Some(c), g_one());
                if game_sum(cg, puuid, Some(c), g_one()) > 0 {
                    let j = choose|j: int| 0 <= j < old(accs)@.len() && #[trigger] old(accs)@[j].champion_id == c;
                    assert(accs@[j].champion_id != c);
                }
            }
            lemma_unplayed_zero(cg, puuid, c, g_win());
            lemma_unplayed_zero(cg, puuid, c, g_kills());
            lemma_unplayed_zero(cg, puuid, c, g_deaths());
            lemma_unplayed_zero(cg, puuid, c, g_assists());
            lemma_unplayed_zero(cg, puuid, c, g_damage());
            lemma_unplayed_zero(cg, puuid, c, g_cs());
            lemma_unplayed_zero(cg, puuid, c, g_gold());
            lemma_unplayed_zero(cg, puuid, c, g_team_damage());
            lemma_unplayed_zero(cg, puuid, c, g_team_gold());
            lemma_unplayed_zero(cg, puuid, c, g_mitigated());
            lemma_unplayed_zero(cg, puuid, c, g_team_mitigated());
            lemma_unplayed_zero(cg, puuid, c, g_heal());
            lemma_unplayed_zero(cg, puuid, c, g_team_heal());
        }
        let creation = if g.game_creation > 0 {
            g.game_creation
        } else {
            0
        };
        let b = ChampionTotals {
            champion_id: c,
            games: 1,
            wins: if p.stats.win {
                1
            } else {
                0
            },
            kills: p.stats.kills,
            deaths: p.stats.deaths,
            assists: p.stats.assists,
            damage_to_champions: p.stats.total_damage_dealt_to_champions as u64,
            cs: cs as u64,
            gold_earned: p.stats.gold_earned as u64,
            team_damage_to_champions: t.damage_to_champions as u64,
            team_gold_earned: t.gold_earned as u64,
            damage_self_mitigated: p.stats.damage_self_mitigated as u64,
            team_damage_self_mitigated: t.damage_self_mitigated as u64,
            total_heal: p.stats.total_heal as u64,
            team_total_heal: t.total_heal as u64,
            last_played_at: creation,
        };
        accs.push(b);
        proof {
            assert(b == champion_totals_spec(cg2, puuid, c));
            assert forall|c2: u32| #[trigger] game_sum(cg2, puuid, Some(c2), g_one()) > 0 implies exists|j: int|
                0 <= j < accs@.len() && #[trigger] accs@[j].champion_id == c2 by {
                if c2 == c {
                    assert(accs@[n as int].champion_id == c2);
                } else {
                    assert(game_sum(cg, puuid, Some(c2), g_one()) > 0);
                    let j = choose|j: int| 0 <= j < old(accs)@.len() && #[trigger] old(accs)@[j].champion_id == c2;
                    assert(accs@[j].champion_id == c2);
                }
            }
        }
    }
}


/// `a` is listed before `b`: more games first, then the more recently played,
/// then the smaller champion id.
pub open spec fn champ_before(a: ChampionTotals, b: ChampionTotals) -> bool {
    ||| a.games > b.games
    ||| a.games == b.games && a.last_played_at > b.last_played_at
    ||| a.games == b.games && a.last_played_at == b.last_played_at && a.champion_id
        < b.champion_id
}

/// `a` may come before `b` in a ranking by games played: it has more games,
/// or as many and a later last game, or as many, the same last game and a
/// smaller champion id.
pub open spec fn by_games(a: ChampionTotals, b: ChampionTotals) -> bool {
    a.games >= b.games && (a.games == b.games ==> (a.last_played_at >= b.last_played_at && (a.last_played_at
        == b.last_played_at ==> a.champion_id < b.champion_id)))
}

/// A ranked list of champions has the most played first: games never grow
/// along the list, and ties go to the later last game, then the smaller id.
pub proof fn lemma_champions_by_games(s: Seq<ChampionTotals>)
    requires
        champions_sorted(s),
    ensures
        forall|i: int, j: int| 0 <= i < j < s.len() ==> by_games(#[trigger] s[i], #[trigger] s[j]),
        forall|k: int| 0 <= k < s.len() ==> (#[trigger] s[k]).games <= s[0].games,
{
    assert forall|k: int| 0 <= k < s.len() implies (#[trigger] s[k]).games <= s[0].games by {
        if k > 0 {
            assert(champ_before(s[0], s[k]));
        }
    }
}

/// The champions are listed in the order of `champ_before`.
pub open spec fn champions_sorted(s: Seq<ChampionTotals>) -> bool {
    forall|i: int, j: int| 0 <= i < j < s.len() ==> champ_before(#[trigger] s[i], #[trigger] s[j])
}

fn champ_goes_before(a: &ChampionTotals, b: &ChampionTotals) -> (r: bool)
    ensures
        r == champ_before(*a, *b),
{
    if a.games != b.games {
        a.games > b.games
    } else if a.last_played_at != b.last_played_at {
        a.last_played_at > b.last_played_at
    } else {
        a.champion_id < b.champion_id
    }
}

/// Inserting `e` where it belongs keeps a list sorted.
proof fn lemma_insert_sorted(s: Seq<ChampionTotals>, pos: int, e: ChampionTotals)
    requires
        0 <= pos <= s.len(),
        champions_sorted(s),
        forall|x: int| 0 <= x < pos ==> !champ_before(e, #[trigger] s[x]),
        pos < s.len() ==> champ_before(e, s[pos]),
        forall|x: int| 0 <= x < s.len() ==> (#[trigger] s[x]).champion_id != e.champion_id,
    ensures
        champions_sorted(s.insert(pos, e)),
{
    s.insert_ensures(pos, e);
    let t = s.insert(pos, e);
    assert forall|a: int, b: int| 0 <= a < b < t.len() implies champ_before(
        #[trigger] t[a],
        #[trigger] t[b],
    ) by {
        if b < pos {
        } else if b == pos {
            assert(s[a].champion_id != e.champion_id);
        } else if a < pos {
            assert(t[b] == s[b - 1]);
        } else if a == pos {
            assert(t[b] == s[b - 1]);
            if b - 1 > pos {
                assert(champ_before(s[pos], s[b - 1]));
            }
        } else {
            assert(t[a] == s[a - 1]);
            assert(t[b] == s[b - 1]);
        }
    }
}

/// Inserting the next element keeps `out` holding exactly the first elements.
proof fn lemma_insert_members(accs: Seq<ChampionTotals>, i: int, s: Seq<ChampionTotals>, pos: int)
    requires
        0 <= i < accs.len(),
        0 <= pos <= s.len(),
        forall|x: int| 0 <= x < s.len() ==> accs.take(i).contains(#[trigger] s[x]),
        forall|j: int| 0 <= j < i ==> s.contains(#[trigger] accs[j]),
    ensures
        forall|x: int|
            0 <= x < s.len() + 1 ==> accs.take(i + 1).contains(#[trigger] s.insert(pos, accs[i])[x]),
        forall|j: int| 0 <= j < i + 1 ==> s.insert(pos, accs[i]).contains(#[trigger] accs[j]),
{
    let e = accs[i];
    s.insert_ensures(pos, e);
    let t = s.insert(pos, e);
    assert forall|x: int| 0 <= x < s.len() + 1 implies accs.take(i + 1).contains(#[trigger] t[x]) by {
        if x == pos {
            assert(accs.take(i + 1)[i] == e);
        } else {
            let y = if x < pos {
                x
            } else {
                x - 1
            };
            assert(t[x] == s[y]);
            assert(accs.take(i).contains(s[y]));
            let j = choose|j: int| 0 <= j < i && accs.take(i)[j] == s[y];
            assert(accs.take(i + 1)[j] == s[y]);
        }
    }
    assert forall|j: int| 0 <= j < i + 1 implies t.contains(#[trigger] accs[j]) by {
        if j == i {
            assert(t[pos] == e);
        } else {
            assert(s.contains(accs[j]));
            let x = choose|x: int| 0 <= x < s.len() && s[x] == accs[j];
            if x < pos {
                assert(t[x] == accs[j]);
            } else {
                assert(t[x + 1] == accs[j]);
            }
        }
    }
}

/// Sorts champions with distinct ids by `champ_before`.
fn sort_champions(accs: &Vec<ChampionTotals>) -> (r: Vec<ChampionTotals>)
    requires
        forall|k1: int, k2: int|
            0 <= k1 < accs@.len() && 0 <= k2 < accs@.len() && k1 != k2 ==> #[trigger] accs@[k1].champion_id
                != #[trigger] accs@[k2].champion_id,
    ensures
        r@.len() == accs@.len(),
        champions_sorted(r@),
        forall|x: int| 0 <= x < r@.len() ==> accs@.contains(#[trigger] r@[x]),
        forall|j: int| 0 <= j < accs@.len() ==> r@.contains(#[trigger] accs@[j]),
{
    let n = accs.len();
    let mut out: Vec<ChampionTotals> = Vec::new();
    let mut i: usize = 0;
    while i < n
        invariant
            n == accs@.len(),
            i <= n,
            out@.len() == i,
            forall|k1: int, k2: int|
                0 <= k1 < accs@.len() && 0 <= k2 < accs@.len() && k1 != k2 ==> #[trigger] accs@[k1].champion_id
                    != #[trigger] accs@[k2].champion_id,
            champions_sorted(out@),
            forall|x: int| 0 <= x < out@.len() ==> accs@.take(i as int).contains(#[trigger] out@[x]),
            forall|j: int| 0 <= j < i ==> out@.contains(#[trigger] accs@[j]),
        decreases n - i,
    {
        let e = accs[i];
        let m = out.len();
        let mut pos: usize = 0;
        while pos < m
            invariant
                m == out@.len(),
                pos <= m,
                forall|x: int| 0 <= x < pos ==> !champ_before(e, #[trigger] out@[x]),
            ensures
                pos <= m,
                forall|x: int| 0 <= x < pos ==> !champ_before(e, #[trigger] out@[x]),
                pos < m ==> champ_before(e, out@[pos as int]),
            decreases m - pos,
        {
            if champ_goes_before(&e, &out[pos]) {
                break;
            }
            pos = pos + 1;
        }
        proof {
            assert forall|x: int| 0 <= x < out@.len() implies (#[trigger] out@[x]).champion_id
                != e.champion_id by {
                assert(accs@.take(i as int).contains(out@[x]));
                let j = choose|j: int| 0 <= j < i && accs@.take(i as int)[j] == out@[x];
                assert(accs@[j] == out@[x]);
            }
            lemma_insert_sorted(out@, pos as int, e);
            lemma_insert_members(accs@, i as int, out@, pos as int);
        }
        out.insert(pos, e);
        i = i + 1;
    }
    assert(accs@.take(n as int) =~= accs@);
    out
}

/// Sorting keeps the champion invariant: distinct ids follow from the order.
proof fn lemma_sorted_inv(
    accs: Seq<ChampionTotals>,
    r: Seq<ChampionTotals>,
    cg: Seq<Game>,
    puuid: Seq<char>,
)
    requires
        champions_inv(accs, cg, puuid),
        champions_sorted(r),
        forall|x: int| 0 <= x < r.len() ==> accs.contains(#[trigger] r[x]),
        forall|j: int| 0 <= j < accs.len() ==> r.contains(#[trigger] accs[j]),
    ensures
        champions_inv(r, cg, puuid),
{
    assert forall|k: int| 0 <= k < r.len() implies #[trigger] r[k] == champion_totals_spec(
        cg,
        puuid,
        r[k].champion_id,
    ) && game_sum(cg, puuid, Some(r[k].champion_id), g_one()) > 0 by {
        assert(accs.contains(r[k]));
        let j = choose|j: int| 0 <= j < accs.len() && accs[j] == r[k];
        assert(accs[j] == champion_totals_spec(cg, puuid, accs[j].champion_id));
        assert(game_sum(cg, puuid, Some(accs[j].champion_id), g_one()) > 0);
    }
    assert forall|k1: int, k2: int|
        0 <= k1 < r.len() && 0 <= k2 < r.len() && k1 != k2 implies #[trigger] r[k1].champion_id
        != #[trigger] r[k2].champion_id by {
        assert(accs.contains(r[k1]));
        assert(accs.contains(r[k2]));
        let j1 = choose|j: int| 0 <= j < accs.len() && accs[j] == r[k1];
        let j2 = choose|j: int| 0 <= j < accs.len() && accs[j] == r[k2];
        if r[k1].champion_id == r[k2].champion_id {
            assert(accs[j1].champion_id == accs[j2].champion_id);
            assert(j1 == j2);
            if k1 < k2 {
                assert(champ_before(r[k1], r[k2]));
            } else {
                assert(champ_before(r[k2], r[k1]));
            }
        }
    }
    assert forall|c: u32| #[trigger] game_sum(cg, puuid, Some(c), g_one()) > 0 implies exists|k: int|
        0 <= k < r.len() && #[trigger] r[k].champion_id == c by {
        let j = choose|j: int| 0 <= j < accs.len() && #[trigger] accs[j].champion_id == c;
        assert(r.contains(accs[j]));
        let x = choose|x: int| 0 <= x < r.len() && r[x] == accs[j];
        assert(r[x].champion_id == c);
    }
}

/// No more games are counted than there are.
proof fn lemma_counted_len(gs: Seq<Game>, puuid: Seq<char>)
    ensures
        counted_games(gs, puuid).len() <= gs.len(),
    decreases gs.len(),
{
    if gs.len() > 0 {
        lemma_counted_len(gs.drop_last(), puuid);
    }
}

/// Each game counts at most once in a sum of ones, and a win only in a game.
proof fn lemma_count_bounds(gs: Seq<Game>, puuid: Seq<char>, champ: Option<u32>)
    ensures
        game_sum(gs, puuid, champ, g_win()) <= game_sum(gs, puuid, champ, g_one()),
        game_sum(gs, puuid, champ, g_one()) <= gs.len(),
        champ is None ==> game_sum(gs, puuid, champ, g_one()) == gs.len(),
    decreases gs.len(),
{
    if gs.len() > 0 {
        lemma_count_bounds(gs.drop_last(), puuid, champ);
    }
}

/// What the statistics need of the game at position `i`, when it is counted.
proof fn lemma_analysis_step(gs: Seq<Game>, puuid: Seq<char>, i: int)
    requires
        analysis_fits(gs, puuid),
        gs.len() <= usize::MAX,
        0 <= i < gs.len(),
        counted_spec(gs[i], puuid),
    ensures
        ({
            let cgi = counted_games(gs.take(i), puuid);
            let cg1 = counted_games(gs.take(i + 1), puuid);
            let p = pof(gs[i], puuid);
            &&& cg1 == cgi.push(gs[i])
            &&& cgi.len() <= i
            &&& team_sums_fit(gs[i], p)
            &&& champion_fits(cg1, puuid, p.champion_id)
            &&& game_sum(cg1, puuid, None, g_kills()) <= u64::MAX
            &&& game_sum(cg1, puuid, None, g_deaths()) <= u64::MAX
            &&& game_sum(cg1, puuid, None, g_assists()) <= u64::MAX
        }),
{
    let cg = counted_games(gs, puuid);
    let cgi = counted_games(gs.take(i), puuid);
    let cg1 = counted_games(gs.take(i + 1), puuid);
    let g = gs[i];
    let c = pof(g, puuid).champion_id;
    lemma_counted_step(gs, puuid, i);
    lemma_counted_len(gs.take(i), puuid);
    lemma_counted_prefix(gs, puuid, i + 1);
    let m = cg1.len() as int;
    assert(cg1 == cg.take(m));
    assert(cg1[m - 1] == g);
    assert(cg.take(m)[m - 1] == cg[m - 1]);
    assert(cg[m - 1] == g);
    assert(team_sums_fit(cg[m - 1], pof(cg[m - 1], puuid)));
    lemma_counted_len(gs, puuid);
    lemma_count_bounds(cg1, puuid, Some(c));
    lemma_game_sum_prefix(cg, puuid, Some(c), g_kills(), m);
    lemma_game_sum_prefix(cg, puuid, Some(c), g_deaths(), m);
    lemma_game_sum_prefix(cg, puuid, Some(c), g_assists(), m);
    lemma_game_sum_prefix(cg, puuid, Some(c), g_damage(), m);
    lemma_game_sum_prefix(cg, puuid, Some(c), g_cs(), m);
    lemma_game_sum_prefix(cg, puuid, Some(c), g_gold(), m);
    lemma_game_sum_prefix(cg, puuid, Some(c), g_team_damage(), m);
    lemma_game_sum_prefix(cg, puuid, Some(c), g_team_gold(), m);
    lemma_game_sum_prefix(cg, puuid, Some(c), g_mitigated(), m);
    lemma_game_sum_prefix(cg, puuid, Some(c), g_team_mitigated(), m);
    lemma_game_sum_prefix(cg, puuid, Some(c), g_heal(), m);
    lemma_game_sum_prefix(cg, puuid, Some(c), g_team_heal(), m);
    lemma_game_sum_prefix(cg, puuid, None, g_kills(), m);
    lemma_game_sum_prefix(cg, puuid, None, g_deaths(), m);
    lemma_game_sum_prefix(cg, puuid, None, g_assists(), m);
    assert(game_sum(cg, puuid, Some(c), g_kills()) <= u32::MAX);
}

/// A player's totals over the counted games.
#[derive(Clone, Copy, Debug, PartialEq, Eq, Structural)]
pub struct PlayerTotals {
    pub games: usize,
    pub wins: usize,
    pub losses: usize,
    pub kills: u64,
    pub deaths: u64,
    pub assists: u64,
    pub unique_champions: usize,
    pub most_played_champion_id: Option<u32>,
}

/// The statistics of a player over a list of games.
#[derive(Debug)]
pub struct PlayerAnalysis {
    pub summoner: SummonerInfo,
    pub depth_requested: usize,
    pub depth_loaded: usize,
    pub totals: PlayerTotals,
    pub champions: Vec<ChampionTotals>,
    pub recent_games: Vec<RecentGame>,
}

/// Aggregates the games of a player: the counted games in their order as
/// records, the player's totals, and one entry per champion played, listed
/// by `champ_before`. The most played champion is the first of that list.
pub fn analyze_games(summoner: SummonerInfo, depth: usize, games: Vec<Game>) -> (r: PlayerAnalysis)
    requires
        analysis_fits(games@, summoner.puuid@),
    ensures
        ({
            let puuid = summoner.puuid@;
            let cg = counted_games(games@, puuid);
            &&& r.summoner == summoner
            &&& r.depth_requested == depth
            &&& r.depth_loaded == cg.len()
            &&& r.recent_games@.len() == cg.len()
            &&& forall|k: int|
                0 <= k < cg.len() ==> recent_game_spec(
                    #[trigger] r.recent_games@[k],
                    cg[k],
                    pof(cg[k], puuid),
                )
            &&& r.totals.games == cg.len()
            &&& r.totals.wins == game_sum(cg, puuid, None, g_win())
            &&& r.totals.losses == cg.len() - game_sum(cg, puuid, None, g_win())
            &&& r.totals.kills == game_sum(cg, puuid, None, g_kills())
            &&& r.totals.deaths == game_sum(cg, puuid, None, g_deaths())
            &&& r.totals.assists == game_sum(cg, puuid, None, g_assists())
            &&& champions_inv(r.champions@, cg, puuid)
            &&& champions_sorted(r.champions@)
            &&& r.totals.unique_champions == r.champions@.len()
            &&& r.totals.most_played_champion_id == if r.champions@.len() == 0 {
                None
            } else {
                Some(r.champions@[0].champion_id)
            }
            &&& forall|i: int, j: int|
                0 <= i < j < r.champions@.len() ==> by_games(#[trigger] r.champions@[i], #[trigger] r.champions@[j])
            &&& r.totals.most_played_champion_id is None <==> cg.len() == 0
            &&& r.totals.most_played_champion_id matches Some(c) ==> forall|c2: u32|
                #[trigger] game_sum(cg, puuid, Some(c2), g_one()) <= game_sum(cg, puuid, Some(c), g_one())
        }),
{
    let ghost puuid = summoner.puuid@;
    let ghost gs = games@;
    let n = games.len();
    let mut recent: Vec<RecentGame> = Vec::new();
    let mut accs: Vec<ChampionTotals> = Vec::new();
    let mut wins: usize = 0;
    let mut kills: u64 = 0;
    let mut deaths: u64 = 0;
    let mut assists: u64 = 0;
    let mut i: usize = 0;
    proof {
        assert(gs.take(0) =~= Seq::<Game>::empty());
    }
    while i < n
        invariant
            n == gs.len(),
            gs == games@,
            puuid == summoner.puuid@,
            analysis_fits(gs, puuid),
            i <= n,
            ({
                let cgi = counted_games(gs.take(i as int), puuid);
                &&& recent@.len() == cgi.len()
                &&& forall|k: int|
                    0 <= k < cgi.len() ==> recent_game_spec(
                        #[trigger] recent@[k],
                        cgi[k],
                        pof(cgi[k], puuid),
                    )
                &&& wins == game_sum(cgi, puuid, None, g_win())
                &&& kills == game_sum(cgi, puuid, None, g_kills())
                &&& deaths == game_sum(cgi, puuid, None, g_deaths())
                &&& assists == game_sum(cgi, puuid, None, g_assists())
                &&& champions_inv(accs@, cgi, puuid)
            }),
        decreases n - i,
    {
        let ghost cgi = counted_games(gs.take(i as int), puuid);
        proof {
            lemma_counted_step(gs, puuid, i as int);
        }
        let game = &games[i];
        if !is_pve_queue(game.queue_id) && game.game_duration >= MIN_VALID_GAME_DURATION_SECONDS {
            if let Some(p) = participant_for_puuid(game, summoner.puuid.as_str()) {
                proof {
                    lemma_analysis_step(gs, puuid, i as int);
                    lemma_count_bounds(cgi, puuid, None);
                    lemma_sum_push(cgi, *game, puuid, None);
                }
                let cs = p.stats.total_minions_killed + p.stats.neutral_minions_killed;
                let t = team_totals_for_participant(game, p);
                if p.stats.win {
                    wins = wins + 1;
                }
                kills = kills + p.stats.kills as u64;
                deaths = deaths + p.stats.deaths as u64;
                assists = assists + p.stats.assists as u64;
                add_to_champions(&mut accs, game, p, cs, &t, Ghost(cgi), Ghost(puuid));
                let record = participant_to_recent_game(game, p);
                recent.push(record);
                proof {
                    let cg1 = cgi.push(*game);
                    assert forall|k: int| 0 <= k < cg1.len() implies recent_game_spec(
                        #[trigger] recent@[k],
                        cg1[k],
                        pof(cg1[k], puuid),
                    ) by {
                        if k < cgi.len() {
                            assert(cg1[k] == cgi[k]);
                        }
                    }
                }
            }
        }
        i = i + 1;
    }
    let ghost cg = counted_games(gs, puuid);
    proof {
        assert(gs.take(n as int) =~= gs);
        lemma_count_bounds(cg, puuid, None);
    }
    let total = recent.len();
    let losses = total - wins;
    let champions = sort_champions(&accs);
    proof {
        lemma_sorted_inv(accs@, champions@, cg, puuid);
    }
    let most_played = if champions.len() == 0 {
        None
    } else {
        Some(champions[0].champion_id)
    };
    proof {
        let cs = champions@;
        lemma_champions_by_games(cs);
        lemma_count_bounds(cg, puuid, None);
        if cg.len() > 0 {
            let c = pof(cg.last(), puuid).champion_id;
            lemma_game_sum_nonneg(cg.drop_last(), puuid, Some(c), g_one());
            assert(game_sum(cg, puuid, Some(c), g_one()) > 0);
            let k = choose|k: int| 0 <= k < cs.len() && #[trigger] cs[k].champion_id == c;
            assert(cs.len() > 0);
        }
        if cs.len() > 0 {
            let c = cs[0].champion_id;
            assert(cs[0] == champion_totals_spec(cg, puuid, c));
            lemma_count_bounds(cg, puuid, Some(c));
            lemma_game_sum_nonneg(cg, puuid, Some(c), g_one());
            assert forall|c2: u32| #[trigger] game_sum(cg, puuid, Some(c2), g_one()) <= game_sum(
                cg,
                puuid,
                Some(c),
                g_one(),
            ) by {
                if game_sum(cg, puuid, Some(c2), g_one()) > 0 {
                    let k = choose|k: int| 0 <= k < cs.len() && #[trigger] cs[k].champion_id == c2;
                    assert(cs[k] == champion_totals_spec(cg, puuid, cs[k].champion_id));
                    lemma_count_bounds(cg, puuid, Some(c2));
                    assert(cs[k].games <= cs[0].games);
                }
            }
        }
    }
    let totals = PlayerTotals {
        games: total,
        wins,
        losses,
        kills,
        deaths,
        assists,
        unique_champions: champions.len(),
        most_played_champion_id: most_played,
    };
    PlayerAnalysis {
        summoner,
        depth_requested: depth,
        depth_loaded: total,
        totals,
        champions,
        recent_games: recent,
    }
}

/// `s` with index `j` placed after every index whose participant id is not
/// larger than that of `j`, and before the rest.
pub open spec fn insert_by_participant_id(ps: Seq<Participant>, s: Seq<usize>, j: usize) -> Seq<usize>
    decreases s.len(),
{
    if s.len() == 0 {
        seq![j]
    } else if ps[s.last() as int].participant_id <= ps[j as int].participant_id {
        s.push(j)
    } else {
        insert_by_participant_id(ps, s.drop_last(), j).push(s.last())
    }
}

/// The indices of the first `n` participants that play in team `team_id`,
/// stably sorted by participant id.
pub open spec fn team_order(ps: Seq<Participant>, team_id: u32, n: int) -> Seq<usize>
    decreases n,
{
    if n <= 0 {
        Seq::empty()
    } else {
        let rest = team_order(ps, team_id, n - 1);
        if ps[n - 1].team_id == team_id {
            insert_by_participant_id(ps, rest, (n - 1) as usize)
        } else {
            rest
        }
    }
}

proof fn lemma_insert_by_participant_id(ps: Seq<Participant>, s: Seq<usize>, j: usize, pos: int)
    requires
        0 <= pos <= s.len(),
        forall|x: int| pos <= x < s.len() ==> ps[#[trigger] s[x] as int].participant_id
            > ps[j as int].participant_id,
        pos > 0 ==> ps[s[pos - 1] as int].participant_id <= ps[j as int].participant_id,
    ensures
        insert_by_participant_id(ps, s, j) == s.insert(pos, j),
    decreases s.len(),
{
    s.insert_ensures(pos, j);
    if s.len() == 0 {
        assert(s.insert(pos, j) =~= seq![j]);
    } else if pos == s.len() {
        assert(s.insert(pos, j) =~= s.push(j));
    } else {
        let d = s.drop_last();
        assert(s[s.len() - 1] == s.last());
        lemma_insert_by_participant_id(ps, d, j, pos);
        d.insert_ensures(pos, j);
        assert(s.insert(pos, j) =~= d.insert(pos, j).push(s.last()));
    }
}

/// A participant as listed in the detail of a game.
#[derive(Debug)]
pub struct MatchDetailPlayer {
    pub participant_id: u32,
    pub puuid: String,
    pub game_name: String,
    pub tag_line: String,
    pub summoner_name: String,
    pub team_id: u32,
    pub player_subteam_id: u32,
    pub record: RecentGame,
}

/// One team in the detail of a game.
#[derive(Debug)]
pub struct MatchDetailTeam {
    pub team_id: u32,
    pub name: String,
    pub win: bool,
    pub players: Vec<MatchDetailPlayer>,
}

/// The detail of one game, by team.
#[derive(Debug)]
pub struct MatchDetailResponse {
    pub game_id: u64,
    pub queue_id: u32,
    pub game_mode: String,
    pub game_creation: i64,
    pub game_duration: i64,
    pub teams: Vec<MatchDetailTeam>,
}

/// `d` lists participant `p` of game `g`.
pub open spec fn detail_player_spec(d: MatchDetailPlayer, g: Game, p: Participant) -> bool {
    &&& d.participant_id == p.participant_id
    &&& d.team_id == p.team_id
    &&& d.player_subteam_id == p.stats.player_subteam_id
    &&& match identity_spec(g, p.participant_id) {
        Some(player) => {
            &&& d.puuid@ == player.puuid@
            &&& d.game_name@ == player.game_name@
            &&& d.tag_line@ == player.tag_line@
            &&& d.summoner_name@ == player.summoner_name@
        },
        None => {
            &&& d.puuid@.len() == 0
            &&& d.game_name@.len() == 0
            &&& d.tag_line@.len() == 0
            &&& d.summoner_name@.len() == 0
        },
    }
    &&& recent_game_spec(d.record, g, p)
}

/// Every participant's team sums fit their types.
pub open spec fn game_sums_fit(g: Game) -> bool {
    forall|j: int| 0 <= j < g.participants@.len() ==> team_sums_fit(g, #[trigger] g.participants@[j])
}

fn detail_player(game: &Game, p: &Participant) -> (r: MatchDetailPlayer)
    requires
        team_sums_fit(*game, *p),
    ensures
        detail_player_spec(r, *game, *p),
{
    let identity = identity_for_participant(game, p.participant_id);
    let record = participant_to_recent_game(game, p);
    MatchDetailPlayer {
        participant_id: p.participant_id,
        puuid: identity.puuid,
        game_name: identity.game_name,
        tag_line: identity.tag_line,
        summoner_name: identity.summoner_name,
        team_id: p.team_id,
        player_subteam_id: p.stats.player_subteam_id,
        record,
    }
}

/// The team ids of participants, in their order.
pub open spec fn participant_team_ids(ps: Seq<Participant>) -> Seq<u32> {
    ps.map_values(|p: Participant| p.team_id)
}

/// The ids of teams, in their order.
pub open spec fn detail_team_ids(ts: Seq<MatchDetailTeam>) -> Seq<u32> {
    ts.map_values(|t: MatchDetailTeam| t.team_id)
}

/// The team ids of the participants, ascending, each once.
fn team_ids_of(ps: &Vec<Participant>) -> (r: Vec<u32>)
    ensures
        forall|a: int, b: int| 0 <= a < b < r@.len() ==> #[trigger] r@[a] < #[trigger] r@[b],
        forall|x: int| 0 <= x < r@.len() ==> participant_team_ids(ps@).contains(#[trigger] r@[x]),
        forall|j: int| 0 <= j < ps@.len() ==> r@.contains(#[trigger] ps@[j].team_id),
{
    let n = ps.len();
    let mut ids: Vec<u32> = Vec::new();
    let mut i: usize = 0;
    while i < n
        invariant
            n == ps@.len(),
            i <= n,
            forall|a: int, b: int| 0 <= a < b < ids@.len() ==> #[trigger] ids@[a] < #[trigger] ids@[b],
            forall|x: int| 0 <= x < ids@.len() ==> participant_team_ids(ps@.take(i as int)).contains(#[trigger] ids@[x]),
            forall|j: int| 0 <= j < i ==> ids@.contains(#[trigger] ps@[j].team_id),
        decreases n - i,
    {
        let t = ps[i].team_id;
        let m = ids.len();
        let mut pos: usize = 0;
        while pos < m && ids[pos] < t
            invariant
                m == ids@.len(),
                pos <= m,
                forall|x: int| 0 <= x < pos ==> #[trigger] ids@[x] < t,
            decreases m - pos,
        {
            pos = pos + 1;
        }
        if pos < m && ids[pos] == t {
            proof {
                assert forall|j: int| 0 <= j < i + 1 implies ids@.contains(#[trigger] ps@[j].team_id) by {
                    if j == i {
                        assert(ids@[pos as int] == t);
                    }
                }
                let ti = participant_team_ids(ps@.take(i as int));
                let ti1 = participant_team_ids(ps@.take(i + 1));
                assert forall|x: int| 0 <= x < ids@.len() implies ti1.contains(#[trigger] ids@[x]) by {
                    assert(ti.contains(ids@[x]));
                    let j = choose|j: int| 0 <= j < ti.len() && ti[j] == ids@[x];
                    assert(ti1[j] == ids@[x]);
                }
            }
        } else {
            let ghost old_ids = ids@;
            proof {
                old_ids.insert_ensures(pos as int, t);
                assert forall|x: int| pos <= x < old_ids.len() implies t < #[trigger] old_ids[x] by {
                    if x > pos {
                        assert(old_ids[pos as int] < old_ids[x]);
                    }
                }
            }
            ids.insert(pos, t);
            proof {
                assert forall|a: int, b: int| 0 <= a < b < ids@.len() implies #[trigger] ids@[a] < #[trigger] ids@[b] by {
                    if b < pos {
                    } else if b == pos {
                    } else if a < pos {
                        assert(ids@[b] == old_ids[b - 1]);
                    } else if a == pos {
                        assert(ids@[b] == old_ids[b - 1]);
                    } else {
                        assert(ids@[a] == old_ids[a - 1]);
                        assert(ids@[b] == old_ids[b - 1]);
                    }
                }
                let ti = participant_team_ids(ps@.take(i as int));
                let ti1 = participant_team_ids(ps@.take(i + 1));
                assert forall|x: int| 0 <= x < ids@.len() implies ti1.contains(#[trigger] ids@[x]) by {
                    if x == pos {
                        assert(ti1[i as int] == ids@[x]);
                    } else {
                        let y = if x < pos { x } else { x - 1 };
                        assert(ids@[x] == old_ids[y]);
                        assert(ti.contains(old_ids[y]));
                        let j = choose|j: int| 0 <= j < ti.len() && ti[j] == old_ids[y];
                        assert(ti1[j] == ids@[x]);
                    }
                }
                assert forall|j: int| 0 <= j < i + 1 implies ids@.contains(#[trigger] ps@[j].team_id) by {
                    if j == i {
                        assert(ids@[pos as int] == t);
                    } else {
                        assert(old_ids.contains(ps@[j].team_id));
                        let x = choose|x: int| 0 <= x < old_ids.len() && old_ids[x] == ps@[j].team_id;
                        if x < pos {
                            assert(ids@[x] == old_ids[x]);
                        } else {
                            assert(ids@[x + 1] == old_ids[x]);
                        }
                    }
                }
            }
        }
        i = i + 1;
    }
    assert(ps@.take(n as int) =~= ps@);
    ids
}

/// The indices of the participants of team `team_id`, stably sorted by participant id.
fn team_order_of(ps: &Vec<Participant>, team_id: u32) -> (r: Vec<usize>)
    ensures
        r@ == team_order(ps@, team_id, ps@.len() as int),
        forall|x: int| 0 <= x < r@.len() ==> #[trigger] r@[x] < ps@.len(),
{
    let n = ps.len();
    let mut order: Vec<usize> = Vec::new();
    let mut i: usize = 0;
    while i < n
        invariant
            n == ps@.len(),
            i <= n,
            order@ == team_order(ps@, team_id, i as int),
            forall|x: int| 0 <= x < order@.len() ==> #[trigger] order@[x] < i,
        decreases n - i,
    {
        if ps[i].team_id == team_id {
            let mut pos = order.len();
            while pos > 0 && ps[order[pos - 1]].participant_id > ps[i].participant_id
                invariant
                    n == ps@.len(),
                    i < n,
                    pos <= order@.len(),
                    forall|x: int| 0 <= x < order@.len() ==> #[trigger] order@[x] < i,
                    forall|x: int| pos <= x < order@.len() ==> ps@[#[trigger] order@[x] as int].participant_id
                        > ps@[i as int].participant_id,
                decreases pos,
            {
                pos = pos - 1;
            }
            proof {
                lemma_insert_by_participant_id(ps@, order@, i, pos as int);
                order@.insert_ensures(pos as int, i);
            }
            order.insert(pos, i);
        }
        i = i + 1;
    }
    order
}

/// Team `t` of game `g`, whose participants are `order` in that order.
pub open spec fn detail_team_spec(t: MatchDetailTeam, g: Game) -> bool {
    let ps = g.participants@;
    let order = team_order(ps, t.team_id, ps.len() as int);
    &&& t.name@ == team_name_spec(t.team_id)
    &&& t.players@.len() == order.len()
    &&& forall|k: int|
        0 <= k < order.len() ==> detail_player_spec(#[trigger] t.players@[k], g, ps[order[k] as int])
    &&& t.win == (order.len() > 0 && ps[order[0] as int].stats.win)
}

/// The detail of a game: its teams in ascending team id, each with its
/// participants ordered by participant id (keeping their order in the game on
/// equal ids), a team winning when its first listed player won.
pub fn match_detail_from_game(game: Game) -> (r: MatchDetailResponse)
    requires
        game_sums_fit(game),
    ensures
        r.game_id == game.game_id,
        r.queue_id == game.queue_id,
        r.game_mode@ == game.game_mode@,
        r.game_creation == game.game_creation,
        r.game_duration == game.game_duration,
        forall|a: int, b: int| 0 <= a < b < r.teams@.len() ==> #[trigger] r.teams@[a].team_id < #[trigger] r.teams@[b].team_id,
        forall|x: int|
            0 <= x < r.teams@.len() ==> participant_team_ids(game.participants@).contains(
                #[trigger] r.teams@[x].team_id,
            ),
        forall|j: int|
            0 <= j < game.participants@.len() ==> detail_team_ids(r.teams@).contains(
                #[trigger] game.participants@[j].team_id,
            ),
        forall|x: int| 0 <= x < r.teams@.len() ==> detail_team_spec(#[trigger] r.teams@[x], game),
{
    let ps = &game.participants;
    let ids = team_ids_of(ps);
    let mut teams: Vec<MatchDetailTeam> = Vec::new();
    let mut x: usize = 0;
    while x < ids.len()
        invariant
            game_sums_fit(game),
            ps@ == game.participants@,
            x <= ids@.len(),
            teams@.len() == x,
            forall|k: int| 0 <= k < x ==> (#[trigger] teams@[k]).team_id == ids@[k],
            forall|k: int| 0 <= k < x ==> detail_team_spec(#[trigger] teams@[k], game),
        decreases ids@.len() - x,
    {
        let tid = ids[x];
        let order = team_order_of(ps, tid);
        let mut players: Vec<MatchDetailPlayer> = Vec::new();
        let mut k: usize = 0;
        while k < order.len()
            invariant
                game_sums_fit(game),
                ps@ == game.participants@,
                order@ == team_order(ps@, tid, ps@.len() as int),
                forall|y: int| 0 <= y < order@.len() ==> #[trigger] order@[y] < ps@.len(),
                k <= order@.len(),
                players@.len() == k,
                forall|y: int| 0 <= y < k ==> detail_player_spec(#[trigger] players@[y], game, ps@[order@[y] as int]),
            decreases order@.len() - k,
        {
            let j = order[k];
            let p = &ps[j];
            players.push(detail_player(&game, p));
            k = k + 1;
        }
        let win = if players.len() > 0 {
            players[0].record.win
        } else {
            false
        };
        teams.push(MatchDetailTeam { team_id: tid, name: team_name(tid), win, players });
        x = x + 1;
    }
    proof {
        assert forall|j: int| 0 <= j < game.participants@.len() implies detail_team_ids(teams@).contains(
            #[trigger] game.participants@[j].team_id,
        ) by {
            assert(ids@.contains(ps@[j].team_id));
            let y = choose|y: int| 0 <= y < ids@.len() && ids@[y] == ps@[j].team_id;
            assert(detail_team_ids(teams@)[y] == ids@[y]);
        }
    }
    MatchDetailResponse {
        game_id: game.game_id,
        queue_id: game.queue_id,
        game_mode: game.game_mode,
        game_creation: game.game_creation,
        game_duration: game.game_duration,
        teams,
    }
}


/// The positions in `games` of the games counted for the player, in order:
/// the `k`-th is the game of the `k`-th record of `analyze_games`.
pub fn counted_game_positions(games: &Vec<Game>, puuid: &str) -> (r: Vec<usize>)
    ensures
        r@.len() == counted_games(games@, puuid@).len(),
        forall|k: int|
            0 <= k < r@.len() ==> r@[k] < games@.len() && games@[#[trigger] r@[k] as int] == counted_games(
                games@,
                puuid@,
            )[k],
{
    let ghost gs = games@;
    let ghost pu = puuid@;
    let mut out: Vec<usize> = Vec::new();
    let mut i: usize = 0;
    assert(gs.take(0) =~= Seq::<Game>::empty());
    while i < games.len()
        invariant
            gs == games@,
            pu == puuid@,
            i <= gs.len(),
            out@.len() == counted_games(gs.take(i as int), pu).len(),
            forall|k: int|
                0 <= k < out@.len() ==> out@[k] < gs.len() && gs[#[trigger] out@[k] as int] == counted_games(
                    gs.take(i as int),
                    pu,
                )[k],
        decreases gs.len() - i,
    {
        proof {
            lemma_counted_step(gs, pu, i as int);
        }
        let game = &games[i];
        if !is_pve_queue(game.queue_id) && game.game_duration >= MIN_VALID_GAME_DURATION_SECONDS {
            if participant_for_puuid(game, puuid).is_some() {
                out.push(i);
            }
        }
        i = i + 1;
    }
    assert(gs.take(gs.len() as int) =~= gs);
    out
}

} // verus!
