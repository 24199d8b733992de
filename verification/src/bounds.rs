//! Checks that the sums the statistics keep fit their integer types, so that
//! callers can test their input before asking for statistics.
use vstd::prelude::*;

use crate::models::{Game, Participant};
use crate::stats::{
    analysis_fits, counted_games, counted_spec, f_damage, f_deaths, f_gold, f_heal, f_immobilizations,
    f_immobilize_kills, f_kills, f_mitigated, f_taken, g_assists, g_cs, g_damage, g_deaths, g_gold, g_heal,
    g_kills, g_mitigated, g_team_damage, g_team_gold, g_team_heal, g_team_mitigated, game_sum, game_sums_fit,
    is_pve_queue, lemma_counted_prefix, lemma_game_sum_prefix, participant_for_puuid, pof, same_stat_team,
    team_sum, team_sums_fit,
    team_totals_for_participant, MIN_VALID_GAME_DURATION_SECONDS,
};

verus! {

/// The participant values that team sums add up, by number.
pub open spec fn team_field(k: int) -> spec_fn(Participant) -> int {
    if k == 0 {
        f_damage()
    } else if k == 1 {
        f_gold()
    } else if k == 2 {
        f_mitigated()
    } else if k == 3 {
        f_heal()
    } else if k == 4 {
        f_kills()
    } else if k == 5 {
        f_deaths()
    } else if k == 6 {
        f_taken()
    } else if k == 7 {
        f_immobilizations()
    } else {
        f_immobilize_kills()
    }
}

fn team_field_value(p: &Participant, k: usize) -> (r: u32)
    requires
        k < 9,
    ensures
        r as int == team_field(k as int)(*p),
{
    let s = &p.stats;
    if k == 0 {
        s.total_damage_dealt_to_champions
    } else if k == 1 {
        s.gold_earned
    } else if k == 2 {
        s.damage_self_mitigated
    } else if k == 3 {
        s.total_heal
    } else if k == 4 {
        s.kills
    } else if k == 5 {
        s.deaths
    } else if k == 6 {
        s.total_damage_taken
    } else if k == 7 {
        s.enemy_champion_immobilizations
    } else {
        s.immobilize_and_kill_with_ally
    }
}

proof fn lemma_team_sum_prefix(g: Game, me: Participant, ps: Seq<Participant>, k: int, f: spec_fn(Participant) -> int)
    requires
        0 <= k <= ps.len(),
        forall|p: Participant| #[trigger] f(p) >= 0,
    ensures
        0 <= team_sum(g, me, ps.take(k), f) <= team_sum(g, me, ps, f),
    decreases ps.len() - k,
{
    if k < ps.len() {
        lemma_team_sum_prefix(g, me, ps, k + 1, f);
        assert(ps.take(k + 1).drop_last() =~= ps.take(k));
        assert(ps.take(k + 1).last() == ps[k]);
        assert(f(ps[k]) >= 0);
        lemma_team_sum_nonneg(g, me, ps.take(k), f);
    } else {
        assert(ps.take(k) =~= ps);
        lemma_team_sum_nonneg(g, me, ps, f);
    }
}

proof fn lemma_team_sum_nonneg(g: Game, me: Participant, ps: Seq<Participant>, f: spec_fn(Participant) -> int)
    requires
        forall|p: Participant| #[trigger] f(p) >= 0,
    ensures
        team_sum(g, me, ps, f) >= 0,
    decreases ps.len(),
{
    if ps.len() > 0 {
        lemma_team_sum_nonneg(g, me, ps.drop_last(), f);
    }
}

proof fn lemma_team_field_nonneg(k: int)
    ensures
        forall|p: Participant| #[trigger] team_field(k)(p) >= 0,
{
}

/// Whether the team sum of value `k` for `me` fits in a `u32`.
fn team_field_fits(game: &Game, me: &Participant, k: usize) -> (r: bool)
    requires
        k < 9,
    ensures
        r == (team_sum(*game, *me, game.participants@, team_field(k as int)) <= u32::MAX),
{
    let ps = &game.participants;
    let ghost f = team_field(k as int);
    let mut acc: u64 = 0;
    let mut i: usize = 0;
    assert(ps@.take(0) =~= Seq::<Participant>::empty());
    while i < ps.len()
        invariant
            ps@ == game.participants@,
            k < 9,
            f == team_field(k as int),
            i <= ps@.len(),
            acc <= u32::MAX,
            acc == team_sum(*game, *me, ps@.take(i as int), f),
        decreases ps@.len() - i,
    {
        assert(ps@.take(i + 1).drop_last() =~= ps@.take(i as int));
        assert(ps@.take(i + 1).last() == ps@[i as int]);
        if same_stat_team(game, me, &ps[i]) {
            acc = acc + team_field_value(&ps[i], k) as u64;
            assert(acc == team_sum(*game, *me, ps@.take(i + 1), f));
            if acc > u32::MAX as u64 {
                proof {
                    lemma_team_field_nonneg(k as int);
                    lemma_team_sum_prefix(*game, *me, ps@, i + 1, f);
                }
                return false;
            }
        }
        i = i + 1;
    }
    assert(ps@.take(ps@.len() as int) =~= ps@);
    true
}

/// Whether every team sum of `me` in the game, and its creep score, fit in a `u32`.
pub fn team_sums_fit_check(game: &Game, me: &Participant) -> (r: bool)
    ensures
        r == team_sums_fit(*game, *me),
{
    let mut k: usize = 0;
    while k < 9
        invariant
            k <= 9,
            forall|j: int| 0 <= j < k ==> team_sum(*game, *me, game.participants@, #[trigger] team_field(j)) <= u32::MAX,
        decreases 9 - k,
    {
        if !team_field_fits(game, me, k) {
            return false;
        }
        k = k + 1;
    }
    assert(team_field(0) == f_damage());
    assert(team_field(8) == f_immobilize_kills());
    assert(team_sum(*game, *me, game.participants@, team_field(1)) <= u32::MAX);
    assert(team_sum(*game, *me, game.participants@, team_field(2)) <= u32::MAX);
    assert(team_sum(*game, *me, game.participants@, team_field(3)) <= u32::MAX);
    assert(team_sum(*game, *me, game.participants@, team_field(4)) <= u32::MAX);
    assert(team_sum(*game, *me, game.participants@, team_field(5)) <= u32::MAX);
    assert(team_sum(*game, *me, game.participants@, team_field(6)) <= u32::MAX);
    assert(team_sum(*game, *me, game.participants@, team_field(7)) <= u32::MAX);
    (me.stats.total_minions_killed as u64 + me.stats.neutral_minions_killed as u64) <= u32::MAX as u64
}

/// Whether the team sums of every participant of the game fit, as the
/// detail of the game needs.
pub fn game_sums_fit_check(game: &Game) -> (r: bool)
    ensures
        r == game_sums_fit(*game),
{
    let ps = &game.participants;
    let mut i: usize = 0;
    while i < ps.len()
        invariant
            ps@ == game.participants@,
            i <= ps@.len(),
            forall|j: int| 0 <= j < i ==> team_sums_fit(*game, #[trigger] ps@[j]),
        decreases ps@.len() - i,
    {
        if !team_sums_fit_check(game, &ps[i]) {
            proof {
                assert(game.participants@[i as int] == ps@[i as int]);
                assert(!team_sums_fit(*game, game.participants@[i as int]));
                assert(!game_sums_fit(*game));
            }
            return false;
        }
        i = i + 1;
    }
    true
}

/// A sum over the games of one champion is at most the sum over all games.
proof fn lemma_champion_sum_le_total(
    gs: Seq<Game>,
    puuid: Seq<char>,
    c: u32,
    f: spec_fn(Game, Participant) -> int,
)
    requires
        forall|g: Game, p: Participant| #[trigger] f(g, p) >= 0,
    ensures
        0 <= game_sum(gs, puuid, Some(c), f) <= game_sum(gs, puuid, None, f),
    decreases gs.len(),
{
    if gs.len() > 0 {
        lemma_champion_sum_le_total(gs.drop_last(), puuid, c, f);
        let g = gs.last();
        assert(f(g, pof(g, puuid)) >= 0);
    }
}

proof fn lemma_sum_push(cg: Seq<Game>, g: Game, puuid: Seq<char>, f: spec_fn(Game, Participant) -> int)
    ensures
        game_sum(cg.push(g), puuid, None, f) == game_sum(cg, puuid, None, f) + f(g, pof(g, puuid)),
{
    assert(cg.push(g).drop_last() =~= cg);
}

proof fn lemma_counted_step(gs: Seq<Game>, puuid: Seq<char>, i: int)
    requires
        0 <= i < gs.len(),
    ensures
        counted_games(gs.take(i + 1), puuid) == if counted_spec(gs[i], puuid) {
            counted_games(gs.take(i), puuid).push(gs[i])
        } else {
            counted_games(gs.take(i), puuid)
        },
{
    assert(gs.take(i + 1).drop_last() =~= gs.take(i));
}

/// Adds `v` to `acc` when the result stays within `bound`.
fn add_within(acc: u64, v: u64, bound: u64) -> (r: Option<u64>)
    ensures
        r matches Some(s) ==> s == acc + v && s <= bound,
        r is None ==> acc + v > bound,
{
    match acc.checked_add(v) {
        Some(s) => if s <= bound {
            Some(s)
        } else {
            None
        },
        None => None,
    }
}

/// The sums the statistics of a player keep, over the counted games, fit
/// when the total over all counted games does: kills, deaths and assists in
/// a `u32`, the other values in a `u64`, and every counted game's team sums
/// in a `u32`.
pub open spec fn totals_fit(cg: Seq<Game>, puuid: Seq<char>) -> bool {
    &&& forall|i: int| 0 <= i < cg.len() ==> team_sums_fit(cg[i], #[trigger] pof(cg[i], puuid))
    &&& game_sum(cg, puuid, None, g_kills()) <= u32::MAX
    &&& game_sum(cg, puuid, None, g_deaths()) <= u32::MAX
    &&& game_sum(cg, puuid, None, g_assists()) <= u32::MAX
    &&& game_sum(cg, puuid, None, g_damage()) <= u64::MAX
    &&& game_sum(cg, puuid, None, g_cs()) <= u64::MAX
    &&& game_sum(cg, puuid, None, g_gold()) <= u64::MAX
    &&& game_sum(cg, puuid, None, g_team_damage()) <= u64::MAX
    &&& game_sum(cg, puuid, None, g_team_gold()) <= u64::MAX
    &&& game_sum(cg, puuid, None, g_mitigated()) <= u64::MAX
    &&& game_sum(cg, puuid, None, g_team_mitigated()) <= u64::MAX
    &&& game_sum(cg, puuid, None, g_heal()) <= u64::MAX
    &&& game_sum(cg, puuid, None, g_team_heal()) <= u64::MAX
}

/// Totals that fit make every sum of the statistics fit.
pub proof fn lemma_totals_fit_analysis(gs: Seq<Game>, puuid: Seq<char>)
    requires
        totals_fit(counted_games(gs, puuid), puuid),
    ensures
        analysis_fits(gs, puuid),
{
    let cg = counted_games(gs, puuid);
    assert forall|c: u32| {
        &&& #[trigger] game_sum(cg, puuid, Some(c), g_kills()) <= u32::MAX
        &&& game_sum(cg, puuid, Some(c), g_deaths()) <= u32::MAX
        &&& game_sum(cg, puuid, Some(c), g_assists()) <= u32::MAX
        &&& game_sum(cg, puuid, Some(c), g_damage()) <= u64::MAX
        &&& game_sum(cg, puuid, Some(c), g_cs()) <= u64::MAX
        &&& game_sum(cg, puuid, Some(c), g_gold()) <= u64::MAX
        &&& game_sum(cg, puuid, Some(c), g_team_damage()) <= u64::MAX
        &&& game_sum(cg, puuid, Some(c), g_team_gold()) <= u64::MAX
        &&& game_sum(cg, puuid, Some(c), g_mitigated()) <= u64::MAX
        &&& game_sum(cg, puuid, Some(c), g_team_mitigated()) <= u64::MAX
        &&& game_sum(cg, puuid, Some(c), g_heal()) <= u64::MAX
        &&& game_sum(cg, puuid, Some(c), g_team_heal()) <= u64::MAX
    } by {
        lemma_champion_sum_le_total(cg, puuid, c, g_kills());
        lemma_champion_sum_le_total(cg, puuid, c, g_deaths());
        lemma_champion_sum_le_total(cg, puuid, c, g_assists());
        lemma_champion_sum_le_total(cg, puuid, c, g_damage());
        lemma_champion_sum_le_total(cg, puuid, c, g_cs());
        lemma_champion_sum_le_total(cg, puuid, c, g_gold());
        lemma_champion_sum_le_total(cg, puuid, c, g_team_damage());
        lemma_champion_sum_le_total(cg, puuid, c, g_team_gold());
        lemma_champion_sum_le_total(cg, puuid, c, g_mitigated());
        lemma_champion_sum_le_total(cg, puuid, c, g_team_mitigated());
        lemma_champion_sum_le_total(cg, puuid, c, g_heal());
        lemma_champion_sum_le_total(cg, puuid, c, g_team_heal());
    }
}

/// Whether the statistics of the player with `puuid` over `games` can be
/// computed: `true` when every counted game's team sums fit and the totals
/// over the counted games fit (see `totals_fit`), which is enough.
pub fn analysis_inputs_fit(games: &Vec<Game>, puuid: &str) -> (r: bool)
    ensures
        r == totals_fit(counted_games(games@, puuid@), puuid@),
        r ==> analysis_fits(games@, puuid@),
{
    let ghost gs = games@;
    let ghost pu = puuid@;
    let mut kills: u64 = 0;
    let mut deaths: u64 = 0;
    let mut assists: u64 = 0;
    let mut damage: u64 = 0;
    let mut cs: u64 = 0;
    let mut gold: u64 = 0;
    let mut team_damage: u64 = 0;
    let mut team_gold: u64 = 0;
    let mut mitigated: u64 = 0;
    let mut team_mitigated: u64 = 0;
    let mut heal: u64 = 0;
    let mut team_heal: u64 = 0;
    let m32 = u32::MAX as u64;
    let m64 = u64::MAX;
    let mut i: usize = 0;
    assert(gs.take(0) =~= Seq::<Game>::empty());
    while i < games.len()
        invariant
            gs == games@,
            pu == puuid@,
            m32 == u32::MAX,
            m64 == u64::MAX,
            i <= gs.len(),
            totals_fit(counted_games(gs.take(i as int), pu), pu),
            kills == game_sum(counted_games(gs.take(i as int), pu), pu, None, g_kills()),
            deaths == game_sum(counted_games(gs.take(i as int), pu), pu, None, g_deaths()),
            assists == game_sum(counted_games(gs.take(i as int), pu), pu, None, g_assists()),
            damage == game_sum(counted_games(gs.take(i as int), pu), pu, None, g_damage()),
            cs == game_sum(counted_games(gs.take(i as int), pu), pu, None, g_cs()),
            gold == game_sum(counted_games(gs.take(i as int), pu), pu, None, g_gold()),
            team_damage == game_sum(counted_games(gs.take(i as int), pu), pu, None, g_team_damage()),
            team_gold == game_sum(counted_games(gs.take(i as int), pu), pu, None, g_team_gold()),
            mitigated == game_sum(counted_games(gs.take(i as int), pu), pu, None, g_mitigated()),
            team_mitigated == game_sum(counted_games(gs.take(i as int), pu), pu, None, g_team_mitigated()),
            heal == game_sum(counted_games(gs.take(i as int), pu), pu, None, g_heal()),
            team_heal == game_sum(counted_games(gs.take(i as int), pu), pu, None, g_team_heal()),
        decreases gs.len() - i,
    {
        let ghost cgi = counted_games(gs.take(i as int), pu);
        proof {
            lemma_counted_step(gs, pu, i as int);
        }
        let game = &games[i];
        if !is_pve_queue(game.queue_id) && game.game_duration >= MIN_VALID_GAME_DURATION_SECONDS {
            if let Some(p) = participant_for_puuid(game, puuid) {
                let ghost cg1 = cgi.push(*game);
                proof {
                    assert(counted_spec(*game, pu));
                    assert(pof(*game, pu) == *p);
                    assert(cg1.drop_last() =~= cgi);
                    lemma_sum_push(cgi, *game, pu, g_kills());
                    lemma_sum_push(cgi, *game, pu, g_deaths());
                    lemma_sum_push(cgi, *game, pu, g_assists());
                    lemma_sum_push(cgi, *game, pu, g_damage());
                    lemma_sum_push(cgi, *game, pu, g_cs());
                    lemma_sum_push(cgi, *game, pu, g_gold());
                    lemma_sum_push(cgi, *game, pu, g_team_damage());
                    lemma_sum_push(cgi, *game, pu, g_team_gold());
                    lemma_sum_push(cgi, *game, pu, g_mitigated());
                    lemma_sum_push(cgi, *game, pu, g_team_mitigated());
                    lemma_sum_push(cgi, *game, pu, g_heal());
                    lemma_sum_push(cgi, *game, pu, g_team_heal());
                }
                if !team_sums_fit_check(game, p) {
                    proof {
                        let cg = counted_games(gs, pu);
                        lemma_counted_prefix(gs, pu, i + 1);
                        assert(cg[cgi.len() as int] == cg1[cgi.len() as int]);
                        assert(cg1[cgi.len() as int] == *game);
                        assert(!team_sums_fit(cg[cgi.len() as int], pof(cg[cgi.len() as int], pu)));
                    }
                    return false;
                }
                let t = team_totals_for_participant(game, p);
                let st = &p.stats;
                let a0 = add_within(kills, st.kills as u64, m32);
                let a1 = add_within(deaths, st.deaths as u64, m32);
                let a2 = add_within(assists, st.assists as u64, m32);
                let a3 = add_within(damage, st.total_damage_dealt_to_champions as u64, m64);
                let a4 = add_within(cs, st.total_minions_killed as u64 + st.neutral_minions_killed as u64, m64);
                let a5 = add_within(gold, st.gold_earned as u64, m64);
                let a6 = add_within(team_damage, t.damage_to_champions as u64, m64);
                let a7 = add_within(team_gold, t.gold_earned as u64, m64);
                let a8 = add_within(mitigated, st.damage_self_mitigated as u64, m64);
                let a9 = add_within(team_mitigated, t.damage_self_mitigated as u64, m64);
                let a10 = add_within(heal, st.total_heal as u64, m64);
                let a11 = add_within(team_heal, t.total_heal as u64, m64);
                match (a0, a1, a2, a3, a4, a5, a6, a7, a8, a9, a10, a11) {
                    (
                        Some(v0),
                        Some(v1),
                        Some(v2),
                        Some(v3),
                        Some(v4),
                        Some(v5),
                        Some(v6),
                        Some(v7),
                        Some(v8),
                        Some(v9),
                        Some(v10),
                        Some(v11),
                    ) => {
                        kills = v0;
                        deaths = v1;
                        assists = v2;
                        damage = v3;
                        cs = v4;
                        gold = v5;
                        team_damage = v6;
                        team_gold = v7;
                        mitigated = v8;
                        team_mitigated = v9;
                        heal = v10;
                        team_heal = v11;
                        proof {
                            assert forall|k: int| 0 <= k < cg1.len() implies team_sums_fit(
                                cg1[k],
                                #[trigger] pof(cg1[k], pu),
                            ) by {
                                if k < cgi.len() {
                                    assert(cg1[k] == cgi[k]);
                                }
                            }
                        }
                    },
                    _ => {
                        proof {
                            let cg = counted_games(gs, pu);
                            lemma_counted_prefix(gs, pu, i + 1);
                            let m = cg1.len() as int;
                            assert(cg.take(m) == cg1);
                            lemma_game_sum_prefix(cg, pu, None, g_kills(), m);
                            lemma_game_sum_prefix(cg, pu, None, g_deaths(), m);
                            lemma_game_sum_prefix(cg, pu, None, g_assists(), m);
                            lemma_game_sum_prefix(cg, pu, None, g_damage(), m);
                            lemma_game_sum_prefix(cg, pu, None, g_cs(), m);
                            lemma_game_sum_prefix(cg, pu, None, g_gold(), m);
                            lemma_game_sum_prefix(cg, pu, None, g_team_damage(), m);
                            lemma_game_sum_prefix(cg, pu, None, g_team_gold(), m);
                            lemma_game_sum_prefix(cg, pu, None, g_mitigated(), m);
                            lemma_game_sum_prefix(cg, pu, None, g_team_mitigated(), m);
                            lemma_game_sum_prefix(cg, pu, None, g_heal(), m);
                            lemma_game_sum_prefix(cg, pu, None, g_team_heal(), m);
                        }
                        return false;
                    },
                }
            }
        }
        i = i + 1;
    }
    proof {
        assert(gs.take(gs.len() as int) =~= gs);
        lemma_totals_fit_analysis(gs, pu);
    }
    true
}

} // verus!
