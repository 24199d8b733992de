//! Facts about the groups that the client reports: who belongs to them, and
//! that distinct players make disjoint groups.
use vstd::prelude::*;

use crate::live::{norm_puuid, LivePlayer, LiveTeam};
use crate::premade::{
    all_carry, cand_view, client_source, disjoint_views, explicit_groups_spec, group_keys,
    group_members, group_ok, groups_ready, in_client_group, insert_sorted_u32, lemma_sorted_set,
    carries, member_view, player_in, sorted_set, strictly_sorted, PremadeCandidate,
};
use crate::text::lemma_str_lt_irreflexive;

verus! {

/// No two players of client groups, in one team or in two, share a
/// normalized PUUID.
pub open spec fn client_puuids_distinct(ts: Seq<LiveTeam>) -> bool {
    forall|t1: int, k1: int, t2: int, k2: int|
        0 <= t1 < ts.len() && 0 <= k1 < ts[t1].players@.len() && 0 <= t2 < ts.len() && 0 <= k2
            < ts[t2].players@.len() && in_client_group(#[trigger] ts[t1].players@[k1]) && in_client_group(
            #[trigger] ts[t2].players@[k2],
        ) && norm_puuid(ts[t1].players@[k1].puuid@) == norm_puuid(ts[t2].players@[k2].puuid@) ==> t1 == t2
            && k1 == k2
}

/// No two players of client groups in `ps` share a normalized PUUID.
pub open spec fn team_distinct(ps: Seq<LivePlayer>) -> bool {
    forall|k1: int, k2: int|
        0 <= k1 < ps.len() && 0 <= k2 < ps.len() && in_client_group(#[trigger] ps[k1]) && in_client_group(
            #[trigger] ps[k2],
        ) && norm_puuid(ps[k1].puuid@) == norm_puuid(ps[k2].puuid@) ==> k1 == k2
}

/// The group id of a player in a client group.
pub open spec fn key_of(p: LivePlayer) -> u32 {
    p.team_participant_id->0
}

/// The client group of the player at `k`, as the sorted set of its members.
pub open spec fn client_group_of(ps: Seq<LivePlayer>, k: int) -> Seq<Seq<char>> {
    sorted_set(group_members(ps, key_of(ps[k])))
}

/// Whether `x` is the normalized PUUID of a player of `ps` in client group `key`.
pub open spec fn member_of(ps: Seq<LivePlayer>, key: u32, x: Seq<char>) -> bool {
    exists|k: int| 0 <= k < ps.len() && in_client_group(#[trigger] ps[k]) && key_of(ps[k]) == key && norm_puuid(ps[k].puuid@) == x
}

/// Whether `x` is the normalized PUUID of a player of `ps` in a client group
/// whose id is among `keys`.
pub open spec fn member_of_keys(ps: Seq<LivePlayer>, keys: Seq<u32>, x: Seq<char>) -> bool {
    exists|k: int|
        0 <= k < ps.len() && in_client_group(#[trigger] ps[k]) && keys.contains(key_of(ps[k])) && norm_puuid(
            ps[k].puuid@,
        ) == x
}

/// The numbers of `s` in strictly increasing order.
pub open spec fn increasing(s: Seq<u32>) -> bool {
    forall|i: int, j: int| 0 <= i < j < s.len() ==> #[trigger] s[i] < #[trigger] s[j]
}

/// A team of a distinct set of players is distinct.
pub proof fn lemma_team_distinct(ts: Seq<LiveTeam>, t: int)
    requires
        client_puuids_distinct(ts),
        0 <= t < ts.len(),
    ensures
        team_distinct(ts[t].players@),
{
    let ps = ts[t].players@;
    assert forall|k1: int, k2: int|
        0 <= k1 < ps.len() && 0 <= k2 < ps.len() && in_client_group(#[trigger] ps[k1]) && in_client_group(
            #[trigger] ps[k2],
        ) && norm_puuid(ps[k1].puuid@) == norm_puuid(ps[k2].puuid@) implies k1 == k2 by {
        assert(in_client_group(ts[t].players@[k1]));
        assert(in_client_group(ts[t].players@[k2]));
    }
}

/// The members of client group `key` are the players with that id, and
/// distinct players give distinct members.
pub proof fn lemma_group_members(ps: Seq<LivePlayer>, key: u32)
    ensures
        forall|i: int| 0 <= i < group_members(ps, key).len() ==> member_of(ps, key, #[trigger] group_members(ps, key)[i]),
        forall|k: int|
            0 <= k < ps.len() && in_client_group(#[trigger] ps[k]) && key_of(ps[k]) == key ==> group_members(
                ps,
                key,
            ).contains(norm_puuid(ps[k].puuid@)),
        team_distinct(ps) ==> group_members(ps, key).no_duplicates(),
    decreases ps.len(),
{
    let gm = group_members(ps, key);
    if ps.len() > 0 {
        let d = ps.drop_last();
        let p = ps.last();
        lemma_group_members(d, key);
        let gd = group_members(d, key);
        assert forall|i: int| 0 <= i < gm.len() implies member_of(ps, key, #[trigger] gm[i]) by {
            if i < gd.len() {
                assert(member_of(d, key, gd[i]));
                let k = choose|k: int| 0 <= k < d.len() && in_client_group(#[trigger] d[k]) && key_of(d[k]) == key && norm_puuid(d[k].puuid@) == gd[i];
                assert(ps[k] == d[k]);
                assert(gm[i] == gd[i]);
            } else {
                assert(ps[ps.len() - 1] == p);
            }
        }
        assert forall|k: int|
            0 <= k < ps.len() && in_client_group(#[trigger] ps[k]) && key_of(ps[k]) == key implies gm.contains(
            norm_puuid(ps[k].puuid@),
        ) by {
            if k < ps.len() - 1 {
                assert(d[k] == ps[k]);
                assert(gd.contains(norm_puuid(d[k].puuid@)));
                let w = choose|w: int| 0 <= w < gd.len() && gd[w] == norm_puuid(d[k].puuid@);
                assert(gm[w] == gd[w]);
            } else {
                assert(gm[gm.len() - 1] == norm_puuid(p.puuid@));
            }
        }
        if team_distinct(ps) {
            assert(team_distinct(d)) by {
                assert forall|k1: int, k2: int|
                    0 <= k1 < d.len() && 0 <= k2 < d.len() && in_client_group(#[trigger] d[k1]) && in_client_group(
                        #[trigger] d[k2],
                    ) && norm_puuid(d[k1].puuid@) == norm_puuid(d[k2].puuid@) implies k1 == k2 by {
                    assert(ps[k1] == d[k1]);
                    assert(ps[k2] == d[k2]);
                }
            }
            if in_client_group(p) && key_of(p) == key {
                assert forall|i: int| 0 <= i < gd.len() implies gd[i] != norm_puuid(p.puuid@) by {
                    assert(member_of(d, key, gd[i]));
                    let k = choose|k: int| 0 <= k < d.len() && in_client_group(#[trigger] d[k]) && key_of(d[k]) == key && norm_puuid(d[k].puuid@) == gd[i];
                    assert(ps[k] == d[k]);
                    assert(in_client_group(ps[ps.len() - 1]));
                }
                assert(gm =~= gd.push(norm_puuid(p.puuid@)));
            }
        }
    }
}

/// Inserting into an increasing list keeps it increasing and adds exactly `x`.
pub proof fn lemma_insert_sorted_u32(s: Seq<u32>, x: u32)
    ensures
        insert_sorted_u32(s, x).to_set() == s.to_set().insert(x),
        increasing(s) ==> increasing(insert_sorted_u32(s, x)),
    decreases s.len(),
{
    let r = insert_sorted_u32(s, x);
    if s.len() == 0 {
        assert(r.to_set() =~= s.to_set().insert(x)) by {
            assert(r[0] == x);
        }
    } else if s.last() == x {
        assert(s.to_set().insert(x) =~= s.to_set()) by {
            assert(s[s.len() - 1] == x);
        }
    } else if s.last() < x {
        assert(r.to_set() =~= s.to_set().insert(x)) by {
            assert forall|y: u32| r.to_set().contains(y) implies s.to_set().insert(x).contains(y) by {
                let k = choose|k: int| 0 <= k < r.len() && r[k] == y;
                if k < s.len() {
                    assert(s[k] == y);
                }
            }
            assert forall|y: u32| s.to_set().insert(x).contains(y) implies r.to_set().contains(y) by {
                if y == x {
                    assert(r[s.len() as int] == x);
                } else {
                    let k = choose|k: int| 0 <= k < s.len() && s[k] == y;
                    assert(r[k] == y);
                }
            }
        }
        if increasing(s) {
            assert forall|i: int, j: int| 0 <= i < j < r.len() implies #[trigger] r[i] < #[trigger] r[j] by {
                if j == s.len() && i < s.len() - 1 {
                    assert(s[i] < s[s.len() - 1]);
                }
            }
        }
    } else {
        let d = s.drop_last();
        let l = s.last();
        lemma_insert_sorted_u32(d, x);
        let di = insert_sorted_u32(d, x);
        assert(s =~= d.push(l));
        assert(r.to_set() =~= s.to_set().insert(x)) by {
            assert forall|y: u32| r.to_set().contains(y) implies s.to_set().insert(x).contains(y) by {
                let k = choose|k: int| 0 <= k < r.len() && r[k] == y;
                if k < r.len() - 1 {
                    assert(di.to_set().contains(y));
                    if y != x {
                        assert(d.to_set().contains(y));
                        let m = choose|m: int| 0 <= m < d.len() && d[m] == y;
                        assert(s[m] == y);
                    }
                } else {
                    assert(s[s.len() - 1] == y);
                }
            }
            assert forall|y: u32| s.to_set().insert(x).contains(y) implies r.to_set().contains(y) by {
                if y == l {
                    assert(r[r.len() - 1] == y);
                } else {
                    if y != x {
                        let k = choose|k: int| 0 <= k < s.len() && s[k] == y;
                        assert(d[k] == y);
                        assert(d.to_set().contains(y));
                    }
                    assert(di.to_set().contains(y));
                    let m = choose|m: int| 0 <= m < di.len() && di[m] == y;
                    assert(r[m] == y);
                }
            }
        }
        if increasing(s) {
            assert(increasing(d)) by {
                assert forall|i: int, j: int| 0 <= i < j < d.len() implies #[trigger] d[i] < #[trigger] d[j] by {
                    assert(s[i] < s[j]);
                }
            }
            assert forall|i: int, j: int| 0 <= i < j < r.len() implies #[trigger] r[i] < #[trigger] r[j] by {
                if j == r.len() - 1 {
                    assert(di.to_set().contains(di[i]));
                    if di[i] != x {
                        assert(d.to_set().contains(di[i]));
                        let k = choose|k: int| 0 <= k < d.len() && d[k] == di[i];
                        assert(s[k] < s[s.len() - 1]);
                    }
                }
            }
        }
    }
}

/// The group ids are increasing and hold the id of every player in a group.
pub proof fn lemma_group_keys(ps: Seq<LivePlayer>)
    ensures
        increasing(group_keys(ps)),
        forall|k: int| 0 <= k < ps.len() && in_client_group(#[trigger] ps[k]) ==> group_keys(ps).contains(key_of(ps[k])),
    decreases ps.len(),
{
    if ps.len() > 0 {
        let d = ps.drop_last();
        let p = ps.last();
        lemma_group_keys(d);
        let kd = group_keys(d);
        if in_client_group(p) {
            lemma_insert_sorted_u32(kd, key_of(p));
        }
        let kp = group_keys(ps);
        assert forall|k: int| 0 <= k < ps.len() && in_client_group(#[trigger] ps[k]) implies kp.contains(key_of(ps[k])) by {
            if k < ps.len() - 1 {
                assert(d[k] == ps[k]);
                assert(kd.contains(key_of(d[k])));
                if in_client_group(p) {
                    assert(kd.to_set().contains(key_of(ps[k])));
                    assert(kp.to_set().contains(key_of(ps[k])));
                }
            } else {
                assert(kp.to_set().contains(key_of(p)));
            }
        }
    }
}

/// A strictly increasing list of strings holds each string once.
pub proof fn lemma_strictly_sorted_unique(s: Seq<Seq<char>>)
    requires
        strictly_sorted(s),
    ensures
        s.no_duplicates(),
{
    assert forall|i: int, j: int| 0 <= i < s.len() && 0 <= j < s.len() && i != j implies s[i] != s[j] by {
        if i < j {
            assert(crate::text::str_lt(s[i], s[j]));
        } else {
            assert(crate::text::str_lt(s[j], s[i]));
        }
        lemma_str_lt_irreflexive(s[i]);
    }
}

/// The sorted set of a list without repeats is as long as the list.
pub proof fn lemma_sorted_set_len(s: Seq<Seq<char>>)
    requires
        s.no_duplicates(),
    ensures
        sorted_set(s).len() == s.len(),
{
    lemma_sorted_set(s);
    lemma_strictly_sorted_unique(sorted_set(s));
    sorted_set(s).unique_seq_to_set();
    s.unique_seq_to_set();
}

/// The client groups of a team with distinct players: each member is a
/// player of one of the ids, each group has at least two members, two
/// groups share no member, and every id with at least two players gives a
/// group.
pub proof fn lemma_explicit_groups(ps: Seq<LivePlayer>, keys: Seq<u32>)
    requires
        team_distinct(ps),
        increasing(keys),
    ensures
        ({
            let eg = explicit_groups_spec(ps, keys);
            &&& forall|i: int, x: Seq<char>| 0 <= i < eg.len() && #[trigger] eg[i].contains(x) ==> member_of_keys(ps, keys, x)
            &&& forall|i: int| 0 <= i < eg.len() ==> (#[trigger] eg[i]).len() >= 2
            &&& forall|i: int, j: int| 0 <= i < j < eg.len() ==> disjoint_views(#[trigger] eg[i], #[trigger] eg[j])
            &&& forall|a: int|
                0 <= a < keys.len() && group_members(ps, #[trigger] keys[a]).len() >= 2 ==> eg.contains(
                    sorted_set(group_members(ps, keys[a])),
                )
        }),
    decreases keys.len(),
{
    let eg = explicit_groups_spec(ps, keys);
    if keys.len() > 0 {
        let kd = keys.drop_last();
        let last = keys.last();
        assert(increasing(kd)) by {
            assert forall|i: int, j: int| 0 <= i < j < kd.len() implies #[trigger] kd[i] < #[trigger] kd[j] by {
                assert(keys[i] < keys[j]);
            }
        }
        lemma_explicit_groups(ps, kd);
        let ed = explicit_groups_spec(ps, kd);
        let gm = group_members(ps, last);
        lemma_group_members(ps, last);
        lemma_sorted_set(gm);
        let g = sorted_set(gm);
        assert forall|x: Seq<char>| g.contains(x) implies member_of(ps, last, x) by {
            assert(g.to_set().contains(x));
            assert(gm.to_set().contains(x));
            let w = choose|w: int| 0 <= w < gm.len() && gm[w] == x;
            assert(member_of(ps, last, gm[w]));
        }
        assert forall|i: int, x: Seq<char>| 0 <= i < eg.len() && #[trigger] eg[i].contains(x) implies member_of_keys(
            ps,
            keys,
            x,
        ) by {
            if i < ed.len() {
                assert(eg[i] == ed[i]);
                assert(member_of_keys(ps, kd, x));
                let k = choose|k: int|
                    0 <= k < ps.len() && in_client_group(#[trigger] ps[k]) && kd.contains(key_of(ps[k])) && norm_puuid(
                        ps[k].puuid@,
                    ) == x;
                let w = choose|w: int| 0 <= w < kd.len() && kd[w] == key_of(ps[k]);
                assert(keys[w] == key_of(ps[k]));
            } else {
                assert(eg[i] == g);
                assert(member_of(ps, last, x));
                let k = choose|k: int| 0 <= k < ps.len() && in_client_group(#[trigger] ps[k]) && key_of(ps[k]) == last && norm_puuid(ps[k].puuid@) == x;
                assert(keys[keys.len() - 1] == key_of(ps[k]));
            }
        }
        if gm.len() >= 2 {
            lemma_sorted_set_len(gm);
            assert(eg == ed.push(g));
            assert forall|i: int, j: int| 0 <= i < j < eg.len() implies disjoint_views(#[trigger] eg[i], #[trigger] eg[j]) by {
                if j == ed.len() {
                    assert forall|k: int| 0 <= k < eg[i].len() implies !eg[j].contains(#[trigger] eg[i][k]) by {
                        let x = eg[i][k];
                        assert(ed[i].contains(x));
                        assert(member_of_keys(ps, kd, x));
                        let k1 = choose|k1: int|
                            0 <= k1 < ps.len() && in_client_group(#[trigger] ps[k1]) && kd.contains(key_of(ps[k1]))
                                && norm_puuid(ps[k1].puuid@) == x;
                        if g.contains(x) {
                            assert(member_of(ps, last, x));
                            let k2 = choose|k2: int| 0 <= k2 < ps.len() && in_client_group(#[trigger] ps[k2]) && key_of(ps[k2]) == last && norm_puuid(ps[k2].puuid@) == x;
                            assert(k1 == k2);
                            let w = choose|w: int| 0 <= w < kd.len() && kd[w] == key_of(ps[k1]);
                            assert(keys[w] < keys[keys.len() - 1]);
                        }
                    }
                } else {
                    assert(disjoint_views(ed[i], ed[j]));
                }
            }
            assert forall|a: int|
                0 <= a < keys.len() && group_members(ps, #[trigger] keys[a]).len() >= 2 implies eg.contains(
                sorted_set(group_members(ps, keys[a])),
            ) by {
                if a < keys.len() - 1 {
                    assert(kd[a] == keys[a]);
                    assert(ed.contains(sorted_set(group_members(ps, kd[a]))));
                    let w = choose|w: int| 0 <= w < ed.len() && ed[w] == sorted_set(group_members(ps, kd[a]));
                    assert(eg[w] == ed[w]);
                } else {
                    assert(eg[eg.len() - 1] == g);
                }
            }
        } else {
            assert(eg == ed);
            assert forall|a: int|
                0 <= a < keys.len() && group_members(ps, #[trigger] keys[a]).len() >= 2 implies eg.contains(
                sorted_set(group_members(ps, keys[a])),
            ) by {
                if a < keys.len() - 1 {
                    assert(kd[a] == keys[a]);
                }
            }
        }
    }
}

/// Whether `x` is the normalized PUUID of a player of a client group in one
/// of the first `upto` teams.
pub open spec fn client_puuid_in(ts: Seq<LiveTeam>, upto: int, x: Seq<char>) -> bool {
    exists|u: int, k: int|
        0 <= u < upto && 0 <= k < ts[u].players@.len() && in_client_group(#[trigger] ts[u].players@[k])
            && norm_puuid(ts[u].players@[k].puuid@) == x
}

/// The candidates are the client groups of the team, from the client.
pub open spec fn explicit_cands(gs: Seq<PremadeCandidate>, ps: Seq<LivePlayer>) -> bool {
    let eg = explicit_groups_spec(ps, group_keys(ps));
    &&& gs.len() == eg.len()
    &&& forall|i: int|
        0 <= i < gs.len() ==> cand_view(#[trigger] gs[i]) == eg[i] && gs[i].source@ == crate::premade::client_source()
            && gs[i].together_times == 0
}

/// The player carries the marker of the client group of the player at `k` of `ps`.
pub open spec fn client_marker(p: LivePlayer, ps: Seq<LivePlayer>, k: int) -> bool {
    &&& p.premade is Some
    &&& member_view(p.premade->0) == client_group_of(ps, k)
    &&& p.premade->0.source@ == client_source()
}

/// Whether the player at `k` is in a client group of at least two players.
pub open spec fn in_reported_group(ps: Seq<LivePlayer>, k: int) -> bool {
    in_client_group(ps[k]) && group_members(ps, key_of(ps[k])).len() >= 2
}

/// Every player of `before` in a client group of at least two carries, in
/// `after`, the marker of that group, and is marked.
pub open spec fn client_done(before: Seq<LivePlayer>, after: Seq<LivePlayer>, marked: Seq<Seq<char>>) -> bool {
    forall|k: int|
        0 <= k < before.len() && #[trigger] in_reported_group(before, k) ==> client_marker(after[k], before, k)
            && marked.contains(norm_puuid(before[k].puuid@))
}

/// Every player in a client group of at least two players carries the
/// marker of that group, with the client as its source.
pub open spec fn client_groups_marked(before: Seq<LiveTeam>, after: Seq<LiveTeam>) -> bool {
    forall|t: int, k: int|
        0 <= t < before.len() && 0 <= k < before[t].players@.len() && #[trigger] in_reported_group(
            before[t].players@,
            k,
        ) ==> client_marker(after[t].players@[k], before[t].players@, k)
}

/// The client groups of a team can be marked one after the other when the
/// marked PUUIDs are those of client groups of earlier teams; what they mark
/// are PUUIDs of client groups of this team.
pub proof fn lemma_client_ready(ts: Seq<LiveTeam>, t: int, gs: Seq<PremadeCandidate>, mk: Seq<Seq<char>>)
    requires
        client_puuids_distinct(ts),
        0 <= t < ts.len(),
        explicit_cands(gs, ts[t].players@),
        forall|x: Seq<char>| #[trigger] mk.contains(x) ==> client_puuid_in(ts, t, x),
    ensures
        groups_ready(gs, mk, ts[t].players@),
        forall|j: int, x: Seq<char>| 0 <= j < gs.len() && #[trigger] cand_view(gs[j]).contains(x) ==> client_puuid_in(ts, t + 1, x),
{
    reveal(groups_ready);
    let ps = ts[t].players@;
    lemma_team_distinct(ts, t);
    lemma_group_keys(ps);
    let keys = group_keys(ps);
    lemma_explicit_groups(ps, keys);
    let eg = explicit_groups_spec(ps, keys);
    assert forall|j: int| 0 <= j < gs.len() implies group_ok(cand_view(#[trigger] gs[j]), mk) by {
        let g = cand_view(gs[j]);
        assert(g == eg[j]);
        assert forall|w: int| 0 <= w < g.len() implies !mk.contains(#[trigger] g[w]) by {
            assert(eg[j].contains(g[w]));
            assert(member_of_keys(ps, keys, g[w]));
            let k = choose|k: int|
                0 <= k < ps.len() && in_client_group(#[trigger] ps[k]) && keys.contains(key_of(ps[k])) && norm_puuid(
                    ps[k].puuid@,
                ) == g[w];
            if mk.contains(g[w]) {
                assert(client_puuid_in(ts, t, g[w]));
                let (u, k2) = choose|u: int, k2: int|
                    0 <= u < t && 0 <= k2 < ts[u].players@.len() && in_client_group(#[trigger] ts[u].players@[k2])
                        && norm_puuid(ts[u].players@[k2].puuid@) == g[w];
                assert(in_client_group(ts[t].players@[k]));
            }
        }
    }
    assert forall|j: int| 0 <= j < gs.len() implies exists|k: int|
        0 <= k < ps.len() && player_in(ps[k], cand_view(#[trigger] gs[j])) by {
        let g = cand_view(gs[j]);
        assert(g == eg[j]);
        assert(eg[j].contains(g[0]));
        assert(member_of_keys(ps, keys, g[0]));
        let k = choose|k: int|
            0 <= k < ps.len() && in_client_group(#[trigger] ps[k]) && keys.contains(key_of(ps[k])) && norm_puuid(
                ps[k].puuid@,
            ) == g[0];
        assert(player_in(ps[k], g));
    }
    assert forall|i: int, j: int| 0 <= i < j < gs.len() implies disjoint_views(
        cand_view(#[trigger] gs[i]),
        cand_view(#[trigger] gs[j]),
    ) by {
        assert(cand_view(gs[i]) == eg[i]);
        assert(cand_view(gs[j]) == eg[j]);
    }
    assert forall|j: int, x: Seq<char>| 0 <= j < gs.len() && #[trigger] cand_view(gs[j]).contains(x) implies client_puuid_in(
        ts,
        t + 1,
        x,
    ) by {
        assert(cand_view(gs[j]) == eg[j]);
        assert(member_of_keys(ps, keys, x));
        let k = choose|k: int|
            0 <= k < ps.len() && in_client_group(#[trigger] ps[k]) && keys.contains(key_of(ps[k])) && norm_puuid(
                ps[k].puuid@,
            ) == x;
        assert(in_client_group(ts[t].players@[k]));
    }
}

/// Once every client group of a team is marked in turn, every player of a
/// client group of at least two carries its group's marker.
pub proof fn lemma_client_assigned(
    ps: Seq<LivePlayer>,
    gs: Seq<PremadeCandidate>,
    after: Seq<LivePlayer>,
    mk: Seq<Seq<char>>,
)
    requires
        team_distinct(ps),
        explicit_cands(gs, ps),
        all_carry(gs, gs.len() as int, ps, after, mk),
    ensures
        client_done(ps, after, mk),
{
    lemma_group_keys(ps);
    let keys = group_keys(ps);
    lemma_explicit_groups(ps, keys);
    let eg = explicit_groups_spec(ps, keys);
    assert forall|k: int| 0 <= k < ps.len() && #[trigger] in_reported_group(ps, k) implies client_marker(after[k], ps, k)
        && mk.contains(norm_puuid(ps[k].puuid@)) by {
        let key = key_of(ps[k]);
        let gm = group_members(ps, key);
        assert(keys.contains(key));
        let a = choose|a: int| 0 <= a < keys.len() && keys[a] == key;
        assert(group_members(ps, keys[a]).len() >= 2);
        assert(eg.contains(sorted_set(gm)));
        let j = choose|j: int| 0 <= j < eg.len() && eg[j] == sorted_set(gm);
        lemma_group_members(ps, key);
        lemma_sorted_set(gm);
        assert(gm.contains(norm_puuid(ps[k].puuid@)));
        assert(gm.to_set().contains(norm_puuid(ps[k].puuid@)));
        assert(sorted_set(gm).to_set().contains(norm_puuid(ps[k].puuid@)));
        assert(cand_view(gs[j]) == eg[j]);
        assert(player_in(ps[k], cand_view(gs[j])));
        assert(carries(after[k], gs[j]));
    }
}

} // verus!
