//! Premade groups in the game in progress: players the client reports as
//! queued together, and players who often played on one side in past games.
use vstd::prelude::*;

use crate::live::{is_real_puuid, norm_puuid, normalize_puuid, real_puuid_spec, LivePlayer, LiveTeam};
use crate::stats::RecentGame;
use crate::models::LivePremadeMarker;
use crate::client_groups::{
    client_done, client_groups_marked, client_puuid_in, client_puuids_distinct, explicit_cands,
    in_reported_group, lemma_client_assigned, lemma_client_ready, lemma_team_distinct,
};
use crate::text::{
    concat, contains_str, copy_strings, decimal_seq, lemma_str_lt_irreflexive, lemma_str_lt_total,
    lemma_str_lt_transitive, push_char, push_decimal, str_eq, str_less, str_lt, string_views,
};

verus! {

/// The strings of `s` in strictly increasing order.
pub open spec fn strictly_sorted(s: Seq<Seq<char>>) -> bool {
    forall|i: int, j: int| 0 <= i < j < s.len() ==> str_lt(#[trigger] s[i], #[trigger] s[j])
}

/// `s` with `x` added in order, unless it is there already.
pub open spec fn insert_sorted(s: Seq<Seq<char>>, x: Seq<char>) -> Seq<Seq<char>>
    decreases s.len(),
{
    if s.len() == 0 {
        seq![x]
    } else if s.last() == x {
        s
    } else if str_lt(s.last(), x) {
        s.push(x)
    } else {
        insert_sorted(s.drop_last(), x).push(s.last())
    }
}

/// The distinct strings of `s` in increasing order (a `BTreeSet` walked in order).
pub open spec fn sorted_set(s: Seq<Seq<char>>) -> Seq<Seq<char>>
    decreases s.len(),
{
    if s.len() == 0 {
        Seq::empty()
    } else {
        insert_sorted(sorted_set(s.drop_last()), s.last())
    }
}

/// Inserting keeps the order and adds exactly the new string.
pub proof fn lemma_insert_sorted(s: Seq<Seq<char>>, x: Seq<char>)
    requires
        strictly_sorted(s),
    ensures
        strictly_sorted(insert_sorted(s, x)),
        insert_sorted(s, x).to_set() == s.to_set().insert(x),
        s.contains(x) ==> insert_sorted(s, x) == s,
    decreases s.len(),
{
    let r = insert_sorted(s, x);
    if s.len() == 0 {
        assert(r.to_set() =~= s.to_set().insert(x)) by {
            assert(r[0] == x);
        }
    } else if s.last() == x {
        assert(s.to_set().insert(x) =~= s.to_set()) by {
            assert(s[s.len() - 1] == x);
        }
    } else if str_lt(s.last(), x) {
        assert forall|i: int, j: int| 0 <= i < j < r.len() implies str_lt(#[trigger] r[i], #[trigger] r[j]) by {
            if j == s.len() && i < s.len() - 1 {
                lemma_str_lt_transitive(s[i], s.last(), x);
            }
        }
        assert(r.to_set() =~= s.to_set().insert(x)) by {
            assert forall|y: Seq<char>| r.to_set().contains(y) implies s.to_set().insert(x).contains(y) by {
                let k = choose|k: int| 0 <= k < r.len() && r[k] == y;
                if k < s.len() {
                    assert(s[k] == y);
                }
            }
            assert forall|y: Seq<char>| s.to_set().insert(x).contains(y) implies r.to_set().contains(y) by {
                if y == x {
                    assert(r[s.len() as int] == x);
                } else {
                    let k = choose|k: int| 0 <= k < s.len() && s[k] == y;
                    assert(r[k] == y);
                }
            }
        }
        assert(!s.contains(x)) by {
            if s.contains(x) {
                let k = choose|k: int| 0 <= k < s.len() && s[k] == x;
                if k < s.len() - 1 {
                    lemma_str_lt_transitive(x, s.last(), x);
                }
                lemma_str_lt_irreflexive(x);
            }
        }
    } else {
        let d = s.drop_last();
        let l = s.last();
        assert(strictly_sorted(d));
        lemma_insert_sorted(d, x);
        let di = insert_sorted(d, x);
        lemma_str_lt_total(l, x);
        assert(str_lt(x, l));
        assert forall|i: int, j: int| 0 <= i < j < r.len() implies str_lt(#[trigger] r[i], #[trigger] r[j]) by {
            if j == r.len() - 1 {
                assert(di.to_set().contains(di[i]));
                if di[i] == x {
                } else {
                    assert(d.to_set().contains(di[i]));
                    let k = choose|k: int| 0 <= k < d.len() && d[k] == di[i];
                    assert(s[k] == di[i]);
                }
            }
        }
        assert(r.to_set() =~= s.to_set().insert(x)) by {
            assert(s =~= d.push(l));
            assert forall|y: Seq<char>| r.to_set().contains(y) implies s.to_set().insert(x).contains(y) by {
                let k = choose|k: int| 0 <= k < r.len() && r[k] == y;
                if k < r.len() - 1 {
                    assert(di.to_set().contains(y));
                    if y != x {
                        assert(d.to_set().contains(y));
                        let m = choose|m: int| 0 <= m < d.len() && d[m] == y;
                        assert(s[m] == y);
                    }
                } else {
                    assert(s[s.len() - 1] == y);
                }
            }
            assert forall|y: Seq<char>| s.to_set().insert(x).contains(y) implies r.to_set().contains(y) by {
                if y == l {
                    assert(r[r.len() - 1] == y);
                } else {
                    if y != x {
                        let k = choose|k: int| 0 <= k < s.len() && s[k] == y;
                        assert(d[k] == y);
                        assert(d.to_set().contains(y));
                    }
                    assert(di.to_set().contains(y));
                    let m = choose|m: int| 0 <= m < di.len() && di[m] == y;
                    assert(r[m] == y);
                }
            }
        }
        if s.contains(x) {
            let k = choose|k: int| 0 <= k < s.len() && s[k] == x;
            assert(k < s.len() - 1);
            assert(d[k] == x);
            assert(di == d);
            assert(r =~= s);
        }
    }
}

/// The sorted set holds the strings of `s`, each once, in order.
pub proof fn lemma_sorted_set(s: Seq<Seq<char>>)
    ensures
        strictly_sorted(sorted_set(s)),
        sorted_set(s).to_set() == s.to_set(),
    decreases s.len(),
{
    if s.len() == 0 {
        assert(sorted_set(s).to_set() =~= s.to_set());
    } else {
        lemma_sorted_set(s.drop_last());
        lemma_insert_sorted(sorted_set(s.drop_last()), s.last());
        assert(s =~= s.drop_last().push(s.last()));
        assert(s.to_set() =~= s.drop_last().to_set().insert(s.last())) by {
            assert forall|y: Seq<char>| s.to_set().contains(y) implies s.drop_last().to_set().insert(
                s.last(),
            ).contains(y) by {
                let k = choose|k: int| 0 <= k < s.len() && s[k] == y;
                if k < s.len() - 1 {
                    assert(s.drop_last()[k] == y);
                }
            }
            assert forall|y: Seq<char>| s.drop_last().to_set().insert(s.last()).contains(y) implies s.to_set().contains(
                y,
            ) by {
                if y == s.last() {
                    assert(s[s.len() - 1] == y);
                } else {
                    let k = choose|k: int| 0 <= k < s.len() - 1 && s.drop_last()[k] == y;
                    assert(s[k] == y);
                }
            }
        }
    }
}

/// Adds `x` to a strictly increasing list of strings, keeping it so.
fn insert_sorted_str(v: &mut Vec<String>, x: String)
    requires
        strictly_sorted(string_views(old(v)@)),
    ensures
        string_views(final(v)@) == insert_sorted(string_views(old(v)@), x@),
{
    let ghost s = string_views(v@);
    proof {
        lemma_insert_sorted(s, x@);
    }
    let mut pos = v.len();
    while pos > 0 && str_less(x.as_str(), v[pos - 1].as_str())
        invariant
            pos <= v@.len(),
            s == string_views(v@),
            v@ == old(v)@,
            strictly_sorted(s),
            forall|k: int| pos <= k < v@.len() ==> str_lt(x@, #[trigger] s[k]),
        decreases pos,
    {
        pos = pos - 1;
    }
    if pos > 0 && str_eq(v[pos - 1].as_str(), x.as_str()) {
        proof {
            assert(s[pos - 1] == x@);
            assert(s.contains(x@));
        }
        return;
    }
    proof {
        lemma_insert_at(s, x@, pos as int);
    }
    v.insert(pos, x);
    proof {
        assert(string_views(v@) =~= s.insert(pos as int, x@));
    }
}

/// Inserting at the position that the scan from the end finds.
proof fn lemma_insert_at(s: Seq<Seq<char>>, x: Seq<char>, pos: int)
    requires
        0 <= pos <= s.len(),
        strictly_sorted(s),
        forall|k: int| pos <= k < s.len() ==> str_lt(x, #[trigger] s[k]),
        pos > 0 ==> !str_lt(x, s[pos - 1]) && s[pos - 1] != x,
    ensures
        insert_sorted(s, x) == s.insert(pos, x),
    decreases s.len(),
{
    s.insert_ensures(pos, x);
    if s.len() == 0 {
        assert(s.insert(pos, x) =~= seq![x]);
    } else if pos == s.len() {
        lemma_str_lt_total(s.last(), x);
        assert(s.insert(pos, x) =~= s.push(x));
    } else {
        let d = s.drop_last();
        assert(s[s.len() - 1] == s.last());
        assert(str_lt(x, s.last()));
        lemma_str_lt_total(s.last(), x);
        lemma_str_lt_irreflexive(x);
        assert(s.last() != x);
        lemma_insert_at(d, x, pos);
        d.insert_ensures(pos, x);
        assert(s.insert(pos, x) =~= d.insert(pos, x).push(s.last()));
    }
}

/// `s` with `x` added in increasing order, unless it is there already.
pub open spec fn insert_sorted_u32(s: Seq<u32>, x: u32) -> Seq<u32>
    decreases s.len(),
{
    if s.len() == 0 {
        seq![x]
    } else if s.last() == x {
        s
    } else if s.last() < x {
        s.push(x)
    } else {
        insert_sorted_u32(s.drop_last(), x).push(s.last())
    }
}

/// Whether a player takes part in the grouping that the client reports.
pub open spec fn in_client_group(p: LivePlayer) -> bool {
    p.team_participant_id is Some && real_puuid_spec(p.puuid@)
}

/// The client's group ids of the players, increasing, each once.
pub open spec fn group_keys(ps: Seq<LivePlayer>) -> Seq<u32>
    decreases ps.len(),
{
    if ps.len() == 0 {
        Seq::empty()
    } else {
        let rest = group_keys(ps.drop_last());
        let p = ps.last();
        if in_client_group(p) {
            insert_sorted_u32(rest, p.team_participant_id->0)
        } else {
            rest
        }
    }
}

/// The normalized PUUIDs of the players in client group `k`, in order.
pub open spec fn group_members(ps: Seq<LivePlayer>, k: u32) -> Seq<Seq<char>>
    decreases ps.len(),
{
    if ps.len() == 0 {
        Seq::empty()
    } else {
        let rest = group_members(ps.drop_last(), k);
        let p = ps.last();
        if in_client_group(p) && p.team_participant_id->0 == k {
            rest.push(norm_puuid(p.puuid@))
        } else {
            rest
        }
    }
}

/// The client groups among `keys` with at least two players, each as the
/// sorted set of its members' PUUIDs.
pub open spec fn explicit_groups_spec(ps: Seq<LivePlayer>, keys: Seq<u32>) -> Seq<Seq<Seq<char>>>
    decreases keys.len(),
{
    if keys.len() == 0 {
        Seq::empty()
    } else {
        let rest = explicit_groups_spec(ps, keys.drop_last());
        let members = group_members(ps, keys.last());
        if members.len() >= 2 {
            rest.push(sorted_set(members))
        } else {
            rest
        }
    }
}

/// A group of players that may have queued together.
#[derive(Debug)]
pub struct PremadeCandidate {
    pub puuids: Vec<String>,
    pub source: String,
    pub together_times: usize,
}

/// The source of the groups that the client reports.
pub open spec fn client_source() -> Seq<char> {
    "客户端分组"@
}

/// The source of the groups found in past games.
pub open spec fn history_source() -> Seq<char> {
    "历史同队"@
}

proof fn lemma_insert_u32_at(s: Seq<u32>, x: u32, pos: int)
    requires
        0 <= pos <= s.len(),
        forall|i: int, j: int| 0 <= i < j < s.len() ==> #[trigger] s[i] < #[trigger] s[j],
        forall|k: int| pos <= k < s.len() ==> x < #[trigger] s[k],
        pos > 0 ==> s[pos - 1] < x,
    ensures
        insert_sorted_u32(s, x) == s.insert(pos, x),
    decreases s.len(),
{
    s.insert_ensures(pos, x);
    if s.len() == 0 {
        assert(s.insert(pos, x) =~= seq![x]);
    } else if pos == s.len() {
        assert(s.insert(pos, x) =~= s.push(x));
    } else {
        let d = s.drop_last();
        assert(s[s.len() - 1] == s.last());
        lemma_insert_u32_at(d, x, pos);
        d.insert_ensures(pos, x);
        assert(s.insert(pos, x) =~= d.insert(pos, x).push(s.last()));
    }
}

proof fn lemma_insert_u32_present(s: Seq<u32>, x: u32, pos: int)
    requires
        0 < pos <= s.len(),
        s[pos - 1] == x,
        forall|i: int, j: int| 0 <= i < j < s.len() ==> #[trigger] s[i] < #[trigger] s[j],
    ensures
        insert_sorted_u32(s, x) == s,
    decreases s.len(),
{
    if pos < s.len() {
        let d = s.drop_last();
        assert(s[s.len() - 1] == s.last());
        assert(d[pos - 1] == x);
        lemma_insert_u32_present(d, x, pos);
        assert(s =~= d.push(s.last()));
    }
}

/// Adds `x` to a strictly increasing list, keeping it so.
fn insert_sorted_key(v: &mut Vec<u32>, x: u32)
    requires
        forall|i: int, j: int| 0 <= i < j < old(v)@.len() ==> #[trigger] old(v)@[i] < #[trigger] old(v)@[j],
    ensures
        final(v)@ == insert_sorted_u32(old(v)@, x),
        forall|i: int, j: int| 0 <= i < j < final(v)@.len() ==> #[trigger] final(v)@[i] < #[trigger] final(v)@[j],
{
    let mut pos = v.len();
    while pos > 0 && x < v[pos - 1]
        invariant
            pos <= v@.len(),
            v@ == old(v)@,
            forall|k: int| pos <= k < v@.len() ==> x < #[trigger] v@[k],
        decreases pos,
    {
        pos = pos - 1;
    }
    if pos > 0 && v[pos - 1] == x {
        proof {
            lemma_insert_u32_present(v@, x, pos as int);
        }
        return;
    }
    proof {
        lemma_insert_u32_at(v@, x, pos as int);
        v@.insert_ensures(pos as int, x);
    }
    let ghost old_v = v@;
    v.insert(pos, x);
    proof {
        assert forall|i: int, j: int| 0 <= i < j < v@.len() implies #[trigger] v@[i] < #[trigger] v@[j] by {
            if j < pos {
            } else if j == pos {
            } else if i < pos {
                assert(v@[j] == old_v[j - 1]);
            } else if i == pos {
                assert(v@[j] == old_v[j - 1]);
            } else {
                assert(v@[i] == old_v[i - 1]);
                assert(v@[j] == old_v[j - 1]);
            }
        }
    }
}

/// The groups that the client reports for a team: players sharing a group id,
/// by increasing group id, each group with at least two players, as the sorted
/// set of their normalized PUUIDs.
pub fn explicit_premade_groups(team: &LiveTeam) -> (r: Vec<PremadeCandidate>)
    ensures
        ({
            let ps = team.players@;
            let spec_groups = explicit_groups_spec(ps, group_keys(ps));
            &&& r@.len() == spec_groups.len()
            &&& forall|i: int|
                0 <= i < r@.len() ==> {
                    &&& string_views((#[trigger] r@[i]).puuids@) == spec_groups[i]
                    &&& r@[i].source@ == client_source()
                    &&& r@[i].together_times == 0
                }
        }),
{
    let ps = &team.players;
    let n = ps.len();
    let mut keys: Vec<u32> = Vec::new();
    let mut i: usize = 0;
    while i < n
        invariant
            n == ps@.len(),
            i <= n,
            keys@ == group_keys(ps@.take(i as int)),
            forall|a: int, b: int| 0 <= a < b < keys@.len() ==> #[trigger] keys@[a] < #[trigger] keys@[b],
        decreases n - i,
    {
        assert(ps@.take(i + 1).drop_last() =~= ps@.take(i as int));
        let p = &ps[i];
        if let Some(k) = p.team_participant_id {
            if is_real_puuid(p.puuid.as_str()) {
                insert_sorted_key(&mut keys, k);
            }
        }
        i = i + 1;
    }
    assert(ps@.take(n as int) =~= ps@);
    let ghost all_keys = keys@;
    let mut groups: Vec<PremadeCandidate> = Vec::new();
    let mut x: usize = 0;
    while x < keys.len()
        invariant
            keys@ == all_keys,
            all_keys == group_keys(ps@),
            n == ps@.len(),
            x <= keys@.len(),
            groups@.len() == explicit_groups_spec(ps@, keys@.take(x as int)).len(),
            forall|g: int|
                0 <= g < groups@.len() ==> {
                    &&& string_views((#[trigger] groups@[g]).puuids@) == explicit_groups_spec(
                        ps@,
                        keys@.take(x as int),
                    )[g]
                    &&& groups@[g].source@ == client_source()
                    &&& groups@[g].together_times == 0
                },
        decreases keys@.len() - x,
    {
        let k = keys[x];
        let mut members: Vec<String> = Vec::new();
        let mut j: usize = 0;
        while j < n
            invariant
                n == ps@.len(),
                j <= n,
                string_views(members@) == group_members(ps@.take(j as int), k),
            decreases n - j,
        {
            assert(ps@.take(j + 1).drop_last() =~= ps@.take(j as int));
            let p = &ps[j];
            if let Some(pk) = p.team_participant_id {
                if pk == k && is_real_puuid(p.puuid.as_str()) {
                    members.push(normalize_puuid(p.puuid.as_str()));
                    assert(string_views(members@) =~= group_members(ps@.take(j + 1), k));
                }
            }
            j = j + 1;
        }
        assert(ps@.take(n as int) =~= ps@);
        let ghost ms = string_views(members@);
        assert(keys@.take(x + 1).drop_last() =~= keys@.take(x as int));
        if members.len() >= 2 {
            let mut set: Vec<String> = Vec::new();
            let mut m: usize = 0;
            while m < members.len()
                invariant
                    ms == string_views(members@),
                    m <= members@.len(),
                    string_views(set@) == sorted_set(ms.take(m as int)),
                decreases members@.len() - m,
            {
                proof {
                    lemma_sorted_set(ms.take(m as int));
                    assert(ms.take(m + 1).drop_last() =~= ms.take(m as int));
                }
                let item = members[m].clone();
                insert_sorted_str(&mut set, item);
                m = m + 1;
            }
            assert(ms.take(members@.len() as int) =~= ms);
            let source = "客户端分组";
            proof {
                reveal_strlit("客户端分组");
            }
            groups.push(PremadeCandidate { puuids: set, source: source.to_string(), together_times: 0 });
        }
        x = x + 1;
    }
    assert(keys@.take(keys@.len() as int) =~= keys@);
    groups
}

/// The letter of the `idx`-th premade group.
pub open spec fn group_letter(idx: nat) -> char {
    if idx == 0 {
        'A'
    } else if idx == 1 {
        'B'
    } else if idx == 2 {
        'C'
    } else if idx == 3 {
        'D'
    } else if idx == 4 {
        'E'
    } else if idx == 5 {
        'F'
    } else if idx == 6 {
        'G'
    } else if idx == 7 {
        'H'
    } else if idx == 8 {
        'I'
    } else if idx == 9 {
        'J'
    } else {
        'Z'
    }
}

/// The id of the `idx`-th premade group: `A` to `J`, then `Z`.
pub open spec fn group_id_spec(idx: nat) -> Seq<char> {
    seq![group_letter(idx)]
}

/// The label of a premade group: its id, then the number of its players.
pub open spec fn group_label_spec(idx: nat, size: nat) -> Seq<char> {
    group_id_spec(idx) + "队 · "@ + decimal_seq(size) + "黑"@
}

fn group_id(idx: usize) -> (r: String)
    ensures
        r@ == group_id_spec(idx as nat),
{
    let c = if idx == 0 {
        'A'
    } else if idx == 1 {
        'B'
    } else if idx == 2 {
        'C'
    } else if idx == 3 {
        'D'
    } else if idx == 4 {
        'E'
    } else if idx == 5 {
        'F'
    } else if idx == 6 {
        'G'
    } else if idx == 7 {
        'H'
    } else if idx == 8 {
        'I'
    } else if idx == 9 {
        'J'
    } else {
        'Z'
    };
    let mut r = String::new();
    push_char(&mut r, c);
    assert(r@ =~= group_id_spec(idx as nat));
    r
}

/// A group may be marked: at least two players, none of them marked yet.
pub open spec fn group_ok(group: Seq<Seq<char>>, marked: Seq<Seq<char>>) -> bool {
    &&& group.len() >= 2
    &&& forall|i: int| 0 <= i < group.len() ==> !marked.contains(#[trigger] group[i])
}

/// Whether a player belongs to a group of normalized PUUIDs.
pub open spec fn player_in(p: LivePlayer, group: Seq<Seq<char>>) -> bool {
    group.contains(norm_puuid(p.puuid@))
}

/// `m` is the marker of candidate `c` as the `idx`-th group.
pub open spec fn marker_spec(m: LivePremadeMarker, idx: nat, c: PremadeCandidate) -> bool {
    &&& m.group_id@ == group_id_spec(idx)
    &&& m.label@ == group_label_spec(idx, c.puuids@.len())
    &&& m.source@ == c.source@
    &&& m.together_times == c.together_times
    &&& m.member_puuids@ == c.puuids@
}

/// A player with a premade marker set.
pub open spec fn with_premade(p: LivePlayer, m: LivePremadeMarker) -> LivePlayer {
    LivePlayer { premade: Some(m), ..p }
}

/// Marks the players of `group` in `team` as the next premade group, unless
/// the group has fewer than two players or one of them is marked already.
/// Returns whether some player got the marker; only then are the group's
/// PUUIDs marked and the group counter advanced.
pub fn assign_premade_group(
    team: &mut LiveTeam,
    group: PremadeCandidate,
    marked: &mut Vec<String>,
    group_index: &mut usize,
) -> (r: bool)
    requires
        *old(group_index) < usize::MAX,
    ensures
        ({
            let g = string_views(group.puuids@);
            let mk = string_views(old(marked)@);
            let ps = old(team).players@;
            &&& r == (group_ok(g, mk) && exists|k: int| 0 <= k < ps.len() && player_in(ps[k], g))
            &&& final(team).name == old(team).name
            &&& final(team).players@.len() == ps.len()
            &&& forall|k: int|
                0 <= k < ps.len() ==> if r && player_in(ps[k], g) {
                    &&& (#[trigger] final(team).players@[k]).premade is Some
                    &&& marker_spec(final(team).players@[k].premade->0, *old(group_index) as nat, group)
                    &&& final(team).players@[k] == with_premade(ps[k], final(team).players@[k].premade->0)
                } else {
                    final(team).players@[k] == ps[k]
                }
            &&& r ==> string_views(final(marked)@) == mk + g && *final(group_index) == *old(group_index) + 1
            &&& !r ==> final(marked)@ == old(marked)@ && *final(group_index) == *old(group_index)
        }),
{
    let ghost g = string_views(group.puuids@);
    let ghost ps = team.players@;
    if group.puuids.len() < 2 {
        return false;
    }
    let mut i: usize = 0;
    while i < group.puuids.len()
        invariant
            g == string_views(group.puuids@),
            i <= group.puuids@.len(),
            forall|j: int| 0 <= j < i ==> !string_views(marked@).contains(#[trigger] g[j]),
        decreases group.puuids@.len() - i,
    {
        if contains_str(marked, group.puuids[i].as_str()) {
            assert(g[i as int] == group.puuids@[i as int]@);
            assert(!group_ok(g, string_views(marked@)));
            return false;
        }
        i = i + 1;
    }
    assert(group_ok(g, string_views(marked@)));
    let id = group_id(*group_index);
    let mut label = concat(id.as_str(), "队 · ");
    push_decimal(&mut label, group.puuids.len() as u64);
    let label = concat(label.as_str(), "黑");
    proof {
        reveal_strlit("队 · ");
        reveal_strlit("黑");
        assert(label@ =~= group_label_spec(*group_index as nat, group.puuids@.len()));
    }
    let marker = LivePremadeMarker {
        group_id: id,
        label,
        source: group.source.clone(),
        together_times: group.together_times,
        member_puuids: copy_strings(&group.puuids),
    };
    let mut players: Vec<LivePlayer> = Vec::new();
    std::mem::swap(&mut players, &mut team.players);
    let n = players.len();
    let mut out: Vec<LivePlayer> = Vec::new();
    let mut assigned = false;
    let mut k: usize = 0;
    while k < n
        invariant
            n == ps.len(),
            k <= n,
            players@ == ps.skip(k as int),
            out@.len() == k,
            g == string_views(group.puuids@),
            marker_spec(marker, *group_index as nat, group),
            assigned == exists|j: int| 0 <= j < k && player_in(ps[j], g),
            forall|j: int|
                0 <= j < k ==> if player_in(ps[j], g) {
                    &&& (#[trigger] out@[j]).premade is Some
                    &&& marker_spec(out@[j].premade->0, *group_index as nat, group)
                    &&& out@[j] == with_premade(ps[j], out@[j].premade->0)
                } else {
                    out@[j] == ps[j]
                },
        decreases n - k,
    {
        assert(players@[0] == ps[k as int]);
        let mut p = players.remove(0);
        assert(players@ =~= ps.skip(k + 1));
        let key = normalize_puuid(p.puuid.as_str());
        if contains_str(&group.puuids, key.as_str()) {
            let m = marker.copy();
            p.premade = Some(m);
            assigned = true;
        }
        out.push(p);
        k = k + 1;
    }
    team.players = out;
    if assigned {
        let mut j: usize = 0;
        let ghost mk = string_views(marked@);
        while j < group.puuids.len()
            invariant
                g == string_views(group.puuids@),
                j <= group.puuids@.len(),
                string_views(marked@) == mk + g.take(j as int),
            decreases group.puuids@.len() - j,
        {
            let item = group.puuids[j].clone();
            assert(item@ == g[j as int]);
            let ghost prev = marked@;
            marked.push(item);
            assert(string_views(marked@) =~= string_views(prev).push(item@));
            assert(g.take(j + 1) =~= g.take(j as int).push(g[j as int]));
            assert(string_views(marked@) =~= mk + g.take(j + 1));
            j = j + 1;
        }
        assert(g.take(group.puuids@.len() as int) =~= g);
        *group_index = *group_index + 1;
    } else {
        assert(team.players@ =~= ps);
    }
    assigned
}

/// Whether a past game has `a` among the normalized PUUIDs of the player's side.
pub open spec fn side_has(g: RecentGame, a: Seq<char>) -> bool {
    exists|k: int| 0 <= k < g.team_puuids@.len() && norm_puuid(#[trigger] g.team_puuids@[k]@) == a
}

fn game_side_has(g: &RecentGame, a: &str) -> (r: bool)
    ensures
        r == side_has(*g, a@),
{
    let ts = &g.team_puuids;
    let mut k: usize = 0;
    while k < ts.len()
        invariant
            ts@ == g.team_puuids@,
            k <= ts@.len(),
            forall|j: int| 0 <= j < k ==> norm_puuid(#[trigger] ts@[j]@) != a@,
        decreases ts@.len() - k,
    {
        let t = normalize_puuid(ts[k].as_str());
        if str_eq(t.as_str(), a) {
            return true;
        }
        k = k + 1;
    }
    false
}

/// The ids of the games in `gs` in which `a` and `b` played on the player's side.
pub open spec fn games_pair_ids(gs: Seq<RecentGame>, a: Seq<char>, b: Seq<char>) -> Seq<u64>
    decreases gs.len(),
{
    if gs.len() == 0 {
        Seq::empty()
    } else {
        let rest = games_pair_ids(gs.drop_last(), a, b);
        if side_has(gs.last(), a) && side_has(gs.last(), b) {
            rest.push(gs.last().game_id)
        } else {
            rest
        }
    }
}

/// The ids of the past games, over all players' loaded games, in which `a`
/// and `b` played on one side.
pub open spec fn pair_ids(ps: Seq<LivePlayer>, a: Seq<char>, b: Seq<char>) -> Seq<u64>
    decreases ps.len(),
{
    if ps.len() == 0 {
        Seq::empty()
    } else {
        let rest = pair_ids(ps.drop_last(), a, b);
        match ps.last().stats {
            Some(st) => rest + games_pair_ids(st.recent_games@, a, b),
            None => rest,
        }
    }
}

/// In how many distinct past games `a` and `b` played on one side.
pub open spec fn pair_count(ps: Seq<LivePlayer>, a: Seq<char>, b: Seq<char>) -> nat {
    pair_ids(ps, a, b).to_set().len()
}

/// Adds `id` to a list without duplicates.
fn add_distinct(ids: &mut Vec<u64>, id: u64)
    requires
        old(ids)@.no_duplicates(),
    ensures
        final(ids)@.no_duplicates(),
        final(ids)@.to_set() == old(ids)@.to_set().insert(id),
{
    let mut k: usize = 0;
    while k < ids.len()
        invariant
            k <= ids@.len(),
            ids@ == old(ids)@,
            ids@.no_duplicates(),
            forall|j: int| 0 <= j < k ==> ids@[j] != id,
        decreases ids@.len() - k,
    {
        if ids[k] == id {
            assert(ids@.to_set().insert(id) =~= ids@.to_set()) by {
                assert(ids@.to_set().contains(ids@[k as int]));
            }
            return;
        }
        k = k + 1;
    }
    let ghost prev = ids@;
    ids.push(id);
    assert(ids@.to_set() =~= prev.to_set().insert(id)) by {
        assert forall|x: u64| ids@.to_set().contains(x) implies prev.to_set().insert(id).contains(x) by {
            let j = choose|j: int| 0 <= j < ids@.len() && ids@[j] == x;
            if j < prev.len() {
                assert(prev[j] == x);
            }
        }
        assert forall|x: u64| prev.to_set().insert(id).contains(x) implies ids@.to_set().contains(x) by {
            if x == id {
                assert(ids@[prev.len() as int] == x);
            } else {
                let j = choose|j: int| 0 <= j < prev.len() && prev[j] == x;
                assert(ids@[j] == x);
            }
        }
    }
}

proof fn lemma_to_set_push(s: Seq<u64>, x: u64)
    ensures
        s.push(x).to_set() == s.to_set().insert(x),
{
    assert forall|y: u64| s.push(x).to_set().contains(y) implies s.to_set().insert(x).contains(y) by {
        let j = choose|j: int| 0 <= j < s.push(x).len() && s.push(x)[j] == y;
        if j < s.len() {
            assert(s[j] == y);
        }
    }
    assert forall|y: u64| s.to_set().insert(x).contains(y) implies s.push(x).to_set().contains(y) by {
        if y == x {
            assert(s.push(x)[s.len() as int] == y);
        } else {
            let j = choose|j: int| 0 <= j < s.len() && s[j] == y;
            assert(s.push(x)[j] == y);
        }
    }
    assert(s.push(x).to_set() =~= s.to_set().insert(x));
}

/// The distinct past games in which `a` and `b` played on one side.
fn pair_game_ids(ps: &Vec<LivePlayer>, a: &str, b: &str) -> (r: Vec<u64>)
    ensures
        r@.len() == pair_count(ps@, a@, b@),
{
    let mut ids: Vec<u64> = Vec::new();
    let n = ps.len();
    let mut i: usize = 0;
    proof {
        assert(ids@.to_set() =~= pair_ids(ps@.take(0), a@, b@).to_set());
    }
    while i < n
        invariant
            n == ps@.len(),
            i <= n,
            ids@.no_duplicates(),
            ids@.to_set() == pair_ids(ps@.take(i as int), a@, b@).to_set(),
        decreases n - i,
    {
        assert(ps@.take(i + 1).drop_last() =~= ps@.take(i as int));
        let ghost before = pair_ids(ps@.take(i as int), a@, b@);
        match &ps[i].stats {
            Some(st) => {
                let gs = &st.recent_games;
                let mut k: usize = 0;
                proof {
                    assert(before + games_pair_ids(gs@.take(0), a@, b@) =~= before);
                }
                while k < gs.len()
                    invariant
                        k <= gs@.len(),
                        ids@.no_duplicates(),
                        ids@.to_set() == (before + games_pair_ids(gs@.take(k as int), a@, b@)).to_set(),
                    decreases gs@.len() - k,
                {
                    assert(gs@.take(k + 1).drop_last() =~= gs@.take(k as int));
                    let g = &gs[k];
                    let ghost cur = before + games_pair_ids(gs@.take(k as int), a@, b@);
                    if game_side_has(g, a) && game_side_has(g, b) {
                        add_distinct(&mut ids, g.game_id);
                        proof {
                            lemma_to_set_push(cur, g.game_id);
                            assert(before + games_pair_ids(gs@.take(k + 1), a@, b@) =~= cur.push(g.game_id));
                        }
                    } else {
                        assert(before + games_pair_ids(gs@.take(k + 1), a@, b@) =~= cur);
                    }
                    k = k + 1;
                }
                assert(gs@.take(gs@.len() as int) =~= gs@);
            },
            None => {},
        }
        i = i + 1;
    }
    assert(ps@.take(n as int) =~= ps@);
    proof {
        ids@.unique_seq_to_set();
    }
    ids
}

/// The past games shared by one pair of players.
#[derive(Debug)]
pub struct PairGamesEntry {
    pub first: String,
    pub second: String,
    pub game_ids: Vec<u64>,
}

/// The past games shared by pairs of players, each pair written in order.
#[derive(Debug)]
pub struct PairGameTable {
    pub entries: Vec<PairGamesEntry>,
}

/// `a` is not after `b` in the order of `str`.
pub open spec fn str_le(a: Seq<char>, b: Seq<char>) -> bool {
    a == b || str_lt(a, b)
}

/// The number of games recorded for the pair `(a, b)`, if it is recorded.
pub open spec fn table_lookup(es: Seq<PairGamesEntry>, a: Seq<char>, b: Seq<char>) -> Option<nat>
    decreases es.len(),
{
    if es.len() == 0 {
        None
    } else if es[0].first@ == a && es[0].second@ == b {
        Some(es[0].game_ids@.len())
    } else {
        table_lookup(es.skip(1), a, b)
    }
}

/// The number of games recorded for two players, the pair taken in order.
pub open spec fn table_pair(es: Seq<PairGamesEntry>, a: Seq<char>, b: Seq<char>) -> Option<nat> {
    if str_le(a, b) {
        table_lookup(es, a, b)
    } else {
        table_lookup(es, b, a)
    }
}

/// The least number recorded for `x` paired with each of `ps` (`usize::MAX`
/// for none), or `None` when some pair is not recorded.
pub open spec fn table_min_with(es: Seq<PairGamesEntry>, ps: Seq<Seq<char>>, x: Seq<char>) -> Option<nat>
    decreases ps.len(),
{
    if ps.len() == 0 {
        Some(usize::MAX as nat)
    } else {
        match (table_min_with(es, ps.drop_last(), x), table_pair(es, ps.last(), x)) {
            (Some(m), Some(c)) => Some(if c < m { c } else { m }),
            _ => None,
        }
    }
}

/// The least number recorded over all pairs of `s` (`usize::MAX` for none),
/// or `None` when some pair is not recorded.
pub open spec fn table_min(es: Seq<PairGamesEntry>, s: Seq<Seq<char>>) -> Option<nat>
    decreases s.len(),
{
    if s.len() == 0 {
        Some(usize::MAX as nat)
    } else {
        match (table_min(es, s.drop_last()), table_min_with(es, s.drop_last(), s.last())) {
            (Some(m), Some(c)) => Some(if c < m { c } else { m }),
            _ => None,
        }
    }
}

proof fn lemma_table_lookup(es: Seq<PairGamesEntry>, a: Seq<char>, b: Seq<char>)
    ensures
        table_lookup(es, a, b) is None <==> forall|k: int|
            0 <= k < es.len() ==> !((#[trigger] es[k]).first@ == a && es[k].second@ == b),
        table_lookup(es, a, b) is Some ==> exists|k: int|
            0 <= k < es.len() && (#[trigger] es[k]).first@ == a && es[k].second@ == b
                && es[k].game_ids@.len() == table_lookup(es, a, b)->0,
    decreases es.len(),
{
    if es.len() > 0 {
        lemma_table_lookup(es.skip(1), a, b);
        if !(es[0].first@ == a && es[0].second@ == b) {
            assert forall|k: int| 1 <= k < es.len() implies es[k] == es.skip(1)[k - 1] by {}
            if table_lookup(es, a, b) is Some {
                let j = choose|j: int|
                    0 <= j < es.skip(1).len() && (#[trigger] es.skip(1)[j]).first@ == a
                        && es.skip(1)[j].second@ == b && es.skip(1)[j].game_ids@.len() == table_lookup(
                        es,
                        a,
                        b,
                    )->0;
                assert(es[j + 1] == es.skip(1)[j]);
            }
            if table_lookup(es, a, b) is None {
                assert forall|k: int| 0 <= k < es.len() implies !((#[trigger] es[k]).first@ == a
                    && es[k].second@ == b) by {
                    if k > 0 {
                        assert(es[k] == es.skip(1)[k - 1]);
                    }
                }
            } else {
                let j = choose|j: int|
                    0 <= j < es.len() && (#[trigger] es[j]).first@ == a && es[j].second@ == b
                        && es[j].game_ids@.len() == table_lookup(es, a, b)->0;
            }
        }
    }
}

/// The number of games recorded for the pair `(a, b)`.
fn table_count(t: &PairGameTable, a: &str, b: &str) -> (r: Option<usize>)
    ensures
        match r {
            Some(c) => table_lookup(t.entries@, a@, b@) == Some(c as nat),
            None => table_lookup(t.entries@, a@, b@) is None,
        },
{
    let es = &t.entries;
    let mut i: usize = 0;
    assert(es@.skip(0) =~= es@);
    while i < es.len()
        invariant
            es@ == t.entries@,
            i <= es@.len(),
            table_lookup(es@, a@, b@) == table_lookup(es@.skip(i as int), a@, b@),
        decreases es@.len() - i,
    {
        assert(es@.skip(i as int)[0] == es@[i as int]);
        if str_eq(es[i].first.as_str(), a) && str_eq(es[i].second.as_str(), b) {
            let c = es[i].game_ids.len();
            assert(c == es@[i as int].game_ids@.len());
            let ghost rest = es@.skip(i as int);
            assert(rest.len() > 0);
            assert(rest[0].first@ == a@ && rest[0].second@ == b@);
            assert(table_lookup(rest, a@, b@) == Some(rest[0].game_ids@.len()));
            return Some(c);
        }
        assert(es@.skip(i as int).skip(1) =~= es@.skip(i + 1));
        i = i + 1;
    }
    None
}

/// How often all of `puuids` played together: the least number of games
/// recorded for any two of them, or `None` when a pair has no record.
pub fn premade_subset_times(puuids: &Vec<String>, pair_games: &PairGameTable) -> (r: Option<usize>)
    ensures
        match r {
            Some(c) => table_min(pair_games.entries@, string_views(puuids@)) == Some(c as nat),
            None => table_min(pair_games.entries@, string_views(puuids@)) is None,
        },
{
    let ghost es = pair_games.entries@;
    let ghost s = string_views(puuids@);
    let n = puuids.len();
    let mut acc: Option<usize> = Some(usize::MAX);
    let mut j: usize = 0;
    while j < n
        invariant
            n == s.len(),
            s == string_views(puuids@),
            es == pair_games.entries@,
            j <= n,
            match acc {
                Some(c) => table_min(es, s.take(j as int)) == Some(c as nat),
                None => table_min(es, s.take(j as int)) is None,
            },
        decreases n - j,
    {
        let ghost pre = s.take(j as int);
        let mut inner: Option<usize> = Some(usize::MAX);
        let mut i: usize = 0;
        while i < j
            invariant
                n == s.len(),
                s == string_views(puuids@),
                es == pair_games.entries@,
                j < n,
                pre == s.take(j as int),
                i <= j,
                match inner {
                    Some(c) => table_min_with(es, pre.take(i as int), s[j as int]) == Some(c as nat),
                    None => table_min_with(es, pre.take(i as int), s[j as int]) is None,
                },
            decreases j - i,
        {
            assert(pre.take(i + 1).drop_last() =~= pre.take(i as int));
            assert(pre.take(i + 1).last() == s[i as int]);
            let a = puuids[i].as_str();
            let b = puuids[j].as_str();
            let le = str_eq(a, b) || str_less(a, b);
            assert(a@ == s[i as int] && b@ == s[j as int]);
            assert(le == str_le(a@, b@));
            let c = if le {
                table_count(pair_games, a, b)
            } else {
                table_count(pair_games, b, a)
            };
            inner = match (inner, c) {
                (Some(m), Some(c)) => Some(if c < m { c } else { m }),
                _ => None,
            };
            i = i + 1;
        }
        assert(pre.take(j as int) =~= pre);
        assert(s.take(j + 1).drop_last() =~= pre);
        assert(s.take(j + 1).last() == s[j as int]);
        acc = match (acc, inner) {
            (Some(m), Some(c)) => Some(if c < m { c } else { m }),
            _ => None,
        };
        j = j + 1;
    }
    assert(s.take(n as int) =~= s);
    acc
}

/// The least count of games that `x` shared with each of `ps` (`usize::MAX` for none).
pub open spec fn pair_min_with(pl: Seq<LivePlayer>, ps: Seq<Seq<char>>, x: Seq<char>) -> nat
    decreases ps.len(),
{
    if ps.len() == 0 {
        usize::MAX as nat
    } else {
        let m = pair_min_with(pl, ps.drop_last(), x);
        let c = pair_count(pl, ps.last(), x);
        if c < m {
            c
        } else {
            m
        }
    }
}

/// How often all players of `s` played together: the least count of games
/// shared by two of them (`usize::MAX` for fewer than two players).
pub open spec fn subset_min(pl: Seq<LivePlayer>, s: Seq<Seq<char>>) -> nat
    decreases s.len(),
{
    if s.len() == 0 {
        usize::MAX as nat
    } else {
        let m = subset_min(pl, s.drop_last());
        let c = pair_min_with(pl, s.drop_last(), s.last());
        if c < m {
            c
        } else {
            m
        }
    }
}

/// The table records, for each two players of `c` in order, the games they
/// shared, and nothing for pairs that shared none.
pub open spec fn table_covers(es: Seq<PairGamesEntry>, pl: Seq<LivePlayer>, c: Seq<Seq<char>>) -> bool {
    forall|a: Seq<char>, b: Seq<char>|
        c.contains(a) && c.contains(b) && str_lt(a, b) ==> #[trigger] table_lookup(es, a, b) == if pair_count(
            pl,
            a,
            b,
        ) > 0 {
            Some(pair_count(pl, a, b))
        } else {
            None
        }
}

proof fn lemma_table_min_with(
    es: Seq<PairGamesEntry>,
    pl: Seq<LivePlayer>,
    c: Seq<Seq<char>>,
    ps: Seq<Seq<char>>,
    x: Seq<char>,
)
    requires
        table_covers(es, pl, c),
        c.contains(x),
        forall|k: int| 0 <= k < ps.len() ==> c.contains(#[trigger] ps[k]) && str_lt(ps[k], x),
    ensures
        table_min_with(es, ps, x) == if pair_min_with(pl, ps, x) == 0 {
            None
        } else {
            Some(pair_min_with(pl, ps, x))
        },
    decreases ps.len(),
{
    if ps.len() > 0 {
        lemma_table_min_with(es, pl, c, ps.drop_last(), x);
        let p = ps.last();
        assert(c.contains(ps[ps.len() - 1]));
        assert(str_le(p, x));
        assert(table_lookup(es, p, x) == if pair_count(pl, p, x) > 0 {
            Some(pair_count(pl, p, x))
        } else {
            None
        });
    }
}

/// Over players of `c` in increasing order, the table gives the same counts
/// as the games, `None` standing for a pair that shared no game.
proof fn lemma_table_min(es: Seq<PairGamesEntry>, pl: Seq<LivePlayer>, c: Seq<Seq<char>>, s: Seq<Seq<char>>)
    requires
        table_covers(es, pl, c),
        strictly_sorted(s),
        forall|k: int| 0 <= k < s.len() ==> c.contains(#[trigger] s[k]),
    ensures
        table_min(es, s) == if subset_min(pl, s) == 0 {
            None
        } else {
            Some(subset_min(pl, s))
        },
    decreases s.len(),
{
    if s.len() > 0 {
        let d = s.drop_last();
        assert forall|k: int| 0 <= k < d.len() implies c.contains(#[trigger] d[k]) && str_lt(d[k], s.last()) by {
            assert(d[k] == s[k]);
            assert(str_lt(s[k], s[s.len() - 1]));
        }
        lemma_table_min(es, pl, c, d);
        assert(c.contains(s[s.len() - 1]));
        lemma_table_min_with(es, pl, c, d, s.last());
    }
}

/// Lexicographic order of lists of strings, each string by `str_lt`.
pub open spec fn strs_lt(a: Seq<Seq<char>>, b: Seq<Seq<char>>) -> bool
    decreases a.len(),
{
    if a.len() == 0 {
        b.len() > 0
    } else if b.len() == 0 {
        false
    } else if a[0] != b[0] {
        str_lt(a[0], b[0])
    } else {
        strs_lt(a.skip(1), b.skip(1))
    }
}

proof fn lemma_strs_lt_asymmetric(a: Seq<Seq<char>>, b: Seq<Seq<char>>)
    ensures
        !(strs_lt(a, b) && strs_lt(b, a)),
    decreases a.len(),
{
    if a.len() > 0 && b.len() > 0 {
        if a[0] != b[0] {
            lemma_str_lt_total(a[0], b[0]);
        } else {
            lemma_strs_lt_asymmetric(a.skip(1), b.skip(1));
        }
    }
}

proof fn lemma_strs_lt_transitive(a: Seq<Seq<char>>, b: Seq<Seq<char>>, c: Seq<Seq<char>>)
    requires
        strs_lt(a, b),
        strs_lt(b, c),
    ensures
        strs_lt(a, c),
    decreases a.len(),
{
    if a.len() > 0 && b.len() > 0 && c.len() > 0 {
        if a[0] != b[0] && b[0] != c[0] {
            lemma_str_lt_transitive(a[0], b[0], c[0]);
            if a[0] == c[0] {
                lemma_str_lt_irreflexive(a[0]);
            }
        } else if a[0] == b[0] && b[0] == c[0] {
            lemma_strs_lt_transitive(a.skip(1), b.skip(1), c.skip(1));
        }
    }
}

/// Candidate `(a, ta)` is preferred to `(b, tb)`: more players first, then
/// more games together, then the smaller list of PUUIDs.
pub open spec fn cand_before(a: Seq<Seq<char>>, ta: nat, b: Seq<Seq<char>>, tb: nat) -> bool {
    ||| a.len() > b.len()
    ||| a.len() == b.len() && ta > tb
    ||| a.len() == b.len() && ta == tb && strs_lt(a, b)
}

proof fn lemma_cand_before_order(
    a: Seq<Seq<char>>,
    ta: nat,
    b: Seq<Seq<char>>,
    tb: nat,
    c: Seq<Seq<char>>,
    tc: nat,
)
    ensures
        !(cand_before(a, ta, b, tb) && cand_before(b, tb, a, ta)),
        cand_before(a, ta, b, tb) && cand_before(b, tb, c, tc) ==> cand_before(a, ta, c, tc),
{
    lemma_strs_lt_asymmetric(a, b);
    if strs_lt(a, b) && strs_lt(b, c) {
        lemma_strs_lt_transitive(a, b, c);
    }
}

/// The players of `c` picked by the bits of `m`, lowest bit first.
pub open spec fn mask_subset(c: Seq<Seq<char>>, m: nat) -> Seq<Seq<char>>
    decreases c.len(),
{
    if c.len() == 0 {
        Seq::empty()
    } else {
        let rest = mask_subset(c.skip(1), m / 2);
        if m % 2 == 1 {
            seq![c[0]] + rest
        } else {
            rest
        }
    }
}

/// `2` to the power `n`: the number of subsets of `n` players.
pub open spec fn two_pow(n: nat) -> nat
    decreases n,
{
    if n == 0 {
        1
    } else {
        2 * two_pow((n - 1) as nat)
    }
}

proof fn lemma_mask_subset(c: Seq<Seq<char>>, m: nat)
    requires
        strictly_sorted(c),
    ensures
        strictly_sorted(mask_subset(c, m)),
        forall|k: int| 0 <= k < mask_subset(c, m).len() ==> c.contains(#[trigger] mask_subset(c, m)[k]),
    decreases c.len(),
{
    if c.len() > 0 {
        let t = c.skip(1);
        assert(strictly_sorted(t)) by {
            assert forall|i: int, j: int| 0 <= i < j < t.len() implies str_lt(#[trigger] t[i], #[trigger] t[j]) by {
                assert(t[i] == c[i + 1] && t[j] == c[j + 1]);
            }
        }
        lemma_mask_subset(t, m / 2);
        let rest = mask_subset(t, m / 2);
        assert forall|k: int| 0 <= k < rest.len() implies c.contains(#[trigger] rest[k]) && str_lt(c[0], rest[k]) by {
            let j = choose|j: int| 0 <= j < t.len() && t[j] == rest[k];
            assert(c[j + 1] == rest[k]);
        }
        if m % 2 == 1 {
            let r = seq![c[0]] + rest;
            assert forall|i: int, j: int| 0 <= i < j < r.len() implies str_lt(#[trigger] r[i], #[trigger] r[j]) by {
                if i == 0 {
                    assert(r[j] == rest[j - 1]);
                } else {
                    assert(r[i] == rest[i - 1] && r[j] == rest[j - 1]);
                }
            }
            assert forall|k: int| 0 <= k < r.len() implies c.contains(#[trigger] r[k]) by {
                if k == 0 {
                    assert(c[0] == r[0]);
                } else {
                    assert(r[k] == rest[k - 1]);
                }
            }
        }
    }
}

/// The strings of `s` that `marked` does not hold, in order.
pub open spec fn without_marked(s: Seq<Seq<char>>, marked: Seq<Seq<char>>) -> Seq<Seq<char>>
    decreases s.len(),
{
    if s.len() == 0 {
        Seq::empty()
    } else {
        let rest = without_marked(s.drop_last(), marked);
        if marked.contains(s.last()) {
            rest
        } else {
            rest.push(s.last())
        }
    }
}

proof fn lemma_without_marked(s: Seq<Seq<char>>, marked: Seq<Seq<char>>)
    requires
        strictly_sorted(s),
    ensures
        strictly_sorted(without_marked(s, marked)),
        forall|k: int|
            0 <= k < without_marked(s, marked).len() ==> s.contains(#[trigger] without_marked(s, marked)[k])
                && !marked.contains(without_marked(s, marked)[k]),
    decreases s.len(),
{
    if s.len() > 0 {
        let d = s.drop_last();
        assert(strictly_sorted(d));
        lemma_without_marked(d, marked);
        let fd = without_marked(d, marked);
        assert forall|k: int| 0 <= k < fd.len() implies s.contains(#[trigger] fd[k]) && str_lt(fd[k], s.last()) by {
            let j = choose|j: int| 0 <= j < d.len() && d[j] == fd[k];
            assert(s[j] == fd[k]);
            assert(str_lt(s[j], s[s.len() - 1]));
        }
        if !marked.contains(s.last()) {
            let r = fd.push(s.last());
            assert forall|i: int, j: int| 0 <= i < j < r.len() implies str_lt(#[trigger] r[i], #[trigger] r[j]) by {
                if j == r.len() - 1 {
                    assert(r[i] == fd[i]);
                } else {
                    assert(r[i] == fd[i] && r[j] == fd[j]);
                }
            }
            assert forall|k: int| 0 <= k < r.len() implies s.contains(#[trigger] r[k]) && !marked.contains(r[k]) by {
                if k == r.len() - 1 {
                    assert(s[s.len() - 1] == r[k]);
                } else {
                    assert(r[k] == fd[k]);
                }
            }
        }
    }
}

/// A player not in a group yet, with a real PUUID.
pub open spec fn ungrouped(p: LivePlayer) -> bool {
    p.premade is None && real_puuid_spec(p.puuid@)
}

/// The normalized PUUIDs of the players not in a group yet, in order.
pub open spec fn ungrouped_puuids(ps: Seq<LivePlayer>) -> Seq<Seq<char>>
    decreases ps.len(),
{
    if ps.len() == 0 {
        Seq::empty()
    } else {
        let rest = ungrouped_puuids(ps.drop_last());
        if ungrouped(ps.last()) {
            rest.push(norm_puuid(ps.last().puuid@))
        } else {
            rest
        }
    }
}

/// The players whose past games are searched for groups: the distinct
/// PUUIDs of the players not in a group yet, leaving out marked ones, sorted.
pub open spec fn current_players(ps: Seq<LivePlayer>, marked: Seq<Seq<char>>) -> Seq<Seq<char>> {
    without_marked(sorted_set(ungrouped_puuids(ps)), marked)
}

/// The distinct PUUIDs of the players not in a group yet, and those of them
/// not marked, each list sorted.
fn current_players_of(ps: &Vec<LivePlayer>, marked: &Vec<String>) -> (r: (Vec<String>, Vec<String>))
    ensures
        string_views(r.0@) == sorted_set(ungrouped_puuids(ps@)),
        string_views(r.1@) == current_players(ps@, string_views(marked@)),
        strictly_sorted(string_views(r.1@)),
{
    let n = ps.len();
    let mut all: Vec<String> = Vec::new();
    let mut i: usize = 0;
    while i < n
        invariant
            n == ps@.len(),
            i <= n,
            string_views(all@) == sorted_set(ungrouped_puuids(ps@.take(i as int))),
        decreases n - i,
    {
        assert(ps@.take(i + 1).drop_last() =~= ps@.take(i as int));
        proof {
            lemma_sorted_set(ungrouped_puuids(ps@.take(i as int)));
        }
        let p = &ps[i];
        assert(ps@.take(i + 1).last() == ps@[i as int]);
        if p.premade.is_none() && is_real_puuid(p.puuid.as_str()) {
            let key = normalize_puuid(p.puuid.as_str());
            assert(ungrouped_puuids(ps@.take(i + 1)) == ungrouped_puuids(ps@.take(i as int)).push(key@));
            assert(ungrouped_puuids(ps@.take(i + 1)).drop_last() =~= ungrouped_puuids(ps@.take(i as int)));
            insert_sorted_str(&mut all, key);
        } else {
            assert(ungrouped_puuids(ps@.take(i + 1)) == ungrouped_puuids(ps@.take(i as int)));
        }
        i = i + 1;
    }
    assert(ps@.take(n as int) =~= ps@);
    let ghost base = string_views(all@);
    let ghost mk = string_views(marked@);
    let mut current: Vec<String> = Vec::new();
    let mut k: usize = 0;
    while k < all.len()
        invariant
            base == string_views(all@),
            mk == string_views(marked@),
            k <= all@.len(),
            string_views(current@) == without_marked(base.take(k as int), mk),
        decreases all@.len() - k,
    {
        assert(base.take(k + 1).drop_last() =~= base.take(k as int));
        assert(base.take(k + 1).last() == all@[k as int]@);
        if !contains_str(marked, all[k].as_str()) {
            let item = all[k].clone();
            let ghost prev = current@;
            current.push(item);
            assert(string_views(current@) =~= string_views(prev).push(item@));
        }
        k = k + 1;
    }
    assert(base.take(all@.len() as int) =~= base);
    proof {
        lemma_sorted_set(ungrouped_puuids(ps@));
        lemma_without_marked(base, mk);
    }
    (all, current)
}

/// `e` records the games shared by two players of `cs`, in order.
pub open spec fn entry_ok(pl: Seq<LivePlayer>, cs: Seq<Seq<char>>, e: PairGamesEntry) -> bool {
    exists|a: int, b: int|
        0 <= a < b < cs.len() && e.first@ == #[trigger] cs[a] && e.second@ == #[trigger] cs[b]
            && e.game_ids@.len() == pair_count(pl, cs[a], cs[b]) && pair_count(pl, cs[a], cs[b]) > 0
}

/// The table has an entry for the pair `(x, y)`.
pub open spec fn has_entry(es: Seq<PairGamesEntry>, x: Seq<char>, y: Seq<char>) -> bool {
    exists|k: int| 0 <= k < es.len() && (#[trigger] es[k]).first@ == x && es[k].second@ == y
}

/// Records the shared games of each two players of `c`.
fn build_pair_table(ps: &Vec<LivePlayer>, c: &Vec<String>) -> (t: PairGameTable)
    requires
        strictly_sorted(string_views(c@)),
    ensures
        table_covers(t.entries@, ps@, string_views(c@)),
{
    let ghost cs = string_views(c@);
    let n = c.len();
    let mut entries: Vec<PairGamesEntry> = Vec::new();
    let mut q: usize = 0;
    while q < n
        invariant
            n == cs.len(),
            cs == string_views(c@),
            strictly_sorted(cs),
            q <= n,
            forall|k: int| 0 <= k < entries@.len() ==> entry_ok(ps@, cs, #[trigger] entries@[k]),
            forall|a: int, b: int|
                0 <= a < b < q && pair_count(ps@, cs[a], cs[b]) > 0 ==> has_entry(
                    entries@,
                    #[trigger] cs[a],
                    #[trigger] cs[b],
                ),
        decreases n - q,
    {
        let mut p: usize = 0;
        while p < q
            invariant
                n == cs.len(),
                cs == string_views(c@),
                q < n,
                p <= q,
                forall|k: int| 0 <= k < entries@.len() ==> entry_ok(ps@, cs, #[trigger] entries@[k]),
                forall|a: int, b: int|
                    0 <= a < b < n && (b < q || (b == q && a < p)) && pair_count(ps@, cs[a], cs[b]) > 0
                        ==> has_entry(entries@, #[trigger] cs[a], #[trigger] cs[b]),
            decreases q - p,
        {
            let ids = pair_game_ids(ps, c[p].as_str(), c[q].as_str());
            if ids.len() > 0 {
                let ghost prev = entries@;
                let e = PairGamesEntry { first: c[p].clone(), second: c[q].clone(), game_ids: ids };
                proof {
                    assert(e.first@ == cs[p as int] && e.second@ == cs[q as int]);
                    assert(entry_ok(ps@, cs, e));
                }
                entries.push(e);
                proof {
                    assert forall|k: int| 0 <= k < entries@.len() implies entry_ok(ps@, cs, #[trigger] entries@[k]) by {
                        if k < prev.len() {
                            assert(entries@[k] == prev[k]);
                        }
                    }
                    assert forall|a: int, b: int|
                        0 <= a < b < n && (b < q || (b == q && a < p + 1)) && pair_count(ps@, cs[a], cs[b])
                            > 0 implies has_entry(entries@, #[trigger] cs[a], #[trigger] cs[b]) by {
                        if b == q && a == p {
                            assert(entries@[prev.len() as int] == e);
                        } else {
                            assert(has_entry(prev, cs[a], cs[b]));
                            let k = choose|k: int|
                                0 <= k < prev.len() && (#[trigger] prev[k]).first@ == cs[a] && prev[k].second@
                                    == cs[b];
                            assert(entries@[k] == prev[k]);
                        }
                    }
                }
            }
            p = p + 1;
        }
        q = q + 1;
    }
    let ghost es = entries@;
    proof {
        assert forall|a: Seq<char>, b: Seq<char>|
            cs.contains(a) && cs.contains(b) && str_lt(a, b) implies #[trigger] table_lookup(es, a, b) == if pair_count(
            ps@,
            a,
            b,
        ) > 0 {
            Some(pair_count(ps@, a, b))
        } else {
            None
        } by {
            lemma_table_lookup(es, a, b);
            let i = choose|i: int| 0 <= i < cs.len() && cs[i] == a;
            let j = choose|j: int| 0 <= j < cs.len() && cs[j] == b;
            if j <= i {
                if j == i {
                    lemma_str_lt_irreflexive(a);
                } else {
                    assert(str_lt(cs[j], cs[i]));
                    lemma_str_lt_total(a, b);
                }
            }
            if table_lookup(es, a, b) is Some {
                let k = choose|k: int|
                    0 <= k < es.len() && (#[trigger] es[k]).first@ == a && es[k].second@ == b
                        && es[k].game_ids@.len() == table_lookup(es, a, b)->0;
                assert(entry_ok(ps@, cs, es[k]));
            } else if pair_count(ps@, a, b) > 0 {
                assert(has_entry(es, cs[i], cs[j]));
            }
        }
    }
    PairGameTable { entries }
}

/// The players of `c` picked by the bits of `m`.
fn subset_of_mask(c: &Vec<String>, m: usize) -> (r: Vec<String>)
    ensures
        string_views(r@) == mask_subset(string_views(c@), m as nat),
{
    let ghost cs = string_views(c@);
    let n = c.len();
    let mut out: Vec<String> = Vec::new();
    let mut x: usize = m;
    let mut i: usize = 0;
    assert(cs.skip(0) =~= cs);
    while i < n
        invariant
            n == cs.len(),
            cs == string_views(c@),
            i <= n,
            string_views(out@) + mask_subset(cs.skip(i as int), x as nat) == mask_subset(cs, m as nat),
        decreases n - i,
    {
        let ghost t = cs.skip(i as int);
        assert(t.skip(1) =~= cs.skip(i + 1));
        assert(t[0] == cs[i as int]);
        let ghost prev = out@;
        if x % 2 == 1 {
            let item = c[i].clone();
            out.push(item);
            assert(string_views(out@) =~= string_views(prev).push(cs[i as int]));
            assert(string_views(out@) + mask_subset(cs.skip(i + 1), (x / 2) as nat) =~= string_views(prev)
                + (seq![t[0]] + mask_subset(t.skip(1), (x / 2) as nat)));
        }
        x = x / 2;
        i = i + 1;
    }
    assert(string_views(out@) + mask_subset(cs.skip(n as int), x as nat) =~= string_views(out@));
    out
}

proof fn lemma_two_pow_le(i: nat, n: nat)
    requires
        i <= n,
    ensures
        two_pow(i) <= two_pow(n),
        two_pow(i) >= 1,
    decreases n,
{
    if n > 0 && i < n {
        lemma_two_pow_le(i, (n - 1) as nat);
    } else if i > 0 {
        lemma_two_pow_le((i - 1) as nat, (i - 1) as nat);
    }
}

/// The views of a candidate: its PUUIDs and its count of games together.
pub open spec fn cv(c: PremadeCandidate) -> (Seq<Seq<char>>, nat) {
    (string_views(c.puuids@), c.together_times as nat)
}

/// The players picked by mask `m` form a candidate: at least two of them,
/// each two of them on one side in at least three past games.
pub open spec fn mask_cand(pl: Seq<LivePlayer>, c: Seq<Seq<char>>, m: nat) -> bool {
    &&& mask_subset(c, m).len() >= 2
    &&& subset_min(pl, mask_subset(c, m)) >= 3
}

/// The candidate of mask `m`: its players and how often they played together.
pub open spec fn mask_view(pl: Seq<LivePlayer>, c: Seq<Seq<char>>, m: nat) -> (Seq<Seq<char>>, nat) {
    (mask_subset(c, m), subset_min(pl, mask_subset(c, m)))
}

/// `x` is the candidate of some mask over `c`, found in past games.
pub open spec fn good_cand(pl: Seq<LivePlayer>, c: Seq<Seq<char>>, x: PremadeCandidate) -> bool {
    &&& x.source@ == history_source()
    &&& exists|m: nat| m < two_pow(c.len()) && mask_cand(pl, c, m) && #[trigger] mask_view(pl, c, m) == cv(x)
}

/// The views of a list of candidates.
pub open spec fn cand_views(s: Seq<PremadeCandidate>) -> Seq<(Seq<Seq<char>>, nat)> {
    s.map_values(|x: PremadeCandidate| cv(x))
}

/// Every candidate of `c`, by increasing mask.
fn enumerate_candidates(ps: &Vec<LivePlayer>, c: &Vec<String>, table: &PairGameTable) -> (r: Vec<PremadeCandidate>)
    requires
        strictly_sorted(string_views(c@)),
        table_covers(table.entries@, ps@, string_views(c@)),
        c@.len() <= 10,
    ensures
        forall|k: int| 0 <= k < r@.len() ==> good_cand(ps@, string_views(c@), #[trigger] r@[k]),
        forall|m: nat|
            m < two_pow(c@.len()) && mask_cand(ps@, string_views(c@), m) ==> cand_views(r@).contains(
                #[trigger] mask_view(ps@, string_views(c@), m),
            ),
{
    let ghost cs = string_views(c@);
    let n = c.len();
    let mut total: usize = 1;
    let mut i: usize = 0;
    while i < n
        invariant
            n == cs.len(),
            n <= 10,
            i <= n,
            total == two_pow(i as nat),
        decreases n - i,
    {
        proof {
            lemma_two_pow_le((i + 1) as nat, 10);
            assert(two_pow(10) == 1024) by {
                reveal_with_fuel(two_pow, 11);
            }
        }
        total = total * 2;
        i = i + 1;
    }
    let mut out: Vec<PremadeCandidate> = Vec::new();
    let mut m: usize = 0;
    while m < total
        invariant
            n == cs.len(),
            cs == string_views(c@),
            strictly_sorted(cs),
            table_covers(table.entries@, ps@, cs),
            total == two_pow(n as nat),
            m <= total,
            forall|k: int| 0 <= k < out@.len() ==> good_cand(ps@, cs, #[trigger] out@[k]),
            forall|m2: nat|
                m2 < m && mask_cand(ps@, cs, m2) ==> cand_views(out@).contains(#[trigger] mask_view(ps@, cs, m2)),
        decreases total - m,
    {
        let subset = subset_of_mask(c, m);
        let ghost sv = string_views(subset@);
        proof {
            lemma_mask_subset(cs, m as nat);
            lemma_table_min(table.entries@, ps@, cs, sv);
        }
        let ghost prev = out@;
        if subset.len() >= 2 {
            match premade_subset_times(&subset, table) {
                Some(times) => {
                    if times >= 3 {
                        let source = "历史同队";
                        proof {
                            reveal_strlit("历史同队");
                        }
                        let cand = PremadeCandidate {
                            puuids: subset,
                            source: source.to_string(),
                            together_times: times,
                        };
                        assert(mask_view(ps@, cs, m as nat) == cv(cand));
                        out.push(cand);
                        proof {
                            assert(cand_views(out@) =~= cand_views(prev).push(cv(cand)));
                            assert forall|k: int| 0 <= k < out@.len() implies good_cand(ps@, cs, #[trigger] out@[k]) by {
                                if k < prev.len() {
                                    assert(out@[k] == prev[k]);
                                }
                            }
                            assert forall|m2: nat|
                                m2 < m + 1 && mask_cand(ps@, cs, m2) implies cand_views(out@).contains(
                                #[trigger] mask_view(ps@, cs, m2),
                            ) by {
                                if m2 == m {
                                    assert(cand_views(out@)[prev.len() as int] == cv(cand));
                                } else {
                                    let k = choose|k: int|
                                        0 <= k < cand_views(prev).len() && cand_views(prev)[k] == mask_view(
                                            ps@,
                                            cs,
                                            m2,
                                        );
                                    assert(cand_views(out@)[k] == cand_views(prev)[k]);
                                }
                            }
                        }
                    }
                },
                None => {},
            }
        }
        m = m + 1;
    }
    out
}

fn strs_less(a: &Vec<String>, b: &Vec<String>) -> (r: bool)
    ensures
        r == strs_lt(string_views(a@), string_views(b@)),
{
    let ghost av = string_views(a@);
    let ghost bv = string_views(b@);
    let n = a.len();
    let m = b.len();
    let mut i: usize = 0;
    assert(av.skip(0) =~= av);
    assert(bv.skip(0) =~= bv);
    while i < n && i < m
        invariant
            av == string_views(a@),
            bv == string_views(b@),
            n == av.len(),
            m == bv.len(),
            i <= n,
            i <= m,
            strs_lt(av, bv) == strs_lt(av.skip(i as int), bv.skip(i as int)),
        decreases n - i,
    {
        assert(av.skip(i as int)[0] == a@[i as int]@);
        assert(bv.skip(i as int)[0] == b@[i as int]@);
        if !str_eq(a[i].as_str(), b[i].as_str()) {
            return str_less(a[i].as_str(), b[i].as_str());
        }
        assert(av.skip(i as int).skip(1) =~= av.skip(i + 1));
        assert(bv.skip(i as int).skip(1) =~= bv.skip(i + 1));
        i = i + 1;
    }
    i < m && i == n
}

fn cand_goes_before(a: &PremadeCandidate, b: &PremadeCandidate) -> (r: bool)
    ensures
        r == cand_before(cv(*a).0, cv(*a).1, cv(*b).0, cv(*b).1),
{
    if a.puuids.len() != b.puuids.len() {
        a.puuids.len() > b.puuids.len()
    } else if a.together_times != b.together_times {
        a.together_times > b.together_times
    } else {
        strs_less(&a.puuids, &b.puuids)
    }
}

/// The candidates are listed in the order of `cand_before`, equal ones in any order.
pub open spec fn cands_sorted(s: Seq<PremadeCandidate>) -> bool {
    forall|i: int, j: int|
        0 <= i < j < s.len() ==> !cand_before(
            cv(#[trigger] s[j]).0,
            cv(s[j]).1,
            cv(#[trigger] s[i]).0,
            cv(s[i]).1,
        )
}

proof fn lemma_insert_cand(s: Seq<PremadeCandidate>, pos: int, e: PremadeCandidate)
    requires
        0 <= pos <= s.len(),
        cands_sorted(s),
        forall|x: int| 0 <= x < pos ==> !cand_before(cv(e).0, cv(e).1, cv(#[trigger] s[x]).0, cv(s[x]).1),
        pos < s.len() ==> cand_before(cv(e).0, cv(e).1, cv(s[pos]).0, cv(s[pos]).1),
    ensures
        cands_sorted(s.insert(pos, e)),
{
    s.insert_ensures(pos, e);
    let t = s.insert(pos, e);
    assert forall|a: int, b: int| 0 <= a < b < t.len() implies !cand_before(
        cv(#[trigger] t[b]).0,
        cv(t[b]).1,
        cv(#[trigger] t[a]).0,
        cv(t[a]).1,
    ) by {
        if b < pos {
        } else if b == pos {
        } else if a < pos {
            assert(t[b] == s[b - 1]);
        } else if a == pos {
            assert(t[b] == s[b - 1]);
            let x = s[b - 1];
            let y = s[pos];
            lemma_cand_before_order(cv(x).0, cv(x).1, cv(e).0, cv(e).1, cv(y).0, cv(y).1);
        } else {
            assert(t[a] == s[a - 1]);
            assert(t[b] == s[b - 1]);
        }
    }
}

/// Sorts candidates by `cand_before`, keeping every one of them.
fn sort_candidates(v: Vec<PremadeCandidate>) -> (r: Vec<PremadeCandidate>)
    ensures
        cands_sorted(r@),
        forall|k: int| 0 <= k < r@.len() ==> v@.contains(#[trigger] r@[k]),
        forall|j: int| 0 <= j < v@.len() ==> r@.contains(#[trigger] v@[j]),
{
    let ghost orig = v@;
    let mut rest = v;
    let n = rest.len();
    let mut out: Vec<PremadeCandidate> = Vec::new();
    let mut i: usize = 0;
    while i < n
        invariant
            n == orig.len(),
            i <= n,
            rest@ == orig.skip(i as int),
            cands_sorted(out@),
            forall|k: int| 0 <= k < out@.len() ==> orig.take(i as int).contains(#[trigger] out@[k]),
            forall|j: int| 0 <= j < i ==> out@.contains(#[trigger] orig[j]),
        decreases n - i,
    {
        assert(rest@[0] == orig[i as int]);
        let e = rest.remove(0);
        assert(rest@ =~= orig.skip(i + 1));
        let m = out.len();
        let mut pos: usize = 0;
        while pos < m
            invariant
                m == out@.len(),
                pos <= m,
                forall|x: int| 0 <= x < pos ==> !cand_before(cv(e).0, cv(e).1, cv(#[trigger] out@[x]).0, cv(out@[x]).1),
            ensures
                pos <= m,
                forall|x: int| 0 <= x < pos ==> !cand_before(cv(e).0, cv(e).1, cv(#[trigger] out@[x]).0, cv(out@[x]).1),
                pos < m ==> cand_before(cv(e).0, cv(e).1, cv(out@[pos as int]).0, cv(out@[pos as int]).1),
            decreases m - pos,
        {
            if cand_goes_before(&e, &out[pos]) {
                break;
            }
            pos = pos + 1;
        }
        let ghost prev = out@;
        proof {
            lemma_insert_cand(prev, pos as int, e);
            prev.insert_ensures(pos as int, e);
        }
        out.insert(pos, e);
        proof {
            assert forall|k: int| 0 <= k < out@.len() implies orig.take(i + 1).contains(#[trigger] out@[k]) by {
                if k == pos {
                    assert(orig.take(i + 1)[i as int] == e);
                } else {
                    let y = if k < pos { k } else { k - 1 };
                    assert(out@[k] == prev[y]);
                    assert(orig.take(i as int).contains(prev[y]));
                    let j = choose|j: int| 0 <= j < i && orig.take(i as int)[j] == prev[y];
                    assert(orig.take(i + 1)[j] == prev[y]);
                }
            }
            assert forall|j: int| 0 <= j < i + 1 implies out@.contains(#[trigger] orig[j]) by {
                if j == i {
                    assert(out@[pos as int] == e);
                } else {
                    assert(prev.contains(orig[j]));
                    let x = choose|x: int| 0 <= x < prev.len() && prev[x] == orig[j];
                    if x < pos {
                        assert(out@[x] == orig[j]);
                    } else {
                        assert(out@[x + 1] == orig[j]);
                    }
                }
            }
        }
        i = i + 1;
    }
    assert(orig.take(n as int) =~= orig);
    out
}

/// No string of `a` is in `b`.
pub open spec fn disjoint_views(a: Seq<Seq<char>>, b: Seq<Seq<char>>) -> bool {
    forall|k: int| 0 <= k < a.len() ==> !b.contains(#[trigger] a[k])
}

/// Takes the candidates in order, keeping each one that shares no player
/// with those kept before it.
fn select_disjoint(sorted: Vec<PremadeCandidate>) -> (r: Vec<PremadeCandidate>)
    requires
        cands_sorted(sorted@),
    ensures
        forall|k: int| 0 <= k < r@.len() ==> sorted@.contains(#[trigger] r@[k]),
        cands_sorted(r@),
        forall|i: int, j: int|
            0 <= i < j < r@.len() ==> disjoint_views(cv(#[trigger] r@[i]).0, cv(#[trigger] r@[j]).0),
        forall|j: int|
            0 <= j < sorted@.len() ==> cand_views(r@).contains(cv(#[trigger] sorted@[j])) || exists|i: int|
                0 <= i < r@.len() && !disjoint_views(cv(#[trigger] r@[i]).0, cv(sorted@[j]).0)
                    && !cand_before(cv(sorted@[j]).0, cv(sorted@[j]).1, cv(r@[i]).0, cv(r@[i]).1),
{
    let ghost orig = sorted@;
    let mut rest = sorted;
    let n = rest.len();
    let mut used: Vec<String> = Vec::new();
    let mut sel: Vec<PremadeCandidate> = Vec::new();
    let mut k: usize = 0;
    while k < n
        invariant
            n == orig.len(),
            k <= n,
            cands_sorted(orig),
            rest@ == orig.skip(k as int),
            forall|x: int| 0 <= x < sel@.len() ==> orig.take(k as int).contains(#[trigger] sel@[x]),
            cands_sorted(sel@),
            forall|i: int, j: int|
                0 <= i < j < sel@.len() ==> disjoint_views(cv(#[trigger] sel@[i]).0, cv(#[trigger] sel@[j]).0),
            forall|p: Seq<char>|
                #[trigger] string_views(used@).contains(p) <==> exists|i: int|
                    0 <= i < sel@.len() && cv(#[trigger] sel@[i]).0.contains(p),
            forall|j: int|
                0 <= j < k ==> cand_views(sel@).contains(cv(#[trigger] orig[j])) || exists|i: int|
                    0 <= i < sel@.len() && !disjoint_views(cv(#[trigger] sel@[i]).0, cv(orig[j]).0)
                        && !cand_before(cv(orig[j]).0, cv(orig[j]).1, cv(sel@[i]).0, cv(sel@[i]).1),
        decreases n - k,
    {
        assert(rest@[0] == orig[k as int]);
        let x = rest.remove(0);
        assert(rest@ =~= orig.skip(k + 1));
        let ghost xv = cv(x).0;
        let mut t: usize = 0;
        let mut clash = false;
        while t < x.puuids.len()
            invariant
                xv == string_views(x.puuids@),
                t <= x.puuids@.len(),
                !clash ==> forall|q: int| 0 <= q < t ==> !string_views(used@).contains(#[trigger] xv[q]),
                clash ==> exists|q: int| 0 <= q < xv.len() && string_views(used@).contains(#[trigger] xv[q]),
            decreases x.puuids@.len() - t,
        {
            if !clash && contains_str(&used, x.puuids[t].as_str()) {
                assert(xv[t as int] == x.puuids@[t as int]@);
                clash = true;
            }
            t = t + 1;
        }
        let ghost prev = sel@;
        if clash {
            proof {
                let q = choose|q: int| 0 <= q < xv.len() && string_views(used@).contains(#[trigger] xv[q]);
                let i = choose|i: int| 0 <= i < sel@.len() && cv(#[trigger] sel@[i]).0.contains(xv[q]);
                assert(!disjoint_views(cv(sel@[i]).0, xv)) by {
                    let w = choose|w: int| 0 <= w < cv(sel@[i]).0.len() && cv(sel@[i]).0[w] == xv[q];
                    assert(xv.contains(cv(sel@[i]).0[w]));
                }
                assert(orig.take(k as int).contains(sel@[i]));
                let kk = choose|kk: int| 0 <= kk < k && orig.take(k as int)[kk] == sel@[i];
                assert(orig[kk] == sel@[i]);
                assert(!cand_before(cv(orig[k as int]).0, cv(orig[k as int]).1, cv(orig[kk]).0, cv(orig[kk]).1));
                assert forall|j: int| 0 <= j < k + 1 implies cand_views(sel@).contains(cv(#[trigger] orig[j]))
                    || exists|i2: int|
                    0 <= i2 < sel@.len() && !disjoint_views(cv(#[trigger] sel@[i2]).0, cv(orig[j]).0)
                        && !cand_before(cv(orig[j]).0, cv(orig[j]).1, cv(sel@[i2]).0, cv(sel@[i2]).1) by {
                    if j == k {
                        assert(orig[j] == x);
                    }
                }
                assert forall|y: int| 0 <= y < sel@.len() implies orig.take(k + 1).contains(#[trigger] sel@[y]) by {
                    assert(orig.take(k as int).contains(sel@[y]));
                    let kk2 = choose|kk2: int| 0 <= kk2 < k && orig.take(k as int)[kk2] == sel@[y];
                    assert(orig.take(k + 1)[kk2] == sel@[y]);
                }
            }
        } else {
            let ghost used_before = string_views(used@);
            let mut u: usize = 0;
            while u < x.puuids.len()
                invariant
                    xv == string_views(x.puuids@),
                    u <= x.puuids@.len(),
                    string_views(used@) == used_before + xv.take(u as int),
                decreases x.puuids@.len() - u,
            {
                let item = x.puuids[u].clone();
                let ghost pu = used@;
                used.push(item);
                assert(string_views(used@) =~= string_views(pu).push(xv[u as int]));
                assert(xv.take(u + 1) =~= xv.take(u as int).push(xv[u as int]));
                assert(string_views(used@) =~= used_before + xv.take(u + 1));
                u = u + 1;
            }
            assert(xv.take(x.puuids@.len() as int) =~= xv);
            sel.push(x);
            proof {
                assert(sel@[prev.len() as int] == x);
                assert(x == orig[k as int]);
                assert forall|y: int| 0 <= y < sel@.len() implies orig.take(k + 1).contains(#[trigger] sel@[y]) by {
                    if y == prev.len() {
                        assert(orig.take(k + 1)[k as int] == x);
                    } else {
                        assert(sel@[y] == prev[y]);
                        assert(orig.take(k as int).contains(prev[y]));
                        let kk2 = choose|kk2: int| 0 <= kk2 < k && orig.take(k as int)[kk2] == prev[y];
                        assert(orig.take(k + 1)[kk2] == prev[y]);
                    }
                }
                assert forall|i: int, j: int| 0 <= i < j < sel@.len() implies !cand_before(
                    cv(#[trigger] sel@[j]).0,
                    cv(sel@[j]).1,
                    cv(#[trigger] sel@[i]).0,
                    cv(sel@[i]).1,
                ) by {
                    if j == prev.len() {
                        assert(sel@[i] == prev[i]);
                        assert(orig.take(k as int).contains(prev[i]));
                        let kk = choose|kk: int| 0 <= kk < k && orig.take(k as int)[kk] == prev[i];
                        assert(orig[kk] == prev[i]);
                    } else {
                        assert(sel@[i] == prev[i] && sel@[j] == prev[j]);
                    }
                }
                assert forall|i: int, j: int| 0 <= i < j < sel@.len() implies disjoint_views(
                    cv(#[trigger] sel@[i]).0,
                    cv(#[trigger] sel@[j]).0,
                ) by {
                    if j == prev.len() {
                        assert(sel@[i] == prev[i]);
                        assert forall|w: int| 0 <= w < cv(sel@[i]).0.len() implies !xv.contains(
                            #[trigger] cv(sel@[i]).0[w],
                        ) by {
                            let p = cv(sel@[i]).0[w];
                            if xv.contains(p) {
                                let q = choose|q: int| 0 <= q < xv.len() && xv[q] == p;
                                assert(cv(prev[i]).0.contains(p));
                                assert(used_before.contains(xv[q]));
                            }
                        }
                    } else {
                        assert(sel@[i] == prev[i] && sel@[j] == prev[j]);
                    }
                }
                assert forall|p: Seq<char>| #[trigger] string_views(used@).contains(p) <==> exists|i: int|
                    0 <= i < sel@.len() && cv(#[trigger] sel@[i]).0.contains(p) by {
                    if string_views(used@).contains(p) {
                        let w = choose|w: int| 0 <= w < string_views(used@).len() && string_views(used@)[w] == p;
                        if w < used_before.len() {
                            assert(used_before.contains(p));
                            let i = choose|i: int| 0 <= i < prev.len() && cv(#[trigger] prev[i]).0.contains(p);
                            assert(sel@[i] == prev[i]);
                        } else {
                            assert(xv.contains(p)) by {
                                assert(xv[w - used_before.len()] == p);
                            }
                            assert(cv(sel@[prev.len() as int]).0.contains(p));
                        }
                    }
                    if exists|i: int| 0 <= i < sel@.len() && cv(#[trigger] sel@[i]).0.contains(p) {
                        let i = choose|i: int| 0 <= i < sel@.len() && cv(#[trigger] sel@[i]).0.contains(p);
                        if i < prev.len() {
                            assert(sel@[i] == prev[i]);
                            assert(used_before.contains(p));
                            let w = choose|w: int| 0 <= w < used_before.len() && used_before[w] == p;
                            assert(string_views(used@)[w] == p);
                        } else {
                            let w = choose|w: int| 0 <= w < xv.len() && xv[w] == p;
                            assert(string_views(used@)[used_before.len() + w] == p);
                        }
                    }
                }
                assert(cand_views(sel@) =~= cand_views(prev).push(cv(x)));
                assert forall|j: int| 0 <= j < k + 1 implies cand_views(sel@).contains(cv(#[trigger] orig[j]))
                    || exists|i2: int|
                    0 <= i2 < sel@.len() && !disjoint_views(cv(#[trigger] sel@[i2]).0, cv(orig[j]).0)
                        && !cand_before(cv(orig[j]).0, cv(orig[j]).1, cv(sel@[i2]).0, cv(sel@[i2]).1) by {
                    if j == k {
                        assert(cand_views(sel@)[prev.len() as int] == cv(orig[j]));
                    } else if cand_views(prev).contains(cv(orig[j])) {
                        let w = choose|w: int| 0 <= w < cand_views(prev).len() && cand_views(prev)[w] == cv(orig[j]);
                        assert(cand_views(sel@)[w] == cv(orig[j]));
                    } else {
                        let i2 = choose|i2: int|
                            0 <= i2 < prev.len() && !disjoint_views(cv(#[trigger] prev[i2]).0, cv(orig[j]).0)
                                && !cand_before(cv(orig[j]).0, cv(orig[j]).1, cv(prev[i2]).0, cv(prev[i2]).1);
                        assert(sel@[i2] == prev[i2]);
                    }
                }
            }
        }
        k = k + 1;
    }
    assert(orig.take(n as int) =~= orig);
    sel
}

/// Whether the players considered for groups found in past games are few
/// enough to try every subset of them: two to ten distinct players not in a
/// group yet, at least two of them unmarked.
pub open spec fn inference_applies(ps: Seq<LivePlayer>, marked: Seq<Seq<char>>) -> bool {
    let base = sorted_set(ungrouped_puuids(ps));
    &&& 2 <= base.len() <= 10
    &&& current_players(ps, marked).len() >= 2
}

/// What the groups found in past games for the players `ps` are, with the
/// PUUIDs `mk` marked: none unless `inference_applies`; otherwise candidates
/// of the current players, in the order of `cand_before`, sharing no player,
/// and every candidate left out shares a player with one taken that does not
/// come after it.
pub open spec fn inferred_ok(ps: Seq<LivePlayer>, mk: Seq<Seq<char>>, r: Seq<PremadeCandidate>) -> bool {
    let c = current_players(ps, mk);
    &&& !inference_applies(ps, mk) ==> r.len() == 0
    &&& inference_applies(ps, mk) ==> {
        &&& forall|k: int| 0 <= k < r.len() ==> good_cand(ps, c, #[trigger] r[k])
        &&& cands_sorted(r)
        &&& forall|i: int, j: int|
            0 <= i < j < r.len() ==> disjoint_views(cv(#[trigger] r[i]).0, cv(#[trigger] r[j]).0)
        &&& forall|m: nat|
            m < two_pow(c.len()) && mask_cand(ps, c, m) ==> cand_views(r).contains(
                #[trigger] mask_view(ps, c, m),
            ) || exists|i: int|
                0 <= i < r.len() && !disjoint_views(cv(#[trigger] r[i]).0, mask_subset(c, m))
                    && !cand_before(mask_subset(c, m), subset_min(ps, mask_subset(c, m)), cv(r[i]).0, cv(r[i]).1)
    }
}

/// Group `a` is at least as large as group `b`, and when as large, its
/// players played together at least as often.
pub open spec fn size_first(a: (Seq<Seq<char>>, nat), b: (Seq<Seq<char>>, nat)) -> bool {
    a.0.len() >= b.0.len() && (a.0.len() == b.0.len() ==> a.1 >= b.1)
}

/// Larger groups win: the groups taken come largest first, and every
/// candidate that is not taken shares a player with a taken group that is
/// at least as large (and, as large, played together at least as often).
pub open spec fn prefers_larger(ps: Seq<LivePlayer>, mk: Seq<Seq<char>>, r: Seq<PremadeCandidate>) -> bool {
    let c = current_players(ps, mk);
    inference_applies(ps, mk) ==> {
        &&& forall|i: int, j: int| 0 <= i < j < r.len() ==> size_first(cv(#[trigger] r[i]), cv(#[trigger] r[j]))
        &&& forall|m: nat|
            m < two_pow(c.len()) && mask_cand(ps, c, m) && !cand_views(r).contains(#[trigger] mask_view(ps, c, m))
                ==> exists|i: int|
                0 <= i < r.len() && !disjoint_views(cv(#[trigger] r[i]).0, mask_subset(c, m)) && size_first(
                    cv(r[i]),
                    mask_view(ps, c, m),
                )
    }
}

/// The groups found in past games prefer larger groups.
pub proof fn lemma_inferred_prefers_larger(ps: Seq<LivePlayer>, mk: Seq<Seq<char>>, r: Seq<PremadeCandidate>)
    requires
        inferred_ok(ps, mk, r),
    ensures
        prefers_larger(ps, mk, r),
{
    let c = current_players(ps, mk);
    if inference_applies(ps, mk) {
        assert forall|i: int, j: int| 0 <= i < j < r.len() implies size_first(cv(#[trigger] r[i]), cv(#[trigger] r[j])) by {
            assert(!cand_before(cv(r[j]).0, cv(r[j]).1, cv(r[i]).0, cv(r[i]).1));
        }
        assert forall|m: nat|
            m < two_pow(c.len()) && mask_cand(ps, c, m) && !cand_views(r).contains(#[trigger] mask_view(ps, c, m))
                implies exists|i: int|
                0 <= i < r.len() && !disjoint_views(cv(#[trigger] r[i]).0, mask_subset(c, m)) && size_first(
                    cv(r[i]),
                    mask_view(ps, c, m),
                ) by {
            let i = choose|i: int|
                0 <= i < r.len() && !disjoint_views(cv(#[trigger] r[i]).0, mask_subset(c, m))
                    && !cand_before(mask_subset(c, m), subset_min(ps, mask_subset(c, m)), cv(r[i]).0, cv(r[i]).1);
            assert(size_first(cv(r[i]), mask_view(ps, c, m)));
        }
    }
}

/// The groups that past games suggest for a team. Among the players not in
/// a group yet and not marked (`current_players`), every subset of at least
/// two whose each two players shared a side in at least three past games is
/// a candidate; candidates are taken greedily in the order of `cand_before`,
/// each kept when it shares no player with one kept before.
pub fn inferred_premade_groups(team: &LiveTeam, marked: &Vec<String>) -> (r: Vec<PremadeCandidate>)
    ensures
        inferred_ok(team.players@, string_views(marked@), r@),
        prefers_larger(team.players@, string_views(marked@), r@),
{
    let ghost ps = team.players@;
    let ghost mk = string_views(marked@);
    let (all, current) = current_players_of(&team.players, marked);
    if all.len() < 2 || all.len() > 10 || current.len() < 2 {
        return Vec::new();
    }
    let ghost c = string_views(current@);
    proof {
        lemma_sorted_set(ungrouped_puuids(ps));
        lemma_without_marked_len(sorted_set(ungrouped_puuids(ps)), mk);
    }
    let table = build_pair_table(&team.players, &current);
    let cands = enumerate_candidates(&team.players, &current, &table);
    let ghost e = cands@;
    let sorted = sort_candidates(cands);
    let ghost so = sorted@;
    let r = select_disjoint(sorted);
    proof {
        assert forall|k: int| 0 <= k < r@.len() implies good_cand(ps, c, #[trigger] r@[k]) by {
            assert(so.contains(r@[k]));
            let j = choose|j: int| 0 <= j < so.len() && so[j] == r@[k];
            assert(e.contains(so[j]));
            let j2 = choose|j2: int| 0 <= j2 < e.len() && e[j2] == so[j];
            assert(good_cand(ps, c, e[j2]));
        }
        assert forall|m: nat|
            m < two_pow(c.len()) && mask_cand(ps, c, m) implies cand_views(r@).contains(
            #[trigger] mask_view(ps, c, m),
        ) || exists|i: int|
            0 <= i < r@.len() && !disjoint_views(cv(#[trigger] r@[i]).0, mask_subset(c, m))
                && !cand_before(mask_subset(c, m), subset_min(ps, mask_subset(c, m)), cv(r@[i]).0, cv(r@[i]).1) by {
            assert(cand_views(e).contains(mask_view(ps, c, m)));
            let j = choose|j: int| 0 <= j < cand_views(e).len() && cand_views(e)[j] == mask_view(ps, c, m);
            assert(cv(e[j]) == mask_view(ps, c, m));
            assert(so.contains(e[j]));
            let j2 = choose|j2: int| 0 <= j2 < so.len() && so[j2] == e[j];
            assert(cv(so[j2]) == mask_view(ps, c, m));
        }
    }
    proof {
        lemma_inferred_prefers_larger(ps, mk, r@);
    }
    r
}

proof fn lemma_without_marked_len(s: Seq<Seq<char>>, marked: Seq<Seq<char>>)
    ensures
        without_marked(s, marked).len() <= s.len(),
    decreases s.len(),
{
    if s.len() > 0 {
        lemma_without_marked_len(s.drop_last(), marked);
    }
}

/// `after` is `before`, or `before` with a premade marker whose group, of at
/// least two players, holds its PUUID.
pub open spec fn premade_update(before: LivePlayer, after: LivePlayer) -> bool {
    ||| after == before
    ||| {
        &&& after.premade is Some
        &&& after == with_premade(before, after.premade->0)
        &&& string_views(after.premade->0.member_puuids@).contains(norm_puuid(before.puuid@))
        &&& after.premade->0.member_puuids@.len() >= 2
    }
}

/// The teams keep their names and players; players only gain premade markers.
pub open spec fn teams_updated(before: Seq<LiveTeam>, after: Seq<LiveTeam>) -> bool {
    &&& before.len() == after.len()
    &&& forall|t: int|
        0 <= t < before.len() ==> {
            &&& (#[trigger] after[t]).name == before[t].name
            &&& after[t].players@.len() == before[t].players@.len()
            &&& forall|k: int|
                0 <= k < before[t].players@.len() ==> premade_update(
                    before[t].players@[k],
                    #[trigger] after[t].players@[k],
                )
        }
}

proof fn lemma_premade_update_trans(a: LivePlayer, b: LivePlayer, c: LivePlayer)
    requires
        premade_update(a, b),
        premade_update(b, c),
    ensures
        premade_update(a, c),
{
    if c != b && b != a {
        assert(c == with_premade(a, c.premade->0));
    }
}

/// The normalized PUUIDs of a marker's group.
pub open spec fn member_view(m: LivePremadeMarker) -> Seq<Seq<char>> {
    string_views(m.member_puuids@)
}

/// The groups handed out so far: each lies within the marked PUUIDs, and
/// two of them are the same group or share no player.
pub open spec fn groups_ok(gs: Set<Seq<Seq<char>>>, marked: Seq<Seq<char>>) -> bool {
    &&& forall|g: Seq<Seq<char>>, i: int| #[trigger] gs.contains(g) && 0 <= i < g.len() ==> marked.contains(#[trigger] g[i])
    &&& forall|a: Seq<Seq<char>>, b: Seq<Seq<char>>|
        #[trigger] gs.contains(a) && #[trigger] gs.contains(b) ==> a == b || disjoint_views(a, b)
}

/// Every marker of the players is one of the groups.
pub open spec fn markers_in(ps: Seq<LivePlayer>, gs: Set<Seq<Seq<char>>>) -> bool {
    forall|k: int| 0 <= k < ps.len() && (#[trigger] ps[k]).premade is Some ==> gs.contains(member_view(ps[k].premade->0))
}

/// No player of the teams carries a marker.
pub open spec fn no_markers(ts: Seq<LiveTeam>) -> bool {
    forall|t: int, k: int|
        0 <= t < ts.len() && 0 <= k < ts[t].players@.len() ==> (#[trigger] ts[t].players@[k]).premade is None
}

/// Premade groups never overlap: two marked players, in the same team or
/// not, are in the same group or in groups that share no player.
pub open spec fn groups_partition(ts: Seq<LiveTeam>) -> bool {
    forall|t1: int, k1: int, t2: int, k2: int|
        0 <= t1 < ts.len() && 0 <= k1 < ts[t1].players@.len() && 0 <= t2 < ts.len() && 0 <= k2
            < ts[t2].players@.len() && (#[trigger] ts[t1].players@[k1]).premade is Some && (
        #[trigger] ts[t2].players@[k2]).premade is Some ==> member_view(ts[t1].players@[k1].premade->0)
            == member_view(ts[t2].players@[k2].premade->0) || disjoint_views(
            member_view(ts[t1].players@[k1].premade->0),
            member_view(ts[t2].players@[k2].premade->0),
        )
}

proof fn lemma_markers_in_grow(ps: Seq<LivePlayer>, a: Set<Seq<Seq<char>>>, b: Set<Seq<Seq<char>>>)
    requires
        markers_in(ps, a),
        a.subset_of(b),
    ensures
        markers_in(ps, b),
{
}

/// The player carries the marker of candidate `c`.
pub open spec fn carries(p: LivePlayer, c: PremadeCandidate) -> bool {
    &&& p.premade is Some
    &&& p.premade->0.member_puuids@ == c.puuids@
    &&& p.premade->0.source@ == c.source@
}

/// The normalized PUUIDs of a candidate.
pub open spec fn cand_view(c: PremadeCandidate) -> Seq<Seq<char>> {
    string_views(c.puuids@)
}

/// The groups can be marked one after the other: each may be marked now,
/// each holds a player of the team, and no two share a player.
#[verifier::opaque]
pub open spec fn groups_ready(gs: Seq<PremadeCandidate>, marked: Seq<Seq<char>>, ps: Seq<LivePlayer>) -> bool {
    &&& forall|j: int| 0 <= j < gs.len() ==> group_ok(cand_view(#[trigger] gs[j]), marked)
    &&& forall|j: int| 0 <= j < gs.len() ==> exists|k: int| 0 <= k < ps.len() && player_in(ps[k], cand_view(#[trigger] gs[j]))
    &&& forall|i: int, j: int| 0 <= i < j < gs.len() ==> disjoint_views(cand_view(#[trigger] gs[i]), cand_view(#[trigger] gs[j]))
}

/// The players of the first `n` groups carry their group's marker and are
/// marked.
pub open spec fn all_carry(
    gs: Seq<PremadeCandidate>,
    n: int,
    before: Seq<LivePlayer>,
    after: Seq<LivePlayer>,
    marked: Seq<Seq<char>>,
) -> bool {
    forall|j: int, k: int|
        #![trigger gs[j], after[k]]
        0 <= j < n && 0 <= k < before.len() && player_in(before[k], cand_view(gs[j])) ==> carries(after[k], gs[j])
            && marked.contains(norm_puuid(before[k].puuid@))
}

/// One group of a ready list is marked: it holds no marked player and some
/// player of the team, so its players get its marker, and the players of
/// the groups before it keep theirs.
proof fn lemma_group_step(
    orig: Seq<LivePlayer>,
    before: Seq<LivePlayer>,
    after: Seq<LivePlayer>,
    gs: Seq<PremadeCandidate>,
    i: int,
    mk0: Seq<Seq<char>>,
    mk: Seq<Seq<char>>,
    mk2: Seq<Seq<char>>,
    gi: nat,
    assigned: bool,
)
    requires
        0 <= i < gs.len(),
        groups_ready(gs, mk0, orig),
        before.len() == orig.len(),
        after.len() == orig.len(),
        forall|k: int| 0 <= k < orig.len() ==> (#[trigger] before[k]).puuid == orig[k].puuid,
        forall|x: Seq<char>|
            #[trigger] mk.contains(x) ==> mk0.contains(x) || exists|j: int| 0 <= j < i && cand_view(#[trigger] gs[j]).contains(x),
        all_carry(gs, i, orig, before, mk),
        assigned == (group_ok(cand_view(gs[i]), mk) && exists|k: int| 0 <= k < before.len() && player_in(before[k], cand_view(gs[i]))),
        forall|k: int|
            0 <= k < before.len() ==> if assigned && player_in(before[k], cand_view(gs[i])) {
                &&& (#[trigger] after[k]).premade is Some
                &&& marker_spec(after[k].premade->0, gi, gs[i])
            } else {
                after[k] == before[k]
            },
        assigned ==> mk2 == mk + cand_view(gs[i]),
    ensures
        assigned,
        all_carry(gs, i + 1, orig, after, mk2),
{
    reveal(groups_ready);
    let g = cand_view(gs[i]);
    assert(group_ok(g, mk)) by {
        assert(group_ok(cand_view(gs[i]), mk0));
        assert forall|w: int| 0 <= w < g.len() implies !mk.contains(#[trigger] g[w]) by {
            if mk.contains(g[w]) {
                if !mk0.contains(g[w]) {
                    let j = choose|j: int| 0 <= j < i && cand_view(#[trigger] gs[j]).contains(g[w]);
                    assert(disjoint_views(cand_view(gs[j]), cand_view(gs[i])));
                    let m = choose|m: int| 0 <= m < cand_view(gs[j]).len() && cand_view(gs[j])[m] == g[w];
                    assert(!cand_view(gs[i]).contains(cand_view(gs[j])[m]));
                }
            }
        }
    }
    assert(exists|k: int| 0 <= k < before.len() && player_in(before[k], g)) by {
        assert(exists|k: int| 0 <= k < orig.len() && player_in(orig[k], cand_view(gs[i])));
        let k = choose|k: int| 0 <= k < orig.len() && player_in(orig[k], cand_view(gs[i]));
        assert(before[k].puuid == orig[k].puuid);
        assert(player_in(before[k], g));
    }
    assert forall|j: int, k: int|
        #![trigger gs[j], after[k]]
        0 <= j < i + 1 && 0 <= k < orig.len() && player_in(orig[k], cand_view(gs[j])) implies carries(after[k], gs[j])
            && mk2.contains(norm_puuid(orig[k].puuid@)) by {
        assert(before[k].puuid == orig[k].puuid);
        if j == i {
            assert(player_in(before[k], g));
            assert(marker_spec(after[k].premade->0, gi, gs[i]));
            let w = choose|w: int| 0 <= w < g.len() && g[w] == norm_puuid(before[k].puuid@);
            assert(mk2[mk.len() + w] == g[w]);
        } else {
            assert(carries(before[k], gs[j]) && mk.contains(norm_puuid(orig[k].puuid@)));
            let w = choose|w: int| 0 <= w < mk.len() && mk[w] == norm_puuid(orig[k].puuid@);
            assert(!g.contains(mk[w]));
            assert(after[k] == before[k]);
            assert(mk2[w] == mk[w]);
        }
    }
}

/// The PUUIDs marked when group `j` of `gs` comes up, starting from `mk`
/// with the players `ps`: each group before it that was marked added its
/// PUUIDs.
pub open spec fn marked_before(gs: Seq<PremadeCandidate>, mk: Seq<Seq<char>>, ps: Seq<LivePlayer>, j: nat) -> Seq<
    Seq<char>,
>
    decreases j,
{
    if j == 0 {
        mk
    } else {
        let prev = marked_before(gs, mk, ps, (j - 1) as nat);
        let g = cand_view(gs[j - 1]);
        if group_ok(g, prev) && exists|k: int| 0 <= k < ps.len() && player_in(ps[k], g) {
            prev + g
        } else {
            prev
        }
    }
}

/// Whether group `j` of `gs` is marked: when it comes up it may be marked
/// and it holds a player of the team.
pub open spec fn accepted(gs: Seq<PremadeCandidate>, mk: Seq<Seq<char>>, ps: Seq<LivePlayer>, j: int) -> bool {
    &&& group_ok(cand_view(gs[j]), marked_before(gs, mk, ps, j as nat))
    &&& exists|k: int| 0 <= k < ps.len() && player_in(ps[k], cand_view(gs[j]))
}

/// How many of the first `j` groups of `gs` are marked.
pub open spec fn accepted_count(gs: Seq<PremadeCandidate>, mk: Seq<Seq<char>>, ps: Seq<LivePlayer>, j: nat) -> nat
    decreases j,
{
    if j == 0 {
        0
    } else if accepted(gs, mk, ps, j - 1) {
        accepted_count(gs, mk, ps, (j - 1) as nat) + 1
    } else {
        accepted_count(gs, mk, ps, (j - 1) as nat)
    }
}

/// The players of the first `i` groups of `gs` that were marked carry the
/// marker of their group, numbered from `base` in the order of marking; the
/// other players are as in `before`.
pub open spec fn groups_marked_upto(
    before: Seq<LivePlayer>,
    gs: Seq<PremadeCandidate>,
    mk: Seq<Seq<char>>,
    base: nat,
    after: Seq<LivePlayer>,
    i: int,
) -> bool {
    &&& after.len() == before.len()
    &&& forall|j: int, k: int|
        #![trigger gs[j], after[k]]
        0 <= j < i && 0 <= k < before.len() && accepted(gs, mk, before, j) && player_in(before[k], cand_view(gs[j]))
            ==> after[k].premade is Some && after[k] == with_premade(before[k], after[k].premade->0) && marker_spec(
            after[k].premade->0,
            base + accepted_count(gs, mk, before, j as nat),
            gs[j],
        )
    &&& forall|k: int|
        0 <= k < before.len() && !(exists|j: int|
            0 <= j < i && accepted(gs, mk, before, j) && player_in(before[k], cand_view(#[trigger] gs[j])))
            ==> #[trigger] after[k] == before[k]
}

/// One team marked with `gs` in turn: the players as `groups_marked_upto`
/// says for all the groups, the marked PUUIDs and the group counter as
/// the groups that were marked leave them.
pub open spec fn team_pass_spec(
    before: Seq<LivePlayer>,
    gs: Seq<PremadeCandidate>,
    mk: Seq<Seq<char>>,
    base: nat,
    after: Seq<LivePlayer>,
    mk2: Seq<Seq<char>>,
    base2: nat,
) -> bool {
    &&& groups_marked_upto(before, gs, mk, base, after, gs.len() as int)
    &&& mk2 == marked_before(gs, mk, before, gs.len())
    &&& base2 == base + accepted_count(gs, mk, before, gs.len())
}

/// The PUUIDs of a group that was marked stay marked for the later groups.
proof fn lemma_marked_before_keeps(gs: Seq<PremadeCandidate>, mk: Seq<Seq<char>>, ps: Seq<LivePlayer>, i: nat)
    ensures
        forall|x: Seq<char>| mk.contains(x) ==> #[trigger] marked_before(gs, mk, ps, i).contains(x),
        forall|j: int, x: Seq<char>|
            0 <= j < i && accepted(gs, mk, ps, j) && #[trigger] cand_view(gs[j]).contains(x) ==> marked_before(
                gs,
                mk,
                ps,
                i,
            ).contains(x),
    decreases i,
{
    if i > 0 {
        let p = (i - 1) as nat;
        lemma_marked_before_keeps(gs, mk, ps, p);
        let prev = marked_before(gs, mk, ps, p);
        let cur = marked_before(gs, mk, ps, i);
        let g = cand_view(gs[i - 1]);
        if accepted(gs, mk, ps, i - 1) {
            assert(cur == prev + g);
            assert forall|x: Seq<char>| prev.contains(x) implies cur.contains(x) by {
                let w = choose|w: int| 0 <= w < prev.len() && prev[w] == x;
                assert(cur[w] == x);
            }
            assert forall|x: Seq<char>| g.contains(x) implies cur.contains(x) by {
                let w = choose|w: int| 0 <= w < g.len() && g[w] == x;
                assert(cur[prev.len() + w] == x);
            }
        } else {
            assert(cur == prev);
        }
    }
}

/// One more group tried by `assign_premade_group`: the marking so far is
/// extended by group `i`.
proof fn lemma_assign_step(
    orig: Seq<LivePlayer>,
    before: Seq<LivePlayer>,
    after: Seq<LivePlayer>,
    gs: Seq<PremadeCandidate>,
    i: int,
    mk0: Seq<Seq<char>>,
    base: nat,
    mk: Seq<Seq<char>>,
    mk2: Seq<Seq<char>>,
    gi: nat,
    gi2: nat,
    assigned: bool,
)
    requires
        0 <= i < gs.len(),
        before.len() == orig.len(),
        forall|k: int| 0 <= k < orig.len() ==> (#[trigger] before[k]).puuid == orig[k].puuid,
        groups_marked_upto(orig, gs, mk0, base, before, i),
        mk == marked_before(gs, mk0, orig, i as nat),
        gi == base + accepted_count(gs, mk0, orig, i as nat),
        assigned == (group_ok(cand_view(gs[i]), mk) && exists|k: int|
            0 <= k < before.len() && player_in(before[k], cand_view(gs[i]))),
        after.len() == before.len(),
        forall|k: int|
            0 <= k < before.len() ==> if assigned && player_in(before[k], cand_view(gs[i])) {
                &&& (#[trigger] after[k]).premade is Some
                &&& marker_spec(after[k].premade->0, gi, gs[i])
                &&& after[k] == with_premade(before[k], after[k].premade->0)
            } else {
                after[k] == before[k]
            },
        assigned ==> mk2 == mk + cand_view(gs[i]) && gi2 == gi + 1,
        !assigned ==> mk2 == mk && gi2 == gi,
    ensures
        assigned == accepted(gs, mk0, orig, i),
        groups_marked_upto(orig, gs, mk0, base, after, i + 1),
        mk2 == marked_before(gs, mk0, orig, (i + 1) as nat),
        gi2 == base + accepted_count(gs, mk0, orig, (i + 1) as nat),
{
    let g = cand_view(gs[i]);
    assert((exists|k: int| 0 <= k < before.len() && player_in(before[k], g)) == (exists|k: int|
        0 <= k < orig.len() && player_in(orig[k], g))) by {
        if exists|k: int| 0 <= k < before.len() && player_in(before[k], g) {
            let k = choose|k: int| 0 <= k < before.len() && player_in(before[k], g);
            assert(before[k].puuid == orig[k].puuid);
            assert(player_in(orig[k], g));
        }
        if exists|k: int| 0 <= k < orig.len() && player_in(orig[k], g) {
            let k = choose|k: int| 0 <= k < orig.len() && player_in(orig[k], g);
            assert(before[k].puuid == orig[k].puuid);
            assert(player_in(before[k], g));
        }
    }
    assert(assigned == accepted(gs, mk0, orig, i));
    assert(marked_before(gs, mk0, orig, (i + 1) as nat) == if accepted(gs, mk0, orig, i) {
        mk + g
    } else {
        mk
    });
    lemma_marked_before_keeps(gs, mk0, orig, i as nat);
    assert forall|j: int, k: int|
        #![trigger gs[j], after[k]]
        0 <= j < i + 1 && 0 <= k < orig.len() && accepted(gs, mk0, orig, j) && player_in(orig[k], cand_view(gs[j]))
            implies after[k].premade is Some && after[k] == with_premade(orig[k], after[k].premade->0) && marker_spec(
            after[k].premade->0,
            base + accepted_count(gs, mk0, orig, j as nat),
            gs[j],
        ) by {
        assert(before[k].puuid == orig[k].puuid);
        if j == i {
            assert(player_in(before[k], g));
            if exists|j2: int| 0 <= j2 < i && accepted(gs, mk0, orig, j2) && player_in(orig[k], cand_view(#[trigger] gs[j2])) {
                let j2 = choose|j2: int| 0 <= j2 < i && accepted(gs, mk0, orig, j2) && player_in(orig[k], cand_view(#[trigger] gs[j2]));
                assert(cand_view(gs[j2]).contains(norm_puuid(orig[k].puuid@)));
                assert(mk.contains(norm_puuid(orig[k].puuid@)));
                let w = choose|w: int| 0 <= w < g.len() && g[w] == norm_puuid(orig[k].puuid@);
                assert(!mk.contains(g[w]));
            }
            assert(before[k] == orig[k]);
        } else {
            assert(cand_view(gs[j]).contains(norm_puuid(orig[k].puuid@)));
            assert(mk.contains(norm_puuid(orig[k].puuid@)));
            if assigned && player_in(before[k], g) {
                let w = choose|w: int| 0 <= w < g.len() && g[w] == norm_puuid(before[k].puuid@);
                assert(!mk.contains(g[w]));
            }
            assert(after[k] == before[k]);
        }
    }
    assert forall|k: int|
        0 <= k < orig.len() && !(exists|j: int|
            0 <= j < i + 1 && accepted(gs, mk0, orig, j) && player_in(orig[k], cand_view(#[trigger] gs[j])))
            implies #[trigger] after[k] == orig[k] by {
        assert(before[k].puuid == orig[k].puuid);
        assert(!(exists|j: int| 0 <= j < i && accepted(gs, mk0, orig, j) && player_in(orig[k], cand_view(#[trigger] gs[j]))));
        assert(before[k] == orig[k]);
        if assigned && player_in(before[k], g) {
            assert(player_in(orig[k], cand_view(gs[i])));
        }
    }
}

/// Assigns `groups` in turn to one team.
fn assign_groups(
    team: &mut LiveTeam,
    groups: Vec<PremadeCandidate>,
    marked: &mut Vec<String>,
    group_index: &mut usize,
    Ghost(handed): Ghost<Set<Seq<Seq<char>>>>,
) -> (r: Ghost<Set<Seq<Seq<char>>>>)
    requires
        2 * *old(group_index) <= old(marked)@.len(),
    ensures
        2 * *final(group_index) <= final(marked)@.len(),
        final(team).name == old(team).name,
        final(team).players@.len() == old(team).players@.len(),
        forall|k: int|
            0 <= k < old(team).players@.len() ==> premade_update(
                old(team).players@[k],
                #[trigger] final(team).players@[k],
            ),
        handed.subset_of(r@),
        groups_ok(handed, string_views(old(marked)@)) && markers_in(old(team).players@, handed) ==> groups_ok(
            r@,
            string_views(final(marked)@),
        ) && markers_in(final(team).players@, r@),
        forall|k: int|
            0 <= k < old(team).players@.len() && string_views(old(marked)@).contains(
                norm_puuid(old(team).players@[k].puuid@),
            ) ==> #[trigger] final(team).players@[k] == old(team).players@[k],
        forall|x: Seq<char>| string_views(old(marked)@).contains(x) ==> #[trigger] string_views(final(marked)@).contains(x),
        forall|x: Seq<char>|
            #[trigger] string_views(final(marked)@).contains(x) ==> string_views(old(marked)@).contains(x) || exists|j: int|
                0 <= j < groups@.len() && cand_view(#[trigger] groups@[j]).contains(x),
        groups_ready(groups@, string_views(old(marked)@), old(team).players@) ==> all_carry(
            groups@,
            groups@.len() as int,
            old(team).players@,
            final(team).players@,
            string_views(final(marked)@),
        ),
        team_pass_spec(
            old(team).players@,
            groups@,
            string_views(old(marked)@),
            *old(group_index) as nat,
            final(team).players@,
            string_views(final(marked)@),
            *final(group_index) as nat,
        ),
{
    let ghost orig = team.players@;
    let ghost gs = groups@;
    let ghost mk0 = string_views(marked@);
    let ghost ready = groups_ready(gs, mk0, orig);
    let ghost start_ok = groups_ok(handed, string_views(marked@)) && markers_in(team.players@, handed);
    let ghost base = *group_index as nat;
    let ghost mut cur = handed;
    let mut rest = groups;
    let n = rest.len();
    let mut i: usize = 0;
    while i < n
        invariant
            n == gs.len(),
            i <= n,
            rest@ == gs.skip(i as int),
            2 * *group_index <= marked@.len(),
            team.name == old(team).name,
            orig == old(team).players@,
            team.players@.len() == orig.len(),
            forall|k: int| 0 <= k < orig.len() ==> premade_update(orig[k], #[trigger] team.players@[k]),
            handed.subset_of(cur),
            start_ok ==> groups_ok(cur, string_views(marked@)) && markers_in(team.players@, cur),
            mk0 == string_views(old(marked)@),
            ready == groups_ready(gs, mk0, orig),
            forall|k: int|
                0 <= k < orig.len() && mk0.contains(norm_puuid(orig[k].puuid@)) ==> #[trigger] team.players@[k] == orig[k],
            forall|x: Seq<char>| mk0.contains(x) ==> #[trigger] string_views(marked@).contains(x),
            forall|x: Seq<char>|
                #[trigger] string_views(marked@).contains(x) ==> mk0.contains(x) || exists|j: int|
                    0 <= j < i && cand_view(#[trigger] gs[j]).contains(x),
            ready ==> all_carry(gs, i as int, orig, team.players@, string_views(marked@)),
            base == *old(group_index) as nat,
            groups_marked_upto(orig, gs, mk0, base, team.players@, i as int),
            string_views(marked@) == marked_before(gs, mk0, orig, i as nat),
            *group_index as nat == base + accepted_count(gs, mk0, orig, i as nat),
        decreases n - i,
    {
        let group = rest.remove(0);
        assert(rest@ =~= gs.skip(i + 1));
        assert(group == gs[i as int]);
        let ghost before = team.players@;
        let marked_count = marked.len();
        assert(2 * *group_index <= marked_count);
        assert(*group_index < usize::MAX);
        let ghost mk_before = marked@;
        let ghost cur_before = cur;
        let ghost gi = *group_index;
        let assigned = assign_premade_group(team, group, marked, group_index);
        proof {
            let g = string_views(group.puuids@);
            let mk = string_views(mk_before);
            let mk2 = string_views(marked@);
            if assigned {
                assert(string_views(marked@).len() == marked@.len());
                assert(string_views(mk_before).len() == mk_before.len());
                assert(mk2 == mk + g);
            }
            assert forall|k: int| 0 <= k < orig.len() implies #[trigger] before[k].puuid == orig[k].puuid by {
                assert(premade_update(orig[k], before[k]));
            }
            assert forall|k: int| 0 <= k < orig.len() && mk.contains(norm_puuid(before[k].puuid@)) implies #[trigger] team.players@[k]
                == before[k] by {
                if assigned && player_in(before[k], g) {
                    let w = choose|w: int| 0 <= w < g.len() && g[w] == norm_puuid(before[k].puuid@);
                    assert(!mk.contains(g[w]));
                }
            }
            assert forall|x: Seq<char>| mk.contains(x) implies #[trigger] mk2.contains(x) by {
                if assigned {
                    let w = choose|w: int| 0 <= w < mk.len() && mk[w] == x;
                    assert(mk2[w] == x);
                }
            }
            assert forall|x: Seq<char>| #[trigger] mk2.contains(x) implies mk0.contains(x) || exists|j: int|
                0 <= j < i + 1 && cand_view(#[trigger] gs[j]).contains(x) by {
                if assigned {
                    let w = choose|w: int| 0 <= w < mk2.len() && mk2[w] == x;
                    if w < mk.len() {
                        assert(mk[w] == x);
                        assert(mk.contains(x));
                    } else {
                        assert(g[w - mk.len()] == x);
                        assert(cand_view(gs[i as int]).contains(x));
                    }
                } else {
                    assert(mk2 == mk);
                }
            }
            assert forall|k: int| 0 <= k < orig.len() implies premade_update(orig[k], #[trigger] team.players@[k]) by {
                if assigned && player_in(before[k], g) {
                    let m = team.players@[k].premade->0;
                    assert(m.member_puuids@ == group.puuids@);
                    assert(premade_update(before[k], team.players@[k]));
                }
                lemma_premade_update_trans(orig[k], before[k], team.players@[k]);
            }
            if assigned {
                cur = cur_before.insert(g);
                if start_ok {
                    assert forall|x: Seq<Seq<char>>, j: int| #[trigger] cur.contains(x) && 0 <= j < x.len() implies mk2.contains(
                        #[trigger] x[j],
                    ) by {
                        if x == g {
                            assert(mk2[mk.len() + j] == x[j]);
                        } else {
                            assert(mk.contains(x[j]));
                            let w = choose|w: int| 0 <= w < mk.len() && mk[w] == x[j];
                            assert(mk2[w] == x[j]);
                        }
                    }
                    assert forall|a: Seq<Seq<char>>, b: Seq<Seq<char>>|
                        #[trigger] cur.contains(a) && #[trigger] cur.contains(b) implies a == b || disjoint_views(
                        a,
                        b,
                    ) by {
                        if a == g && b != g {
                            assert forall|k: int| 0 <= k < a.len() implies !b.contains(#[trigger] a[k]) by {
                                if b.contains(a[k]) {
                                    let w = choose|w: int| 0 <= w < b.len() && b[w] == a[k];
                                    assert(mk.contains(b[w]));
                                }
                            }
                        } else if b == g && a != g {
                            assert forall|k: int| 0 <= k < a.len() implies !b.contains(#[trigger] a[k]) by {
                                assert(mk.contains(a[k]));
                            }
                        }
                    }
                    assert forall|k: int| 0 <= k < team.players@.len() && (#[trigger] team.players@[k]).premade is Some implies cur.contains(
                        member_view(team.players@[k].premade->0),
                    ) by {
                        if player_in(before[k], g) {
                            assert(team.players@[k].premade->0.member_puuids@ == group.puuids@);
                        } else {
                            assert(team.players@[k] == before[k]);
                        }
                    }
                }
            } else {
                assert forall|k: int| 0 <= k < team.players@.len() implies #[trigger] team.players@[k] == before[k] by {}
            }
            if ready {
                lemma_group_step(orig, before, team.players@, gs, i as int, mk0, mk, mk2, gi as nat, assigned);
            }
            lemma_assign_step(
                orig,
                before,
                team.players@,
                gs,
                i as int,
                mk0,
                base,
                mk,
                mk2,
                gi as nat,
                *group_index as nat,
                assigned,
            );
        }
        i = i + 1;
    }
    Ghost(cur)
}

/// One pass over the teams: team `t` is marked with the groups `gss[t]`,
/// from `before[t]` to `after[t]`, the marked PUUIDs going from `mks[t]` to
/// `mks[t + 1]` and the group counter from `ixs[t]` to `ixs[t + 1]`.
pub open spec fn pass_spec(
    before: Seq<LiveTeam>,
    gss: Seq<Seq<PremadeCandidate>>,
    mks: Seq<Seq<Seq<char>>>,
    ixs: Seq<nat>,
    after: Seq<LiveTeam>,
) -> bool {
    &&& after.len() == before.len()
    &&& gss.len() == before.len()
    &&& mks.len() == before.len() + 1
    &&& ixs.len() == before.len() + 1
    &&& forall|t: int|
        0 <= t < before.len() ==> (#[trigger] after[t]).name == before[t].name && team_pass_spec(
            before[t].players@,
            gss[t],
            mks[t],
            ixs[t],
            after[t].players@,
            mks[t + 1],
            ixs[t + 1],
        )
}

/// The two passes of the marking, through `mid`: the client's groups of
/// each team (`explicit_cands`), starting with nothing marked and the first
/// letter; then the groups that past games suggest for each team given what
/// is marked when its turn comes (`inferred_ok`), continuing the marked
/// PUUIDs and the letters.
pub open spec fn marking_passes(
    before: Seq<LiveTeam>,
    mid: Seq<LiveTeam>,
    g0: Seq<Seq<PremadeCandidate>>,
    m0: Seq<Seq<Seq<char>>>,
    i0: Seq<nat>,
    g1: Seq<Seq<PremadeCandidate>>,
    m1: Seq<Seq<Seq<char>>>,
    i1: Seq<nat>,
    after: Seq<LiveTeam>,
) -> bool {
    &&& pass_spec(before, g0, m0, i0, mid)
    &&& m0[0] == Seq::<Seq<char>>::empty()
    &&& i0[0] == 0
    &&& forall|t: int| 0 <= t < before.len() ==> explicit_cands(#[trigger] g0[t], before[t].players@)
    &&& pass_spec(mid, g1, m1, i1, after)
    &&& m1[0] == m0[before.len() as int]
    &&& i1[0] == i0[before.len() as int]
    &&& forall|t: int| 0 <= t < before.len() ==> inferred_ok(mid[t].players@, m1[t], #[trigger] g1[t])
}

/// The markers of `after` are those that the two passes give `before`.
pub open spec fn markers_assigned(before: Seq<LiveTeam>, after: Seq<LiveTeam>) -> bool {
    exists|
        mid: Seq<LiveTeam>,
        g0: Seq<Seq<PremadeCandidate>>,
        m0: Seq<Seq<Seq<char>>>,
        i0: Seq<nat>,
        g1: Seq<Seq<PremadeCandidate>>,
        m1: Seq<Seq<Seq<char>>>,
        i1: Seq<nat>,
    | #[trigger] marking_passes(before, mid, g0, m0, i0, g1, m1, i1, after)
}

/// Marks premade groups in the teams of a game: first the groups that the
/// client reports, team by team, then the groups that past games suggest,
/// team by team, each group as the next letter. A player is marked once:
/// groups holding a marked player are passed over, so that groups never
/// overlap. When no two players of client groups share a PUUID, every player
/// of a client group of at least two carries that group's marker.
pub fn assign_premade_markers(teams: &mut Vec<LiveTeam>)
    ensures
        teams_updated(old(teams)@, final(teams)@),
        no_markers(old(teams)@) ==> groups_partition(final(teams)@),
        client_puuids_distinct(old(teams)@) ==> client_groups_marked(old(teams)@, final(teams)@),
        markers_assigned(old(teams)@, final(teams)@),
{
    let ghost orig = teams@;
    let ghost mut mid0: Seq<LiveTeam> = orig;
    let ghost mut g0: Seq<Seq<PremadeCandidate>> = Seq::empty();
    let ghost mut m0: Seq<Seq<Seq<char>>> = Seq::empty();
    let ghost mut i0: Seq<nat> = Seq::empty();
    let ghost mut g1: Seq<Seq<PremadeCandidate>> = Seq::empty();
    let ghost mut m1: Seq<Seq<Seq<char>>> = Seq::empty();
    let ghost mut i1: Seq<nat> = Seq::empty();
    let ghost start = no_markers(orig);
    let ghost ok = client_puuids_distinct(orig);
    let ghost mut handed = Set::<Seq<Seq<char>>>::empty();
    let mut marked: Vec<String> = Vec::new();
    let mut group_index: usize = 0;
    let n = teams.len();
    let mut phase: usize = 0;
    proof {
        if start {
            assert forall|u: int| 0 <= u < n implies markers_in(#[trigger] teams@[u].players@, handed) by {
                assert forall|k: int| 0 <= k < teams@[u].players@.len() implies (#[trigger] teams@[u].players@[k]).premade is None by {
                    assert(orig[u].players@[k].premade is None);
                }
            }
        }
    }
    while phase < 2
        invariant
            n == orig.len(),
            teams@.len() == n,
            2 * group_index <= marked@.len(),
            teams_updated(orig, teams@),
            start == no_markers(orig),
            ok == client_puuids_distinct(orig),
            start ==> groups_ok(handed, string_views(marked@)),
            start ==> forall|u: int| 0 <= u < n ==> markers_in(#[trigger] teams@[u].players@, handed),
            phase == 0 ==> teams@ == orig && marked@.len() == 0 && group_index == 0,
            phase <= 2,
            phase >= 1 ==> pass_spec(orig, g0, m0, i0, mid0) && m0[0] == Seq::<Seq<char>>::empty() && i0[0] == 0
                && (forall|u: int| 0 <= u < n ==> explicit_cands(#[trigger] g0[u], orig[u].players@)),
            phase == 1 ==> m0[n as int] == string_views(marked@) && i0[n as int] == group_index as nat,
            phase == 1 ==> teams@ == mid0,
            phase == 2 ==> pass_spec(mid0, g1, m1, i1, teams@) && m1[0] == m0[n as int] && i1[0] == i0[n as int]
                && forall|u: int| 0 <= u < n ==> inferred_ok(mid0[u].players@, m1[u], #[trigger] g1[u]),
            ok && phase >= 1 ==> forall|u: int|
                0 <= u < n ==> client_done(orig[u].players@, #[trigger] teams@[u].players@, string_views(marked@)),
        decreases 2 - phase,
    {
        let mut src: Vec<LiveTeam> = Vec::new();
        std::mem::swap(&mut src, teams);
        let ghost mid = src@;
        let ghost h0 = handed;
        let ghost mut gss: Seq<Seq<PremadeCandidate>> = Seq::empty();
        let ghost mut mks: Seq<Seq<Seq<char>>> = seq![string_views(marked@)];
        let ghost mut ixs: Seq<nat> = seq![group_index as nat];
        let mut out: Vec<LiveTeam> = Vec::new();
        let mut t: usize = 0;
        while t < n
            invariant
                n == mid.len(),
                n == orig.len(),
                t <= n,
                phase < 2,
                src@ == mid.skip(t as int),
                teams_updated(orig, mid),
                out@.len() == t,
                2 * group_index <= marked@.len(),
                forall|u: int|
                    0 <= u < t ==> {
                        &&& (#[trigger] out@[u]).name == mid[u].name
                        &&& out@[u].players@.len() == mid[u].players@.len()
                        &&& forall|k: int|
                            0 <= k < mid[u].players@.len() ==> premade_update(
                                mid[u].players@[k],
                                #[trigger] out@[u].players@[k],
                            )
                    },
                h0.subset_of(handed),
                start ==> groups_ok(handed, string_views(marked@)),
                start ==> forall|u: int| 0 <= u < t ==> markers_in(#[trigger] out@[u].players@, handed),
                start ==> forall|u: int| t <= u < n ==> markers_in(#[trigger] mid[u].players@, h0),
                ok == client_puuids_distinct(orig),
                phase == 0 ==> mid == orig,
                ok && phase == 0 ==> forall|x: Seq<char>|
                    #[trigger] string_views(marked@).contains(x) ==> client_puuid_in(orig, t as int, x),
                ok ==> forall|u: int|
                    0 <= u < t ==> client_done(orig[u].players@, #[trigger] out@[u].players@, string_views(marked@)),
                ok && phase == 1 ==> forall|u: int|
                    t <= u < n ==> client_done(orig[u].players@, #[trigger] mid[u].players@, string_views(marked@)),
                phase == 1 ==> mid == mid0,
                gss.len() == t,
                mks.len() == t + 1,
                ixs.len() == t + 1,
                mks[t as int] == string_views(marked@),
                ixs[t as int] == group_index as nat,
                phase == 0 ==> mks[0] == Seq::<Seq<char>>::empty() && ixs[0] == 0,
                phase == 1 ==> mks[0] == m0[n as int] && ixs[0] == i0[n as int],
                forall|u: int|
                    0 <= u < t ==> (#[trigger] out@[u]).name == mid[u].name && team_pass_spec(
                        mid[u].players@,
                        gss[u],
                        mks[u],
                        ixs[u],
                        out@[u].players@,
                        mks[u + 1],
                        ixs[u + 1],
                    ),
                phase == 0 ==> forall|u: int| 0 <= u < t ==> explicit_cands(#[trigger] gss[u], mid[u].players@),
                phase == 1 ==> forall|u: int| 0 <= u < t ==> inferred_ok(mid[u].players@, mks[u], #[trigger] gss[u]),
                phase >= 1 ==> pass_spec(orig, g0, m0, i0, mid0) && m0[0] == Seq::<Seq<char>>::empty() && i0[0] == 0
                    && (forall|u: int| 0 <= u < n ==> explicit_cands(#[trigger] g0[u], orig[u].players@)),
            decreases n - t,
        {
            assert(src@[0] == mid[t as int]);
            let mut team = src.remove(0);
            assert(src@ =~= mid.skip(t + 1));
            let groups = if phase == 0 {
                explicit_premade_groups(&team)
            } else {
                inferred_premade_groups(&team, &marked)
            };
            let ghost h1 = handed;
            let ghost gs = groups@;
            let ghost ix_before = group_index as nat;
            let ghost before = team.players@;
            let ghost mk_before = string_views(marked@);
            proof {
                if start {
                    lemma_markers_in_grow(team.players@, h0, h1);
                }
                if ok && phase == 0 {
                    lemma_client_ready(orig, t as int, gs, mk_before);
                }
            }
            let Ghost(h2) = assign_groups(&mut team, groups, &mut marked, &mut group_index, Ghost(h1));
            proof {
                handed = h2;
                if start {
                    assert forall|u: int| 0 <= u < t implies markers_in(#[trigger] out@[u].players@, handed) by {
                        lemma_markers_in_grow(out@[u].players@, h1, handed);
                    }
                }
                if ok {
                    let mk2 = string_views(marked@);
                    assert forall|u: int| 0 <= u < t implies client_done(
                        orig[u].players@,
                        #[trigger] out@[u].players@,
                        mk2,
                    ) by {
                        assert(client_done(orig[u].players@, out@[u].players@, mk_before));
                    }
                    if phase == 0 {
                        lemma_team_distinct(orig, t as int);
                        lemma_client_assigned(orig[t as int].players@, gs, team.players@, mk2);
                        assert forall|x: Seq<char>| #[trigger] mk2.contains(x) implies client_puuid_in(orig, t + 1, x) by {
                            if mk_before.contains(x) {
                                assert(client_puuid_in(orig, t as int, x));
                                let (u, k) = choose|u: int, k: int|
                                    0 <= u < t && 0 <= k < orig[u].players@.len() && in_client_group(
                                        #[trigger] orig[u].players@[k],
                                    ) && norm_puuid(orig[u].players@[k].puuid@) == x;
                                assert(in_client_group(orig[u].players@[k]));
                            } else {
                                let j = choose|j: int| 0 <= j < gs.len() && cand_view(#[trigger] gs[j]).contains(x);
                            }
                        }
                    } else {
                        let pt = orig[t as int].players@;
                        assert(client_done(pt, before, mk_before));
                        assert forall|k: int| 0 <= k < pt.len() && #[trigger] in_reported_group(pt, k) implies crate::client_groups::client_marker(
                            team.players@[k],
                            pt,
                            k,
                        ) && mk2.contains(norm_puuid(pt[k].puuid@)) by {
                            assert(premade_update(pt[k], mid[t as int].players@[k]));
                            assert(before[k].puuid == pt[k].puuid);
                            assert(mk_before.contains(norm_puuid(before[k].puuid@)));
                            assert(team.players@[k] == before[k]);
                        }
                        assert forall|u: int| t < u < n implies client_done(
                            orig[u].players@,
                            #[trigger] mid[u].players@,
                            mk2,
                        ) by {
                            assert(client_done(orig[u].players@, mid[u].players@, mk_before));
                        }
                    }
                }
            }
            let ghost out_before = out@;
            proof {
                gss = gss.push(gs);
                mks = mks.push(string_views(marked@));
                ixs = ixs.push(group_index as nat);
            }
            out.push(team);
            proof {
                if start {
                    assert forall|u: int| 0 <= u < t + 1 implies markers_in(#[trigger] out@[u].players@, handed) by {
                        if u < t {
                            assert(out@[u] == out_before[u]);
                        }
                    }
                }
                if ok {
                    assert forall|u: int| 0 <= u < t + 1 implies client_done(
                        orig[u].players@,
                        #[trigger] out@[u].players@,
                        string_views(marked@),
                    ) by {
                        if u < t {
                            assert(out@[u] == out_before[u]);
                        }
                    }
                }
            }
            proof {
                assert forall|u: int| 0 <= u < t + 1 implies (#[trigger] out@[u]).name == mid[u].name && team_pass_spec(
                    mid[u].players@,
                    gss[u],
                    mks[u],
                    ixs[u],
                    out@[u].players@,
                    mks[u + 1],
                    ixs[u + 1],
                ) by {
                    if u < t {
                        assert(out@[u] == out_before[u]);
                    }
                }
            }
            t = t + 1;
        }
        *teams = out;
        proof {
            if phase == 0 {
                mid0 = teams@;
                g0 = gss;
                m0 = mks;
                i0 = ixs;
            } else {
                g1 = gss;
                m1 = mks;
                i1 = ixs;
            }
        }
        proof {
            assert forall|u: int| 0 <= u < orig.len() implies {
                &&& (#[trigger] teams@[u]).name == orig[u].name
                &&& teams@[u].players@.len() == orig[u].players@.len()
                &&& forall|k: int|
                    0 <= k < orig[u].players@.len() ==> premade_update(
                        orig[u].players@[k],
                        #[trigger] teams@[u].players@[k],
                    )
            } by {
                assert forall|k: int| 0 <= k < orig[u].players@.len() implies premade_update(
                    orig[u].players@[k],
                    #[trigger] teams@[u].players@[k],
                ) by {
                    assert(premade_update(orig[u].players@[k], mid[u].players@[k]));
                    lemma_premade_update_trans(orig[u].players@[k], mid[u].players@[k], teams@[u].players@[k]);
                }
            }
        }
        phase = phase + 1;
    }
    proof {
        if start {
            let ts = teams@;
            assert forall|t1: int, k1: int, t2: int, k2: int|
                0 <= t1 < ts.len() && 0 <= k1 < ts[t1].players@.len() && 0 <= t2 < ts.len() && 0 <= k2
                    < ts[t2].players@.len() && (#[trigger] ts[t1].players@[k1]).premade is Some && (
                #[trigger] ts[t2].players@[k2]).premade is Some implies member_view(ts[t1].players@[k1].premade->0)
                    == member_view(ts[t2].players@[k2].premade->0) || disjoint_views(
                    member_view(ts[t1].players@[k1].premade->0),
                    member_view(ts[t2].players@[k2].premade->0),
                ) by {
                assert(markers_in(ts[t1].players@, handed));
                assert(markers_in(ts[t2].players@, handed));
                assert(handed.contains(member_view(ts[t1].players@[k1].premade->0)));
                assert(handed.contains(member_view(ts[t2].players@[k2].premade->0)));
            }
        }
        assert(marking_passes(orig, mid0, g0, m0, i0, g1, m1, i1, teams@));
        if ok {
            assert forall|t: int, k: int|
                0 <= t < orig.len() && 0 <= k < orig[t].players@.len() && #[trigger] in_reported_group(
                    orig[t].players@,
                    k,
                ) implies crate::client_groups::client_marker(teams@[t].players@[k], orig[t].players@, k) by {
                assert(client_done(orig[t].players@, teams@[t].players@, string_views(marked@)));
            }
        }
    }
}

} // verus!
