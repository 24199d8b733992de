//! Finding a player from what the user typed: a PUUID, a Riot ID or a name.
use vstd::prelude::*;

use crate::error::AppError;
use crate::live::{is_real_puuid, norm_puuid, normalize_puuid, real_puuid_spec};
use crate::models::{ClientAuth, RiotAlias, SummonerInfo, SummonerSearchCandidate};
use crate::sgp::{
    base_url_spec, normalize_server_id_spec, resolve_server_id_spec, resolve_sgp_server_id, normalize_sgp_server_id,
};
use crate::text::{
    eq_ignore_case, eq_ignore_case_seq, owned, push_char, str_eq, string_views, to_unicode_lowercase, trim,
    trim_seq, unicode_lowercase,
};

verus! {

/// A typed character as it is searched: full-width and small number signs
/// become `#`; a byte order mark or a zero-width space is dropped.
pub open spec fn query_char(c: char) -> Seq<char> {
    if c == '＃' || c == '﹟' {
        seq!['#']
    } else if c == '\u{FEFF}' || c == '\u{200B}' {
        Seq::empty()
    } else {
        seq![c]
    }
}

/// Each character of `s` mapped by `query_char`.
pub open spec fn map_query_chars(s: Seq<char>) -> Seq<char>
    decreases s.len(),
{
    if s.len() == 0 {
        Seq::empty()
    } else {
        map_query_chars(s.drop_last()) + query_char(s.last())
    }
}

/// A search text: trimmed, then with its number signs unified and its
/// invisible characters dropped.
pub open spec fn query_text_spec(value: Seq<char>) -> Seq<char> {
    map_query_chars(trim_seq(value))
}

pub fn normalize_query_text(value: &str) -> (r: String)
    ensures
        r@ == query_text_spec(value@),
{
    let t = trim(value);
    let s = t.as_str();
    let n = s.unicode_len();
    let mut out = String::new();
    let mut i: usize = 0;
    while i < n
        invariant
            n == s@.len(),
            i <= n,
            out@ == map_query_chars(s@.take(i as int)),
        decreases n - i,
    {
        assert(s@.take(i + 1).drop_last() =~= s@.take(i as int));
        let c = s.get_char(i);
        assert(s@.take(i + 1).last() == c);
        let ghost prev = out@;
        if c == '＃' || c == '﹟' {
            push_char(&mut out, '#');
        } else if c == '\u{FEFF}' || c == '\u{200B}' {
        } else {
            push_char(&mut out, c);
        }
        assert(out@ =~= prev + query_char(c));
        i = i + 1;
    }
    assert(s@.take(n as int) =~= s@);
    out
}

/// A name as it is compared: trimmed, in Unicode lower case.
pub open spec fn search_name_spec(value: Seq<char>) -> Seq<char> {
    unicode_lowercase(trim_seq(value))
}

pub fn normalize_search_name(value: &str) -> (r: String)
    ensures
        r@ == search_name_spec(value@),
{
    let t = trim(value);
    to_unicode_lowercase(t.as_str())
}

/// The number of bytes of a character in UTF-8.
pub open spec fn utf8_width(c: char) -> nat {
    if (c as u32) < 0x80 {
        1
    } else if (c as u32) < 0x800 {
        2
    } else if (c as u32) < 0x10000 {
        3
    } else {
        4
    }
}

/// The number of bytes of a string in UTF-8 (`str::len`).
pub open spec fn utf8_len(s: Seq<char>) -> nat
    decreases s.len(),
{
    if s.len() == 0 {
        0
    } else {
        utf8_len(s.drop_last()) + utf8_width(s.last())
    }
}

/// The number of `-` in `s`.
pub open spec fn dash_count(s: Seq<char>) -> nat
    decreases s.len(),
{
    if s.len() == 0 {
        0
    } else {
        dash_count(s.drop_last()) + if s.last() == '-' {
            1nat
        } else {
            0nat
        }
    }
}

/// Text that looks like a PUUID: five parts between dashes, at least 32 bytes long.
pub open spec fn probably_puuid_spec(input: Seq<char>) -> bool {
    dash_count(input) == 4 && utf8_len(input) >= 32
}

pub fn is_probably_puuid(input: &str) -> (r: bool)
    ensures
        r == probably_puuid_spec(input@),
{
    let n = input.unicode_len();
    let mut dashes: usize = 0;
    let mut bytes: usize = 0;
    let mut i: usize = 0;
    while i < n
        invariant
            n == input@.len(),
            i <= n,
            dashes == dash_count(input@.take(i as int)),
            dashes <= i,
            bytes == if utf8_len(input@.take(i as int)) < 32 {
                utf8_len(input@.take(i as int))
            } else {
                32
            },
        decreases n - i,
    {
        assert(input@.take(i + 1).drop_last() =~= input@.take(i as int));
        let c = input.get_char(i);
        assert(input@.take(i + 1).last() == c);
        if c == '-' {
            dashes = dashes + 1;
        }
        let w: usize = if (c as u32) < 0x80 {
            1
        } else if (c as u32) < 0x800 {
            2
        } else if (c as u32) < 0x10000 {
            3
        } else {
            4
        };
        bytes = if bytes + w < 32 {
            bytes + w
        } else {
            32
        };
        i = i + 1;
    }
    assert(input@.take(n as int) =~= input@);
    dashes == 4 && bytes >= 32
}

/// A summoner known only by a Riot ID alias.
pub fn alias_to_summoner(alias: &RiotAlias) -> (r: SummonerInfo)
    ensures
        r.puuid == alias.puuid,
        r.game_name == alias.alias.game_name,
        r.tag_line == alias.alias.tag_line,
        r.display_name@.len() == 0,
        r.internal_name@.len() == 0,
        r.profile_icon_id == 0,
        r.summoner_id == 0,
        r.summoner_level == 0,
        r.privacy@.len() == 0,
{
    SummonerInfo {
        display_name: String::new(),
        game_name: alias.alias.game_name.clone(),
        tag_line: alias.alias.tag_line.clone(),
        internal_name: String::new(),
        profile_icon_id: 0,
        puuid: alias.puuid.clone(),
        summoner_id: 0,
        summoner_level: 0,
        privacy: String::new(),
    }
}

/// A summoner known only by a PUUID typed as the query.
pub fn puuid_only_summoner(query: &str) -> (r: SummonerInfo)
    ensures
        r.display_name@ == query@,
        r.puuid@ == query@,
        r.game_name@.len() == 0,
        r.tag_line@.len() == 0,
        r.internal_name@.len() == 0,
        r.profile_icon_id == 0,
        r.summoner_id == 0,
        r.summoner_level == 0,
        r.privacy@.len() == 0,
{
    SummonerInfo {
        display_name: owned(query),
        game_name: String::new(),
        tag_line: String::new(),
        internal_name: String::new(),
        profile_icon_id: 0,
        puuid: owned(query),
        summoner_id: 0,
        summoner_level: 0,
        privacy: String::new(),
    }
}

/// The index of the first `#` in `s`, if any.
pub open spec fn first_hash(s: Seq<char>) -> Option<int>
    decreases s.len(),
{
    if s.len() == 0 {
        None
    } else if s[0] == '#' {
        Some(0)
    } else {
        match first_hash(s.skip(1)) {
            Some(i) => Some(i + 1),
            None => None,
        }
    }
}

proof fn lemma_first_hash(s: Seq<char>)
    ensures
        first_hash(s) matches Some(i) ==> 0 <= i < s.len() && s[i] == '#' && forall|j: int| 0 <= j < i ==> s[j] != '#',
        first_hash(s) is None ==> forall|j: int| 0 <= j < s.len() ==> s[j] != '#',
    decreases s.len(),
{
    if s.len() > 0 && s[0] != '#' {
        let t = s.skip(1);
        lemma_first_hash(t);
        assert forall|j: int| 1 <= j < s.len() implies s[j] == #[trigger] t[j - 1] by {}
        match first_hash(t) {
            Some(i) => {
                assert(first_hash(s) == Some(i + 1));
                assert(s[i + 1] == t[i]);
                assert forall|j: int| 0 <= j < i + 1 implies s[j] != '#' by {
                    if j > 0 {
                        assert(s[j] == t[j - 1]);
                    }
                }
            },
            None => {
                assert forall|j: int| 0 <= j < s.len() implies s[j] != '#' by {
                    if j > 0 {
                        assert(s[j] == t[j - 1]);
                    }
                }
            },
        }
    }
}

/// A query split at its first `#` into a trimmed name and tag, or kept
/// whole as a name.
pub open spec fn riot_id_parts(query: Seq<char>) -> (Seq<char>, Option<Seq<char>>) {
    match first_hash(query) {
        Some(i) => (trim_seq(query.take(i)), Some(trim_seq(query.skip(i + 1)))),
        None => (query, None),
    }
}

pub fn split_riot_id(query: &str) -> (r: (String, Option<String>))
    ensures
        r.0@ == riot_id_parts(query@).0,
        match r.1 {
            Some(t) => riot_id_parts(query@).1 == Some(t@),
            None => riot_id_parts(query@).1 is None,
        },
{
    proof {
        lemma_first_hash(query@);
    }
    let n = query.unicode_len();
    let mut i: usize = 0;
    while i < n && query.get_char(i) != '#'
        invariant
            n == query@.len(),
            i <= n,
            forall|j: int| 0 <= j < i ==> query@[j] != '#',
        decreases n - i,
    {
        i = i + 1;
    }
    if i < n {
        let name = query.substring_char(0, i);
        let tag = query.substring_char(i + 1, n);
        assert(name@ =~= query@.take(i as int));
        assert(tag@ =~= query@.skip(i + 1));
        (trim(name), Some(trim(tag)))
    } else {
        (owned(query), None)
    }
}

/// An alias is a match: its name equals the searched one (compared as
/// search names), so does its tag when one is searched, and its PUUID is real.
pub open spec fn alias_matches(a: RiotAlias, name: Seq<char>, tag: Option<Seq<char>>) -> bool {
    &&& search_name_spec(a.alias.game_name@) == name
    &&& match tag {
        Some(t) => search_name_spec(a.alias.tag_line@) == t,
        None => true,
    }
    &&& real_puuid_spec(a.puuid@)
}

/// The matching aliases, each PUUID (normalized) once, the first kept.
pub open spec fn kept_aliases(
    aliases: Seq<RiotAlias>,
    name: Seq<char>,
    tag: Option<Seq<char>>,
) -> Seq<RiotAlias>
    decreases aliases.len(),
{
    if aliases.len() == 0 {
        Seq::empty()
    } else {
        let rest = kept_aliases(aliases.drop_last(), name, tag);
        let a = aliases.last();
        if alias_matches(a, name, tag) && !(exists|k: int|
            0 <= k < rest.len() && norm_puuid(#[trigger] rest[k].puuid@) == norm_puuid(a.puuid@)) {
            rest.push(a)
        } else {
            rest
        }
    }
}

/// Every kept alias matches the search, and no two kept aliases name the
/// same player (PUUIDs compared in lower case).
pub proof fn lemma_kept_aliases_match_once(aliases: Seq<RiotAlias>, name: Seq<char>, tag: Option<Seq<char>>)
    ensures
        forall|k: int| 0 <= k < kept_aliases(aliases, name, tag).len() ==> alias_matches(
            #[trigger] kept_aliases(aliases, name, tag)[k],
            name,
            tag,
        ),
        forall|i: int, j: int|
            0 <= i < j < kept_aliases(aliases, name, tag).len() ==> norm_puuid(
                (#[trigger] kept_aliases(aliases, name, tag)[i]).puuid@,
            ) != norm_puuid((#[trigger] kept_aliases(aliases, name, tag)[j]).puuid@),
    decreases aliases.len(),
{
    if aliases.len() > 0 {
        lemma_kept_aliases_match_once(aliases.drop_last(), name, tag);
        let rest = kept_aliases(aliases.drop_last(), name, tag);
        let a = aliases.last();
        if alias_matches(a, name, tag) && !(exists|k: int|
            0 <= k < rest.len() && norm_puuid(#[trigger] rest[k].puuid@) == norm_puuid(a.puuid@)) {
            let out = rest.push(a);
            assert(kept_aliases(aliases, name, tag) == out);
            assert forall|i: int, j: int| 0 <= i < j < out.len() implies norm_puuid((#[trigger] out[i]).puuid@)
                != norm_puuid((#[trigger] out[j]).puuid@) by {
                if j == out.len() - 1 {
                    assert(out[i] == rest[i]);
                } else {
                    assert(out[i] == rest[i]);
                    assert(out[j] == rest[j]);
                }
            }
            assert forall|k: int| 0 <= k < out.len() implies alias_matches(#[trigger] out[k], name, tag) by {
                if k < rest.len() {
                    assert(out[k] == rest[k]);
                }
            }
        }
    }
}

/// Keeps the aliases that match the searched name and tag, each player once.
pub fn filter_aliases(aliases: Vec<RiotAlias>, target_name: &str, target_tag: Option<&str>) -> (r: Vec<
    RiotAlias,
>)
    ensures
        r@ == kept_aliases(
            aliases@,
            target_name@,
            match target_tag {
                Some(t) => Some(t@),
                None => None,
            },
        ),
{
    let ghost tag = match target_tag {
        Some(t) => Some(t@),
        None => None::<Seq<char>>,
    };
    let ghost orig = aliases@;
    let mut rest = aliases;
    let n = rest.len();
    let mut out: Vec<RiotAlias> = Vec::new();
    let mut seen: Vec<String> = Vec::new();
    let mut i: usize = 0;
    while i < n
        invariant
            n == orig.len(),
            i <= n,
            rest@ == orig.skip(i as int),
            tag == match target_tag {
                Some(t) => Some(t@),
                None => None::<Seq<char>>,
            },
            out@ == kept_aliases(orig.take(i as int), target_name@, tag),
            string_views(seen@).len() == out@.len(),
            forall|k: int| 0 <= k < out@.len() ==> #[trigger] string_views(seen@)[k] == norm_puuid(out@[k].puuid@),
        decreases n - i,
    {
        assert(rest@[0] == orig[i as int]);
        let a = rest.remove(0);
        assert(rest@ =~= orig.skip(i + 1));
        assert(orig.take(i + 1).drop_last() =~= orig.take(i as int));
        assert(orig.take(i + 1).last() == a);
        let name = normalize_search_name(a.alias.game_name.as_str());
        let name_ok = str_eq(name.as_str(), target_name);
        let tag_ok = match target_tag {
            Some(t) => {
                let tl = normalize_search_name(a.alias.tag_line.as_str());
                str_eq(tl.as_str(), t)
            },
            None => true,
        };
        if name_ok && tag_ok && is_real_puuid(a.puuid.as_str()) {
            let key = normalize_puuid(a.puuid.as_str());
            let mut dup = false;
            let mut k: usize = 0;
            while k < seen.len()
                invariant
                    k <= seen@.len(),
                    string_views(seen@).len() == out@.len(),
                    forall|j: int| 0 <= j < out@.len() ==> #[trigger] string_views(seen@)[j] == norm_puuid(out@[j].puuid@),
                    dup == exists|j: int| 0 <= j < k && norm_puuid(#[trigger] out@[j].puuid@) == key@,
                decreases seen@.len() - k,
            {
                assert(string_views(seen@)[k as int] == seen@[k as int]@);
                if str_eq(seen[k].as_str(), key.as_str()) {
                    dup = true;
                }
                k = k + 1;
            }
            if !dup {
                let ghost prev_seen = string_views(seen@);
                seen.push(key);
                out.push(a);
                assert(string_views(seen@) =~= prev_seen.push(norm_puuid(out@[out@.len() - 1].puuid@)));
            }
        }
        i = i + 1;
    }
    assert(orig.take(n as int) =~= orig);
    out
}

/// The servers searched when all are asked for.
pub open spec fn all_search_servers() -> Seq<Seq<char>> {
    seq![
        "TENCENT_HN1"@,
        "TENCENT_HN10"@,
        "TENCENT_NJ100"@,
        "TENCENT_GZ100"@,
        "TENCENT_CQ100"@,
        "TENCENT_TJ100"@,
        "TENCENT_TJ101"@,
        "TENCENT_BGP2"@,
    ]
}

/// The eight Tencent servers a search over all servers visits.
pub open spec fn tencent_search_set() -> Set<Seq<char>> {
    set![
        "TENCENT_HN1"@,
        "TENCENT_HN10"@,
        "TENCENT_NJ100"@,
        "TENCENT_GZ100"@,
        "TENCENT_CQ100"@,
        "TENCENT_TJ100"@,
        "TENCENT_TJ101"@,
        "TENCENT_BGP2"@,
    ]
}

/// A search over all servers visits each of the eight Tencent servers
/// exactly once, and each of them has a gateway address.
pub proof fn lemma_all_servers_searched()
    ensures
        all_search_servers().len() == 8,
        all_search_servers().no_duplicates(),
        all_search_servers().to_set() == tencent_search_set(),
        forall|i: int| 0 <= i < all_search_servers().len() ==> (#[trigger] base_url_spec(all_search_servers()[i])) is Some,
{
    reveal_strlit("TENCENT_HN1");
    reveal_strlit("TENCENT_HN10");
    reveal_strlit("TENCENT_NJ100");
    reveal_strlit("TENCENT_GZ100");
    reveal_strlit("TENCENT_CQ100");
    reveal_strlit("TENCENT_TJ100");
    reveal_strlit("TENCENT_TJ101");
    reveal_strlit("TENCENT_BGP2");
    reveal_strlit("TENCENT_");
    reveal_strlit("HN1");
    reveal_strlit("HN10");
    reveal_strlit("NJ100");
    reveal_strlit("GZ100");
    reveal_strlit("CQ100");
    reveal_strlit("TJ100");
    reveal_strlit("TJ101");
    reveal_strlit("BGP2");
    let a = all_search_servers();
    assert forall|i: int, j: int| 0 <= i < a.len() && 0 <= j < a.len() && i != j implies a[i] != a[j] by {
        if a[i].len() == a[j].len() {
            if a[i].len() == 13 {
                assert(a[i][8] != a[j][8] || a[i][9] != a[j][9] || a[i][12] != a[j][12]);
            } else {
                assert(a[i][8] != a[j][8]);
            }
        }
    }
    assert(a.to_set() =~= tencent_search_set()) by {
        assert forall|x: Seq<char>| tencent_search_set().contains(x) implies a.to_set().contains(x) by {
            if x == a[0] {} else if x == a[1] {} else if x == a[2] {} else if x == a[3] {}
            else if x == a[4] {} else if x == a[5] {} else if x == a[6] {} else { assert(x == a[7]); }
        }
    }
    assert forall|i: int| 0 <= i < a.len() implies (#[trigger] base_url_spec(a[i])) is Some by {
        assert(crate::text::starts_with_seq(a[i], "TENCENT_"@)) by {
            assert(a[i].subrange(0, 8) =~= "TENCENT_"@);
        }
        let p = a[i].subrange(8, a[i].len() as int);
        if i == 0 { assert(p =~= "HN1"@); }
        else if i == 1 { assert(p =~= "HN10"@); }
        else if i == 2 { assert(p =~= "NJ100"@); }
        else if i == 3 { assert(p =~= "GZ100"@); }
        else if i == 4 { assert(p =~= "CQ100"@); }
        else if i == 5 { assert(p =~= "TJ100"@); }
        else if i == 6 { assert(p =~= "TJ101"@); }
        else { assert(p =~= "BGP2"@); }
    }
}

/// Whether a requested server asks for all servers (`ALL` in any case).
pub fn searches_all_servers(sgp_server_id: Option<&str>) -> (r: bool)
    ensures
        r == (sgp_server_id is Some && eq_ignore_case_seq(
            normalize_server_id_spec(sgp_server_id->0@),
            "ALL"@,
        )),
{
    match sgp_server_id {
        Some(id) => {
            let n = normalize_sgp_server_id(id);
            eq_ignore_case(n.as_str(), "ALL")
        },
        None => false,
    }
}

/// The servers a search goes to: every Tencent server for `ALL`, else the
/// one the request names or the client's own.
pub fn target_server_ids(auth: &ClientAuth, sgp_server_id: Option<&str>) -> (r: Vec<String>)
    ensures
        string_views(r@) == if sgp_server_id is Some && eq_ignore_case_seq(
            normalize_server_id_spec(sgp_server_id->0@),
            "ALL"@,
        ) {
            all_search_servers()
        } else {
            seq![
                resolve_server_id_spec(
                    auth.region@,
                    auth.rso_platform_id@,
                    match sgp_server_id {
                        Some(v) => Some(normalize_server_id_spec(v@)),
                        None => None,
                    },
                ),
            ]
        },
        sgp_server_id is Some && eq_ignore_case_seq(normalize_server_id_spec(sgp_server_id->0@), "ALL"@) ==> {
            &&& r@.len() == 8
            &&& string_views(r@).no_duplicates()
            &&& string_views(r@).to_set() == tencent_search_set()
        },
{
    proof {
        lemma_all_servers_searched();
    }
    if searches_all_servers(sgp_server_id) {
        let v = vec![
            owned("TENCENT_HN1"),
            owned("TENCENT_HN10"),
            owned("TENCENT_NJ100"),
            owned("TENCENT_GZ100"),
            owned("TENCENT_CQ100"),
            owned("TENCENT_TJ100"),
            owned("TENCENT_TJ101"),
            owned("TENCENT_BGP2"),
        ];
        assert(string_views(v@) =~= all_search_servers());
        v
    } else {
        let raw = match sgp_server_id {
            Some(id) => Some(normalize_sgp_server_id(id)),
            None => None,
        };
        let resolved = match &raw {
            Some(r) => resolve_sgp_server_id(auth, Some(r.as_str())),
            None => resolve_sgp_server_id(auth, None),
        };
        let v = vec![resolved];
        assert(string_views(v@) =~= seq![v@[0]@]);
        v
    }
}

/// The summoner of `ss` with normalized PUUID `key`: the last one listed, as
/// collecting them into a map leaves it.
pub open spec fn summoner_by_key(ss: Seq<SummonerInfo>, key: Seq<char>) -> Option<SummonerInfo>
    decreases ss.len(),
{
    if ss.len() == 0 {
        None
    } else if norm_puuid(ss.last().puuid@) == key {
        Some(ss.last())
    } else {
        summoner_by_key(ss.drop_last(), key)
    }
}

/// The candidates a server gives: one per alias whose player the server
/// knows, in alias order.
pub open spec fn server_candidates(
    aliases: Seq<RiotAlias>,
    ss: Seq<SummonerInfo>,
    server: Seq<char>,
) -> Seq<(RiotAlias, SummonerInfo)>
    decreases aliases.len(),
{
    if aliases.len() == 0 {
        Seq::empty()
    } else {
        let rest = server_candidates(aliases.drop_last(), ss, server);
        match summoner_by_key(ss, norm_puuid(aliases.last().puuid@)) {
            Some(s) => rest.push((aliases.last(), s)),
            None => rest,
        }
    }
}

/// `c` is the candidate of alias `a` found as summoner `s` on `server`.
pub open spec fn candidate_spec(c: SummonerSearchCandidate, a: RiotAlias, s: SummonerInfo, server: Seq<char>) -> bool {
    &&& c.puuid@ == a.puuid@
    &&& c.game_name@ == a.alias.game_name@
    &&& c.tag_line@ == a.alias.tag_line@
    &&& c.sgp_server_id@ == server
    &&& c.profile_icon_id == s.profile_icon_id
    &&& c.summoner_level == s.summoner_level
    &&& c.privacy@ == s.privacy@
}

fn find_summoner(ss: &Vec<SummonerInfo>, key: &str) -> (r: Option<usize>)
    ensures
        match r {
            Some(i) => i < ss@.len() && summoner_by_key(ss@, key@) == Some(ss@[i as int]),
            None => summoner_by_key(ss@, key@) is None,
        },
{
    let mut i = ss.len();
    assert(ss@.take(i as int) =~= ss@);
    while i > 0
        invariant
            i <= ss@.len(),
            summoner_by_key(ss@, key@) == summoner_by_key(ss@.take(i as int), key@),
        decreases i,
    {
        assert(ss@.take(i as int).drop_last() =~= ss@.take(i - 1));
        assert(ss@.take(i as int).last() == ss@[i - 1]);
        let k = normalize_puuid(ss[i - 1].puuid.as_str());
        if str_eq(k.as_str(), key) {
            return Some(i - 1);
        }
        i = i - 1;
    }
    None
}

/// The candidates that one server gives for the aliases.
pub fn candidates_for_server(aliases: &Vec<RiotAlias>, summoners: &Vec<SummonerInfo>, server_id: &str) -> (r: Vec<
    SummonerSearchCandidate,
>)
    ensures
        r@.len() == server_candidates(aliases@, summoners@, server_id@).len(),
        forall|k: int|
            0 <= k < r@.len() ==> candidate_spec(
                #[trigger] r@[k],
                server_candidates(aliases@, summoners@, server_id@)[k].0,
                server_candidates(aliases@, summoners@, server_id@)[k].1,
                server_id@,
            ),
{
    let mut out: Vec<SummonerSearchCandidate> = Vec::new();
    let mut i: usize = 0;
    while i < aliases.len()
        invariant
            i <= aliases@.len(),
            out@.len() == server_candidates(aliases@.take(i as int), summoners@, server_id@).len(),
            forall|k: int|
                0 <= k < out@.len() ==> candidate_spec(
                    #[trigger] out@[k],
                    server_candidates(aliases@.take(i as int), summoners@, server_id@)[k].0,
                    server_candidates(aliases@.take(i as int), summoners@, server_id@)[k].1,
                    server_id@,
                ),
        decreases aliases@.len() - i,
    {
        assert(aliases@.take(i + 1).drop_last() =~= aliases@.take(i as int));
        assert(aliases@.take(i + 1).last() == aliases@[i as int]);
        let a = &aliases[i];
        let key = normalize_puuid(a.puuid.as_str());
        let ghost prev = out@;
        match find_summoner(summoners, key.as_str()) {
            Some(j) => {
                let s = &summoners[j];
                let c = SummonerSearchCandidate {
                    puuid: a.puuid.clone(),
                    game_name: a.alias.game_name.clone(),
                    tag_line: a.alias.tag_line.clone(),
                    sgp_server_id: owned(server_id),
                    profile_icon_id: s.profile_icon_id,
                    summoner_level: s.summoner_level,
                    privacy: s.privacy.clone(),
                };
                out.push(c);
                assert forall|k: int| 0 <= k < out@.len() implies candidate_spec(
                    #[trigger] out@[k],
                    server_candidates(aliases@.take(i + 1), summoners@, server_id@)[k].0,
                    server_candidates(aliases@.take(i + 1), summoners@, server_id@)[k].1,
                    server_id@,
                ) by {
                    if k < prev.len() {
                        assert(out@[k] == prev[k]);
                    }
                }
            },
            None => {},
        }
        i = i + 1;
    }
    assert(aliases@.take(aliases@.len() as int) =~= aliases@);
    out
}

/// How a search query is looked up.
#[derive(Debug)]
pub enum ResolvePlan {
    /// Nothing to search for.
    Empty,
    /// A PUUID: look the summoner up by it.
    ByPuuid(String),
    /// A Riot ID: look its alias up, then the summoner by name if none.
    RiotId { name: String, tag: String },
    /// A name: look its alias up, then the summoner by name if none.
    Name(String),
}

/// The lookup of a query: empty after normalization, a PUUID, a Riot ID
/// (split at its first `#`), or a name.
pub fn resolve_plan(query: &str) -> (r: ResolvePlan)
    ensures
        ({
            let q = query_text_spec(query@);
            match r {
                ResolvePlan::Empty => q.len() == 0,
                ResolvePlan::ByPuuid(p) => q.len() > 0 && probably_puuid_spec(q) && p@ == q,
                ResolvePlan::RiotId { name, tag } => q.len() > 0 && !probably_puuid_spec(q)
                    && riot_id_parts(q).1 is Some && name@ == riot_id_parts(q).0 && tag@ == riot_id_parts(q).1->0,
                ResolvePlan::Name(n) => q.len() > 0 && !probably_puuid_spec(q) && riot_id_parts(q).1 is None
                    && n@ == q,
            }
        }),
{
    let q = normalize_query_text(query);
    if q.as_str().unicode_len() == 0 {
        return ResolvePlan::Empty;
    }
    if is_probably_puuid(q.as_str()) {
        return ResolvePlan::ByPuuid(q);
    }
    let (name, tag) = split_riot_id(q.as_str());
    match tag {
        Some(t) => ResolvePlan::RiotId { name, tag: t },
        None => ResolvePlan::Name(q),
    }
}

/// The error for an empty search.
pub fn empty_search_error() -> (r: AppError)
    ensures
        r matches AppError::PlayerNotFound(m) && m@ == "搜索内容为空"@,
{
    AppError::PlayerNotFound(owned("搜索内容为空"))
}

} // verus!
