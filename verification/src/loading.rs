//! Loading a player's games page by page, and the keys and ages of the
//! statistics kept between loads.
use vstd::prelude::*;
use std::collections::HashSet;

use crate::models::{ClientAuth, Game, SummonerInfo};
use crate::sgp::{normalize_server_id_spec, resolve_server_id_spec, resolve_sgp_server_id, normalize_sgp_server_id};
use crate::text::{is_blank, lower_seq, owned, to_lower, trim_seq};

verus! {

broadcast use vstd::std_specs::hash::group_hash_axioms;

/// The ids seen after the games: those seen before and every non-zero id of the games.
pub open spec fn seen_after(gs: Seq<Game>, seen: Set<u64>) -> Set<u64>
    decreases gs.len(),
{
    if gs.len() == 0 {
        seen
    } else {
        let s = seen_after(gs.drop_last(), seen);
        if gs.last().game_id == 0 {
            s
        } else {
            s.insert(gs.last().game_id)
        }
    }
}

/// The games not seen yet, in order: a game is kept when its id is zero
/// (unknown) or was not seen before it.
pub open spec fn unseen_games(gs: Seq<Game>, seen: Set<u64>) -> Seq<Game>
    decreases gs.len(),
{
    if gs.len() == 0 {
        Seq::empty()
    } else {
        let rest = unseen_games(gs.drop_last(), seen);
        let g = gs.last();
        if g.game_id == 0 || !seen_after(gs.drop_last(), seen).contains(g.game_id) {
            rest.push(g)
        } else {
            rest
        }
    }
}

/// Keeps the games whose id was not seen yet (or is zero), recording the ids.
pub fn unique_games(games: Vec<Game>, seen_game_ids: &mut HashSet<u64>) -> (r: Vec<Game>)
    ensures
        r@ == unseen_games(games@, old(seen_game_ids)@),
        final(seen_game_ids)@ == seen_after(games@, old(seen_game_ids)@),
{
    let ghost orig = games@;
    let ghost start = seen_game_ids@;
    let mut rest = games;
    let n = rest.len();
    let mut out: Vec<Game> = Vec::new();
    let mut i: usize = 0;
    while i < n
        invariant
            n == orig.len(),
            i <= n,
            rest@ == orig.skip(i as int),
            start == old(seen_game_ids)@,
            out@ == unseen_games(orig.take(i as int), start),
            seen_game_ids@ == seen_after(orig.take(i as int), start),
        decreases n - i,
    {
        assert(rest@[0] == orig[i as int]);
        let g = rest.remove(0);
        assert(rest@ =~= orig.skip(i + 1));
        assert(orig.take(i + 1).drop_last() =~= orig.take(i as int));
        assert(orig.take(i + 1).last() == g);
        if g.game_id == 0 {
            out.push(g);
        } else if seen_game_ids.insert(g.game_id) {
            out.push(g);
        }
        i = i + 1;
    }
    assert(orig.take(n as int) =~= orig);
    out
}

/// No two kept games share a non-zero id, and no kept id was seen before.
pub proof fn lemma_unseen_games_distinct(gs: Seq<Game>, seen: Set<u64>)
    ensures
        forall|i: int, j: int|
            0 <= i < j < unseen_games(gs, seen).len() && (#[trigger] unseen_games(gs, seen)[i]).game_id != 0
                ==> (#[trigger] unseen_games(gs, seen)[j]).game_id != unseen_games(gs, seen)[i].game_id,
        forall|i: int|
            0 <= i < unseen_games(gs, seen).len() && (#[trigger] unseen_games(gs, seen)[i]).game_id != 0
                ==> !seen.contains(unseen_games(gs, seen)[i].game_id),
        forall|i: int|
            0 <= i < unseen_games(gs, seen).len() && (#[trigger] unseen_games(gs, seen)[i]).game_id != 0
                ==> seen_after(gs, seen).contains(unseen_games(gs, seen)[i].game_id),
        seen.subset_of(seen_after(gs, seen)),
    decreases gs.len(),
{
    if gs.len() > 0 {
        let d = gs.drop_last();
        lemma_unseen_games_distinct(d, seen);
        let r = unseen_games(d, seen);
        let g = gs.last();
        if g.game_id == 0 || !seen_after(d, seen).contains(g.game_id) {
            let u = r.push(g);
            assert forall|i: int, j: int|
                0 <= i < j < u.len() && (#[trigger] u[i]).game_id != 0 implies (#[trigger] u[j]).game_id
                != u[i].game_id by {
                if j == u.len() - 1 {
                    assert(u[i] == r[i]);
                    assert(seen_after(d, seen).contains(r[i].game_id));
                } else {
                    assert(u[i] == r[i] && u[j] == r[j]);
                }
            }
            assert forall|i: int|
                0 <= i < u.len() && (#[trigger] u[i]).game_id != 0 implies !seen.contains(u[i].game_id) by {
                if i < r.len() {
                    assert(u[i] == r[i]);
                }
            }
            assert forall|i: int|
                0 <= i < u.len() && (#[trigger] u[i]).game_id != 0 implies seen_after(gs, seen).contains(
                u[i].game_id,
            ) by {
                if i < r.len() {
                    assert(u[i] == r[i]);
                }
            }
        } else {
            assert forall|i: int|
                0 <= i < r.len() && (#[trigger] r[i]).game_id != 0 implies seen_after(gs, seen).contains(
                r[i].game_id,
            ) by {}
        }
    }
}

/// The key of a player's statistics: the server, the PUUID in lower case
/// and the depth.
#[derive(Debug)]
pub struct StatsCacheKey {
    pub sgp_server_id: String,
    pub puuid: String,
    pub depth: usize,
}

/// The server part of the key: the resolved server with a client, else the
/// requested one in canonical form when not blank, else `LCU_CURRENT`.
pub open spec fn cache_server_spec(auth: Option<ClientAuth>, sgp_server_id: Option<Seq<char>>) -> Seq<char> {
    match auth {
        Some(a) => resolve_server_id_spec(a.region@, a.rso_platform_id@, sgp_server_id),
        None => match sgp_server_id {
            Some(v) if trim_seq(v).len() > 0 => normalize_server_id_spec(v),
            _ => "LCU_CURRENT"@,
        },
    }
}

pub fn stats_cache_key(
    auth: Option<&ClientAuth>,
    sgp_server_id: Option<&str>,
    summoner: &SummonerInfo,
    depth: usize,
) -> (r: StatsCacheKey)
    ensures
        r.sgp_server_id@ == cache_server_spec(
            match auth {
                Some(a) => Some(*a),
                None => None,
            },
            match sgp_server_id {
                Some(v) => Some(v@),
                None => None,
            },
        ),
        r.puuid@ == lower_seq(summoner.puuid@),
        r.depth == depth,
{
    let server = match auth {
        Some(a) => resolve_sgp_server_id(a, sgp_server_id),
        None => match sgp_server_id {
            Some(v) => if is_blank(v) {
                owned("LCU_CURRENT")
            } else {
                normalize_sgp_server_id(v)
            },
            None => owned("LCU_CURRENT"),
        },
    };
    StatsCacheKey { sgp_server_id: server, puuid: to_lower(summoner.puuid.as_str()), depth }
}

/// How long ago, in milliseconds, something was stored: `None` when the
/// clock reads earlier than the store or the difference does not fit.
pub open spec fn cache_age_spec(stored_at_ms: i64, now_ms: i64) -> Option<u64> {
    let d = now_ms - stored_at_ms;
    if i64::MIN <= d <= i64::MAX && d >= 0 {
        Some(d as u64)
    } else {
        None
    }
}

pub fn cache_age(stored_at_ms: i64, now_ms: i64) -> (r: Option<u64>)
    ensures
        r == cache_age_spec(stored_at_ms, now_ms),
{
    match now_ms.checked_sub(stored_at_ms) {
        Some(d) => if d >= 0 {
            Some(d as u64)
        } else {
            None
        },
        None => None,
    }
}

/// How long statistics stored on disk stay fresh, in milliseconds.
pub const DATABASE_CACHE_TTL_MS: u64 = 1_800_000;

/// Stored statistics may be used: always when stale ones are allowed,
/// otherwise when their age is known and at most the freshness limit.
pub fn db_stats_usable(stored_at_ms: i64, now_ms: i64, allow_stale: bool) -> (r: bool)
    ensures
        r == (allow_stale || match cache_age_spec(stored_at_ms, now_ms) {
            Some(a) => a <= DATABASE_CACHE_TTL_MS,
            None => false,
        }),
{
    if allow_stale {
        return true;
    }
    match cache_age(stored_at_ms, now_ms) {
        Some(a) => a <= DATABASE_CACHE_TTL_MS,
        None => false,
    }
}

/// The largest page the client's match history answers reliably.
pub const MAX_PAGE_SIZE: usize = 50;

/// The page size of the gateway's match history.
pub const SGP_PAGE_SIZE: usize = 50;

/// Loading up to `depth` games, page by page, straight from a service.
pub struct DirectPaging {
    depth: usize,
    page_limit: usize,
    start: usize,
    games: Vec<Game>,
    seen: HashSet<u64>,
    done: bool,
}

impl DirectPaging {
    /// The state is consistent: the next page starts at most one page per
    /// loaded game ahead, and every index fits.
    pub closed spec fn wf(&self) -> bool {
        &&& self.page_limit >= 1
        &&& self.depth * self.page_limit <= usize::MAX
        &&& self.start <= self.games@.len() * self.page_limit
    }

    pub closed spec fn depth(&self) -> usize {
        self.depth
    }

    pub closed spec fn page_limit(&self) -> usize {
        self.page_limit
    }

    /// Where the next page starts.
    pub closed spec fn start(&self) -> usize {
        self.start
    }

    /// The games loaded so far, in order.
    pub closed spec fn games(&self) -> Seq<Game> {
        self.games@
    }

    /// The ids seen so far.
    pub closed spec fn seen(&self) -> Set<u64> {
        self.seen@
    }

    /// Whether loading has stopped.
    pub closed spec fn done(&self) -> bool {
        self.done
    }

    /// The size of the next page: what is still missing, at most the limit.
    pub open spec fn page_size_spec(&self) -> usize {
        let missing = (self.depth() - self.games().len()) as usize;
        if missing < self.page_limit() {
            missing
        } else {
            self.page_limit()
        }
    }

    /// Whether a page is still to be asked for.
    pub open spec fn wants_page(&self) -> bool {
        !self.done() && self.games().len() < self.depth()
    }

    pub fn new(depth: usize, page_limit: usize) -> (r: DirectPaging)
        requires
            page_limit >= 1,
            depth * page_limit <= usize::MAX,
        ensures
            r.wf(),
            r.depth() == depth,
            r.page_limit() == page_limit,
            r.start() == 0,
            r.games().len() == 0,
            r.seen() == Set::<u64>::empty(),
            !r.done(),
    {
        DirectPaging { depth, page_limit, start: 0, games: Vec::new(), seen: HashSet::new(), done: false }
    }

    /// The next page to ask for, as its first index and its size; `None`
    /// once loading has stopped or enough games are loaded.
    pub fn next_page(&self) -> (r: Option<(usize, usize)>)
        requires
            self.wf(),
        ensures
            r == if self.wants_page() {
                Some((self.start(), self.page_size_spec()))
            } else {
                None
            },
            r matches Some((s, c)) ==> c >= 1 && s + c <= usize::MAX,
    {
        if self.done || self.games.len() >= self.depth {
            return None;
        }
        let missing = self.depth - self.games.len();
        let size = if missing < self.page_limit {
            missing
        } else {
            self.page_limit
        };
        proof {
            let l = self.games@.len();
            assert(self.start + size <= self.depth * self.page_limit) by (nonlinear_arith)
                requires
                    self.start <= l * self.page_limit,
                    l < self.depth,
                    size <= self.page_limit,
            ;
        }
        Some((self.start, size))
    }

    /// Takes in the page asked for. An empty page stops the loading and
    /// reports nothing. Otherwise the unseen games are added and the number
    /// of games loaded (at most the depth) is reported; the loading stops
    /// when the page added nothing or was short, else moves to the next page.
    pub fn accept_page(&mut self, page: Vec<Game>) -> (r: Option<usize>)
        requires
            old(self).wf(),
            old(self).wants_page(),
        ensures
            final(self).wf(),
            final(self).depth() == old(self).depth(),
            final(self).page_limit() == old(self).page_limit(),
            page@.len() == 0 ==> {
                &&& r is None
                &&& final(self).done()
                &&& final(self).games() == old(self).games()
                &&& final(self).seen() == old(self).seen()
                &&& final(self).start() == old(self).start()
            },
            page@.len() > 0 ==> {
                let added = unseen_games(page@, old(self).seen());
                let grown = old(self).games() + added;
                &&& final(self).games() == grown
                &&& final(self).seen() == seen_after(page@, old(self).seen())
                &&& r == Some(
                    if grown.len() < old(self).depth() {
                        grown.len() as usize
                    } else {
                        old(self).depth()
                    },
                )
                &&& final(self).done() == (added.len() == 0 || page@.len() < old(self).page_size_spec())
                &&& final(self).start() == if final(self).done() {
                    old(self).start()
                } else {
                    (old(self).start() + old(self).page_size_spec()) as usize
                }
            },
    {
        let received = page.len();
        if received == 0 {
            self.done = true;
            return None;
        }
        let missing = self.depth - self.games.len();
        let size = if missing < self.page_limit {
            missing
        } else {
            self.page_limit
        };
        let before = self.games.len();
        let ghost g0 = self.games@;
        let mut added = unique_games(page, &mut self.seen);
        self.games.append(&mut added);
        let len = self.games.len();
        let report = if len < self.depth {
            len
        } else {
            self.depth
        };
        if len == before || received < size {
            self.done = true;
            proof {
                assert(self.start <= self.games@.len() * self.page_limit) by (nonlinear_arith)
                    requires
                        self.start <= g0.len() * self.page_limit,
                        g0.len() <= self.games@.len(),
                ;
            }
        } else {
            proof {
                assert(self.start + size <= self.games@.len() * self.page_limit) by (nonlinear_arith)
                    requires
                        self.start <= g0.len() * self.page_limit,
                        g0.len() + 1 <= self.games@.len(),
                        size <= self.page_limit,
                ;
                assert(self.start + size <= self.depth * self.page_limit) by (nonlinear_arith)
                    requires
                        self.start <= g0.len() * self.page_limit,
                        g0.len() < self.depth,
                        size <= self.page_limit,
                ;
            }
            self.start = self.start + size;
        }
        Some(report)
    }

    /// The games loaded.
    pub fn into_games(self) -> (r: Vec<Game>)
        ensures
            r@ == self.games(),
    {
        self.games
    }
}

/// The last index of a page of the client's match history.
pub fn page_end_index(start: usize, count: usize) -> (r: usize)
    requires
        count >= 1,
        start + count <= usize::MAX,
    ensures
        r == start + count - 1,
{
    start + count - 1
}

/// The page size of an incremental load: what the store still misses, but
/// never less and never more than `page_limit` (so always `page_limit`).
pub fn incremental_page_size(depth: usize, available: usize, page_limit: usize) -> (r: usize)
    ensures
        r == page_limit,
{
    let missing = if depth > available {
        depth - available
    } else {
        0
    };
    let at_least = if missing > page_limit {
        missing
    } else {
        page_limit
    };
    if at_least < page_limit {
        at_least
    } else {
        page_limit
    }
}

/// Loading new games into the local store, page by page, until a page is
/// short, brings nothing new, or reaches games already stored once the store
/// holds enough.
pub struct IncrementalPaging {
    depth: usize,
    page_limit: usize,
    start: usize,
    fetched: usize,
    seen: HashSet<u64>,
    done: bool,
    pending: Option<(usize, usize)>,
}

impl IncrementalPaging {
    pub closed spec fn wf(&self) -> bool {
        &&& self.page_limit >= 1
        &&& self.depth * self.page_limit <= usize::MAX
        &&& self.start <= self.fetched * self.page_limit
        &&& (self.start == 0 && !self.done ==> self.fetched == 0)
        &&& (self.pending matches Some((received, stored)) ==> stored >= 1 && self.fetched + stored <= usize::MAX)
    }

    pub closed spec fn depth(&self) -> usize {
        self.depth
    }

    pub closed spec fn page_limit(&self) -> usize {
        self.page_limit
    }

    /// Where the next page starts.
    pub closed spec fn start(&self) -> usize {
        self.start
    }

    /// How many new games this load has stored.
    pub closed spec fn fetched(&self) -> usize {
        self.fetched
    }

    /// The ids seen so far.
    pub closed spec fn seen(&self) -> Set<u64> {
        self.seen@
    }

    /// Whether loading has stopped.
    pub closed spec fn done(&self) -> bool {
        self.done
    }

    /// The size of the page just taken in and the number of its new games,
    /// until they are stored.
    pub closed spec fn pending(&self) -> Option<(usize, usize)> {
        self.pending
    }

    /// The size of the page waiting to be stored.
    pub open spec fn pending_received(&self) -> usize {
        match self.pending() {
            Some((received, _)) => received,
            None => 0,
        }
    }

    /// The number of new games waiting to be stored.
    pub open spec fn pending_stored(&self) -> usize {
        match self.pending() {
            Some((_, stored)) => stored,
            None => 0,
        }
    }

    /// Whether a page is still to be asked for: not stopped, and on a later
    /// page not yet as many new games as the depth.
    pub open spec fn wants_page(&self) -> bool {
        !self.done() && !(self.start() > 0 && self.fetched() >= self.depth()) && self.pending() is None
    }

    pub fn new(depth: usize, page_limit: usize) -> (r: IncrementalPaging)
        requires
            page_limit >= 1,
            depth * page_limit <= usize::MAX,
        ensures
            r.wf(),
            r.depth() == depth,
            r.page_limit() == page_limit,
            r.start() == 0,
            r.fetched() == 0,
            r.seen() == Set::<u64>::empty(),
            !r.done(),
            r.pending() is None,
    {
        IncrementalPaging {
            depth,
            page_limit,
            start: 0,
            fetched: 0,
            seen: HashSet::new(),
            done: false,
            pending: None,
        }
    }

    /// How many new games this load has stored.
    pub fn fetched_count(&self) -> (r: usize)
        ensures
            r == self.fetched(),
    {
        self.fetched
    }

    /// The next page to ask for, given how many games the store holds: its
    /// first index and its size; `None` once loading has stopped.
    pub fn next_page(&self, available: usize) -> (r: Option<(usize, usize)>)
        requires
            self.wf(),
        ensures
            r == if self.wants_page() {
                Some((self.start(), self.page_limit()))
            } else {
                None
            },
            r matches Some((s, c)) ==> c >= 1 && s + c <= usize::MAX,
    {
        if self.done || self.pending.is_some() || (self.start > 0 && self.fetched >= self.depth) {
            return None;
        }
        let size = incremental_page_size(self.depth, available, self.page_limit);
        proof {
            if self.start > 0 {
                assert(self.start + size <= self.depth * self.page_limit) by (nonlinear_arith)
                    requires
                        self.start <= self.fetched * self.page_limit,
                        self.fetched < self.depth,
                        size <= self.page_limit,
                ;
            } else {
                assert(size <= self.depth * self.page_limit || self.depth == 0) by (nonlinear_arith)
                    requires
                        size == self.page_limit,
                        self.page_limit >= 1,
                ;
            }
        }
        Some((self.start, size))
    }

    /// Takes in the page asked for: `None` (and stop) when it is empty or
    /// brings no unseen game, else the unseen games, to be stored.
    pub fn accept_page(&mut self, page: Vec<Game>) -> (r: Option<Vec<Game>>)
        requires
            old(self).wf(),
            old(self).wants_page(),
            old(self).fetched() + page@.len() <= usize::MAX,
        ensures
            final(self).wf(),
            final(self).depth() == old(self).depth(),
            final(self).page_limit() == old(self).page_limit(),
            final(self).start() == old(self).start(),
            final(self).fetched() == old(self).fetched(),
            page@.len() == 0 ==> r is None && final(self).done() && final(self).seen() == old(self).seen()
                && final(self).pending() is None,
            page@.len() > 0 ==> {
                let added = unseen_games(page@, old(self).seen());
                &&& final(self).seen() == seen_after(page@, old(self).seen())
                &&& added.len() == 0 ==> r is None && final(self).done() && final(self).pending() is None
                &&& added.len() > 0 ==> (r matches Some(v) && v@ == added && !final(self).done()
                    && final(self).pending() == Some((page@.len() as usize, added.len() as usize)))
            },
    {
        let received = page.len();
        if received == 0 {
            self.done = true;
            return None;
        }
        let ghost pg = page@;
        let added = unique_games(page, &mut self.seen);
        proof {
            lemma_unseen_len(pg, old(self).seen@);
        }
        if added.len() == 0 {
            self.done = true;
            return None;
        }
        self.pending = Some((received, added.len()));
        Some(added)
    }

    /// After the new games were stored: counts them, and stops when the page
    /// was short or, having met a game already stored, the store holds
    /// enough; otherwise moves to the next page. Returns the progress to
    /// report: the games stored, at most the depth.
    pub fn after_store(&mut self, hit_cached_player_game: bool, available: usize) -> (r: usize)
        requires
            old(self).wf(),
            old(self).pending() is Some,
            !old(self).done(),
            !(old(self).start() > 0 && old(self).fetched() >= old(self).depth()),
        ensures
            final(self).wf(),
            final(self).depth() == old(self).depth(),
            final(self).page_limit() == old(self).page_limit(),
            final(self).seen() == old(self).seen(),
            final(self).pending() is None,
            final(self).fetched() == old(self).fetched() + old(self).pending_stored(),
            final(self).done() == ((hit_cached_player_game && available >= old(self).depth())
                || old(self).pending_received() < old(self).page_limit()),
            final(self).start() == if final(self).done() {
                old(self).start()
            } else {
                (old(self).start() + old(self).page_limit()) as usize
            },
            r == if available < old(self).depth() {
                available
            } else {
                old(self).depth()
            },
    {
        let (received, stored) = match self.pending {
            Some(p) => p,
            None => (0, 0),
        };
        let ghost f0 = self.fetched;
        self.fetched = self.fetched + stored;
        self.pending = None;
        if (hit_cached_player_game && available >= self.depth) || received < self.page_limit {
            self.done = true;
            proof {
                assert(self.start <= self.fetched * self.page_limit) by (nonlinear_arith)
                    requires
                        self.start <= f0 * self.page_limit,
                        f0 <= self.fetched,
                ;
            }
        } else {
            proof {
                if self.start > 0 {
                    assert(self.start + self.page_limit <= self.depth * self.page_limit) by (nonlinear_arith)
                        requires
                            self.start <= f0 * self.page_limit,
                            f0 < self.depth,
                    ;
                } else {
                    assert(self.page_limit <= usize::MAX);
                }
                assert(self.start + self.page_limit <= self.fetched * self.page_limit) by (nonlinear_arith)
                    requires
                        self.start <= f0 * self.page_limit,
                        f0 + 1 <= self.fetched,
                ;
            }
            self.start = self.start + self.page_limit;
        }
        if available < self.depth {
            available
        } else {
            self.depth
        }
    }
}

proof fn lemma_unseen_len(gs: Seq<Game>, seen: Set<u64>)
    ensures
        unseen_games(gs, seen).len() <= gs.len(),
    decreases gs.len(),
{
    if gs.len() > 0 {
        lemma_unseen_len(gs.drop_last(), seen);
    }
}

} // verus!
