//! The order in which a player's statistics are looked for: memory, the
//! store on disk, the services, and what is reported on the way.
//!
//! The caller performs each action and answers with what came of it; the
//! decisions between the steps are made here.
use vstd::prelude::*;

use crate::stats::{normalize_depth, MAX_DEPTH};

verus! {

/// What a load was asked for.
#[derive(Debug, Clone, Copy, PartialEq, Eq, Structural)]
pub struct StatsLoadConfig {
    /// The number of games, already clamped into `1..=MAX_DEPTH`.
    pub depth: usize,
    /// Whether statistics and games are kept in memory and on disk.
    pub persist_cache: bool,
    /// Whether kept statistics are passed over.
    pub force_refresh: bool,
}

impl StatsLoadConfig {
    pub fn new(depth: usize, persist_cache: bool, force_refresh: bool) -> (r: StatsLoadConfig)
        ensures
            r.depth == (if depth < 1 { 1 } else if depth > MAX_DEPTH { MAX_DEPTH } else { depth }),
            r.persist_cache == persist_cache,
            r.force_refresh == force_refresh,
    {
        StatsLoadConfig { depth: normalize_depth(depth), persist_cache, force_refresh }
    }
}

/// How a load ends.
#[derive(Debug, Clone, Copy, PartialEq, Eq, Structural)]
pub enum StatsLoadEnd {
    /// A progress report was refused: the load is cancelled.
    Cancelled,
    /// The games at hand are analyzed; when `persist`, the statistics are
    /// written to disk and kept in memory.
    Analyze { persist: bool },
    /// The statistics found are returned.
    ReturnFound,
    /// The error of the failed load is returned.
    Failed,
}

/// What the caller does next.
#[derive(Debug, Clone, Copy, PartialEq, Eq, Structural)]
pub enum StatsLoadAction {
    /// Report progress; answer `Reported` with whether to go on.
    Report { loaded: usize, total: usize },
    /// Keep the statistics found in memory, then report progress; answer `Reported`.
    RememberThenReport { loaded: usize, total: usize },
    /// Load the games straight from the services; answer `Loaded`.
    LoadDirect,
    /// Look for statistics kept in memory; answer `Found`.
    LookupMemory,
    /// Look for statistics stored on disk, stale ones too when `allow_stale`; answer `Found`.
    LookupStored { allow_stale: bool },
    /// Count the games stored on disk; answer `Counted`.
    CountStored,
    /// Load new games into the store and read the stored ones; answer `Loaded`.
    LoadIncremental,
    /// Read the games stored on disk; answer `Found` with whether there are any.
    ReadStoredGames,
    /// Stop.
    Finish(StatsLoadEnd),
}

/// What came of an action.
#[derive(Debug, Clone, Copy, PartialEq, Eq, Structural)]
pub enum StatsLoadEvent {
    Reported(bool),
    Found(bool),
    Counted(Option<usize>),
    Loaded(bool),
}

/// Where a load stands: which answer it waits for.
#[derive(Debug, Clone, Copy, PartialEq, Eq, Structural)]
pub enum StatsLoadStage {
    StartReport,
    DirectLoad,
    MemoryLookup,
    FreshLookup,
    Counting,
    CountReport(usize),
    IncrementalLoad,
    StoredGames,
    StaleLookup,
    FinalReport(bool),
    Done(StatsLoadEnd),
}

/// The action a stage waits on.
pub open spec fn pending_spec(cfg: StatsLoadConfig, stage: StatsLoadStage) -> StatsLoadAction {
    match stage {
        StatsLoadStage::StartReport => StatsLoadAction::Report { loaded: 0, total: cfg.depth },
        StatsLoadStage::DirectLoad => StatsLoadAction::LoadDirect,
        StatsLoadStage::MemoryLookup => StatsLoadAction::LookupMemory,
        StatsLoadStage::FreshLookup => StatsLoadAction::LookupStored { allow_stale: false },
        StatsLoadStage::Counting => StatsLoadAction::CountStored,
        StatsLoadStage::CountReport(n) => StatsLoadAction::Report { loaded: n, total: cfg.depth },
        StatsLoadStage::IncrementalLoad => StatsLoadAction::LoadIncremental,
        StatsLoadStage::StoredGames => StatsLoadAction::ReadStoredGames,
        StatsLoadStage::StaleLookup => StatsLoadAction::LookupStored { allow_stale: true },
        StatsLoadStage::FinalReport(remember) => if remember {
            StatsLoadAction::RememberThenReport { loaded: cfg.depth, total: cfg.depth }
        } else {
            StatsLoadAction::Report { loaded: cfg.depth, total: cfg.depth }
        },
        StatsLoadStage::Done(end) => StatsLoadAction::Finish(end),
    }
}

/// The stage together with the action it waits on.
pub open spec fn at(cfg: StatsLoadConfig, stage: StatsLoadStage) -> (StatsLoadStage, StatsLoadAction) {
    (stage, pending_spec(cfg, stage))
}

/// Where a load goes after the answer `event` in `stage`. After the start
/// report: straight from the services when nothing is kept; else memory,
/// then fresh statistics on disk (unless refreshing), then the count of
/// stored games (reported when some), then the incremental load; when that
/// fails, the stored games, then stale statistics on disk, then the error.
/// Statistics found are returned after a report of the whole depth. An
/// answer that does not fit the stage changes nothing.
pub open spec fn step_spec(
    cfg: StatsLoadConfig,
    stage: StatsLoadStage,
    event: StatsLoadEvent,
) -> (StatsLoadStage, StatsLoadAction) {
    let done = |e: StatsLoadEnd| at(cfg, StatsLoadStage::Done(e));
    match (stage, event) {
        (StatsLoadStage::StartReport, StatsLoadEvent::Reported(go)) => if !go {
            done(StatsLoadEnd::Cancelled)
        } else if !cfg.persist_cache {
            at(cfg, StatsLoadStage::DirectLoad)
        } else if !cfg.force_refresh {
            at(cfg, StatsLoadStage::MemoryLookup)
        } else {
            at(cfg, StatsLoadStage::Counting)
        },
        (StatsLoadStage::DirectLoad, StatsLoadEvent::Loaded(ok)) => if ok {
            done(StatsLoadEnd::Analyze { persist: false })
        } else {
            done(StatsLoadEnd::Failed)
        },
        (StatsLoadStage::MemoryLookup, StatsLoadEvent::Found(hit)) => if hit {
            at(cfg, StatsLoadStage::FinalReport(false))
        } else {
            at(cfg, StatsLoadStage::FreshLookup)
        },
        (StatsLoadStage::FreshLookup, StatsLoadEvent::Found(hit)) => if hit {
            at(cfg, StatsLoadStage::FinalReport(true))
        } else {
            at(cfg, StatsLoadStage::Counting)
        },
        (StatsLoadStage::Counting, StatsLoadEvent::Counted(available)) => match available {
            Some(a) if a > 0 => at(
                cfg,
                StatsLoadStage::CountReport(if a < cfg.depth { a } else { cfg.depth }),
            ),
            _ => at(cfg, StatsLoadStage::IncrementalLoad),
        },
        (StatsLoadStage::CountReport(_), StatsLoadEvent::Reported(go)) => if go {
            at(cfg, StatsLoadStage::IncrementalLoad)
        } else {
            done(StatsLoadEnd::Cancelled)
        },
        (StatsLoadStage::IncrementalLoad, StatsLoadEvent::Loaded(ok)) => if ok {
            done(StatsLoadEnd::Analyze { persist: true })
        } else {
            at(cfg, StatsLoadStage::StoredGames)
        },
        (StatsLoadStage::StoredGames, StatsLoadEvent::Found(any)) => if any {
            done(StatsLoadEnd::Analyze { persist: true })
        } else {
            at(cfg, StatsLoadStage::StaleLookup)
        },
        (StatsLoadStage::StaleLookup, StatsLoadEvent::Found(hit)) => if hit {
            at(cfg, StatsLoadStage::FinalReport(true))
        } else {
            done(StatsLoadEnd::Failed)
        },
        (StatsLoadStage::FinalReport(_), StatsLoadEvent::Reported(go)) => if go {
            done(StatsLoadEnd::ReturnFound)
        } else {
            done(StatsLoadEnd::Cancelled)
        },
        _ => at(cfg, stage),
    }
}

/// Every report counts against the whole depth and never past it.
pub open spec fn report_in_range(cfg: StatsLoadConfig, a: StatsLoadAction) -> bool {
    match a {
        StatsLoadAction::Report { loaded, total } => total == cfg.depth && loaded <= cfg.depth,
        StatsLoadAction::RememberThenReport { loaded, total } => total == cfg.depth && loaded <= cfg.depth,
        _ => true,
    }
}

fn pending(cfg: StatsLoadConfig, stage: StatsLoadStage) -> (r: StatsLoadAction)
    ensures
        r == pending_spec(cfg, stage),
{
    match stage {
        StatsLoadStage::StartReport => StatsLoadAction::Report { loaded: 0, total: cfg.depth },
        StatsLoadStage::DirectLoad => StatsLoadAction::LoadDirect,
        StatsLoadStage::MemoryLookup => StatsLoadAction::LookupMemory,
        StatsLoadStage::FreshLookup => StatsLoadAction::LookupStored { allow_stale: false },
        StatsLoadStage::Counting => StatsLoadAction::CountStored,
        StatsLoadStage::CountReport(n) => StatsLoadAction::Report { loaded: n, total: cfg.depth },
        StatsLoadStage::IncrementalLoad => StatsLoadAction::LoadIncremental,
        StatsLoadStage::StoredGames => StatsLoadAction::ReadStoredGames,
        StatsLoadStage::StaleLookup => StatsLoadAction::LookupStored { allow_stale: true },
        StatsLoadStage::FinalReport(remember) => if remember {
            StatsLoadAction::RememberThenReport { loaded: cfg.depth, total: cfg.depth }
        } else {
            StatsLoadAction::Report { loaded: cfg.depth, total: cfg.depth }
        },
        StatsLoadStage::Done(end) => StatsLoadAction::Finish(end),
    }
}

/// The first stage of a load and its action: the report that nothing is loaded yet.
pub fn stats_load_start(cfg: StatsLoadConfig) -> (r: (StatsLoadStage, StatsLoadAction))
    ensures
        r == at(cfg, StatsLoadStage::StartReport),
{
    (StatsLoadStage::StartReport, StatsLoadAction::Report { loaded: 0, total: cfg.depth })
}

/// The next stage and action of a load after an answer.
pub fn stats_load_step(cfg: StatsLoadConfig, stage: StatsLoadStage, event: StatsLoadEvent) -> (r: (
    StatsLoadStage,
    StatsLoadAction,
))
    requires
        stage matches StatsLoadStage::CountReport(n) ==> n <= cfg.depth,
    ensures
        r == step_spec(cfg, stage, event),
        report_in_range(cfg, r.1),
        r.0 matches StatsLoadStage::CountReport(n) ==> n <= cfg.depth,
{
    let next = match (stage, event) {
        (StatsLoadStage::StartReport, StatsLoadEvent::Reported(go)) => if !go {
            StatsLoadStage::Done(StatsLoadEnd::Cancelled)
        } else if !cfg.persist_cache {
            StatsLoadStage::DirectLoad
        } else if !cfg.force_refresh {
            StatsLoadStage::MemoryLookup
        } else {
            StatsLoadStage::Counting
        },
        (StatsLoadStage::DirectLoad, StatsLoadEvent::Loaded(ok)) => if ok {
            StatsLoadStage::Done(StatsLoadEnd::Analyze { persist: false })
        } else {
            StatsLoadStage::Done(StatsLoadEnd::Failed)
        },
        (StatsLoadStage::MemoryLookup, StatsLoadEvent::Found(hit)) => if hit {
            StatsLoadStage::FinalReport(false)
        } else {
            StatsLoadStage::FreshLookup
        },
        (StatsLoadStage::FreshLookup, StatsLoadEvent::Found(hit)) => if hit {
            StatsLoadStage::FinalReport(true)
        } else {
            StatsLoadStage::Counting
        },
        (StatsLoadStage::Counting, StatsLoadEvent::Counted(available)) => match available {
            Some(a) => if a > 0 {
                StatsLoadStage::CountReport(if a < cfg.depth { a } else { cfg.depth })
            } else {
                StatsLoadStage::IncrementalLoad
            },
            None => StatsLoadStage::IncrementalLoad,
        },
        (StatsLoadStage::CountReport(_), StatsLoadEvent::Reported(go)) => if go {
            StatsLoadStage::IncrementalLoad
        } else {
            StatsLoadStage::Done(StatsLoadEnd::Cancelled)
        },
        (StatsLoadStage::IncrementalLoad, StatsLoadEvent::Loaded(ok)) => if ok {
            StatsLoadStage::Done(StatsLoadEnd::Analyze { persist: true })
        } else {
            StatsLoadStage::StoredGames
        },
        (StatsLoadStage::StoredGames, StatsLoadEvent::Found(any)) => if any {
            StatsLoadStage::Done(StatsLoadEnd::Analyze { persist: true })
        } else {
            StatsLoadStage::StaleLookup
        },
        (StatsLoadStage::StaleLookup, StatsLoadEvent::Found(hit)) => if hit {
            StatsLoadStage::FinalReport(true)
        } else {
            StatsLoadStage::Done(StatsLoadEnd::Failed)
        },
        (StatsLoadStage::FinalReport(_), StatsLoadEvent::Reported(go)) => if go {
            StatsLoadStage::Done(StatsLoadEnd::ReturnFound)
        } else {
            StatsLoadStage::Done(StatsLoadEnd::Cancelled)
        },
        _ => stage,
    };
    (next, pending(cfg, next))
}

/// Statistics found in memory or on disk are handed back only after the
/// whole depth was reported and the report accepted; games are analyzed
/// without keeping the result only after a direct load.
pub proof fn lemma_found_only_after_full_report(
    cfg: StatsLoadConfig,
    stage: StatsLoadStage,
    event: StatsLoadEvent,
)
    ensures
        step_spec(cfg, stage, event).1 == StatsLoadAction::Finish(StatsLoadEnd::ReturnFound) ==> (
        stage is FinalReport && event == StatsLoadEvent::Reported(true)) || stage == StatsLoadStage::Done(
            StatsLoadEnd::ReturnFound,
        ),
        step_spec(cfg, stage, event).1 == StatsLoadAction::Finish(StatsLoadEnd::Analyze { persist: false })
            ==> stage == StatsLoadStage::DirectLoad || stage == StatsLoadStage::Done(
            StatsLoadEnd::Analyze { persist: false },
        ),
{
}

/// A finished load stays finished, whatever comes.
pub proof fn lemma_done_is_final(cfg: StatsLoadConfig, end: StatsLoadEnd, event: StatsLoadEvent)
    ensures
        step_spec(cfg, StatsLoadStage::Done(end), event) == (
            StatsLoadStage::Done(end),
            StatsLoadAction::Finish(end),
        ),
{
}

} // verus!
