use lol_stats::cancel::{cancel_request, clear_cancelled_request, is_cancelled_request, CancelRegistry};
use lol_stats::stats_load::{
    stats_load_start, stats_load_step, StatsLoadAction, StatsLoadConfig, StatsLoadEnd, StatsLoadEvent,
    StatsLoadStage,
};

#[test]
fn cancel_registry() {
    let mut r = CancelRegistry::new();
    assert!(!is_cancelled_request(&r, "a"));
    cancel_request(&mut r, "a".to_string());
    cancel_request(&mut r, "a".to_string());
    cancel_request(&mut r, "b".to_string());
    assert!(is_cancelled_request(&r, "a"));
    assert!(is_cancelled_request(&r, "b"));
    clear_cancelled_request(&mut r, "a");
    assert!(!is_cancelled_request(&r, "a"));
    assert!(is_cancelled_request(&r, "b"));
    clear_cancelled_request(&mut r, "zzz");
    assert!(is_cancelled_request(&r, "b"));
}

/// Runs a load against scripted answers and returns the actions taken.
fn run(cfg: StatsLoadConfig, answers: &[StatsLoadEvent]) -> Vec<StatsLoadAction> {
    let (mut stage, mut action) = stats_load_start(cfg);
    let mut seen = vec![action];
    for ev in answers {
        let (s, a) = stats_load_step(cfg, stage, *ev);
        stage = s;
        action = a;
        seen.push(action);
    }
    seen
}

#[test]
fn load_without_keeping() {
    let cfg = StatsLoadConfig::new(0, false, false);
    assert_eq!(cfg.depth, 1);
    let acts = run(cfg, &[StatsLoadEvent::Reported(true), StatsLoadEvent::Loaded(true)]);
    assert_eq!(
        acts,
        vec![
            StatsLoadAction::Report { loaded: 0, total: 1 },
            StatsLoadAction::LoadDirect,
            StatsLoadAction::Finish(StatsLoadEnd::Analyze { persist: false }),
        ]
    );
}

#[test]
fn load_from_memory_and_cancel() {
    let cfg = StatsLoadConfig::new(20, true, false);
    let acts = run(
        cfg,
        &[StatsLoadEvent::Reported(true), StatsLoadEvent::Found(true), StatsLoadEvent::Reported(true)],
    );
    assert_eq!(acts[1], StatsLoadAction::LookupMemory);
    assert_eq!(acts[2], StatsLoadAction::Report { loaded: 20, total: 20 });
    assert_eq!(acts[3], StatsLoadAction::Finish(StatsLoadEnd::ReturnFound));

    let cancelled = run(cfg, &[StatsLoadEvent::Reported(false)]);
    assert_eq!(cancelled[1], StatsLoadAction::Finish(StatsLoadEnd::Cancelled));
}

#[test]
fn load_incrementally_with_fallbacks() {
    let cfg = StatsLoadConfig::new(5000, true, false);
    assert_eq!(cfg.depth, 1000);
    let acts = run(
        cfg,
        &[
            StatsLoadEvent::Reported(true),
            StatsLoadEvent::Found(false),
            StatsLoadEvent::Found(false),
            StatsLoadEvent::Counted(Some(300)),
            StatsLoadEvent::Reported(true),
            StatsLoadEvent::Loaded(false),
            StatsLoadEvent::Found(false),
            StatsLoadEvent::Found(true),
            StatsLoadEvent::Reported(true),
        ],
    );
    assert_eq!(
        acts,
        vec![
            StatsLoadAction::Report { loaded: 0, total: 1000 },
            StatsLoadAction::LookupMemory,
            StatsLoadAction::LookupStored { allow_stale: false },
            StatsLoadAction::CountStored,
            StatsLoadAction::Report { loaded: 300, total: 1000 },
            StatsLoadAction::LoadIncremental,
            StatsLoadAction::ReadStoredGames,
            StatsLoadAction::LookupStored { allow_stale: true },
            StatsLoadAction::RememberThenReport { loaded: 1000, total: 1000 },
            StatsLoadAction::Finish(StatsLoadEnd::ReturnFound),
        ]
    );
}

#[test]
fn refresh_skips_kept_statistics() {
    let cfg = StatsLoadConfig::new(20, true, true);
    let acts = run(
        cfg,
        &[StatsLoadEvent::Reported(true), StatsLoadEvent::Counted(Some(0)), StatsLoadEvent::Loaded(true)],
    );
    assert_eq!(acts[1], StatsLoadAction::CountStored);
    assert_eq!(acts[2], StatsLoadAction::LoadIncremental);
    assert_eq!(acts[3], StatsLoadAction::Finish(StatsLoadEnd::Analyze { persist: true }));

    let failed = run(
        cfg,
        &[
            StatsLoadEvent::Reported(true),
            StatsLoadEvent::Counted(None),
            StatsLoadEvent::Loaded(false),
            StatsLoadEvent::Found(false),
            StatsLoadEvent::Found(false),
            // A finished load stays finished.
            StatsLoadEvent::Reported(true),
        ],
    );
    assert_eq!(failed[5], StatsLoadAction::Finish(StatsLoadEnd::Failed));
    assert_eq!(failed[6], StatsLoadAction::Finish(StatsLoadEnd::Failed));
    // An answer that does not fit changes nothing.
    let (stage, action) = stats_load_step(cfg, StatsLoadStage::Counting, StatsLoadEvent::Reported(true));
    assert_eq!(stage, StatsLoadStage::Counting);
    assert_eq!(action, StatsLoadAction::CountStored);
}
