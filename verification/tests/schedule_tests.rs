//! Tests for the analysis session: job flow, caching, and the output model.

use rustowl::cache::CacheConfig;
use rustowl::models::Function;
use rustowl::schedule::{AnalysisSession, worker_thread_count};

#[test]
fn worker_thread_count_clamps_between_two_and_eight() {
    assert_eq!(worker_thread_count(1), 2);
    assert_eq!(worker_thread_count(2), 2);
    assert_eq!(worker_thread_count(4), 2);
    assert_eq!(worker_thread_count(8), 4);
    assert_eq!(worker_thread_count(16), 8);
    assert_eq!(worker_thread_count(64), 8);
}

#[test]
fn session_yields_one_entry_per_independent_job() {
    // Submitting N independent function-body jobs and draining completions
    // yields exactly N functions, regardless of completion order.
    let mut session = AnalysisSession::new(CacheConfig::default());

    let jobs: Vec<(&str, &str, u32)> = vec![
        ("a.rs", "h1", 1),
        ("a.rs", "h2", 2),
        ("b.rs", "h3", 3),
        ("b.rs", "h4", 4),
        ("c.rs", "h5", 5),
    ];
    for (file, hash, _) in &jobs {
        let hit = session.submit(file, hash, "mir", None);
        assert!(!hit, "an empty cache cannot hit");
    }
    assert_eq!(session.pending(), 5);

    // Complete in scrambled order.
    for &i in &[3usize, 0, 4, 1, 2] {
        let (file, hash, fn_id) = jobs[i];
        session.complete(file, hash, "mir", None, Function::new(fn_id));
    }
    assert_eq!(session.pending(), 0);

    let (output, stats) = session.finish();
    let total: usize = output.0.iter().map(|e| e.1.items.len()).sum();
    assert_eq!(total, 5);

    // No duplicate function ids within any file.
    for (_, file) in &output.0 {
        let mut ids: Vec<u32> = file.items.iter().map(|f| f.fn_id).collect();
        ids.sort_unstable();
        let before = ids.len();
        ids.dedup();
        assert_eq!(ids.len(), before);
    }

    assert_eq!(stats.misses, 5);
    assert_eq!(stats.hits, 0);
}

#[test]
fn session_drops_duplicate_function_ids_per_file() {
    let mut session = AnalysisSession::new(CacheConfig::default());

    assert!(!session.submit("a.rs", "h1", "m1", None));
    assert!(!session.submit("a.rs", "h2", "m2", None));
    session.complete("a.rs", "h1", "m1", None, Function::new(1));
    // Same function id in the same file: first seen wins.
    session.complete("a.rs", "h2", "m2", None, Function::new(1));

    let (output, _) = session.finish();
    assert_eq!(output.0.len(), 1);
    assert_eq!(output.0[0].1.items.len(), 1);
}

#[test]
fn session_cache_hit_completes_without_a_worker() {
    let mut session = AnalysisSession::new(CacheConfig::default());

    assert!(!session.submit("a.rs", "h1", "m1", None));
    session.complete("a.rs", "h1", "m1", None, Function::new(1));

    // The same body submitted again is answered from the cache: the job is
    // completed at submission and nothing is pending.
    let hit = session.submit("b.rs", "h1", "m1", None);
    assert!(hit);
    assert_eq!(session.pending(), 0);

    let (output, stats) = session.finish();
    let total: usize = output.0.iter().map(|e| e.1.items.len()).sum();
    assert_eq!(total, 2, "the cached record lands in the other file too");
    assert_eq!(stats.hits, 1);
    assert_eq!(stats.misses, 1);
}

#[test]
fn session_abandons_lost_jobs_and_keeps_the_rest() {
    let mut session = AnalysisSession::new(CacheConfig::default());
    assert!(!session.submit("a.rs", "h1", "m1", None));
    assert!(!session.submit("a.rs", "h2", "m2", None));
    session.complete("a.rs", "h1", "m1", None, Function::new(1));
    // The second job's worker failed: its result is omitted, the first
    // survives.
    session.abandon();
    assert_eq!(session.pending(), 0);
    let (output, _) = session.finish();
    let total: usize = output.0.iter().map(|e| e.1.items.len()).sum();
    assert_eq!(total, 1);
}
