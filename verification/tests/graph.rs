//! The dependency graph.

use std::time::{Duration, Instant};
use zccache::context::{
    compute_artifact_key, compute_context_key, CompileContext, FileFact, IncludeSearchPaths, ParsedArgs, UserDepFlags,
};
use zccache::graph::checks::CacheVerdict;
use zccache::graph::{
    ContextEntry, ContextState, DepGraph, IncludeDirective, IncludeKind, ScanResult,
};
use zccache::hash::{hash_bytes, ContentHash, ContextKey};
use zccache::path::{NormalizedPath, PathStyle};

const UNIX: PathStyle = PathStyle::Unix;

/// Lets five milliseconds pass.
fn wait() {
    let start = Instant::now();
    while start.elapsed() < Duration::from_millis(5) {}
}

fn path(text: &str) -> NormalizedPath {
    NormalizedPath::new(UNIX, text)
}

fn make_ctx(source: &str) -> CompileContext {
    CompileContext {
        source_file: path(source),
        include_search: IncludeSearchPaths::default(),
        defines: Vec::new(),
        flags: Vec::new(),
        force_includes: Vec::new(),
        unknown_flags: Vec::new(),
    }
}

fn key_of(ctx: &CompileContext) -> ContextKey {
    compute_context_key(UNIX, ctx, None, None)
}

fn dummy_hash(text: &str) -> Option<ContentHash> {
    Some(hash_bytes(text.as_bytes()))
}

fn fact(text: &str, fresh: bool, hash: Option<ContentHash>) -> FileFact {
    FileFact {
        path: path(text),
        fresh,
        hash,
    }
}

/// Facts about every file the tests name, each with the hash of its own path.
fn facts(fresh: bool) -> Vec<FileFact> {
    [
        "/src/a.c",
        "/src/b.c",
        "/src/stale.c",
        "/src/keep.c",
        "/src/pch.h",
        "/inc/a.h",
        "/inc/b.h",
        "/inc/c.h",
        "/inc/stale.h",
        "/inc/known.h",
        "/inc/macro_resolved.h",
        "/h.h",
        "/pch/precompiled.h",
    ]
    .iter()
    .map(|p| fact(p, fresh, dummy_hash(p)))
    .collect()
}

/// The same facts, but `changed` is not vouched for and has other contents.
fn facts_with_change(changed: &str, contents: &[u8], others_fresh: bool) -> Vec<FileFact> {
    facts(others_fresh)
        .into_iter()
        .map(|f| {
            if f.path.as_str() == changed {
                fact(changed, false, Some(hash_bytes(contents)))
            } else {
                f
            }
        })
        .collect()
}

fn scan_of(resolved: &[&str], has_computed: bool) -> ScanResult {
    ScanResult {
        resolved: resolved.iter().map(|p| path(p)).collect(),
        unresolved: Vec::new(),
        has_computed,
    }
}

fn directive(name: &str) -> IncludeDirective {
    IncludeDirective {
        kind: IncludeKind::Quoted,
        path: name.to_string(),
        line: 1,
    }
}

fn has_artifact(graph: &DepGraph, key: &ContextKey) -> bool {
    graph.get_context(key).unwrap().artifact_key.is_some()
}

#[test]
fn register_returns_consistent_key() {
    let mut graph = DepGraph::new(UNIX);
    let ctx = make_ctx("/src/a.c");
    let k1 = graph.register(ctx.clone());
    let k2 = graph.register(ctx);
    assert_eq!(k1, k2);
}

#[test]
fn cold_context_returns_cold() {
    let mut graph = DepGraph::new(UNIX);
    let key = graph.register(make_ctx("/src/a.c"));
    let verdict = graph.check(&key, &facts(true));
    assert!(matches!(verdict, CacheVerdict::Cold));
}

#[test]
fn unregistered_key_returns_cold() {
    let mut graph = DepGraph::new(UNIX);
    let ctx = make_ctx("/src/a.c");
    let key = key_of(&ctx);
    let verdict = graph.check(&key, &facts(true));
    assert!(matches!(verdict, CacheVerdict::Cold));
}

#[test]
fn warm_context_all_fresh_returns_hit() {
    let mut graph = DepGraph::new(UNIX);
    let key = graph.register(make_ctx("/src/a.c"));
    graph.update(&key, scan_of(&["/inc/b.h"], false), &facts(true));
    let verdict = graph.check(&key, &facts(true));
    assert!(matches!(verdict, CacheVerdict::Hit { .. }));
}

#[test]
fn invalidate_artifact_keys_clears_only_matching() {
    let mut graph = DepGraph::new(UNIX);
    let key_a = graph.register(make_ctx("/src/a.c"));
    let key_b = graph.register(make_ctx("/src/b.c"));
    let art_a = graph
        .update(&key_a, scan_of(&["/inc/a.h"], false), &facts(true))
        .expect("a artifact");
    let art_b = graph
        .update(&key_b, scan_of(&["/inc/b.h"], false), &facts(true))
        .expect("b artifact");
    let hex_a = art_a.hash().to_hex().to_string();
    let hex_b = art_b.hash().to_hex().to_string();
    assert!(has_artifact(&graph, &key_a));
    assert!(has_artifact(&graph, &key_b));

    let evicted = vec![hex_a.clone()];
    let cleared = graph.invalidate_artifact_keys(&evicted);
    assert_eq!(cleared, 1, "exactly one context should have been cleared");

    assert!(!has_artifact(&graph, &key_a));
    let surviving = graph.get_context(&key_b).unwrap();
    assert_eq!(
        surviving
            .artifact_key
            .as_ref()
            .map(|k| k.hash().to_hex().to_string()),
        Some(hex_b),
    );

    assert_eq!(graph.invalidate_artifact_keys(&[]), 0);
    assert_eq!(graph.invalidate_artifact_keys(&evicted), 0);
}

#[test]
fn invalidated_artifact_key_does_not_recreate_hit() {
    let mut graph = DepGraph::new(UNIX);
    let key = graph.register(make_ctx("/src/stale.c"));
    let artifact = graph
        .update(&key, scan_of(&["/inc/stale.h"], false), &facts(true))
        .expect("artifact key");

    let first = graph.check(&key, &facts(true));
    assert!(matches!(first, CacheVerdict::Hit { .. }));

    let evicted = vec![artifact.hash().to_hex().to_string()];
    assert_eq!(graph.invalidate_artifact_keys(&evicted), 1);

    let after_invalidate = graph.check(&key, &facts(true));
    assert!(!matches!(after_invalidate, CacheVerdict::Hit { .. }));

    graph
        .update(&key, scan_of(&["/inc/stale.h"], false), &facts(true))
        .expect("restored artifact");
    let after_update = graph.check(&key, &facts(true));
    assert!(matches!(after_update, CacheVerdict::Hit { .. }));
}

#[test]
fn invalidation_does_not_prolong_a_context() {
    let mut graph = DepGraph::new(UNIX);
    let ctx = make_ctx("/src/a.c");
    let key = key_of(&ctx);
    graph.register_with_key_at(&key, ctx, None, 10);
    let artifact = graph
        .update_at(&key, scan_of(&[], false), &facts(true), 20)
        .unwrap();
    graph.invalidate_artifact_keys(&[artifact.hash().to_hex().to_string()]);
    assert_eq!(graph.get_context(&key).unwrap().last_accessed, 20);
    assert_eq!(graph.trim_at(31, 10), 1);
}

#[test]
fn rustc_extern_artifact_key_ignores_target_dir_path_shape() {
    let mut graph = DepGraph::new(UNIX);
    let ctx = make_ctx("/src/app.rs");
    let key = key_of(&ctx);
    let source_hash = hash_bytes(b"app");
    let extern_hash = hash_bytes(b"dep-v1");
    let extern_a = "/target-main/libdep.rlib";
    let extern_b = "/target-subagent/libdep.rlib";

    graph.register_rustc_with_key_and_root_result(
        &key,
        ctx.clone(),
        None,
        vec![("dep".to_string(), path(extern_a))],
    );
    let first_key = graph
        .update(
            &key,
            scan_of(&[], false),
            &[
                fact("/src/app.rs", true, Some(source_hash.clone())),
                fact(extern_a, true, Some(extern_hash.clone())),
            ],
        )
        .expect("rustc artifact key should be computed");

    graph.register_rustc_with_key_and_root_result(
        &key,
        ctx,
        None,
        vec![("dep".to_string(), path(extern_b))],
    );
    let verdict = graph.check(
        &key,
        &[
            fact("/src/app.rs", true, Some(source_hash.clone())),
            fact(extern_b, true, Some(extern_hash)),
        ],
    );
    match verdict {
        CacheVerdict::Hit { artifact_key } => assert_eq!(artifact_key, first_key),
        other => panic!("expected rustc extern path-shape hit, got {other:?}"),
    }

    // With other contents the same crate is another input.
    let verdict = graph.check(
        &key,
        &[
            fact("/src/app.rs", true, Some(source_hash)),
            fact(extern_b, true, Some(hash_bytes(b"dep-v2"))),
        ],
    );
    match verdict {
        CacheVerdict::HeadersChanged { changed } => assert_eq!(changed, vec![path(extern_b)]),
        other => panic!("expected HeadersChanged, got {other:?}"),
    }
}

#[test]
fn warm_context_source_changed_returns_source_changed() {
    let mut graph = DepGraph::new(UNIX);
    let key = graph.register(make_ctx("/src/a.c"));
    graph.update(&key, scan_of(&["/inc/b.h"], false), &facts(true));
    let verdict = graph.check(
        &key,
        &facts_with_change("/src/a.c", b"source-modified", true),
    );
    match verdict {
        CacheVerdict::SourceChanged { source } => assert_eq!(source, path("/src/a.c")),
        other => panic!("expected SourceChanged, got {other:?}"),
    }
}

#[test]
fn warm_context_header_changed_returns_headers_changed() {
    let mut graph = DepGraph::new(UNIX);
    let key = graph.register(make_ctx("/src/a.c"));
    graph.update(
        &key,
        scan_of(&["/inc/b.h", "/inc/c.h"], false),
        &facts(true),
    );
    let verdict = graph.check(&key, &facts_with_change("/inc/b.h", b"b-modified", true));
    match verdict {
        CacheVerdict::HeadersChanged { changed } => {
            assert_eq!(changed, vec![path("/inc/b.h")]);
        }
        other => panic!("expected HeadersChanged, got {other:?}"),
    }
}

#[test]
fn warm_context_header_stale_by_watcher_but_hash_unchanged_returns_hit() {
    let mut graph = DepGraph::new(UNIX);
    let key = graph.register(make_ctx("/src/a.c"));
    graph.update(&key, scan_of(&["/inc/b.h"], false), &facts(true));
    let verdict = graph.check(&key, &facts(false));
    assert!(matches!(verdict, CacheVerdict::Hit { .. }));
}

#[test]
fn computed_includes_returns_needs_preprocessor() {
    let mut graph = DepGraph::new(UNIX);
    let key = graph.register(make_ctx("/src/a.c"));
    graph.update(&key, scan_of(&["/inc/b.h"], true), &facts(true));
    let verdict = graph.check(&key, &facts(true));
    assert!(matches!(verdict, CacheVerdict::NeedsPreprocessor));
}

#[test]
fn show_includes_enables_cache_hit_after_computed() {
    let mut graph = DepGraph::new(UNIX);
    let key = graph.register(make_ctx("/src/a.c"));
    graph.update(&key, scan_of(&["/inc/known.h"], true), &facts(true));
    let verdict = graph.check(&key, &facts(true));
    assert!(matches!(verdict, CacheVerdict::NeedsPreprocessor));

    graph.update(
        &key,
        scan_of(&["/inc/known.h", "/inc/macro_resolved.h"], false),
        &facts(true),
    );
    let answer = graph.check(&key, &facts(true));
    assert!(
        matches!(answer, CacheVerdict::Hit { .. }),
        "expected Hit after /showIncludes update, got {answer:?}"
    );
}

#[test]
fn update_sets_warm_state() {
    let mut graph = DepGraph::new(UNIX);
    let key = graph.register(make_ctx("/src/a.c"));
    assert_eq!(graph.get_state(&key), Some(ContextState::Cold));
    graph.update(&key, scan_of(&[], false), &facts(true));
    assert_eq!(graph.get_state(&key), Some(ContextState::Warm));
}

#[test]
fn header_change_sets_stale_state() {
    let mut graph = DepGraph::new(UNIX);
    let key = graph.register(make_ctx("/src/a.c"));
    graph.update(&key, scan_of(&["/h.h"], false), &facts(true));
    assert_eq!(graph.get_state(&key), Some(ContextState::Warm));
    graph.check(&key, &facts_with_change("/h.h", b"h-modified", false));
    assert_eq!(graph.get_state(&key), Some(ContextState::Stale));
}

#[test]
fn trim_removes_old_entries() {
    let mut graph = DepGraph::new(UNIX);
    let key = graph.register(make_ctx("/src/a.c"));
    graph.update(&key, scan_of(&[], false), &facts(true));
    wait();
    let removed = graph.trim(0);
    assert_eq!(removed, 1);
    assert_eq!(graph.stats().context_count, 0);
}

#[test]
fn trim_keeps_recent_entries() {
    let mut graph = DepGraph::new(UNIX);
    graph.register(make_ctx("/src/a.c"));
    let removed = graph.trim(60_000_000_000);
    assert_eq!(removed, 0);
    assert_eq!(graph.stats().context_count, 1);
}

#[test]
fn trim_age_is_counted_exactly() {
    let mut graph = DepGraph::new(UNIX);
    let ctx = make_ctx("/src/a.c");
    let key = key_of(&ctx);
    graph.register_with_key_at(&key, ctx, None, 100);
    // Not later than the entry, and not older than the limit.
    assert_eq!(graph.trim_at(50, 0), 0);
    assert_eq!(graph.trim_at(100, 0), 0);
    assert_eq!(graph.trim_at(110, 10), 0);
    assert_eq!(graph.trim_at(111, 10), 1);
    assert_eq!(graph.trim_at(111, 10), 0);
}

fn register_at(graph: &mut DepGraph, source: &str, now: u128) -> ContextKey {
    let ctx = make_ctx(source);
    let key = key_of(&ctx);
    graph.register_with_key_at(&key, ctx, None, now);
    key
}

#[test]
fn trim_oldest_removes_least_recently_accessed_first() {
    let mut graph = DepGraph::new(UNIX);
    let old_a = graph.register(make_ctx("/src/old_a.c"));
    let old_b = graph.register(make_ctx("/src/old_b.c"));
    wait();
    let recent_a = graph.register(make_ctx("/src/recent_a.c"));
    let recent_b = graph.register(make_ctx("/src/recent_b.c"));

    assert_eq!(graph.trim_oldest(2), 2);
    assert_eq!(graph.stats().context_count, 2);
    assert!(graph.get_state(&old_a).is_none());
    assert!(graph.get_state(&old_b).is_none());
    assert!(graph.get_state(&recent_a).is_some());
    assert!(graph.get_state(&recent_b).is_some());
}

#[test]
fn trim_oldest_removes_at_most_count() {
    let mut graph = DepGraph::new(UNIX);
    for i in 0..10 {
        graph.register(make_ctx(&format!("/src/n{i}.c")));
    }
    assert_eq!(graph.trim_oldest(0), 0);
    assert_eq!(graph.stats().context_count, 10);
    assert_eq!(graph.trim_oldest(3), 3);
    assert_eq!(graph.stats().context_count, 7);
    assert_eq!(graph.trim_oldest(100), 7);
    assert_eq!(graph.stats().context_count, 0);
}

#[test]
fn trim_oldest_leaves_survivors_hittable() {
    let mut graph = DepGraph::new(UNIX);
    let stale = graph.register(make_ctx("/src/stale.c"));
    wait();
    let keep = graph.register(make_ctx("/src/keep.c"));
    let artifact_key = graph
        .update(&keep, scan_of(&[], false), &facts(true))
        .expect("context is warm");

    assert_eq!(graph.trim_oldest(1), 1);
    assert!(graph.get_state(&stale).is_none());
    assert!(!graph.is_cold(&keep));
    assert_eq!(graph.try_fast_hit(&keep, &facts(true)), Some(artifact_key));
}

#[test]
fn trimming_leaves_no_orphans() {
    let mut graph = DepGraph::new(UNIX);
    let gone = register_at(&mut graph, "/src/gone.c", 1);
    let kept = register_at(&mut graph, "/src/kept.c", 100);
    for key in [&gone, &kept] {
        graph.set_rustc_env_deps(key.clone(), vec![("HOME".to_string(), None)]);
    }
    graph.store_file_includes_at(path("/src/gone.c"), vec![directive("x.h")], 1);
    graph.store_file_includes_at(path("/src/kept.c"), vec![directive("y.h")], 1);
    assert_eq!(graph.trim_at(101, 50), 1);
    assert!(graph.get_rustc_env_deps(&gone).is_none());
    assert!(graph.get_rustc_env_deps(&kept).is_some());
    assert!(graph.get_file_includes(&path("/src/gone.c")).is_none());
    assert!(graph.get_file_includes(&path("/src/kept.c")).is_some());
}

#[test]
fn stats_track_checks_and_hits() {
    let mut graph = DepGraph::new(UNIX);
    let key = graph.register(make_ctx("/src/a.c"));
    graph.update(&key, scan_of(&[], false), &facts(true));
    graph.check(&key, &facts(true));
    graph.check(&key, &facts(true));
    let stats = graph.stats();
    assert_eq!(stats.checks, 2);
    assert_eq!(stats.hits, 2);
    assert_eq!(stats.misses, 0);
    assert_eq!(stats.context_count, 1);
}

#[test]
fn artifact_key_changes_when_hash_changes() {
    let mut graph = DepGraph::new(UNIX);
    let key = graph.register(make_ctx("/src/a.c"));
    let ak1 = graph
        .update(
            &key,
            scan_of(&[], false),
            &[fact("/src/a.c", true, Some(hash_bytes(b"v1")))],
        )
        .unwrap();
    let ak2 = graph
        .update(
            &key,
            scan_of(&[], false),
            &[fact("/src/a.c", true, Some(hash_bytes(b"v2")))],
        )
        .unwrap();
    assert_ne!(ak1, ak2);
}

#[test]
fn store_and_get_file_includes() {
    let mut graph = DepGraph::new(UNIX);
    let header = path("/src/foo.h");
    graph.store_file_includes(header.clone(), vec![directive("bar.h")]);
    let retrieved = graph.get_file_includes(&header).unwrap();
    assert_eq!(retrieved.len(), 1);
    assert_eq!(retrieved[0].path, "bar.h");
}

#[test]
fn concurrent_register_and_check() {
    let mut graph = DepGraph::new(UNIX);
    for i in 0..50 {
        for t in 0..4 {
            let source = format!("/src/t{t}_f{i}.c");
            let header = format!("/inc/t{t}_h{i}.h");
            let known = [
                fact(&source, true, dummy_hash(&source)),
                fact(&header, true, dummy_hash(&header)),
            ];
            let key = graph.register(make_ctx(&source));
            graph.update(&key, scan_of(&[header.as_str()], false), &known);
            graph.check(&key, &known);
        }
    }
    let stats = graph.stats();
    assert_eq!(stats.context_count, 200);
    assert_eq!(stats.checks, 200);
    assert_eq!(stats.hits, 200);
}

fn parsed(source: &str, user: &[&str], system: &[&str], defines: &[&str], flags: &[&str]) -> ParsedArgs {
    ParsedArgs {
        source_file: path(source),
        include_search: IncludeSearchPaths {
            user: user.iter().map(|p| path(p)).collect(),
            system: system.iter().map(|p| path(p)).collect(),
        },
        defines: defines.iter().map(|d| d.to_string()).collect(),
        flags: flags.iter().map(|f| f.to_string()).collect(),
        force_includes: Vec::new(),
        unknown_flags: Vec::new(),
        dep_flags: UserDepFlags { flags: Vec::new() },
    }
}

#[test]
fn ingest_compile_commands_registers_contexts() {
    let commands = vec![
        parsed(
            "/project/src/main.cpp",
            &["/project/include"],
            &[],
            &["-DNDEBUG"],
            &["-std=c++17"],
        ),
        parsed(
            "/project/src/util.cpp",
            &["/project/include"],
            &[],
            &["-DNDEBUG"],
            &["-std=c++17"],
        ),
    ];
    let mut graph = DepGraph::new(UNIX);
    let keys = graph.ingest_compile_commands(commands, &[path("/usr/include")]);
    assert_eq!(keys.len(), 2);
    assert_eq!(graph.stats().context_count, 2);
    for key in &keys {
        assert_eq!(graph.get_state(key), Some(ContextState::Cold));
    }
}

#[test]
fn ingest_merges_system_includes() {
    let command = || vec![parsed("/src/main.cpp", &[], &["/explicit/system"], &[], &[])];
    let mut graph = DepGraph::new(UNIX);
    let keys = graph.ingest_compile_commands(command(), &[path("/usr/include")]);
    assert_eq!(keys.len(), 1);
    let keys_no_sys = graph.ingest_compile_commands(command(), &[]);
    assert_ne!(keys[0], keys_no_sys[0]);
    let search = &graph.get_context(&keys[0]).unwrap().context.include_search;
    assert_eq!(
        search.system,
        vec![path("/explicit/system"), path("/usr/include")]
    );
}

#[test]
fn ingest_deduplicates_system_includes() {
    let commands = vec![parsed("/src/main.cpp", &[], &["/usr/include"], &[], &[])];
    let mut graph = DepGraph::new(UNIX);
    let keys = graph.ingest_compile_commands(commands, &[path("/usr/include")]);
    assert_eq!(keys.len(), 1);
    let search = &graph.get_context(&keys[0]).unwrap().context.include_search;
    assert_eq!(search.system, vec![path("/usr/include")]);
}

#[test]
fn clear_resets_everything() {
    let mut graph = DepGraph::new(UNIX);
    let key = graph.register(make_ctx("/src/a.c"));
    graph.update(&key, scan_of(&["/inc/b.h"], false), &facts(true));
    graph.check(&key, &facts(true));

    let stats_before = graph.stats();
    assert!(stats_before.context_count > 0);
    assert!(stats_before.checks > 0);
    assert!(stats_before.hits > 0);

    graph.clear();

    let stats_after = graph.stats();
    assert_eq!(stats_after.context_count, 0);
    assert_eq!(stats_after.file_count, 0);
    assert_eq!(stats_after.checks, 0);
    assert_eq!(stats_after.hits, 0);
    assert_eq!(stats_after.misses, 0);
}

#[test]
fn mark_stale_changes_state() {
    let mut graph = DepGraph::new(UNIX);
    let key = graph.register(make_ctx("/src/a.c"));
    graph.update(&key, scan_of(&[], false), &facts(true));
    assert_eq!(graph.get_state(&key), Some(ContextState::Warm));
    assert!(graph.mark_stale(&key));
    assert_eq!(graph.get_state(&key), Some(ContextState::Stale));
    assert!(!graph.mark_stale(&key_of(&make_ctx("/src/none.c"))));
}

#[test]
fn update_with_hash_failure_stays_cold() {
    let mut graph = DepGraph::new(UNIX);
    let key = graph.register(make_ctx("/src/a.c"));
    assert_eq!(graph.get_state(&key), Some(ContextState::Cold));
    let result = graph.update(
        &key,
        scan_of(&["/inc/b.h"], false),
        &[
            fact("/src/a.c", true, None),
            fact("/inc/b.h", true, None),
        ],
    );
    assert!(result.is_none());
    assert_eq!(graph.get_state(&key), Some(ContextState::Cold));
}

#[test]
fn update_partial_hash_failure_stays_cold() {
    let mut graph = DepGraph::new(UNIX);
    let key = graph.register(make_ctx("/src/a.c"));
    let known: Vec<FileFact> = facts(true)
        .into_iter()
        .map(|f| {
            if f.path.as_str() == "/inc/b.h" {
                fact("/inc/b.h", true, None)
            } else {
                f
            }
        })
        .collect();
    let result = graph.update(
        &key,
        scan_of(&["/inc/a.h", "/inc/b.h", "/inc/c.h"], false),
        &known,
    );
    assert!(result.is_none());
    assert_eq!(graph.get_state(&key), Some(ContextState::Cold));
}

#[test]
fn update_success_transitions_to_warm() {
    let mut graph = DepGraph::new(UNIX);
    let key = graph.register(make_ctx("/src/a.c"));
    assert_eq!(graph.get_state(&key), Some(ContextState::Cold));
    let result = graph.update(&key, scan_of(&["/inc/b.h"], false), &facts(true));
    assert!(result.is_some());
    assert_eq!(graph.get_state(&key), Some(ContextState::Warm));
}

#[test]
fn pch_gen_context_hit_after_update() {
    let mut graph = DepGraph::new(UNIX);
    let key = graph.register(make_ctx("/src/pch.h"));
    graph.update(
        &key,
        scan_of(&["/inc/a.h", "/inc/b.h"], false),
        &facts(true),
    );
    let answer = graph.check(&key, &facts(true));
    assert!(
        matches!(answer, CacheVerdict::Hit { .. }),
        "expected Hit after update, got {answer:?}"
    );
}

#[test]
fn warm_context_with_no_artifact_returns_cold_on_check() {
    let mut graph = DepGraph::new(UNIX);
    let ctx = make_ctx("/src/a.c");
    let key = key_of(&ctx);
    graph.insert_context(
        &key,
        ContextEntry {
            context: ctx,
            key_root: None,
            resolved_includes: vec![path("/inc/b.h")],
            unresolved_includes: Vec::new(),
            has_computed_includes: false,
            artifact_key: None,
            last_file_hashes: Vec::new(),
            last_accessed: 0,
            state: ContextState::Warm,
        },
    );
    let answer = graph.check(&key, &facts(true));
    assert!(
        matches!(answer, CacheVerdict::Cold),
        "warm context without artifact metadata should be cold, got {answer:?}"
    );
}

#[test]
fn trim_preserves_force_include_files() {
    let mut graph = DepGraph::new(UNIX);
    let mut ctx = make_ctx("/src/a.c");
    ctx.force_includes = vec![path("/pch/precompiled.h")];
    let key = graph.register(ctx);
    graph.update(&key, scan_of(&["/inc/b.h"], false), &facts(true));

    graph.store_file_includes(path("/pch/precompiled.h"), vec![directive("stdafx.h")]);
    graph.store_file_includes(path("/inc/b.h"), vec![directive("stdafx.h")]);
    graph.store_file_includes(path("/stale/old.h"), vec![directive("gone.h")]);
    assert_eq!(graph.stats().file_count, 3);

    let removed = graph.trim(3_600_000_000_000);
    assert_eq!(removed, 0);

    assert!(graph
        .get_file_includes(&path("/pch/precompiled.h"))
        .is_some());
    assert!(graph.get_file_includes(&path("/inc/b.h")).is_some());
    assert!(graph.get_file_includes(&path("/stale/old.h")).is_none());
    assert_eq!(graph.stats().file_count, 2);
}

#[test]
fn cached_normalize_key_path_returns_same_bytes_on_repeated_lookups() {
    let graph = DepGraph::new(UNIX);
    let header = "/usr/include/c++/13/iostream";
    let first = graph.cached_normalize_key_path(header, None);
    let second = graph.cached_normalize_key_path(header, None);
    assert_eq!(
        &*first, &*second,
        "repeated lookups must return byte-identical normalized form",
    );
    assert_eq!(&*first, "/usr/include/c++/13/iostream");
}

#[test]
fn cached_normalize_key_path_distinguishes_by_key_root() {
    let graph = DepGraph::new(UNIX);
    let header = "/workspace/include/foo.h";
    let no_root = graph.cached_normalize_key_path(header, None);
    let workspace_root = graph.cached_normalize_key_path(header, Some("/workspace"));
    assert_ne!(
        &*no_root, &*workspace_root,
        "absolute path and project-relative path must differ",
    );
    assert_eq!(workspace_root, "include/foo.h");
}

fn search_ctx() -> CompileContext {
    CompileContext {
        source_file: path("/proj/src/unit.cpp"),
        include_search: IncludeSearchPaths {
            user: vec![path("/proj/include")],
            system: vec![path("/usr/include"), path("/usr/include/c++/13")],
        },
        defines: vec!["-DFOO=1".to_string()],
        flags: vec!["-O2".to_string()],
        force_includes: vec![path("/proj/include/prefix.h")],
        unknown_flags: Vec::new(),
    }
}

#[test]
fn register_context_produces_deterministic_key() {
    let mut graph = DepGraph::new(UNIX);
    let ctx = search_ctx();
    let first = graph.register_with_root_and_salt_result(ctx.clone(), None, None);
    let second = graph.register_with_root_and_salt_result(ctx, None, None);
    assert_eq!(
        first.key, second.key,
        "context_key must be deterministic across repeated registers",
    );
    assert!(!first.known);
    assert!(second.known);
}

#[test]
fn cached_context_key_matches_uncached_for_identical_inputs() {
    let mut ctx = search_ctx();
    ctx.include_search.system = vec![path("/usr/include")];
    let uncached = compute_context_key(UNIX, &ctx, None, None);
    let mut graph = DepGraph::new(UNIX);
    let cached = graph.register_with_root_and_salt_result(ctx, None, None).key;
    assert_eq!(uncached, cached);
}

#[test]
fn context_key_depends_on_root_and_salt() {
    let ctx = search_ctx();
    let plain = compute_context_key(UNIX, &ctx, None, None);
    let rooted = compute_context_key(UNIX, &ctx, Some("/proj"), None);
    let salted = compute_context_key(UNIX, &ctx, None, Some("worktree"));
    assert_ne!(plain, rooted);
    assert_ne!(plain, salted);
    assert_eq!(plain.hash().to_hex().len(), 64);
}

#[test]
fn state_breakdown_counts_each_state() {
    let mut graph = DepGraph::new(UNIX);
    let a = graph.register(make_ctx("/src/a.c"));
    let b = graph.register(make_ctx("/src/b.c"));
    graph.register(make_ctx("/src/keep.c"));
    assert_eq!(graph.state_breakdown(), (3, 0, 0));
    graph.update(&a, scan_of(&[], false), &facts(true));
    graph.update(&b, scan_of(&[], false), &facts(true));
    graph.mark_stale(&b);
    assert_eq!(graph.state_breakdown(), (1, 1, 1));
    assert_eq!(graph.contexts_with_artifact_key(), 2);
    assert_eq!(graph.contexts_iter().len(), 3);
    assert_eq!(graph.files_iter().len(), 0);
}

#[test]
fn env_deps_and_externs_are_stored_and_removed() {
    let mut graph = DepGraph::new(UNIX);
    let ctx = make_ctx("/src/lib.rs");
    let key = key_of(&ctx);
    let externs = vec![("dep".to_string(), path("/target/libdep.rlib"))];
    assert!(!graph.register_rustc_with_key_and_root_result(&key, ctx.clone(), None, externs.clone()));
    assert_eq!(graph.get_rustc_externs(&key), Some(externs));
    assert!(graph.register_rustc_with_key_and_root_result(&key, ctx, None, Vec::new()));
    assert_eq!(graph.get_rustc_externs(&key), None);

    let deps = vec![
        ("HOME".to_string(), Some(hash_bytes(b"/home"))),
        ("UNSET".to_string(), None),
    ];
    graph.set_rustc_env_deps(key.clone(), deps.clone());
    assert_eq!(graph.get_rustc_env_deps(&key), Some(deps));
    graph.set_rustc_env_deps(key.clone(), Vec::new());
    assert_eq!(graph.get_rustc_env_deps(&key), None);
}

#[test]
fn get_includes_gives_the_last_scan() {
    let mut graph = DepGraph::new(UNIX);
    let key = graph.register(make_ctx("/src/a.c"));
    assert_eq!(graph.get_includes(&key), Some(Vec::new()));
    graph.update(&key, scan_of(&["/inc/b.h"], false), &facts(true));
    assert_eq!(graph.get_includes(&key), Some(vec![path("/inc/b.h")]));
    assert_eq!(graph.get_includes(&key_of(&make_ctx("/none.c"))), None);
}

#[test]
fn hash_is_blake3_in_hexadecimal() {
    assert_eq!(
        hash_bytes(b"").to_hex(),
        "af1349b9f5f9a1a6a0404dea36dcc9499bcb25c9adc112b7cc9a93cae41f3262"
    );
    assert_ne!(hash_bytes(b"a").to_hex(), "a");
}

#[test]
fn artifact_key_forgets_the_order_of_files() {
    let key = key_of(&make_ctx("/src/a.c"));
    let a = (path("/p/a.h"), hash_bytes(b"a"));
    let b = (path("/p/b.h"), hash_bytes(b"b"));
    let ab = compute_artifact_key(UNIX, &key, &[a.clone(), b.clone()], Some("/p"));
    let ba = compute_artifact_key(UNIX, &key, &[b.clone(), a.clone()], Some("/p"));
    assert_eq!(ab, ba);
    assert_ne!(ab, compute_artifact_key(UNIX, &key, &[a, b], None));
}

#[test]
fn registering_again_keeps_what_is_known() {
    let mut graph = DepGraph::new(UNIX);
    let ctx = make_ctx("/src/a.c");
    let key = graph.register(ctx.clone());
    graph.update(&key, scan_of(&["/inc/b.h"], false), &facts(true));
    assert_eq!(graph.register(ctx), key);
    assert_eq!(graph.get_state(&key), Some(ContextState::Warm));
    assert!(matches!(
        graph.check(&key, &facts(true)),
        CacheVerdict::Hit { .. }
    ));
}

#[test]
fn a_file_that_cannot_be_read_has_changed_unless_vouched_for() {
    let mut graph = DepGraph::new(UNIX);
    let key = graph.register(make_ctx("/src/a.c"));
    graph.update(&key, scan_of(&["/inc/b.h"], false), &facts(true));
    let unread = |fresh: bool| {
        vec![
            fact("/src/a.c", true, None),
            fact("/inc/b.h", fresh, None),
        ]
    };
    assert!(matches!(
        graph.check(&key, &unread(true)),
        CacheVerdict::Hit { .. }
    ));
    assert!(matches!(
        graph.check(&key, &unread(false)),
        CacheVerdict::HeadersChanged { .. }
    ));
    let stats = graph.stats();
    assert_eq!((stats.checks, stats.hits, stats.misses), (2, 1, 1));
}
