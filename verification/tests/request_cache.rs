//! The request cache.

use zccache::clock::Stopwatch;
use zccache::context::{
    compute_artifact_key, compute_context_key, CompileContext, FileFact, IncludeSearchPaths,
};
use zccache::fscache::CacheSystem;
use zccache::graph::{DepGraph, ScanResult};
use zccache::hash::{hash_bytes, ContextKey};
use zccache::path::{NormalizedPath, PathStyle};
use zccache::request_cache::{
    request_cache_artifact_matches, request_cache_check, request_cache_entry,
    request_cache_entry_at, request_cache_entry_matches_root, request_cache_input_paths,
    request_cache_resolved_inputs, request_cache_settle, request_validation_key, strict_paths_mode_from_client_env,
    CachedRequestPath, RequestCacheEntry, RequestCheck, RequestValidationEntry,
};
use zccache::table::Table;

const UNIX: PathStyle = PathStyle::Unix;
const WINDOWS: PathStyle = PathStyle::Windows;

fn path(text: &str) -> NormalizedPath {
    NormalizedPath::new(UNIX, text)
}

fn context(source: &str) -> CompileContext {
    CompileContext {
        source_file: path(source),
        include_search: IncludeSearchPaths::default(),
        defines: Vec::new(),
        flags: Vec::new(),
        force_includes: Vec::new(),
        unknown_flags: Vec::new(),
    }
}

fn key() -> ContextKey {
    compute_context_key(UNIX, &context("/a/src/x.c"), Some("/a"), None)
}

fn entry(depfile: Option<&str>, input: &str, root: Option<&str>, bound: bool) -> RequestCacheEntry {
    let depfile = depfile.map(path);
    let root = root.map(path);
    request_cache_entry_at(
        UNIX,
        key(),
        &path("/a/src/x.c"),
        &path("/a/x.o"),
        depfile.as_ref(),
        &[path("/a/src/x.c"), path(input)],
        root.as_ref(),
        bound,
        5,
    )
}

#[test]
fn captured_paths_move_with_the_root() {
    let kept = CachedRequestPath::capture(UNIX, &path("/a/src/x.c"), Some(&path("/a")));
    assert!(kept.is_root_relative());
    assert_eq!(kept.resolve(UNIX, Some(&path("/a"))), path("/a/src/x.c"));
    assert_eq!(kept.resolve(UNIX, Some(&path("/b"))), path("/b/src/x.c"));
    let whole = CachedRequestPath::capture(UNIX, &path("/a"), Some(&path("/a")));
    assert_eq!(whole.resolve(UNIX, Some(&path("/a"))), path("/a"));
    let outside = CachedRequestPath::capture(UNIX, &path("/ab/x"), Some(&path("/a")));
    assert!(!outside.is_root_relative());
    assert_eq!(outside.resolve(UNIX, Some(&path("/b"))), path("/ab/x"));
    let rootless = CachedRequestPath::capture(UNIX, &path("/a/x"), None);
    assert!(!rootless.is_root_relative());
}

#[test]
fn captured_paths_come_back_under_their_root() {
    for (style, file, root) in [
        (UNIX, "src/x.c", "src"),
        (UNIX, "./x.c", "."),
        (UNIX, "x.c", ""),
        (WINDOWS, r"C:\w\x.c", r"C:\w"),
        (WINDOWS, r"C:w\x.c", "C:w"),
        (WINDOWS, r"C:\x.c", "C:"),
        (WINDOWS, r"\\server\share\w\x.c", r"\\server\share"),
    ] {
        let file = NormalizedPath::new(style, file);
        let root = NormalizedPath::new(style, root);
        let kept = CachedRequestPath::capture(style, &file, Some(&root));
        assert!(kept.is_root_relative());
        assert_eq!(kept.resolve(style, Some(&root)), file);
    }
    let lower = NormalizedPath::new(WINDOWS, r"c:\w");
    let kept = CachedRequestPath::capture(
        WINDOWS,
        &NormalizedPath::new(WINDOWS, r"C:\w\x.c"),
        Some(&lower),
    );
    assert_eq!(kept.resolve(WINDOWS, Some(&lower)).as_str(), "c:/w/x.c");
}

#[test]
fn shared_inputs_are_seen_from_either_root() {
    let shared = entry(Some("/a/x.d"), "/a/inc/h.h", Some("/a"), false);
    assert_eq!(
        request_cache_resolved_inputs(UNIX, &shared, &path("/a")),
        Some(vec![path("/a/src/x.c"), path("/a/inc/h.h")])
    );
    assert_eq!(
        request_cache_resolved_inputs(UNIX, &shared, &path("/b/c")),
        Some(vec![path("/b/c/src/x.c"), path("/b/c/inc/h.h")])
    );
}

#[test]
fn entries_are_shared_only_when_every_path_moves() {
    let root = |text: &str| path(text);
    let shared = entry(Some("/a/x.d"), "/a/inc/h.h", Some("/a"), false);
    assert!(shared.cross_root_shareable);
    assert!(request_cache_entry_matches_root(&shared, Some(&root("/a"))));
    assert!(request_cache_entry_matches_root(&shared, Some(&root("/b"))));
    assert!(!request_cache_entry_matches_root(&shared, None));
    assert_eq!(shared.cached_at, 5);

    for tied in [
        entry(Some("/a/x.d"), "/a/inc/h.h", Some("/a"), true),
        entry(Some("/elsewhere/x.d"), "/a/inc/h.h", Some("/a"), false),
        entry(None, "/usr/include/h.h", Some("/a"), false),
    ] {
        assert!(!tied.cross_root_shareable);
        assert!(request_cache_entry_matches_root(&tied, Some(&root("/a"))));
        assert!(!request_cache_entry_matches_root(&tied, Some(&root("/b"))));
        assert!(request_cache_resolved_inputs(UNIX, &tied, &root("/a")).is_none());
    }
    let rootless = entry(None, "/a/inc/h.h", None, false);
    assert!(!rootless.cross_root_shareable);
    assert!(request_cache_entry_matches_root(&rootless, None));
    assert!(!request_cache_entry_matches_root(&rootless, Some(&root("/a"))));
}

#[test]
fn entries_are_stamped_by_the_clock() {
    let clock = Stopwatch::start();
    let made = request_cache_entry(
        UNIX,
        key(),
        &path("/a/src/x.c"),
        &path("/a/x.o"),
        None,
        &[],
        Some(&path("/a")),
        false,
        &clock,
    );
    assert!(made.cross_root_shareable);
    assert!(made.cached_at <= clock.read());
}

#[test]
fn input_paths_are_sorted_and_unique() {
    let mut graph = DepGraph::new(UNIX);
    let ctx = context("/a/src/x.c");
    let key = compute_context_key(UNIX, &ctx, None, None);
    graph.register_rustc_with_key_and_root_result(
        &key,
        ctx,
        None,
        vec![("dep".to_string(), path("/a/target/libdep.rlib"))],
    );
    let facts: Vec<FileFact> = ["/a/src/x.c", "/a/b.h", "/a/a.h", "/a/target/libdep.rlib"]
        .iter()
        .map(|p| FileFact {
            path: path(p),
            fresh: true,
            hash: Some(hash_bytes(p.as_bytes())),
        })
        .collect();
    let scan = ScanResult {
        resolved: vec![path("/a/b.h"), path("/a/a.h"), path("/a/b.h")],
        unresolved: Vec::new(),
        has_computed: false,
    };
    graph.update(&key, scan, &facts).unwrap();
    assert_eq!(
        request_cache_input_paths(
            UNIX,
            &graph,
            &key,
            &path("/a/src/x.c"),
            &[path("/a/pre.h"), path("/a/a.h")]
        ),
        vec![
            path("/a/a.h"),
            path("/a/b.h"),
            path("/a/pre.h"),
            path("/a/src/x.c"),
            path("/a/target/libdep.rlib"),
        ]
    );
}

fn facts_under(root: &str, header: &[u8]) -> Vec<FileFact> {
    vec![
        FileFact {
            path: path(&format!("{root}/src/x.c")),
            fresh: true,
            hash: Some(hash_bytes(b"source")),
        },
        FileFact {
            path: path(&format!("{root}/inc/h.h")),
            fresh: true,
            hash: Some(hash_bytes(header)),
        },
    ]
}

fn expected_artifact() -> String {
    compute_artifact_key(
        UNIX,
        &key(),
        &[
            (path("/a/src/x.c"), hash_bytes(b"source")),
            (path("/a/inc/h.h"), hash_bytes(b"header")),
        ],
        Some("/a"),
    )
    .hash()
    .to_hex()
    .to_string()
}

#[test]
fn an_entry_holds_in_another_worktree_with_the_same_files() {
    let mut cache = CacheSystem::new();
    let mut validations: Table<RequestValidationEntry> = Table::new();
    let entry = entry(None, "/a/inc/h.h", Some("/a"), false);
    let fp = hash_bytes(b"request");
    let expected = expected_artifact();
    let root = path("/b");
    let clock = Stopwatch::start();
    // An hour, in nanoseconds: far longer than the test runs.
    let hour = 3_600_000_000_000;
    let mut holds = |cache: &mut CacheSystem, facts: &[FileFact], now: u128| {
        request_cache_artifact_matches(
            UNIX,
            cache,
            &mut validations,
            &entry,
            &fp,
            Some(&root),
            &expected,
            facts,
            now,
            hour,
            &clock,
        )
    };
    assert!(!holds(&mut cache, &facts_under("/b", b"other"), 10));
    assert!(holds(&mut cache, &facts_under("/b", b"header"), 10));
    // Found once, it holds without reading the files, until it is old or a file changes.
    assert!(holds(&mut cache, &[], hour));
    assert!(!holds(&mut cache, &[], 3 * hour));
    assert!(holds(&mut cache, &facts_under("/b", b"header"), 3 * hour));
    assert!(holds(&mut cache, &[], 200));
    cache.apply_changes(&[path("/b/inc/h.h")]);
    assert!(!holds(&mut cache, &[], 201));
}

#[test]
fn a_validation_holds_up_to_its_age() {
    let mut cache = CacheSystem::new();
    let mut validations: Table<RequestValidationEntry> = Table::new();
    let entry = entry(None, "/a/inc/h.h", Some("/a"), false);
    let fp = hash_bytes(b"request");
    let expected = expected_artifact();
    let root = path("/b");
    let inputs = request_cache_resolved_inputs(UNIX, &entry, &root).unwrap();
    cache.register_tracked(&inputs);
    assert!(request_cache_settle(
        UNIX,
        &mut validations,
        &entry,
        &fp,
        &root,
        &expected,
        &inputs,
        0,
        &facts_under("/b", b"header"),
        10,
    ));
    let mut valid = |now: u128, expected: &str| {
        let check = request_cache_check(
            UNIX,
            &mut cache,
            &validations,
            &entry,
            &fp,
            Some(&root),
            expected,
            now,
            100,
        );
        matches!(check, RequestCheck::Valid)
    };
    assert!(valid(5, &expected));
    assert!(valid(110, &expected));
    assert!(!valid(111, &expected));
    assert!(!valid(20, "another"));
}

#[test]
fn files_are_watched_before_they_are_read() {
    let mut cache = CacheSystem::new();
    cache.apply_changes(&[path("/b/src/x.c")]);
    let validations: Table<RequestValidationEntry> = Table::new();
    let entry = entry(None, "/a/inc/h.h", Some("/a"), false);
    let fp = hash_bytes(b"request");
    let check = request_cache_check(
        UNIX,
        &mut cache,
        &validations,
        &entry,
        &fp,
        Some(&path("/b")),
        "x",
        0,
        100,
    );
    match check {
        RequestCheck::Hash { paths, clock } => {
            assert_eq!(paths, vec![path("/b/src/x.c"), path("/b/inc/h.h")]);
            assert_eq!(clock, 1);
            assert!(!cache.changed_since(&path("/b/inc/h.h"), clock));
        }
        other => panic!("expected Hash, got {other:?}"),
    }
    let rootless = request_cache_check(
        UNIX,
        &mut cache,
        &validations,
        &entry,
        &fp,
        None,
        "x",
        0,
        100,
    );
    assert!(matches!(rootless, RequestCheck::Mismatch));
}

#[test]
fn validation_keys_name_request_and_root() {
    let key = request_validation_key(&hash_bytes(b"r"), &path("/a"));
    assert_eq!(key.text(), format!("{}\n/a", hash_bytes(b"r").to_hex()));
}

#[test]
fn strict_paths_are_off_without_an_environment() {
    let parsed: Result<u8, String> = Ok(2);
    assert_eq!(strict_paths_mode_from_client_env(None, 0, parsed.clone()), Ok(0));
    assert_eq!(strict_paths_mode_from_client_env(Some(&[]), 0, parsed), Ok(2));
    assert_eq!(
        strict_paths_mode_from_client_env(Some(&[]), 0u8, Err("bad".to_string())),
        Err("bad".to_string())
    );
}
