//! The memory budget.

use zccache::context::{compute_context_key, CompileContext, IncludeSearchPaths};
use zccache::eviction::{
    evict_to_budget, evict_to_budget_at, memory_snapshot, target_of, trim_fast_hit_cache_two_pass,
    CachedArtifact, FastHitCache, FastHitEntry, ARTIFACT_OVERHEAD_BYTES,
    FAST_HIT_BUDGET_TRIM_MAX_AGE, FAST_HIT_ENTRY_BYTES,
};
use zccache::fscache::{CacheSystem, Confidence, FileMetadata};
use zccache::graph::{DepGraph, IncludeDirective, IncludeKind};
use zccache::hash::ContextKey;
use zccache::path::{NormalizedPath, PathStyle};
use zccache::table::Table;

const UNIX: PathStyle = PathStyle::Unix;

/// Waits until what was cached at the start is no longer recent.
fn age(cache: &FastHitCache) {
    while cache.now() <= FAST_HIT_BUDGET_TRIM_MAX_AGE {}
}

/// A minute, in nanoseconds.
const MINUTE: u128 = 60_000_000_000;

fn empty_caches() -> (CacheSystem, DepGraph, FastHitCache, Table<CachedArtifact>) {
    (
        CacheSystem::new(),
        DepGraph::new(UNIX),
        FastHitCache::new(),
        Table::new(),
    )
}

fn make_ctx(source: &str) -> CompileContext {
    CompileContext {
        source_file: NormalizedPath::new(UNIX, source),
        include_search: IncludeSearchPaths::default(),
        defines: Vec::new(),
        flags: Vec::new(),
        force_includes: Vec::new(),
        unknown_flags: Vec::new(),
    }
}

fn make_context_key(source: &str) -> ContextKey {
    compute_context_key(UNIX, &make_ctx(source), None, None)
}

fn hit_at(cached_at: u128) -> FastHitEntry {
    FastHitEntry {
        clock: 0,
        artifact_key_hex: String::new(),
        cached_at,
    }
}

fn metadata_at(last_verified: u128) -> FileMetadata {
    FileMetadata {
        mtime: 0,
        size: 100,
        confidence: Confidence::High,
        last_verified,
        content_hash: None,
    }
}

fn make_artifact(payload_size: u64) -> CachedArtifact {
    CachedArtifact {
        total_size: payload_size,
        last_used: 0,
    }
}

#[test]
fn snapshot_empty() {
    let (cs, dg, fh, art) = empty_caches();
    let snap = memory_snapshot(&cs, &dg, &fh, &art, 0);
    assert_eq!(snap.total_bytes, 0);
    assert_eq!(snap.metadata_entries, 0);
    assert_eq!(snap.fast_hit_entries, 0);
    assert_eq!(snap.artifact_entries, 0);
}

#[test]
fn snapshot_with_entries() {
    let (cs, dg, mut fh, art) = empty_caches();
    let now = fh.now();
    fh.insert(&make_context_key("/tmp/snap.c"), hit_at(now));
    let snap = memory_snapshot(&cs, &dg, &fh, &art, 0);
    assert_eq!(snap.fast_hit_entries, 1);
    assert!(snap.total_bytes >= FAST_HIT_ENTRY_BYTES);
}

#[test]
fn snapshot_total_is_exact() {
    let (mut cs, mut dg, mut fh, mut art) = empty_caches();
    cs.insert_metadata(&NormalizedPath::new(UNIX, "/a"), metadata_at(0));
    cs.apply_changes(&[NormalizedPath::new(UNIX, "/a")]);
    dg.register(make_ctx("/a"));
    dg.store_file_includes(
        NormalizedPath::new(UNIX, "/a"),
        vec![IncludeDirective {
            kind: IncludeKind::Angled,
            path: "stdio.h".to_string(),
            line: 3,
        }],
    );
    fh.insert(&make_context_key("/a"), hit_at(0));
    art.insert("a".to_string(), make_artifact(7));
    let snap = memory_snapshot(&cs, &dg, &fh, &art, 9);
    assert_eq!(snap.total_bytes, 400 + 280 + 600 + 2048 + 200 + 200);
    assert_eq!(snap.artifact_payload_bytes, 7);
    assert_eq!(snap.in_flight_bytes, 9);
}

#[test]
fn evict_noop_under_budget() {
    let (mut cs, mut dg, mut fh, art) = empty_caches();
    let (freed, items) = evict_to_budget(1_073_741_824, &mut cs, &mut dg, &mut fh, &art, 0);
    assert_eq!(freed, 0);
    assert_eq!(items, 0);
}

#[test]
fn evict_fast_hit_first() {
    let (mut cs, mut dg, mut fh, art) = empty_caches();
    for i in 0..100 {
        fh.insert(&make_context_key(&format!("/tmp/fh{i}.c")), hit_at(0));
    }
    age(&fh);
    let (freed, items) = evict_to_budget(1000, &mut cs, &mut dg, &mut fh, &art, 0);
    assert!(freed > 0);
    assert_eq!(freed, 100 * 200);
    assert_eq!(items, 100);
    assert_eq!(fh.len(), 0);
}

#[test]
fn evict_fast_hit_preserves_recent_entries() {
    let (mut cs, mut dg, mut fh, art) = empty_caches();
    for i in 0..50 {
        fh.insert(&make_context_key(&format!("/tmp/old{i}.c")), hit_at(0));
    }
    age(&fh);
    let recent = fh.now();
    for i in 0..50 {
        fh.insert(&make_context_key(&format!("/tmp/new{i}.c")), hit_at(recent));
    }
    let (_freed, items) = evict_to_budget(1000, &mut cs, &mut dg, &mut fh, &art, 0);
    assert_eq!(items, 50, "only the 50 aged entries should evict");
    assert_eq!(fh.len(), 50, "the 50 recent entries must survive");
    for i in 0..50 {
        assert!(fh.contains_key(&make_context_key(&format!("/tmp/new{i}.c"))));
    }
}

#[test]
fn evict_cascades_to_metadata() {
    let (mut cs, mut dg, mut fh, art) = empty_caches();
    let paths: Vec<NormalizedPath> = (0..50)
        .map(|i| NormalizedPath::new(UNIX, &format!("/tmp/meta{i}.c")))
        .collect();
    for (i, p) in paths.iter().enumerate() {
        cs.insert_metadata(p, metadata_at(i as u128));
    }
    cs.apply_changes(&paths);

    let (freed, items) = evict_to_budget(1000, &mut cs, &mut dg, &mut fh, &art, 0);
    assert!(freed > 0);
    assert!(items > 0);
    assert!(cs.metadata_len() < 50);
    // 50 * 680 = 34_000, target 900: a shortfall of 33_100 asks for 82 files, there are 50.
    assert_eq!((freed, items), (34_000, 100));
}

#[test]
fn evicting_files_reaches_the_budget() {
    let (mut cs, mut dg, mut fh, art) = empty_caches();
    for i in 0..50 {
        let path = NormalizedPath::new(UNIX, &format!("/tmp/only{i}.c"));
        cs.insert_metadata(&path, metadata_at(i as u128));
    }
    // 20_000 over a target of 900: a shortfall of 19_100 takes 48 files.
    let freed = evict_to_budget(1000, &mut cs, &mut dg, &mut fh, &art, 0);
    assert_eq!(freed, (19_200, 48));
    let snap = memory_snapshot(&cs, &dg, &fh, &art, 0);
    assert_eq!(snap.total_bytes, 800);
}

#[test]
fn evict_forgets_the_files_read_longest_ago() {
    let mut cs = CacheSystem::new();
    for (i, name) in ["/c", "/a", "/b"].iter().enumerate() {
        cs.insert_metadata(&NormalizedPath::new(UNIX, name), metadata_at(i as u128));
    }
    cs.apply_changes(&[NormalizedPath::new(UNIX, "/c"), NormalizedPath::new(UNIX, "/b")]);
    assert_eq!(cs.evict_oldest(2), (2, 1));
    assert_eq!(cs.metadata_len(), 1);
    assert!(cs.changed_since(&NormalizedPath::new(UNIX, "/c"), 5), "not known any more");
    assert!(!cs.changed_since(&NormalizedPath::new(UNIX, "/b"), 1));
}

#[test]
fn evict_cascades_to_depgraph() {
    let (mut cs, mut dg, mut fh, art) = empty_caches();
    for i in 0..20 {
        dg.register(make_ctx(&format!("/tmp/src{i}.c")));
    }
    for i in 0..10 {
        cs.insert_metadata(
            &NormalizedPath::new(UNIX, &format!("/tmp/m{i}.c")),
            metadata_at(0),
        );
    }
    let (freed, items) = evict_to_budget(1000, &mut cs, &mut dg, &mut fh, &art, 0);
    assert!(freed > 0);
    assert!(items > 0);
    assert_eq!(dg.stats().context_count, 0);
}

#[test]
fn budget_breach_evicts_contexts_proportionally() {
    let (mut cs, mut dg, mut fh, art) = empty_caches();
    for i in 0..1000 {
        dg.register(make_ctx(&format!("/tmp/prop{i}.c")));
    }
    let (_freed, _items) = evict_to_budget(2_000_000, &mut cs, &mut dg, &mut fh, &art, 0);
    let survivors = dg.stats().context_count;
    assert_eq!(survivors, 1000 - 122);
}

#[test]
fn snapshot_excludes_in_flight_bytes_from_budget_total() {
    let (cs, dg, fh, art) = empty_caches();
    let snap = memory_snapshot(&cs, &dg, &fh, &art, 500_000);
    assert_eq!(snap.in_flight_bytes, 500_000);
    assert_eq!(snap.total_bytes, 0);
}

#[test]
fn in_flight_burst_preserves_depgraph_contexts() {
    let (mut cs, mut dg, mut fh, art) = empty_caches();
    for i in 0..200 {
        dg.register(make_ctx(&format!("/tmp/burst{i}.c")));
    }
    assert_eq!(dg.stats().context_count, 200);
    let (freed, items) = evict_to_budget(
        1_073_741_824,
        &mut cs,
        &mut dg,
        &mut fh,
        &art,
        2 * 1024 * 1024 * 1024,
    );
    assert_eq!(freed, 0);
    assert_eq!(items, 0);
    assert_eq!(dg.stats().context_count, 200);
}

#[test]
fn in_flight_bytes_do_not_trigger_eviction() {
    let (mut cs, mut dg, mut fh, art) = empty_caches();
    for i in 0..100 {
        fh.insert(&make_context_key(&format!("/tmp/inflight{i}.c")), hit_at(0));
    }
    age(&fh);
    let (freed, items) = evict_to_budget(100_000, &mut cs, &mut dg, &mut fh, &art, 0);
    assert_eq!(freed, 0);
    assert_eq!(items, 0);
    let (freed, items) = evict_to_budget(100_000, &mut cs, &mut dg, &mut fh, &art, 90_000);
    assert_eq!(freed, 0);
    assert_eq!(items, 0);
    assert_eq!(fh.len(), 100);
}

#[test]
fn in_flight_bytes_alone_over_budget_evicts_nothing_when_caches_empty() {
    let (mut cs, mut dg, mut fh, art) = empty_caches();
    let (freed, items) = evict_to_budget(1000, &mut cs, &mut dg, &mut fh, &art, 50_000);
    assert_eq!(freed, 0);
    assert_eq!(items, 0);
}

#[test]
fn snapshot_excludes_artifact_payload() {
    let (cs, dg, fh, mut art) = empty_caches();
    art.insert("big_artifact".to_string(), make_artifact(10_000_000));
    let snap = memory_snapshot(&cs, &dg, &fh, &art, 0);
    assert_eq!(snap.artifact_entries, 1);
    assert_eq!(snap.artifact_payload_bytes, 10_000_000);
    assert_eq!(snap.total_bytes, ARTIFACT_OVERHEAD_BYTES);
}

#[test]
fn evict_no_longer_wipes_depgraph_with_large_artifact_payload() {
    let (mut cs, mut dg, mut fh, mut art) = empty_caches();
    for i in 0..10 {
        dg.register(make_ctx(&format!("/tmp/depgraph{i}.c")));
    }
    assert_eq!(dg.stats().context_count, 10);
    for i in 0..5 {
        art.insert(format!("art_{i}"), make_artifact(500_000));
    }
    let (freed, items) = evict_to_budget(1_073_741_824u64, &mut cs, &mut dg, &mut fh, &art, 0);
    assert_eq!(freed, 0);
    assert_eq!(items, 0);
    assert_eq!(dg.stats().context_count, 10);
}

#[test]
fn fast_hit_trim_reads_its_own_clock() {
    let mut fh = FastHitCache::new();
    fh.insert(&make_context_key("/a.c"), hit_at(0));
    assert_eq!(trim_fast_hit_cache_two_pass(&mut fh, MINUTE), 0);
    assert_eq!(fh.len(), 1);
    let start = fh.now();
    while fh.now() == start {}
    assert_eq!(trim_fast_hit_cache_two_pass(&mut fh, 0), 1);
    assert_eq!(fh.len(), 0);
}

#[test]
fn target_is_nine_tenths_rounded_down() {
    assert_eq!(target_of(0), 0);
    assert_eq!(target_of(1), 0);
    assert_eq!(target_of(1000), 900);
    assert_eq!(target_of(1_073_741_824), 966_367_641);
    assert_eq!(target_of(u64::MAX), 16_602_069_666_338_596_453);
}

#[test]
fn tables_keep_the_last_value_and_swap_rows_on_removal() {
    let mut table: Table<u32> = Table::new();
    assert!(table.is_empty());
    for i in 0..5 {
        assert_eq!(table.insert(format!("k{i}"), i), None);
    }
    assert_eq!(table.insert("k1".to_string(), 11), Some(1));
    assert_eq!(table.remove("k0"), Some(0));
    assert_eq!(table.remove("k0"), None);
    assert_eq!(table.len(), 4);
    assert_eq!(table.get("k4"), Some(&4));
    *table.get_mut("k4").unwrap() = 44;
    assert_eq!(table.get("k4"), Some(&44));
    let mut keys = table.keys();
    keys.sort();
    assert_eq!(keys, vec!["k1", "k2", "k3", "k4"]);
    assert!(table.contains_key("k1"));
    table.clear();
    assert_eq!(table.len(), 0);
    assert!(table.get("k1").is_none());
}

#[test]
fn contexts_stay_when_fast_hits_free_enough() {
    let (mut cs, mut dg, mut fh, art) = empty_caches();
    for i in 0..10 {
        dg.register(make_ctx(&format!("/tmp/stay{i}.c")));
    }
    for i in 0..100 {
        fh.insert(&make_context_key(&format!("/tmp/go{i}.c")), hit_at(0));
    }
    // 20_480 + 20_000 over a budget of 40_000: a shortfall of 4_480, and the hits free 20_000.
    let freed = evict_to_budget_at(40_000, &mut cs, &mut dg, &mut fh, &art, 0, MINUTE);
    assert_eq!(freed, (20_000, 100));
    assert_eq!(dg.stats().context_count, 10);
}

#[test]
fn files_go_with_the_contexts_that_kept_them() {
    let (mut cs, mut dg, mut fh, art) = empty_caches();
    for i in 0..4 {
        let source = format!("/tmp/file{i}.c");
        dg.register(make_ctx(&source));
        dg.store_file_includes(NormalizedPath::new(UNIX, &source), Vec::new());
    }
    // 4 * 2_648 over a budget of 10_000: a shortfall of 1_592 takes one context and its file.
    let freed = evict_to_budget(10_000, &mut cs, &mut dg, &mut fh, &art, 0);
    assert_eq!(freed, (2_048 + 600, 2));
    let stats = dg.stats();
    assert_eq!((stats.context_count, stats.file_count), (3, 3));
}
