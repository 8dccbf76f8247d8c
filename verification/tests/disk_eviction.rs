//! The disk budget.

use zccache::disk_eviction::{
    artifact_key_stem, evict_disk_artifacts, plan_disk_eviction, DiskFile, StagedArtifact,
};
use zccache::eviction::CachedArtifact;
use zccache::graph::{DepGraph, ScanResult};
use zccache::context::{CompileContext, FileFact, IncludeSearchPaths};
use zccache::hash::hash_bytes;
use zccache::path::{NormalizedPath, PathStyle};
use zccache::table::Table;

fn file(name: &str, size: u64, mtime: u128) -> DiskFile {
    DiskFile {
        name: name.to_string(),
        size,
        mtime,
    }
}

/// The files of an artifact: `{key}.meta` and `{key}_0`.
fn fake_artifact(key: &str, size: u64, mtime: u128) -> Vec<DiskFile> {
    vec![
        file(&format!("{key}.meta"), 64, mtime),
        file(&format!("{key}_0"), size, mtime),
    ]
}

fn make_artifact(total_size: u64) -> CachedArtifact {
    CachedArtifact {
        total_size,
        last_used: 0,
    }
}

#[test]
fn disk_eviction_noop_under_budget() {
    let mut artifacts: Table<CachedArtifact> = Table::new();
    let files = fake_artifact("aaa", 100, 1);
    let plan = evict_disk_artifacts(&files, &[], &mut artifacts, 1_000_000, None);
    assert_eq!(plan.bytes_freed, 0);
    assert_eq!(plan.artifacts_removed, 0);
    assert!(plan.files.is_empty());
}

#[test]
fn disk_eviction_removes_oldest_first() {
    let mut artifacts: Table<CachedArtifact> = Table::new();
    let mut files = fake_artifact("new", 5000, 300);
    files.extend(fake_artifact("old", 5000, 100));
    files.extend(fake_artifact("mid", 5000, 200));
    let plan = evict_disk_artifacts(&files, &[], &mut artifacts, 10_000, None);
    assert!(plan.bytes_freed > 0);
    assert!(plan.artifacts_removed >= 1);
    assert!(!plan.files.contains(&"new.meta".to_string()));
    assert!(plan.files.contains(&"old.meta".to_string()));
    // 15_192 bytes over a target of 9_000: two artifacts of 5_064 go.
    assert_eq!(plan.keys, vec!["old", "mid"]);
    assert_eq!(plan.bytes_freed, 2 * 5064);
}

#[test]
fn disk_eviction_removes_dashmap_entries() {
    let mut artifacts: Table<CachedArtifact> = Table::new();
    artifacts.insert("key1".to_string(), make_artifact(5000));
    let files = fake_artifact("key1", 5000, 1);
    let plan = evict_disk_artifacts(&files, &[], &mut artifacts, 0, None);
    assert!(plan.bytes_freed > 0);
    assert_eq!(plan.artifacts_removed, 1);
    assert!(artifacts.is_empty());
}

#[test]
fn disk_eviction_groups_and_removes_mixed_v1_pack_v2_key_once() {
    let mut artifacts: Table<CachedArtifact> = Table::new();
    let key = "a".repeat(64);
    let mut files = fake_artifact(&key, 1024, 1);
    files.push(file(&format!("{key}.pack"), 512, 1));
    let staged = vec![StagedArtifact {
        key: key.clone(),
        total_size: 2048,
        mtime: 2,
    }];
    artifacts.insert(key.clone(), make_artifact(3584));

    let plan = evict_disk_artifacts(&files, &staged, &mut artifacts, 0, None);

    assert!(plan.bytes_freed >= 3584);
    assert_eq!(plan.bytes_freed, 64 + 1024 + 512 + 2048);
    assert_eq!(plan.artifacts_removed, 1, "mixed formats are one logical artifact");
    assert_eq!(
        plan.files,
        vec![format!("{key}.meta"), format!("{key}_0"), format!("{key}.pack")]
    );
    assert_eq!(plan.staged_keys, vec![key]);
    assert!(artifacts.is_empty());
}

#[test]
fn disk_eviction_signature_accepts_optional_depgraph() {
    let mut artifacts: Table<CachedArtifact> = Table::new();
    let mut dg = DepGraph::new(PathStyle::Unix);
    let files = fake_artifact("k", 5000, 1);
    let plan = evict_disk_artifacts(&files, &[], &mut artifacts, 0, Some(&mut dg));
    assert!(plan.bytes_freed > 0);
    assert_eq!(plan.artifacts_removed, 1);
    assert_eq!(dg.stats().context_count, 0);
}

#[test]
fn disk_eviction_reaches_the_depgraph() {
    let mut artifacts: Table<CachedArtifact> = Table::new();
    let mut dg = DepGraph::new(PathStyle::Unix);
    let source = NormalizedPath::new(PathStyle::Unix, "/src/a.c");
    let key = dg.register(CompileContext {
        source_file: source.clone(),
        include_search: IncludeSearchPaths::default(),
        defines: Vec::new(),
        flags: Vec::new(),
        force_includes: Vec::new(),
        unknown_flags: Vec::new(),
    });
    let facts = [FileFact {
        path: source,
        fresh: true,
        hash: Some(hash_bytes(b"a")),
    }];
    let scan = ScanResult {
        resolved: Vec::new(),
        unresolved: Vec::new(),
        has_computed: false,
    };
    let artifact = dg.update(&key, scan, &facts).unwrap();
    assert!(dg.try_fast_hit(&key, &facts).is_some());
    let files = fake_artifact(artifact.hash().to_hex(), 5000, 1);
    evict_disk_artifacts(&files, &[], &mut artifacts, 0, Some(&mut dg));
    assert_eq!(dg.contexts_with_artifact_key(), 0);
    assert!(dg.try_fast_hit(&key, &facts).is_none());
}

#[test]
fn disk_eviction_targets_90_percent() {
    let mut files = Vec::new();
    for i in 0..10 {
        files.extend(fake_artifact(&format!("k{i:02}"), 1000, 20 * i));
    }
    let mut artifacts: Table<CachedArtifact> = Table::new();
    let plan = evict_disk_artifacts(&files, &[], &mut artifacts, 10_000, None);
    assert!(plan.bytes_freed > 0);
    assert!(plan.artifacts_removed >= 1);
    assert!(plan.artifacts_removed <= 5);
    // 10_640 over a target of 9_000.
    assert_eq!(plan.keys, vec!["k00", "k01"]);
}

#[test]
fn artifact_stems_are_read_from_file_names() {
    assert_eq!(artifact_key_stem("abcd1234.meta"), Some("abcd1234".to_string()));
    assert_eq!(artifact_key_stem("abcd1234.pack"), Some("abcd1234".to_string()));
    assert_eq!(artifact_key_stem("abcd1234_0"), Some("abcd1234".to_string()));
    assert_eq!(artifact_key_stem("a_b_12"), Some("a_b".to_string()));
    assert_eq!(artifact_key_stem("_"), Some(String::new()));
    assert_eq!(artifact_key_stem("index.bin"), None);
}

#[test]
fn files_of_no_artifact_do_not_count() {
    let files = vec![file("index.bin", 1_000_000, 1), file("k.meta", 10, 1)];
    let plan = plan_disk_eviction(&files, &[], 10);
    assert_eq!(plan.artifacts_removed, 0);
    let plan = plan_disk_eviction(&files, &[], 9);
    assert_eq!(plan.keys, vec!["k"]);
    assert_eq!(plan.files, vec!["k.meta"]);
}

#[test]
fn the_meta_file_tells_the_age() {
    let mut artifacts: Table<CachedArtifact> = Table::new();
    let files = vec![
        file("a.meta", 64, 1),
        file("a_0", 5000, 10),
        file("b.meta", 64, 5),
        file("b_0", 5000, 5),
    ];
    let plan = evict_disk_artifacts(&files, &[], &mut artifacts, 10_000, None);
    assert_eq!((plan.bytes_freed, plan.artifacts_removed), (5064, 1));
    assert_eq!(plan.keys, vec!["a"]);
    assert_eq!(plan.files, vec!["a.meta", "a_0"]);
}

#[test]
fn without_a_meta_file_the_latest_tells_the_age() {
    let files = vec![
        file("a_0", 50, 1),
        file("a_1", 50, 9),
        file("b.pack", 100, 5),
        file("c_0", 100, 2),
    ];
    let staged = vec![StagedArtifact {
        key: "c".to_string(),
        total_size: 10,
        mtime: 20,
    }];
    let plan = plan_disk_eviction(&files, &staged, 160);
    assert_eq!(plan.keys, vec!["b", "a"]);
    // A `.meta` file goes before what is staged.
    let mut files = files;
    files.push(file("c.meta", 10, 3));
    let plan = plan_disk_eviction(&files, &staged, 300);
    assert_eq!(plan.keys, vec!["c"]);
}

#[test]
fn sizes_stand_still_at_the_largest_number() {
    let files = vec![file("a_0", u64::MAX, 1), file("a_1", u64::MAX, 1)];
    let plan = plan_disk_eviction(&files, &[], 0);
    assert_eq!(plan.bytes_freed, u64::MAX);
    assert_eq!(plan.artifacts_removed, 1);
}
