//! Keeping the caches in memory within a budget.
//!
//! Memory is estimated by a constant per entry. Over budget, what is cheapest to regenerate goes
//! first: fast hits, then file metadata and journal entries, then dependency-graph contexts.

use vstd::prelude::*;
use crate::age::{least, oldest_of};
use crate::clock::Stopwatch;
use crate::fscache::{forgotten, verified_times, CacheSystem, CacheView};
use crate::graph::maintenance::{least_recent, pruned, without};
use crate::graph::{DepGraph, GraphView};
use crate::hash::ContextKey;
use crate::table::{lemma_filter_count, remove_all, Table};
use crate::text::views;

verus! {

/// Estimated bytes per file with metadata.
pub const METADATA_ENTRY_BYTES: usize = 400;

/// Estimated bytes per file in the journal.
pub const JOURNAL_ENTRY_BYTES: usize = 280;

/// Estimated bytes per scanned file of the dependency graph.
pub const DEPGRAPH_FILE_BYTES: usize = 600;

/// Estimated bytes per context of the dependency graph.
pub const DEPGRAPH_CONTEXT_BYTES: usize = 2048;

/// Estimated bytes per fast hit.
pub const FAST_HIT_ENTRY_BYTES: usize = 200;

/// Estimated bytes per artifact, without its payload.
pub const ARTIFACT_OVERHEAD_BYTES: usize = 200;

/// Fast hits younger than this, in nanoseconds, outlive a trim under memory pressure: a result
/// that is being filled in must not be dropped the moment it lands.
pub const FAST_HIT_BUDGET_TRIM_MAX_AGE: u128 = 5_000_000_000;

// ── The caches ──────────────────────────────────────────────────────────

/// A recent hit, remembered so that the next one needs no check.
#[derive(Debug)]
pub struct FastHitEntry {
    /// The journal's clock at the hit.
    pub clock: u64,
    /// The artifact.
    pub artifact_key_hex: String,
    /// When the hit was.
    pub cached_at: u128,
}

/// The fast hits, by context.
pub struct FastHitCache {
    entries: Table<FastHitEntry>,
    clock: Stopwatch,
}

impl View for FastHitCache {
    type V = Map<Seq<char>, FastHitEntry>;

    closed spec fn view(&self) -> Map<Seq<char>, FastHitEntry> {
        self.entries@
    }
}

/// The fast hits that are more than `max_age` old at `now`.
pub open spec fn old_hits(hits: Map<Seq<char>, FastHitEntry>, now: u128, max_age: u128) -> Set<Seq<char>> {
    hits.dom().filter(|k: Seq<char>| now - hits[k].cached_at > max_age)
}

impl FastHitCache {
    /// The table is in order.
    pub closed spec fn wf(&self) -> bool {
        self.entries.wf()
    }

    /// There are finitely many fast hits.
    pub proof fn lemma_finite(&self)
        requires
            self.wf(),
        ensures
            self@.dom().finite(),
            self@.dom().len() <= usize::MAX,
    {
        self.entries.lemma_finite();
    }

    /// No hits yet.
    pub fn new() -> (cache: FastHitCache)
        ensures
            cache.wf(),
            cache@ == Map::<Seq<char>, FastHitEntry>::empty(),
    {
        FastHitCache { entries: Table::new(), clock: Stopwatch::start() }
    }

    /// The time now, in nanoseconds; every value is possible.
    pub fn now(&self) -> (now: u128) {
        self.clock.read()
    }

    /// Remembers a hit.
    pub fn insert(&mut self, key: &ContextKey, entry: FastHitEntry)
        requires
            old(self).wf(),
        ensures
            final(self).wf(),
            final(self)@ == old(self)@.insert(key@, entry),
    {
        self.entries.insert(key.hash().to_hex().to_owned(), entry);
    }

    /// The number of fast hits.
    pub fn len(&self) -> (len: usize)
        requires
            self.wf(),
        ensures
            len == self@.dom().len(),
    {
        self.entries.len()
    }

    /// Whether there is a fast hit for this context.
    pub fn contains_key(&self, key: &ContextKey) -> (yes: bool)
        requires
            self.wf(),
        ensures
            yes == self@.contains_key(key@),
    {
        self.entries.contains_key(key.hash().to_hex())
    }

    /// Drops the fast hits that are more than `max_age` old at `now`. Returns how many.
    pub fn trim_at(&mut self, now: u128, max_age: u128) -> (removed: usize)
        requires
            old(self).wf(),
        ensures
            final(self).wf(),
            final(self)@ == old(self)@.remove_keys(old_hits(old(self)@, now, max_age)),
            removed == old_hits(old(self)@, now, max_age).len(),
    {
        let keys = self.entries.keys();
        let ghost names = views(keys@);
        let ghost start = self@;
        let ghost pick = |k: Seq<char>| now - start[k].cached_at > max_age;
        let mut expired: Vec<String> = Vec::new();
        let mut i: usize = 0;
        reveal(Seq::filter);
        assert(views(expired@) =~= names.take(0).filter(pick));
        while i < keys.len()
            invariant
                i <= keys@.len(),
                names == views(keys@),
                names.to_set() == start.dom(),
                self.wf(),
                start == self@,
                pick == (|k: Seq<char>| now - start[k].cached_at > max_age),
                views(expired@) == names.take(i as int).filter(pick),
            decreases keys@.len() - i,
        {
            reveal(Seq::filter);
            let ghost expired0 = expired@;
            assert(names.take(i + 1).drop_last() =~= names.take(i as int));
            assert(names.take(i + 1).last() == keys@[i as int]@);
            assert(names.contains(names[i as int]));
            assert(names.to_set().contains(names[i as int]));
            if let Some(entry) = self.entries.get(keys[i].as_str()) {
                if now > entry.cached_at && now - entry.cached_at > max_age {
                    expired.push(keys[i].clone());
                    assert(views(expired@) =~= views(expired0).push(keys@[i as int]@));
                }
            }
            i = i + 1;
        }
        proof {
            assert(names.take(names.len() as int) =~= names);
            lemma_filter_count(names, pick);
            assert(views(expired@).to_set() =~= old_hits(start, now, max_age));
            assert(start.dom().intersect(views(expired@).to_set()) =~= old_hits(start, now, max_age));
        }
        remove_all(&mut self.entries, &expired)
    }
}

/// Drops the fast hits that are more than `max_age` nanoseconds old. Returns how many.
pub fn trim_fast_hit_cache_two_pass(cache: &mut FastHitCache, max_age: u128) -> (removed: usize)
    requires
        old(cache).wf(),
    ensures
        final(cache).wf(),
        exists|now: u128|
            {
                &&& final(cache)@ == old(cache)@.remove_keys(#[trigger] old_hits(old(cache)@, now, max_age))
                &&& removed == old_hits(old(cache)@, now, max_age).len()
            },
{
    let now = cache.now();
    cache.trim_at(now, max_age)
}

/// A stored compilation result; its payload lies on disk.
#[derive(Debug)]
pub struct CachedArtifact {
    /// The payload's size in bytes.
    pub total_size: u64,
    /// When it was last used.
    pub last_used: u128,
}

/// The sizes of all payloads together.
pub open spec fn payload_sum(artifacts: Map<Seq<char>, CachedArtifact>) -> nat
    decreases artifacts.dom().len(),
    when artifacts.dom().finite()
{
    if artifacts.dom().len() == 0 {
        0
    } else {
        let k = artifacts.dom().choose();
        artifacts[k].total_size as nat + payload_sum(artifacts.remove(k))
    }
}

/// Each artifact counts once in the sum.
pub proof fn lemma_payload_sum(artifacts: Map<Seq<char>, CachedArtifact>, k: Seq<char>)
    requires
        artifacts.dom().finite(),
        artifacts.contains_key(k),
    ensures
        payload_sum(artifacts) == artifacts[k].total_size + payload_sum(artifacts.remove(k)),
    decreases artifacts.dom().len(),
{
    let c = artifacts.dom().choose();
    assert(artifacts.dom().contains(k));
    assert(artifacts.remove(k).dom() =~= artifacts.dom().remove(k));
    assert(artifacts.remove(c).dom() =~= artifacts.dom().remove(c));
    if c != k {
        lemma_payload_sum(artifacts.remove(c), k);
        lemma_payload_sum(artifacts.remove(k), c);
        assert(artifacts.remove(c).remove(k) =~= artifacts.remove(k).remove(c));
    }
}

// ── The estimate ────────────────────────────────────────────────────────

/// The caches, by what they hold.
pub struct CachesView {
    /// File metadata and journal.
    pub cache: CacheView,
    /// The dependency graph.
    pub graph: GraphView,
    /// The fast hits.
    pub fast: Map<Seq<char>, FastHitEntry>,
    /// The artifacts.
    pub artifacts: Map<Seq<char>, CachedArtifact>,
}

/// The estimated bytes of what eviction can free. Payloads do not count, neither those on disk
/// nor those on their way there: nothing evicted here would free them.
pub open spec fn estimate(c: CachesView) -> nat {
    c.cache.metadata.dom().len() * METADATA_ENTRY_BYTES as nat + c.cache.journal.dom().len() * JOURNAL_ENTRY_BYTES as nat
        + c.graph.files.dom().len() * DEPGRAPH_FILE_BYTES as nat + c.graph.contexts.dom().len()
        * DEPGRAPH_CONTEXT_BYTES as nat + c.fast.dom().len() * FAST_HIT_ENTRY_BYTES as nat + c.artifacts.dom().len()
        * ARTIFACT_OVERHEAD_BYTES as nat
}

/// Estimated memory use of the caches.
#[derive(Clone, Copy, Debug, PartialEq, Eq, Structural)]
pub struct MemorySnapshot {
    /// Files with metadata.
    pub metadata_entries: usize,
    /// Files in the journal.
    pub journal_entries: usize,
    /// Scanned files of the dependency graph.
    pub depgraph_files: usize,
    /// Contexts of the dependency graph.
    pub depgraph_contexts: usize,
    /// Fast hits.
    pub fast_hit_entries: usize,
    /// Artifacts.
    pub artifact_entries: usize,
    /// Payload bytes of the artifacts.
    pub artifact_payload_bytes: usize,
    /// Payload bytes on their way to disk.
    pub in_flight_bytes: usize,
    /// Estimated bytes of what eviction can free.
    pub total_bytes: usize,
}

/// The sizes of all payloads together.
fn payload_bytes(artifacts: &Table<CachedArtifact>) -> (total: usize)
    requires
        artifacts.wf(),
        payload_sum(artifacts@) <= usize::MAX,
    ensures
        total == payload_sum(artifacts@),
{
    let keys = artifacts.keys();
    let ghost names = views(keys@);
    let ghost all = artifacts@;
    let mut total: usize = 0;
    let mut i: usize = 0;
    proof {
        artifacts.lemma_finite();
        assert(all.remove_keys(names.take(0).to_set()) =~= all);
    }
    while i < keys.len()
        invariant
            i <= keys@.len(),
            names == views(keys@),
            names.no_duplicates(),
            names.to_set() == all.dom(),
            all == artifacts@,
            all.dom().finite(),
            artifacts.wf(),
            payload_sum(all) <= usize::MAX,
            total + payload_sum(all.remove_keys(names.take(i as int).to_set())) == payload_sum(all),
        decreases keys@.len() - i,
    {
        let ghost rest = all.remove_keys(names.take(i as int).to_set());
        proof {
            crate::table::lemma_take_set(names, i as int);
            assert(names.contains(names[i as int]));
            assert(names.to_set().contains(names[i as int]));
            assert(!names.take(i as int).contains(names[i as int])) by {
                if names.take(i as int).contains(names[i as int]) {
                    let j = names.take(i as int).index_of(names[i as int]);
                    assert(names[j] == names[i as int]);
                }
            }
            assert(rest.dom() =~= all.dom().difference(names.take(i as int).to_set()));
            lemma_payload_sum(rest, names[i as int]);
            assert(all.remove_keys(names.take(i + 1).to_set()) =~= rest.remove(names[i as int]));
        }
        if let Some(artifact) = artifacts.get(keys[i].as_str()) {
            total = total + artifact.total_size as usize;
        }
        i = i + 1;
    }
    proof {
        assert(names.take(names.len() as int) =~= names);
        assert(all.remove_keys(names.to_set()).dom() =~= Set::<Seq<char>>::empty());
    }
    total
}

/// Estimates the memory use of the caches.
pub fn memory_snapshot(
    cache_system: &CacheSystem,
    dep_graph: &DepGraph,
    fast_hit_cache: &FastHitCache,
    artifacts: &Table<CachedArtifact>,
    in_flight_bytes: usize,
) -> (snap: MemorySnapshot)
    requires
        cache_system.wf(),
        dep_graph.wf(),
        fast_hit_cache.wf(),
        artifacts.wf(),
        payload_sum(artifacts@) <= usize::MAX,
        estimate(
            (CachesView { cache: cache_system@, graph: dep_graph@, fast: fast_hit_cache@, artifacts: artifacts@ }),
        ) <= usize::MAX,
    ensures
        snap.metadata_entries == cache_system@.metadata.dom().len(),
        snap.journal_entries == cache_system@.journal.dom().len(),
        snap.depgraph_files == dep_graph@.files.dom().len(),
        snap.depgraph_contexts == dep_graph@.contexts.dom().len(),
        snap.fast_hit_entries == fast_hit_cache@.dom().len(),
        snap.artifact_entries == artifacts@.dom().len(),
        snap.artifact_payload_bytes == payload_sum(artifacts@),
        snap.in_flight_bytes == in_flight_bytes,
        snap.total_bytes == estimate(
            (CachesView { cache: cache_system@, graph: dep_graph@, fast: fast_hit_cache@, artifacts: artifacts@ }),
        ),
{
    let metadata_entries = cache_system.metadata_len();
    let journal_entries = cache_system.journal_len();
    let graph_stats = dep_graph.stats();
    let depgraph_files = graph_stats.file_count;
    let depgraph_contexts = graph_stats.context_count;
    let fast_hit_entries = fast_hit_cache.len();
    let artifact_entries = artifacts.len();
    let artifact_payload_bytes = payload_bytes(artifacts);
    let total_bytes: usize = metadata_entries * METADATA_ENTRY_BYTES + journal_entries * JOURNAL_ENTRY_BYTES
        + depgraph_files * DEPGRAPH_FILE_BYTES + depgraph_contexts * DEPGRAPH_CONTEXT_BYTES + fast_hit_entries
        * FAST_HIT_ENTRY_BYTES + artifact_entries * ARTIFACT_OVERHEAD_BYTES;
    MemorySnapshot {
        metadata_entries,
        journal_entries,
        depgraph_files,
        depgraph_contexts,
        fast_hit_entries,
        artifact_entries,
        artifact_payload_bytes,
        in_flight_bytes,
        total_bytes,
    }
}

// ── Evicting ────────────────────────────────────────────────────────────

/// Nine tenths of a budget, rounded down: evicting to less than the budget keeps the next pass
/// from evicting a little again.
pub open spec fn nine_tenths(budget: nat) -> nat {
    budget * 9 / 10
}

/// Nine tenths of a budget, rounded down.
pub fn target_of(budget: u64) -> (target: u64)
    ensures
        target == nine_tenths(budget as nat),
        target <= budget,
{
    budget / 10 * 9 + budget % 10 * 9 / 10
}

/// `a - b`, or 0.
pub open spec fn minus(a: nat, b: nat) -> nat {
    if a >= b {
        (a - b) as nat
    } else {
        0
    }
}

/// What one step of an eviction freed: estimated bytes and entries.
pub struct Freed {
    /// Estimated bytes.
    pub bytes: nat,
    /// Entries.
    pub items: nat,
}

/// The first step: fast hits that are not recent.
pub open spec fn fast_freed(c: CachesView, now: u128) -> Freed {
    let n = old_hits(c.fast, now, FAST_HIT_BUDGET_TRIM_MAX_AGE).len();
    Freed { bytes: n * FAST_HIT_ENTRY_BYTES as nat, items: n }
}

/// How many files the second step forgets to free `to_free` bytes: just enough by their metadata,
/// or all.
pub open spec fn files_wanted(c: CacheView, to_free: nat) -> nat {
    least(
        ((to_free + METADATA_ENTRY_BYTES as nat - 1) / METADATA_ENTRY_BYTES as int) as nat,
        c.metadata.dom().len(),
    )
}

/// The second step: the files whose metadata was read longest ago, `victims` of them.
pub open spec fn forgets(before: CacheView, after: CacheView, to_free: nat, victims: Set<Seq<char>>, freed: Freed) -> bool {
    let changes = before.journal.dom().intersect(victims).len();
    if to_free > 0 && before.metadata.dom().len() > 0 {
        &&& oldest_of(verified_times(before), files_wanted(before, to_free), victims)
        &&& after == forgotten(before, victims)
        &&& freed.bytes == victims.len() * METADATA_ENTRY_BYTES as nat + changes * JOURNAL_ENTRY_BYTES as nat
        &&& freed.items == victims.len() + changes
    } else {
        &&& after == before
        &&& freed.bytes == 0
        &&& freed.items == 0
    }
}

/// How many contexts the third step takes out to free `to_free` bytes: just enough.
pub open spec fn contexts_wanted(to_free: nat) -> nat {
    ((to_free + DEPGRAPH_CONTEXT_BYTES as nat - 1) / DEPGRAPH_CONTEXT_BYTES as int) as nat
}

/// The third step: the contexts used least recently, `victims` of them, and what only they kept.
pub open spec fn drops(before: GraphView, after: GraphView, to_free: nat, victims: Set<Seq<char>>, freed: Freed) -> bool {
    if to_free > 0 && before.contexts.dom().len() > 0 {
        let files = minus(before.files.dom().len(), after.files.dom().len());
        &&& least_recent(before, contexts_wanted(to_free), victims)
        &&& after == pruned(without(before, victims))
        &&& freed.bytes == victims.len() * DEPGRAPH_CONTEXT_BYTES as nat + files * DEPGRAPH_FILE_BYTES as nat
        &&& freed.items == victims.len() + files
    } else {
        &&& after == before
        &&& freed.bytes == 0
        &&& freed.items == 0
    }
}

/// Whether an eviction at `now` that had to free `to_free` bytes went by these steps.
pub open spec fn steps(
    before: CachesView,
    after: CachesView,
    to_free: nat,
    now: u128,
    files: Set<Seq<char>>,
    second: Freed,
    contexts: Set<Seq<char>>,
    third: Freed,
) -> bool {
    let first = fast_freed(before, now);
    let left = minus(to_free, first.bytes);
    &&& after.artifacts == before.artifacts
    &&& after.fast == before.fast.remove_keys(old_hits(before.fast, now, FAST_HIT_BUDGET_TRIM_MAX_AGE))
    &&& forgets(before.cache, after.cache, left, files, second)
    &&& drops(before.graph, after.graph, minus(left, second.bytes), contexts, third)
}

/// Whether an eviction at `now` within `budget` made `after` of `before`, freeing so many
/// estimated bytes and entries. Where several entries are equally old, any may go first.
pub open spec fn evicts(before: CachesView, after: CachesView, budget: nat, now: u128, bytes: nat, items: nat) -> bool {
    if estimate(before) <= budget {
        after == before && bytes == 0 && items == 0
    } else {
        exists|files: Set<Seq<char>>, second: Freed, contexts: Set<Seq<char>>, third: Freed|
            {
                &&& #[trigger] steps(
                    before,
                    after,
                    (estimate(before) - nine_tenths(budget)) as nat,
                    now,
                    files,
                    second,
                    contexts,
                    third,
                )
                &&& bytes == fast_freed(before, now).bytes + second.bytes + third.bytes
                &&& items == fast_freed(before, now).items + second.items + third.items
            }
    }
}

/// Bytes and entries, as counted.
spec fn freed_view(freed: (usize, usize)) -> Freed {
    Freed { bytes: freed.0 as nat, items: freed.1 as nat }
}

/// Forgets files to free `to_free` bytes. Returns the estimated bytes and entries freed.
fn evict_files(cache_system: &mut CacheSystem, to_free: usize) -> (freed: (usize, usize))
    requires
        old(cache_system).wf(),
        old(cache_system)@.metadata.dom().len() * METADATA_ENTRY_BYTES as nat + old(cache_system)@.journal.dom().len()
            * JOURNAL_ENTRY_BYTES as nat <= usize::MAX,
    ensures
        final(cache_system).wf(),
        exists|victims: Set<Seq<char>>| #[trigger]
            forgets(
                old(cache_system)@,
                final(cache_system)@,
                to_free as nat,
                victims,
                freed_view(freed),
            ),
{
    let ghost before = cache_system@;
    let known = cache_system.metadata_len();
    if to_free == 0 || known == 0 {
        let freed: (usize, usize) = (0, 0);
        assert(forgets(before, cache_system@, to_free as nat, Set::empty(), freed_view(freed)));
        return freed;
    }
    let wanted: usize = (to_free - 1) / METADATA_ENTRY_BYTES + 1;
    let count: usize = if wanted <= known {
        wanted
    } else {
        known
    };
    proof {
        cache_system.lemma_finite();
    }
    let (files, changes) = cache_system.evict_oldest(count);
    proof {
        let victims = choose|victims: Set<Seq<char>>|
            {
                &&& #[trigger] oldest_of(verified_times(before), count as nat, victims)
                &&& cache_system@ == forgotten(before, victims)
                &&& files == victims.len()
                &&& changes == before.journal.dom().intersect(victims).len()
            };
        assert(verified_times(before).dom() =~= before.metadata.dom());
        vstd::set_lib::lemma_len_subset(victims, before.metadata.dom());
        vstd::set_lib::lemma_len_subset(before.journal.dom().intersect(victims), before.journal.dom());
        assert(files * METADATA_ENTRY_BYTES + changes * JOURNAL_ENTRY_BYTES <= usize::MAX) by (nonlinear_arith)
            requires
                files <= before.metadata.dom().len(),
                changes <= before.journal.dom().len(),
                before.metadata.dom().len() * METADATA_ENTRY_BYTES as nat + before.journal.dom().len()
                    * JOURNAL_ENTRY_BYTES as nat <= usize::MAX,
        ;
    }
    let freed: (usize, usize) = (files * METADATA_ENTRY_BYTES + changes * JOURNAL_ENTRY_BYTES, files + changes);
    proof {
        let victims = choose|victims: Set<Seq<char>>|
            {
                &&& #[trigger] oldest_of(verified_times(before), count as nat, victims)
                &&& cache_system@ == forgotten(before, victims)
                &&& files == victims.len()
                &&& changes == before.journal.dom().intersect(victims).len()
            };
        assert(forgets(before, cache_system@, to_free as nat, victims, freed_view(freed)));
    }
    freed
}

/// Pruning and taking out only ever shrink the tables.
proof fn lemma_dropped_counts(g: GraphView, victims: Set<Seq<char>>)
    requires
        g.contexts.dom().finite(),
        g.files.dom().finite(),
        victims.subset_of(g.contexts.dom()),
    ensures
        pruned(without(g, victims)).files.dom().len() <= g.files.dom().len(),
        pruned(without(g, victims)).contexts.dom().len() == g.contexts.dom().len() - victims.len(),
        victims.len() <= g.contexts.dom().len(),
{
    let p = pruned(without(g, victims));
    assert(p.files.dom().subset_of(g.files.dom()));
    vstd::set_lib::lemma_len_subset(p.files.dom(), g.files.dom());
    let left = p.contexts.dom();
    assert(left =~= g.contexts.dom().difference(victims));
    vstd::set_lib::lemma_len_subset(victims, g.contexts.dom());
    vstd::set_lib::lemma_set_disjoint_lens(left, victims);
    assert(left + victims =~= g.contexts.dom());
}

/// Takes contexts out to free `to_free` bytes. Returns the estimated bytes and entries freed.
fn evict_contexts(dep_graph: &mut DepGraph, to_free: usize) -> (freed: (usize, usize))
    requires
        old(dep_graph).wf(),
        old(dep_graph)@.files.dom().len() * DEPGRAPH_FILE_BYTES as nat + old(dep_graph)@.contexts.dom().len()
            * DEPGRAPH_CONTEXT_BYTES as nat <= usize::MAX,
    ensures
        final(dep_graph).wf(),
        exists|victims: Set<Seq<char>>| #[trigger]
            drops(
                old(dep_graph)@,
                final(dep_graph)@,
                to_free as nat,
                victims,
                freed_view(freed),
            ),
{
    let ghost before = dep_graph@;
    let stats = dep_graph.stats();
    if to_free == 0 || stats.context_count == 0 {
        let freed: (usize, usize) = (0, 0);
        assert(drops(before, dep_graph@, to_free as nat, Set::empty(), freed_view(freed)));
        return freed;
    }
    let wanted: usize = (to_free - 1) / DEPGRAPH_CONTEXT_BYTES + 1;
    assert(wanted == contexts_wanted(to_free as nat));
    proof {
        dep_graph.lemma_finite();
    }
    let removed = dep_graph.trim_oldest(wanted);
    let files_after = dep_graph.stats().file_count;
    let files: usize = if files_after <= stats.file_count {
        stats.file_count - files_after
    } else {
        0
    };
    proof {
        let victims = choose|victims: Set<Seq<char>>|
            {
                &&& #[trigger] least_recent(before, wanted as nat, victims)
                &&& dep_graph@ == pruned(without(before, victims))
                &&& removed == victims.len()
            };
        assert(crate::graph::maintenance::accessed_times(before).dom() =~= before.contexts.dom());
        lemma_dropped_counts(before, victims);
        assert(removed * DEPGRAPH_CONTEXT_BYTES + files * DEPGRAPH_FILE_BYTES <= usize::MAX) by (nonlinear_arith)
            requires
                removed <= before.contexts.dom().len(),
                files <= before.files.dom().len(),
                before.files.dom().len() * DEPGRAPH_FILE_BYTES as nat + before.contexts.dom().len()
                    * DEPGRAPH_CONTEXT_BYTES as nat <= usize::MAX,
        ;
    }
    let freed: (usize, usize) = (removed * DEPGRAPH_CONTEXT_BYTES + files * DEPGRAPH_FILE_BYTES, removed + files);
    proof {
        let victims = choose|victims: Set<Seq<char>>|
            {
                &&& #[trigger] least_recent(before, wanted as nat, victims)
                &&& dep_graph@ == pruned(without(before, victims))
                &&& removed == victims.len()
            };
        assert(drops(before, dep_graph@, to_free as nat, victims, freed_view(freed)));
    }
    freed
}

/// Evicts entries, as of `now`, until the estimate is at nine tenths of the budget; does nothing
/// within the budget. Artifacts stay: their payloads are on disk, under a budget of their own.
/// Returns the estimated bytes and the entries freed.
pub fn evict_to_budget_at(
    budget_bytes: u64,
    cache_system: &mut CacheSystem,
    dep_graph: &mut DepGraph,
    fast_hit_cache: &mut FastHitCache,
    artifacts: &Table<CachedArtifact>,
    in_flight_bytes: usize,
    now: u128,
) -> (freed: (u64, usize))
    requires
        old(cache_system).wf(),
        old(dep_graph).wf(),
        old(fast_hit_cache).wf(),
        artifacts.wf(),
        payload_sum(artifacts@) <= usize::MAX,
        estimate(
            (CachesView {
                cache: old(cache_system)@,
                graph: old(dep_graph)@,
                fast: old(fast_hit_cache)@,
                artifacts: artifacts@,
            }),
        ) <= usize::MAX,
    ensures
        final(cache_system).wf(),
        final(dep_graph).wf(),
        final(fast_hit_cache).wf(),
        evicts(
            (CachesView {
                cache: old(cache_system)@,
                graph: old(dep_graph)@,
                fast: old(fast_hit_cache)@,
                artifacts: artifacts@,
            }),
            (CachesView {
                cache: final(cache_system)@,
                graph: final(dep_graph)@,
                fast: final(fast_hit_cache)@,
                artifacts: artifacts@,
            }),
            budget_bytes as nat,
            now,
            freed.0 as nat,
            freed.1 as nat,
        ),
{
    let ghost before = CachesView {
        cache: cache_system@,
        graph: dep_graph@,
        fast: fast_hit_cache@,
        artifacts: artifacts@,
    };
    let snap = memory_snapshot(cache_system, dep_graph, fast_hit_cache, artifacts, in_flight_bytes);
    let total: u64 = snap.total_bytes as u64;
    if total <= budget_bytes {
        return (0, 0);
    }
    let target = target_of(budget_bytes);
    let to_free: usize = (total - target) as usize;
    proof {
        cache_system.lemma_finite();
        dep_graph.lemma_finite();
        fast_hit_cache.lemma_finite();
        vstd::set_lib::lemma_len_subset(
            old_hits(before.fast, now, FAST_HIT_BUDGET_TRIM_MAX_AGE),
            before.fast.dom(),
        );
    }
    let hits = fast_hit_cache.trim_at(now, FAST_HIT_BUDGET_TRIM_MAX_AGE);
    let first: usize = hits * FAST_HIT_ENTRY_BYTES;
    let left: usize = if to_free >= first {
        to_free - first
    } else {
        0
    };
    let second = evict_files(cache_system, left);
    let short: usize = if left >= second.0 {
        left - second.0
    } else {
        0
    };
    let third = evict_contexts(dep_graph, short);
    let ghost after = CachesView {
        cache: cache_system@,
        graph: dep_graph@,
        fast: fast_hit_cache@,
        artifacts: artifacts@,
    };
    let ghost shortfall = (estimate(before) - nine_tenths(budget_bytes as nat)) as nat;
    proof {
        assert(to_free as nat == shortfall);
        assert(fast_freed(before, now) == freed_view((first, hits)));
        assert(left as nat == minus(shortfall, fast_freed(before, now).bytes));
        assert(short as nat == minus(left as nat, freed_view(second).bytes));
        let files = choose|victims: Set<Seq<char>>| #[trigger]
            forgets(before.cache, after.cache, left as nat, victims, freed_view(second));
        let contexts = choose|victims: Set<Seq<char>>| #[trigger]
            drops(before.graph, after.graph, short as nat, victims, freed_view(third));
        assert(steps(before, after, shortfall, now, files, freed_view(second), contexts, freed_view(third)));
        lemma_freed(before, after, shortfall, now, files, freed_view(second), contexts, freed_view(third));
    }
    let freed: (u64, usize) = ((first + second.0 + third.0) as u64, hits + second.1 + third.1);
    assert(evicts(before, after, budget_bytes as nat, now, freed.0 as nat, freed.1 as nat));
    freed
}

/// What the steps of an eviction free is what the estimate loses; and unless neither a context nor
/// a file with metadata is left, it is enough.
proof fn lemma_freed(
    before: CachesView,
    after: CachesView,
    to_free: nat,
    now: u128,
    files: Set<Seq<char>>,
    second: Freed,
    contexts: Set<Seq<char>>,
    third: Freed,
)
    requires
        before.cache.metadata.dom().finite(),
        before.cache.journal.dom().finite(),
        before.graph.contexts.dom().finite(),
        before.graph.files.dom().finite(),
        before.fast.dom().finite(),
        steps(before, after, to_free, now, files, second, contexts, third),
    ensures
        estimate(before) == estimate(after) + fast_freed(before, now).bytes + second.bytes + third.bytes,
        fast_freed(before, now).items + second.items + third.items <= estimate(before),
        fast_freed(before, now).bytes + second.bytes + third.bytes >= to_free || (after.graph.contexts.dom().len() == 0
            && after.cache.metadata.dom().len() == 0),
        before.graph.contexts.dom().len() - after.graph.contexts.dom().len() <= contexts_wanted(to_free),
{
    let old_ones = old_hits(before.fast, now, FAST_HIT_BUDGET_TRIM_MAX_AGE);
    let first = fast_freed(before, now);
    let left = minus(to_free, first.bytes);
    let short = minus(left, second.bytes);
    assert(old_ones.subset_of(before.fast.dom()));
    lemma_removed_len(before.fast.dom(), old_ones);
    assert(after.fast.dom() =~= before.fast.dom().difference(old_ones));
    assert(before.fast.dom().intersect(old_ones) =~= old_ones);
    if left > 0 && before.cache.metadata.dom().len() > 0 {
        assert(verified_times(before.cache).dom() =~= before.cache.metadata.dom());
        lemma_removed_len(before.cache.metadata.dom(), files);
        assert(before.cache.metadata.dom().intersect(files) =~= files);
        assert(after.cache.metadata.dom() =~= before.cache.metadata.dom().difference(files));
        lemma_removed_len(before.cache.journal.dom(), files);
        assert(after.cache.journal.dom() =~= before.cache.journal.dom().difference(files));
        if files.len() < before.cache.metadata.dom().len() {
            assert(files.len() * METADATA_ENTRY_BYTES >= left);
        }
    }
    if short > 0 && before.graph.contexts.dom().len() > 0 {
        assert(crate::graph::maintenance::accessed_times(before.graph).dom() =~= before.graph.contexts.dom());
        lemma_dropped_counts(before.graph, contexts);
        assert(contexts_wanted(short) * DEPGRAPH_CONTEXT_BYTES >= short);
        assert(contexts_wanted(short) <= contexts_wanted(to_free));
        if contexts.len() == contexts_wanted(short) {
            assert(third.bytes >= short);
        } else {
            assert(after.graph.contexts.dom().len() == 0);
        }
    }
}

/// Taking a set's members out leaves the others.
proof fn lemma_removed_len(dom: Set<Seq<char>>, gone: Set<Seq<char>>)
    requires
        dom.finite(),
    ensures
        dom.difference(gone).len() + dom.intersect(gone).len() == dom.len(),
        dom.intersect(gone).len() <= dom.len(),
{
    let a = dom.difference(gone);
    let b = dom.intersect(gone);
    vstd::set_lib::lemma_set_disjoint_lens(a, b);
    assert(a + b =~= dom);
}

/// Evicts entries until the estimate is at nine tenths of the budget; does nothing within the
/// budget. Returns the estimated bytes and the entries freed.
pub fn evict_to_budget(
    budget_bytes: u64,
    cache_system: &mut CacheSystem,
    dep_graph: &mut DepGraph,
    fast_hit_cache: &mut FastHitCache,
    artifacts: &Table<CachedArtifact>,
    in_flight_bytes: usize,
) -> (freed: (u64, usize))
    requires
        old(cache_system).wf(),
        old(dep_graph).wf(),
        old(fast_hit_cache).wf(),
        artifacts.wf(),
        payload_sum(artifacts@) <= usize::MAX,
        estimate(
            (CachesView {
                cache: old(cache_system)@,
                graph: old(dep_graph)@,
                fast: old(fast_hit_cache)@,
                artifacts: artifacts@,
            }),
        ) <= usize::MAX,
    ensures
        final(cache_system).wf(),
        final(dep_graph).wf(),
        final(fast_hit_cache).wf(),
        exists|now: u128| #[trigger]
            evicts(
                (CachesView {
                    cache: old(cache_system)@,
                    graph: old(dep_graph)@,
                    fast: old(fast_hit_cache)@,
                    artifacts: artifacts@,
                }),
                (CachesView {
                    cache: final(cache_system)@,
                    graph: final(dep_graph)@,
                    fast: final(fast_hit_cache)@,
                    artifacts: artifacts@,
                }),
                budget_bytes as nat,
                now,
                freed.0 as nat,
                freed.1 as nat,
            ),
{
    let now = fast_hit_cache.now();
    evict_to_budget_at(budget_bytes, cache_system, dep_graph, fast_hit_cache, artifacts, in_flight_bytes, now)
}

// ── Laws ────────────────────────────────────────────────────────────────

/// Whether the caches hold finitely many entries.
pub open spec fn finite_caches(c: CachesView) -> bool {
    &&& c.cache.metadata.dom().finite()
    &&& c.cache.journal.dom().finite()
    &&& c.graph.contexts.dom().finite()
    &&& c.graph.files.dom().finite()
    &&& c.fast.dom().finite()
}

/// The bytes reported as freed are those that the estimate lost, and afterwards the estimate is
/// at or below nine tenths of the budget, or neither a context nor a file with metadata is left to
/// evict.
pub proof fn lemma_eviction_reaches_target(
    before: CachesView,
    after: CachesView,
    budget: nat,
    now: u128,
    bytes: nat,
    items: nat,
)
    requires
        finite_caches(before),
        evicts(before, after, budget, now, bytes, items),
    ensures
        estimate(after) + bytes == estimate(before),
        estimate(before) > budget ==> estimate(after) <= nine_tenths(budget) || (after.graph.contexts.dom().len()
            == 0 && after.cache.metadata.dom().len() == 0),
{
    if estimate(before) > budget {
        let to_free = (estimate(before) - nine_tenths(budget)) as nat;
        let (files, second, contexts, third) = choose|
            files: Set<Seq<char>>,
            second: Freed,
            contexts: Set<Seq<char>>,
            third: Freed,
        |
            {
                &&& #[trigger] steps(before, after, to_free, now, files, second, contexts, third)
                &&& bytes == fast_freed(before, now).bytes + second.bytes + third.bytes
                &&& items == fast_freed(before, now).items + second.items + third.items
            };
        lemma_freed(before, after, to_free, now, files, second, contexts, third);
    }
}

/// A breach of the budget costs only the contexts that the shortfall calls for.
pub proof fn lemma_eviction_is_proportional(
    before: CachesView,
    after: CachesView,
    budget: nat,
    now: u128,
    bytes: nat,
    items: nat,
)
    requires
        finite_caches(before),
        estimate(before) > budget,
        evicts(before, after, budget, now, bytes, items),
    ensures
        before.graph.contexts.dom().len() - after.graph.contexts.dom().len() <= contexts_wanted(
            (estimate(before) - nine_tenths(budget)) as nat,
        ),
{
    let to_free = (estimate(before) - nine_tenths(budget)) as nat;
    let (files, second, contexts, third) = choose|
        files: Set<Seq<char>>,
        second: Freed,
        contexts: Set<Seq<char>>,
        third: Freed,
    |
        {
            &&& #[trigger] steps(before, after, to_free, now, files, second, contexts, third)
            &&& bytes == fast_freed(before, now).bytes + second.bytes + third.bytes
            &&& items == fast_freed(before, now).items + second.items + third.items
        };
    lemma_freed(before, after, to_free, now, files, second, contexts, third);
}

/// Fast hits of the last few seconds outlive every eviction.
pub proof fn lemma_eviction_keeps_recent_hits(
    before: CachesView,
    after: CachesView,
    budget: nat,
    now: u128,
    bytes: nat,
    items: nat,
    key: Seq<char>,
)
    requires
        evicts(before, after, budget, now, bytes, items),
        before.fast.contains_key(key),
        now - before.fast[key].cached_at <= FAST_HIT_BUDGET_TRIM_MAX_AGE,
    ensures
        after.fast.contains_key(key),
        after.fast[key] == before.fast[key],
{
}

/// Artifacts never leave memory for the memory budget's sake, and what they weigh on disk plays
/// no part in it: with other payloads the estimate is the same.
pub proof fn lemma_payload_is_no_cost(c: CachesView, artifacts: Map<Seq<char>, CachedArtifact>)
    requires
        artifacts.dom() == c.artifacts.dom(),
    ensures
        estimate((CachesView { artifacts, ..c })) == estimate(c),
{
}

/// Contexts, which are the dearest to lose, go last: none goes where dropping fast hits and
/// forgetting files freed enough.
pub proof fn lemma_contexts_go_last(
    before: CachesView,
    after: CachesView,
    to_free: nat,
    now: u128,
    files: Set<Seq<char>>,
    second: Freed,
    contexts: Set<Seq<char>>,
    third: Freed,
)
    requires
        steps(before, after, to_free, now, files, second, contexts, third),
        fast_freed(before, now).bytes + second.bytes >= to_free,
    ensures
        after.graph == before.graph,
{
}

} // verus!
