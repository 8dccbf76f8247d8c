//! What evictions and trims take, and what they leave.

use vstd::prelude::*;
use crate::disk_eviction::{
    artifact_stem, disk_groups, disk_plan, disk_usage, file_groups, files_outside, files_size, group_at, lemma_disk_split,
    lemma_size_at_known, size_of_keys, staged_of_keys, staged_outside, staged_size, used_at, with_file, DiskFile, GroupView,
    StagedArtifact,
};
use crate::eviction::{
    estimate, evicts, fast_freed, finite_caches, minus, nine_tenths, old_hits, steps, CachesView, FastHitEntry, Freed,
};
use crate::fscache::verified_times;
use crate::graph::maintenance::{accessed_times, expired_keys, invalidated, pointing, pruned, without};
use crate::graph::GraphView;
use crate::text::lemma_last_at;

verus! {

// ── The graph ───────────────────────────────────────────────────────────

/// Pruning keeps a scanned file exactly where some context has it as its source, as one of its
/// headers, or as read before the source; and it changes nothing else of files and contexts.
pub proof fn lemma_pruned_files(g: GraphView, path: Seq<char>)
    ensures
        pruned(g).files.contains_key(path) <==> g.files.contains_key(path) && exists|k: Seq<char>| #[trigger]
            g.contexts.contains_key(k) && (g.contexts[k].context.source == path || g.contexts[k].resolved.contains(path)
                || g.contexts[k].context.forced.contains(path)),
        pruned(g).files.contains_key(path) ==> pruned(g).files[path] == g.files[path],
        pruned(g).contexts == g.contexts,
        pruned(g).style == g.style,
        pruned(g).checks == g.checks && pruned(g).hits == g.hits && pruned(g).misses == g.misses,
{
}

/// Pruning keeps what is known of a context beside it exactly where the context is there.
pub proof fn lemma_pruned_side_entries(g: GraphView, key: Seq<char>)
    ensures
        pruned(g).externs.contains_key(key) <==> g.externs.contains_key(key) && g.contexts.contains_key(key),
        pruned(g).env_deps.contains_key(key) <==> g.env_deps.contains_key(key) && g.contexts.contains_key(key),
        pruned(g).externs.contains_key(key) ==> pruned(g).externs[key] == g.externs[key],
        pruned(g).env_deps.contains_key(key) ==> pruned(g).env_deps[key] == g.env_deps[key],
{
}

/// Forgetting artifacts takes the artifact from every context that has one of them, and from no
/// other; nothing else of any context changes.
pub proof fn lemma_invalidated(g: GraphView, evicted: Seq<Seq<char>>, key: Seq<char>)
    ensures
        ({
            let after = invalidated(g, evicted);
            &&& after.contexts.contains_key(key) == g.contexts.contains_key(key)
            &&& g.contexts.contains_key(key) ==> {
                let old_entry = g.contexts[key];
                let entry = after.contexts[key];
                &&& entry.artifact == (if old_entry.artifact is Some && evicted.contains(old_entry.artifact->0) {
                    None
                } else {
                    old_entry.artifact
                })
                &&& entry.context == old_entry.context
                &&& entry.key_root == old_entry.key_root
                &&& entry.resolved == old_entry.resolved
                &&& entry.unresolved == old_entry.unresolved
                &&& entry.has_computed == old_entry.has_computed
                &&& entry.hashes == old_entry.hashes
                &&& entry.accessed == old_entry.accessed
                &&& entry.state == old_entry.state
            }
            &&& pointing(g, evicted).contains(key) <==> g.contexts.contains_key(key) && g.contexts[key].artifact is Some
                && evicted.contains(g.contexts[key].artifact->0)
            &&& after.files == g.files
            &&& after.externs == g.externs
            &&& after.env_deps == g.env_deps
        }),
{
}

/// Trimming by age takes out as many contexts as it says, and keeps the others as they are.
pub proof fn lemma_trim_counts(g: GraphView, now: u128, max_age: u128, key: Seq<char>)
    requires
        g.contexts.dom().finite(),
    ensures
        ({
            let after = pruned(without(g, expired_keys(g, now, max_age)));
            &&& after.contexts.dom().len() + expired_keys(g, now, max_age).len() == g.contexts.dom().len()
            &&& after.contexts.contains_key(key) ==> g.contexts.contains_key(key) && after.contexts[key] == g.contexts[key]
            &&& g.contexts.contains_key(key) && now - g.contexts[key].accessed <= max_age ==> after.contexts.contains_key(key)
            &&& g.contexts.contains_key(key) && now - g.contexts[key].accessed > max_age ==> !after.contexts.contains_key(key)
        }),
{
    let gone = expired_keys(g, now, max_age);
    let after = pruned(without(g, gone));
    assert(gone.subset_of(g.contexts.dom()));
    assert(after.contexts.dom() =~= g.contexts.dom().difference(gone));
    vstd::set_lib::lemma_set_disjoint_lens(after.contexts.dom(), gone);
    assert(after.contexts.dom() + gone =~= g.contexts.dom());
}

// ── Memory ──────────────────────────────────────────────────────────────

/// What the entries are estimated to weigh.
pub proof fn lemma_estimate(c: CachesView)
    ensures
        estimate(c) == 400 * c.cache.metadata.dom().len() + 280 * c.cache.journal.dom().len() + 600 * c.graph.files.dom().len()
            + 2048 * c.graph.contexts.dom().len() + 200 * c.fast.dom().len() + 200 * c.artifacts.dom().len(),
{
}

/// Nine tenths, rounded down.
pub proof fn lemma_nine_tenths(budget: nat)
    ensures
        10 * nine_tenths(budget) <= 9 * budget < 10 * nine_tenths(budget) + 10,
{
}

/// A fast hit is old exactly where it was made more than the age before.
pub proof fn lemma_old_hits(hits: Map<Seq<char>, FastHitEntry>, now: u128, max_age: u128, key: Seq<char>)
    ensures
        old_hits(hits, now, max_age).contains(key) <==> hits.contains_key(key) && now - hits[key].cached_at > max_age,
{
}

/// Within the budget nothing is evicted.
pub proof fn lemma_no_eviction_within_budget(before: CachesView, after: CachesView, budget: nat, now: u128, bytes: nat, items: nat)
    requires
        evicts(before, after, budget, now, bytes, items),
        400 * before.cache.metadata.dom().len() + 280 * before.cache.journal.dom().len() + 600 * before.graph.files.dom().len() + 2048
            * before.graph.contexts.dom().len() + 200 * before.fast.dom().len() + 200 * before.artifacts.dom().len() <= budget,
    ensures
        after == before,
        bytes == 0,
        items == 0,
{
    lemma_estimate(before);
}

/// Over the budget, every fast hit older than five seconds goes, and no younger one; of files and
/// of contexts the ones used longest ago go: none that goes was used after one that stays. All that
/// stays is as it was, artifacts stay, and what is reported is the number of entries that went.
pub proof fn lemma_eviction_takes_the_oldest(before: CachesView, after: CachesView, budget: nat, now: u128, bytes: nat, items: nat)
    requires
        finite_caches(before),
        evicts(before, after, budget, now, bytes, items),
        estimate(before) > budget,
    ensures
        forall|k: Seq<char>|
            #[trigger] after.fast.contains_key(k) <==> before.fast.contains_key(k) && now - before.fast[k].cached_at
                <= 5_000_000_000,
        forall|k: Seq<char>| #[trigger] after.fast.contains_key(k) ==> after.fast[k] == before.fast[k],
        forall|k: Seq<char>|
            #[trigger] after.cache.metadata.contains_key(k) ==> before.cache.metadata.contains_key(k) && after.cache.metadata[k]
                == before.cache.metadata[k],
        forall|gone: Seq<char>, left: Seq<char>|
            #![trigger before.cache.metadata.contains_key(gone), after.cache.metadata.contains_key(left)]
            before.cache.metadata.contains_key(gone) && !after.cache.metadata.contains_key(gone)
                && after.cache.metadata.contains_key(left) ==> before.cache.metadata[gone].last_verified
                <= before.cache.metadata[left].last_verified,
        forall|k: Seq<char>|
            #[trigger] after.cache.journal.contains_key(k) ==> before.cache.journal.contains_key(k) && after.cache.journal[k]
                == before.cache.journal[k],
        forall|k: Seq<char>|
            before.cache.journal.contains_key(k) && !#[trigger] after.cache.journal.contains_key(k)
                ==> before.cache.metadata.contains_key(k) && !after.cache.metadata.contains_key(k),
        after.cache.clock == before.cache.clock,
        forall|k: Seq<char>|
            #[trigger] after.graph.contexts.contains_key(k) ==> before.graph.contexts.contains_key(k) && after.graph.contexts[k]
                == before.graph.contexts[k],
        forall|gone: Seq<char>, left: Seq<char>|
            #![trigger before.graph.contexts.contains_key(gone), after.graph.contexts.contains_key(left)]
            before.graph.contexts.contains_key(gone) && !after.graph.contexts.contains_key(gone)
                && after.graph.contexts.contains_key(left) ==> before.graph.contexts[gone].accessed
                <= before.graph.contexts[left].accessed,
        after.artifacts == before.artifacts,
        items == (before.fast.dom().len() - after.fast.dom().len()) + (before.cache.metadata.dom().len()
            - after.cache.metadata.dom().len()) + (before.cache.journal.dom().len() - after.cache.journal.dom().len()) + (
        before.graph.contexts.dom().len() - after.graph.contexts.dom().len()) + (before.graph.files.dom().len()
            - after.graph.files.dom().len()),
{
    let to_free = (estimate(before) - nine_tenths(budget)) as nat;
    let (files, second, contexts, third) = choose|
        files: Set<Seq<char>>,
        second: Freed,
        contexts: Set<Seq<char>>,
        third: Freed,
    |
        {
            &&& #[trigger] steps(before, after, to_free, now, files, second, contexts, third)
            &&& bytes == fast_freed(before, now).bytes + second.bytes + third.bytes
            &&& items == fast_freed(before, now).items + second.items + third.items
        };
    lemma_fast_step(before, after, to_free, now, files, second, contexts, third);
    lemma_file_step(before, after, to_free, now, files, second, contexts, third);
    lemma_context_step(before, after, to_free, now, files, second, contexts, third);
}

/// Over the budget no more goes than the shortfall calls for: without the last of the files that go,
/// the fast hits and the metadata of the other files would not do; and contexts go only where all
/// that does not do either, and without the last of them it would not do.
pub proof fn lemma_eviction_takes_no_more(before: CachesView, after: CachesView, budget: nat, now: u128, bytes: nat, items: nat)
    requires
        finite_caches(before),
        evicts(before, after, budget, now, bytes, items),
        estimate(before) > budget,
    ensures
        ({
            let to_free = estimate(before) - nine_tenths(budget);
            let hits = before.fast.dom().len() - after.fast.dom().len();
            let files = before.cache.metadata.dom().len() - after.cache.metadata.dom().len();
            let notes = before.cache.journal.dom().len() - after.cache.journal.dom().len();
            let contexts = before.graph.contexts.dom().len() - after.graph.contexts.dom().len();
            &&& files > 0 ==> 200 * hits + 400 * (files - 1) < to_free
            &&& contexts > 0 ==> 200 * hits + 400 * files + 280 * notes + 2048 * (contexts - 1) < to_free
        }),
{
    let to_free = (estimate(before) - nine_tenths(budget)) as nat;
    let (files, second, contexts, third) = choose|
        files: Set<Seq<char>>,
        second: Freed,
        contexts: Set<Seq<char>>,
        third: Freed,
    |
        {
            &&& #[trigger] steps(before, after, to_free, now, files, second, contexts, third)
            &&& bytes == fast_freed(before, now).bytes + second.bytes + third.bytes
            &&& items == fast_freed(before, now).items + second.items + third.items
        };
    lemma_fast_step(before, after, to_free, now, files, second, contexts, third);
    lemma_file_counts(before, after, to_free, now, files, second, contexts, third);
    lemma_context_counts(before, after, to_free, now, files, second, contexts, third);
}

/// How many files the second step takes.
proof fn lemma_file_counts(
    before: CachesView,
    after: CachesView,
    to_free: nat,
    now: u128,
    files: Set<Seq<char>>,
    second: Freed,
    contexts: Set<Seq<char>>,
    third: Freed,
)
    requires
        finite_caches(before),
        steps(before, after, to_free, now, files, second, contexts, third),
    ensures
        ({
            let n = before.cache.metadata.dom().len() - after.cache.metadata.dom().len();
            let notes = before.cache.journal.dom().len() - after.cache.journal.dom().len();
            &&& n > 0 ==> fast_freed(before, now).bytes + 400 * (n - 1) < to_free
            &&& second.bytes == 400 * n + 280 * notes
        }),
{
    let left = minus(to_free, fast_freed(before, now).bytes);
    if left > 0 && before.cache.metadata.dom().len() > 0 {
        let ages = verified_times(before.cache);
        assert(ages.dom() =~= before.cache.metadata.dom());
        assert(after.cache.metadata.dom() =~= before.cache.metadata.dom().difference(files));
        assert(before.cache.metadata.dom().intersect(files) =~= files);
        lemma_taken(before.cache.metadata.dom(), files);
        assert(after.cache.journal.dom() =~= before.cache.journal.dom().difference(files));
        lemma_taken(before.cache.journal.dom(), files);
        assert(files.len() <= (left + 399) / 400);
    }
}

/// How many contexts the third step takes.
proof fn lemma_context_counts(
    before: CachesView,
    after: CachesView,
    to_free: nat,
    now: u128,
    files: Set<Seq<char>>,
    second: Freed,
    contexts: Set<Seq<char>>,
    third: Freed,
)
    requires
        finite_caches(before),
        steps(before, after, to_free, now, files, second, contexts, third),
    ensures
        ({
            let n = before.graph.contexts.dom().len() - after.graph.contexts.dom().len();
            n > 0 ==> fast_freed(before, now).bytes + second.bytes + 2048 * (n - 1) < to_free
        }),
{
    let left = minus(minus(to_free, fast_freed(before, now).bytes), second.bytes);
    if left > 0 && before.graph.contexts.dom().len() > 0 {
        let ages = accessed_times(before.graph);
        assert(ages.dom() =~= before.graph.contexts.dom());
        assert(after.graph.contexts.dom() =~= before.graph.contexts.dom().difference(contexts));
        assert(before.graph.contexts.dom().intersect(contexts) =~= contexts);
        lemma_taken(before.graph.contexts.dom(), contexts);
        assert(contexts.len() <= (left + 2047) / 2048);
    }
}

/// The entries of a set that go and those that stay.
proof fn lemma_taken<A>(all: Set<A>, gone: Set<A>)
    requires
        all.finite(),
    ensures
        all.difference(gone).len() + all.intersect(gone).len() == all.len(),
{
    vstd::set_lib::lemma_set_disjoint_lens(all.difference(gone), all.intersect(gone));
    assert(all.difference(gone) + all.intersect(gone) =~= all);
}

/// What the first step takes.
proof fn lemma_fast_step(
    before: CachesView,
    after: CachesView,
    to_free: nat,
    now: u128,
    files: Set<Seq<char>>,
    second: Freed,
    contexts: Set<Seq<char>>,
    third: Freed,
)
    requires
        finite_caches(before),
        steps(before, after, to_free, now, files, second, contexts, third),
    ensures
        fast_freed(before, now).items == before.fast.dom().len() - after.fast.dom().len(),
        forall|k: Seq<char>|
            #[trigger] after.fast.contains_key(k) <==> before.fast.contains_key(k) && now - before.fast[k].cached_at
                <= 5_000_000_000,
{
    let gone = old_hits(before.fast, now, 5_000_000_000);
    assert(gone.subset_of(before.fast.dom()));
    assert(before.fast.dom().intersect(gone) =~= gone);
    assert(after.fast.dom() =~= before.fast.dom().difference(gone));
    lemma_taken(before.fast.dom(), gone);
}

/// What the second step takes.
proof fn lemma_file_step(
    before: CachesView,
    after: CachesView,
    to_free: nat,
    now: u128,
    files: Set<Seq<char>>,
    second: Freed,
    contexts: Set<Seq<char>>,
    third: Freed,
)
    requires
        finite_caches(before),
        steps(before, after, to_free, now, files, second, contexts, third),
    ensures
        second.items == (before.cache.metadata.dom().len() - after.cache.metadata.dom().len()) + (before.cache.journal.dom().len()
            - after.cache.journal.dom().len()),
        forall|gone: Seq<char>, left: Seq<char>|
            #![trigger before.cache.metadata.contains_key(gone), after.cache.metadata.contains_key(left)]
            before.cache.metadata.contains_key(gone) && !after.cache.metadata.contains_key(gone)
                && after.cache.metadata.contains_key(left) ==> before.cache.metadata[gone].last_verified
                <= before.cache.metadata[left].last_verified,
        forall|k: Seq<char>|
            before.cache.journal.contains_key(k) && !#[trigger] after.cache.journal.contains_key(k)
                ==> before.cache.metadata.contains_key(k) && !after.cache.metadata.contains_key(k),
{
    let ages = verified_times(before.cache);
    assert(ages.dom() =~= before.cache.metadata.dom());
    if after.cache != before.cache {
        assert(after.cache.metadata.dom() =~= before.cache.metadata.dom().difference(files));
        assert(before.cache.metadata.dom().intersect(files) =~= files);
        lemma_taken(before.cache.metadata.dom(), files);
        assert(after.cache.journal.dom() =~= before.cache.journal.dom().difference(files));
        lemma_taken(before.cache.journal.dom(), files);
        assert forall|gone: Seq<char>, left: Seq<char>|
            #![trigger before.cache.metadata.contains_key(gone), after.cache.metadata.contains_key(left)]
            before.cache.metadata.contains_key(gone) && !after.cache.metadata.contains_key(gone)
                && after.cache.metadata.contains_key(left) implies before.cache.metadata[gone].last_verified
            <= before.cache.metadata[left].last_verified by {
            assert(files.contains(gone));
            assert(ages.contains_key(left));
        }
        assert forall|k: Seq<char>|
            before.cache.journal.contains_key(k) && !#[trigger] after.cache.journal.contains_key(
                k,
            ) implies before.cache.metadata.contains_key(k) && !after.cache.metadata.contains_key(k) by {
            assert(files.contains(k));
            assert(ages.dom().contains(k));
        }
    } else if second.items != 0 {
        assert(after.cache.metadata.dom() =~= before.cache.metadata.dom().difference(files));
        assert(before.cache.metadata.dom().intersect(files) =~= files);
        lemma_taken(before.cache.metadata.dom(), files);
        assert(after.cache.journal.dom() =~= before.cache.journal.dom().difference(files));
        lemma_taken(before.cache.journal.dom(), files);
    }
}

/// What the third step takes.
proof fn lemma_context_step(
    before: CachesView,
    after: CachesView,
    to_free: nat,
    now: u128,
    files: Set<Seq<char>>,
    second: Freed,
    contexts: Set<Seq<char>>,
    third: Freed,
)
    requires
        finite_caches(before),
        steps(before, after, to_free, now, files, second, contexts, third),
    ensures
        third.items == (before.graph.contexts.dom().len() - after.graph.contexts.dom().len()) + (before.graph.files.dom().len()
            - after.graph.files.dom().len()),
        forall|gone: Seq<char>, left: Seq<char>|
            #![trigger before.graph.contexts.contains_key(gone), after.graph.contexts.contains_key(left)]
            before.graph.contexts.contains_key(gone) && !after.graph.contexts.contains_key(gone)
                && after.graph.contexts.contains_key(left) ==> before.graph.contexts[gone].accessed
                <= before.graph.contexts[left].accessed,
{
    let ages = accessed_times(before.graph);
    assert(ages.dom() =~= before.graph.contexts.dom());
    assert(after.graph.files.dom().subset_of(before.graph.files.dom()));
    vstd::set_lib::lemma_len_subset(after.graph.files.dom(), before.graph.files.dom());
    if after.graph == pruned(without(before.graph, contexts)) {
        assert(after.graph.contexts.dom() =~= before.graph.contexts.dom().difference(contexts));
        lemma_taken(before.graph.contexts.dom(), contexts);
        if contexts.subset_of(ages.dom()) {
            assert(before.graph.contexts.dom().intersect(contexts) =~= contexts);
        }
    }
    assert forall|gone: Seq<char>, left: Seq<char>|
        #![trigger before.graph.contexts.contains_key(gone), after.graph.contexts.contains_key(left)]
        before.graph.contexts.contains_key(gone) && !after.graph.contexts.contains_key(gone)
            && after.graph.contexts.contains_key(left) implies before.graph.contexts[gone].accessed
        <= before.graph.contexts[left].accessed by {
        assert(contexts.contains(gone));
        assert(ages.contains_key(left));
    }
}

// ── Disk ────────────────────────────────────────────────────────────────

/// Which artifact a file belongs to: `key.meta` and `key.pack` to `key`, and so every `key_part`
/// whose part holds no underscore and that ends in neither.
pub proof fn lemma_artifact_stem(key: Seq<char>, part: Seq<char>)
    requires
        !part.contains('_'),
        !".meta"@.is_suffix_of(key + seq!['_'] + part),
        !".pack"@.is_suffix_of(key + seq!['_'] + part),
    ensures
        artifact_stem(key + ".meta"@) == Some(key),
        artifact_stem(key + ".pack"@) == Some(key),
        artifact_stem(key + seq!['_'] + part) == Some(key),
{
    reveal_strlit(".meta");
    reveal_strlit(".pack");
    let a = key + ".meta"@;
    let b = key + ".pack"@;
    let n = key.len() as int;
    assert(a.skip(a.len() - 5) =~= ".meta"@);
    assert(a.take(n) =~= key);
    assert(b.skip(b.len() - 5) =~= ".pack"@);
    assert(b.take(n) =~= key);
    assert(!".meta"@.is_suffix_of(b)) by {
        if ".meta"@.is_suffix_of(b) {
            assert(b.skip(b.len() - 5)[1] == ".meta"@[1]);
        }
    }
    let c = key + seq!['_'] + part;
    assert forall|j: int| n < j < c.len() implies c[j] != '_' by {
        assert(c[j] == part[j - n - 1]);
        assert(part.contains(part[j - n - 1]));
    }
    assert(c[n] == '_');
    lemma_last_at(c, '_', n);
    assert(c.take(n) =~= key);
}

/// A file without an underscore that ends in neither belongs to no artifact.
pub proof fn lemma_no_artifact_stem(name: Seq<char>)
    requires
        !name.contains('_'),
        !".meta"@.is_suffix_of(name),
        !".pack"@.is_suffix_of(name),
    ensures
        artifact_stem(name) is None,
{
    assert forall|j: int| -1 < j < name.len() implies name[j] != '_' by {
        assert(name.contains(name[j]));
    }
    lemma_last_at(name, '_', -1);
}

/// When an artifact was last used, by its files: where it has a `.meta` file, when that was last
/// modified (the last one listed), and else when the latest of its files was.
pub proof fn lemma_file_times(files: Seq<DiskFile>, key: Seq<char>)
    ensures
        ({
            let group = group_at(file_groups(files), key);
            &&& group.meta matches Some(at) ==> exists|i: int|
                0 <= i < files.len() && artifact_stem((#[trigger] files[i]).name@) == Some(key) && ".meta"@.is_suffix_of(files[i].name@)
                    && files[i].mtime == at && forall|j: int|
                    i < j < files.len() && artifact_stem((#[trigger] files[j]).name@) == Some(key) ==> !".meta"@.is_suffix_of(
                        files[j].name@,
                    )
            &&& group.meta is None ==> forall|i: int|
                0 <= i < files.len() && artifact_stem((#[trigger] files[i]).name@) == Some(key) ==> !".meta"@.is_suffix_of(files[i].name@)
            &&& forall|i: int|
                0 <= i < files.len() && artifact_stem((#[trigger] files[i]).name@) == Some(key) && !".meta"@.is_suffix_of(files[i].name@)
                    ==> files[i].mtime <= group.latest
            &&& group.latest == 0 || exists|i: int|
                0 <= i < files.len() && artifact_stem((#[trigger] files[i]).name@) == Some(key) && !".meta"@.is_suffix_of(files[i].name@)
                    && files[i].mtime == group.latest
        }),
    decreases files.len(),
{
    if files.len() > 0 {
        let init = files.drop_last();
        let last = files.last();
        lemma_file_times(init, key);
        let before = group_at(file_groups(init), key);
        let group = group_at(file_groups(files), key);
        assert(files[files.len() - 1] == last);
        assert(forall|i: int| 0 <= i < init.len() ==> init[i] == files[i]);
        if artifact_stem(last.name@) == Some(key) {
            assert(group == with_file(before, last));
        } else {
            assert(group == before);
        }
        if group.meta is Some {
            if artifact_stem(last.name@) == Some(key) && ".meta"@.is_suffix_of(last.name@) {
                assert(files[files.len() - 1].mtime == group.meta->0);
            } else {
                let i = choose|i: int|
                    0 <= i < init.len() && artifact_stem((#[trigger] init[i]).name@) == Some(key) && ".meta"@.is_suffix_of(
                        init[i].name@,
                    ) && init[i].mtime == before.meta->0 && forall|j: int|
                        i < j < init.len() && artifact_stem((#[trigger] init[j]).name@) == Some(key) ==> !".meta"@.is_suffix_of(
                            init[j].name@,
                        );
                assert(files[i] == init[i]);
                assert forall|j: int| i < j < files.len() && artifact_stem((#[trigger] files[j]).name@) == Some(
                    key,
                ) implies !".meta"@.is_suffix_of(files[j].name@) by {
                    if j < init.len() {
                        assert(init[j] == files[j]);
                    }
                }
            }
        } else {
            assert forall|i: int| 0 <= i < files.len() && artifact_stem((#[trigger] files[i]).name@) == Some(
                key,
            ) implies !".meta"@.is_suffix_of(files[i].name@) by {
                if i < init.len() {
                    assert(init[i] == files[i]);
                }
            }
        }
        assert forall|i: int|
            0 <= i < files.len() && artifact_stem((#[trigger] files[i]).name@) == Some(key) && !".meta"@.is_suffix_of(
                files[i].name@,
            ) implies files[i].mtime <= group.latest by {
            if i < init.len() {
                assert(init[i] == files[i]);
            }
        }
        if group.latest != 0 {
            if group.latest == before.latest {
                let i = choose|i: int|
                    0 <= i < init.len() && artifact_stem((#[trigger] init[i]).name@) == Some(key) && !".meta"@.is_suffix_of(
                        init[i].name@,
                    ) && init[i].mtime == before.latest;
                assert(files[i] == init[i]);
            } else {
                assert(files[files.len() - 1].mtime == group.latest);
            }
        }
    }
}

/// What is staged of an artifact adds to it: it counts as staged, and it was used no earlier.
pub proof fn lemma_staged_times(files: Seq<DiskFile>, staged: Seq<StagedArtifact>, key: Seq<char>)
    ensures
        ({
            let group = group_at(disk_groups(files, staged), key);
            let plain = group_at(file_groups(files), key);
            &&& group.staged <==> exists|i: int| 0 <= i < staged.len() && (#[trigger] staged[i]).key@ == key
            &&& group.meta == plain.meta
            &&& group.latest >= plain.latest
            &&& forall|i: int| 0 <= i < staged.len() && (#[trigger] staged[i]).key@ == key ==> staged[i].mtime <= group.latest
            &&& group.latest == plain.latest || exists|i: int|
                0 <= i < staged.len() && (#[trigger] staged[i]).key@ == key && staged[i].mtime == group.latest
            &&& disk_groups(files, staged).contains_key(key) <==> file_groups(files).contains_key(key) || group.staged
        }),
    decreases staged.len(),
{
    if staged.len() == 0 {
        lemma_no_file_is_staged(files, key);
    } else {
        let init = staged.drop_last();
        let last = staged.last();
        lemma_staged_times(files, init, key);
        let before = group_at(disk_groups(files, init), key);
        let group = group_at(disk_groups(files, staged), key);
        assert(staged[staged.len() - 1] == last);
        assert(forall|i: int| 0 <= i < init.len() ==> init[i] == staged[i]);
        if before.staged {
            let i = choose|i: int| 0 <= i < init.len() && (#[trigger] init[i]).key@ == key;
            assert(staged[i].key@ == key);
        }
        if exists|i: int| 0 <= i < staged.len() && (#[trigger] staged[i]).key@ == key {
            let i = choose|i: int| 0 <= i < staged.len() && (#[trigger] staged[i]).key@ == key;
            if i < init.len() {
                assert(init[i].key@ == key);
            }
        }
        assert forall|i: int| 0 <= i < staged.len() && (#[trigger] staged[i]).key@ == key implies staged[i].mtime <= group.latest by {
            if i < init.len() {
                assert(init[i] == staged[i]);
            }
        }
        if group.latest != group_at(file_groups(files), key).latest {
            if group.latest == before.latest {
                let i = choose|i: int| 0 <= i < init.len() && (#[trigger] init[i]).key@ == key && init[i].mtime == before.latest;
                assert(staged[i] == init[i]);
            } else {
                assert(staged[staged.len() - 1].mtime == group.latest);
            }
        }
    }
}

/// Files of the directory stage nothing.
proof fn lemma_no_file_is_staged(files: Seq<DiskFile>, key: Seq<char>)
    ensures
        !group_at(file_groups(files), key).staged,
    decreases files.len(),
{
    if files.len() > 0 {
        lemma_no_file_is_staged(files.drop_last(), key);
    }
}

/// An artifact counts as used when its `.meta` file was, and where it has none, when the latest of
/// what it has was.
pub proof fn lemma_used_at(group: GroupView)
    ensures
        group.meta is Some ==> used_at(group) == group.meta->0,
        group.meta is None ==> used_at(group) == group.latest,
{
}

/// Over the budget the artifacts used longest ago go: none that goes was used after one that stays.
/// No more go than needed: without the last, usage would be above nine tenths of the budget. And
/// what goes and what stays make up what there was.
pub proof fn lemma_disk_eviction_takes_the_oldest(files: Seq<DiskFile>, staged: Seq<StagedArtifact>, max: nat, keys: Seq<Seq<char>>)
    requires
        disk_plan(files, staged, max, keys),
        files_size(files) + staged_size(staged) <= u64::MAX,
    ensures
        keys.no_duplicates(),
        forall|gone: Seq<char>, left: Seq<char>|
            #![trigger keys.contains(gone), disk_groups(files, staged).contains_key(left)]
            keys.contains(gone) && disk_groups(files, staged).contains_key(left) && !keys.contains(left) ==> used_at(
                disk_groups(files, staged)[gone],
            ) <= used_at(disk_groups(files, staged)[left]),
        forall|i: int, j: int|
            #![trigger keys[i], keys[j]]
            0 <= i < j < keys.len() ==> used_at(disk_groups(files, staged)[keys[i]]) <= used_at(disk_groups(files, staged)[keys[j]]),
        forall|i: int| 0 <= i < keys.len() ==> disk_groups(files, staged).contains_key(#[trigger] keys[i]),
        keys.len() > 0 ==> files_size(files) + staged_size(staged) > nine_tenths(max) + size_of_keys(
            disk_groups(files, staged),
            keys.drop_last(),
        ),
        size_of_keys(disk_groups(files, staged), keys) + files_size(files_outside(files, keys)) + staged_size(
            staged_outside(staged, keys),
        ) == files_size(files) + staged_size(staged),
{
    let groups = disk_groups(files, staged);
    assert forall|gone: Seq<char>, left: Seq<char>|
        #![trigger keys.contains(gone), groups.contains_key(left)]
        keys.contains(gone) && groups.contains_key(left) && !keys.contains(left) implies used_at(groups[gone]) <= used_at(
        groups[left],
    ) by {
        let i = keys.index_of(gone);
        assert(keys[i] == gone);
    }
    lemma_disk_split(files, staged, keys);
    lemma_size_at_known(groups, keys);
}

/// The staged artifacts that go are those of the keys that are staged.
pub proof fn lemma_staged_of_keys(groups: Map<Seq<char>, GroupView>, keys: Seq<Seq<char>>, key: Seq<char>)
    ensures
        staged_of_keys(groups, keys).contains(key) <==> keys.contains(key) && groups[key].staged,
    decreases keys.len(),
{
    if keys.len() > 0 {
        let init = keys.drop_last();
        lemma_staged_of_keys(groups, init, key);
        let before = staged_of_keys(groups, init);
        let now = staged_of_keys(groups, keys);
        assert(keys[keys.len() - 1] == keys.last());
        assert(keys.contains(key) <==> init.contains(key) || key == keys.last()) by {
            if init.contains(key) {
                assert(keys[init.index_of(key)] == key);
            }
            if keys.contains(key) && key != keys.last() {
                assert(init[keys.index_of(key)] == key);
            }
        }
        if groups[keys.last()].staged {
            assert(now.contains(key) <==> before.contains(key) || key == keys.last()) by {
                if before.contains(key) {
                    assert(now[before.index_of(key)] == key);
                }
                assert(now[now.len() - 1] == keys.last());
                if now.contains(key) && key != keys.last() {
                    assert(before[now.index_of(key)] == key);
                }
            }
        }
    }
}

/// Each file that belongs to some artifact counts with its size in the usage, and no other; so does
/// each staged artifact.
pub proof fn lemma_usage_counts(files: Seq<DiskFile>, file: DiskFile, staged: Seq<StagedArtifact>, item: StagedArtifact)
    ensures
        files_size(files.push(file)) == files_size(files) + (if artifact_stem(file.name@) is Some {
            file.size as nat
        } else {
            0
        }),
        staged_size(staged.push(item)) == staged_size(staged) + item.total_size,
        files_size(files) + staged_size(staged) <= u64::MAX ==> disk_usage(files, staged) == files_size(files) + staged_size(staged),
{
    assert(files.push(file).drop_last() =~= files);
    assert(staged.push(item).drop_last() =~= staged);
}

} // verus!
