//! What holds of the graph across operations.

use vstd::prelude::*;
use super::checks::{changed_among, checked, hashed_externs, recorded, updated, verdict, VerdictView};
use super::maintenance::{
    accessed_times, expired_keys, in_state, invalidated, least_recent, pointing, points_into, pruned, referenced,
    refers_to, with_artifact, without,
};
use super::{emptied, ContextState, GraphView};
use crate::context::{fact_hash, FileFact};

verus! {

/// A context whose artifact was evicted is never a hit until a compilation is recorded for it
/// again, whatever is known of its files.
pub proof fn lemma_invalidated_is_no_hit(g: GraphView, evicted: Seq<Seq<char>>, key: Seq<char>, facts: Seq<FileFact>)
    requires
        g.contexts.contains_key(key),
        points_into(g.contexts[key], evicted),
    ensures
        verdict(invalidated(g, evicted), key, facts) == VerdictView::Cold,
{
}

/// A hit never names an artifact that was evicted.
pub proof fn lemma_hit_is_not_evicted(g: GraphView, evicted: Seq<Seq<char>>, key: Seq<char>, facts: Seq<FileFact>)
    ensures
        verdict(invalidated(g, evicted), key, facts) matches VerdictView::Hit(artifact) ==> !evicted.contains(artifact),
{
}

/// Eviction leaves the verdict on every other context as it was.
pub proof fn lemma_invalidation_is_precise(g: GraphView, evicted: Seq<Seq<char>>, key: Seq<char>, facts: Seq<FileFact>)
    requires
        g.contexts.contains_key(key),
        !points_into(g.contexts[key], evicted),
    ensures
        invalidated(g, evicted).contexts[key] == g.contexts[key],
        verdict(invalidated(g, evicted), key, facts) == verdict(g, key, facts),
{
}

/// Evicting nothing changes nothing, and counts nothing.
pub proof fn lemma_invalidate_nothing(g: GraphView)
    ensures
        invalidated(g, Seq::empty()) == g,
        pointing(g, Seq::empty()).len() == 0,
{
    assert(invalidated(g, Seq::empty()).contexts =~= g.contexts);
    assert(pointing(g, Seq::empty()) =~= Set::<Seq<char>>::empty());
}

/// Evicting the same artifacts twice is the same as once, and the second time counts nothing.
pub proof fn lemma_invalidate_twice(g: GraphView, evicted: Seq<Seq<char>>)
    ensures
        invalidated(invalidated(g, evicted), evicted) == invalidated(g, evicted),
        pointing(invalidated(g, evicted), evicted).len() == 0,
{
    let once = invalidated(g, evicted);
    assert(invalidated(once, evicted).contexts =~= once.contexts);
    assert(pointing(once, evicted) =~= Set::<Seq<char>>::empty());
}

/// Eviction does not prolong the life of a context: the same contexts expire before and after.
pub proof fn lemma_invalidation_keeps_age(g: GraphView, evicted: Seq<Seq<char>>, now: u128, max_age: u128)
    ensures
        expired_keys(invalidated(g, evicted), now, max_age) == expired_keys(g, now, max_age),
{
    assert(expired_keys(invalidated(g, evicted), now, max_age) =~= expired_keys(g, now, max_age));
}

/// Whether nothing in the side tables outlives the contexts.
pub open spec fn tight(g: GraphView) -> bool {
    &&& g.externs.dom().subset_of(g.contexts.dom())
    &&& g.env_deps.dom().subset_of(g.contexts.dom())
    &&& g.files.dom().subset_of(referenced(g.contexts))
}

/// After pruning, every side entry belongs to a context and every file is one that a context
/// refers to; contexts stay, and a second pruning finds nothing.
pub proof fn lemma_pruned(g: GraphView)
    ensures
        tight(pruned(g)),
        pruned(g).contexts == g.contexts,
        pruned(pruned(g)) == pruned(g),
        tight(g) ==> pruned(g) == g,
{
    let p = pruned(g);
    assert(pruned(p).files =~= p.files);
    assert(pruned(p).externs =~= p.externs);
    assert(pruned(p).env_deps =~= p.env_deps);
    if tight(g) {
        assert(p.files =~= g.files);
        assert(p.externs =~= g.externs);
        assert(p.env_deps =~= g.env_deps);
    }
}

/// Pruning keeps what the contexts keep: their files, and their side entries.
pub proof fn lemma_pruned_keeps(g: GraphView, key: Seq<char>, path: Seq<char>)
    requires
        g.contexts.contains_key(key),
    ensures
        g.externs.contains_key(key) ==> pruned(g).externs.contains_key(key) && pruned(g).externs[key] == g.externs[key],
        g.env_deps.contains_key(key) ==> pruned(g).env_deps.contains_key(key) && pruned(g).env_deps[key] == g.env_deps[key],
        g.files.contains_key(path) && refers_to(g.contexts[key], path) ==> pruned(g).files.contains_key(path)
            && pruned(g).files[path] == g.files[path],
{
    if refers_to(g.contexts[key], path) {
        assert(referenced(g.contexts).contains(path));
    }
}

/// A context that is left after trimming is as usable as before: whatever is known of files, the
/// verdict on it is the same.
pub proof fn lemma_survivors_unchanged(g: GraphView, gone: Set<Seq<char>>, key: Seq<char>, facts: Seq<FileFact>)
    requires
        g.contexts.contains_key(key),
        !gone.contains(key),
    ensures
        pruned(without(g, gone)).contexts.contains_key(key),
        pruned(without(g, gone)).contexts[key] == g.contexts[key],
        verdict(pruned(without(g, gone)), key, facts) == verdict(g, key, facts),
{
    let p = pruned(without(g, gone));
    assert(super::checks::externs_for(p, key) == super::checks::externs_for(g, key));
    assert(super::checks::externs_agree(p, key, facts) == super::checks::externs_agree(g, key, facts));
}

/// Trimming by age takes out exactly the contexts that are older.
pub proof fn lemma_trim_by_age(g: GraphView, now: u128, max_age: u128, key: Seq<char>)
    ensures
        pruned(without(g, expired_keys(g, now, max_age))).contexts.contains_key(key) <==> g.contexts.contains_key(key)
            && now - g.contexts[key].accessed <= max_age,
{
}

/// Trimming twice with one age at one moment is the same as once.
pub proof fn lemma_trim_twice(g: GraphView, now: u128, max_age: u128)
    ensures
        ({
            let once = pruned(without(g, expired_keys(g, now, max_age)));
            pruned(without(once, expired_keys(once, now, max_age))) == once
        }),
{
    let once = pruned(without(g, expired_keys(g, now, max_age)));
    assert(expired_keys(once, now, max_age) =~= Set::<Seq<char>>::empty());
    assert(without(once, expired_keys(once, now, max_age)).contexts =~= once.contexts);
    lemma_pruned(without(g, expired_keys(g, now, max_age)));
}

/// Trimming the oldest leaves all but the number asked for, and none of those left was used
/// before one that went.
pub proof fn lemma_trim_oldest_is_proportional(g: GraphView, count: nat, victims: Set<Seq<char>>)
    requires
        g.contexts.dom().finite(),
        least_recent(g, count, victims),
    ensures
        pruned(without(g, victims)).contexts.dom().len() == (if count <= g.contexts.dom().len() {
            g.contexts.dom().len() - count
        } else {
            0
        }),
        forall|v: Seq<char>, s: Seq<char>|
            #![trigger victims.contains(v), g.contexts.contains_key(s)]
            victims.contains(v) && g.contexts.contains_key(s) && pruned(without(g, victims)).contexts.contains_key(s)
                ==> g.contexts[v].accessed <= g.contexts[s].accessed,
{
    let ages = accessed_times(g);
    assert(ages.dom() =~= g.contexts.dom());
    assert forall|v: Seq<char>, s: Seq<char>|
        #![trigger victims.contains(v), g.contexts.contains_key(s)]
        victims.contains(v) && g.contexts.contains_key(s) && pruned(without(g, victims)).contexts.contains_key(
            s,
        ) implies g.contexts[v].accessed <= g.contexts[s].accessed by {
        assert(ages.contains_key(s) && ages.contains_key(v));
    }
    let left = pruned(without(g, victims)).contexts.dom();
    assert(left =~= g.contexts.dom().difference(victims));
    assert(g.contexts.dom().intersect(victims) =~= victims);
    vstd::set_lib::lemma_set_disjoint_lens(left, victims);
    assert(left + victims =~= g.contexts.dom());
}

/// Every context is in one of the three states.
pub proof fn lemma_states_partition(g: GraphView)
    requires
        g.contexts.dom().finite(),
    ensures
        in_state(g, ContextState::Cold).len() + in_state(g, ContextState::Warm).len() + in_state(
            g,
            ContextState::Stale,
        ).len() == g.contexts.dom().len(),
{
    let cold = in_state(g, ContextState::Cold);
    let warm = in_state(g, ContextState::Warm);
    let stale = in_state(g, ContextState::Stale);
    vstd::set_lib::lemma_set_disjoint_lens(cold, warm);
    vstd::set_lib::lemma_set_disjoint_lens(cold + warm, stale);
    assert(cold + warm + stale =~= g.contexts.dom());
}

/// An empty graph counts nothing.
pub proof fn lemma_emptied(g: GraphView)
    requires
        g == emptied(g.style),
    ensures
        g.contexts.dom().len() == 0,
        g.files.dom().len() == 0,
        with_artifact(g).len() == 0,
        g.checks == 0 && g.hits == 0 && g.misses == 0,
{
    assert(with_artifact(g) =~= Set::<Seq<char>>::empty());
}

/// Of checks made, each is either a hit or a miss.
pub proof fn lemma_check_counts(g: GraphView, key: Seq<char>, facts: Seq<FileFact>, now: u128)
    requires
        g.checks < u64::MAX,
        g.hits < u64::MAX,
        g.misses < u64::MAX,
    ensures
        checked(g, key, facts, now).checks == g.checks + 1,
        checked(g, key, facts, now).hits + checked(g, key, facts, now).misses == g.hits + g.misses + 1,
        checked(g, key, facts, now).hits == g.hits + 1 <==> verdict(g, key, facts) is Hit,
{
}

/// Recording is all or nothing: either an artifact comes back and the context is warm with it,
/// or the graph is as it was.
pub proof fn lemma_update_is_atomic(
    g: GraphView,
    key: Seq<char>,
    resolved: Seq<Seq<char>>,
    unresolved: Seq<Seq<char>>,
    has_computed: bool,
    facts: Seq<FileFact>,
    now: u128,
)
    ensures
        match updated(g, key, resolved, unresolved, has_computed, facts, now) {
            (after, Some(artifact)) => {
                &&& after.contexts.contains_key(key)
                &&& after.contexts[key].state == ContextState::Warm
                &&& after.contexts[key].artifact == Some(artifact)
                &&& after.contexts[key].resolved == resolved
            },
            (after, None) => after == g,
        },
{
}

/// Files whose recorded hash is the one now known have not changed.
proof fn lemma_recorded_unchanged(
    hashes: Seq<(Seq<char>, Seq<char>)>,
    facts: Seq<FileFact>,
    all: Seq<Seq<char>>,
    paths: Seq<Seq<char>>,
)
    requires
        super::checks::hashed(facts, all) == Some(hashes),
        forall|i: int| 0 <= i < paths.len() ==> all.contains(#[trigger] paths[i]),
    ensures
        changed_among(hashes, facts, paths) == Seq::<Seq<char>>::empty(),
    decreases paths.len(),
{
    if paths.len() > 0 {
        let init = paths.drop_last();
        assert forall|i: int| 0 <= i < init.len() implies all.contains(#[trigger] init[i]) by {
            assert(init[i] == paths[i]);
        }
        lemma_recorded_unchanged(hashes, facts, all, init);
        assert(all.contains(paths[paths.len() - 1]));
        lemma_recorded(facts, all, paths.last());
    }
}

/// What [`super::checks::hashed`] recorded for a file is what is known of it.
pub(crate) proof fn lemma_recorded(facts: Seq<FileFact>, all: Seq<Seq<char>>, path: Seq<char>)
    requires
        super::checks::hashed(facts, all) is Some,
        all.contains(path),
    ensures
        fact_hash(facts, path) is Some,
        recorded(super::checks::hashed(facts, all)->0, path) == fact_hash(facts, path),
    decreases all.len(),
{
    let list = super::checks::hashed(facts, all)->0;
    lemma_hashed_shape(facts, all);
    let i = all.index_of(path);
    lemma_recorded_at(facts, list, path);
    assert(list[i].0 == path);
}

/// The recorded list pairs each file with its known hash.
pub(crate) proof fn lemma_hashed_shape(facts: Seq<FileFact>, all: Seq<Seq<char>>)
    requires
        super::checks::hashed(facts, all) is Some,
    ensures
        ({
            let list = super::checks::hashed(facts, all)->0;
            &&& list.len() == all.len()
            &&& forall|i: int|
                0 <= i < all.len() ==> (#[trigger] list[i]).0 == all[i] && fact_hash(facts, all[i]) == Some(list[i].1)
        }),
    decreases all.len(),
{
    if all.len() > 0 {
        lemma_hashed_shape(facts, all.drop_last());
    }
}

/// Where each recorded hash is the one known, so is the one found.
proof fn lemma_recorded_at(facts: Seq<FileFact>, list: Seq<(Seq<char>, Seq<char>)>, path: Seq<char>)
    requires
        forall|i: int| 0 <= i < list.len() ==> fact_hash(facts, (#[trigger] list[i]).0) == Some(list[i].1),
    ensures
        (exists|i: int| 0 <= i < list.len() && (#[trigger] list[i]).0 == path) ==> recorded(list, path) == fact_hash(
            facts,
            path,
        ) && fact_hash(facts, path) is Some,
    decreases list.len(),
{
    if list.len() > 0 && list[0].0 != path {
        let rest = list.drop_first();
        assert forall|i: int| 0 <= i < rest.len() implies fact_hash(facts, (#[trigger] rest[i]).0) == Some(rest[i].1) by {
            assert(rest[i] == list[i + 1]);
        }
        lemma_recorded_at(facts, rest, path);
        if exists|i: int| 0 <= i < list.len() && (#[trigger] list[i]).0 == path {
            let i = choose|i: int| 0 <= i < list.len() && (#[trigger] list[i]).0 == path;
            assert(rest[i - 1].0 == path);
        }
    }
}

/// What was recorded can be used again: right after a compilation was recorded, and as long as
/// the files have the recorded content, the verdict is a hit on its artifact, even where no
/// watcher vouches for any file.
pub proof fn lemma_update_makes_hit(
    g: GraphView,
    key: Seq<char>,
    resolved: Seq<Seq<char>>,
    unresolved: Seq<Seq<char>>,
    facts: Seq<FileFact>,
    now: u128,
)
    requires
        updated(g, key, resolved, unresolved, false, facts, now).1 is Some,
    ensures
        verdict(updated(g, key, resolved, unresolved, false, facts, now).0, key, facts) == VerdictView::Hit(
            updated(g, key, resolved, unresolved, false, facts, now).1->0,
        ),
{
    let (after, artifact) = updated(g, key, resolved, unresolved, false, facts, now);
    let entry = after.contexts[key];
    let all = super::checks::input_files(entry.context, resolved);
    let headers = resolved + entry.context.forced;
    assert(all[0] == entry.context.source);
    lemma_recorded(facts, all, entry.context.source);
    assert forall|i: int| 0 <= i < headers.len() implies all.contains(#[trigger] headers[i]) by {
        assert(all[i + 1] == headers[i]);
    }
    lemma_recorded_unchanged(entry.hashes, facts, all, headers);
    assert(super::checks::externs_for(after, key) == super::checks::externs_for(g, key));
}

/// A scan that could not tell all headers is not used for hits.
pub proof fn lemma_computed_needs_preprocessor(
    g: GraphView,
    key: Seq<char>,
    resolved: Seq<Seq<char>>,
    unresolved: Seq<Seq<char>>,
    facts: Seq<FileFact>,
    later: Seq<FileFact>,
    now: u128,
)
    requires
        updated(g, key, resolved, unresolved, true, facts, now).1 is Some,
    ensures
        verdict(updated(g, key, resolved, unresolved, true, facts, now).0, key, later) == VerdictView::NeedsPreprocessor,
{
}

/// Where an extern crate lies does not count: two lists of extern crates with the same names and
/// the same contents make the same artifact.
pub proof fn lemma_extern_places_do_not_count(
    facts_a: Seq<FileFact>,
    facts_b: Seq<FileFact>,
    externs_a: Seq<(Seq<char>, Seq<char>)>,
    externs_b: Seq<(Seq<char>, Seq<char>)>,
)
    requires
        externs_a.len() == externs_b.len(),
        forall|i: int|
            0 <= i < externs_a.len() ==> (#[trigger] externs_a[i]).0 == externs_b[i].0 && fact_hash(facts_a, externs_a[i].1)
                == fact_hash(facts_b, externs_b[i].1),
    ensures
        hashed_externs(facts_a, externs_a) == hashed_externs(facts_b, externs_b),
    decreases externs_a.len(),
{
    if externs_a.len() > 0 {
        let a = externs_a.drop_last();
        let b = externs_b.drop_last();
        assert forall|i: int| 0 <= i < a.len() implies (#[trigger] a[i]).0 == b[i].0 && fact_hash(facts_a, a[i].1)
            == fact_hash(facts_b, b[i].1) by {
            assert(a[i] == externs_a[i]);
        }
        lemma_extern_places_do_not_count(facts_a, facts_b, a, b);
        assert(externs_a[externs_a.len() - 1].0 == externs_b[externs_b.len() - 1].0);
    }
}

} // verus!
