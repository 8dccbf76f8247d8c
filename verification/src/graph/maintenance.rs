//! Removing from the graph, and reading it.

use vstd::prelude::*;
use super::{
    include_views, ContextEntry, ContextState, DepGraph, DepGraphStats, EntryView, FileEntry, FileView, GraphView,
    IncludeDirective,
};
use crate::age::{aged_names, lists, oldest_of, pick_oldest, Aged};
use crate::hash::{ContentHash, ContextKey};
use crate::path::{copy_paths, path_views, NormalizedPath};
use crate::table::{lemma_filter_count, lemma_take_set, remove_all, retain_keys, Table};
use crate::text::views;

verus! {

// ── What maintenance does ───────────────────────────────────────────────

/// Whether the context keeps the file: it is its source, one of its headers, or read before it.
pub open spec fn refers_to(entry: EntryView, path: Seq<char>) -> bool {
    entry.resolved.contains(path) || entry.context.source == path || entry.context.forced.contains(path)
}

/// The files that some context keeps.
pub open spec fn referenced(contexts: Map<Seq<char>, EntryView>) -> Set<Seq<char>> {
    Set::new(|path: Seq<char>| exists|k: Seq<char>| #[trigger] contexts.contains_key(k) && refers_to(contexts[k], path))
}

/// The graph without what no context keeps: side entries of contexts that are gone, and files
/// that no context refers to.
pub open spec fn pruned(g: GraphView) -> GraphView {
    GraphView {
        files: g.files.restrict(referenced(g.contexts)),
        externs: g.externs.restrict(g.contexts.dom()),
        env_deps: g.env_deps.restrict(g.contexts.dom()),
        ..g
    }
}

/// The graph without the contexts `gone`.
pub open spec fn without(g: GraphView, gone: Set<Seq<char>>) -> GraphView {
    GraphView { contexts: g.contexts.remove_keys(gone), ..g }
}

/// Whether the entry was last used more than `max_age` before `now`.
pub open spec fn expired(entry: EntryView, now: u128, max_age: u128) -> bool {
    now - entry.accessed > max_age
}

/// The contexts that were last used more than `max_age` before `now`.
pub open spec fn expired_keys(g: GraphView, now: u128, max_age: u128) -> Set<Seq<char>> {
    g.contexts.dom().filter(|k: Seq<char>| expired(g.contexts[k], now, max_age))
}

/// When each context was last used.
pub open spec fn accessed_times(g: GraphView) -> Map<Seq<char>, u128> {
    Map::new(|k: Seq<char>| g.contexts.contains_key(k), |k: Seq<char>| g.contexts[k].accessed)
}

/// Whether `victims` are `count` contexts, or all where there are fewer, none of them used later
/// than one that is left.
pub open spec fn least_recent(g: GraphView, count: nat, victims: Set<Seq<char>>) -> bool {
    oldest_of(accessed_times(g), count, victims)
}

/// Whether the context's artifact is one of `evicted`.
pub open spec fn points_into(entry: EntryView, evicted: Seq<Seq<char>>) -> bool {
    entry.artifact is Some && evicted.contains(entry.artifact->0)
}

/// The contexts whose artifact is one of `evicted`.
pub open spec fn pointing(g: GraphView, evicted: Seq<Seq<char>>) -> Set<Seq<char>> {
    g.contexts.dom().filter(|k: Seq<char>| points_into(g.contexts[k], evicted))
}

/// The graph with the artifact keys in `evicted` forgotten, and nothing else changed.
pub open spec fn invalidated(g: GraphView, evicted: Seq<Seq<char>>) -> GraphView {
    GraphView {
        contexts: Map::new(
            |k: Seq<char>| g.contexts.contains_key(k),
            |k: Seq<char>|
                if points_into(g.contexts[k], evicted) {
                    EntryView { artifact: None, ..g.contexts[k] }
                } else {
                    g.contexts[k]
                },
        ),
        ..g
    }
}

impl DepGraph {
    /// Takes contexts out. Returns how many of `keys` were there.
    fn remove_contexts(&mut self, keys: &[String]) -> (removed: usize)
        requires
            old(self).wf(),
        ensures
            final(self).wf(),
            final(self)@ == without(old(self)@, views(keys@).to_set()),
            removed == old(self)@.contexts.dom().intersect(views(keys@).to_set()).len(),
    {
        let ghost start = self@;
        proof {
            self.contexts.lemma_finite();
            assert(self.contexts@.dom() =~= start.contexts.dom());
        }
        let removed = remove_all(&mut self.contexts, keys);
        assert(self@.contexts =~= start.contexts.remove_keys(views(keys@).to_set()));
        removed
    }
}

/// Adds the paths of `list` to `set`.
fn add_paths(set: &mut Table<bool>, list: &[NormalizedPath])
    requires
        old(set).wf(),
    ensures
        final(set).wf(),
        final(set)@.dom() == old(set)@.dom().union(path_views(list@).to_set()),
{
    let ghost names = path_views(list@);
    let ghost start = set@.dom();
    let mut i: usize = 0;
    assert(set@.dom() =~= start.union(names.take(0).to_set()));
    while i < list.len()
        invariant
            i <= list@.len(),
            names == path_views(list@),
            set.wf(),
            set@.dom() == start.union(names.take(i as int).to_set()),
        decreases list@.len() - i,
    {
        proof {
            lemma_take_set(names, i as int);
        }
        set.insert(list[i].as_str().to_owned(), true);
        assert(set@.dom() =~= start.union(names.take(i + 1).to_set()));
        i = i + 1;
    }
    assert(names.take(names.len() as int) =~= names);
}

impl DepGraph {
    /// Every file that some context keeps.
    fn referenced_paths(&self) -> (set: Table<bool>)
        requires
            self.wf(),
        ensures
            set.wf(),
            set@.dom() == referenced(self@.contexts),
    {
        let mut set: Table<bool> = Table::new();
        let keys = self.contexts.keys();
        let ghost names = views(keys@);
        let ghost contexts = self@.contexts;
        let mut i: usize = 0;
        while i < keys.len()
            invariant
                i <= keys@.len(),
                names == views(keys@),
                names.to_set() == self.contexts@.dom(),
                contexts == self@.contexts,
                self.wf(),
                set.wf(),
                forall|path: Seq<char>| #[trigger]
                    set@.dom().contains(path) <==> exists|j: int|
                        0 <= j < i && refers_to(contexts[#[trigger] names[j]], path),
            decreases keys@.len() - i,
        {
            let ghost set0 = set@.dom();
            assert(names.contains(names[i as int]));
            assert(names.to_set().contains(names[i as int]));
            if let Some(entry) = self.contexts.get(keys[i].as_str()) {
                assert(entry@ == contexts[names[i as int]]);
                add_paths(&mut set, &entry.resolved_includes);
                set.insert(entry.context.source_file.as_str().to_owned(), true);
                add_paths(&mut set, &entry.context.force_includes);
                proof {
                    assert forall|path: Seq<char>| #[trigger] set@.dom().contains(path) <==> exists|j: int|
                        0 <= j < i + 1 && refers_to(contexts[#[trigger] names[j]], path) by {
                        assert(set@.dom().contains(path) <==> set0.contains(path) || refers_to(entry@, path));
                        if refers_to(entry@, path) {
                            assert(refers_to(contexts[names[i as int]], path));
                        }
                        if set0.contains(path) {
                            let j = choose|j: int| 0 <= j < i && refers_to(contexts[#[trigger] names[j]], path);
                            assert(refers_to(contexts[names[j]], path));
                        }
                    }
                }
            }
            i = i + 1;
        }
        proof {
            assert forall|path: Seq<char>| set@.dom().contains(path) <==> referenced(contexts).contains(path) by {
                if set@.dom().contains(path) {
                    let j = choose|j: int| 0 <= j < names.len() && refers_to(contexts[#[trigger] names[j]], path);
                    assert(names.to_set().contains(names[j]));
                    assert(contexts.contains_key(names[j]));
                }
                if referenced(contexts).contains(path) {
                    let k = choose|k: Seq<char>| #[trigger] contexts.contains_key(k) && refers_to(contexts[k], path);
                    assert(names.to_set().contains(k));
                    let j = names.index_of(k);
                    assert(refers_to(contexts[names[j]], path));
                }
            }
            assert(set@.dom() =~= referenced(contexts));
        }
        set
    }

    /// Drops extern, environment and file entries that no context keeps. Runs after contexts
    /// were taken out, so that the side tables do not outlive them.
    fn prune_unreferenced(&mut self)
        requires
            old(self).wf(),
        ensures
            final(self).wf(),
            final(self)@ == pruned(old(self)@),
    {
        let ghost start = self@;
        retain_keys(&mut self.rustc_externs, &self.contexts);
        retain_keys(&mut self.rustc_env_deps, &self.contexts);
        let kept = self.referenced_paths();
        retain_keys(&mut self.files, &kept);
        proof {
            assert(self.contexts@.dom() =~= start.contexts.dom());
            assert(self@.externs =~= start.externs.restrict(start.contexts.dom()));
            assert(self@.env_deps =~= start.env_deps.restrict(start.contexts.dom()));
            assert(self@.files =~= start.files.restrict(referenced(start.contexts)));
        }
    }

    /// Takes out the contexts last used more than `max_age` nanoseconds before `now`, and what
    /// only they kept. Returns how many contexts that were.
    pub fn trim_at(&mut self, now: u128, max_age: u128) -> (removed: usize)
        requires
            old(self).wf(),
        ensures
            final(self).wf(),
            final(self)@ == pruned(without(old(self)@, expired_keys(old(self)@, now, max_age))),
            removed == expired_keys(old(self)@, now, max_age).len(),
    {
        let keys = self.contexts.keys();
        let ghost names = views(keys@);
        let ghost start = self@;
        let ghost pick = |k: Seq<char>| expired(start.contexts[k], now, max_age);
        let mut old_keys: Vec<String> = Vec::new();
        let mut i: usize = 0;
        reveal(Seq::filter);
        assert(views(old_keys@) =~= names.take(0).filter(pick));
        while i < keys.len()
            invariant
                i <= keys@.len(),
                names == views(keys@),
                names.to_set() == self.contexts@.dom(),
                self.wf(),
                start == self@,
                pick == (|k: Seq<char>| expired(start.contexts[k], now, max_age)),
                views(old_keys@) == names.take(i as int).filter(pick),
            decreases keys@.len() - i,
        {
            reveal(Seq::filter);
            let ghost old_keys0 = old_keys@;
            assert(names.take(i + 1).drop_last() =~= names.take(i as int));
            assert(names.take(i + 1).last() == keys@[i as int]@);
            assert(names.contains(names[i as int]));
            assert(names.to_set().contains(names[i as int]));
            if let Some(entry) = self.contexts.get(keys[i].as_str()) {
                if now > entry.last_accessed && now - entry.last_accessed > max_age {
                    old_keys.push(keys[i].clone());
                    assert(views(old_keys@) =~= views(old_keys0).push(keys@[i as int]@));
                }
            }
            i = i + 1;
        }
        proof {
            assert(names.take(names.len() as int) =~= names);
            lemma_filter_count(names, pick);
            assert(self.contexts@.dom() =~= start.contexts.dom());
            assert(views(old_keys@).to_set() =~= expired_keys(start, now, max_age));
            assert(start.contexts.dom().intersect(views(old_keys@).to_set()) =~= expired_keys(start, now, max_age));
        }
        let removed = self.remove_contexts(&old_keys);
        self.prune_unreferenced();
        removed
    }

    /// Takes out the contexts not used within the last `max_age` nanoseconds, and what only they
    /// kept. Returns how many contexts that were.
    pub fn trim(&mut self, max_age: u128) -> (removed: usize)
        requires
            old(self).wf(),
        ensures
            final(self).wf(),
            exists|now: u128|
                {
                    &&& final(self)@ == pruned(without(old(self)@, #[trigger] expired_keys(old(self)@, now, max_age)))
                    &&& removed == expired_keys(old(self)@, now, max_age).len()
                },
    {
        let now = self.clock.read();
        self.trim_at(now, max_age)
    }

    /// Takes out the `count` contexts used least recently, or all where there are fewer, and
    /// what only they kept. Returns how many contexts that were. Where several were last used at
    /// the same moment, any of them may go first.
    pub fn trim_oldest(&mut self, count: usize) -> (removed: usize)
        requires
            old(self).wf(),
        ensures
            final(self).wf(),
            count == 0 ==> final(self)@ == old(self)@ && removed == 0,
            count > 0 ==> exists|victims: Set<Seq<char>>|
                {
                    &&& #[trigger] least_recent(old(self)@, count as nat, victims)
                    &&& final(self)@ == pruned(without(old(self)@, victims))
                    &&& removed == victims.len()
                },
    {
        if count == 0 {
            return 0;
        }
        let keys = self.contexts.keys();
        let ghost names = views(keys@);
        let ghost start = self@;
        let mut by_age: Vec<Aged> = Vec::new();
        let mut i: usize = 0;
        while i < keys.len()
            invariant
                i <= keys@.len(),
                names == views(keys@),
                names.to_set() == self.contexts@.dom(),
                self.wf(),
                start == self@,
                by_age@.len() == i,
                forall|j: int|
                    0 <= j < i ==> (#[trigger] by_age@[j]).name@ == names[j] && by_age@[j].at
                        == start.contexts[names[j]].accessed,
            decreases keys@.len() - i,
        {
            assert(names.contains(names[i as int]));
            assert(names.to_set().contains(names[i as int]));
            if let Some(entry) = self.contexts.get(keys[i].as_str()) {
                by_age.push(Aged { at: entry.last_accessed, name: keys[i].clone() });
            }
            i = i + 1;
        }
        proof {
            assert(self.contexts@.dom() =~= start.contexts.dom());
            assert(accessed_times(start).dom() =~= start.contexts.dom());
            assert(aged_names(by_age@) =~= names);
            assert(lists(by_age@, accessed_times(start)));
        }
        let victims = pick_oldest(by_age, count, Ghost(accessed_times(start)));
        let ghost chosen = views(victims@).to_set();
        assert(start.contexts.dom().intersect(chosen) =~= chosen);
        let removed = self.remove_contexts(&victims);
        self.prune_unreferenced();
        assert(least_recent(start, count as nat, chosen));
        removed
    }
}

/// The texts of `list`, as a set.
fn text_set(list: &[String]) -> (set: Table<bool>)
    ensures
        set.wf(),
        set@.dom() == views(list@).to_set(),
{
    let ghost names = views(list@);
    let mut set: Table<bool> = Table::new();
    let mut i: usize = 0;
    assert(set@.dom() =~= names.take(0).to_set());
    while i < list.len()
        invariant
            i <= list@.len(),
            names == views(list@),
            set.wf(),
            set@.dom() == names.take(i as int).to_set(),
        decreases list@.len() - i,
    {
        proof {
            lemma_take_set(names, i as int);
        }
        set.insert(list[i].clone(), true);
        assert(set@.dom() =~= names.take(i + 1).to_set());
        i = i + 1;
    }
    assert(names.take(names.len() as int) =~= names);
    set
}

impl DepGraph {
    /// Forgets the artifact key of every context whose artifact is one of `evicted_hex`, and
    /// nothing else: when the context was last used stays as it is, so that a forgotten artifact
    /// does not keep its context alive. Returns how many keys were forgotten.
    pub fn invalidate_artifact_keys(&mut self, evicted_hex: &[String]) -> (cleared: usize)
        requires
            old(self).wf(),
        ensures
            final(self).wf(),
            final(self)@ == invalidated(old(self)@, views(evicted_hex@)),
            cleared == pointing(old(self)@, views(evicted_hex@)).len(),
    {
        let ghost start = self@;
        let ghost evicted = views(evicted_hex@);
        let ghost pick = |k: Seq<char>| points_into(start.contexts[k], evicted);
        let set = text_set(evicted_hex);
        let keys = self.contexts.keys();
        let ghost names = views(keys@);
        let mut cleared: usize = 0;
        let mut i: usize = 0;
        proof {
            assert(self.contexts@.dom() =~= start.contexts.dom());
            reveal(Seq::filter);
        }
        while i < keys.len()
            invariant
                i <= keys@.len(),
                cleared <= i,
                names == views(keys@),
                names.no_duplicates(),
                names.to_set() == start.contexts.dom(),
                self.wf(),
                set.wf(),
                set@.dom() == evicted.to_set(),
                pick == (|k: Seq<char>| points_into(start.contexts[k], evicted)),
                self@ == (GraphView { contexts: self@.contexts, ..start }),
                self@.contexts.dom() == start.contexts.dom(),
                forall|k: Seq<char>| #[trigger]
                    start.contexts.contains_key(k) ==> self@.contexts[k] == if names.take(i as int).contains(k) && pick(k) {
                        EntryView { artifact: None, ..start.contexts[k] }
                    } else {
                        start.contexts[k]
                    },
                cleared == names.take(i as int).filter(pick).len(),
            decreases keys@.len() - i,
        {
            let ghost mid = self@;
            let ghost key = names[i as int];
            proof {
                reveal(Seq::filter);
                assert(names.take(i + 1).drop_last() =~= names.take(i as int));
                assert(names.contains(key));
                assert(names.to_set().contains(key));
                lemma_take_set(names, i as int);
                assert forall|k: Seq<char>| names.take(i + 1).contains(k) <==> names.take(i as int).contains(k) || k == key by {
                    assert(names.take(i + 1).to_set().contains(k) <==> names.take(i as int).to_set().insert(key).contains(k));
                }
                assert(!names.take(i as int).contains(key)) by {
                    if names.take(i as int).contains(key) {
                        let j = names.take(i as int).index_of(key);
                        assert(names[j] == names[i as int]);
                    }
                }
                assert(self.contexts@.dom() =~= self@.contexts.dom());
            }
            if let Some(entry) = self.contexts.get_mut(keys[i].as_str()) {
                assert(entry@ == start.contexts[key]);
                let hit = match &entry.artifact_key {
                    Some(artifact) => {
                        assert(evicted.to_set().contains(artifact@) == evicted.contains(artifact@));
                        set.contains_key(artifact.hash().to_hex())
                    },
                    None => false,
                };
                assert(hit == pick(key));
                if hit {
                    entry.artifact_key = None;
                    cleared = cleared + 1;
                }
            }
            proof {
                let changed = if pick(key) {
                    EntryView { artifact: None, ..start.contexts[key] }
                } else {
                    start.contexts[key]
                };
                assert(self@.contexts =~= mid.contexts.insert(key, changed));
            }
            i = i + 1;
        }
        proof {
            assert(names.take(names.len() as int) =~= names);
            lemma_filter_count(names, pick);
            assert(pointing(start, evicted) =~= start.contexts.dom().filter(pick));
            assert forall|k: Seq<char>| #[trigger] start.contexts.contains_key(k) implies names.contains(k) by {
                assert(names.to_set().contains(k));
            }
            assert(self@.contexts =~= invalidated(start, evicted).contexts);
        }
        cleared
    }

    /// Forgets everything: files, contexts and counters.
    pub fn clear(&mut self)
        requires
            old(self).wf(),
        ensures
            final(self).wf(),
            final(self)@ == super::emptied(old(self)@.style),
    {
        self.files.clear();
        self.contexts.clear();
        self.rustc_externs.clear();
        self.rustc_env_deps.clear();
        self.checks = 0;
        self.hits = 0;
        self.misses = 0;
        proof {
            let e = super::emptied(old(self)@.style);
            assert(self@.contexts =~= e.contexts);
            assert(self@.files =~= e.files);
            assert(self@.externs =~= e.externs);
            assert(self@.env_deps =~= e.env_deps);
        }
    }

    /// Counts of what the graph holds and did.
    #[must_use]
    pub fn stats(&self) -> (stats: DepGraphStats)
        requires
            self.wf(),
        ensures
            stats.file_count == self@.files.dom().len(),
            stats.context_count == self@.contexts.dom().len(),
            stats.checks == self@.checks,
            stats.hits == self@.hits,
            stats.misses == self@.misses,
    {
        proof {
            assert(self.files@.dom() =~= self@.files.dom());
            assert(self.contexts@.dom() =~= self@.contexts.dom());
        }
        DepGraphStats {
            file_count: self.files.len(),
            context_count: self.contexts.len(),
            checks: self.checks,
            hits: self.hits,
            misses: self.misses,
        }
    }

    /// The state of a context.
    #[must_use]
    pub fn get_state(&self, key: &ContextKey) -> (state: Option<ContextState>)
        requires
            self.wf(),
        ensures
            state == (if self@.contexts.contains_key(key@) {
                Some(self@.contexts[key@].state)
            } else {
                None
            }),
    {
        match self.contexts.get(key.hash().to_hex()) {
            Some(entry) => Some(entry.state),
            None => None,
        }
    }
}

/// The contexts in this state.
pub open spec fn in_state(g: GraphView, state: ContextState) -> Set<Seq<char>> {
    g.contexts.dom().filter(|k: Seq<char>| g.contexts[k].state == state)
}

/// The contexts whose artifact is known.
pub open spec fn with_artifact(g: GraphView) -> Set<Seq<char>> {
    g.contexts.dom().filter(|k: Seq<char>| g.contexts[k].artifact is Some)
}

impl DepGraph {
    /// How many contexts are cold, warm and stale, in this order.
    #[must_use]
    pub fn state_breakdown(&self) -> (counts: (usize, usize, usize))
        requires
            self.wf(),
        ensures
            counts.0 == in_state(self@, ContextState::Cold).len(),
            counts.1 == in_state(self@, ContextState::Warm).len(),
            counts.2 == in_state(self@, ContextState::Stale).len(),
            counts.0 + counts.1 + counts.2 == self@.contexts.dom().len(),
    {
        let keys = self.contexts.keys();
        let ghost names = views(keys@);
        let ghost g = self@;
        let ghost is_cold = |k: Seq<char>| g.contexts[k].state == ContextState::Cold;
        let ghost is_warm = |k: Seq<char>| g.contexts[k].state == ContextState::Warm;
        let ghost is_stale = |k: Seq<char>| g.contexts[k].state == ContextState::Stale;
        let mut cold: usize = 0;
        let mut warm: usize = 0;
        let mut stale: usize = 0;
        let mut i: usize = 0;
        reveal(Seq::filter);
        while i < keys.len()
            invariant
                i <= keys@.len(),
                names == views(keys@),
                names.to_set() == self.contexts@.dom(),
                self.wf(),
                g == self@,
                is_cold == (|k: Seq<char>| g.contexts[k].state == ContextState::Cold),
                is_warm == (|k: Seq<char>| g.contexts[k].state == ContextState::Warm),
                is_stale == (|k: Seq<char>| g.contexts[k].state == ContextState::Stale),
                cold == names.take(i as int).filter(is_cold).len(),
                warm == names.take(i as int).filter(is_warm).len(),
                stale == names.take(i as int).filter(is_stale).len(),
                cold + warm + stale == i,
            decreases keys@.len() - i,
        {
            reveal(Seq::filter);
            assert(names.take(i + 1).drop_last() =~= names.take(i as int));
            assert(names.take(i + 1).last() == keys@[i as int]@);
            assert(names.contains(names[i as int]));
            assert(names.to_set().contains(names[i as int]));
            if let Some(entry) = self.contexts.get(keys[i].as_str()) {
                assert(entry@ == g.contexts[names[i as int]]);
                match entry.state {
                    ContextState::Cold => {
                        cold = cold + 1;
                    },
                    ContextState::Warm => {
                        warm = warm + 1;
                    },
                    ContextState::Stale => {
                        stale = stale + 1;
                    },
                }
            }
            i = i + 1;
        }
        proof {
            assert(names.take(names.len() as int) =~= names);
            lemma_filter_count(names, is_cold);
            lemma_filter_count(names, is_warm);
            lemma_filter_count(names, is_stale);
            names.unique_seq_to_set();
            assert(self.contexts@.dom() =~= g.contexts.dom());
            assert(in_state(g, ContextState::Cold) =~= g.contexts.dom().filter(is_cold));
            assert(in_state(g, ContextState::Warm) =~= g.contexts.dom().filter(is_warm));
            assert(in_state(g, ContextState::Stale) =~= g.contexts.dom().filter(is_stale));
        }
        (cold, warm, stale)
    }

    /// How many contexts have a known artifact: those that were compiled with success, as
    /// against those only registered.
    #[must_use]
    pub fn contexts_with_artifact_key(&self) -> (count: usize)
        requires
            self.wf(),
        ensures
            count == with_artifact(self@).len(),
    {
        let keys = self.contexts.keys();
        let ghost names = views(keys@);
        let ghost g = self@;
        let ghost pick = |k: Seq<char>| g.contexts[k].artifact is Some;
        let mut count: usize = 0;
        let mut i: usize = 0;
        reveal(Seq::filter);
        while i < keys.len()
            invariant
                i <= keys@.len(),
                names == views(keys@),
                names.to_set() == self.contexts@.dom(),
                self.wf(),
                g == self@,
                pick == (|k: Seq<char>| g.contexts[k].artifact is Some),
                count == names.take(i as int).filter(pick).len(),
                count <= i,
            decreases keys@.len() - i,
        {
            reveal(Seq::filter);
            assert(names.take(i + 1).drop_last() =~= names.take(i as int));
            assert(names.take(i + 1).last() == keys@[i as int]@);
            assert(names.contains(names[i as int]));
            assert(names.to_set().contains(names[i as int]));
            if let Some(entry) = self.contexts.get(keys[i].as_str()) {
                assert(entry@ == g.contexts[names[i as int]]);
                if entry.artifact_key.is_some() {
                    count = count + 1;
                }
            }
            i = i + 1;
        }
        proof {
            assert(names.take(names.len() as int) =~= names);
            lemma_filter_count(names, pick);
            assert(self.contexts@.dom() =~= g.contexts.dom());
            assert(with_artifact(g) =~= g.contexts.dom().filter(pick));
        }
        count
    }

    /// The headers of a context.
    #[must_use]
    pub fn get_includes(&self, key: &ContextKey) -> (includes: Option<Vec<NormalizedPath>>)
        requires
            self.wf(),
        ensures
            match includes {
                Some(list) => self@.contexts.contains_key(key@) && path_views(list@) == self@.contexts[key@].resolved,
                None => !self@.contexts.contains_key(key@),
            },
    {
        match self.contexts.get(key.hash().to_hex()) {
            Some(entry) => Some(copy_paths(&entry.resolved_includes)),
            None => None,
        }
    }

    /// The extern crates of a Rust context.
    #[must_use]
    pub fn get_rustc_externs(&self, key: &ContextKey) -> (externs: Option<Vec<(String, NormalizedPath)>>)
        requires
            self.wf(),
        ensures
            match externs {
                Some(list) => self@.externs.contains_key(key@) && super::extern_views(list@) == self@.externs[key@],
                None => !self@.externs.contains_key(key@),
            },
    {
        match self.rustc_externs.get(key.hash().to_hex()) {
            Some(list) => {
                let mut copy: Vec<(String, NormalizedPath)> = Vec::new();
                let mut i: usize = 0;
                while i < list.len()
                    invariant
                        i <= list@.len(),
                        copy@.len() == i,
                        forall|j: int| 0 <= j < i ==> (#[trigger] copy@[j]).0@ == list@[j].0@ && copy@[j].1@ == list@[j].1@,
                    decreases list@.len() - i,
                {
                    copy.push((list[i].0.clone(), list[i].1.clone()));
                    i = i + 1;
                }
                assert(super::extern_views(copy@) =~= super::extern_views(list@));
                Some(copy)
            },
            None => None,
        }
    }

    /// The environment variables that a Rust context read, each with the hash of its value at
    /// the last compilation, or `None` where it was not set.
    #[must_use]
    pub fn get_rustc_env_deps(&self, key: &ContextKey) -> (deps: Option<Vec<(String, Option<ContentHash>)>>)
        requires
            self.wf(),
        ensures
            match deps {
                Some(list) => self@.env_deps.contains_key(key@) && super::env_views(list@) == self@.env_deps[key@],
                None => !self@.env_deps.contains_key(key@),
            },
    {
        match self.rustc_env_deps.get(key.hash().to_hex()) {
            Some(list) => {
                let mut copy: Vec<(String, Option<ContentHash>)> = Vec::new();
                let mut i: usize = 0;
                while i < list.len()
                    invariant
                        i <= list@.len(),
                        copy@.len() == i,
                        forall|j: int|
                            0 <= j < i ==> (#[trigger] copy@[j]).0@ == list@[j].0@ && crate::hash::opt_hash_view(copy@[j].1)
                                == crate::hash::opt_hash_view(list@[j].1),
                    decreases list@.len() - i,
                {
                    let hash = match &list[i].1 {
                        Some(h) => Some(h.clone()),
                        None => None,
                    };
                    copy.push((list[i].0.clone(), hash));
                    i = i + 1;
                }
                assert(super::env_views(copy@) =~= super::env_views(list@));
                Some(copy)
            },
            None => None,
        }
    }

    /// Replaces the environment variables recorded for a Rust context. An empty list removes the
    /// record.
    pub fn set_rustc_env_deps(&mut self, key: ContextKey, deps: Vec<(String, Option<ContentHash>)>)
        requires
            old(self).wf(),
        ensures
            final(self).wf(),
            final(self)@ == (GraphView {
                env_deps: if deps@.len() == 0 {
                    old(self)@.env_deps.remove(key@)
                } else {
                    old(self)@.env_deps.insert(key@, super::env_views(deps@))
                },
                ..old(self)@
            }),
    {
        if deps.len() == 0 {
            self.rustc_env_deps.remove(key.hash().to_hex());
            assert(self@.env_deps =~= old(self)@.env_deps.remove(key@));
        } else {
            self.rustc_env_deps.insert(key.hash().to_hex().to_owned(), deps);
            assert(self@.env_deps =~= old(self)@.env_deps.insert(key@, super::env_views(deps@)));
        }
    }

    /// Records the include lines of a file scanned at `now`.
    pub fn store_file_includes_at(&mut self, path: NormalizedPath, includes: Vec<IncludeDirective>, now: u128)
        requires
            old(self).wf(),
        ensures
            final(self).wf(),
            final(self)@ == (GraphView {
                files: old(self)@.files.insert(
                    path@,
                    FileView { includes: include_views(includes@), scanned_at: now },
                ),
                ..old(self)@
            }),
    {
        self.files.insert(path.as_str().to_owned(), FileEntry { includes, scanned_at: now });
        assert(self@.files =~= old(self)@.files.insert(
            path@,
            FileView { includes: include_views(includes@), scanned_at: now },
        ));
    }

    /// Records the include lines of a file scanned just now.
    pub fn store_file_includes(&mut self, path: NormalizedPath, includes: Vec<IncludeDirective>)
        requires
            old(self).wf(),
        ensures
            final(self).wf(),
            exists|now: u128|
                final(self)@ == (GraphView {
                    files: old(self)@.files.insert(
                        path@,
                        #[trigger] scanned(includes@, now),
                    ),
                    ..old(self)@
                }),
    {
        let now = self.clock.read();
        assert(scanned(includes@, now) == FileView { includes: include_views(includes@), scanned_at: now });
        self.store_file_includes_at(path, includes, now);
    }

    /// The include lines of a file.
    #[must_use]
    pub fn get_file_includes(&self, path: &NormalizedPath) -> (includes: Option<Vec<IncludeDirective>>)
        requires
            self.wf(),
        ensures
            match includes {
                Some(list) => self@.files.contains_key(path@) && include_views(list@) == self@.files[path@].includes,
                None => !self@.files.contains_key(path@),
            },
    {
        match self.files.get(path.as_str()) {
            Some(entry) => {
                let list = &entry.includes;
                let mut copy: Vec<IncludeDirective> = Vec::new();
                let mut i: usize = 0;
                while i < list.len()
                    invariant
                        i <= list@.len(),
                        copy@.len() == i,
                        forall|j: int|
                            0 <= j < i ==> (#[trigger] copy@[j]).kind == list@[j].kind && copy@[j].path@ == list@[j].path@
                                && copy@[j].line == list@[j].line,
                    decreases list@.len() - i,
                {
                    copy.push(
                        IncludeDirective { kind: list[i].kind, path: list[i].path.clone(), line: list[i].line },
                    );
                    i = i + 1;
                }
                assert(include_views(copy@) =~= include_views(list@));
                Some(copy)
            },
            None => None,
        }
    }

    /// The entry of a context.
    #[must_use]
    pub fn get_context(&self, key: &ContextKey) -> (entry: Option<&ContextEntry>)
        requires
            self.wf(),
        ensures
            match entry {
                Some(e) => self@.contexts.contains_key(key@) && e@ == self@.contexts[key@],
                None => !self@.contexts.contains_key(key@),
            },
    {
        self.contexts.get(key.hash().to_hex())
    }

    /// Puts a context entry in, in place of one that is there, as when a stored graph is read
    /// back.
    pub fn insert_context(&mut self, key: &ContextKey, entry: ContextEntry)
        requires
            old(self).wf(),
        ensures
            final(self).wf(),
            final(self)@ == (GraphView { contexts: old(self)@.contexts.insert(key@, entry@), ..old(self)@ }),
    {
        self.contexts.insert(key.hash().to_hex().to_owned(), entry);
        assert(self@.contexts =~= old(self)@.contexts.insert(key@, entry@));
    }

    /// All contexts, each once, in no particular order.
    pub fn contexts_iter(&self) -> (list: Vec<(String, &ContextEntry)>)
        requires
            self.wf(),
        ensures
            entry_keys(list@).no_duplicates(),
            entry_keys(list@).to_set() == self@.contexts.dom(),
            forall|i: int| 0 <= i < list@.len() ==> (#[trigger] list@[i]).1@ == self@.contexts[list@[i].0@],
    {
        let keys = self.contexts.keys();
        let ghost names = views(keys@);
        let mut list: Vec<(String, &ContextEntry)> = Vec::new();
        let mut i: usize = 0;
        while i < keys.len()
            invariant
                i <= keys@.len(),
                names == views(keys@),
                names.to_set() == self.contexts@.dom(),
                self.wf(),
                list@.len() == i,
                forall|j: int|
                    0 <= j < i ==> (#[trigger] list@[j]).0@ == names[j] && list@[j].1@ == self@.contexts[names[j]],
            decreases keys@.len() - i,
        {
            assert(names.contains(names[i as int]));
            assert(names.to_set().contains(names[i as int]));
            if let Some(entry) = self.contexts.get(keys[i].as_str()) {
                list.push((keys[i].clone(), entry));
            }
            i = i + 1;
        }
        proof {
            assert(entry_keys(list@) =~= names);
            assert(self.contexts@.dom() =~= self@.contexts.dom());
        }
        list
    }

    /// All scanned files, each once, in no particular order.
    pub fn files_iter(&self) -> (list: Vec<(String, &FileEntry)>)
        requires
            self.wf(),
        ensures
            entry_keys(list@).no_duplicates(),
            entry_keys(list@).to_set() == self@.files.dom(),
            forall|i: int|
                0 <= i < list@.len() ==> scanned((#[trigger] list@[i]).1.includes@, list@[i].1.scanned_at)
                    == self@.files[list@[i].0@],
    {
        let keys = self.files.keys();
        let ghost names = views(keys@);
        let mut list: Vec<(String, &FileEntry)> = Vec::new();
        let mut i: usize = 0;
        while i < keys.len()
            invariant
                i <= keys@.len(),
                names == views(keys@),
                names.to_set() == self.files@.dom(),
                self.wf(),
                list@.len() == i,
                forall|j: int|
                    0 <= j < i ==> (#[trigger] list@[j]).0@ == names[j] && scanned(
                        list@[j].1.includes@,
                        list@[j].1.scanned_at,
                    ) == self@.files[names[j]],
            decreases keys@.len() - i,
        {
            assert(names.contains(names[i as int]));
            assert(names.to_set().contains(names[i as int]));
            if let Some(entry) = self.files.get(keys[i].as_str()) {
                list.push((keys[i].clone(), entry));
            }
            i = i + 1;
        }
        proof {
            assert(entry_keys(list@) =~= names);
            assert(self.files@.dom() =~= self@.files.dom());
        }
        list
    }

    /// Marks a context as out of date, so that it is scanned again. Returns whether it was there.
    pub fn mark_stale(&mut self, key: &ContextKey) -> (found: bool)
        requires
            old(self).wf(),
        ensures
            final(self).wf(),
            found == old(self)@.contexts.contains_key(key@),
            final(self)@ == (if found {
                GraphView {
                    contexts: old(self)@.contexts.insert(
                        key@,
                        EntryView { state: ContextState::Stale, ..old(self)@.contexts[key@] },
                    ),
                    ..old(self)@
                }
            } else {
                old(self)@
            }),
    {
        let found = if let Some(entry) = self.contexts.get_mut(key.hash().to_hex()) {
            entry.state = ContextState::Stale;
            true
        } else {
            false
        };
        proof {
            if found {
                assert(self@.contexts =~= old(self)@.contexts.insert(
                    key@,
                    EntryView { state: ContextState::Stale, ..old(self)@.contexts[key@] },
                ));
            } else {
                assert(self@.contexts =~= old(self)@.contexts);
            }
        }
        found
    }
}

/// The keys of a list of entries.
pub open spec fn entry_keys<T>(list: Seq<(String, T)>) -> Seq<Seq<char>> {
    Seq::new(list.len(), |i: int| list[i].0@)
}

/// A file with these include lines, scanned at `now`.
pub open spec fn scanned(includes: Seq<IncludeDirective>, now: u128) -> FileView {
    FileView { includes: include_views(includes), scanned_at: now }
}

} // verus!
