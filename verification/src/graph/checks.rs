//! Registering compilations, recording what they made, and deciding whether it can be used again.

use vstd::prelude::*;
use super::{extern_views, ContextEntry, ContextState, DepGraph, EntryView, GraphView, ScanResult};
use crate::context::{
    artifact_bytes, compute_context_key, context_bytes, fact_fresh, fact_hash, file_views, known_fresh, known_hash,
    label_files, labelled_artifact_key, labels, normalize_key_path, CompileContext, ContextView, FileFact,
};
use crate::hash::{blake3_hex, opt_artifact_view, ArtifactKey, ContentHash, ContextKey};
use crate::path::{opt_path_view, path_views, NormalizedPath, PathStyle};
use crate::text::{concat2, pair_views, same_text, views};

verus! {

// ── Registering ─────────────────────────────────────────────────────────

/// A context that was registered at `now` and never scanned.
pub open spec fn cold_entry(context: ContextView, root: Option<Seq<char>>, now: u128) -> EntryView {
    EntryView {
        context,
        key_root: root,
        resolved: Seq::empty(),
        unresolved: Seq::empty(),
        has_computed: false,
        artifact: None,
        hashes: Seq::empty(),
        accessed: now,
        state: ContextState::Cold,
    }
}

/// The graph after the context was registered at `now`: a known one is only used again.
pub open spec fn registered(g: GraphView, key: Seq<char>, context: ContextView, root: Option<Seq<char>>, now: u128) -> GraphView {
    GraphView {
        contexts: g.contexts.insert(
            key,
            if g.contexts.contains_key(key) {
                EntryView { accessed: now, ..g.contexts[key] }
            } else {
                cold_entry(context, root, now)
            },
        ),
        ..g
    }
}

/// The graph after a Rust context was registered at `now` with these extern crates, which take the
/// place of those it had.
pub open spec fn registered_rustc(
    g: GraphView,
    key: Seq<char>,
    context: ContextView,
    root: Option<Seq<char>>,
    externs: Seq<(Seq<char>, Seq<char>)>,
    now: u128,
) -> GraphView {
    GraphView {
        externs: if externs.len() == 0 {
            g.externs.remove(key)
        } else {
            g.externs.insert(key, externs)
        },
        ..registered(g, key, context, root, now)
    }
}

/// The key that a context is registered under.
pub open spec fn key_of(style: PathStyle, context: ContextView, root: Option<Seq<char>>, salt: Option<Seq<char>>) -> Seq<
    char,
> {
    blake3_hex(context_bytes(style, context, root, salt))
}

/// What registering a context gave.
#[derive(Debug)]
pub struct Registration {
    /// The key of the context.
    pub key: ContextKey,
    /// The context was known before.
    pub known: bool,
}

/// The text of an optional text slice.
pub open spec fn opt_str_view(text: Option<&str>) -> Option<Seq<char>> {
    match text {
        Some(t) => Some(t@),
        None => None,
    }
}

impl DepGraph {
    /// Registers a context under a given key, as of `now`. Returns whether it was known.
    pub fn register_with_key_at(
        &mut self,
        key: &ContextKey,
        context: CompileContext,
        key_root: Option<NormalizedPath>,
        now: u128,
    ) -> (known: bool)
        requires
            old(self).wf(),
        ensures
            final(self).wf(),
            known == old(self)@.contexts.contains_key(key@),
            final(self)@ == registered(old(self)@, key@, context@, opt_path_view(key_root), now),
    {
        let known = if let Some(entry) = self.contexts.get_mut(key.hash().to_hex()) {
            entry.last_accessed = now;
            true
        } else {
            false
        };
        if !known {
            let entry = ContextEntry {
                context,
                key_root,
                resolved_includes: Vec::new(),
                unresolved_includes: Vec::new(),
                has_computed_includes: false,
                artifact_key: None,
                last_file_hashes: Vec::new(),
                last_accessed: now,
                state: ContextState::Cold,
            };
            proof {
                assert(entry@.resolved =~= Seq::<Seq<char>>::empty());
                assert(entry@.unresolved =~= Seq::<Seq<char>>::empty());
                assert(entry@.hashes =~= Seq::<(Seq<char>, Seq<char>)>::empty());
            }
            self.contexts.insert(key.hash().to_hex().to_owned(), entry);
        }
        assert(self@.contexts =~= registered(old(self)@, key@, context@, opt_path_view(key_root), now).contexts);
        known
    }

    /// Registers a context, its key relative to `key_root` and set apart by `salt`.
    pub fn register_with_root_and_salt_result(
        &mut self,
        context: CompileContext,
        key_root: Option<NormalizedPath>,
        salt: Option<&str>,
    ) -> (result: Registration)
        requires
            old(self).wf(),
        ensures
            final(self).wf(),
            result.key@ == key_of(old(self)@.style, context@, opt_path_view(key_root), opt_str_view(salt)),
            result.known == old(self)@.contexts.contains_key(result.key@),
            exists|now: u128|
                final(self)@ == #[trigger] registered(old(self)@, result.key@, context@, opt_path_view(key_root), now),
    {
        let key = match &key_root {
            Some(root) => compute_context_key(self.style, &context, Some(root.as_str()), salt),
            None => compute_context_key(self.style, &context, None, salt),
        };
        let now = self.clock.read();
        let ghost root = opt_path_view(key_root);
        let known = self.register_with_key_at(&key, context, key_root, now);
        let result = Registration { key, known };
        assert(self@ == registered(old(self)@, result.key@, context@, root, now));
        result
    }

    /// Registers a context and returns its key.
    pub fn register(&mut self, context: CompileContext) -> (key: ContextKey)
        requires
            old(self).wf(),
        ensures
            final(self).wf(),
            key@ == key_of(old(self)@.style, context@, None, None),
            exists|now: u128| final(self)@ == #[trigger] registered(old(self)@, key@, context@, None, now),
    {
        self.register_with_root_and_salt_result(context, None, None).key
    }

    /// Registers a Rust context under a given key, with its extern crates: the crate files count
    /// by their content under the crate's name, not by where they lie.
    pub fn register_rustc_with_key_and_root_result(
        &mut self,
        key: &ContextKey,
        context: CompileContext,
        key_root: Option<NormalizedPath>,
        externs: Vec<(String, NormalizedPath)>,
    ) -> (known: bool)
        requires
            old(self).wf(),
        ensures
            final(self).wf(),
            known == old(self)@.contexts.contains_key(key@),
            exists|now: u128|
                final(self)@ == #[trigger] registered_rustc(
                    old(self)@,
                    key@,
                    context@,
                    opt_path_view(key_root),
                    extern_views(externs@),
                    now,
                ),
    {
        let now = self.clock.read();
        let known = self.register_with_key_at(key, context, key_root, now);
        let ghost mid = self@;
        if externs.len() == 0 {
            self.rustc_externs.remove(key.hash().to_hex());
            assert(self@.externs =~= mid.externs.remove(key@));
        } else {
            self.rustc_externs.insert(key.hash().to_hex().to_owned(), externs);
            assert(self@.externs =~= mid.externs.insert(key@, extern_views(externs@)));
        }
        assert(mid == registered(old(self)@, key@, context@, opt_path_view(key_root), now));
        assert(self@ == registered_rustc(
            old(self)@,
            key@,
            context@,
            opt_path_view(key_root),
            extern_views(externs@),
            now,
        ));
        known
    }

    /// The spelling of a path in context keys.
    pub fn cached_normalize_key_path(&self, path: &str, key_root: Option<&str>) -> (key: String)
        ensures
            key@ == crate::context::key_path(self@.style, path@, opt_str_view(key_root)),
    {
        normalize_key_path(self.style, path, key_root)
    }
}

// ── Recording ───────────────────────────────────────────────────────────

/// The files that a compilation reads: its source, its headers, and what is read before them.
pub open spec fn input_files(context: ContextView, resolved: Seq<Seq<char>>) -> Seq<Seq<char>> {
    seq![context.source] + resolved + context.forced
}

/// The files with their known hashes; `None` where one is not known.
pub open spec fn hashed(facts: Seq<FileFact>, paths: Seq<Seq<char>>) -> Option<Seq<(Seq<char>, Seq<char>)>>
    decreases paths.len(),
{
    if paths.len() == 0 {
        Some(Seq::empty())
    } else {
        match (hashed(facts, paths.drop_last()), fact_hash(facts, paths.last())) {
            (Some(list), Some(hash)) => Some(list.push((paths.last(), hash))),
            _ => None,
        }
    }
}

/// The label under which an extern crate counts.
pub open spec fn extern_label(name: Seq<char>) -> Seq<char> {
    "extern:"@ + name
}

/// The extern crates with the known hashes of their files; `None` where one is not known.
pub open spec fn hashed_externs(facts: Seq<FileFact>, externs: Seq<(Seq<char>, Seq<char>)>) -> Option<
    Seq<(Seq<char>, Seq<char>)>,
>
    decreases externs.len(),
{
    if externs.len() == 0 {
        Some(Seq::empty())
    } else {
        match (hashed_externs(facts, externs.drop_last()), fact_hash(facts, externs.last().1)) {
            (Some(list), Some(hash)) => Some(list.push((extern_label(externs.last().0), hash))),
            _ => None,
        }
    }
}

/// The extern crates of a context: none where none are recorded.
pub open spec fn externs_for(g: GraphView, key: Seq<char>) -> Seq<(Seq<char>, Seq<char>)> {
    if g.externs.contains_key(key) {
        g.externs[key]
    } else {
        Seq::empty()
    }
}

/// The artifact that a context makes from these files and extern crates.
pub open spec fn artifact_of(
    style: PathStyle,
    key: Seq<char>,
    root: Option<Seq<char>>,
    files: Seq<(Seq<char>, Seq<char>)>,
    extern_hashes: Seq<(Seq<char>, Seq<char>)>,
) -> Seq<char> {
    blake3_hex(artifact_bytes(key, labels(style, files, root) + extern_hashes))
}

/// The graph after a compilation was recorded at `now`, and the artifact it made. Where the
/// context is not registered, or some file could not be hashed, nothing changes.
pub open spec fn updated(
    g: GraphView,
    key: Seq<char>,
    resolved: Seq<Seq<char>>,
    unresolved: Seq<Seq<char>>,
    has_computed: bool,
    facts: Seq<FileFact>,
    now: u128,
) -> (GraphView, Option<Seq<char>>) {
    if !g.contexts.contains_key(key) {
        (g, None)
    } else {
        let entry = g.contexts[key];
        match (hashed(facts, input_files(entry.context, resolved)), hashed_externs(facts, externs_for(g, key))) {
            (Some(files), Some(extern_hashes)) => {
                let artifact = artifact_of(g.style, key, entry.key_root, files, extern_hashes);
                let new_entry = EntryView {
                    resolved,
                    unresolved,
                    has_computed,
                    artifact: Some(artifact),
                    hashes: files,
                    accessed: now,
                    state: ContextState::Warm,
                    ..entry
                };
                (GraphView { contexts: g.contexts.insert(key, new_entry), ..g }, Some(artifact))
            },
            _ => (g, None),
        }
    }
}

/// Looks up the hash of each path, after those in `done`.
pub(crate) fn hash_paths(done: Vec<(NormalizedPath, ContentHash)>, paths: &[NormalizedPath], facts: &[FileFact], Ghost(before): Ghost<
    Seq<Seq<char>>,
>) -> (files: Option<Vec<(NormalizedPath, ContentHash)>>)
    requires
        hashed(facts@, before) == Some(file_views(done@)),
    ensures
        match files {
            Some(list) => hashed(facts@, before + path_views(paths@)) == Some(file_views(list@)),
            None => hashed(facts@, before + path_views(paths@)) is None,
        },
{
    let mut list = done;
    let ghost all = before + path_views(paths@);
    let mut i: usize = 0;
    assert(all.take(before.len() as int) =~= before);
    while i < paths.len()
        invariant
            i <= paths@.len(),
            all == before + path_views(paths@),
            hashed(facts@, all.take(before.len() + i)) == Some(file_views(list@)),
        decreases paths@.len() - i,
    {
        let ghost now = all.take(before.len() + i + 1);
        let ghost list0 = list@;
        assert(now.drop_last() =~= all.take(before.len() + i));
        assert(now.last() == paths@[i as int]@);
        match known_hash(facts, paths[i].as_str()) {
            Some(hash) => {
                list.push((paths[i].clone(), hash));
                assert(file_views(list@) =~= file_views(list0).push((paths@[i as int]@, hash@)));
            },
            None => {
                proof {
                    lemma_hashed_prefix(facts@, all, before.len() + i + 1);
                }
                return None;
            },
        }
        i = i + 1;
    }
    assert(all.take(all.len() as int) =~= all);
    Some(list)
}

/// Where a prefix of the files cannot be hashed, the whole cannot.
proof fn lemma_hashed_prefix(facts: Seq<FileFact>, paths: Seq<Seq<char>>, n: int)
    requires
        0 <= n <= paths.len(),
        hashed(facts, paths.take(n)) is None,
    ensures
        hashed(facts, paths) is None,
    decreases paths.len(),
{
    if n < paths.len() {
        assert(paths.drop_last().take(n) =~= paths.take(n));
        lemma_hashed_prefix(facts, paths.drop_last(), n);
    } else {
        assert(paths.take(n) =~= paths);
    }
}

/// Where a prefix of the extern crates cannot be hashed, the whole cannot.
proof fn lemma_externs_prefix(facts: Seq<FileFact>, externs: Seq<(Seq<char>, Seq<char>)>, n: int)
    requires
        0 <= n <= externs.len(),
        hashed_externs(facts, externs.take(n)) is None,
    ensures
        hashed_externs(facts, externs) is None,
    decreases externs.len(),
{
    if n < externs.len() {
        assert(externs.drop_last().take(n) =~= externs.take(n));
        lemma_externs_prefix(facts, externs.drop_last(), n);
    } else {
        assert(externs.take(n) =~= externs);
    }
}

/// Looks up the hash of each extern crate.
fn hash_externs(externs: &[(String, NormalizedPath)], facts: &[FileFact]) -> (labelled: Option<Vec<(String, String)>>)
    ensures
        match labelled {
            Some(list) => hashed_externs(facts@, extern_views(externs@)) == Some(pair_views(list@)),
            None => hashed_externs(facts@, extern_views(externs@)) is None,
        },
{
    let mut list: Vec<(String, String)> = Vec::new();
    let ghost all = extern_views(externs@);
    let mut i: usize = 0;
    assert(pair_views(list@) =~= Seq::<(Seq<char>, Seq<char>)>::empty());
    while i < externs.len()
        invariant
            i <= externs@.len(),
            all == extern_views(externs@),
            hashed_externs(facts@, all.take(i as int)) == Some(pair_views(list@)),
        decreases externs@.len() - i,
    {
        let ghost now = all.take(i + 1);
        let ghost list0 = list@;
        assert(now.drop_last() =~= all.take(i as int));
        assert(now.last() == (externs@[i as int].0@, externs@[i as int].1@));
        match known_hash(facts, externs[i].1.as_str()) {
            Some(hash) => {
                let label = concat2("extern:", externs[i].0.as_str());
                list.push((label, hash.to_hex().to_owned()));
                assert(pair_views(list@) =~= pair_views(list0).push((label@, hash@)));
            },
            None => {
                proof {
                    lemma_externs_prefix(facts@, all, i + 1);
                }
                return None;
            },
        }
        i = i + 1;
    }
    assert(all.take(all.len() as int) =~= all);
    Some(list)
}

/// The artifact that a context makes from these files and extern crates.
fn artifact_key_of(
    style: PathStyle,
    key: &ContextKey,
    root: &Option<NormalizedPath>,
    files: &[(NormalizedPath, ContentHash)],
    extern_hashes: Vec<(String, String)>,
) -> (artifact: ArtifactKey)
    ensures
        artifact@ == artifact_of(style, key@, opt_path_view(*root), file_views(files@), pair_views(extern_hashes@)),
{
    let mut labelled = match root {
        Some(r) => label_files(style, files, Some(r.as_str())),
        None => label_files(style, files, None),
    };
    let ghost front = labelled@;
    let mut more = extern_hashes;
    labelled.append(&mut more);
    assert(pair_views(labelled@) =~= pair_views(front) + pair_views(extern_hashes@));
    labelled_artifact_key(key, labelled)
}

impl DepGraph {
    /// The extern crates of a context with the known hashes of their files.
    fn extern_hashes(&self, key: &ContextKey, facts: &[FileFact]) -> (labelled: Option<Vec<(String, String)>>)
        requires
            self.wf(),
        ensures
            match labelled {
                Some(list) => hashed_externs(facts@, externs_for(self@, key@)) == Some(pair_views(list@)),
                None => hashed_externs(facts@, externs_for(self@, key@)) is None,
            },
    {
        match self.rustc_externs.get(key.hash().to_hex()) {
            Some(externs) => hash_externs(externs, facts),
            None => {
                let none: Vec<(String, String)> = Vec::new();
                assert(pair_views(none@) =~= Seq::<(Seq<char>, Seq<char>)>::empty());
                Some(none)
            },
        }
    }

    /// Records a compilation as of `now`: what it read and which artifact it made. Either all of
    /// it is recorded, or nothing changes and `None` comes back.
    pub fn update_at(&mut self, key: &ContextKey, scan: ScanResult, facts: &[FileFact], now: u128) -> (artifact: Option<
        ArtifactKey,
    >)
        requires
            old(self).wf(),
        ensures
            final(self).wf(),
            (final(self)@, opt_artifact_view(artifact)) == updated(
                old(self)@,
                key@,
                path_views(scan.resolved@),
                views(scan.unresolved@),
                scan.has_computed,
                facts@,
                now,
            ),
    {
        let ghost start = self@;
        let extern_hashes = match self.extern_hashes(key, facts) {
            Some(list) => list,
            None => {
                return None;
            },
        };
        let style = self.style;
        match self.contexts.get_mut(key.hash().to_hex()) {
            Some(entry) => {
                let ghost ctx = entry.context@;
                let ghost resolved = path_views(scan.resolved@);
                let ghost first = seq![ctx.source];
                let files = match known_hash(facts, entry.context.source_file.as_str()) {
                    Some(hash) => {
                        let mut files: Vec<(NormalizedPath, ContentHash)> = Vec::new();
                        files.push((entry.context.source_file.clone(), hash));
                        proof {
                            reveal_with_fuel(hashed, 2);
                            assert(first.drop_last() =~= Seq::<Seq<char>>::empty());
                            assert(file_views(files@) =~= seq![(ctx.source, hash@)]);
                            assert(Seq::<(Seq<char>, Seq<char>)>::empty().push((ctx.source, hash@)) =~= file_views(files@));
                        }
                        match hash_paths(files, &scan.resolved, facts, Ghost(first)) {
                            Some(files) => hash_paths(
                                files,
                                &entry.context.force_includes,
                                facts,
                                Ghost(first + resolved),
                            ),
                            None => {
                                proof {
                                    let all = first + resolved + ctx.forced;
                                    assert(all.take((first + resolved).len() as int) =~= first + resolved);
                                    lemma_hashed_prefix(facts@, all, (first + resolved).len() as int);
                                }
                                None
                            },
                        }
                    },
                    None => {
                        proof {
                            let all = first + resolved + ctx.forced;
                            reveal_with_fuel(hashed, 2);
                            assert(all.take(1) =~= first);
                            assert(first.drop_last() =~= Seq::<Seq<char>>::empty());
                            lemma_hashed_prefix(facts@, all, 1);
                        }
                        None
                    },
                };
                match files {
                    Some(files) => {
                        let artifact = artifact_key_of(style, key, &entry.key_root, &files, extern_hashes);
                        let result = artifact.clone();
                        entry.resolved_includes = scan.resolved;
                        entry.unresolved_includes = scan.unresolved;
                        entry.has_computed_includes = scan.has_computed;
                        entry.artifact_key = Some(artifact);
                        entry.last_file_hashes = files;
                        entry.last_accessed = now;
                        entry.state = ContextState::Warm;
                        proof {
                            assert(self@.contexts =~= updated(
                                start,
                                key@,
                                path_views(scan.resolved@),
                                views(scan.unresolved@),
                                scan.has_computed,
                                facts@,
                                now,
                            ).0.contexts);
                        }
                        Some(result)
                    },
                    None => {
                        assert(self@.contexts =~= start.contexts);
                        None
                    },
                }
            },
            None => {
                assert(self@.contexts =~= start.contexts);
                None
            },
        }
    }

    /// Records a compilation: what it read and which artifact it made.
    pub fn update(&mut self, key: &ContextKey, scan: ScanResult, facts: &[FileFact]) -> (artifact: Option<ArtifactKey>)
        requires
            old(self).wf(),
        ensures
            final(self).wf(),
            exists|now: u128|
                (final(self)@, opt_artifact_view(artifact)) == #[trigger] updated(
                    old(self)@,
                    key@,
                    path_views(scan.resolved@),
                    views(scan.unresolved@),
                    scan.has_computed,
                    facts@,
                    now,
                ),
    {
        let now = self.clock.read();
        self.update_at(key, scan, facts, now)
    }
}

// ── Deciding ────────────────────────────────────────────────────────────

/// Whether a compilation's artifact can be used again.
#[derive(Debug)]
pub enum CacheVerdict {
    /// Nothing usable is known: compile.
    Cold,
    /// The artifact is up to date.
    Hit {
        /// The artifact.
        artifact_key: ArtifactKey,
    },
    /// The source file changed.
    SourceChanged {
        /// The source file.
        source: NormalizedPath,
    },
    /// Headers changed, or extern crates.
    HeadersChanged {
        /// Those that changed.
        changed: Vec<NormalizedPath>,
    },
    /// A header is named by a macro: only the preprocessor can tell.
    NeedsPreprocessor,
}

/// A verdict, by its texts.
pub enum VerdictView {
    /// Nothing usable is known.
    Cold,
    /// This artifact is up to date.
    Hit(Seq<char>),
    /// This source file changed.
    SourceChanged(Seq<char>),
    /// These headers or extern crates changed.
    HeadersChanged(Seq<Seq<char>>),
    /// Only the preprocessor can tell.
    NeedsPreprocessor,
}

impl View for CacheVerdict {
    type V = VerdictView;

    open spec fn view(&self) -> VerdictView {
        match *self {
            CacheVerdict::Cold => VerdictView::Cold,
            CacheVerdict::Hit { artifact_key } => VerdictView::Hit(artifact_key@),
            CacheVerdict::SourceChanged { source } => VerdictView::SourceChanged(source@),
            CacheVerdict::HeadersChanged { changed } => VerdictView::HeadersChanged(path_views(changed@)),
            CacheVerdict::NeedsPreprocessor => VerdictView::NeedsPreprocessor,
        }
    }
}

/// The hash recorded for `path`, where there is one.
pub open spec fn recorded(hashes: Seq<(Seq<char>, Seq<char>)>, path: Seq<char>) -> Option<Seq<char>>
    decreases hashes.len(),
{
    if hashes.len() == 0 {
        None
    } else if hashes[0].0 == path {
        Some(hashes[0].1)
    } else {
        recorded(hashes.drop_first(), path)
    }
}

/// Whether the file changed: its watcher cannot vouch for it, and its content is not known to be
/// what was recorded.
pub open spec fn changed(hashes: Seq<(Seq<char>, Seq<char>)>, facts: Seq<FileFact>, path: Seq<char>) -> bool {
    !fact_fresh(facts, path) && (fact_hash(facts, path) is None || fact_hash(facts, path) != recorded(hashes, path))
}

/// Those of `paths` that changed, in order.
pub open spec fn changed_among(
    hashes: Seq<(Seq<char>, Seq<char>)>,
    facts: Seq<FileFact>,
    paths: Seq<Seq<char>>,
) -> Seq<Seq<char>>
    decreases paths.len(),
{
    if paths.len() == 0 {
        Seq::empty()
    } else {
        let before = changed_among(hashes, facts, paths.drop_last());
        if changed(hashes, facts, paths.last()) {
            before.push(paths.last())
        } else {
            before
        }
    }
}

/// The files of a list of extern crates.
pub open spec fn extern_paths(externs: Seq<(Seq<char>, Seq<char>)>) -> Seq<Seq<char>> {
    Seq::new(externs.len(), |i: int| externs[i].1)
}

/// Whether the extern crates, as they are now, give the recorded artifact.
pub open spec fn externs_agree(g: GraphView, key: Seq<char>, facts: Seq<FileFact>) -> bool {
    let entry = g.contexts[key];
    externs_for(g, key).len() == 0 || match hashed_externs(facts, externs_for(g, key)) {
        Some(extern_hashes) => entry.artifact == Some(
            artifact_of(g.style, key, entry.key_root, entry.hashes, extern_hashes),
        ),
        None => false,
    }
}

/// What is to be made of a context, given what is known of files.
pub open spec fn verdict(g: GraphView, key: Seq<char>, facts: Seq<FileFact>) -> VerdictView {
    if !g.contexts.contains_key(key) {
        VerdictView::Cold
    } else {
        let entry = g.contexts[key];
        let headers = changed_among(entry.hashes, facts, entry.resolved + entry.context.forced);
        if entry.state != ContextState::Warm || entry.artifact is None {
            VerdictView::Cold
        } else if entry.has_computed {
            VerdictView::NeedsPreprocessor
        } else if changed(entry.hashes, facts, entry.context.source) {
            VerdictView::SourceChanged(entry.context.source)
        } else if headers.len() > 0 {
            VerdictView::HeadersChanged(headers)
        } else if !externs_agree(g, key, facts) {
            VerdictView::HeadersChanged(extern_paths(externs_for(g, key)))
        } else {
            VerdictView::Hit(entry.artifact->0)
        }
    }
}

/// Whether nothing was ever recorded for a context.
pub open spec fn never_recorded(g: GraphView, key: Seq<char>) -> bool {
    !g.contexts.contains_key(key) || g.contexts[key].state == ContextState::Cold
}

/// The artifact of a context that is a hit.
pub open spec fn fast_hit(g: GraphView, key: Seq<char>, facts: Seq<FileFact>) -> Option<Seq<char>> {
    match verdict(g, key, facts) {
        VerdictView::Hit(a) => Some(a),
        _ => None,
    }
}

/// One more, from the largest number back to zero.
pub open spec fn bumped(n: u64) -> u64 {
    if n == u64::MAX {
        0
    } else {
        (n + 1) as u64
    }
}

/// The graph after a check at `now`: the counters moved, the context used, and marked out of date
/// where one of its files changed.
pub open spec fn checked(g: GraphView, key: Seq<char>, facts: Seq<FileFact>, now: u128) -> GraphView {
    let v = verdict(g, key, facts);
    GraphView {
        contexts: if g.contexts.contains_key(key) {
            g.contexts.insert(
                key,
                EntryView {
                    accessed: now,
                    state: if v is SourceChanged || v is HeadersChanged {
                        ContextState::Stale
                    } else {
                        g.contexts[key].state
                    },
                    ..g.contexts[key]
                },
            )
        } else {
            g.contexts
        },
        checks: bumped(g.checks),
        hits: if v is Hit {
            bumped(g.hits)
        } else {
            g.hits
        },
        misses: if v is Hit {
            g.misses
        } else {
            bumped(g.misses)
        },
        ..g
    }
}

/// One more, from the largest number back to zero.
fn bump(n: u64) -> (next: u64)
    ensures
        next == bumped(n),
{
    if n == u64::MAX {
        0
    } else {
        n + 1
    }
}

/// Whether a file has the hash recorded for it.
fn recorded_is(hashes: &[(NormalizedPath, ContentHash)], path: &str, hash: &ContentHash) -> (yes: bool)
    ensures
        yes == (recorded(file_views(hashes@), path@) == Some(hash@)),
{
    let ghost all = file_views(hashes@);
    let mut i: usize = 0;
    assert(all.skip(0) =~= all);
    while i < hashes.len() && !same_text(hashes[i].0.as_str(), path)
        invariant
            i <= hashes@.len(),
            all == file_views(hashes@),
            recorded(all, path@) == recorded(all.skip(i as int), path@),
        decreases hashes@.len() - i,
    {
        assert(all.skip(i as int)[0].0 == hashes@[i as int].0@);
        assert(all.skip(i as int).drop_first() =~= all.skip(i + 1));
        i = i + 1;
    }
    if i < hashes.len() {
        assert(all.skip(i as int)[0].0 == hashes@[i as int].0@);
        hashes[i].1.same(hash)
    } else {
        false
    }
}

/// Whether the file changed.
fn has_changed(hashes: &[(NormalizedPath, ContentHash)], facts: &[FileFact], path: &str) -> (yes: bool)
    ensures
        yes == changed(file_views(hashes@), facts@, path@),
{
    if known_fresh(facts, path) {
        return false;
    }
    match known_hash(facts, path) {
        Some(hash) => !recorded_is(hashes, path, &hash),
        None => true,
    }
}

/// Those of `paths` that changed, after those in `done`.
fn add_changed(
    done: Vec<NormalizedPath>,
    hashes: &[(NormalizedPath, ContentHash)],
    facts: &[FileFact],
    paths: &[NormalizedPath],
    Ghost(before): Ghost<Seq<Seq<char>>>,
) -> (list: Vec<NormalizedPath>)
    requires
        path_views(done@) == changed_among(file_views(hashes@), facts@, before),
    ensures
        path_views(list@) == changed_among(file_views(hashes@), facts@, before + path_views(paths@)),
{
    let mut list = done;
    let ghost all = before + path_views(paths@);
    let ghost stored = file_views(hashes@);
    let mut i: usize = 0;
    assert(all.take(before.len() as int) =~= before);
    while i < paths.len()
        invariant
            i <= paths@.len(),
            all == before + path_views(paths@),
            stored == file_views(hashes@),
            path_views(list@) == changed_among(stored, facts@, all.take(before.len() + i)),
        decreases paths@.len() - i,
    {
        let ghost now = all.take(before.len() + i + 1);
        let ghost list0 = list@;
        assert(now.drop_last() =~= all.take(before.len() + i));
        assert(now.last() == paths@[i as int]@);
        if has_changed(hashes, facts, paths[i].as_str()) {
            list.push(paths[i].clone());
            assert(path_views(list@) =~= path_views(list0).push(paths@[i as int]@));
        }
        i = i + 1;
    }
    assert(all.take(all.len() as int) =~= all);
    list
}

impl DepGraph {
    /// Whether the extern crates, as they are now, give the recorded artifact.
    fn externs_still_agree(&self, key: &ContextKey, entry: &ContextEntry, facts: &[FileFact]) -> (yes: bool)
        requires
            self.wf(),
            self@.contexts.contains_key(key@),
            self@.contexts[key@] == entry@,
        ensures
            yes == externs_agree(self@, key@, facts@),
    {
        match self.rustc_externs.get(key.hash().to_hex()) {
            Some(externs) => {
                if externs.len() == 0 {
                    return true;
                }
                match hash_externs(externs, facts) {
                    Some(list) => {
                        let artifact = artifact_key_of(self.style, key, &entry.key_root, &entry.last_file_hashes, list);
                        match &entry.artifact_key {
                            Some(stored) => stored.hash().same(artifact.hash()),
                            None => false,
                        }
                    },
                    None => false,
                }
            },
            None => true,
        }
    }

    /// The files of the extern crates of a context.
    fn extern_files(&self, key: &ContextKey) -> (list: Vec<NormalizedPath>)
        requires
            self.wf(),
        ensures
            path_views(list@) == extern_paths(externs_for(self@, key@)),
    {
        let mut list: Vec<NormalizedPath> = Vec::new();
        match self.rustc_externs.get(key.hash().to_hex()) {
            Some(externs) => {
                let mut i: usize = 0;
                while i < externs.len()
                    invariant
                        i <= externs@.len(),
                        list@.len() == i,
                        forall|j: int| 0 <= j < i ==> (#[trigger] list@[j])@ == externs@[j].1@,
                    decreases externs@.len() - i,
                {
                    list.push(externs[i].1.clone());
                    i = i + 1;
                }
                assert(path_views(list@) =~= extern_paths(extern_views(externs@)));
            },
            None => {
                assert(path_views(list@) =~= extern_paths(Seq::<(Seq<char>, Seq<char>)>::empty()));
            },
        }
        list
    }

    /// What is to be made of a context.
    fn decide(&self, key: &ContextKey, facts: &[FileFact]) -> (v: CacheVerdict)
        requires
            self.wf(),
        ensures
            v@ == verdict(self@, key@, facts@),
    {
        let entry = match self.contexts.get(key.hash().to_hex()) {
            Some(entry) => entry,
            None => {
                return CacheVerdict::Cold;
            },
        };
        assert(entry@ == self@.contexts[key@]);
        if entry.state != ContextState::Warm {
            return CacheVerdict::Cold;
        }
        let artifact = match &entry.artifact_key {
            Some(artifact) => artifact,
            None => {
                return CacheVerdict::Cold;
            },
        };
        if entry.has_computed_includes {
            return CacheVerdict::NeedsPreprocessor;
        }
        let source = &entry.context.source_file;
        if has_changed(&entry.last_file_hashes, facts, source.as_str()) {
            return CacheVerdict::SourceChanged { source: source.clone() };
        }
        let none: Vec<NormalizedPath> = Vec::new();
        proof {
            assert(path_views(none@) =~= Seq::<Seq<char>>::empty());
            assert(Seq::<Seq<char>>::empty() + path_views(entry.resolved_includes@) =~= path_views(
                entry.resolved_includes@,
            ));
        }
        let some = add_changed(none, &entry.last_file_hashes, facts, &entry.resolved_includes, Ghost(Seq::empty()));
        let headers = add_changed(
            some,
            &entry.last_file_hashes,
            facts,
            &entry.context.force_includes,
            Ghost(path_views(entry.resolved_includes@)),
        );
        if headers.len() > 0 {
            return CacheVerdict::HeadersChanged { changed: headers };
        }
        if !self.externs_still_agree(key, entry, facts) {
            return CacheVerdict::HeadersChanged { changed: self.extern_files(key) };
        }
        CacheVerdict::Hit { artifact_key: artifact.clone() }
    }

    /// Decides, as of `now`, whether the artifact of a context can be used again.
    pub fn check_at(&mut self, key: &ContextKey, facts: &[FileFact], now: u128) -> (v: CacheVerdict)
        requires
            old(self).wf(),
        ensures
            final(self).wf(),
            v@ == verdict(old(self)@, key@, facts@),
            final(self)@ == checked(old(self)@, key@, facts@, now),
    {
        let v = self.decide(key, facts);
        self.checks = bump(self.checks);
        let (hit, stale) = match &v {
            CacheVerdict::Hit { artifact_key: _ } => (true, false),
            CacheVerdict::SourceChanged { source: _ } => (false, true),
            CacheVerdict::HeadersChanged { changed: _ } => (false, true),
            CacheVerdict::Cold => (false, false),
            CacheVerdict::NeedsPreprocessor => (false, false),
        };
        if hit {
            self.hits = bump(self.hits);
        } else {
            self.misses = bump(self.misses);
        }
        if let Some(entry) = self.contexts.get_mut(key.hash().to_hex()) {
            entry.last_accessed = now;
            if stale {
                entry.state = ContextState::Stale;
            }
        }
        assert(self@.contexts =~= checked(old(self)@, key@, facts@, now).contexts);
        v
    }

    /// Decides whether the artifact of a context can be used again.
    pub fn check(&mut self, key: &ContextKey, facts: &[FileFact]) -> (v: CacheVerdict)
        requires
            old(self).wf(),
        ensures
            final(self).wf(),
            v@ == verdict(old(self)@, key@, facts@),
            exists|now: u128| final(self)@ == #[trigger] checked(old(self)@, key@, facts@, now),
    {
        let now = self.clock.read();
        self.check_at(key, facts, now)
    }

    /// Whether nothing was ever recorded for the context.
    pub fn is_cold(&self, key: &ContextKey) -> (cold: bool)
        requires
            self.wf(),
        ensures
            cold == never_recorded(self@, key@),
    {
        match self.contexts.get(key.hash().to_hex()) {
            Some(entry) => entry.state == ContextState::Cold,
            None => true,
        }
    }

    /// The artifact of a context whose files all have the recorded content; nothing is counted.
    pub fn try_fast_hit(&self, key: &ContextKey, facts: &[FileFact]) -> (artifact: Option<ArtifactKey>)
        requires
            self.wf(),
        ensures
            opt_artifact_view(artifact) == fast_hit(self@, key@, facts@),
    {
        match self.decide(key, facts) {
            CacheVerdict::Hit { artifact_key } => Some(artifact_key),
            CacheVerdict::SourceChanged { source: _ } => None,
            CacheVerdict::HeadersChanged { changed: _ } => None,
            CacheVerdict::Cold => None,
            CacheVerdict::NeedsPreprocessor => None,
        }
    }
}

} // verus!
