//! The dependency graph: what each compilation was made from, and which artifact it made.

use vstd::prelude::*;
use crate::clock::Stopwatch;
use crate::context::{CompileContext, ContextView};
use crate::hash::{opt_artifact_view, opt_hash_view, ArtifactKey, ContentHash};
use crate::path::{opt_path_view, path_views, NormalizedPath, PathStyle};
use crate::table::Table;
use crate::text::views;

pub mod checks;
pub mod hits;
pub mod ingest;
pub mod laws;
pub mod maintenance;

verus! {

// ── What the graph stores ───────────────────────────────────────────────

/// How much is known of a context.
#[derive(Clone, Copy, Debug, PartialEq, Eq, Structural)]
pub enum ContextState {
    /// Registered, never scanned.
    Cold,
    /// Scanned and hashed.
    Warm,
    /// Known to be out of date.
    Stale,
}

/// How a header is named in an include line.
#[derive(Clone, Copy, Debug, PartialEq, Eq, Structural)]
pub enum IncludeKind {
    /// In quotes.
    Quoted,
    /// In angle brackets.
    Angled,
    /// By a macro.
    Computed,
}

/// One include line of a file.
#[derive(Clone, Debug)]
pub struct IncludeDirective {
    /// How the header is named.
    pub kind: IncludeKind,
    /// The name.
    pub path: String,
    /// The line it stands on.
    pub line: usize,
}

/// An include line, by its text.
pub struct IncludeView {
    /// How the header is named.
    pub kind: IncludeKind,
    /// The name.
    pub path: Seq<char>,
    /// The line it stands on.
    pub line: nat,
}

/// Include lines, by their texts.
pub open spec fn include_views(list: Seq<IncludeDirective>) -> Seq<IncludeView> {
    Seq::new(
        list.len(),
        |i: int| IncludeView { kind: list[i].kind, path: list[i].path@, line: list[i].line as nat },
    )
}

/// What a scan of a source file found.
#[derive(Clone, Debug)]
pub struct ScanResult {
    /// The headers that were found.
    pub resolved: Vec<NormalizedPath>,
    /// The header names that were not found.
    pub unresolved: Vec<String>,
    /// Some header was named by a macro.
    pub has_computed: bool,
}

/// A scanned file.
#[derive(Debug)]
pub struct FileEntry {
    /// Its include lines.
    pub includes: Vec<IncludeDirective>,
    /// When it was scanned.
    pub scanned_at: u128,
}

/// A scanned file, by its texts.
pub struct FileView {
    /// Its include lines.
    pub includes: Seq<IncludeView>,
    /// When it was scanned.
    pub scanned_at: u128,
}

/// A registered compilation.
#[derive(Debug)]
pub struct ContextEntry {
    /// The request.
    pub context: CompileContext,
    /// The directory that key paths are relative to.
    pub key_root: Option<NormalizedPath>,
    /// The headers of the last scan.
    pub resolved_includes: Vec<NormalizedPath>,
    /// The header names that the last scan did not find.
    pub unresolved_includes: Vec<String>,
    /// The last scan found a header named by a macro.
    pub has_computed_includes: bool,
    /// The artifact that the last compilation made.
    pub artifact_key: Option<ArtifactKey>,
    /// The files of the last compilation and their hashes.
    pub last_file_hashes: Vec<(NormalizedPath, ContentHash)>,
    /// When the entry was last used.
    pub last_accessed: u128,
    /// How much is known.
    pub state: ContextState,
}

/// A registered compilation, by its texts.
pub struct EntryView {
    /// The request.
    pub context: ContextView,
    /// The directory that key paths are relative to.
    pub key_root: Option<Seq<char>>,
    /// The headers of the last scan.
    pub resolved: Seq<Seq<char>>,
    /// The header names that the last scan did not find.
    pub unresolved: Seq<Seq<char>>,
    /// The last scan found a header named by a macro.
    pub has_computed: bool,
    /// The artifact that the last compilation made.
    pub artifact: Option<Seq<char>>,
    /// The files of the last compilation and their hashes.
    pub hashes: Seq<(Seq<char>, Seq<char>)>,
    /// When the entry was last used.
    pub accessed: u128,
    /// How much is known.
    pub state: ContextState,
}

impl View for ContextEntry {
    type V = EntryView;

    open spec fn view(&self) -> EntryView {
        EntryView {
            context: self.context@,
            key_root: opt_path_view(self.key_root),
            resolved: path_views(self.resolved_includes@),
            unresolved: views(self.unresolved_includes@),
            has_computed: self.has_computed_includes,
            artifact: opt_artifact_view(self.artifact_key),
            hashes: crate::context::file_views(self.last_file_hashes@),
            accessed: self.last_accessed,
            state: self.state,
        }
    }
}

/// Extern crates, by their texts.
pub open spec fn extern_views(list: Seq<(String, NormalizedPath)>) -> Seq<(Seq<char>, Seq<char>)> {
    Seq::new(list.len(), |i: int| (list[i].0@, list[i].1@))
}

/// Environment variables and the hashes of their values, by their texts.
pub open spec fn env_views(list: Seq<(String, Option<ContentHash>)>) -> Seq<(Seq<char>, Option<Seq<char>>)> {
    Seq::new(list.len(), |i: int| (list[i].0@, opt_hash_view(list[i].1)))
}

/// Counts of what the graph holds and did.
#[derive(Clone, Copy, Debug, PartialEq, Eq, Structural)]
pub struct DepGraphStats {
    /// Scanned files.
    pub file_count: usize,
    /// Registered contexts.
    pub context_count: usize,
    /// Checks made.
    pub checks: u64,
    /// Checks that were hits.
    pub hits: u64,
    /// Checks that were not.
    pub misses: u64,
}

/// The dependency graph.
pub struct DepGraph {
    style: PathStyle,
    contexts: Table<ContextEntry>,
    files: Table<FileEntry>,
    rustc_externs: Table<Vec<(String, NormalizedPath)>>,
    rustc_env_deps: Table<Vec<(String, Option<ContentHash>)>>,
    checks: u64,
    hits: u64,
    misses: u64,
    clock: Stopwatch,
}

/// What a dependency graph holds.
pub struct GraphView {
    /// How paths are written.
    pub style: PathStyle,
    /// The registered contexts, by key.
    pub contexts: Map<Seq<char>, EntryView>,
    /// The scanned files, by path.
    pub files: Map<Seq<char>, FileView>,
    /// The extern crates of Rust contexts, by context key.
    pub externs: Map<Seq<char>, Seq<(Seq<char>, Seq<char>)>>,
    /// The environment variables that Rust contexts read, by context key.
    pub env_deps: Map<Seq<char>, Seq<(Seq<char>, Option<Seq<char>>)>>,
    /// Checks made.
    pub checks: u64,
    /// Checks that were hits.
    pub hits: u64,
    /// Checks that were not.
    pub misses: u64,
}

/// The entries of a context table, by their texts.
spec fn entries_of(m: Map<Seq<char>, ContextEntry>) -> Map<Seq<char>, EntryView> {
    Map::new(|k: Seq<char>| m.contains_key(k), |k: Seq<char>| m[k]@)
}

/// The entries of a file table, by their texts.
spec fn files_of(m: Map<Seq<char>, FileEntry>) -> Map<Seq<char>, FileView> {
    Map::new(
        |k: Seq<char>| m.contains_key(k),
        |k: Seq<char>| FileView { includes: include_views(m[k].includes@), scanned_at: m[k].scanned_at },
    )
}

/// The entries of an extern table, by their texts.
spec fn externs_of(m: Map<Seq<char>, Vec<(String, NormalizedPath)>>) -> Map<Seq<char>, Seq<(Seq<char>, Seq<char>)>> {
    Map::new(|k: Seq<char>| m.contains_key(k), |k: Seq<char>| extern_views(m[k]@))
}

/// The entries of an environment table, by their texts.
spec fn env_deps_of(m: Map<Seq<char>, Vec<(String, Option<ContentHash>)>>) -> Map<
    Seq<char>,
    Seq<(Seq<char>, Option<Seq<char>>)>,
> {
    Map::new(|k: Seq<char>| m.contains_key(k), |k: Seq<char>| env_views(m[k]@))
}

impl View for DepGraph {
    type V = GraphView;

    closed spec fn view(&self) -> GraphView {
        GraphView {
            style: self.style,
            contexts: entries_of(self.contexts@),
            files: files_of(self.files@),
            externs: externs_of(self.rustc_externs@),
            env_deps: env_deps_of(self.rustc_env_deps@),
            checks: self.checks,
            hits: self.hits,
            misses: self.misses,
        }
    }
}

impl DepGraph {
    /// The tables are in order.
    pub closed spec fn wf(&self) -> bool {
        &&& self.contexts.wf()
        &&& self.files.wf()
        &&& self.rustc_externs.wf()
        &&& self.rustc_env_deps.wf()
    }
}

/// The graph with nothing in it.
pub open spec fn emptied(style: PathStyle) -> GraphView {
    GraphView {
        style,
        contexts: Map::empty(),
        files: Map::empty(),
        externs: Map::empty(),
        env_deps: Map::empty(),
        checks: 0,
        hits: 0,
        misses: 0,
    }
}

impl DepGraph {
    /// There are finitely many contexts and files.
    pub proof fn lemma_finite(&self)
        requires
            self.wf(),
        ensures
            self@.contexts.dom().finite(),
            self@.files.dom().finite(),
            self@.contexts.dom().len() <= usize::MAX,
            self@.files.dom().len() <= usize::MAX,
    {
        self.contexts.lemma_finite();
        self.files.lemma_finite();
        assert(self@.contexts.dom() =~= self.contexts@.dom());
        assert(self@.files.dom() =~= self.files@.dom());
    }

    /// An empty graph.
    pub fn new(style: PathStyle) -> (graph: DepGraph)
        ensures
            graph.wf(),
            graph@ == emptied(style),
    {
        let graph = DepGraph {
            style,
            contexts: Table::new(),
            files: Table::new(),
            rustc_externs: Table::new(),
            rustc_env_deps: Table::new(),
            checks: 0,
            hits: 0,
            misses: 0,
            clock: Stopwatch::start(),
        };
        proof {
            assert(graph@.contexts =~= Map::<Seq<char>, EntryView>::empty());
            assert(graph@.files =~= Map::<Seq<char>, FileView>::empty());
            assert(graph@.externs =~= Map::<Seq<char>, Seq<(Seq<char>, Seq<char>)>>::empty());
            assert(graph@.env_deps =~= Map::<Seq<char>, Seq<(Seq<char>, Option<Seq<char>>)>>::empty());
        }
        graph
    }
}

} // verus!
