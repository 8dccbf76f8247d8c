//! The request cache: what a request led to before, and whether that still holds here.

use vstd::prelude::*;
use crate::clock::Stopwatch;
use crate::context::{artifact_bytes, compute_artifact_key, file_views, labels, FileFact};
use crate::fscache::{changed_after, noted_in_time, watched, CacheSystem, CacheView};
use crate::graph::checks::{extern_paths, hash_paths, hashed};
use crate::graph::{DepGraph, GraphView};
use crate::hash::{blake3_hex, ContentHash, ContextKey};
use crate::keys::root_view;
use crate::order::{lemma_sorted_of, sorted_of};
use crate::path::{
    below, clean, join, joined_path, lemma_clean_keeps_parts, lemma_path_order, lemma_strip_then_join, lemma_unix_under,
    opt_path_view, parts, path_order, path_views, reversible, same, sort_paths, strip_root, verbatim, NormalizedPath,
    PathStyle,
};
use crate::table::Table;
use crate::text::{concat3, lemma_first_at, same_text};
use vstd::relations::sorted_by;

verus! {

// ── Paths that move with the worktree ───────────────────────────────────

/// A path of a cached request: relative to the worktree root where it lies below it.
#[derive(Debug)]
pub enum CachedRequestPath {
    /// Below the root.
    RootRelative(String),
    /// Elsewhere.
    Absolute(NormalizedPath),
}

/// A cached path, by its text.
pub enum CapturedView {
    /// Below the root.
    RootRelative(Seq<char>),
    /// Elsewhere.
    Absolute(Seq<char>),
}

impl View for CachedRequestPath {
    type V = CapturedView;

    open spec fn view(&self) -> CapturedView {
        match *self {
            CachedRequestPath::RootRelative(rest) => CapturedView::RootRelative(rest@),
            CachedRequestPath::Absolute(path) => CapturedView::Absolute(path@),
        }
    }
}

/// How a path is kept.
pub open spec fn captured(style: PathStyle, path: Seq<char>, root: Option<Seq<char>>) -> CapturedView {
    match root {
        Some(r) => match below(style, path, r) {
            Some(rest) => CapturedView::RootRelative(rest),
            None => CapturedView::Absolute(path),
        },
        None => CapturedView::Absolute(path),
    }
}

/// The path that is meant, seen from this root.
pub open spec fn resolved_path(style: PathStyle, path: CapturedView, root: Option<Seq<char>>) -> Seq<char> {
    match path {
        CapturedView::RootRelative(rest) => match root {
            Some(r) => clean(style, joined_path(style, r, rest)),
            None => clean(style, rest),
        },
        CapturedView::Absolute(p) => p,
    }
}

impl CachedRequestPath {
    /// Keeps a path, relative to `root` where it lies below it.
    pub fn capture(style: PathStyle, path: &NormalizedPath, root: Option<&NormalizedPath>) -> (kept: CachedRequestPath)
        ensures
            kept@ == captured(style, path@, root_view(root)),
    {
        if let Some(r) = root {
            if let Some(rest) = strip_root(style, path.as_str(), r.as_str()) {
                return CachedRequestPath::RootRelative(rest);
            }
        }
        CachedRequestPath::Absolute(path.clone())
    }

    /// Whether the path moves with the root.
    pub fn is_root_relative(&self) -> (yes: bool)
        ensures
            yes == (self@ is RootRelative),
    {
        match self {
            CachedRequestPath::RootRelative(_) => true,
            CachedRequestPath::Absolute(_) => false,
        }
    }

    /// The path that is meant, seen from this root.
    pub fn resolve(&self, style: PathStyle, root: Option<&NormalizedPath>) -> (path: NormalizedPath)
        ensures
            path@ == resolved_path(style, self@, root_view(root)),
    {
        match self {
            CachedRequestPath::RootRelative(rest) => match root {
                Some(r) => {
                    let joined = join(style, r.as_str(), rest.as_str());
                    NormalizedPath::new(style, joined.as_str())
                },
                None => NormalizedPath::new(style, rest.as_str()),
            },
            CachedRequestPath::Absolute(path) => path.clone(),
        }
    }
}

/// Whether the path begins with the very parts of the root. On Windows a path below the root may
/// write the drive letter in another case.
pub open spec fn begins(style: PathStyle, path: Seq<char>, root: Option<Seq<char>>) -> bool {
    root matches Some(r) && parts(style, r).is_prefix_of(parts(style, path))
}

/// A kept path, seen from the root it was kept under, is the path again, whether or not the root
/// is absolute. Its parts are those of the path, and so is its shortest spelling, where the path
/// begins with the parts of the root: on Unix always, on Windows where the drive letters agree in
/// case. On Windows what is left below the root must be one that can be put back: see
/// [`reversible`], and [`crate::path::lemma_reversible`] for the paths where it is.
pub proof fn lemma_capture_then_resolve(style: PathStyle, path: Seq<char>, root: Option<Seq<char>>)
    requires
        style == PathStyle::Windows && root is Some ==> reversible(style, path, root->0),
    ensures
        same(style, resolved_path(style, captured(style, path, root), root), path),
        begins(style, path, root) ==> parts(style, resolved_path(style, captured(style, path, root), root)) == parts(style, path),
        captured(style, path, root) is RootRelative && !verbatim(style, path) && (style == PathStyle::Unix || begins(
            style,
            path,
            root,
        )) ==> resolved_path(style, captured(style, path, root), root) == clean(style, path),
        captured(style, path, root) is Absolute ==> resolved_path(style, captured(style, path, root), root) == path,
{
    if captured(style, path, root) is RootRelative {
        let r = root->0;
        let rest = below(style, path, r)->0;
        if style == PathStyle::Unix {
            lemma_unix_under(path, r);
        }
        lemma_strip_then_join(style, path, r);
        lemma_clean_keeps_parts(style, joined_path(style, r, rest));
    }
}

// ── The input files of a request ────────────────────────────────────────

/// `s` without repeats of the item just before.
pub open spec fn without_repeats(s: Seq<Seq<char>>) -> Seq<Seq<char>>
    decreases s.len(),
{
    if s.len() == 0 {
        s
    } else if s.len() > 1 && s[s.len() - 2] == s.last() {
        without_repeats(s.drop_last())
    } else {
        without_repeats(s.drop_last()).push(s.last())
    }
}

/// The files that a request reads, as the graph knows them: the source, the headers, the extern
/// crates, and what is read before the source.
pub open spec fn request_files(g: GraphView, key: Seq<char>, source: Seq<char>, forced: Seq<Seq<char>>) -> Seq<Seq<char>> {
    seq![source] + (if g.contexts.contains_key(key) {
        g.contexts[key].resolved
    } else {
        Seq::empty()
    }) + (if g.externs.contains_key(key) {
        extern_paths(g.externs[key])
    } else {
        Seq::empty()
    }) + forced
}

/// The files that a request reads, in order, each once.
pub open spec fn request_inputs(style: PathStyle, g: GraphView, key: Seq<char>, source: Seq<char>, forced: Seq<Seq<char>>) -> Seq<
    Seq<char>,
> {
    without_repeats(sorted_of(request_files(g, key, source, forced), path_order(style)))
}

/// Appends copies of paths.
fn add_paths(out: &mut Vec<NormalizedPath>, list: &[NormalizedPath])
    ensures
        path_views(final(out)@) == path_views(old(out)@) + path_views(list@),
{
    let ghost start = path_views(out@);
    let ghost all = path_views(list@);
    let mut i: usize = 0;
    assert(path_views(out@) =~= start + all.take(0));
    while i < list.len()
        invariant
            i <= list@.len(),
            all == path_views(list@),
            path_views(out@) == start + all.take(i as int),
        decreases list@.len() - i,
    {
        let ghost out0 = out@;
        out.push(list[i].clone());
        assert(path_views(out@) =~= path_views(out0).push(all[i as int]));
        assert(path_views(out@) =~= start + all.take(i + 1));
        i = i + 1;
    }
    assert(all.take(all.len() as int) =~= all);
}

/// The files that a request reads, in order, each once.
pub fn request_cache_input_paths(
    style: PathStyle,
    dep_graph: &DepGraph,
    context_key: &ContextKey,
    source_path: &NormalizedPath,
    force_includes: &[NormalizedPath],
) -> (paths: Vec<NormalizedPath>)
    requires
        dep_graph.wf(),
    ensures
        path_views(paths@) == request_inputs(
            style,
            dep_graph@,
            context_key@,
            source_path@,
            path_views(force_includes@),
        ),
{
    let ghost g = dep_graph@;
    let mut all: Vec<NormalizedPath> = Vec::new();
    all.push(source_path.clone());
    assert(path_views(all@) =~= seq![source_path@]);
    if let Some(includes) = dep_graph.get_includes(context_key) {
        add_paths(&mut all, &includes);
    } else {
        assert(path_views(all@) =~= seq![source_path@] + Seq::<Seq<char>>::empty());
    }
    let ghost front = path_views(all@);
    if let Some(externs) = dep_graph.get_rustc_externs(context_key) {
        let mut files: Vec<NormalizedPath> = Vec::new();
        let mut i: usize = 0;
        while i < externs.len()
            invariant
                i <= externs@.len(),
                files@.len() == i,
                forall|j: int| 0 <= j < i ==> (#[trigger] files@[j])@ == externs@[j].1@,
            decreases externs@.len() - i,
        {
            files.push(externs[i].1.clone());
            i = i + 1;
        }
        assert(path_views(files@) =~= extern_paths(g.externs[context_key@]));
        add_paths(&mut all, &files);
    } else {
        assert(path_views(all@) =~= front + Seq::<Seq<char>>::empty());
    }
    add_paths(&mut all, force_includes);
    let sorted = sort_paths(style, all);
    let ghost order = path_views(sorted@);
    let mut paths: Vec<NormalizedPath> = Vec::new();
    let mut i: usize = 0;
    assert(path_views(paths@) =~= without_repeats(order.take(0)));
    while i < sorted.len()
        invariant
            i <= sorted@.len(),
            order == path_views(sorted@),
            path_views(paths@) == without_repeats(order.take(i as int)),
        decreases sorted@.len() - i,
    {
        let ghost paths0 = paths@;
        let ghost now = order.take(i + 1);
        assert(now.drop_last() =~= order.take(i as int));
        assert(now.last() == sorted@[i as int]@);
        if i > 0 {
            assert(now[i - 1] == sorted@[i - 1]@);
        }
        if i == 0 || !same_text(sorted[i - 1].as_str(), sorted[i].as_str()) {
            paths.push(sorted[i].clone());
            assert(path_views(paths@) =~= path_views(paths0).push(sorted@[i as int]@));
        }
        i = i + 1;
    }
    assert(order.take(order.len() as int) =~= order);
    paths
}

/// Without repeats a list holds the same items and ends alike.
pub(crate) proof fn lemma_without_repeats(s: Seq<Seq<char>>, x: Seq<char>)
    ensures
        without_repeats(s).contains(x) <==> s.contains(x),
        s.len() > 0 ==> without_repeats(s).len() > 0 && without_repeats(s).last() == s.last(),
    decreases s.len(),
{
    if s.len() > 0 {
        let init = s.drop_last();
        lemma_without_repeats(init, x);
        let now = without_repeats(s);
        let before = without_repeats(init);
        assert(s.contains(x) <==> init.contains(x) || x == s.last()) by {
            assert(s[s.len() - 1] == s.last());
            if init.contains(x) {
                let i = init.index_of(x);
                assert(s[i] == x);
            }
            if s.contains(x) && x != s.last() {
                let i = s.index_of(x);
                assert(init[i] == x);
            }
        }
        if s.len() > 1 && s[s.len() - 2] == s.last() {
            assert(init.last() == s.last());
            assert(init[init.len() - 1] == s.last());
        } else {
            assert(now.contains(x) <==> before.contains(x) || x == s.last()) by {
                assert(now[before.len() as int] == s.last());
                if before.contains(x) {
                    let i = before.index_of(x);
                    assert(now[i] == x);
                }
                if now.contains(x) && x != s.last() {
                    let i = now.index_of(x);
                    assert(before[i] == x);
                }
            }
        }
    }
}

/// Without repeats a sorted list holds each item once.
proof fn lemma_sorted_without_repeats(style: PathStyle, s: Seq<Seq<char>>)
    requires
        sorted_by(s, path_order(style)),
    ensures
        without_repeats(s).no_duplicates(),
    decreases s.len(),
{
    if s.len() > 0 {
        let init = s.drop_last();
        let leq = path_order(style);
        assert forall|i: int, j: int| 0 <= i < j < init.len() implies #[trigger] leq(init[i], init[j]) by {
            assert(leq(s[i], s[j]));
        }
        lemma_sorted_without_repeats(style, init);
        let before = without_repeats(init);
        if !(s.len() > 1 && s[s.len() - 2] == s.last()) {
            assert(!before.contains(s.last())) by {
                lemma_without_repeats(init, s.last());
                if init.contains(s.last()) {
                    let i = init.index_of(s.last());
                    lemma_path_order(style);
                    if i < s.len() - 2 {
                        assert(leq(s[i], s[s.len() - 2]));
                        assert(leq(s[s.len() - 2], s[s.len() - 1]));
                    }
                }
            }
            let now = before.push(s.last());
            assert forall|i: int, j: int| 0 <= i < now.len() && 0 <= j < now.len() && i != j implies now[i] != now[j] by {
                if i == before.len() {
                    assert(before.contains(before[j]));
                } else if j == before.len() {
                    assert(before.contains(before[i]));
                }
            }
        }
    }
}

/// The input files of a request are all the files that it reads, each once.
pub proof fn lemma_request_inputs(style: PathStyle, g: GraphView, key: Seq<char>, source: Seq<char>, forced: Seq<Seq<char>>)
    ensures
        request_inputs(style, g, key, source, forced).no_duplicates(),
        request_inputs(style, g, key, source, forced).to_set() == request_files(g, key, source, forced).to_set(),
{
    let files = request_files(g, key, source, forced);
    let sorted = sorted_of(files, path_order(style));
    lemma_path_order(style);
    lemma_sorted_of(files, path_order(style));
    lemma_sorted_without_repeats(style, sorted);
    assert forall|x: Seq<char>| without_repeats(sorted).contains(x) <==> files.contains(x) by {
        lemma_without_repeats(sorted, x);
        crate::order::lemma_same_items(sorted, files, x);
    }
    assert(request_inputs(style, g, key, source, forced).to_set() =~= files.to_set());
}

// ── Entries ─────────────────────────────────────────────────────────────

/// What a request led to.
#[derive(Debug)]
pub struct RequestCacheEntry {
    /// The context of the compilation.
    pub context_key: ContextKey,
    /// The worktree root at the time.
    pub root: Option<NormalizedPath>,
    /// The source file.
    pub source_path: CachedRequestPath,
    /// The output file.
    pub output_path: CachedRequestPath,
    /// The dependency file.
    pub depfile_path: Option<CachedRequestPath>,
    /// The files read.
    pub input_paths: Vec<CachedRequestPath>,
    /// The entry holds in every worktree.
    pub cross_root_shareable: bool,
    /// When the entry was made.
    pub cached_at: u128,
}

/// Cached paths, by their texts.
pub open spec fn captured_views(list: Seq<CachedRequestPath>) -> Seq<CapturedView> {
    Seq::new(list.len(), |i: int| list[i]@)
}

/// The paths of a list as they are kept.
pub open spec fn captured_all(style: PathStyle, paths: Seq<Seq<char>>, root: Option<Seq<char>>) -> Seq<CapturedView> {
    Seq::new(paths.len(), |i: int| captured(style, paths[i], root))
}

/// Whether all of these move with the root.
pub open spec fn all_relative(paths: Seq<CapturedView>) -> bool {
    forall|i: int| 0 <= i < paths.len() ==> (#[trigger] paths[i]) is RootRelative
}

/// An entry, by its texts.
pub struct EntryView {
    /// The context of the compilation.
    pub context: Seq<char>,
    /// The worktree root at the time.
    pub root: Option<Seq<char>>,
    /// The source file.
    pub source: CapturedView,
    /// The output file.
    pub output: CapturedView,
    /// The dependency file.
    pub depfile: Option<CapturedView>,
    /// The files read.
    pub inputs: Seq<CapturedView>,
    /// The entry holds in every worktree.
    pub shareable: bool,
    /// When the entry was made.
    pub cached_at: u128,
}

impl View for RequestCacheEntry {
    type V = EntryView;

    open spec fn view(&self) -> EntryView {
        EntryView {
            context: self.context_key@,
            root: opt_path_view(self.root),
            source: self.source_path@,
            output: self.output_path@,
            depfile: match self.depfile_path {
                Some(p) => Some(p@),
                None => None,
            },
            inputs: captured_views(self.input_paths@),
            shareable: self.cross_root_shareable,
            cached_at: self.cached_at,
        }
    }
}

/// The entry for a request. It holds in every worktree where nothing ties what was made to this
/// one and every path, the dependency file's too, moves with the root: else a hit elsewhere
/// would read or write files of this worktree.
pub open spec fn entry_for(
    style: PathStyle,
    context: Seq<char>,
    source: Seq<char>,
    output: Seq<char>,
    depfile: Option<Seq<char>>,
    inputs: Seq<Seq<char>>,
    root: Option<Seq<char>>,
    worktree_bound: bool,
    now: u128,
) -> EntryView {
    let kept_depfile = match depfile {
        Some(p) => Some(captured(style, p, root)),
        None => None,
    };
    EntryView {
        context,
        root,
        source: captured(style, source, root),
        output: captured(style, output, root),
        depfile: kept_depfile,
        inputs: captured_all(style, inputs, root),
        shareable: {
            &&& !worktree_bound
            &&& root is Some
            &&& captured(style, source, root) is RootRelative
            &&& captured(style, output, root) is RootRelative
            &&& kept_depfile matches Some(p) ==> p is RootRelative
            &&& all_relative(captured_all(style, inputs, root))
        },
        cached_at: now,
    }
}

/// The entry for a request, made at `now`. `worktree_bound` says that what was made embeds paths
/// of this worktree, as precompiled headers do.
pub fn request_cache_entry_at(
    style: PathStyle,
    context_key: ContextKey,
    source_path: &NormalizedPath,
    output_path: &NormalizedPath,
    depfile_path: Option<&NormalizedPath>,
    input_paths: &[NormalizedPath],
    key_root: Option<&NormalizedPath>,
    worktree_bound: bool,
    now: u128,
) -> (entry: RequestCacheEntry)
    ensures
        entry@ == entry_for(
            style,
            context_key@,
            source_path@,
            output_path@,
            root_view(depfile_path),
            path_views(input_paths@),
            root_view(key_root),
            worktree_bound,
            now,
        ),
{
    let ghost root = root_view(key_root);
    let ghost names = path_views(input_paths@);
    let source = CachedRequestPath::capture(style, source_path, key_root);
    let output = CachedRequestPath::capture(style, output_path, key_root);
    let (depfile, depfile_moves) = match depfile_path {
        Some(path) => {
            let kept = CachedRequestPath::capture(style, path, key_root);
            let moves = kept.is_root_relative();
            (Some(kept), moves)
        },
        None => (None, true),
    };
    let mut inputs: Vec<CachedRequestPath> = Vec::new();
    let mut inputs_move = true;
    let mut i: usize = 0;
    while i < input_paths.len()
        invariant
            i <= input_paths@.len(),
            names == path_views(input_paths@),
            root == root_view(key_root),
            inputs@.len() == i,
            forall|j: int| 0 <= j < i ==> (#[trigger] inputs@[j])@ == captured(style, names[j], root),
            inputs_move == forall|j: int| 0 <= j < i ==> (#[trigger] captured_all(style, names, root)[j]) is RootRelative,
        decreases input_paths@.len() - i,
    {
        let kept = CachedRequestPath::capture(style, &input_paths[i], key_root);
        let moves = kept.is_root_relative();
        proof {
            let all = captured_all(style, names, root);
            assert(all[i as int] == kept@);
            if inputs_move && moves {
                assert forall|j: int| 0 <= j < i + 1 implies (#[trigger] all[j]) is RootRelative by {}
            } else if inputs_move {
                assert(!(all[i as int] is RootRelative));
            } else {
                let j = choose|j: int| 0 <= j < i && !((#[trigger] all[j]) is RootRelative);
                assert(!(all[j] is RootRelative));
            }
        }
        inputs_move = inputs_move && moves;
        inputs.push(kept);
        i = i + 1;
    }
    assert(captured_views(inputs@) =~= captured_all(style, names, root));
    let cross_root_shareable = !worktree_bound && key_root.is_some() && source.is_root_relative()
        && output.is_root_relative() && depfile_moves && inputs_move;
    let root_copy = match key_root {
        Some(r) => Some(r.clone()),
        None => None,
    };
    RequestCacheEntry {
        context_key,
        root: root_copy,
        source_path: source,
        output_path: output,
        depfile_path: depfile,
        input_paths: inputs,
        cross_root_shareable,
        cached_at: now,
    }
}

/// The entry for a request, made just now.
pub fn request_cache_entry(
    style: PathStyle,
    context_key: ContextKey,
    source_path: &NormalizedPath,
    output_path: &NormalizedPath,
    depfile_path: Option<&NormalizedPath>,
    input_paths: &[NormalizedPath],
    key_root: Option<&NormalizedPath>,
    worktree_bound: bool,
    clock: &Stopwatch,
) -> (entry: RequestCacheEntry)
    ensures
        entry@ == entry_for(
            style,
            context_key@,
            source_path@,
            output_path@,
            root_view(depfile_path),
            path_views(input_paths@),
            root_view(key_root),
            worktree_bound,
            entry.cached_at,
        ),
{
    let now = clock.read();
    request_cache_entry_at(
        style,
        context_key,
        source_path,
        output_path,
        depfile_path,
        input_paths,
        key_root,
        worktree_bound,
        now,
    )
}

/// Whether an entry can be used under this root.
pub open spec fn matches_root(entry: EntryView, root: Option<Seq<char>>) -> bool {
    entry.root == root || (entry.shareable && entry.root is Some && root is Some)
}

/// Whether an entry can be used under this root: under its own always, under another where it
/// holds in every worktree.
pub fn request_cache_entry_matches_root(entry: &RequestCacheEntry, key_root: Option<&NormalizedPath>) -> (yes: bool)
    ensures
        yes == matches_root(entry@, root_view(key_root)),
{
    match (&entry.root, key_root) {
        (Some(a), Some(b)) => same_text(a.as_str(), b.as_str()) || entry.cross_root_shareable,
        (None, None) => true,
        (Some(_), None) => false,
        (None, Some(_)) => false,
    }
}

/// An entry tied to its worktree is used under no other root.
pub proof fn lemma_bound_entry_stays(
    style: PathStyle,
    context: Seq<char>,
    source: Seq<char>,
    output: Seq<char>,
    depfile: Option<Seq<char>>,
    inputs: Seq<Seq<char>>,
    root: Option<Seq<char>>,
    now: u128,
    other: Option<Seq<char>>,
)
    ensures
        matches_root(entry_for(style, context, source, output, depfile, inputs, root, true, now), other) <==> other == root,
{
}

/// An entry is used under another root only where every path of it moves with the root.
pub proof fn lemma_shared_entry_moves(
    style: PathStyle,
    context: Seq<char>,
    source: Seq<char>,
    output: Seq<char>,
    depfile: Option<Seq<char>>,
    inputs: Seq<Seq<char>>,
    root: Option<Seq<char>>,
    bound: bool,
    now: u128,
    other: Option<Seq<char>>,
)
    requires
        other != root,
        matches_root(entry_for(style, context, source, output, depfile, inputs, root, bound, now), other),
    ensures
        ({
            let entry = entry_for(style, context, source, output, depfile, inputs, root, bound, now);
            &&& !bound
            &&& entry.source is RootRelative
            &&& entry.output is RootRelative
            &&& entry.depfile matches Some(p) ==> p is RootRelative
            &&& all_relative(entry.inputs)
        }),
{
}

// ── Validation ──────────────────────────────────────────────────────────

/// Names a validation: a request under a root.
#[derive(Debug)]
pub struct RequestValidationKey {
    /// The fingerprint of the request.
    pub request_fp: ContentHash,
    /// The root.
    pub root: NormalizedPath,
}

/// The text under which a validation is stored.
pub open spec fn validation_text(fp: Seq<char>, root: Seq<char>) -> Seq<char> {
    fp + "\n"@ + root
}

/// Distinct requests and roots are stored apart: a fingerprint is written on one line.
pub proof fn lemma_validation_text(fp_a: Seq<char>, root_a: Seq<char>, fp_b: Seq<char>, root_b: Seq<char>)
    requires
        forall|i: int| 0 <= i < fp_a.len() ==> fp_a[i] != '\n',
        forall|i: int| 0 <= i < fp_b.len() ==> fp_b[i] != '\n',
        validation_text(fp_a, root_a) == validation_text(fp_b, root_b),
    ensures
        fp_a == fp_b,
        root_a == root_b,
{
    reveal_strlit("\n");
    let s = validation_text(fp_a, root_a);
    let t = validation_text(fp_b, root_b);
    assert(s[fp_a.len() as int] == '\n');
    assert(t[fp_b.len() as int] == '\n');
    assert forall|j: int| 0 <= j < fp_a.len() implies s[j] != '\n' by {
        assert(s[j] == fp_a[j]);
    }
    assert forall|j: int| 0 <= j < fp_b.len() implies t[j] != '\n' by {
        assert(t[j] == fp_b[j]);
    }
    lemma_first_at(s, '\n', fp_a.len() as int);
    lemma_first_at(t, '\n', fp_b.len() as int);
    let n = fp_a.len() as int;
    assert(s.take(n) =~= fp_a);
    assert(t.take(n) =~= fp_b);
    assert(s.skip(n + 1) =~= root_a);
    assert(t.skip(n + 1) =~= root_b);
}

/// The name of a validation.
pub fn request_validation_key(request_fp: &ContentHash, root: &NormalizedPath) -> (key: RequestValidationKey)
    ensures
        key.request_fp@ == request_fp@,
        key.root@ == root@,
{
    RequestValidationKey { request_fp: request_fp.clone(), root: root.clone() }
}

impl RequestValidationKey {
    /// The text under which the validation is stored.
    pub fn text(&self) -> (text: String)
        ensures
            text@ == validation_text(self.request_fp@, self.root@),
    {
        concat3(self.request_fp.to_hex(), "\n", self.root.as_str())
    }
}

/// A request that was found to make an artifact under a root.
#[derive(Debug)]
pub struct RequestValidationEntry {
    /// The artifact.
    pub artifact_key_hex: String,
    /// The journal's clock before the files were read.
    pub clock: u64,
    /// When it was found.
    pub cached_at: u128,
}

/// The files of an entry, seen from `root`.
pub open spec fn inputs_under(style: PathStyle, inputs: Seq<CapturedView>, root: Seq<char>) -> Seq<Seq<char>> {
    Seq::new(inputs.len(), |i: int| resolved_path(style, inputs[i], Some(root)))
}

/// The files of an entry, seen from `root`; `None` where the entry does not hold there.
pub open spec fn entry_inputs(style: PathStyle, entry: EntryView, root: Seq<char>) -> Option<Seq<Seq<char>>> {
    if entry.shareable && all_relative(entry.inputs) {
        Some(inputs_under(style, entry.inputs, root))
    } else {
        None
    }
}

/// The files of an entry, seen from `root`; `None` where the entry does not hold there.
pub fn request_cache_resolved_inputs(style: PathStyle, entry: &RequestCacheEntry, root: &NormalizedPath) -> (paths: Option<
    Vec<NormalizedPath>,
>)
    ensures
        match paths {
            Some(list) => entry_inputs(style, entry@, root@) == Some(path_views(list@)),
            None => entry_inputs(style, entry@, root@) is None,
        },
{
    if !entry.cross_root_shareable {
        return None;
    }
    let ghost inputs = captured_views(entry.input_paths@);
    let mut list: Vec<NormalizedPath> = Vec::new();
    let mut i: usize = 0;
    while i < entry.input_paths.len()
        invariant
            i <= entry.input_paths@.len(),
            inputs == captured_views(entry.input_paths@),
            list@.len() == i,
            forall|j: int| 0 <= j < i ==> (#[trigger] inputs[j]) is RootRelative,
            forall|j: int| 0 <= j < i ==> (#[trigger] list@[j])@ == resolved_path(style, inputs[j], Some(root@)),
        decreases entry.input_paths@.len() - i,
    {
        assert(inputs[i as int] == entry.input_paths@[i as int]@);
        if !entry.input_paths[i].is_root_relative() {
            assert(!(inputs[i as int] is RootRelative));
            return None;
        }
        list.push(entry.input_paths[i].resolve(style, Some(root)));
        i = i + 1;
    }
    assert(path_views(list@) =~= inputs_under(style, inputs, root@));
    Some(list)
}

/// The files of an entry are seen from a root exactly where the entry holds in every worktree:
/// then each is what lay below the root of the entry, seen from the other root.
pub proof fn lemma_entry_inputs_move(
    style: PathStyle,
    context: Seq<char>,
    source: Seq<char>,
    output: Seq<char>,
    depfile: Option<Seq<char>>,
    inputs: Seq<Seq<char>>,
    root: Option<Seq<char>>,
    bound: bool,
    now: u128,
    other: Seq<char>,
)
    ensures
        ({
            let entry = entry_for(style, context, source, output, depfile, inputs, root, bound, now);
            &&& entry.shareable ==> {
                &&& root is Some
                &&& entry_inputs(style, entry, other) is Some
                &&& entry_inputs(style, entry, other)->0.len() == inputs.len()
                &&& forall|i: int|
                    0 <= i < inputs.len() ==> below(style, #[trigger] inputs[i], root->0) is Some && entry_inputs(
                        style,
                        entry,
                        other,
                    )->0[i] == clean(style, joined_path(style, other, below(style, inputs[i], root->0)->0))
            }
            &&& !entry.shareable ==> entry_inputs(style, entry, other) is None
        }),
{
    let entry = entry_for(style, context, source, output, depfile, inputs, root, bound, now);
    if entry.shareable {
        assert forall|i: int| 0 <= i < inputs.len() implies below(style, #[trigger] inputs[i], root->0) is Some && entry_inputs(
            style,
            entry,
            other,
        )->0[i] == clean(style, joined_path(style, other, below(style, inputs[i], root->0)->0)) by {
            assert(entry.inputs[i] is RootRelative);
            assert(entry.inputs[i] == captured(style, inputs[i], root));
        }
    }
}

/// The files of an entry, seen from the root of the entry, are the files it was made with.
pub proof fn lemma_entry_inputs_again(
    style: PathStyle,
    context: Seq<char>,
    source: Seq<char>,
    output: Seq<char>,
    depfile: Option<Seq<char>>,
    inputs: Seq<Seq<char>>,
    root: Seq<char>,
    bound: bool,
    now: u128,
)
    requires
        entry_for(style, context, source, output, depfile, inputs, Some(root), bound, now).shareable,
        style == PathStyle::Windows ==> forall|i: int| 0 <= i < inputs.len() ==> reversible(style, #[trigger] inputs[i], root),
    ensures
        ({
            let entry = entry_for(style, context, source, output, depfile, inputs, Some(root), bound, now);
            let list = entry_inputs(style, entry, root)->0;
            &&& entry_inputs(style, entry, root) is Some
            &&& list.len() == inputs.len()
            &&& forall|i: int|
                0 <= i < inputs.len() ==> same(style, list[i], #[trigger] inputs[i]) && (!verbatim(style, inputs[i]) && (style
                    == PathStyle::Unix || begins(style, inputs[i], Some(root))) ==> list[i] == clean(style, inputs[i]))
        }),
{
    let entry = entry_for(style, context, source, output, depfile, inputs, Some(root), bound, now);
    let list = entry_inputs(style, entry, root)->0;
    lemma_entry_inputs_move(style, context, source, output, depfile, inputs, Some(root), bound, now, root);
    assert forall|i: int| 0 <= i < inputs.len() implies same(style, list[i], #[trigger] inputs[i]) && (!verbatim(
        style,
        inputs[i],
    ) && (style == PathStyle::Unix || begins(style, inputs[i], Some(root))) ==> list[i] == clean(style, inputs[i])) by {
        assert(below(style, inputs[i], root) is Some);
        lemma_capture_then_resolve(style, inputs[i], Some(root));
    }
}

/// Whether none of the files may have changed after the clock stood at `since`.
pub open spec fn unchanged_since(c: CacheView, paths: Seq<Seq<char>>, since: u64) -> bool {
    forall|i: int| 0 <= i < paths.len() ==> !changed_after(c.journal, #[trigger] paths[i], since)
}

/// Whether none of the files may have changed after the clock stood at `since`.
pub fn request_cache_inputs_fresh_since(cache_system: &CacheSystem, paths: &[NormalizedPath], since: u64) -> (fresh: bool)
    requires
        cache_system.wf(),
    ensures
        fresh == unchanged_since(cache_system@, path_views(paths@), since),
{
    let mut i: usize = 0;
    while i < paths.len()
        invariant
            i <= paths@.len(),
            cache_system.wf(),
            forall|j: int| 0 <= j < i ==> !changed_after(cache_system@.journal, #[trigger] path_views(paths@)[j], since),
        decreases paths@.len() - i,
    {
        if cache_system.changed_since(&paths[i], since) {
            assert(changed_after(cache_system@.journal, path_views(paths@)[i as int], since));
            return false;
        }
        i = i + 1;
    }
    true
}

/// Whether something that was found at `at` is at most `max_age` old at `now`.
pub open spec fn fresh_at(now: u128, at: u128, max_age: u128) -> bool {
    now - at <= max_age
}

/// Whether a validation vouches for the artifact still.
pub open spec fn still_valid(
    v: RequestValidationEntry,
    c: CacheView,
    paths: Seq<Seq<char>>,
    expected: Seq<char>,
    now: u128,
    max_age: u128,
) -> bool {
    &&& v.artifact_key_hex@ == expected
    &&& fresh_at(now, v.cached_at, max_age)
    &&& unchanged_since(c, paths, v.clock)
}

/// What is to be done about an entry of the request cache.
#[derive(Debug)]
pub enum RequestCheck {
    /// The entry does not hold here.
    Mismatch,
    /// It holds, as was found before.
    Valid,
    /// These files are to be read to find out; the journal's clock stands here.
    Hash {
        /// The files.
        paths: Vec<NormalizedPath>,
        /// The clock.
        clock: u64,
    },
}

/// What is to be done, by its texts.
pub enum CheckView {
    /// The entry does not hold here.
    Mismatch,
    /// It holds, as was found before.
    Valid,
    /// These files are to be read; the clock stands here.
    Hash(Seq<Seq<char>>, u64),
}

impl View for RequestCheck {
    type V = CheckView;

    open spec fn view(&self) -> CheckView {
        match *self {
            RequestCheck::Mismatch => CheckView::Mismatch,
            RequestCheck::Valid => CheckView::Valid,
            RequestCheck::Hash { paths, clock } => CheckView::Hash(path_views(paths@), clock),
        }
    }
}

/// What is to be done about an entry, and the journal afterwards: files that are going to be read
/// are put under watch first, so that no change is missed.
pub open spec fn check_entry(
    style: PathStyle,
    c: CacheView,
    validations: Map<Seq<char>, RequestValidationEntry>,
    entry: EntryView,
    fp: Seq<char>,
    root: Option<Seq<char>>,
    expected: Seq<char>,
    now: u128,
    max_age: u128,
) -> (CacheView, CheckView) {
    match root {
        None => (c, CheckView::Mismatch),
        Some(r) => match entry_inputs(style, entry, r) {
            None => (c, CheckView::Mismatch),
            Some(paths) => {
                let k = validation_text(fp, r);
                if validations.contains_key(k) && still_valid(validations[k], c, paths, expected, now, max_age) {
                    (c, CheckView::Valid)
                } else {
                    (
                        CacheView { journal: watched(c.journal, paths, c.clock), ..c },
                        CheckView::Hash(paths, c.clock),
                    )
                }
            },
        },
    }
}

/// Decides what is to be done about an entry.
pub fn request_cache_check(
    style: PathStyle,
    cache_system: &mut CacheSystem,
    validations: &Table<RequestValidationEntry>,
    entry: &RequestCacheEntry,
    request_fp: &ContentHash,
    key_root: Option<&NormalizedPath>,
    expected_artifact_key_hex: &str,
    now: u128,
    max_age: u128,
) -> (check: RequestCheck)
    requires
        old(cache_system).wf(),
        validations.wf(),
    ensures
        final(cache_system).wf(),
        (final(cache_system)@, check@) == check_entry(
            style,
            old(cache_system)@,
            validations@,
            entry@,
            request_fp@,
            root_view(key_root),
            expected_artifact_key_hex@,
            now,
            max_age,
        ),
{
    let root = match key_root {
        Some(root) => root,
        None => {
            return RequestCheck::Mismatch;
        },
    };
    let paths = match request_cache_resolved_inputs(style, entry, root) {
        Some(paths) => paths,
        None => {
            return RequestCheck::Mismatch;
        },
    };
    let key = request_validation_key(request_fp, root).text();
    if let Some(validation) = validations.get(key.as_str()) {
        let young = now <= validation.cached_at || now - validation.cached_at <= max_age;
        if same_text(validation.artifact_key_hex.as_str(), expected_artifact_key_hex) && young
            && request_cache_inputs_fresh_since(cache_system, &paths, validation.clock) {
            return RequestCheck::Valid;
        }
    }
    cache_system.register_tracked(&paths);
    let clock = cache_system.current_clock();
    RequestCheck::Hash { paths, clock }
}

/// Whether the files, as they were read, make the expected artifact.
pub open spec fn makes_artifact(
    style: PathStyle,
    context: Seq<char>,
    root: Seq<char>,
    facts: Seq<FileFact>,
    paths: Seq<Seq<char>>,
    expected: Seq<char>,
) -> bool {
    match hashed(facts, paths) {
        Some(files) => blake3_hex(artifact_bytes(context, labels(style, files, Some(root)))) == expected,
        None => false,
    }
}

/// Decides, once the files were read, whether an entry holds, and remembers that it does.
pub fn request_cache_settle(
    style: PathStyle,
    validations: &mut Table<RequestValidationEntry>,
    entry: &RequestCacheEntry,
    request_fp: &ContentHash,
    root: &NormalizedPath,
    expected_artifact_key_hex: &str,
    paths: &[NormalizedPath],
    clock: u64,
    facts: &[FileFact],
    now: u128,
) -> (holds: bool)
    requires
        old(validations).wf(),
    ensures
        final(validations).wf(),
        holds == makes_artifact(
            style,
            entry@.context,
            root@,
            facts@,
            path_views(paths@),
            expected_artifact_key_hex@,
        ),
        !holds ==> final(validations)@ == old(validations)@,
        holds ==> exists|v: RequestValidationEntry|
            {
                &&& final(validations)@ == #[trigger] old(validations)@.insert(
                    validation_text(request_fp@, root@),
                    v,
                )
                &&& v.artifact_key_hex@ == expected_artifact_key_hex@
                &&& v.clock == clock
                &&& v.cached_at == now
            },
{
    let none: Vec<(NormalizedPath, ContentHash)> = Vec::new();
    proof {
        assert(file_views(none@) =~= Seq::<(Seq<char>, Seq<char>)>::empty());
        assert(Seq::<Seq<char>>::empty() + path_views(paths@) =~= path_views(paths@));
    }
    let files = match hash_paths(none, paths, facts, Ghost(Seq::empty())) {
        Some(files) => files,
        None => {
            return false;
        },
    };
    let artifact = compute_artifact_key(style, &entry.context_key, &files, Some(root.as_str()));
    let holds = same_text(artifact.hash().to_hex(), expected_artifact_key_hex);
    if holds {
        let key = request_validation_key(request_fp, root).text();
        let v = RequestValidationEntry {
            artifact_key_hex: expected_artifact_key_hex.to_owned(),
            clock,
            cached_at: now,
        };
        validations.insert(key, v);
        assert(validations@ == old(validations)@.insert(validation_text(request_fp@, root@), v));
    }
    holds
}

/// Whether an entry holds here: it was found to, and nothing changed since; or the files, as they
/// are known, make the expected artifact. `now` is when the question is asked; what is found out is
/// remembered as of when it was, by the clock.
pub fn request_cache_artifact_matches(
    style: PathStyle,
    cache_system: &mut CacheSystem,
    validations: &mut Table<RequestValidationEntry>,
    entry: &RequestCacheEntry,
    request_fp: &ContentHash,
    key_root: Option<&NormalizedPath>,
    expected_artifact_key_hex: &str,
    facts: &[FileFact],
    now: u128,
    max_age: u128,
    clock: &Stopwatch,
) -> (holds: bool)
    requires
        old(cache_system).wf(),
        old(validations).wf(),
    ensures
        final(cache_system).wf(),
        final(validations).wf(),
        ({
            let (after, check) = check_entry(
                style,
                old(cache_system)@,
                old(validations)@,
                entry@,
                request_fp@,
                root_view(key_root),
                expected_artifact_key_hex@,
                now,
                max_age,
            );
            &&& final(cache_system)@ == after
            &&& holds == (match check {
                CheckView::Mismatch => false,
                CheckView::Valid => true,
                CheckView::Hash(paths, _) => makes_artifact(
                    style,
                    entry@.context,
                    root_view(key_root)->0,
                    facts@,
                    paths,
                    expected_artifact_key_hex@,
                ),
            })
            &&& !(holds && check is Hash) ==> final(validations)@ == old(validations)@
            &&& holds && check is Hash ==> exists|v: RequestValidationEntry|
                {
                    &&& final(validations)@ == #[trigger] old(validations)@.insert(
                        validation_text(request_fp@, root_view(key_root)->0),
                        v,
                    )
                    &&& v.artifact_key_hex@ == expected_artifact_key_hex@
                    &&& v.clock == old(cache_system)@.clock
                }
        }),
{
    let check = request_cache_check(
        style,
        cache_system,
        validations,
        entry,
        request_fp,
        key_root,
        expected_artifact_key_hex,
        now,
        max_age,
    );
    match check {
        RequestCheck::Mismatch => false,
        RequestCheck::Valid => true,
        RequestCheck::Hash { paths, clock: since } => match key_root {
            Some(root) => {
                let found_at = clock.read();
                request_cache_settle(
                    style,
                    validations,
                    entry,
                    request_fp,
                    root,
                    expected_artifact_key_hex,
                    &paths,
                    since,
                    facts,
                    found_at,
                )
            },
            None => false,
        },
    }
}

/// An entry that is tied to its worktree, or tried where there is none, is never taken to hold by
/// its files.
pub proof fn lemma_unshared_entry_mismatches(
    style: PathStyle,
    c: CacheView,
    validations: Map<Seq<char>, RequestValidationEntry>,
    entry: EntryView,
    fp: Seq<char>,
    root: Option<Seq<char>>,
    expected: Seq<char>,
    now: u128,
    max_age: u128,
)
    requires
        !entry.shareable || root is None,
    ensures
        check_entry(style, c, validations, entry, fp, root, expected, now, max_age) == (c, CheckView::Mismatch),
{
}

/// Files under watch that have not changed by the journal's clock are unchanged: a validation made
/// now holds until the journal notes a change.
pub proof fn lemma_watched_is_unchanged(c: CacheView, paths: Seq<Seq<char>>)
    requires
        noted_in_time(c),
    ensures
        unchanged_since(CacheView { journal: watched(c.journal, paths, c.clock), ..c }, paths, c.clock),
        forall|k: Seq<char>| #[trigger]
            watched(c.journal, paths, c.clock).contains_key(k) ==> watched(c.journal, paths, c.clock)[k] <= c.clock,
    decreases paths.len(),
{
    if paths.len() > 0 {
        let init = paths.drop_last();
        lemma_watched_is_unchanged(c, init);
        let before = watched(c.journal, init, c.clock);
        let now = watched(c.journal, paths, c.clock);
        assert forall|i: int| 0 <= i < paths.len() implies !changed_after(now, #[trigger] paths[i], c.clock) by {
            if i < init.len() {
                assert(init[i] == paths[i]);
                assert(!changed_after(before, init[i], c.clock));
            }
        }
    }
}

// ── Strict paths ────────────────────────────────────────────────────────

/// The strict-paths mode of a request: off where the client sent no environment, else what the
/// environment was read as.
pub fn strict_paths_mode_from_client_env<M>(
    client_env: Option<&[(String, String)]>,
    off: M,
    parsed: Result<M, String>,
) -> (mode: Result<M, String>)
    ensures
        mode == (match client_env {
            Some(_) => parsed,
            None => Ok(off),
        }),
{
    match client_env {
        Some(_) => parsed,
        None => Ok(off),
    }
}

} // verus!
